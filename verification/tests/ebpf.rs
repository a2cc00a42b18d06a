use flowsketch::ebpf::clock::{timespec_nanos, KernelClockConverter};
use flowsketch::ebpf::direction;
use flowsketch::ebpf::record::{EbpfError, EbpfFlowEvent, EBPF_FLOW_EVENT_SIZE};
use flowsketch::ebpf::tc::{
    check_counter_map, check_ring_size, counter_sum, poll_fault, poll_timeout_ms,
    TcCollectorCounters, TcCollectorError,
};
use flowsketch::event::Direction;
use flowsketch::ip::IpAddr;

#[test]
fn converts_ipv4_event_to_flow_event() {
    let mut src = [0u8; 16];
    src[12..].copy_from_slice(&[10, 0, 0, 1]);
    let mut dst = [0u8; 16];
    dst[12..].copy_from_slice(&[10, 0, 0, 2]);
    let ev = EbpfFlowEvent {
        ts_nanos: 1,
        src_ip: src,
        dst_ip: dst,
        src_port: 1234,
        dst_port: 443,
        bytes: 1500,
        interface_index: 2,
        protocol: 6,
        ip_version: 4,
        tcp_flags: 0x12,
        direction: direction::INGRESS,
    };
    let flow = ev.try_into_flow_event(1_700_000_000_000_000_000).unwrap();
    assert_eq!(flow.src_ip, IpAddr::v4(10, 0, 0, 1));
    assert_eq!(flow.dst_ip, IpAddr::v4(10, 0, 0, 2));
    assert_eq!(flow.dst_port, 443);
    assert_eq!(flow.interface_index, 2);
    assert_eq!(flow.direction, Direction::Ingress);
    assert_eq!(flow.ts_nanos, 1_700_000_000_000_000_000);
}

#[test]
fn rejects_unknown_ip_version() {
    let ev = EbpfFlowEvent {
        ts_nanos: 0,
        src_ip: [0; 16],
        dst_ip: [0; 16],
        src_port: 0,
        dst_port: 0,
        bytes: 0,
        interface_index: 0,
        protocol: 0,
        ip_version: 5,
        tcp_flags: 0,
        direction: direction::UNKNOWN,
    };
    assert!(ev.try_into_flow_event(1).is_err());
}

#[test]
fn monotonic_clock_conversion_produces_epoch_time() {
    let converter = KernelClockConverter::from_samples(5_000_000_000, 1_700_000_000_000_000_000);
    assert_eq!(
        converter.to_unix_nanos(6_000_000_000).unwrap(),
        1_700_000_001_000_000_000
    );
    let underflow = KernelClockConverter::from_samples(10, 0);
    assert!(matches!(
        underflow.to_unix_nanos(0),
        Err(EbpfError::TimestampOutOfRange(0))
    ));
}

#[test]
fn clock_readings_are_checked() {
    assert_eq!(timespec_nanos(1, 2, 3).unwrap(), 2_000_000_003);
    assert!(timespec_nanos(1, -1, 0).is_err());
    assert!(timespec_nanos(1, 0, 1_000_000_000).is_err());
}

#[test]
fn wire_record_has_stable_layout_and_round_trips() {
    let event = EbpfFlowEvent {
        ts_nanos: 0x0102_0304_0506_0708,
        src_ip: [0x11; 16],
        dst_ip: [0x22; 16],
        bytes: 1500,
        interface_index: 9,
        src_port: 1234,
        dst_port: 443,
        protocol: 6,
        ip_version: 6,
        tcp_flags: 0x12,
        direction: direction::EGRESS,
    };
    assert_eq!(std::mem::size_of::<EbpfFlowEvent>(), EBPF_FLOW_EVENT_SIZE);
    let encoded = event.encode_ne();
    assert_eq!(&encoded[8..24], &[0x11; 16]);
    assert_eq!(&encoded[24..40], &[0x22; 16]);
    assert_eq!(EbpfFlowEvent::decode_ne(&encoded).unwrap(), event);
    // The byte order is that of the machine.
    assert_eq!(&encoded[0..8], &0x0102_0304_0506_0708u64.to_ne_bytes());
    assert_eq!(&encoded[40..44], &1500u32.to_ne_bytes());
}

#[test]
fn both_byte_orders_round_trip() {
    let event = EbpfFlowEvent {
        ts_nanos: 7,
        src_ip: [1; 16],
        dst_ip: [2; 16],
        bytes: 3,
        interface_index: 4,
        src_port: 5,
        dst_port: 6,
        protocol: 17,
        ip_version: 4,
        tcp_flags: 0,
        direction: direction::UNKNOWN,
    };
    for little in [false, true] {
        let bytes = event.encode(little);
        assert_eq!(EbpfFlowEvent::decode(&bytes, little).unwrap(), event);
    }
    assert_eq!(event.encode(false)[7], 7);
    assert_eq!(event.encode(true)[0], 7);
}

#[test]
fn wire_decoder_rejects_wrong_size_and_direction() {
    for len in 0..=EBPF_FLOW_EVENT_SIZE * 2 {
        if len == EBPF_FLOW_EVENT_SIZE {
            continue;
        }
        assert!(matches!(
            EbpfFlowEvent::decode_ne(&vec![0; len]),
            Err(EbpfError::InvalidRecordSize { .. })
        ));
    }
    let mut encoded = EbpfFlowEvent {
        ts_nanos: 0,
        src_ip: [0; 16],
        dst_ip: [0; 16],
        bytes: 0,
        interface_index: 0,
        src_port: 0,
        dst_port: 0,
        protocol: 0,
        ip_version: 4,
        tcp_flags: 0,
        direction: direction::UNKNOWN,
    }
    .encode_ne();
    encoded[55] = 99;
    let event = EbpfFlowEvent::decode_ne(&encoded).unwrap();
    assert!(matches!(
        event.try_into_flow_event(1),
        Err(EbpfError::UnsupportedDirection(99))
    ));
}

#[test]
fn counter_identity_detects_missing_packets() {
    let valid = TcCollectorCounters {
        packets: 10,
        emitted: 7,
        ring_drops: 1,
        parse_errors: 1,
        unsupported: 1,
    };
    assert!(valid.is_consistent());
    assert!(!TcCollectorCounters {
        packets: 11,
        ..valid
    }
    .is_consistent());
    assert!(!TcCollectorCounters {
        packets: u64::MAX,
        emitted: u64::MAX,
        ring_drops: 1,
        ..TcCollectorCounters::default()
    }
    .is_consistent());
}

#[test]
fn collector_limits_are_checked() {
    for n in [65_536u32, 1 << 20, 1 << 30] {
        assert!(check_ring_size(n).is_ok());
    }
    for n in [0u32, 32_768, 65_537, 1 << 31] {
        assert!(matches!(
            check_ring_size(n),
            Err(TcCollectorError::InvalidRingSize(m)) if m == n
        ));
    }
    assert!(check_counter_map(5).is_ok());
    assert!(check_counter_map(4).is_err());
    assert_eq!(counter_sum(0, &[1, 2, 3]).unwrap(), 6);
    assert!(matches!(
        counter_sum(3, &[u64::MAX, 1]),
        Err(TcCollectorError::CounterOverflow(3))
    ));
    assert_eq!(poll_timeout_ms(100), 100);
    assert_eq!(poll_timeout_ms(u128::MAX), i32::MAX);
    assert!(poll_fault(1).is_none());
    assert!(poll_fault(8).is_some());
}

#[test]
fn taken_records_encode_to_the_same_bytes() {
    let mut bytes = [0u8; EBPF_FLOW_EVENT_SIZE];
    for (i, b) in bytes.iter_mut().enumerate() {
        *b = i as u8 * 3 + 1;
    }
    bytes[EBPF_FLOW_EVENT_SIZE - 1] = direction::INGRESS;
    for little in [false, true] {
        let event = EbpfFlowEvent::decode(&bytes, little).unwrap();
        assert_eq!(event.encode(little), bytes);
    }
}
