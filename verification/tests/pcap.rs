use flowsketch::ip::IpAddr;
use flowsketch::pcap::linktype;
use flowsketch::pcap::parse::{
    parse_packet, parse_packet_with_wire_len, ETHERTYPE_IPV4, ETHERTYPE_IPV6, ETHERTYPE_VLAN,
};
use flowsketch::pcap::reader::{PcapError, PcapReader};
use flowsketch::pcap::writer::PcapWriter;
use flowsketch::synth::{run, Synth, SynthOptions, Trace};

fn v6(last: u16) -> IpAddr {
    IpAddr::v6([0x2001, 0xdb8, 0, 0, 0, 0, 0, last])
}

/// Hand-built Ethernet + IPv4 + TCP frame.
fn ipv4_tcp_frame() -> Vec<u8> {
    let mut f = Vec::new();
    f.extend_from_slice(&[0u8; 12]); // MACs
    f.extend_from_slice(&ETHERTYPE_IPV4.to_be_bytes());
    // IPv4 header, 20 bytes
    f.push(0x45); // version 4, IHL 5
    f.push(0);
    f.extend_from_slice(&40u16.to_be_bytes()); // total length
    f.extend_from_slice(&[0, 0, 0, 0]); // id, frag
    f.push(64); // ttl
    f.push(6); // protocol TCP
    f.extend_from_slice(&[0, 0]); // checksum
    f.extend_from_slice(&[192, 168, 1, 2]); // src
    f.extend_from_slice(&[10, 0, 0, 9]); // dst
    // TCP header, 20 bytes
    f.extend_from_slice(&12345u16.to_be_bytes());
    f.extend_from_slice(&443u16.to_be_bytes());
    f.extend_from_slice(&[0; 8]); // seq, ack
    f.push(0x50); // data offset
    f.push(0x12); // SYN|ACK
    f.extend_from_slice(&[0; 4]); // window, checksum
    f.extend_from_slice(&[0; 2]); // urgent
    f
}

#[test]
fn write_then_read_round_trips() {
    let mut w = PcapWriter::new();
    w.write_tcp_packet(
        1_700_000_000_000_000_000,
        IpAddr::v4(10, 0, 1, 10),
        IpAddr::v4(10, 0, 2, 50),
        40_000,
        443,
        0x18, // PSH|ACK
        1_200,
    );
    w.write_udp_packet(
        1_700_000_001_000_000_000,
        IpAddr::v4(10, 0, 1, 11),
        IpAddr::v4(10, 0, 2, 51),
        50_000,
        53,
        300,
    );
    w.write_tcp_packet(
        1_700_000_002_000_000_000,
        v6(1),
        v6(2),
        1234,
        8080,
        0x02, // SYN
        600,
    );
    assert_eq!(w.packets_written(), 3);

    let mut r = PcapReader::new(w.take_bytes()).unwrap();
    assert_eq!(r.linktype(), linktype::ETHERNET);

    let e1 = r.next_event().unwrap().unwrap();
    assert_eq!(e1.src_ip, IpAddr::v4(10, 0, 1, 10));
    assert_eq!(e1.dst_ip, IpAddr::v4(10, 0, 2, 50));
    assert_eq!((e1.src_port, e1.dst_port), (40_000, 443));
    assert_eq!(e1.protocol, 6);
    assert_eq!(e1.tcp_flags, 0x18);
    assert_eq!(e1.ts_nanos, 1_700_000_000_000_000_000);
    assert!(e1.bytes >= 1_200);

    let e2 = r.next_event().unwrap().unwrap();
    assert_eq!(e2.protocol, 17);
    assert_eq!((e2.src_port, e2.dst_port), (50_000, 53));

    let e3 = r.next_event().unwrap().unwrap();
    assert_eq!(e3.src_ip, v6(1));
    assert_eq!(e3.protocol, 6);
    assert_eq!(e3.tcp_flags, 0x02);

    assert!(r.next_event().unwrap().is_none());
    assert_eq!(r.packets_read(), 3);
}

#[test]
fn rejects_out_of_range_subsecond_timestamp() {
    let mut w = PcapWriter::new();
    w.write_udp_packet(
        1_700_000_000_000_000_000,
        IpAddr::v4(10, 0, 0, 1),
        IpAddr::v4(10, 0, 0, 2),
        1234,
        53,
        64,
    );
    let mut bytes = w.take_bytes();
    // Global header is 24 bytes; record timestamp sub-seconds starts at
    // byte 28. PcapWriter emits nanosecond-resolution files.
    bytes[28..32].copy_from_slice(&1_000_000_000u32.to_le_bytes());
    let mut reader = PcapReader::new(bytes).unwrap();
    assert!(matches!(
        reader.next_packet(),
        Err(PcapError::InvalidTimestamp)
    ));
}

#[test]
fn full_payload_writer_emits_wire_sized_frames() {
    let mut compact = PcapWriter::new();
    let mut full = PcapWriter::new_full_payload();
    for w in [&mut compact, &mut full] {
        w.write_tcp_packet(
            1,
            IpAddr::v4(10, 0, 0, 1),
            IpAddr::v4(10, 0, 0, 2),
            1234,
            443,
            0x18,
            1_200,
        );
    }
    let (_, compact_len, compact_frame) = PcapReader::new(compact.take_bytes())
        .unwrap()
        .next_packet()
        .unwrap()
        .unwrap();
    let (_, full_len, full_frame) = PcapReader::new(full.take_bytes())
        .unwrap()
        .next_packet()
        .unwrap()
        .unwrap();
    assert_eq!(compact_len, 1_254);
    assert_eq!(compact_frame.len(), 118);
    assert_eq!(full_len, 1_254);
    assert_eq!(full_frame.len(), 1_254);
}

#[test]
fn rejects_non_pcap_input() {
    let junk = vec![0u8; 64];
    assert!(matches!(
        PcapReader::new(junk),
        Err(PcapError::BadMagic(_))
    ));
}

#[test]
fn truncated_files_are_refused() {
    assert!(PcapReader::new(vec![0u8; 10]).is_err());
    let mut w = PcapWriter::new();
    w.write_udp_packet(1, IpAddr::v4(1, 1, 1, 1), IpAddr::v4(2, 2, 2, 2), 1, 2, 10);
    let mut bytes = w.take_bytes();
    let n = bytes.len();
    bytes.truncate(n - 3);
    let mut r = PcapReader::new(bytes).unwrap();
    assert!(matches!(r.next_packet(), Err(PcapError::Truncated)));
}

#[test]
fn parses_ipv4_tcp() {
    let e = parse_packet(linktype::ETHERNET, &ipv4_tcp_frame()).unwrap();
    assert_eq!(e.src_ip, IpAddr::v4(192, 168, 1, 2));
    assert_eq!(e.dst_ip, IpAddr::v4(10, 0, 0, 9));
    assert_eq!((e.src_port, e.dst_port), (12345, 443));
    assert_eq!(e.protocol, 6);
    assert_eq!(e.tcp_flags, 0x12);
    assert_eq!(e.bytes, 40);
}

#[test]
fn parses_vlan_tagged_frame() {
    let plain = ipv4_tcp_frame();
    let mut tagged = plain[..12].to_vec();
    tagged.extend_from_slice(&ETHERTYPE_VLAN.to_be_bytes());
    tagged.extend_from_slice(&[0x00, 0x64]); // VLAN 100
    tagged.extend_from_slice(&plain[12..]); // original ethertype + payload
    let e = parse_packet(linktype::ETHERNET, &tagged).unwrap();
    assert_eq!(e.dst_port, 443);
}

#[test]
fn non_ip_frames_are_skipped() {
    let mut arp = vec![0u8; 12];
    arp.extend_from_slice(&0x0806u16.to_be_bytes()); // ARP
    arp.extend_from_slice(&[0u8; 28]);
    assert!(parse_packet(linktype::ETHERNET, &arp).is_none());
}

#[test]
fn ipv6_with_truncated_extension_header_is_rejected() {
    let mut f = Vec::new();
    f.extend_from_slice(&[0u8; 12]); // MACs
    f.extend_from_slice(&0x86DDu16.to_be_bytes());
    f.push(0x60); // version 6
    f.extend_from_slice(&[0, 0, 0]);
    f.extend_from_slice(&100u16.to_be_bytes()); // payload length
    f.push(0); // next header: hop-by-hop
    f.push(64); // hop limit
    f.extend_from_slice(&[0x20, 0x01, 0x0d, 0xb8, 0, 0, 0, 0, 0, 0, 0, 0, 0, 0, 0, 1]);
    f.extend_from_slice(&[0x20, 0x01, 0x0d, 0xb8, 0, 0, 0, 0, 0, 0, 0, 0, 0, 0, 0, 2]);
    // Hop-by-hop header: next = TCP, ext len 3 (= 32 bytes total), but
    // the capture ends right after these 8 bytes.
    f.push(6); // next header: TCP
    f.push(3); // hdr ext len
    f.extend_from_slice(&[0; 6]);

    assert!(parse_packet(linktype::ETHERNET, &f).is_none());
}

#[test]
fn attacker_controlled_ip_lengths_cannot_inflate_byte_counts() {
    let mut inflated_v4 = ipv4_tcp_frame();
    inflated_v4[16..18].copy_from_slice(&1_500u16.to_be_bytes());
    assert!(parse_packet(linktype::ETHERNET, &inflated_v4).is_none());

    let mut undersized_v4 = ipv4_tcp_frame();
    undersized_v4[16..18].copy_from_slice(&10u16.to_be_bytes());
    assert!(parse_packet(linktype::ETHERNET, &undersized_v4).is_none());

    let mut inflated_v6 = vec![0u8; 14 + 40];
    inflated_v6[12..14].copy_from_slice(&ETHERTYPE_IPV6.to_be_bytes());
    inflated_v6[14] = 0x60;
    inflated_v6[18..20].copy_from_slice(&1_000u16.to_be_bytes());
    inflated_v6[20] = 59; // no next header
    assert!(parse_packet(linktype::ETHERNET, &inflated_v6).is_none());
}

#[test]
fn snaplen_truncation_uses_original_wire_bound() {
    let full = ipv4_tcp_frame();
    let captured = &full[..34]; // Ethernet + complete IPv4 header only.
    assert!(parse_packet_with_wire_len(linktype::ETHERNET, captured, 54).is_none());

    // All inspected headers are present, while the payload is truncated.
    let mut captured = full;
    captured[16..18].copy_from_slice(&1_500u16.to_be_bytes());
    let event = parse_packet_with_wire_len(linktype::ETHERNET, &captured, 1_514)
        .expect("valid snaplen-truncated packet rejected");
    assert_eq!(event.bytes, 1_500);
}

#[test]
fn truncated_frames_do_not_panic() {
    let frame = ipv4_tcp_frame();
    for cut in 0..frame.len() {
        let _ = parse_packet(linktype::ETHERNET, &frame[..cut]);
    }
}

#[test]
fn deterministic_arbitrary_frames_do_not_panic() {
    let mut state = 0x9E37_79B9_7F4A_7C15u64;
    for len in 0..512usize {
        let mut frame = vec![0; len];
        for byte in &mut frame {
            state ^= state << 13;
            state ^= state >> 7;
            state ^= state << 17;
            *byte = state as u8;
        }
        for link in [
            linktype::ETHERNET,
            linktype::RAW_IP,
            linktype::LINUX_SLL,
            u32::MAX,
        ] {
            let _ = parse_packet(link, &frame);
        }
    }
}

#[test]
fn a_made_up_trace_reads_back_in_time() {
    let options = SynthOptions {
        packets: 500,
        scanners: 2,
        heavy_talkers: 3,
        duration_secs: 30,
        seed: 42,
        full_payload: false,
        ipv6_percent: 0,
    };
    assert!(options.time_fits());
    let mut synth = Synth::new(options);
    let mut w = PcapWriter::new();
    while let Some(p) = synth.next_packet() {
        p.write_to(&mut w);
    }
    let mut r = PcapReader::new(w.take_bytes()).unwrap();
    let mut n = 0;
    while let Some(e) = r.next_event().unwrap() {
        assert!(e.ts_nanos >= 1_700_000_000_000_000_000);
        assert!(matches!(e.src_ip, IpAddr::V4(_)));
        n += 1;
    }
    assert_eq!(n, 500);
}

#[test]
fn traces_are_written_in_chunks_and_read_back() {
    let options = SynthOptions {
        packets: 300,
        scanners: 2,
        heavy_talkers: 3,
        duration_secs: 60,
        seed: 7,
        full_payload: true,
        ipv6_percent: 40,
    };
    let whole = run(options);
    assert_eq!(run(options), whole);
    let mut t = Trace::new(options);
    let mut joined = Vec::new();
    loop {
        let chunk = t.next_chunk(64);
        if chunk.is_empty() {
            break;
        }
        joined.extend_from_slice(&chunk);
    }
    assert_eq!(t.packets_written(), 300);
    assert_eq!(joined, whole);
    let mut r = PcapReader::new(whole).unwrap();
    let mut synth = Synth::new(options);
    let mut v6_packets = 0;
    while let Some(p) = synth.next_packet() {
        let e = r.next_event().unwrap().unwrap();
        assert_eq!(e.ts_nanos, p.ts_nanos);
        assert_eq!((e.src_ip, e.dst_ip), (p.src, p.dst));
        assert_eq!((e.src_port, e.dst_port), (p.src_port, p.dst_port));
        if matches!(e.src_ip, IpAddr::V6(_)) {
            v6_packets += 1;
        }
    }
    assert!(r.next_event().unwrap().is_none());
    assert!(v6_packets > 0 && v6_packets < 300);
}

#[test]
fn payloads_are_not_looked_at_over_any_link() {
    let mut ethernet = ipv4_tcp_frame();
    ethernet[16..18].copy_from_slice(&60u16.to_be_bytes());
    ethernet.extend_from_slice(&[0xAA; 20]);
    let mut tagged = ethernet.clone();
    tagged.splice(12..12, [0x81, 0, 0, 5]);
    let mut cooked = vec![0u8; 14];
    cooked.extend_from_slice(&ethernet[12..]);
    let raw = ethernet[14..].to_vec();
    for (link, packet, reach) in [
        (linktype::ETHERNET, ethernet, 14 + 20 + 14),
        (linktype::ETHERNET, tagged, 18 + 20 + 14),
        (linktype::LINUX_SLL, cooked, 16 + 20 + 14),
        (linktype::RAW_IP, raw, 20 + 14),
    ] {
        let wire = packet.len() as u32 + 4;
        let event = parse_packet_with_wire_len(link, &packet, wire).unwrap();
        assert_eq!((event.bytes, event.packets, event.ts_nanos), (60, 1, 0));
        let mut other = packet.clone();
        for b in other.iter_mut().skip(reach) {
            *b = !*b;
        }
        assert_eq!(parse_packet_with_wire_len(link, &other, wire), Some(event));
        // Captured beyond the wire length: no packet.
        assert!(parse_packet_with_wire_len(link, &packet, packet.len() as u32 - 1).is_none());
    }
}
