//! The normalized flow event: headers and metadata only, never payload.

use vstd::prelude::*;

use crate::ip::IpAddr;

pub mod protocol;

verus! {

/// Traffic direction relative to the observation point.
#[derive(Debug, Clone, Copy, PartialEq, Eq, Structural)]
pub enum Direction {
    Ingress,
    Egress,
    Unknown,
}

impl Direction {
    pub open spec fn text(self) -> Seq<char> {
        match self {
            Direction::Ingress => "ingress"@,
            Direction::Egress => "egress"@,
            Direction::Unknown => "unknown"@,
        }
    }

    pub fn name(self) -> (r: &'static str)
        ensures
            r@ == self.text(),
    {
        match self {
            Direction::Ingress => "ingress",
            Direction::Egress => "egress",
            Direction::Unknown => "unknown",
        }
    }
}

/// One observed flow sample: a packet or a pre-aggregated flow record.
#[derive(Debug, Clone, Copy, PartialEq, Eq, Structural)]
pub struct FlowEvent {
    pub ts_nanos: u64,
    pub src_ip: IpAddr,
    pub dst_ip: IpAddr,
    pub src_port: u16,
    pub dst_port: u16,
    pub protocol: u8,
    pub bytes: u32,
    pub packets: u32,
    pub direction: Direction,
    pub tcp_flags: u8,
    pub interface_index: u32,
    pub node_id: u64,
    pub namespace_id: Option<u64>,
    pub pod_id: Option<u64>,
    pub service_id: Option<u64>,
}

/// The event of which nothing is known but that it is one packet.
pub open spec fn blank_event() -> FlowEvent {
    FlowEvent {
        ts_nanos: 0,
        src_ip: IpAddr::V4(0),
        dst_ip: IpAddr::V4(0),
        src_port: 0,
        dst_port: 0,
        protocol: 0,
        bytes: 0,
        packets: 1,
        direction: Direction::Unknown,
        tcp_flags: 0,
        interface_index: 0,
        node_id: 0,
        namespace_id: None,
        pod_id: None,
        service_id: None,
    }
}

impl Default for FlowEvent {
    fn default() -> (r: Self)
        ensures
            r == blank_event(),
    {
        FlowEvent {
            ts_nanos: 0,
            src_ip: IpAddr::V4(0),
            dst_ip: IpAddr::V4(0),
            src_port: 0,
            dst_port: 0,
            protocol: 0,
            bytes: 0,
            packets: 1,
            direction: Direction::Unknown,
            tcp_flags: 0,
            interface_index: 0,
            node_id: 0,
            namespace_id: None,
            pod_id: None,
            service_id: None,
        }
    }
}

} // verus!
