//! The contract between the kernel's packet collector and user space: records
//! of a ring buffer, their clock, and the collector's counters.

pub mod clock;
pub mod counter;
pub mod direction;
pub mod laws;
pub mod record;
pub mod tc;

pub use clock::KernelClockConverter;
pub use record::{
    EbpfError, EbpfFlowEvent, EBPF_ABI_SYMBOL, EBPF_ABI_VERSION, EBPF_COUNTERS_MAP,
    EBPF_EVENTS_MAP, EBPF_FLOW_EVENT_SIZE, EBPF_TC_PROGRAM,
};
pub use tc::{TcCollectorCounters, TcCollectorError};
