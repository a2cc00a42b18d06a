//! Settings of the agent.

use vstd::prelude::*;
use vstd::string::*;
use vstd::utf8::*;

use crate::agent::error::{is_verdict, AgentError};
use crate::gateway::batch::MAX_NODE_NAME_BYTES;
use crate::gateway::client::PushConfig;
use crate::net::url::scheme;
use crate::otel::OtlpConfig;
use crate::planner::Plan;
use crate::powers::{is_power_between, power_between};
use crate::text::{chars_of, debug_text, dec, push_decimal, quoted, same_text, trim, trimmed};

verus! {

/// How events are spread over the shards of the runtime.
#[derive(Debug, Clone, Copy, PartialEq, Eq, Structural)]
pub enum RuntimeShardStrategy {
    Flow,
    RoundRobin,
}

/// How the kernel spreads packets over sockets: not at all, by the hash of
/// their flow, or by the receive queue that they came through.
#[derive(Debug, Clone, Copy, PartialEq, Eq, Structural)]
pub enum AfPacketFanoutMode {
    Single,
    Hash,
    RxQueue,
}

/// On which logical CPUs the capture lanes and runtime workers run.
#[derive(Debug, Clone, PartialEq, Eq)]
pub struct CpuAffinityConfig {
    pub capture_cpus: Vec<usize>,
    pub runtime_cpus: Vec<usize>,
}

/// Where packets come from.
#[derive(Debug, Clone)]
pub enum SourceConfig {
    /// Replay a capture file.
    Pcap { path: String },
    /// Capture from an interface through a packet socket.
    AfPacket {
        interface: String,
        ring_block_size_bytes: u32,
        ring_block_count: u32,
        block_retire_timeout_ms: u32,
        fanout_mode: AfPacketFanoutMode,
        /// Group of the sockets; zero asks the kernel for one.
        fanout_group: u16,
    },
    /// Capture through a traffic-control program.
    Ebpf {
        interface: String,
        object_path: String,
        ring_buffer_bytes: u32,
        fallback_to_af_packet: bool,
    },
}

/// A source as it is written down: what is missing has a default.
#[derive(Debug, Clone)]
pub enum RawSource {
    Pcap { path: String },
    AfPacket {
        interface: String,
        ring_block_size_bytes: Option<u32>,
        ring_block_count: Option<u32>,
        block_retire_timeout_ms: Option<u32>,
        fanout_mode: Option<AfPacketFanoutMode>,
        fanout_group: Option<u16>,
    },
    Ebpf {
        interface: String,
        object_path: String,
        ring_buffer_bytes: Option<u32>,
        fallback_to_af_packet: Option<bool>,
    },
}

pub const DEFAULT_RING_BLOCK_SIZE_BYTES: u32 = 1_048_576;

pub const DEFAULT_RING_BLOCK_COUNT: u32 = 64;

pub const DEFAULT_BLOCK_RETIRE_TIMEOUT_MS: u32 = 64;

pub const DEFAULT_EBPF_RING_BUFFER_BYTES: u32 = 16_777_216;

pub const MIN_RING_BLOCK_SIZE_BYTES: u32 = 65_536;

pub const MAX_RING_BLOCK_SIZE_BYTES: u32 = 16_777_216;

pub const MAX_RING_BYTES: u64 = 1_073_741_824;

pub const MIN_EBPF_RING_BYTES: u32 = 65_536;

pub const MAX_EBPF_RING_BYTES: u32 = 1_073_741_824;

pub const MAX_LINUX_CPU_ID: usize = 1_023;

pub const MAX_LINUX_INTERFACE_NAME_BYTES: usize = 15;

pub const DEFAULT_MAX_SKETCH_MEMORY_BYTES: u64 = 1_073_741_824;

pub const MIN_MAX_SKETCH_MEMORY_BYTES: u64 = 1_048_576;

pub const MAX_MAX_SKETCH_MEMORY_BYTES: u64 = 1_099_511_627_776;

/// A number, or a default where there is none.
pub open spec fn or_u32(n: Option<u32>, default: u32) -> u32 {
    match n {
        Some(n) => n,
        None => default,
    }
}

fn u32_or(n: Option<u32>, default: u32) -> (r: u32)
    ensures
        r == or_u32(n, default),
{
    match n {
        Some(n) => n,
        None => default,
    }
}

/// A number, or a default where there is none.
pub open spec fn or_u64(n: Option<u64>, default: u64) -> u64 {
    match n {
        Some(n) => n,
        None => default,
    }
}

fn u64_or(n: Option<u64>, default: u64) -> (r: u64)
    ensures
        r == or_u64(n, default),
{
    match n {
        Some(n) => n,
        None => default,
    }
}

/// A number, or a default where there is none.
pub open spec fn or_usize(n: Option<usize>, default: usize) -> usize {
    match n {
        Some(n) => n,
        None => default,
    }
}

fn usize_or(n: Option<usize>, default: usize) -> (r: usize)
    ensures
        r == or_usize(n, default),
{
    match n {
        Some(n) => n,
        None => default,
    }
}

/// A number, at least `least`.
pub open spec fn at_least(n: u64, least: u64) -> u64 {
    if n < least {
        least
    } else {
        n
    }
}

fn raised(n: u64, least: u64) -> (r: u64)
    ensures
        r == at_least(n, least),
{
    if n < least {
        least
    } else {
        n
    }
}

impl RawSource {
    /// The source with its defaults.
    pub open spec fn meant(self) -> SourceConfig {
        match self {
            RawSource::Pcap { path } => SourceConfig::Pcap { path },
            RawSource::AfPacket {
                interface,
                ring_block_size_bytes,
                ring_block_count,
                block_retire_timeout_ms,
                fanout_mode,
                fanout_group,
            } => SourceConfig::AfPacket {
                interface,
                ring_block_size_bytes: or_u32(ring_block_size_bytes, DEFAULT_RING_BLOCK_SIZE_BYTES),
                ring_block_count: or_u32(ring_block_count, DEFAULT_RING_BLOCK_COUNT),
                block_retire_timeout_ms: or_u32(
                    block_retire_timeout_ms,
                    DEFAULT_BLOCK_RETIRE_TIMEOUT_MS,
                ),
                fanout_mode: match fanout_mode {
                    Some(m) => m,
                    None => AfPacketFanoutMode::Single,
                },
                fanout_group: match fanout_group {
                    Some(n) => n,
                    None => 0,
                },
            },
            RawSource::Ebpf { interface, object_path, ring_buffer_bytes, fallback_to_af_packet } =>
            SourceConfig::Ebpf {
                interface,
                object_path,
                ring_buffer_bytes: or_u32(ring_buffer_bytes, DEFAULT_EBPF_RING_BUFFER_BYTES),
                fallback_to_af_packet: fallback_to_af_packet == Some(true),
            },
        }
    }

    /// The source with its defaults.
    pub fn into_source(self) -> (r: SourceConfig)
        ensures
            r == self.meant(),
    {
        match self {
            RawSource::Pcap { path } => SourceConfig::Pcap { path },
            RawSource::AfPacket {
                interface,
                ring_block_size_bytes,
                ring_block_count,
                block_retire_timeout_ms,
                fanout_mode,
                fanout_group,
            } => SourceConfig::AfPacket {
                interface,
                ring_block_size_bytes: u32_or(ring_block_size_bytes, DEFAULT_RING_BLOCK_SIZE_BYTES),
                ring_block_count: u32_or(ring_block_count, DEFAULT_RING_BLOCK_COUNT),
                block_retire_timeout_ms: u32_or(
                    block_retire_timeout_ms,
                    DEFAULT_BLOCK_RETIRE_TIMEOUT_MS,
                ),
                fanout_mode: match fanout_mode {
                    Some(m) => m,
                    None => AfPacketFanoutMode::Single,
                },
                fanout_group: match fanout_group {
                    Some(n) => n,
                    None => 0,
                },
            },
            RawSource::Ebpf { interface, object_path, ring_buffer_bytes, fallback_to_af_packet } =>
            SourceConfig::Ebpf {
                interface,
                object_path,
                ring_buffer_bytes: u32_or(ring_buffer_bytes, DEFAULT_EBPF_RING_BUFFER_BYTES),
                fallback_to_af_packet: match fallback_to_af_packet {
                    Some(b) => b,
                    None => false,
                },
            },
        }
    }
}

impl SourceConfig {
    /// Whether the kernel spreads packets over several sockets.
    pub open spec fn fans_out(self) -> bool {
        self matches SourceConfig::AfPacket { fanout_mode, .. } && fanout_mode
            != AfPacketFanoutMode::Single
    }

    /// Whether the kernel spreads packets over several sockets.
    pub fn is_fanned_out(&self) -> (r: bool)
        ensures
            r == self.fans_out(),
    {
        match self {
            SourceConfig::AfPacket { fanout_mode, .. } => *fanout_mode
                != AfPacketFanoutMode::Single,
            _ => false,
        }
    }

    /// How many threads capture: one for each shard where packets are spread.
    pub fn capture_lane_count(&self, runtime_shards: usize) -> (r: usize)
        ensures
            r == (if self.fans_out() {
                runtime_shards
            } else {
                1
            }),
    {
        if self.is_fanned_out() {
            runtime_shards
        } else {
            1
        }
    }

    /// How many sockets the kernel spreads packets over; none if it does not.
    pub fn af_packet_fanout_lanes(&self, runtime_shards: usize) -> (r: usize)
        ensures
            r == (if self.fans_out() {
                runtime_shards
            } else {
                0
            }),
    {
        if self.is_fanned_out() {
            runtime_shards
        } else {
            0
        }
    }
}

// ---------------------------------------------------------------------------
// Checks
// ---------------------------------------------------------------------------

/// What is wrong with the name of an interface.
pub open spec fn interface_fault(interface: Seq<char>, source: Seq<char>) -> Option<Seq<char>> {
    if trimmed(interface).len() == 0 {
        Some(source + " source interface must not be empty"@)
    } else if encode_utf8(interface).len() > MAX_LINUX_INTERFACE_NAME_BYTES || interface.contains(
        '/',
    ) || interface.contains('\0') {
        Some(
            source + " source interface must be a Linux interface name of at most "@ + dec(
                MAX_LINUX_INTERFACE_NAME_BYTES as nat,
            ) + " bytes without '/' or NUL"@,
        )
    } else {
        None
    }
}

fn has_char(s: &str, wanted: char) -> (r: bool)
    ensures
        r == s@.contains(wanted),
{
    let chars = chars_of(s);
    let mut i: usize = 0;
    while i < chars.len()
        invariant
            i <= chars@.len(),
            chars@ == s@,
            forall|k: int| 0 <= k < i ==> chars@[k] != wanted,
        decreases chars@.len() - i,
    {
        if chars[i] == wanted {
            assert(s@[i as int] == wanted);
            return true;
        }
        i += 1;
    }
    false
}

fn validate_interface(interface: &str, source: &str) -> (r: Result<(), AgentError>)
    ensures
        is_verdict(r, interface_fault(interface@, source@)),
{
    if trim(interface).as_str().unicode_len() == 0 {
        let mut m = source.to_owned();
        m.append(" source interface must not be empty");
        return Err(AgentError::Config(m));
    }
    if interface.as_bytes().len() > MAX_LINUX_INTERFACE_NAME_BYTES || has_char(interface, '/')
        || has_char(interface, '\0') {
        let mut m = source.to_owned();
        m.append(" source interface must be a Linux interface name of at most ");
        push_decimal(&mut m, MAX_LINUX_INTERFACE_NAME_BYTES as u64);
        m.append(" bytes without '/' or NUL");
        return Err(AgentError::Config(m));
    }
    Ok(())
}

/// What is wrong with a ring of packet blocks.
pub open spec fn ring_fault(
    block_size: u32,
    blocks: u32,
    timeout_ms: u32,
    mode: AfPacketFanoutMode,
    shards: usize,
    strategy: RuntimeShardStrategy,
) -> Option<Seq<char>> {
    let lanes: nat = if mode == AfPacketFanoutMode::Single {
        1
    } else {
        shards as nat
    };
    let total = block_size as nat * blocks as nat * lanes;
    if !is_power_between(block_size as nat, 16, 24) {
        Some(
            "af_packet ringBlockSizeBytes must be a power of two between "@ + dec(
                MIN_RING_BLOCK_SIZE_BYTES as nat,
            ) + " and "@ + dec(MAX_RING_BLOCK_SIZE_BYTES as nat),
        )
    } else if blocks == 0 {
        Some("af_packet ringBlockCount must be positive"@)
    } else if total > u64::MAX {
        Some("AF_PACKET ring size overflows u64"@)
    } else if total > MAX_RING_BYTES {
        Some(
            "aggregate AF_PACKET receive rings are "@ + dec(total) + " bytes across "@ + dec(lanes)
                + " lane(s); maximum is "@ + dec(MAX_RING_BYTES as nat),
        )
    } else if timeout_ms < 1 || timeout_ms > 1_000 {
        Some("af_packet blockRetireTimeoutMs must be between 1 and 1000"@)
    } else if mode != AfPacketFanoutMode::Single && shards < 2 {
        Some("af_packet fanoutMode requires at least two runtimeShards"@)
    } else if mode != AfPacketFanoutMode::Single && strategy != RuntimeShardStrategy::Flow {
        Some(
            "af_packet fanoutMode requires runtimeShardStrategy: flow because the kernel-selected lane maps directly to a runtime shard"@,
        )
    } else {
        None
    }
}

/// What is wrong with a source.
pub open spec fn source_fault(
    source: SourceConfig,
    shards: usize,
    strategy: RuntimeShardStrategy,
) -> Option<Seq<char>> {
    match source {
        SourceConfig::Pcap { .. } => None,
        SourceConfig::AfPacket {
            interface,
            ring_block_size_bytes,
            ring_block_count,
            block_retire_timeout_ms,
            fanout_mode,
            ..
        } => match interface_fault(interface@, "af_packet"@) {
            Some(m) => Some(m),
            None => ring_fault(
                ring_block_size_bytes,
                ring_block_count,
                block_retire_timeout_ms,
                fanout_mode,
                shards,
                strategy,
            ),
        },
        SourceConfig::Ebpf { interface, object_path, ring_buffer_bytes, .. } =>
        match interface_fault(interface@, "ebpf"@) {
            Some(m) => Some(m),
            None => if object_path@.len() == 0 {
                Some("ebpf source objectPath must not be empty"@)
            } else if !is_power_between(ring_buffer_bytes as nat, 16, 30) {
                Some(
                    "ebpf ringBufferBytes must be a power of two between "@ + dec(
                        MIN_EBPF_RING_BYTES as nat,
                    ) + " and "@ + dec(MAX_EBPF_RING_BYTES as nat),
                )
            } else {
                None
            },
        },
    }
}

fn config_error<T>(message: &str) -> (r: Result<T, AgentError>)
    ensures
        r matches Err(AgentError::Config(m)) && m@ == message@,
{
    Err(AgentError::Config(message.to_owned()))
}

fn validate_ring(
    block_size: u32,
    blocks: u32,
    timeout_ms: u32,
    mode: AfPacketFanoutMode,
    shards: usize,
    strategy: RuntimeShardStrategy,
) -> (r: Result<(), AgentError>)
    ensures
        is_verdict(r, ring_fault(block_size, blocks, timeout_ms, mode, shards, strategy)),
{
    if !power_between(block_size, 16, 24) {
        let mut m = "af_packet ringBlockSizeBytes must be a power of two between ".to_owned();
        push_decimal(&mut m, MIN_RING_BLOCK_SIZE_BYTES as u64);
        m.append(" and ");
        push_decimal(&mut m, MAX_RING_BLOCK_SIZE_BYTES as u64);
        return Err(AgentError::Config(m));
    }
    if blocks == 0 {
        return config_error("af_packet ringBlockCount must be positive");
    }
    let lanes: u64 = if mode == AfPacketFanoutMode::Single {
        1
    } else {
        shards as u64
    };
    proof {
        assert(block_size as nat * blocks as nat <= 0xffff_ffff * 0xffff_ffff) by (nonlinear_arith)
            requires
                block_size <= 0xffff_ffff,
                blocks <= 0xffff_ffff,
        ;
    }
    let ring: u64 = block_size as u64 * blocks as u64;
    proof {
        assert(ring as nat * lanes as nat <= u64::MAX as nat * u64::MAX as nat)
            by (nonlinear_arith)
            requires
                ring <= u64::MAX,
                lanes <= u64::MAX,
        ;
    }
    let total: u128 = ring as u128 * lanes as u128;
    if total > u64::MAX as u128 {
        return config_error("AF_PACKET ring size overflows u64");
    }
    if total > MAX_RING_BYTES as u128 {
        let mut m = "aggregate AF_PACKET receive rings are ".to_owned();
        push_decimal(&mut m, total as u64);
        m.append(" bytes across ");
        push_decimal(&mut m, lanes);
        m.append(" lane(s); maximum is ");
        push_decimal(&mut m, MAX_RING_BYTES);
        return Err(AgentError::Config(m));
    }
    if timeout_ms < 1 || timeout_ms > 1_000 {
        return config_error("af_packet blockRetireTimeoutMs must be between 1 and 1000");
    }
    if mode != AfPacketFanoutMode::Single {
        if shards < 2 {
            return config_error("af_packet fanoutMode requires at least two runtimeShards");
        }
        if strategy != RuntimeShardStrategy::Flow {
            return config_error(
                "af_packet fanoutMode requires runtimeShardStrategy: flow because the kernel-selected lane maps directly to a runtime shard",
            );
        }
    }
    Ok(())
}

/// Check a source.
pub fn validate_source(
    source: &SourceConfig,
    runtime_shards: usize,
    shard_strategy: RuntimeShardStrategy,
) -> (r: Result<(), AgentError>)
    ensures
        is_verdict(r, source_fault(*source, runtime_shards, shard_strategy)),
{
    match source {
        SourceConfig::Pcap { .. } => Ok(()),
        SourceConfig::AfPacket {
            interface,
            ring_block_size_bytes,
            ring_block_count,
            block_retire_timeout_ms,
            fanout_mode,
            ..
        } => {
            validate_interface(interface.as_str(), "af_packet")?;
            validate_ring(
                *ring_block_size_bytes,
                *ring_block_count,
                *block_retire_timeout_ms,
                *fanout_mode,
                runtime_shards,
                shard_strategy,
            )
        },
        SourceConfig::Ebpf { interface, object_path, ring_buffer_bytes, .. } => {
            validate_interface(interface.as_str(), "ebpf")?;
            if object_path.as_str().unicode_len() == 0 {
                return config_error("ebpf source objectPath must not be empty");
            }
            if !power_between(*ring_buffer_bytes, 16, 30) {
                let mut m = "ebpf ringBufferBytes must be a power of two between ".to_owned();
                push_decimal(&mut m, MIN_EBPF_RING_BYTES as u64);
                m.append(" and ");
                push_decimal(&mut m, MAX_EBPF_RING_BYTES as u64);
                return Err(AgentError::Config(m));
            }
            Ok(())
        },
    }
}

/// What is wrong with a list of CPUs.
pub open spec fn cpus_fault(cpus: Seq<usize>, which: Seq<char>, wanted: nat, of: Seq<char>) -> Option<
    Seq<char>,
> {
    let name = "agent.cpuAffinity."@ + which;
    if cpus.len() != wanted {
        Some(
            name + " must contain exactly one CPU for each of the "@ + dec(wanted) + " "@ + of,
        )
    } else if exists|i: int| 0 <= i < cpus.len() && #[trigger] cpus[i] > MAX_LINUX_CPU_ID {
        Some(name + " values must be between 0 and "@ + dec(MAX_LINUX_CPU_ID as nat))
    } else if !cpus.no_duplicates() {
        Some(name + " must not contain duplicate CPUs"@)
    } else {
        None
    }
}

/// What is wrong with the placement on CPUs.
pub open spec fn affinity_fault(
    affinity: Option<CpuAffinityConfig>,
    capture_lanes: nat,
    runtime_shards: nat,
) -> Option<Seq<char>> {
    match affinity {
        None => None,
        Some(a) => match cpus_fault(
            a.capture_cpus@,
            "captureCpus"@,
            capture_lanes,
            "capture lanes"@,
        ) {
            Some(m) => Some(m),
            None => cpus_fault(
                a.runtime_cpus@,
                "runtimeCpus"@,
                runtime_shards,
                "runtime shards"@,
            ),
        },
    }
}

fn validate_cpus(cpus: &Vec<usize>, which: &str, wanted: usize, of: &str) -> (r: Result<
    (),
    AgentError,
>)
    ensures
        is_verdict(r, cpus_fault(cpus@, which@, wanted as nat, of@)),
{
    let mut m = "agent.cpuAffinity.".to_owned();
    m.append(which);
    if cpus.len() != wanted {
        m.append(" must contain exactly one CPU for each of the ");
        push_decimal(&mut m, wanted as u64);
        m.append(" ");
        m.append(of);
        return Err(AgentError::Config(m));
    }
    let mut i: usize = 0;
    while i < cpus.len()
        invariant
            i <= cpus@.len(),
            cpus@.len() == wanted,
            m@ == "agent.cpuAffinity."@ + which@,
            forall|k: int| 0 <= k < i ==> #[trigger] cpus@[k] <= MAX_LINUX_CPU_ID,
        decreases cpus@.len() - i,
    {
        if cpus[i] > MAX_LINUX_CPU_ID {
            m.append(" values must be between 0 and ");
            push_decimal(&mut m, MAX_LINUX_CPU_ID as u64);
            return Err(AgentError::Config(m));
        }
        i += 1;
    }
    let mut i: usize = 0;
    while i < cpus.len()
        invariant
            i <= cpus@.len(),
            cpus@.len() == wanted,
            m@ == "agent.cpuAffinity."@ + which@,
            forall|k: int| 0 <= k < cpus@.len() ==> #[trigger] cpus@[k] <= MAX_LINUX_CPU_ID,
            forall|a: int, b: int| 0 <= a < b < cpus@.len() && a < i ==> cpus@[a] != cpus@[b],
        decreases cpus@.len() - i,
    {
        let mut k: usize = i + 1;
        while k < cpus.len()
            invariant
                i < k <= cpus@.len(),
                cpus@.len() == wanted,
                m@ == "agent.cpuAffinity."@ + which@,
                forall|k: int| 0 <= k < cpus@.len() ==> #[trigger] cpus@[k] <= MAX_LINUX_CPU_ID,
                forall|b: int| i < b < k ==> cpus@[i as int] != cpus@[b],
            decreases cpus@.len() - k,
        {
            if cpus[i] == cpus[k] {
                assert(!cpus@.no_duplicates());
                m.append(" must not contain duplicate CPUs");
                return Err(AgentError::Config(m));
            }
            k += 1;
        }
        i += 1;
    }
    assert(cpus@.no_duplicates());
    Ok(())
}

/// Check the placement on CPUs.
pub fn validate_cpu_affinity(
    affinity: &Option<CpuAffinityConfig>,
    capture_lanes: usize,
    runtime_shards: usize,
) -> (r: Result<(), AgentError>)
    ensures
        is_verdict(r, affinity_fault(*affinity, capture_lanes as nat, runtime_shards as nat)),
{
    match affinity {
        None => Ok(()),
        Some(a) => {
            validate_cpus(&a.capture_cpus, "captureCpus", capture_lanes, "capture lanes")?;
            validate_cpus(&a.runtime_cpus, "runtimeCpus", runtime_shards, "runtime shards")
        },
    }
}

// ---------------------------------------------------------------------------
// The whole
// ---------------------------------------------------------------------------

/// An endpoint as it is written down.
#[derive(Debug, Clone)]
pub struct RawEndpoint {
    pub endpoint: String,
    pub interval_ms: Option<u64>,
}

/// Settings as they are written down.
#[derive(Debug, Clone)]
pub struct RawAgentConfig {
    pub node_name: Option<String>,
    pub listen: Option<String>,
    pub seed: Option<u64>,
    pub flush_interval_ms: Option<u64>,
    pub runtime_shards: Option<usize>,
    pub runtime_batch_size: Option<usize>,
    pub max_sketch_memory_bytes: Option<u64>,
    pub runtime_shard_strategy: Option<RuntimeShardStrategy>,
    pub cpu_affinity: Option<CpuAffinityConfig>,
    pub source: RawSource,
    pub query_files: Vec<String>,
    pub otlp: Option<RawEndpoint>,
    pub gateway: Option<RawEndpoint>,
}

/// Settings of the agent.
#[derive(Debug, Clone)]
pub struct AgentConfig {
    pub node_name: String,
    pub listen: String,
    pub seed: u64,
    pub flush_interval_ms: u64,
    /// Engines that work in parallel and are merged.
    pub runtime_shards: usize,
    /// Most events handed to the workers at once.
    pub runtime_batch_size: usize,
    /// Most bytes that the plans of all queries and shards may add up to.
    pub max_sketch_memory_bytes: u64,
    pub runtime_shard_strategy: RuntimeShardStrategy,
    pub cpu_affinity: Option<CpuAffinityConfig>,
    pub source: SourceConfig,
    pub query_files: Vec<String>,
    pub otlp: Option<OtlpConfig>,
    pub gateway: Option<PushConfig>,
}

/// Whether an address begins with `http://`.
pub open spec fn is_http(endpoint: Seq<char>) -> bool {
    endpoint.len() >= 7 && endpoint.take(7) == scheme()
}

fn is_http_address(endpoint: &str) -> (r: bool)
    ensures
        r == is_http(endpoint@),
{
    let chars = chars_of(endpoint);
    if chars.len() < 7 {
        return false;
    }
    let wanted: [char; 7] = ['h', 't', 't', 'p', ':', '/', '/'];
    assert(wanted@ =~= scheme());
    let mut i: usize = 0;
    while i < 7
        invariant
            i <= 7,
            wanted@ == scheme(),
            chars@ == endpoint@,
            chars@.len() >= 7,
            forall|k: int| 0 <= k < i ==> chars@[k] == scheme()[k],
        decreases 7 - i,
    {
        if chars[i] != wanted[i] {
            assert(endpoint@.take(7)[i as int] != scheme()[i as int]);
            return false;
        }
        i += 1;
    }
    assert(endpoint@.take(7) =~= scheme());
    true
}

/// What is wrong with the name of the node.
pub open spec fn node_name_fault(name: Option<String>) -> Option<Seq<char>> {
    match name {
        None => None,
        Some(n) => if trimmed(n@).len() == 0 {
            Some("agent.nodeName must not be blank"@)
        } else if encode_utf8(n@).len() > MAX_NODE_NAME_BYTES {
            Some(
                "agent.nodeName is "@ + dec(encode_utf8(n@).len()) + " bytes; maximum is "@ + dec(
                    MAX_NODE_NAME_BYTES as nat,
                ),
            )
        } else {
            None
        },
    }
}

/// What is wrong with the sizes of the runtime.
pub open spec fn size_fault(shards: usize, batch_size: usize, memory: u64) -> Option<Seq<char>> {
    if shards < 1 || shards > 256 {
        Some("agent.runtimeShards must be between 1 and 256"@)
    } else if batch_size < 1 || batch_size > 65_536 {
        Some("agent.runtimeBatchSize must be between 1 and 65536"@)
    } else if memory < MIN_MAX_SKETCH_MEMORY_BYTES || memory > MAX_MAX_SKETCH_MEMORY_BYTES {
        Some(
            "agent.maxSketchMemoryBytes must be between "@ + dec(MIN_MAX_SKETCH_MEMORY_BYTES as nat)
                + " and "@ + dec(MAX_MAX_SKETCH_MEMORY_BYTES as nat),
        )
    } else {
        None
    }
}

/// What is wrong with the exports. Nodes that share a name would overwrite
/// each other at the gateway, so a name is asked for.
pub open spec fn export_fault(
    otlp: Option<RawEndpoint>,
    gateway: Option<RawEndpoint>,
    has_name: bool,
) -> Option<Seq<char>> {
    if otlp is Some && !is_http(otlp->0.endpoint@) {
        Some(
            "export.otlp.endpoint must be http:// (got "@ + debug_text(otlp->0.endpoint@)
                + "); point it at a local OpenTelemetry Collector"@,
        )
    } else if gateway is Some && !is_http(gateway->0.endpoint@) {
        Some(
            "export.gateway.endpoint must be http:// (got "@ + debug_text(gateway->0.endpoint@)
                + "); point it at a flowsketch gateway"@,
        )
    } else if gateway is Some && !has_name {
        Some(
            "agent.nodeName must be set to a unique value when export.gateway is configured; the gateway keys snapshots by node name and agents sharing the default would overwrite each other"@,
        )
    } else {
        None
    }
}

impl RawAgentConfig {
    pub open spec fn shards(self) -> usize {
        or_usize(self.runtime_shards, 1)
    }

    pub open spec fn strategy(self) -> RuntimeShardStrategy {
        match self.runtime_shard_strategy {
            Some(s) => s,
            None => RuntimeShardStrategy::Flow,
        }
    }

    pub open spec fn lanes(self) -> nat {
        if self.source.meant().fans_out() {
            self.shards() as nat
        } else {
            1
        }
    }

    /// The first thing that is wrong with these settings.
    pub open spec fn fault(self) -> Option<Seq<char>> {
        if self.query_files@.len() == 0 {
            Some("agent config must list at least one query file"@)
        } else if node_name_fault(self.node_name) is Some {
            node_name_fault(self.node_name)
        } else if size_fault(
            self.shards(),
            or_usize(self.runtime_batch_size, 4_096),
            or_u64(self.max_sketch_memory_bytes, DEFAULT_MAX_SKETCH_MEMORY_BYTES),
        ) is Some {
            size_fault(
                self.shards(),
                or_usize(self.runtime_batch_size, 4_096),
                or_u64(self.max_sketch_memory_bytes, DEFAULT_MAX_SKETCH_MEMORY_BYTES),
            )
        } else if source_fault(self.source.meant(), self.shards(), self.strategy()) is Some {
            source_fault(self.source.meant(), self.shards(), self.strategy())
        } else if affinity_fault(self.cpu_affinity, self.lanes(), self.shards() as nat) is Some {
            affinity_fault(self.cpu_affinity, self.lanes(), self.shards() as nat)
        } else {
            export_fault(self.otlp, self.gateway, self.node_name is Some)
        }
    }
}

impl AgentConfig {
    /// Whether these are the settings that `raw` means.
    pub open spec fn realizes(self, raw: RawAgentConfig) -> bool {
        &&& self.node_name@ == match raw.node_name {
            Some(s) => s@,
            None => "unknown"@,
        }
        &&& self.listen@ == match raw.listen {
            Some(s) => s@,
            None => "127.0.0.1:9464"@,
        }
        &&& self.seed == or_u64(raw.seed, 0)
        &&& self.flush_interval_ms == at_least(or_u64(raw.flush_interval_ms, 1_000), 10)
        &&& self.runtime_shards == raw.shards()
        &&& self.runtime_batch_size == or_usize(raw.runtime_batch_size, 4_096)
        &&& self.max_sketch_memory_bytes == or_u64(
            raw.max_sketch_memory_bytes,
            DEFAULT_MAX_SKETCH_MEMORY_BYTES,
        )
        &&& self.runtime_shard_strategy == raw.strategy()
        &&& self.cpu_affinity == raw.cpu_affinity
        &&& self.source == raw.source.meant()
        &&& self.query_files == raw.query_files
        &&& match raw.otlp {
            Some(o) => self.otlp is Some && self.otlp->0.endpoint == o.endpoint
                && self.otlp->0.interval_ms == at_least(or_u64(o.interval_ms, 5_000), 100),
            None => self.otlp is None,
        }
        &&& match raw.gateway {
            Some(g) => self.gateway is Some && self.gateway->0.endpoint == g.endpoint
                && self.gateway->0.interval_ms == at_least(or_u64(g.interval_ms, 5_000), 100),
            None => self.gateway is None,
        }
    }

    /// Check settings and fill in what is missing.
    pub fn from_raw(raw: RawAgentConfig) -> (r: Result<Self, AgentError>)
        ensures
            match raw.fault() {
                Some(m) => r matches Err(AgentError::Config(s)) && s@ == m,
                None => r is Ok && r->Ok_0.realizes(raw),
            },
    {
        let RawAgentConfig {
            node_name,
            listen,
            seed,
            flush_interval_ms,
            runtime_shards,
            runtime_batch_size,
            max_sketch_memory_bytes,
            runtime_shard_strategy,
            cpu_affinity,
            source,
            query_files,
            otlp,
            gateway,
        } = raw;
        if query_files.len() == 0 {
            return config_error("agent config must list at least one query file");
        }
        validate_node_name(&node_name)?;
        let runtime_shards: usize = usize_or(runtime_shards, 1);
        let runtime_batch_size: usize = usize_or(runtime_batch_size, 4_096);
        let max_sketch_memory_bytes: u64 = u64_or(
            max_sketch_memory_bytes,
            DEFAULT_MAX_SKETCH_MEMORY_BYTES,
        );
        validate_sizes(runtime_shards, runtime_batch_size, max_sketch_memory_bytes)?;
        let runtime_shard_strategy = match runtime_shard_strategy {
            Some(s) => s,
            None => RuntimeShardStrategy::Flow,
        };
        let source = source.into_source();
        validate_source(&source, runtime_shards, runtime_shard_strategy)?;
        validate_cpu_affinity(
            &cpu_affinity,
            source.capture_lane_count(runtime_shards),
            runtime_shards,
        )?;
        validate_exports(&otlp, &gateway, node_name.is_some())?;
        Ok(
            AgentConfig {
                node_name: match node_name {
                    Some(s) => s,
                    None => "unknown".to_owned(),
                },
                listen: match listen {
                    Some(s) => s,
                    None => "127.0.0.1:9464".to_owned(),
                },
                seed: u64_or(seed, 0),
                flush_interval_ms: raised(u64_or(flush_interval_ms, 1_000), 10),
                runtime_shards,
                runtime_batch_size,
                max_sketch_memory_bytes,
                runtime_shard_strategy,
                cpu_affinity,
                source,
                query_files,
                otlp: match otlp {
                    Some(o) => Some(
                        OtlpConfig {
                            endpoint: o.endpoint,
                            interval_ms: raised(u64_or(o.interval_ms, 5_000), 100),
                        },
                    ),
                    None => None,
                },
                gateway: match gateway {
                    Some(g) => Some(
                        PushConfig {
                            endpoint: g.endpoint,
                            interval_ms: raised(u64_or(g.interval_ms, 5_000), 100),
                        },
                    ),
                    None => None,
                },
            },
        )
    }
}

fn validate_node_name(name: &Option<String>) -> (r: Result<(), AgentError>)
    ensures
        is_verdict(r, node_name_fault(*name)),
{
    match name {
        None => Ok(()),
        Some(n) => {
            if trim(n.as_str()).as_str().unicode_len() == 0 {
                return config_error("agent.nodeName must not be blank");
            }
            let len: usize = n.as_str().as_bytes().len();
            if len > MAX_NODE_NAME_BYTES {
                let mut m = "agent.nodeName is ".to_owned();
                push_decimal(&mut m, len as u64);
                m.append(" bytes; maximum is ");
                push_decimal(&mut m, MAX_NODE_NAME_BYTES as u64);
                return Err(AgentError::Config(m));
            }
            Ok(())
        },
    }
}

fn validate_sizes(shards: usize, batch_size: usize, memory: u64) -> (r: Result<(), AgentError>)
    ensures
        is_verdict(r, size_fault(shards, batch_size, memory)),
{
    if shards < 1 || shards > 256 {
        return config_error("agent.runtimeShards must be between 1 and 256");
    }
    if batch_size < 1 || batch_size > 65_536 {
        return config_error("agent.runtimeBatchSize must be between 1 and 65536");
    }
    if memory < MIN_MAX_SKETCH_MEMORY_BYTES || memory > MAX_MAX_SKETCH_MEMORY_BYTES {
        let mut m = "agent.maxSketchMemoryBytes must be between ".to_owned();
        push_decimal(&mut m, MIN_MAX_SKETCH_MEMORY_BYTES);
        m.append(" and ");
        push_decimal(&mut m, MAX_MAX_SKETCH_MEMORY_BYTES);
        return Err(AgentError::Config(m));
    }
    Ok(())
}

fn validate_exports(
    otlp: &Option<RawEndpoint>,
    gateway: &Option<RawEndpoint>,
    has_name: bool,
) -> (r: Result<(), AgentError>)
    ensures
        is_verdict(r, export_fault(*otlp, *gateway, has_name)),
{
    if let Some(o) = otlp {
        if !is_http_address(o.endpoint.as_str()) {
            let mut m = "export.otlp.endpoint must be http:// (got ".to_owned();
            m.append(quoted(o.endpoint.as_str()).as_str());
            m.append("); point it at a local OpenTelemetry Collector");
            return Err(AgentError::Config(m));
        }
    }
    if let Some(g) = gateway {
        if !is_http_address(g.endpoint.as_str()) {
            let mut m = "export.gateway.endpoint must be http:// (got ".to_owned();
            m.append(quoted(g.endpoint.as_str()).as_str());
            m.append("); point it at a flowsketch gateway");
            return Err(AgentError::Config(m));
        }
        if !has_name {
            return config_error(
                "agent.nodeName must be set to a unique value when export.gateway is configured; the gateway keys snapshots by node name and agents sharing the default would overwrite each other",
            );
        }
    }
    Ok(())
}

// ---------------------------------------------------------------------------
// Plans
// ---------------------------------------------------------------------------

/// Whether a plan of that name is there.
pub open spec fn has_plan(plans: Seq<Plan>, name: Seq<char>) -> bool {
    exists|i: int| 0 <= i < plans.len() && (#[trigger] plans[i]).query.name@ == name
}

/// Whether all names differ.
pub open spec fn names_differ(plans: Seq<Plan>) -> bool {
    forall|i: int, j: int|
        0 <= i < j < plans.len() ==> (#[trigger] plans[i]).query.name@ != (
        #[trigger] plans[j]).query.name@
}

/// Bytes of all plans together.
pub open spec fn planned_bytes(plans: Seq<Plan>) -> nat
    decreases plans.len(),
{
    if plans.len() == 0 {
        0
    } else {
        planned_bytes(plans.drop_last()) + plans.last().physical.estimated_memory_bytes as nat
    }
}

/// What is wrong with the memory of plans that run on a number of shards.
pub open spec fn memory_fault(plans: Seq<Plan>, shards: nat, max: nat) -> Option<Seq<char>> {
    let total = planned_bytes(plans) * shards;
    if planned_bytes(plans) > u64::MAX || total > u64::MAX {
        Some("aggregate planned sketch memory overflows the supported byte range"@)
    } else if total > max {
        Some(
            "aggregate planned sketch memory is "@ + dec(total) + " bytes across "@ + dec(shards)
                + " runtime shard(s), exceeding agent.maxSketchMemoryBytes="@ + dec(max)
                + "; reduce queries or shards, loosen query accuracy, or raise the process budget"@,
        )
    } else {
        None
    }
}

/// Add a plan, unless there is one of its name.
pub fn admit_plan(plans: &mut Vec<Plan>, plan: Plan) -> (r: Result<(), AgentError>)
    ensures
        if has_plan(old(plans)@, plan.query.name@) {
            &&& final(plans)@ == old(plans)@
            &&& r matches Err(AgentError::Config(m)) && m@ == "duplicate query name "@ + debug_text(
                plan.query.name@,
            ) + "; every configured query name must be unique"@
        } else {
            &&& r is Ok
            &&& final(plans)@ == old(plans)@.push(plan)
        },
        names_differ(old(plans)@) ==> names_differ(final(plans)@),
{
    let mut i: usize = 0;
    while i < plans.len()
        invariant
            i <= plans@.len(),
            plans@ == old(plans)@,
            forall|k: int| 0 <= k < i ==> (#[trigger] plans@[k]).query.name@ != plan.query.name@,
        decreases plans@.len() - i,
    {
        if same_text(plans[i].query.name.as_str(), plan.query.name.as_str()) {
            let mut m = "duplicate query name ".to_owned();
            m.append(quoted(plan.query.name.as_str()).as_str());
            m.append("; every configured query name must be unique");
            return Err(AgentError::Config(m));
        }
        i += 1;
    }
    plans.push(plan);
    Ok(())
}

impl AgentConfig {
    /// Longest time between two publications, in milliseconds.
    pub fn flush_interval(&self) -> (r: u64)
        ensures
            r == self.flush_interval_ms,
    {
        self.flush_interval_ms
    }

    /// Check that all plans together fit the budget of the process.
    pub fn check_memory(&self, plans: &[Plan]) -> (r: Result<(), AgentError>)
        ensures
            is_verdict(
                r,
                memory_fault(
                    plans@,
                    self.runtime_shards as nat,
                    self.max_sketch_memory_bytes as nat,
                ),
            ),
    {
        let mut bytes: u64 = 0;
        let mut i: usize = 0;
        assert(plans@.take(0) =~= Seq::<Plan>::empty());
        while i < plans.len()
            invariant
                i <= plans@.len(),
                bytes == planned_bytes(plans@.take(i as int)),
            decreases plans@.len() - i,
        {
            assert(plans@.take(i + 1).drop_last() =~= plans@.take(i as int));
            let more: u64 = plans[i].physical.estimated_memory_bytes;
            if more > u64::MAX - bytes {
                proof {
                    lemma_planned_bytes_grow(plans@, i + 1);
                }
                return config_error(
                    "aggregate planned sketch memory overflows the supported byte range",
                );
            }
            bytes = bytes + more;
            i += 1;
        }
        assert(plans@.take(i as int) =~= plans@);
        let shards: u64 = self.runtime_shards as u64;
        proof {
            assert(bytes as nat * shards as nat <= u64::MAX as nat * u64::MAX as nat)
                by (nonlinear_arith)
                requires
                    bytes <= u64::MAX,
                    shards <= u64::MAX,
            ;
        }
        let total: u128 = bytes as u128 * shards as u128;
        if total > u64::MAX as u128 {
            return config_error(
                "aggregate planned sketch memory overflows the supported byte range",
            );
        }
        let total: u64 = total as u64;
        if total > self.max_sketch_memory_bytes {
            let mut m = "aggregate planned sketch memory is ".to_owned();
            push_decimal(&mut m, total);
            m.append(" bytes across ");
            push_decimal(&mut m, shards);
            m.append(" runtime shard(s), exceeding agent.maxSketchMemoryBytes=");
            push_decimal(&mut m, self.max_sketch_memory_bytes);
            m.append(
                "; reduce queries or shards, loosen query accuracy, or raise the process budget",
            );
            return Err(AgentError::Config(m));
        }
        Ok(())
    }
}

proof fn lemma_planned_bytes_grow(plans: Seq<Plan>, n: int)
    requires
        0 <= n <= plans.len(),
    ensures
        planned_bytes(plans.take(n)) <= planned_bytes(plans),
    decreases plans.len(),
{
    if n < plans.len() {
        lemma_planned_bytes_grow(plans.drop_last(), n);
        assert(plans.drop_last().take(n) =~= plans.take(n));
    } else {
        assert(plans.take(n) =~= plans);
    }
}

// ---------------------------------------------------------------------------
// Laws
// ---------------------------------------------------------------------------

/// Settings that are taken keep within every limit: shards, batches, rings and
/// exports.
pub proof fn law_taken_settings_are_bounded(raw: RawAgentConfig, c: AgentConfig)
    requires
        raw.fault() is None,
        c.realizes(raw),
    ensures
        1 <= c.runtime_shards <= 256,
        1 <= c.runtime_batch_size <= 65_536,
        MIN_MAX_SKETCH_MEMORY_BYTES <= c.max_sketch_memory_bytes <= MAX_MAX_SKETCH_MEMORY_BYTES,
        c.flush_interval_ms >= 10,
        c.query_files@.len() > 0,
        c.source.fans_out() ==> c.runtime_shards >= 2 && c.runtime_shard_strategy
            == RuntimeShardStrategy::Flow,
        c.source matches SourceConfig::AfPacket { ring_block_size_bytes, ring_block_count, .. }
            ==> ring_block_size_bytes as nat * ring_block_count as nat * raw.lanes()
            <= MAX_RING_BYTES,
        c.otlp is Some ==> is_http(c.otlp->0.endpoint@) && c.otlp->0.interval_ms >= 100,
        c.gateway is Some ==> is_http(c.gateway->0.endpoint@) && raw.node_name is Some,
{
}

/// One lane for each shard where the kernel spreads packets, and one CPU for
/// each lane and shard where CPUs are given.
pub proof fn law_affinity_covers_every_thread(raw: RawAgentConfig, c: AgentConfig)
    requires
        raw.fault() is None,
        c.realizes(raw),
        c.cpu_affinity is Some,
    ensures
        c.cpu_affinity->0.capture_cpus@.len() == raw.lanes(),
        c.cpu_affinity->0.runtime_cpus@.len() == c.runtime_shards,
        c.cpu_affinity->0.runtime_cpus@.no_duplicates(),
        c.cpu_affinity->0.capture_cpus@.no_duplicates(),
{
}

} // verus!
