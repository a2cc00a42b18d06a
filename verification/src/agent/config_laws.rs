//! What the settings of an agent mean: what is stated is taken as it stands,
//! what is missing has a fixed default, and what is refused is out of bounds.

use vstd::arithmetic::power2::pow2;
use vstd::prelude::*;
use vstd::string::*;
use vstd::utf8::encode_utf8;

use crate::agent::config::{
    cpus_fault, is_http, memory_fault, planned_bytes, AfPacketFanoutMode, AgentConfig, RawAgentConfig,
    RawEndpoint, RawSource, RuntimeShardStrategy, SourceConfig, source_fault,
};
use crate::planner::Plan;
use crate::text::trimmed;

verus! {

/// Settings that were taken say what was stated; what was not stated has its
/// default.
pub proof fn law_settings_are_as_stated(raw: RawAgentConfig, c: AgentConfig)
    requires
        c.realizes(raw),
    ensures
        raw.node_name is Some ==> c.node_name@ == raw.node_name->0@,
        raw.node_name is None ==> c.node_name@ == "unknown"@,
        raw.listen is Some ==> c.listen@ == raw.listen->0@,
        raw.listen is None ==> c.listen@ == "127.0.0.1:9464"@,
        raw.seed is Some ==> c.seed == raw.seed->0,
        raw.seed is None ==> c.seed == 0,
        raw.runtime_shards is Some ==> c.runtime_shards == raw.runtime_shards->0,
        raw.runtime_shards is None ==> c.runtime_shards == 1,
        raw.runtime_batch_size is Some ==> c.runtime_batch_size == raw.runtime_batch_size->0,
        raw.runtime_batch_size is None ==> c.runtime_batch_size == 4_096,
        raw.max_sketch_memory_bytes is Some ==> c.max_sketch_memory_bytes
            == raw.max_sketch_memory_bytes->0,
        raw.max_sketch_memory_bytes is None ==> c.max_sketch_memory_bytes == 1_073_741_824,
        raw.runtime_shard_strategy is Some ==> c.runtime_shard_strategy
            == raw.runtime_shard_strategy->0,
        raw.runtime_shard_strategy is None ==> c.runtime_shard_strategy
            == RuntimeShardStrategy::Flow,
        raw.cpu_affinity == c.cpu_affinity,
        raw.query_files == c.query_files,
{
}

/// Times between publications and exports are as stated, but never below ten
/// and a hundred milliseconds; by default they are one and five seconds.
pub proof fn law_intervals_are_as_stated(raw: RawAgentConfig, c: AgentConfig)
    requires
        c.realizes(raw),
    ensures
        raw.flush_interval_ms is None ==> c.flush_interval_ms == 1_000,
        raw.flush_interval_ms matches Some(n) ==> c.flush_interval_ms == vstd::math::max(
            n as int,
            10,
        ),
        c.otlp is Some <==> raw.otlp is Some,
        raw.otlp matches Some(o) ==> (c.otlp->0.endpoint == o.endpoint && c.otlp->0.interval_ms
            == (match o.interval_ms {
            Some(n) => vstd::math::max(n as int, 100),
            None => 5_000,
        })),
        c.gateway is Some <==> raw.gateway is Some,
        raw.gateway matches Some(g) ==> (c.gateway->0.endpoint == g.endpoint
            && c.gateway->0.interval_ms == (match g.interval_ms {
            Some(n) => vstd::math::max(n as int, 100),
            None => 5_000,
        })),
{
}

/// A source stays what it is, with what is stated of it.
pub proof fn law_sources_are_as_stated(raw: RawSource)
    ensures
        raw matches RawSource::Pcap { path } ==> (raw.meant() matches SourceConfig::Pcap { path: p }
            && p == path),
        raw matches RawSource::AfPacket {
            interface,
            ring_block_size_bytes,
            ring_block_count,
            block_retire_timeout_ms,
            fanout_mode,
            fanout_group,
        } ==> (raw.meant() matches SourceConfig::AfPacket {
            interface: i,
            ring_block_size_bytes: s,
            ring_block_count: n,
            block_retire_timeout_ms: t,
            fanout_mode: m,
            fanout_group: g,
        } && {
            &&& i == interface
            &&& ring_block_size_bytes is Some ==> s == ring_block_size_bytes->0
            &&& ring_block_size_bytes is None ==> s == 1_048_576
            &&& ring_block_count is Some ==> n == ring_block_count->0
            &&& ring_block_count is None ==> n == 64
            &&& block_retire_timeout_ms is Some ==> t == block_retire_timeout_ms->0
            &&& block_retire_timeout_ms is None ==> t == 64
            &&& fanout_mode is Some ==> m == fanout_mode->0
            &&& fanout_mode is None ==> m == AfPacketFanoutMode::Single
            &&& fanout_group is Some ==> g == fanout_group->0
            &&& fanout_group is None ==> g == 0
        }),
        raw matches RawSource::Ebpf {
            interface,
            object_path,
            ring_buffer_bytes,
            fallback_to_af_packet,
        } ==> (raw.meant() matches SourceConfig::Ebpf {
            interface: i,
            object_path: o,
            ring_buffer_bytes: b,
            fallback_to_af_packet: f,
        } && {
            &&& i == interface
            &&& o == object_path
            &&& ring_buffer_bytes is Some ==> b == ring_buffer_bytes->0
            &&& ring_buffer_bytes is None ==> b == 16_777_216
            &&& fallback_to_af_packet is Some ==> f == fallback_to_af_packet->0
            &&& fallback_to_af_packet is None ==> !f
        }),
{
}

/// A name of a Linux interface: not blank, at most fifteen bytes, without
/// slash or NUL.
pub open spec fn names_an_interface(s: Seq<char>) -> bool {
    &&& trimmed(s).len() > 0
    &&& encode_utf8(s).len() <= 15
    &&& !s.contains('/')
    &&& !s.contains('\0')
}

/// Whether a source can be opened by `shards` workers.
pub open spec fn is_sound_source(
    source: SourceConfig,
    shards: int,
    strategy: RuntimeShardStrategy,
) -> bool {
    match source {
        SourceConfig::Pcap { .. } => true,
        SourceConfig::AfPacket {
            interface,
            ring_block_size_bytes,
            ring_block_count,
            block_retire_timeout_ms,
            fanout_mode,
            ..
        } => {
            let single = fanout_mode == AfPacketFanoutMode::Single;
            let ring = ring_block_size_bytes as int * ring_block_count as int;
            &&& names_an_interface(interface@)
            &&& exists|k: nat| 16 <= k <= 24 && ring_block_size_bytes as nat == #[trigger] pow2(k)
            &&& ring_block_count > 0
            &&& single ==> ring <= 1_073_741_824
            &&& !single ==> ring * shards <= 1_073_741_824
            &&& 1 <= block_retire_timeout_ms <= 1_000
            &&& !single ==> shards >= 2 && strategy == RuntimeShardStrategy::Flow
        },
        SourceConfig::Ebpf { interface, object_path, ring_buffer_bytes, .. } => {
            &&& names_an_interface(interface@)
            &&& object_path@.len() > 0
            &&& exists|k: nat| 16 <= k <= 30 && ring_buffer_bytes as nat == #[trigger] pow2(k)
        },
    }
}

/// One CPU that Linux can name for each of `n` threads, no two on the same.
pub open spec fn places_each(cpus: Seq<usize>, n: int) -> bool {
    &&& cpus.len() == n
    &&& forall|i: int| 0 <= i < cpus.len() ==> #[trigger] cpus[i] <= 1_023
    &&& forall|i: int, j: int| 0 <= i < j < cpus.len() ==> cpus[i] != cpus[j]
}

/// An address that an export can reach.
pub open spec fn is_reachable(e: Option<RawEndpoint>) -> bool {
    e is Some ==> {
        let s = e->0.endpoint@;
        &&& s.len() >= 7
        &&& s.take(7) == seq!['h', 't', 't', 'p', ':', '/', '/']
    }
}

/// Settings are taken exactly if there is a query, a name that is given is not
/// blank and at most 253 bytes long, the sizes are within their bounds, the
/// source can be opened, every thread has its CPU if any has, exports go over
/// HTTP, and a gateway is told the name of the node.
pub proof fn law_sound_settings_are_taken(raw: RawAgentConfig)
    ensures
        raw.fault() is None <==> {
            let shards = match raw.runtime_shards {
                Some(n) => n as int,
                None => 1,
            };
            let strategy = match raw.runtime_shard_strategy {
                Some(s) => s,
                None => RuntimeShardStrategy::Flow,
            };
            let source = raw.source.meant();
            let lanes = match source {
                SourceConfig::AfPacket { fanout_mode, .. } => if fanout_mode
                    == AfPacketFanoutMode::Single {
                    1
                } else {
                    shards
                },
                _ => 1,
            };
            &&& raw.query_files@.len() > 0
            &&& raw.node_name matches Some(n) ==> trimmed(n@).len() > 0 && encode_utf8(n@).len()
                <= 253
            &&& 1 <= shards <= 256
            &&& raw.runtime_batch_size matches Some(n) ==> 1 <= n <= 65_536
            &&& raw.max_sketch_memory_bytes matches Some(n) ==> 1_048_576 <= n <= 1_099_511_627_776
            &&& is_sound_source(source, shards, strategy)
            &&& raw.cpu_affinity matches Some(a) ==> places_each(a.capture_cpus@, lanes)
                && places_each(a.runtime_cpus@, shards)
            &&& is_reachable(raw.otlp)
            &&& is_reachable(raw.gateway)
            &&& raw.gateway is Some ==> raw.node_name is Some
        },
{
    let source = raw.source.meant();
    let shards = raw.shards();
    lemma_sound_source(source, shards, raw.strategy());
    if let Some(a) = raw.cpu_affinity {
        lemma_cpus(a.capture_cpus@, "captureCpus"@, raw.lanes(), "capture lanes"@);
        lemma_cpus(a.runtime_cpus@, "runtimeCpus"@, shards as nat, "runtime shards"@);
    }
    if let Some(o) = raw.otlp {
        assert(is_http(o.endpoint@) <==> is_reachable(raw.otlp));
    }
    if let Some(g) = raw.gateway {
        assert(is_http(g.endpoint@) <==> is_reachable(raw.gateway));
    }
}

proof fn lemma_sound_source(source: SourceConfig, shards: usize, strategy: RuntimeShardStrategy)
    ensures
        source_fault(source, shards, strategy) is None <==> is_sound_source(
            source,
            shards as int,
            strategy,
        ),
{
    if let SourceConfig::AfPacket { ring_block_size_bytes, ring_block_count, .. } = source {
        let ring = ring_block_size_bytes as nat * ring_block_count as nat;
        assert(ring * 1 == ring);
        assert(ring as int == ring_block_size_bytes as int * ring_block_count as int);
    }
}

proof fn lemma_cpus(cpus: Seq<usize>, which: Seq<char>, n: nat, of: Seq<char>)
    ensures
        cpus_fault(cpus, which, n, of) is None <==> places_each(cpus, n as int),
{
    lemma_no_duplicates(cpus);
}

proof fn lemma_no_duplicates(s: Seq<usize>)
    ensures
        s.no_duplicates() <==> forall|i: int, j: int| 0 <= i < j < s.len() ==> s[i] != s[j],
{
    if forall|i: int, j: int| 0 <= i < j < s.len() ==> s[i] != s[j] {
        assert forall|i: int, j: int|
            0 <= i < s.len() && 0 <= j < s.len() && i != j implies s[i] != s[j] by {
            if i < j {
                assert(s[i] != s[j]);
            } else {
                assert(s[j] != s[i]);
            }
        }
    }
}

/// One plan more takes its own bytes once for each shard.
pub proof fn law_planned_memory_adds_up(plans: Seq<Plan>, plan: Plan, shards: nat, max: nat)
    ensures
        planned_bytes(Seq::<Plan>::empty()) == 0,
        planned_bytes(plans.push(plan)) == planned_bytes(plans)
            + plan.physical.estimated_memory_bytes,
        memory_fault(plans, shards, max) is None <==> planned_bytes(plans) <= u64::MAX
            && planned_bytes(plans) * shards <= u64::MAX && planned_bytes(plans) * shards <= max,
{
    assert(plans.push(plan).drop_last() =~= plans);
}

} // verus!
