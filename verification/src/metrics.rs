//! Lines of the Prometheus text format for counters and gauges.

use vstd::prelude::*;
use vstd::string::*;

use crate::text::{dec, push_decimal};

verus! {

/// How a metric behaves over time.
#[derive(Debug, Clone, Copy, PartialEq, Eq, Structural)]
pub enum MetricKind {
    /// Never falls while the process runs.
    Counter,
    /// Rises and falls.
    Gauge,
}

impl MetricKind {
    pub open spec fn text(self) -> Seq<char> {
        match self {
            MetricKind::Counter => "counter"@,
            MetricKind::Gauge => "gauge"@,
        }
    }

    /// The kind as the format spells it.
    pub fn name(self) -> (r: &'static str)
        ensures
            r@ == self.text(),
    {
        match self {
            MetricKind::Counter => "counter",
            MetricKind::Gauge => "gauge",
        }
    }
}

/// A counter after `n` more: beyond its range it starts over.
pub open spec fn plus(c: u64, n: nat) -> u64 {
    ((c + n) % 0x1_0000_0000_0000_0000) as u64
}

/// Raise a counter.
pub fn raise(c: u64, n: u64) -> (r: u64)
    ensures
        r == plus(c, n as nat),
{
    c.wrapping_add(n)
}

/// A text followed by the description of a metric.
pub open spec fn with_header(
    before: Seq<char>,
    name: Seq<char>,
    help: Seq<char>,
    kind: MetricKind,
) -> Seq<char> {
    before + "# HELP "@ + name + " "@ + help + "\n# TYPE "@ + name + " "@ + kind.text() + "\n"@
}

/// A text followed by a sample without labels.
pub open spec fn with_sample(before: Seq<char>, name: Seq<char>, value: nat) -> Seq<char> {
    before + name + " "@ + dec(value) + "\n"@
}

/// A text followed by a sample with one label.
pub open spec fn with_labelled(
    before: Seq<char>,
    name: Seq<char>,
    label: Seq<char>,
    of: Seq<char>,
    value: nat,
) -> Seq<char> {
    before + name + "{"@ + label + "=\""@ + of + "\"} "@ + dec(value) + "\n"@
}

/// A text followed by the description of a metric and its one sample.
pub open spec fn with_metric(
    before: Seq<char>,
    name: Seq<char>,
    help: Seq<char>,
    kind: MetricKind,
    value: nat,
) -> Seq<char> {
    with_sample(with_header(before, name, help, kind), name, value)
}

/// Append the description of a metric.
pub fn push_header(out: &mut String, name: &str, help: &str, kind: MetricKind)
    ensures
        final(out)@ == with_header(old(out)@, name@, help@, kind),
{
    out.append("# HELP ");
    out.append(name);
    out.append(" ");
    out.append(help);
    out.append("\n# TYPE ");
    out.append(name);
    out.append(" ");
    out.append(kind.name());
    out.append("\n");
}

/// Append a sample without labels.
pub fn push_sample(out: &mut String, name: &str, value: u64)
    ensures
        final(out)@ == with_sample(old(out)@, name@, value as nat),
{
    out.append(name);
    out.append(" ");
    push_decimal(out, value);
    out.append("\n");
}

/// Append a sample with one label.
pub fn push_labelled(out: &mut String, name: &str, label: &str, of: &str, value: u64)
    ensures
        final(out)@ == with_labelled(old(out)@, name@, label@, of@, value as nat),
{
    out.append(name);
    out.append("{");
    out.append(label);
    out.append("=\"");
    out.append(of);
    out.append("\"} ");
    push_decimal(out, value);
    out.append("\n");
}

/// Append the description of a metric and its one sample.
pub fn push_metric(out: &mut String, name: &str, help: &str, kind: MetricKind, value: u64)
    ensures
        final(out)@ == with_metric(old(out)@, name@, help@, kind, value as nat),
{
    push_header(out, name, help, kind);
    push_sample(out, name, value);
}

} // verus!
