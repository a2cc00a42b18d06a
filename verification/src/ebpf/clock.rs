//! From the kernel's monotonic clock to the Unix clock.

use vstd::prelude::*;
use vstd::string::*;

use crate::ebpf::record::EbpfError;
use crate::text::{dec, decimal};

verus! {

/// The distance between the two clocks. It is measured anew from time to
/// time, so that corrections of the wall clock do not leave a long-running
/// collector behind.
#[derive(Debug, Clone, Copy)]
pub struct KernelClockConverter {
    realtime_minus_monotonic: i128,
}

/// The middle between two readings of a clock; the earlier one where the
/// clock went backwards.
pub open spec fn midpoint(before: nat, after: nat) -> nat {
    if after <= before {
        before
    } else {
        before + (after - before) as nat / 2
    }
}

impl KernelClockConverter {
    /// Unix time minus monotonic time.
    pub closed spec fn offset(self) -> int {
        self.realtime_minus_monotonic as int
    }

    /// The offset is the difference of two 64-bit readings.
    pub open spec fn wf(self) -> bool {
        -0x1_0000_0000_0000_0000 < self.offset() < 0x1_0000_0000_0000_0000
    }

    pub fn from_samples(monotonic_nanos: u64, realtime_nanos: u64) -> (r: Self)
        ensures
            r.wf(),
            r.offset() == realtime_nanos - monotonic_nanos,
    {
        KernelClockConverter {
            realtime_minus_monotonic: realtime_nanos as i128 - monotonic_nanos as i128,
        }
    }

    /// The Unix clock read between two readings of the monotonic clock.
    pub fn from_readings(before: u64, realtime: u64, after: u64) -> (r: Self)
        ensures
            r.wf(),
            r.offset() == realtime - midpoint(before as nat, after as nat),
    {
        let mid: u64 = if after <= before {
            before
        } else {
            before + (after - before) / 2
        };
        Self::from_samples(mid, realtime)
    }

    pub fn to_unix_nanos(self, monotonic_nanos: u64) -> (r: Result<u64, EbpfError>)
        requires
            self.wf(),
        ensures
            ({
                let unix = monotonic_nanos + self.offset();
                if 0 <= unix <= u64::MAX {
                    r == Ok::<u64, EbpfError>(unix as u64)
                } else {
                    r == Err::<u64, EbpfError>(EbpfError::TimestampOutOfRange(monotonic_nanos))
                }
            }),
    {
        let unix: i128 = monotonic_nanos as i128 + self.realtime_minus_monotonic;
        if unix < 0 || unix > u64::MAX as i128 {
            Err(EbpfError::TimestampOutOfRange(monotonic_nanos))
        } else {
            Ok(unix as u64)
        }
    }
}

/// A text filled up with zeros in front.
pub open spec fn zero_padded(s: Seq<char>, width: nat) -> Seq<char> {
    if s.len() >= width {
        s
    } else {
        Seq::new((width - s.len()) as nat, |i: int| '0') + s
    }
}

/// A signed number, filled up with zeros to a width.
pub open spec fn signed_text(n: int, width: nat) -> Seq<char> {
    if n < 0 {
        "-"@ + zero_padded(
            dec((-n) as nat),
            if width > 0 {
                (width - 1) as nat
            } else {
                0
            },
        )
    } else {
        zero_padded(dec(n as nat), width)
    }
}

fn push_padded(out: &mut String, n: u64, width: usize)
    ensures
        final(out)@ == old(out)@ + zero_padded(dec(n as nat), width as nat),
{
    let text = decimal(n);
    let len: usize = text.as_str().unicode_len();
    if len < width {
        let missing: usize = width - len;
        let mut i: usize = 0;
        assert(out@ =~= old(out)@ + Seq::new(0, |i: int| '0'));
        while i < missing
            invariant
                i <= missing,
                out@ == old(out)@ + Seq::new(i as nat, |i: int| '0'),
            decreases missing - i,
        {
            out.push('0');
            i += 1;
            assert(out@ =~= old(out)@ + Seq::new(i as nat, |i: int| '0'));
        }
    }
    out.append(text.as_str());
    assert(out@ =~= old(out)@ + zero_padded(dec(n as nat), width as nat));
}

fn push_signed(out: &mut String, n: i64, width: usize)
    ensures
        final(out)@ == old(out)@ + signed_text(n as int, width as nat),
{
    if n < 0 {
        let magnitude: u64 = (-(n as i128)) as u64;
        out.append("-");
        push_padded(
            out,
            magnitude,
            if width > 0 {
                width - 1
            } else {
                0
            },
        );
        assert(out@ =~= old(out)@ + signed_text(n as int, width as nat));
    } else {
        push_padded(out, n as u64, width);
    }
}

/// The message about seconds and nanoseconds that are no time of a clock.
pub open spec fn invalid_timespec(clock: int, seconds: int, nanos: int) -> Seq<char> {
    "clock "@ + signed_text(clock, 0) + " returned invalid timespec "@ + signed_text(seconds, 0)
        + "."@ + signed_text(nanos, 9)
}

/// The nanoseconds of a reading of `clock`.
pub fn timespec_nanos(clock: i32, seconds: i64, nanos: i64) -> (r: Result<u64, EbpfError>)
    ensures
        if seconds < 0 || nanos < 0 || nanos >= 1_000_000_000 {
            r matches Err(EbpfError::ClockSample(m)) && m@ == invalid_timespec(
                clock as int,
                seconds as int,
                nanos as int,
            )
        } else if seconds * 1_000_000_000 + nanos > u64::MAX {
            r matches Err(EbpfError::ClockSample(m)) && m@ == "clock nanoseconds overflow u64"@
        } else {
            r == Ok::<u64, EbpfError>((seconds * 1_000_000_000 + nanos) as u64)
        },
{
    if seconds < 0 || nanos < 0 || nanos >= 1_000_000_000 {
        let mut m = "clock ".to_owned();
        push_signed(&mut m, clock as i64, 0);
        m.append(" returned invalid timespec ");
        push_signed(&mut m, seconds, 0);
        m.append(".");
        push_signed(&mut m, nanos, 9);
        return Err(EbpfError::ClockSample(m));
    }
    let total: i128 = seconds as i128 * 1_000_000_000 + nanos as i128;
    if total > u64::MAX as i128 {
        return Err(EbpfError::ClockSample("clock nanoseconds overflow u64".to_owned()));
    }
    Ok(total as u64)
}

/// The time of the sample is the time of the sample, and times in between keep
/// their distance.
pub proof fn law_clock_conversion_keeps_distances(
    c: KernelClockConverter,
    monotonic: u64,
    realtime: u64,
    t: u64,
)
    requires
        c.offset() == realtime - monotonic,
    ensures
        monotonic + c.offset() == realtime,
        (t + c.offset()) - realtime == t - monotonic,
{
}

} // verus!
