use vstd::prelude::*;

verus! {

/// Bytes of encoded audio per second at the fixed encode bitrate (128 kbit/s).
pub const BYTES_PER_SECOND: usize = 16000;

/// The ceiling of `total / seg`.
pub open spec fn ceil_div(total: nat, seg: nat) -> nat
    recommends
        seg > 0,
{
    ((total + seg - 1) as nat) / seg
}

/// Start, in seconds, of segment `i`.
pub open spec fn start_of(seg: nat, i: nat) -> nat {
    i * seg
}

/// Length, in seconds, of segment `i`: a full segment, or what is left of the
/// input before its end.
pub open spec fn length_of(total: nat, seg: nat, i: nat) -> nat {
    if total >= start_of(seg, i) + seg {
        seg
    } else {
        (total - start_of(seg, i)) as nat
    }
}

/// Why a segment plan could not be built.
#[derive(Debug, Clone, Copy, PartialEq, Eq, Structural)]
pub enum ConfigError {
    /// The size limit holds less than one second of encoded audio.
    SegmentTooSmall,
}

/// Segment duration that fits `max_segment_size` bytes of encoded audio.
pub open spec fn duration_for_size(max_segment_size: nat) -> nat {
    max_segment_size / (BYTES_PER_SECOND as nat)
}

/// Converts a byte budget per segment into a whole number of seconds per
/// segment; fails when that is less than one second.
pub fn segment_duration_for_size(max_segment_size: usize) -> (r: Result<usize, ConfigError>)
    ensures
        duration_for_size(max_segment_size as nat) == 0 ==> r == Err::<usize, ConfigError>(
            ConfigError::SegmentTooSmall,
        ),
        duration_for_size(max_segment_size as nat) > 0 ==> r == Ok::<usize, ConfigError>(
            duration_for_size(max_segment_size as nat) as usize,
        ),
{
    let secs: usize = max_segment_size / BYTES_PER_SECOND;
    if secs == 0 {
        Err(ConfigError::SegmentTooSmall)
    } else {
        Ok(secs)
    }
}

/// Number of segments needed to cover `total_duration` seconds in pieces of
/// `segment_duration_secs` seconds: the ceiling of their quotient.
pub fn total_segments(total_duration: usize, segment_duration_secs: usize) -> (r: usize)
    requires
        segment_duration_secs > 0,
    ensures
        r as nat == ceil_div(total_duration as nat, segment_duration_secs as nat),
{
    let q: usize = total_duration / segment_duration_secs;
    let rem: usize = total_duration % segment_duration_secs;
    proof {
        lemma_ceil_div_parts(total_duration as nat, segment_duration_secs as nat);
    }
    if rem == 0 {
        q
    } else {
        assert(q < usize::MAX) by (nonlinear_arith)
            requires
                q == total_duration / segment_duration_secs,
                rem == total_duration % segment_duration_secs,
                rem > 0,
                segment_duration_secs > 0,
                total_duration <= usize::MAX,
        {
            assert(segment_duration_secs >= 2);
            assert(q * segment_duration_secs <= total_duration);
        }
        q + 1
    }
}

/// The ceiling splits into the quotient and one more when there is a remainder.
proof fn lemma_ceil_div_parts(total: nat, seg: nat)
    requires
        seg > 0,
    ensures
        total % seg == 0 ==> ceil_div(total, seg) == total / seg,
        total % seg != 0 ==> ceil_div(total, seg) == total / seg + 1,
{
    let q = total / seg;
    let r = total % seg;
    assert(total == q * seg + r && r < seg) by (nonlinear_arith)
        requires
            q == total / seg,
            r == total % seg,
            seg > 0,
    ;
    let t1 = (total + seg - 1) as nat;
    if r == 0 {
        assert(t1 == q * seg + (seg - 1));
        assert(t1 / seg == q) by (nonlinear_arith)
            requires
                t1 == q * seg + (seg - 1),
                seg > 0,
        {
            vstd::arithmetic::div_mod::lemma_fundamental_div_mod_converse(
                t1 as int,
                seg as int,
                q as int,
                (seg - 1) as int,
            );
        }
    } else {
        assert(t1 == (q + 1) * seg + (r - 1)) by (nonlinear_arith)
            requires
                t1 == total + seg - 1,
                total == q * seg + r,
                r > 0,
        ;
        vstd::arithmetic::div_mod::lemma_fundamental_div_mod_converse(
            t1 as int,
            seg as int,
            (q + 1) as int,
            (r - 1) as int,
        );
    }
}


/// How one input is cut: its total duration, the duration of a full segment,
/// and how many segments cover it.
#[derive(Debug, Clone, Copy, PartialEq, Eq, Structural)]
pub struct SegmentPlan {
    pub total_duration_secs: usize,
    pub segment_duration_secs: usize,
    pub segment_count: usize,
}

impl SegmentPlan {
    /// A plan is well formed when its segment duration is positive and its
    /// count is the ceiling of total over segment duration.
    pub open spec fn wf(&self) -> bool {
        &&& self.segment_duration_secs > 0
        &&& self.segment_count as nat == ceil_div(
            self.total_duration_secs as nat,
            self.segment_duration_secs as nat,
        )
    }

    pub fn new(total_duration_secs: usize, segment_duration_secs: usize) -> (r: SegmentPlan)
        requires
            segment_duration_secs > 0,
        ensures
            r.wf(),
            r.total_duration_secs == total_duration_secs,
            r.segment_duration_secs == segment_duration_secs,
    {
        let segment_count = total_segments(total_duration_secs, segment_duration_secs);
        SegmentPlan { total_duration_secs, segment_duration_secs, segment_count }
    }

    /// Start, in seconds, of segment `i`.
    pub fn segment_start(&self, i: usize) -> (r: usize)
        requires
            self.wf(),
            i < self.segment_count,
        ensures
            r as nat == start_of(self.segment_duration_secs as nat, i as nat),
            r < self.total_duration_secs,
    {
        proof {
            lemma_start_in_range(
                self.total_duration_secs as nat,
                self.segment_duration_secs as nat,
                i as nat,
            );
        }
        i * self.segment_duration_secs
    }

    /// Length, in seconds, of segment `i`: the segment duration, or less for a
    /// last segment that reaches the end of the input.
    pub fn segment_length(&self, i: usize) -> (r: usize)
        requires
            self.wf(),
            i < self.segment_count,
        ensures
            r as nat == length_of(
                self.total_duration_secs as nat,
                self.segment_duration_secs as nat,
                i as nat,
            ),
            r > 0,
    {
        let start = self.segment_start(i);
        let left: usize = self.total_duration_secs - start;
        if left >= self.segment_duration_secs {
            self.segment_duration_secs
        } else {
            left
        }
    }
}

/// Every segment of a plan starts before the end of the input.
proof fn lemma_start_in_range(total: nat, seg: nat, i: nat)
    requires
        seg > 0,
        i < ceil_div(total, seg),
    ensures
        i * seg < total,
{
    lemma_ceil_div_parts(total, seg);
    let q = total / seg;
    let r = total % seg;
    assert(total == q * seg + r && r < seg) by (nonlinear_arith)
        requires
            q == total / seg,
            r == total % seg,
            seg > 0,
    ;
    if r == 0 {
        assert(i < q);
        assert(i * seg < q * seg) by (nonlinear_arith)
            requires
                i < q,
                seg > 0,
        ;
    } else {
        assert(i <= q);
        assert(i * seg <= q * seg) by (nonlinear_arith)
            requires
                i <= q,
        ;
    }
}

/// The segments of a plan tile `[0, total)`: the first starts at zero, each
/// is non-empty and ends where the next starts, every one but the last is a
/// full segment, and the last ends exactly at the end of the input. No input
/// gives an empty plan but one of duration zero.
pub proof fn lemma_segments_tile(total: nat, seg: nat)
    requires
        seg > 0,
    ensures
        ceil_div(total, seg) == 0 <==> total == 0,
        forall|i: nat|
            i < ceil_div(total, seg) ==> #[trigger] start_of(seg, i) < total && length_of(total, seg, i) > 0,
        forall|i: nat|
            i + 1 < ceil_div(total, seg) ==> #[trigger] length_of(total, seg, i) == seg
                && start_of(seg, i) + length_of(total, seg, i) == start_of(seg, i + 1),
        ceil_div(total, seg) > 0 ==> start_of(seg, (ceil_div(total, seg) - 1) as nat)
            + length_of(total, seg, (ceil_div(total, seg) - 1) as nat) == total,
{
    let n = ceil_div(total, seg);
    lemma_ceil_div_parts(total, seg);
    let q = total / seg;
    let r = total % seg;
    assert(total == q * seg + r && r < seg) by (nonlinear_arith)
        requires
            q == total / seg,
            r == total % seg,
            seg > 0,
    ;
    assert forall|i: nat| i < n implies #[trigger] start_of(seg, i) < total && length_of(
        total,
        seg,
        i,
    ) > 0 by {
        lemma_start_in_range(total, seg, i);
    }
    assert forall|i: nat| i + 1 < n implies #[trigger] length_of(total, seg, i) == seg
        && start_of(seg, i) + length_of(total, seg, i) == start_of(seg, i + 1) by {
        lemma_start_in_range(total, seg, i + 1);
        assert((i + 1) * seg == i * seg + seg) by (nonlinear_arith);
    }
    if n > 0 {
        let last = (n - 1) as nat;
        if r == 0 {
            assert(last * seg + seg == total) by (nonlinear_arith)
                requires
                    last + 1 == q,
                    total == q * seg,
            ;
        } else {
            assert(last * seg + r == total) by (nonlinear_arith)
                requires
                    last == q,
                    total == q * seg + r,
            ;
        }
    }
    if total > 0 && r == 0 {
        assert(q > 0) by (nonlinear_arith)
            requires
                total == q * seg,
                total > 0,
        ;
    }
}

/// An input whose duration is a whole multiple of the segment duration has
/// no short trailing segment: every segment is a full one.
pub proof fn lemma_exact_multiple_has_full_segments(total: nat, seg: nat)
    requires
        seg > 0,
        total % seg == 0,
    ensures
        ceil_div(total, seg) == total / seg,
        forall|i: nat| i < ceil_div(total, seg) ==> #[trigger] length_of(total, seg, i) == seg,
{
    lemma_ceil_div_parts(total, seg);
    let q = total / seg;
    assert(total == q * seg) by (nonlinear_arith)
        requires
            q == total / seg,
            total % seg == 0,
            seg > 0,
    ;
    assert forall|i: nat| i < ceil_div(total, seg) implies #[trigger] length_of(total, seg, i)
        == seg by {
        assert(i * seg + seg <= total) by (nonlinear_arith)
            requires
                i < q,
                total == q * seg,
        ;
    }
}

} // verus!
