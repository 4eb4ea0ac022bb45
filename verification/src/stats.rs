//! Engine-wide counters and the loss-rate formula used by link reports.

use vstd::prelude::*;

verus! {

/// Counters for global engine statistics.
pub struct EngineStats {
    /// Total breaths taken.
    pub breaths: u64,
    /// Total packets freed.
    pub frees: u64,
    /// Total packet bits freed.
    pub freebits: u64,
    /// Total packet bytes freed.
    pub freebytes: u64,
}

impl EngineStats {
    pub fn new() -> (r: EngineStats)
        ensures
            r.breaths == 0,
            r.frees == 0,
            r.freebits == 0,
            r.freebytes == 0,
    {
        EngineStats { breaths: 0, frees: 0, freebits: 0, freebytes: 0 }
    }
}

/// Saturating increment used for all engine counters: they never wrap and
/// never panic.
pub open spec fn sat_add(a: u64, b: u64) -> u64 {
    if a + b > u64::MAX {
        u64::MAX
    } else {
        (a + b) as u64
    }
}

/// Add with saturation at `u64::MAX`.
pub fn counter_add(a: u64, b: u64) -> (r: u64)
    ensures
        r == sat_add(a, b),
{
    if a <= u64::MAX - b {
        a + b
    } else {
        u64::MAX
    }
}

/// Percentage of packets lost on a link: `drop * 100 / (drop + sent)`,
/// and zero when nothing was sent.
pub open spec fn spec_loss_rate(drop: u64, sent: u64) -> u64 {
    if drop + sent == 0 {
        0u64
    } else {
        (drop * 100 / (drop + sent)) as u64
    }
}

pub fn loss_rate(drop: u64, sent: u64) -> (r: u64)
    ensures
        r == spec_loss_rate(drop, sent),
{
    if drop == 0 && sent == 0 {
        return 0;
    }
    let num: u128 = drop as u128 * 100;
    let den: u128 = drop as u128 + sent as u128;
    let q: u128 = num / den;
    proof {
        assert(q <= 100) by (nonlinear_arith)
            requires
                num == drop * 100,
                den == drop + sent,
                q == num / den,
                den > 0,
        ;
    }
    q as u64
}

/// A drop count of zero gives a loss rate of zero, and a positive drop count
/// with nothing sent gives a loss rate of one hundred percent.
pub proof fn lemma_loss_rate_edges(drop: u64, sent: u64)
    ensures
        spec_loss_rate(0, sent) == 0,
        drop > 0 ==> spec_loss_rate(drop, 0) == 100,
        spec_loss_rate(drop, sent) <= 100,
{
    if sent != 0 {
        assert(0u64 * 100 / (0 + sent) == 0) by (nonlinear_arith)
            requires
                sent > 0,
        ;
    }
    if drop > 0 {
        assert(drop * 100 / (drop + 0) == 100) by (nonlinear_arith)
            requires
                drop > 0,
        ;
    }
    if drop + sent != 0 {
        assert(drop * 100 / (drop + sent) <= 100) by (nonlinear_arith)
            requires
                drop + sent > 0,
        ;
    }
}

} // verus!
