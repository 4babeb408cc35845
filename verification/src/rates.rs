//! Sample rates and sweep budgets.

use vstd::prelude::*;

use crate::order::{first_min, gap, is_first_min, lemma_first_min, round_div};
use crate::plan::usable_span;

verus! {

/// Which FM demodulator the decode worker runs.
#[derive(Debug, Clone, Copy, PartialEq, Eq, Structural)]
pub enum DemodKind {
    /// Choose the discriminator or the PLL by the decode rate.
    Auto,
    /// Per-sample quadrature discriminator: robust at every sample rate.
    Discriminator,
    /// PLL demodulator: needs a high decode rate to track the deviation.
    Pll,
}

/// How many rates the Aaronia hardware runs.
pub const IQ_RATES: usize = 10;

/// The rates the Aaronia hardware runs, in hertz: 61.44 MHz over powers of two.
pub open spec fn iq_rate(i: int) -> int {
    if i == 0 {
        61_440_000
    } else if i == 1 {
        30_720_000
    } else if i == 2 {
        15_360_000
    } else if i == 3 {
        7_680_000
    } else if i == 4 {
        3_840_000
    } else if i == 5 {
        1_920_000
    } else if i == 6 {
        960_000
    } else if i == 7 {
        480_000
    } else if i == 8 {
        240_000
    } else {
        120_000
    }
}

/// A hardware rate.
fn iq_rate_at(i: usize) -> (r: u64)
    requires
        i < IQ_RATES,
    ensures
        r == iq_rate(i as int),
        120_000 <= r <= 61_440_000,
{
    if i == 0 {
        61_440_000
    } else if i == 1 {
        30_720_000
    } else if i == 2 {
        15_360_000
    } else if i == 3 {
        7_680_000
    } else if i == 4 {
        3_840_000
    } else if i == 5 {
        1_920_000
    } else if i == 6 {
        960_000
    } else if i == 7 {
        480_000
    } else if i == 8 {
        240_000
    } else {
        120_000
    }
}

/// Distances of the hardware rates from `rate / parts`, times `parts`, in millihertz.
pub open spec fn rate_gaps(rate_milli_hz: int, parts: int) -> Seq<int> {
    Seq::new(IQ_RATES as nat, |i: int| gap(1000 * iq_rate(i) * parts, rate_milli_hz))
}

/// The hardware rate nearest to a `parts`-th of a rate, in hertz; the higher of two
/// equally near ones.
pub open spec fn nearest_rate(rate_milli_hz: int, parts: int) -> int {
    iq_rate(first_min(rate_gaps(rate_milli_hz, parts)))
}

/// The hardware rate nearest to a `parts`-th of a rate.
fn nearest_part(rate_milli_hz: u64, parts: u64) -> (r: u64)
    requires
        0 < parts,
    ensures
        r == nearest_rate(rate_milli_hz as int, parts as int),
        120_000 <= r <= 61_440_000,
{
    let ghost far = rate_gaps(rate_milli_hz as int, parts as int);
    let mut best: usize = 0;
    let mut best_gap: u128 = rate_gap(0, rate_milli_hz, parts);
    let mut i: usize = 1;
    while i < IQ_RATES
        invariant
            1 <= i <= IQ_RATES,
            best < i,
            far == rate_gaps(rate_milli_hz as int, parts as int),
            best_gap == far[best as int],
            forall|j: int| 0 <= j < i ==> far[best as int] <= #[trigger] far[j],
            forall|j: int| 0 <= j < best ==> far[best as int] < #[trigger] far[j],
        decreases IQ_RATES - i,
    {
        let here: u128 = rate_gap(i, rate_milli_hz, parts);
        if here < best_gap {
            best = i;
            best_gap = here;
        }
        i = i + 1;
    }
    proof {
        assert(is_first_min(far, best as int));
        lemma_first_min(far);
    }
    iq_rate_at(best)
}

fn rate_gap(i: usize, rate_milli_hz: u64, parts: u64) -> (d: u128)
    requires
        i < IQ_RATES,
    ensures
        d == rate_gaps(rate_milli_hz as int, parts as int)[i as int],
{
    let step: u128 = 1000 * iq_rate_at(i) as u128;
    proof {
        assert(0 <= step * parts <= 61_440_000_000 * 0xffff_ffff_ffff_ffff) by (nonlinear_arith)
            requires
                0 <= step <= 61_440_000_000,
                0 <= parts <= 0xffff_ffff_ffff_ffff,
        ;
    }
    let at: u128 = step * parts as u128;
    if at >= rate_milli_hz as u128 {
        at - rate_milli_hz as u128
    } else {
        rate_milli_hz as u128 - at
    }
}

/// The hardware rate nearest to a requested one, in hertz.
pub fn nearest_iq_sample_rate(requested_milli_hz: u64) -> (hz: u64)
    ensures
        hz == nearest_rate(requested_milli_hz as int, 1),
{
    nearest_part(requested_milli_hz, 1)
}

/// A hardware rate is its own nearest.
pub proof fn law_hardware_rate_is_kept(i: int)
    requires
        0 <= i < IQ_RATES,
    ensures
        nearest_rate(1000 * iq_rate(i), 1) == iq_rate(i),
{
    let far = rate_gaps(1000 * iq_rate(i), 1);
    lemma_first_min(far);
    assert(far[i] == 0);
    assert(far[first_min(far)] <= far[i]);
}

/// Spectrum kept on either side of the deviation for the luma sidebands, in
/// millihertz.
pub const LUMA_HEADROOM_MILLI_HZ: u64 = 2_000_000_000;

/// Whether a rate's usable span holds a channel of a deviation: four fifths of the
/// rate are at least twice the deviation with its headroom.
pub open spec fn rate_holds(rate_milli_hz: int, deviation_milli_hz: int) -> bool {
    4 * rate_milli_hz >= 10 * (deviation_milli_hz + LUMA_HEADROOM_MILLI_HZ)
}

/// Walk down the supported grid from `rate / parts`, keeping the lowest rate that
/// still holds the channel.
pub open spec fn narrowed(rate: int, deviation: int, chosen: int, parts: int) -> int
    decreases 8 * rate - 10 * (deviation + LUMA_HEADROOM_MILLI_HZ) * parts,
    when parts > 0 && deviation >= 0
{
    let below = 1000 * nearest_rate(rate, parts);
    if 4 * rate < 10 * (deviation + LUMA_HEADROOM_MILLI_HZ) * parts {
        chosen
    } else if gap(below * parts, rate) > 1000 * parts || !rate_holds(below, deviation) {
        chosen
    } else {
        proof {
            let need = 10 * (deviation + LUMA_HEADROOM_MILLI_HZ);
            assert(need * (2 * parts) == 2 * (need * parts) && need * parts > 0)
                by (nonlinear_arith)
                requires
                    need > 0,
                    parts > 0,
            ;
        }
        narrowed(rate, deviation, below, 2 * parts)
    }
}

/// The rate to capture a locked channel at.
pub open spec fn locked_rate(scan_rate: int, deviation: int, demod: DemodKind) -> int {
    if demod is Pll || deviation <= 0 {
        scan_rate
    } else {
        narrowed(scan_rate, deviation, scan_rate, 2)
    }
}

/// The rate to capture a locked channel at, once the sweep has found one: the lowest
/// supported rate whose usable span still holds the channel. A forced PLL keeps the
/// scan rate, since its loop needs a rate the grid does not promise it.
pub fn locked_capture_rate(
    scan_rate_milli_hz: u64,
    deviation_milli_hz: u64,
    demod: DemodKind,
) -> (r: u64)
    ensures
        r == locked_rate(scan_rate_milli_hz as int, deviation_milli_hz as int, demod),
{
    match demod {
        DemodKind::Pll => {
            return scan_rate_milli_hz;
        },
        DemodKind::Auto | DemodKind::Discriminator => {},
    }
    if deviation_milli_hz == 0 {
        return scan_rate_milli_hz;
    }
    let rate: u128 = scan_rate_milli_hz as u128;
    let need: u128 = 10 * (deviation_milli_hz as u128 + LUMA_HEADROOM_MILLI_HZ as u128);
    let mut chosen: u64 = scan_rate_milli_hz;
    let mut parts: u64 = 2;
    let mut going: bool = true;
    while going
        invariant
            rate == scan_rate_milli_hz,
            need == 10 * (deviation_milli_hz + LUMA_HEADROOM_MILLI_HZ),
            0 < parts <= 8_000_000_000,
            going ==> narrowed(rate as int, deviation_milli_hz as int, rate as int, 2)
                == narrowed(
                rate as int,
                deviation_milli_hz as int,
                chosen as int,
                parts as int,
            ),
            !going ==> chosen == narrowed(
                rate as int,
                deviation_milli_hz as int,
                rate as int,
                2,
            ),
            going ==> need * parts <= 8 * rate || parts == 2,
        decreases (if going { 1int } else { 0 }), 8_000_000_000 - parts,
    {
        proof {
            assert(need * parts <= 200_000_000_000_000_000_000 * 8_000_000_000)
                by (nonlinear_arith)
                requires
                    0 <= need <= 200_000_000_000_000_000_000,
                    0 <= parts <= 8_000_000_000,
            ;
        }
        if 4 * rate < need * parts as u128 {
            going = false;
        } else {
            proof {
                assert(parts < 4_000_000_000) by (nonlinear_arith)
                    requires
                        need * parts <= 4 * rate,
                        need >= 20_000_000_000,
                        rate <= 0xffff_ffff_ffff_ffff,
                        parts >= 0,
                ;
                assert(need * (2 * parts) == 2 * (need * parts)) by (nonlinear_arith);
            }
            let below: u64 = 1000 * nearest_part(scan_rate_milli_hz, parts);
            proof {
                assert(0 <= below * parts <= 61_440_000_000 * 8_000_000_000) by (nonlinear_arith)
                    requires
                        0 <= below <= 61_440_000_000,
                        0 <= parts <= 8_000_000_000,
                ;
            }
            let at: u128 = below as u128 * parts as u128;
            let off: u128 = if at >= rate {
                at - rate
            } else {
                rate - at
            };
            if off > 1000 * parts as u128 || 4 * (below as u128) < need {
                going = false;
            } else {
                chosen = below;
                parts = 2 * parts;
            }
        }
    }
    chosen
}

proof fn lemma_narrowed(rate: int, deviation: int, chosen: int, parts: int)
    requires
        0 <= rate,
        0 <= deviation,
        2 <= parts,
        chosen == rate || (rate_holds(chosen, deviation) && chosen <= rate),
    ensures
        ({
            let r = narrowed(rate, deviation, chosen, parts);
            &&& r == rate || rate_holds(r, deviation)
            &&& r <= rate
        }),
    decreases 8 * rate - 10 * (deviation + LUMA_HEADROOM_MILLI_HZ) * parts,
{
    let below = 1000 * nearest_rate(rate, parts);
    let need = 10 * (deviation + LUMA_HEADROOM_MILLI_HZ);
    if 4 * rate >= need * parts && gap(below * parts, rate) <= 1000 * parts && rate_holds(
        below,
        deviation,
    ) {
        assert(need * (2 * parts) == 2 * (need * parts) && need * parts > 0) by (nonlinear_arith)
            requires
                need > 0,
                parts > 0,
        ;
        assert(below <= rate) by (nonlinear_arith)
            requires
                below * parts <= rate + 1000 * parts,
                need * parts <= 4 * rate,
                need >= 20_000_000_000,
                parts >= 2,
                rate >= 0,
        ;
        lemma_narrowed(rate, deviation, below, 2 * parts);
    }
}

/// The rate of a locked channel never exceeds the scan rate, and any reduction still
/// holds the channel in its usable span.
pub proof fn law_locked_rate_holds_its_channel(scan_rate: int, deviation: int, demod: DemodKind)
    requires
        0 <= scan_rate,
        0 <= deviation,
    ensures
        locked_rate(scan_rate, deviation, demod) <= scan_rate,
        locked_rate(scan_rate, deviation, demod) == scan_rate || usable_span(
            locked_rate(scan_rate, deviation, demod),
        ) >= 2 * (deviation + LUMA_HEADROOM_MILLI_HZ),
{
    if deviation > 0 {
        lemma_narrowed(scan_rate, deviation, scan_rate, 2);
    }
}

proof fn lemma_exact_part(rate: int, parts: int, k: int)
    requires
        0 <= k < IQ_RATES,
        0 < parts,
        1000 * iq_rate(k) * parts == rate,
    ensures
        nearest_rate(rate, parts) == iq_rate(k),
{
    let far = rate_gaps(rate, parts);
    lemma_first_min(far);
    let m = first_min(far);
    assert(far[k] == 0);
    assert(far[m] <= far[k]);
    assert(1000 * iq_rate(m) * parts == 1000 * iq_rate(k) * parts);
    assert(iq_rate(m) == iq_rate(k)) by (nonlinear_arith)
        requires
            1000 * iq_rate(m) * parts == 1000 * iq_rate(k) * parts,
            parts > 0,
    ;
}

proof fn lemma_walk(i: int, deviation: int, k: int, parts: int)
    requires
        0 <= i < k <= IQ_RATES,
        0 < deviation,
        2 <= parts,
        k < IQ_RATES ==> iq_rate(k) * parts == iq_rate(i),
        k == IQ_RATES ==> 60_000 * parts == iq_rate(i),
    ensures
        ({
            let r = narrowed(1000 * iq_rate(i), deviation, 1000 * iq_rate(k - 1), parts);
            forall|j: int|
                k - 1 <= j < IQ_RATES && (j == k - 1 || rate_holds(1000 * #[trigger] iq_rate(j), deviation))
                    ==> r <= 1000 * iq_rate(j)
        }),
    decreases IQ_RATES - k,
{
    let rate = 1000 * iq_rate(i);
    let need = 10 * (deviation + LUMA_HEADROOM_MILLI_HZ);
    if k == IQ_RATES {
        assert(need * parts > 4 * rate) by (nonlinear_arith)
            requires
                rate == 1000 * (60_000 * parts),
                need >= 20_000_000_000,
                parts >= 2,
        ;
    } else {
        let here = 1000 * iq_rate(k);
        assert(here * parts == rate) by (nonlinear_arith)
            requires
                here == 1000 * iq_rate(k),
                iq_rate(k) * parts == iq_rate(i),
                rate == 1000 * iq_rate(i),
        ;
        lemma_exact_part(rate, parts, k);
        if rate_holds(here, deviation) {
            assert(need * parts <= 4 * rate) by (nonlinear_arith)
                requires
                    need <= 4 * here,
                    here * parts == rate,
                    parts > 0,
            ;
            if k + 1 < IQ_RATES {
                assert(iq_rate(k) == 2 * iq_rate(k + 1));
                assert(iq_rate(k + 1) * (2 * parts) == iq_rate(k) * parts) by (nonlinear_arith)
                    requires
                        iq_rate(k) == 2 * iq_rate(k + 1),
                ;
            } else {
                assert(60_000 * (2 * parts) == 120_000 * parts);
            }
            lemma_walk(i, deviation, k + 1, 2 * parts);
        } else {
            assert(need * parts > 4 * rate) by (nonlinear_arith)
                requires
                    need > 4 * here,
                    here * parts == rate,
                    parts > 0,
            ;
        }
    }
}

/// From a rate the hardware runs, a locked channel gets the lowest such rate that
/// holds it.
pub proof fn law_locked_rate_is_lowest(i: int, j: int, deviation: int, demod: DemodKind)
    requires
        0 <= i <= j < IQ_RATES,
        0 < deviation,
        demod !is Pll,
        rate_holds(1000 * iq_rate(j), deviation),
    ensures
        locked_rate(1000 * iq_rate(i), deviation, demod) <= 1000 * iq_rate(j),
{
    if i + 1 < IQ_RATES {
        assert(iq_rate(i) == 2 * iq_rate(i + 1));
    }
    lemma_walk(i, deviation, i + 1, 2);
}

/// What one sweep may spend per hop.
#[derive(Debug, Clone, Copy, PartialEq, Eq, Structural)]
pub struct SweepBudget {
    pub dwell_ms: u64,
    pub packets_per_hop: usize,
}

/// Packets per hop fed to the detector before the rest of the dwell is drained.
pub const DETECT_PACKETS_PER_HOP: usize = 2;

/// Packets per hop at a narrow capture rate, where a packet is worth more and costs
/// less.
pub const DETECT_PACKETS_NARROW: usize = 6;

/// Highest rate that counts as narrow, in millihertz.
pub const NARROW_CAPTURE_MAX_MILLI_HZ: u64 = 30_720_000_000;

/// Dwell of a quiet hop of the Aaronia sweep.
pub const AARONIA_SCAN_DWELL_MS: u64 = 25;

/// Dwell for a sensitive sweep: long enough to pay for its packets at the scan rate.
pub const AARONIA_SENSITIVE_DWELL_MS: u64 = 60;

/// One sweep in this many is a sensitive sweep. Nothing is predicted: most sweeps stay
/// fast, and a signal that needs integration is found within this many sweeps instead
/// of never.
pub const AARONIA_SENSITIVE_EVERY: u32 = 4;

/// Whether a capture rate is narrow.
pub open spec fn is_narrow(rate_milli_hz: int) -> bool {
    0 < rate_milli_hz <= NARROW_CAPTURE_MAX_MILLI_HZ
}

/// How many packets one hop feeds the detector.
pub fn detect_packets_per_hop(rate_milli_hz: u64) -> (n: usize)
    ensures
        n == (if is_narrow(rate_milli_hz as int) {
            DETECT_PACKETS_NARROW
        } else {
            DETECT_PACKETS_PER_HOP
        }),
{
    if rate_milli_hz > 0 && rate_milli_hz <= NARROW_CAPTURE_MAX_MILLI_HZ {
        DETECT_PACKETS_NARROW
    } else {
        DETECT_PACKETS_PER_HOP
    }
}

/// The budget of the `n`-th Aaronia sweep: a narrow capture reads the sensitive number
/// of packets in the fast dwell; a wide one is sensitive on the last sweep of every
/// cycle and fast on the others.
pub open spec fn aaronia_budget(n: int, rate_milli_hz: int) -> SweepBudget {
    if is_narrow(rate_milli_hz) {
        SweepBudget { dwell_ms: AARONIA_SCAN_DWELL_MS, packets_per_hop: DETECT_PACKETS_NARROW }
    } else if n % (AARONIA_SENSITIVE_EVERY as int) == AARONIA_SENSITIVE_EVERY - 1 {
        SweepBudget { dwell_ms: AARONIA_SENSITIVE_DWELL_MS, packets_per_hop: DETECT_PACKETS_NARROW }
    } else {
        SweepBudget { dwell_ms: AARONIA_SCAN_DWELL_MS, packets_per_hop: DETECT_PACKETS_PER_HOP }
    }
}

/// The budget of the `n`-th Aaronia sweep.
pub fn aaronia_sweep_budget(n: u32, rate_milli_hz: u64) -> (b: SweepBudget)
    ensures
        b == aaronia_budget(n as int, rate_milli_hz as int),
{
    if rate_milli_hz > 0 && rate_milli_hz <= NARROW_CAPTURE_MAX_MILLI_HZ {
        SweepBudget { dwell_ms: AARONIA_SCAN_DWELL_MS, packets_per_hop: DETECT_PACKETS_NARROW }
    } else if n % AARONIA_SENSITIVE_EVERY == AARONIA_SENSITIVE_EVERY - 1 {
        SweepBudget { dwell_ms: AARONIA_SENSITIVE_DWELL_MS, packets_per_hop: DETECT_PACKETS_NARROW }
    } else {
        SweepBudget { dwell_ms: AARONIA_SCAN_DWELL_MS, packets_per_hop: DETECT_PACKETS_PER_HOP }
    }
}

/// Of any run of sweeps as long as the cycle, exactly one spends the sensitive budget
/// on a wide capture.
pub proof fn law_sensitive_sweep_comes_round(n: int, rate_milli_hz: int)
    requires
        0 <= n,
        !is_narrow(rate_milli_hz),
    ensures
        exists|k: int|
            n <= k < n + AARONIA_SENSITIVE_EVERY && (#[trigger] aaronia_budget(
                k,
                rate_milli_hz,
            )).packets_per_hop == DETECT_PACKETS_NARROW && forall|j: int|
                n <= j < n + AARONIA_SENSITIVE_EVERY && j != k ==> (#[trigger] aaronia_budget(
                    j,
                    rate_milli_hz,
                )).packets_per_hop == DETECT_PACKETS_PER_HOP,
{
    let q = n / 4;
    let k = 4 * q + 3;
    vstd::arithmetic::div_mod::lemma_fundamental_div_mod_converse(k, 4, q, 3);
    assert(aaronia_budget(k, rate_milli_hz).packets_per_hop == DETECT_PACKETS_NARROW);
    assert forall|j: int| n <= j < n + AARONIA_SENSITIVE_EVERY && j != k implies (
    #[trigger] aaronia_budget(j, rate_milli_hz)).packets_per_hop == DETECT_PACKETS_PER_HOP by {
        if j < k {
            vstd::arithmetic::div_mod::lemma_fundamental_div_mod_converse(j, 4, q, j - 4 * q);
        } else {
            vstd::arithmetic::div_mod::lemma_fundamental_div_mod_converse(
                j,
                4,
                q + 1,
                j - 4 * (q + 1),
            );
        }
    }
}

/// The cadence makes no sweep of a narrow capture differ from another.
pub proof fn law_narrow_capture_ignores_the_cadence(n: int, m: int, rate_milli_hz: int)
    requires
        is_narrow(rate_milli_hz),
    ensures
        aaronia_budget(n, rate_milli_hz) == aaronia_budget(m, rate_milli_hz),
        aaronia_budget(n, rate_milli_hz).dwell_ms == AARONIA_SCAN_DWELL_MS,
        aaronia_budget(n, rate_milli_hz).packets_per_hop == DETECT_PACKETS_NARROW,
{
}

/// The rate a USB 2.0 receiver runs at: what was asked for, held to its ceiling; and
/// whether the request went beyond it.
pub fn capped_rate(requested: Option<u64>, ceiling: u64) -> (r: (u64, bool))
    ensures
        r.0 == (match requested {
            Some(rate) => if rate < ceiling {
                rate
            } else {
                ceiling
            },
            None => ceiling,
        }),
        r.1 == (requested matches Some(rate) && rate > ceiling),
{
    match requested {
        Some(rate) => if rate < ceiling {
            (rate, false)
        } else {
            (ceiling, rate > ceiling)
        },
        None => (ceiling, false),
    }
}

/// Packets between two lock checks: half a second's worth, and at least one.
pub open spec fn packets_per_check(rate_hz: int, packet_len: int) -> int {
    let len = if packet_len < 1 {
        1
    } else {
        packet_len
    };
    let n = round_div(rate_hz, 2 * len);
    if n < 1 {
        1
    } else {
        n
    }
}

/// Packets between two lock checks. The cadence is wall time, not packets, so loss is
/// noticed equally fast at every rate.
pub fn check_every(rate_hz: u32, packet_len: usize) -> (n: u64)
    requires
        packet_len <= 0x1000_0000_0000_0000,
    ensures
        n == packets_per_check(rate_hz as int, packet_len as int),
        1 <= n,
{
    let len: u64 = if packet_len < 1 {
        1
    } else {
        packet_len as u64
    };
    let n: u64 = (2 * rate_hz as u64 + 2 * len) / (2 * (2 * len));
    assert(n == round_div(rate_hz as int, 2 * len));
    if n < 1 {
        1
    } else {
        n
    }
}

} // verus!
