use vstd::prelude::*;
use crate::beat_origin::BeatOrigin;
use crate::interpolation::{approx_eq, generate_interpolation_data, get_start_times, only_first_starts_match, start_times, total, BAR, EPSILON};

verus! {

/// Consecutive entries of `s` lie at least `EPSILON` apart.
pub open spec fn spaced(s: Seq<u64>) -> bool {
    forall|k: int, l: int| 0 <= k < l < s.len() ==> s[k] + EPSILON <= s[l]
}

/// Drops every start time that counts as equal to the last one kept.
#[verifier::rlimit(40)]
pub fn dedup_close(starts: &Vec<u64>) -> (r: Vec<u64>)
    requires
        forall|k: int, l: int| 0 <= k <= l < starts.len() ==> starts[k] <= starts[l],
        forall|k: int| 0 <= k < starts.len() ==> #[trigger] starts[k] <= BAR,
    ensures
        starts.len() > 0 ==> r.len() > 0 && r[0] == starts[0],
        spaced(r@),
        forall|k: int| 0 <= k < r.len() ==> starts@.contains(#[trigger] r[k]),
        r.len() <= starts.len(),
        forall|k: int| 0 <= k < r.len() ==> #[trigger] r[k] <= BAR,
        forall|k: int| 0 <= k < starts.len() ==> covered(r@, #[trigger] starts[k]),
{
    let mut out: Vec<u64> = Vec::new();
    let mut i: usize = 0;
    while i < starts.len()
        invariant
            i <= starts.len(),
            forall|k: int, l: int| 0 <= k <= l < starts.len() ==> starts[k] <= starts[l],
            forall|k: int| 0 <= k < starts.len() ==> #[trigger] starts[k] <= BAR,
            i > 0 ==> out.len() > 0 && out[0] == starts[0],
            i == 0 ==> out.len() == 0,
            out.len() <= i,
            spaced(out@),
            forall|k: int| 0 <= k < out.len() ==> starts@.subrange(0, i as int).contains(#[trigger] out[k]),
            forall|k: int| 0 <= k < out.len() ==> #[trigger] out[k] <= BAR,
            i > 0 ==> out[out.len() - 1] <= starts[i - 1],
            forall|k: int| 0 <= k < i ==> covered(out@, #[trigger] starts[k]),
        decreases starts.len() - i,
    {
        let s = starts[i];
        let ghost before = out@;
        proof {
            assert(starts@.subrange(0, i + 1) =~= starts@.subrange(0, i as int).push(s));
            assert forall|k: int| 0 <= k < out.len() implies starts@.subrange(0, i + 1).contains(#[trigger] out[k]) by {
                vstd::seq_lib::lemma_seq_contains_after_push(starts@.subrange(0, i as int), s, out[k]);
            }
        }
        if out.len() == 0 || s >= out[out.len() - 1] + EPSILON {
            proof {
                if out.len() > 0 {
                    let last = out[out.len() - 1];
                    assert(starts@.subrange(0, i as int).contains(last));
                }
            }
            out.push(s);
            proof {
                vstd::seq_lib::lemma_seq_contains_after_push(starts@.subrange(0, i as int), s, s);
                assert forall|k: int, l: int| 0 <= k < l < out.len() implies out[k] + EPSILON <= out[l] by {
                    if l == out.len() - 1 && k < l {
                        assert(before[k] + EPSILON <= before[before.len() - 1] || k == before.len() - 1);
                    }
                }
                assert forall|k: int| 0 <= k < i + 1 implies covered(out@, #[trigger] starts[k]) by {
                    if k < i {
                        let p = choose|p: int| 0 <= p < before.len() && approx_eq(before[p], starts[k]);
                        assert(out@[p] == before[p]);
                    } else {
                        assert(approx_eq(out@[out.len() - 1], starts[k]));
                    }
                }
            }
        } else {
            proof {
                assert(starts[i - 1] <= s);
                assert(approx_eq(out@[out.len() - 1], s));
                assert(covered(out@, starts[i as int]));
            }
        }
        i += 1;
    }
    proof {
        assert(starts@.subrange(0, starts.len() as int) =~= starts@);
    }
    out
}

/// Some time of `times` counts as equal to `x`.
pub open spec fn covered(times: Seq<u64>, x: u64) -> bool {
    exists|p: int| 0 <= p < times.len() && approx_eq(times[p], x)
}

/// The stratum the merged timeline gives time `t` tagged `o`: that of its
/// start (`sa`, `sb` hold one stratum per start), the higher of the two for
/// `Both`.
pub open spec fn stratum_ok(t: u64, o: BeatOrigin, s: usize, da: Seq<u64>, db: Seq<u64>, sa: Seq<usize>, sb: Seq<usize>) -> bool {
    match o {
        BeatOrigin::MetreA => exists|i: int| 0 <= i < da.len() && da[i] == t && s == sa[i],
        BeatOrigin::MetreB => exists|k: int| 0 <= k < db.len() && db[k] == t && s == sb[k],
        BeatOrigin::Both => exists|i: int, k: int| 0 <= i < da.len() && 0 <= k < db.len() && da[i] == t
            && approx_eq(t, db[k]) && s == (if sa[i] >= sb[k] { sa[i] } else { sb[k] }),
    }
}

/// `s` is the stratum of a beat whose start is `t` (among the starts `st`;
/// the end of the bar takes the stratum of the next bar's first beat).
pub open spec fn beat_stratum(t: u64, st: Seq<u64>, g: Seq<usize>, s: usize) -> bool {
    exists|m: int| 0 <= m < st.len() && st[m] == t && s == g[m % g.len() as int]
}

/// What the merged timeline says of the stratum of time `t` tagged `o`.
pub open spec fn merged_stratum_ok(t: u64, o: BeatOrigin, s: usize, sta: Seq<u64>, ga: Seq<usize>, stb: Seq<u64>, gb: Seq<usize>) -> bool {
    match o {
        BeatOrigin::MetreA => beat_stratum(t, sta, ga, s),
        BeatOrigin::MetreB => beat_stratum(t, stb, gb, s),
        BeatOrigin::Both => exists|y: u64, s1: usize, s2: usize| approx_eq(t, y) && beat_stratum(t, sta, ga, s1)
            && beat_stratum(y, stb, gb, s2) && s == (if s1 >= s2 { s1 } else { s2 }),
    }
}

/// The stratum of each kept start: that of the first beat starting there.
pub fn beat_strata(kept: &Vec<u64>, starts: &Vec<u64>, gnsm: &Vec<usize>) -> (r: Vec<usize>)
    requires
        gnsm.len() > 0,
        forall|k: int| 0 <= k < kept.len() ==> starts@.contains(#[trigger] kept[k]),
    ensures
        r.len() == kept.len(),
        forall|k: int| 0 <= k < kept.len() ==> beat_stratum(#[trigger] kept[k], starts@, gnsm@, r[k]),
{
    let mut out: Vec<usize> = Vec::with_capacity(kept.len());
    let mut k: usize = 0;
    while k < kept.len()
        invariant
            k <= kept.len(),
            out.len() == k,
            gnsm.len() > 0,
            forall|q: int| 0 <= q < kept.len() ==> starts@.contains(#[trigger] kept[q]),
            forall|q: int| 0 <= q < k ==> beat_stratum(#[trigger] kept[q], starts@, gnsm@, out[q]),
        decreases kept.len() - k,
    {
        let t = kept[k];
        proof {
            assert(starts@.contains(kept[k as int]));
        }
        let mut m: usize = 0;
        while m < starts.len() && starts[m] != t
            invariant
                m <= starts.len(),
                starts@.contains(t),
                forall|m2: int| 0 <= m2 < m ==> starts@[m2] != t,
            decreases starts.len() - m,
        {
            m += 1;
        }
        if m >= starts.len() {
            proof {
                let w = choose|w: int| 0 <= w < starts@.len() && starts@[w] == t;
                assert(starts@[w] != t);
            }
        }
        out.push(gnsm[m % gnsm.len()]);
        proof {
            assert(beat_stratum(kept[k as int], starts@, gnsm@, out[k as int]));
        }
        k += 1;
    }
    out
}

/// Some time of `times` lies within twice `EPSILON` of `x`.
pub open spec fn near(times: Seq<u64>, x: u64) -> bool {
    exists|p: int| 0 <= p < times.len() && times[p] < x + 2 * EPSILON && x < times[p] + 2 * EPSILON
}

/// What the merged timeline says of one of its start times.
pub open spec fn origin_ok(t: u64, o: BeatOrigin, da: Seq<u64>, db: Seq<u64>) -> bool {
    match o {
        BeatOrigin::MetreA => da.contains(t),
        BeatOrigin::MetreB => db.contains(t),
        BeatOrigin::Both => da.contains(t) && exists|y: u64| db.contains(y) && approx_eq(t, y),
    }
}

/// Merges two spaced, ascending lists of start times; times that count as
/// equal become one, tagged `Both`. Each time also takes the stratum of its
/// beat (the higher of the two for `Both`).
#[verifier::rlimit(40)]
pub fn merge_start_times(da: &Vec<u64>, db: &Vec<u64>, strata_a: &Vec<usize>, strata_b: &Vec<usize>)
    -> (r: (Vec<u64>, Vec<BeatOrigin>, Vec<usize>))
    requires
        spaced(da@),
        spaced(db@),
        forall|k: int| 0 <= k < da.len() ==> #[trigger] da[k] <= BAR,
        forall|k: int| 0 <= k < db.len() ==> #[trigger] db[k] <= BAR,
        strata_a.len() == da.len(),
        strata_b.len() == db.len(),
    ensures
        r.0.len() == r.1.len(),
        r.0.len() == r.2.len(),
        r.0.len() <= da.len() + db.len(),
        da.len() > 0 ==> r.0.len() > 0,
        da.len() > 0 && db.len() > 0 && da[0] == db[0] ==> r.0[0] == da[0],
        forall|k: int, l: int| 0 <= k < l < r.0.len() ==> r.0[k] < r.0[l],
        forall|k: int| 0 <= k < r.0.len() ==> origin_ok(#[trigger] r.0[k], r.1[k], da@, db@),
        forall|k: int| 0 <= k < r.0.len() ==> stratum_ok(#[trigger] r.0[k], r.1[k], r.2[k], da@, db@, strata_a@, strata_b@),
        forall|q: int| 0 <= q < da.len() ==> r.0@.contains(#[trigger] da[q]),
        forall|q: int| 0 <= q < db.len() ==> covered(r.0@, #[trigger] db[q]),
{
    let mut times: Vec<u64> = Vec::new();
    let mut origins: Vec<BeatOrigin> = Vec::new();
    let mut strata: Vec<usize> = Vec::new();
    let mut i: usize = 0;
    let mut k: usize = 0;
    while i < da.len() || k < db.len()
        invariant
            i <= da.len(),
            k <= db.len(),
            spaced(da@),
            spaced(db@),
            forall|q: int| 0 <= q < da.len() ==> #[trigger] da[q] <= BAR,
            forall|q: int| 0 <= q < db.len() ==> #[trigger] db[q] <= BAR,
            strata_a.len() == da.len(),
            strata_b.len() == db.len(),
            times.len() == origins.len(),
            times.len() == strata.len(),
            times.len() <= i + k,
            times.len() > 0 || (i == 0 && k == 0),
            times.len() > 0 && da.len() > 0 && db.len() > 0 && da[0] == db[0] ==> times[0] == da[0],
            i == 0 && k == 0 ==> times.len() == 0,
            forall|p: int, q: int| 0 <= p < q < times.len() ==> times[p] < times[q],
            times.len() > 0 && i < da.len() ==> times[times.len() - 1] < da[i as int],
            times.len() > 0 && k < db.len() ==> times[times.len() - 1] < db[k as int],
            forall|q: int| 0 <= q < times.len() ==> origin_ok(#[trigger] times[q], origins[q], da@, db@),
            forall|q: int| 0 <= q < times.len() ==> stratum_ok(#[trigger] times[q], origins[q], strata[q], da@, db@, strata_a@, strata_b@),
            forall|q: int| 0 <= q < i ==> times@.contains(#[trigger] da[q]),
            forall|q: int| 0 <= q < k ==> covered(times@, #[trigger] db[q]),
        decreases da.len() + db.len() - i - k,
    {
        let ghost before = times@;
        let ghost before_o = origins@;
        let ghost before_s = strata@;
        let ghost k_before = k as int;
        let ghost i0 = i as int;
        let ghost k0 = k as int;
        if i < da.len() && k < db.len() {
            let a = da[i];
            let b = db[k];
            let close = if a >= b { a - b < EPSILON } else { b - a < EPSILON };
            if close {
                times.push(a);
                origins.push(BeatOrigin::Both);
                let ga = strata_a[i];
                let gb = strata_b[k];
                strata.push(if ga >= gb { ga } else { gb });
                proof {
                    assert(stratum_ok(a, BeatOrigin::Both, strata@[strata.len() - 1], da@, db@, strata_a@, strata_b@)) by {
                        assert(da@[i0] == a && db@[k0] == b);
                    }
                    assert(da@.contains(a)) by { assert(da@[i as int] == a); }
                    assert(db@.contains(b)) by { assert(db@[k as int] == b); }
                    if i + 1 < da.len() {
                        assert(da[i as int] + EPSILON <= da[i + 1]);
                    }
                    if k + 1 < db.len() {
                        assert(db[k as int] + EPSILON <= db[k + 1]);
                    }
                }
                i += 1;
                k += 1;
            } else if a < b {
                times.push(a);
                origins.push(BeatOrigin::MetreA);
                strata.push(strata_a[i]);
                proof {
                    assert(stratum_ok(a, BeatOrigin::MetreA, strata@[strata.len() - 1], da@, db@, strata_a@, strata_b@)) by {
                        assert(da@[i0] == a);
                    }
                    assert(da@.contains(a)) by { assert(da@[i as int] == a); }
                    if i + 1 < da.len() {
                        assert(da[i as int] + EPSILON <= da[i + 1]);
                    }
                }
                i += 1;
            } else {
                times.push(b);
                origins.push(BeatOrigin::MetreB);
                strata.push(strata_b[k]);
                proof {
                    assert(stratum_ok(b, BeatOrigin::MetreB, strata@[strata.len() - 1], da@, db@, strata_a@, strata_b@)) by {
                        assert(db@[k0] == b);
                    }
                    assert(db@.contains(b)) by { assert(db@[k as int] == b); }
                    if k + 1 < db.len() {
                        assert(db[k as int] + EPSILON <= db[k + 1]);
                    }
                }
                k += 1;
            }
        } else if i < da.len() {
            let a = da[i];
            times.push(a);
            origins.push(BeatOrigin::MetreA);
            strata.push(strata_a[i]);
            proof {
                assert(stratum_ok(a, BeatOrigin::MetreA, strata@[strata.len() - 1], da@, db@, strata_a@, strata_b@)) by {
                    assert(da@[i0] == a);
                }
                assert(da@.contains(a)) by { assert(da@[i as int] == a); }
                if i + 1 < da.len() {
                    assert(da[i as int] + EPSILON <= da[i + 1]);
                }
            }
            i += 1;
        } else {
            let b = db[k];
            times.push(b);
            origins.push(BeatOrigin::MetreB);
            strata.push(strata_b[k]);
            proof {
                assert(stratum_ok(b, BeatOrigin::MetreB, strata@[strata.len() - 1], da@, db@, strata_a@, strata_b@)) by {
                    assert(db@[k0] == b);
                }
                assert(db@.contains(b)) by { assert(db@[k as int] == b); }
                if k + 1 < db.len() {
                    assert(db[k as int] + EPSILON <= db[k + 1]);
                }
            }
            k += 1;
        }
        proof {
            assert forall|q: int| 0 <= q < times.len() implies origin_ok(#[trigger] times[q], origins[q], da@, db@) by {
                if q < before.len() {
                    assert(times[q] == before[q]);
                    assert(origins[q] == before_o[q]);
                }
            }
            assert forall|q: int| 0 <= q < times.len() implies stratum_ok(#[trigger] times[q], origins[q], strata[q], da@, db@, strata_a@, strata_b@) by {
                if q < before.len() {
                    assert(times[q] == before[q]);
                    assert(origins[q] == before_o[q]);
                    assert(strata[q] == before_s[q]);
                }
            }
            let added = times@[times.len() - 1];
            assert(times@ =~= before.push(added));
            assert forall|q: int| 0 <= q < i implies times@.contains(#[trigger] da[q]) by {
                vstd::seq_lib::lemma_seq_contains_after_push(before, added, da[q]);
            }
            assert forall|q: int| 0 <= q < k implies covered(times@, #[trigger] db[q]) by {
                if q < k_before {
                    let w = choose|w: int| 0 <= w < before.len() && approx_eq(before[w], db[q]);
                    assert(times@[w] == before[w]);
                } else {
                    assert(approx_eq(times@[times.len() - 1], db[q]));
                }
            }
        }
    }
    (times, origins, strata)
}

/// The lengths between consecutive start times.
pub fn get_durations(starts: &Vec<u64>) -> (r: Vec<u64>)
    requires
        forall|k: int, l: int| 0 <= k < l < starts.len() ==> starts[k] < starts[l],
    ensures
        r.len() == if starts.len() > 0 { starts.len() - 1 } else { 0 },
        forall|k: int| 0 <= k < r.len() ==> #[trigger] r[k] == starts[k + 1] - starts[k],
{
    let mut out: Vec<u64> = Vec::new();
    if starts.len() == 0 {
        return out;
    }
    let mut k: usize = 1;
    while k < starts.len()
        invariant
            1 <= k <= starts.len(),
            out.len() == k - 1,
            forall|p: int, l: int| 0 <= p < l < starts.len() ==> starts[p] < starts[l],
            forall|q: int| 0 <= q < out.len() ==> #[trigger] out[q] == starts[q + 1] - starts[q],
        decreases starts.len() - k,
    {
        out.push(starts[k] - starts[k - 1]);
        k += 1;
    }
    out
}

/// `dry` crossfaded into `wet` by `mix` millionths.
pub open spec fn dry_wet(dry: u64, wet: u64, mix: u64) -> int {
    (dry * (BAR - mix) + wet * mix) / (BAR as int)
}

/// The crossfaded durations of the slots, leaving out those of length zero.
pub open spec fn interpolated(pairs: Seq<(u64, u64)>, mix: u64) -> Seq<u64>
    decreases pairs.len(),
{
    if pairs.len() == 0 {
        Seq::empty()
    } else {
        let front = interpolated(pairs.drop_last(), mix);
        let x = dry_wet(pairs.last().0, pairs.last().1, mix);
        if x > 0 { front.push(x as u64) } else { front }
    }
}

/// The start of each beat of durations `d`, followed by the end of the bar.
pub open spec fn starts_with_end(d: Seq<u64>) -> Seq<u64> {
    start_times(d).push(BAR)
}

/// How to crossfade between two metric structures (all times in millionths
/// of a bar): the slot-by-slot duration pairs, and the merged timeline of the
/// two structures' start times with where each came from.
#[derive(Debug, Default)]
pub struct InterpolationData {
    pub duration_pairs: Vec<(u64, u64)>,
    pub interleaved_durations: Vec<u64>,
    pub interleaved_gnsm: Vec<usize>,
    pub unique_start_times: Vec<u64>,
    pub unique_start_time_origins: Vec<BeatOrigin>,
}

/// A tag that holds of two lists still holds of lists that contain them.
proof fn lemma_origin_widen(t: u64, o: BeatOrigin, da: Seq<u64>, db: Seq<u64>, fa: Seq<u64>, fb: Seq<u64>)
    requires
        origin_ok(t, o, da, db),
        forall|k: int| 0 <= k < da.len() ==> fa.contains(#[trigger] da[k]),
        forall|k: int| 0 <= k < db.len() ==> fb.contains(#[trigger] db[k]),
    ensures
        origin_ok(t, o, fa, fb),
{
    match o {
        BeatOrigin::MetreA => {
            let w = choose|w: int| 0 <= w < da.len() && da[w] == t;
        },
        BeatOrigin::MetreB => {
            let w = choose|w: int| 0 <= w < db.len() && db[w] == t;
        },
        BeatOrigin::Both => {
            let w = choose|w: int| 0 <= w < da.len() && da[w] == t;
            let y = choose|y: u64| db.contains(y) && approx_eq(t, y);
            let v = choose|v: int| 0 <= v < db.len() && db[v] == y;
            assert(fb.contains(db[v]));
        },
    }
}

impl InterpolationData {
    /// No pairs, and an empty timeline.
    pub fn new() -> (r: Self)
        ensures
            r.duration_pairs.len() == 0,
            r.unique_start_times.len() == 0,
    {
        InterpolationData {
            duration_pairs: Vec::new(),
            interleaved_durations: Vec::new(),
            interleaved_gnsm: Vec::new(),
            unique_start_times: Vec::new(),
            unique_start_time_origins: Vec::new(),
        }
    }

    /// Every duration of a pair is at most a bar.
    pub open spec fn wf(&self) -> bool {
        forall|k: int| 0 <= k < self.duration_pairs.len() ==>
            (#[trigger] self.duration_pairs[k]).0 <= BAR && self.duration_pairs[k].1 <= BAR
    }

    /// Aligns two structures given by their durations (millionths of a bar,
    /// each summing to at most a bar) and strata.
    #[verifier::rlimit(40)]
    pub fn new_from_durs_and_gnsm(durations_a: &Vec<u64>, durations_b: &Vec<u64>, gnsm_a: &Vec<usize>, gnsm_b: &Vec<usize>) -> (r: Self)
        requires
            durations_a.len() == gnsm_a.len(),
            durations_b.len() == gnsm_b.len(),
            gnsm_a.len() > 0,
            gnsm_b.len() > 0,
            total(durations_a@) <= BAR,
            total(durations_b@) <= BAR,
        ensures
            r.wf(),
            r.duration_pairs.len() == if durations_a.len() >= durations_b.len() { durations_a.len() } else { durations_b.len() },
            durations_a.len() == durations_b.len() ==> forall|k: int| 0 <= k < r.duration_pairs.len()
                ==> #[trigger] r.duration_pairs[k] == (durations_a[k], durations_b[k]),
            (durations_a.len() + 1 == durations_b.len() || durations_b.len() + 1 == durations_a.len())
                && only_first_starts_match(start_times(durations_a@), 0, durations_a.len() as int,
                    start_times(durations_b@), 0, durations_b.len() as int)
                ==> forall|k: int| 0 <= k < r.duration_pairs.len() ==> #[trigger] r.duration_pairs[k] == (
                    if k < durations_a.len() { durations_a[k] } else { 0u64 },
                    if k < durations_b.len() { durations_b[k] } else { 0u64 }),
            r.unique_start_times.len() == r.unique_start_time_origins.len(),
            r.unique_start_times.len() == r.interleaved_gnsm.len(),
            r.unique_start_times.len() > 0,
            forall|k: int, l: int| 0 <= k < l < r.unique_start_times.len() ==> r.unique_start_times[k] < r.unique_start_times[l],
            forall|k: int| 0 <= k < r.unique_start_times.len() ==> origin_ok(#[trigger] r.unique_start_times[k],
                r.unique_start_time_origins[k], starts_with_end(durations_a@), starts_with_end(durations_b@)),
            r.unique_start_times[0] == 0,
            forall|k: int| 0 <= k < r.unique_start_times.len() ==> merged_stratum_ok(#[trigger] r.unique_start_times[k],
                r.unique_start_time_origins[k], r.interleaved_gnsm[k], starts_with_end(durations_a@), gnsm_a@,
                starts_with_end(durations_b@), gnsm_b@),
            forall|k: int| 0 <= k < starts_with_end(durations_a@).len()
                ==> covered(r.unique_start_times@, #[trigger] starts_with_end(durations_a@)[k]),
            forall|k: int| 0 <= k < starts_with_end(durations_b@).len()
                ==> near(r.unique_start_times@, #[trigger] starts_with_end(durations_b@)[k]),
            r.interleaved_durations.len() == r.unique_start_times.len() - 1,
            forall|k: int| 0 <= k < r.interleaved_durations.len() ==> #[trigger] r.interleaved_durations[k]
                == r.unique_start_times[k + 1] - r.unique_start_times[k],
    {
        let pairs = generate_interpolation_data(durations_a, durations_b, gnsm_a, gnsm_b);
        let mut starts_a = get_start_times(durations_a);
        let mut starts_b = get_start_times(durations_b);
        let ghost sa = starts_a@;
        let ghost sb = starts_b@;
        starts_a.push(BAR);
        starts_b.push(BAR);
        proof {
            assert(starts_a@ =~= starts_with_end(durations_a@));
            assert(starts_b@ =~= starts_with_end(durations_b@));
        }
        let da = dedup_close(&starts_a);
        let db = dedup_close(&starts_b);
        let sa = beat_strata(&da, &starts_a, gnsm_a);
        let sb = beat_strata(&db, &starts_b, gnsm_b);
        let (times, origins, strata) = merge_start_times(&da, &db, &sa, &sb);
        proof {
            assert forall|k: int| 0 <= k < times.len() implies merged_stratum_ok(#[trigger] times[k], origins[k], strata[k],
                starts_a@, gnsm_a@, starts_b@, gnsm_b@) by {
                assert(stratum_ok(times[k], origins[k], strata[k], da@, db@, sa@, sb@));
                match origins[k] {
                    BeatOrigin::MetreA => {
                        let i = choose|i: int| 0 <= i < da@.len() && da@[i] == times[k] && strata[k] == sa@[i];
                        assert(beat_stratum(da[i], starts_a@, gnsm_a@, sa[i]));
                    },
                    BeatOrigin::MetreB => {
                        let i = choose|i: int| 0 <= i < db@.len() && db@[i] == times[k] && strata[k] == sb@[i];
                        assert(beat_stratum(db[i], starts_b@, gnsm_b@, sb[i]));
                    },
                    BeatOrigin::Both => {
                        let (i, j) = choose|i: int, j: int| 0 <= i < da@.len() && 0 <= j < db@.len() && da@[i] == times[k]
                            && approx_eq(times[k], db@[j]) && strata[k] == (if sa@[i] >= sb@[j] { sa@[i] } else { sb@[j] });
                        assert(beat_stratum(da[i], starts_a@, gnsm_a@, sa[i]));
                        assert(beat_stratum(db[j], starts_b@, gnsm_b@, sb[j]));
                    },
                }
            }
        }
        proof {
            assert forall|k: int| 0 <= k < times.len() implies origin_ok(#[trigger] times[k], origins[k], starts_a@, starts_b@) by {
                assert(origin_ok(times[k], origins[k], da@, db@));
                lemma_origin_widen(times[k], origins[k], da@, db@, starts_a@, starts_b@);
            }
        }
        proof {
            assert(starts_a@[0] == 0) by {
                assert(durations_a@.subrange(0, 0) =~= Seq::<u64>::empty());
            }
            assert(starts_b@[0] == 0) by {
                assert(durations_b@.subrange(0, 0) =~= Seq::<u64>::empty());
            }
            assert forall|k: int| 0 <= k < starts_a@.len() implies covered(times@, #[trigger] starts_a@[k]) by {
                assert(covered(da@, starts_a[k]));
                let p = choose|p: int| 0 <= p < da@.len() && approx_eq(da@[p], starts_a[k]);
                assert(times@.contains(da[p]));
                let q = choose|q: int| 0 <= q < times@.len() && times@[q] == da@[p];
            }
            assert forall|k: int| 0 <= k < starts_b@.len() implies near(times@, #[trigger] starts_b@[k]) by {
                assert(covered(db@, starts_b[k]));
                let p = choose|p: int| 0 <= p < db@.len() && approx_eq(db@[p], starts_b[k]);
                assert(covered(times@, db[p]));
                let q = choose|q: int| 0 <= q < times@.len() && approx_eq(times@[q], db@[p]);
            }
        }
        let durations = get_durations(&times);
        InterpolationData {
            duration_pairs: pairs,
            interleaved_durations: durations,
            interleaved_gnsm: strata,
            unique_start_times: times,
            unique_start_time_origins: origins,
        }
    }

    /// The slot durations crossfaded by `mix` millionths (0: A, a bar: B),
    /// leaving out slots of length zero.
    pub fn get_interpolated_durations(&self, mix: u64) -> (r: Vec<u64>)
        requires
            self.wf(),
            mix <= BAR,
        ensures
            r@ == interpolated(self.duration_pairs@, mix),
    {
        let mut out: Vec<u64> = Vec::new();
        let mut k: usize = 0;
        while k < self.duration_pairs.len()
            invariant
                k <= self.duration_pairs.len(),
                self.wf(),
                mix <= BAR,
                out@ == interpolated(self.duration_pairs@.subrange(0, k as int), mix),
            decreases self.duration_pairs.len() - k,
        {
            let (dry, wet) = self.duration_pairs[k];
            proof {
                assert(self.duration_pairs@.subrange(0, k + 1).drop_last() =~= self.duration_pairs@.subrange(0, k as int));
                assert(dry * (BAR - mix) <= BAR * BAR) by (nonlinear_arith)
                    requires dry <= BAR, mix <= BAR;
                assert(wet * mix <= BAR * BAR) by (nonlinear_arith)
                    requires wet <= BAR, mix <= BAR;
            }
            let x = (dry * (BAR - mix) + wet * mix) / BAR;
            if x > 0 {
                out.push(x);
            }
            k += 1;
        }
        proof {
            assert(self.duration_pairs@.subrange(0, self.duration_pairs.len() as int) =~= self.duration_pairs@);
        }
        out
    }

    pub fn interleaved_durations(&self) -> (r: &Vec<u64>)
        ensures
            r == &self.interleaved_durations,
    {
        &self.interleaved_durations
    }

    pub fn unique_start_times(&self) -> (r: &Vec<u64>)
        ensures
            r == &self.unique_start_times,
    {
        &self.unique_start_times
    }

    pub fn unique_start_time_origins(&self) -> (r: &Vec<BeatOrigin>)
        ensures
            r == &self.unique_start_time_origins,
    {
        &self.unique_start_time_origins
    }
}

} // verus!
