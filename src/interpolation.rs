use vstd::prelude::*;
use crate::index_pairs::{a_ascending, a_unique, is_free, padding, pair_key, sorted_by_key, IndexPairs, Pair};
use crate::beat_origin::BeatOrigin;

verus! {

/// One millionth of a bar is the unit of all start times.
pub const BAR: u64 = 1_000_000;

/// Start times closer than this (a thousandth of a bar) count as equal.
pub const EPSILON: u64 = 1000;

/// Two start times count as equal.
pub open spec fn approx_eq(x: u64, y: u64) -> bool {
    x < y + EPSILON && y < x + EPSILON
}

/// Start times (in millionths of a bar) and strata of the beats of one
/// metric structure.
#[derive(Debug)]
pub struct MetreTimes {
    pub starts: Vec<u64>,
    pub gnsm: Vec<usize>,
}

impl MetreTimes {
    pub open spec fn wf(&self) -> bool {
        self.starts.len() == self.gnsm.len()
    }

    /// Beats `offset..offset + len` exist.
    pub open spec fn holds(&self, offset: usize, len: usize) -> bool {
        self.wf() && offset + len <= self.starts.len()
    }
}

/// Every index of `p` lies in its section.
pub open spec fn in_sections(p: Pair, off_a: usize, len_a: usize, off_b: usize, len_b: usize) -> bool {
    &&& (p.0 matches Some(x) ==> off_a <= x < off_a + len_a)
    &&& (p.1 matches Some(y) ==> off_b <= y < off_b + len_b)
}

/// The sections' first beats start together, and no other beat of A's
/// section starts together with any beat of B's.
pub open spec fn only_first_starts_match(sa: Seq<u64>, off_a: int, len_a: int, sb: Seq<u64>, off_b: int, len_b: int) -> bool {
    &&& len_a > 0 && len_b > 0
    &&& approx_eq(sa[off_a], sb[off_b])
    &&& forall|i: int, j: int| off_a < i < off_a + len_a && off_b <= j < off_b + len_b ==> !approx_eq(#[trigger] sa[i], #[trigger] sb[j])
}

/// All strata of the section equal its first: no hierarchy is left in it.
pub open spec fn flat(g: Seq<usize>, off: int, len: int) -> bool {
    forall|k: int| off <= k < off + len ==> #[trigger] g[k] == g[off]
}

pub open spec fn distance(x: u64, y: u64) -> int {
    if x >= y { x - y } else { y - x }
}

/// Whether the strata of beats `off..off + len` are all equal.
pub fn no_strata_left(g: &Vec<usize>, off: usize, len: usize) -> (r: bool)
    requires
        off + len <= g.len(),
    ensures
        r == flat(g@, off as int, len as int),
{
    if len == 0 {
        return true;
    }
    let first = g[off];
    let mut k: usize = off;
    while k < off + len
        invariant
            off <= k <= off + len,
            off + len <= g.len(),
            first == g[off as int],
            forall|q: int| off <= q < k ==> #[trigger] g[q] == first,
        decreases off + len - k,
    {
        if g[k] != first {
            return false;
        }
        k += 1;
    }
    true
}

/// The last beat of the section with the highest stratum.
pub fn highest_stratum_index(g: &Vec<usize>, off: usize, len: usize) -> (r: usize)
    requires
        len > 0,
        off + len <= g.len(),
    ensures
        off <= r < off + len,
        forall|k: int| off <= k < off + len ==> #[trigger] g[k] <= g[r as int],
        forall|k: int| r < k < off + len ==> #[trigger] g[k] < g[r as int],
{
    let mut best: usize = off;
    let mut k: usize = off + 1;
    while k < off + len
        invariant
            off <= best < k <= off + len,
            off + len <= g.len(),
            forall|q: int| off <= q < k ==> #[trigger] g[q] <= g[best as int],
            forall|q: int| best < q < k ==> #[trigger] g[q] < g[best as int],
        decreases off + len - k,
    {
        if g[k] >= g[best] {
            best = k;
        }
        k += 1;
    }
    best
}

/// The first beat of the section whose start is closest to `target`.
pub fn closest_start(starts: &Vec<u64>, off: usize, len: usize, target: u64) -> (r: usize)
    requires
        len > 0,
        off + len <= starts.len(),
    ensures
        off <= r < off + len,
        forall|k: int| off <= k < off + len ==> distance(starts[r as int], target) <= distance(#[trigger] starts[k], target),
        forall|k: int| off <= k < r ==> distance(starts[r as int], target) < distance(#[trigger] starts[k], target),
{
    let mut best: usize = off;
    let mut best_d: u64 = if starts[off] >= target { starts[off] - target } else { target - starts[off] };
    let mut k: usize = off + 1;
    while k < off + len
        invariant
            off <= best < k <= off + len,
            off + len <= starts.len(),
            best_d == distance(starts[best as int], target),
            forall|q: int| off <= q < k ==> distance(starts[best as int], target) <= distance(#[trigger] starts[q], target),
            forall|q: int| off <= q < best ==> distance(starts[best as int], target) < distance(#[trigger] starts[q], target),
        decreases off + len - k,
    {
        let s = starts[k];
        let d = if s >= target { s - target } else { target - s };
        if d < best_d {
            best = k;
            best_d = d;
        }
        k += 1;
    }
    best
}

/// `r` is the last beat of the section holding its highest stratum.
pub open spec fn is_rightmost_top(g: Seq<usize>, off: int, len: int, r: int) -> bool {
    &&& off <= r < off + len
    &&& forall|k: int| off <= k < off + len ==> #[trigger] g[k] <= g[r]
    &&& forall|k: int| r < k < off + len ==> #[trigger] g[k] < g[r]
}

/// `r` is the first beat of the section whose start is closest to `target`.
pub open spec fn is_closest(starts: Seq<u64>, off: int, len: int, target: u64, r: int) -> bool {
    &&& off <= r < off + len
    &&& forall|k: int| off <= k < off + len ==> distance(starts[r], target) <= distance(#[trigger] starts[k], target)
    &&& forall|k: int| off <= k < r ==> distance(starts[r], target) < distance(#[trigger] starts[k], target)
}

/// The sections need the heuristics: their lengths differ, neither is
/// empty, and at least one keeps a hierarchy.
pub open spec fn needs_heuristics(ga: Seq<usize>, off_a: int, len_a: int, gb: Seq<usize>, off_b: int, len_b: int) -> bool {
    len_a != len_b && len_a != 0 && len_b != 0 && !(flat(ga, off_a, len_a) && flat(gb, off_b, len_b))
}

/// The anchor pair of sections below the top level: where only one side
/// keeps a hierarchy, its last beat of highest stratum with the other
/// side's beat starting closest to it; where both do, the two last beats of
/// highest stratum.
pub open spec fn is_anchor(a: &MetreTimes, b: &MetreTimes, off_a: int, len_a: int, off_b: int, len_b: int, ia: int, ib: int) -> bool {
    if !flat(a.gnsm@, off_a, len_a) && flat(b.gnsm@, off_b, len_b) {
        is_rightmost_top(a.gnsm@, off_a, len_a, ia) && is_closest(b.starts@, off_b, len_b, a.starts@[ia], ib)
    } else if flat(a.gnsm@, off_a, len_a) && !flat(b.gnsm@, off_b, len_b) {
        is_rightmost_top(b.gnsm@, off_b, len_b, ib) && is_closest(a.starts@, off_a, len_a, b.starts@[ib], ia)
    } else {
        is_rightmost_top(a.gnsm@, off_a, len_a, ia) && is_rightmost_top(b.gnsm@, off_b, len_b, ib)
    }
}

/// Every index of A in `s` lies below `bound`.
pub open spec fn a_below(s: Seq<Pair>, bound: int) -> bool {
    forall|q: int| 0 <= q < s.len() && (#[trigger] s[q]).0 is Some ==> s[q].0->Some_0 < bound
}

/// No index of A appears both in `s` and in `f`.
pub open spec fn a_apart(s: Seq<Pair>, f: Seq<Pair>) -> bool {
    forall|p: int, q: int|
        #![trigger s[p], f[q]]
        0 <= p < s.len() && 0 <= q < f.len() && s[p].0 is Some && f[q].0 is Some ==> s[p].0 != f[q].0
}

/// The first of beats `k..end` whose start counts as equal to `t`.
pub open spec fn first_match(starts: Seq<u64>, k: int, end: int, t: u64) -> Option<int>
    decreases end - k,
{
    if k >= end {
        None
    } else if approx_eq(t, starts[k]) {
        Some(k)
    } else {
        first_match(starts, k + 1, end, t)
    }
}

/// Every slot is free or pairs two indices, and no index of A is used twice.
pub open spec fn found_ok(s: Seq<Pair>) -> bool {
    &&& forall|k: int| 0 <= k < s.len() ==> is_free(#[trigger] s[k]) || (s[k].0 is Some && s[k].1 is Some)
    &&& a_unique(s)
}

/// The first beat of the section whose start counts as equal to `t`.
fn position_of_start(starts: &Vec<u64>, off: usize, len: usize, t: u64) -> (r: Option<usize>)
    requires
        off + len <= starts.len(),
    ensures
        r matches Some(j) ==> first_match(starts@, off as int, off + len, t) == Some(j as int),
        r is None ==> first_match(starts@, off as int, off + len, t) is None,
        r matches Some(j) ==> off <= j < off + len && approx_eq(t, starts[j as int])
            && forall|k: int| off <= k < j ==> !approx_eq(t, #[trigger] starts[k]),
        r is None ==> forall|k: int| off <= k < off + len ==> !approx_eq(t, #[trigger] starts[k]),
{
    let mut k: usize = off;
    while k < off + len
        invariant
            off <= k <= off + len,
            off + len <= starts.len(),
            forall|q: int| off <= q < k ==> !approx_eq(t, #[trigger] starts[q]),
            first_match(starts@, off as int, off + len, t) == first_match(starts@, k as int, off + len, t),
        decreases off + len - k,
    {
        let s = starts[k];
        let close = if s >= t { s - t < EPSILON } else { t - s < EPSILON };
        if close {
            return Some(k);
        }
        k += 1;
    }
    None
}

/// All slots are free and only the sections' first beats start together.
pub open spec fn start_all_free_single(r: Seq<Pair>, sa: Seq<u64>, off_a: usize, len_a: usize, sb: Seq<u64>, off_b: usize, len_b: usize) -> bool {
    &&& r.len() > 0
    &&& forall|k: int| 0 <= k < r.len() ==> is_free(#[trigger] r[k])
    &&& only_first_starts_match(sa, off_a as int, len_a as int, sb, off_b as int, len_b as int)
}

/// Pairs each beat of A's section with the first beat of B's section that
/// starts at the same time, filling free slots in order.
pub fn pair_identical_start_times(result: &mut IndexPairs, a: &MetreTimes, b: &MetreTimes, off_a: usize, len_a: usize, off_b: usize, len_b: usize)
    requires
        a.holds(off_a, len_a),
        b.holds(off_b, len_b),
    ensures
        final(result)@.len() == old(result)@.len(),
        forall|k: int| 0 <= k < old(result)@.len() && in_sections(#[trigger] old(result)@[k], off_a, len_a, off_b, len_b)
            ==> in_sections(final(result)@[k], off_a, len_a, off_b, len_b),
        (forall|k: int| 0 <= k < old(result)@.len() ==> in_sections(#[trigger] old(result)@[k], off_a, len_a, off_b, len_b))
            ==> forall|k: int| 0 <= k < final(result)@.len() ==> in_sections(#[trigger] final(result)@[k], off_a, len_a, off_b, len_b),
        old(result)@.len() > 0 && (forall|k: int| 0 <= k < old(result)@.len() ==> is_free(#[trigger] old(result)@[k]))
            && only_first_starts_match(a.starts@, off_a as int, len_a as int, b.starts@, off_b as int, len_b as int)
            ==> final(result)@ == old(result)@.update(0, (Some(off_a), Some(off_b))),
        (forall|k: int| 0 <= k < old(result)@.len() ==> is_free(#[trigger] old(result)@[k])) && old(result)@.len() >= len_a
            ==> found_ok(final(result)@),
        (forall|k: int| 0 <= k < old(result)@.len() ==> is_free(#[trigger] old(result)@[k])) && old(result)@.len() >= len_a
            ==> forall|i: int| off_a <= i < off_a + len_a && (#[trigger] first_match(b.starts@, off_b as int, off_b + len_b, a.starts@[i])) is Some
                ==> final(result)@.contains((Some(i as usize), Some(first_match(b.starts@, off_b as int, off_b + len_b, a.starts@[i])->Some_0 as usize))),
{
    let ghost roomy = (forall|k: int| 0 <= k < result@.len() ==> is_free(#[trigger] result@[k])) && result@.len() >= len_a;
    let ghost mut c: int = 0;
    let ghost single = start_all_free_single(result@, a.starts@, off_a, len_a, b.starts@, off_b, len_b);
    let ghost all_in = forall|k: int| 0 <= k < result@.len() ==> in_sections(#[trigger] result@[k], off_a, len_a, off_b, len_b);
    let ghost start = result@;
    let mut i: usize = off_a;
    while i < off_a + len_a
        invariant
            off_a <= i <= off_a + len_a,
            a.holds(off_a, len_a),
            b.holds(off_b, len_b),
            result@.len() == start.len(),
            forall|k: int| 0 <= k < start.len() && in_sections(#[trigger] start[k], off_a, len_a, off_b, len_b)
                ==> in_sections(result@[k], off_a, len_a, off_b, len_b),
            all_in ==> forall|k: int| 0 <= k < result@.len() ==> in_sections(#[trigger] result@[k], off_a, len_a, off_b, len_b),
            single == start_all_free_single(start, a.starts@, off_a, len_a, b.starts@, off_b, len_b),
            single && i == off_a ==> result@ == start,
            single && i > off_a ==> result@ == start.update(0, (Some(off_a), Some(off_b))),
            roomy == ((forall|k: int| 0 <= k < start.len() ==> is_free(#[trigger] start[k])) && start.len() >= len_a),
            roomy ==> 0 <= c <= i - off_a,
            roomy ==> forall|k: int| 0 <= k < c ==> (#[trigger] result@[k]).0 is Some && result@[k].1 is Some
                && off_a <= result@[k].0->Some_0 < i,
            roomy ==> forall|k: int| c <= k < result@.len() ==> is_free(#[trigger] result@[k]),
            roomy ==> a_unique(result@),
            roomy ==> forall|i2: int| off_a <= i2 < i && (#[trigger] first_match(b.starts@, off_b as int, off_b + len_b, a.starts@[i2])) is Some
                ==> result@.contains((Some(i2 as usize), Some(first_match(b.starts@, off_b as int, off_b + len_b, a.starts@[i2])->Some_0 as usize))),
        decreases off_a + len_a - i,
    {
        let ghost pre_i = result@;
        match position_of_start(&b.starts, off_b, len_b, a.starts[i]) {
            Some(pos) => {
                let ghost before = result@;
                proof {
                    if single {
                        assert(i == off_a) by {
                            if i > off_a {
                                assert(!approx_eq(a.starts@[i as int], b.starts@[pos as int]));
                            }
                        }
                        assert(pos == off_b) by {
                            if pos > off_b {
                                assert(!approx_eq(a.starts@[i as int], b.starts@[off_b as int]));
                            }
                        }
                    }
                }
                result.set_first_free((Some(i), Some(pos)));
                proof {
                    if single {
                        assert(is_free(before[0]));
                        assert(forall|k: int| 0 <= k < 0 ==> !is_free(#[trigger] before[k]));
                        assert(result@ == before.update(0, (Some(i), Some(pos))));
                    }
                }
                proof {
                    if result@ != before {
                        let f = choose|f: int| 0 <= f < before.len() && is_free(before[f]) && #[trigger] result@ == before.update(f, (Some(i), Some(pos)));
                        assert(in_sections(result@[f], off_a, len_a, off_b, len_b));
                    }
                    if roomy {
                        assert(c < before.len());
                        assert(is_free(before[c]));
                        assert(forall|k: int| 0 <= k < c ==> !is_free(#[trigger] before[k]));
                        assert(result@ == before.update(c, (Some(i), Some(pos))));
                        assert(result@[c] == (Some(i), Some(pos)));
                        assert forall|p: int, q: int|
                            #![trigger result@[p], result@[q]]
                            0 <= p < result@.len() && 0 <= q < result@.len() && p != q && result@[p].0 is Some && result@[q].0 is Some
                            implies result@[p].0 != result@[q].0 by {
                            if p != c && q != c {
                                assert(result@[p] == before[p] && result@[q] == before[q]);
                            } else if p == c {
                                assert(result@[q] == before[q]);
                            } else {
                                assert(result@[p] == before[p]);
                            }
                        }
                        assert forall|i2: int| off_a <= i2 < i + 1 && (#[trigger] first_match(b.starts@, off_b as int, off_b + len_b, a.starts@[i2])) is Some
                            implies result@.contains((Some(i2 as usize), Some(first_match(b.starts@, off_b as int, off_b + len_b, a.starts@[i2])->Some_0 as usize))) by {
                            if i2 < i {
                                let w = choose|w: int| 0 <= w < before.len() && before[w] == (Some(i2 as usize), Some(first_match(b.starts@, off_b as int, off_b + len_b, a.starts@[i2])->Some_0 as usize));
                                assert(w < c);
                                assert(result@[w] == before[w]);
                            } else {
                                assert(result@[c] == (Some(i2 as usize), Some(first_match(b.starts@, off_b as int, off_b + len_b, a.starts@[i2])->Some_0 as usize)));
                            }
                        }
                        c = c + 1;
                    }
                }
            },
            None => {
                proof {
                    if roomy {
                        assert forall|i2: int| off_a <= i2 < i + 1 && (#[trigger] first_match(b.starts@, off_b as int, off_b + len_b, a.starts@[i2])) is Some
                            implies result@.contains((Some(i2 as usize), Some(first_match(b.starts@, off_b as int, off_b + len_b, a.starts@[i2])->Some_0 as usize))) by {
                        }
                    }
                }
            },
        }
        i += 1;
    }
}

/// Where only A keeps a hierarchy: A's last beat of highest stratum, paired
/// with the beat of B whose start is closest to it.
pub fn pair_higher_stratum_by_time(a: &MetreTimes, b: &MetreTimes, off_a: usize, len_a: usize, off_b: usize, len_b: usize) -> (r: Pair)
    requires
        a.holds(off_a, len_a),
        b.holds(off_b, len_b),
        len_a > 0,
        len_b > 0,
    ensures
        r.0 is Some && r.1 is Some,
        in_sections(r, off_a, len_a, off_b, len_b),
        forall|k: int| off_a <= k < off_a + len_a ==> #[trigger] a.gnsm[k] <= a.gnsm[r.0->Some_0 as int],
        forall|k: int| r.0->Some_0 < k < off_a + len_a ==> #[trigger] a.gnsm[k] < a.gnsm[r.0->Some_0 as int],
        forall|k: int| off_b <= k < off_b + len_b ==>
            distance(b.starts[r.1->Some_0 as int], a.starts[r.0->Some_0 as int]) <= distance(#[trigger] b.starts[k], a.starts[r.0->Some_0 as int]),
        forall|k: int| off_b <= k < r.1->Some_0 ==>
            distance(b.starts[r.1->Some_0 as int], a.starts[r.0->Some_0 as int]) < distance(#[trigger] b.starts[k], a.starts[r.0->Some_0 as int]),
{
    let idx_a = highest_stratum_index(&a.gnsm, off_a, len_a);
    let idx_b = closest_start(&b.starts, off_b, len_b, a.starts[idx_a]);
    (Some(idx_a), Some(idx_b))
}

/// Where both keep a hierarchy: the last beats of highest stratum of each.
pub fn pair_highest_stratus(a: &MetreTimes, b: &MetreTimes, off_a: usize, len_a: usize, off_b: usize, len_b: usize) -> (r: Pair)
    requires
        a.holds(off_a, len_a),
        b.holds(off_b, len_b),
        len_a > 0,
        len_b > 0,
    ensures
        r.0 is Some && r.1 is Some,
        in_sections(r, off_a, len_a, off_b, len_b),
        forall|k: int| off_a <= k < off_a + len_a ==> #[trigger] a.gnsm[k] <= a.gnsm[r.0->Some_0 as int],
        forall|k: int| r.0->Some_0 < k < off_a + len_a ==> #[trigger] a.gnsm[k] < a.gnsm[r.0->Some_0 as int],
        forall|k: int| off_b <= k < off_b + len_b ==> #[trigger] b.gnsm[k] <= b.gnsm[r.1->Some_0 as int],
        forall|k: int| r.1->Some_0 < k < off_b + len_b ==> #[trigger] b.gnsm[k] < b.gnsm[r.1->Some_0 as int],
{
    let idx_a = highest_stratum_index(&a.gnsm, off_a, len_a);
    let idx_b = highest_stratum_index(&b.gnsm, off_b, len_b);
    (Some(idx_a), Some(idx_b))
}

/// Puts `value` into the first free slot, keeping every slot inside the sections.
fn set_first_free_in(result: &mut IndexPairs, value: Pair, off_a: usize, len_a: usize, off_b: usize, len_b: usize)
    requires
        in_sections(value, off_a, len_a, off_b, len_b),
        forall|k: int| 0 <= k < old(result)@.len() ==> in_sections(#[trigger] old(result)@[k], off_a, len_a, off_b, len_b),
    ensures
        final(result)@.len() == old(result)@.len(),
        forall|k: int| 0 <= k < final(result)@.len() ==> in_sections(#[trigger] final(result)@[k], off_a, len_a, off_b, len_b),
        (forall|k: int| 0 <= k < old(result)@.len() ==> is_free(#[trigger] old(result)@[k])) && old(result)@.len() > 0
            ==> final(result)@ == old(result)@.update(0, value),
{
    let ghost before = result@;
    result.set_first_free(value);
    proof {
        if result@ != before {
            let f = choose|f: int| 0 <= f < before.len() && is_free(before[f]) && #[trigger] result@ == before.update(f, value);
            assert(result@[f] == value);
        }
        if (forall|k: int| 0 <= k < before.len() ==> is_free(#[trigger] before[k])) && before.len() > 0 {
            assert(is_free(before[0]));
            assert(result@ == before.update(0, value));
        }
    }
}

/// Aligns the beats `off_a..off_a + len_a` of A with `off_b..off_b + len_b` of B.
///
/// Sections of equal length, an empty section, or two sections without
/// hierarchy are paired in ascending order, the shorter padded. Otherwise,
/// at the top level, beats starting at the same time are paired; below it,
/// sections differing in length by one are padded; else one anchor pair is
/// chosen by stratum (and by start time where only one side keeps a
/// hierarchy). The gaps around the pairs found are aligned recursively.
#[verifier::rlimit(60)]
pub fn get_duration_pairs(a: &MetreTimes, b: &MetreTimes, off_a: usize, len_a: usize, off_b: usize, len_b: usize) -> (r: IndexPairs)
    requires
        a.holds(off_a, len_a),
        b.holds(off_b, len_b),
    ensures
        r@.len() == if len_a >= len_b { len_a } else { len_b },
        forall|k: int| 0 <= k < r@.len() ==> in_sections(#[trigger] r@[k], off_a, len_a, off_b, len_b),
        len_a == len_b || len_a == 0 || len_b == 0 || (flat(a.gnsm@, off_a as int, len_a as int) && flat(b.gnsm@, off_b as int, len_b as int))
            ==> r@ == padding(r@.len(), len_a as nat, len_b as nat, off_a as nat, off_b as nat),
        (off_a != 0 || off_b != 0) && (len_a == len_b + 1 || len_b == len_a + 1)
            ==> r@ == padding(r@.len(), len_a as nat, len_b as nat, off_a as nat, off_b as nat),
        off_a == 0 && off_b == 0 && (len_a == len_b + 1 || len_b == len_a + 1)
            && only_first_starts_match(a.starts@, 0, len_a as int, b.starts@, 0, len_b as int)
            ==> r@ == padding(r@.len(), len_a as nat, len_b as nat, 0, 0),
        a_ascending(r@),
        off_a <= off_b ==> sorted_by_key(r@),
        off_a == 0 && off_b == 0 && needs_heuristics(a.gnsm@, 0, len_a as int, b.gnsm@, 0, len_b as int)
            ==> forall|i: int| 0 <= i < len_a && (#[trigger] first_match(b.starts@, 0, len_b as int, a.starts@[i])) is Some
                ==> r@.contains((Some(i as usize), Some(first_match(b.starts@, 0, len_b as int, a.starts@[i])->Some_0 as usize))),
        (off_a != 0 || off_b != 0) && needs_heuristics(a.gnsm@, off_a as int, len_a as int, b.gnsm@, off_b as int, len_b as int)
            && len_a != len_b + 1 && len_b != len_a + 1
            ==> exists|ia: int, ib: int| is_anchor(a, b, off_a as int, len_a as int, off_b as int, len_b as int, ia, ib)
                && #[trigger] r@.contains((Some(ia as usize), Some(ib as usize))),
    decreases len_a + len_b, 2nat,
{
    let ghost single = off_a == 0 && off_b == 0 && (len_a == len_b + 1 || len_b == len_a + 1)
        && only_first_starts_match(a.starts@, 0, len_a as int, b.starts@, 0, len_b as int);
    let max_len = if len_a >= len_b { len_a } else { len_b };
    let no_strata_left_a = no_strata_left(&a.gnsm, off_a, len_a);
    let no_strata_left_b = no_strata_left(&b.gnsm, off_b, len_b);
    if len_a == len_b || len_a == 0 || len_b == 0 || (no_strata_left_a && no_strata_left_b) {
        return IndexPairs::ascending_indices_with_padding(max_len, len_a, len_b, off_a, off_b);
    }
    if !(off_a == 0 && off_b == 0) && ((len_a > len_b && len_a - len_b == 1) || (len_b > len_a && len_b - len_a == 1)) {
        return IndexPairs::ascending_indices_with_padding(max_len, len_a, len_b, off_a, off_b);
    }
    let ghost first_only = Seq::new(max_len as nat, |i: int| (None::<usize>, None::<usize>)).update(0, (Some(0usize), Some(0usize)));
    let mut result = find_pairs(a, b, off_a, len_a, off_b, len_b, no_strata_left_a, no_strata_left_b);
    proof {
        if single {
            assert(result@ == first_only);
            assert(sorted_by_key(first_only)) by {
                assert forall|k: int, l: int| 0 <= k < l < first_only.len() implies pair_key(first_only[k]) <= pair_key(first_only[l]) by {
                    if k == 0 {
                        assert(first_only[0] == (Some(0usize), Some(0usize)));
                    }
                }
            }
        }
    }
    let ghost unsorted_found = result@;
    result.sort();
    proof {
        assert forall|k: int| 0 <= k < result@.len() implies in_sections(#[trigger] result@[k], off_a, len_a, off_b, len_b) by {
            assert(result@.contains(result@[k]));
        }
        assert forall|k: int| 0 <= k < result@.len() implies is_free(#[trigger] result@[k]) || (result@[k].0 is Some && result@[k].1 is Some) by {
            assert(result@.contains(result@[k]));
            let w = choose|w: int| 0 <= w < unsorted_found.len() && unsorted_found[w] == result@[k];
        }
        assert(found_ok(result@));
    }
    let ghost sorted_found = result@;

    let subseqs = align_gaps(&result, a, b, off_a, len_a, off_b, len_b);
    let ghost rest_pairs = padding((max_len - 1) as nat, (len_a - 1) as nat, (len_b - 1) as nat, 1, 1);
    let ghost found = result@;
    fill_free(&mut result, &subseqs);
    let ghost filled = result@;
    proof {
        assert forall|x: Pair| !is_free(x) && #[trigger] unsorted_found.contains(x) implies filled.contains(x) by {
            assert(found.contains(x));
            let w = choose|w: int| 0 <= w < found.len() && found[w] == x;
            assert(filled[w] == found[w]);
        }
        assert forall|j: int| 0 <= j < result@.len() implies in_sections(#[trigger] result@[j], off_a, len_a, off_b, len_b) by {
            if result@[j] != found[j] {
                let q = choose|q: int| 0 <= q < subseqs@.len() && subseqs@[q] == result@[j];
            }
        }
        if single {
            assert(found == first_only);
            assert(subseqs@ == rest_pairs);
            let want = padding(max_len as nat, len_a as nat, len_b as nat, 0, 0);
            assert(result@ =~= want);
            assert(sorted_by_key(want)) by {
                assert forall|k: int, l: int| 0 <= k < l < want.len() implies pair_key(want[k]) <= pair_key(want[l]) by {
                }
            }
        }
    }
    let ghost before_sort = result@;
    result.sort();
    proof {
        assert forall|j: int| 0 <= j < result@.len() implies in_sections(#[trigger] result@[j], off_a, len_a, off_b, len_b) by {
            assert(result@.contains(result@[j]));
            let w = choose|w: int| 0 <= w < before_sort.len() && before_sort[w] == result@[j];
        }
        assert forall|x: Pair| !is_free(x) && #[trigger] unsorted_found.contains(x) implies result@.contains(x) by {
            assert(before_sort.contains(x));
        }
        if off_a == 0 && off_b == 0 {
            assert forall|i: int| 0 <= i < len_a && (#[trigger] first_match(b.starts@, 0, len_b as int, a.starts@[i])) is Some
                implies result@.contains((Some(i as usize), Some(first_match(b.starts@, 0, len_b as int, a.starts@[i])->Some_0 as usize))) by {
                let x = (Some(i as usize), Some(first_match(b.starts@, 0, len_b as int, a.starts@[i])->Some_0 as usize));
                assert(unsorted_found.contains(x));
                assert(!is_free(x));
            }
        } else {
            let x = unsorted_found[0];
            assert(unsorted_found.contains(x));
            assert(!is_free(x));
            assert(result@.contains(x));
            let ia = x.0->Some_0 as int;
            let ib = x.1->Some_0 as int;
            assert((Some(ia as usize), Some(ib as usize)) == x);
            assert(is_anchor(a, b, off_a as int, len_a as int, off_b as int, len_b as int, ia, ib));
        }
    }
    result
}

/// The pairs found before the gaps are aligned: at the top level, each beat
/// of A with the first beat of B starting together with it; below it, the
/// anchor pair alone (in slot 0). Every other slot stays free.
fn find_pairs(a: &MetreTimes, b: &MetreTimes, off_a: usize, len_a: usize, off_b: usize, len_b: usize, no_a: bool, no_b: bool)
    -> (r: IndexPairs)
    requires
        a.holds(off_a, len_a),
        b.holds(off_b, len_b),
        no_a == flat(a.gnsm@, off_a as int, len_a as int),
        no_b == flat(b.gnsm@, off_b as int, len_b as int),
        needs_heuristics(a.gnsm@, off_a as int, len_a as int, b.gnsm@, off_b as int, len_b as int),
    ensures
        r@.len() == if len_a >= len_b { len_a } else { len_b },
        forall|k: int| 0 <= k < r@.len() ==> in_sections(#[trigger] r@[k], off_a, len_a, off_b, len_b),
        found_ok(r@),
        off_a == 0 && off_b == 0
            ==> forall|i: int| 0 <= i < len_a && (#[trigger] first_match(b.starts@, 0, len_b as int, a.starts@[i])) is Some
                ==> r@.contains((Some(i as usize), Some(first_match(b.starts@, 0, len_b as int, a.starts@[i])->Some_0 as usize))),
        !(off_a == 0 && off_b == 0) ==> r@[0].0 is Some && r@[0].1 is Some
            && is_anchor(a, b, off_a as int, len_a as int, off_b as int, len_b as int, r@[0].0->Some_0 as int, r@[0].1->Some_0 as int),
        off_a == 0 && off_b == 0 && (len_a == len_b + 1 || len_b == len_a + 1)
            && only_first_starts_match(a.starts@, 0, len_a as int, b.starts@, 0, len_b as int)
            ==> r@ == Seq::new(r@.len(), |i: int| (None::<usize>, None::<usize>)).update(0, (Some(0usize), Some(0usize))),
{
    let max_len = if len_a >= len_b { len_a } else { len_b };
    let mut result = IndexPairs::with_len(max_len);
    if off_a == 0 && off_b == 0 {
        pair_identical_start_times(&mut result, a, b, off_a, len_a, off_b, len_b);
    } else if !no_a && no_b {
        let p = pair_higher_stratum_by_time(a, b, off_a, len_a, off_b, len_b);
        set_first_free_in(&mut result, p, off_a, len_a, off_b, len_b);
    } else if no_a && !no_b {
        let (tmp_b, tmp_a) = pair_higher_stratum_by_time(b, a, off_b, len_b, off_a, len_a);
        set_first_free_in(&mut result, (tmp_a, tmp_b), off_a, len_a, off_b, len_b);
    } else {
        let p = pair_highest_stratus(a, b, off_a, len_a, off_b, len_b);
        set_first_free_in(&mut result, p, off_a, len_a, off_b, len_b);
    }
    proof {
        if !(off_a == 0 && off_b == 0) {
            assert(result@[0].0 is Some && result@[0].1 is Some);
            assert forall|k: int| 0 <= k < result@.len() implies is_free(#[trigger] result@[k]) || (result@[k].0 is Some && result@[k].1 is Some) by {
            }
            assert forall|p: int, q: int|
                #![trigger result@[p], result@[q]]
                0 <= p < result@.len() && 0 <= q < result@.len() && p != q && result@[p].0 is Some && result@[q].0 is Some
                implies result@[p].0 != result@[q].0 by {
            }
        }
    }
    result
}

/// Aligns the gaps around the pairs found in `result` (sorted, every slot
/// free or holding both indices) and collects their pairs, in order.
fn align_gaps(result: &IndexPairs, a: &MetreTimes, b: &MetreTimes, off_a: usize, len_a: usize, off_b: usize, len_b: usize)
    -> (subseqs: Vec<Pair>)
    requires
        a.holds(off_a, len_a),
        b.holds(off_b, len_b),
        forall|q: int| 0 <= q < result@.len() ==> in_sections(#[trigger] result@[q], off_a, len_a, off_b, len_b),
        found_ok(result@),
        a_ascending(result@),
    ensures
        forall|q: int| 0 <= q < subseqs@.len() ==> in_sections(#[trigger] subseqs@[q], off_a, len_a, off_b, len_b),
        a_unique(subseqs@),
        a_apart(subseqs@, result@),
        off_a == 0 && off_b == 0 && (len_a == len_b + 1 || len_b == len_a + 1) && len_a > 0 && len_b > 0
            && result@ == Seq::new(result@.len(), |i: int| (None::<usize>, None::<usize>)).update(0, (Some(0usize), Some(0usize)))
            && result@.len() == (if len_a >= len_b { len_a } else { len_b })
            ==> subseqs@ == padding((result@.len() - 1) as nat, (len_a - 1) as nat, (len_b - 1) as nat, 1, 1),
    decreases len_a + len_b, 1nat,
{
    let max_len = result.data.len();
    let ghost sorted_found = result@;
    let ghost first_only = Seq::new(max_len as nat, |i: int| (None::<usize>, None::<usize>)).update(0, (Some(0usize), Some(0usize)));
    let ghost single = off_a == 0 && off_b == 0 && (len_a == len_b + 1 || len_b == len_a + 1) && len_a > 0 && len_b > 0
        && result@ == first_only && max_len == (if len_a >= len_b { len_a } else { len_b });
    let mut last_a = off_a;
    let mut last_b = off_b;
    let mut flag = false;
    let mut subseqs: Vec<Pair> = Vec::new();
    let mut k: usize = 0;
    while k < result.data.len()
        invariant
            a.holds(off_a, len_a),
            b.holds(off_b, len_b),
            off_a <= last_a <= off_a + len_a,
            off_b <= last_b <= off_b + len_b,
            forall|q: int| 0 <= q < subseqs.len() ==> in_sections(#[trigger] subseqs@[q], off_a, len_a, off_b, len_b),
            forall|q: int| 0 <= q < result@.len() ==> in_sections(#[trigger] result@[q], off_a, len_a, off_b, len_b),
            result@ == sorted_found,
            k <= result@.len(),
            single ==> sorted_found == first_only && last_a == 0 && last_b == 0 && subseqs.len() == 0 && (flag <==> k > 0),
            found_ok(sorted_found),
            a_ascending(sorted_found),
            !flag ==> subseqs.len() == 0 && last_a == off_a && forall|q: int| 0 <= q < k ==> is_free(#[trigger] sorted_found[q]),
            flag ==> forall|q: int| 0 <= q < k && (#[trigger] sorted_found[q]).0 is Some ==> sorted_found[q].0->Some_0 <= last_a,
            flag ==> forall|q: int| k <= q < sorted_found.len() && (#[trigger] sorted_found[q]).0 is Some ==> sorted_found[q].0->Some_0 > last_a,
            flag ==> a_below(subseqs@, last_a as int),
            a_unique(subseqs@),
            a_apart(subseqs@, sorted_found),
            first_only == Seq::new(max_len as nat, |i: int| (None::<usize>, None::<usize>)).update(0, (Some(0usize), Some(0usize))),
            result@.len() == max_len,
        decreases result.data.len() - k,
    {
        proof {
            if single {
                if k == 0 {
                    assert(result@[0] == (Some(0usize), Some(0usize)));
                } else {
                    assert(result@[k as int] == (None::<usize>, None::<usize>));
                }
            }
        }
        let (x, y) = result.data[k];
        match (x, y) {
            (Some(pa), Some(pb)) => {
                assert(in_sections(result@[k as int], off_a, len_a, off_b, len_b));
                proof {
                    if flag {
                        assert(sorted_found[k as int].0->Some_0 > last_a);
                    }
                }
                if pa >= last_a && pb >= last_b {
                    let diff_a = pa - last_a;
                    let diff_b = pb - last_b;
                    let larger = if diff_a >= diff_b { diff_a } else { diff_b };
                    if larger > (if flag { 1 } else { 0 }) {
                        let ghost old_sub = subseqs@;
                        append_gap(&mut subseqs, a, b, off_a, len_a, off_b, len_b, last_a, last_b, diff_a, diff_b, flag);
                        proof {
                            let n0 = old_sub.len();
                            assert forall|p: int, q: int|
                                #![trigger subseqs@[p], subseqs@[q]]
                                0 <= p < subseqs@.len() && 0 <= q < subseqs@.len() && p != q && subseqs@[p].0 is Some && subseqs@[q].0 is Some
                                implies subseqs@[p].0 != subseqs@[q].0 by {
                                if p < n0 && q < n0 {
                                    assert(subseqs@[p] == old_sub[p] && subseqs@[q] == old_sub[q]);
                                } else if p < n0 {
                                    assert(subseqs@[p] == old_sub[p]);
                                } else if q < n0 {
                                    assert(subseqs@[q] == old_sub[q]);
                                } else if p < q {
                                } else {
                                }
                            }
                            assert forall|p: int, q: int|
                                #![trigger subseqs@[p], sorted_found[q]]
                                0 <= p < subseqs@.len() && 0 <= q < sorted_found.len() && subseqs@[p].0 is Some && sorted_found[q].0 is Some
                                implies subseqs@[p].0 != sorted_found[q].0 by {
                                if p < n0 {
                                    assert(subseqs@[p] == old_sub[p]);
                                } else if q < k {
                                } else if q > k {
                                    assert(sorted_found[k as int].0->Some_0 < sorted_found[q].0->Some_0);
                                }
                            }
                            assert forall|q: int| 0 <= q < subseqs@.len() && (#[trigger] subseqs@[q]).0 is Some implies subseqs@[q].0->Some_0 < pa by {
                                if q < n0 {
                                    assert(subseqs@[q] == old_sub[q]);
                                }
                            }
                        }
                    }
                }
                proof {
                    assert forall|q: int| 0 <= q < subseqs@.len() && (#[trigger] subseqs@[q]).0 is Some implies subseqs@[q].0->Some_0 < pa by {
                    }
                    assert forall|q: int| k < q < sorted_found.len() && (#[trigger] sorted_found[q]).0 is Some implies sorted_found[q].0->Some_0 > pa by {
                        assert(sorted_found[k as int].0->Some_0 < sorted_found[q].0->Some_0);
                    }
                    assert forall|q: int| 0 <= q <= k && (#[trigger] sorted_found[q]).0 is Some implies sorted_found[q].0->Some_0 <= pa by {
                        if q < k && flag {
                        } else if q < k {
                        }
                    }
                }
                last_a = pa;
                last_b = pb;
                flag = true;
            },
            (Some(_), None) => {
                if last_a < off_a + len_a {
                    last_a += 1;
                }
            },
            (None, Some(_)) => {
                if last_b < off_b + len_b {
                    last_b += 1;
                }
            },
            (None, None) => {},
        }
        k += 1;
    }
    let diff_a = off_a + len_a - last_a;
    let diff_b = off_b + len_b - last_b;
    let larger = if diff_a >= diff_b { diff_a } else { diff_b };
    if larger > (if flag { 1 } else { 0 }) {
        let ghost old_sub = subseqs@;
        append_gap(&mut subseqs, a, b, off_a, len_a, off_b, len_b, last_a, last_b, diff_a, diff_b, flag);
        proof {
            let n0 = old_sub.len();
            assert forall|p: int, q: int|
                #![trigger subseqs@[p], subseqs@[q]]
                0 <= p < subseqs@.len() && 0 <= q < subseqs@.len() && p != q && subseqs@[p].0 is Some && subseqs@[q].0 is Some
                implies subseqs@[p].0 != subseqs@[q].0 by {
                if p < n0 && q < n0 {
                    assert(subseqs@[p] == old_sub[p] && subseqs@[q] == old_sub[q]);
                } else if p < n0 {
                    assert(subseqs@[p] == old_sub[p]);
                } else if q < n0 {
                    assert(subseqs@[q] == old_sub[q]);
                }
            }
            assert forall|p: int, q: int|
                #![trigger subseqs@[p], sorted_found[q]]
                0 <= p < subseqs@.len() && 0 <= q < sorted_found.len() && subseqs@[p].0 is Some && sorted_found[q].0 is Some
                implies subseqs@[p].0 != sorted_found[q].0 by {
                if p < n0 {
                    assert(subseqs@[p] == old_sub[p]);
                }
            }
        }
    }
    proof {
        if single {
            assert(subseqs@ =~= padding((max_len - 1) as nat, (len_a - 1) as nat, (len_b - 1) as nat, 1, 1));
        }
    }
    subseqs

}

/// Puts the pairs of `subseqs` into the free slots of `result`, in order;
/// pairs left over are dropped, free slots left over stay free.
fn fill_free(result: &mut IndexPairs, subseqs: &Vec<Pair>)
    ensures
        final(result)@.len() == old(result)@.len(),
        forall|k: int| 0 <= k < old(result)@.len() && !is_free(#[trigger] old(result)@[k]) ==> final(result)@[k] == old(result)@[k],
        forall|k: int| 0 <= k < old(result)@.len() ==> #[trigger] final(result)@[k] == old(result)@[k] || subseqs@.contains(final(result)@[k]),
        found_ok(old(result)@) && a_unique(subseqs@) && a_apart(subseqs@, old(result)@) ==> a_unique(final(result)@),
        old(result)@.len() > 0 && !is_free(old(result)@[0]) && (forall|k: int| 1 <= k < old(result)@.len() ==> is_free(#[trigger] old(result)@[k]))
            && subseqs@.len() == old(result)@.len() - 1
            ==> final(result)@ == seq![old(result)@[0]] + subseqs@,
{
    let ghost start = result@;
    let ghost mut src: Seq<int> = Seq::new(start.len(), |i: int| -1int);
    let mut q: usize = 0;
    let mut k: usize = 0;
    while k < result.data.len()
        invariant
            k <= result@.len(),
            result@.len() == start.len(),
            src.len() == start.len(),
            q <= subseqs@.len(),
            forall|p: int| 0 <= p < start.len() && #[trigger] src[p] < 0 ==> result@[p] == start[p],
            forall|p: int| 0 <= p < start.len() && #[trigger] src[p] >= 0 ==> src[p] < q && result@[p] == subseqs@[src[p]] && is_free(start[p]),
            forall|p: int| k <= p < start.len() ==> #[trigger] src[p] < 0,
            forall|p1: int, p2: int| 0 <= p1 < start.len() && 0 <= p2 < start.len() && p1 != p2 && src[p1] >= 0 && src[p2] >= 0
                ==> src[p1] != src[p2],
            forall|p: int| 0 <= p < k && is_free(#[trigger] start[p]) && src[p] < 0 ==> q == subseqs@.len(),
            (forall|m: int| 1 <= m < start.len() ==> is_free(#[trigger] start[m])) && start.len() > 0 && !is_free(start[0])
                ==> (k == 0 ==> q == 0) && (k > 0 ==> q == (if k - 1 <= subseqs@.len() { k - 1 } else { subseqs@.len() as int }))
                    && forall|p: int| 1 <= p < k && p - 1 < subseqs@.len() ==> #[trigger] src[p] == p - 1,
        decreases result.data.len() - k,
    {
        let ghost before = result@;
        let ghost q0 = q as int;
        proof {
            assert(src[k as int] < 0);
            assert(before[k as int] == start[k as int]);
        }
        let p = result.data[k];
        if p.0.is_none() && p.1.is_none() && q < subseqs.len() {
            let ghost old_src = src;
            result.data.set(k, subseqs[q]);
            proof {
                src = src.update(k as int, q as int);
                assert forall|pp: int| 0 <= pp < start.len() && #[trigger] src[pp] < 0 implies result@[pp] == start[pp] by {
                    assert(pp != k);
                    assert(result@[pp] == before[pp]);
                    assert(old_src[pp] == src[pp]);
                }
                assert forall|pp: int| 0 <= pp < start.len() && #[trigger] src[pp] >= 0 implies src[pp] < q + 1 && result@[pp] == subseqs@[src[pp]] && is_free(start[pp]) by {
                    if pp != k {
                        assert(result@[pp] == before[pp]);
                        assert(old_src[pp] == src[pp]);
                    }
                }
                assert forall|p1: int, p2: int| 0 <= p1 < start.len() && 0 <= p2 < start.len() && p1 != p2 && src[p1] >= 0 && src[p2] >= 0
                    implies src[p1] != src[p2] by {
                    if p1 == k {
                        assert(old_src[p2] < q);
                    } else if p2 == k {
                        assert(old_src[p1] < q);
                    }
                }
            }
            q += 1;
        }
        proof {
            if (forall|m: int| 1 <= m < start.len() ==> is_free(#[trigger] start[m])) && start.len() > 0 && !is_free(start[0]) {
                if k == 0 {
                    assert(!is_free(start[0]));
                    assert(q == 0);
                } else {
                    assert(is_free(start[k as int]));
                    if q0 < subseqs@.len() {
                        assert(src[k as int] == k - 1);
                    }
                }
                assert forall|pp: int| 1 <= pp < k + 1 && pp - 1 < subseqs@.len() implies #[trigger] src[pp] == pp - 1 by {
                    if pp == k {
                        assert(q0 == k - 1);
                    }
                }
            }
        }
        k += 1;
    }
    proof {
        let fin = result@;
        assert forall|m: int| 0 <= m < start.len() && !is_free(#[trigger] start[m]) implies fin[m] == start[m] by {
            if src[m] >= 0 {
                assert(is_free(start[m]));
            }
        }
        assert forall|m: int| 0 <= m < start.len() implies #[trigger] fin[m] == start[m] || subseqs@.contains(fin[m]) by {
            if src[m] >= 0 {
                assert(subseqs@[src[m]] == fin[m]);
            }
        }
        if found_ok(start) && a_unique(subseqs@) && a_apart(subseqs@, start) {
            assert forall|p1: int, p2: int|
                #![trigger fin[p1], fin[p2]]
                0 <= p1 < fin.len() && 0 <= p2 < fin.len() && p1 != p2 && fin[p1].0 is Some && fin[p2].0 is Some
                implies fin[p1].0 != fin[p2].0 by {
                if src[p1] >= 0 && src[p2] >= 0 {
                    assert(fin[p1] == subseqs@[src[p1]] && fin[p2] == subseqs@[src[p2]]);
                } else if src[p1] >= 0 {
                    assert(fin[p1] == subseqs@[src[p1]] && fin[p2] == start[p2]);
                } else if src[p2] >= 0 {
                    assert(fin[p2] == subseqs@[src[p2]] && fin[p1] == start[p1]);
                } else {
                    assert(fin[p1] == start[p1] && fin[p2] == start[p2]);
                }
            }
        }
        if start.len() > 0 && !is_free(start[0]) && (forall|m: int| 1 <= m < start.len() ==> is_free(#[trigger] start[m]))
            && subseqs@.len() == start.len() - 1 {
            assert forall|m: int| 0 <= m < start.len() implies #[trigger] fin[m] == (seq![start[0]] + subseqs@)[m] by {
                if m == 0 {
                    if src[0] >= 0 {
                        assert(is_free(start[0]));
                    }
                } else {
                    assert(src[m] == m - 1);
                }
            }
            assert(fin =~= seq![start[0]] + subseqs@);
        }
    }
}

/// Aligns the gap that follows beats `last_a` of A and `last_b` of B (or
/// starts there when no pair was found yet) and appends its pairs.
fn append_gap(subseqs: &mut Vec<Pair>, a: &MetreTimes, b: &MetreTimes, off_a: usize, len_a: usize, off_b: usize, len_b: usize,
    last_a: usize, last_b: usize, diff_a: usize, diff_b: usize, flag: bool)
    requires
        a.holds(off_a, len_a),
        b.holds(off_b, len_b),
        off_a <= last_a,
        off_b <= last_b,
        last_a + diff_a <= off_a + len_a,
        last_b + diff_b <= off_b + len_b,
        forall|q: int| 0 <= q < old(subseqs)@.len() ==> in_sections(#[trigger] old(subseqs)@[q], off_a, len_a, off_b, len_b),
    ensures
        forall|q: int| 0 <= q < final(subseqs)@.len() ==> in_sections(#[trigger] final(subseqs)@[q], off_a, len_a, off_b, len_b),
        flag && last_a < off_a + len_a && last_b < off_b + len_b
            && last_a + diff_a == off_a + len_a && last_b + diff_b == off_b + len_b
            && (diff_a == diff_b + 1 || diff_b == diff_a + 1)
            ==> final(subseqs)@ == old(subseqs)@ + padding(
                (if diff_a >= diff_b { diff_a - 1 } else { diff_b - 1 }) as nat,
                (diff_a - 1) as nat, (diff_b - 1) as nat, (last_a + 1) as nat, (last_b + 1) as nat),
        old(subseqs)@.len() <= final(subseqs)@.len(),
        forall|q: int| 0 <= q < old(subseqs)@.len() ==> #[trigger] final(subseqs)@[q] == old(subseqs)@[q],
        forall|q: int| old(subseqs)@.len() <= q < final(subseqs)@.len() && (#[trigger] final(subseqs)@[q]).0 is Some
            ==> (if flag { last_a + 1 } else { last_a as int }) <= final(subseqs)@[q].0->Some_0 < last_a + diff_a,
        forall|p: int, q: int|
            #![trigger final(subseqs)@[p], final(subseqs)@[q]]
            old(subseqs)@.len() <= p < q < final(subseqs)@.len() && final(subseqs)@[p].0 is Some && final(subseqs)@[q].0 is Some
            ==> final(subseqs)@[p].0->Some_0 < final(subseqs)@[q].0->Some_0,
    decreases len_a + len_b, 0nat,
{
    let ghost start_seq = subseqs@;
    if flag && (last_a >= off_a + len_a || last_b >= off_b + len_b) {
        return;
    }
    let start_a = if flag { last_a + 1 } else { last_a };
    let start_b = if flag { last_b + 1 } else { last_b };
    let gap_a = if flag { if diff_a > 0 { diff_a - 1 } else { 0 } } else { diff_a };
    let gap_b = if flag { if diff_b > 0 { diff_b - 1 } else { 0 } } else { diff_b };
    if start_a + gap_a <= off_a + len_a && start_b + gap_b <= off_b + len_b && (gap_a < len_a || gap_b < len_b) {
        let sub = get_duration_pairs(a, b, start_a, gap_a, start_b, gap_b);
        let mut k: usize = 0;
        while k < sub.data.len()
            invariant
                k <= sub@.len(),
                subseqs@ == start_seq + sub@.subrange(0, k as int),
                start_a + gap_a <= off_a + len_a,
                start_b + gap_b <= off_b + len_b,
                off_a <= start_a,
                off_b <= start_b,
                forall|j: int| 0 <= j < sub@.len() ==> in_sections(#[trigger] sub@[j], start_a, gap_a, start_b, gap_b),
                forall|q: int| 0 <= q < subseqs@.len() ==> in_sections(#[trigger] subseqs@[q], off_a, len_a, off_b, len_b),
            decreases sub.data.len() - k,
        {
            assert(in_sections(sub@[k as int], start_a, gap_a, start_b, gap_b));
            subseqs.push(sub.data[k]);
            proof {
                assert(subseqs@ =~= start_seq + sub@.subrange(0, k + 1));
            }
            k += 1;
        }
        proof {
            assert(sub@.subrange(0, sub@.len() as int) =~= sub@);
            if flag && last_a < off_a + len_a && last_b < off_b + len_b
                && last_a + diff_a == off_a + len_a && last_b + diff_b == off_b + len_b
                && (diff_a == diff_b + 1 || diff_b == diff_a + 1) {
                assert(gap_a == diff_a - 1);
                assert(gap_b == diff_b - 1);
                assert(start_a == last_a + 1);
                assert(sub@ == padding(sub@.len(), gap_a as nat, gap_b as nat, start_a as nat, start_b as nat));
            }
            let n0 = start_seq.len();
            assert forall|q: int| n0 <= q < subseqs@.len() && (#[trigger] subseqs@[q]).0 is Some
                implies (if flag { last_a + 1 } else { last_a as int }) <= subseqs@[q].0->Some_0 < last_a + diff_a by {
                assert(subseqs@[q] == sub@[q - n0]);
                assert(in_sections(sub@[q - n0], start_a, gap_a, start_b, gap_b));
            }
            assert forall|p: int, q: int|
                #![trigger subseqs@[p], subseqs@[q]]
                n0 <= p < q < subseqs@.len() && subseqs@[p].0 is Some && subseqs@[q].0 is Some
                implies subseqs@[p].0->Some_0 < subseqs@[q].0->Some_0 by {
                assert(subseqs@[p] == sub@[p - n0]);
                assert(subseqs@[q] == sub@[q - n0]);
            }
        }
    }
}

/// The sum of `d`.
pub open spec fn total(d: Seq<u64>) -> int
    decreases d.len(),
{
    if d.len() == 0 {
        0
    } else {
        total(d.drop_last()) + d.last()
    }
}

pub(crate) proof fn lemma_total_prefix(d: Seq<u64>, i: int)
    requires
        0 <= i <= d.len(),
    ensures
        0 <= total(d.subrange(0, i)) <= total(d),
    decreases d.len() - i,
{
    if i < d.len() {
        lemma_total_prefix(d, i + 1);
        assert(d.subrange(0, i + 1).drop_last() =~= d.subrange(0, i));
    } else {
        assert(d.subrange(0, i) =~= d);
    }
    lemma_total_nonneg(d.subrange(0, i));
}

pub(crate) proof fn lemma_total_nonneg(d: Seq<u64>)
    ensures
        total(d) >= 0,
    decreases d.len(),
{
    if d.len() > 0 {
        lemma_total_nonneg(d.drop_last());
    }
}

pub(crate) proof fn lemma_elem_le_total(d: Seq<u64>, i: int)
    requires
        0 <= i < d.len(),
    ensures
        d[i] <= total(d),
    decreases d.len(),
{
    lemma_total_nonneg(d.drop_last());
    if i < d.len() - 1 {
        lemma_elem_le_total(d.drop_last(), i);
    }
}

/// The start of each beat: the sum of the durations before it.
pub fn get_start_times(durations: &Vec<u64>) -> (r: Vec<u64>)
    requires
        total(durations@) <= u64::MAX,
    ensures
        r.len() == durations.len(),
        forall|i: int| 0 <= i < r.len() ==> #[trigger] r[i] == total(durations@.subrange(0, i)),
        forall|i: int, j: int| 0 <= i <= j < r.len() ==> r[i] <= r[j],
        forall|i: int| 0 <= i < r.len() ==> #[trigger] r[i] + durations[i] <= total(durations@),
{
    let mut starts: Vec<u64> = Vec::with_capacity(durations.len());
    let mut sum: u64 = 0;
    let mut i: usize = 0;
    while i < durations.len()
        invariant
            i <= durations.len(),
            total(durations@) <= u64::MAX,
            starts.len() == i,
            sum == total(durations@.subrange(0, i as int)),
            forall|k: int| 0 <= k < i ==> #[trigger] starts[k] == total(durations@.subrange(0, k)),
            forall|k: int, l: int| 0 <= k <= l < i ==> starts[k] <= starts[l],
            forall|k: int| 0 <= k < i ==> #[trigger] starts[k] <= sum,
        decreases durations.len() - i,
    {
        proof {
            lemma_total_prefix(durations@, i + 1);
            assert(durations@.subrange(0, i + 1).drop_last() =~= durations@.subrange(0, i as int));
        }
        starts.push(sum);
        sum = sum + durations[i];
        i += 1;
    }
    proof {
        assert forall|k: int| 0 <= k < starts.len() implies #[trigger] starts[k] + durations[k] <= total(durations@) by {
            lemma_total_prefix(durations@, k + 1);
            assert(durations@.subrange(0, k + 1).drop_last() =~= durations@.subrange(0, k));
        }
    }
    starts
}

/// The start of each beat of durations `d`: the sum of those before it.
pub open spec fn start_times(d: Seq<u64>) -> Seq<u64> {
    Seq::new(d.len(), |i: int| total(d.subrange(0, i)) as u64)
}

/// What a slot contributes from one side: the duration of its beat there, or
/// `zero` where it has none.
pub open spec fn contribution<T>(idx: Option<usize>, durations: Seq<T>, zero: T) -> T {
    match idx {
        Some(i) => if i < durations.len() { durations[i as int] } else { zero },
        None => zero,
    }
}

/// The alignment of two whole structures (start times and strata) that
/// `get_duration_pairs` gives: one slot per beat of the longer, indices in
/// range and rising for A, slots ordered by index; ascending pairs with
/// padding where no heuristics are needed; otherwise every beat of A paired
/// with the first beat of B starting together with it.
pub open spec fn top_alignment(pairs: Seq<Pair>, sa: Seq<u64>, ga: Seq<usize>, sb: Seq<u64>, gb: Seq<usize>) -> bool {
    let la = sa.len();
    let lb = sb.len();
    &&& pairs.len() == if la >= lb { la } else { lb }
    &&& forall|k: int| 0 <= k < pairs.len() ==> in_sections(#[trigger] pairs[k], 0, la as usize, 0, lb as usize)
    &&& a_ascending(pairs)
    &&& sorted_by_key(pairs)
    &&& !needs_heuristics(ga, 0, la as int, gb, 0, lb as int) ==> pairs == padding(pairs.len(), la, lb, 0, 0)
    &&& needs_heuristics(ga, 0, la as int, gb, 0, lb as int)
        ==> forall|i: int| 0 <= i < la && (#[trigger] first_match(sb, 0, lb as int, sa[i])) is Some
            ==> pairs.contains((Some(i as usize), Some(first_match(sb, 0, lb as int, sa[i])->Some_0 as usize)))
}

/// The durations a list of slots pairs: `zero` for an absent side.
pub open spec fn pair_durations<T>(pairs: Seq<Pair>, da: Seq<T>, db: Seq<T>, zero: T) -> Seq<(T, T)> {
    Seq::new(pairs.len(), |k: int| (contribution(pairs[k].0, da, zero), contribution(pairs[k].1, db, zero)))
}

/// Maps each slot to the durations it pairs: `zero` for an absent side.
pub fn durations_of_pairs<T: Copy>(pairs: &IndexPairs, durations_a: &Vec<T>, durations_b: &Vec<T>, zero: T) -> (r: Vec<(T, T)>)
    ensures
        r.len() == pairs@.len(),
        forall|k: int| 0 <= k < r.len() ==> #[trigger] r[k] == (contribution(pairs@[k].0, durations_a@, zero), contribution(pairs@[k].1, durations_b@, zero)),
{
    let mut out: Vec<(T, T)> = Vec::with_capacity(pairs.data.len());
    let mut k: usize = 0;
    while k < pairs.data.len()
        invariant
            k <= pairs.data.len(),
            out.len() == k,
            forall|q: int| 0 <= q < k ==> #[trigger] out[q] == (contribution(pairs@[q].0, durations_a@, zero), contribution(pairs@[q].1, durations_b@, zero)),
        decreases pairs.data.len() - k,
    {
        let (x, y) = pairs.data[k];
        let da = match x {
            Some(i) => if i < durations_a.len() { durations_a[i] } else { zero },
            None => zero,
        };
        let db = match y {
            Some(i) => if i < durations_b.len() { durations_b[i] } else { zero },
            None => zero,
        };
        out.push((da, db));
        k += 1;
    }
    out
}

/// Pairs the beats of A and B (durations in millionths of a bar) and maps
/// each slot to the two durations it joins, 0 for an absent side. Equal
/// lengths pair beat `k` with beat `k`; in particular two identical
/// structures give `(d_k, d_k)` for every beat.
pub fn generate_interpolation_data(durations_a: &Vec<u64>, durations_b: &Vec<u64>, gnsm_a: &Vec<usize>, gnsm_b: &Vec<usize>) -> (r: Vec<(u64, u64)>)
    requires
        durations_a.len() == gnsm_a.len(),
        durations_b.len() == gnsm_b.len(),
        total(durations_a@) <= u64::MAX,
        total(durations_b@) <= u64::MAX,
    ensures
        r.len() == if durations_a.len() >= durations_b.len() { durations_a.len() } else { durations_b.len() },
        durations_a.len() == durations_b.len() ==> forall|k: int| 0 <= k < r.len() ==> #[trigger] r[k] == (durations_a[k], durations_b[k]),
        durations_a@ == durations_b@ ==> forall|k: int| 0 <= k < r.len() ==> #[trigger] r[k].0 == r[k].1 && r[k].0 == durations_a[k],
        forall|k: int| 0 <= k < r.len() ==> (#[trigger] r[k]).0 <= total(durations_a@) && r[k].1 <= total(durations_b@),
        (durations_a.len() + 1 == durations_b.len() || durations_b.len() + 1 == durations_a.len())
            && only_first_starts_match(start_times(durations_a@), 0, durations_a.len() as int,
                start_times(durations_b@), 0, durations_b.len() as int)
            ==> forall|k: int| 0 <= k < r.len() ==> #[trigger] r[k] == (
                if k < durations_a.len() { durations_a[k] } else { 0u64 },
                if k < durations_b.len() { durations_b[k] } else { 0u64 }),
        exists|pairs: Seq<Pair>| #[trigger] top_alignment(pairs, start_times(durations_a@), gnsm_a@, start_times(durations_b@), gnsm_b@)
            && r@ == pair_durations(pairs, durations_a@, durations_b@, 0u64),
{
    let a = MetreTimes { starts: get_start_times(durations_a), gnsm: gnsm_a.clone() };
    let b = MetreTimes { starts: get_start_times(durations_b), gnsm: gnsm_b.clone() };
    let pairs = get_duration_pairs(&a, &b, 0, durations_a.len(), 0, durations_b.len());
    let r = durations_of_pairs(&pairs, durations_a, durations_b, 0);
    proof {
        assert(a.starts@ =~= start_times(durations_a@));
        assert(b.starts@ =~= start_times(durations_b@));
        assert(a.gnsm@ =~= gnsm_a@);
        assert(b.gnsm@ =~= gnsm_b@);
        assert(r@ =~= pair_durations(pairs@, durations_a@, durations_b@, 0u64));
        assert(top_alignment(pairs@, start_times(durations_a@), gnsm_a@, start_times(durations_b@), gnsm_b@));
        assert forall|k: int| 0 <= k < r.len() implies (#[trigger] r[k]).0 <= total(durations_a@) && r[k].1 <= total(durations_b@) by {
            lemma_total_nonneg(durations_a@);
            lemma_total_nonneg(durations_b@);
            if let Some(i) = pairs@[k].0 {
                if i < durations_a.len() {
                    lemma_elem_le_total(durations_a@, i as int);
                }
            }
            if let Some(i) = pairs@[k].1 {
                if i < durations_b.len() {
                    lemma_elem_le_total(durations_b@, i as int);
                }
            }
        }
        if durations_a.len() == durations_b.len() {
            assert forall|k: int| 0 <= k < r.len() implies #[trigger] r[k] == (durations_a[k], durations_b[k]) by {
                assert(pairs@[k] == (Some(k as usize), Some(k as usize)));
            }
        }
    }
    r
}

} // verus!
