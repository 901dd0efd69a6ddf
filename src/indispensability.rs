use vstd::prelude::*;
use crate::rqq::{gnsm_of, lemma_gnsm_top_first, RqqError, RQQ};

verus! {

/// `idx` lists, in strictly ascending order, exactly the positions of `gnsm`
/// whose stratum is `layer`.
pub open spec fn layer_positions(gnsm: Seq<usize>, layer: int, idx: Seq<usize>) -> bool {
    &&& forall|k: int| 0 <= k < idx.len() ==> (#[trigger] idx[k]) < gnsm.len() && gnsm[idx[k] as int] == layer
    &&& forall|k: int, l: int| 0 <= k < l < idx.len() ==> idx[k] < idx[l]
    &&& forall|i: int| 0 <= i < gnsm.len() && #[trigger] gnsm[i] == layer ==> idx.contains(i as usize)
}

/// `j` lies strictly after `from` and strictly before `to`, walking forward
/// and wrapping around at the end of the list.
pub open spec fn circularly_between(from: int, j: int, to: int) -> bool {
    if from < to {
        from < j < to
    } else {
        j > from || j < to
    }
}

/// Every entry of `s` is smaller than `b`.
pub open spec fn bounded_by(s: Seq<isize>, b: int) -> bool {
    forall|i: int| 0 <= i < s.len() ==> #[trigger] s[i] < b
}

/// The entries of `s` are pairwise different.
pub open spec fn all_distinct(s: Seq<usize>) -> bool {
    forall|i: int, j: int| 0 <= i < s.len() && 0 <= j < s.len() && i != j ==> s[i] != s[j]
}

proof fn lemma_usize_range_len(n: usize)
    ensures
        Set::new(|i: usize| i < n).finite(),
        Set::new(|i: usize| i < n).len() == n,
    decreases n,
{
    if n == 0 {
        assert(Set::new(|i: usize| i < n) =~= Set::<usize>::empty());
    } else {
        let m = (n - 1) as usize;
        lemma_usize_range_len(m);
        assert(Set::new(|i: usize| i < m).insert(m) =~= Set::new(|i: usize| i < n));
    }
}

/// A list without repetitions of positions below `n` has at most `n` entries.
proof fn lemma_distinct_positions_len(s: Seq<usize>, n: usize)
    requires
        s.no_duplicates(),
        forall|k: int| 0 <= k < s.len() ==> #[trigger] s[k] < n,
    ensures
        s.len() <= n,
{
    s.unique_seq_to_set();
    lemma_usize_range_len(n);
    assert(s.to_set().subset_of(Set::new(|i: usize| i < n)));
    vstd::set_lib::lemma_len_subset(s.to_set(), Set::new(|i: usize| i < n));
}

/// Collects into `indices` the positions of `gnsm` whose stratum equals `layer`.
pub fn get_indices(layer: isize, gnsm: &Vec<usize>, indices: &mut Vec<usize>)
    ensures
        layer_positions(gnsm@, layer as int, final(indices)@),
{
    indices.clear();
    let mut i: usize = 0;
    while i < gnsm.len()
        invariant
            i <= gnsm.len(),
            forall|k: int| 0 <= k < indices.len() ==> (#[trigger] indices[k]) < i && gnsm[indices[k] as int] == layer,
            forall|k: int, l: int| 0 <= k < l < indices.len() ==> indices[k] < indices[l],
            forall|p: int| 0 <= p < i && #[trigger] gnsm[p] == layer ==> indices@.contains(p as usize),
        decreases gnsm.len() - i,
    {
        if layer >= 0 && gnsm[i] == layer as usize {
            let ghost before = indices@;
            indices.push(i);
            proof {
                assert forall|p: int| 0 <= p <= i && #[trigger] gnsm[p] == layer implies indices@.contains(p as usize) by {
                    if p < i {
                        let k = choose|k: int| 0 <= k < before.len() && before[k] == p as usize;
                        assert(indices@[k] == p as usize);
                    } else {
                        assert(indices@[indices@.len() - 1] == p as usize);
                    }
                }
            }
        }
        i += 1;
    }
}

/// The basic indispensability pattern of `len` equal pulses: the first pulse
/// ranks `len - 1`, pulse `k` after it ranks `k`.
pub fn fundamental_indispensability(len: usize) -> (r: Vec<usize>)
    ensures
        r.len() == len,
        len > 0 ==> r[0] == len - 1,
        forall|k: int| 1 <= k < len ==> #[trigger] r[k] == k,
{
    let mut result: Vec<usize> = Vec::with_capacity(len);
    if len > 0 {
        result.push(len - 1);
    }
    if len > 1 {
        let mut i: usize = 0;
        while i < len - 1
            invariant
                len > 1,
                i <= len - 1,
                result.len() == i + 1,
                result[0] == len - 1,
                forall|k: int| 1 <= k < i + 1 ==> #[trigger] result[k] == k,
            decreases len - 1 - i,
        {
            result.push(i + 1);
            i += 1;
        }
    }
    result
}

/// The first position after `idx` (wrapping around) whose rank is already set.
pub fn next_set_index(result: &Vec<isize>, idx: usize, len: usize) -> (r: usize)
    requires
        len == result.len(),
        idx < len,
        exists|j: int| 0 <= j < len && result[j] >= 0,
    ensures
        r < len,
        result[r as int] >= 0,
        forall|j: int| 0 <= j < len && circularly_between(idx as int, j, r as int) ==> #[trigger] result[j] < 0,
{
    let mut j: usize = idx + 1;
    while j < len
        invariant
            idx < j <= len,
            len == result.len(),
            forall|k: int| idx < k < j ==> #[trigger] result[k] < 0,
        decreases len - j,
    {
        if result[j] >= 0 {
            return j;
        }
        j += 1;
    }
    let mut j: usize = 0;
    while j <= idx
        invariant
            j <= idx + 1,
            idx < len,
            len == result.len(),
            forall|k: int| idx < k < len ==> #[trigger] result[k] < 0,
            forall|k: int| 0 <= k < j ==> #[trigger] result[k] < 0,
        decreases idx + 1 - j,
    {
        if result[j] >= 0 {
            return j;
        }
        j += 1;
    }
    proof {
        let w = choose|w: int| 0 <= w < len && result[w] >= 0;
        if w > idx {
            assert(result[w] < 0);
        } else {
            assert(result[w] < 0);
        }
    }
    idx
}

/// Gives each position of `indices` the rank of its next ranked neighbour,
/// where that neighbour lies before the following entry of `indices` (the
/// last entry always takes it). The positions set are listed in `set_indices`.
pub fn copy_from_neighbours(indices: &Vec<usize>, set_indices: &mut Vec<usize>, result: &mut Vec<isize>, len: usize)
    requires
        old(result).len() == len,
        forall|k: int| 0 <= k < indices.len() ==> #[trigger] indices[k] < len,
        forall|k: int, l: int| 0 <= k < l < indices.len() ==> indices[k] < indices[l],
        exists|j: int| 0 <= j < len && old(result)[j] >= 0,
    ensures
        final(result).len() == len,
        forall|k: int| 0 <= k < final(set_indices).len() ==> indices@.contains(#[trigger] final(set_indices)[k]),
        forall|k: int, l: int| 0 <= k < l < final(set_indices).len() ==> final(set_indices)[k] < final(set_indices)[l],
        indices.len() > 0 ==> final(set_indices).len() > 0
            && final(set_indices)[final(set_indices).len() - 1] == indices[indices.len() - 1],
        forall|i: int| 0 <= i < len && !final(set_indices)@.contains(i as usize) ==> #[trigger] final(result)[i] == old(result)[i],
        forall|i: int| 0 <= i < len && final(set_indices)@.contains(i as usize) ==> #[trigger] final(result)[i] >= 0,
        forall|b: int| #[trigger] bounded_by(old(result)@, b) ==> bounded_by(final(result)@, b),
{
    set_indices.clear();
    let ghost w = choose|j: int| 0 <= j < len && old(result)[j] >= 0;
    let mut i: usize = 0;
    while i < indices.len()
        invariant
            i <= indices.len(),
            result.len() == len,
            0 <= w < len,
            forall|j: int| 0 <= j < len && old(result)[j] >= 0 ==> #[trigger] result[j] >= 0,
            forall|k: int| 0 <= k < indices.len() ==> #[trigger] indices[k] < len,
            forall|k: int, l: int| 0 <= k < l < indices.len() ==> indices[k] < indices[l],
            old(result).len() == len,
            old(result)[w] >= 0,
            i == 0 ==> set_indices.len() == 0,
            forall|k: int| 0 <= k < set_indices.len() ==> indices@.contains(#[trigger] set_indices[k]),
            forall|k: int| 0 <= k < set_indices.len() ==> #[trigger] set_indices[k] < (if i < indices.len() { indices[i as int] as int } else { len as int }),
            forall|k: int, l: int| 0 <= k < l < set_indices.len() ==> set_indices[k] < set_indices[l],
            i > 0 && i == indices.len() ==> set_indices.len() > 0
                && set_indices[set_indices.len() - 1] == indices[indices.len() - 1],
            forall|j: int| 0 <= j < len && !set_indices@.contains(j as usize) ==> #[trigger] result[j] == old(result)[j],
            forall|j: int| 0 <= j < len && set_indices@.contains(j as usize) ==> #[trigger] result[j] >= 0,
            forall|b: int| #[trigger] bounded_by(old(result)@, b) ==> bounded_by(result@, b),
        decreases indices.len() - i,
    {
        let idx = indices[i];
        assert(result[w] >= 0);
        let next = next_set_index(result, idx, len);
        if i + 1 == indices.len() || (idx < next && next < indices[i + 1]) {
            let ghost before_set = set_indices@;
            let ghost before_res = result@;
            set_indices.push(idx);
            let v = result[next];
            result.set(idx, v);
            proof {
                assert forall|j: int| 0 <= j < len && !set_indices@.contains(j as usize) implies #[trigger] result[j] == old(result)[j] by {
                    assert(set_indices@[set_indices.len() - 1] == idx);
                    assert(j != idx);
                    if before_set.contains(j as usize) {
                        let k = choose|k: int| 0 <= k < before_set.len() && before_set[k] == j as usize;
                        assert(set_indices@[k] == j as usize);
                    }
                }
                assert forall|j: int| 0 <= j < len && set_indices@.contains(j as usize) implies #[trigger] result[j] >= 0 by {
                    if j != idx {
                        let k = choose|k: int| 0 <= k < set_indices.len() && set_indices[k] == j as usize;
                        assert(k < before_set.len());
                        assert(before_set.contains(j as usize));
                    }
                }
                assert forall|b: int| #[trigger] bounded_by(old(result)@, b) implies bounded_by(result@, b) by {
                    assert(bounded_by(before_res, b));
                    assert(before_res[next as int] < b);
                }
                assert forall|k: int| 0 <= k < set_indices.len() implies indices@.contains(#[trigger] set_indices[k]) by {
                    if k == set_indices.len() - 1 {
                        assert(indices@[i as int] == idx);
                    }
                }
            }
        }
        i += 1;
    }
    proof {
        if indices.len() == 0 {
            assert(set_indices@.len() == 0);
        }
    }
}

/// Exchanging two entries of a list keeps the set of values it holds.
proof fn lemma_swap_keeps_values(s: Seq<usize>, a: int, b: int)
    requires
        0 <= a < s.len(),
        0 <= b < s.len(),
        a != b,
    ensures
        s.update(a, s[b]).update(b, s[a]).to_multiset() =~= s.to_multiset(),
        forall|x: usize|
            #![trigger s.contains(x)]
            #![trigger s.update(a, s[b]).update(b, s[a]).contains(x)]
            s.contains(x) <==> s.update(a, s[b]).update(b, s[a]).contains(x),
{
    let t = s.update(a, s[b]).update(b, s[a]);
    let s1 = s.update(a, s[b]);
    vstd::seq_lib::to_multiset_update(s, a, s[b]);
    vstd::seq_lib::to_multiset_update(s1, b, s[a]);
    assert(s1[b] == s[b]);
    vstd::seq_lib::to_multiset_contains(s, s[a]);
    broadcast use vstd::multiset::group_multiset_axioms;
    assert(t.to_multiset() =~= s.to_multiset());
    assert forall|x: usize| #[trigger] s.contains(x) <==> t.contains(x) by {
        if s.contains(x) {
            let p = choose|p: int| 0 <= p < s.len() && s[p] == x;
            if p == a {
                assert(t[b] == x);
            } else if p == b {
                assert(t[a] == x);
            } else {
                assert(t[p] == x);
            }
        }
        if t.contains(x) {
            let p = choose|p: int| 0 <= p < t.len() && t[p] == x;
            if p == b {
                assert(s[a] == x);
            } else if p == a {
                assert(s[b] == x);
            } else {
                assert(s[p] == x);
            }
        }
    }
}

/// Equal ranks keep the ascending order of positions.
pub open spec fn stable_by(result: Seq<isize>, order: Seq<usize>) -> bool {
    forall|k: int, l: int| 0 <= k < l < order.len() && result[order[k] as int] == result[order[l] as int]
        ==> order[k] < order[l]
}

/// Orders `set_indices` (ascending positions) by the ranks `result` holds
/// for them, ascending; the sort is stable, so equal ranks keep the order of
/// `set_indices`.
pub fn sort_copied_indices(result: &Vec<isize>, set_indices: &Vec<usize>) -> (order: Vec<usize>)
    requires
        forall|k: int| 0 <= k < set_indices.len() ==> #[trigger] set_indices[k] < result.len(),
        forall|k: int, l: int| 0 <= k < l < set_indices.len() ==> set_indices[k] < set_indices[l],
    ensures
        order.len() == set_indices.len(),
        order@.to_multiset() == set_indices@.to_multiset(),
        forall|x: usize| #[trigger] order@.contains(x) <==> set_indices@.contains(x),
        forall|k: int, l: int| 0 <= k < l < order.len() ==> result[order[k] as int] <= result[order[l] as int],
        stable_by(result@, order@),
{
    let mut order: Vec<usize> = Vec::with_capacity(set_indices.len());
    proof {
        assert(order@ =~= set_indices@.subrange(0, 0));
    }
    let mut i: usize = 0;
    while i < set_indices.len()
        invariant
            i <= set_indices.len(),
            order.len() == i,
            forall|k: int| 0 <= k < set_indices.len() ==> #[trigger] set_indices[k] < result.len(),
            forall|x: usize| #[trigger] order@.contains(x) <==> set_indices@.subrange(0, i as int).contains(x),
            forall|k: int| 0 <= k < order.len() ==> #[trigger] order[k] < result.len(),
            forall|k: int, l: int| 0 <= k < l < order.len() ==> result[order[k] as int] <= result[order[l] as int],
            forall|k: int, l: int| 0 <= k < l < set_indices.len() ==> set_indices[k] < set_indices[l],
            order@.to_multiset() == set_indices@.subrange(0, i as int).to_multiset(),
            stable_by(result@, order@),
        decreases set_indices.len() - i,
    {
        let ghost before = order@;
        let ghost x = set_indices[i as int];
        order.push(set_indices[i]);
        proof {
            assert(set_indices@.subrange(0, i + 1) =~= set_indices@.subrange(0, i as int).push(x));
            vstd::seq_lib::to_multiset_build(before, x);
            vstd::seq_lib::to_multiset_build(set_indices@.subrange(0, i as int), x);
            assert forall|a: int| 0 <= a < i implies (#[trigger] order@[a]) < x by {
                assert(before.contains(before[a]));
                let w = choose|w: int| 0 <= w < i && set_indices@.subrange(0, i as int)[w] == before[a];
                assert(set_indices[w] < set_indices[i as int]);
            }
            assert forall|x: usize| #[trigger] order@.contains(x) <==> set_indices@.subrange(0, i + 1).contains(x) by {
                let pre = set_indices@.subrange(0, i as int);
                let post = set_indices@.subrange(0, i + 1);
                assert(post =~= pre.push(set_indices[i as int]));
                assert(order@ =~= before.push(set_indices[i as int]));
                vstd::seq_lib::lemma_seq_contains_after_push(before, set_indices[i as int], x);
                vstd::seq_lib::lemma_seq_contains_after_push(pre, set_indices[i as int], x);
            }
        }
        let mut j: usize = i;
        while j > 0 && result[order[j - 1]] > result[order[j]]
            invariant
                j <= i,
                i < set_indices.len(),
                order.len() == i + 1,
                forall|k: int| 0 <= k < order.len() ==> #[trigger] order[k] < result.len(),
                forall|x: usize| #[trigger] order@.contains(x) <==> set_indices@.subrange(0, i + 1).contains(x),
                forall|a: int, b: int| 0 <= a < b < j ==> result[order[a] as int] <= result[order[b] as int],
                forall|a: int, b: int| j < a < b <= i ==> result[order[a] as int] <= result[order[b] as int],
                forall|a: int, b: int| 0 <= a < j < b <= i ==> result[order[a] as int] <= result[order[b] as int],
                forall|b: int| j < b <= i ==> result[order[j as int] as int] <= result[order[b] as int],
                order[j as int] == x,
                forall|b: int| j < b <= i ==> result[order[b] as int] > result[x as int],
                forall|a: int| 0 <= a <= i && a != j ==> (#[trigger] order@[a]) < x,
                forall|a: int, b: int| 0 <= a < b <= i && a != j && b != j
                    && result[order[a] as int] == result[order[b] as int] ==> order[a] < order[b],
                order@.to_multiset() == set_indices@.subrange(0, i + 1).to_multiset(),
            decreases j,
        {
            let ghost before = order@;
            let t = order[j - 1];
            let u = order[j];
            order.set(j - 1, u);
            order.set(j, t);
            proof {
                lemma_swap_keeps_values(before, j - 1, j as int);
                assert(order@ =~= before.update(j - 1, before[j as int]).update(j as int, before[j - 1]));
                assert forall|a: int| 0 <= a <= i && a != j - 1 implies (#[trigger] order@[a]) < x by {
                    if a == j {
                        assert(order@[a] == before[j - 1]);
                    } else {
                        assert(order@[a] == before[a]);
                    }
                }
            }
            j -= 1;
        }
        proof {
            assert forall|k: int, l: int| 0 <= k < l < order.len() && result[order[k] as int] == result[order[l] as int]
                implies order[k] < order[l] by {
                if k == j {
                    assert(result[order[l] as int] > result[x as int]);
                } else if l == j {
                    assert(order@[k] < x);
                }
            }
        }
        i += 1;
    }
    proof {
        assert(set_indices@.subrange(0, set_indices.len() as int) =~= set_indices@);
    }
    order
}

/// Why no ranking can be computed for a list of strata.
#[derive(Debug, Clone, Copy, PartialEq, Eq, Structural)]
pub enum IndispensabilityError {
    /// There is no beat to rank.
    NoStrata,
}

/// Position `p` holds a stratum strictly higher than every other position.
pub open spec fn unique_top(gnsm: Seq<usize>, p: int) -> bool {
    &&& 0 <= p < gnsm.len()
    &&& forall|j: int| 0 <= j < gnsm.len() && j != p ==> #[trigger] gnsm[j] < gnsm[p]
}

/// Puts into `remaining` the entries of `indices` whose rank is not set yet.
fn unset_positions(indices: &Vec<usize>, result: &Vec<isize>, remaining: &mut Vec<usize>)
    requires
        forall|k: int| 0 <= k < indices.len() ==> #[trigger] indices[k] < result.len(),
        forall|k: int, l: int| 0 <= k < l < indices.len() ==> indices[k] < indices[l],
    ensures
        forall|k: int| 0 <= k < final(remaining).len() ==> indices@.contains(#[trigger] final(remaining)[k])
            && result[final(remaining)[k] as int] < 0,
        forall|k: int, l: int| 0 <= k < l < final(remaining).len() ==> final(remaining)[k] < final(remaining)[l],
        forall|k: int| 0 <= k < indices.len() && result[#[trigger] indices[k] as int] < 0 ==> final(remaining)@.contains(indices[k]),
{
    remaining.clear();
    let mut k: usize = 0;
    while k < indices.len()
        invariant
            k <= indices.len(),
            forall|q: int| 0 <= q < indices.len() ==> #[trigger] indices[q] < result.len(),
            forall|q: int, l: int| 0 <= q < l < indices.len() ==> indices[q] < indices[l],
            forall|q: int| 0 <= q < remaining.len() ==> indices@.contains(#[trigger] remaining[q])
                && result[remaining[q] as int] < 0,
            forall|q: int| 0 <= q < remaining.len() ==> #[trigger] remaining[q] < (if k < indices.len() { indices[k as int] as int } else { result.len() as int }),
            forall|q: int, l: int| 0 <= q < l < remaining.len() ==> remaining[q] < remaining[l],
            forall|q: int| 0 <= q < k && result[#[trigger] indices[q] as int] < 0 ==> remaining@.contains(indices[q]),
        decreases indices.len() - k,
    {
        let idx = indices[k];
        if result[idx] < 0 {
            let ghost before = remaining@;
            remaining.push(idx);
            proof {
                assert(indices@[k as int] == idx);
                assert forall|q: int| 0 <= q <= k && result[#[trigger] indices[q] as int] < 0 implies remaining@.contains(indices[q]) by {
                    vstd::seq_lib::lemma_seq_contains_after_push(before, idx, indices[q]);
                }
            }
        }
        k += 1;
    }
}

/// Gives the entry at place `v` of `order` the rank `v`.
fn rank_in_order(order: &Vec<usize>, result: &mut Vec<isize>)
    requires
        forall|k: int| 0 <= k < order.len() ==> #[trigger] order[k] < old(result).len(),
        order.len() < isize::MAX,
    ensures
        final(result).len() == old(result).len(),
        forall|i: int| 0 <= i < old(result).len() && order@.contains(i as usize) ==>
            0 <= #[trigger] final(result)[i] < order.len() && order[final(result)[i] as int] == i,
        forall|i: int| 0 <= i < old(result).len() && !order@.contains(i as usize) ==>
            #[trigger] final(result)[i] == old(result)[i],
{
    let ghost start = result@;
    let mut v: usize = 0;
    while v < order.len()
        invariant
            v <= order.len(),
            order.len() < isize::MAX,
            result.len() == start.len(),
            forall|k: int| 0 <= k < order.len() ==> #[trigger] order[k] < start.len(),
            forall|i: int| 0 <= i < start.len() && order@.subrange(0, v as int).contains(i as usize) ==>
                0 <= #[trigger] result[i] < v && order[result[i] as int] == i,
            forall|i: int| 0 <= i < start.len() && !order@.subrange(0, v as int).contains(i as usize) ==>
                #[trigger] result[i] == start[i],
        decreases order.len() - v,
    {
        let ghost before = result@;
        result.set(order[v], v as isize);
        proof {
            let pre = order@.subrange(0, v as int);
            let post = order@.subrange(0, v + 1);
            assert(post =~= pre.push(order[v as int]));
            assert forall|i: int| 0 <= i < start.len() && post.contains(i as usize) implies
                0 <= #[trigger] result[i] < v + 1 && order[result[i] as int] == i by {
                vstd::seq_lib::lemma_seq_contains_after_push(pre, order[v as int], i as usize);
            }
            assert forall|i: int| 0 <= i < start.len() && !post.contains(i as usize) implies
                #[trigger] result[i] == start[i] by {
                vstd::seq_lib::lemma_seq_contains_after_push(pre, order[v as int], i as usize);
            }
        }
        v += 1;
    }
    proof {
        assert(order@.subrange(0, order.len() as int) =~= order@);
    }
}

/// Adds `s` to the rank of every entry of `old_indices`.
fn shift_ranks(old_indices: &Vec<usize>, result: &mut Vec<isize>, s: usize, m: usize)
    requires
        old_indices@.no_duplicates(),
        forall|k: int| 0 <= k < old_indices.len() ==> #[trigger] old_indices[k] < old(result).len(),
        forall|k: int| 0 <= k < old_indices.len() ==> 0 <= #[trigger] old(result)[old_indices[k] as int] < m,
        m + s < isize::MAX,
    ensures
        final(result).len() == old(result).len(),
        forall|i: int| 0 <= i < old(result).len() && old_indices@.contains(i as usize) ==>
            #[trigger] final(result)[i] == old(result)[i] + s,
        forall|i: int| 0 <= i < old(result).len() && !old_indices@.contains(i as usize) ==>
            #[trigger] final(result)[i] == old(result)[i],
{
    let ghost start = result@;
    let mut k: usize = 0;
    while k < old_indices.len()
        invariant
            k <= old_indices.len(),
            result.len() == start.len(),
            old_indices@.no_duplicates(),
            m + s < isize::MAX,
            forall|q: int| 0 <= q < old_indices.len() ==> #[trigger] old_indices[q] < start.len(),
            forall|q: int| 0 <= q < old_indices.len() ==> 0 <= #[trigger] start[old_indices[q] as int] < m,
            forall|i: int| 0 <= i < start.len() && old_indices@.subrange(0, k as int).contains(i as usize) ==>
                #[trigger] result[i] == start[i] + s,
            forall|i: int| 0 <= i < start.len() && !old_indices@.subrange(0, k as int).contains(i as usize) ==>
                #[trigger] result[i] == start[i],
        decreases old_indices.len() - k,
    {
        let i = old_indices[k];
        let ghost pre = old_indices@.subrange(0, k as int);
        let ghost post = old_indices@.subrange(0, k + 1);
        proof {
            assert(post =~= pre.push(i));
            if pre.contains(i) {
                let q = choose|q: int| 0 <= q < pre.len() && pre[q] == i;
                assert(old_indices[q] == old_indices[k as int]);
            }
            assert(start[old_indices[k as int] as int] < m);
        }
        let cur = result[i];
        result.set(i, cur + s as isize);
        proof {
            assert forall|j: int| 0 <= j < start.len() && post.contains(j as usize) implies
                #[trigger] result[j] == start[j] + s by {
                vstd::seq_lib::lemma_seq_contains_after_push(pre, i, j as usize);
            }
            assert forall|j: int| 0 <= j < start.len() && !post.contains(j as usize) implies
                #[trigger] result[j] == start[j] by {
                vstd::seq_lib::lemma_seq_contains_after_push(pre, i, j as usize);
            }
        }
        k += 1;
    }
    proof {
        assert(old_indices@.subrange(0, old_indices.len() as int) =~= old_indices@);
    }
}

/// The state of the ranking loop: the positions ranked so far are exactly
/// those of `old`, their ranks lie below `old.len()`, all strata above `layer`
/// are ranked and none below it.
pub open spec fn ranking_state(gnsm: Seq<usize>, result: Seq<isize>, old: Seq<usize>, layer: int) -> bool {
    &&& result.len() == gnsm.len()
    &&& old.no_duplicates()
    &&& 0 < old.len() <= gnsm.len()
    &&& forall|k: int| 0 <= k < old.len() ==> #[trigger] old[k] < gnsm.len()
    &&& forall|i: int| 0 <= i < gnsm.len() ==> (#[trigger] result[i] >= 0 <==> old.contains(i as usize))
    &&& bounded_by(result, old.len() as int)
    &&& forall|i: int| 0 <= i < gnsm.len() && #[trigger] gnsm[i] > layer ==> result[i] >= 0
    &&& forall|i: int| 0 <= i < gnsm.len() && #[trigger] gnsm[i] < layer ==> result[i] < 0
}

/// Among the positions ranked so far, a higher stratum holds a higher rank
/// (before the ranks are inverted).
pub open spec fn stratum_ordered(gnsm: Seq<usize>, result: Seq<isize>) -> bool {
    forall|i: int, j: int|
        #![trigger result[i], result[j]]
        0 <= i < result.len() && 0 <= j < result.len() && result[i] >= 0 && result[j] >= 0
            && gnsm[i] > gnsm[j] ==> result[i] > result[j]
}

/// With a unique top at `p`, the ranks set so far differ pairwise and `p`
/// holds the largest of them.
pub open spec fn ranking_distinct(result: Seq<isize>, old_len: int, p: int) -> bool {
    &&& result[p] == old_len - 1
    &&& forall|i: int, j: int| 0 <= i < result.len() && 0 <= j < result.len() && i != j
        && #[trigger] result[i] >= 0 && #[trigger] result[j] >= 0 ==> result[i] != result[j]
}

/// Ranks the beats of a list of strata (Barlow's indispensability, inverted):
/// 0 is the most important beat. Where one beat has a stratum above all
/// others, it gets 0 and the ranks are a permutation of `0..n`.
pub fn gnsm_to_indispensability_list(gnsm: Vec<usize>) -> (r: Result<Vec<usize>, IndispensabilityError>)
    requires
        gnsm.len() < isize::MAX,
        forall|i: int| 0 <= i < gnsm.len() ==> #[trigger] gnsm[i] < isize::MAX,
    ensures
        r is Err <==> gnsm.len() == 0,
        r is Ok ==> r->Ok_0.len() == gnsm.len(),
        r is Ok ==> forall|i: int| 0 <= i < gnsm.len() ==> #[trigger] r->Ok_0[i] < gnsm.len(),
        r is Ok ==> forall|p: int| #[trigger] unique_top(gnsm@, p) ==> r->Ok_0[p] == 0 && all_distinct(r->Ok_0@),
        r is Ok ==> forall|i: int, j: int|
            #![trigger r->Ok_0[i], r->Ok_0[j]]
            0 <= i < gnsm.len() && 0 <= j < gnsm.len() && gnsm[i] > gnsm[j] ==> r->Ok_0[i] < r->Ok_0[j],
{
    let len = gnsm.len();
    if len == 0 {
        return Err(IndispensabilityError::NoStrata);
    }
    let mut result: Vec<isize> = Vec::with_capacity(len);
    let mut q: usize = 0;
    while q < len
        invariant
            q <= len,
            result.len() == q,
            forall|i: int| 0 <= i < q ==> #[trigger] result[i] == -1,
        decreases len - q,
    {
        result.push(-1);
        q += 1;
    }
    let mut indices: Vec<usize> = Vec::new();
    let mut set_indices: Vec<usize> = Vec::new();
    let mut remaining: Vec<usize> = Vec::new();

    let mut top: usize = gnsm[0];
    let ghost mut top_at: int = 0;
    let mut q: usize = 1;
    while q < len
        invariant
            1 <= q <= len,
            len == gnsm.len(),
            0 <= top_at < len,
            gnsm[top_at] == top,
            forall|i: int| 0 <= i < q ==> #[trigger] gnsm[i] <= top,
        decreases len - q,
    {
        if gnsm[q] > top {
            top = gnsm[q];
            proof {
                top_at = q as int;
            }
        }
        q += 1;
    }
    let mut layer: isize = top as isize;

    get_indices(layer, &gnsm, &mut indices);
    let fundamental = fundamental_indispensability(indices.len());
    let mut old_indices: Vec<usize> = Vec::new();
    proof {
        assert(indices@.no_duplicates()) by {
            assert forall|a: int, b: int| 0 <= a < indices.len() && 0 <= b < indices.len() && a != b
                implies indices@[a] != indices@[b] by {
                if a < b {
                    assert(indices[a] < indices[b]);
                } else {
                    assert(indices[b] < indices[a]);
                }
            }
        }
        lemma_distinct_positions_len(indices@, len);
    }
    let mut k: usize = 0;
    while k < indices.len()
        invariant
            k <= indices.len(),
            indices.len() <= len,
            len < isize::MAX,
            len == gnsm.len(),
            result.len() == len,
            fundamental.len() == indices.len(),
            indices.len() > 0 ==> fundamental[0] == indices.len() - 1,
            forall|j: int| 1 <= j < indices.len() ==> #[trigger] fundamental[j] == j,
            layer_positions(gnsm@, layer as int, indices@),
            old_indices@ == indices@.subrange(0, k as int),
            forall|j: int| 0 <= j < k ==> #[trigger] result[indices[j] as int] == fundamental[j] as int,
            forall|i: int| 0 <= i < len && !old_indices@.contains(i as usize) ==> #[trigger] result[i] == -1,
        decreases indices.len() - k,
    {
        let ghost before = old_indices@;
        let ghost before_res = result@;
        let idx = indices[k];
        result.set(idx, fundamental[k] as isize);
        old_indices.push(idx);
        proof {
            assert(old_indices@ =~= indices@.subrange(0, k + 1));
            assert forall|j: int| 0 <= j < k + 1 implies #[trigger] result[indices[j] as int] == fundamental[j] as int by {
                if j < k {
                    assert(indices[j] < indices[k as int]);
                    assert(before_res[indices[j] as int] == fundamental[j] as int);
                }
            }
            assert forall|i: int| 0 <= i < len && !old_indices@.contains(i as usize) implies #[trigger] result[i] == -1 by {
                vstd::seq_lib::lemma_seq_contains_after_push(before, idx, i as usize);
            }
        }
        k += 1;
    }
    proof {
        assert(old_indices@ =~= indices@);
        assert(indices@.contains(top_at as usize));
        assert(old_indices@.no_duplicates()) by {
            assert forall|a: int, b: int| 0 <= a < old_indices.len() && 0 <= b < old_indices.len() && a != b
                implies old_indices@[a] != old_indices@[b] by {
                if a < b {
                    assert(indices[a] < indices[b]);
                } else {
                    assert(indices[b] < indices[a]);
                }
            }
        }
        lemma_distinct_positions_len(old_indices@, len);
        assert forall|i: int| 0 <= i < len implies (#[trigger] result[i] >= 0 <==> old_indices@.contains(i as usize)) by {
            if old_indices@.contains(i as usize) {
                let j = choose|j: int| 0 <= j < indices.len() && indices[j] == i as usize;
                assert(result[indices[j] as int] == fundamental[j] as int);
            }
        }
        assert forall|i: int| 0 <= i < len implies #[trigger] result@[i] < old_indices.len() by {
            if old_indices@.contains(i as usize) {
                let j = choose|j: int| 0 <= j < indices.len() && indices[j] == i as usize;
                assert(result[indices[j] as int] == fundamental[j] as int);
            }
        }
        assert forall|i: int| 0 <= i < len && #[trigger] gnsm[i] < layer implies result[i] < 0 by {
            if old_indices@.contains(i as usize) {
                let j = choose|j: int| 0 <= j < indices.len() && indices[j] == i as usize;
            }
        }
        assert(ranking_state(gnsm@, result@, old_indices@, layer as int));
        assert(stratum_ordered(gnsm@, result@)) by {
            assert forall|i: int, j: int|
                #![trigger result@[i], result@[j]]
                0 <= i < result@.len() && 0 <= j < result@.len() && result@[i] >= 0 && result@[j] >= 0
                    && gnsm@[i] > gnsm@[j] implies result@[i] > result@[j] by {
                let qi = choose|q: int| 0 <= q < indices.len() && indices[q] == i as usize;
                let qj = choose|q: int| 0 <= q < indices.len() && indices[q] == j as usize;
            }
        }
    }
    let ghost unique = exists|p: int| unique_top(gnsm@, p);
    let ghost p: int = if unique { choose|p: int| unique_top(gnsm@, p) } else { 0 };
    proof {
        if unique {
            assert(gnsm[top_at] <= gnsm[p]);
            assert(top_at == p);
            assert(indices@.contains(p as usize));
            let jp = choose|j: int| 0 <= j < indices.len() && indices[j] == p as usize;
            assert(indices.len() == 1) by {
                if indices.len() > 1 {
                    let other = if jp == 0 { 1int } else { 0int };
                    assert(indices[other] != indices[jp]);
                    assert(gnsm[indices[other] as int] == top);
                }
            }
            assert(result[indices[0] as int] == fundamental[0] as int);
            assert(ranking_distinct(result@, old_indices.len() as int, p));
        }
    }

    while layer >= 0
        invariant
            len == gnsm.len(),
            len < isize::MAX,
            -1 <= layer <= top,
            layer_positions(gnsm@, layer as int, indices@),
            ranking_state(gnsm@, result@, old_indices@, layer as int),
            unique ==> 0 <= p < len && ranking_distinct(result@, old_indices.len() as int, p),
            stratum_ordered(gnsm@, result@),
        decreases layer + 1, len - old_indices.len(),
    {
        let ghost pre = result@;
        let ghost pre_layer = layer as int;
        let ghost pre_indices = indices@;
        unset_positions(&indices, &result, &mut remaining);
        proof {
            let w = old_indices[0];
            assert(old_indices@.contains(w));
            assert(result[w as int] >= 0);
        }
        if remaining.len() == 0 {
            layer = layer - 1;
            get_indices(layer, &gnsm, &mut indices);
            copy_from_neighbours(&indices, &mut set_indices, &mut result, len);
            proof {
                assert forall|k: int| 0 <= k < set_indices.len() implies #[trigger] gnsm[set_indices[k] as int] == layer by {
                    let q = choose|q: int| 0 <= q < indices.len() && indices[q] == set_indices[k];
                }
                assert forall|i: int| 0 <= i < len && #[trigger] gnsm[i] > layer implies pre[i] >= 0 by {
                    if gnsm[i] == pre_layer && pre[i] < 0 {
                        assert(pre_indices.contains(i as usize));
                        let q = choose|q: int| 0 <= q < pre_indices.len() && pre_indices[q] == i as usize;
                        assert(remaining@.contains(pre_indices[q]));
                    }
                }
            }
        } else {
            copy_from_neighbours(&remaining, &mut set_indices, &mut result, len);
            proof {
                assert forall|k: int| 0 <= k < set_indices.len() implies #[trigger] gnsm[set_indices[k] as int] == layer by {
                    let q = choose|q: int| 0 <= q < remaining.len() && remaining[q] == set_indices[k];
                    let r = choose|r: int| 0 <= r < indices.len() && indices[r] == remaining[q];
                }
            }
        }
        proof {
            assert forall|k: int| 0 <= k < set_indices.len() implies #[trigger] pre[set_indices[k] as int] < 0 by {
                assert(gnsm[set_indices[k] as int] == layer);
                if pre[set_indices[k] as int] >= 0 {
                    assert(old_indices@.contains(set_indices[k]));
                    if layer < pre_layer {
                    } else {
                        let q = choose|q: int| 0 <= q < remaining.len() && remaining[q] == set_indices[k];
                    }
                }
            }
        }
        let m_len = old_indices.len();
        let ghost m = m_len as int;
        let ghost mid = result@;
        proof {
            assert(bounded_by(pre, m));
            assert(bounded_by(mid, m));
        }
        let order = sort_copied_indices(&result, &set_indices);
        let s = set_indices.len();
        let ghost old_part = old_indices@;
        let ghost joined = old_indices@ + set_indices@;
        proof {
            assert forall|a: int, b: int| 0 <= a < joined.len() && 0 <= b < joined.len() && a != b
                implies joined[a] != joined[b] by {
                if a < m && b < m {
                } else if a >= m && b >= m {
                    if a < b {
                        assert(set_indices[a - m] < set_indices[b - m]);
                    } else {
                        assert(set_indices[b - m] < set_indices[a - m]);
                    }
                } else if a < m {
                    assert(old_indices@.contains(joined[a]));
                    assert(pre[set_indices[b - m] as int] < 0);
                } else {
                    assert(old_indices@.contains(joined[b]));
                    assert(pre[set_indices[a - m] as int] < 0);
                }
            }
            assert(joined.no_duplicates());
            assert forall|k: int| 0 <= k < joined.len() implies #[trigger] joined[k] < len by {
                if k >= m {
                    assert(joined[k] == set_indices[k - m]);
                }
            }
            lemma_distinct_positions_len(joined, len);
        }
        proof {
            assert forall|k: int| 0 <= k < order.len() implies #[trigger] order[k] < result.len() by {
                assert(order@.contains(order[k]));
                let q = choose|q: int| 0 <= q < set_indices.len() && set_indices[q] == order[k];
                assert(joined[m + q] == order[k]);
            }
        }
        rank_in_order(&order, &mut result);
        let ghost ranked = result@;
        proof {
            assert forall|k: int| 0 <= k < old_indices.len() implies 0 <= #[trigger] ranked[old_indices[k] as int] < m by {
                let i = old_indices[k];
                assert(old_indices@.contains(i));
                if set_indices@.contains(i) {
                    let q = choose|q: int| 0 <= q < set_indices.len() && set_indices[q] == i;
                    assert(pre[set_indices[q] as int] < 0);
                }
                assert(!order@.contains(i));
                assert(mid[i as int] == pre[i as int]);
                assert(pre[i as int] < m);
            }
        }
        shift_ranks(&old_indices, &mut result, s, m_len);
        let mut k: usize = 0;
        while k < set_indices.len()
            invariant
                k <= set_indices.len(),
                old_indices@ == joined.subrange(0, m + k),
                joined == old_part + set_indices@,
                old_part.len() == m,
            decreases set_indices.len() - k,
        {
            old_indices.push(set_indices[k]);
            proof {
                assert(old_indices@ =~= joined.subrange(0, m + k + 1));
            }
            k += 1;
        }
        proof {
            assert(old_indices@ =~= joined);
            let cur = result@;
            // where each position stands after this pass
            assert forall|i: int| 0 <= i < len implies
                (old_part.contains(i as usize) ==> #[trigger] cur[i] == pre[i] + s && 0 <= pre[i] < m)
                && (set_indices@.contains(i as usize) ==> 0 <= cur[i] < s && order[cur[i] as int] == i)
                && (!old_part.contains(i as usize) && !set_indices@.contains(i as usize) ==> cur[i] == pre[i] && pre[i] < 0)
            by {
                if old_part.contains(i as usize) {
                    let q = choose|q: int| 0 <= q < m && old_part[q] == i as usize;
                    assert(0 <= ranked[old_part[q] as int] < m);
                    if set_indices@.contains(i as usize) {
                        let r = choose|r: int| 0 <= r < set_indices.len() && set_indices[r] == i as usize;
                        assert(pre[set_indices[r] as int] < 0);
                    }
                    assert(!order@.contains(i as usize));
                } else if set_indices@.contains(i as usize) {
                    assert(order@.contains(i as usize));
                } else {
                    assert(!order@.contains(i as usize));
                }
            }
            assert forall|i: int| 0 <= i < len implies (#[trigger] cur[i] >= 0 <==> joined.contains(i as usize)) by {
                if set_indices@.contains(i as usize) {
                    let q = choose|q: int| 0 <= q < set_indices.len() && set_indices[q] == i as usize;
                    assert(joined[m + q] == i as usize);
                } else if old_part.contains(i as usize) {
                    let q = choose|q: int| 0 <= q < m && old_part[q] == i as usize;
                    assert(joined[q] == i as usize);
                } else {
                    if joined.contains(i as usize) {
                        let q = choose|q: int| 0 <= q < joined.len() && joined[q] == i as usize;
                        if q < m {
                            assert(old_part[q] == i as usize);
                        } else {
                            assert(set_indices[q - m] == i as usize);
                        }
                    }
                }
            }
            assert forall|i: int| 0 <= i < len && #[trigger] gnsm[i] > layer implies cur[i] >= 0 by {
                if pre[i] >= 0 {
                    assert(old_part.contains(i as usize));
                } else if layer == pre_layer {
                    assert(pre[i] >= 0);
                }
            }
            assert forall|i: int| 0 <= i < len && #[trigger] gnsm[i] < layer implies cur[i] < 0 by {
                assert(pre[i] < 0);
                assert(!old_part.contains(i as usize));
                if set_indices@.contains(i as usize) {
                    let q = choose|q: int| 0 <= q < set_indices.len() && set_indices[q] == i as usize;
                    assert(gnsm[set_indices[q] as int] == layer);
                }
            }
            assert(bounded_by(cur, old_indices.len() as int));
            if unique {
                assert(old_part.contains(p as usize));
                assert forall|i: int, j: int| 0 <= i < len && 0 <= j < len && i != j
                    && #[trigger] cur[i] >= 0 && #[trigger] cur[j] >= 0 implies cur[i] != cur[j] by {
                    if old_part.contains(i as usize) && old_part.contains(j as usize) {
                        assert(pre[i] >= 0 && pre[j] >= 0);
                    }
                }
                assert(ranking_distinct(cur, old_indices.len() as int, p));
            }
            if layer == pre_layer {
                assert(remaining.len() > 0);
                assert(set_indices.len() > 0);
            }
            assert(ranking_state(gnsm@, cur, old_indices@, layer as int));
            assert(stratum_ordered(gnsm@, cur)) by {
                assert forall|i: int, j: int|
                    #![trigger cur[i], cur[j]]
                    0 <= i < cur.len() && 0 <= j < cur.len() && cur[i] >= 0 && cur[j] >= 0
                        && gnsm@[i] > gnsm@[j] implies cur[i] > cur[j] by {
                    if set_indices@.contains(i as usize) {
                        let q = choose|q: int| 0 <= q < set_indices.len() && set_indices[q] == i as usize;
                        assert(gnsm[set_indices[q] as int] == layer);
                        if old_part.contains(j as usize) {
                            assert(pre[j] >= 0);
                        } else if set_indices@.contains(j as usize) {
                            let q2 = choose|q: int| 0 <= q < set_indices.len() && set_indices[q] == j as usize;
                            assert(gnsm[set_indices[q2] as int] == layer);
                        }
                    } else if old_part.contains(i as usize) {
                        if old_part.contains(j as usize) {
                            assert(pre[i] >= 0 && pre[j] >= 0);
                        }
                    }
                }
            }
        }
    }
    proof {
        assert forall|i: int| 0 <= i < len implies 0 <= #[trigger] result[i] < len by {
            assert(gnsm[i] > layer);
            assert(bounded_by(result@, old_indices.len() as int));
        }
    }
    let mut most: isize = result[0];
    let mut q: usize = 1;
    while q < len
        invariant
            1 <= q <= len,
            result.len() == len,
            0 <= most,
            forall|i: int| 0 <= i < len ==> 0 <= #[trigger] result[i] < len,
            exists|i: int| 0 <= i < len && result[i] == most,
            forall|i: int| 0 <= i < q ==> #[trigger] result[i] <= most,
        decreases len - q,
    {
        if result[q] > most {
            most = result[q];
        }
        q += 1;
    }
    proof {
        assert(stratum_ordered(gnsm@, result@));
    }
    let mut ranks: Vec<usize> = Vec::with_capacity(len);
    let mut q: usize = 0;
    while q < len
        invariant
            q <= len,
            result.len() == len,
            ranks.len() == q,
            forall|i: int| 0 <= i < len ==> 0 <= #[trigger] result[i] <= most,
            forall|i: int| 0 <= i < q ==> #[trigger] ranks[i] == most - result[i],
            stratum_ordered(gnsm@, result@),
            gnsm.len() == len,
            forall|i: int| 0 <= i < len ==> #[trigger] result[i] >= 0,
        decreases len - q,
    {
        ranks.push((most - result[q]) as usize);
        q += 1;
    }
    proof {
        assert forall|i: int, j: int|
            #![trigger ranks@[i], ranks@[j]]
            0 <= i < gnsm.len() && 0 <= j < gnsm.len() && gnsm[i] > gnsm[j] implies ranks@[i] < ranks@[j] by {
            assert(result@[i] >= 0 && result@[j] >= 0);
            assert(result@[i] > result@[j]);
        }
    }
    Ok(ranks)
}

/// There are strata, fewer than `isize::MAX` of them, each below `isize::MAX`:
/// ranks of such strata can be held.
pub open spec fn strata_fit(g: Option<Seq<usize>>) -> bool {
    &&& g is Some
    &&& g->Some_0.len() < isize::MAX
    &&& forall|i: int| 0 <= i < g->Some_0.len() ==> #[trigger] g->Some_0[i] < isize::MAX
}

/// Ranks the beats of a group in RQQ notation, 0 being the most important.
/// The first beat gets 0 and the ranks are a permutation of `0..n`.
pub fn rqq_to_indispensability_list(rqq: &RQQ) -> (r: Result<Vec<usize>, RqqError>)
    ensures
        r is Ok ==> gnsm_of(*rqq) is Some,
        gnsm_of(*rqq) is None ==> r is Err,
        r is Ok ==> r->Ok_0.len() == gnsm_of(*rqq)->Some_0.len(),
        r is Ok ==> r->Ok_0[0] == 0,
        r is Ok ==> forall|i: int| 0 <= i < r->Ok_0.len() ==> #[trigger] r->Ok_0[i] < r->Ok_0.len(),
        r is Ok ==> all_distinct(r->Ok_0@),
        r is Err ==> gnsm_of(*rqq) is None || r == Err::<Vec<usize>, RqqError>(RqqError::TooLarge),
        strata_fit(gnsm_of(*rqq)) ==> r is Ok,
{
    let gnsm = match rqq.to_gnsm() {
        Ok(g) => g,
        Err(e) => {
            return Err(e);
        },
    };
    if gnsm.len() >= isize::MAX as usize {
        return Err(RqqError::TooLarge);
    }
    let mut i: usize = 0;
    while i < gnsm.len()
        invariant
            i <= gnsm.len(),
            gnsm_of(*rqq) == Some(gnsm@),
            forall|k: int| 0 <= k < i ==> #[trigger] gnsm[k] < isize::MAX,
        decreases gnsm.len() - i,
    {
        if gnsm[i] >= isize::MAX as usize {
            assert(gnsm@[i as int] >= isize::MAX);
            return Err(RqqError::TooLarge);
        }
        i += 1;
    }
    proof {
        lemma_gnsm_top_first(*rqq);
        assert(unique_top(gnsm@, 0));
    }
    let ghost g = gnsm@;
    match gnsm_to_indispensability_list(gnsm) {
        Ok(v) => {
            proof {
                assert(unique_top(g, 0));
            }
            Ok(v)
        },
        Err(_) => Err(RqqError::TooLarge),
    }
}

} // verus!
