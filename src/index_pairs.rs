use vstd::prelude::*;

verus! {

/// An aligned slot: the index of a beat of structure A and of structure B,
/// either of them possibly absent.
pub type Pair = (Option<usize>, Option<usize>);

/// A slot that holds no index yet.
pub open spec fn is_free(p: Pair) -> bool {
    p.0 is None && p.1 is None
}

/// The index a slot is ordered by: its A index where it has one, else its B
/// index; free slots go last.
pub open spec fn pair_key(p: Pair) -> int {
    match p {
        (Some(a), _) => a as int,
        (None, Some(b)) => b as int,
        (None, None) => usize::MAX as int + 1,
    }
}

/// The keys of the slots never decrease.
pub open spec fn sorted_by_key(s: Seq<Pair>) -> bool {
    forall|k: int, l: int| 0 <= k < l < s.len() ==> pair_key(s[k]) <= pair_key(s[l])
}

/// No two slots hold the same index of A.
pub open spec fn a_unique(s: Seq<Pair>) -> bool {
    forall|p: int, q: int|
        #![trigger s[p], s[q]]
        0 <= p < s.len() && 0 <= q < s.len() && p != q && s[p].0 is Some && s[q].0 is Some ==> s[p].0 != s[q].0
}

/// The indices of A rise strictly from slot to slot.
pub open spec fn a_ascending(s: Seq<Pair>) -> bool {
    forall|p: int, q: int|
        #![trigger s[p], s[q]]
        0 <= p < q < s.len() && s[p].0 is Some && s[q].0 is Some ==> s[p].0->Some_0 < s[q].0->Some_0
}

/// Slots `0..len`, slot `i` pairing beat `offset_a + i` of A (while `i < len_a`)
/// with beat `offset_b + i` of B (while `i < len_b`).
pub open spec fn padding(len: nat, len_a: nat, len_b: nat, offset_a: nat, offset_b: nat) -> Seq<Pair> {
    Seq::new(
        len,
        |i: int|
            (
                if i < len_a { Some((i + offset_a) as usize) } else { None },
                if i < len_b { Some((i + offset_b) as usize) } else { None },
            ),
    )
}

/// Pairs of indices into two metric structures.
#[derive(Debug, Default)]
pub struct IndexPairs {
    pub data: Vec<Pair>,
}

impl View for IndexPairs {
    type V = Seq<Pair>;

    open spec fn view(&self) -> Seq<Pair> {
        self.data@
    }
}

impl IndexPairs {
    /// `len` free slots.
    pub fn with_len(len: usize) -> (r: Self)
        ensures
            r@ == Seq::new(len as nat, |i: int| (None::<usize>, None::<usize>)),
    {
        let mut data: Vec<Pair> = Vec::with_capacity(len);
        let mut i: usize = 0;
        while i < len
            invariant
                i <= len,
                data@ == Seq::new(i as nat, |k: int| (None::<usize>, None::<usize>)),
            decreases len - i,
        {
            data.push((None, None));
            proof {
                assert(data@ =~= Seq::new((i + 1) as nat, |k: int| (None::<usize>, None::<usize>)));
            }
            i += 1;
        }
        IndexPairs { data }
    }

    /// Collects ascending indices from the range of each section; where one
    /// section is shorter, its side of the remaining slots stays empty.
    pub fn ascending_indices_with_padding(len: usize, len_a: usize, len_b: usize, offset_a: usize, offset_b: usize) -> (r: Self)
        requires
            offset_a + len_a <= usize::MAX,
            offset_b + len_b <= usize::MAX,
        ensures
            r@ == padding(len as nat, len_a as nat, len_b as nat, offset_a as nat, offset_b as nat),
    {
        let mut data: Vec<Pair> = Vec::with_capacity(len);
        let mut i: usize = 0;
        while i < len
            invariant
                i <= len,
                offset_a + len_a <= usize::MAX,
                offset_b + len_b <= usize::MAX,
                data@ == padding(i as nat, len_a as nat, len_b as nat, offset_a as nat, offset_b as nat),
            decreases len - i,
        {
            let a = if i < len_a { Some(i + offset_a) } else { None };
            let b = if i < len_b { Some(i + offset_b) } else { None };
            data.push((a, b));
            proof {
                assert(data@ =~= padding((i + 1) as nat, len_a as nat, len_b as nat, offset_a as nat, offset_b as nat));
            }
            i += 1;
        }
        IndexPairs { data }
    }

    /// Puts `value` into the first free slot; without a free slot nothing changes.
    pub fn set_first_free(&mut self, value: Pair)
        ensures
            (forall|k: int| 0 <= k < old(self)@.len() ==> !is_free(#[trigger] old(self)@[k])) ==> final(self)@ == old(self)@,
            forall|f: int|
                0 <= f < old(self)@.len() && is_free(old(self)@[f]) && (forall|k: int| 0 <= k < f ==> !is_free(#[trigger] old(self)@[k]))
                ==> #[trigger] final(self)@ == old(self)@.update(f, value),
            final(self)@ == old(self)@ || exists|f: int|
                0 <= f < old(self)@.len() && is_free(old(self)@[f]) && #[trigger] final(self)@ == old(self)@.update(f, value),
    {
        let mut i: usize = 0;
        while i < self.data.len()
            invariant
                i <= self.data.len(),
                self.data@ == old(self).data@,
                forall|k: int| 0 <= k < i ==> !is_free(#[trigger] self.data@[k]),
            decreases self.data.len() - i,
        {
            let p = self.data[i];
            if p.0.is_none() && p.1.is_none() {
                self.data.set(i, value);
                assert(self@ == old(self)@.update(i as int, value));
                return;
            }
            i += 1;
        }
    }

    /// Whether every slot is free.
    pub fn all_free(&self) -> (r: bool)
        ensures
            r == forall|k: int| 0 <= k < self@.len() ==> is_free(#[trigger] self@[k]),
    {
        let mut i: usize = 0;
        while i < self.data.len()
            invariant
                i <= self.data.len(),
                forall|k: int| 0 <= k < i ==> is_free(#[trigger] self.data@[k]),
            decreases self.data.len() - i,
        {
            let p = self.data[i];
            if p.0.is_some() || p.1.is_some() {
                assert(!is_free(self@[i as int]));
                return false;
            }
            i += 1;
        }
        true
    }

    /// Sorts the slots by `pair_key`, keeping the order of equal keys.
    pub fn sort(&mut self)
        ensures
            final(self)@.len() == old(self)@.len(),
            forall|x: Pair| #[trigger] final(self)@.contains(x) <==> old(self)@.contains(x),
            forall|k: int, l: int| 0 <= k < l < final(self)@.len() ==> pair_key(final(self)@[k]) <= pair_key(final(self)@[l]),
            sorted_by_key(old(self)@) ==> final(self)@ == old(self)@,
            final(self)@.to_multiset() == old(self)@.to_multiset(),
            a_unique(old(self)@) ==> a_unique(final(self)@),
            a_unique(old(self)@) ==> a_ascending(final(self)@),
    {
        let ghost was_sorted = sorted_by_key(self.data@);
        let ghost was_unique = a_unique(self.data@);
        let n = self.data.len();
        let mut i: usize = 1;
        while i < n
            invariant
                1 <= i || n == 0,
                i <= n || n == 0,
                self.data.len() == n,
                forall|x: Pair| #[trigger] self.data@.contains(x) <==> old(self)@.contains(x),
                forall|k: int, l: int| 0 <= k < l < i && l < n ==> pair_key(self.data@[k]) <= pair_key(self.data@[l]),
                was_sorted == sorted_by_key(old(self)@),
                was_sorted ==> self.data@ == old(self)@,
                self.data@.to_multiset() == old(self)@.to_multiset(),
                was_unique == a_unique(old(self)@),
                was_unique ==> a_unique(self.data@),
            decreases n - i,
        {
            let mut j: usize = i;
            while j > 0 && key_gt(self.data[j - 1], self.data[j])
                invariant
                    j <= i < n,
                    self.data.len() == n,
                    forall|x: Pair| #[trigger] self.data@.contains(x) <==> old(self)@.contains(x),
                    forall|a: int, b: int| 0 <= a < b < j ==> pair_key(self.data@[a]) <= pair_key(self.data@[b]),
                    forall|a: int, b: int| j < a < b <= i ==> pair_key(self.data@[a]) <= pair_key(self.data@[b]),
                    forall|a: int, b: int| 0 <= a < j < b <= i ==> pair_key(self.data@[a]) <= pair_key(self.data@[b]),
                    forall|b: int| j < b <= i ==> pair_key(self.data@[j as int]) <= pair_key(self.data@[b]),
                    was_sorted == sorted_by_key(old(self)@),
                    was_sorted ==> self.data@ == old(self)@ && j == i,
                    self.data@.to_multiset() == old(self)@.to_multiset(),
                    was_unique == a_unique(old(self)@),
                    was_unique ==> a_unique(self.data@),
                decreases j,
            {
                proof {
                    if was_sorted {
                        assert(pair_key(self.data@[j - 1]) <= pair_key(self.data@[j as int]));
                    }
                }
                let ghost before = self.data@;
                let t = self.data[j - 1];
                let u = self.data[j];
                self.data.set(j - 1, u);
                self.data.set(j, t);
                proof {
                    lemma_swap_keeps_pairs(before, j - 1, j as int);
                    if was_unique {
                        lemma_swap_a_unique(before, j - 1, j as int);
                    }
                    assert(self.data@ =~= before.update(j - 1, before[j as int]).update(j as int, before[j - 1]));
                }
                j -= 1;
            }
            i += 1;
        }
        proof {
            if was_unique {
                assert forall|p: int, q: int|
                    #![trigger self.data@[p], self.data@[q]]
                    0 <= p < q < self.data@.len() && self.data@[p].0 is Some && self.data@[q].0 is Some
                    implies self.data@[p].0->Some_0 < self.data@[q].0->Some_0 by {
                    assert(pair_key(self.data@[p]) <= pair_key(self.data@[q]));
                }
            }
        }
    }

    /// The number of slots.
    pub fn len(&self) -> (r: usize)
        ensures
            r == self@.len(),
    {
        self.data.len()
    }
}

/// Whether `p` orders strictly after `q`.
fn key_gt(p: Pair, q: Pair) -> (r: bool)
    ensures
        r == (pair_key(p) > pair_key(q)),
{
    match (p, q) {
        ((Some(a), _), (Some(x), _)) => a > x,
        ((Some(a), _), (None, Some(y))) => a > y,
        ((Some(_), _), (None, None)) => false,
        ((None, Some(b)), (Some(x), _)) => b > x,
        ((None, Some(b)), (None, Some(y))) => b > y,
        ((None, Some(_)), (None, None)) => false,
        ((None, None), (None, None)) => false,
        ((None, None), _) => true,
    }
}

proof fn lemma_swap_a_unique(s: Seq<Pair>, a: int, b: int)
    requires
        0 <= a < s.len(),
        0 <= b < s.len(),
        a != b,
        a_unique(s),
    ensures
        a_unique(s.update(a, s[b]).update(b, s[a])),
{
    let t = s.update(a, s[b]).update(b, s[a]);
    assert forall|p: int, q: int|
        #![trigger t[p], t[q]]
        0 <= p < t.len() && 0 <= q < t.len() && p != q && t[p].0 is Some && t[q].0 is Some implies t[p].0 != t[q].0 by {
        let sp = if p == a { b } else if p == b { a } else { p };
        let sq = if q == a { b } else if q == b { a } else { q };
        assert(t[p] == s[sp]);
        assert(t[q] == s[sq]);
    }
}

proof fn lemma_swap_keeps_pairs(s: Seq<Pair>, a: int, b: int)
    requires
        0 <= a < s.len(),
        0 <= b < s.len(),
        a != b,
    ensures
        s.update(a, s[b]).update(b, s[a]).to_multiset() =~= s.to_multiset(),
        forall|x: Pair|
            #![trigger s.contains(x)]
            #![trigger s.update(a, s[b]).update(b, s[a]).contains(x)]
            s.contains(x) <==> s.update(a, s[b]).update(b, s[a]).contains(x),
{
    let t = s.update(a, s[b]).update(b, s[a]);
    let s1 = s.update(a, s[b]);
    vstd::seq_lib::to_multiset_update(s, a, s[b]);
    vstd::seq_lib::to_multiset_update(s1, b, s[a]);
    assert(s1[b] == s[b]);
    vstd::seq_lib::to_multiset_contains(s, s[a]);
    broadcast use vstd::multiset::group_multiset_axioms;
    assert(t.to_multiset() =~= s.to_multiset());
    assert forall|x: Pair| #[trigger] s.contains(x) <==> t.contains(x) by {
        if s.contains(x) {
            let p = choose|p: int| 0 <= p < s.len() && s[p] == x;
            if p == a {
                assert(t[b] == x);
            } else if p == b {
                assert(t[a] == x);
            } else {
                assert(t[p] == x);
            }
        }
        if t.contains(x) {
            let p = choose|p: int| 0 <= p < t.len() && t[p] == x;
            if p == b {
                assert(s[a] == x);
            } else if p == a {
                assert(s[b] == x);
            } else {
                assert(s[p] == x);
            }
        }
    }
}

} // verus!
