use vstd::prelude::*;
use crate::interpolation::{total, BAR};
use crate::rqq::{as_fractions, durations_fit, durations_items, durations_of, gnsm_of, strata_items, strata_sublist, RqqError, RQQ};

verus! {

/// The sum of fractions `(numerator, denominator)`, added pairwise:
/// `a/b + c/d = (a*d + c*b) / (b*d)`.
pub open spec fn frac_sum(fr: Seq<(int, int)>) -> (int, int)
    decreases fr.len(),
{
    if fr.len() == 0 {
        (0, 1)
    } else {
        let p = frac_sum(fr.drop_last());
        let q = fr.last();
        (p.0 * q.1 + q.0 * p.1, p.1 * q.1)
    }
}

/// Where beat `k` starts, in millionths of the bar, rounded down: the share
/// of the beats before it in the whole.
pub open spec fn cut(fr: Seq<(int, int)>, k: int) -> int {
    let p = frac_sum(fr.subrange(0, k));
    let z = frac_sum(fr);
    (BAR * p.0 * z.1) / (p.1 * z.0)
}

/// The normalised duration of beat `i` in millionths of the bar: the
/// distance between its start and the next, so that the beats add up to
/// exactly one bar.
pub open spec fn running_share(fr: Seq<(int, int)>, i: int) -> int {
    cut(fr, i + 1) - cut(fr, i)
}

/// Every fraction has a positive denominator and a numerator of at least 0,
/// and they do not all vanish.
pub open spec fn proper_fractions(fr: Seq<(int, int)>) -> bool {
    &&& forall|i: int| 0 <= i < fr.len() ==> (#[trigger] fr[i]).1 > 0 && fr[i].0 >= 0
    &&& frac_sum(fr).0 > 0
}

/// A common multiple of the denominators: each one not yet dividing it is
/// multiplied in.
pub open spec fn common_den(fr: Seq<(int, int)>) -> int
    decreases fr.len(),
{
    if fr.len() == 0 {
        1
    } else {
        let d = common_den(fr.drop_last());
        let q = fr.last().1;
        if q != 0 && d % q == 0 { d } else { d * q }
    }
}

/// The numerators of `fr` summed over the common denominator `den`.
pub open spec fn scaled_total(fr: Seq<(int, int)>, den: int) -> int
    decreases fr.len(),
{
    if fr.len() == 0 {
        0
    } else {
        scaled_total(fr.drop_last(), den) + fr.last().0 * (den / fr.last().1)
    }
}

/// The products met while normalising fit in 128 bits.
pub open spec fn shares_fit(fr: Seq<(int, int)>) -> bool {
    &&& common_den(fr) <= 0xffff_ffff_ffff_ffff_ffff_ffff_ffff_ffff
    &&& BAR * scaled_total(fr, common_den(fr)) <= 0xffff_ffff_ffff_ffff_ffff_ffff_ffff_ffff
}

proof fn lemma_frac_den_pos(fr: Seq<(int, int)>)
    requires
        forall|i: int| 0 <= i < fr.len() ==> (#[trigger] fr[i]).1 > 0 && fr[i].0 >= 0,
    ensures
        frac_sum(fr).1 > 0,
        frac_sum(fr).0 >= 0,
    decreases fr.len(),
{
    if fr.len() > 0 {
        let f = fr.drop_last();
        assert forall|i: int| 0 <= i < f.len() implies (#[trigger] f[i]).1 > 0 && f[i].0 >= 0 by {
            assert(f[i] == fr[i]);
        }
        lemma_frac_den_pos(f);
        let p = frac_sum(f);
        let q = fr.last();
        assert(p.1 * q.1 > 0) by (nonlinear_arith)
            requires p.1 > 0, q.1 > 0;
        assert(p.0 * q.1 + q.0 * p.1 >= 0) by (nonlinear_arith)
            requires p.0 >= 0, q.1 > 0, q.0 >= 0, p.1 > 0;
    }
}

proof fn lemma_common_den_divides(fr: Seq<(int, int)>, i: int)
    requires
        0 <= i < fr.len(),
        forall|k: int| 0 <= k < fr.len() ==> (#[trigger] fr[k]).1 > 0,
    ensures
        common_den(fr) > 0,
        common_den(fr) % fr[i].1 == 0,
    decreases fr.len(),
{
    lemma_common_den_pos(fr);
    let f = fr.drop_last();
    assert forall|k: int| 0 <= k < f.len() implies (#[trigger] f[k]).1 > 0 by {
        assert(f[k] == fr[k]);
    }
    lemma_common_den_pos(f);
    let d = common_den(f);
    let q = fr.last().1;
    if i < fr.len() - 1 {
        lemma_common_den_divides(f, i);
        assert(f[i] == fr[i]);
        if !(d % q == 0) {
            assert((d * q) % fr[i].1 == 0) by {
                let di = fr[i].1;
                let m = d / di;
                vstd::arithmetic::div_mod::lemma_fundamental_div_mod(d, di);
                assert(d == di * m);
                assert(d * q == di * (m * q)) by (nonlinear_arith)
                    requires d == di * m;
                vstd::arithmetic::div_mod::lemma_mod_multiples_basic(m * q, di);
            }
        }
    } else {
        if !(d % q == 0) {
            vstd::arithmetic::div_mod::lemma_mod_multiples_basic(d, q);
            assert((d * q) == q * d) by (nonlinear_arith);
        }
    }
}

proof fn lemma_common_den_pos(fr: Seq<(int, int)>)
    requires
        forall|k: int| 0 <= k < fr.len() ==> (#[trigger] fr[k]).1 > 0,
    ensures
        common_den(fr) > 0,
    decreases fr.len(),
{
    if fr.len() > 0 {
        let f = fr.drop_last();
        assert forall|k: int| 0 <= k < f.len() implies (#[trigger] f[k]).1 > 0 by {
            assert(f[k] == fr[k]);
        }
        lemma_common_den_pos(f);
        let d = common_den(f);
        let q = fr.last().1;
        assert(d * q > 0) by (nonlinear_arith)
            requires d > 0, q > 0;
    }
}

/// Summing the fractions pairwise or over a common denominator `den`
/// gives the same value.
proof fn lemma_scaled_matches(fr: Seq<(int, int)>, den: int)
    requires
        den > 0,
        forall|i: int| 0 <= i < fr.len() ==> (#[trigger] fr[i]).1 > 0 && fr[i].0 >= 0 && den % fr[i].1 == 0,
    ensures
        frac_sum(fr).0 * den == scaled_total(fr, den) * frac_sum(fr).1,
        scaled_total(fr, den) >= 0,
    decreases fr.len(),
{
    if fr.len() > 0 {
        let f = fr.drop_last();
        assert forall|i: int| 0 <= i < f.len() implies (#[trigger] f[i]).1 > 0 && f[i].0 >= 0 && den % f[i].1 == 0 by {
            assert(f[i] == fr[i]);
        }
        lemma_scaled_matches(f, den);
        let p = frac_sum(f);
        let q = fr.last();
        let st = scaled_total(f, den);
        let m = den / q.1;
        vstd::arithmetic::div_mod::lemma_fundamental_div_mod(den, q.1);
        assert(den == q.1 * m);
        assert(m >= 0) by (nonlinear_arith)
            requires den == q.1 * m, den > 0, q.1 > 0;
        assert((p.0 * q.1 + q.0 * p.1) * den == p.0 * den * q.1 + q.0 * p.1 * den) by (nonlinear_arith);
        assert(p.0 * den * q.1 == st * p.1 * q.1) by (nonlinear_arith)
            requires p.0 * den == st * p.1;
        assert(q.0 * p.1 * den == q.0 * m * (p.1 * q.1)) by (nonlinear_arith)
            requires den == q.1 * m;
        assert((st + q.0 * m) * (p.1 * q.1) == st * p.1 * q.1 + q.0 * m * (p.1 * q.1)) by (nonlinear_arith);
        assert(q.0 * m >= 0) by (nonlinear_arith)
            requires q.0 >= 0, m >= 0;
    }
}

/// Equal fractions round down alike.
proof fn lemma_floor_cross(x: int, y: int, x2: int, y2: int)
    requires
        y > 0,
        y2 > 0,
        x >= 0,
        x2 >= 0,
        x * y2 == x2 * y,
    ensures
        x / y == x2 / y2,
{
    let q = x / y;
    vstd::arithmetic::div_mod::lemma_fundamental_div_mod(x, y);
    let r = x % y;
    assert(0 <= r < y);
    assert(q * y <= x < (q + 1) * y) by (nonlinear_arith)
        requires x == y * q + r, 0 <= r < y;
    assert(q * y * y2 <= x2 * y < (q + 1) * y * y2) by (nonlinear_arith)
        requires q * y <= x < (q + 1) * y, y2 > 0, x * y2 == x2 * y;
    assert(q * y2 <= x2 < (q + 1) * y2) by (nonlinear_arith)
        requires q * y * y2 <= x2 * y < (q + 1) * y * y2, y > 0;
    assert((q + 1) * y2 == q * y2 + y2) by (nonlinear_arith);
    vstd::arithmetic::div_mod::lemma_fundamental_div_mod_converse(x2, y2, q, x2 - q * y2);
}

/// A start, computed over the common denominator.
proof fn lemma_cut_scaled(fr: Seq<(int, int)>, k: int, den: int)
    requires
        0 <= k <= fr.len(),
        den > 0,
        proper_fractions(fr),
        forall|i: int| 0 <= i < fr.len() ==> den % (#[trigger] fr[i]).1 == 0,
    ensures
        scaled_total(fr, den) > 0,
        0 <= scaled_total(fr.subrange(0, k), den) <= scaled_total(fr, den),
        cut(fr, k) == (BAR * scaled_total(fr.subrange(0, k), den)) / scaled_total(fr, den),
{
    let sub = fr.subrange(0, k);
    assert forall|i: int| 0 <= i < sub.len() implies (#[trigger] sub[i]).1 > 0 && sub[i].0 >= 0 && den % sub[i].1 == 0 by {
        assert(sub[i] == fr[i]);
    }
    lemma_scaled_matches(sub, den);
    lemma_scaled_matches(fr, den);
    lemma_frac_den_pos(sub);
    lemma_frac_den_pos(fr);
    lemma_scaled_total_prefix(fr, k, den);
    let p = frac_sum(sub);
    let z = frac_sum(fr);
    let sk = scaled_total(sub, den);
    let zt = scaled_total(fr, den);
    assert(zt > 0) by (nonlinear_arith)
        requires z.0 * den == zt * z.1, z.0 > 0, den > 0, z.1 > 0;
    assert(p.1 * z.0 > 0) by (nonlinear_arith)
        requires p.1 > 0, z.0 > 0;
    assert(BAR * p.0 * z.1 >= 0) by (nonlinear_arith)
        requires p.0 >= 0, z.1 > 0;
    assert(BAR * sk >= 0);
    assert((BAR * p.0 * z.1) * zt * den == BAR * z.1 * zt * (p.0 * den)) by (nonlinear_arith);
    assert((BAR * sk) * (p.1 * z.0) * den == BAR * sk * p.1 * (z.0 * den)) by (nonlinear_arith);
    assert(BAR * z.1 * zt * (sk * p.1) == BAR * sk * p.1 * (zt * z.1)) by (nonlinear_arith);
    assert((BAR * p.0 * z.1) * zt * den == (BAR * sk) * (p.1 * z.0) * den);
    assert((BAR * p.0 * z.1) * zt == (BAR * sk) * (p.1 * z.0)) by (nonlinear_arith)
        requires (BAR * p.0 * z.1) * zt * den == (BAR * sk) * (p.1 * z.0) * den, den > 0;
    lemma_floor_cross(BAR * p.0 * z.1, p.1 * z.0, BAR * sk, zt);
}

proof fn lemma_scaled_total_prefix(fr: Seq<(int, int)>, k: int, den: int)
    requires
        0 <= k <= fr.len(),
        den > 0,
        forall|i: int| 0 <= i < fr.len() ==> (#[trigger] fr[i]).1 > 0 && fr[i].0 >= 0,
    ensures
        0 <= scaled_total(fr.subrange(0, k), den) <= scaled_total(fr, den),
    decreases fr.len() - k,
{
    if k < fr.len() {
        lemma_scaled_total_prefix(fr, k + 1, den);
        let sub = fr.subrange(0, k + 1);
        assert(sub.drop_last() =~= fr.subrange(0, k));
        let q = sub.last();
        assert(q == fr[k]);
        assert(den / q.1 >= 0) by (nonlinear_arith)
            requires den > 0, q.1 > 0;
        assert(q.0 * (den / q.1) >= 0) by (nonlinear_arith)
            requires q.0 >= 0, den / q.1 >= 0;
        let f = fr.subrange(0, k);
        assert forall|i: int| 0 <= i < f.len() implies (#[trigger] f[i]).1 > 0 && f[i].0 >= 0 by {
            assert(f[i] == fr[i]);
        }
        lemma_scaled_total_nonneg(f, den);
    } else {
        assert(fr.subrange(0, k) =~= fr);
        lemma_scaled_total_nonneg(fr, den);
    }
}

proof fn lemma_scaled_total_nonneg(fr: Seq<(int, int)>, den: int)
    requires
        den > 0,
        forall|i: int| 0 <= i < fr.len() ==> (#[trigger] fr[i]).1 > 0 && fr[i].0 >= 0,
    ensures
        scaled_total(fr, den) >= 0,
    decreases fr.len(),
{
    if fr.len() > 0 {
        let f = fr.drop_last();
        assert forall|i: int| 0 <= i < f.len() implies (#[trigger] f[i]).1 > 0 && f[i].0 >= 0 by {
            assert(f[i] == fr[i]);
        }
        lemma_scaled_total_nonneg(f, den);
        let q = fr.last();
        assert(den / q.1 >= 0) by (nonlinear_arith)
            requires den > 0, q.1 > 0;
        assert(q.0 * (den / q.1) >= 0) by (nonlinear_arith)
            requires q.0 >= 0, den / q.1 >= 0;
    }
}

proof fn lemma_common_den_prefix(fr: Seq<(int, int)>, k: int)
    requires
        0 <= k <= fr.len(),
        forall|i: int| 0 <= i < fr.len() ==> (#[trigger] fr[i]).1 > 0,
    ensures
        0 < common_den(fr.subrange(0, k)) <= common_den(fr),
    decreases fr.len() - k,
{
    if k < fr.len() {
        lemma_common_den_prefix(fr, k + 1);
        let sub = fr.subrange(0, k + 1);
        assert(sub.drop_last() =~= fr.subrange(0, k));
        let f = fr.subrange(0, k);
        assert forall|i: int| 0 <= i < f.len() implies (#[trigger] f[i]).1 > 0 by {
            assert(f[i] == fr[i]);
        }
        lemma_common_den_pos(f);
        let d = common_den(f);
        let q = sub.last().1;
        assert(q == fr[k].1);
        assert(d <= d * q) by (nonlinear_arith)
            requires d > 0, q > 0;
    } else {
        assert(fr.subrange(0, k) =~= fr);
        lemma_common_den_pos(fr);
    }
}

/// Turns leaf durations (fractions) into durations in millionths of the
/// bar, rounding each start down so that they add up to exactly one bar.
/// It succeeds whenever every denominator is positive, the durations do not
/// all vanish, and the products fit in 128 bits.
pub fn normalise_shares(fr: &Vec<(u128, u128)>) -> (r: Result<Vec<u64>, RqqError>)
    ensures
        r is Ok ==> proper_fractions(as_fractions(fr@)),
        r is Ok ==> r->Ok_0.len() == fr.len() && total(r->Ok_0@) == BAR,
        r is Ok ==> forall|i: int| 0 <= i < fr.len() ==> #[trigger] r->Ok_0@[i] == running_share(as_fractions(fr@), i),
        proper_fractions(as_fractions(fr@)) && shares_fit(as_fractions(fr@)) ==> r is Ok,
        r == Err::<Vec<u64>, RqqError>(RqqError::ZeroLength) ==> !proper_fractions(as_fractions(fr@)),
{
    let ghost f = as_fractions(fr@);
    let mut i: usize = 0;
    while i < fr.len()
        invariant
            i <= fr.len(),
            f == as_fractions(fr@),
            forall|k: int| 0 <= k < i ==> (#[trigger] f[k]).1 > 0,
        decreases fr.len() - i,
    {
        if fr[i].1 == 0 {
            assert(f[i as int].1 == 0);
            return Err(RqqError::ZeroLength);
        }
        i += 1;
    }
    let mut den: u128 = 1;
    let mut i: usize = 0;
    proof {
        assert(f.subrange(0, 0) =~= Seq::<(int, int)>::empty());
    }
    while i < fr.len()
        invariant
            i <= fr.len(),
            f == as_fractions(fr@),
            forall|k: int| 0 <= k < fr.len() ==> (#[trigger] f[k]).1 > 0,
            den == common_den(f.subrange(0, i as int)),
        decreases fr.len() - i,
    {
        let q = fr[i].1;
        proof {
            assert(f.subrange(0, i + 1).drop_last() =~= f.subrange(0, i as int));
            assert(f.subrange(0, i + 1).last() == f[i as int]);
            lemma_common_den_prefix(f, i + 1);
        }
        if den % q != 0 {
            den = match den.checked_mul(q) {
                Some(d) => d,
                None => {
                    return Err(RqqError::TooLarge);
                },
            };
        }
        i += 1;
    }
    proof {
        assert(f.subrange(0, fr.len() as int) =~= f);
        lemma_common_den_pos(f);
        assert forall|k: int| 0 <= k < f.len() implies (#[trigger] f[k]).1 > 0 && f[k].0 >= 0 && (den as int) % f[k].1 == 0 by {
            lemma_common_den_divides(f, k);
        }
        lemma_scaled_matches(f, den as int);
        lemma_frac_den_pos(f);
    }
    let mut z: u128 = 0;
    let mut i: usize = 0;
    proof {
        assert(f.subrange(0, 0) =~= Seq::<(int, int)>::empty());
    }
    while i < fr.len()
        invariant
            i <= fr.len(),
            f == as_fractions(fr@),
            den == common_den(f),
            den > 0,
            forall|k: int| 0 <= k < f.len() ==> (#[trigger] f[k]).1 > 0 && f[k].0 >= 0 && (den as int) % f[k].1 == 0,
            z == scaled_total(f.subrange(0, i as int), den as int),
        decreases fr.len() - i,
    {
        proof {
            assert(f.subrange(0, i + 1).drop_last() =~= f.subrange(0, i as int));
            assert(f.subrange(0, i + 1).last() == f[i as int]);
            lemma_scaled_total_prefix(f, i + 1, den as int);
        }
        let m = den / fr[i].1;
        let term = match fr[i].0.checked_mul(m) {
            Some(t) => t,
            None => {
                proof {
                    assert(fr[i as int].0 * m >= 0) by (nonlinear_arith);
                }
                return Err(RqqError::TooLarge);
            },
        };
        z = match z.checked_add(term) {
            Some(x) => x,
            None => {
                return Err(RqqError::TooLarge);
            },
        };
        i += 1;
    }
    proof {
        assert(f.subrange(0, fr.len() as int) =~= f);
    }
    if z == 0 {
        proof {
            assert(frac_sum(f).0 * den == 0);
            assert(frac_sum(f).0 == 0) by (nonlinear_arith)
                requires frac_sum(f).0 * den == 0, den > 0;
        }
        return Err(RqqError::ZeroLength);
    }
    proof {
        assert(frac_sum(f).0 > 0) by (nonlinear_arith)
            requires frac_sum(f).0 * den == z * frac_sum(f).1, z > 0, den > 0, frac_sum(f).1 > 0;
        assert(proper_fractions(f));
    }
    let bz = match z.checked_mul(BAR as u128) {
        Some(x) => x,
        None => {
            return Err(RqqError::TooLarge);
        },
    };
    let mut out: Vec<u64> = Vec::with_capacity(fr.len());
    let mut s: u128 = 0;
    let mut prev: u128 = 0;
    let mut i: usize = 0;
    proof {
        assert(f.subrange(0, 0) =~= Seq::<(int, int)>::empty());
        lemma_cut_scaled(f, 0, den as int);
        assert(out@ =~= Seq::<u64>::empty());
    }
    while i < fr.len()
        invariant
            i <= fr.len(),
            f == as_fractions(fr@),
            den == common_den(f),
            den > 0,
            z > 0,
            bz == z * BAR,
            proper_fractions(f),
            forall|k: int| 0 <= k < f.len() ==> (#[trigger] f[k]).1 > 0 && f[k].0 >= 0 && (den as int) % f[k].1 == 0,
            z == scaled_total(f, den as int),
            s == scaled_total(f.subrange(0, i as int), den as int),
            prev == cut(f, i as int),
            prev <= BAR,
            out.len() == i,
            total(out@) == prev,
            forall|k: int| 0 <= k < i ==> #[trigger] out@[k] == running_share(f, k),
        decreases fr.len() - i,
    {
        proof {
            assert(f.subrange(0, i + 1).drop_last() =~= f.subrange(0, i as int));
            assert(f.subrange(0, i + 1).last() == f[i as int]);
            lemma_cut_scaled(f, i + 1, den as int);
            lemma_cut_scaled(f, i as int, den as int);
        }
        let m = den / fr[i].1;
        proof {
            assert(fr[i as int].0 * m >= 0) by (nonlinear_arith);
        }
        let term = fr[i].0 * m;
        s = s + term;
        proof {
            assert(s == scaled_total(f.subrange(0, i + 1), den as int));
            assert(s <= z);
            assert(s * BAR <= z * BAR) by (nonlinear_arith)
                requires s <= z;
            assert(BAR * s <= BAR * z) by (nonlinear_arith)
                requires s <= z;
            assert(BAR * (s - term) <= BAR * s) by (nonlinear_arith)
                requires term >= 0;
            vstd::arithmetic::div_mod::lemma_div_is_ordered(BAR * (s - term), BAR * s, z as int);
            vstd::arithmetic::div_mod::lemma_div_is_ordered(BAR * s, BAR * z, z as int);
            vstd::arithmetic::div_mod::lemma_div_multiples_vanish(BAR as int, z as int);
            assert((z * BAR) / (z as int) == BAR) by (nonlinear_arith)
                requires (z * BAR) / (z as int) == (z as int * BAR) / (z as int), z > 0;
        }
        let c = (s * BAR as u128) / z;
        let ghost before = out@;
        out.push((c - prev) as u64);
        proof {
            assert(out@.drop_last() =~= before);
        }
        prev = c;
        i += 1;
    }
    proof {
        assert(f.subrange(0, fr.len() as int) =~= f);
        lemma_cut_scaled(f, fr.len() as int, den as int);
        vstd::arithmetic::div_mod::lemma_div_multiples_vanish(BAR as int, z as int);
    }
    Ok(out)
}

/// The durations of a group's leaves in millionths of the bar, adding up to
/// exactly one bar.
pub open spec fn shares_of(t: RQQ) -> Seq<int> {
    let d = durations_of(t, 1, 1)->Some_0;
    Seq::new(d.len(), |i: int| running_share(d, i))
}

/// The leaf durations of `t` can be computed and normalised.
pub open spec fn durations_ok(t: RQQ) -> bool {
    &&& durations_of(t, 1, 1) is Some
    &&& durations_fit(t, 1, 1)
    &&& proper_fractions(durations_of(t, 1, 1)->Some_0)
    &&& shares_fit(durations_of(t, 1, 1)->Some_0)
}

/// The durations of a group's leaves in millionths of the bar: each leaf's
/// share of the whole, starts rounded down, adding up to exactly one bar.
pub fn normalised_durations(t: &RQQ) -> (r: Result<Vec<u64>, RqqError>)
    ensures
        r is Ok ==> durations_of(*t, 1, 1) is Some,
        r is Ok ==> total(r->Ok_0@) == BAR,
        r is Ok ==> r->Ok_0@.len() == shares_of(*t).len()
            && forall|i: int| 0 <= i < r->Ok_0.len() ==> #[trigger] r->Ok_0@[i] == shares_of(*t)[i],
        durations_ok(*t) ==> r is Ok,
{
    let fr = match t.to_durations(1, 1) {
        Ok(fr) => fr,
        Err(e) => {
            return Err(e);
        },
    };
    normalise_shares(&fr)
}

/// Strata and durations both give one entry per leaf.
proof fn lemma_leaf_count_items(items: Seq<RQQ>, lvl: usize, pn: int, pd: int)
    requires
        strata_items(items, lvl) is Some,
        durations_items(items, pn, pd) is Some,
    ensures
        strata_items(items, lvl)->Some_0.len() == durations_items(items, pn, pd)->Some_0.len(),
    decreases items,
{
    if items.len() > 0 {
        let front = items.subrange(0, items.len() - 1);
        let last = items[items.len() - 1];
        assert(strata_items(front, lvl) is Some);
        assert(durations_items(front, pn, pd) is Some);
        assert(durations_of(last, pn, pd) is Some);
        lemma_leaf_count_items(front, lvl, pn, pd);
        match last {
            RQQ::Elem(_) => {},
            RQQ::List(v) => {
                assert(strata_sublist(v@[1], (lvl + 1) as usize) is Some);
                if let RQQ::List(inner) = v@[1] {
                    if let RQQ::Elem(total) = v@[0] {
                        assert(strata_items(inner@, (lvl + 1) as usize) is Some);
                        assert(decreases_to!(items => last));
                        let npn = pn * crate::rqq::num_divisions(inner@) * crate::rqq::pow10(total.decimals as nat);
                        let npd = pd * crate::rqq::pow10(crate::rqq::div_decimals(inner@)) * total.mantissa;
                        assert(durations_items(inner@, npn, npd) is Some);
                        lemma_leaf_count_items(inner@, (lvl + 1) as usize, npn, npd);
                    }
                }
            },
        }
    }
}

/// A group has as many strata as leaf durations.
pub proof fn lemma_one_stratum_per_duration(t: RQQ, pn: int, pd: int)
    requires
        gnsm_of(t) is Some,
        durations_of(t, pn, pd) is Some,
    ensures
        gnsm_of(t)->Some_0.len() == durations_of(t, pn, pd)->Some_0.len(),
{
    if let RQQ::List(v) = t {
        if let RQQ::List(items) = v@[1] {
            if let RQQ::Elem(total) = v@[0] {
                lemma_leaf_count_items(items@, 1, pn * crate::rqq::num_divisions(items@) * crate::rqq::pow10(total.decimals as nat),
                    pd * crate::rqq::pow10(crate::rqq::div_decimals(items@)) * total.mantissa);
            }
        }
    }
}

/// Each leaf duration, the parent lasting `c` times longer: the numerator
/// kept, the denominator multiplied by `c`.
pub open spec fn scaled_by(fr: Seq<(int, int)>, c: int) -> Seq<(int, int)> {
    Seq::new(fr.len(), |i: int| (fr[i].0, fr[i].1 * c))
}

/// A parent lasting `c` times longer makes every leaf last `c` times less:
/// `durations_of(t, c * pn, pd)` is `durations_of(t, pn, pd)` with each
/// denominator multiplied by `c`.
pub proof fn lemma_durations_scale(t: RQQ, pn: int, pd: int, c: int)
    ensures
        durations_of(t, c * pn, pd) is Some <==> durations_of(t, pn, pd) is Some,
        durations_of(t, pn, pd) is Some ==> durations_of(t, c * pn, pd)->Some_0 == scaled_by(durations_of(t, pn, pd)->Some_0, c),
    decreases t,
{
    match t {
        RQQ::Elem(w) => {
            assert(c * pn * crate::rqq::pow10(w.decimals as nat) == pn * crate::rqq::pow10(w.decimals as nat) * c) by (nonlinear_arith);
            assert(durations_of(t, c * pn, pd)->Some_0 =~= scaled_by(durations_of(t, pn, pd)->Some_0, c));
        },
        RQQ::List(v) => {
            if v.len() >= 2 {
                if let RQQ::List(items) = v@[1] {
                    if let RQQ::Elem(total) = v@[0] {
                        let k = crate::rqq::num_divisions(items@) * crate::rqq::pow10(total.decimals as nat);
                        let npd = pd * crate::rqq::pow10(crate::rqq::div_decimals(items@)) * total.mantissa;
                        assert(c * pn * crate::rqq::num_divisions(items@) * crate::rqq::pow10(total.decimals as nat)
                            == c * (pn * crate::rqq::num_divisions(items@) * crate::rqq::pow10(total.decimals as nat))) by (nonlinear_arith);
                        assert(decreases_to!(t => items@));
                        lemma_items_scale(items@, pn * crate::rqq::num_divisions(items@) * crate::rqq::pow10(total.decimals as nat), npd, c);
                    }
                }
            }
        },
    }
}

proof fn lemma_items_scale(items: Seq<RQQ>, pn: int, pd: int, c: int)
    ensures
        durations_items(items, c * pn, pd) is Some <==> durations_items(items, pn, pd) is Some,
        durations_items(items, pn, pd) is Some ==> durations_items(items, c * pn, pd)->Some_0
            == scaled_by(durations_items(items, pn, pd)->Some_0, c),
    decreases items,
{
    if items.len() == 0 {
        assert(scaled_by(Seq::<(int, int)>::empty(), c) =~= Seq::<(int, int)>::empty());
    } else {
        let front = items.subrange(0, items.len() - 1);
        let last = items[items.len() - 1];
        lemma_items_scale(front, pn, pd, c);
        lemma_durations_scale(last, pn, pd, c);
        if durations_items(items, pn, pd) is Some {
            let f = durations_items(front, pn, pd)->Some_0;
            let b = durations_of(last, pn, pd)->Some_0;
            assert(scaled_by(f + b, c) =~= scaled_by(f, c) + scaled_by(b, c));
        }
    }
}

} // verus!
