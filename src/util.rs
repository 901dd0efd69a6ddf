use vstd::prelude::*;
use crate::interpolation::{lemma_total_prefix, total, BAR};

verus! {

/// Why a value cannot be rescaled.
#[derive(Debug, Clone, Copy, PartialEq, Eq, Structural)]
pub enum RescaleError {
    /// `min >= max` or `new_min >= new_max`.
    InvalidRange,
    /// The value lies outside `min..=max` and clamping is off.
    OutOfRange,
}

/// `val` moved from `min..=max` to `new_min..=new_max`, rounded down.
pub open spec fn rescaled(val: int, min: int, max: int, new_min: int, new_max: int) -> int {
    new_min + ((val - min) * (new_max - new_min)) / (max - min)
}

/// Given a value within a source range, returns its value within a target
/// range (rounded down). Out of range values are clamped when
/// `clamp_out_of_range` is set, and refused otherwise.
pub fn rescale(val: i64, min: i64, max: i64, new_min: i64, new_max: i64, clamp_out_of_range: bool) -> (r: Result<i64, RescaleError>)
    ensures
        (min >= max || new_min >= new_max) <==> r == Err::<i64, RescaleError>(RescaleError::InvalidRange),
        (min < max && new_min < new_max && (val < min || val > max) && !clamp_out_of_range)
            <==> r == Err::<i64, RescaleError>(RescaleError::OutOfRange),
        r is Ok ==> r->Ok_0 == rescaled(if val < min { min as int } else if val > max { max as int } else { val as int },
            min as int, max as int, new_min as int, new_max as int),
        r is Ok ==> new_min <= r->Ok_0 <= new_max,
        r is Ok <==> (min < max && new_min < new_max && (clamp_out_of_range || (min <= val && val <= max))),
{
    if min >= max || new_min >= new_max {
        return Err(RescaleError::InvalidRange);
    }
    let mut v = val;
    if val < min || val > max {
        if clamp_out_of_range {
            v = if val <= min { min } else { max };
        } else {
            return Err(RescaleError::OutOfRange);
        }
    }
    let range1: u128 = (max as i128 - min as i128) as u128;
    let range2: u128 = (new_max as i128 - new_min as i128) as u128;
    let offset: u128 = (v as i128 - min as i128) as u128;
    proof {
        assert(offset * range2 <= range1 * range2) by (nonlinear_arith)
            requires offset <= range1;
        assert(range1 * range2 < 0x1_0000_0000_0000_0000_0000_0000_0000_0000) by (nonlinear_arith)
            requires range1 < 0x1_0000_0000_0000_0000, range2 < 0x1_0000_0000_0000_0000;
    }
    let scaled: u128 = offset * range2 / range1;
    proof {
        assert(scaled <= range2) by (nonlinear_arith)
            requires scaled as int == (offset as int * range2 as int) / (range1 as int), offset <= range1, range1 > 0;
    }
    let out = (new_min as i128 + scaled as i128) as i64;
    Ok(out)
}

/// The sum of the first `n` weights.
pub open spec fn prefix(w: Seq<u64>, n: int) -> int {
    total(w.subrange(0, n))
}

/// The first index whose cumulative weight exceeds `selector`, the last one
/// when none does.
pub open spec fn decided(selector: int, w: Seq<u64>, i: int) -> bool {
    &&& 0 <= i < w.len()
    &&& (selector < prefix(w, i + 1) || i == w.len() - 1)
    &&& forall|j: int| 0 <= j < i ==> selector >= #[trigger] prefix(w, j + 1)
}

/// Walks the weights, accumulating them, until the running sum exceeds
/// `selector`.
pub fn decider_aux(selector: u64, weights: &Vec<u64>) -> (r: usize)
    requires
        weights.len() > 0,
        total(weights@) <= u64::MAX,
    ensures
        decided(selector as int, weights@, r as int),
{
    let mut index: usize = 0;
    let mut sum: u64 = weights[0];
    proof {
        assert(weights@.subrange(0, 1).drop_last() =~= weights@.subrange(0, 0));
        assert(weights@.subrange(0, 0) =~= Seq::<u64>::empty());
        assert(weights@.subrange(0, 1).last() == weights@[0]);
        assert(total(weights@.subrange(0, 0)) == 0);
        assert(total(weights@.subrange(0, 1)) == total(weights@.subrange(0, 1).drop_last()) + weights@.subrange(0, 1).last());
        assert(prefix(weights@, 1) == weights@[0]);
        lemma_total_prefix(weights@, 1);
    }
    while index + 1 < weights.len() && selector >= sum
        invariant
            index < weights.len(),
            total(weights@) <= u64::MAX,
            sum == prefix(weights@, index + 1),
            forall|j: int| 0 <= j < index ==> selector >= #[trigger] prefix(weights@, j + 1),
        decreases weights.len() - index,
    {
        proof {
            assert(weights@.subrange(0, index + 2).drop_last() =~= weights@.subrange(0, index + 1));
            lemma_total_prefix(weights@, index + 2);
        }
        sum = sum + weights[index + 1];
        index += 1;
    }
    index
}

/// Given a selector in millionths (`0..=BAR` standing for 0.0 to 1.0) and a
/// list of weights, returns the index at that position of the cumulative
/// distribution the weights define. Fails where the weights sum to 0 (an
/// empty list among them) or the selector is out of range.
pub fn decider(selector: u64, weights: &Vec<u64>) -> (r: Result<usize, RescaleError>)
    requires
        total(weights@) <= i64::MAX,
    ensures
        total(weights@) == 0 <==> r == Err::<usize, RescaleError>(RescaleError::InvalidRange),
        (total(weights@) > 0 && selector > BAR) <==> r == Err::<usize, RescaleError>(RescaleError::OutOfRange),
        r is Ok ==> decided(selector * total(weights@) / (BAR as int), weights@, r->Ok_0 as int),
        r is Ok <==> (total(weights@) > 0 && selector <= BAR),
{
    let mut sum: u64 = 0;
    let mut i: usize = 0;
    proof {
        assert(weights@.subrange(0, 0) =~= Seq::<u64>::empty());
    }
    while i < weights.len()
        invariant
            i <= weights.len(),
            total(weights@) <= i64::MAX,
            sum == prefix(weights@, i as int),
        decreases weights.len() - i,
    {
        proof {
            assert(weights@.subrange(0, i + 1).drop_last() =~= weights@.subrange(0, i as int));
            lemma_total_prefix(weights@, i + 1);
        }
        sum = sum + weights[i];
        i += 1;
    }
    proof {
        assert(weights@.subrange(0, weights.len() as int) =~= weights@);
    }
    if selector > i64::MAX as u64 {
        return if sum == 0 { Err(RescaleError::InvalidRange) } else { Err(RescaleError::OutOfRange) };
    }
    let scaled = match rescale(selector as i64, 0, BAR as i64, 0, sum as i64, false) {
        Ok(s) => s,
        Err(e) => {
            return Err(e);
        },
    };
    if weights.len() == 0 {
        proof {
            assert(weights@ =~= Seq::<u64>::empty());
        }
        return Err(RescaleError::InvalidRange);
    }
    Ok(decider_aux(scaled as u64, weights))
}

} // verus!
