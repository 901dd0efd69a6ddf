use vstd::prelude::*;
use vstd::string::StringSliceAdditionalSpecFns;
use crate::durations::{durations_ok, normalised_durations, shares_of};
use crate::indispensability::{all_distinct, rqq_to_indispensability_list, strata_fit};
use crate::interpolation::{total, BAR};
use crate::rqq::{gnsm_of, is_group, lex_from, parse_rqq, render, RqqError, RQQ};

verus! {

/// What the rest of the system needs of one metric structure written in RQQ
/// notation: its text, its strata and the rank of each beat.
#[derive(Debug)]
pub struct MetreData {
    pub string: String,
    /// Rank of each beat, 0 the most important.
    pub value: Vec<usize>,
    /// Stratum of each beat, the least nested highest.
    pub gnsm: Vec<usize>,
    /// Duration of each beat in millionths of the bar; they add up to one bar.
    pub durations: Vec<u64>,
    /// The largest rank.
    pub max: usize,
}

/// What a group needs for a metric structure: strata whose ranks can be
/// held, and durations that can be computed.
pub open spec fn metre_fits(t: RQQ) -> bool {
    strata_fit(gnsm_of(t)) && durations_ok(t)
}

/// The text writes a group, and every group it can be read as fits.
pub open spec fn parses(text: &str) -> bool {
    &&& exists|t| #[trigger] is_group(t) && lex_from(text.spec_bytes(), 0) == Some(render(t))
    &&& forall|t| #[trigger] is_group(t) && lex_from(text.spec_bytes(), 0) == Some(render(t)) ==> metre_fits(t)
}

/// What a metric structure built from `text` holds: it comes from a group
/// written by the text, with that group's strata and durations.
pub open spec fn built_from(m: MetreData, text: &str) -> bool {
    &&& m.string@ == text@
    &&& exists|t| #[trigger] is_group(t) && lex_from(text.spec_bytes(), 0) == Some(render(t))
        && gnsm_of(t) == Some(m.gnsm@) && m.durations@.len() == shares_of(t).len()
        && forall|i: int| 0 <= i < m.durations.len() ==> #[trigger] m.durations@[i] == shares_of(t)[i]
    &&& total(m.durations@) == BAR
    &&& m.durations.len() == m.gnsm.len()
    &&& m.value.len() == m.gnsm.len() && m.value.len() > 0
    &&& m.value[0] == 0 && all_distinct(m.value@)
    &&& forall|i: int| 0 <= i < m.value.len() ==> #[trigger] m.value[i] < m.value.len()
    &&& forall|i: int| 0 <= i < m.value.len() ==> #[trigger] m.value[i] <= m.max
    &&& m.value@.contains(m.max)
}

/// Parses RQQ text into a metric structure. It succeeds exactly on texts
/// that write a group whose strata and durations can be computed.
pub fn parse_input(text: &str) -> (r: Result<MetreData, RqqError>)
    ensures
        r is Ok ==> built_from(r->Ok_0, text),
        parses(text) ==> r is Ok,
        r == Err::<MetreData, RqqError>(RqqError::NotANumber) <==> lex_from(text.spec_bytes(), 0) is None,
        r == Err::<MetreData, RqqError>(RqqError::EmptyInput) <==> lex_from(text.spec_bytes(), 0) == Some(Seq::<crate::rqq::Token>::empty()),
{
    let rqq = match parse_rqq(text) {
        Ok(t) => t,
        Err(e) => {
            return Err(e);
        },
    };
    proof {
        if parses(text) {
            assert(metre_fits(rqq));
        }
    }
    let value = match rqq_to_indispensability_list(&rqq) {
        Ok(v) => v,
        Err(_) => {
            return Err(RqqError::TooLarge);
        },
    };
    let gnsm = match rqq.to_gnsm() {
        Ok(g) => g,
        Err(_) => {
            return Err(RqqError::TooLarge);
        },
    };
    let durations = match normalised_durations(&rqq) {
        Ok(d) => d,
        Err(e) => {
            return Err(if e == RqqError::ZeroLength { RqqError::ZeroLength } else { RqqError::TooLarge });
        },
    };
    let mut max: usize = value[0];
    let ghost mut at: int = 0;
    let mut i: usize = 1;
    while i < value.len()
        invariant
            1 <= i <= value.len(),
            0 <= at < value.len(),
            value[at] == max,
            forall|k: int| 0 <= k < i ==> #[trigger] value[k] <= max,
        decreases value.len() - i,
    {
        if value[i] > max {
            max = value[i];
            proof {
                at = i as int;
            }
        }
        i += 1;
    }
    let md = MetreData { string: text.to_owned(), value, gnsm, durations, max };
    proof {
        crate::durations::lemma_one_stratum_per_duration(rqq, 1, 1);
        assert(md.value@[at] == md.max);
        assert(md.value@.contains(md.max));
        assert(built_from(md, text));
    }
    Ok(md)
}

impl MetreData {
    /// Takes an edit of the RQQ text: a text that parses replaces this
    /// structure wholesale and `true` comes back; any other text leaves the
    /// structure as it was and gives `false`.
    pub fn update_from_text(&mut self, text: &str) -> (valid: bool)
        ensures
            !valid ==> *final(self) == *old(self),
            valid ==> built_from(*final(self), text),
            parses(text) ==> valid,
            lex_from(text.spec_bytes(), 0) is None ==> !valid,
    {
        match parse_input(text) {
            Ok(m) => {
                *self = m;
                true
            },
            Err(_) => false,
        }
    }
}

} // verus!
