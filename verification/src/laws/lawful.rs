//! What every production keeps to.
use vstd::prelude::*;

use crate::error::Expected;
use crate::grammar::{Flow, Snapshot};

use super::ledger::{follows, lemma_follows, lemma_follows_refl, lemma_follows_trans, tidy};

verus! {

/// `after` is what is left of `before` once all tokens are used and the end has been reported.
#[verifier::opaque]
pub open spec fn ran_out<'de>(before: Snapshot<'de>, after: Snapshot<'de>) -> bool {
    exists|last: Snapshot<'de>, expected: Expected|
        follows(before, last) && last.at_end() && expected != Expected::Nothing && after
            == #[trigger] last.miss(expected)
}

/// What every production keeps to.
///
/// - Each token that it uses becomes a leaf or is reported. The end of the input is reported
///   where it runs out of tokens, and nowhere else.
/// - One that fails reports an error.
/// - It leaves an error node only if it reports an error.
pub open spec fn lawful<'de>(before: Snapshot<'de>, result: (Flow, Snapshot<'de>)) -> bool {
    &&& match result.0 {
        Flow::Eof => ran_out(before, result.1),
        _ => follows(before, result.1),
    }
    &&& result.0 is Failed ==> result.1.errs.len() > before.errs.len()
    &&& tidy(before, result.1)
}

/// The production uses a token, unless it runs out of tokens.
pub open spec fn moves<'de>(before: Snapshot<'de>, result: (Flow, Snapshot<'de>)) -> bool {
    result.0 is Done || result.0 is Failed ==> result.1.ahead_of(before)
}

pub broadcast proof fn lemma_ran_out<'de>(before: Snapshot<'de>, after: Snapshot<'de>)
    requires
        #[trigger] ran_out(before, after),
    ensures
        after.at_end(),
        after.errs.len() > before.errs.len(),
{
    reveal(ran_out);
    let (last, expected) = choose|last: Snapshot<'de>, expected: Expected|
        follows(before, last) && last.at_end() && expected != Expected::Nothing && after
            == #[trigger] last.miss(expected);
    lemma_follows(before, last);
}

pub broadcast proof fn lemma_ran_out_after<'de>(
    before: Snapshot<'de>,
    between: Snapshot<'de>,
    after: Snapshot<'de>,
)
    requires
        #[trigger] follows(before, between),
        #[trigger] ran_out(between, after),
    ensures
        ran_out(before, after),
{
    reveal(ran_out);
    let (last, expected) = choose|last: Snapshot<'de>, expected: Expected|
        follows(between, last) && last.at_end() && expected != Expected::Nothing && after
            == #[trigger] last.miss(expected);
    lemma_follows_trans(before, between, last);
}

pub broadcast proof fn lemma_ran_out_miss<'de>(s: Snapshot<'de>, expected: Expected)
    requires
        s.at_end(),
        expected != Expected::Nothing,
    ensures
        #![trigger s.miss(expected)]
        ran_out(s, s.miss(expected)),
{
    reveal(ran_out);
    lemma_follows_refl(s);
}

pub broadcast group group_lawful {
    lemma_ran_out,
    lemma_ran_out_after,
    lemma_ran_out_miss,
}

} // verus!
