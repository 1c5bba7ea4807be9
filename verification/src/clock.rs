//! Wall-clock readings, taken on trust.

use vstd::prelude::*;

verus! {

/// A date stamp: digits and dashes, at least as long as `YYYY-MM-DD`.
pub open spec fn date_stamp_wf(s: Seq<u8>) -> bool {
    &&& s.len() >= 10
    &&& forall|i: int| 0 <= i < s.len() ==> (48 <= #[trigger] s[i] <= 57 || s[i] == 45)
}

/// Relies on chrono's `Local::now`, `date_naive` and the `Datelike`
/// accessors: the local calendar date, zero-padded as `YYYY-MM-DD`.
#[verifier::external_body]
pub(crate) fn today_stamp() -> (r: Vec<u8>)
    ensures
        date_stamp_wf(r@),
{
    let now = chrono::Local::now().date_naive();
    format!(
        "{:04}-{:02}-{:02}",
        chrono::Datelike::year(&now),
        chrono::Datelike::month(&now),
        chrono::Datelike::day(&now),
    ).into_bytes()
}

} // verus!
