use vstd::prelude::*;

verus! {

/// Calls `chrono::Utc::now` and `DateTime::to_rfc3339`: the current time as RFC 3339
/// text. It depends on the clock, so nothing is claimed of it.
#[verifier::external_body]
pub(crate) fn now_rfc3339() -> (r: String) {
    chrono::Utc::now().to_rfc3339()
}

} // verus!
