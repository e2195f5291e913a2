use vstd::prelude::*;

verus! {

/// Relies on chrono's `Local::now` and its `%Y%m%d` formatting: today's local
/// date as text. The value depends on the clock, so nothing is stated of it.
#[verifier::external_body]
pub(crate) fn local_date_stamp() -> String {
    chrono::Local::now().format("%Y%m%d").to_string()
}

} // verus!
