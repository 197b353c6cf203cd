use vstd::prelude::*;

verus! {

/// Relies on chrono's `Local::now` and strftime-style formatting: the
/// current local time rendered at second granularity as `YYYYMMDD_HHMMSS`,
/// so that identifiers of later captures sort after earlier ones. The
/// result depends on the clock, so nothing is promised of its value.
#[verifier::external_body]
pub(crate) fn local_stamp() -> (r: String) {
    chrono::Local::now().format("%Y%m%d_%H%M%S").to_string()
}

/// Relies on chrono's `Local::now` and `DateTime::timestamp`: the current
/// time in whole seconds since the Unix epoch. The result depends on the
/// clock, so nothing is promised of its value.
#[verifier::external_body]
pub(crate) fn epoch_seconds() -> (r: i64) {
    chrono::Local::now().timestamp()
}

} // verus!
