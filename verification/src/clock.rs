use vstd::prelude::*;

verus! {

/// Relies on chrono's `Local::now` and its `%Y-%m-%d` formatting: the
/// current local calendar date as text, year, month and day separated by
/// '-'. The value depends on the clock and the time zone, so only the
/// shape is promised: at least ten characters (the year is zero-padded to
/// four digits, month and day to two), with a '-' in it.
#[verifier::external_body]
pub(crate) fn today_string() -> (r: String)
    ensures
        r@.len() >= 10,
        exists|i: int| 0 <= i < r@.len() && r@[i] == '-',
{
    chrono::Local::now().format("%Y-%m-%d").to_string()
}

} // verus!
