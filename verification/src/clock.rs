//! The one place where the library reads the clock.

use vstd::prelude::*;

verus! {

/// Relies on chrono's `Local::now` and `DateTime::to_rfc2822`: the present
/// moment, formatted as an RFC 2822 string. The result depends on the clock,
/// so nothing is promised of it.
#[verifier::external_body]
pub(crate) fn now_rfc2822() -> String {
    chrono::Local::now().to_rfc2822()
}

} // verus!
