//! The time of the system clock.
use vstd::prelude::*;

verus! {

/// `SystemTime::elapsed` on the Unix epoch: the time since the epoch, in
/// milliseconds (zero for a clock set before it). Nothing is claimed of the
/// value: it is the time.
#[verifier::external_body]
pub(crate) fn now_millis() -> (t: u64) {
    match std::time::UNIX_EPOCH.elapsed() {
        Ok(d) => d.as_millis() as u64,
        Err(_) => 0,
    }
}

} // verus!
