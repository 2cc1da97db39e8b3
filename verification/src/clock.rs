use vstd::prelude::*;

use crate::GitError;

verus! {

/// Relies on time::OffsetDateTime::now_local: the clock's seconds since the
/// Unix epoch, and the local offset's whole-hour and minute-past-hour
/// components. The offset type keeps hours in -25..=25 and minutes in
/// -59..=59, every component carrying the sign of the whole offset; nothing
/// can be promised about the clock reading itself.
#[verifier::external_body]
pub(crate) fn local_now() -> (r: Result<(i64, i8, i8), GitError>)
    ensures
        match r {
            Ok(t) => -25 <= t.1 <= 25 && -59 <= t.2 <= 59 && !(t.1 > 0 && t.2 < 0) && !(t.1 < 0
                && t.2 > 0),
            Err(e) => e == GitError::Io,
        },
{
    match time::OffsetDateTime::now_local() {
        Ok(t) => Ok((t.unix_timestamp(), t.offset().whole_hours(), t.offset().minutes_past_hour())),
        Err(_) => Err(GitError::Io),
    }
}

} // verus!
