//! Which process to stop, where numbers of processes have no sign.
use crate::server::pid::{pid_in, read_pid, PidError};
use vstd::prelude::*;

verus! {

/// The number of the daemon's process. Zero is refused.
pub fn positive_pid(value: &str) -> (r: Result<u32, PidError>)
    ensures
        match r {
            Ok(pid) => pid > 0 && pid_in(value@, u32::MAX as nat, false) == Ok::<nat, PidError>(
                pid as nat,
            ),
            Err(e) => pid_in(value@, u32::MAX as nat, false) == Err::<nat, PidError>(e),
        },
{
    match read_pid(value, u32::MAX as u64, false) {
        Ok(n) => Ok(n as u32),
        Err(e) => Err(e),
    }
}

} // verus!
