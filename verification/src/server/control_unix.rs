//! Which process to stop, where numbers of processes are signed.
use crate::server::pid::{pid_in, read_pid, PidError};
use vstd::prelude::*;

verus! {

/// The number of the daemon's process. Zero and negative numbers, which stand
/// for groups of processes, are refused.
pub fn positive_pid(value: &str) -> (r: Result<i32, PidError>)
    ensures
        match r {
            Ok(pid) => pid > 0 && pid_in(value@, i32::MAX as nat, true) == Ok::<nat, PidError>(
                pid as nat,
            ),
            Err(e) => pid_in(value@, i32::MAX as nat, true) == Err::<nat, PidError>(e),
        },
{
    match read_pid(value, i32::MAX as u64, true) {
        Ok(n) => Ok(n as i32),
        Err(e) => Err(e),
    }
}

} // verus!
