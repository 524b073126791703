//! The command line of the helper that the server runs in.
use crate::query::ast::texts;
use crate::server::protocol::PROTOCOL_VERSION;
use crate::text::{decimal_text, number_text};
use vstd::prelude::*;

verus! {

/// The arguments of the helper: the versions of the one that starts it, what it
/// is to do, and whether it is to watch files.
pub open spec fn helper_arguments(version: Seq<char>, action: Seq<char>, watch: bool) -> Seq<
    Seq<char>,
> {
    let base = seq![
        "--launcher-version"@,
        version,
        "--launcher-protocol"@,
        decimal_text(PROTOCOL_VERSION as nat),
        action,
    ];
    if watch {
        base.push("--watch"@)
    } else {
        base
    }
}

/// The arguments of the helper.
pub fn helper_command(version: &str, action: &str, watch: bool) -> (r: Vec<String>)
    ensures
        texts(r@) == helper_arguments(version@, action@, watch),
{
    let mut out: Vec<String> = Vec::new();
    out.push("--launcher-version".to_owned());
    out.push(version.to_owned());
    out.push("--launcher-protocol".to_owned());
    out.push(number_text(PROTOCOL_VERSION as u64));
    out.push(action.to_owned());
    if watch {
        out.push("--watch".to_owned());
    }
    assert(texts(out@) =~= helper_arguments(version@, action@, watch));
    out
}

} // verus!
