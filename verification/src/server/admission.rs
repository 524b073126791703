//! Bounds on searches that run at the same time.
use crate::server::protocol::{Request, Response, SEARCH_OVERLOADED_PREFIX};
use crate::text::{chars_of, digits_from, integer, parse_digits};
use vstd::prelude::*;

verus! {

/// Room for a number of holders at a time. Nobody waits for room.
#[derive(Debug, Clone, Copy, PartialEq, Eq, Structural)]
pub struct Admission {
    pub limit: usize,
    pub active: usize,
}

impl Admission {
    /// There are no more holders than there is room for.
    pub open spec fn wf(&self) -> bool {
        self.limit > 0 && self.active <= self.limit
    }

    /// Room for `limit` holders.
    pub fn new(limit: usize) -> (r: Admission)
        requires
            limit > 0,
        ensures
            r.wf(),
            r.limit == limit,
            r.active == 0,
    {
        Admission { limit, active: 0 }
    }

    /// Takes one place, if there is one.
    pub fn try_acquire(&mut self) -> (r: bool)
        requires
            old(self).wf(),
        ensures
            final(self).wf(),
            final(self).limit == old(self).limit,
            r == (old(self).active < old(self).limit),
            final(self).active == if r {
                old(self).active + 1
            } else {
                old(self).active as int
            },
    {
        if self.active < self.limit {
            self.active += 1;
            true
        } else {
            false
        }
    }

    /// Gives one place back.
    pub fn release(&mut self)
        requires
            old(self).wf(),
            old(self).active > 0,
        ensures
            final(self).wf(),
            final(self).limit == old(self).limit,
            final(self).active == old(self).active - 1,
            final(self).active < final(self).limit,
    {
        self.active -= 1;
    }
}

/// A number within bounds, of which the first is not above the second.
pub open spec fn clamped(n: int, low: int, high: int) -> int {
    if n < low {
        low
    } else if n > high {
        high
    } else {
        n
    }
}

/// A limit of at least one and at most 256: the whole number that is set, or
/// the default where none is set or the text spells none. A number outside the
/// bounds gives the nearer one.
pub fn configured_limit(value: Option<&str>, default: usize) -> (r: usize)
    ensures
        r == clamped(
            match value {
                Some(t) if integer(t@) is Some => integer(t@)->0,
                _ => default as int,
            },
            1,
            256,
        ),
{
    let n = match value {
        Some(t) => {
            let chars = chars_of(t);
            let signed = chars.len() > 0 && (chars[0] == '+' || chars[0] == '-');
            let from: usize = if signed {
                1
            } else {
                0
            };
            let ghost body = chars@.skip(from as int);
            assert(body == if signed {
                t@.drop_first()
            } else {
                t@
            });
            assert(chars@.subrange(from as int, chars@.len() as int) =~= body);
            if from == chars.len() || !digits_from(&chars, from) {
                default
            } else if signed && chars[0] == '-' {
                0
            } else {
                match parse_digits(&chars, from, chars.len(), 256) {
                    Some(n) => n as usize,
                    None => 256,
                }
            }
        },
        None => default,
    };
    if n < 1 {
        1
    } else if n > 256 {
        256
    } else {
        n
    }
}

/// Whether a request is a search.
pub fn is_search(request: &Request) -> (r: bool)
    ensures
        r == (request is Search || request is ContentSearch),
{
    matches!(request, Request::Search { .. } | Request::ContentSearch { .. })
}

/// What a search is answered when there is no room for it.
pub fn overloaded() -> (r: Response)
    ensures
        r is Error,
        r->Error_message@ == SEARCH_OVERLOADED_PREFIX@
            + "Daemon search capacity exhausted; retry after an active search finishes (FXI_MAX_ACTIVE_SEARCHES)."@,
{
    let mut message = SEARCH_OVERLOADED_PREFIX.to_owned();
    message.append(
        "Daemon search capacity exhausted; retry after an active search finishes (FXI_MAX_ACTIVE_SEARCHES).",
    );
    Response::Error { message }
}

} // verus!
