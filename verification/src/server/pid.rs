//! Numbers of processes, as they are kept in files.
use crate::text::{
    all_digits, chars_of, decimal, is_digit, lemma_span_is, parse_unsigned, span, unsigned,
    white_space,
};
use vstd::prelude::*;

verus! {

/// Why a text is not the number of a process that can be stopped.
#[derive(Debug, Clone, Copy, PartialEq, Eq, Structural)]
pub enum PidError {
    /// Not a number, or out of range.
    NotANumber,
    /// Zero or below, which would stand for a group of processes.
    NotPositive,
}

impl PidError {
    /// What is wrong, in words.
    pub fn to_string(&self) -> (r: String)
        ensures
            r@ == match self {
                PidError::NotANumber => "Invalid daemon PID; not a number"@,
                PidError::NotPositive =>
                "Invalid daemon PID; refusing to signal a process group"@,
            },
    {
        match self {
            PidError::NotANumber => "Invalid daemon PID; not a number".to_owned(),
            PidError::NotPositive =>
            "Invalid daemon PID; refusing to signal a process group".to_owned(),
        }
    }
}

/// A text without white space at its end.
pub open spec fn trimmed_end(s: Seq<char>) -> Seq<char>
    decreases s.len(),
{
    if s.len() > 0 && white_space(s.last()) {
        trimmed_end(s.drop_last())
    } else {
        s
    }
}

/// A text without white space at its start and end.
pub open spec fn trimmed(s: Seq<char>) -> Seq<char> {
    trimmed_end(s.skip(span(s, |c: char| white_space(c)) as int))
}

/// Whether a text is a dash and a number of at most `max` behind it.
pub open spec fn is_negated(t: Seq<char>, max: nat) -> bool {
    t.len() > 1 && t[0] == '-' && all_digits(t.skip(1)) && decimal(t.skip(1)) <= max
}

/// The number of a process in a text: positive, and at most `max`. Where
/// negative numbers are numbers at all, they are told apart from other texts.
pub open spec fn pid_in(text: Seq<char>, max: nat, signed: bool) -> Result<nat, PidError> {
    let t = trimmed(text);
    if signed && is_negated(t, max + 1) {
        Err(PidError::NotPositive)
    } else {
        match unsigned(t, max) {
            None => Err(PidError::NotANumber),
            Some(n) => if n == 0 {
                Err(PidError::NotPositive)
            } else {
                Ok(n)
            },
        }
    }
}

/// The characters of a text without white space at its start and end.
fn trim(text: &str) -> (r: Vec<char>)
    ensures
        r@ == trimmed(text@),
{
    let chars = chars_of(text);
    let ghost p = |c: char| white_space(c);
    let mut from: usize = 0;
    while from < chars.len() && chars[from].is_whitespace()
        invariant
            from <= chars@.len(),
            p == (|c: char| white_space(c)),
            forall|j: int| 0 <= j < from ==> p(#[trigger] chars@[j]),
        decreases chars@.len() - from,
    {
        from += 1;
    }
    proof {
        lemma_span_is(chars@, p, from as int);
    }
    let ghost rest = chars@.skip(from as int);
    let mut to: usize = chars.len();
    assert(chars@.subrange(from as int, to as int) =~= rest);
    while to > from && chars[to - 1].is_whitespace()
        invariant
            from <= to <= chars@.len(),
            trimmed_end(rest) == trimmed_end(chars@.subrange(from as int, to as int)),
        decreases to,
    {
        assert(chars@.subrange(from as int, to as int).drop_last() =~= chars@.subrange(
            from as int,
            to - 1,
        ));
        to -= 1;
    }
    let mut out: Vec<char> = Vec::new();
    let mut i: usize = from;
    while i < to
        invariant
            from <= i <= to <= chars@.len(),
            out@ =~= chars@.subrange(from as int, i as int),
        decreases to - i,
    {
        out.push(chars[i]);
        i += 1;
    }
    out
}

/// Whether a text is a dash and a number of at most `max`.
fn negated(t: &Vec<char>, max: u64) -> (r: bool)
    ensures
        r == is_negated(t@, max as nat),
{
    if t.len() < 2 || t[0] != '-' {
        return false;
    }
    let ghost body = t@.skip(1);
    assert(t@.subrange(1, t@.len() as int) =~= body);
    if t[1] == '+' {
        assert(!is_digit(body[0]));
        return false;
    }
    assert(body[0] != '+');
    parse_unsigned(t, 1, t.len(), max).is_some()
}

/// The number of a process in a text.
pub fn read_pid(text: &str, max: u64, signed: bool) -> (r: Result<u64, PidError>)
    requires
        max < u64::MAX,
    ensures
        match r {
            Ok(n) => pid_in(text@, max as nat, signed) == Ok::<nat, PidError>(n as nat),
            Err(e) => pid_in(text@, max as nat, signed) == Err::<nat, PidError>(e),
        },
{
    let t = trim(text);
    if signed && negated(&t, max + 1) {
        return Err(PidError::NotPositive);
    }
    assert(t@.subrange(0, t@.len() as int) =~= t@);
    match parse_unsigned(&t, 0, t.len(), max) {
        None => Err(PidError::NotANumber),
        Some(n) => if n == 0 {
            Err(PidError::NotPositive)
        } else {
            Ok(n)
        },
    }
}

} // verus!
