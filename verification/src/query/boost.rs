//! Comparing ranking boosts by the decimal numbers they are written as.
use crate::query::plan::{branch_checks, checks, CheckModel, VerificationStep};
use crate::query::validate::{classify_boost, is_decimal_number, whole_part, BoostKind};
use crate::text::{all_digits, chars_of, decimal, is_digit, lemma_span, lemma_span_is};
use vstd::prelude::*;

verus! {

/// The digits behind the decimal point.
pub open spec fn fraction(t: Seq<char>) -> Seq<char> {
    let n = whole_part(t).len() as int;
    if n < t.len() {
        t.skip(n + 1)
    } else {
        Seq::empty()
    }
}

/// A row of zeros.
pub open spec fn zeros(n: nat) -> Seq<char> {
    Seq::new(n, |i: int| '0')
}

/// The number that a text stands for, times ten to the power of `places`, which
/// are at least as many as there are digits behind the point.
pub open spec fn scaled(t: Seq<char>, places: nat) -> nat {
    decimal(whole_part(t) + fraction(t) + zeros((places - fraction(t).len()) as nat))
}

/// Whether one boost is less than another; that holds of decimal numbers only.
pub open spec fn less_boost(a: Seq<char>, b: Seq<char>) -> bool {
    &&& is_decimal_number(a)
    &&& is_decimal_number(b)
    &&& less_number(a, b)
}

/// Whether one decimal number is less than another.
pub open spec fn less_number(a: Seq<char>, b: Seq<char>) -> bool {
    let places = if fraction(a).len() < fraction(b).len() {
        fraction(b).len()
    } else {
        fraction(a).len()
    };
    scaled(a, places) < scaled(b, places)
}

/// The greatest of the boosts of the first `n` checks, but at least one.
pub open spec fn greatest_boost(v: Seq<CheckModel>, n: nat) -> Seq<char>
    decreases v, n,
{
    if n == 0 || n > v.len() {
        "1"@
    } else {
        let before = greatest_boost(v, (n - 1) as nat);
        let own = boost_of(v[n - 1]);
        if less_boost(before, own) {
            own
        } else {
            before
        }
    }
}

/// The boost of a check: its own where it is for a boosted term, the greatest
/// of several but at least one, and else one.
pub open spec fn boost_of(m: CheckModel) -> Seq<char>
    decreases m, 0nat,
{
    match m {
        CheckModel::BoostedLiteral { boost, .. } => boost,
        CheckModel::BoostedPhrase { boost, .. } => boost,
        CheckModel::And(v) => greatest_boost(v, v.len()),
        CheckModel::Or(v) => greatest_boost(v, v.len()),
        _ => "1"@,
    }
}

/// Zeros in front change no number.
proof fn lemma_leading_zeros(n: nat, s: Seq<char>)
    ensures
        decimal(zeros(n) + s) == decimal(s),
    decreases n, s.len(),
{
    if s.len() > 0 {
        lemma_leading_zeros(n, s.drop_last());
        assert((zeros(n) + s).drop_last() =~= zeros(n) + s.drop_last());
    } else if n > 0 {
        lemma_leading_zeros((n - 1) as nat, s);
        assert((zeros(n) + s).drop_last() =~= zeros((n - 1) as nat) + s);
        assert((zeros(n) + s).last() == '0');
    } else {
        assert(zeros(0) + s =~= s);
    }
}

/// A decimal number is made of digits.
proof fn lemma_parts(t: Seq<char>)
    requires
        is_decimal_number(t),
    ensures
        all_digits(whole_part(t)),
        all_digits(fraction(t)),
{
    lemma_span(t, |c: char| is_digit(c));
    let n = whole_part(t).len() as int;
    assert forall|i: int| 0 <= i < n implies is_digit(#[trigger] whole_part(t)[i]) by {
        assert(whole_part(t)[i] == t[i]);
    }
}

/// The digits of a number as a text that rows of zeros are put around.
pub open spec fn padded(t: Seq<char>, front: nat, back: nat) -> Seq<char> {
    zeros(front) + whole_part(t) + fraction(t) + zeros(back)
}

/// Zeros in front change no number, and those behind scale it.
proof fn lemma_padded(t: Seq<char>, front: nat, back: nat)
    requires
        is_decimal_number(t),
    ensures
        decimal(padded(t, front, back)) == scaled(t, fraction(t).len() + back),
        all_digits(padded(t, front, back)),
        padded(t, front, back).len() == front + whole_part(t).len() + fraction(t).len() + back,
{
    let p = whole_part(t) + fraction(t) + zeros(back);
    lemma_parts(t);
    lemma_leading_zeros(front, p);
    assert(padded(t, front, back) =~= zeros(front) + p);
    assert((fraction(t).len() + back - fraction(t).len()) as nat == back);
    assert forall|i: int| 0 <= i < padded(t, front, back).len() implies is_digit(
        #[trigger] padded(t, front, back)[i],
    ) by {
        let j = i - front;
        let k = j - whole_part(t).len();
        if 0 <= j < whole_part(t).len() {
            assert(is_digit(whole_part(t)[j]));
        } else if 0 <= k < fraction(t).len() {
            assert(is_digit(fraction(t)[k]));
        }
    }
}

/// The digits of a boost, where the point stands, between rows of zeros.
fn digits(t: &Vec<char>, whole: usize, front: usize, back: usize) -> (r: Vec<char>)
    requires
        whole == whole_part(t@).len(),
        whole <= t@.len(),
    ensures
        r@ == padded(t@, front as nat, back as nat),
{
    let mut out: Vec<char> = Vec::new();
    let mut i: usize = 0;
    while i < front
        invariant
            i <= front,
            out@ =~= zeros(i as nat),
        decreases front - i,
    {
        out.push('0');
        i += 1;
    }
    let ghost a = out@;
    let mut i: usize = 0;
    while i < whole
        invariant
            i <= whole <= t@.len(),
            out@ =~= a + t@.take(i as int),
        decreases whole - i,
    {
        out.push(t[i]);
        i += 1;
    }
    let ghost b = out@;
    proof {
        lemma_span(t@, |c: char| is_digit(c));
    }
    assert(whole_part(t@) =~= t@.take(whole as int));
    if whole < t.len() {
        let mut i: usize = whole + 1;
        while i < t.len()
            invariant
                whole < i <= t@.len(),
                out@ =~= b + t@.subrange(whole + 1, i as int),
            decreases t@.len() - i,
        {
            out.push(t[i]);
            i += 1;
        }
        assert(t@.subrange(whole + 1, i as int) =~= fraction(t@));
    }
    let ghost c = out@;
    assert(c =~= b + fraction(t@));
    let mut i: usize = 0;
    while i < back
        invariant
            i <= back,
            out@ =~= c + zeros(i as nat),
        decreases back - i,
    {
        out.push('0');
        i += 1;
    }
    out
}

/// Where the digits at the start of a text end.
fn whole_len(t: &Vec<char>) -> (r: usize)
    ensures
        r == whole_part(t@).len(),
        r <= t@.len(),
{
    let ghost p = |c: char| is_digit(c);
    let mut n: usize = 0;
    while n < t.len() && '0' <= t[n] && t[n] <= '9'
        invariant
            n <= t@.len(),
            p == (|c: char| is_digit(c)),
            forall|j: int| 0 <= j < n ==> p(#[trigger] t@[j]),
        decreases t@.len() - n,
    {
        n += 1;
    }
    proof {
        lemma_span_is(t@, p, n as int);
    }
    n
}

/// Whether the number of one row of digits is less than that of another of the
/// same length.
fn less_digits(a: &Vec<char>, b: &Vec<char>) -> (r: bool)
    requires
        a@.len() == b@.len(),
        all_digits(a@),
        all_digits(b@),
    ensures
        r == (decimal(a@) < decimal(b@)),
{
    let mut less = false;
    let mut more = false;
    let mut i: usize = 0;
    while i < a.len()
        invariant
            i <= a@.len() == b@.len(),
            less == (decimal(a@.take(i as int)) < decimal(b@.take(i as int))),
            more == (decimal(a@.take(i as int)) > decimal(b@.take(i as int))),
            all_digits(a@),
            all_digits(b@),
        decreases a@.len() - i,
    {
        assert(a@.take(i + 1).drop_last() =~= a@.take(i as int));
        assert(b@.take(i + 1).drop_last() =~= b@.take(i as int));
        assert(is_digit(a@[i as int]) && is_digit(b@[i as int]));
        if !less && !more {
            less = a[i] < b[i];
            more = a[i] > b[i];
        }
        i += 1;
    }
    assert(a@.take(i as int) =~= a@);
    assert(b@.take(i as int) =~= b@);
    less
}

/// Whether one boost is less than another.
pub fn boost_is_less(a: &str, b: &str) -> (r: bool)
    ensures
        r == less_boost(a@, b@),
{
    let s = chars_of(a);
    let t = chars_of(b);
    if classify_boost(&s) == BoostKind::Malformed || classify_boost(&t) == BoostKind::Malformed {
        return false;
    }
    let m = whole_len(&s);
    let n = whole_len(&t);
    let u = if m < s.len() {
        s.len() - m - 1
    } else {
        0
    };
    let v = if n < t.len() {
        t.len() - n - 1
    } else {
        0
    };
    let front_a: usize = n.saturating_sub(m);
    let front_b: usize = m.saturating_sub(n);
    let back_a: usize = v.saturating_sub(u);
    let back_b: usize = u.saturating_sub(v);
    let x = digits(&s, m, front_a, back_a);
    let y = digits(&t, n, front_b, back_b);
    proof {
        lemma_span(s@, |c: char| is_digit(c));
        lemma_span(t@, |c: char| is_digit(c));
        let places = if fraction(a@).len() < fraction(b@).len() {
            fraction(b@).len()
        } else {
            fraction(a@).len()
        };
        lemma_padded(a@, front_a as nat, back_a as nat);
        lemma_padded(b@, front_b as nat, back_b as nat);
        assert(places == fraction(a@).len() + back_a);
        assert(places == fraction(b@).len() + back_b);
    }
    less_digits(&x, &y)
}

/// The greatest of the boosts of checks, but at least one.
fn extract_greatest(steps: &Vec<VerificationStep>) -> (r: String)
    ensures
        r@ == greatest_boost(checks(steps@), steps@.len()),
    decreases steps,
{
    let ghost m = checks(steps@);
    let mut best = "1".to_owned();
    let mut i: usize = 0;
    while i < steps.len()
        invariant
            i <= steps@.len(),
            m == checks(steps@),
            best@ == greatest_boost(m, i as nat),
        decreases steps@.len() - i,
    {
        assert(m[i as int] == steps@[i as int].model());
        let own = extract_boost(&steps[i]);
        if boost_is_less(best.as_str(), own.as_str()) {
            best = own;
        }
        i += 1;
    }
    best
}

/// The boost of a check.
pub fn extract_boost(verification: &VerificationStep) -> (r: String)
    ensures
        r@ == boost_of(verification.model()),
    decreases verification,
{
    broadcast use branch_checks;

    match verification {
        VerificationStep::BoostedLiteral { boost, .. } => boost.text.clone(),
        VerificationStep::BoostedPhrase { boost, .. } => boost.text.clone(),
        VerificationStep::And(steps) => extract_greatest(steps),
        VerificationStep::Or(steps) => extract_greatest(steps),
        _ => "1".to_owned(),
    }
}

} // verus!
