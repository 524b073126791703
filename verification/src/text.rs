//! Text as sequences of characters: conversions, byte widths, decimal numbers
//! and the character classes that the query grammar is written in.
use vstd::prelude::*;

verus! {

/// `String::push` appends one character at the end.
pub assume_specification[ String::push ](s: &mut String, c: char)
    ensures
        final(s)@ == old(s)@.push(c),
;

/// What `char::is_whitespace` says of a character beyond ASCII: whether it has
/// Unicode's `White_Space` property.
pub uninterp spec fn unicode_whitespace(c: char) -> bool;

/// What `char::is_alphanumeric` says of a character beyond ASCII: whether Unicode
/// counts it as alphabetic or as a number.
pub uninterp spec fn unicode_alphanumeric(c: char) -> bool;

/// The white space of ASCII: space, tab, line feed, vertical tab, form feed
/// and carriage return.
pub open spec fn ascii_whitespace(c: char) -> bool {
    c == ' ' || '\t' <= c <= '\r'
}

/// A decimal digit.
pub open spec fn is_digit(c: char) -> bool {
    '0' <= c <= '9'
}

/// A letter or digit of ASCII.
pub open spec fn ascii_alphanumeric(c: char) -> bool {
    is_digit(c) || 'a' <= c <= 'z' || 'A' <= c <= 'Z'
}

/// White space.
pub open spec fn white_space(c: char) -> bool {
    if (c as u32) < 128 {
        ascii_whitespace(c)
    } else {
        unicode_whitespace(c)
    }
}

/// A letter or a digit of any script.
pub open spec fn letter_or_digit(c: char) -> bool {
    if (c as u32) < 128 {
        ascii_alphanumeric(c)
    } else {
        unicode_alphanumeric(c)
    }
}

/// `char::is_whitespace` decides the `White_Space` property; within ASCII that
/// is the space and the controls from tab to carriage return.
pub assume_specification[ char::is_whitespace ](c: char) -> (r: bool)
    ensures
        (c as u32) < 128 ==> r == ascii_whitespace(c),
        (c as u32) >= 128 ==> r == unicode_whitespace(c),
;

/// `char::is_alphanumeric` decides whether a character is alphabetic or
/// numeric; within ASCII those are the letters and the digits.
pub assume_specification[ char::is_alphanumeric ](c: char) -> (r: bool)
    ensures
        (c as u32) < 128 ==> r == ascii_alphanumeric(c),
        (c as u32) >= 128 ==> r == unicode_alphanumeric(c),
;

/// Number of bytes that UTF-8 takes for a character.
pub open spec fn char_width(c: char) -> nat {
    if (c as u32) < 0x80 {
        1
    } else if (c as u32) < 0x800 {
        2
    } else if (c as u32) < 0x10000 {
        3
    } else {
        4
    }
}

/// Number of bytes that UTF-8 takes for a text.
pub open spec fn byte_len(s: Seq<char>) -> nat
    decreases s.len(),
{
    if s.len() == 0 {
        0
    } else {
        byte_len(s.drop_last()) + char_width(s.last())
    }
}

/// The byte length of a concatenation is the sum of the byte lengths.
pub proof fn lemma_byte_len_concat(a: Seq<char>, b: Seq<char>)
    ensures
        byte_len(a + b) == byte_len(a) + byte_len(b),
    decreases b.len(),
{
    if b.len() == 0 {
        assert(a + b =~= a);
    } else {
        lemma_byte_len_concat(a, b.drop_last());
        assert((a + b).drop_last() =~= a + b.drop_last());
    }
}

/// A text has at least one byte and at most four bytes for each character.
pub proof fn lemma_byte_len_bounds(s: Seq<char>)
    ensures
        s.len() <= byte_len(s) <= 4 * s.len(),
    decreases s.len(),
{
    if s.len() > 0 {
        lemma_byte_len_bounds(s.drop_last());
    }
}

/// `byte_len` is the length of the UTF-8 encoding.
pub proof fn lemma_byte_len_encoding(s: Seq<char>)
    ensures
        byte_len(s) == vstd::utf8::encode_utf8(s).len(),
    decreases s.len(),
{
    if s.len() > 0 {
        let rest = s.drop_first();
        lemma_byte_len_encoding(rest);
        vstd::utf8::char_is_scalar(s[0]);
        assert(seq![s[0]] + rest =~= s);
        lemma_byte_len_concat(seq![s[0]], rest);
        assert(seq![s[0]].drop_last() =~= Seq::<char>::empty());
        assert(byte_len(seq![s[0]]) == char_width(s[0])) by {
            reveal_with_fuel(byte_len, 2);
        }
    }
}

/// Width of a character in bytes.
pub fn width_of(c: char) -> (r: usize)
    ensures
        r == char_width(c),
{
    let v: u32 = c as u32;
    if v < 0x80 {
        1
    } else if v < 0x800 {
        2
    } else if v < 0x10000 {
        3
    } else {
        4
    }
}

/// The characters of a text.
pub fn chars_of(s: &str) -> (r: Vec<char>)
    ensures
        r@ == s@,
{
    let mut out: Vec<char> = Vec::new();
    for c in it: s.chars()
        invariant
            out@ == it.seq().take(it.index()),
            it.seq() == s@,
    {
        out.push(c);
    }
    assert(s@.take(s@.len() as int) =~= s@);
    out
}

/// The text made of the characters from `from` up to `to`.
pub fn text_between(chars: &Vec<char>, from: usize, to: usize) -> (r: String)
    requires
        from <= to <= chars@.len(),
    ensures
        r@ == chars@.subrange(from as int, to as int),
{
    let mut out = String::new();
    let mut i: usize = from;
    while i < to
        invariant
            from <= i <= to <= chars@.len(),
            out@ == chars@.subrange(from as int, i as int),
        decreases to - i,
    {
        out.push(chars[i]);
        i += 1;
        assert(chars@.subrange(from as int, i as int) =~= chars@.subrange(
            from as int,
            i - 1,
        ).push(chars@[i - 1]));
    }
    out
}

/// The text made of all of `chars`.
pub fn text_of(chars: &Vec<char>) -> (r: String)
    ensures
        r@ == chars@,
{
    let r = text_between(chars, 0, chars.len());
    assert(chars@.subrange(0, chars@.len() as int) =~= chars@);
    r
}

/// Whether two character sequences are the same.
pub fn same_chars(a: &Vec<char>, b: &Vec<char>) -> (r: bool)
    ensures
        r == (a@ == b@),
{
    if a.len() != b.len() {
        return false;
    }
    let mut i: usize = 0;
    while i < a.len()
        invariant
            i <= a@.len(),
            a@.len() == b@.len(),
            forall|j: int| 0 <= j < i ==> a@[j] == b@[j],
        decreases a@.len() - i,
    {
        if a[i] != b[i] {
            assert(a@[i as int] != b@[i as int]);
            return false;
        }
        i += 1;
    }
    assert(a@ =~= b@);
    true
}

/// Whether a character sequence spells `text`.
pub fn spells(a: &Vec<char>, text: &str) -> (r: bool)
    ensures
        r == (a@ == text@),
{
    same_chars(a, &chars_of(text))
}

/// Number of characters at the start of a text that meet a condition.
pub open spec fn span(s: Seq<char>, p: spec_fn(char) -> bool) -> nat
    decreases s.len(),
{
    if s.len() > 0 && p(s[0]) {
        1 + span(s.drop_first(), p)
    } else {
        0
    }
}

/// A leading run lies within the text, its characters meet the condition, and
/// the character after it does not.
pub broadcast proof fn lemma_span(s: Seq<char>, p: spec_fn(char) -> bool)
    ensures
        0 <= #[trigger] span(s, p) <= s.len(),
        forall|i: int| 0 <= i < span(s, p) ==> p(#[trigger] s[i]),
        span(s, p) < s.len() ==> !p(s[span(s, p) as int]),
    decreases s.len(),
{
    if s.len() > 0 && p(s[0]) {
        lemma_span(s.drop_first(), p);
        assert forall|i: int| 0 <= i < span(s, p) implies p(#[trigger] s[i]) by {
            if i > 0 {
                assert(s.drop_first()[i - 1] == s[i]);
            }
        }
    }
}

/// A run whose characters meet the condition, followed by one that does not or
/// by the end, is the leading run.
pub proof fn lemma_span_is(s: Seq<char>, p: spec_fn(char) -> bool, n: int)
    requires
        0 <= n <= s.len(),
        forall|i: int| 0 <= i < n ==> p(#[trigger] s[i]),
        n < s.len() ==> !p(s[n]),
    ensures
        span(s, p) == n,
    decreases s.len(),
{
    if n > 0 {
        assert(p(s[0]));
        assert forall|i: int| 0 <= i < n - 1 implies p(#[trigger] s.drop_first()[i]) by {
            assert(p(s[i + 1]));
        }
        lemma_span_is(s.drop_first(), p, n - 1);
    }
}

/// Leaving out a start and then another start leaves out both.
pub broadcast proof fn lemma_skip_skip(s: Seq<char>, a: int, b: int)
    requires
        0 <= a,
        0 <= b,
        a + b <= s.len(),
    ensures
        #[trigger] s.skip(a).skip(b) == s.skip(a + b),
{
    assert(s.skip(a).skip(b) =~= s.skip(a + b));
}

/// Number of bytes of a text.
pub fn bytes_in(s: &str) -> (r: usize)
    ensures
        r == byte_len(s@),
{
    proof {
        lemma_byte_len_encoding(s@);
    }
    s.as_bytes().len()
}

/// Three texts one after the other.
pub fn join3(a: &str, b: &str, c: &str) -> (r: String)
    ensures
        r@ == a@ + b@ + c@,
{
    let mut out = a.to_owned();
    out.append(b);
    out.append(c);
    out
}

/// The letter `c` in lower case where it is an ASCII capital, else `c`.
pub open spec fn ascii_lower(c: char) -> char {
    if 'A' <= c <= 'Z' {
        ((c as u8) + 32) as char
    } else {
        c
    }
}

/// A text with its ASCII capitals in lower case.
pub open spec fn lowered(s: Seq<char>) -> Seq<char> {
    s.map_values(|c: char| ascii_lower(c))
}

/// The characters with ASCII capitals in lower case.
pub fn lower_chars(s: &Vec<char>) -> (r: Vec<char>)
    ensures
        r@ == lowered(s@),
{
    let mut out: Vec<char> = Vec::new();
    let mut i: usize = 0;
    while i < s.len()
        invariant
            i <= s@.len(),
            out@ == lowered(s@.take(i as int)),
        decreases s@.len() - i,
    {
        let c = s[i];
        let l = if 'A' <= c && c <= 'Z' {
            ((c as u8) + 32) as char
        } else {
            c
        };
        out.push(l);
        i += 1;
        assert(out@ =~= lowered(s@.take(i as int)));
    }
    assert(s@.take(s@.len() as int) =~= s@);
    out
}

/// Value of a digit.
pub open spec fn digit_value(c: char) -> nat {
    (c as u32 - '0' as u32) as nat
}

/// Whether a text consists of decimal digits alone.
pub open spec fn all_digits(s: Seq<char>) -> bool {
    forall|i: int| 0 <= i < s.len() ==> is_digit(#[trigger] s[i])
}

/// The number that a row of digits denotes.
pub open spec fn decimal(s: Seq<char>) -> nat
    decreases s.len(),
{
    if s.len() == 0 {
        0
    } else {
        10 * decimal(s.drop_last()) + digit_value(s.last())
    }
}

/// The number that a text spells in digits alone, with a value of at most `max`.
pub open spec fn digits_number(s: Seq<char>, max: nat) -> Option<nat> {
    if s.len() > 0 && all_digits(s) && decimal(s) <= max {
        Some(decimal(s))
    } else {
        None
    }
}

/// The unsigned number that a text spells: digits, after an optional plus
/// sign, with a value of at most `max`.
pub open spec fn unsigned(s: Seq<char>, max: nat) -> Option<nat> {
    if s.len() > 0 && s[0] == '+' {
        digits_number(s.drop_first(), max)
    } else {
        digits_number(s, max)
    }
}

/// The whole number that a text spells: digits, after an optional sign.
pub open spec fn integer(s: Seq<char>) -> Option<int> {
    let signed = s.len() > 0 && (s[0] == '+' || s[0] == '-');
    let body = if signed {
        s.drop_first()
    } else {
        s
    };
    if body.len() == 0 || !all_digits(body) {
        None
    } else if signed && s[0] == '-' {
        Some(-decimal(body))
    } else {
        Some(decimal(body) as int)
    }
}

/// A prefix of a row of digits denotes no larger a number.
pub proof fn lemma_decimal_prefix(s: Seq<char>, n: int)
    requires
        0 <= n <= s.len(),
        all_digits(s),
    ensures
        decimal(s.take(n)) <= decimal(s),
    decreases s.len() - n,
{
    if n < s.len() {
        lemma_decimal_prefix(s, n + 1);
        assert(s.take(n + 1).drop_last() =~= s.take(n));
        assert(s.take(n + 1).last() == s[n]);
    } else {
        assert(s.take(n) =~= s);
    }
}

/// Whether the characters from `from` on are digits.
pub fn digits_from(chars: &Vec<char>, from: usize) -> (r: bool)
    requires
        from <= chars@.len(),
    ensures
        r == all_digits(chars@.skip(from as int)),
{
    let ghost body = chars@.skip(from as int);
    let mut i: usize = from;
    while i < chars.len()
        invariant
            from <= i <= chars@.len(),
            body == chars@.skip(from as int),
            forall|j: int| 0 <= j < i - from ==> is_digit(#[trigger] body[j]),
        decreases chars@.len() - i,
    {
        assert(body[i - from] == chars@[i as int]);
        if !('0' <= chars[i] && chars[i] <= '9') {
            return false;
        }
        i += 1;
    }
    true
}

/// Reads the number spelled in digits between `from` and `to`.
pub fn parse_digits(chars: &Vec<char>, from: usize, to: usize, max: u64) -> (r: Option<u64>)
    requires
        from <= to <= chars@.len(),
    ensures
        match r {
            Some(n) => digits_number(chars@.subrange(from as int, to as int), max as nat) == Some(
                n as nat,
            ),
            None => digits_number(chars@.subrange(from as int, to as int), max as nat) is None,
        },
{
    let ghost body = chars@.subrange(from as int, to as int);
    if from == to {
        return None;
    }
    let mut i: usize = from;
    let mut n: u64 = 0;
    while i < to
        invariant
            from <= i <= to <= chars@.len(),
            from < to,
            body == chars@.subrange(from as int, to as int),
            all_digits(body.take(i - from)),
            n == decimal(body.take(i - from)),
            n <= max,
        decreases to - i,
    {
        let c = chars[i];
        assert(body[i - from] == c);
        if !('0' <= c && c <= '9') {
            assert(!is_digit(body[i - from]));
            return None;
        }
        let d: u64 = (c as u32 - '0' as u32) as u64;
        assert(body.take(i - from + 1).drop_last() =~= body.take(i - from));
        assert(decimal(body.take(i - from + 1)) == 10 * n + d);
        if n > max / 10 || d > max - n * 10 {
            proof {
                if all_digits(body) {
                    lemma_decimal_prefix(body, i - from + 1);
                }
            }
            return None;
        }
        n = n * 10 + d;
        i += 1;
    }
    assert(body.take(to - from) =~= body);
    Some(n)
}

/// Reads the number spelled between `from` and `to`.
pub fn parse_unsigned(chars: &Vec<char>, from: usize, to: usize, max: u64) -> (r: Option<u64>)
    requires
        from <= to <= chars@.len(),
    ensures
        match r {
            Some(n) => unsigned(chars@.subrange(from as int, to as int), max as nat) == Some(
                n as nat,
            ),
            None => unsigned(chars@.subrange(from as int, to as int), max as nat) is None,
        },
{
    let ghost text = chars@.subrange(from as int, to as int);
    if from < to && chars[from] == '+' {
        assert(chars@.subrange(from + 1, to as int) =~= text.drop_first());
        parse_digits(chars, from + 1, to, max)
    } else {
        parse_digits(chars, from, to, max)
    }
}

/// The character of a digit.
pub open spec fn digit_char(d: nat) -> char {
    (d + '0' as u32) as char
}

/// A number in decimal, without leading zeros.
pub open spec fn decimal_text(n: nat) -> Seq<char>
    decreases n,
{
    if n < 10 {
        seq![digit_char(n)]
    } else {
        decimal_text(n / 10).push(digit_char(n % 10))
    }
}

/// Reading back a number written in decimal gives that number.
pub proof fn decimal_of_decimal_text(n: nat)
    ensures
        decimal_text(n).len() > 0,
        all_digits(decimal_text(n)),
        decimal(decimal_text(n)) == n,
    decreases n,
{
    reveal_with_fuel(decimal, 2);
    if n >= 10 {
        decimal_of_decimal_text(n / 10);
        assert(decimal_text(n).drop_last() =~= decimal_text(n / 10));
    } else {
        assert(decimal_text(n).drop_last() =~= Seq::<char>::empty());
    }
}

/// Writes a number in decimal.
pub fn number_text(n: u64) -> (r: String)
    ensures
        r@ == decimal_text(n as nat),
    decreases n,
{
    let digit: char = ((n % 10) as u8 + 48) as char;
    assert(digit == digit_char((n % 10) as nat));
    if n < 10 {
        let mut out = String::new();
        out.push(digit);
        assert(out@ =~= seq![digit]);
        out
    } else {
        let mut out = number_text(n / 10);
        out.push(digit);
        out
    }
}

/// What `str::to_lowercase` gives for a text that is not ASCII: its lower case
/// by Unicode's rules.
pub uninterp spec fn unicode_lower(s: Seq<char>) -> Seq<char>;

/// The lower case of a text.
pub open spec fn lower_case(s: Seq<char>) -> Seq<char> {
    if vstd::utf8::is_ascii_chars(s) {
        lowered(s)
    } else {
        unicode_lower(s)
    }
}

/// `str::to_lowercase` gives the lower case of a text by Unicode's rules; of an
/// ASCII text it changes the capital letters alone.
pub assume_specification[ str::to_lowercase ](s: &str) -> (r: String)
    ensures
        vstd::utf8::is_ascii_chars(s@) ==> r@ == lowered(s@),
        !vstd::utf8::is_ascii_chars(s@) ==> r@ == unicode_lower(s@),
;

/// Whether a text holds a character.
pub fn has_char(s: &Vec<char>, c: char) -> (r: bool)
    ensures
        r == s@.contains(c),
{
    let mut i: usize = 0;
    while i < s.len()
        invariant
            i <= s@.len(),
            forall|j: int| 0 <= j < i ==> s@[j] != c,
        decreases s@.len() - i,
    {
        if s[i] == c {
            return true;
        }
        i += 1;
    }
    false
}

/// Number of characters at the start that take at most `n` bytes.
pub open spec fn chars_within(s: Seq<char>, n: nat) -> nat
    decreases s.len(),
{
    if byte_len(s) <= n || s.len() == 0 {
        s.len()
    } else {
        chars_within(s.drop_last(), n)
    }
}

/// Number of characters at the start that take at most `n` bytes.
pub fn count_within(chars: &Vec<char>, n: usize) -> (r: usize)
    ensures
        r <= chars@.len(),
        r == chars_within(chars@, n as nat),
{
    let mut k: usize = 0;
    let mut used: usize = 0;
    while k < chars.len() && width_of(chars[k]) <= n - used
        invariant
            k <= chars@.len(),
            used == byte_len(chars@.take(k as int)),
            used <= n,
        decreases chars@.len() - k,
    {
        used += width_of(chars[k]);
        k += 1;
        assert(chars@.take(k as int).drop_last() =~= chars@.take(k - 1));
    }
    proof {
        lemma_within(chars@, n as nat, k as int);
    }
    k
}

/// The longest start that fits is the one after which the next character does
/// not.
proof fn lemma_within(s: Seq<char>, n: nat, k: int)
    requires
        0 <= k <= s.len(),
        byte_len(s.take(k)) <= n,
        k < s.len() ==> byte_len(s.take(k)) + char_width(s[k]) > n,
    ensures
        chars_within(s, n) == k,
    decreases s.len(),
{
    if k == s.len() {
        assert(s.take(k) =~= s);
    } else {
        lemma_prefix_fits(s, k + 1);
        assert(s.take(k + 1).drop_last() =~= s.take(k));
        assert(byte_len(s.take(k + 1)) > n);
        let t = s.drop_last();
        assert(t.take(k) =~= s.take(k));
        if k < t.len() {
            assert(t[k] == s[k]);
        }
        lemma_within(t, n, k);
    }
}

/// A start of a text takes no more bytes than the text.
proof fn lemma_prefix_fits(s: Seq<char>, k: int)
    requires
        0 <= k <= s.len(),
    ensures
        byte_len(s.take(k)) <= byte_len(s),
    decreases s.len(),
{
    if k == s.len() {
        assert(s.take(k) =~= s);
    } else {
        lemma_prefix_fits(s.drop_last(), k);
        assert(s.drop_last().take(k) =~= s.take(k));
    }
}

/// `String::pop` removes the last character and returns it.
pub assume_specification[ String::pop ](s: &mut String) -> (r: Option<char>)
    ensures
        old(s)@.len() == 0 ==> r is None && final(s)@ == old(s)@,
        old(s)@.len() > 0 ==> r == Some(old(s)@.last()) && final(s)@ == old(s)@.drop_last(),
;

} // verus!
