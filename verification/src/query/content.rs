//! Checking the text of a document.
use crate::query::ast::texts;
use crate::query::line_laws::{lemma_ascii_text, lemma_hits, lemma_plain_text};
use crate::query::lines::{
    find_bytes, first_at, lemma_line_count, lines, lines_of, segments, segments_of, strip_return,
};
use crate::query::plan::{branch_checks, checks, CheckModel, VerificationStep};
use crate::query::validate::spelled_text;
use crate::text::{
    byte_len, bytes_in, chars_of, has_char, lower_case, lower_chars, lowered, text_between, text_of,
};
use vstd::prelude::*;
use vstd::utf8::{encode_utf8, is_ascii_chars};

verus! {

broadcast use branch_checks;

/// A match: the line's number from one on, the line, and the bytes of the line
/// from which and up to which the match reaches.
pub type FileMatch = (u32, String, usize, usize);

/// The mathematical content of a match.
pub type Hit = (u32, Seq<char>, nat, nat);

/// The contents of a list of matches.
pub open spec fn hits_of(v: Seq<FileMatch>) -> Seq<Hit> {
    v.map_values(|m: FileMatch| (m.0, m.1@, m.2 as nat, m.3 as nat))
}

/// A place in a line.
pub type Spot = Option<(nat, nat)>;

/// The lines with a spot, numbered.
pub open spec fn hits(v: Seq<Seq<char>>, spot: spec_fn(Seq<char>) -> Spot) -> Seq<Hit>
    decreases v.len(),
{
    if v.len() == 0 {
        Seq::empty()
    } else {
        let before = hits(v.drop_last(), spot);
        match spot(v.last()) {
            Some((a, b)) => before.push((v.len() as u32, v.last(), a, b)),
            None => before,
        }
    }
}

/// A sum, within the range of machine sizes.
pub open spec fn size_sum(a: nat, b: nat) -> nat {
    if a + b > usize::MAX {
        usize::MAX as nat
    } else {
        a + b
    }
}

/// A place of a text that is `width` bytes long.
pub open spec fn spot_at(place: Option<nat>, width: nat) -> Spot {
    match place {
        Some(p) => Some((p, size_sum(p, width))),
        None => None,
    }
}

/// The first place of a text in a line.
pub open spec fn exact_spot(needle: Seq<char>) -> spec_fn(Seq<char>) -> Spot {
    |line: Seq<char>|
        spot_at(first_at(encode_utf8(line), encode_utf8(needle)), byte_len(needle))
}

/// The first place of a text in an ASCII line, whatever the case of letters.
pub open spec fn ascii_spot(needle: Seq<char>) -> spec_fn(Seq<char>) -> Spot {
    |line: Seq<char>|
        spot_at(
            first_at(encode_utf8(lowered(line)), encode_utf8(lower_case(needle))),
            byte_len(needle),
        )
}

/// The first place of a text in a line, both in lower case.
pub open spec fn lower_spot(needle: Seq<char>) -> spec_fn(Seq<char>) -> Spot {
    |line: Seq<char>|
        spot_at(
            first_at(encode_utf8(lower_case(line)), encode_utf8(lower_case(needle))),
            byte_len(needle),
        )
}

/// Whether a text has a line feed or a carriage return.
pub open spec fn has_break(s: Seq<char>) -> bool {
    s.contains('\n') || s.contains('\r')
}

/// Whether a text can be searched for as ASCII without regard to lines.
pub open spec fn ascii_search(content: Seq<char>, needle: Seq<char>) -> bool {
    is_ascii_chars(content) && is_ascii_chars(needle) && !has_break(lower_case(needle))
}

/// The pieces between line feeds, without a carriage return at the end.
pub open spec fn plain_segments(content: Seq<char>) -> Seq<Seq<char>> {
    segments(content).map_values(|s: Seq<char>| strip_return(s))
}

/// The first match of a text in each line that has one.
pub open spec fn literal_hits(content: Seq<char>, needle: Seq<char>, sensitive: bool) -> Seq<Hit> {
    if sensitive {
        hits(lines(content), exact_spot(needle))
    } else if ascii_search(content, needle) {
        hits(plain_segments(content), ascii_spot(needle))
    } else {
        hits(lines(content), lower_spot(needle))
    }
}

/// What `regex::Regex::find` says of the first match of a pattern that does not
/// just spell a text: the bytes from which and up to which it reaches, or
/// nothing.
pub uninterp spec fn regex_find(pattern: Seq<char>, text: Seq<char>) -> Option<(nat, nat)>;

/// Whether `regex::Regex::new` accepts a pattern.
pub uninterp spec fn regex_compiles(pattern: Seq<char>) -> bool;

/// The first match of a pattern in a text. A pattern that spells a text matches
/// where the text stands.
pub open spec fn pattern_spot(pattern: Seq<char>, text: Seq<char>) -> Spot {
    match spelled_text(pattern) {
        Some(t) => exact_spot(t)(text),
        None => regex_find(pattern, text),
    }
}

/// The content of an optional pair of places.
pub open spec fn spot_of(m: Option<(usize, usize)>) -> Spot {
    match m {
        Some((a, b)) => Some((a as nat, b as nat)),
        None => None,
    }
}

/// Compiles a pattern with `regex::Regex::new` and asks `Regex::find` for the
/// first match in each line; nothing where the pattern does not compile. A
/// pattern that spells a text is found at the text's first place; other answers
/// depend on the pattern and the line alone.
#[verifier::external_body]
pub(crate) fn find_in_lines(pattern: &str, v: &Vec<String>) -> (r: Option<
    Vec<Option<(usize, usize)>>,
>)
    ensures
        r is Some <==> regex_compiles(pattern@),
        r is Some ==> r->0@.len() == v@.len(),
        r is Some && spelled_text(pattern@) is Some ==> forall|i: int|
            0 <= i < v@.len() ==> spot_of(#[trigger] r->0@[i]) == exact_spot(
                spelled_text(pattern@)->0,
            )(v@[i]@),
        r is Some && spelled_text(pattern@) is None ==> forall|i: int|
            0 <= i < v@.len() ==> spot_of(#[trigger] r->0@[i]) == regex_find(pattern@, v@[i]@),
{
    let regex = regex::Regex::new(pattern).ok()?;
    Some(v.iter().map(|line| regex.find(line).map(|m| (m.start(), m.end()))).collect())
}

/// The first match of a pattern in each line that has one.
pub open spec fn regex_hits(content: Seq<char>, pattern: Seq<char>) -> Seq<Hit> {
    if regex_compiles(pattern) {
        hits(lines(content), |line: Seq<char>| pattern_spot(pattern, line))
    } else {
        Seq::empty()
    }
}

/// Whether a text stands in a line.
pub open spec fn stands_in(line: Seq<char>, needle: Seq<char>) -> bool {
    first_at(encode_utf8(line), encode_utf8(needle)) is Some
}

/// Whether lines, one for each term, hold their terms, the first of them being
/// line `i`, and lie within `distance` lines of each other.
pub open spec fn are_close(
    v: Seq<Seq<char>>,
    terms: Seq<Seq<char>>,
    i: int,
    distance: int,
    js: Seq<int>,
) -> bool {
    &&& js.len() == terms.len()
    &&& js[0] == i
    &&& forall|k: int|
        0 <= k < js.len() ==> 0 <= #[trigger] js[k] < v.len() && stands_in(v[js[k]], terms[k])
    &&& forall|k: int, l: int|
        0 <= k < js.len() && 0 <= l < js.len() ==> #[trigger] js[k] - #[trigger] js[l] <= distance
}

/// Whether all terms stand within `distance` lines of each other, the first of
/// them on line `i`.
pub open spec fn terms_close(
    v: Seq<Seq<char>>,
    terms: Seq<Seq<char>>,
    i: int,
    distance: int,
) -> bool {
    exists|js: Seq<int>| #[trigger] are_close(v, terms, i, distance, js)
}

/// The matches of a proximity search among the first `n` lines: lines with the
/// first term, with all terms close to each other. `v` are the lines of the text
/// in lower case, `plain` those of the text itself.
pub open spec fn near_hits(
    v: Seq<Seq<char>>,
    plain: Seq<Seq<char>>,
    terms: Seq<Seq<char>>,
    distance: int,
    width: nat,
    n: nat,
) -> Seq<Hit>
    decreases n,
{
    if n == 0 {
        Seq::empty()
    } else {
        let before = near_hits(v, plain, terms, distance, width, (n - 1) as nat);
        let i = n - 1;
        if terms_close(v, terms, i, distance) && i < plain.len() {
            let p = first_at(encode_utf8(v[i]), encode_utf8(terms[0]))->0;
            before.push((n as u32, plain[i], p, size_sum(p, width)))
        } else {
            before
        }
    }
}

/// Terms in lower case.
pub open spec fn lower_terms(terms: Seq<Seq<char>>) -> Seq<Seq<char>> {
    terms.map_values(|t: Seq<char>| lower_case(t))
}

/// The matches of a proximity search. A term with a line break has none.
pub open spec fn proximity_hits(
    content: Seq<char>,
    terms: Seq<Seq<char>>,
    distance: u32,
) -> Seq<Hit> {
    let low = lower_terms(terms);
    if terms.len() == 0 || exists|k: int| 0 <= k < low.len() && has_break(#[trigger] low[k]) {
        Seq::empty()
    } else {
        let v = segments(lower_case(content));
        near_hits(v, lines(content), low, distance as int, byte_len(terms[0]), v.len())
    }
}

/// The first line of a text, empty where there is none.
pub open spec fn first_line(content: Seq<char>) -> Seq<char> {
    if lines(content).len() > 0 {
        lines(content)[0]
    } else {
        Seq::empty()
    }
}

/// The matches of a check in a text.
pub open spec fn check_hits(content: Seq<char>, check: CheckModel) -> Seq<Hit>
    decreases check, 0nat,
{
    match check {
        CheckModel::Literal(text) => literal_hits(content, text, false),
        CheckModel::BoostedLiteral { text, .. } => literal_hits(content, text, false),
        CheckModel::Phrase { text, case_insensitive } => literal_hits(
            content,
            text,
            !case_insensitive,
        ),
        CheckModel::BoostedPhrase { text, case_insensitive, .. } => literal_hits(
            content,
            text,
            !case_insensitive,
        ),
        CheckModel::Regex(pattern) => regex_hits(content, pattern),
        CheckModel::Near { terms, distance } => proximity_hits(content, terms, distance),
        CheckModel::And(v) => all_hits(content, v, v.len()),
        CheckModel::Or(v) => any_hits(content, v, v.len()),
        CheckModel::Not(inner) => if check_hits(content, *inner).len() == 0 {
            seq![(1u32, first_line(content), 0nat, 0nat)]
        } else {
            Seq::empty()
        },
    }
}

/// The matches of the first `n` checks one after the other; none at all where
/// one of the checks has none.
pub open spec fn all_hits(content: Seq<char>, v: Seq<CheckModel>, n: nat) -> Seq<Hit>
    decreases v, n,
{
    if n == 0 || n > v.len() {
        Seq::empty()
    } else if n == 1 {
        check_hits(content, v[0])
    } else {
        let before = all_hits(content, v, (n - 1) as nat);
        let more = check_hits(content, v[n - 1]);
        if before.len() == 0 || more.len() == 0 {
            Seq::empty()
        } else {
            before + more
        }
    }
}

/// The matches of the first `n` checks one after the other.
pub open spec fn any_hits(content: Seq<char>, v: Seq<CheckModel>, n: nat) -> Seq<Hit>
    decreases v, n,
{
    if n == 0 || n > v.len() {
        Seq::empty()
    } else {
        any_hits(content, v, (n - 1) as nat) + check_hits(content, v[n - 1])
    }
}

/// Whether a check finds anything in a text.
pub open spec fn check_present(content: Seq<char>, check: CheckModel) -> bool {
    check_hits(content, check).len() > 0
}

/// The first `n` checks have matches together where each of them has.
pub proof fn lemma_all_hits(content: Seq<char>, v: Seq<CheckModel>, n: nat)
    requires
        0 < n <= v.len(),
    ensures
        all_hits(content, v, n).len() > 0 <==> forall|i: int|
            0 <= i < n ==> check_present(content, #[trigger] v[i]),
    decreases n,
{
    if n == 1 {
        assert(all_hits(content, v, 1).len() > 0 <==> check_present(content, v[0]));
    } else {
        lemma_all_hits(content, v, (n - 1) as nat);
        assert((forall|i: int| 0 <= i < n ==> check_present(content, #[trigger] v[i])) <==> ((
        forall|i: int| 0 <= i < n - 1 ==> check_present(content, #[trigger] v[i]))
            && check_present(content, v[n - 1])));
    }
}

/// The first `n` checks have matches where one of them has.
pub proof fn lemma_any_hits(content: Seq<char>, v: Seq<CheckModel>, n: nat)
    requires
        n <= v.len(),
    ensures
        any_hits(content, v, n).len() > 0 <==> exists|i: int|
            0 <= i < n && check_present(content, #[trigger] v[i]),
    decreases n,
{
    if n > 0 {
        lemma_any_hits(content, v, (n - 1) as nat);
        if check_present(content, v[n - 1]) {
            assert(exists|i: int| 0 <= i < n && check_present(content, #[trigger] v[i]));
        }
    }
}

/// The lines that are given a spot, numbered.
pub open spec fn hits_at(v: Seq<Seq<char>>, spots: Seq<Option<(usize, usize)>>) -> Seq<Hit>
    decreases v.len(),
{
    if v.len() == 0 {
        Seq::empty()
    } else {
        let before = hits_at(v.drop_last(), spots);
        match spots[v.len() - 1] {
            Some((a, b)) => before.push((v.len() as u32, v.last(), a as nat, b as nat)),
            None => before,
        }
    }
}

proof fn lemma_hits_at(
    v: Seq<Seq<char>>,
    spots: Seq<Option<(usize, usize)>>,
    spot: spec_fn(Seq<char>) -> Spot,
)
    requires
        forall|i: int| 0 <= i < v.len() ==> spot_of(#[trigger] spots[i]) == spot(v[i]),
    ensures
        hits_at(v, spots) == hits(v, spot),
    decreases v.len(),
{
    if v.len() > 0 {
        lemma_hits_at(v.drop_last(), spots, spot);
        assert(spot_of(spots[v.len() - 1]) == spot(v.last()));
    }
}

/// Numbers the lines that are given a spot.
pub fn matches_at(v: &Vec<String>, spots: &Vec<Option<(usize, usize)>>) -> (r: Vec<FileMatch>)
    requires
        v@.len() <= u32::MAX,
        spots@.len() == v@.len(),
    ensures
        hits_of(r@) == hits_at(texts(v@), spots@),
{
    let mut out: Vec<FileMatch> = Vec::new();
    let mut i: usize = 0;
    assert(hits_of(out@) =~= hits_at(texts(v@).take(0), spots@));
    while i < v.len()
        invariant
            i <= v@.len() <= u32::MAX,
            spots@.len() == v@.len(),
            hits_of(out@) == hits_at(texts(v@).take(i as int), spots@),
        decreases v@.len() - i,
    {
        let ghost before = out@;
        let ghost longer = texts(v@).take(i + 1);
        assert(longer.drop_last() =~= texts(v@).take(i as int));
        assert(longer.last() == v@[i as int]@);
        match spots[i] {
            Some((a, b)) => {
                let m = ((i + 1) as u32, v[i].clone(), a, b);
                out.push(m);
                assert(hits_of(out@) =~= hits_of(before).push((m.0, m.1@, a as nat, b as nat)));
            },
            None => {},
        }
        i += 1;
    }
    assert(texts(v@).take(v@.len() as int) =~= texts(v@));
    out
}

/// Numbers the lines that have a spot.
fn collect(
    v: &Vec<String>,
    spots: &Vec<Option<(usize, usize)>>,
    Ghost(spot): Ghost<spec_fn(Seq<char>) -> Spot>,
) -> (r: Vec<FileMatch>)
    requires
        v@.len() <= u32::MAX,
        spots@.len() == v@.len(),
        forall|i: int| 0 <= i < v@.len() ==> spot_of(#[trigger] spots@[i]) == spot(v@[i]@),
    ensures
        hits_of(r@) == hits(texts(v@), spot),
{
    proof {
        lemma_hits_at(texts(v@), spots@, spot);
    }
    matches_at(v, spots)
}

/// The place of a text in a line, as a spot.
fn find_spot(line: &str, needle: &str, width: usize) -> (r: Option<(usize, usize)>)
    ensures
        spot_of(r) == spot_at(first_at(encode_utf8(line@), encode_utf8(needle@)), width as nat),
{
    match find_bytes(line.as_bytes(), needle.as_bytes()) {
        Some(p) => Some((p, p.saturating_add(width))),
        None => None,
    }
}

/// Whether a text stands in a line.
fn is_in(line: &str, needle: &str) -> (r: bool)
    ensures
        r == stands_in(line@, needle@),
{
    find_bytes(line.as_bytes(), needle.as_bytes()).is_some()
}

/// A text with ASCII capitals in lower case.
fn ascii_lower_text(s: &str) -> (r: String)
    ensures
        r@ == lowered(s@),
{
    text_of(&lower_chars(&chars_of(s)))
}

/// A piece without a carriage return at its end.
fn without_return(s: &str) -> (r: String)
    ensures
        r@ == strip_return(s@),
{
    let chars = chars_of(s);
    let n = chars.len();
    let end = if n > 0 && chars[n - 1] == '\r' {
        n - 1
    } else {
        n
    };
    let r = text_between(&chars, 0, end);
    assert(r@ =~= strip_return(s@));
    r
}

/// Whether a text has a line feed or a carriage return.
fn breaks(s: &str) -> (r: bool)
    ensures
        r == has_break(s@),
{
    let chars = chars_of(s);
    has_char(&chars, '\n') || has_char(&chars, '\r')
}

/// The first match of a text in each line that has one.
pub fn find_literal_matches(content: &str, needle: &str, case_sensitive: bool) -> (r: Vec<
    FileMatch,
>)
    requires
        content@.len() < u32::MAX,
    ensures
        hits_of(r@) == literal_hits(content@, needle@, case_sensitive),
{
    proof {
        lemma_line_count(content@);
    }
    let width = bytes_in(needle);
    if case_sensitive {
        let v = lines_of(content);
        let mut spots: Vec<Option<(usize, usize)>> = Vec::new();
        let mut i: usize = 0;
        assert(texts(v@).len() == v@.len());
        while i < v.len()
            invariant
                i <= v@.len(),
                width == byte_len(needle@),
                spots@.len() == i,
                forall|j: int|
                    0 <= j < i ==> spot_of(#[trigger] spots@[j]) == exact_spot(needle@)(v@[j]@),
            decreases v@.len() - i,
        {
            spots.push(find_spot(v[i].as_str(), needle, width));
            i += 1;
        }
        return collect(&v, &spots, Ghost(exact_spot(needle@)));
    }
    let needle_lower = needle.to_lowercase();
    if content.is_ascii() && needle.is_ascii() && !breaks(needle_lower.as_str()) {
        let pieces = segments_of(content);
        let mut v: Vec<String> = Vec::new();
        let mut spots: Vec<Option<(usize, usize)>> = Vec::new();
        let mut i: usize = 0;
        assert(texts(pieces@).len() == pieces@.len());
        while i < pieces.len()
            invariant
                i <= pieces@.len(),
                texts(pieces@) == segments(content@),
                width == byte_len(needle@),
                needle_lower@ == lower_case(needle@),
                v@.len() == i,
                texts(v@) == plain_segments(content@).take(i as int),
                spots@.len() == i,
                forall|j: int|
                    0 <= j < i ==> spot_of(#[trigger] spots@[j]) == ascii_spot(needle@)(v@[j]@),
            decreases pieces@.len() - i,
        {
            assert(texts(pieces@)[i as int] == pieces@[i as int]@);
            let line = without_return(pieces[i].as_str());
            let low = ascii_lower_text(line.as_str());
            spots.push(find_spot(low.as_str(), needle_lower.as_str(), width));
            let ghost before = v@;
            v.push(line);
            i += 1;
            assert(texts(v@) =~= texts(before).push(line@));
            assert(plain_segments(content@).take(i as int) =~= plain_segments(content@).take(
                i - 1,
            ).push(line@));
        }
        assert(plain_segments(content@).take(pieces@.len() as int) =~= plain_segments(content@));
        collect(&v, &spots, Ghost(ascii_spot(needle@)))
    } else {
        let v = lines_of(content);
        let mut spots: Vec<Option<(usize, usize)>> = Vec::new();
        let mut i: usize = 0;
        assert(texts(v@).len() == v@.len());
        while i < v.len()
            invariant
                i <= v@.len(),
                width == byte_len(needle@),
                needle_lower@ == lower_case(needle@),
                spots@.len() == i,
                forall|j: int|
                    0 <= j < i ==> spot_of(#[trigger] spots@[j]) == lower_spot(needle@)(v@[j]@),
            decreases v@.len() - i,
        {
            let low = v[i].as_str().to_lowercase();
            spots.push(find_spot(low.as_str(), needle_lower.as_str(), width));
            i += 1;
        }
        collect(&v, &spots, Ghost(lower_spot(needle@)))
    }
}

/// The first match of a pattern in each line that has one.
pub fn find_regex_matches(content: &str, pattern: &str) -> (r: Vec<FileMatch>)
    requires
        content@.len() < u32::MAX,
    ensures
        hits_of(r@) == regex_hits(content@, pattern@),
{
    proof {
        lemma_line_count(content@);
    }
    let v = lines_of(content);
    assert(texts(v@).len() == v@.len());
    match find_in_lines(pattern, &v) {
        Some(spots) => collect(
            &v,
            &spots,
            Ghost(|line: Seq<char>| pattern_spot(pattern@, line)),
        ),
        None => {
            let none: Vec<FileMatch> = Vec::new();
            assert(hits_of(none@) =~= Seq::<Hit>::empty());
            none
        },
    }
}

/// Whether a text stands in line `s` or at most `distance` lines further on.
spec fn stands_ahead(v: Seq<Seq<char>>, needle: Seq<char>, s: int, distance: int) -> bool {
    exists|j: int| s <= j <= s + distance && j < v.len() && #[trigger] stands_in(v[j], needle)
}

/// Whether each of the terms from the second on does.
spec fn others_ahead(v: Seq<Seq<char>>, terms: Seq<Seq<char>>, s: int, distance: int) -> bool {
    forall|k: int| 1 <= k < terms.len() ==> stands_ahead(v, #[trigger] terms[k], s, distance)
}

proof fn lemma_least(js: Seq<int>) -> (k: int)
    requires
        js.len() > 0,
    ensures
        0 <= k < js.len(),
        forall|l: int| 0 <= l < js.len() ==> js[k] <= #[trigger] js[l],
    decreases js.len(),
{
    if js.len() == 1 {
        0
    } else {
        let front = js.drop_last();
        let k = lemma_least(front);
        if js[k] <= js.last() {
            assert forall|l: int| 0 <= l < js.len() implies js[k] <= #[trigger] js[l] by {
                if l < front.len() {
                    assert(front[k] <= front[l]);
                }
            }
            k
        } else {
            assert forall|l: int| 0 <= l < js.len() implies js.last() <= #[trigger] js[l] by {
                if l < front.len() {
                    assert(front[k] <= front[l]);
                }
            }
            js.len() - 1
        }
    }
}

/// Terms are close to each other where a row of lines holds them all.
proof fn lemma_close(v: Seq<Seq<char>>, terms: Seq<Seq<char>>, i: int, distance: int, s: int)
    requires
        terms.len() > 0,
        0 <= i < v.len(),
        0 <= s <= i <= s + distance,
        stands_in(v[i], terms[0]),
        others_ahead(v, terms, s, distance),
    ensures
        terms_close(v, terms, i, distance),
{
    let js = Seq::new(
        terms.len(),
        |k: int|
            if k == 0 {
                i
            } else {
                choose|j: int|
                    s <= j <= s + distance && j < v.len() && #[trigger] stands_in(v[j], terms[k])
            },
    );
    assert forall|k: int| 0 <= k < js.len() implies s <= #[trigger] js[k] <= s + distance && js[k]
        < v.len() && stands_in(v[js[k]], terms[k]) by {
        if k > 0 {
            assert(stands_ahead(v, terms[k], s, distance));
        }
    }
    assert(are_close(v, terms, i, distance, js));
}

/// The first line of a row of lines that holds all terms.
proof fn lemma_row(v: Seq<Seq<char>>, terms: Seq<Seq<char>>, i: int, distance: int) -> (s: int)
    requires
        terms.len() > 0,
        terms_close(v, terms, i, distance),
    ensures
        0 <= s <= i <= s + distance,
        i < v.len(),
        stands_in(v[i], terms[0]),
        others_ahead(v, terms, s, distance),
{
    let js = choose|js: Seq<int>| #[trigger] are_close(v, terms, i, distance, js);
    let k = lemma_least(js);
    let s = js[k];
    assert(js[0] - js[k] <= distance);
    assert forall|l: int| 1 <= l < terms.len() implies stands_ahead(
        v,
        #[trigger] terms[l],
        s,
        distance,
    ) by {
        assert(js[l] - js[k] <= distance);
        assert(stands_in(v[js[l]], terms[l]));
    }
    s
}

/// For each line, whether a text stands in it or at most `distance` lines
/// further on.
fn ahead_flags(v: &Vec<String>, needle: &str, distance: u32) -> (r: Vec<bool>)
    ensures
        r@.len() == v@.len(),
        forall|i: int|
            0 <= i < v@.len() ==> #[trigger] r@[i] == stands_ahead(
                texts(v@),
                needle@,
                i,
                distance as int,
            ),
{
    let ghost t = texts(v@);
    let d = distance as usize;
    let n = v.len();
    let mut flags: Vec<bool> = Vec::new();
    let mut next: Option<usize> = None;
    let mut k: usize = n;
    // Filled from the end, so the line at `k` stands at the end of `flags`.
    while k > 0
        invariant
            k <= n == v@.len(),
            d == distance,
            t == texts(v@),
            match next {
                Some(p) => k <= p < n && stands_in(t[p as int], needle@) && forall|j: int|
                    k <= j < p ==> !stands_in(#[trigger] t[j], needle@),
                None => forall|j: int| k <= j < n ==> !stands_in(#[trigger] t[j], needle@),
            },
            flags@.len() == n - k,
            forall|q: int|
                k <= q < n ==> #[trigger] flags@[n - 1 - q] == stands_ahead(t, needle@, q, d as int),
        decreases k,
    {
        k -= 1;
        assert(t[k as int] == v@[k as int]@);
        if is_in(v[k].as_str(), needle) {
            next = Some(k);
        }
        let flag = match next {
            Some(p) => p - k <= d,
            None => false,
        };
        proof {
            if flag {
                assert(stands_in(t[next->0 as int], needle@));
            }
            assert(flag == stands_ahead(t, needle@, k as int, d as int));
        }
        let ghost before = flags@;
        flags.push(flag);
        assert forall|q: int| k <= q < n implies #[trigger] flags@[n - 1 - q] == stands_ahead(
            t,
            needle@,
            q,
            d as int,
        ) by {
            if q > k {
                assert(flags@[n - 1 - q] == before[n - 1 - q]);
            }
        }
    }
    let mut out: Vec<bool> = Vec::new();
    let mut m: usize = 0;
    while m < n
        invariant
            m <= n == v@.len(),
            d == distance,
            t == texts(v@),
            flags@.len() == n,
            forall|q: int|
                0 <= q < n ==> #[trigger] flags@[n - 1 - q] == stands_ahead(t, needle@, q, d as int),
            out@.len() == m,
            forall|q: int|
                0 <= q < m ==> #[trigger] out@[q] == stands_ahead(t, needle@, q, d as int),
        decreases n - m,
    {
        out.push(flags[n - 1 - m]);
        assert(flags@[n - 1 - m as int] == stands_ahead(t, needle@, m as int, d as int));
        m += 1;
    }
    out
}

/// Terms in lower case.
fn lowered_terms(terms: &Vec<String>) -> (r: Vec<String>)
    ensures
        texts(r@) == lower_terms(texts(terms@)),
{
    let mut out: Vec<String> = Vec::new();
    let mut i: usize = 0;
    let ghost all = lower_terms(texts(terms@));
    while i < terms.len()
        invariant
            i <= terms@.len(),
            all == lower_terms(texts(terms@)),
            texts(out@) == all.take(i as int),
        decreases terms@.len() - i,
    {
        let ghost before = out@;
        let low = terms[i].as_str().to_lowercase();
        out.push(low);
        i += 1;
        assert(texts(out@) =~= texts(before).push(low@));
        assert(all.take(i as int) =~= all.take(i - 1).push(all[i - 1]));
    }
    assert(all.take(all.len() as int) =~= all);
    out
}

/// The matches of a proximity search.
pub fn find_proximity_matches(content: &str, terms: &Vec<String>, distance: u32) -> (r: Vec<
    FileMatch,
>)
    requires
        content@.len() < u32::MAX,
    ensures
        hits_of(r@) == proximity_hits(content@, texts(terms@), distance),
{
    let mut out: Vec<FileMatch> = Vec::new();
    assert(hits_of(out@) =~= Seq::<Hit>::empty());
    if terms.len() == 0 {
        return out;
    }
    let low = lowered_terms(terms);
    let ghost low_model = texts(low@);
    let mut k: usize = 0;
    while k < low.len()
        invariant
            k <= low@.len(),
            terms@.len() > 0,
            low_model == texts(low@),
            low_model == lower_terms(texts(terms@)),
            hits_of(out@) == Seq::<Hit>::empty(),
            forall|j: int| 0 <= j < k ==> !has_break(#[trigger] low_model[j]),
        decreases low@.len() - k,
    {
        assert(low_model[k as int] == low@[k as int]@);
        if breaks(low[k].as_str()) {
            assert(has_break(low_model[k as int]));
            assert(hits_of(out@) =~= proximity_hits(content@, texts(terms@), distance));
            return out;
        }
        k += 1;
    }
    let lower_content = content.to_lowercase();
    let v = segments_of(lower_content.as_str());
    let plain = lines_of(content);
    proof {
        lemma_line_count(content@);
        assert(texts(plain@).len() == plain@.len());
        assert(texts(v@).len() == v@.len());
        assert(low_model.len() == low@.len());
        assert(low_model.len() == texts(terms@).len() == terms@.len());
        assert(low_model[0] == low@[0]@);
        assert(texts(terms@)[0] == terms@[0]@);
    }
    let ghost vm = texts(v@);
    // For each line, whether all terms from the second on stand in it or soon after.
    let mut ahead: Vec<bool> = Vec::new();
    let mut i: usize = 0;
    while i < v.len()
        invariant
            i <= v@.len(),
            ahead@.len() == i,
            forall|j: int| 0 <= j < i ==> #[trigger] ahead@[j],
        decreases v@.len() - i,
    {
        ahead.push(true);
        i += 1;
    }
    let mut t: usize = 1;
    while t < low.len()
        invariant
            1 <= t <= low@.len(),
            vm == texts(v@),
            low_model == texts(low@),
            ahead@.len() == v@.len(),
            forall|j: int|
                0 <= j < ahead@.len() ==> #[trigger] ahead@[j] == others_ahead(
                    vm,
                    low_model.take(t as int),
                    j,
                    distance as int,
                ),
        decreases low@.len() - t,
    {
        let flags = ahead_flags(&v, low[t].as_str(), distance);
        let ghost was = ahead@;
        let ghost shorter = low_model.take(t as int);
        let ghost longer = low_model.take(t + 1);
        assert(low_model[t as int] == low@[t as int]@);
        let mut i: usize = 0;
        while i < v.len()
            invariant
                i <= v@.len(),
                1 <= t < low@.len(),
                ahead@.len() == v@.len(),
                was.len() == v@.len(),
                flags@.len() == v@.len(),
                forall|j: int| i <= j < v@.len() ==> ahead@[j] == was[j],
                forall|j: int| 0 <= j < i ==> #[trigger] ahead@[j] == (was[j] && flags@[j]),
            decreases v@.len() - i,
        {
            let both = ahead[i] && flags[i];
            ahead.set(i, both);
            i += 1;
        }
        assert forall|j: int| 0 <= j < ahead@.len() implies #[trigger] ahead@[j] == others_ahead(
            vm,
            longer,
            j,
            distance as int,
        ) by {
            assert(was[j] == others_ahead(vm, shorter, j, distance as int));
            assert(flags@[j] == stands_ahead(vm, low_model[t as int], j, distance as int));
            assert(longer[t as int] == low_model[t as int]);
            if others_ahead(vm, longer, j, distance as int) {
                assert(stands_ahead(vm, longer[t as int], j, distance as int));
                assert forall|q: int| 1 <= q < shorter.len() implies stands_ahead(
                    vm,
                    #[trigger] shorter[q],
                    j,
                    distance as int,
                ) by {
                    assert(stands_ahead(vm, longer[q], j, distance as int));
                }
            }
            if others_ahead(vm, shorter, j, distance as int) && flags@[j] {
                assert forall|q: int| 1 <= q < longer.len() implies stands_ahead(
                    vm,
                    #[trigger] longer[q],
                    j,
                    distance as int,
                ) by {
                    if q < t {
                        assert(stands_ahead(vm, shorter[q], j, distance as int));
                    }
                }
            }
        }
        t += 1;
    }
    assert(low_model.take(low_model.len() as int) =~= low_model);
    let width = bytes_in(terms[0].as_str());
    let d = distance as usize;
    // The last line so far with all other terms ahead.
    let mut row: Option<usize> = None;
    let mut n: usize = 0;
    while n < v.len()
        invariant
            n <= v@.len(),
            d == distance,
            vm == texts(v@),
            low_model == texts(low@),
            low_model.len() == low@.len(),
            low@.len() > 0,
            low_model[0] == low@[0]@,
            texts(plain@).len() == plain@.len(),
            plain@.len() < u32::MAX,
            ahead@.len() == v@.len(),
            forall|j: int|
                0 <= j < ahead@.len() ==> #[trigger] ahead@[j] == others_ahead(
                    vm,
                    low_model,
                    j,
                    distance as int,
                ),
            match row {
                Some(s) => s < n && ahead@[s as int] && forall|j: int|
                    s < j < n ==> !#[trigger] ahead@[j],
                None => forall|j: int| 0 <= j < n ==> !#[trigger] ahead@[j],
            },
            hits_of(out@) == near_hits(
                vm,
                texts(plain@),
                low_model,
                distance as int,
                width as nat,
                n as nat,
            ),
        decreases v@.len() - n,
    {
        let ghost before = out@;
        assert(vm[n as int] == v@[n as int]@);
        if ahead[n] {
            row = Some(n);
        }
        let held = match row {
            Some(s) => n - s <= d,
            None => false,
        };
        let place = if held {
            find_bytes(v[n].as_str().as_bytes(), low[0].as_str().as_bytes())
        } else {
            None
        };
        proof {
            if place is Some {
                let s = row->0 as int;
                assert(ahead@[s] == others_ahead(vm, low_model, s, distance as int));
                lemma_close(vm, low_model, n as int, distance as int, s);
            }
            if terms_close(vm, low_model, n as int, distance as int) {
                let s = lemma_row(vm, low_model, n as int, distance as int);
                assert(ahead@[s] == others_ahead(vm, low_model, s, distance as int));
                assert(held);
                assert(place is Some);
            }
        }
        if n < plain.len() {
            assert(texts(plain@)[n as int] == plain@[n as int]@);
            match place {
                Some(p) => {
                    let m = ((n + 1) as u32, plain[n].clone(), p, p.saturating_add(width));
                    out.push(m);
                    assert(hits_of(out@) =~= hits_of(before).push(
                        (m.0, m.1@, m.2 as nat, m.3 as nat),
                    ));
                },
                None => {},
            }
        }
        n += 1;
    }
    out
}

/// Whether a text has a match in another, whatever the case of letters.
pub fn has_literal_match(content: &str, text: &str) -> (r: bool)
    ensures
        r == (literal_hits(content@, text@, false).len() > 0),
{
    let needle = text.to_lowercase();
    if content.is_ascii() && text.is_ascii() && !breaks(needle.as_str()) {
        proof {
            lemma_ascii_text(content@, text@);
        }
        return is_in(ascii_lower_text(content).as_str(), needle.as_str());
    }
    let v = lines_of(content);
    proof {
        lemma_hits(lines(content@), lower_spot(text@));
    }
    let mut i: usize = 0;
    while i < v.len()
        invariant
            i <= v@.len(),
            texts(v@) == lines(content@),
            needle@ == lower_case(text@),
            !ascii_search(content@, text@),
            literal_hits(content@, text@, false).len() > 0 <==> exists|k: int|
                0 <= k < lines(content@).len() && lower_spot(text@)(
                    #[trigger] lines(content@)[k],
                ) is Some,
            forall|j: int|
                0 <= j < i ==> lower_spot(text@)(#[trigger] lines(content@)[j]) is None,
        decreases v@.len() - i,
    {
        assert(texts(v@)[i as int] == v@[i as int]@);
        let low = v[i].as_str().to_lowercase();
        if is_in(low.as_str(), needle.as_str()) {
            assert(lower_spot(text@)(lines(content@)[i as int]) is Some);
            return true;
        }
        i += 1;
    }
    assert(texts(v@).len() == v@.len());
    false
}

/// Whether a text has a match in another as it is written.
fn has_exact_match(content: &str, text: &str) -> (r: bool)
    requires
        content@.len() < u32::MAX,
    ensures
        r == (literal_hits(content@, text@, true).len() > 0),
{
    if !text.is_empty() && !breaks(text) {
        proof {
            lemma_plain_text(content@, text@);
        }
        return is_in(content, text);
    }
    let found = find_literal_matches(content, text, true);
    assert(hits_of(found@).len() == found@.len());
    found.len() > 0
}

/// Whether a pattern has a match in a line of a text.
fn has_regex_match(content: &str, pattern: &str) -> (r: bool)
    ensures
        r == (regex_hits(content@, pattern@).len() > 0),
{
    let v = lines_of(content);
    assert(texts(v@).len() == v@.len());
    let spots = match find_in_lines(pattern, &v) {
        Some(spots) => spots,
        None => return false,
    };
    let ghost spot = |line: Seq<char>| pattern_spot(pattern@, line);
    proof {
        lemma_hits(lines(content@), spot);
    }
    let mut i: usize = 0;
    while i < spots.len()
        invariant
            i <= spots@.len() == v@.len(),
            texts(v@) == lines(content@),
            texts(v@).len() == v@.len(),
            forall|k: int|
                0 <= k < v@.len() ==> spot_of(#[trigger] spots@[k]) == pattern_spot(
                    pattern@,
                    v@[k]@,
                ),
            spot == (|line: Seq<char>| pattern_spot(pattern@, line)),
            regex_hits(content@, pattern@).len() > 0 <==> exists|k: int|
                0 <= k < lines(content@).len() && spot(#[trigger] lines(content@)[k]) is Some,
            forall|j: int| 0 <= j < i ==> spot(#[trigger] lines(content@)[j]) is None,
        decreases spots@.len() - i,
    {
        assert(texts(v@)[i as int] == v@[i as int]@);
        assert(spot_of(spots@[i as int]) == pattern_spot(pattern@, v@[i as int]@));
        if spots[i].is_some() {
            assert(spot(lines(content@)[i as int]) is Some);
            return true;
        }
        i += 1;
    }
    false
}

proof fn lemma_no_hits(content: Seq<char>, v: Seq<CheckModel>, n: nat, m: nat)
    requires
        0 < n <= m <= v.len(),
        all_hits(content, v, n).len() == 0,
    ensures
        all_hits(content, v, m).len() == 0,
    decreases m,
{
    if n < m {
        lemma_no_hits(content, v, n, (m - 1) as nat);
    }
}

fn append_matches(out: &mut Vec<FileMatch>, more: Vec<FileMatch>)
    ensures
        hits_of(final(out)@) == hits_of(old(out)@) + hits_of(more@),
{
    let mut more = more;
    let ghost added = more@;
    out.append(&mut more);
    assert(hits_of(out@) =~= hits_of(old(out)@) + hits_of(added));
}

fn no_matches() -> (r: Vec<FileMatch>)
    ensures
        hits_of(r@) == Seq::<Hit>::empty(),
{
    let r: Vec<FileMatch> = Vec::new();
    assert(hits_of(r@) =~= Seq::<Hit>::empty());
    r
}

fn verify_all(content: &str, steps: &Vec<VerificationStep>) -> (r: Vec<FileMatch>)
    requires
        content@.len() < u32::MAX,
    ensures
        hits_of(r@) == all_hits(content@, checks(steps@), steps@.len()),
    decreases steps,
{
    let ghost m = checks(steps@);
    let mut out = no_matches();
    let mut i: usize = 0;
    while i < steps.len()
        invariant
            i <= steps@.len(),
            content@.len() < u32::MAX,
            m == checks(steps@),
            hits_of(out@) == all_hits(content@, m, i as nat),
            i > 0 ==> out@.len() > 0,
        decreases steps@.len() - i,
    {
        assert(m[i as int] == steps@[i as int].model());
        let found = verify_content(content, &steps[i]);
        assert(hits_of(found@).len() == found@.len());
        assert(hits_of(out@).len() == out@.len());
        if found.len() == 0 {
            assert(all_hits(content@, m, (i + 1) as nat).len() == 0);
            proof {
                lemma_no_hits(content@, m, (i + 1) as nat, m.len());
            }
            let none = no_matches();
            assert(hits_of(none@) =~= all_hits(content@, m, m.len()));
            return none;
        }
        append_matches(&mut out, found);
        assert(hits_of(out@).len() == out@.len());
        assert(hits_of(out@) =~= all_hits(content@, m, (i + 1) as nat));
        i += 1;
    }
    out
}

fn verify_any(content: &str, steps: &Vec<VerificationStep>) -> (r: Vec<FileMatch>)
    requires
        content@.len() < u32::MAX,
    ensures
        hits_of(r@) == any_hits(content@, checks(steps@), steps@.len()),
    decreases steps,
{
    let ghost m = checks(steps@);
    let mut out = no_matches();
    let mut i: usize = 0;
    while i < steps.len()
        invariant
            i <= steps@.len(),
            content@.len() < u32::MAX,
            m == checks(steps@),
            hits_of(out@) == any_hits(content@, m, i as nat),
        decreases steps@.len() - i,
    {
        assert(m[i as int] == steps@[i as int].model());
        append_matches(&mut out, verify_content(content, &steps[i]));
        i += 1;
    }
    out
}

/// The matches of a check in a text.
pub fn verify_content(content: &str, verification: &VerificationStep) -> (r: Vec<FileMatch>)
    requires
        content@.len() < u32::MAX,
    ensures
        hits_of(r@) == check_hits(content@, verification.model()),
    decreases verification,
{
    match verification {
        VerificationStep::Literal(text) => find_literal_matches(content, text.as_str(), false),
        VerificationStep::BoostedLiteral { text, boost } => find_literal_matches(
            content,
            text.as_str(),
            false,
        ),
        VerificationStep::Phrase { text, case_insensitive } => find_literal_matches(
            content,
            text.as_str(),
            !*case_insensitive,
        ),
        VerificationStep::BoostedPhrase { text, case_insensitive, boost } => find_literal_matches(
            content,
            text.as_str(),
            !*case_insensitive,
        ),
        VerificationStep::Regex(pattern) => find_regex_matches(content, pattern.as_str()),
        VerificationStep::Near { terms, distance } => find_proximity_matches(
            content,
            terms,
            *distance,
        ),
        VerificationStep::And(steps) => verify_all(content, steps),
        VerificationStep::Or(steps) => verify_any(content, steps),
        VerificationStep::Not(inner) => {
            let found = verify_content(content, inner);
            assert(hits_of(found@).len() == found@.len());
            if found.len() > 0 {
                return no_matches();
            }
            let v = lines_of(content);
            assert(texts(v@).len() == v@.len());
            let line = if v.len() > 0 {
                assert(texts(v@)[0] == v@[0]@);
                v[0].clone()
            } else {
                String::new()
            };
            let mut out: Vec<FileMatch> = Vec::new();
            let m: FileMatch = (1, line, 0, 0);
            out.push(m);
            assert(hits_of(out@) =~= seq![(1u32, first_line(content@), 0nat, 0nat)]);
            out
        },
    }
}

fn has_all(content: &str, steps: &Vec<VerificationStep>) -> (r: bool)
    requires
        content@.len() < u32::MAX,
    ensures
        r == (all_hits(content@, checks(steps@), steps@.len()).len() > 0),
    decreases steps,
{
    if steps.len() == 0 {
        return false;
    }
    let ghost m = checks(steps@);
    proof {
        lemma_all_hits(content@, m, m.len());
    }
    let mut i: usize = 0;
    while i < steps.len()
        invariant
            i <= steps@.len(),
            content@.len() < u32::MAX,
            m == checks(steps@),
            all_hits(content@, m, m.len()).len() > 0 <==> forall|i: int|
                0 <= i < m.len() ==> check_present(content@, #[trigger] m[i]),
            forall|j: int| 0 <= j < i ==> check_present(content@, #[trigger] m[j]),
        decreases steps@.len() - i,
    {
        assert(m[i as int] == steps@[i as int].model());
        if !has_match(content, &steps[i]) {
            assert(!check_present(content@, m[i as int]));
            return false;
        }
        i += 1;
    }
    true
}

fn has_any_of(content: &str, steps: &Vec<VerificationStep>) -> (r: bool)
    requires
        content@.len() < u32::MAX,
    ensures
        r == (any_hits(content@, checks(steps@), steps@.len()).len() > 0),
    decreases steps,
{
    let ghost m = checks(steps@);
    proof {
        lemma_any_hits(content@, m, m.len());
    }
    let mut i: usize = 0;
    while i < steps.len()
        invariant
            i <= steps@.len(),
            content@.len() < u32::MAX,
            m == checks(steps@),
            any_hits(content@, m, m.len()).len() > 0 <==> exists|i: int|
                0 <= i < m.len() && check_present(content@, #[trigger] m[i]),
            forall|j: int| 0 <= j < i ==> !check_present(content@, #[trigger] m[j]),
        decreases steps@.len() - i,
    {
        assert(m[i as int] == steps@[i as int].model());
        if has_match(content, &steps[i]) {
            assert(check_present(content@, m[i as int]));
            return true;
        }
        i += 1;
    }
    false
}

/// Whether a check has any match in a text.
pub fn has_match(content: &str, verification: &VerificationStep) -> (r: bool)
    requires
        content@.len() < u32::MAX,
    ensures
        r == check_present(content@, verification.model()),
    decreases verification,
{
    match verification {
        VerificationStep::Literal(text) => has_literal_match(content, text.as_str()),
        VerificationStep::BoostedLiteral { text, boost } => has_literal_match(
            content,
            text.as_str(),
        ),
        VerificationStep::Phrase { text, case_insensitive } => if *case_insensitive {
            has_literal_match(content, text.as_str())
        } else {
            has_exact_match(content, text.as_str())
        },
        VerificationStep::BoostedPhrase { text, case_insensitive, boost } =>
        if *case_insensitive {
            has_literal_match(content, text.as_str())
        } else {
            has_exact_match(content, text.as_str())
        },
        VerificationStep::Regex(pattern) => has_regex_match(content, pattern.as_str()),
        VerificationStep::Near { terms, distance } => {
            let found = find_proximity_matches(content, terms, *distance);
            assert(hits_of(found@).len() == found@.len());
            found.len() > 0
        },
        VerificationStep::And(steps) => has_all(content, steps),
        VerificationStep::Or(steps) => has_any_of(content, steps),
        VerificationStep::Not(inner) => !has_match(content, inner),
    }
}

/// Lines with their numbers from one on.
pub type ContextLines = Vec<(u32, String)>;

/// The contents of numbered lines.
pub open spec fn numbered(v: Seq<(u32, String)>) -> Seq<(u32, Seq<char>)> {
    v.map_values(|p: (u32, String)| (p.0, p.1@))
}

/// The lines from index `a` up to index `b`, as far as there are lines.
pub open spec fn numbered_between(v: Seq<Seq<char>>, a: int, b: int) -> Seq<(u32, Seq<char>)> {
    let end = if b < v.len() {
        b
    } else {
        v.len() as int
    };
    Seq::new(
        if a < end {
            (end - a) as nat
        } else {
            0
        },
        |i: int| ((a + i + 1) as u32, v[a + i]),
    )
}

fn number_lines(v: &Vec<String>, a: usize, b: usize) -> (r: ContextLines)
    requires
        v@.len() < u32::MAX,
    ensures
        numbered(r@) == numbered_between(texts(v@), a as int, b as int),
{
    let mut out: ContextLines = Vec::new();
    let end = if b < v.len() {
        b
    } else {
        v.len()
    };
    let mut i: usize = a;
    while i < end
        invariant
            a <= i,
            a <= end ==> i <= end,
            end <= v@.len() < u32::MAX,
            end == (if b < v@.len() {
                b as int
            } else {
                v@.len() as int
            }),
            a > end ==> i == a,
            numbered(out@) =~= numbered_between(texts(v@), a as int, i as int),
        decreases end - i,
    {
        let ghost before = out@;
        let line = ((i + 1) as u32, v[i].clone());
        out.push(line);
        i += 1;
        assert(numbered(out@) =~= numbered(before).push((line.0, line.1@)));
    }
    assert(numbered(out@) =~= numbered_between(texts(v@), a as int, b as int));
    out
}

/// The lines before and after a match, which is on line `match_line`.
pub fn extract_context_from_lines(
    v: &Vec<String>,
    match_line: u32,
    before: u32,
    after: u32,
) -> (r: (ContextLines, ContextLines))
    requires
        match_line >= 1,
        v@.len() < u32::MAX,
    ensures
        numbered(r.0@) == numbered_between(
            texts(v@),
            if match_line - 1 >= before {
                match_line - 1 - before
            } else {
                0
            },
            match_line - 1,
        ),
        numbered(r.1@) == numbered_between(texts(v@), match_line as int, match_line + after),
{
    let index = (match_line - 1) as usize;
    let start = index.saturating_sub(before as usize);
    let first = number_lines(v, start, index);
    let from = match_line as usize;
    let to = from.saturating_add(after as usize);
    let second = number_lines(v, from, to);
    assert(numbered(second@) =~= numbered_between(
        texts(v@),
        match_line as int,
        match_line + after,
    ));
    (first, second)
}

} // verus!
