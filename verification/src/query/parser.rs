//! Reading queries.
use crate::query::ast::{
    lemma_and_model, lemma_or_model, models, texts, Boost, ErrorModel, FilterModel, NodeModel,
    Query, QueryError, QueryFilters, QueryModel, QueryNode, QueryOptions, SortOrder,
    MAX_QUERY_BYTES, MAX_QUERY_DEPTH, MAX_QUERY_NODES,
};
use crate::query::calendar::{parse_timestamp, timestamp};
use crate::query::grammar::{
    all_of, alternatives, any_of, atom, boost_factor, boosted, directive, field, field_key,
    field_named, field_value, filled, has_empty, is_glob, is_glob_char, known_language, line_filter,
    marked_primary, meaning, mtime_filter, near, phrase, pieces, primary, regex_body, repeats,
    reversed, sees_regex, size_filter, sort_named, term, term_len, unary, whole_query, ClassState,
    Field, FieldKey, ParseState, Parsed,
};
use crate::query::outside::{check_glob, ends_in_class};
use crate::query::validate::{classify_boost, BoostKind};
use crate::text::{
    byte_len, bytes_in, chars_of, digits_from, is_digit, join3, lemma_byte_len_bounds,
    lemma_byte_len_concat, lemma_skip_skip, lemma_span, lemma_span_is, letter_or_digit, lower_chars,
    number_text, parse_digits, parse_unsigned, span, spells, text_between, text_of, white_space,
    width_of,
};
use vstd::prelude::*;

verus! {

broadcast use {lemma_span, lemma_skip_skip};

/// A condition on characters.
#[derive(Clone, Copy, PartialEq, Eq, Structural)]
enum CharKind {
    Space,
    BoostDigit,
    Word,
    Value,
    NotComma,
    NotDash,
}

impl CharKind {
    spec fn holds(self, c: char) -> bool {
        match self {
            CharKind::Space => white_space(c),
            CharKind::BoostDigit => is_digit(c) || c == '.',
            CharKind::Word => letter_or_digit(c) || c == '_',
            CharKind::Value => !white_space(c) && c != '|' && c != ')',
            CharKind::NotComma => c != ',',
            CharKind::NotDash => c != '-',
        }
    }

    fn test(self, c: char) -> (r: bool)
        ensures
            r == self.holds(c),
    {
        match self {
            CharKind::Space => c.is_whitespace(),
            CharKind::BoostDigit => ('0' <= c && c <= '9') || c == '.',
            CharKind::Word => c.is_alphanumeric() || c == '_',
            CharKind::Value => !c.is_whitespace() && c != '|' && c != ')',
            CharKind::NotComma => c != ',',
            CharKind::NotDash => c != '-',
        }
    }
}

/// The end of the run of characters of a class that starts at `from`.
fn run_end(chars: &Vec<char>, from: usize, class: CharKind) -> (end: usize)
    requires
        from <= chars@.len(),
    ensures
        from <= end <= chars@.len(),
        forall|j: int| from <= j < end ==> class.holds(#[trigger] chars@[j]),
        end < chars@.len() ==> !class.holds(chars@[end as int]),
{
    let mut end: usize = from;
    while end < chars.len() && class.test(chars[end])
        invariant
            from <= end <= chars@.len(),
            forall|j: int| from <= j < end ==> class.holds(#[trigger] chars@[j]),
        decreases chars@.len() - end,
    {
        end += 1;
    }
    end
}

/// The end of a run is where the leading run of the rest of the text ends.
proof fn lemma_run(chars: Seq<char>, from: int, end: int, p: spec_fn(char) -> bool)
    requires
        0 <= from <= end <= chars.len(),
        forall|j: int| from <= j < end ==> p(#[trigger] chars[j]),
        end < chars.len() ==> !p(chars[end]),
    ensures
        span(chars.skip(from), p) == end - from,
        chars.skip(from).take(end - from) == chars.subrange(from, end),
{
    assert forall|i: int| 0 <= i < end - from implies p(#[trigger] chars.skip(from)[i]) by {
        assert(p(chars[from + i]));
    }
    lemma_span_is(chars.skip(from), p, end - from);
    assert(chars.skip(from).take(end - from) =~= chars.subrange(from, end));
}

/// The contents of a list of character lists.
spec fn char_lists(v: Seq<Vec<char>>) -> Seq<Seq<char>> {
    v.map_values(|c: Vec<char>| c@)
}

/// The characters from `from` up to `to`.
fn chars_between(chars: &Vec<char>, from: usize, to: usize) -> (r: Vec<char>)
    requires
        from <= to <= chars@.len(),
    ensures
        r@ == chars@.subrange(from as int, to as int),
{
    let mut out: Vec<char> = Vec::new();
    let mut i: usize = from;
    while i < to
        invariant
            from <= i <= to <= chars@.len(),
            out@ == chars@.subrange(from as int, i as int),
        decreases to - i,
    {
        out.push(chars[i]);
        i += 1;
        assert(out@ =~= chars@.subrange(from as int, i as int));
    }
    out
}

/// The pieces of a text between commas.
fn split_commas(value: &Vec<char>) -> (r: Vec<Vec<char>>)
    ensures
        char_lists(r@) == pieces(value@),
{
    let mut out: Vec<Vec<char>> = Vec::new();
    let mut start: usize = 0;
    assert(char_lists(out@) + pieces(value@.skip(0)) =~= pieces(value@)) by {
        assert(value@.skip(0) =~= value@);
    }
    loop
        invariant
            start <= value@.len(),
            char_lists(out@) + pieces(value@.skip(start as int)) == pieces(value@),
        decreases value@.len() - start,
    {
        let end = run_end(value, start, CharKind::NotComma);
        proof {
            lemma_run(value@, start as int, end as int, |c: char| c != ',');
        }
        let ghost before = out@;
        let ghost rest = value@.skip(start as int);
        let piece = chars_between(value, start, end);
        out.push(piece);
        assert(char_lists(out@) =~= char_lists(before).push(piece@));
        if end == value.len() {
            assert(rest.take(rest.len() as int) =~= rest);
            assert(char_lists(out@) =~= char_lists(before) + seq![rest]);
            return out;
        }
        assert(char_lists(out@) + pieces(value@.skip(end + 1)) =~= char_lists(before) + (seq![
            rest.take(end - start),
        ] + pieces(rest.skip(end - start + 1))));
        start = end + 1;
    }
}

/// Whether a text is a glob.
fn has_glob_char(value: &Vec<char>) -> (r: bool)
    ensures
        r == is_glob(value@),
{
    let mut i: usize = 0;
    while i < value.len()
        invariant
            i <= value@.len(),
            forall|j: int| 0 <= j < i ==> !is_glob_char(#[trigger] value@[j]),
        decreases value@.len() - i,
    {
        let c = value[i];
        if c == '*' || c == '?' || c == '[' || c == ']' || c == '{' || c == '}' {
            assert(is_glob_char(value@[i as int]));
            return true;
        }
        i += 1;
    }
    false
}

/// The field of a name in lower case.
fn field_of(name: &Vec<char>) -> (r: Option<Field>)
    ensures
        r == field_named(name@),
{
    if spells(name, "path") {
        Some(Field::Path)
    } else if spells(name, "file") {
        Some(Field::File)
    } else if spells(name, "name") {
        Some(Field::Name)
    } else if spells(name, "ext") {
        Some(Field::Ext)
    } else if spells(name, "lang") {
        Some(Field::Lang)
    } else if spells(name, "size") {
        Some(Field::Size)
    } else if spells(name, "line") {
        Some(Field::Line)
    } else if spells(name, "mtime") {
        Some(Field::Mtime)
    } else if spells(name, "near") {
        Some(Field::Near)
    } else if spells(name, "sort") {
        Some(Field::Sort)
    } else if spells(name, "top") {
        Some(Field::Top)
    } else {
        None
    }
}

/// Whether a name in lower case is that of a language.
fn is_language(name: &Vec<char>) -> (r: bool)
    ensures
        r == known_language(name@),
{
    spells(name, "rust") || spells(name, "rs") || spells(name, "python") || spells(name, "py")
        || spells(name, "javascript") || spells(name, "js") || spells(name, "typescript")
        || spells(name, "ts") || spells(name, "go") || spells(name, "java") || spells(name, "c")
        || spells(name, "cpp") || spells(name, "c++") || spells(name, "ruby") || spells(name, "rb")
        || spells(name, "shell") || spells(name, "sh") || spells(name, "bash") || spells(
        name,
        "unknown",
    ) || spells(name, "other")
}

/// The sort order of a name in lower case.
fn sort_of(name: &Vec<char>) -> (r: Option<SortOrder>)
    ensures
        r == sort_named(name@),
{
    if spells(name, "score") {
        Some(SortOrder::Score)
    } else if spells(name, "recency") || spells(name, "recent") || spells(name, "mtime") {
        Some(SortOrder::Recency)
    } else if spells(name, "path") || spells(name, "name") {
        Some(SortOrder::Path)
    } else {
        None
    }
}

/// What a use of a field takes up.
fn key_of(kind: Field, value: &Vec<char>) -> (r: FieldKey)
    requires
        value@.len() > 0,
    ensures
        r == field_key(kind, value@),
{
    let above = value[0] == '>';
    let below = value[0] == '<';
    match kind {
        Field::Path => FieldKey::Path,
        Field::File => FieldKey::File,
        Field::Name => FieldKey::File,
        Field::Ext => FieldKey::Ext,
        Field::Lang => FieldKey::Lang,
        Field::Size => if above {
            FieldKey::SizeAbove
        } else if below {
            FieldKey::SizeBelow
        } else {
            FieldKey::SizeEqual
        },
        Field::Line => FieldKey::Line,
        Field::Mtime => if above {
            FieldKey::MtimeAbove
        } else if below {
            FieldKey::MtimeBelow
        } else {
            FieldKey::MtimeEqual
        },
        Field::Near => FieldKey::Top,
        Field::Sort => FieldKey::Sort,
        Field::Top => FieldKey::Top,
    }
}

/// Whether the line bounds are both absent, or both present, positive and in
/// order.
pub open spec fn ordered_lines(f: FilterModel) -> bool {
    match (f.line_start, f.line_end) {
        (None, None) => true,
        (Some(a), Some(b)) => 1 <= a <= b,
        _ => false,
    }
}

/// A query being read: the characters, the place reached, and what has been
/// collected.
struct QueryParser {
    chars: Vec<char>,
    pos: usize,
    depth: usize,
    unary: usize,
    nodes: usize,
    directives: usize,
    seen_fields: Vec<FieldKey>,
    filters: QueryFilters,
    options: QueryOptions,
}

/// What reading gave, with the state after it.
spec fn outcome(r: Result<QueryNode, QueryError>, after: QueryParser) -> Parsed {
    match r {
        Ok(n) => Ok((n.model(), after.state())),
        Err(e) => Err(e@),
    }
}

impl QueryParser {
    spec fn rest(self) -> Seq<char> {
        self.chars@.skip(self.pos as int)
    }

    spec fn state(self) -> ParseState {
        ParseState {
            input: self.chars@,
            rest: self.rest(),
            depth: self.depth as int,
            unary: self.unary as int,
            nodes: self.nodes as int,
            directives: self.directives as int,
            seen: self.seen_fields@,
            filters: self.filters@,
            options: self.options,
        }
    }

    spec fn wf(self) -> bool {
        &&& self.pos <= self.chars@.len() <= MAX_QUERY_BYTES
        &&& self.nodes <= MAX_QUERY_NODES
        &&& self.depth <= MAX_QUERY_DEPTH
        &&& self.unary <= self.depth + 1
        &&& self.directives <= self.nodes
        &&& ordered_lines(self.filters@)
        &&& self.filters.search_scope is None
    }

    /// Only the place differs.
    spec fn moved(self, old: QueryParser) -> bool {
        &&& self == (QueryParser { pos: self.pos, ..old })
        &&& old.pos <= self.pos <= self.chars@.len()
    }

    /// Only the filters and options differ.
    spec fn beside(self, old: QueryParser) -> bool {
        self == (QueryParser { filters: self.filters, options: self.options, ..old })
    }

    /// What reading a tree keeps.
    spec fn keeps(self, old: QueryParser) -> bool {
        &&& self.wf()
        &&& self.chars == old.chars
        &&& self.depth == old.depth
        &&& self.unary == old.unary
        &&& self.pos > old.pos
        &&& self.nodes >= old.nodes
    }

    fn new(input: &str) -> (r: QueryParser)
        requires
            byte_len(input@) <= MAX_QUERY_BYTES,
        ensures
            r.wf(),
            r.state() == ParseState::start(input@),
            r.unary == 0 && r.depth == 0,
    {
        proof {
            lemma_byte_len_bounds(input@);
        }
        let r = QueryParser {
            chars: chars_of(input),
            pos: 0,
            depth: 0,
            unary: 0,
            nodes: 0,
            directives: 0,
            seen_fields: Vec::new(),
            filters: QueryFilters::default(),
            options: QueryOptions::default(),
        };
        assert(r.rest() =~= input@);
        assert(r.state().seen =~= Seq::<FieldKey>::empty());
        r
    }

    /// Number of bytes before the place reached.
    fn offset(&self) -> (r: usize)
        requires
            self.pos <= self.chars@.len() <= MAX_QUERY_BYTES,
        ensures
            r == byte_len(self.chars@) - byte_len(self.rest()),
    {
        let mut n: usize = 0;
        let mut i: usize = 0;
        while i < self.pos
            invariant
                i <= self.pos <= self.chars@.len() <= MAX_QUERY_BYTES,
                n == byte_len(self.chars@.take(i as int)),
                n <= 4 * i,
            decreases self.pos - i,
        {
            n += width_of(self.chars[i]);
            i += 1;
            assert(self.chars@.take(i as int).drop_last() =~= self.chars@.take(i - 1));
        }
        proof {
            lemma_byte_len_concat(self.chars@.take(self.pos as int), self.rest());
            assert(self.chars@.take(self.pos as int) + self.rest() =~= self.chars@);
        }
        n
    }

    /// An error at the place reached.
    fn error(&self, message: String) -> (r: QueryError)
        requires
            self.pos <= self.chars@.len() <= MAX_QUERY_BYTES,
        ensures
            r@ == self.state().error(message@),
    {
        QueryError { message, offset: self.offset() }
    }

    /// An error at the place reached.
    fn fail(&self, message: &str) -> (r: QueryError)
        requires
            self.pos <= self.chars@.len() <= MAX_QUERY_BYTES,
        ensures
            r@ == self.state().error(message@),
    {
        self.error(message.to_owned())
    }

    fn is_eof(&self) -> (r: bool)
        requires
            self.pos <= self.chars@.len(),
        ensures
            r == (self.rest().len() == 0),
    {
        self.pos >= self.chars.len()
    }

    fn sees(&self, expected: char) -> (r: bool)
        requires
            self.pos <= self.chars@.len(),
        ensures
            r == self.state().sees(expected),
    {
        self.pos < self.chars.len() && self.chars[self.pos] == expected
    }

    /// Goes on behind the next character, if there is one.
    fn advance(&mut self)
        requires
            old(self).pos <= old(self).chars@.len(),
        ensures
            final(self).moved(*old(self)),
            old(self).rest().len() > 0 ==> final(self).state() == old(self).state().next()
                && final(self).pos == old(self).pos + 1,
            old(self).rest().len() == 0 ==> *final(self) == *old(self),
    {
        if self.pos < self.chars.len() {
            self.pos += 1;
        }
    }

    fn consume_char(&mut self, expected: char) -> (r: bool)
        requires
            old(self).pos <= old(self).chars@.len(),
        ensures
            r == old(self).state().sees(expected),
            final(self).moved(*old(self)),
            r ==> final(self).state() == old(self).state().next(),
            r ==> final(self).pos == old(self).pos + 1,
            !r ==> *final(self) == *old(self),
    {
        if self.sees(expected) {
            self.advance();
            true
        } else {
            false
        }
    }

    fn skip_whitespace(&mut self)
        requires
            old(self).pos <= old(self).chars@.len(),
        ensures
            final(self).moved(*old(self)),
            final(self).state() == old(self).state().past_space(),
    {
        let end = run_end(&self.chars, self.pos, CharKind::Space);
        proof {
            lemma_run(
                self.chars@,
                self.pos as int,
                end as int,
                |c: char| white_space(c),
            );
        }
        self.pos = end;
    }

    /// Reads a quoted phrase from its opening quote.
    fn parse_phrase(&mut self) -> (r: Result<String, QueryError>)
        requires
            old(self).wf(),
            old(self).state().sees('"'),
        ensures
            final(self).moved(*old(self)),
            match r {
                Ok(t) => phrase(Seq::empty(), old(self).rest().skip(1)) == Some(
                    (t@, final(self).rest()),
                ) && final(self).pos > old(self).pos,
                Err(e) => phrase(Seq::empty(), old(self).rest().skip(1)) is None && e@ == old(self).state().error_at_end("Unclosed quoted phrase"@),
            },
    {
        self.consume_char('"');
        let mut text = String::new();
        let ghost whole = phrase(Seq::empty(), old(self).rest().skip(1));
        while self.pos < self.chars.len()
            invariant
                self.moved(*old(self)),
                old(self).wf(),
                self.pos > old(self).pos,
                whole == phrase(text@, self.rest()),
                whole == phrase(Seq::empty(), old(self).rest().skip(1)),
            decreases self.chars@.len() - self.pos,
        {
            let ch = self.chars[self.pos];
            let ghost s = self.rest();
            self.advance();
            assert(self.rest() == s.skip(1));
            if ch == '"' {
                return Ok(text);
            }
            if ch == '\\' && (self.sees('"') || self.sees('\\')) {
                text.push(self.chars[self.pos]);
                self.advance();
                assert(self.rest() == s.skip(2));
            } else {
                text.push(ch);
            }
        }
        assert(self.rest() =~= Seq::<char>::empty());
        Err(self.fail("Unclosed quoted phrase"))
    }

    /// Marks the innermost open class as having content.
    fn fill_class(classes: &mut Vec<ClassState>)
        ensures
            final(classes)@ == filled(old(classes)@),
    {
        let n = classes.len();
        if n > 0 {
            classes.set(n - 1, ClassState::Filled);
        }
    }

    /// Reads a regular expression from its opening.
    fn parse_regex(&mut self) -> (r: Result<QueryNode, QueryError>)
        requires
            old(self).wf(),
            sees_regex(old(self).rest()),
        ensures
            final(self).moved(*old(self)),
            match r {
                Ok(n) => n is Regex && regex_body(
                    Seq::empty(),
                    Seq::empty(),
                    old(self).rest().skip(4),
                ) == Ok::<(Seq<char>, Seq<char>), Seq<char>>((n->Regex_0@, final(self).rest()))
                    && final(self).pos > old(self).pos,
                Err(e) => e@ == old(self).state().error_at_end(e.message@) && regex_body(
                    Seq::empty(),
                    Seq::empty(),
                    old(self).rest().skip(4),
                ) == Err::<(Seq<char>, Seq<char>), Seq<char>>(e.message@),
            },
    {
        self.pos += 4;
        let mut pattern = String::new();
        let mut classes: Vec<ClassState> = Vec::new();
        let ghost whole = regex_body(Seq::empty(), Seq::empty(), old(self).rest().skip(4));
        assert(classes@ =~= Seq::empty());
        while self.pos < self.chars.len()
            invariant
                self.moved(*old(self)),
                old(self).wf(),
                self.pos >= old(self).pos + 4,
                whole == regex_body(pattern@, classes@, self.rest()),
                whole == regex_body(Seq::empty(), Seq::empty(), old(self).rest().skip(4)),
            decreases self.chars@.len() - self.pos,
        {
            let ch = self.chars[self.pos];
            let ghost s = self.rest();
            self.advance();
            assert(self.rest() == s.skip(1));
            if ch == '\\' {
                if self.pos >= self.chars.len() {
                    assert(self.rest() =~= Seq::<char>::empty());
                    return Err(self.fail("Unclosed regex escape"));
                }
                let next = self.chars[self.pos];
                self.advance();
                assert(self.rest() == s.skip(2));
                if next != '/' {
                    pattern.push('\\');
                }
                pattern.push(next);
                Self::fill_class(&mut classes);
            } else if ch == '/' && classes.len() == 0 {
                if ends_in_class(pattern.as_str()) {
                    classes.push(ClassState::Filled);
                    pattern.push('/');
                    assert(classes@ =~= seq![ClassState::Filled]);
                } else {
                    return Ok(QueryNode::Regex(pattern));
                }
            } else {
                let n = classes.len();
                if ch == '[' {
                    Self::fill_class(&mut classes);
                    classes.push(ClassState::First);
                } else if n > 0 {
                    let state = classes[n - 1];
                    if ch == ']' && state == ClassState::Filled {
                        classes.pop();
                    } else if ch == '^' && state == ClassState::First {
                        classes.set(n - 1, ClassState::Negated);
                    } else {
                        classes.set(n - 1, ClassState::Filled);
                    }
                }
                pattern.push(ch);
            }
        }
        assert(self.rest() =~= Seq::<char>::empty());
        Err(self.fail("Unclosed regex; expected `/`"))
    }

    /// Reads the terms of a proximity search.
    fn parse_near_query(&self, value: &Vec<char>) -> (r: Result<QueryNode, QueryError>)
        requires
            self.wf(),
        ensures
            match r {
                Ok(n) => near(self.state(), value@) == Ok::<NodeModel, ErrorModel>(n.model()),
                Err(e) => near(self.state(), value@) == Err::<NodeModel, ErrorModel>(e@),
            },
    {
        reveal(near);
        let mut parts = split_commas(value);
        let ghost all = char_lists(parts@);
        let mut distance: u32 = 10;
        let count = parts.len();
        if count >= 3 {
            let last = &parts[count - 1];
            assert(all.last() == last@);
            assert(last@.skip(0) =~= last@);
            if digits_from(last, 0) {
                assert(last@.subrange(0, last@.len() as int) =~= last@);
                match parse_digits(last, 0, last.len(), u32::MAX as u64) {
                    Some(n) => {
                        distance = n as u32;
                    },
                    None => return Err(self.fail("Invalid proximity distance")),
                }
                parts.pop();
                assert(char_lists(parts@) =~= all.drop_last());
            }
        }
        let ghost kept = char_lists(parts@);
        let mut terms: Vec<String> = Vec::new();
        let mut i: usize = 0;
        let mut empty = false;
        while i < parts.len()
            invariant
                i <= parts@.len(),
                kept == char_lists(parts@),
                texts(terms@) == kept.take(i as int),
                empty == has_empty(kept.take(i as int)),
            decreases parts@.len() - i,
        {
            let ghost before = terms@;
            assert(kept[i as int] == parts@[i as int]@);
            let t = text_of(&parts[i]);
            let ghost taken = kept.take(i as int);
            let ghost more = kept.take(i + 1);
            assert(more =~= taken.push(t@));
            proof {
                if has_empty(taken) {
                    let k = choose|k: int| 0 <= k < taken.len() && (#[trigger] taken[k]).len() == 0;
                    assert(more[k].len() == 0);
                }
                if t@.len() == 0 {
                    assert(more[i as int].len() == 0);
                }
                if has_empty(more) && t@.len() > 0 {
                    let k = choose|k: int| 0 <= k < more.len() && (#[trigger] more[k]).len() == 0;
                    assert(taken[k].len() == 0);
                }
            }
            if t.as_str().is_empty() {
                empty = true;
            }
            terms.push(t);
            assert(texts(terms@) =~= texts(before).push(t@));
            i += 1;
        }
        assert(kept.take(kept.len() as int) =~= kept);
        if terms.len() < 2 || empty {
            return Err(self.fail("near requires at least two nonempty terms"));
        }
        Ok(QueryNode::Near { terms, distance })
    }

    /// Whether a key has been used.
    fn has_seen(&self, key: FieldKey) -> (r: bool)
        ensures
            r == self.seen_fields@.contains(key),
    {
        let mut i: usize = 0;
        while i < self.seen_fields.len()
            invariant
                i <= self.seen_fields@.len(),
                forall|j: int| 0 <= j < i ==> self.seen_fields@[j] != key,
            decreases self.seen_fields@.len() - i,
        {
            if self.seen_fields[i] == key {
                return true;
            }
            i += 1;
        }
        false
    }

    /// Applies `size:` with a value.
    fn set_size(&mut self, value: &Vec<char>) -> (r: Result<(), QueryError>)
        requires
            old(self).wf(),
            value@.len() > 0,
        ensures
            match r {
                Ok(_) => size_filter(old(self).state(), value@) == Ok::<ParseState, ErrorModel>(
                    final(self).state(),
                ) && final(self).wf(),
                Err(e) => size_filter(old(self).state(), value@) == Err::<ParseState, ErrorModel>(
                    e@,
                ),
            },
            final(self).beside(*old(self)),
    {
        let above = value[0] == '>';
        if !above && value[0] != '<' {
            return Err(self.fail("Size requires >N or <N"));
        }
        assert(value@.subrange(1, value@.len() as int) =~= value@.skip(1));
        let n: u64 = match parse_unsigned(value, 1, value.len(), u64::MAX) {
            Some(n) => n,
            None => return Err(self.fail("Invalid size")),
        };
        if above {
            if n == u64::MAX {
                return Err(self.fail("Size bound cannot match any file"));
            }
            self.filters.size_min = Some(n + 1);
        } else {
            if n == 0 {
                return Err(self.fail("Size bound cannot match any file"));
            }
            self.filters.size_max = Some(n - 1);
        }
        Ok(())
    }

    /// Applies `line:` with a value.
    fn set_lines(&mut self, value: &Vec<char>) -> (r: Result<(), QueryError>)
        requires
            old(self).wf(),
            value@.len() > 0,
        ensures
            match r {
                Ok(_) => line_filter(old(self).state(), value@) == Ok::<ParseState, ErrorModel>(
                    final(self).state(),
                ) && final(self).wf(),
                Err(e) => line_filter(old(self).state(), value@) == Err::<ParseState, ErrorModel>(
                    e@,
                ),
            },
            final(self).beside(*old(self)),
    {
        let dash = run_end(value, 0, CharKind::NotDash);
        proof {
            lemma_run(value@, 0, dash as int, |c: char| c != '-');
            assert(value@.skip(0) =~= value@);
            assert(value@.subrange(0, dash as int) =~= value@.take(dash as int));
        }
        let max: u64 = u32::MAX as u64;
        let last: usize = if dash < value.len() {
            dash + 1
        } else {
            0
        };
        assert(value@.subrange(last as int, value@.len() as int) =~= if dash < value@.len() {
            value@.skip(dash + 1)
        } else {
            value@
        });
        let a: u32 = match parse_unsigned(value, 0, dash, max) {
            Some(n) => n as u32,
            None => return Err(self.fail("Invalid starting line")),
        };
        let b: u32 = match parse_unsigned(value, last, value.len(), max) {
            Some(n) => n as u32,
            None => return Err(self.fail("Invalid ending line")),
        };
        if a == 0 || b < a {
            return Err(self.fail("Line range must be positive and ordered"));
        }
        self.filters.line_start = Some(a);
        self.filters.line_end = Some(b);
        Ok(())
    }

    /// Applies `mtime:` with a value.
    fn set_mtime(&mut self, value: &Vec<char>) -> (r: Result<(), QueryError>)
        requires
            old(self).wf(),
            value@.len() > 0,
        ensures
            match r {
                Ok(_) => mtime_filter(old(self).state(), value@) == Ok::<ParseState, ErrorModel>(
                    final(self).state(),
                ) && final(self).wf(),
                Err(e) => mtime_filter(old(self).state(), value@) == Err::<ParseState, ErrorModel>(
                    e@,
                ),
            },
            final(self).beside(*old(self)),
    {
        let above = value[0] == '>';
        if above || value[0] == '<' {
            if self.has_seen(FieldKey::MtimeEqual) {
                return Err(self.fail("Conflicting mtime filters"));
            }
            let bound = chars_between(value, 1, value.len());
            assert(bound@ =~= value@.skip(1));
            let time = parse_timestamp(&bound);
            if above {
                let n: u64 = match time {
                    Some(n) => n,
                    None => u64::MAX,
                };
                if n == u64::MAX {
                    return Err(self.fail("Invalid mtime lower bound"));
                }
                self.filters.mtime_min = Some(n + 1);
            } else {
                let n: u64 = match time {
                    Some(n) => n,
                    None => 0,
                };
                if n == 0 {
                    return Err(self.fail("Invalid mtime upper bound"));
                }
                self.filters.mtime_max = Some(n - 1);
            }
        } else {
            if self.has_seen(FieldKey::MtimeAbove) || self.has_seen(FieldKey::MtimeBelow) {
                return Err(self.fail("Conflicting mtime filters"));
            }
            let n: u64 = match parse_timestamp(value) {
                Some(n) => n,
                None => return Err(self.fail("Invalid date or timestamp")),
            };
            if n > u64::MAX - 86399 {
                return Err(self.fail("Timestamp range overflows"));
            }
            self.filters.mtime_min = Some(n);
            self.filters.mtime_max = Some(n + 86399);
        }
        Ok(())
    }

    /// Applies a filter or option with a value.
    fn set_directive(&mut self, kind: Field, value: &Vec<char>) -> (r: Result<(), QueryError>)
        requires
            old(self).wf(),
            value@.len() > 0,
        ensures
            match r {
                Ok(_) => directive(old(self).state(), kind, value@) == Ok::<ParseState, ErrorModel>(
                    final(self).state(),
                ) && final(self).wf(),
                Err(e) => directive(old(self).state(), kind, value@) == Err::<
                    ParseState,
                    ErrorModel,
                >(e@),
            },
            final(self).beside(*old(self)),
    {
        reveal(directive);
        match kind {
            Field::Path | Field::File | Field::Name => {
                let text = text_of(value);
                if has_glob_char(value) {
                    match check_glob(text.as_str()) {
                        Some(message) => {
                            let full = join3("Invalid glob: ", message.as_str(), "");
                            proof {
                                reveal_strlit("");
                                assert(full@ =~= "Invalid glob: "@ + message@);
                            }
                            return Err(self.error(full));
                        },
                        None => {},
                    }
                }
                if kind == Field::Path {
                    self.filters.path = Some(text);
                } else {
                    self.filters.filename = Some(text);
                }
            },
            Field::Ext => {
                self.filters.ext = Some(text_of(value));
            },
            Field::Lang => {
                if !is_language(&lower_chars(value)) {
                    return Err(self.fail("Unknown language filter"));
                }
                self.filters.lang = Some(text_of(value));
            },
            Field::Size => return self.set_size(value),
            Field::Line => return self.set_lines(value),
            Field::Mtime => return self.set_mtime(value),
            Field::Sort => match sort_of(&lower_chars(value)) {
                Some(sort) => {
                    self.options.sort = sort;
                },
                None => return Err(self.fail("Unknown sort order")),
            },
            Field::Top | Field::Near => {
                assert(value@.subrange(0, value@.len() as int) =~= value@);
                match parse_unsigned(value, 0, value.len(), usize::MAX as u64) {
                    Some(n) => {
                        self.options.limit = n as usize;
                        self.options.explicit_limit = true;
                    },
                    None => return Err(self.fail("Invalid result limit")),
                }
            },
        }
        Ok(())
    }

    /// Reads the value of a field.
    fn parse_value(&mut self) -> (r: Result<Vec<char>, QueryError>)
        requires
            old(self).wf(),
        ensures
            final(self).moved(*old(self)),
            match r {
                Ok(v) => field_value(old(self).state()) == Ok::<(Seq<char>, ParseState), ErrorModel>(
                    (v@, final(self).state()),
                ),
                Err(e) => field_value(old(self).state()) == Err::<
                    (Seq<char>, ParseState),
                    ErrorModel,
                >(e@),
            },
    {
        if self.sees('"') {
            match self.parse_phrase() {
                Ok(text) => Ok(chars_of(text.as_str())),
                Err(e) => Err(e),
            }
        } else {
            let start = self.pos;
            let end = run_end(&self.chars, start, CharKind::Value);
            proof {
                lemma_run(
                    self.chars@,
                    start as int,
                    end as int,
                    |c: char| !white_space(c) && c != '|' && c != ')',
                );
            }
            self.pos = end;
            Ok(chars_between(&self.chars, start, end))
        }
    }

    /// Reads what follows a field name, in lower case, and its colon. A filter or
    /// option that was given before, or stands in a group or behind an operator, is
    /// refused, and changes nothing.
    fn parse_field(&mut self, name: &Vec<char>, kind: Field) -> (r: Result<QueryNode, QueryError>)
        requires
            old(self).wf(),
            old(self).directives < old(self).nodes,
            field_named(name@) == Some(kind),
        ensures
            outcome(r, *final(self)) == field(old(self).state(), name@),
            repeats(old(self).state(), name@) ==> r is Err && final(self).filters
                == old(self).filters && final(self).options == old(self).options,
            kind != Field::Near && (old(self).depth != 0 || old(self).unary != 0) ==> r is Err
                && final(self).filters == old(self).filters && final(self).options
                == old(self).options,
            r is Ok ==> final(self).wf() && final(self).chars == old(self).chars && final(self).pos
                >= old(self).pos && final(self).depth == old(self).depth && final(self).unary
                == old(self).unary && final(self).nodes == old(self).nodes,
    {
        reveal(field);
        let value = match self.parse_value() {
            Ok(v) => v,
            Err(e) => return Err(e),
        };
        if value.len() == 0 {
            let full = join3("Missing value for ", text_of(name).as_str(), "");
            proof {
                reveal_strlit("");
                assert(full@ =~= "Missing value for "@ + name@);
            }
            return Err(self.error(full));
        }
        if kind == Field::Near {
            return self.parse_near_query(&value);
        }
        if self.depth != 0 || self.unary != 0 {
            return Err(self.fail("Filters/options cannot be grouped, negated or boosted"));
        }
        let key = key_of(kind, &value);
        if self.has_seen(key) {
            return Err(
                self.error(join3("Duplicate ", text_of(name).as_str(), " filter/option")),
            );
        }
        if kind != Field::Sort && kind != Field::Top {
            self.directives += 1;
        }
        self.seen_fields.push(key);
        match self.set_directive(kind, &value) {
            Ok(_) => Ok(QueryNode::Empty),
            Err(e) => Err(e),
        }
    }

    /// Number of characters of the bare term at the place reached.
    fn bare_term_end(&self) -> (end: usize)
        requires
            self.wf(),
        ensures
            self.pos <= end <= self.chars@.len(),
            end - self.pos == term_len(self.rest(), 0),
    {
        let mut end: usize = self.pos;
        let mut parens: usize = 0;
        while end < self.chars.len()
            invariant
                self.wf(),
                self.pos <= end <= self.chars@.len(),
                parens <= end - self.pos,
                term_len(self.rest(), 0) == (end - self.pos) + term_len(
                    self.chars@.skip(end as int),
                    parens as nat,
                ),
            ensures
                self.pos <= end <= self.chars@.len(),
                term_len(self.rest(), 0) == end - self.pos,
            decreases self.chars@.len() - end,
        {
            let ch = self.chars[end];
            assert(self.chars@.skip(end as int).skip(1) == self.chars@.skip(end + 1));
            if ch.is_whitespace() || ch == '|' || (ch == ')' && parens == 0) {
                break;
            }
            if ch == '(' {
                parens += 1;
            }
            if ch == ')' {
                parens -= 1;
            }
            end += 1;
        }
        end
    }

    /// Reads a bare term or a field.
    fn parse_term(&mut self) -> (r: Result<QueryNode, QueryError>)
        requires
            old(self).wf(),
            old(self).directives < old(self).nodes,
        ensures
            outcome(r, *final(self)) == term(old(self).state()),
            r is Ok ==> final(self).keeps(*old(self)),
    {
        reveal(term);
        let start = self.pos;
        let end = run_end(&self.chars, start, CharKind::Word);
        proof {
            lemma_run(
                self.chars@,
                start as int,
                end as int,
                |c: char| letter_or_digit(c) || c == '_',
            );
        }
        if end < self.chars.len() && self.chars[end] == ':' {
            let name = lower_chars(&chars_between(&self.chars, start, end));
            match field_of(&name) {
                Some(kind) => {
                    self.pos = end + 1;
                    return self.parse_field(&name, kind);
                },
                None => {},
            }
        }
        let stop = self.bare_term_end();
        if stop == start {
            return Err(self.fail("Expected a search term"));
        }
        let text = text_between(&self.chars, start, stop);
        assert(text@ =~= self.rest().take(stop - start));
        self.pos = stop;
        Ok(QueryNode::Literal(text))
    }

    /// Reads a phrase, a regular expression, a term or a field.
    fn parse_atom(&mut self) -> (r: Result<QueryNode, QueryError>)
        requires
            old(self).wf(),
            old(self).directives < old(self).nodes,
        ensures
            outcome(r, *final(self)) == atom(old(self).state()),
            r is Ok ==> final(self).keeps(*old(self)),
    {
        reveal(atom);
        if self.sees('"') {
            return match self.parse_phrase() {
                Ok(text) => Ok(QueryNode::Phrase(text)),
                Err(e) => Err(e),
            };
        }
        if self.pos + 4 <= self.chars.len() && self.chars[self.pos] == 'r' && self.chars[self.pos
            + 1] == 'e' && self.chars[self.pos + 2] == ':' && self.chars[self.pos + 3] == '/' {
            return self.parse_regex();
        }
        self.parse_term()
    }

    /// Reads a group in parentheses or an atom.
    #[verifier::rlimit(60)]
    #[verifier::spinoff_prover]
    fn parse_primary(&mut self) -> (r: Result<QueryNode, QueryError>)
        requires
            old(self).wf(),
            old(self).directives < old(self).nodes,
        ensures
            outcome(r, *final(self)) == primary(old(self).state()),
            r is Ok ==> final(self).keeps(*old(self)),
        decreases old(self).chars@.len() - old(self).pos, 1nat,
    {
        self.skip_whitespace();
        let ghost s1 = self.state();
        if self.consume_char('(') {
            if self.depth >= MAX_QUERY_DEPTH {
                return Err(self.fail("Query nesting is too deep"));
            }
            self.depth += 1;
            let node = match self.parse_or() {
                Ok(n) => n,
                Err(e) => return Err(e),
            };
            self.depth -= 1;
            if !self.consume_char(')') {
                return Err(self.fail("Unclosed parenthesized expression"));
            }
            return Ok(node);
        }
        self.parse_atom()
    }

    /// Reads the factor after a caret.
    fn parse_boost(&mut self) -> (r: Result<Boost, QueryError>)
        requires
            old(self).wf(),
        ensures
            final(self).moved(*old(self)),
            match r {
                Ok(b) => boost_factor(old(self).state()) == Ok::<
                    (Seq<char>, ParseState),
                    ErrorModel,
                >((b.text@, final(self).state())),
                Err(e) => boost_factor(old(self).state()) == Err::<
                    (Seq<char>, ParseState),
                    ErrorModel,
                >(e@),
            },
    {
        reveal(boost_factor);
        let start = self.pos;
        let end = run_end(&self.chars, start, CharKind::BoostDigit);
        proof {
            lemma_run(
                self.chars@,
                start as int,
                end as int,
                |c: char| is_digit(c) || c == '.',
            );
        }
        if end < self.chars.len() && self.chars[end] == ':' {
            let value = chars_between(&self.chars, start, end);
            self.pos = end + 1;
            match classify_boost(&value) {
                BoostKind::Malformed => Err(self.fail("Invalid boost")),
                BoostKind::TooLarge => Err(self.fail("Boost must be finite and non-negative")),
                BoostKind::Finite => Ok(Boost { text: text_of(&value) }),
            }
        } else {
            Ok(Boost { text: "2".to_owned() })
        }
    }

    /// Reads a primary inside a negation or boost.
    fn parse_marked(&mut self) -> (r: Result<QueryNode, QueryError>)
        requires
            old(self).wf(),
            old(self).unary <= old(self).depth,
            old(self).directives < old(self).nodes,
        ensures
            outcome(r, *final(self)) == marked_primary(old(self).state()),
            r is Ok ==> final(self).keeps(*old(self)),
        decreases old(self).chars@.len() - old(self).pos, 2nat,
    {
        self.unary += 1;
        let inner = match self.parse_primary() {
            Ok(n) => n,
            Err(e) => return Err(e),
        };
        self.unary -= 1;
        Ok(inner)
    }

    /// Reads a primary with a negation or boost before it, if there is one.
    #[verifier::rlimit(60)]
    #[verifier::spinoff_prover]
    fn parse_unary(&mut self) -> (r: Result<QueryNode, QueryError>)
        requires
            old(self).wf(),
            old(self).unary <= old(self).depth,
        ensures
            outcome(r, *final(self)) == unary(old(self).state()),
            r is Ok ==> final(self).keeps(*old(self)),
        decreases old(self).chars@.len() - old(self).pos, 3nat,
    {
        self.nodes += 1;
        if self.nodes > MAX_QUERY_NODES {
            return Err(self.fail("Query has too many terms"));
        }
        self.skip_whitespace();
        if self.consume_char('-') {
            return match self.parse_marked() {
                Ok(n) => Ok(QueryNode::Not(Box::new(n))),
                Err(e) => Err(e),
            };
        }
        if self.consume_char('^') {
            let boost = match self.parse_boost() {
                Ok(b) => b,
                Err(e) => return Err(e),
            };
            return match self.parse_marked() {
                Ok(QueryNode::Literal(text)) => Ok(QueryNode::BoostedLiteral { text, boost }),
                Ok(QueryNode::Phrase(text)) => Ok(QueryNode::BoostedPhrase { text, boost }),
                Ok(_) => Err(self.fail("Only literals and phrases can be boosted")),
                Err(e) => Err(e),
            };
        }
        self.parse_primary()
    }

    /// Reads terms side by side.
    #[verifier::rlimit(60)]
    #[verifier::spinoff_prover]
    fn parse_and(&mut self) -> (r: Result<QueryNode, QueryError>)
        requires
            old(self).wf(),
            old(self).unary <= old(self).depth,
        ensures
            outcome(r, *final(self)) == all_of(Seq::empty(), false, old(self).state()),
            r is Ok ==> final(self).keeps(*old(self)),
        decreases old(self).chars@.len() - old(self).pos, 4nat,
    {
        let mut nodes: Vec<QueryNode> = Vec::new();
        let mut parsed_any = false;
        assert(models(nodes@) =~= Seq::empty());
        loop
            invariant
                self.wf(),
                old(self).wf(),
                self.chars == old(self).chars,
                self.depth == old(self).depth,
                self.unary == old(self).unary,
                self.unary <= self.depth,
                self.pos >= old(self).pos,
                self.nodes >= old(self).nodes,
                parsed_any ==> self.pos > old(self).pos,
                !parsed_any ==> nodes@.len() == 0,
                all_of(Seq::empty(), false, old(self).state()) == all_of(
                    models(nodes@),
                    parsed_any,
                    self.state(),
                ),
            decreases self.chars@.len() - self.pos,
        {
            let ghost before = self.state();
            self.skip_whitespace();
            if self.is_eof() || self.sees(')') || self.sees('|') {
                if !parsed_any {
                    return Err(self.fail("Expected a search term"));
                }
                let ghost m = models(nodes@);
                if nodes.len() == 0 {
                    return Ok(QueryNode::Empty);
                }
                if nodes.len() == 1 {
                    let n = nodes.pop().unwrap();
                    assert(m[0] == n.model());
                    return Ok(n);
                }
                proof {
                    lemma_and_model(nodes);
                }
                return Ok(QueryNode::And(nodes));
            }
            parsed_any = true;
            match self.parse_unary() {
                Ok(QueryNode::Empty) => {},
                Ok(node) => {
                    let ghost list = nodes@;
                    nodes.push(node);
                    assert(models(nodes@) =~= models(list).push(node.model()));
                },
                Err(e) => return Err(e),
            }
        }
    }

    /// Reads alternatives with bars between.
    fn parse_or(&mut self) -> (r: Result<QueryNode, QueryError>)
        requires
            old(self).wf(),
            old(self).unary <= old(self).depth,
        ensures
            outcome(r, *final(self)) == any_of(old(self).state()),
            r is Ok ==> final(self).keeps(*old(self)),
        decreases old(self).chars@.len() - old(self).pos, 5nat,
    {
        let before = self.directives;
        let mut nodes: Vec<QueryNode> = Vec::new();
        match self.parse_and() {
            Ok(n) => {
                nodes.push(n);
                assert(models(nodes@) =~= seq![n.model()]);
            },
            Err(e) => return Err(e),
        }
        self.skip_whitespace();
        while self.consume_char('|')
            invariant
                self.keeps(*old(self)),
                old(self).wf(),
                self.unary <= self.depth,
                before == old(self).directives,
                nodes@.len() >= 1,
                any_of(old(self).state()) == alternatives(
                    models(nodes@),
                    before as int,
                    self.state(),
                ),
            ensures
                !self.state().sees('|'),
            decreases self.chars@.len() - self.pos,
        {
            self.skip_whitespace();
            match self.parse_and() {
                Ok(n) => {
                    let ghost list = nodes@;
                    nodes.push(n);
                    assert(models(nodes@) =~= models(list).push(n.model()));
                },
                Err(e) => return Err(e),
            }
            self.skip_whitespace();
        }
        if nodes.len() > 1 && self.directives != before {
            return Err(self.fail("Filters/options are global; write `filter:value (a | b)`"));
        }
        let ghost m = models(nodes@);
        if nodes.len() == 1 {
            let n = nodes.pop().unwrap();
            assert(m[0] == n.model());
            return Ok(n);
        }
        proof {
            lemma_or_model(nodes);
        }
        Ok(QueryNode::Or(nodes))
    }

    /// Reads the whole query.
    #[verifier::spinoff_prover]
    #[verifier::rlimit(40)]
    fn parse(self) -> (r: Result<Query, QueryError>)
        requires
            self.wf(),
            self.unary == 0 && self.depth == 0,
            self.state() == ParseState::start(self.chars@),
        ensures
            match r {
                Ok(q) => whole_query(self.chars@) == Ok::<QueryModel, ErrorModel>(q@)
                    && ordered_lines(q.filters@) && q.filters.search_scope is None,
                Err(e) => whole_query(self.chars@) == Err::<QueryModel, ErrorModel>(e@),
            },
    {
        let mut parser = self;
        parser.skip_whitespace();
        let root = if parser.is_eof() {
            QueryNode::Empty
        } else {
            match parser.parse_or() {
                Ok(n) => n,
                Err(e) => return Err(e),
            }
        };
        parser.skip_whitespace();
        if !parser.is_eof() {
            return Err(parser.fail("Unexpected closing delimiter"));
        }
        let size_reversed = match (parser.filters.size_min, parser.filters.size_max) {
            (Some(a), Some(b)) => a > b,
            _ => false,
        };
        let mtime_reversed = match (parser.filters.mtime_min, parser.filters.mtime_max) {
            (Some(a), Some(b)) => a > b,
            _ => false,
        };
        if size_reversed || mtime_reversed {
            return Err(parser.fail("Filter range is empty or reversed"));
        }
        Ok(Query { root, filters: parser.filters, options: parser.options })
    }
}

/// Reads a complete, bounded query; refuses malformed or ambiguous text. Where
/// there is a query, its bounds are in order and no scope is set.
pub fn try_parse_query(input: &str) -> (r: Result<Query, QueryError>)
    ensures
        match r {
            Ok(q) => meaning(input@) == Ok::<QueryModel, ErrorModel>(q@),
            Err(e) => meaning(input@) == Err::<QueryModel, ErrorModel>(e@),
        },
        r is Ok ==> ordered_lines(r->Ok_0.filters@) && r->Ok_0.filters.search_scope is None,
{
    if bytes_in(input) > MAX_QUERY_BYTES {
        let message = join3("Query exceeds ", number_text(65536).as_str(), " bytes");
        return Err(QueryError { message, offset: 0 });
    }
    let parser = QueryParser::new(input);
    match parser.parse() {
        Ok(query) => match query.validate() {
            Ok(_) => Ok(query),
            Err(e) => Err(e),
        },
        Err(e) => Err(e),
    }
}

/// Reads a query; a text that is refused becomes a tree that says why.
pub fn parse_query(input: &str) -> (r: Query)
    ensures
        match meaning(input@) {
            Ok(q) => r@ == q,
            Err(e) => r@.root == NodeModel::Invalid(e) && r.filters@
                == crate::query::ast::no_filters() && r.options
                == crate::query::ast::plain_options(),
        },
{
    match try_parse_query(input) {
        Ok(q) => q,
        Err(e) => Query {
            root: QueryNode::Invalid(e),
            filters: QueryFilters::default(),
            options: QueryOptions::default(),
        },
    }
}

} // verus!
