//! The query grammar: what each text means.
//!
//! A state is the text still to be read together with what has been collected
//! so far. Each function says what is read from a state: a tree and the state
//! after it, or the error at which reading ends.
use crate::query::ast::{
    no_filters, plain_options, ErrorModel, FilterModel, NodeModel, QueryModel, QueryOptions,
    SortOrder, MAX_QUERY_BYTES, MAX_QUERY_DEPTH, MAX_QUERY_NODES,
};
use crate::query::calendar::timestamp;
use crate::query::outside::{ends_inside, glob_refusal};
use crate::query::validate::{boost_kind, BoostKind};
use crate::text::{
    all_digits, byte_len, decimal_text, digits_number, is_digit, lemma_span, letter_or_digit,
    lowered, span, unsigned, white_space,
};
use vstd::prelude::*;

verus! {

broadcast use lemma_span;

/// The fields of the grammar.
#[derive(Debug, Clone, Copy, PartialEq, Eq, Structural)]
pub enum Field {
    Path,
    File,
    Name,
    Ext,
    Lang,
    Size,
    Line,
    Mtime,
    Near,
    Sort,
    Top,
}

/// What may be given once in a query.
#[derive(Debug, Clone, Copy, PartialEq, Eq, Structural)]
pub enum FieldKey {
    Path,
    File,
    Ext,
    Lang,
    SizeAbove,
    SizeBelow,
    SizeEqual,
    Line,
    MtimeAbove,
    MtimeBelow,
    MtimeEqual,
    Sort,
    Top,
}

/// Where the scan of a regular expression stands in a character class.
#[derive(Debug, Clone, Copy, PartialEq, Eq, Structural)]
pub enum ClassState {
    /// Right after the opening bracket.
    First,
    /// After the bracket and a caret.
    Negated,
    /// The class has content.
    Filled,
}

/// The field of a name in lower case.
pub open spec fn field_named(name: Seq<char>) -> Option<Field> {
    if name == "path"@ {
        Some(Field::Path)
    } else if name == "file"@ {
        Some(Field::File)
    } else if name == "name"@ {
        Some(Field::Name)
    } else if name == "ext"@ {
        Some(Field::Ext)
    } else if name == "lang"@ {
        Some(Field::Lang)
    } else if name == "size"@ {
        Some(Field::Size)
    } else if name == "line"@ {
        Some(Field::Line)
    } else if name == "mtime"@ {
        Some(Field::Mtime)
    } else if name == "near"@ {
        Some(Field::Near)
    } else if name == "sort"@ {
        Some(Field::Sort)
    } else if name == "top"@ {
        Some(Field::Top)
    } else {
        None
    }
}

/// Whether a language filter, in lower case, names a language.
pub open spec fn known_language(name: Seq<char>) -> bool {
    name == "rust"@ || name == "rs"@ || name == "python"@ || name == "py"@ || name == "javascript"@
        || name == "js"@ || name == "typescript"@ || name == "ts"@ || name == "go"@ || name
        == "java"@ || name == "c"@ || name == "cpp"@ || name == "c++"@ || name == "ruby"@ || name
        == "rb"@ || name == "shell"@ || name == "sh"@ || name == "bash"@ || name == "unknown"@
        || name == "other"@
}

/// The sort order of a name in lower case.
pub open spec fn sort_named(name: Seq<char>) -> Option<SortOrder> {
    if name == "score"@ {
        Some(SortOrder::Score)
    } else if name == "recency"@ || name == "recent"@ || name == "mtime"@ {
        Some(SortOrder::Recency)
    } else if name == "path"@ || name == "name"@ {
        Some(SortOrder::Path)
    } else {
        None
    }
}

/// What a use of a field takes up.
pub open spec fn field_key(field: Field, value: Seq<char>) -> FieldKey {
    let above = value.len() > 0 && value[0] == '>';
    let below = value.len() > 0 && value[0] == '<';
    match field {
        Field::Path => FieldKey::Path,
        Field::File => FieldKey::File,
        Field::Name => FieldKey::File,
        Field::Ext => FieldKey::Ext,
        Field::Lang => FieldKey::Lang,
        Field::Size => if above {
            FieldKey::SizeAbove
        } else if below {
            FieldKey::SizeBelow
        } else {
            FieldKey::SizeEqual
        },
        Field::Line => FieldKey::Line,
        Field::Mtime => if above {
            FieldKey::MtimeAbove
        } else if below {
            FieldKey::MtimeBelow
        } else {
            FieldKey::MtimeEqual
        },
        Field::Near => FieldKey::Top,
        Field::Sort => FieldKey::Sort,
        Field::Top => FieldKey::Top,
    }
}

/// A character that makes a path or file filter a glob.
pub open spec fn is_glob_char(c: char) -> bool {
    c == '*' || c == '?' || c == '[' || c == ']' || c == '{' || c == '}'
}

/// Whether a path or file filter is a glob.
pub open spec fn is_glob(s: Seq<char>) -> bool {
    exists|i: int| 0 <= i < s.len() && is_glob_char(#[trigger] s[i])
}

/// The text still to be read, and what has been collected.
pub struct ParseState {
    pub input: Seq<char>,
    pub rest: Seq<char>,
    pub depth: int,
    pub unary: int,
    pub nodes: int,
    pub directives: int,
    pub seen: Seq<FieldKey>,
    pub filters: FilterModel,
    pub options: QueryOptions,
}

/// What reading gives: a tree and the state after it, or an error.
pub type Parsed = Result<(NodeModel, ParseState), ErrorModel>;

impl ParseState {
    /// The state before anything has been read.
    pub open spec fn start(input: Seq<char>) -> ParseState {
        ParseState {
            input,
            rest: input,
            depth: 0,
            unary: 0,
            nodes: 0,
            directives: 0,
            seen: Seq::empty(),
            filters: no_filters(),
            options: plain_options(),
        }
    }

    /// The same state further on in the text.
    pub open spec fn at(self, rest: Seq<char>) -> ParseState {
        ParseState { rest, ..self }
    }

    /// The same state behind any white space.
    pub open spec fn past_space(self) -> ParseState {
        self.at(self.rest.skip(span(self.rest, |c: char| white_space(c)) as int))
    }

    /// Whether the text goes on with a character.
    pub open spec fn sees(self, c: char) -> bool {
        self.rest.len() > 0 && self.rest[0] == c
    }

    /// The state behind the next character.
    pub open spec fn next(self) -> ParseState {
        self.at(self.rest.skip(1))
    }

    /// The error with a message at this place.
    pub open spec fn error(self, message: Seq<char>) -> ErrorModel {
        ErrorModel { message, offset: (byte_len(self.input) - byte_len(self.rest)) as nat }
    }

    /// The error with a message behind the whole text.
    pub open spec fn error_at_end(self, message: Seq<char>) -> ErrorModel {
        self.at(Seq::empty()).error(message)
    }
}

/// Reads the inside of a quoted phrase up to its closing quote: the text after
/// `done`, and what follows the quote. A backslash before a quote or a
/// backslash stands for that character.
pub open spec fn phrase(done: Seq<char>, s: Seq<char>) -> Option<(Seq<char>, Seq<char>)>
    decreases s.len(),
{
    if s.len() == 0 {
        None
    } else if s[0] == '"' {
        Some((done, s.skip(1)))
    } else if s[0] == '\\' && s.len() > 1 && (s[1] == '"' || s[1] == '\\') {
        phrase(done.push(s[1]), s.skip(2))
    } else {
        phrase(done.push(s[0]), s.skip(1))
    }
}

/// The innermost class once something has been read inside it.
pub open spec fn filled(classes: Seq<ClassState>) -> Seq<ClassState> {
    if classes.len() == 0 {
        classes
    } else {
        classes.update(classes.len() - 1, ClassState::Filled)
    }
}

/// The open classes after a character that is neither escaped nor the end.
pub open spec fn classes_after(classes: Seq<ClassState>, c: char) -> Seq<ClassState> {
    if c == '[' {
        filled(classes).push(ClassState::First)
    } else if classes.len() == 0 {
        classes
    } else if c == ']' && classes.last() == ClassState::Filled {
        classes.drop_last()
    } else if c == '^' && classes.last() == ClassState::First {
        classes.update(classes.len() - 1, ClassState::Negated)
    } else {
        filled(classes)
    }
}

/// Reads a regular expression up to the slash that ends it: the pattern, and
/// what follows the slash; or why it does not end. A slash does not end the
/// pattern inside a character class or when escaped; an escaped slash loses
/// its backslash.
pub open spec fn regex_body(
    done: Seq<char>,
    classes: Seq<ClassState>,
    s: Seq<char>,
) -> Result<(Seq<char>, Seq<char>), Seq<char>>
    decreases s.len(),
{
    if s.len() == 0 {
        Err("Unclosed regex; expected `/`"@)
    } else if s[0] == '\\' {
        if s.len() == 1 {
            Err("Unclosed regex escape"@)
        } else if s[1] == '/' {
            regex_body(done.push('/'), filled(classes), s.skip(2))
        } else {
            regex_body(done.push('\\').push(s[1]), filled(classes), s.skip(2))
        }
    } else if s[0] == '/' && classes.len() == 0 {
        if ends_inside(done) {
            regex_body(done.push('/'), seq![ClassState::Filled], s.skip(1))
        } else {
            Ok((done, s.skip(1)))
        }
    } else {
        regex_body(done.push(s[0]), classes_after(classes, s[0]), s.skip(1))
    }
}

/// Number of characters of a bare term: up to white space, a bar, or a closing
/// parenthesis that the term did not open itself.
pub open spec fn term_len(s: Seq<char>, parens: nat) -> nat
    decreases s.len(),
{
    if s.len() == 0 || white_space(s[0]) || s[0] == '|' || (s[0] == ')' && parens == 0) {
        0
    } else if s[0] == '(' {
        1 + term_len(s.skip(1), parens + 1)
    } else if s[0] == ')' {
        1 + term_len(s.skip(1), (parens - 1) as nat)
    } else {
        1 + term_len(s.skip(1), parens)
    }
}

/// The pieces of a text between commas.
pub open spec fn pieces(s: Seq<char>) -> Seq<Seq<char>>
    decreases s.len(),
{
    let n = span(s, |c: char| c != ',') as int;
    if n == s.len() {
        seq![s]
    } else {
        seq![s.take(n)] + pieces(s.skip(n + 1))
    }
}

/// Whether one of several texts is empty.
pub open spec fn has_empty(v: Seq<Seq<char>>) -> bool {
    exists|i: int| 0 <= i < v.len() && (#[trigger] v[i]).len() == 0
}

/// A proximity search: at least two terms, and a distance of ten lines unless
/// a number comes third or later.
#[verifier::opaque]
pub open spec fn near(st: ParseState, value: Seq<char>) -> Result<NodeModel, ErrorModel> {
    let parts = pieces(value);
    let numbered = parts.len() >= 3 && all_digits(parts.last());
    let terms = if numbered {
        parts.drop_last()
    } else {
        parts
    };
    let distance = if numbered {
        digits_number(parts.last(), u32::MAX as nat)
    } else {
        Some(10)
    };
    if distance is None {
        Err(st.error("Invalid proximity distance"@))
    } else if terms.len() < 2 || has_empty(terms) {
        Err(st.error("near requires at least two nonempty terms"@))
    } else {
        Ok(NodeModel::Near { terms, distance: distance->0 as u32 })
    }
}

/// The state with other filters.
pub open spec fn filtered(st: ParseState, filters: FilterModel) -> Result<ParseState, ErrorModel> {
    Ok(ParseState { filters, ..st })
}

/// The effect of `size:` with a value.
pub open spec fn size_filter(st: ParseState, value: Seq<char>) -> Result<ParseState, ErrorModel> {
    if value[0] != '>' && value[0] != '<' {
        Err(st.error("Size requires >N or <N"@))
    } else {
        match unsigned(value.skip(1), u64::MAX as nat) {
            None => Err(st.error("Invalid size"@)),
            Some(n) => if value[0] == '>' {
                if n == u64::MAX {
                    Err(st.error("Size bound cannot match any file"@))
                } else {
                    filtered(st, FilterModel { size_min: Some((n + 1) as u64), ..st.filters })
                }
            } else {
                if n == 0 {
                    Err(st.error("Size bound cannot match any file"@))
                } else {
                    filtered(st, FilterModel { size_max: Some((n - 1) as u64), ..st.filters })
                }
            },
        }
    }
}

/// The effect of `line:` with a value: one line, or two with a dash between.
pub open spec fn line_filter(st: ParseState, value: Seq<char>) -> Result<ParseState, ErrorModel> {
    let n = span(value, |c: char| c != '-') as int;
    let first = value.take(n);
    let last = if n < value.len() {
        value.skip(n + 1)
    } else {
        value
    };
    match (unsigned(first, u32::MAX as nat), unsigned(last, u32::MAX as nat)) {
        (None, _) => Err(st.error("Invalid starting line"@)),
        (_, None) => Err(st.error("Invalid ending line"@)),
        (Some(a), Some(b)) => if a == 0 || b < a {
            Err(st.error("Line range must be positive and ordered"@))
        } else {
            filtered(
                st,
                FilterModel {
                    line_start: Some(a as u32),
                    line_end: Some(b as u32),
                    ..st.filters
                },
            )
        },
    }
}

/// The effect of `mtime:` with a value: after, before, or the day from a time.
pub open spec fn mtime_filter(st: ParseState, value: Seq<char>) -> Result<ParseState, ErrorModel> {
    if value[0] == '>' {
        if st.seen.contains(FieldKey::MtimeEqual) {
            Err(st.error("Conflicting mtime filters"@))
        } else {
            match timestamp(value.skip(1)) {
                Some(n) if n < u64::MAX => filtered(
                    st,
                    FilterModel { mtime_min: Some((n + 1) as u64), ..st.filters },
                ),
                _ => Err(st.error("Invalid mtime lower bound"@)),
            }
        }
    } else if value[0] == '<' {
        if st.seen.contains(FieldKey::MtimeEqual) {
            Err(st.error("Conflicting mtime filters"@))
        } else {
            match timestamp(value.skip(1)) {
                Some(n) if n > 0 => filtered(
                    st,
                    FilterModel { mtime_max: Some((n - 1) as u64), ..st.filters },
                ),
                _ => Err(st.error("Invalid mtime upper bound"@)),
            }
        }
    } else if st.seen.contains(FieldKey::MtimeAbove) || st.seen.contains(FieldKey::MtimeBelow) {
        Err(st.error("Conflicting mtime filters"@))
    } else {
        match timestamp(value) {
            None => Err(st.error("Invalid date or timestamp"@)),
            Some(n) => if n + 86399 > u64::MAX {
                Err(st.error("Timestamp range overflows"@))
            } else {
                filtered(
                    st,
                    FilterModel {
                        mtime_min: Some(n as u64),
                        mtime_max: Some((n + 86399) as u64),
                        ..st.filters
                    },
                )
            },
        }
    }
}

/// The effect of a filter or option with a value that is not empty.
#[verifier::opaque]
pub open spec fn directive(st: ParseState, field: Field, value: Seq<char>) -> Result<
    ParseState,
    ErrorModel,
> {
    match field {
        Field::Path | Field::File | Field::Name => if is_glob(value) && glob_refusal(
            value,
        ) is Some {
            Err(st.error("Invalid glob: "@ + glob_refusal(value)->0))
        } else if field == Field::Path {
            filtered(st, FilterModel { path: Some(value), ..st.filters })
        } else {
            filtered(st, FilterModel { filename: Some(value), ..st.filters })
        },
        Field::Ext => filtered(st, FilterModel { ext: Some(value), ..st.filters }),
        Field::Lang => if known_language(lowered(value)) {
            filtered(st, FilterModel { lang: Some(value), ..st.filters })
        } else {
            Err(st.error("Unknown language filter"@))
        },
        Field::Size => size_filter(st, value),
        Field::Line => line_filter(st, value),
        Field::Mtime => mtime_filter(st, value),
        Field::Sort => match sort_named(lowered(value)) {
            Some(sort) => Ok(
                ParseState { options: QueryOptions { sort, ..st.options }, ..st },
            ),
            None => Err(st.error("Unknown sort order"@)),
        },
        Field::Top | Field::Near => match unsigned(value, usize::MAX as nat) {
            Some(n) => Ok(
                ParseState {
                    options: QueryOptions {
                        limit: n as usize,
                        explicit_limit: true,
                        ..st.options
                    },
                    ..st
                },
            ),
            None => Err(st.error("Invalid result limit"@)),
        },
    }
}

/// The value of a field: a quoted phrase, or everything up to white space, a
/// bar or a closing parenthesis; and the state after it.
pub open spec fn field_value(st: ParseState) -> Result<(Seq<char>, ParseState), ErrorModel> {
    if st.sees('"') {
        match phrase(Seq::empty(), st.rest.skip(1)) {
            Some((text, rest)) => Ok((text, st.at(rest))),
            None => Err(st.error_at_end("Unclosed quoted phrase"@)),
        }
    } else {
        let n = span(
            st.rest,
            |c: char| !white_space(c) && c != '|' && c != ')',
        ) as int;
        Ok((st.rest.take(n), st.at(st.rest.skip(n))))
    }
}

/// Whether what follows a field name and its colon gives a filter or option, at a
/// place where one may stand, that was given before.
pub open spec fn repeats(st: ParseState, name: Seq<char>) -> bool {
    match field_value(st) {
        Ok((value, s1)) => value.len() > 0 && field_named(name)->0 != Field::Near && s1.depth == 0
            && s1.unary == 0 && s1.seen.contains(field_key(field_named(name)->0, value)),
        Err(_) => false,
    }
}

/// What follows a field name, in lower case, and its colon.
#[verifier::opaque]
pub open spec fn field(st: ParseState, name: Seq<char>) -> Parsed {
    let kind = field_named(name)->0;
    match field_value(st) {
        Err(e) => Err(e),
        Ok((value, s1)) => if value.len() == 0 {
            Err(s1.error("Missing value for "@ + name))
        } else if kind == Field::Near {
            match near(s1, value) {
                Ok(n) => Ok((n, s1)),
                Err(e) => Err(e),
            }
        } else if s1.depth != 0 || s1.unary != 0 {
            Err(s1.error("Filters/options cannot be grouped, negated or boosted"@))
        } else {
            let key = field_key(kind, value);
            if s1.seen.contains(key) {
                Err(s1.error("Duplicate "@ + name + " filter/option"@))
            } else {
                let counted = if kind == Field::Sort || kind == Field::Top {
                    s1.directives
                } else {
                    s1.directives + 1
                };
                match directive(
                    ParseState { directives: counted, seen: s1.seen.push(key), ..s1 },
                    kind,
                    value,
                ) {
                    Ok(s2) => Ok((NodeModel::Empty, s2)),
                    Err(e) => Err(e),
                }
            }
        },
    }
}

/// A bare term, or a field.
#[verifier::opaque]
pub open spec fn term(st: ParseState) -> Parsed {
    let n = span(st.rest, |c: char| letter_or_digit(c) || c == '_') as int;
    let name = lowered(st.rest.take(n));
    if n < st.rest.len() && st.rest[n] == ':' && field_named(name) is Some {
        field(st.at(st.rest.skip(n + 1)), name)
    } else {
        let k = term_len(st.rest, 0) as int;
        if k == 0 {
            Err(st.error("Expected a search term"@))
        } else {
            Ok((NodeModel::Literal(st.rest.take(k)), st.at(st.rest.skip(k))))
        }
    }
}

/// Whether the text goes on with the opening of a regular expression.
pub open spec fn sees_regex(s: Seq<char>) -> bool {
    s.len() >= 4 && s[0] == 'r' && s[1] == 'e' && s[2] == ':' && s[3] == '/'
}

/// A quoted phrase, a regular expression, a term or a field.
#[verifier::opaque]
pub open spec fn atom(st: ParseState) -> Parsed {
    if st.sees('"') {
        match phrase(Seq::empty(), st.rest.skip(1)) {
            Some((text, rest)) => Ok((NodeModel::Phrase(text), st.at(rest))),
            None => Err(st.error_at_end("Unclosed quoted phrase"@)),
        }
    } else if sees_regex(st.rest) {
        match regex_body(Seq::empty(), Seq::empty(), st.rest.skip(4)) {
            Ok((pattern, rest)) => Ok((NodeModel::Regex(pattern), st.at(rest))),
            Err(message) => Err(st.error_at_end(message)),
        }
    } else {
        term(st)
    }
}

/// A group in parentheses, or an atom.
pub open spec fn primary(st: ParseState) -> Parsed
    decreases st.rest.len(), 1nat,
{
    let s1 = st.past_space();
    if s1.sees('(') {
        if s1.depth >= MAX_QUERY_DEPTH {
            Err(s1.next().error("Query nesting is too deep"@))
        } else {
            match any_of(ParseState { depth: s1.depth + 1, ..s1.next() }) {
                Err(e) => Err(e),
                Ok((n, s2)) => {
                    let s3 = ParseState { depth: s2.depth - 1, ..s2 };
                    if s3.sees(')') {
                        Ok((n, s3.next()))
                    } else {
                        Err(s3.error("Unclosed parenthesized expression"@))
                    }
                },
            }
        }
    } else {
        atom(s1)
    }
}

/// A primary inside a negation or boost.
pub open spec fn marked_primary(st: ParseState) -> Parsed
    decreases st.rest.len(), 2nat,
{
    match primary(ParseState { unary: st.unary + 1, ..st }) {
        Err(e) => Err(e),
        Ok((n, s1)) => Ok((n, ParseState { unary: s1.unary - 1, ..s1 })),
    }
}

/// The boost after a caret: the factor and the state after it. Without a
/// number and a colon the factor is two.
#[verifier::opaque]
pub open spec fn boost_factor(st: ParseState) -> Result<(Seq<char>, ParseState), ErrorModel> {
    let n = span(st.rest, |c: char| is_digit(c) || c == '.') as int;
    if n < st.rest.len() && st.rest[n] == ':' {
        let value = st.rest.take(n);
        let s1 = st.at(st.rest.skip(n + 1));
        match boost_kind(value) {
            BoostKind::Malformed => Err(s1.error("Invalid boost"@)),
            BoostKind::TooLarge => Err(s1.error("Boost must be finite and non-negative"@)),
            BoostKind::Finite => Ok((value, s1)),
        }
    } else {
        Ok(("2"@, st))
    }
}

/// A tree with a boost.
pub open spec fn boosted(n: NodeModel, boost: Seq<char>) -> Option<NodeModel> {
    match n {
        NodeModel::Literal(text) => Some(NodeModel::BoostedLiteral { text, boost }),
        NodeModel::Phrase(text) => Some(NodeModel::BoostedPhrase { text, boost }),
        _ => None,
    }
}

/// A primary, negated by a dash or boosted by a caret before it.
pub open spec fn unary(st: ParseState) -> Parsed
    decreases st.rest.len(), 3nat,
{
    let s0 = ParseState { nodes: st.nodes + 1, ..st };
    let s1 = s0.past_space();
    if s0.nodes > MAX_QUERY_NODES {
        Err(s0.error("Query has too many terms"@))
    } else if s1.sees('-') {
        match marked_primary(s1.next()) {
            Err(e) => Err(e),
            Ok((n, s2)) => Ok((NodeModel::Not(Box::new(n)), s2)),
        }
    } else if s1.sees('^') {
        match boost_factor(s1.next()) {
            Err(e) => Err(e),
            Ok((boost, s2)) => if s2.rest.len() < s1.rest.len() {
                match marked_primary(s2) {
                    Err(e) => Err(e),
                    Ok((n, s3)) => match boosted(n, boost) {
                        Some(b) => Ok((b, s3)),
                        None => Err(s3.error("Only literals and phrases can be boosted"@)),
                    },
                }
            } else {
                Err(s2.error("Expected a search term"@))
            },
        }
    } else {
        primary(s1)
    }
}

/// The conjunction of trees.
pub open spec fn conjunction(nodes: Seq<NodeModel>) -> NodeModel {
    if nodes.len() == 0 {
        NodeModel::Empty
    } else if nodes.len() == 1 {
        nodes[0]
    } else {
        NodeModel::And(nodes)
    }
}

/// Terms side by side, after those in `nodes`. Fields that leave no tree are
/// left out. Every term reads at least one character.
pub open spec fn all_of(nodes: Seq<NodeModel>, found: bool, st: ParseState) -> Parsed
    decreases st.rest.len(), 4nat,
{
    let s1 = st.past_space();
    if s1.rest.len() == 0 || s1.sees(')') || s1.sees('|') {
        if found {
            Ok((conjunction(nodes), s1))
        } else {
            Err(s1.error("Expected a search term"@))
        }
    } else {
        match unary(s1) {
            Err(e) => Err(e),
            Ok((n, s2)) => if s2.rest.len() < s1.rest.len() {
                all_of(
                    if n is Empty {
                        nodes
                    } else {
                        nodes.push(n)
                    },
                    true,
                    s2,
                )
            } else {
                Err(s2.error("Expected a search term"@))
            },
        }
    }
}

/// Further alternatives after those in `nodes`; `before` directives had been
/// read before the first. Every alternative reads at least one character.
pub open spec fn alternatives(nodes: Seq<NodeModel>, before: int, st: ParseState) -> Parsed
    decreases st.rest.len(), 5nat,
{
    if st.sees('|') {
        let s1 = st.next().past_space();
        match all_of(Seq::empty(), false, s1) {
            Err(e) => Err(e),
            Ok((n, s2)) => if s2.rest.len() < s1.rest.len() {
                alternatives(nodes.push(n), before, s2.past_space())
            } else {
                Err(s2.error("Expected a search term"@))
            },
        }
    } else if nodes.len() > 1 && st.directives != before {
        Err(st.error("Filters/options are global; write `filter:value (a | b)`"@))
    } else if nodes.len() == 1 {
        Ok((nodes[0], st))
    } else {
        Ok((NodeModel::Or(nodes), st))
    }
}

/// Alternatives with bars between.
pub open spec fn any_of(st: ParseState) -> Parsed
    decreases st.rest.len(), 5nat,
{
    match all_of(Seq::empty(), false, st) {
        Err(e) => Err(e),
        Ok((n, s1)) => if s1.rest.len() < st.rest.len() {
            alternatives(seq![n], st.directives, s1.past_space())
        } else {
            Err(s1.error("Expected a search term"@))
        },
    }
}

/// Whether a lower bound lies above an upper bound.
pub open spec fn reversed(low: Option<u64>, high: Option<u64>) -> bool {
    low is Some && high is Some && low->0 > high->0
}

/// The query that a text spells, limits on the finished tree aside.
pub open spec fn whole_query(input: Seq<char>) -> Result<QueryModel, ErrorModel> {
    let s0 = ParseState::start(input).past_space();
    let read = if s0.rest.len() == 0 {
        Ok((NodeModel::Empty, s0))
    } else {
        any_of(s0)
    };
    match read {
        Err(e) => Err(e),
        Ok((root, s1)) => {
            let s2 = s1.past_space();
            if s2.rest.len() > 0 {
                Err(s2.error("Unexpected closing delimiter"@))
            } else if reversed(s2.filters.size_min, s2.filters.size_max) || reversed(
                s2.filters.mtime_min,
                s2.filters.mtime_max,
            ) {
                Err(s2.error("Filter range is empty or reversed"@))
            } else {
                Ok(QueryModel { root, filters: s2.filters, options: s2.options })
            }
        },
    }
}

/// What a text means as a query: the query, or why it is refused.
pub open spec fn meaning(input: Seq<char>) -> Result<QueryModel, ErrorModel> {
    if byte_len(input) > MAX_QUERY_BYTES {
        Err(
            ErrorModel {
                message: "Query exceeds "@ + decimal_text(MAX_QUERY_BYTES as nat) + " bytes"@,
                offset: 0,
            },
        )
    } else {
        match whole_query(input) {
            Err(e) => Err(e),
            Ok(q) => match q.defect() {
                Some(e) => Err(e),
                None => Ok(q),
            },
        }
    }
}

} // verus!
