//! What the signs of the query language ask for: exclusion, alternatives, boosts,
//! proximity, and each filter and option.
use crate::query::alternative_laws::lemma_no_space;
use crate::query::ast::{
    no_filters, plain_options, ErrorModel, FilterModel, NodeModel, QueryModel, QueryOptions,
    SortOrder, MAX_QUERY_BYTES, MAX_QUERY_NODES,
};
use crate::query::grammar::{
    all_of, alternatives, any_of, atom, boost_factor, directive, field, field_key, field_named,
    field_value, has_empty, known_language, marked_primary, meaning, near, pieces, primary,
    reversed, sees_regex, sort_named, term, unary, whole_query, Field, ParseState,
};
use crate::query::laws::{is_plain, is_plain_word, just, lemma_term_len};
use crate::query::outside::is_simple_glob;
use crate::query::validate::{
    at_depth, boost_kind, branches, first_error, is_finite_boost, own_bytes, root_error,
    total_bytes, whole_part, BoostKind,
};
use crate::text::{
    all_digits, byte_len, decimal, decimal_of_decimal_text, decimal_text, digits_number, is_digit,
    lemma_byte_len_concat, lemma_span, lemma_span_is, letter_or_digit, lowered, span, unsigned,
    white_space,
};
use vstd::prelude::*;

verus! {

/// A text that can follow a field's colon: no white space, bar or closing
/// parenthesis, and no quote at its start.
pub open spec fn is_value(v: Seq<char>) -> bool {
    &&& v.len() > 0
    &&& v[0] != '"'
    &&& forall|i: int|
        0 <= i < v.len() ==> !white_space(#[trigger] v[i]) && v[i] != '|' && v[i] != ')'
}

/// A query that asks for no text, with filters.
pub open spec fn only_filters(filters: FilterModel) -> QueryModel {
    QueryModel { root: NodeModel::Empty, filters, options: plain_options() }
}

/// A query that is one element.
proof fn lemma_single_element(input: Seq<char>, node: NodeModel, s2: ParseState)
    requires
        input.len() > 0,
        !white_space(input[0]) && input[0] != ')' && input[0] != '|',
        unary(ParseState::start(input)) == Ok::<(NodeModel, ParseState), ErrorModel>((node, s2)),
        s2.rest.len() == 0,
        !reversed(s2.filters.size_min, s2.filters.size_max),
        !reversed(s2.filters.mtime_min, s2.filters.mtime_max),
    ensures
        whole_query(input) == Ok::<QueryModel, ErrorModel>(
            QueryModel { root: node, filters: s2.filters, options: s2.options },
        ),
{
    let s0 = ParseState::start(input);
    lemma_no_space(s0);
    lemma_no_space(s2);
    let e: Seq<NodeModel> = Seq::empty();
    let nodes = if node is Empty {
        e
    } else {
        e.push(node)
    };
    assert(all_of(nodes, true, s2) == Ok::<(NodeModel, ParseState), ErrorModel>((node, s2)));
    assert(all_of(e, false, s0) == Ok::<(NodeModel, ParseState), ErrorModel>((node, s2)));
    assert(alternatives(seq![node], s0.directives, s2) == Ok::<
        (NodeModel, ParseState),
        ErrorModel,
    >((node, s2)));
    assert(any_of(s0) == Ok::<(NodeModel, ParseState), ErrorModel>((node, s2)));
}

/// A tree that is a leaf has no defect where its root has none.
proof fn lemma_leaf_is_sound(q: QueryModel)
    requires
        branches(q.root).len() == 0,
        root_error(q.root) is None,
        own_bytes(q.root) <= 4 * MAX_QUERY_BYTES,
    ensures
        q.defect() is None,
{
    let pending = seq![(q.root, 0int)];
    assert(pending.drop_last() + at_depth(branches(q.root), 1) =~= Seq::<(NodeModel, int)>::empty());
    assert(first_error(Seq::<(NodeModel, int)>::empty(), 1, own_bytes(q.root) as int) is None);
    assert(pending.last() == (q.root, 0int));
}

/// The state in which a field that stands alone takes effect.
pub open spec fn field_state(input: Seq<char>, kind: Field, value: Seq<char>) -> ParseState {
    ParseState {
        rest: Seq::empty(),
        nodes: 1,
        directives: if kind == Field::Sort || kind == Field::Top {
            0
        } else {
            1
        },
        seen: seq![field_key(kind, value)],
        ..ParseState::start(input)
    }
}

/// A field that stands alone.
proof fn lemma_field_alone(name: Seq<char>, kind: Field, value: Seq<char>)
    requires
        name.len() >= 3,
        name == lowered(name),
        forall|i: int| 0 <= i < name.len() ==> 'a' <= #[trigger] name[i] <= 'z',
        field_named(name) == Some(kind),
        is_value(value),
    ensures
        ({
            let input = name + seq![':'] + value;
            let st = ParseState { rest: Seq::empty(), nodes: 1, ..ParseState::start(input) };
            &&& input.len() > 0
            &&& !white_space(input[0]) && input[0] != ')' && input[0] != '|'
            &&& kind != Field::Near ==> unary(ParseState::start(input)) == match directive(
                field_state(input, kind, value),
                kind,
                value,
            ) {
                Ok(s2) => Ok::<(NodeModel, ParseState), ErrorModel>((NodeModel::Empty, s2)),
                Err(e) => Err(e),
            }
            &&& kind == Field::Near ==> unary(ParseState::start(input)) == match near(st, value) {
                Ok(n) => Ok::<(NodeModel, ParseState), ErrorModel>((n, st)),
                Err(e) => Err(e),
            }
        }),
{
    reveal(atom);
    reveal(term);
    reveal(field);
    let input = name + seq![':'] + value;
    let s0 = ParseState::start(input);
    let s1 = ParseState { nodes: 1, ..s0 };
    assert(input[0] == name[0]);
    assert('a' <= name[0] <= 'z');
    lemma_no_space(s0);
    lemma_no_space(s1);
    let p = |c: char| letter_or_digit(c) || c == '_';
    let n = name.len() as int;
    assert forall|i: int| 0 <= i < n implies p(#[trigger] s1.rest[i]) by {
        assert('a' <= name[i] <= 'z');
    }
    assert(s1.rest[n] == ':');
    lemma_span_is(s1.rest, p, n);
    assert(s1.rest.take(n) =~= name);
    assert(s1.rest.skip(n + 1) =~= value);
    assert(!sees_regex(s1.rest)) by {
        assert(s1.rest[2] == name[2]);
        assert('a' <= name[2] <= 'z');
    }
    let s2 = s1.at(value);
    assert(!s2.sees('"'));
    let q = |c: char| !white_space(c) && c != '|' && c != ')';
    assert forall|i: int| 0 <= i < value.len() implies q(#[trigger] value[i]) by {}
    lemma_span_is(value, q, value.len() as int);
    let e: Seq<char> = Seq::empty();
    assert(value.take(value.len() as int) =~= value);
    assert(value.skip(value.len() as int) =~= e);
    let st = s2.at(e);
    assert(field_value(s2) == Ok::<(Seq<char>, ParseState), ErrorModel>((value, st)));
    assert(s0.seen.push(field_key(kind, value)) =~= seq![field_key(kind, value)]);
    assert(!s0.seen.contains(field_key(kind, value)));
    assert(term(s1) == field(s2, name));
    assert(atom(s1) == term(s1));
    assert(primary(s1) == atom(s1));
    assert(unary(s0) == primary(s1));
}

/// What a field that stands alone means, where it takes effect.
proof fn lemma_field_query(name: Seq<char>, kind: Field, value: Seq<char>, f: FilterModel, o: QueryOptions)
    requires
        name.len() >= 3,
        name == lowered(name),
        forall|i: int| 0 <= i < name.len() ==> 'a' <= #[trigger] name[i] <= 'z',
        field_named(name) == Some(kind),
        kind != Field::Near,
        is_value(value),
        byte_len(name + seq![':'] + value) <= MAX_QUERY_BYTES,
        directive(field_state(name + seq![':'] + value, kind, value), kind, value) == Ok::<
            ParseState,
            ErrorModel,
        >(
            ParseState {
                filters: f,
                options: o,
                ..field_state(name + seq![':'] + value, kind, value)
            },
        ),
        !reversed(f.size_min, f.size_max),
        !reversed(f.mtime_min, f.mtime_max),
    ensures
        meaning(name + seq![':'] + value) == Ok::<QueryModel, ErrorModel>(
            QueryModel { root: NodeModel::Empty, filters: f, options: o },
        ),
{
    let input = name + seq![':'] + value;
    lemma_field_alone(name, kind, value);
    let s2 = ParseState { filters: f, options: o, ..field_state(input, kind, value) };
    lemma_single_element(input, NodeModel::Empty, s2);
    lemma_leaf_is_sound(QueryModel { root: NodeModel::Empty, filters: f, options: o });
}

proof fn lemma_names()
    ensures
        "path"@ == seq!['p', 'a', 't', 'h'],
        "file"@ == seq!['f', 'i', 'l', 'e'],
        "name"@ == seq!['n', 'a', 'm', 'e'],
        "ext"@ == seq!['e', 'x', 't'],
        "lang"@ == seq!['l', 'a', 'n', 'g'],
        "size"@ == seq!['s', 'i', 'z', 'e'],
        "line"@ == seq!['l', 'i', 'n', 'e'],
        "mtime"@ == seq!['m', 't', 'i', 'm', 'e'],
        "near"@ == seq!['n', 'e', 'a', 'r'],
        "sort"@ == seq!['s', 'o', 'r', 't'],
        "top"@ == seq!['t', 'o', 'p'],
{
    reveal_strlit("path");
    reveal_strlit("file");
    reveal_strlit("name");
    reveal_strlit("ext");
    reveal_strlit("lang");
    reveal_strlit("size");
    reveal_strlit("line");
    reveal_strlit("mtime");
    reveal_strlit("near");
    reveal_strlit("sort");
    reveal_strlit("top");
    assert("path"@ =~= seq!['p', 'a', 't', 'h']);
    assert("file"@ =~= seq!['f', 'i', 'l', 'e']);
    assert("name"@ =~= seq!['n', 'a', 'm', 'e']);
    assert("ext"@ =~= seq!['e', 'x', 't']);
    assert("lang"@ =~= seq!['l', 'a', 'n', 'g']);
    assert("size"@ =~= seq!['s', 'i', 'z', 'e']);
    assert("line"@ =~= seq!['l', 'i', 'n', 'e']);
    assert("mtime"@ =~= seq!['m', 't', 'i', 'm', 'e']);
    assert("near"@ =~= seq!['n', 'e', 'a', 'r']);
    assert("sort"@ =~= seq!['s', 'o', 'r', 't']);
    assert("top"@ =~= seq!['t', 'o', 'p']);
}

proof fn lemma_lower_name(name: Seq<char>)
    requires
        forall|i: int| 0 <= i < name.len() ==> 'a' <= #[trigger] name[i] <= 'z',
    ensures
        lowered(name) == name,
{
    assert(lowered(name) =~= name);
}

/// Each of the fields `ext`, `lang`, `path`, `file` and `name` sets its own filter
/// to what stands behind its colon, and nothing else. A language has to be known.
pub proof fn a_filter_sets_its_own_field(v: Seq<char>)
    requires
        is_value(v),
        byte_len(v) + 5 <= MAX_QUERY_BYTES,
    ensures
        meaning("ext"@ + seq![':'] + v) == Ok::<QueryModel, ErrorModel>(
            only_filters(FilterModel { ext: Some(v), ..no_filters() }),
        ),
        known_language(lowered(v)) ==> meaning("lang"@ + seq![':'] + v) == Ok::<
            QueryModel,
            ErrorModel,
        >(only_filters(FilterModel { lang: Some(v), ..no_filters() })),
        is_simple_glob(v) ==> meaning("path"@ + seq![':'] + v) == Ok::<QueryModel, ErrorModel>(
            only_filters(FilterModel { path: Some(v), ..no_filters() }),
        ),
        is_simple_glob(v) ==> meaning("file"@ + seq![':'] + v) == Ok::<QueryModel, ErrorModel>(
            only_filters(FilterModel { filename: Some(v), ..no_filters() }),
        ),
        is_simple_glob(v) ==> meaning("name"@ + seq![':'] + v) == Ok::<QueryModel, ErrorModel>(
            only_filters(FilterModel { filename: Some(v), ..no_filters() }),
        ),
{
    lemma_ext_alone(v);
    if known_language(lowered(v)) {
        lemma_lang_alone(v);
    }
    if is_simple_glob(v) {
        lemma_path_alone(v);
        lemma_file_alone(v);
        lemma_name_alone(v);
    }
}

proof fn lemma_ext_alone(v: Seq<char>)
    requires
        is_value(v),
        byte_len(v) + 5 <= MAX_QUERY_BYTES,
    ensures
        meaning("ext"@ + seq![':'] + v) == Ok::<QueryModel, ErrorModel>(
            only_filters(FilterModel { ext: Some(v), ..no_filters() }),
        ),
{
    lemma_known_field("ext"@, Field::Ext);
    lemma_field_bytes("ext"@, v);
    let f = FilterModel { ext: Some(v), ..no_filters() };
    let st = field_state("ext"@ + seq![':'] + v, Field::Ext, v);
    assert(directive(st, Field::Ext, v) == Ok::<ParseState, ErrorModel>(
        ParseState { filters: f, options: plain_options(), ..st },
    )) by {
        reveal(directive);
    }
    lemma_field_query("ext"@, Field::Ext, v, f, plain_options());
}

proof fn lemma_lang_alone(v: Seq<char>)
    requires
        is_value(v),
        byte_len(v) + 5 <= MAX_QUERY_BYTES,
        known_language(lowered(v)),
    ensures
        meaning("lang"@ + seq![':'] + v) == Ok::<QueryModel, ErrorModel>(
            only_filters(FilterModel { lang: Some(v), ..no_filters() }),
        ),
{
    lemma_known_field("lang"@, Field::Lang);
    lemma_field_bytes("lang"@, v);
    let f = FilterModel { lang: Some(v), ..no_filters() };
    let st = field_state("lang"@ + seq![':'] + v, Field::Lang, v);
    assert(directive(st, Field::Lang, v) == Ok::<ParseState, ErrorModel>(
        ParseState { filters: f, options: plain_options(), ..st },
    )) by {
        reveal(directive);
    }
    lemma_field_query("lang"@, Field::Lang, v, f, plain_options());
}

proof fn lemma_path_alone(v: Seq<char>)
    requires
        is_value(v),
        byte_len(v) + 5 <= MAX_QUERY_BYTES,
        is_simple_glob(v),
    ensures
        meaning("path"@ + seq![':'] + v) == Ok::<QueryModel, ErrorModel>(
            only_filters(FilterModel { path: Some(v), ..no_filters() }),
        ),
{
    lemma_known_field("path"@, Field::Path);
    lemma_field_bytes("path"@, v);
    let f = FilterModel { path: Some(v), ..no_filters() };
    let st = field_state("path"@ + seq![':'] + v, Field::Path, v);
    assert(directive(st, Field::Path, v) == Ok::<ParseState, ErrorModel>(
        ParseState { filters: f, options: plain_options(), ..st },
    )) by {
        reveal(directive);
    }
    lemma_field_query("path"@, Field::Path, v, f, plain_options());
}

proof fn lemma_file_alone(v: Seq<char>)
    requires
        is_value(v),
        byte_len(v) + 5 <= MAX_QUERY_BYTES,
        is_simple_glob(v),
    ensures
        meaning("file"@ + seq![':'] + v) == Ok::<QueryModel, ErrorModel>(
            only_filters(FilterModel { filename: Some(v), ..no_filters() }),
        ),
{
    lemma_known_field("file"@, Field::File);
    lemma_field_bytes("file"@, v);
    let f = FilterModel { filename: Some(v), ..no_filters() };
    let st = field_state("file"@ + seq![':'] + v, Field::File, v);
    assert(directive(st, Field::File, v) == Ok::<ParseState, ErrorModel>(
        ParseState { filters: f, options: plain_options(), ..st },
    )) by {
        reveal(directive);
    }
    lemma_field_query("file"@, Field::File, v, f, plain_options());
}

proof fn lemma_name_alone(v: Seq<char>)
    requires
        is_value(v),
        byte_len(v) + 5 <= MAX_QUERY_BYTES,
        is_simple_glob(v),
    ensures
        meaning("name"@ + seq![':'] + v) == Ok::<QueryModel, ErrorModel>(
            only_filters(FilterModel { filename: Some(v), ..no_filters() }),
        ),
{
    lemma_known_field("name"@, Field::Name);
    lemma_field_bytes("name"@, v);
    let f = FilterModel { filename: Some(v), ..no_filters() };
    let st = field_state("name"@ + seq![':'] + v, Field::Name, v);
    assert(directive(st, Field::Name, v) == Ok::<ParseState, ErrorModel>(
        ParseState { filters: f, options: plain_options(), ..st },
    )) by {
        reveal(directive);
    }
    lemma_field_query("name"@, Field::Name, v, f, plain_options());
}

/// The names of the fields are letters in lower case.
proof fn lemma_known_field(name: Seq<char>, kind: Field)
    requires
        match kind {
            Field::Path => name == "path"@,
            Field::File => name == "file"@,
            Field::Name => name == "name"@,
            Field::Ext => name == "ext"@,
            Field::Lang => name == "lang"@,
            Field::Size => name == "size"@,
            Field::Line => name == "line"@,
            Field::Mtime => name == "mtime"@,
            Field::Near => name == "near"@,
            Field::Sort => name == "sort"@,
            Field::Top => name == "top"@,
        },
    ensures
        field_named(name) == Some(kind),
        3 <= name.len() <= 5,
        kind != Field::Mtime ==> name.len() <= 4,
        name == lowered(name),
        forall|i: int| 0 <= i < name.len() ==> 'a' <= #[trigger] name[i] <= 'z',
{
    lemma_names();
    lemma_fields();
    lemma_lower_name(name);
}

proof fn lemma_fields()
    ensures
        field_named("path"@) == Some(Field::Path),
        field_named("file"@) == Some(Field::File),
        field_named("name"@) == Some(Field::Name),
        field_named("ext"@) == Some(Field::Ext),
        field_named("lang"@) == Some(Field::Lang),
        field_named("size"@) == Some(Field::Size),
        field_named("line"@) == Some(Field::Line),
        field_named("mtime"@) == Some(Field::Mtime),
        field_named("near"@) == Some(Field::Near),
        field_named("sort"@) == Some(Field::Sort),
        field_named("top"@) == Some(Field::Top),
{
    lemma_names();
    assert("path"@[0] == 'p' && "file"@[0] == 'f' && "name"@[0] == 'n' && "name"@[1] == 'a');
    assert("ext"@[0] == 'e' && "lang"@[0] == 'l' && "lang"@[1] == 'a' && "size"@[0] == 's');
    assert("line"@[0] == 'l' && "line"@[1] == 'i' && "mtime"@[0] == 'm' && "near"@[0] == 'n');
    assert("near"@[1] == 'e' && "sort"@[0] == 's' && "sort"@[1] == 'o' && "size"@[1] == 'i');
    assert("top"@[0] == 't');
}

proof fn lemma_field_bytes(name: Seq<char>, v: Seq<char>)
    requires
        forall|i: int| 0 <= i < name.len() ==> 'a' <= #[trigger] name[i] <= 'z',
    ensures
        byte_len(name + seq![':'] + v) == name.len() + 1 + byte_len(v),
{
    lemma_ascii_bytes(name);
    lemma_byte_len_concat(name + seq![':'], v);
    lemma_byte_len_concat(name, seq![':']);
    lemma_ascii_bytes(seq![':']);
}

proof fn lemma_ascii_bytes(s: Seq<char>)
    requires
        forall|i: int| 0 <= i < s.len() ==> (#[trigger] s[i] as u32) < 128,
    ensures
        byte_len(s) == s.len(),
    decreases s.len(),
{
    if s.len() > 0 {
        lemma_ascii_bytes(s.drop_last());
        assert((s[s.len() - 1] as u32) < 128);
    }
}

/// The value of `line:` is a range with both ends, or one line.
pub proof fn a_line_range_is_read(a: u32, b: u32)
    requires
        0 < a <= b,
    ensures
        ({
            let both = decimal_text(a as nat) + seq!['-'] + decimal_text(b as nat);
            meaning("line"@ + seq![':'] + both) == Ok::<QueryModel, ErrorModel>(
                only_filters(
                    FilterModel { line_start: Some(a), line_end: Some(b), ..no_filters() },
                ),
            )
        }),
        meaning("line"@ + seq![':'] + decimal_text(a as nat)) == Ok::<QueryModel, ErrorModel>(
            only_filters(FilterModel { line_start: Some(a), line_end: Some(a), ..no_filters() }),
        ),
{
    let x = decimal_text(a as nat);
    let y = decimal_text(b as nat);
    let both = x + seq!['-'] + y;
    decimal_of_decimal_text(a as nat);
    decimal_of_decimal_text(b as nat);
    lemma_number_text(a as nat);
    lemma_number_text(b as nat);
    lemma_short_number(a as nat);
    lemma_short_number(b as nat);
    let p = |c: char| c != '-';
    lemma_known_field("line"@, Field::Line);
    // One line.
    lemma_span_is(x, p, x.len() as int);
    assert(x.take(x.len() as int) =~= x);
    lemma_field_bytes("line"@, x);
    lemma_ascii_bytes(x);
    let one = FilterModel { line_start: Some(a), line_end: Some(a), ..no_filters() };
    let st = field_state("line"@ + seq![':'] + x, Field::Line, x);
    assert(directive(st, Field::Line, x) == Ok::<ParseState, ErrorModel>(
        ParseState { filters: one, options: plain_options(), ..st },
    )) by {
        reveal(directive);
    }
    lemma_field_query("line"@, Field::Line, x, one, plain_options());
    // Two lines.
    assert forall|i: int| 0 <= i < x.len() implies p(#[trigger] both[i]) by {
        assert(is_digit(x[i]));
    }
    lemma_span_is(both, p, x.len() as int);
    assert(both.take(x.len() as int) =~= x);
    assert(both.skip((x.len() + 1) as int) =~= y);
    assert forall|i: int| 0 <= i < both.len() implies (#[trigger] both[i] as u32) < 128
        && !white_space(both[i]) && both[i] != '|' && both[i] != ')' by {
        if i < x.len() {
            assert(is_digit(x[i]));
        } else if i > x.len() {
            assert(both[i] == y[i - x.len() - 1]);
            assert(is_digit(y[i - x.len() - 1]));
        }
    }
    assert(is_digit(x[0]));
    assert(both[0] == x[0]);
    lemma_field_bytes("line"@, both);
    lemma_ascii_bytes(both);
    let range = FilterModel { line_start: Some(a), line_end: Some(b), ..no_filters() };
    let st = field_state("line"@ + seq![':'] + both, Field::Line, both);
    assert(directive(st, Field::Line, both) == Ok::<ParseState, ErrorModel>(
        ParseState { filters: range, options: plain_options(), ..st },
    )) by {
        reveal(directive);
    }
    lemma_field_query("line"@, Field::Line, both, range, plain_options());
}

/// A number in digits can stand behind a colon.
proof fn lemma_number_text(n: nat)
    ensures
        is_value(decimal_text(n)),
        unsigned(decimal_text(n), n) == Some(n),
        forall|m: nat| n <= m ==> #[trigger] unsigned(decimal_text(n), m) == Some(n),
        forall|i: int|
            0 <= i < decimal_text(n).len() ==> (#[trigger] decimal_text(n)[i] as u32) < 128
                && decimal_text(n)[i] != '-',
{
    let x = decimal_text(n);
    decimal_of_decimal_text(n);
    assert forall|i: int| 0 <= i < x.len() implies !white_space(#[trigger] x[i]) && x[i] != '|'
        && x[i] != ')' && (x[i] as u32) < 128 && x[i] != '-' by {
        assert(is_digit(x[i]));
    }
    assert(is_digit(x[0]));
}

proof fn lemma_short_number(n: nat)
    ensures
        n < 0x1_0000_0000_0000_0000 ==> decimal_text(n).len() <= 20,
{
    if n < 0x1_0000_0000_0000_0000 {
        reveal_with_fuel(ten_to, 21);
        lemma_digits(n, 19);
    }
}

proof fn lemma_digits(n: nat, k: nat)
    requires
        n < ten_to(k + 1),
    ensures
        decimal_text(n).len() <= k + 1,
    decreases k,
{
    if n >= 10 {
        if k == 0 {
            assert(ten_to(1) == 10 * ten_to(0));
        } else {
            assert(ten_to(k + 1) == 10 * ten_to(k));
            lemma_digits(n / 10, (k - 1) as nat);
        }
    }
}

/// A power of ten.
pub open spec fn ten_to(k: nat) -> nat
    decreases k,
{
    if k == 0 {
        1
    } else {
        10 * ten_to((k - 1) as nat)
    }
}

/// `size:>n` lets files of more than `n` bytes pass, and `size:<n` files of fewer.
pub proof fn a_size_bound_is_read(n: u64, size: u64)
    requires
        0 < n < u64::MAX,
    ensures
        ({
            let above = meaning("size"@ + seq![':'] + (seq!['>'] + decimal_text(n as nat)));
            let below = meaning("size"@ + seq![':'] + (seq!['<'] + decimal_text(n as nat)));
            &&& above is Ok && above->Ok_0 == only_filters(
                FilterModel { size_min: Some((n + 1) as u64), ..no_filters() },
            )
            &&& below is Ok && below->Ok_0 == only_filters(
                FilterModel { size_max: Some((n - 1) as u64), ..no_filters() },
            )
            &&& above->Ok_0.filters.size_min->0 <= size <==> size > n
            &&& size <= below->Ok_0.filters.size_max->0 <==> size < n
        }),
{
    lemma_size_alone(n, '>');
    lemma_size_alone(n, '<');
}

proof fn lemma_size_alone(n: u64, sign: char)
    requires
        0 < n < u64::MAX,
        sign == '>' || sign == '<',
    ensures
        meaning("size"@ + seq![':'] + (seq![sign] + decimal_text(n as nat))) == Ok::<
            QueryModel,
            ErrorModel,
        >(
            only_filters(
                if sign == '>' {
                    FilterModel { size_min: Some((n + 1) as u64), ..no_filters() }
                } else {
                    FilterModel { size_max: Some((n - 1) as u64), ..no_filters() }
                },
            ),
        ),
{
    let x = decimal_text(n as nat);
    let v = seq![sign] + x;
    lemma_number_text(n as nat);
    lemma_short_number(n as nat);
    lemma_known_field("size"@, Field::Size);
    assert forall|i: int| 0 <= i < v.len() implies !white_space(#[trigger] v[i]) && v[i] != '|'
        && v[i] != ')' && (v[i] as u32) < 128 by {
        if i > 0 {
            assert(v[i] == x[i - 1]);
        }
    }
    lemma_ascii_bytes(v);
    lemma_field_bytes("size"@, v);
    assert(v.skip(1) =~= x);
    let f = if sign == '>' {
        FilterModel { size_min: Some((n + 1) as u64), ..no_filters() }
    } else {
        FilterModel { size_max: Some((n - 1) as u64), ..no_filters() }
    };
    let st = field_state("size"@ + seq![':'] + v, Field::Size, v);
    assert(directive(st, Field::Size, v) == Ok::<ParseState, ErrorModel>(
        ParseState { filters: f, options: plain_options(), ..st },
    )) by {
        reveal(directive);
    }
    lemma_field_query("size"@, Field::Size, v, f, plain_options());
}

/// `top:n` sets the limit, and nothing else.
pub proof fn a_limit_is_read(n: u64)
    requires
        n <= usize::MAX,
    ensures
        meaning("top"@ + seq![':'] + decimal_text(n as nat)) == Ok::<QueryModel, ErrorModel>(
            QueryModel {
                root: NodeModel::Empty,
                filters: no_filters(),
                options: QueryOptions {
                    limit: n as usize,
                    explicit_limit: true,
                    ..plain_options()
                },
            },
        ),
{
    let x = decimal_text(n as nat);
    lemma_number_text(n as nat);
    lemma_short_number(n as nat);
    lemma_known_field("top"@, Field::Top);
    lemma_ascii_bytes(x);
    lemma_field_bytes("top"@, x);
    let o = QueryOptions { limit: n as usize, explicit_limit: true, ..plain_options() };
    let st = field_state("top"@ + seq![':'] + x, Field::Top, x);
    assert(directive(st, Field::Top, x) == Ok::<ParseState, ErrorModel>(
        ParseState { filters: no_filters(), options: o, ..st },
    )) by {
        reveal(directive);
    }
    lemma_field_query("top"@, Field::Top, x, no_filters(), o);
}

/// `sort:` with the name of an order, in any case, sets that order, and nothing
/// else.
pub proof fn an_order_is_read(v: Seq<char>, order: SortOrder)
    requires
        is_value(v),
        byte_len(v) + 5 <= MAX_QUERY_BYTES,
        match order {
            SortOrder::Score => lowered(v) == "score"@,
            SortOrder::Recency => lowered(v) == "recency"@,
            SortOrder::Path => lowered(v) == "path"@,
        },
    ensures
        meaning("sort"@ + seq![':'] + v) == Ok::<QueryModel, ErrorModel>(
            QueryModel {
                root: NodeModel::Empty,
                filters: no_filters(),
                options: QueryOptions { sort: order, ..plain_options() },
            },
        ),
{
    lemma_known_field("sort"@, Field::Sort);
    lemma_field_bytes("sort"@, v);
    let o = QueryOptions { sort: order, ..plain_options() };
    let st = field_state("sort"@ + seq![':'] + v, Field::Sort, v);
    assert(sort_named(lowered(v)) == Some(order)) by {
        reveal_strlit("score");
        reveal_strlit("recency");
        reveal_strlit("recent");
        lemma_names();
        assert("score"@[0] == 's' && "recency"@[0] == 'r' && "path"@[0] == 'p');
        assert("recent"@[0] == 'r' && "mtime"@[0] == 'm');
    }
    assert(directive(st, Field::Sort, v) == Ok::<ParseState, ErrorModel>(
        ParseState { filters: no_filters(), options: o, ..st },
    )) by {
        reveal(directive);
    }
    lemma_field_query("sort"@, Field::Sort, v, no_filters(), o);
}

/// A word, and what may follow it, is read as a term.
proof fn lemma_word(st: ParseState, w: Seq<char>, tail: Seq<char>)
    requires
        is_plain_word(w),
        st.rest == w + tail,
        tail.len() == 0 || tail[0] == ' ',
    ensures
        st.past_space() == st,
        atom(st) == Ok::<(NodeModel, ParseState), ErrorModel>((NodeModel::Literal(w), st.at(tail))),
        primary(st) == atom(st),
{
    reveal(atom);
    reveal(term);
    assert(is_plain(w[0]));
    assert(st.rest[0] == w[0]);
    lemma_no_space(st);
    lemma_term_len(w, tail);
    assert(st.rest.take(w.len() as int) =~= w);
    assert(st.rest.skip(w.len() as int) =~= tail);
    let p = |c: char| letter_or_digit(c) || c == '_';
    let n = span(st.rest, p) as int;
    lemma_span(st.rest, p);
    assert(!(n < st.rest.len() && st.rest[n] == ':')) by {
        if n < w.len() {
            assert(is_plain(w[n]));
        } else if n < st.rest.len() && st.rest[n] == ':' {
            if n == w.len() {
                assert(st.rest[n] == tail[0]);
                assert(!white_space(':'));
            } else {
                let k = w.len() as int;
                assert(p(st.rest[k]));
                assert(st.rest[k] == tail[0]);
            }
        }
    }
    assert(!sees_regex(st.rest)) by {
        if sees_regex(st.rest) {
            if w.len() > 2 {
                assert(is_plain(w[2]));
            } else if w.len() == 2 {
                assert(tail[0] == ':');
            } else {
                assert(st.rest[w.len() as int] == tail[0]);
            }
        }
    }
}

/// A dash before a word excludes it.
pub proof fn a_dash_excludes(w: Seq<char>)
    requires
        is_plain_word(w),
        byte_len(w) + 1 <= MAX_QUERY_BYTES,
    ensures
        meaning(seq!['-'] + w) == Ok::<QueryModel, ErrorModel>(
            just(NodeModel::Not(Box::new(NodeModel::Literal(w)))),
        ),
{
    let input = seq!['-'] + w;
    let s0 = ParseState::start(input);
    let s1 = ParseState { nodes: 1, ..s0 };
    lemma_no_space(s0);
    lemma_no_space(s1);
    let e: Seq<char> = Seq::empty();
    let s2 = ParseState { unary: 1, ..s1.next() };
    assert(s1.rest.skip(1) =~= w + e);
    lemma_word(s2, w, e);
    let node = NodeModel::Literal(w);
    let s3 = ParseState { rest: e, ..s1 };
    assert(marked_primary(s1.next()) == Ok::<(NodeModel, ParseState), ErrorModel>((node, s3)));
    let not = NodeModel::Not(Box::new(node));
    assert(unary(s0) == Ok::<(NodeModel, ParseState), ErrorModel>((not, s3)));
    lemma_single_element(input, not, s3);
    lemma_byte_len_concat(seq!['-'], w);
    lemma_ascii_bytes(seq!['-']);
    lemma_one_branch_is_sound(not, node);
}

/// A tree with one branch that is a sound leaf is sound.
proof fn lemma_one_branch_is_sound(root: NodeModel, leaf: NodeModel)
    requires
        branches(root) == seq![leaf],
        root_error(root) is None,
        own_bytes(root) == 0,
        branches(leaf).len() == 0,
        root_error(leaf) is None,
        own_bytes(leaf) <= 4 * MAX_QUERY_BYTES,
    ensures
        first_error(seq![(root, 0int)], 0, 0) is None,
{
    let none: Seq<(NodeModel, int)> = Seq::empty();
    let p0 = seq![(root, 0int)];
    let p1 = seq![(leaf, 1int)];
    assert(p0.last() == (root, 0int));
    assert(p0.drop_last() + at_depth(branches(root), 1) =~= p1);
    assert(p1.last() == (leaf, 1int));
    assert(p1.drop_last() + at_depth(branches(leaf), 2) =~= none);
    assert(first_error(none, 2, own_bytes(leaf) as int) is None);
    assert(first_error(p1, 1, 0) is None);
}

/// A tree with two branches that are sound leaves is sound.
proof fn lemma_two_branches_are_sound(root: NodeModel, a: NodeModel, b: NodeModel)
    requires
        branches(root) == seq![a, b],
        root_error(root) is None,
        own_bytes(root) == 0,
        branches(a).len() == 0 && branches(b).len() == 0,
        root_error(a) is None && root_error(b) is None,
        own_bytes(a) + own_bytes(b) <= 4 * MAX_QUERY_BYTES,
    ensures
        first_error(seq![(root, 0int)], 0, 0) is None,
{
    let none: Seq<(NodeModel, int)> = Seq::empty();
    let p0 = seq![(root, 0int)];
    let p1 = seq![(a, 1int), (b, 1int)];
    let p2 = seq![(a, 1int)];
    assert(p0.last() == (root, 0int));
    assert(p0.drop_last() + at_depth(branches(root), 1) =~= p1);
    assert(p1.last() == (b, 1int));
    assert(p1.drop_last() + at_depth(branches(b), 2) =~= p2);
    assert(p2.last() == (a, 1int));
    assert(p2.drop_last() + at_depth(branches(a), 2) =~= none);
    assert(first_error(none, 3, (own_bytes(b) + own_bytes(a)) as int) is None);
    assert(first_error(p2, 2, own_bytes(b) as int) is None);
    assert(first_error(p1, 1, 0) is None);
}

/// A bar between two words asks for one of them.
pub proof fn a_bar_asks_for_one(a: Seq<char>, b: Seq<char>)
    requires
        is_plain_word(a),
        is_plain_word(b),
        byte_len(a) + byte_len(b) + 3 <= MAX_QUERY_BYTES,
    ensures
        meaning(a + seq![' ', '|', ' '] + b) == Ok::<QueryModel, ErrorModel>(
            just(NodeModel::Or(seq![NodeModel::Literal(a), NodeModel::Literal(b)])),
        ),
{
    let bar = seq![' ', '|', ' '];
    let input = a + bar + b;
    let s0 = ParseState::start(input);
    let x = NodeModel::Literal(a);
    let y = NodeModel::Literal(b);
    let e: Seq<char> = Seq::empty();
    let tail = bar + b;
    assert(is_plain(a[0]) && is_plain(b[0]));
    assert(input =~= a + tail);
    assert(input[0] == a[0]);
    lemma_no_space(s0);
    lemma_one_term(s0, a, tail);
    assert(tail.skip(1) =~= seq!['|', ' '] + b);
    let s3 = ParseState { nodes: 1, rest: seq!['|', ' '] + b, ..s0 };
    lemma_no_space(s3);
    let s4 = s3.next();
    assert(s4.rest =~= seq![' '] + b);
    assert(s4.rest[1] == b[0]);
    lemma_span_is(s4.rest, |c: char| white_space(c), 1);
    let s5 = s4.past_space();
    assert(s5.rest =~= b + e);
    lemma_one_term(s5, b, e);
    let s7 = ParseState { nodes: 2, rest: e, ..s0 };
    lemma_no_space(s7);
    let or = NodeModel::Or(seq![x, y]);
    assert(seq![x].push(y) =~= seq![x, y]);
    assert(alternatives(seq![x, y], 0, s7) == Ok::<(NodeModel, ParseState), ErrorModel>((or, s7)));
    assert(alternatives(seq![x], 0, s3) == Ok::<(NodeModel, ParseState), ErrorModel>((or, s7)));
    assert(any_of(s0) == Ok::<(NodeModel, ParseState), ErrorModel>((or, s7)));
    assert(whole_query(input) == Ok::<QueryModel, ErrorModel>(just(or)));
    lemma_byte_len_concat(a + bar, b);
    lemma_byte_len_concat(a, bar);
    lemma_ascii_bytes(bar);
    lemma_two_branches_are_sound(or, x, y);
}

/// A word alone, up to the end or a bar.
proof fn lemma_one_term(st: ParseState, w: Seq<char>, tail: Seq<char>)
    requires
        is_plain_word(w),
        st.rest == w + tail,
        tail.len() == 0 || (tail.len() > 1 && tail[0] == ' ' && tail[1] == '|'),
        st.nodes < MAX_QUERY_NODES,
    ensures
        all_of(Seq::empty(), false, st) == Ok::<(NodeModel, ParseState), ErrorModel>(
            (
                NodeModel::Literal(w),
                ParseState {
                    nodes: st.nodes + 1,
                    rest: if tail.len() == 0 {
                        tail
                    } else {
                        tail.skip(1)
                    },
                    ..st
                },
            ),
        ),
{
    let x = NodeModel::Literal(w);
    let none: Seq<NodeModel> = Seq::empty();
    let s1 = ParseState { nodes: st.nodes + 1, ..st };
    lemma_word(st, w, tail);
    lemma_word(s1, w, tail);
    assert(is_plain(w[0]));
    assert(st.rest[0] == w[0]);
    let s2 = s1.at(tail);
    assert(unary(st) == Ok::<(NodeModel, ParseState), ErrorModel>((x, s2)));
    let p = |c: char| white_space(c);
    if tail.len() == 0 {
        lemma_no_space(s2);
    } else {
        lemma_span_is(tail, p, 1);
        assert(s2.past_space().rest[0] == '|');
    }
    assert(none.push(x) =~= seq![x]);
    assert(all_of(seq![x], true, s2) == Ok::<(NodeModel, ParseState), ErrorModel>(
        (x, s2.past_space()),
    ));
}

/// A caret before a word boosts it: by the number between caret and colon, or by
/// two where there is none.
pub proof fn a_caret_boosts(w: Seq<char>, n: u32)
    requires
        is_plain_word(w),
        !is_digit(w[0]) && w[0] != '.',
        forall|i: int| 0 <= i < w.len() ==> #[trigger] w[i] != ':',
        byte_len(w) + 40 <= MAX_QUERY_BYTES,
    ensures
        meaning(seq!['^'] + w) == Ok::<QueryModel, ErrorModel>(
            just(NodeModel::BoostedLiteral { text: w, boost: "2"@ }),
        ),
        meaning(seq!['^'] + decimal_text(n as nat) + seq![':'] + w) == Ok::<
            QueryModel,
            ErrorModel,
        >(just(NodeModel::BoostedLiteral { text: w, boost: decimal_text(n as nat) })),
{
    reveal_strlit("2");
    assert("2"@ =~= seq!['2']);
    reveal_with_fuel(decimal, 2);
    assert(seq!['2'].drop_last() =~= Seq::<char>::empty());
    lemma_boosted_word(seq!['^'] + w, seq!['2'], w, w);
    let d = decimal_text(n as nat);
    decimal_of_decimal_text(n as nat);
    lemma_short_number(n as nat);
    assert(seq!['^'] + d + seq![':'] + w =~= seq!['^'] + (d + seq![':'] + w));
    lemma_boosted_word(seq!['^'] + d + seq![':'] + w, d, w, d + seq![':'] + w);
}

proof fn lemma_boosted_word(input: Seq<char>, boost: Seq<char>, w: Seq<char>, after: Seq<char>)
    requires
        is_plain_word(w),
        !is_digit(w[0]) && w[0] != '.',
        byte_len(w) + 40 <= MAX_QUERY_BYTES,
        input == seq!['^'] + after,
        0 < boost.len() <= 20,
        all_digits(boost),
        decimal(boost) <= u32::MAX,
        (after == w && boost == "2"@) || after == boost + seq![':'] + w,
    ensures
        meaning(input) == Ok::<QueryModel, ErrorModel>(
            just(NodeModel::BoostedLiteral { text: w, boost }),
        ),
{
    let s0 = ParseState::start(input);
    let s1 = ParseState { nodes: 1, ..s0 };
    lemma_no_space(s0);
    lemma_no_space(s1);
    let s2 = s1.next();
    assert(s1.rest.skip(1) =~= after);
    let e: Seq<char> = Seq::empty();
    let s3 = s1.at(w);
    assert(is_plain(w[0]));
    lemma_whole_digits(boost);
    assert(boost_factor(s2) == Ok::<(Seq<char>, ParseState), ErrorModel>((boost, s3))) by {
        reveal(boost_factor);
        let p = |c: char| is_digit(c) || c == '.';
        if after == w && boost == "2"@ {
            lemma_span_is(after, p, 0);
        } else {
            let k = boost.len() as int;
            assert forall|i: int| 0 <= i < k implies p(#[trigger] after[i]) by {
                assert(after[i] == boost[i]);
            }
            assert(after[k] == ':');
            lemma_span_is(after, p, k);
            assert(after.take(k) =~= boost);
            assert(after.skip(k + 1) =~= w);
        }
    }
    let s4 = ParseState { unary: 1, ..s3 };
    assert(w =~= w + e);
    lemma_word(s4, w, e);
    let node = NodeModel::Literal(w);
    let s5 = s1.at(e);
    assert(marked_primary(s3) == Ok::<(NodeModel, ParseState), ErrorModel>((node, s5)));
    let out = NodeModel::BoostedLiteral { text: w, boost };
    assert(unary(s0) == Ok::<(NodeModel, ParseState), ErrorModel>((out, s5)));
    lemma_single_element(input, out, s5);
    lemma_leaf_is_sound(just(out));
    lemma_byte_len_concat(seq!['^'], after);
    lemma_ascii_bytes(seq!['^']);
    lemma_ascii_bytes(seq![':']);
    lemma_ascii_bytes(boost);
    lemma_byte_len_concat(boost + seq![':'], w);
    lemma_byte_len_concat(boost, seq![':']);
}

proof fn lemma_whole_digits(t: Seq<char>)
    requires
        t.len() > 0,
        all_digits(t),
        decimal(t) <= u32::MAX,
    ensures
        boost_kind(t) == BoostKind::Finite,
        is_finite_boost(t),
{
    let p = |c: char| is_digit(c);
    lemma_span_is(t, p, t.len() as int);
    assert(whole_part(t) =~= t);
}

/// `near:` with two words and a number asks for the words within so many lines;
/// without a number, within ten.
pub proof fn near_asks_for_words_close_together(a: Seq<char>, b: Seq<char>, n: u32)
    requires
        is_value(a),
        is_value(b),
        !a.contains(',') && !b.contains(','),
        byte_len(a) + byte_len(b) + 30 <= MAX_QUERY_BYTES,
    ensures
        meaning("near"@ + seq![':'] + (a + seq![','] + b)) == Ok::<QueryModel, ErrorModel>(
            just(NodeModel::Near { terms: seq![a, b], distance: 10 }),
        ),
        meaning(
            "near"@ + seq![':'] + (a + seq![','] + b + seq![','] + decimal_text(n as nat)),
        ) == Ok::<QueryModel, ErrorModel>(
            just(NodeModel::Near { terms: seq![a, b], distance: n }),
        ),
{
    let d = decimal_text(n as nat);
    lemma_number_text(n as nat);
    lemma_short_number(n as nat);
    decimal_of_decimal_text(n as nat);
    assert(!d.contains(',')) by {
        if d.contains(',') {
            let i = choose|i: int| 0 <= i < d.len() && d[i] == ',';
            assert(is_digit(d[i]));
        }
    }
    let v = a + seq![','] + b;
    let w = v + seq![','] + d;
    lemma_pieces(a, b);
    lemma_one_piece(b);
    lemma_one_piece(d);
    assert(pieces(v) =~= seq![a, b]);
    lemma_pieces(b, d);
    lemma_pieces(a, b + seq![','] + d);
    assert(w =~= a + seq![','] + (b + seq![','] + d));
    assert(pieces(w) =~= seq![a, b, d]);
    lemma_ascii_bytes(seq![',']);
    lemma_ascii_bytes(d);
    lemma_byte_len_concat(a + seq![','], b);
    lemma_byte_len_concat(a, seq![',']);
    lemma_byte_len_concat(v + seq![','], d);
    lemma_byte_len_concat(v, seq![',']);
    assert(seq![a, b, d].drop_last() =~= seq![a, b]);
    assert(seq![a, b].len() == 2);
    assert(!has_empty(seq![a, b])) by {
        let t = seq![a, b];
        if has_empty(t) {
            let i = choose|i: int| 0 <= i < t.len() && (#[trigger] t[i]).len() == 0;
        }
    }
    let both = seq![a, b];
    assert(both.drop_last() =~= seq![a]);
    assert(seq![a].drop_last() =~= Seq::<Seq<char>>::empty());
    reveal_with_fuel(total_bytes, 3);
    assert(total_bytes(both) == byte_len(a) + byte_len(b));
    assert forall|st: ParseState| #[trigger] near(st, v) == Ok::<NodeModel, ErrorModel>(
        NodeModel::Near { terms: both, distance: 10 },
    ) by {
        reveal(near);
    }
    assert(digits_number(d, u32::MAX as nat) == Some(n as nat));
    assert(seq![a, b, d].last() == d);
    assert forall|st: ParseState| #[trigger] near(st, w) == Ok::<NodeModel, ErrorModel>(
        NodeModel::Near { terms: both, distance: n },
    ) by {
        reveal(near);
    }
    lemma_near_alone(v, both, 10);
    lemma_near_alone(w, both, n);
}

proof fn lemma_one_piece(s: Seq<char>)
    requires
        !s.contains(','),
    ensures
        pieces(s) == seq![s],
{
    let p = |c: char| c != ',';
    assert forall|i: int| 0 <= i < s.len() implies p(#[trigger] s[i]) by {
        assert(s.contains(s[i]));
    }
    lemma_span_is(s, p, s.len() as int);
}

proof fn lemma_pieces(a: Seq<char>, b: Seq<char>)
    requires
        !a.contains(','),
    ensures
        pieces(a + seq![','] + b) == seq![a] + pieces(b),
{
    let s = a + seq![','] + b;
    let p = |c: char| c != ',';
    assert forall|i: int| 0 <= i < a.len() implies p(#[trigger] s[i]) by {
        assert(s[i] == a[i]);
        assert(a.contains(a[i]));
    }
    assert(s[a.len() as int] == ',');
    lemma_span_is(s, p, a.len() as int);
    assert(s.take(a.len() as int) =~= a);
    assert(s.skip((a.len() + 1) as int) =~= b);
}

proof fn lemma_near_alone(v: Seq<char>, terms: Seq<Seq<char>>, distance: u32)
    requires
        is_value(v),
        byte_len(v) + 5 <= MAX_QUERY_BYTES,
        terms.len() == 2,
        total_bytes(terms) <= 4 * MAX_QUERY_BYTES,
        near(
            ParseState {
                rest: Seq::empty(),
                nodes: 1,
                ..ParseState::start("near"@ + seq![':'] + v)
            },
            v,
        ) == Ok::<NodeModel, ErrorModel>(NodeModel::Near { terms, distance }),
    ensures
        meaning("near"@ + seq![':'] + v) == Ok::<QueryModel, ErrorModel>(
            just(NodeModel::Near { terms, distance }),
        ),
{
    lemma_known_field("near"@, Field::Near);
    lemma_field_bytes("near"@, v);
    lemma_field_alone("near"@, Field::Near, v);
    let input = "near"@ + seq![':'] + v;
    let st = ParseState { rest: Seq::empty(), nodes: 1, ..ParseState::start(input) };
    let node = NodeModel::Near { terms, distance };
    lemma_single_element(input, node, st);
    lemma_leaf_is_sound(just(node));
}

} // verus!
