//! What the command line asks for, and what is made of it.
use crate::paths::{is_same_path, same_path};
use crate::query::ast::{
    texts, ErrorModel, FilterModel, Query, QueryError, QueryModel, QueryOptions,
};
use crate::query::grammar::meaning;
use crate::query::index::Index;
use crate::query::parser::try_parse_query;
use crate::query::search::{content_hits, counts_of, hit_paths, limited, tally, ContentHit};
use crate::query::validate::{escape, escaped, whole_words};
use crate::server::client_windows::ClientError;
use crate::server::protocol::{
    content_matches, ContentMatch, ContentSearchOptions, ContentSearchResponse, StatusResponse,
    SEARCH_OVERLOADED_PREFIX,
};
use crate::server::requests::{
    are_the_files, are_the_matches, error_text, scope_in, scope_of, sent_matches,
};
use crate::text::{
    chars_of, decimal_text, join3, number_text, parse_unsigned, spells, text_of, unsigned,
};
use vstd::prelude::*;

verus! {

/// When output is colored.
#[derive(Debug, Clone, Copy, PartialEq, Eq, Structural)]
pub enum ColorChoice {
    /// Always use colors.
    Always,
    /// Never use colors.
    Never,
    /// Auto-detect based on terminal.
    Auto,
}

impl Default for ColorChoice {
    fn default() -> (r: Self)
        ensures
            r == ColorChoice::Auto,
    {
        ColorChoice::Auto
    }
}

/// The arguments of a search.
#[derive(Debug)]
pub struct Cli {
    /// The first argument without an option.
    pub pattern: Option<String>,
    /// The patterns of options.
    pub patterns: Vec<String>,
    /// The second argument without an option.
    pub search_path: Option<String>,
    pub fixed_strings: bool,
    pub regex: bool,
    pub json: bool,
    pub null: bool,
    pub heading: bool,
    pub no_heading: bool,
    /// The path of the option for it.
    pub path: Option<String>,
    pub after_context: u32,
    pub before_context: u32,
    pub context: Option<u32>,
    pub ignore_case: bool,
    pub invert_match: bool,
    pub word_regexp: bool,
    pub max_count: usize,
    pub files_with_matches: bool,
    pub count: bool,
    pub color: ColorChoice,
}

/// Options for a search for lines.
#[derive(Debug)]
pub struct GrepOptions {
    pub patterns: Vec<String>,
    pub path: String,
    pub after_context: u32,
    pub before_context: u32,
    pub context: Option<u32>,
    pub ignore_case: bool,
    pub invert_match: bool,
    pub word_regexp: bool,
    pub max_count: usize,
    pub files_with_matches: bool,
    pub count: bool,
    pub color: ColorChoice,
    pub fixed_strings: bool,
    pub regex: bool,
    pub json: bool,
    pub null: bool,
    pub heading: bool,
    pub no_heading: bool,
}

/// Whether the first argument without an option is the path to search: it is
/// where options give the patterns and nothing else gives a path.
pub open spec fn first_is_path(cli: Cli) -> bool {
    cli.patterns@.len() > 0 && cli.search_path is None && cli.path is None
}

/// The patterns of a command line: one without an option first.
pub open spec fn all_patterns(cli: Cli) -> Seq<Seq<char>> {
    match cli.pattern {
        Some(p) if !first_is_path(cli) => seq![p@] + texts(cli.patterns@),
        _ => texts(cli.patterns@),
    }
}

/// The path to search: the current directory where none is given.
pub open spec fn path_to_search(cli: Cli) -> Seq<char> {
    match (cli.search_path, cli.path, cli.pattern) {
        (Some(p), _, _) => p@,
        (None, Some(p), _) => p@,
        (None, None, Some(p)) if first_is_path(cli) => p@,
        _ => "."@,
    }
}

/// Whether an option that only a search has is given.
pub open spec fn has_search_flag(cli: Cli) -> bool {
    ||| cli.patterns@.len() > 0
    ||| cli.fixed_strings || cli.regex || cli.json || cli.null || cli.heading || cli.no_heading
    ||| cli.after_context > 0 || cli.before_context > 0 || cli.context is Some
    ||| cli.ignore_case || cli.invert_match || cli.word_regexp
    ||| cli.max_count > 0 || cli.files_with_matches || cli.count
    ||| cli.color != ColorChoice::Auto
}

impl Cli {
    fn has_flag(&self) -> (r: bool)
        ensures
            r == has_search_flag(*self),
    {
        let modes = self.patterns.len() > 0 || self.fixed_strings || self.regex || self.ignore_case
            || self.invert_match || self.word_regexp;
        let lines = self.after_context > 0 || self.before_context > 0 || self.context.is_some();
        let shown = self.json || self.null || self.heading || self.no_heading || self.max_count > 0
            || self.files_with_matches || self.count;
        modes || lines || shown || self.color != ColorChoice::Auto
    }

    /// Refuses options of a search where there is none: beside a subcommand, or
    /// without a pattern.
    pub fn check_flags(&self, subcommand: bool) -> (r: Result<(), String>)
        ensures
            match r {
                Ok(_) => if subcommand {
                    !has_search_flag(*self) && self.path is None
                } else {
                    !has_search_flag(*self) || all_patterns(*self).len() > 0
                },
                Err(m) => if subcommand {
                    (has_search_flag(*self) || self.path is Some) && m@
                        == "Search flags cannot be mixed with subcommands"@
                } else {
                    has_search_flag(*self) && all_patterns(*self).len() == 0 && m@
                        == "Search flags require a pattern"@
                },
            },
    {
        if subcommand {
            if self.has_flag() || self.path.is_some() {
                return Err("Search flags cannot be mixed with subcommands".to_owned());
            }
        } else if self.has_flag() && self.pattern.is_none() && self.patterns.len() == 0 {
            return Err("Search flags require a pattern".to_owned());
        }
        Ok(())
    }
}

impl GrepOptions {
    /// The options that arguments stand for.
    pub fn from_cli(cli: &Cli) -> (r: Self)
        ensures
            texts(r.patterns@) == all_patterns(*cli),
            r.path@ == path_to_search(*cli),
            r.after_context == cli.after_context,
            r.before_context == cli.before_context,
            r.context == cli.context,
            r.ignore_case == cli.ignore_case,
            r.invert_match == cli.invert_match,
            r.word_regexp == cli.word_regexp,
            r.max_count == cli.max_count,
            r.files_with_matches == cli.files_with_matches,
            r.count == cli.count,
            r.color == cli.color,
            r.fixed_strings == cli.fixed_strings,
            r.regex == cli.regex,
            r.json == cli.json,
            r.null == cli.null,
            r.heading == cli.heading,
            r.no_heading == cli.no_heading,
    {
        let mut patterns: Vec<String> = Vec::new();
        let first_is_path = cli.patterns.len() > 0 && cli.search_path.is_none()
            && cli.path.is_none();
        if let Some(p) = &cli.pattern {
            if !first_is_path {
                patterns.push(p.clone());
            }
        }
        let ghost first = texts(patterns@);
        let mut i: usize = 0;
        assert(texts(patterns@) =~= first + texts(cli.patterns@).take(0));
        while i < cli.patterns.len()
            invariant
                i <= cli.patterns@.len(),
                texts(patterns@) == first + texts(cli.patterns@).take(i as int),
            decreases cli.patterns@.len() - i,
        {
            let ghost was = patterns@;
            patterns.push(cli.patterns[i].clone());
            i += 1;
            let ghost item = cli.patterns@[i - 1]@;
            assert(texts(patterns@) =~= texts(was).push(item));
            assert(texts(patterns@) =~= first + texts(cli.patterns@).take(i as int));
        }
        assert(texts(patterns@) =~= all_patterns(*cli));
        GrepOptions {
            patterns,
            path: match &cli.search_path {
                Some(p) => p.clone(),
                None => match &cli.path {
                    Some(p) => p.clone(),
                    None => match &cli.pattern {
                        Some(p) => if first_is_path {
                            p.clone()
                        } else {
                            ".".to_owned()
                        },
                        None => ".".to_owned(),
                    },
                },
            },
            after_context: cli.after_context,
            before_context: cli.before_context,
            context: cli.context,
            ignore_case: cli.ignore_case,
            invert_match: cli.invert_match,
            word_regexp: cli.word_regexp,
            max_count: cli.max_count,
            files_with_matches: cli.files_with_matches,
            count: cli.count,
            color: cli.color,
            fixed_strings: cli.fixed_strings,
            regex: cli.regex,
            json: cli.json,
            null: cli.null,
            heading: cli.heading,
            no_heading: cli.no_heading,
        }
    }
}

/// A slash as a regular expression spells it without one.
pub open spec fn spelled_slash() -> Seq<char> {
    seq!['\\', 'x', '2', 'f']
}

/// A regular expression with each slash spelled out, also where a backslash
/// stands before it. A backslash keeps the character behind it.
pub open spec fn without_slashes(s: Seq<char>) -> Seq<char>
    decreases s.len(),
{
    if s.len() == 0 {
        s
    } else if s[0] == '\\' && s.len() > 1 {
        (if s[1] == '/' {
            spelled_slash()
        } else {
            seq!['\\', s[1]]
        }) + without_slashes(s.skip(2))
    } else {
        (if s[0] == '/' {
            spelled_slash()
        } else {
            seq![s[0]]
        }) + without_slashes(s.skip(1))
    }
}

/// The query that a pattern of the command line stands for.
pub open spec fn pattern_query(p: Seq<char>, fixed: bool, regex: bool) -> Seq<char> {
    if fixed {
        "re:/"@ + without_slashes(escaped(p)) + "/"@
    } else if regex {
        "re:/"@ + without_slashes(p) + "/"@
    } else {
        p
    }
}

/// The queries of all patterns.
pub open spec fn pattern_queries(v: Seq<Seq<char>>, fixed: bool, regex: bool) -> Seq<Seq<char>> {
    v.map_values(|p: Seq<char>| pattern_query(p, fixed, regex))
}

/// Queries in brackets, with bars between them.
pub open spec fn joined_queries(v: Seq<Seq<char>>) -> Seq<char>
    decreases v.len(),
{
    if v.len() == 0 {
        Seq::empty()
    } else if v.len() == 1 {
        "("@ + v[0] + ")"@
    } else {
        joined_queries(v.drop_last()) + " | "@ + ("("@ + v.last() + ")"@)
    }
}

/// The query for patterns any of which may match: a single one as it is.
pub open spec fn combined(v: Seq<Seq<char>>) -> Seq<char> {
    if v.len() == 1 {
        v[0]
    } else {
        joined_queries(v)
    }
}

fn put_slash(out: &mut Vec<char>)
    ensures
        final(out)@ == old(out)@ + spelled_slash(),
{
    out.push('\\');
    out.push('x');
    out.push('2');
    out.push('f');
    assert(out@ =~= old(out)@ + spelled_slash());
}

/// Spells out each slash of a regular expression.
pub fn encode_slashes(expression: &str) -> (r: String)
    ensures
        r@ == without_slashes(expression@),
{
    let s = chars_of(expression);
    let mut out: Vec<char> = Vec::new();
    let mut i: usize = 0;
    assert(s@.skip(0) =~= s@);
    while i < s.len()
        invariant
            i <= s@.len(),
            without_slashes(s@) == out@ + without_slashes(s@.skip(i as int)),
        decreases s@.len() - i,
    {
        let ghost rest = s@.skip(i as int);
        let ghost was = out@;
        assert(rest[0] == s@[i as int]);
        if s[i] == '\\' && s.len() - i > 1 {
            assert(rest[1] == s@[i + 1]);
            assert(rest.skip(2) =~= s@.skip(i + 2));
            if s[i + 1] == '/' {
                put_slash(&mut out);
            } else {
                out.push('\\');
                out.push(s[i + 1]);
                assert(out@ =~= was + seq!['\\', rest[1]]);
            }
            i += 2;
        } else {
            assert(rest.skip(1) =~= s@.skip(i + 1));
            if s[i] == '/' {
                put_slash(&mut out);
            } else {
                out.push(s[i]);
                assert(out@ =~= was + seq![rest[0]]);
            }
            i += 1;
        }
        assert(without_slashes(s@) =~= out@ + without_slashes(s@.skip(i as int)));
    }
    let r = text_of(&out);
    assert(r@ =~= without_slashes(expression@));
    r
}

/// The query that a pattern of the command line stands for.
pub fn encode_pattern(pattern: &str, fixed: bool, regex_mode: bool) -> (r: String)
    ensures
        r@ == pattern_query(pattern@, fixed, regex_mode),
{
    if fixed {
        join3("re:/", encode_slashes(escape(pattern).as_str()).as_str(), "/")
    } else if regex_mode {
        join3("re:/", encode_slashes(pattern).as_str(), "/")
    } else {
        pattern.to_owned()
    }
}

/// The query for the patterns of a command line, any of which may match. The
/// first of them that is no query is the reason where there is none.
pub fn build_pattern(patterns: &Vec<String>, fixed: bool, regex_mode: bool) -> (r: Result<
    String,
    QueryError,
>)
    ensures
        match r {
            Ok(t) => t@ == combined(pattern_queries(texts(patterns@), fixed, regex_mode)) && forall|
                i: int,
            |
                0 <= i < patterns@.len() ==> meaning(
                    #[trigger] pattern_queries(texts(patterns@), fixed, regex_mode)[i],
                ) is Ok,
            Err(e) => exists|i: int|
                0 <= i < patterns@.len() && meaning(
                    #[trigger] pattern_queries(texts(patterns@), fixed, regex_mode)[i],
                ) == Err::<QueryModel, ErrorModel>(e@) && forall|j: int|
                    0 <= j < i ==> meaning(
                        #[trigger] pattern_queries(texts(patterns@), fixed, regex_mode)[j],
                    ) is Ok,
        },
{
    let ghost all = pattern_queries(texts(patterns@), fixed, regex_mode);
    let mut joined = String::new();
    let mut single = String::new();
    let mut i: usize = 0;
    assert(joined@ =~= joined_queries(all.take(0)));
    while i < patterns.len()
        invariant
            i <= patterns@.len(),
            all == pattern_queries(texts(patterns@), fixed, regex_mode),
            joined@ == joined_queries(all.take(i as int)),
            i > 0 ==> single@ == all[i - 1],
            forall|j: int| 0 <= j < i ==> meaning(#[trigger] all[j]) is Ok,
        decreases patterns@.len() - i,
    {
        assert(texts(patterns@)[i as int] == patterns@[i as int]@);
        let p = encode_pattern(patterns[i].as_str(), fixed, regex_mode);
        assert(all[i as int] == p@);
        match try_parse_query(p.as_str()) {
            Ok(_) => {},
            Err(e) => return Err(e),
        }
        let ghost was = joined@;
        if i > 0 {
            joined.append(" | ");
        }
        joined.append(join3("(", p.as_str(), ")").as_str());
        assert(all.take(i + 1).drop_last() =~= all.take(i as int));
        assert(all.take(i + 1).last() == p@);
        assert(joined@ =~= joined_queries(all.take(i + 1)));
        single = p;
        i += 1;
    }
    assert(all.take(all.len() as int) =~= all);
    if patterns.len() == 1 {
        Ok(single)
    } else {
        Ok(joined)
    }
}

/// Refuses what a search in an index cannot do.
pub fn check_supported(opts: &GrepOptions) -> (r: Result<(), String>)
    ensures
        match r {
            Ok(_) => !opts.invert_match,
            Err(m) => opts.invert_match && m@
                == "--invert-match (-v) is not supported: indexed search only returns matching lines"@,
        },
{
    if opts.invert_match {
        Err(
            "--invert-match (-v) is not supported: indexed search only returns matching lines".to_owned(),
        )
    } else {
        Ok(())
    }
}

/// A search for lines, ready to be carried out.
#[derive(Debug)]
pub struct Grep {
    /// The query as text.
    pub pattern: String,
    pub query: Query,
    pub options: ContentSearchOptions,
}

/// Lines around a match that are wanted: of the option for both, or of the two
/// others.
pub open spec fn wanted_context(opts: GrepOptions) -> (u32, u32) {
    match opts.context {
        Some(n) => (n, n),
        None => (opts.before_context, opts.after_context),
    }
}

/// What the server is asked for.
pub open spec fn wire_options(opts: GrepOptions) -> ContentSearchOptions {
    ContentSearchOptions {
        context_before: wanted_context(opts).0,
        context_after: wanted_context(opts).1,
        case_insensitive: opts.ignore_case,
        files_only: opts.files_with_matches,
        compact_files: opts.files_with_matches,
        counts_only: opts.count && !opts.files_with_matches,
        word_regexp: opts.word_regexp,
    }
}

/// The query of a command line.
pub open spec fn grep_query(q: QueryModel, opts: GrepOptions, scope: Option<Seq<char>>) -> Result<
    QueryModel,
    Seq<char>,
> {
    let words = if opts.word_regexp {
        match whole_words(q.root) {
            Ok(root) => Ok(QueryModel { root, ..q }),
            Err(e) => Err(error_text(e)),
        }
    } else {
        Ok(q)
    };
    match words {
        Err(e) => Err(e),
        Ok(q) => if q.options.explicit_limit {
            Err(
                "top:N applies to ranked interactive search; use --max-count N for CLI output"@,
            )
        } else {
            Ok(
                QueryModel {
                    filters: FilterModel { search_scope: scope, ..q.filters },
                    options: QueryOptions { case_insensitive: opts.ignore_case, ..q.options },
                    ..q
                },
            )
        },
    }
}

/// Whether the patterns of a command line make up a query of text `t`.
pub open spec fn asks_for(opts: GrepOptions, t: Seq<char>) -> bool {
    let all = pattern_queries(texts(opts.patterns@), opts.fixed_strings, opts.regex);
    t == combined(all) && forall|i: int|
        0 <= i < all.len() ==> meaning(#[trigger] all[i]) is Ok
}

/// Whether a text says why one of the patterns is no query.
pub open spec fn says_which_is_wrong(opts: GrepOptions, m: Seq<char>) -> bool {
    let all = pattern_queries(texts(opts.patterns@), opts.fixed_strings, opts.regex);
    exists|i: int|
        0 <= i < all.len() && meaning(#[trigger] all[i]) is Err && m == error_text(
            meaning(all[i])->Err_0,
        ) && forall|j: int| 0 <= j < i ==> meaning(#[trigger] all[j]) is Ok
}

/// Makes a search of the options, within the part of `root` that `requested` is.
pub fn prepare_grep(opts: &GrepOptions, requested: &str, root: &str) -> (r: Result<Grep, String>)
    ensures
        match r {
            Ok(g) => asks_for(*opts, g.pattern@) && meaning(g.pattern@) is Ok && grep_query(
                meaning(g.pattern@)->Ok_0,
                *opts,
                scope_in(Some(requested@), root@),
            ) == Ok::<QueryModel, Seq<char>>(g.query@) && g.options == wire_options(*opts),
            Err(m) => says_which_is_wrong(*opts, m@) || {
                let t = combined(
                    pattern_queries(texts(opts.patterns@), opts.fixed_strings, opts.regex),
                );
                asks_for(*opts, t) && match meaning(t) {
                    Err(e) => m@ == error_text(e),
                    Ok(q) => grep_query(q, *opts, scope_in(Some(requested@), root@)) == Err::<
                        QueryModel,
                        Seq<char>,
                    >(m@),
                }
            },
        },
{
    let pattern = match build_pattern(&opts.patterns, opts.fixed_strings, opts.regex) {
        Ok(p) => p,
        Err(e) => {
            let m = e.to_string();
            assert(says_which_is_wrong(*opts, m@));
            return Err(m);
        },
    };
    assert(asks_for(*opts, pattern@));
    let mut query = match try_parse_query(pattern.as_str()) {
        Ok(q) => q,
        Err(e) => return Err(e.to_string()),
    };
    if opts.word_regexp {
        match query.apply_word_boundaries() {
            Ok(_) => {},
            Err(e) => return Err(e.to_string()),
        }
    }
    if query.options.explicit_limit {
        return Err(
            "top:N applies to ranked interactive search; use --max-count N for CLI output".to_owned(),
        );
    }
    query.options.case_insensitive = opts.ignore_case;
    query.filters.search_scope = scope_of(Some(requested), root);
    let (before, after) = match opts.context {
        Some(n) => (n, n),
        None => (opts.before_context, opts.after_context),
    };
    Ok(
        Grep {
            pattern,
            query,
            options: ContentSearchOptions {
                context_before: before,
                context_after: after,
                case_insensitive: opts.ignore_case,
                files_only: opts.files_with_matches,
                compact_files: opts.files_with_matches,
                counts_only: opts.count && !opts.files_with_matches,
                word_regexp: opts.word_regexp,
            },
        },
    )
}

/// Whether an answer is the right one to a search without a server. A limit of
/// zero is none.
pub open spec fn answers_grep(
    index: Index,
    q: QueryModel,
    max_count: usize,
    options: ContentSearchOptions,
    r: ContentSearchResponse,
) -> bool {
    if options.files_only {
        r.matches@.len() == 0 && r.file_counts is None && r.file_paths is Some
            && r.files_with_matches == r.file_paths->0@.len() && if q.asks_nothing() {
            r.file_paths->0@.len() == 0
        } else {
            are_the_files(index, q, max_count, texts(r.file_paths->0@))
        }
    } else if options.counts_only {
        r.matches@.len() == 0 && r.file_paths is None && r.file_counts is Some
            && r.files_with_matches == r.file_counts->0@.len() && if q.asks_nothing() {
            r.file_counts->0@.len() == 0
        } else {
            exists|v: Seq<ContentHit>| #[trigger]
                are_the_matches(index, q, 0, 0, v) && counts_of(r.file_counts->0@) == tally(
                    hit_paths(limited(v, max_count as nat)),
                )
        }
    } else {
        r.file_paths is None && r.file_counts is None && if q.asks_nothing() {
            r.matches@.len() == 0 && r.files_with_matches == 0
        } else {
            exists|v: Seq<ContentHit>| #[trigger]
                are_the_matches(index, q, options.context_before, options.context_after, v)
                    && content_matches(r.matches@) == limited(v, max_count as nat)
                    && r.files_with_matches == tally(
                    hit_paths(limited(v, max_count as nat)),
                ).len()
        }
    }
}

/// Searches an index without a server.
pub fn search_index(
    index: &Index,
    query: &Query,
    max_count: usize,
    options: ContentSearchOptions,
    root: String,
) -> (r: Result<ContentSearchResponse, QueryError>)
    requires
        index.wf(),
    ensures
        match r {
            Ok(a) => (query@.asks_nothing() || query@.defect() is None) && a.resolved_root == Some(
                root,
            ) && answers_grep(*index, query@, max_count, options, a),
            Err(e) => !query@.asks_nothing() && query@.defect() == Some(e@),
        },
{
    let empty = query.is_empty();
    if options.files_only {
        let paths = if empty {
            Vec::new()
        } else {
            match index.execute_files_only(query, max_count) {
                Ok(v) => v,
                Err(e) => return Err(e),
            }
        };
        let count = paths.len();
        return Ok(
            ContentSearchResponse {
                matches: Vec::new(),
                file_paths: Some(paths),
                file_counts: None,
                files_with_matches: count,
                resolved_root: Some(root),
            },
        );
    }
    if options.counts_only {
        let counts = if empty {
            Vec::new()
        } else {
            match index.execute_match_counts(query, max_count) {
                Ok(v) => v,
                Err(e) => return Err(e),
            }
        };
        let count = counts.len();
        proof {
            if !empty {
                let found = index.answers(query@, None);
                let items = index.all_in_context(found, found.len(), 0, 0);
                let v = choose|v: Seq<ContentHit>| #[trigger]
                    crate::query::search::arranged(
                        items,
                        crate::query::search::content_keys(items),
                        v,
                    ) && counts_of(counts@) == tally(hit_paths(limited(v, max_count as nat)));
                assert(are_the_matches(*index, query@, 0, 0, v));
            }
        }
        return Ok(
            ContentSearchResponse {
                matches: Vec::new(),
                file_paths: None,
                file_counts: Some(counts),
                files_with_matches: count,
                resolved_root: Some(root),
            },
        );
    }
    if empty {
        return Ok(
            ContentSearchResponse {
                matches: Vec::new(),
                file_paths: None,
                file_counts: None,
                files_with_matches: 0,
                resolved_root: Some(root),
            },
        );
    }
    let mut found = match index.execute_with_content(
        query,
        options.context_before,
        options.context_after,
    ) {
        Ok(v) => v,
        Err(e) => return Err(e),
    };
    let ghost v = content_hits(found@);
    assert(are_the_matches(
        *index,
        query@,
        options.context_before,
        options.context_after,
        v,
    ));
    if max_count > 0 && max_count < found.len() {
        found.truncate(max_count);
    }
    assert(content_hits(found@) =~= limited(v, max_count as nat));
    let count: usize = found.len();
    assert(content_hits(found@).len() == count);
    let (matches, files_with_matches) = sent_matches(found, usize::MAX);
    assert(limited(content_hits(found@), usize::MAX as nat) =~= content_hits(found@));
    Ok(
        ContentSearchResponse {
            matches,
            file_paths: None,
            file_counts: None,
            files_with_matches,
            resolved_root: Some(root),
        },
    )
}

/// Whether a search that a server did not answer may be made without it: not
/// where the server has no room for searches.
pub fn may_search_directly(error: &ClientError) -> (r: bool)
    ensures
        r == !(error is ServerError && SEARCH_OVERLOADED_PREFIX@.is_prefix_of(
            error->ServerError_0@,
        )),
{
    match error {
        ClientError::ServerError(message) => !starts_with(
            message.as_str(),
            SEARCH_OVERLOADED_PREFIX,
        ),
        _ => true,
    }
}

/// Whether a text starts with another.
fn starts_with(t: &str, start: &str) -> (r: bool)
    ensures
        r == start@.is_prefix_of(t@),
{
    let s = chars_of(t);
    let p = chars_of(start);
    if p.len() > s.len() {
        return false;
    }
    let mut i: usize = 0;
    while i < p.len()
        invariant
            i <= p@.len() <= s@.len(),
            s@ == t@,
            p@ == start@,
            forall|j: int| 0 <= j < i ==> s@[j] == p@[j],
        decreases p@.len() - i,
    {
        if s[i] != p[i] {
            assert(t@.take(p@.len() as int)[i as int] != start@[i as int]);
            return false;
        }
        i += 1;
    }
    assert(start@ =~= t@.subrange(0, start@.len() as int));
    true
}

/// Whether output is colored.
pub fn use_color(choice: ColorChoice, terminal: bool, no_color: bool, term: Option<&str>) -> (r:
    bool)
    ensures
        r == match choice {
            ColorChoice::Always => true,
            ColorChoice::Never => false,
            ColorChoice::Auto => terminal && !no_color && term is Some && term->0@ != "dumb"@,
        },
{
    match choice {
        ColorChoice::Always => true,
        ColorChoice::Never => false,
        ColorChoice::Auto => match term {
            Some(t) => terminal && !no_color && !spells(&chars_of(t), "dumb"),
            None => false,
        },
    }
}

/// Whether matching lines stand under headings.
pub fn use_heading(opts: &GrepOptions, terminal: bool) -> (r: bool)
    ensures
        r == (opts.heading || !opts.no_heading && terminal),
{
    opts.heading || !opts.no_heading && terminal
}

/// The paths of matches.
pub open spec fn match_paths(v: Seq<ContentMatch>) -> Seq<Seq<char>> {
    v.map_values(|m: ContentMatch| m.path@)
}

/// The paths that an answer lists, or those of its matches.
pub open spec fn answer_paths(a: ContentSearchResponse) -> Seq<Seq<char>> {
    match a.file_paths {
        Some(v) => texts(v@),
        None => match_paths(a.matches@),
    }
}

/// The paths that an answer lists, or those of its matches.
pub fn listed_paths(a: ContentSearchResponse) -> (r: Vec<String>)
    ensures
        texts(r@) == answer_paths(a),
{
    match a.file_paths {
        Some(v) => v,
        None => {
            let mut out: Vec<String> = Vec::new();
            let mut i: usize = 0;
            assert(texts(out@) =~= match_paths(a.matches@).take(0));
            while i < a.matches.len()
                invariant
                    i <= a.matches@.len(),
                    texts(out@) == match_paths(a.matches@).take(i as int),
                decreases a.matches@.len() - i,
            {
                let ghost was = out@;
                out.push(a.matches[i].path.clone());
                i += 1;
                assert(texts(out@) =~= texts(was).push(a.matches@[i - 1].path@));
                assert(match_paths(a.matches@).take(i as int) =~= match_paths(a.matches@).take(
                    i - 1,
                ).push(a.matches@[i - 1].path@));
            }
            assert(match_paths(a.matches@).take(i as int) =~= match_paths(a.matches@));
            out
        },
    }
}

/// The note that an index was last updated too long ago: more seconds than the
/// setting says, or than an hour where it says nothing; a setting of zero turns
/// it off.
pub open spec fn staleness(
    root: Seq<char>,
    updated_at: u64,
    now: u64,
    setting: Option<Seq<char>>,
) -> Option<Seq<char>> {
    let threshold = match setting {
        Some(t) => match unsigned(t, u64::MAX as nat) {
            Some(n) => n,
            None => 3600,
        },
        None => 3600,
    };
    let age = if now < updated_at {
        0
    } else {
        now - updated_at
    };
    if threshold == 0 || age <= threshold {
        None
    } else {
        Some(
            "note: index for "@ + root + " was last updated "@ + decimal_text((age / 3600) as nat)
                + "h "@ + decimal_text((age % 3600 / 60) as nat)
                + "m ago; run `fxi index` or `fxi daemon start --watch` to keep it fresh"@,
        )
    }
}

/// The note that an index was last updated too long ago, where it was.
pub fn warn_if_stale(root: &str, updated_at: u64, now: u64, setting: Option<&str>) -> (r: Option<
    String,
>)
    ensures
        match r {
            Some(t) => staleness(
                root@,
                updated_at,
                now,
                match setting {
                    Some(s) => Some(s@),
                    None => None,
                },
            ) == Some(t@),
            None => staleness(
                root@,
                updated_at,
                now,
                match setting {
                    Some(s) => Some(s@),
                    None => None,
                },
            ) is None,
        },
{
    let threshold: u64 = match setting {
        Some(t) => {
            let chars = chars_of(t);
            let n = chars.len();
            assert(chars@.subrange(0, n as int) =~= t@);
            match parse_unsigned(&chars, 0, n, u64::MAX) {
                Some(n) => n,
                None => 3600,
            }
        },
        None => 3600,
    };
    let age = now.saturating_sub(updated_at);
    if threshold == 0 || age <= threshold {
        return None;
    }
    let mut note = join3("note: index for ", root, " was last updated ");
    note.append(number_text(age / 3600).as_str());
    note.append("h ");
    note.append(number_text(age % 3600 / 60).as_str());
    note.append("m ago; run `fxi index` or `fxi daemon start --watch` to keep it fresh");
    Some(note)
}

/// A yes or no as text.
pub open spec fn yes_no(b: bool) -> Seq<char> {
    if b {
        "true"@
    } else {
        "false"@
    }
}

fn bool_text(b: bool) -> (r: &'static str)
    ensures
        r@ == yes_no(b),
{
    if b {
        "true"
    } else {
        "false"
    }
}

/// A command on the server.
#[derive(Debug, Clone, Copy, PartialEq, Eq, Structural)]
pub enum DaemonCommand {
    Start { watch: bool },
    Stop { force: bool },
    Status,
    Foreground { watch: bool },
    SocketPath,
    Reload,
}

/// What to do next for a command on the server.
#[derive(Debug)]
pub enum DaemonStep {
    /// Try to connect to it.
    Connect,
    /// Start it in the background.
    Launch { watch: bool },
    /// Run it here.
    Serve { watch: bool },
    /// Terminate its process.
    Kill,
    /// Tell it to shut down, and wait until it has.
    ShutDown,
    /// Ask it how it is.
    AskStatus,
    /// Tell it to load an index again.
    Reload,
    /// Show where it listens.
    ShowSocket,
    /// Say this, and be done.
    Say(String),
    /// Fail with this.
    Refuse(String),
}

/// Whether a step says or refuses something in these words.
pub open spec fn speaks(step: DaemonStep, refuses: bool, words: Seq<char>) -> bool {
    if refuses {
        step is Refuse && step->Refuse_0@ == words
    } else {
        step is Say && step->Say_0@ == words
    }
}

/// The next step for a command, given whether a server runs and whether a
/// connection to it could be made, where one was tried. A server that does not
/// run cannot be stopped; one that runs is terminated where that is asked for,
/// and else told to shut down, if it can be reached.
pub fn daemon_step(command: DaemonCommand, running: bool, connected: Option<bool>) -> (r: DaemonStep)
    ensures
        match (command, running, connected) {
            (DaemonCommand::Start { watch }, false, _) => r == (DaemonStep::Launch { watch }),
            (DaemonCommand::Start { .. }, true, Some(true)) => r is AskStatus,
            (DaemonCommand::Start { .. }, true, Some(false)) => speaks(
                r,
                true,
                "Daemon is running but not responding"@,
            ),
            (DaemonCommand::Stop { .. }, false, _) => speaks(r, false, "Daemon is not running"@),
            (DaemonCommand::Stop { force: true }, true, _) => r is Kill,
            (DaemonCommand::Stop { .. }, true, Some(true)) => r is ShutDown,
            (DaemonCommand::Stop { .. }, true, Some(false)) => speaks(
                r,
                true,
                "Daemon is unresponsive; use `fxi daemon stop --force` to terminate without flushing pending changes"@,
            ),
            (DaemonCommand::Status, false, _) => speaks(r, false, "Daemon is not running"@),
            (DaemonCommand::Status, true, Some(true)) => r is AskStatus,
            (DaemonCommand::Status, true, Some(false)) => speaks(
                r,
                true,
                "Daemon is running but not responding"@,
            ),
            (DaemonCommand::Foreground { .. }, true, _) => speaks(
                r,
                true,
                "Daemon is already running; stop it with `fxi daemon stop` first"@,
            ),
            (DaemonCommand::Foreground { watch }, false, _) => r == (DaemonStep::Serve { watch }),
            (DaemonCommand::SocketPath, _, _) => r is ShowSocket,
            (DaemonCommand::Reload, _, Some(true)) => r is Reload,
            (DaemonCommand::Reload, _, Some(false)) => speaks(
                r,
                true,
                "Daemon is not responding; start it with `fxi daemon start`"@,
            ),
            (_, _, None) => r is Connect,
        },
{
    match command {
        DaemonCommand::Start { watch } => {
            if !running {
                return DaemonStep::Launch { watch };
            }
        },
        DaemonCommand::Stop { force } => {
            if !running {
                return DaemonStep::Say("Daemon is not running".to_owned());
            }
            if force {
                return DaemonStep::Kill;
            }
        },
        DaemonCommand::Status => {
            if !running {
                return DaemonStep::Say("Daemon is not running".to_owned());
            }
        },
        DaemonCommand::Foreground { watch } => {
            return if running {
                DaemonStep::Refuse(
                    "Daemon is already running; stop it with `fxi daemon stop` first".to_owned(),
                )
            } else {
                DaemonStep::Serve { watch }
            };
        },
        DaemonCommand::SocketPath => return DaemonStep::ShowSocket,
        DaemonCommand::Reload => {},
    }
    match (connected, command) {
        (None, _) => DaemonStep::Connect,
        (Some(true), DaemonCommand::Stop { .. }) => DaemonStep::ShutDown,
        (Some(true), DaemonCommand::Reload) => DaemonStep::Reload,
        (Some(true), _) => DaemonStep::AskStatus,
        (Some(false), DaemonCommand::Stop { .. }) => DaemonStep::Refuse(
            "Daemon is unresponsive; use `fxi daemon stop --force` to terminate without flushing pending changes".to_owned(),
        ),
        (Some(false), DaemonCommand::Reload) => DaemonStep::Refuse(
            "Daemon is not responding; start it with `fxi daemon start`".to_owned(),
        ),
        (Some(false), _) => DaemonStep::Refuse("Daemon is running but not responding".to_owned()),
    }
}

/// What is said of starting a server where one runs: it has to watch files where
/// that is asked for.
pub fn already_running(watch: bool, watch_enabled: bool) -> (r: Result<String, String>)
    ensures
        match r {
            Ok(t) => (!watch || watch_enabled) && t@ == "Daemon is already running (watching: "@
                + yes_no(watch_enabled) + ")"@,
            Err(t) => watch && !watch_enabled && t@
                == "Daemon is running without watching; run `fxi daemon stop` then `fxi daemon start --watch`"@,
        },
{
    if watch && !watch_enabled {
        Err(
            "Daemon is running without watching; run `fxi daemon stop` then `fxi daemon start --watch`".to_owned(),
        )
    } else {
        Ok(join3("Daemon is already running (watching: ", bool_text(watch_enabled), ")"))
    }
}

/// What to do while something is waited for.
#[derive(Debug)]
pub enum Waiting {
    /// It has come.
    Done(String),
    /// Wait on.
    Wait,
    /// It has taken too long.
    Failed(String),
}

/// Seconds that a server which was started has to become ready.
pub const START_SECONDS: u64 = 10;

/// Seconds that a server which was told to stop has to exit.
pub const STOP_SECONDS: u64 = 5;

/// Milliseconds between two looks at what is waited for.
pub const WAIT_MILLIS: u64 = 25;

/// Waiting for a server that was started.
pub fn start_progress(ready: bool, overdue: bool, watch: bool) -> (r: Waiting)
    ensures
        ready ==> r is Done && r->Done_0@ == "Daemon started (watching: "@ + yes_no(watch) + ")"@,
        !ready && overdue ==> r is Failed && r->Failed_0@
            == "Daemon did not become ready within 10 seconds; run `fxi daemon foreground` to inspect the error"@,
        !ready && !overdue ==> r is Wait,
{
    if ready {
        Waiting::Done(join3("Daemon started (watching: ", bool_text(watch), ")"))
    } else if overdue {
        Waiting::Failed(
            "Daemon did not become ready within 10 seconds; run `fxi daemon foreground` to inspect the error".to_owned(),
        )
    } else {
        Waiting::Wait
    }
}

/// Waiting for a server that was told to stop.
pub fn stop_progress(running: bool, overdue: bool) -> (r: Waiting)
    ensures
        !running ==> r is Done && r->Done_0@ == "Daemon stopped"@,
        running && overdue ==> r is Failed && r->Failed_0@
            == "Daemon acknowledged shutdown but has not exited; use `fxi daemon stop --force` if necessary"@,
        running && !overdue ==> r is Wait,
{
    if !running {
        Waiting::Done("Daemon stopped".to_owned())
    } else if overdue {
        Waiting::Failed(
            "Daemon acknowledged shutdown but has not exited; use `fxi daemon stop --force` if necessary".to_owned(),
        )
    } else {
        Waiting::Wait
    }
}

/// What is said of a request to load an index again.
pub fn reload_outcome(success: bool, message: &str) -> (r: Result<String, String>)
    ensures
        match r {
            Ok(t) => success && t@ == "Reloaded: "@ + message@,
            Err(t) => !success && t@ == "Reload failed: "@ + message@,
        },
{
    let mut t = if success {
        "Reloaded: ".to_owned()
    } else {
        "Reload failed: ".to_owned()
    };
    t.append(message);
    if success {
        Ok(t)
    } else {
        Err(t)
    }
}

/// What comes of an index that was published, given what a server said when it
/// was told, if one could be reached, and whether one runs.
pub fn reload_running_daemon(reply: Option<(bool, String)>, running: bool) -> (r: Result<(), String>)
    ensures
        match reply {
            Some((true, _)) => r is Ok,
            Some((false, m)) => r is Err && r->Err_0@
                == "Index published, but daemon reload failed: "@ + m@,
            None => if running {
                r is Err && r->Err_0@
                    == "Index published, but the running daemon is unresponsive; restart it before searching"@
            } else {
                r is Ok
            },
        },
{
    match reply {
        Some((success, message)) => if success {
            Ok(())
        } else {
            let mut t = "Index published, but daemon reload failed: ".to_owned();
            t.append(message.as_str());
            Err(t)
        },
        None => if running {
            Err(
                "Index published, but the running daemon is unresponsive; restart it before searching".to_owned(),
            )
        } else {
            Ok(())
        },
    }
}

/// Whether a list holds a path.
pub open spec fn holds_path(v: Seq<Seq<char>>, p: Seq<char>) -> bool {
    exists|i: int| 0 <= i < v.len() && same_path(#[trigger] v[i], p)
}

/// Whether a list holds a path.
pub fn lists(v: &Vec<String>, path: &str) -> (r: bool)
    ensures
        r == holds_path(texts(v@), path@),
{
    let mut i: usize = 0;
    while i < v.len()
        invariant
            i <= v@.len(),
            forall|j: int| 0 <= j < i ==> !same_path(#[trigger] texts(v@)[j], path@),
        decreases v@.len() - i,
    {
        assert(texts(v@)[i as int] == v@[i as int]@);
        if is_same_path(v[i].as_str(), path) {
            return true;
        }
        i += 1;
    }
    false
}

/// The lines on loaded roots.
pub open spec fn root_lines(roots: Seq<Seq<char>>, watched: Seq<Seq<char>>) -> Seq<Seq<char>> {
    roots.map_values(
        |p: Seq<char>| "  "@ + p + " (watching: "@ + yes_no(holds_path(watched, p)) + ")"@,
    )
}

/// The lines that tell how a server is.
pub open spec fn status_text(s: StatusResponse) -> Seq<Seq<char>> {
    seq![
        "fxid daemon status:"@,
        "  Uptime: "@ + decimal_text(s.uptime_secs as nat) + "s"@,
        "  Watching enabled: "@ + yes_no(s.watch_enabled),
        "  Indexes loaded: "@ + decimal_text(s.indexes_loaded as nat),
        "  Live documents: "@ + decimal_text(s.total_docs as nat),
        "  Queries served: "@ + decimal_text(s.queries_served as nat),
        "  Protocol version: "@ + decimal_text(s.protocol_version as nat),
        "  Server version: "@ + s.server_version@,
    ] + root_lines(texts(s.loaded_roots@), texts(s.watched_roots@))
}

fn put_line(out: &mut Vec<String>, label: &str, value: &str)
    ensures
        texts(final(out)@) == texts(old(out)@).push(label@ + value@),
{
    let mut t = label.to_owned();
    t.append(value);
    out.push(t);
    assert(texts(out@) =~= texts(old(out)@).push(t@));
}

/// The lines that tell how a server is.
pub fn status_lines(s: &StatusResponse) -> (r: Vec<String>)
    ensures
        texts(r@) == status_text(*s),
{
    let mut out: Vec<String> = Vec::new();
    put_line(&mut out, "fxid daemon status:", "");
    assert("fxid daemon status:"@ + ""@ =~= "fxid daemon status:"@) by {
        reveal_strlit("");
    }
    let mut uptime = number_text(s.uptime_secs);
    uptime.append("s");
    put_line(&mut out, "  Uptime: ", uptime.as_str());
    assert("  Uptime: "@ + (decimal_text(s.uptime_secs as nat) + "s"@) =~= "  Uptime: "@
        + decimal_text(s.uptime_secs as nat) + "s"@);
    put_line(&mut out, "  Watching enabled: ", bool_text(s.watch_enabled));
    put_line(&mut out, "  Indexes loaded: ", number_text(s.indexes_loaded as u64).as_str());
    put_line(&mut out, "  Live documents: ", number_text(s.total_docs as u64).as_str());
    put_line(&mut out, "  Queries served: ", number_text(s.queries_served).as_str());
    put_line(&mut out, "  Protocol version: ", number_text(s.protocol_version as u64).as_str());
    put_line(&mut out, "  Server version: ", s.server_version.as_str());
    let ghost head = texts(out@);
    let ghost roots = texts(s.loaded_roots@);
    let ghost lines = root_lines(roots, texts(s.watched_roots@));
    let mut i: usize = 0;
    assert(head =~= head + lines.take(0));
    while i < s.loaded_roots.len()
        invariant
            i <= s.loaded_roots@.len(),
            roots == texts(s.loaded_roots@),
            lines == root_lines(roots, texts(s.watched_roots@)),
            texts(out@) == head + lines.take(i as int),
        decreases s.loaded_roots@.len() - i,
    {
        assert(roots[i as int] == s.loaded_roots@[i as int]@);
        let mut line = join3("  ", s.loaded_roots[i].as_str(), " (watching: ");
        line.append(bool_text(lists(&s.watched_roots, s.loaded_roots[i].as_str())));
        line.append(")");
        assert(lines[i as int] == line@);
        let ghost was = out@;
        out.push(line);
        i += 1;
        assert(texts(out@) =~= texts(was).push(line@));
        assert(texts(out@) =~= head + lines.take(i as int));
    }
    assert(lines.take(i as int) =~= lines);
    assert(texts(out@) =~= status_text(*s));
    out
}

} // verus!
