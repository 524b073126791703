//! What the options of a command line ask for.
use crate::cli::{
    all_patterns, grep_query, path_to_search, staleness, wire_options, Cli, GrepOptions,
};
use crate::path_laws::{are_names, joined_names_are_the_components};
use crate::paths::joined;
use crate::query::ast::{texts, ErrorModel, FilterModel, NodeModel, QueryModel};
use crate::query::validate::whole_words;
use crate::server::requests::{capped, content_query, ranked_limit, scope_in, search_query};
use vstd::prelude::*;

verus! {

/// `-C` sets both sides and takes precedence; without it `-B` sets the lines before
/// a match and `-A` those after it.
pub proof fn context_options_set_their_sides(opts: GrepOptions)
    ensures
        opts.context is Some ==> wire_options(opts).context_before == opts.context->0
            && wire_options(opts).context_after == opts.context->0,
        opts.context is None ==> wire_options(opts).context_before == opts.before_context
            && wire_options(opts).context_after == opts.after_context,
{
}

/// `-l` asks for files, `-c` for counts unless `-l` is given too, `-i` for any
/// case and `-w` for whole words.
pub proof fn mode_options_are_passed_on(opts: GrepOptions)
    ensures
        wire_options(opts).files_only <==> opts.files_with_matches,
        wire_options(opts).compact_files <==> opts.files_with_matches,
        wire_options(opts).counts_only <==> opts.count && !opts.files_with_matches,
        wire_options(opts).case_insensitive <==> opts.ignore_case,
        wire_options(opts).word_regexp <==> opts.word_regexp,
{
}

/// A query of the command line asks for what its patterns ask for: its tree stays,
/// in whole-word form with `-w`; case is ignored with `-i`, and only then; the
/// filters stay, within the scope. A limit of its own is refused.
pub proof fn options_change_the_query_as_they_say(
    q: QueryModel,
    opts: GrepOptions,
    scope: Option<Seq<char>>,
)
    ensures
        match grep_query(q, opts, scope) {
            Ok(r) => {
                &&& !q.options.explicit_limit
                &&& r.options.case_insensitive == opts.ignore_case
                &&& r.options.sort == q.options.sort
                &&& r.filters.search_scope == scope
                &&& r.filters.ext == q.filters.ext && r.filters.lang == q.filters.lang
                &&& r.filters.path == q.filters.path && r.filters.filename == q.filters.filename
                &&& r.filters.size_min == q.filters.size_min && r.filters.size_max
                    == q.filters.size_max
                &&& r.filters.mtime_min == q.filters.mtime_min && r.filters.mtime_max
                    == q.filters.mtime_max
                &&& r.filters.line_start == q.filters.line_start && r.filters.line_end
                    == q.filters.line_end
                &&& !opts.word_regexp ==> r.root == q.root
                &&& opts.word_regexp ==> whole_words(q.root) == Ok::<NodeModel, ErrorModel>(r.root)
            },
            Err(_) => q.options.explicit_limit || (opts.word_regexp && whole_words(q.root) is Err),
        },
{
}

/// A search of a client asks for the same as one on the command line.
pub proof fn clients_ask_as_the_command_line_does(
    pattern: Seq<char>,
    opts: GrepOptions,
    scope: Option<Seq<char>>,
)
    ensures
        ({
            let q = crate::query::grammar::meaning(pattern);
            let r = content_query(pattern, scope, wire_options(opts));
            &&& q is Err ==> r is Err
            &&& q is Ok && !q->Ok_0.options.explicit_limit ==> match grep_query(
                q->Ok_0,
                opts,
                scope,
            ) {
                Ok(own) => r == Ok::<QueryModel, ErrorModel>(own),
                Err(_) => r is Err,
            }
        }),
{
}

/// With patterns behind `-e`, an argument alone is the path to search and no
/// pattern; where a path is given otherwise, or there is no `-e`, it is the first
/// of the patterns.
pub proof fn an_argument_is_a_pattern_or_the_path(cli: Cli, p: String)
    requires
        cli.pattern == Some(p),
    ensures
        cli.patterns@.len() > 0 && cli.search_path is None && cli.path is None ==> all_patterns(cli)
            == texts(cli.patterns@) && path_to_search(cli) == p@,
        cli.patterns@.len() == 0 ==> all_patterns(cli) == seq![p@],
        cli.patterns@.len() > 0 && (cli.search_path is Some || cli.path is Some) ==> all_patterns(
            cli,
        ) == seq![p@] + texts(cli.patterns@),
        cli.search_path is Some ==> path_to_search(cli) == cli.search_path->0@,
        cli.search_path is None && cli.path is Some ==> path_to_search(cli) == cli.path->0@,
        cli.patterns@.len() == 0 && cli.search_path is None && cli.path is None ==> path_to_search(
            cli,
        ) == "."@,
{
    if cli.patterns@.len() == 0 {
        assert(all_patterns(cli) =~= seq![p@]);
    }
}

/// An index is called stale exactly if it is older than the threshold: an hour, or
/// as many seconds as are set; a threshold of zero calls none stale.
pub proof fn stale_means_older_than_the_threshold(root: Seq<char>, updated_at: u64, now: u64, n: u64)
    ensures
        staleness(root, updated_at, now, None) is Some <==> now - updated_at > 3600,
        staleness(
            root,
            updated_at,
            now,
            Some(crate::text::decimal_text(n as nat)),
        ) is Some <==> n > 0 && now - updated_at > n,
{
    let t = crate::text::decimal_text(n as nat);
    crate::text::decimal_of_decimal_text(n as nat);
    assert(crate::text::is_digit(t[0]));
    assert(crate::text::unsigned(t, u64::MAX as nat) == Some(n as nat));
}

/// The scope of a search is the path below the root: the names that follow those
/// of the root. A search of the root itself, or of a path elsewhere, has none.
pub proof fn scope_is_the_path_below_the_root(root: Seq<Seq<char>>, below: Seq<Seq<char>>)
    requires
        are_names(root + below),
        root.len() > 0,
    ensures
        scope_in(Some(seq!['/'] + joined(root + below)), seq!['/'] + joined(root)) == if below.len()
            == 0 {
            None
        } else {
            Some(joined(below))
        },
        scope_in(None, seq!['/'] + joined(root)) is None,
{
    let all = root + below;
    assert(are_names(root)) by {
        assert forall|i: int| 0 <= i < root.len() implies crate::path_laws::is_name(
            #[trigger] root[i],
        ) by {
            assert(all[i] == root[i]);
        }
    }
    joined_names_are_the_components(all);
    joined_names_are_the_components(root);
    assert(root =~= all.subrange(0, root.len() as int));
    assert(all.skip(root.len() as int) =~= below);
    if below.len() == 0 {
        assert(joined(below).len() == 0);
    } else {
        assert(are_names(below)) by {
            assert forall|i: int| 0 <= i < below.len() implies crate::path_laws::is_name(
                #[trigger] below[i],
            ) by {
                assert(all[root.len() + i] == below[i]);
            }
        }
        joined_names_are_the_components(below);
        if joined(below).len() == 0 {
            assert(joined(below) =~= Seq::<char>::empty());
            let e: Seq<char> = Seq::empty();
            crate::text::lemma_span_is(e, |c: char| c != '/', 0);
            assert(crate::paths::components(e).len() == 0);
        }
    }
}

/// A ranked search keeps the query's own limit as long as the client's allows it;
/// zero is no limit.
pub proof fn the_smaller_limit_holds(explicit: bool, own: usize, wire: usize)
    ensures
        wire > 0 ==> ranked_limit(explicit, own, wire) <= wire && ranked_limit(
            explicit,
            own,
            wire,
        ) > 0,
        explicit && own > 0 ==> ranked_limit(explicit, own, wire) <= own && (wire == 0 || own
            <= wire ==> ranked_limit(explicit, own, wire) == own),
        explicit && own > 0 && 0 < wire < own ==> ranked_limit(explicit, own, wire) == wire,
        !explicit || own == 0 ==> ranked_limit(explicit, own, wire) == wire,
{
}

/// The server's cap bounds every limit, and changes no smaller one.
pub proof fn the_cap_bounds_every_limit(limit: usize)
    ensures
        0 < capped(limit) <= 10_000_000,
        0 < limit <= 10_000_000 ==> capped(limit) == limit,
{
}

/// A ranked search changes the scope and the limit of its query alone.
pub proof fn ranked_search_keeps_the_query(q: QueryModel, scope: Option<Seq<char>>, limit: usize)
    ensures
        ({
            let r = search_query(q, scope, limit);
            &&& r.root == q.root
            &&& r.filters == (FilterModel { search_scope: scope, ..q.filters })
            &&& r.options.sort == q.options.sort
            &&& r.options.case_insensitive == q.options.case_insensitive
        }),
{
}

} // verus!
