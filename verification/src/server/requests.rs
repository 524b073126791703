//! Carrying out searches that clients ask for.
use crate::paths::{below, is_within, joined, relative_to};
use crate::query::ast::{
    text_option, texts, ErrorModel, FilterModel, Query, QueryError, QueryModel, QueryOptions,
};
use crate::query::grammar::meaning;
use crate::query::index::Index;
use crate::query::parser::try_parse_query;
use crate::query::planner::plan_of;
use crate::query::ranking::{merged, name_matches, ranked_hits, RankedHit, SearchMatch, Unranked};
use crate::query::search::{
    arranged, content_hits, content_keys, counts_of, hit_paths, limited, path_keys, results_of,
    tally, tally_paths, whole_file, ContentHit, ContentMatchResult,
};
use crate::query::validate::whole_words;
use crate::query::wand::ScoreKey;
use crate::server::daemon_core::MAX_RESULTS_CAP;
use crate::server::protocol::{
    content_matches, to_content_match, ContentMatch, ContentSearchOptions, ContentSearchResponse,
    Response, SearchResponse,
};
use crate::text::decimal_text;
use vstd::prelude::*;

verus! {

/// The part of a root that a client's path limits a search to: none where the
/// path is the root itself or lies elsewhere.
pub open spec fn scope_in(requested: Option<Seq<char>>, root: Seq<char>) -> Option<Seq<char>> {
    match requested {
        Some(p) if is_within(p, root) && joined(below(p, root)->0).len() > 0 => Some(
            joined(below(p, root)->0),
        ),
        _ => None,
    }
}

/// The part of a root that a client's path limits a search to.
pub fn scope_of(requested: Option<&str>, root: &str) -> (r: Option<String>)
    ensures
        text_option(r) == scope_in(
            match requested {
                Some(p) => Some(p@),
                None => None,
            },
            root@,
        ),
{
    match requested {
        Some(path) => match relative_to(path, root) {
            Some(scope) => if scope.as_str().is_empty() {
                None
            } else {
                Some(scope)
            },
            None => None,
        },
        None => None,
    }
}

/// An optional text by content.
pub open spec fn requested_path(p: Option<&str>) -> Option<Seq<char>> {
    match p {
        Some(t) => Some(t@),
        None => None,
    }
}

/// The limit of a ranked search: that of the query where it sets one other than
/// zero, but no more than the client's, where zero stands for any number; else
/// the client's.
pub open spec fn ranked_limit(explicit: bool, own: usize, wire: usize) -> usize {
    if explicit && own != 0 {
        if wire == 0 || own <= wire {
            own
        } else {
            wire
        }
    } else {
        wire
    }
}

/// The query of a ranked search.
pub open spec fn search_query(q: QueryModel, scope: Option<Seq<char>>, limit: usize) -> QueryModel {
    QueryModel {
        filters: FilterModel { search_scope: scope, ..q.filters },
        options: QueryOptions {
            limit: ranked_limit(q.options.explicit_limit, q.options.limit, limit),
            ..q.options
        },
        ..q
    }
}

/// Reads the query of a ranked search and limits it as the client asks.
pub fn prepare_search(query: &str, requested: Option<&str>, root: &str, limit: usize) -> (r: Result<
    Query,
    QueryError,
>)
    ensures
        match r {
            Ok(q) => meaning(query@) is Ok && q@ == search_query(
                meaning(query@)->Ok_0,
                scope_in(requested_path(requested), root@),
                limit,
            ),
            Err(e) => meaning(query@) == Err::<QueryModel, ErrorModel>(e@),
        },
{
    let mut q = match try_parse_query(query) {
        Ok(q) => q,
        Err(e) => return Err(e),
    };
    q.filters.search_scope = scope_of(requested, root);
    if q.options.explicit_limit && q.options.limit != 0 {
        if limit != 0 && limit < q.options.limit {
            q.options.limit = limit;
        }
    } else {
        q.options.limit = limit;
    }
    Ok(q)
}

/// The answer to a ranked search: at most as many matches as the client asks
/// for, where zero stands for any number.
pub fn search_response(matches: Vec<SearchMatch>, limit: usize, root: String) -> (r:
    SearchResponse)
    ensures
        r.matches@ == limited(matches@, limit as nat),
        !r.cached,
        r.resolved_root == Some(root),
{
    let mut matches = matches;
    if limit > 0 && limit < matches.len() {
        matches.truncate(limit);
    }
    SearchResponse { matches, cached: false, resolved_root: Some(root) }
}

/// What is done for a ranked search.
#[derive(Debug)]
pub enum SearchStep {
    /// This is the answer.
    Reply(Response),
    /// What was found for the query is scored and put in order.
    Rank(Query, Unranked),
}

/// Carries out a ranked search up to the scores.
pub fn handle_search(
    index: &Index,
    query: &str,
    requested: Option<&str>,
    root: String,
    limit: usize,
) -> (r: SearchStep)
    requires
        index.wf(),
    ensures
        match meaning(query@) {
            Err(e) => r is Reply && is_error(r->Reply_0, error_text(e)),
            Ok(spoken) => {
                let q = search_query(spoken, scope_in(requested_path(requested), root@), limit);
                if q.asks_nothing() {
                    r is Reply && r->Reply_0 is Search && r->Reply_0->Search_0.matches@.len() == 0
                        && !r->Reply_0->Search_0.cached && r->Reply_0->Search_0.resolved_root
                        == Some(root)
                } else if q.defect() is Some {
                    r is Reply && is_error(
                        r->Reply_0,
                        "Search failed: "@ + error_text(q.defect()->0),
                    )
                } else {
                    r is Rank && r->Rank_0@ == q && index.finds(q, r->Rank_1)
                }
            },
        },
{
    let q = match prepare_search(query, requested, root.as_str(), limit) {
        Ok(q) => q,
        Err(e) => return SearchStep::Reply(Response::Error { message: e.to_string() }),
    };
    if q.is_empty() {
        return SearchStep::Reply(Response::Search(search_response(Vec::new(), limit, root)));
    }
    match index.execute(&q) {
        Ok(found) => SearchStep::Rank(q, found),
        Err(e) => SearchStep::Reply(failed(&e)),
    }
}

/// The answer to a ranked search once the documents with matches are scored:
/// what was found, in order, within the limits of the query and the client.
pub fn rank_search(
    index: &Index,
    query: &Query,
    found: &Unranked,
    scores: &Vec<ScoreKey>,
    name_score: ScoreKey,
    limit: usize,
    root: String,
) -> (r: Response)
    requires
        scores@.len() == found.results@.len(),
    ensures
        r is Search,
        !r->Search_0.cached,
        r->Search_0.resolved_root == Some(root),
        ({
            let items = merged(
                results_of(found.results@),
                scores@,
                name_matches(found.names@),
                name_score,
            );
            exists|sorted: Seq<RankedHit>| #[trigger]
                arranged(items, index.rank_keys(items, query@.options.sort), sorted)
                    && ranked_hits(r->Search_0.matches@) == limited(
                    limited(sorted, query@.options.limit as nat),
                    limit as nat,
                )
        }),
{
    let ordered = index.rank(
        &found.results,
        scores,
        &found.names,
        name_score,
        query.options.sort,
        query.options.limit,
    );
    let response = search_response(ordered, limit, root);
    assert(ranked_hits(response.matches@) =~= limited(ranked_hits(ordered@), limit as nat));
    Response::Search(response)
}

/// The text of an error.
pub open spec fn error_text(e: ErrorModel) -> Seq<char> {
    e.message + " at byte "@ + decimal_text(e.offset)
}

/// The query of a search for lines, or why there is none.
pub open spec fn content_query(
    pattern: Seq<char>,
    scope: Option<Seq<char>>,
    options: ContentSearchOptions,
) -> Result<QueryModel, ErrorModel> {
    match meaning(pattern) {
        Err(e) => Err(e),
        Ok(q) => {
            let scoped = QueryModel {
                filters: FilterModel { search_scope: scope, ..q.filters },
                options: QueryOptions {
                    case_insensitive: options.case_insensitive,
                    ..q.options
                },
                ..q
            };
            if options.word_regexp {
                match whole_words(q.root) {
                    Err(e) => Err(e),
                    Ok(root) => Ok(QueryModel { root, ..scoped }),
                }
            } else {
                Ok(scoped)
            }
        },
    }
}

/// A limit on results of the server: the client's, but no more than the cap.
pub open spec fn capped(limit: usize) -> usize {
    if limit == 0 || limit > MAX_RESULTS_CAP {
        MAX_RESULTS_CAP
    } else {
        limit
    }
}

fn cap(limit: usize) -> (r: usize)
    ensures
        r == capped(limit),
{
    if limit == 0 || limit > MAX_RESULTS_CAP {
        MAX_RESULTS_CAP
    } else {
        limit
    }
}

/// Files as matches without lines.
pub open spec fn files_as_matches(v: Seq<Seq<char>>) -> Seq<ContentHit> {
    v.map_values(|p: Seq<char>| whole_file(p))
}

/// Whether `out` are the files that match a query.
pub open spec fn are_the_files(index: Index, q: QueryModel, limit: usize, out: Seq<Seq<char>>) -> bool {
    let found = index.files(q, limit as nat);
    if plan_of(q).verification is Some {
        arranged(found, path_keys(found), out)
    } else {
        out == found
    }
}

/// Whether `out` are the matches of a query in order of paths and lines.
pub open spec fn are_the_matches(
    index: Index,
    q: QueryModel,
    before: u32,
    after: u32,
    out: Seq<ContentHit>,
) -> bool {
    let found = index.answers(q, None);
    let items = index.all_in_context(found, found.len(), before, after);
    arranged(items, content_keys(items), out)
}

/// Whether an answer is the right one to a search for lines with a query that
/// asks for something.
pub open spec fn answers_search(
    index: Index,
    q: QueryModel,
    limit: usize,
    options: ContentSearchOptions,
    r: ContentSearchResponse,
) -> bool {
    if options.files_only {
        r.file_counts is None && if options.compact_files {
            r.matches@.len() == 0 && r.file_paths is Some && are_the_files(
                index,
                q,
                capped(limit),
                texts(r.file_paths->0@),
            ) && r.files_with_matches == r.file_paths->0@.len()
        } else {
            r.file_paths is None && (exists|v: Seq<Seq<char>>| #[trigger]
                are_the_files(index, q, capped(limit), v) && content_matches(r.matches@)
                    == files_as_matches(v)) && r.files_with_matches == r.matches@.len()
        }
    } else if options.counts_only {
        r.file_paths is None && r.matches@.len() == 0 && r.file_counts is Some && (exists|
            v: Seq<ContentHit>,
        | #[trigger]
            are_the_matches(index, q, 0, 0, v) && counts_of(r.file_counts->0@) == tally(
                hit_paths(limited(v, limit as nat)),
            )) && r.files_with_matches == r.file_counts->0@.len()
    } else {
        r.file_paths is None && r.file_counts is None && exists|v: Seq<ContentHit>| #[trigger]
            are_the_matches(index, q, options.context_before, options.context_after, v)
                && content_matches(r.matches@) == limited(v, capped(limit) as nat)
                && r.files_with_matches == tally(hit_paths(v)).len()
    }
}

/// Whether a text answers a request with an error.
pub open spec fn is_error(r: Response, message: Seq<char>) -> bool {
    r is Error && r->Error_message@ == message
}

/// No lines.
fn no_lines() -> (r: Vec<(u32, String)>)
    ensures
        crate::query::content::numbered(r@) == Seq::<(u32, Seq<char>)>::empty(),
{
    let r: Vec<(u32, String)> = Vec::new();
    assert(crate::query::content::numbered(r@) =~= Seq::<(u32, Seq<char>)>::empty());
    r
}

/// Files as matches without lines.
fn file_matches(v: Vec<String>) -> (r: Vec<ContentMatch>)
    ensures
        content_matches(r@) == files_as_matches(texts(v@)),
{
    let ghost all = files_as_matches(texts(v@));
    let mut out: Vec<ContentMatch> = Vec::new();
    let mut i: usize = 0;
    while i < v.len()
        invariant
            i <= v@.len(),
            all == files_as_matches(texts(v@)),
            content_matches(out@) == all.take(i as int),
        decreases v@.len() - i,
    {
        let ghost was = out@;
        let m = ContentMatch {
            path: v[i].clone(),
            line_number: 1,
            line_content: String::new(),
            match_start: 0,
            match_end: 0,
            context_before: no_lines(),
            context_after: no_lines(),
        };
        out.push(m);
        i += 1;
        assert(m@ == whole_file(v@[i - 1]@));
        assert(content_matches(out@) =~= content_matches(was).push(m@));
        assert(all.take(i as int) =~= all.take(i - 1).push(m@));
    }
    assert(all.take(all.len() as int) =~= all);
    out
}

/// The first `limit` matches as they are sent, and the number of files of all.
pub(crate) fn sent_matches(v: Vec<ContentMatchResult>, limit: usize) -> (r: (Vec<ContentMatch>, usize))
    requires
        limit > 0,
    ensures
        content_matches(r.0@) == limited(content_hits(v@), limit as nat),
        r.1 == tally(hit_paths(content_hits(v@))).len(),
{
    let ghost all = content_hits(v@);
    let mut paths: Vec<String> = Vec::new();
    let mut i: usize = 0;
    while i < v.len()
        invariant
            i <= v@.len(),
            all == content_hits(v@),
            texts(paths@) == hit_paths(all).take(i as int),
        decreases v@.len() - i,
    {
        let ghost was = paths@;
        paths.push(v[i].path.clone());
        i += 1;
        assert(all[i - 1] == v@[i - 1]@);
        assert(texts(paths@) =~= texts(was).push(v@[i - 1].path@));
        assert(hit_paths(all).take(i as int) =~= hit_paths(all).take(i - 1).push(
            v@[i - 1].path@,
        ));
    }
    assert(hit_paths(all).take(all.len() as int) =~= hit_paths(all));
    let counts = tally_paths(&paths);
    assert(counts_of(counts@).len() == counts@.len());
    let files = counts.len();
    let mut rest = v;
    if limit < rest.len() {
        rest.truncate(limit);
    }
    let ghost kept = rest@;
    assert(content_hits(kept) =~= limited(all, limit as nat));
    // Taken from the end and put in order afterwards.
    let mut back: Vec<ContentMatch> = Vec::new();
    while rest.len() > 0
        invariant
            rest@.len() + back@.len() == kept.len(),
            rest@ == kept.take(rest@.len() as int),
            forall|j: int|
                0 <= j < back@.len() ==> (#[trigger] back@[j])@ == kept[kept.len() - 1 - j]@,
        decreases rest@.len(),
    {
        let ghost n = rest@.len();
        let m = rest.pop().unwrap();
        assert(m == kept[n - 1]);
        back.push(to_content_match(m));
        assert(rest@ =~= kept.take(rest@.len() as int));
    }
    let mut out: Vec<ContentMatch> = Vec::new();
    while back.len() > 0
        invariant
            back@.len() + out@.len() == kept.len(),
            forall|j: int|
                0 <= j < back@.len() ==> (#[trigger] back@[j])@ == kept[kept.len() - 1 - j]@,
            forall|j: int| 0 <= j < out@.len() ==> (#[trigger] out@[j])@ == kept[j]@,
        decreases back@.len(),
    {
        let ghost n = back@.len();
        assert(back@[n - 1]@ == kept[kept.len() - n]@);
        out.push(back.pop().unwrap());
    }
    assert(content_matches(out@) =~= content_hits(kept));
    (out, files)
}

/// What went wrong with a search.
fn failed(e: &QueryError) -> (r: Response)
    ensures
        is_error(r, "Search failed: "@ + error_text(e@)),
{
    let mut message = "Search failed: ".to_owned();
    message.append(e.to_string().as_str());
    Response::Error { message }
}

/// Carries out a search for lines.
pub fn handle_content_search(
    index: &Index,
    pattern: &str,
    requested: Option<&str>,
    root: String,
    limit: usize,
    options: ContentSearchOptions,
) -> (r: Response)
    requires
        index.wf(),
    ensures
        match content_query(pattern@, scope_in(requested_path(requested), root@), options) {
            Err(e) => is_error(r, error_text(e)),
            Ok(q) => if q.asks_nothing() {
                r is ContentSearch && r->ContentSearch_0.matches@.len() == 0
                    && r->ContentSearch_0.file_paths is None && r->ContentSearch_0.file_counts is None
                    && r->ContentSearch_0.files_with_matches == 0
                    && r->ContentSearch_0.resolved_root == Some(root)
            } else if q.defect() is Some {
                is_error(r, "Search failed: "@ + error_text(q.defect()->0))
            } else {
                r is ContentSearch && r->ContentSearch_0.resolved_root == Some(root)
                    && answers_search(*index, q, limit, options, r->ContentSearch_0)
            },
        },
{
    let mut parsed = match try_parse_query(pattern) {
        Ok(q) => q,
        Err(e) => return Response::Error { message: e.to_string() },
    };
    let ghost spoken = parsed@;
    parsed.filters.search_scope = scope_of(requested, root.as_str());
    if options.word_regexp {
        match parsed.apply_word_boundaries() {
            Ok(_) => {},
            Err(e) => return Response::Error { message: e.to_string() },
        }
    }
    parsed.options.case_insensitive = options.case_insensitive;
    let ghost q = parsed@;
    assert(content_query(pattern@, scope_in(requested_path(requested), root@), options) == Ok::<
        QueryModel,
        ErrorModel,
    >(q));
    if parsed.is_empty() {
        return Response::ContentSearch(
            ContentSearchResponse {
                matches: Vec::new(),
                file_paths: None,
                file_counts: None,
                files_with_matches: 0,
                resolved_root: Some(root),
            },
        );
    }
    if options.files_only {
        let files = match index.execute_files_only(&parsed, cap(limit)) {
            Ok(v) => v,
            Err(e) => return failed(&e),
        };
        let count = files.len();
        assert(are_the_files(*index, q, capped(limit), texts(files@)));
        if options.compact_files {
            return Response::ContentSearch(
                ContentSearchResponse {
                    matches: Vec::new(),
                    file_paths: Some(files),
                    file_counts: None,
                    files_with_matches: count,
                    resolved_root: Some(root),
                },
            );
        }
        let matches = file_matches(files);
        assert(content_matches(matches@).len() == matches@.len());
        return Response::ContentSearch(
            ContentSearchResponse {
                matches,
                file_paths: None,
                file_counts: None,
                files_with_matches: count,
                resolved_root: Some(root),
            },
        );
    }
    if options.counts_only {
        let counts = match index.execute_match_counts(&parsed, limit) {
            Ok(v) => v,
            Err(e) => return failed(&e),
        };
        let count = counts.len();
        proof {
            let found = index.answers(q, None);
            let items = index.all_in_context(found, found.len(), 0, 0);
            let v = choose|v: Seq<ContentHit>| #[trigger]
                arranged(items, content_keys(items), v) && counts_of(counts@) == tally(
                    hit_paths(limited(v, limit as nat)),
                );
            assert(are_the_matches(*index, q, 0, 0, v));
        }
        return Response::ContentSearch(
            ContentSearchResponse {
                matches: Vec::new(),
                file_paths: None,
                file_counts: Some(counts),
                files_with_matches: count,
                resolved_root: Some(root),
            },
        );
    }
    let found = match index.execute_with_content(
        &parsed,
        options.context_before,
        options.context_after,
    ) {
        Ok(v) => v,
        Err(e) => return failed(&e),
    };
    assert(are_the_matches(
        *index,
        q,
        options.context_before,
        options.context_after,
        content_hits(found@),
    ));
    let (matches, files_with_matches) = sent_matches(found, cap(limit));
    Response::ContentSearch(
        ContentSearchResponse {
            matches,
            file_paths: None,
            file_counts: None,
            files_with_matches,
            resolved_root: Some(root),
        },
    )
}

} // verus!
