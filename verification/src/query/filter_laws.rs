//! Filters restrict what a search gives.
use crate::paths::{extension, file_name, is_within};
use crate::query::ast::{no_filters, FilterModel, NodeModel, QueryModel};
use crate::query::calendar::{lemma_time_fits, timestamp};
use crate::query::content::{check_hits, hits, Hit};
use crate::query::filter::{glob_match, glob_valid, in_bounds, is_literal_glob, passes};
use crate::query::grammar::{mtime_filter, size_filter, ParseState};
use crate::query::index::{language_named, Document, Index, Language};
use crate::query::index_laws::{lemma_ask_each, narrowing_asks_grams};
use crate::query::plan::{CheckModel, FilterStepModel, StepModel};
use crate::query::planner::{
    cased_pattern, filter_step, literal_pattern, near_steps, plan_of, planned, planned_all,
};
use crate::query::ranking::{name_holds_term, name_matches, query_terms, Unranked};
use crate::query::regex_plan::pattern_steps;
use crate::query::scan_laws::{lemma_ascending_list, lemma_excluded_within};
use crate::query::search::{ascending_list, kept_lines, line_bounds, line_in};
use crate::query::shape::pattern_shape;
use crate::text::{lower_case, lowered, unsigned};
use vstd::prelude::*;

verus! {

/// Each result is for a document of the list, with matches within the bounds.
proof fn lemma_result(
    index: Index,
    ids: Seq<u32>,
    n: nat,
    check: Option<CheckModel>,
    bounds: (Option<u32>, Option<u32>),
    target: Option<nat>,
    i: int,
)
    requires
        n <= ids.len(),
        0 <= i < index.verified(ids, n, check, bounds, target).len(),
    ensures
        ({
            let r = index.verified(ids, n, check, bounds, target)[i];
            &&& ids.contains(r.doc)
            &&& r.doc < index.documents@.len()
            &&& r.path == index.documents@[r.doc as int].path@
            &&& forall|k: int|
                0 <= k < r.hits.len() ==> line_in((#[trigger] r.hits[k]).0, bounds.0, bounds.1)
        }),
    decreases n,
{
    if n > 0 {
        let before = index.verified(ids, (n - 1) as nat, check, bounds, target);
        if i < before.len() {
            lemma_result(index, ids, (n - 1) as nat, check, bounds, target, i);
        } else {
            let d = ids[n - 1];
            assert(ids.contains(d));
            if check is Some {
                lemma_kept_lines(check_hits(index.text(d)->0, check->0), bounds.0, bounds.1);
            }
        }
    }
}

proof fn lemma_kept_lines(v: Seq<Hit>, low: Option<u32>, high: Option<u32>)
    ensures
        forall|k: int|
            0 <= k < kept_lines(v, low, high).len() ==> line_in(
                (#[trigger] kept_lines(v, low, high)[k]).0,
                low,
                high,
            ),
    decreases v.len(),
{
    if v.len() > 0 {
        lemma_kept_lines(v.drop_last(), low, high);
        let before = kept_lines(v.drop_last(), low, high);
        let all = kept_lines(v, low, high);
        assert forall|k: int| 0 <= k < all.len() implies line_in((#[trigger] all[k]).0, low, high) by {
            if k < before.len() {
                assert(all[k] == before[k]);
            }
        }
    }
}

/// Whether no step is a filter.
spec fn unfiltered(steps: Seq<StepModel>) -> bool {
    forall|k: int| 0 <= k < steps.len() ==> !(#[trigger] steps[k] is Filter)
}

proof fn lemma_pattern_unfiltered(pattern: Seq<char>)
    ensures
        unfiltered(pattern_steps(pattern)),
{
    if pattern_shape(pattern) is Some {
        let steps = pattern_steps(pattern);
        narrowing_asks_grams(pattern_shape(pattern)->0);
        assert forall|k: int| 0 <= k < steps.len() implies !(#[trigger] steps[k] is Filter) by {
            lemma_ask_each(steps, steps.len(), k);
        }
    }
}

proof fn lemma_near_unfiltered(terms: Seq<Seq<char>>, n: nat)
    ensures
        unfiltered(near_steps(terms, n)),
    decreases n,
{
    if 0 < n <= terms.len() {
        lemma_near_unfiltered(terms, (n - 1) as nat);
        lemma_pattern_unfiltered(literal_pattern(terms[n - 1], true));
    }
}

proof fn lemma_tree_unfiltered(node: NodeModel, insensitive: bool)
    ensures
        unfiltered(planned(node, insensitive).0),
    decreases node, 0nat,
{
    match node {
        NodeModel::Literal(t) => {
            lemma_pattern_unfiltered(literal_pattern(t, true));
        },
        NodeModel::BoostedLiteral { text: t, .. } => {
            lemma_pattern_unfiltered(literal_pattern(t, true));
        },
        NodeModel::Phrase(t) => {
            lemma_pattern_unfiltered(literal_pattern(t, insensitive));
        },
        NodeModel::BoostedPhrase { text: t, .. } => {
            lemma_pattern_unfiltered(literal_pattern(t, insensitive));
        },
        NodeModel::Near { terms, distance } => {
            lemma_near_unfiltered(terms, terms.len());
        },
        NodeModel::Regex(pattern) => {
            lemma_pattern_unfiltered(cased_pattern(pattern, insensitive));
        },
        NodeModel::And(v) => {
            lemma_all_unfiltered(v, v.len(), insensitive);
        },
        _ => {},
    }
}

proof fn lemma_all_unfiltered(nodes: Seq<NodeModel>, n: nat, insensitive: bool)
    ensures
        unfiltered(planned_all(nodes, n, insensitive).0),
    decreases nodes, n,
{
    if 0 < n <= nodes.len() {
        lemma_all_unfiltered(nodes, (n - 1) as nat, insensitive);
        lemma_tree_unfiltered(nodes[n - 1], insensitive);
    }
}

proof fn lemma_bounds(steps: Seq<StepModel>, f: FilterStepModel)
    requires
        unfiltered(steps),
    ensures
        line_bounds(steps.push(StepModel::Filter(f))) == (f.line_start, f.line_end),
    decreases steps.len(),
{
    let all = steps.push(StepModel::Filter(f));
    reveal_with_fuel(line_bounds, 2);
    if steps.len() == 0 {
        assert(all[0] == StepModel::Filter(f));
        assert(all.drop_first() =~= Seq::<StepModel>::empty());
    } else {
        let rest = steps.drop_first();
        assert(all[0] == steps[0]);
        assert forall|k: int| 0 <= k < rest.len() implies !(#[trigger] rest[k] is Filter) by {
            assert(rest[k] == steps[k + 1]);
        }
        assert(all.drop_first() =~= rest.push(StepModel::Filter(f)));
        lemma_bounds(rest, f);
    }
}

/// Filters are for the whole query: each result is a document that passes them,
/// so that it lies within the path that is searched, with matches on lines
/// within the range that is asked for.
pub proof fn results_pass_the_filters(index: Index, q: QueryModel, target: Option<nat>, i: int)
    requires
        index.wf(),
        q.filters != no_filters(),
        0 <= i < index.answers(q, target).len(),
    ensures
        ({
            let r = index.answers(q, target)[i];
            &&& r.doc < index.documents@.len()
            &&& r.path == index.documents@[r.doc as int].path@
            &&& passes(index.documents@[r.doc as int], filter_step(q.filters))
            &&& q.filters.search_scope is Some ==> is_within(r.path, q.filters.search_scope->0)
            &&& forall|k: int|
                0 <= k < r.hits.len() ==> line_in(
                    (#[trigger] r.hits[k]).0,
                    q.filters.line_start,
                    q.filters.line_end,
                )
        }),
{
    let plan = plan_of(q);
    let n = plan.steps.len();
    let f = filter_step(q.filters);
    let tree = planned(q.root, q.options.case_insensitive).0;
    assert(plan.steps == tree.push(StepModel::Filter(f)));
    lemma_tree_unfiltered(q.root, q.options.case_insensitive);
    lemma_bounds(tree, f);
    assert(plan.steps[n - 1] == StepModel::Filter(f));
    let set = index.narrowed(plan.steps, n)->0;
    lemma_excluded_within(index, plan.steps, n, set);
    let found = index.found(plan);
    assert forall|d: u32| #[trigger] found.contains(d) implies index.valid_docs().contains(d) by {
        assert(index.excluded(plan.steps, n, set).contains(d));
        assert(set.contains(d));
    }
    lemma_ascending_list(index, found);
    let ids = ascending_list(found);
    lemma_result(index, ids, ids.len(), plan.verification, line_bounds(plan.steps), target, i);
    let d = index.answers(q, target)[i].doc;
    assert(found.contains(d));
    assert(index.excluded(plan.steps, n, set).contains(d));
    assert(set.contains(d));
}

/// Each document found by its name is of the list.
proof fn lemma_named(
    index: Index,
    ids: Seq<u32>,
    n: nat,
    terms: Seq<Seq<char>>,
    limit: nat,
    i: int,
)
    requires
        n <= ids.len(),
        0 <= i < index.named(ids, n, terms, limit).len(),
    ensures
        ({
            let (d, path) = index.named(ids, n, terms, limit)[i];
            &&& ids.contains(d)
            &&& d < index.documents@.len()
            &&& path == index.documents@[d as int].path@
            &&& name_holds_term(path, terms)
        }),
    decreases n,
{
    if n > 0 {
        let before = index.named(ids, (n - 1) as nat, terms, limit);
        if i < before.len() {
            lemma_named(index, ids, (n - 1) as nat, terms, limit, i);
        } else {
            assert(ids.contains(ids[n - 1]));
        }
    }
}

/// Filters are for what is found by name, too: each such document passes them,
/// and the line that it stands for lies within the range that is asked for. It
/// is none that the query excludes.
pub proof fn names_pass_the_filters(index: Index, q: QueryModel, found: Unranked, i: int)
    requires
        index.wf(),
        index.finds(q, found),
        0 <= i < found.names@.len(),
    ensures
        ({
            let (d, path) = name_matches(found.names@)[i];
            let steps = plan_of(q).steps;
            &&& index.eligible(q).contains(d)
            &&& index.excluded(steps, steps.len(), index.eligible(q)).contains(d)
            &&& path == index.documents@[d as int].path@
            &&& name_holds_term(path, query_terms(plan_of(q).verification))
            &&& q.filters != no_filters() ==> passes(
                index.documents@[d as int],
                filter_step(q.filters),
            )
            &&& q.filters.search_scope is Some ==> is_within(path, q.filters.search_scope->0)
            &&& line_in(1, q.filters.line_start, q.filters.line_end)
        }),
{
    let steps = plan_of(q).steps;
    let about = index.eligible(q);
    let set = index.nameable(q);
    lemma_excluded_within(index, steps, steps.len(), about);
    assert forall|d: u32| #[trigger] set.contains(d) implies index.valid_docs().contains(d) by {
        assert(index.excluded(steps, steps.len(), about).contains(d));
        assert(about.contains(d));
    }
    lemma_ascending_list(index, set);
    let ids = ascending_list(set);
    let terms = query_terms(plan_of(q).verification);
    assert(name_matches(found.names@).len() == found.names@.len());
    lemma_named(index, ids, ids.len(), terms, q.options.limit as nat, i);
    let d = name_matches(found.names@)[i].0;
    assert(set.contains(d));
    assert(index.excluded(steps, steps.len(), about).contains(d));
}

/// The bounds of `size:` are strict: `>` lets larger files pass and `<` smaller
/// ones, besides an earlier bound on the other side.
pub proof fn size_bounds_are_strict(st: ParseState, value: Seq<char>, size: u64)
    requires
        value.len() > 0,
        size_filter(st, value) is Ok,
    ensures
        ({
            let before = st.filters;
            let after = size_filter(st, value)->Ok_0.filters;
            let bound = unsigned(value.skip(1), u64::MAX as nat)->0;
            in_bounds(size, after.size_min, after.size_max) <==> if value[0] == '>' {
                size > bound && in_bounds(size, None, before.size_max)
            } else {
                size < bound && in_bounds(size, before.size_min, None)
            }
        }),
{
}

/// A date without a sign stands for its day, from its first second to its last.
pub proof fn date_stands_for_its_day(st: ParseState, value: Seq<char>, time: u64)
    requires
        value.len() > 0,
        value[0] != '>' && value[0] != '<',
        mtime_filter(st, value) is Ok,
    ensures
        ({
            let after = mtime_filter(st, value)->Ok_0.filters;
            let start = timestamp(value)->0;
            in_bounds(time, after.mtime_min, after.mtime_max) <==> start <= time < start + 86400
        }),
{
}

/// A time after `>` or `<` is itself left out.
pub proof fn time_bounds_are_strict(st: ParseState, value: Seq<char>, time: u64)
    requires
        value.len() > 0,
        value[0] == '>' || value[0] == '<',
        mtime_filter(st, value) is Ok,
    ensures
        ({
            let before = st.filters;
            let after = mtime_filter(st, value)->Ok_0.filters;
            let bound = timestamp(value.skip(1))->0;
            in_bounds(time, after.mtime_min, after.mtime_max) <==> if value[0] == '>' {
                time > bound && in_bounds(time, None, before.mtime_max)
            } else {
                time < bound && in_bounds(time, before.mtime_min, None)
            }
        }),
{
    lemma_time_fits(value.skip(1));
}

/// A document passes the filters of a query exactly if it is valid and passes each
/// filter that is given: its extension but for case, its language, its size and
/// time within the bounds, its place within the scope, its path and its name.
/// A path or name without wildcards has to be the same, a name whatever its case.
pub proof fn each_filter_has_to_be_passed(doc: Document, f: FilterModel)
    requires
        f.path is Some ==> is_literal_glob(f.path->0) && !doc.path@.contains('\\'),
        f.filename is Some ==> is_literal_glob(f.filename->0) && !f.filename->0.contains('['),
    ensures
        passes(doc, filter_step(f)) <==> {
            &&& doc.valid
            &&& f.path is Some ==> doc.path@ == f.path->0
            &&& f.filename is Some ==> file_name(doc.path@) is Some && lower_case(
                file_name(doc.path@)->0,
            ) == lower_case(f.filename->0)
            &&& f.ext is Some ==> lowered(extension(doc.path@)) == lowered(f.ext->0)
            &&& f.lang is Some ==> doc.language == language_named(lower_case(f.lang->0))
            &&& f.size_min is Some ==> f.size_min->0 <= doc.size
            &&& f.size_max is Some ==> doc.size <= f.size_max->0
            &&& f.mtime_min is Some ==> f.mtime_min->0 <= doc.mtime
            &&& f.mtime_max is Some ==> doc.mtime <= f.mtime_max->0
            &&& f.search_scope is Some ==> is_within(doc.path@, f.search_scope->0)
        },
{
}

/// A path filter with wildcards is a glob for the whole path, in which only a slash
/// stands for a slash; a name filter with a star, a question mark or a bracket is
/// one for the name of the file, whatever the case of letters. A path filter that
/// is no glob lets every file pass.
pub proof fn wildcards_make_a_glob(doc: Document, pattern: Seq<char>)
    requires
        doc.valid,
        !is_literal_glob(pattern),
        !is_literal_glob(lower_case(pattern)),
    ensures
        ({
            let by_path = FilterModel { path: Some(pattern), ..no_filters() };
            let by_name = FilterModel { filename: Some(pattern), ..no_filters() };
            let low = lower_case(pattern);
            &&& glob_valid(pattern, true) ==> (passes(doc, filter_step(by_path)) <==> glob_match(
                pattern,
                true,
                doc.path@,
            ))
            &&& !glob_valid(pattern, true) ==> passes(doc, filter_step(by_path))
            &&& (pattern.contains('*') || pattern.contains('?') || pattern.contains('['))
                && glob_valid(low, false) && file_name(doc.path@) is Some ==> (passes(
                doc,
                filter_step(by_name),
            ) <==> glob_match(low, false, lower_case(file_name(doc.path@)->0)))
        }),
{
}

/// A further filter never lets more files pass.
pub proof fn filters_only_restrict(doc: Document, f: FilterModel, g: FilterModel)
    requires
        passes(doc, filter_step(f)),
        g.path is Some ==> g.path == f.path,
        g.filename is Some ==> g.filename == f.filename,
        g.ext is Some ==> g.ext == f.ext,
        g.lang is Some ==> g.lang == f.lang,
        g.size_min is Some ==> g.size_min == f.size_min,
        g.size_max is Some ==> g.size_max == f.size_max,
        g.mtime_min is Some ==> g.mtime_min == f.mtime_min,
        g.mtime_max is Some ==> g.mtime_max == f.mtime_max,
        g.search_scope is Some ==> g.search_scope == f.search_scope,
    ensures
        passes(doc, filter_step(g)),
{
}

/// The names of the languages, each for its own.
pub proof fn languages_have_their_names()
    ensures
        language_named("rust"@) == Language::Rust,
        language_named("rs"@) == Language::Rust,
        language_named("python"@) == Language::Python,
        language_named("py"@) == Language::Python,
        language_named("javascript"@) == Language::JavaScript,
        language_named("js"@) == Language::JavaScript,
        language_named("typescript"@) == Language::TypeScript,
        language_named("ts"@) == Language::TypeScript,
        language_named("go"@) == Language::Go,
        language_named("c"@) == Language::C,
        language_named("cpp"@) == Language::Cpp,
        language_named("c++"@) == Language::Cpp,
        language_named("java"@) == Language::Java,
        language_named("ruby"@) == Language::Ruby,
        language_named("rb"@) == Language::Ruby,
        language_named("shell"@) == Language::Shell,
        language_named("sh"@) == Language::Shell,
        language_named("bash"@) == Language::Shell,
{
    reveal_strlit("rust");
    reveal_strlit("rs");
    reveal_strlit("python");
    reveal_strlit("py");
    reveal_strlit("javascript");
    reveal_strlit("js");
    reveal_strlit("typescript");
    reveal_strlit("ts");
    reveal_strlit("go");
    reveal_strlit("c");
    reveal_strlit("cpp");
    reveal_strlit("c++");
    reveal_strlit("java");
    reveal_strlit("ruby");
    reveal_strlit("rb");
    reveal_strlit("shell");
    reveal_strlit("sh");
    reveal_strlit("bash");
    assert("rust"@ =~= seq!['r', 'u', 's', 't']);
    assert("rs"@ =~= seq!['r', 's']);
    assert("python"@ =~= seq!['p', 'y', 't', 'h', 'o', 'n']);
    assert("py"@ =~= seq!['p', 'y']);
    assert("javascript"@ =~= seq!['j', 'a', 'v', 'a', 's', 'c', 'r', 'i', 'p', 't']);
    assert("js"@ =~= seq!['j', 's']);
    assert("typescript"@ =~= seq!['t', 'y', 'p', 'e', 's', 'c', 'r', 'i', 'p', 't']);
    assert("ts"@ =~= seq!['t', 's']);
    assert("go"@ =~= seq!['g', 'o']);
    assert("c"@ =~= seq!['c']);
    assert("cpp"@ =~= seq!['c', 'p', 'p']);
    assert("c++"@ =~= seq!['c', '+', '+']);
    assert("java"@ =~= seq!['j', 'a', 'v', 'a']);
    assert("ruby"@ =~= seq!['r', 'u', 'b', 'y']);
    assert("rb"@ =~= seq!['r', 'b']);
    assert("shell"@ =~= seq!['s', 'h', 'e', 'l', 'l']);
    assert("sh"@ =~= seq!['s', 'h']);
    assert("bash"@ =~= seq!['b', 'a', 's', 'h']);
}

/// The bounds on lines of a query are those of its filters.
pub proof fn line_bounds_are_those_of_the_query(q: QueryModel)
    ensures
        line_bounds(plan_of(q).steps) == (q.filters.line_start, q.filters.line_end),
{
    let steps = planned(q.root, q.options.case_insensitive).0;
    lemma_tree_unfiltered(q.root, q.options.case_insensitive);
    if q.filters != no_filters() {
        lemma_bounds(steps, filter_step(q.filters));
    } else {
        lemma_unbounded_steps(steps);
    }
}

proof fn lemma_unbounded_steps(steps: Seq<StepModel>)
    requires
        unfiltered(steps),
    ensures
        line_bounds(steps) == (None::<u32>, None::<u32>),
    decreases steps.len(),
{
    if steps.len() > 0 {
        let rest = steps.drop_first();
        assert forall|k: int| 0 <= k < rest.len() implies !(#[trigger] rest[k] is Filter) by {
            assert(rest[k] == steps[k + 1]);
        }
        lemma_unbounded_steps(rest);
        assert(!(steps[0] is Filter));
    }
}

} // verus!
