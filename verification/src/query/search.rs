//! Searches: the matches of a query in an index.
use crate::order::{key_lists, order_by_keys, sorts};
use crate::paths::{is_same_path, path_key, path_key_of, same_path};
use crate::query::ast::{texts, Query, QueryError, QueryModel};
use crate::query::bitmap::{ascending, docs, list_of_set};
use crate::query::content::{
    check_hits, extract_context_from_lines, has_match, hits_of, numbered, numbered_between,
    verify_content, ContextLines, FileMatch, Hit,
};
use crate::query::index::Index;
use crate::query::lines::{lemma_line_count, lines, lines_of};
use crate::query::listing_laws::file_search_is_a_scan;
use crate::query::plan::{
    check_option, lemma_plan_model, step_models, CheckModel, PlanStep, QueryPlan, StepModel,
    VerificationStep,
};
use crate::query::planner::plan_of;
use crate::query::scan_laws::{lemma_finds_what_it_must, narrowing_is_sure, search_is_a_scan};
use roaring::RoaringBitmap;
use vstd::prelude::*;

verus! {

/// The list of a set's numbers in ascending order.
pub open spec fn ascending_list(s: Set<u32>) -> Seq<u32> {
    choose|v: Seq<u32>|
        ascending(v) && forall|d: u32| #[trigger] v.contains(d) <==> s.contains(d)
}

/// There is one ascending list of given numbers.
pub proof fn ascending_list_is_unique(a: Seq<u32>, b: Seq<u32>)
    requires
        ascending(a),
        ascending(b),
        forall|d: u32| #[trigger] a.contains(d) <==> b.contains(d),
    ensures
        a == b,
    decreases a.len(),
{
    if a.len() == 0 {
        if b.len() > 0 {
            assert(b.contains(b[0]));
            assert(a.contains(b[0]));
        }
        assert(a =~= b);
    } else {
        assert(a.contains(a.last()));
        assert(b.contains(a.last()));
        assert(b.len() > 0);
        assert(b.contains(b.last()));
        assert(a.contains(b.last()));
        assert(a.last() == b.last());
        let x = a.drop_last();
        let y = b.drop_last();
        assert forall|d: u32| #[trigger] x.contains(d) <==> y.contains(d) by {
            if x.contains(d) {
                let i = choose|i: int| 0 <= i < x.len() && x[i] == d;
                assert(a[i] == d);
                assert(a.contains(d));
                assert(b.contains(d));
                let j = choose|j: int| 0 <= j < b.len() && b[j] == d;
                assert(d < a.last());
                assert(y[j] == d);
            }
            if y.contains(d) {
                let i = choose|i: int| 0 <= i < y.len() && y[i] == d;
                assert(b[i] == d);
                assert(b.contains(d));
                assert(a.contains(d));
                let j = choose|j: int| 0 <= j < a.len() && a[j] == d;
                assert(d < b.last());
                assert(x[j] == d);
            }
        }
        ascending_list_is_unique(x, y);
        assert(a =~= x.push(a.last()));
        assert(b =~= y.push(b.last()));
    }
}

/// The numbers of a set in ascending order.
pub(crate) fn ids_of(s: &RoaringBitmap) -> (r: Vec<u32>)
    ensures
        r@ == ascending_list(docs(*s)),
{
    let r = list_of_set(s);
    proof {
        let w = ascending_list(docs(*s));
        assert(ascending(r@) && forall|d: u32| #[trigger]
            r@.contains(d) <==> docs(*s).contains(d));
        assert(ascending(w) && forall|d: u32| #[trigger] w.contains(d) <==> docs(*s).contains(d));
        assert forall|d: u32| #[trigger] r@.contains(d) <==> w.contains(d) by {
            assert(w.contains(d) <==> docs(*s).contains(d));
        }
        ascending_list_is_unique(r@, w);
    }
    r
}

/// The matches in one document.
#[derive(Debug)]
pub struct FileResult {
    pub doc_id: u32,
    pub path: String,
    pub mtime: u64,
    pub matches: Vec<FileMatch>,
}

/// The mathematical content of a [`FileResult`].
pub struct FileHits {
    pub doc: u32,
    pub path: Seq<char>,
    pub mtime: u64,
    pub hits: Seq<Hit>,
}

impl View for FileResult {
    type V = FileHits;

    open spec fn view(&self) -> FileHits {
        FileHits {
            doc: self.doc_id,
            path: self.path@,
            mtime: self.mtime,
            hits: hits_of(self.matches@),
        }
    }
}

/// The contents of a list of results.
pub open spec fn results_of(v: Seq<FileResult>) -> Seq<FileHits> {
    v.map_values(|r: FileResult| r@)
}

/// Whether a line lies within bounds.
pub open spec fn line_in(n: u32, low: Option<u32>, high: Option<u32>) -> bool {
    (low is Some ==> low->0 <= n) && (high is Some ==> n <= high->0)
}

/// The matches on lines within bounds.
pub open spec fn kept_lines(v: Seq<Hit>, low: Option<u32>, high: Option<u32>) -> Seq<Hit>
    decreases v.len(),
{
    if v.len() == 0 {
        v
    } else if line_in(v.last().0, low, high) {
        kept_lines(v.drop_last(), low, high).push(v.last())
    } else {
        kept_lines(v.drop_last(), low, high)
    }
}

/// The bounds on lines that a plan sets: those of its first filter with any.
pub open spec fn line_bounds(steps: Seq<StepModel>) -> (Option<u32>, Option<u32>)
    decreases steps.len(),
{
    if steps.len() == 0 {
        (None, None)
    } else {
        match steps[0] {
            StepModel::Filter(f) if f.line_start is Some || f.line_end is Some => (
                f.line_start,
                f.line_end,
            ),
            _ => line_bounds(steps.drop_first()),
        }
    }
}

/// Number of matches in several documents.
pub open spec fn total_hits(v: Seq<FileHits>) -> nat
    decreases v.len(),
{
    if v.len() == 0 {
        0
    } else {
        total_hits(v.drop_last()) + v.last().hits.len()
    }
}

impl Index {
    /// The result for a document.
    pub open spec fn result(&self, d: u32, hits: Seq<Hit>) -> FileHits {
        let doc = self.documents@[d as int];
        FileHits { doc: d, path: doc.path@, mtime: doc.mtime, hits }
    }

    /// The results for the first `n` documents of a list, in their order.
    /// Without a check every document is a result, without matches. With one,
    /// those with matches within the bounds on lines are, and no document is
    /// looked at once `target` matches have been found.
    pub open spec fn verified(
        &self,
        ids: Seq<u32>,
        n: nat,
        check: Option<CheckModel>,
        bounds: (Option<u32>, Option<u32>),
        target: Option<nat>,
    ) -> Seq<FileHits>
        decreases n,
    {
        if n == 0 {
            Seq::empty()
        } else {
            let before = self.verified(ids, (n - 1) as nat, check, bounds, target);
            let d = ids[n - 1];
            if d >= self.documents@.len() {
                before
            } else {
                match check {
                    None => before.push(self.result(d, Seq::empty())),
                    Some(c) => if target is Some && total_hits(before) >= target->0 {
                        before
                    } else {
                        match self.text(d) {
                            None => before,
                            Some(t) => {
                                let hits = kept_lines(check_hits(t, c), bounds.0, bounds.1);
                                if hits.len() == 0 {
                                    before
                                } else {
                                    before.push(self.result(d, hits))
                                }
                            },
                        }
                    },
                }
            }
        }
    }

    /// The results of a query.
    pub open spec fn answers(&self, q: QueryModel, target: Option<nat>) -> Seq<FileHits> {
        let plan = plan_of(q);
        let ids = ascending_list(self.found(plan));
        self.verified(ids, ids.len(), plan.verification, line_bounds(plan.steps), target)
    }
}

/// The bounds on lines that a plan sets.
pub fn extract_line_filter(steps: &Vec<PlanStep>) -> (r: (Option<u32>, Option<u32>))
    ensures
        r == line_bounds(step_models(steps@)),
{
    let ghost m = step_models(steps@);
    let mut i: usize = 0;
    assert(m.skip(0) =~= m);
    while i < steps.len()
        invariant
            i <= steps@.len(),
            m == step_models(steps@),
            line_bounds(m) == line_bounds(m.skip(i as int)),
        decreases steps@.len() - i,
    {
        assert(m.skip(i as int)[0] == steps@[i as int].model());
        assert(m.skip(i as int).drop_first() =~= m.skip(i + 1));
        match &steps[i] {
            PlanStep::Filter(f) => {
                if f.line_start.is_some() || f.line_end.is_some() {
                    return (f.line_start, f.line_end);
                }
            },
            _ => {},
        }
        i += 1;
    }
    assert(m.skip(m.len() as int).len() == 0);
    (None, None)
}

/// The matches on lines within bounds.
fn keep_lines(v: Vec<FileMatch>, low: Option<u32>, high: Option<u32>) -> (r: Vec<FileMatch>)
    ensures
        hits_of(r@) == kept_lines(hits_of(v@), low, high),
{
    let ghost all = hits_of(v@);
    let mut out: Vec<FileMatch> = Vec::new();
    let mut i: usize = 0;
    assert(hits_of(out@) =~= kept_lines(all.take(0), low, high));
    while i < v.len()
        invariant
            i <= v@.len(),
            all == hits_of(v@),
            hits_of(out@) == kept_lines(all.take(i as int), low, high),
        decreases v@.len() - i,
    {
        let m = &v[i];
        let low_ok = match low {
            Some(x) => x <= m.0,
            None => true,
        };
        let high_ok = match high {
            Some(x) => m.0 <= x,
            None => true,
        };
        assert(all.take(i + 1).drop_last() =~= all.take(i as int));
        assert(all.take(i + 1).last() == (m.0, m.1@, m.2 as nat, m.3 as nat));
        if low_ok && high_ok {
            let ghost before = out@;
            let copy = (m.0, m.1.clone(), m.2, m.3);
            out.push(copy);
            assert(hits_of(out@) =~= hits_of(before).push(
                (copy.0, copy.1@, copy.2 as nat, copy.3 as nat),
            ));
        }
        i += 1;
    }
    assert(all.take(all.len() as int) =~= all);
    out
}

impl Index {
    /// The results for a list of documents.
    pub fn find_verified_matches(
        &self,
        ids: &Vec<u32>,
        plan: &QueryPlan,
        target: Option<usize>,
    ) -> (r: Vec<FileResult>)
        requires
            self.wf(),
        ensures
            results_of(r@) == self.verified(
                ids@,
                ids@.len(),
                plan.model().verification,
                line_bounds(plan.model().steps),
                match target {
                    Some(t) => Some(t as nat),
                    None => None,
                },
            ),
    {
        proof {
            lemma_plan_model(*plan);
        }
        let ghost check = plan.model().verification;
        let ghost wanted = match target {
            Some(t) => Some(t as nat),
            None => None,
        };
        let (low, high) = extract_line_filter(&plan.steps);
        let mut out: Vec<FileResult> = Vec::new();
        let mut total: usize = 0;
        let mut i: usize = 0;
        assert(results_of(out@) =~= Seq::<FileHits>::empty());
        while i < ids.len()
            invariant
                i <= ids@.len(),
                self.wf(),
                check == check_option(plan.verification),
                wanted == (match target {
                    Some(t) => Some(t as nat),
                    None => None,
                }),
                results_of(out@) == self.verified(ids@, i as nat, check, (low, high), wanted),
                total == if total_hits(results_of(out@)) > usize::MAX {
                    usize::MAX as int
                } else {
                    total_hits(results_of(out@)) as int
                },
            decreases ids@.len() - i,
        {
            let d = ids[i];
            i += 1;
            if (d as usize) >= self.documents.len() {
                continue;
            }
            let doc = &self.documents[d as usize];
            let ghost before = out@;
            match &plan.verification {
                None => {
                    let matches: Vec<FileMatch> = Vec::new();
                    assert(hits_of(matches@) =~= Seq::<Hit>::empty());
                    let entry = FileResult {
                        doc_id: d,
                        path: doc.path.clone(),
                        mtime: doc.mtime,
                        matches,
                    };
                    out.push(entry);
                    assert(results_of(out@) =~= results_of(before).push(entry@));
                    assert(results_of(out@).drop_last() =~= results_of(before));
                },
                Some(c) => {
                    let enough = match target {
                        Some(t) => total >= t,
                        None => false,
                    };
                    if enough {
                        continue;
                    }
                    match &doc.content {
                        Some(content) => {
                            assert(self.documents@[d as int].content is Some);
                            let matches = keep_lines(
                                verify_content(content.as_str(), c),
                                low,
                                high,
                            );
                            assert(hits_of(matches@).len() == matches@.len());
                            if matches.len() > 0 {
                                total = total.saturating_add(matches.len());
                                let entry = FileResult {
                                    doc_id: d,
                                    path: doc.path.clone(),
                                    mtime: doc.mtime,
                                    matches,
                                };
                                out.push(entry);
                                assert(results_of(out@) =~= results_of(before).push(entry@));
                                assert(results_of(out@).drop_last() =~= results_of(before));
                            }
                        },
                        None => {},
                    }
                },
            }
        }
        out
    }

    /// The results of a valid query.
    pub(crate) fn answer(&self, query: &Query, target: Option<usize>) -> (r: Vec<FileResult>)
        requires
            self.wf(),
        ensures
            results_of(r@) == self.answers(
                query@,
                match target {
                    Some(t) => Some(t as nat),
                    None => None,
                },
            ),
            target is None && narrowing_is_sure(*self, query@) ==> results_of(r@) == self.scanned(
                query@,
            ),
            self.finds_what_it_must(query@),
    {
        let plan = QueryPlan::from_query(query);
        proof {
            lemma_finds_what_it_must(*self, query@);
            if narrowing_is_sure(*self, query@) {
                search_is_a_scan(*self, query@);
            }
        }
        let ids = ids_of(&self.execute_plan(&plan));
        self.find_verified_matches(&ids, &plan, target)
    }
}

/// A match with its line and the lines around it.
#[derive(Debug)]
pub struct ContentMatchResult {
    pub path: String,
    pub line_number: u32,
    pub line_content: String,
    pub match_start: usize,
    pub match_end: usize,
    pub context_before: Vec<(u32, String)>,
    pub context_after: Vec<(u32, String)>,
}

/// The mathematical content of a [`ContentMatchResult`].
pub struct ContentHit {
    pub path: Seq<char>,
    pub line_number: u32,
    pub line_content: Seq<char>,
    pub match_start: nat,
    pub match_end: nat,
    pub context_before: Seq<(u32, Seq<char>)>,
    pub context_after: Seq<(u32, Seq<char>)>,
}

impl View for ContentMatchResult {
    type V = ContentHit;

    open spec fn view(&self) -> ContentHit {
        ContentHit {
            path: self.path@,
            line_number: self.line_number,
            line_content: self.line_content@,
            match_start: self.match_start as nat,
            match_end: self.match_end as nat,
            context_before: numbered(self.context_before@),
            context_after: numbered(self.context_after@),
        }
    }
}

/// The contents of a list of matches.
pub open spec fn content_hits(v: Seq<ContentMatchResult>) -> Seq<ContentHit> {
    v.map_values(|m: ContentMatchResult| m@)
}

/// The `n` lines before a line of a text.
pub open spec fn lines_before(text: Seq<char>, line: u32, n: u32) -> Seq<(u32, Seq<char>)> {
    if line == 0 {
        Seq::empty()
    } else {
        numbered_between(
            lines(text),
            if line - 1 >= n {
                line - 1 - n
            } else {
                0
            },
            line - 1,
        )
    }
}

/// The `n` lines after a line of a text.
pub open spec fn lines_after(text: Seq<char>, line: u32, n: u32) -> Seq<(u32, Seq<char>)> {
    if line == 0 {
        Seq::empty()
    } else {
        numbered_between(lines(text), line as int, line + n)
    }
}

/// A match with the lines around it.
pub open spec fn in_context(
    path: Seq<char>,
    hit: Hit,
    text: Option<Seq<char>>,
    before: u32,
    after: u32,
) -> ContentHit {
    ContentHit {
        path,
        line_number: hit.0,
        line_content: hit.1,
        match_start: hit.2,
        match_end: hit.3,
        context_before: match text {
            Some(t) => lines_before(t, hit.0, before),
            None => Seq::empty(),
        },
        context_after: match text {
            Some(t) => lines_after(t, hit.0, after),
            None => Seq::empty(),
        },
    }
}

/// The first `n` matches of a result, with the lines around them.
pub open spec fn hits_in_context(
    r: FileHits,
    n: nat,
    text: Option<Seq<char>>,
    before: u32,
    after: u32,
) -> Seq<ContentHit>
    decreases n,
{
    if n == 0 {
        Seq::empty()
    } else {
        hits_in_context(r, (n - 1) as nat, text, before, after).push(
            in_context(r.path, r.hits[n - 1], text, before, after),
        )
    }
}

/// A result without matches stands for its file as a whole.
pub open spec fn whole_file(path: Seq<char>) -> ContentHit {
    in_context(path, (1u32, Seq::empty(), 0nat, 0nat), None, 0, 0)
}

impl Index {
    /// The matches of the first `n` results, with the lines around them.
    pub open spec fn all_in_context(
        &self,
        v: Seq<FileHits>,
        n: nat,
        before: u32,
        after: u32,
    ) -> Seq<ContentHit>
        decreases n,
    {
        if n == 0 {
            Seq::empty()
        } else {
            let front = self.all_in_context(v, (n - 1) as nat, before, after);
            let r = v[n - 1];
            if r.hits.len() == 0 {
                front.push(whole_file(r.path))
            } else {
                front + hits_in_context(r, r.hits.len(), self.text(r.doc), before, after)
            }
        }
    }
}

/// The key of a match in the order of paths, then lines.
pub open spec fn content_key(path: Seq<char>, line: u32) -> Seq<u32> {
    path_key(path) + seq![0u32, line]
}

/// The items at the places that a list names.
pub open spec fn picked<T>(items: Seq<T>, perm: Seq<usize>) -> Seq<T> {
    perm.map_values(|i: usize| items[i as int])
}

/// Whether `out` are the items in order of their keys, items with equal keys in
/// the order they had.
pub open spec fn arranged<T>(items: Seq<T>, keys: Seq<Seq<u32>>, out: Seq<T>) -> bool {
    exists|perm: Seq<usize>| #[trigger] sorts(keys, perm) && out == picked(items, perm)
}

/// The keys of matches.
pub open spec fn content_keys(v: Seq<ContentHit>) -> Seq<Seq<u32>> {
    v.map_values(|h: ContentHit| content_key(h.path, h.line_number))
}

fn context_of(text: &Vec<String>, line: u32, before: u32, after: u32) -> (r: (
    ContextLines,
    ContextLines,
))
    requires
        text@.len() < u32::MAX,
    ensures
        forall|t: Seq<char>| #[trigger]
            lines(t) == texts(text@) ==> numbered(r.0@) == lines_before(t, line, before)
                && numbered(r.1@) == lines_after(t, line, after),
{
    if line == 0 {
        let a: ContextLines = Vec::new();
        let b: ContextLines = Vec::new();
        assert(numbered(a@) =~= Seq::<(u32, Seq<char>)>::empty());
        assert(numbered(b@) =~= Seq::<(u32, Seq<char>)>::empty());
        (a, b)
    } else {
        extract_context_from_lines(text, line, before, after)
    }
}

/// No lines.
fn no_context() -> (r: ContextLines)
    ensures
        numbered(r@) == Seq::<(u32, Seq<char>)>::empty(),
{
    let r: ContextLines = Vec::new();
    assert(numbered(r@) =~= Seq::<(u32, Seq<char>)>::empty());
    r
}

impl Index {
    /// Appends the matches of a result with the lines around them.
    fn add_content(
        &self,
        out: &mut Vec<ContentMatchResult>,
        result: &FileResult,
        before: u32,
        after: u32,
    )
        requires
            self.wf(),
        ensures
            content_hits(final(out)@) == content_hits(old(out)@) + (if result@.hits.len() == 0 {
                seq![whole_file(result@.path)]
            } else {
                hits_in_context(
                    result@,
                    result@.hits.len(),
                    self.text(result@.doc),
                    before,
                    after,
                )
            }),
    {
        let ghost start = content_hits(out@);
        assert(result@.hits.len() == result.matches@.len());
        if result.matches.len() == 0 {
            let entry = ContentMatchResult {
                path: result.path.clone(),
                line_number: 1,
                line_content: String::new(),
                match_start: 0,
                match_end: 0,
                context_before: no_context(),
                context_after: no_context(),
            };
            out.push(entry);
            assert(content_hits(out@) =~= start.push(entry@));
            assert(entry@ == whole_file(result@.path));
            assert(content_hits(out@) =~= start + seq![whole_file(result@.path)]);
            return;
        }
        let ghost text = self.text(result@.doc);
        let d = result.doc_id as usize;
        let text_lines: Option<Vec<String>> = if d < self.documents.len() {
            match &self.documents[d].content {
                Some(content) => {
                    proof {
                        lemma_line_count(content@);
                    }
                    let v = lines_of(content.as_str());
                    assert(texts(v@).len() == v@.len());
                    Some(v)
                },
                None => None,
            }
        } else {
            None
        };
        let mut i: usize = 0;
        assert(start + hits_in_context(result@, 0, text, before, after) =~= start);
        while i < result.matches.len()
            invariant
                i <= result.matches@.len(),
                result@.hits.len() == result.matches@.len(),
                text_lines is Some <==> text is Some,
                text_lines is Some ==> texts(text_lines->0@) == lines(text->0)
                    && text_lines->0@.len() < u32::MAX,
                content_hits(out@) == start + hits_in_context(
                    result@,
                    i as nat,
                    text,
                    before,
                    after,
                ),
            decreases result.matches@.len() - i,
        {
            let ghost was = out@;
            let m = &result.matches[i];
            let (context_before, context_after) = match &text_lines {
                Some(v) => context_of(v, m.0, before, after),
                None => (no_context(), no_context()),
            };
            let entry = ContentMatchResult {
                path: result.path.clone(),
                line_number: m.0,
                line_content: m.1.clone(),
                match_start: m.2,
                match_end: m.3,
                context_before,
                context_after,
            };
            assert(result@.hits[i as int] == (m.0, m.1@, m.2 as nat, m.3 as nat));
            assert(entry@ == in_context(
                result@.path,
                result@.hits[i as int],
                text,
                before,
                after,
            ));
            out.push(entry);
            assert(content_hits(out@) =~= content_hits(was).push(entry@));
            i += 1;
            assert(content_hits(out@) =~= start + hits_in_context(
                result@,
                i as nat,
                text,
                before,
                after,
            ));
        }
    }

    /// The matches of a query with their lines and the lines around them, in
    /// order of paths and lines.
    pub fn execute_with_content(&self, query: &Query, before: u32, after: u32) -> (r: Result<
        Vec<ContentMatchResult>,
        QueryError,
    >)
        requires
            self.wf(),
        ensures
            match r {
                Ok(v) => query@.defect() is None && {
                    let found = self.answers(query@, None);
                    let items = self.all_in_context(found, found.len(), before, after);
                    arranged(items, content_keys(items), content_hits(v@))
                },
                Err(e) => query@.defect() == Some(e@),
            },
            r is Ok && narrowing_is_sure(*self, query@) ==> self.answers(query@, None)
                == self.scanned(query@),
            r is Ok ==> self.finds_what_it_must(query@),
    {
        match query.validate() {
            Ok(_) => {},
            Err(e) => return Err(e),
        }
        let results = self.answer(query, None);
        let ghost found = results_of(results@);
        let mut items: Vec<ContentMatchResult> = Vec::new();
        let mut i: usize = 0;
        assert(content_hits(items@) =~= Seq::<ContentHit>::empty());
        while i < results.len()
            invariant
                i <= results@.len(),
                self.wf(),
                found == results_of(results@),
                content_hits(items@) == self.all_in_context(found, i as nat, before, after),
            decreases results@.len() - i,
        {
            assert(found[i as int] == results@[i as int]@);
            let ghost was = content_hits(items@);
            self.add_content(&mut items, &results[i], before, after);
            i += 1;
            assert(content_hits(items@) =~= self.all_in_context(found, i as nat, before, after));
        }
        let ghost unsorted = content_hits(items@);
        let mut keys: Vec<Vec<u32>> = Vec::new();
        let mut k: usize = 0;
        while k < items.len()
            invariant
                k <= items@.len(),
                unsorted == content_hits(items@),
                key_lists(keys@) == content_keys(unsorted).take(k as int),
            decreases items@.len() - k,
        {
            let ghost was = keys@;
            let mut key = path_key_of(items[k].path.as_str());
            key.push(0);
            key.push(items[k].line_number);
            assert(key@ =~= content_key(unsorted[k as int].path, unsorted[k as int].line_number));
            keys.push(key);
            k += 1;
            assert(key_lists(keys@) =~= key_lists(was).push(key@));
            assert(content_keys(unsorted).take(k as int) =~= content_keys(unsorted).take(
                k - 1,
            ).push(key@));
        }
        assert(content_keys(unsorted).take(unsorted.len() as int) =~= content_keys(unsorted));
        let perm = order_by_keys(keys);
        let sorted = pick_content(items, &perm);
        assert(sorts(content_keys(unsorted), perm@));
        Ok(sorted)
    }
}

/// A copy of numbered lines.
fn copy_context(v: &ContextLines) -> (r: ContextLines)
    ensures
        numbered(r@) == numbered(v@),
{
    let mut out: ContextLines = Vec::new();
    let mut i: usize = 0;
    while i < v.len()
        invariant
            i <= v@.len(),
            numbered(out@) == numbered(v@).take(i as int),
        decreases v@.len() - i,
    {
        let ghost was = out@;
        let line = (v[i].0, v[i].1.clone());
        out.push(line);
        i += 1;
        assert(numbered(out@) =~= numbered(was).push((line.0, line.1@)));
        assert(numbered(v@).take(i as int) =~= numbered(v@).take(i - 1).push((line.0, line.1@)));
    }
    assert(numbered(v@).take(v@.len() as int) =~= numbered(v@));
    out
}

/// The matches at the places that a list names.
fn pick_content(items: Vec<ContentMatchResult>, perm: &Vec<usize>) -> (r: Vec<ContentMatchResult>)
    requires
        forall|i: int| 0 <= i < perm@.len() ==> (#[trigger] perm@[i]) < items@.len(),
    ensures
        content_hits(r@) == picked(content_hits(items@), perm@),
{
    let ghost all = content_hits(items@);
    let mut out: Vec<ContentMatchResult> = Vec::new();
    let mut i: usize = 0;
    while i < perm.len()
        invariant
            i <= perm@.len(),
            all == content_hits(items@),
            forall|i: int| 0 <= i < perm@.len() ==> (#[trigger] perm@[i]) < items@.len(),
            content_hits(out@) == picked(all, perm@).take(i as int),
        decreases perm@.len() - i,
    {
        let ghost was = out@;
        assert(perm@[i as int] < items@.len());
        let m = &items[perm[i]];
        let copy = ContentMatchResult {
            path: m.path.clone(),
            line_number: m.line_number,
            line_content: m.line_content.clone(),
            match_start: m.match_start,
            match_end: m.match_end,
            context_before: copy_context(&m.context_before),
            context_after: copy_context(&m.context_after),
        };
        out.push(copy);
        i += 1;
        assert(content_hits(out@) =~= content_hits(was).push(copy@));
        assert(copy@ == all[perm@[i - 1] as int]);
        assert(picked(all, perm@).take(i as int) =~= picked(all, perm@).take(i - 1).push(copy@));
    }
    assert(picked(all, perm@).take(perm@.len() as int) =~= picked(all, perm@));
    out
}

impl Index {
    /// Whether the path of a document is listed: a check has matches in it within
    /// the bounds on lines, or there is none.
    pub open spec fn lists(
        &self,
        d: u32,
        check: Option<CheckModel>,
        bounds: (Option<u32>, Option<u32>),
    ) -> bool {
        d < self.documents@.len() && match check {
            None => true,
            Some(c) => self.text(d) is Some && kept_lines(
                check_hits(self.text(d)->0, c),
                bounds.0,
                bounds.1,
            ).len() > 0,
        }
    }

    /// The paths of those of the first `n` documents of a list that are listed;
    /// at most `limit`, where zero stands for any number.
    pub open spec fn matching_paths(
        &self,
        ids: Seq<u32>,
        n: nat,
        check: Option<CheckModel>,
        bounds: (Option<u32>, Option<u32>),
        limit: nat,
    ) -> Seq<Seq<char>>
        decreases n,
    {
        if n == 0 {
            Seq::empty()
        } else {
            let before = self.matching_paths(ids, (n - 1) as nat, check, bounds, limit);
            let d = ids[n - 1];
            if self.lists(d, check, bounds) && (limit == 0 || before.len() < limit) {
                before.push(self.documents@[d as int].path@)
            } else {
                before
            }
        }
    }

    /// The paths of the files that match a query, in the order of documents.
    pub open spec fn files(&self, q: QueryModel, limit: nat) -> Seq<Seq<char>> {
        let plan = plan_of(q);
        let ids = ascending_list(self.found(plan));
        self.matching_paths(ids, ids.len(), plan.verification, line_bounds(plan.steps), limit)
    }
}

/// The keys of paths.
pub open spec fn path_keys(v: Seq<Seq<char>>) -> Seq<Seq<u32>> {
    v.map_values(|p: Seq<char>| path_key(p))
}

/// Puts paths in order.
pub fn sort_paths(v: Vec<String>) -> (r: Vec<String>)
    ensures
        arranged(texts(v@), path_keys(texts(v@)), texts(r@)),
{
    let ghost all = texts(v@);
    let mut keys: Vec<Vec<u32>> = Vec::new();
    let mut k: usize = 0;
    while k < v.len()
        invariant
            k <= v@.len(),
            all == texts(v@),
            key_lists(keys@) == path_keys(all).take(k as int),
        decreases v@.len() - k,
    {
        let ghost was = keys@;
        let key = path_key_of(v[k].as_str());
        keys.push(key);
        k += 1;
        assert(key_lists(keys@) =~= key_lists(was).push(key@));
        assert(path_keys(all).take(k as int) =~= path_keys(all).take(k - 1).push(key@));
    }
    assert(path_keys(all).take(all.len() as int) =~= path_keys(all));
    let perm = order_by_keys(keys);
    let mut out: Vec<String> = Vec::new();
    let mut i: usize = 0;
    while i < perm.len()
        invariant
            i <= perm@.len(),
            all == texts(v@),
            forall|i: int| 0 <= i < perm@.len() ==> (#[trigger] perm@[i]) < v@.len(),
            texts(out@) == picked(all, perm@).take(i as int),
        decreases perm@.len() - i,
    {
        let ghost was = out@;
        assert(perm@[i as int] < v@.len());
        let t = v[perm[i]].clone();
        out.push(t);
        i += 1;
        assert(texts(out@) =~= texts(was).push(t@));
        assert(t@ == all[perm@[i - 1] as int]);
        assert(picked(all, perm@).take(i as int) =~= picked(all, perm@).take(i - 1).push(t@));
    }
    assert(picked(all, perm@).take(perm@.len() as int) =~= picked(all, perm@));
    assert(sorts(path_keys(all), perm@));
    out
}

/// Without bounds every line is kept.
proof fn lemma_unbounded(v: Seq<Hit>)
    ensures
        kept_lines(v, None, None) == v,
    decreases v.len(),
{
    if v.len() > 0 {
        lemma_unbounded(v.drop_last());
        assert(v.drop_last().push(v.last()) =~= v);
    }
}

/// Whether a check has matches in a text within bounds on lines.
fn has_match_within(
    content: &str,
    check: &VerificationStep,
    low: Option<u32>,
    high: Option<u32>,
) -> (r: bool)
    requires
        content@.len() < u32::MAX,
    ensures
        r == (kept_lines(check_hits(content@, check.model()), low, high).len() > 0),
{
    if low.is_none() && high.is_none() {
        proof {
            lemma_unbounded(check_hits(content@, check.model()));
        }
        return has_match(content, check);
    }
    let kept = keep_lines(verify_content(content, check), low, high);
    assert(hits_of(kept@).len() == kept@.len());
    kept.len() > 0
}

impl Index {
    /// The paths of the files that match a query. Where texts had to be looked
    /// at they come in the order of paths, else in that of documents.
    pub fn execute_files_only(&self, query: &Query, file_limit: usize) -> (r: Result<
        Vec<String>,
        QueryError,
    >)
        requires
            self.wf(),
        ensures
            match r {
                Ok(v) => query@.defect() is None && {
                    let found = self.files(query@, file_limit as nat);
                    if plan_of(query@).verification is Some {
                        arranged(found, path_keys(found), texts(v@))
                    } else {
                        texts(v@) == found
                    }
                },
                Err(e) => query@.defect() == Some(e@),
            },
            r is Ok && narrowing_is_sure(*self, query@) ==> self.files(query@, file_limit as nat)
                == self.scanned_files(query@, file_limit as nat),
            r is Ok ==> self.finds_what_it_must(query@),
    {
        match query.validate() {
            Ok(_) => {},
            Err(e) => return Err(e),
        }
        let plan = QueryPlan::from_query(query);
        proof {
            lemma_plan_model(plan);
            lemma_finds_what_it_must(*self, query@);
            if narrowing_is_sure(*self, query@) {
                file_search_is_a_scan(*self, query@, file_limit as nat);
            }
        }
        let ids = ids_of(&self.execute_plan(&plan));
        let ghost check = plan.model().verification;
        let (low, high) = extract_line_filter(&plan.steps);
        let mut out: Vec<String> = Vec::new();
        let mut i: usize = 0;
        assert(texts(out@) =~= Seq::<Seq<char>>::empty());
        while i < ids.len()
            invariant
                i <= ids@.len(),
                self.wf(),
                check == check_option(plan.verification),
                texts(out@) == self.matching_paths(
                    ids@,
                    i as nat,
                    check,
                    (low, high),
                    file_limit as nat,
                ),
            decreases ids@.len() - i,
        {
            let d = ids[i];
            let ghost was = out@;
            assert(texts(out@).len() == out@.len());
            i += 1;
            if (d as usize) >= self.documents.len() || (file_limit > 0 && out.len()
                >= file_limit) {
                continue;
            }
            let doc = &self.documents[d as usize];
            let wanted = match &plan.verification {
                None => true,
                Some(c) => match &doc.content {
                    Some(content) => {
                        assert(self.documents@[d as int].content is Some);
                        has_match_within(content.as_str(), c, low, high)
                    },
                    None => false,
                },
            };
            if wanted {
                out.push(doc.path.clone());
                assert(texts(out@) =~= texts(was).push(doc.path@));
            }
        }
        if plan.verification.is_some() {
            Ok(sort_paths(out))
        } else {
            Ok(out)
        }
    }
}

/// How often each path comes in a row, path by path.
pub open spec fn tally(v: Seq<Seq<char>>) -> Seq<(Seq<char>, nat)>
    decreases v.len(),
{
    if v.len() == 0 {
        Seq::empty()
    } else {
        let before = tally(v.drop_last());
        if before.len() > 0 && same_path(before.last().0, v.last()) {
            before.update(before.len() - 1, (before.last().0, before.last().1 + 1))
        } else {
            before.push((v.last(), 1))
        }
    }
}

/// The contents of paths with counts.
pub open spec fn counts_of(v: Seq<(String, usize)>) -> Seq<(Seq<char>, nat)> {
    v.map_values(|p: (String, usize)| (p.0@, p.1 as nat))
}

/// A count is at most the length of the list.
proof fn lemma_tally_bound(v: Seq<Seq<char>>)
    ensures
        forall|i: int| 0 <= i < tally(v).len() ==> (#[trigger] tally(v)[i]).1 <= v.len(),
    decreases v.len(),
{
    if v.len() > 0 {
        lemma_tally_bound(v.drop_last());
        let before = tally(v.drop_last());
        assert forall|i: int| 0 <= i < tally(v).len() implies (#[trigger] tally(v)[i]).1
            <= v.len() by {
            if i < before.len() {
                assert(before[i].1 <= v.len() - 1);
            }
        }
    }
}

/// The paths of matches.
pub open spec fn hit_paths(v: Seq<ContentHit>) -> Seq<Seq<char>> {
    v.map_values(|h: ContentHit| h.path)
}

/// Counts how often each path comes in a row.
pub fn tally_paths(v: &Vec<String>) -> (r: Vec<(String, usize)>)
    ensures
        counts_of(r@) == tally(texts(v@)),
{
    let ghost all = texts(v@);
    let mut out: Vec<(String, usize)> = Vec::new();
    let mut i: usize = 0;
    assert(counts_of(out@) =~= tally(all.take(0)));
    while i < v.len()
        invariant
            i <= v@.len(),
            all == texts(v@),
            counts_of(out@) == tally(all.take(i as int)),
        decreases v@.len() - i,
    {
        let ghost was = out@;
        assert(all.take(i + 1).drop_last() =~= all.take(i as int));
        assert(all.take(i + 1).last() == v@[i as int]@);
        proof {
            lemma_tally_bound(all.take(i as int));
        }
        let n = out.len();
        assert(counts_of(out@).len() == n);
        let again = n > 0 && is_same_path(out[n - 1].0.as_str(), v[i].as_str());
        if again {
            assert(counts_of(was)[n - 1] == (out@[n - 1].0@, out@[n - 1].1 as nat));
            let (path, count) = out.pop().unwrap();
            let entry = (path, count + 1);
            out.push(entry);
            assert(counts_of(out@) =~= counts_of(was).update(
                n - 1,
                (entry.0@, entry.1 as nat),
            ));
        } else {
            if n > 0 {
                assert(counts_of(was).last() == (was[n - 1].0@, was[n - 1].1 as nat));
            }
            let entry = (v[i].clone(), 1usize);
            out.push(entry);
            assert(counts_of(out@) =~= counts_of(was).push((entry.0@, 1nat)));
        }
        i += 1;
    }
    assert(all.take(all.len() as int) =~= all);
    out
}

/// The first `limit` items, where zero stands for all.
pub open spec fn limited<T>(v: Seq<T>, limit: nat) -> Seq<T> {
    if limit == 0 || limit >= v.len() {
        v
    } else {
        v.take(limit as int)
    }
}

impl Index {
    /// The number of matches in each file, of the first `limit` matches, in
    /// order of paths.
    pub fn execute_match_counts(&self, query: &Query, limit: usize) -> (r: Result<
        Vec<(String, usize)>,
        QueryError,
    >)
        requires
            self.wf(),
        ensures
            match r {
                Ok(v) => query@.defect() is None && {
                    let found = self.answers(query@, None);
                    let items = self.all_in_context(found, found.len(), 0, 0);
                    exists|sorted: Seq<ContentHit>| #[trigger]
                        arranged(items, content_keys(items), sorted) && counts_of(v@) == tally(
                            hit_paths(limited(sorted, limit as nat)),
                        )
                },
                Err(e) => query@.defect() == Some(e@),
            },
            r is Ok && narrowing_is_sure(*self, query@) ==> self.answers(query@, None)
                == self.scanned(query@),
            r is Ok ==> self.finds_what_it_must(query@),
    {
        let matches = match self.execute_with_content(query, 0, 0) {
            Ok(v) => v,
            Err(e) => return Err(e),
        };
        let ghost sorted = content_hits(matches@);
        let count = if limit == 0 || limit >= matches.len() {
            matches.len()
        } else {
            limit
        };
        let mut paths: Vec<String> = Vec::new();
        let mut i: usize = 0;
        let ghost wanted = hit_paths(limited(sorted, limit as nat));
        while i < count
            invariant
                i <= count <= matches@.len(),
                sorted == content_hits(matches@),
                wanted == hit_paths(limited(sorted, limit as nat)),
                wanted.len() == count,
                texts(paths@) == wanted.take(i as int),
            decreases count - i,
        {
            let ghost was = paths@;
            paths.push(matches[i].path.clone());
            i += 1;
            assert(sorted[i - 1] == matches@[i - 1]@);
            assert(texts(paths@) =~= texts(was).push(matches@[i - 1].path@));
            assert(wanted.take(i as int) =~= wanted.take(i - 1).push(wanted[i - 1]));
        }
        assert(wanted.take(wanted.len() as int) =~= wanted);
        Ok(tally_paths(&paths))
    }
}

} // verus!
