//! Ranked results: the terms that file names are searched for, and the order
//! of the matches.
use crate::order::{key_lists, order_by_keys};
use crate::paths::{
    components, components_of, file_name, file_name_of, is_absolute, is_same_path, path_key,
    path_key_of, same_path,
};
use crate::query::ast::{texts, Query, QueryError, QueryModel, SortOrder};
use crate::query::bitmap::{docs, empty_set};
use crate::query::content::stands_in;
use crate::query::index::Index;
use crate::query::lines::find_bytes;
use crate::query::plan::{
    branch_checks, checks, lemma_plan_model, step_models, CheckModel, PlanStep, QueryPlan,
    StepModel, VerificationStep,
};
use crate::query::planner::{filter_step, plan_of};
use crate::query::search::{
    arranged, ascending_list, ids_of, limited, line_in, picked, results_of, FileHits, FileResult,
};
use crate::query::wand::ScoreKey;
use crate::text::{
    byte_len, bytes_in, chars_of, lemma_span, lemma_span_is, letter_or_digit, lower_case, span,
    text_between, white_space,
};
use roaring::RoaringBitmap;
use vstd::prelude::*;

verus! {

broadcast use {branch_checks, lemma_span};

/// The words of a text between white space.
pub open spec fn spaced_words(s: Seq<char>) -> Seq<Seq<char>>
    decreases s.len(),
{
    let a = span(s, |c: char| white_space(c)) as int;
    let rest = s.skip(a);
    let b = span(rest, |c: char| !white_space(c)) as int;
    if a >= s.len() || b == 0 {
        Seq::empty()
    } else {
        seq![rest.take(b)] + spaced_words(rest.skip(b))
    }
}

/// The texts of at least two bytes.
pub open spec fn long_enough(v: Seq<Seq<char>>) -> Seq<Seq<char>>
    decreases v.len(),
{
    if v.len() == 0 {
        v
    } else if byte_len(v.last()) >= 2 {
        long_enough(v.drop_last()).push(v.last())
    } else {
        long_enough(v.drop_last())
    }
}

/// The letters, digits and underscores that a pattern starts with.
pub open spec fn literal_start(pattern: Seq<char>) -> Seq<char> {
    pattern.take(span(pattern, |c: char| letter_or_digit(c) || c == '_') as int)
}

/// The terms of a check that file names are searched for. What is excluded
/// gives none.
pub open spec fn terms_of(check: CheckModel) -> Seq<Seq<char>>
    decreases check, 0nat,
{
    match check {
        CheckModel::Literal(text) => long_enough(spaced_words(text)),
        CheckModel::Phrase { text, .. } => long_enough(spaced_words(text)),
        CheckModel::BoostedLiteral { text, .. } => long_enough(spaced_words(text)),
        CheckModel::BoostedPhrase { text, .. } => long_enough(spaced_words(text)),
        CheckModel::Regex(pattern) => long_enough(seq![literal_start(pattern)]),
        CheckModel::Near { terms, .. } => long_enough(terms),
        CheckModel::And(v) => terms_of_all(v, v.len()),
        CheckModel::Or(v) => terms_of_all(v, v.len()),
        CheckModel::Not(_) => Seq::empty(),
    }
}

/// The terms of the first `n` checks.
pub open spec fn terms_of_all(v: Seq<CheckModel>, n: nat) -> Seq<Seq<char>>
    decreases v, n,
{
    if n == 0 || n > v.len() {
        Seq::empty()
    } else {
        terms_of_all(v, (n - 1) as nat) + terms_of(v[n - 1])
    }
}

/// The texts in lower case, each once, where it comes first.
pub open spec fn distinct_lower(v: Seq<Seq<char>>) -> Seq<Seq<char>>
    decreases v.len(),
{
    if v.len() == 0 {
        v
    } else {
        let before = distinct_lower(v.drop_last());
        let low = lower_case(v.last());
        if before.contains(low) {
            before
        } else {
            before.push(low)
        }
    }
}

/// Splits a text at white space.
fn split_spaces(text: &str) -> (r: Vec<String>)
    ensures
        texts(r@) == spaced_words(text@),
{
    let chars = chars_of(text);
    let mut out: Vec<String> = Vec::new();
    let mut start: usize = 0;
    assert(chars@.skip(0) =~= chars@);
    assert(texts(out@) + spaced_words(chars@.skip(0)) =~= spaced_words(chars@));
    loop
        invariant
            start <= chars@.len(),
            chars@ == text@,
            texts(out@) + spaced_words(chars@.skip(start as int)) == spaced_words(chars@),
        decreases chars@.len() - start,
    {
        let ghost here = chars@.skip(start as int);
        let ghost p = |c: char| white_space(c);
        let ghost q = |c: char| !white_space(c);
        let ghost before = out@;
        let mut a: usize = start;
        while a < chars.len() && chars[a].is_whitespace()
            invariant
                start <= a <= chars@.len(),
                forall|j: int| start <= j < a ==> white_space(#[trigger] chars@[j]),
            decreases chars@.len() - a,
        {
            a += 1;
        }
        proof {
            assert forall|i: int| 0 <= i < a - start implies p(#[trigger] here[i]) by {
                assert(white_space(chars@[start + i]));
            }
            lemma_span_is(here, p, a - start);
        }
        if a == chars.len() {
            assert(texts(out@) + spaced_words(here) =~= texts(out@));
            return out;
        }
        let ghost rest = here.skip(a - start);
        assert(rest =~= chars@.skip(a as int));
        let mut b: usize = a;
        while b < chars.len() && !chars[b].is_whitespace()
            invariant
                a <= b <= chars@.len(),
                forall|j: int| a <= j < b ==> !white_space(#[trigger] chars@[j]),
            decreases chars@.len() - b,
        {
            b += 1;
        }
        proof {
            assert forall|i: int| 0 <= i < b - a implies q(#[trigger] rest[i]) by {
                assert(!white_space(chars@[a + i]));
            }
            lemma_span_is(rest, q, b - a);
        }
        let word = text_between(&chars, a, b);
        assert(word@ =~= rest.take(b - a));
        out.push(word);
        assert(texts(out@) =~= texts(before).push(word@));
        assert(rest.skip(b - a) =~= chars@.skip(b as int));
        assert(texts(out@) + spaced_words(chars@.skip(b as int)) =~= texts(before) + (seq![word@]
            + spaced_words(rest.skip(b - a))));
        start = b;
    }
}

/// Appends the texts of at least two bytes.
fn add_long(out: &mut Vec<String>, v: &Vec<String>)
    ensures
        texts(final(out)@) == texts(old(out)@) + long_enough(texts(v@)),
{
    let ghost start = texts(out@);
    let ghost all = texts(v@);
    let mut i: usize = 0;
    assert(start + long_enough(all.take(0)) =~= start);
    while i < v.len()
        invariant
            i <= v@.len(),
            all == texts(v@),
            texts(out@) == start + long_enough(all.take(i as int)),
        decreases v@.len() - i,
    {
        let ghost was = out@;
        assert(all.take(i + 1).drop_last() =~= all.take(i as int));
        assert(all.take(i + 1).last() == v@[i as int]@);
        if bytes_in(v[i].as_str()) >= 2 {
            out.push(v[i].clone());
            assert(texts(out@) =~= texts(was).push(v@[i as int]@));
        }
        i += 1;
        assert(texts(out@) =~= start + long_enough(all.take(i as int)));
    }
    assert(all.take(all.len() as int) =~= all);
}

fn collect_all(steps: &Vec<VerificationStep>, terms: &mut Vec<String>)
    ensures
        texts(final(terms)@) == texts(old(terms)@) + terms_of_all(checks(steps@), steps@.len()),
    decreases steps,
{
    let ghost start = texts(terms@);
    let ghost m = checks(steps@);
    let mut i: usize = 0;
    assert(start + terms_of_all(m, 0) =~= start);
    while i < steps.len()
        invariant
            i <= steps@.len(),
            m == checks(steps@),
            texts(terms@) == start + terms_of_all(m, i as nat),
        decreases steps@.len() - i,
    {
        assert(m[i as int] == steps@[i as int].model());
        collect_terms(&steps[i], terms);
        i += 1;
        assert(texts(terms@) =~= start + terms_of_all(m, i as nat));
    }
}

/// Appends the terms of a check.
pub fn collect_terms(verification: &VerificationStep, terms: &mut Vec<String>)
    ensures
        texts(final(terms)@) == texts(old(terms)@) + terms_of(verification.model()),
    decreases verification,
{
    match verification {
        VerificationStep::Literal(text) => add_long(terms, &split_spaces(text.as_str())),
        VerificationStep::Phrase { text, case_insensitive } => add_long(
            terms,
            &split_spaces(text.as_str()),
        ),
        VerificationStep::BoostedLiteral { text, boost } => add_long(
            terms,
            &split_spaces(text.as_str()),
        ),
        VerificationStep::BoostedPhrase { text, case_insensitive, boost } => add_long(
            terms,
            &split_spaces(text.as_str()),
        ),
        VerificationStep::Regex(pattern) => {
            let chars = chars_of(pattern.as_str());
            let ghost p = |c: char| letter_or_digit(c) || c == '_';
            let end = literal_end(&chars);
            let start = text_between(&chars, 0, end);
            assert(start@ =~= literal_start(pattern@));
            let mut v: Vec<String> = Vec::new();
            v.push(start);
            assert(texts(v@) =~= seq![start@]);
            add_long(terms, &v);
        },
        VerificationStep::Near { terms: near, distance } => add_long(terms, near),
        VerificationStep::And(steps) => collect_all(steps, terms),
        VerificationStep::Or(steps) => collect_all(steps, terms),
        VerificationStep::Not(inner) => {
            assert(texts(terms@) + Seq::<Seq<char>>::empty() =~= texts(terms@));
        },
    }
}

/// Where the letters, digits and underscores at the start end.
fn literal_end(chars: &Vec<char>) -> (end: usize)
    ensures
        end <= chars@.len(),
        end == span(chars@, |c: char| letter_or_digit(c) || c == '_'),
{
    let ghost p = |c: char| letter_or_digit(c) || c == '_';
    let mut end: usize = 0;
    while end < chars.len() && (chars[end].is_alphanumeric() || chars[end] == '_')
        invariant
            end <= chars@.len(),
            p == (|c: char| letter_or_digit(c) || c == '_'),
            forall|j: int| 0 <= j < end ==> p(#[trigger] chars@[j]),
        decreases chars@.len() - end,
    {
        end += 1;
    }
    proof {
        lemma_span_is(chars@, p, end as int);
    }
    end
}

/// Whether a list holds a text.
fn has_text(v: &Vec<String>, t: &String) -> (r: bool)
    ensures
        r == texts(v@).contains(t@),
{
    let mut i: usize = 0;
    while i < v.len()
        invariant
            i <= v@.len(),
            forall|j: int| 0 <= j < i ==> (#[trigger] texts(v@)[j]) != t@,
        decreases v@.len() - i,
    {
        assert(texts(v@)[i as int] == v@[i as int]@);
        if v[i] == *t {
            return true;
        }
        i += 1;
    }
    false
}

/// The terms of a check that file names are searched for, in lower case and
/// each once.
pub fn extract_search_terms(verification: &VerificationStep) -> (r: Vec<String>)
    ensures
        texts(r@) == distinct_lower(terms_of(verification.model())),
{
    let mut terms: Vec<String> = Vec::new();
    collect_terms(verification, &mut terms);
    let ghost all = texts(terms@);
    assert(all =~= terms_of(verification.model()));
    let mut out: Vec<String> = Vec::new();
    let mut i: usize = 0;
    assert(texts(out@) =~= distinct_lower(all.take(0)));
    while i < terms.len()
        invariant
            i <= terms@.len(),
            all == texts(terms@),
            texts(out@) == distinct_lower(all.take(i as int)),
        decreases terms@.len() - i,
    {
        let ghost was = out@;
        assert(all.take(i + 1).drop_last() =~= all.take(i as int));
        assert(all.take(i + 1).last() == terms@[i as int]@);
        let low = terms[i].as_str().to_lowercase();
        if !has_text(&out, &low) {
            out.push(low);
            assert(texts(out@) =~= texts(was).push(low@));
        }
        i += 1;
    }
    assert(all.take(all.len() as int) =~= all);
    out
}

/// Whether the name of a file holds one of the terms, which are in lower case.
pub open spec fn name_holds_term(path: Seq<char>, terms: Seq<Seq<char>>) -> bool {
    file_name(path) is Some && exists|k: int|
        0 <= k < terms.len() && stands_in(
            lower_case(file_name(path)->0),
            #[trigger] terms[k],
        )
}

/// Whether the name of a file holds one of the terms, which are in lower case.
pub fn filename_matches_terms(path: &str, terms_lower: &Vec<String>) -> (r: bool)
    ensures
        r == name_holds_term(path@, texts(terms_lower@)),
{
    let name = match file_name_of(path) {
        Some(n) => n,
        None => return false,
    };
    let low = name.as_str().to_lowercase();
    let mut i: usize = 0;
    while i < terms_lower.len()
        invariant
            i <= terms_lower@.len(),
            low@ == lower_case(file_name(path@)->0),
            file_name(path@) is Some,
            forall|k: int|
                0 <= k < i ==> !stands_in(low@, #[trigger] texts(terms_lower@)[k]),
        decreases terms_lower@.len() - i,
    {
        assert(texts(terms_lower@)[i as int] == terms_lower@[i as int]@);
        if find_bytes(low.as_str().as_bytes(), terms_lower[i].as_str().as_bytes()).is_some() {
            assert(stands_in(low@, texts(terms_lower@)[i as int]));
            return true;
        }
        i += 1;
    }
    false
}

/// Whether the name of a file holds a term, whatever the case of letters.
pub fn term_in_filename(path: &str, term: &str) -> (r: bool)
    ensures
        r == (file_name(path@) is Some && stands_in(
            lower_case(file_name(path@)->0),
            lower_case(term@),
        )),
{
    match file_name_of(path) {
        Some(name) => {
            let low = name.as_str().to_lowercase();
            find_bytes(low.as_str().as_bytes(), term.to_lowercase().as_str().as_bytes()).is_some()
        },
        None => false,
    }
}

/// Number of components of a path, the root included.
pub fn path_depth(path: &str) -> (r: usize)
    ensures
        r == components(path@).len() + (if is_absolute(path@) {
            1int
        } else {
            0
        }),
{
    let v = components_of(path);
    assert(texts(v@).len() == v@.len());
    let root = path.unicode_len() > 0 && path.get_char(0) == '/';
    proof {
        lemma_component_count(path@, true);
    }
    let n = path.unicode_len();
    if root {
        v.len() + 1
    } else {
        v.len()
    }
}

/// A path has fewer components than characters where it starts with a slash,
/// and never more.
proof fn lemma_component_count(s: Seq<char>, first: bool)
    ensures
        crate::paths::components_from(s, first).len() <= s.len(),
        is_absolute(s) ==> crate::paths::components_from(s, first).len() < s.len(),
    decreases s.len(),
{
    let p = |c: char| c != '/';
    let n = span(s, p) as int;
    if n < s.len() {
        lemma_component_count(s.skip(n + 1), false);
        if is_absolute(s) {
            assert(n == 0);
        }
    }
}

/// A document whose name holds a term.
#[derive(Debug)]
pub struct NameMatch {
    pub doc_id: u32,
    pub path: String,
}

/// The contents of a list of such documents.
pub open spec fn name_matches(v: Seq<NameMatch>) -> Seq<(u32, Seq<char>)> {
    v.map_values(|m: NameMatch| (m.doc_id, m.path@))
}

impl Index {
    /// Those of the first `n` documents of a list whose names hold a term; at
    /// most `limit`, where zero stands for any number.
    pub open spec fn named(&self, ids: Seq<u32>, n: nat, terms: Seq<Seq<char>>, limit: nat) -> Seq<
        (u32, Seq<char>),
    >
        decreases n,
    {
        if n == 0 {
            Seq::empty()
        } else {
            let before = self.named(ids, (n - 1) as nat, terms, limit);
            let d = ids[n - 1];
            if (limit == 0 || before.len() < limit) && d < self.documents@.len() && name_holds_term(
                self.documents@[d as int].path@,
                terms,
            ) {
                before.push((d, self.documents@[d as int].path@))
            } else {
                before
            }
        }
    }

    /// The first `limit` documents of a list whose names hold a term; all of them
    /// where the limit is zero.
    pub fn find_filename_matches(
        &self,
        ids: &Vec<u32>,
        terms_lower: &Vec<String>,
        limit: usize,
    ) -> (r: Vec<NameMatch>)
        requires
            self.wf(),
        ensures
            name_matches(r@) == self.named(
                ids@,
                ids@.len(),
                texts(terms_lower@),
                limit as nat,
            ),
    {
        let ghost terms = texts(terms_lower@);
        let mut out: Vec<NameMatch> = Vec::new();
        let mut i: usize = 0;
        assert(name_matches(out@) =~= Seq::<(u32, Seq<char>)>::empty());
        while i < ids.len()
            invariant
                i <= ids@.len(),
                self.wf(),
                terms == texts(terms_lower@),
                name_matches(out@) == self.named(ids@, i as nat, terms, limit as nat),
            decreases ids@.len() - i,
        {
            let ghost was = out@;
            assert(name_matches(out@).len() == out@.len());
            let d = ids[i];
            if (limit == 0 || out.len() < limit) && (d as usize) < self.documents.len()
                && filename_matches_terms(self.documents[d as usize].path.as_str(), terms_lower) {
                let m = NameMatch { doc_id: d, path: self.documents[d as usize].path.clone() };
                out.push(m);
                assert(name_matches(out@) =~= name_matches(was).push((m.doc_id, m.path@)));
            }
            i += 1;
        }
        out
    }
}

/// A ranked match.
#[derive(Debug)]
pub struct SearchMatch {
    pub doc_id: u32,
    pub path: String,
    pub line_number: u32,
    pub score: ScoreKey,
}

/// The mathematical content of a [`SearchMatch`].
pub struct RankedHit {
    pub doc: u32,
    pub path: Seq<char>,
    pub line: u32,
    pub score: ScoreKey,
}

impl View for SearchMatch {
    type V = RankedHit;

    open spec fn view(&self) -> RankedHit {
        RankedHit {
            doc: self.doc_id,
            path: self.path@,
            line: self.line_number,
            score: self.score,
        }
    }
}

/// The contents of a list of ranked matches.
pub open spec fn ranked_hits(v: Seq<SearchMatch>) -> Seq<RankedHit> {
    v.map_values(|m: SearchMatch| m@)
}

/// One ranked match for each of the first `n` matches of a document.
pub open spec fn scored_hits(r: FileHits, n: nat, score: ScoreKey) -> Seq<RankedHit>
    decreases n,
{
    if n == 0 {
        Seq::empty()
    } else {
        scored_hits(r, (n - 1) as nat, score).push(
            RankedHit { doc: r.doc, path: r.path, line: r.hits[n - 1].0, score },
        )
    }
}

/// The ranked matches of the first `n` documents. A document without matches
/// stands for itself, on its first line.
pub open spec fn scored_results(v: Seq<FileHits>, scores: Seq<ScoreKey>, n: nat) -> Seq<RankedHit>
    decreases n,
{
    if n == 0 {
        Seq::empty()
    } else {
        let before = scored_results(v, scores, (n - 1) as nat);
        let r = v[n - 1];
        if r.hits.len() == 0 {
            before.push(RankedHit { doc: r.doc, path: r.path, line: 1, score: scores[n - 1] })
        } else {
            before + scored_hits(r, r.hits.len(), scores[n - 1])
        }
    }
}

/// Whether a path is among those of ranked matches.
pub open spec fn path_among(v: Seq<RankedHit>, path: Seq<char>) -> bool {
    exists|i: int| 0 <= i < v.len() && same_path((#[trigger] v[i]).path, path)
}

/// The first `n` documents found by name that are not among the matches.
pub open spec fn new_names(
    v: Seq<RankedHit>,
    names: Seq<(u32, Seq<char>)>,
    n: nat,
    score: ScoreKey,
) -> Seq<RankedHit>
    decreases n,
{
    if n == 0 {
        Seq::empty()
    } else {
        let before = new_names(v, names, (n - 1) as nat, score);
        if path_among(v, names[n - 1].1) {
            before
        } else {
            before.push(RankedHit { doc: names[n - 1].0, path: names[n - 1].1, line: 1, score })
        }
    }
}

/// Matches in the documents' texts and documents found by name.
pub open spec fn merged(
    v: Seq<FileHits>,
    scores: Seq<ScoreKey>,
    names: Seq<(u32, Seq<char>)>,
    name_score: ScoreKey,
) -> Seq<RankedHit> {
    let found = scored_results(v, scores, v.len());
    found + new_names(found, names, names.len(), name_score)
}

impl Index {
    /// The time of modification of a document, zero where there is none.
    pub open spec fn modified(&self, d: u32) -> u64 {
        if d < self.documents@.len() {
            self.documents@[d as int].mtime
        } else {
            0
        }
    }

    /// The key of a ranked match in an order: the highest score, the latest
    /// modification or the first path comes first.
    pub open spec fn rank_key(&self, h: RankedHit, order: SortOrder) -> Seq<u32> {
        match order {
            SortOrder::Score => seq![(u32::MAX - h.score) as u32],
            SortOrder::Recency => {
                let age = (u64::MAX - self.modified(h.doc)) as u64;
                seq![(age / 0x1_0000_0000) as u32, (age % 0x1_0000_0000) as u32]
            },
            SortOrder::Path => path_key(h.path),
        }
    }

    /// The keys of ranked matches in an order.
    pub open spec fn rank_keys(&self, v: Seq<RankedHit>, order: SortOrder) -> Seq<Seq<u32>> {
        v.map_values(|h: RankedHit| self.rank_key(h, order))
    }
}

/// Appends the ranked matches of a document.
fn add_scored(out: &mut Vec<SearchMatch>, r: &FileResult, score: ScoreKey)
    ensures
        ranked_hits(final(out)@) == ranked_hits(old(out)@) + (if r@.hits.len() == 0 {
            seq![RankedHit { doc: r@.doc, path: r@.path, line: 1, score }]
        } else {
            scored_hits(r@, r@.hits.len(), score)
        }),
{
    let ghost start = ranked_hits(out@);
    assert(r@.hits.len() == r.matches@.len());
    if r.matches.len() == 0 {
        let m = SearchMatch { doc_id: r.doc_id, path: r.path.clone(), line_number: 1, score };
        out.push(m);
        assert(ranked_hits(out@) =~= start + seq![m@]);
        return;
    }
    let mut i: usize = 0;
    assert(start + scored_hits(r@, 0, score) =~= start);
    while i < r.matches.len()
        invariant
            i <= r.matches@.len(),
            r@.hits.len() == r.matches@.len(),
            ranked_hits(out@) == start + scored_hits(r@, i as nat, score),
        decreases r.matches@.len() - i,
    {
        let ghost was = out@;
        let m = SearchMatch {
            doc_id: r.doc_id,
            path: r.path.clone(),
            line_number: r.matches[i].0,
            score,
        };
        out.push(m);
        i += 1;
        assert(r@.hits[i - 1].0 == r.matches@[i - 1].0);
        assert(ranked_hits(out@) =~= ranked_hits(was).push(m@));
        assert(ranked_hits(out@) =~= start + scored_hits(r@, i as nat, score));
    }
}

/// Whether a path is among those of the first `n` matches.
fn is_among(v: &Vec<SearchMatch>, n: usize, path: &str) -> (r: bool)
    requires
        n <= v@.len(),
    ensures
        r == path_among(ranked_hits(v@).take(n as int), path@),
{
    let ghost m = ranked_hits(v@).take(n as int);
    let mut i: usize = 0;
    while i < n
        invariant
            i <= n <= v@.len(),
            m == ranked_hits(v@).take(n as int),
            forall|j: int| 0 <= j < i ==> !same_path((#[trigger] m[j]).path, path@),
        decreases n - i,
    {
        assert(m[i as int] == v@[i as int]@);
        if is_same_path(v[i].path.as_str(), path) {
            assert(same_path(m[i as int].path, path@));
            return true;
        }
        i += 1;
    }
    false
}

impl Index {
    /// Puts matches and documents found by name in order and keeps the first
    /// `limit`, where zero stands for all. `scores` are those of the documents
    /// with matches.
    pub fn rank(
        &self,
        results: &Vec<FileResult>,
        scores: &Vec<ScoreKey>,
        names: &Vec<NameMatch>,
        name_score: ScoreKey,
        order: SortOrder,
        limit: usize,
    ) -> (r: Vec<SearchMatch>)
        requires
            scores@.len() == results@.len(),
        ensures
            ({
                let items = merged(
                    results_of(results@),
                    scores@,
                    name_matches(names@),
                    name_score,
                );
                exists|sorted: Seq<RankedHit>| #[trigger]
                    arranged(items, self.rank_keys(items, order), sorted) && ranked_hits(r@)
                        == limited(sorted, limit as nat)
            }),
    {
        let ghost v = results_of(results@);
        let mut all: Vec<SearchMatch> = Vec::new();
        let mut i: usize = 0;
        assert(ranked_hits(all@) =~= Seq::<RankedHit>::empty());
        while i < results.len()
            invariant
                i <= results@.len() == scores@.len(),
                v == results_of(results@),
                ranked_hits(all@) == scored_results(v, scores@, i as nat),
            decreases results@.len() - i,
        {
            assert(v[i as int] == results@[i as int]@);
            add_scored(&mut all, &results[i], scores[i]);
            i += 1;
            assert(ranked_hits(all@) =~= scored_results(v, scores@, i as nat));
        }
        let found = all.len();
        let ghost found_hits = ranked_hits(all@);
        let ghost listed = name_matches(names@);
        let mut k: usize = 0;
        assert(found_hits + new_names(found_hits, listed, 0, name_score) =~= found_hits);
        while k < names.len()
            invariant
                k <= names@.len(),
                listed == name_matches(names@),
                found == found_hits.len(),
                found <= all@.len(),
                ranked_hits(all@) == found_hits + new_names(
                    found_hits,
                    listed,
                    k as nat,
                    name_score,
                ),
            decreases names@.len() - k,
        {
            let ghost was = all@;
            assert(ranked_hits(all@).take(found as int) =~= found_hits);
            assert(listed[k as int] == (names@[k as int].doc_id, names@[k as int].path@));
            if !is_among(&all, found, names[k].path.as_str()) {
                let m = SearchMatch {
                    doc_id: names[k].doc_id,
                    path: names[k].path.clone(),
                    line_number: 1,
                    score: name_score,
                };
                all.push(m);
                assert(ranked_hits(all@) =~= ranked_hits(was).push(m@));
            }
            k += 1;
            assert(ranked_hits(all@) =~= found_hits + new_names(
                found_hits,
                listed,
                k as nat,
                name_score,
            ));
        }
        let ghost items = ranked_hits(all@);
        assert(listed.len() == names@.len() && v.len() == results@.len());
        assert(items == merged(v, scores@, listed, name_score));
        let mut keys: Vec<Vec<u32>> = Vec::new();
        let mut n: usize = 0;
        while n < all.len()
            invariant
                n <= all@.len(),
                items == ranked_hits(all@),
                key_lists(keys@) == self.rank_keys(items, order).take(n as int),
            decreases all@.len() - n,
        {
            let ghost was = keys@;
            let key: Vec<u32> = match order {
                SortOrder::Score => {
                    let mut key: Vec<u32> = Vec::new();
                    key.push(u32::MAX - all[n].score);
                    key
                },
                SortOrder::Recency => {
                    let d = all[n].doc_id as usize;
                    let mtime = if d < self.documents.len() {
                        self.documents[d].mtime
                    } else {
                        0
                    };
                    let age: u64 = u64::MAX - mtime;
                    let mut key: Vec<u32> = Vec::new();
                    key.push((age / 0x1_0000_0000) as u32);
                    key.push((age % 0x1_0000_0000) as u32);
                    key
                },
                SortOrder::Path => path_key_of(all[n].path.as_str()),
            };
            assert(items[n as int] == all@[n as int]@);
            assert(key@ =~= self.rank_key(items[n as int], order));
            keys.push(key);
            n += 1;
            assert(key_lists(keys@) =~= key_lists(was).push(key@));
            assert(self.rank_keys(items, order).take(n as int) =~= self.rank_keys(
                items,
                order,
            ).take(n - 1).push(key@));
        }
        assert(self.rank_keys(items, order).take(items.len() as int) =~= self.rank_keys(
            items,
            order,
        ));
        let perm = order_by_keys(keys);
        let count = if limit == 0 || limit >= perm.len() {
            perm.len()
        } else {
            limit
        };
        let ghost sorted = picked(items, perm@);
        let mut out: Vec<SearchMatch> = Vec::new();
        let mut j: usize = 0;
        while j < count
            invariant
                j <= count <= perm@.len(),
                items == ranked_hits(all@),
                sorted == picked(items, perm@),
                forall|i: int| 0 <= i < perm@.len() ==> (#[trigger] perm@[i]) < all@.len(),
                ranked_hits(out@) == sorted.take(j as int),
            decreases count - j,
        {
            let ghost was = out@;
            assert(perm@[j as int] < all@.len());
            let m = &all[perm[j]];
            let copy = SearchMatch {
                doc_id: m.doc_id,
                path: m.path.clone(),
                line_number: m.line_number,
                score: m.score,
            };
            out.push(copy);
            j += 1;
            assert(copy@ == items[perm@[j - 1] as int]);
            assert(ranked_hits(out@) =~= ranked_hits(was).push(copy@));
            assert(sorted.take(j as int) =~= sorted.take(j - 1).push(copy@));
        }
        assert(sorted.take(sorted.len() as int) =~= sorted);
        assert(sorted.len() == perm@.len());
        assert(ranked_hits(out@) == limited(sorted, limit as nat));
        assert(arranged(items, self.rank_keys(items, order), sorted));
        out
    }
}

/// Number of matches that a ranked search collects: one and a half times the
/// limit, so that the best of them can be picked.
pub open spec fn ranked_target(limit: usize) -> Option<nat> {
    if limit == 0 {
        None
    } else if limit + limit / 2 > usize::MAX {
        Some(usize::MAX as nat)
    } else {
        Some((limit + limit / 2) as nat)
    }
}

/// What a ranked search finds, before it is scored.
#[derive(Debug)]
pub struct Unranked {
    pub results: Vec<FileResult>,
    pub terms: Vec<String>,
    pub names: Vec<NameMatch>,
}

/// The terms of an optional check.
pub open spec fn query_terms(check: Option<CheckModel>) -> Seq<Seq<char>> {
    match check {
        Some(c) => distinct_lower(terms_of(c)),
        None => Seq::empty(),
    }
}

impl Index {
    /// The documents that a query may find by their names: those that it is
    /// about, less those that it excludes. A name counts for the first line, so
    /// there are none where the query asks for other lines.
    pub open spec fn nameable(&self, q: QueryModel) -> Set<u32> {
        let steps = plan_of(q).steps;
        if line_in(1, q.filters.line_start, q.filters.line_end) {
            self.excluded(steps, steps.len(), self.eligible(q))
        } else {
            Set::empty()
        }
    }

    /// Whether this is what a ranked search finds: the documents with matches of
    /// a query, its terms, and the documents whose names hold one of these.
    pub open spec fn finds(&self, q: QueryModel, u: Unranked) -> bool {
        let limit = q.options.limit;
        let terms = query_terms(plan_of(q).verification);
        let ids = ascending_list(self.nameable(q));
        &&& results_of(u.results@) == self.answers(q, ranked_target(limit))
        &&& texts(u.terms@) == terms
        &&& name_matches(u.names@) == if terms.len() == 0 {
            Seq::empty()
        } else {
            self.named(ids, ids.len(), terms, limit as nat)
        }
    }

    /// The documents that a query may find by their names.
    fn nameable_docs(&self, query: &Query, plan: &QueryPlan) -> (r: RoaringBitmap)
        requires
            self.wf(),
            plan.model() == plan_of(query@),
        ensures
            docs(r) == self.nameable(query@),
    {
        let low = query.filters.line_start;
        let high = query.filters.line_end;
        if !(low.is_none() || low.unwrap() <= 1) || !(high.is_none() || high.unwrap() >= 1) {
            return empty_set();
        }
        proof {
            lemma_plan_model(*plan);
        }
        let n = plan.steps.len();
        let mut set = self.valid_doc_ids();
        if query.filters.has_any() {
            assert(plan_of(query@).steps.last() == StepModel::Filter(filter_step(query@.filters)));
            assert(step_models(plan.steps@).len() == n);
            assert(step_models(plan.steps@)[n - 1] == plan.steps@[n - 1].model());
            match &plan.steps[n - 1] {
                PlanStep::Filter(f) => {
                    set = self.apply_filter(f, None);
                },
                _ => {},
            }
        }
        self.leave_out_excluded(plan, set)
    }

    /// The documents with matches of a query, and those whose names hold one of
    /// its terms.
    pub fn execute(&self, query: &Query) -> (r: Result<Unranked, QueryError>)
        requires
            self.wf(),
        ensures
            match r {
                Ok(u) => query@.defect() is None && self.finds(query@, u),
                Err(e) => query@.defect() == Some(e@),
            },
    {
        match query.validate() {
            Ok(_) => {},
            Err(e) => return Err(e),
        }
        let limit = query.options.limit;
        let target = if limit == 0 {
            None
        } else {
            Some(limit.saturating_add(limit / 2))
        };
        let results = self.answer(query, target);
        let plan = QueryPlan::from_query(query);
        proof {
            lemma_plan_model(plan);
        }
        let terms = match &plan.verification {
            Some(c) => extract_search_terms(c),
            None => {
                let none: Vec<String> = Vec::new();
                assert(texts(none@) =~= Seq::<Seq<char>>::empty());
                none
            },
        };
        assert(texts(terms@).len() == terms@.len());
        let names = if terms.len() == 0 {
            let none: Vec<NameMatch> = Vec::new();
            assert(name_matches(none@) =~= Seq::<(u32, Seq<char>)>::empty());
            none
        } else {
            let ids = ids_of(&self.nameable_docs(query, &plan));
            self.find_filename_matches(&ids, &terms, limit)
        };
        Ok(Unranked { results, terms, names })
    }
}

} // verus!
