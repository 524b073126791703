//! Query plans: steps that narrow the documents to be looked at, and the check
//! of the documents that are left.
use crate::query::ast::{text_option, texts, Boost};
use vstd::prelude::*;

verus! {

/// Three consecutive bytes, the first in the highest place.
pub type Trigram = u32;

/// A plan.
#[derive(Debug)]
pub struct QueryPlan {
    pub steps: Vec<PlanStep>,
    pub verification: Option<VerificationStep>,
}

/// One step of a plan.
#[derive(Debug)]
pub enum PlanStep {
    /// Documents that hold every one of the trigrams.
    TrigramIntersect(Vec<Trigram>),
    /// Documents that hold a token.
    TokenLookup(String),
    /// Documents that one of several plans finds.
    Union(Vec<QueryPlan>),
    /// Documents that hold a token, together with those that hold the trigrams;
    /// without a usable trigram, together with those that hold a token around
    /// it or all of the parts it is indexed as.
    TokenOrTrigram { token: String, sub_tokens: Vec<String>, trigrams: Vec<Trigram> },
    /// Documents that all of several plans find.
    Intersect(Vec<QueryPlan>),
    /// Leaves out documents that a plan finds.
    Exclude(Box<QueryPlan>),
    /// Documents that pass a filter.
    Filter(FilterStep),
    /// Documents in which the tokens stand at the given places in a row.
    PositionalPhrase(Vec<(String, u32)>),
}

/// A filter on documents and lines.
#[derive(Debug)]
pub struct FilterStep {
    pub path_glob: Option<String>,
    pub filename: Option<String>,
    pub extension: Option<String>,
    pub language: Option<String>,
    pub size_min: Option<u64>,
    pub size_max: Option<u64>,
    pub mtime_min: Option<u64>,
    pub mtime_max: Option<u64>,
    pub line_start: Option<u32>,
    pub line_end: Option<u32>,
    /// Root-relative file or subtree.
    pub scope: Option<String>,
}

/// The check of a document's text.
#[derive(Debug)]
pub enum VerificationStep {
    /// Literal substring.
    Literal(String),
    /// Literal substring with a ranking boost.
    BoostedLiteral { text: String, boost: Boost },
    /// Exact phrase.
    Phrase { text: String, case_insensitive: bool },
    /// Exact phrase with a ranking boost.
    BoostedPhrase { text: String, case_insensitive: bool, boost: Boost },
    /// Regular expression.
    Regex(String),
    /// Terms within `distance` lines of each other.
    Near { terms: Vec<String>, distance: u32 },
    And(Vec<VerificationStep>),
    Or(Vec<VerificationStep>),
    Not(Box<VerificationStep>),
}

/// The mathematical content of a [`VerificationStep`].
pub enum CheckModel {
    Literal(Seq<char>),
    BoostedLiteral { text: Seq<char>, boost: Seq<char> },
    Phrase { text: Seq<char>, case_insensitive: bool },
    BoostedPhrase { text: Seq<char>, case_insensitive: bool, boost: Seq<char> },
    Regex(Seq<char>),
    Near { terms: Seq<Seq<char>>, distance: u32 },
    And(Seq<CheckModel>),
    Or(Seq<CheckModel>),
    Not(Box<CheckModel>),
}

/// The mathematical content of a [`FilterStep`].
pub struct FilterStepModel {
    pub path_glob: Option<Seq<char>>,
    pub filename: Option<Seq<char>>,
    pub extension: Option<Seq<char>>,
    pub language: Option<Seq<char>>,
    pub size_min: Option<u64>,
    pub size_max: Option<u64>,
    pub mtime_min: Option<u64>,
    pub mtime_max: Option<u64>,
    pub line_start: Option<u32>,
    pub line_end: Option<u32>,
    pub scope: Option<Seq<char>>,
}

/// The mathematical content of a [`QueryPlan`].
pub struct PlanModel {
    pub steps: Seq<StepModel>,
    pub verification: Option<CheckModel>,
}

/// The mathematical content of a [`PlanStep`].
pub enum StepModel {
    TrigramIntersect(Seq<Trigram>),
    TokenLookup(Seq<char>),
    Union(Seq<PlanModel>),
    TokenOrTrigram { token: Seq<char>, sub_tokens: Seq<Seq<char>>, trigrams: Seq<Trigram> },
    Intersect(Seq<PlanModel>),
    Exclude(Box<PlanModel>),
    Filter(FilterStepModel),
    PositionalPhrase(Seq<(Seq<char>, u32)>),
}

impl View for FilterStep {
    type V = FilterStepModel;

    open spec fn view(&self) -> FilterStepModel {
        FilterStepModel {
            path_glob: text_option(self.path_glob),
            filename: text_option(self.filename),
            extension: text_option(self.extension),
            language: text_option(self.language),
            size_min: self.size_min,
            size_max: self.size_max,
            mtime_min: self.mtime_min,
            mtime_max: self.mtime_max,
            line_start: self.line_start,
            line_end: self.line_end,
            scope: text_option(self.scope),
        }
    }
}

impl VerificationStep {
    /// The content of the check.
    pub open spec fn model(&self) -> CheckModel
        decreases self,
    {
        match self {
            VerificationStep::Literal(s) => CheckModel::Literal(s@),
            VerificationStep::BoostedLiteral { text, boost } => CheckModel::BoostedLiteral {
                text: text@,
                boost: boost.text@,
            },
            VerificationStep::Phrase { text, case_insensitive } => CheckModel::Phrase {
                text: text@,
                case_insensitive: *case_insensitive,
            },
            VerificationStep::BoostedPhrase {
                text,
                case_insensitive,
                boost,
            } => CheckModel::BoostedPhrase {
                text: text@,
                case_insensitive: *case_insensitive,
                boost: boost.text@,
            },
            VerificationStep::Regex(s) => CheckModel::Regex(s@),
            VerificationStep::Near { terms, distance } => CheckModel::Near {
                terms: texts(terms@),
                distance: *distance,
            },
            VerificationStep::And(v) => CheckModel::And(
                Seq::new(
                    v@.len(),
                    |i: int|
                        if 0 <= i < v@.len() {
                            v@[i].model()
                        } else {
                            CheckModel::Literal(Seq::empty())
                        },
                ),
            ),
            VerificationStep::Or(v) => CheckModel::Or(
                Seq::new(
                    v@.len(),
                    |i: int|
                        if 0 <= i < v@.len() {
                            v@[i].model()
                        } else {
                            CheckModel::Literal(Seq::empty())
                        },
                ),
            ),
            VerificationStep::Not(n) => CheckModel::Not(Box::new(n.model())),
        }
    }
}

/// The contents of a list of checks.
pub open spec fn checks(v: Seq<VerificationStep>) -> Seq<CheckModel> {
    v.map_values(|n: VerificationStep| n.model())
}

/// The content of an optional check.
pub open spec fn check_option(v: Option<VerificationStep>) -> Option<CheckModel> {
    match v {
        Some(c) => Some(c.model()),
        None => None,
    }
}

/// The content of a conjunction is made of its branches' contents.
pub broadcast proof fn lemma_and_check(v: Vec<VerificationStep>)
    ensures
        (#[trigger] VerificationStep::And(v).model()) == CheckModel::And(checks(v@)),
{
    assert(VerificationStep::And(v).model()->And_0 =~= checks(v@));
}

/// The content of a disjunction is made of its branches' contents.
pub broadcast proof fn lemma_or_check(v: Vec<VerificationStep>)
    ensures
        (#[trigger] VerificationStep::Or(v).model()) == CheckModel::Or(checks(v@)),
{
    assert(VerificationStep::Or(v).model()->Or_0 =~= checks(v@));
}

/// What a conjunction and a disjunction contain.
pub broadcast group branch_checks {
    lemma_and_check,
    lemma_or_check,
}

/// The contents of a list of tokens with places.
pub open spec fn placed(v: Seq<(String, u32)>) -> Seq<(Seq<char>, u32)> {
    v.map_values(|p: (String, u32)| (p.0@, p.1))
}

impl PlanStep {
    /// The content of the step.
    pub open spec fn model(&self) -> StepModel
        decreases self,
    {
        match self {
            PlanStep::TrigramIntersect(v) => StepModel::TrigramIntersect(v@),
            PlanStep::TokenLookup(t) => StepModel::TokenLookup(t@),
            PlanStep::Union(v) => StepModel::Union(
                Seq::new(
                    v@.len(),
                    |i: int|
                        if 0 <= i < v@.len() {
                            v@[i].model()
                        } else {
                            empty_plan()
                        },
                ),
            ),
            PlanStep::TokenOrTrigram { token, sub_tokens, trigrams } => StepModel::TokenOrTrigram {
                token: token@,
                sub_tokens: texts(sub_tokens@),
                trigrams: trigrams@,
            },
            PlanStep::Intersect(v) => StepModel::Intersect(
                Seq::new(
                    v@.len(),
                    |i: int|
                        if 0 <= i < v@.len() {
                            v@[i].model()
                        } else {
                            empty_plan()
                        },
                ),
            ),
            PlanStep::Exclude(p) => StepModel::Exclude(Box::new(p.model())),
            PlanStep::Filter(f) => StepModel::Filter(f@),
            PlanStep::PositionalPhrase(v) => StepModel::PositionalPhrase(placed(v@)),
        }
    }
}

/// The plan without steps: every document.
pub open spec fn empty_plan() -> PlanModel {
    PlanModel { steps: Seq::empty(), verification: None }
}

impl QueryPlan {
    /// The content of the plan.
    pub open spec fn model(&self) -> PlanModel
        decreases self,
    {
        PlanModel {
            steps: Seq::new(
                self.steps@.len(),
                |i: int|
                    if 0 <= i < self.steps@.len() {
                        self.steps@[i].model()
                    } else {
                        StepModel::TrigramIntersect(Seq::empty())
                    },
            ),
            verification: check_option(self.verification),
        }
    }
}

/// The contents of a list of steps.
pub open spec fn step_models(v: Seq<PlanStep>) -> Seq<StepModel> {
    v.map_values(|s: PlanStep| s.model())
}

/// The contents of a list of plans.
pub open spec fn plan_models(v: Seq<QueryPlan>) -> Seq<PlanModel> {
    v.map_values(|p: QueryPlan| p.model())
}

/// The content of a plan is made of its steps' contents.
pub broadcast proof fn lemma_plan_model(p: QueryPlan)
    ensures
        (#[trigger] p.model()) == (PlanModel {
            steps: step_models(p.steps@),
            verification: check_option(p.verification),
        }),
{
    assert(p.model().steps =~= step_models(p.steps@));
}

/// The content of a union is made of its plans' contents.
pub broadcast proof fn lemma_union_model(v: Vec<QueryPlan>)
    ensures
        (#[trigger] PlanStep::Union(v).model()) == StepModel::Union(plan_models(v@)),
{
    assert(PlanStep::Union(v).model()->Union_0 =~= plan_models(v@));
}

/// The content of an intersection is made of its plans' contents.
pub broadcast proof fn lemma_intersect_model(v: Vec<QueryPlan>)
    ensures
        (#[trigger] PlanStep::Intersect(v).model()) == StepModel::Intersect(plan_models(v@)),
{
    assert(PlanStep::Intersect(v).model()->Intersect_0 =~= plan_models(v@));
}

/// What plans and their steps contain.
pub broadcast group nested_plans {
    lemma_plan_model,
    lemma_union_model,
    lemma_intersect_model,
}

fn copy_texts(v: &Vec<String>) -> (r: Vec<String>)
    ensures
        texts(r@) == texts(v@),
{
    let mut out: Vec<String> = Vec::new();
    let mut i: usize = 0;
    while i < v.len()
        invariant
            i <= v@.len(),
            texts(out@) == texts(v@.take(i as int)),
        decreases v@.len() - i,
    {
        let ghost before = out@;
        out.push(v[i].clone());
        i += 1;
        assert(texts(out@) =~= texts(before).push(v@[i - 1]@));
        assert(texts(v@.take(i as int)) =~= texts(v@.take(i - 1)).push(v@[i - 1]@));
    }
    assert(v@.take(v@.len() as int) =~= v@);
    out
}

impl VerificationStep {
    /// The same check again.
    pub fn copied(&self) -> (r: VerificationStep)
        ensures
            r.model() == self.model(),
        decreases self,
    {
        broadcast use branch_checks;

        match self {
            VerificationStep::Literal(s) => VerificationStep::Literal(s.clone()),
            VerificationStep::BoostedLiteral { text, boost } => VerificationStep::BoostedLiteral {
                text: text.clone(),
                boost: Boost { text: boost.text.clone() },
            },
            VerificationStep::Phrase { text, case_insensitive } => VerificationStep::Phrase {
                text: text.clone(),
                case_insensitive: *case_insensitive,
            },
            VerificationStep::BoostedPhrase {
                text,
                case_insensitive,
                boost,
            } => VerificationStep::BoostedPhrase {
                text: text.clone(),
                case_insensitive: *case_insensitive,
                boost: Boost { text: boost.text.clone() },
            },
            VerificationStep::Regex(s) => VerificationStep::Regex(s.clone()),
            VerificationStep::Near { terms, distance } => VerificationStep::Near {
                terms: copy_texts(terms),
                distance: *distance,
            },
            VerificationStep::And(v) => VerificationStep::And(Self::copied_all(v)),
            VerificationStep::Or(v) => VerificationStep::Or(Self::copied_all(v)),
            VerificationStep::Not(n) => VerificationStep::Not(Box::new(n.copied())),
        }
    }

    fn copied_all(v: &Vec<VerificationStep>) -> (r: Vec<VerificationStep>)
        ensures
            checks(r@) == checks(v@),
        decreases v,
    {
        let mut out: Vec<VerificationStep> = Vec::new();
        let mut i: usize = 0;
        while i < v.len()
            invariant
                i <= v@.len(),
                checks(out@) == checks(v@.take(i as int)),
            decreases v@.len() - i,
        {
            let ghost before = out@;
            out.push(v[i].copied());
            i += 1;
            assert(checks(out@) =~= checks(before).push(v@[i - 1].model()));
            assert(checks(v@.take(i as int)) =~= checks(v@.take(i - 1)).push(v@[i - 1].model()));
        }
        assert(v@.take(v@.len() as int) =~= v@);
        out
    }
}

} // verus!
