//! From queries to plans.
use crate::query::ast::{
    branch_models, models, texts, Boost, FilterModel, NodeModel, Query, QueryModel, QueryNode,
};
use crate::query::plan::{
    branch_checks, check_option, checks, lemma_and_check, lemma_or_check, lemma_plan_model,
    lemma_union_model, nested_plans, plan_models, step_models, CheckModel, FilterStep,
    FilterStepModel, PlanModel, PlanStep, QueryPlan, StepModel, VerificationStep,
};
use crate::query::regex_plan::{pattern_fits, pattern_steps, regex_steps};
use crate::query::validate::{escape, escaped};
use crate::text::join3;
use vstd::prelude::*;

verus! {

broadcast use {branch_models, nested_plans, branch_checks};

/// The pattern of a literal text.
pub open spec fn literal_pattern(text: Seq<char>, insensitive: bool) -> Seq<char> {
    if insensitive {
        "(?i:"@ + escaped(text) + ")"@
    } else {
        escaped(text)
    }
}

/// A pattern with the case rule of the query.
pub open spec fn cased_pattern(pattern: Seq<char>, insensitive: bool) -> Seq<char> {
    if insensitive {
        "(?i)"@ + pattern
    } else {
        pattern
    }
}

/// The steps of the first `n` terms of a proximity search.
pub open spec fn near_steps(terms: Seq<Seq<char>>, n: nat) -> Seq<StepModel>
    decreases n,
{
    if n == 0 || n > terms.len() {
        Seq::empty()
    } else {
        near_steps(terms, (n - 1) as nat) + pattern_steps(literal_pattern(terms[n - 1], true))
    }
}

/// Steps, and the check of what they leave.
pub type Planned = (Seq<StepModel>, Option<CheckModel>);

/// The conjunction of checks.
pub open spec fn all_checks(v: Seq<CheckModel>) -> Option<CheckModel> {
    if v.len() == 0 {
        None
    } else if v.len() == 1 {
        Some(v[0])
    } else {
        Some(CheckModel::And(v))
    }
}

/// The disjunction of checks.
pub open spec fn any_check(v: Seq<CheckModel>) -> Option<CheckModel> {
    if v.len() == 0 {
        None
    } else if v.len() == 1 {
        Some(v[0])
    } else {
        Some(CheckModel::Or(v))
    }
}

/// A list with one more check, if there is one.
pub open spec fn with_check(v: Seq<CheckModel>, c: Option<CheckModel>) -> Seq<CheckModel> {
    match c {
        Some(x) => v.push(x),
        None => v,
    }
}

/// The plan of a tree. A tree that could not be read finds no document.
pub open spec fn planned(node: NodeModel, insensitive: bool) -> Planned
    decreases node, 0nat,
{
    match node {
        NodeModel::Empty => (Seq::empty(), None),
        NodeModel::Invalid(_) => (seq![StepModel::Union(Seq::empty())], None),
        NodeModel::Literal(text) => (
            pattern_steps(literal_pattern(text, true)),
            Some(CheckModel::Literal(text)),
        ),
        NodeModel::BoostedLiteral { text, boost } => (
            pattern_steps(literal_pattern(text, true)),
            Some(CheckModel::BoostedLiteral { text, boost }),
        ),
        NodeModel::Near { terms, distance } => (
            near_steps(terms, terms.len()),
            Some(CheckModel::Near { terms, distance }),
        ),
        NodeModel::Phrase(text) => (
            pattern_steps(literal_pattern(text, insensitive)),
            Some(CheckModel::Phrase { text, case_insensitive: insensitive }),
        ),
        NodeModel::BoostedPhrase { text, boost } => (
            pattern_steps(literal_pattern(text, insensitive)),
            Some(CheckModel::BoostedPhrase { text, case_insensitive: insensitive, boost }),
        ),
        NodeModel::Regex(pattern) => (
            pattern_steps(cased_pattern(pattern, insensitive)),
            Some(CheckModel::Regex(cased_pattern(pattern, insensitive))),
        ),
        NodeModel::And(nodes) => {
            let (steps, list) = planned_all(nodes, nodes.len(), insensitive);
            (steps, all_checks(list))
        },
        NodeModel::Or(nodes) => {
            let (plans, list) = planned_any(nodes, nodes.len(), insensitive);
            (
                if plans.len() == 0 {
                    Seq::empty()
                } else {
                    seq![StepModel::Union(plans)]
                },
                any_check(list),
            )
        },
        NodeModel::Not(inner) => {
            let (steps, verification) = planned(*inner, insensitive);
            (
                seq![StepModel::Exclude(Box::new(PlanModel { steps, verification }))],
                match verification {
                    Some(v) => Some(CheckModel::Not(Box::new(v))),
                    None => None,
                },
            )
        },
    }
}

/// The steps of the first `n` branches together, and their checks.
pub open spec fn planned_all(nodes: Seq<NodeModel>, n: nat, insensitive: bool) -> (
    Seq<StepModel>,
    Seq<CheckModel>,
)
    decreases nodes, n,
{
    if n == 0 || n > nodes.len() {
        (Seq::empty(), Seq::empty())
    } else {
        let (steps, list) = planned_all(nodes, (n - 1) as nat, insensitive);
        let (more, check) = planned(nodes[n - 1], insensitive);
        (steps + more, with_check(list, check))
    }
}

/// The plans of the first `n` branches side by side, and their checks.
pub open spec fn planned_any(nodes: Seq<NodeModel>, n: nat, insensitive: bool) -> (
    Seq<PlanModel>,
    Seq<CheckModel>,
)
    decreases nodes, n,
{
    if n == 0 || n > nodes.len() {
        (Seq::empty(), Seq::empty())
    } else {
        let (plans, list) = planned_any(nodes, (n - 1) as nat, insensitive);
        let (steps, verification) = planned(nodes[n - 1], insensitive);
        (plans.push(PlanModel { steps, verification }), with_check(list, verification))
    }
}

/// Whether the patterns of the first `n` terms have fitting trees.
pub open spec fn terms_fit(terms: Seq<Seq<char>>, n: nat) -> bool
    decreases n,
{
    n == 0 || n > terms.len() || (terms_fit(terms, (n - 1) as nat) && pattern_fits(
        literal_pattern(terms[n - 1], true),
    ))
}

/// Whether the patterns by which a tree narrows have fitting trees.
pub open spec fn node_fits(node: NodeModel, insensitive: bool) -> bool
    decreases node, 0nat,
{
    match node {
        NodeModel::Literal(text) => pattern_fits(literal_pattern(text, true)),
        NodeModel::BoostedLiteral { text, .. } => pattern_fits(literal_pattern(text, true)),
        NodeModel::Near { terms, .. } => terms_fit(terms, terms.len()),
        NodeModel::Phrase(text) => pattern_fits(literal_pattern(text, insensitive)),
        NodeModel::BoostedPhrase { text, .. } => pattern_fits(literal_pattern(text, insensitive)),
        NodeModel::Regex(pattern) => pattern_fits(cased_pattern(pattern, insensitive)),
        NodeModel::And(v) => all_fit(v, v.len(), insensitive),
        NodeModel::Or(v) => all_fit(v, v.len(), insensitive),
        NodeModel::Not(inner) => node_fits(*inner, insensitive),
        _ => true,
    }
}

/// Whether the patterns of the first `n` branches have fitting trees.
pub open spec fn all_fit(nodes: Seq<NodeModel>, n: nat, insensitive: bool) -> bool
    decreases nodes, n,
{
    n == 0 || n > nodes.len() || (all_fit(nodes, (n - 1) as nat, insensitive) && node_fits(
        nodes[n - 1],
        insensitive,
    ))
}

/// The filter step of a query's filters.
pub open spec fn filter_step(f: FilterModel) -> FilterStepModel {
    FilterStepModel {
        path_glob: f.path,
        filename: f.filename,
        extension: f.ext,
        language: f.lang,
        size_min: f.size_min,
        size_max: f.size_max,
        mtime_min: f.mtime_min,
        mtime_max: f.mtime_max,
        line_start: f.line_start,
        line_end: f.line_end,
        scope: f.search_scope,
    }
}

/// The plan of a query: the steps of its tree, then its filters.
pub open spec fn plan_of(q: QueryModel) -> PlanModel {
    let (steps, verification) = planned(q.root, q.options.case_insensitive);
    PlanModel {
        steps: if q.filters != crate::query::ast::no_filters() {
            steps.push(StepModel::Filter(filter_step(q.filters)))
        } else {
            steps
        },
        verification,
    }
}

fn literal_steps(text: &str, insensitive: bool) -> (r: Vec<PlanStep>)
    ensures
        step_models(r@) == pattern_steps(literal_pattern(text@, insensitive)),
        pattern_fits(literal_pattern(text@, insensitive)),
{
    let escaped_text = escape(text);
    if insensitive {
        regex_steps(join3("(?i:", escaped_text.as_str(), ")").as_str())
    } else {
        regex_steps(escaped_text.as_str())
    }
}

/// Appends steps.
fn append_steps(steps: &mut Vec<PlanStep>, more: Vec<PlanStep>)
    ensures
        step_models(final(steps)@) == step_models(old(steps)@) + step_models(more@),
{
    let mut more = more;
    let ghost added = more@;
    steps.append(&mut more);
    assert(step_models(steps@) =~= step_models(old(steps)@) + step_models(added));
}

fn all_near_steps(terms: &Vec<String>) -> (r: Vec<PlanStep>)
    ensures
        step_models(r@) == near_steps(texts(terms@), terms@.len()),
        terms_fit(texts(terms@), terms@.len()),
{
    let mut steps: Vec<PlanStep> = Vec::new();
    let mut i: usize = 0;
    assert(step_models(steps@) =~= Seq::<StepModel>::empty());
    while i < terms.len()
        invariant
            i <= terms@.len(),
            step_models(steps@) == near_steps(texts(terms@), i as nat),
            terms_fit(texts(terms@), i as nat),
        decreases terms@.len() - i,
    {
        assert(texts(terms@)[i as int] == terms@[i as int]@);
        append_steps(&mut steps, literal_steps(terms[i].as_str(), true));
        i += 1;
    }
    steps
}

fn copy_terms(terms: &Vec<String>) -> (r: Vec<String>)
    ensures
        texts(r@) == texts(terms@),
{
    let mut out: Vec<String> = Vec::new();
    let mut i: usize = 0;
    while i < terms.len()
        invariant
            i <= terms@.len(),
            texts(out@) == texts(terms@).take(i as int),
        decreases terms@.len() - i,
    {
        let ghost before = out@;
        out.push(terms[i].clone());
        i += 1;
        assert(texts(out@) =~= texts(before).push(terms@[i - 1]@));
        assert(texts(terms@).take(i as int) =~= texts(terms@).take(i - 1).push(terms@[i - 1]@));
    }
    assert(texts(terms@).take(terms@.len() as int) =~= texts(terms@));
    out
}

fn add_check(list: &mut Vec<VerificationStep>, check: Option<VerificationStep>)
    ensures
        checks(final(list)@) == with_check(checks(old(list)@), check_option(check)),
{
    match check {
        Some(c) => {
            list.push(c);
            assert(checks(list@) =~= checks(old(list)@).push(c.model()));
        },
        None => {},
    }
}

/// The first of a list of one.
fn only_check(list: Vec<VerificationStep>) -> (r: VerificationStep)
    requires
        list@.len() == 1,
    ensures
        r.model() == checks(list@)[0],
{
    let mut list = list;
    list.pop().unwrap()
}

fn copy_check(check: &Option<VerificationStep>) -> (r: Option<VerificationStep>)
    ensures
        check_option(r) == check_option(*check),
{
    match check {
        Some(c) => Some(c.copied()),
        None => None,
    }
}

/// Plans the branches of a conjunction.
fn plan_all(nodes: &Vec<QueryNode>, insensitive: bool) -> (r: (
    Vec<PlanStep>,
    Vec<VerificationStep>,
))
    ensures
        (step_models(r.0@), checks(r.1@)) == planned_all(models(nodes@), nodes@.len(), insensitive),
        all_fit(models(nodes@), nodes@.len(), insensitive),
    decreases nodes,
{
    let mut steps: Vec<PlanStep> = Vec::new();
    let mut list: Vec<VerificationStep> = Vec::new();
    let mut i: usize = 0;
    assert(step_models(steps@) =~= Seq::<StepModel>::empty());
    assert(checks(list@) =~= Seq::<CheckModel>::empty());
    while i < nodes.len()
        invariant
            i <= nodes@.len(),
            (step_models(steps@), checks(list@)) == planned_all(
                models(nodes@),
                i as nat,
                insensitive,
            ),
            all_fit(models(nodes@), i as nat, insensitive),
        decreases nodes@.len() - i,
    {
        assert(models(nodes@)[i as int] == nodes@[i as int].model());
        let (more, check) = plan_node(&nodes[i], insensitive);
        append_steps(&mut steps, more);
        add_check(&mut list, check);
        i += 1;
    }
    (steps, list)
}

/// Plans the branches of a disjunction. A branch without steps stands for all
/// documents and stays in the union.
fn plan_any(nodes: &Vec<QueryNode>, insensitive: bool) -> (r: (
    Vec<QueryPlan>,
    Vec<VerificationStep>,
))
    ensures
        (plan_models(r.0@), checks(r.1@)) == planned_any(models(nodes@), nodes@.len(), insensitive),
        all_fit(models(nodes@), nodes@.len(), insensitive),
    decreases nodes,
{
    let mut plans: Vec<QueryPlan> = Vec::new();
    let mut list: Vec<VerificationStep> = Vec::new();
    let mut i: usize = 0;
    assert(plan_models(plans@) =~= Seq::<PlanModel>::empty());
    assert(checks(list@) =~= Seq::<CheckModel>::empty());
    while i < nodes.len()
        invariant
            i <= nodes@.len(),
            (plan_models(plans@), checks(list@)) == planned_any(
                models(nodes@),
                i as nat,
                insensitive,
            ),
            all_fit(models(nodes@), i as nat, insensitive),
        decreases nodes@.len() - i,
    {
        assert(models(nodes@)[i as int] == nodes@[i as int].model());
        let (steps, check) = plan_node(&nodes[i], insensitive);
        let plan = QueryPlan { steps, verification: copy_check(&check) };
        let ghost before = plans@;
        proof {
            lemma_plan_model(plan);
        }
        plans.push(plan);
        assert(plan_models(plans@) =~= plan_models(before).push(plan.model()));
        add_check(&mut list, check);
        i += 1;
    }
    (plans, list)
}

/// Plans a tree.
pub fn plan_node(node: &QueryNode, insensitive: bool) -> (r: (
    Vec<PlanStep>,
    Option<VerificationStep>,
))
    ensures
        (step_models(r.0@), check_option(r.1)) == planned(node.model(), insensitive),
        node_fits(node.model(), insensitive),
    decreases node,
{
    match node {
        QueryNode::Empty => {
            let steps: Vec<PlanStep> = Vec::new();
            assert(step_models(steps@) =~= Seq::<StepModel>::empty());
            (steps, None)
        },
        QueryNode::Invalid(_) => {
            let mut steps: Vec<PlanStep> = Vec::new();
            let plans: Vec<QueryPlan> = Vec::new();
            proof {
                lemma_union_model(plans);
            }
            assert(plan_models(plans@) =~= Seq::<PlanModel>::empty());
            steps.push(PlanStep::Union(plans));
            assert(step_models(steps@) =~= seq![StepModel::Union(Seq::empty())]);
            (steps, None)
        },
        QueryNode::Literal(text) => (
            literal_steps(text.as_str(), true),
            Some(VerificationStep::Literal(text.clone())),
        ),
        QueryNode::BoostedLiteral { text, boost } => (
            literal_steps(text.as_str(), true),
            Some(
                VerificationStep::BoostedLiteral {
                    text: text.clone(),
                    boost: Boost { text: boost.text.clone() },
                },
            ),
        ),
        QueryNode::Near { terms, distance } => (
            all_near_steps(terms),
            Some(VerificationStep::Near { terms: copy_terms(terms), distance: *distance }),
        ),
        QueryNode::Phrase(text) => (
            literal_steps(text.as_str(), insensitive),
            Some(VerificationStep::Phrase { text: text.clone(), case_insensitive: insensitive }),
        ),
        QueryNode::BoostedPhrase { text, boost } => (
            literal_steps(text.as_str(), insensitive),
            Some(
                VerificationStep::BoostedPhrase {
                    text: text.clone(),
                    case_insensitive: insensitive,
                    boost: Boost { text: boost.text.clone() },
                },
            ),
        ),
        QueryNode::Regex(pattern) => {
            let pattern = if insensitive {
                let mut p = "(?i)".to_owned();
                p.append(pattern.as_str());
                p
            } else {
                pattern.clone()
            };
            (regex_steps(pattern.as_str()), Some(VerificationStep::Regex(pattern)))
        },
        QueryNode::And(nodes) => {
            let (steps, list) = plan_all(nodes, insensitive);
            if list.len() == 0 {
                (steps, None)
            } else if list.len() == 1 {
                (steps, Some(only_check(list)))
            } else {
                proof {
                    lemma_and_check(list);
                }
                (steps, Some(VerificationStep::And(list)))
            }
        },
        QueryNode::Or(nodes) => {
            let (plans, list) = plan_any(nodes, insensitive);
            let ghost list_model = checks(list@);
            let check = if list.len() == 0 {
                None
            } else if list.len() == 1 {
                Some(only_check(list))
            } else {
                proof {
                    lemma_or_check(list);
                }
                Some(VerificationStep::Or(list))
            };
            assert(check_option(check) == any_check(list_model));
            let mut steps: Vec<PlanStep> = Vec::new();
            assert(step_models(steps@) =~= Seq::<StepModel>::empty());
            if plans.len() > 0 {
                let ghost m = plan_models(plans@);
                proof {
                    lemma_union_model(plans);
                }
                steps.push(PlanStep::Union(plans));
                assert(step_models(steps@) =~= seq![StepModel::Union(m)]);
            }
            (steps, check)
        },
        QueryNode::Not(inner) => {
            let (steps, verification) = plan_node(inner, insensitive);
            let plan = QueryPlan { steps, verification: copy_check(&verification) };
            proof {
                lemma_plan_model(plan);
            }
            let mut out: Vec<PlanStep> = Vec::new();
            out.push(PlanStep::Exclude(Box::new(plan)));
            assert(step_models(out@) =~= seq![StepModel::Exclude(Box::new(plan.model()))]);
            let check = match verification {
                Some(v) => Some(VerificationStep::Not(Box::new(v))),
                None => None,
            };
            (out, check)
        },
    }
}

fn copy_text(t: &Option<String>) -> (r: Option<String>)
    ensures
        crate::query::ast::text_option(r) == crate::query::ast::text_option(*t),
{
    match t {
        Some(s) => Some(s.clone()),
        None => None,
    }
}

impl QueryPlan {
    /// The plan of a query.
    pub fn from_query(query: &Query) -> (r: QueryPlan)
        ensures
            r.model() == plan_of(query@),
            node_fits(query@.root, query@.options.case_insensitive),
    {
        let (steps, verification) = plan_node(&query.root, query.options.case_insensitive);
        let mut steps = steps;
        let f = &query.filters;
        if f.has_any() {
            let filter = FilterStep {
                path_glob: copy_text(&f.path),
                filename: copy_text(&f.filename),
                extension: copy_text(&f.ext),
                language: copy_text(&f.lang),
                size_min: f.size_min,
                size_max: f.size_max,
                mtime_min: f.mtime_min,
                mtime_max: f.mtime_max,
                line_start: f.line_start,
                line_end: f.line_end,
                scope: copy_text(&f.search_scope),
            };
            let ghost before = steps@;
            steps.push(PlanStep::Filter(filter));
            assert(step_models(steps@) =~= step_models(before).push(
                StepModel::Filter(filter_step(f@)),
            ));
        }
        let plan = QueryPlan { steps, verification };
        proof {
            lemma_plan_model(plan);
        }
        plan
    }
}

} // verus!
