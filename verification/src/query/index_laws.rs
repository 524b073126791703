//! What narrowing by trigrams promises of a complete index.
use crate::query::index::Index;
use crate::query::plan::{PlanModel, StepModel, Trigram};
use crate::query::regex_laws::{
    accepts, admits, admits_first, admits_one, meets, narrowing_keeps_matches,
};
use crate::query::regex_plan::{
    choice_plans, chunks, holds_trigram, narrowing, pattern_steps, union_steps, window_count,
    window_steps, window_words, word_plan, word_steps, words,
};
use crate::query::shape::{pattern_shape, ShapeModel};
use vstd::prelude::*;
use vstd::utf8::encode_utf8;

verus! {

/// Whether an index lists every valid document with a text under every trigram
/// of the text that is not too common.
pub open spec fn is_complete(index: Index) -> bool {
    forall|d: u32, t: Trigram|
        index.valid_docs().contains(d) && index.text(d) is Some && holds_trigram(
            encode_utf8(index.text(d)->0),
            t,
        ) && !index.is_stop(t) ==> #[trigger] index.gram_docs(t).contains(d)
}

/// Whether a step asks for trigrams alone.
pub open spec fn asks_grams(step: StepModel) -> bool
    decreases step, 0nat,
{
    match step {
        StepModel::TrigramIntersect(_) => true,
        StepModel::Union(plans) => plans_ask_grams(plans, plans.len()),
        _ => false,
    }
}

/// Whether the first `n` steps ask for trigrams alone.
pub open spec fn steps_ask_grams(steps: Seq<StepModel>, n: nat) -> bool
    decreases steps, n,
{
    n == 0 || n > steps.len() || (steps_ask_grams(steps, (n - 1) as nat) && asks_grams(
        steps[n - 1],
    ))
}

/// Whether the steps of the first `n` plans ask for trigrams alone.
pub open spec fn plans_ask_grams(plans: Seq<PlanModel>, n: nat) -> bool
    decreases plans, n,
{
    n == 0 || n > plans.len() || (plans_ask_grams(plans, (n - 1) as nat) && steps_ask_grams(
        plans[n - 1].steps,
        plans[n - 1].steps.len(),
    ))
}

/// A trigram that is left as usable is one of the list and not too common.
proof fn lemma_usable(index: Index, v: Seq<Trigram>, k: int)
    requires
        0 <= k < index.usable(v).len(),
    ensures
        v.contains(index.usable(v)[k]),
        !index.is_stop(index.usable(v)[k]),
    decreases v.len(),
{
    let front = v.drop_last();
    if index.is_stop(v.last()) || k < index.usable(front).len() {
        lemma_usable(index, front, k);
        let x = index.usable(v)[k];
        let i = choose|i: int| 0 <= i < front.len() && front[i] == x;
        assert(v[i] == x);
    } else {
        assert(v[v.len() - 1] == v.last());
    }
}

proof fn lemma_kept_by_steps(index: Index, steps: Seq<StepModel>, n: nat, d: u32)
    requires
        is_complete(index),
        index.valid_docs().contains(d),
        index.text(d) is Some,
        n <= steps.len(),
        steps_ask_grams(steps, n),
        admits_first(steps, n, encode_utf8(index.text(d)->0)),
    ensures
        index.narrowed(steps, n) is Some ==> index.narrowed(steps, n)->0.contains(d),
    decreases steps, n,
{
    if n > 0 {
        let text = encode_utf8(index.text(d)->0);
        lemma_kept_by_steps(index, steps, (n - 1) as nat, d);
        assert(asks_grams(steps[n - 1]));
        match steps[n - 1] {
            StepModel::TrigramIntersect(v) => {
                let u = index.usable(v);
                assert forall|k: int| 0 <= k < u.len() implies index.gram_docs(
                    #[trigger] u[k],
                ).contains(d) by {
                    lemma_usable(index, v, k);
                    let i = choose|i: int| 0 <= i < v.len() && v[i] == u[k];
                    assert(admits(steps[n - 1], text));
                    assert(holds_trigram(text, v[i]));
                }
                assert(index.all_gram_docs(u).contains(d));
            },
            StepModel::Union(plans) => {
                assert(admits(steps[n - 1], text));
                lemma_kept_by_one(index, plans, plans.len(), d);
            },
            _ => {},
        }
    }
}

proof fn lemma_kept_by_one(index: Index, plans: Seq<PlanModel>, n: nat, d: u32)
    requires
        is_complete(index),
        index.valid_docs().contains(d),
        index.text(d) is Some,
        n <= plans.len(),
        plans_ask_grams(plans, n),
        admits_one(plans, n, encode_utf8(index.text(d)->0)),
    ensures
        index.found_by_any(plans, n).contains(d),
    decreases plans, n,
{
    let text = encode_utf8(index.text(d)->0);
    if admits_one(plans, (n - 1) as nat, text) {
        lemma_kept_by_one(index, plans, (n - 1) as nat, d);
    } else {
        lemma_kept_by_plan(index, plans[n - 1], d);
    }
}

proof fn lemma_kept_by_plan(index: Index, plan: PlanModel, d: u32)
    requires
        is_complete(index),
        index.valid_docs().contains(d),
        index.text(d) is Some,
        steps_ask_grams(plan.steps, plan.steps.len()),
        meets(plan.steps, encode_utf8(index.text(d)->0)),
    ensures
        index.found(plan).contains(d),
    decreases plan, 0nat,
{
    lemma_kept_by_steps(index, plan.steps, plan.steps.len(), d);
    lemma_no_exclusion(index, plan.steps, plan.steps.len(), index.narrowed(
        plan.steps,
        plan.steps.len(),
    )->0);
}

proof fn lemma_no_exclusion(index: Index, steps: Seq<StepModel>, n: nat, s: Set<u32>)
    requires
        n <= steps.len(),
        steps_ask_grams(steps, n),
    ensures
        index.excluded(steps, n, s) == s,
    decreases n,
{
    if n > 0 {
        lemma_no_exclusion(index, steps, (n - 1) as nat, s);
        assert(asks_grams(steps[n - 1]));
    }
}

/// Narrowing by trigrams loses no document: in a complete index, a plan whose
/// steps ask for trigrams alone finds every valid document whose text meets
/// the steps.
pub proof fn complete_index_loses_nothing(index: Index, plan: PlanModel, d: u32)
    requires
        is_complete(index),
        index.valid_docs().contains(d),
        index.text(d) is Some,
        steps_ask_grams(plan.steps, plan.steps.len()),
        meets(plan.steps, encode_utf8(index.text(d)->0)),
    ensures
        index.found(plan).contains(d),
{
    lemma_kept_by_plan(index, plan, d);
}

proof fn lemma_ask_sum(a: Seq<StepModel>, b: Seq<StepModel>, n: nat)
    requires
        n <= a.len() + b.len(),
        steps_ask_grams(a, a.len()),
        steps_ask_grams(b, b.len()),
    ensures
        steps_ask_grams(a + b, n),
    decreases n,
{
    if n > 0 {
        lemma_ask_sum(a, b, (n - 1) as nat);
        if n <= a.len() {
            lemma_ask_each(a, a.len(), n - 1);
            assert((a + b)[n - 1] == a[n - 1]);
        } else {
            lemma_ask_each(b, b.len(), n - 1 - a.len());
            assert((a + b)[n - 1] == b[n - 1 - a.len()]);
        }
    }
}

pub proof fn lemma_ask_each(steps: Seq<StepModel>, n: nat, k: int)
    requires
        0 <= k < n <= steps.len(),
        steps_ask_grams(steps, n),
    ensures
        asks_grams(steps[k]),
    decreases n,
{
    if k < n - 1 {
        lemma_ask_each(steps, (n - 1) as nat, k);
    }
}

proof fn lemma_union_asks(plans: Seq<PlanModel>)
    requires
        plans_ask_grams(plans, plans.len()),
    ensures
        steps_ask_grams(union_steps(plans), union_steps(plans).len()),
{
    reveal_with_fuel(steps_ask_grams, 2);
    reveal_with_fuel(plans_ask_grams, 2);
    let steps = union_steps(plans);
    if steps.len() > 0 && plans.len() > 1 {
        assert(steps =~= seq![StepModel::Union(plans)]);
        assert(asks_grams(steps[0]));
    }
}

proof fn lemma_word_plans_ask(strings: Seq<Seq<u8>>, n: nat)
    requires
        n <= strings.len(),
    ensures
        plans_ask_grams(strings.map_values(|s: Seq<u8>| word_plan(s)), n),
    decreases n,
{
    if n > 0 {
        lemma_word_plans_ask(strings, (n - 1) as nat);
        let plans = strings.map_values(|s: Seq<u8>| word_plan(s));
        let steps = plans[n - 1].steps;
        assert(steps == word_plan(strings[n - 1]).steps);
        assert(asks_grams(steps[0]));
        assert(steps_ask_grams(steps, 0));
        assert(steps_ask_grams(steps, 1));
        assert(steps.len() == 1);
    }
}

proof fn lemma_words_ask(strings: Seq<Seq<u8>>)
    ensures
        steps_ask_grams(word_steps(strings), word_steps(strings).len()),
{
    lemma_word_plans_ask(strings, strings.len());
    lemma_union_asks(strings.map_values(|s: Seq<u8>| word_plan(s)));
}

proof fn lemma_windows_ask(parts: Seq<ShapeModel>, n: nat)
    ensures
        steps_ask_grams(window_steps(parts, n), window_steps(parts, n).len()),
    decreases n,
{
    if n > 0 {
        lemma_windows_ask(parts, (n - 1) as nat);
        match window_words(parts, n - 1) {
            Some(w) => {
                lemma_words_ask(w);
                let a = window_steps(parts, (n - 1) as nat);
                lemma_ask_sum(a, word_steps(w), (a + word_steps(w)).len());
            },
            None => {},
        }
    }
}

proof fn lemma_chunks_ask(parts: Seq<ShapeModel>, n: nat)
    requires
        n <= parts.len(),
    ensures
        steps_ask_grams(chunks(parts, n).0, chunks(parts, n).0.len()),
    decreases parts, n,
{
    if n > 0 {
        lemma_chunks_ask(parts, (n - 1) as nat);
        let (steps, pending) = chunks(parts, (n - 1) as nat);
        lemma_words_ask(pending);
        let sum = steps + word_steps(pending);
        lemma_ask_sum(steps, word_steps(pending), sum.len());
        if words(parts[n - 1]) is None {
            narrowing_asks_grams(parts[n - 1]);
            let more = narrowing(parts[n - 1]);
            lemma_ask_sum(sum, more, (sum + more).len());
        }
    }
}

proof fn lemma_choices_ask(parts: Seq<ShapeModel>, n: nat)
    requires
        n <= parts.len(),
    ensures
        choice_plans(parts, n).len() == n,
        plans_ask_grams(choice_plans(parts, n), n),
    decreases parts, n,
{
    if n > 0 {
        let m = (n - 1) as nat;
        lemma_choices_ask(parts, m);
        narrowing_asks_grams(parts[n - 1]);
        let short = choice_plans(parts, m);
        let long = choice_plans(parts, n);
        lemma_same_plans(short, long, m);
    }
}

proof fn lemma_same_plans(a: Seq<PlanModel>, b: Seq<PlanModel>, n: nat)
    requires
        n <= a.len(),
        n <= b.len(),
        forall|i: int| 0 <= i < n ==> a[i] == b[i],
        plans_ask_grams(a, n),
    ensures
        plans_ask_grams(b, n),
    decreases n,
{
    if n > 0 {
        lemma_same_plans(a, b, (n - 1) as nat);
    }
}

/// The steps that a tree is narrowed by ask for trigrams alone.
pub proof fn narrowing_asks_grams(s: ShapeModel)
    ensures
        steps_ask_grams(narrowing(s), narrowing(s).len()),
    decreases s, 0nat,
{
    match words(s) {
        Some(w) => {
            lemma_words_ask(w);
        },
        None => match s {
            ShapeModel::Literal(l) => {
                lemma_words_ask(seq![l]);
            },
            ShapeModel::Capture(x) => {
                narrowing_asks_grams(*x);
            },
            ShapeModel::Repetition { min, sub, .. } => {
                narrowing_asks_grams(*sub);
            },
            ShapeModel::Alternation(parts) => {
                lemma_choices_ask(parts, parts.len());
                lemma_union_asks(choice_plans(parts, parts.len()));
            },
            ShapeModel::Concat(parts) => {
                lemma_chunks_ask(parts, parts.len());
                let (steps, pending) = chunks(parts, parts.len());
                lemma_words_ask(pending);
                let sum = steps + word_steps(pending);
                lemma_ask_sum(steps, word_steps(pending), sum.len());
                let windows = window_steps(parts, window_count(parts.len()));
                lemma_windows_ask(parts, window_count(parts.len()));
                lemma_ask_sum(sum, windows, (sum + windows).len());
            },
            _ => {},
        },
    }
}

/// A search by a pattern loses no match: in a complete index, the steps of a
/// pattern leave every valid document in whose text the pattern's tree matches
/// some piece.
pub proof fn pattern_search_loses_no_match(
    index: Index,
    pattern: Seq<char>,
    d: u32,
    i: int,
    j: int,
)
    requires
        is_complete(index),
        index.valid_docs().contains(d),
        index.text(d) is Some,
        pattern_shape(pattern) is Some,
        0 <= i <= j <= encode_utf8(index.text(d)->0).len(),
        accepts(pattern_shape(pattern)->0, encode_utf8(index.text(d)->0).subrange(i, j)),
    ensures
        index.found(PlanModel { steps: pattern_steps(pattern), verification: None }).contains(d),
{
    let s = pattern_shape(pattern)->0;
    narrowing_keeps_matches(s, encode_utf8(index.text(d)->0), i, j);
    narrowing_asks_grams(s);
    lemma_kept_by_plan(
        index,
        PlanModel { steps: pattern_steps(pattern), verification: None },
        d,
    );
}

} // verus!
