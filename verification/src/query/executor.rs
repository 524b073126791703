//! Carrying out plans: which documents are left to be looked at.
use crate::query::ast::texts;
use crate::query::bitmap::{
    add_to_set, docs, empty_set, intersect_with, list_of_set, set_is_empty, subtract_from,
    unite_with,
};
use crate::query::content::{check_present, has_match};
use crate::query::index::Index;
use crate::query::plan::{
    lemma_plan_model, nested_plans, plan_models, step_models, CheckModel, PlanModel, PlanStep,
    QueryPlan, StepModel, Trigram, VerificationStep,
};
use roaring::RoaringBitmap;
use vstd::prelude::*;

verus! {

broadcast use nested_plans;

/// Narrows a set, or starts with one.
pub open spec fn meet(before: Option<Set<u32>>, s: Set<u32>) -> Option<Set<u32>> {
    match before {
        Some(b) => Some(b.intersect(s)),
        None => Some(s),
    }
}

impl Index {
    /// The trigrams that narrow anything.
    pub open spec fn usable(&self, v: Seq<Trigram>) -> Seq<Trigram>
        decreases v.len(),
    {
        if v.len() == 0 {
            v
        } else if self.is_stop(v.last()) {
            self.usable(v.drop_last())
        } else {
            self.usable(v.drop_last()).push(v.last())
        }
    }

    /// The documents listed for each of the first `n` tokens.
    pub open spec fn docs_of_tokens(&self, v: Seq<Seq<char>>, n: nat) -> Set<u32>
        decreases n,
    {
        if n == 0 || n > v.len() {
            Set::empty()
        } else if n == 1 {
            self.docs_of_token(v[0])
        } else {
            self.docs_of_tokens(v, (n - 1) as nat).intersect(self.docs_of_token(v[n - 1]))
        }
    }

    /// The documents of a token, with those of its trigrams or, without usable
    /// trigrams, those of tokens around it and those of all its parts.
    pub open spec fn token_or_trigram(
        &self,
        token: Seq<char>,
        parts: Seq<Seq<char>>,
        v: Seq<Trigram>,
    ) -> Set<u32> {
        if self.usable(v).len() > 0 {
            self.docs_of_token(token).union(self.all_gram_docs(self.usable(v)))
        } else if parts.len() >= 2 {
            self.docs_of_token(token).union(self.docs_around(token)).union(
                self.docs_of_tokens(parts, parts.len()),
            )
        } else {
            self.docs_of_token(token).union(self.docs_around(token))
        }
    }

    /// The documents of a set whose text a check finds something in.
    pub open spec fn confirmed(&self, s: Set<u32>, check: CheckModel) -> Set<u32> {
        Set::new(
            |d: u32|
                s.contains(d) && self.text(d) is Some && check_present(self.text(d)->0, check),
        )
    }

    /// What the first `n` steps leave; nothing where none of them narrows.
    /// Exclusions and places in a row do not narrow here.
    pub open spec fn narrowed(&self, steps: Seq<StepModel>, n: nat) -> Option<Set<u32>>
        decreases steps, n,
    {
        if n == 0 || n > steps.len() {
            None
        } else {
            let before = self.narrowed(steps, (n - 1) as nat);
            match steps[n - 1] {
                StepModel::TrigramIntersect(v) => if self.usable(v).len() == 0 {
                    before
                } else {
                    meet(before, self.all_gram_docs(self.usable(v)))
                },
                StepModel::TokenLookup(token) => meet(before, self.docs_of_token(token)),
                StepModel::TokenOrTrigram { token, sub_tokens, trigrams } => meet(
                    before,
                    self.token_or_trigram(token, sub_tokens, trigrams),
                ),
                StepModel::Union(plans) => meet(before, self.found_by_any(plans, plans.len())),
                StepModel::Intersect(plans) => if plans.len() == 0 {
                    before
                } else {
                    meet(before, self.found_by_all(plans, plans.len()))
                },
                StepModel::Filter(f) => Some(
                    self.passing(
                        match before {
                            Some(b) => b,
                            None => self.valid_docs(),
                        },
                        f,
                    ),
                ),
                StepModel::Exclude(_) => before,
                StepModel::PositionalPhrase(_) => before,
            }
        }
    }

    /// What the exclusions among the first `n` steps leave of a set. With a
    /// check, only documents whose text meets it are left out.
    pub open spec fn excluded(&self, steps: Seq<StepModel>, n: nat, s: Set<u32>) -> Set<u32>
        decreases steps, n,
    {
        if n == 0 || n > steps.len() {
            s
        } else {
            let before = self.excluded(steps, (n - 1) as nat, s);
            match steps[n - 1] {
                StepModel::Exclude(plan) => match plan.verification {
                    Some(check) => before.difference(
                        self.confirmed(self.found(*plan).intersect(before), check),
                    ),
                    None => before.difference(self.found(*plan)),
                },
                _ => before,
            }
        }
    }

    /// The documents that a plan finds. Without a step that narrows, all valid
    /// documents.
    pub open spec fn found(&self, plan: PlanModel) -> Set<u32>
        decreases plan, 0nat,
    {
        match self.narrowed(plan.steps, plan.steps.len()) {
            Some(s) => self.excluded(plan.steps, plan.steps.len(), s),
            None => self.valid_docs(),
        }
    }

    /// The documents that one of the first `n` plans finds.
    pub open spec fn found_by_any(&self, plans: Seq<PlanModel>, n: nat) -> Set<u32>
        decreases plans, n,
    {
        if n == 0 || n > plans.len() {
            Set::empty()
        } else {
            self.found_by_any(plans, (n - 1) as nat).union(self.found(plans[n - 1]))
        }
    }

    /// The documents that all of the first `n` plans find.
    pub open spec fn found_by_all(&self, plans: Seq<PlanModel>, n: nat) -> Set<u32>
        decreases plans, n,
    {
        if n == 0 || n > plans.len() {
            Set::empty()
        } else if n == 1 {
            self.found(plans[0])
        } else {
            self.found_by_all(plans, (n - 1) as nat).intersect(self.found(plans[n - 1]))
        }
    }
}

/// The content of an optional set.
pub open spec fn set_option(b: Option<RoaringBitmap>) -> Option<Set<u32>> {
    match b {
        Some(s) => Some(docs(s)),
        None => None,
    }
}

/// Narrows a set, or starts with one.
fn narrow(before: Option<RoaringBitmap>, s: RoaringBitmap) -> (r: Option<RoaringBitmap>)
    ensures
        set_option(r) == meet(set_option(before), docs(s)),
{
    match before {
        Some(b) => {
            let mut b = b;
            intersect_with(&mut b, &s);
            Some(b)
        },
        None => Some(s),
    }
}

impl Index {
    /// The trigrams that narrow anything.
    fn usable_trigrams(&self, v: &Vec<Trigram>) -> (r: Vec<Trigram>)
        ensures
            r@ == self.usable(v@),
    {
        let mut out: Vec<Trigram> = Vec::new();
        let mut i: usize = 0;
        assert(out@ =~= self.usable(v@.take(0)));
        while i < v.len()
            invariant
                i <= v@.len(),
                out@ == self.usable(v@.take(i as int)),
            decreases v@.len() - i,
        {
            assert(v@.take(i + 1).drop_last() =~= v@.take(i as int));
            if !self.is_stop_gram(v[i]) {
                out.push(v[i]);
            }
            i += 1;
        }
        assert(v@.take(v@.len() as int) =~= v@);
        out
    }

    fn token_step(&self, token: &str, parts: &Vec<String>, v: &Vec<Trigram>) -> (r: RoaringBitmap)
        ensures
            docs(r) == self.token_or_trigram(token@, texts(parts@), v@),
    {
        assert(texts(parts@).len() == parts@.len());
        let mut out = self.get_token_docs(token);
        let usable = self.usable_trigrams(v);
        if usable.len() > 0 {
            let more = self.get_trigram_docs_all(&usable);
            unite_with(&mut out, &more);
            return out;
        }
        let around = self.get_token_docs_containing(token);
        unite_with(&mut out, &around);
        if parts.len() >= 2 {
            assert(texts(parts@)[0] == parts@[0]@);
            let mut all = self.get_token_docs(parts[0].as_str());
            let mut i: usize = 1;
            while i < parts.len()
                invariant
                    1 <= i <= parts@.len(),
                    texts(parts@).len() == parts@.len(),
                    docs(all) == self.docs_of_tokens(texts(parts@), i as nat),
                decreases parts@.len() - i,
            {
                assert(texts(parts@)[i as int] == parts@[i as int]@);
                let more = self.get_token_docs(parts[i].as_str());
                intersect_with(&mut all, &more);
                i += 1;
            }
            unite_with(&mut out, &all);
        }
        out
    }

    /// The documents of a set whose text a check finds something in.
    fn verify_excluded_docs(&self, s: &RoaringBitmap, check: &VerificationStep) -> (r:
        RoaringBitmap)
        requires
            self.wf(),
        ensures
            docs(r) == self.confirmed(docs(*s), check.model()),
    {
        let ids = list_of_set(s);
        let ghost c = check.model();
        let mut out = empty_set();
        let mut i: usize = 0;
        while i < ids.len()
            invariant
                i <= ids@.len(),
                self.wf(),
                c == check.model(),
                forall|d: u32| #[trigger]
                    docs(out).contains(d) <==> ids@.take(i as int).contains(d) && self.text(
                        d,
                    ) is Some && check_present(self.text(d)->0, c),
            decreases ids@.len() - i,
        {
            let d = ids[i];
            let ghost before = docs(out);
            let mut hit = false;
            if (d as usize) < self.documents.len() {
                match &self.documents[d as usize].content {
                    Some(content) => {
                        assert(self.documents@[d as int].content is Some);
                        hit = has_match(content.as_str(), check);
                    },
                    None => {},
                }
            }
            if hit {
                add_to_set(&mut out, d);
            }
            assert forall|x: u32| #[trigger] docs(out).contains(x) <==> ids@.take(i + 1).contains(x)
                && self.text(x) is Some && check_present(self.text(x)->0, c) by {
                let longer = ids@.take(i + 1);
                let shorter = ids@.take(i as int);
                assert(longer =~= shorter.push(d));
                assert(longer[i as int] == d);
                if shorter.contains(x) {
                    let q = choose|q: int| 0 <= q < shorter.len() && shorter[q] == x;
                    assert(longer[q] == x);
                }
                if longer.contains(x) && x != d {
                    let q = choose|q: int| 0 <= q < longer.len() && longer[q] == x;
                    assert(shorter[q] == x);
                }
                assert(before.contains(x) <==> shorter.contains(x) && self.text(x) is Some
                    && check_present(self.text(x)->0, c));
            }
            i += 1;
        }
        assert(ids@.take(ids@.len() as int) =~= ids@);
        assert(docs(out) =~= self.confirmed(docs(*s), c));
        out
    }

    fn execute_any(&self, plans: &Vec<QueryPlan>) -> (r: RoaringBitmap)
        requires
            self.wf(),
        ensures
            docs(r) == self.found_by_any(plan_models(plans@), plans@.len()),
        decreases plans, 0nat,
    {
        let mut out = empty_set();
        let mut i: usize = 0;
        while i < plans.len()
            invariant
                i <= plans@.len(),
                self.wf(),
                docs(out) == self.found_by_any(plan_models(plans@), i as nat),
            decreases plans@.len() - i,
        {
            assert(plan_models(plans@)[i as int] == plans@[i as int].model());
            let more = self.execute_plan(&plans[i]);
            unite_with(&mut out, &more);
            i += 1;
        }
        out
    }

    fn execute_all(&self, plans: &Vec<QueryPlan>) -> (r: RoaringBitmap)
        requires
            self.wf(),
            plans@.len() > 0,
        ensures
            docs(r) == self.found_by_all(plan_models(plans@), plans@.len()),
        decreases plans, 0nat,
    {
        assert(plan_models(plans@)[0] == plans@[0].model());
        let mut out = self.execute_plan(&plans[0]);
        let mut i: usize = 1;
        while i < plans.len()
            invariant
                1 <= i <= plans@.len(),
                self.wf(),
                docs(out) == self.found_by_all(plan_models(plans@), i as nat),
            decreases plans@.len() - i,
        {
            assert(plan_models(plans@)[i as int] == plans@[i as int].model());
            let more = self.execute_plan(&plans[i]);
            intersect_with(&mut out, &more);
            i += 1;
        }
        out
    }

    /// Once nothing is left, no later step brings anything back.
    proof fn lemma_nothing_left(&self, steps: Seq<StepModel>, n: nat, m: nat)
        requires
            n <= m <= steps.len(),
            self.narrowed(steps, n) == Some(Set::<u32>::empty()),
        ensures
            self.narrowed(steps, m) == Some(Set::<u32>::empty()),
        decreases m,
    {
        if n < m {
            self.lemma_nothing_left(steps, n, (m - 1) as nat);
            let after = self.narrowed(steps, m);
            assert(after is Some);
            assert(after->0 =~= Set::<u32>::empty());
        }
    }

    proof fn lemma_nothing_to_exclude(&self, steps: Seq<StepModel>, n: nat)
        ensures
            self.excluded(steps, n, Set::empty()) == Set::<u32>::empty(),
        decreases n,
    {
        if 0 < n <= steps.len() {
            self.lemma_nothing_to_exclude(steps, (n - 1) as nat);
            assert(self.excluded(steps, n, Set::empty()) =~= Set::<u32>::empty());
        }
    }

    /// The documents that a plan finds.
    pub fn execute_plan(&self, plan: &QueryPlan) -> (r: RoaringBitmap)
        requires
            self.wf(),
        ensures
            docs(r) == self.found(plan.model()),
        decreases plan, 1nat,
    {
        proof {
            lemma_plan_model(*plan);
        }
        let steps = &plan.steps;
        let ghost m = step_models(steps@);
        let mut candidates: Option<RoaringBitmap> = None;
        let mut i: usize = 0;
        while i < steps.len()
            invariant
                i <= steps@.len(),
                self.wf(),
                *steps == plan.steps,
                m == step_models(steps@),
                set_option(candidates) == self.narrowed(m, i as nat),
                plan.model().steps == m,
            decreases steps@.len() - i,
        {
            assert(m[i as int] == steps@[i as int].model());
            candidates = match &steps[i] {
                PlanStep::TrigramIntersect(v) => {
                    let usable = self.usable_trigrams(v);
                    if usable.len() == 0 {
                        candidates
                    } else {
                        narrow(candidates, self.get_trigram_docs_all(&usable))
                    }
                },
                PlanStep::TokenLookup(token) => narrow(
                    candidates,
                    self.get_token_docs(token.as_str()),
                ),
                PlanStep::TokenOrTrigram { token, sub_tokens, trigrams } => narrow(
                    candidates,
                    self.token_step(token.as_str(), sub_tokens, trigrams),
                ),
                PlanStep::Union(plans) => narrow(candidates, self.execute_any(plans)),
                PlanStep::Intersect(plans) => {
                    if plans.len() == 0 {
                        candidates
                    } else {
                        narrow(candidates, self.execute_all(plans))
                    }
                },
                PlanStep::Filter(f) => Some(self.apply_filter(f, candidates.as_ref())),
                PlanStep::Exclude(p) => candidates,
                PlanStep::PositionalPhrase(p) => candidates,
            };
            i += 1;
            assert(set_option(candidates) == self.narrowed(m, i as nat));
            let done = match &candidates {
                Some(c) => set_is_empty(c),
                None => false,
            };
            if done {
                proof {
                    self.lemma_nothing_left(m, i as nat, m.len());
                    self.lemma_nothing_to_exclude(m, m.len());
                }
                return candidates.unwrap();
            }
        }
        match candidates {
            None => self.valid_doc_ids(),
            Some(c) => self.leave_out_excluded(plan, c),
        }
    }

    /// What the exclusions of a plan leave of a set.
    pub fn leave_out_excluded(&self, plan: &QueryPlan, set: RoaringBitmap) -> (r: RoaringBitmap)
        requires
            self.wf(),
        ensures
            docs(r) == self.excluded(plan.model().steps, plan.model().steps.len(), docs(set)),
        decreases plan, 0nat,
    {
        proof {
            lemma_plan_model(*plan);
        }
        let steps = &plan.steps;
        let ghost m = step_models(steps@);
        let mut left = set;
        let ghost start = docs(left);
        let mut k: usize = 0;
        while k < steps.len()
            invariant
                k <= steps@.len(),
                self.wf(),
                *steps == plan.steps,
                m == step_models(steps@),
                docs(left) == self.excluded(m, k as nat, start),
            decreases steps@.len() - k,
        {
            assert(m[k as int] == steps@[k as int].model());
            match &steps[k] {
                PlanStep::Exclude(p) => {
                    let mut out = self.execute_plan(p);
                    match &p.verification {
                        Some(check) => {
                            intersect_with(&mut out, &left);
                            let sure = self.verify_excluded_docs(&out, check);
                            subtract_from(&mut left, &sure);
                        },
                        None => {
                            subtract_from(&mut left, &out);
                        },
                    }
                },
                _ => {},
            }
            k += 1;
        }
        left
    }
}

} // verus!
