//! What the steps of a regular expression promise: no document with a match is
//! left out.
use crate::query::plan::{PlanModel, StepModel, Trigram};
use crate::query::regex_plan::{
    byte_range_words, byte_words, choice_plans, choice_words, chunks, concat_words, holds_trigram,
    narrowing, pairs, place, powers, products, range_words, trigram_at, trigrams, unicode_words,
    union_steps, window_count, window_steps, window_words, with_trigram, word_plan, word_steps,
    words,
};
use crate::query::shape::ShapeModel;
use vstd::prelude::*;
use vstd::utf8::{encode_scalar, is_scalar};

verus! {

/// Whether a code point of one of the ranges is encoded as `t`.
pub open spec fn in_unicode_ranges(r: Seq<(u32, u32)>, t: Seq<u8>) -> bool {
    exists|i: int, v: u32|
        0 <= i < r.len() && (#[trigger] r[i]).0 <= v <= r[i].1 && is_scalar(v) && t
            == #[trigger] encode_scalar(v)
}

/// Whether `t` is one byte of one of the ranges.
pub open spec fn in_byte_ranges(r: Seq<(u8, u8)>, t: Seq<u8>) -> bool {
    t.len() == 1 && exists|i: int| 0 <= i < r.len() && (#[trigger] r[i]).0 <= t[0] <= r[i].1
}

/// Whether a place cuts a text in two.
pub open spec fn cuts(t: Seq<u8>, k: int) -> bool {
    0 <= k <= t.len()
}

/// Whether a number of repetitions is allowed.
pub open spec fn allowed(n: nat, min: u32, max: Option<u32>) -> bool {
    min <= n && (max is Some ==> n <= max->0)
}

/// Whether a tree matches exactly `t`, where assertions about the place are
/// taken to hold.
pub open spec fn accepts(s: ShapeModel, t: Seq<u8>) -> bool
    decreases s, 0nat,
{
    match s {
        ShapeModel::Empty => t.len() == 0,
        ShapeModel::Look => t.len() == 0,
        ShapeModel::Literal(l) => t == l,
        ShapeModel::Unicode(r) => in_unicode_ranges(r, t),
        ShapeModel::Bytes(r) => in_byte_ranges(r, t),
        ShapeModel::Capture(x) => accepts(*x, t),
        ShapeModel::Concat(parts) => accepts_row(parts, parts.len(), t),
        ShapeModel::Alternation(parts) => accepts_choice(parts, parts.len(), t),
        ShapeModel::Repetition { min, max, sub } => exists|n: nat|
            #[trigger] allowed(n, min, max) && accepts_times(*sub, n, t),
    }
}

/// Whether the first `n` parts, one after the other, match exactly `t`.
pub open spec fn accepts_row(parts: Seq<ShapeModel>, n: nat, t: Seq<u8>) -> bool
    decreases parts, n,
{
    if n == 0 || n > parts.len() {
        t.len() == 0
    } else {
        exists|k: int|
            #[trigger] cuts(t, k) && accepts_row(parts, (n - 1) as nat, t.take(k))
                && accepts(parts[n - 1], t.skip(k))
    }
}

/// Whether one of the first `n` parts matches exactly `t`.
pub open spec fn accepts_choice(parts: Seq<ShapeModel>, n: nat, t: Seq<u8>) -> bool
    decreases parts, n,
{
    0 < n <= parts.len() && (accepts_choice(parts, (n - 1) as nat, t) || accepts(parts[n - 1], t))
}

/// Whether `n` repetitions match exactly `t`.
pub open spec fn accepts_times(sub: ShapeModel, n: nat, t: Seq<u8>) -> bool
    decreases sub, n,
{
    if n == 0 {
        t.len() == 0
    } else {
        exists|k: int|
            #[trigger] cuts(t, k) && accepts_times(sub, (n - 1) as nat, t.take(k))
                && accepts(sub, t.skip(k))
    }
}

/// A word is among the concatenations exactly if it is one.
proof fn lemma_pairs(left: Seq<Seq<u8>>, right: Seq<Seq<u8>>, t: Seq<u8>)
    ensures
        pairs(left, right).contains(t) <==> exists|i: int, j: int|
            0 <= i < left.len() && 0 <= j < right.len() && t == #[trigger] left[i]
                + #[trigger] right[j],
    decreases left.len(),
{
    if left.len() > 0 {
        let front = left.drop_last();
        let row = right.map_values(|b: Seq<u8>| left.last() + b);
        lemma_pairs(front, right, t);
        let all = pairs(left, right);
        if all.contains(t) {
            let k = choose|k: int| 0 <= k < all.len() && all[k] == t;
            let m = pairs(front, right).len();
            if k < m {
                assert(pairs(front, right)[k] == t);
                let (i, j) = choose|i: int, j: int|
                    0 <= i < front.len() && 0 <= j < right.len() && t == #[trigger] front[i]
                        + #[trigger] right[j];
                assert(left[i] == front[i]);
                assert(t == left[i] + right[j]);
            } else {
                assert(row[k - m] == t);
                assert(t == left[left.len() - 1] + right[k - m]);
            }
        }
        if exists|i: int, j: int|
            0 <= i < left.len() && 0 <= j < right.len() && t == #[trigger] left[i]
                + #[trigger] right[j] {
            let (i, j) = choose|i: int, j: int|
                0 <= i < left.len() && 0 <= j < right.len() && t == #[trigger] left[i]
                    + #[trigger] right[j];
            if i < front.len() {
                assert(front[i] == left[i]);
                assert(pairs(front, right).contains(t));
                let k = choose|k: int|
                    0 <= k < pairs(front, right).len() && pairs(front, right)[k] == t;
                assert(all[k] == t);
            } else {
                assert(row[j] == t);
                assert(all[pairs(front, right).len() + j] == t);
            }
        }
    }
}

/// A concatenation of a word of each list is in the product.
proof fn lemma_product_contains(left: Seq<Seq<u8>>, right: Seq<Seq<u8>>, a: Seq<u8>, b: Seq<u8>)
    requires
        left.contains(a),
        right.contains(b),
    ensures
        pairs(left, right).contains(a + b),
{
    lemma_pairs(left, right, a + b);
    let i = choose|i: int| 0 <= i < left.len() && left[i] == a;
    let j = choose|j: int| 0 <= j < right.len() && right[j] == b;
    assert(a + b == left[i] + right[j]);
}

/// A word of the product splits into a word of each list.
proof fn lemma_product_splits(left: Seq<Seq<u8>>, right: Seq<Seq<u8>>, t: Seq<u8>) -> (k: int)
    requires
        pairs(left, right).contains(t),
    ensures
        0 <= k <= t.len(),
        left.contains(t.take(k)),
        right.contains(t.skip(k)),
{
    lemma_pairs(left, right, t);
    let (i, j) = choose|i: int, j: int|
        0 <= i < left.len() && 0 <= j < right.len() && t == #[trigger] left[i]
            + #[trigger] right[j];
    let k = left[i].len() as int;
    assert(t.take(k) =~= left[i]);
    assert(t.skip(k) =~= right[j]);
    k
}

proof fn lemma_range_words(a: int, b: int, t: Seq<u8>)
    requires
        0 <= a,
        b <= u32::MAX,
    ensures
        range_words(a, b).contains(t) <==> exists|v: u32|
            a <= v <= b && is_scalar(v) && t == #[trigger] encode_scalar(v),
    decreases b - a + 1,
{
    if a <= b {
        lemma_range_words(a, b - 1, t);
        let front = range_words(a, b - 1);
        let all = range_words(a, b);
        if all.contains(t) {
            let k = choose|k: int| 0 <= k < all.len() && all[k] == t;
            if k < front.len() {
                assert(front[k] == t);
            } else {
                assert(t == encode_scalar(b as u32));
            }
        }
        if exists|v: u32| a <= v <= b && is_scalar(v) && t == #[trigger] encode_scalar(v) {
            let v = choose|v: u32| a <= v <= b && is_scalar(v) && t == #[trigger] encode_scalar(v);
            if v == b {
                assert(all[front.len() as int] == t);
            } else {
                assert(front.contains(t));
                let k = choose|k: int| 0 <= k < front.len() && front[k] == t;
                assert(all[k] == t);
            }
        }
    }
}

/// A concatenation of lists contains what one of them contains.
proof fn lemma_contains_sum(a: Seq<Seq<u8>>, b: Seq<Seq<u8>>, t: Seq<u8>)
    ensures
        (a + b).contains(t) <==> a.contains(t) || b.contains(t),
{
    if a.contains(t) {
        let k = choose|k: int| 0 <= k < a.len() && a[k] == t;
        assert((a + b)[k] == t);
    }
    if b.contains(t) {
        let k = choose|k: int| 0 <= k < b.len() && b[k] == t;
        assert((a + b)[a.len() + k] == t);
    }
    if (a + b).contains(t) {
        let k = choose|k: int| 0 <= k < (a + b).len() && (a + b)[k] == t;
        if k < a.len() {
            assert(a[k] == t);
        } else {
            assert(b[k - a.len()] == t);
        }
    }
}

proof fn lemma_unicode_words(r: Seq<(u32, u32)>, n: nat, t: Seq<u8>)
    requires
        n <= r.len(),
        unicode_words(r, n) is Some,
    ensures
        unicode_words(r, n)->0.contains(t) <==> in_unicode_ranges(r.take(n as int), t),
    decreases n,
{
    if n > 0 {
        let m = (n - 1) as nat;
        lemma_unicode_words(r, m, t);
        let w = unicode_words(r, m)->0;
        let (a, b) = r[n - 1];
        lemma_range_words(a as int, b as int, t);
        lemma_contains_sum(w, range_words(a as int, b as int), t);
        let long = r.take(n as int);
        let short = r.take(m as int);
        if in_unicode_ranges(short, t) {
            let (i, v) = choose|i: int, v: u32|
                0 <= i < short.len() && (#[trigger] short[i]).0 <= v <= short[i].1 && is_scalar(v)
                    && t == #[trigger] encode_scalar(v);
            assert(long[i] == short[i]);
            assert(in_unicode_ranges(long, t));
        }
        if range_words(a as int, b as int).contains(t) {
            let v = choose|v: u32| a <= v <= b && is_scalar(v) && t == #[trigger] encode_scalar(v);
            assert(long[n - 1].0 <= v <= long[n - 1].1);
        }
        if in_unicode_ranges(long, t) {
            let (i, v) = choose|i: int, v: u32|
                0 <= i < long.len() && (#[trigger] long[i]).0 <= v <= long[i].1 && is_scalar(v) && t
                    == #[trigger] encode_scalar(v);
            if i < m {
                assert(short[i].0 <= v <= short[i].1);
            } else {
                assert(a <= v <= b);
            }
        }
    }
}

proof fn lemma_byte_range_words(a: int, b: int, t: Seq<u8>)
    requires
        0 <= a,
        b <= 255,
    ensures
        byte_range_words(a, b).contains(t) <==> t.len() == 1 && a <= t[0] <= b,
    decreases b - a + 1,
{
    if a <= b {
        lemma_byte_range_words(a, b - 1, t);
        let front = byte_range_words(a, b - 1);
        let all = byte_range_words(a, b);
        if all.contains(t) {
            let k = choose|k: int| 0 <= k < all.len() && all[k] == t;
            if k < front.len() {
                assert(front[k] == t);
            }
        }
        if t.len() == 1 && a <= t[0] <= b {
            if t[0] == b {
                assert(t =~= seq![b as u8]);
                assert(all[front.len() as int] == t);
            } else {
                let k = choose|k: int| 0 <= k < front.len() && front[k] == t;
                assert(all[k] == t);
            }
        }
    }
}

proof fn lemma_byte_words(r: Seq<(u8, u8)>, n: nat, t: Seq<u8>)
    requires
        n <= r.len(),
        byte_words(r, n) is Some,
    ensures
        byte_words(r, n)->0.contains(t) <==> in_byte_ranges(r.take(n as int), t),
    decreases n,
{
    if n > 0 {
        let m = (n - 1) as nat;
        lemma_byte_words(r, m, t);
        let w = byte_words(r, m)->0;
        let (a, b) = r[n - 1];
        lemma_byte_range_words(a as int, b as int, t);
        lemma_contains_sum(w, byte_range_words(a as int, b as int), t);
        let long = r.take(n as int);
        let short = r.take(m as int);
        if in_byte_ranges(short, t) {
            let i = choose|i: int|
                0 <= i < short.len() && (#[trigger] short[i]).0 <= t[0] <= short[i].1;
            assert(long[i].0 <= t[0] <= long[i].1);
        }
        if t.len() == 1 && a <= t[0] <= b {
            assert(long[n - 1].0 <= t[0] <= long[n - 1].1);
        }
        if in_byte_ranges(long, t) {
            let i = choose|i: int|
                0 <= i < long.len() && (#[trigger] long[i]).0 <= t[0] <= long[i].1;
            if i < m {
                assert(short[i].0 <= t[0] <= short[i].1);
            }
        }
    }
}

/// The enumeration of a tree's words is complete and exact: a text is among
/// the words exactly if the tree matches it.
pub proof fn words_are_the_language(s: ShapeModel, t: Seq<u8>)
    requires
        words(s) is Some,
    ensures
        words(s)->0.contains(t) <==> accepts(s, t),
    decreases s, 0nat,
{
    let w = words(s)->0;
    match s {
        ShapeModel::Empty | ShapeModel::Look => {
            if t.len() == 0 {
                assert(t =~= Seq::<u8>::empty());
                assert(w[0] == t);
            }
        },
        ShapeModel::Literal(l) => {
            assert(w[0] == l);
        },
        ShapeModel::Unicode(r) => {
            lemma_unicode_words(r, r.len(), t);
            assert(r.take(r.len() as int) =~= r);
        },
        ShapeModel::Bytes(r) => {
            lemma_byte_words(r, r.len(), t);
            assert(r.take(r.len() as int) =~= r);
        },
        ShapeModel::Capture(x) => {
            words_are_the_language(*x, t);
        },
        ShapeModel::Concat(parts) => {
            concat_words_are_the_language(parts, parts.len(), t);
        },
        ShapeModel::Alternation(parts) => {
            choice_words_are_the_language(parts, parts.len(), t);
        },
        ShapeModel::Repetition { min, max, sub } => {
            powers_are_the_language(*sub, min as nat, t);
            if w.contains(t) {
                assert(allowed(min as nat, min, max));
            }
            if accepts(s, t) {
                let n = choose|n: nat|
                    #[trigger] allowed(n, min, max) && accepts_times(*sub, n, t);
                assert(n == min);
            }
        },
    }
}

/// The same of the first `n` parts of a sequence.
pub proof fn concat_words_are_the_language(parts: Seq<ShapeModel>, n: nat, t: Seq<u8>)
    requires
        n <= parts.len(),
        concat_words(parts, n) is Some,
    ensures
        concat_words(parts, n)->0.contains(t) <==> accepts_row(parts, n, t),
    decreases parts, n,
{
    let w = concat_words(parts, n)->0;
    if n == 0 {
        if t.len() == 0 {
            assert(t =~= Seq::<u8>::empty());
            assert(w[0] == t);
        }
    } else {
        let m = (n - 1) as nat;
        let a = concat_words(parts, m)->0;
        let b = words(parts[n - 1])->0;
        if w.contains(t) {
            let k = lemma_product_splits(a, b, t);
            concat_words_are_the_language(parts, m, t.take(k));
            words_are_the_language(parts[n - 1], t.skip(k));
            assert(cuts(t, k));
        }
        if accepts_row(parts, n, t) {
            let k = choose|k: int|
                #[trigger] cuts(t, k) && accepts_row(parts, m, t.take(k)) && accepts(
                    parts[n - 1],
                    t.skip(k),
                );
            concat_words_are_the_language(parts, m, t.take(k));
            words_are_the_language(parts[n - 1], t.skip(k));
            lemma_product_contains(a, b, t.take(k), t.skip(k));
            assert(t.take(k) + t.skip(k) =~= t);
        }
    }
}

proof fn choice_words_are_the_language(parts: Seq<ShapeModel>, n: nat, t: Seq<u8>)
    requires
        n <= parts.len(),
        choice_words(parts, n) is Some,
    ensures
        choice_words(parts, n)->0.contains(t) <==> accepts_choice(parts, n, t),
    decreases parts, n,
{
    if n > 0 {
        let m = (n - 1) as nat;
        choice_words_are_the_language(parts, m, t);
        words_are_the_language(parts[n - 1], t);
        lemma_contains_sum(choice_words(parts, m)->0, words(parts[n - 1])->0, t);
    }
}

proof fn powers_are_the_language(sub: ShapeModel, n: nat, t: Seq<u8>)
    requires
        words(sub) is Some,
        powers(words(sub)->0, n) is Some,
    ensures
        powers(words(sub)->0, n)->0.contains(t) <==> accepts_times(sub, n, t),
    decreases sub, n,
{
    let w = powers(words(sub)->0, n)->0;
    if n == 0 {
        if t.len() == 0 {
            assert(t =~= Seq::<u8>::empty());
            assert(w[0] == t);
        }
    } else {
        let m = (n - 1) as nat;
        let a = powers(words(sub)->0, m)->0;
        let b = words(sub)->0;
        if w.contains(t) {
            let k = lemma_product_splits(a, b, t);
            powers_are_the_language(sub, m, t.take(k));
            words_are_the_language(sub, t.skip(k));
            assert(cuts(t, k));
        }
        if accepts_times(sub, n, t) {
            let k = choose|k: int|
                #[trigger] cuts(t, k) && accepts_times(sub, m, t.take(k)) && accepts(
                    sub,
                    t.skip(k),
                );
            powers_are_the_language(sub, m, t.take(k));
            words_are_the_language(sub, t.skip(k));
            lemma_product_contains(a, b, t.take(k), t.skip(k));
            assert(t.take(k) + t.skip(k) =~= t);
        }
    }
}

proof fn lemma_place_bound(v: Seq<Trigram>, x: Trigram)
    ensures
        place(v, x) <= v.len(),
    decreases v.len(),
{
    if v.len() > 0 && v[0] < x {
        lemma_place_bound(v.drop_first(), x);
    }
}

proof fn lemma_with_trigram(v: Seq<Trigram>, x: Trigram, y: Trigram)
    ensures
        with_trigram(v, x).contains(y) <==> v.contains(y) || y == x,
{
    lemma_place_bound(v, x);
    let k = place(v, x) as int;
    let w = with_trigram(v, x);
    if k < v.len() && v[k] == x {
    } else {
        assert(w[k] == x);
        if v.contains(y) {
            let i = choose|i: int| 0 <= i < v.len() && v[i] == y;
            if i < k {
                assert(w[i] == y);
            } else {
                assert(w[i + 1] == y);
            }
        }
        if w.contains(y) && y != x {
            let i = choose|i: int| 0 <= i < w.len() && w[i] == y;
            if i < k {
                assert(v[i] == y);
            } else {
                assert(v[i - 1] == y);
            }
        }
    }
}

/// The list of a text's trigrams holds exactly those that occur in it.
pub proof fn trigrams_are_those_held(s: Seq<u8>, x: Trigram)
    ensures
        trigrams(s).contains(x) <==> holds_trigram(s, x),
    decreases s.len(),
{
    if s.len() >= 3 {
        let front = s.drop_last();
        trigrams_are_those_held(front, x);
        lemma_with_trigram(trigrams(front), trigram_at(s, s.len() - 3), x);
        if holds_trigram(front, x) {
            let i = choose|i: int| 0 <= i && i + 2 < front.len() && #[trigger] trigram_at(front, i) == x;
            assert(trigram_at(s, i) == x);
        }
        if holds_trigram(s, x) {
            let i = choose|i: int| 0 <= i && i + 2 < s.len() && #[trigger] trigram_at(s, i) == x;
            if i + 2 < front.len() {
                assert(trigram_at(front, i) == x);
            }
        }
    }
}

/// Whether a text meets a step that asks for trigrams.
pub open spec fn admits(step: StepModel, text: Seq<u8>) -> bool
    decreases step, 0nat,
{
    match step {
        StepModel::TrigramIntersect(v) => forall|k: int|
            0 <= k < v.len() ==> holds_trigram(text, #[trigger] v[k]),
        StepModel::Union(plans) => admits_one(plans, plans.len(), text),
        _ => true,
    }
}

/// Whether a text meets the first `n` steps.
pub open spec fn admits_first(steps: Seq<StepModel>, n: nat, text: Seq<u8>) -> bool
    decreases steps, n,
{
    n == 0 || n > steps.len() || (admits_first(steps, (n - 1) as nat, text) && admits(
        steps[n - 1],
        text,
    ))
}

/// Whether a text meets all steps of one of the first `n` plans.
pub open spec fn admits_one(plans: Seq<PlanModel>, n: nat, text: Seq<u8>) -> bool
    decreases plans, n,
{
    0 < n <= plans.len() && (admits_one(plans, (n - 1) as nat, text) || admits_first(
        plans[n - 1].steps,
        plans[n - 1].steps.len(),
        text,
    ))
}

/// Whether a text meets all steps.
pub open spec fn meets(steps: Seq<StepModel>, text: Seq<u8>) -> bool {
    admits_first(steps, steps.len(), text)
}

proof fn lemma_meets_sum_first(a: Seq<StepModel>, b: Seq<StepModel>, n: nat, text: Seq<u8>)
    requires
        n <= a.len() + b.len(),
    ensures
        admits_first(a + b, n, text) <==> if n <= a.len() {
            admits_first(a, n, text)
        } else {
            admits_first(a, a.len(), text) && admits_first(b, (n - a.len()) as nat, text)
        },
    decreases n,
{
    reveal_with_fuel(admits_first, 2);
    if n > 0 {
        lemma_meets_sum_first(a, b, (n - 1) as nat, text);
        if n <= a.len() {
            assert((a + b)[n - 1] == a[n - 1]);
        } else {
            assert((a + b)[n - 1] == b[n - 1 - a.len()]);
        }
    }
}

/// A text meets two lists of steps together exactly if it meets each.
pub proof fn lemma_meets_sum(a: Seq<StepModel>, b: Seq<StepModel>, text: Seq<u8>)
    ensures
        meets(a + b, text) <==> meets(a, text) && meets(b, text),
{
    lemma_meets_sum_first(a, b, (a + b).len(), text);
    if b.len() == 0 {
        assert(a + b =~= a);
    }
}

proof fn lemma_admits_one(plans: Seq<PlanModel>, n: nat, k: int, text: Seq<u8>)
    requires
        0 <= k < n <= plans.len(),
        meets(plans[k].steps, text),
    ensures
        admits_one(plans, n, text),
    decreases n,
{
    if k < n - 1 {
        lemma_admits_one(plans, (n - 1) as nat, k, text);
    }
}

/// A text that meets one of the plans meets their union.
proof fn lemma_union_steps(plans: Seq<PlanModel>, k: int, text: Seq<u8>)
    requires
        0 <= k < plans.len(),
        meets(plans[k].steps, text),
    ensures
        meets(union_steps(plans), text),
{
    let steps = union_steps(plans);
    if steps.len() == 0 {
    } else if plans.len() == 1 {
    } else {
        lemma_admits_one(plans, plans.len(), k, text);
        assert(steps =~= seq![StepModel::Union(plans)]);
        assert(admits(steps[0], text));
        reveal_with_fuel(admits_first, 2);
    }
}

/// A text around one of the words meets the steps that ask for the words.
proof fn lemma_word_steps(strings: Seq<Seq<u8>>, text: Seq<u8>, i: int, j: int)
    requires
        0 <= i <= j <= text.len(),
        strings.contains(text.subrange(i, j)),
    ensures
        meets(word_steps(strings), text),
{
    let t = text.subrange(i, j);
    let k = choose|k: int| 0 <= k < strings.len() && strings[k] == t;
    if exists|m: int| 0 <= m < strings.len() && (#[trigger] strings[m]).len() < 3 {
    } else {
        let plans = strings.map_values(|s: Seq<u8>| word_plan(s));
        assert(plans[k] == word_plan(t));
        let v = trigrams(t);
        assert forall|m: int| 0 <= m < v.len() implies holds_trigram(text, #[trigger] v[m]) by {
            assert(v.contains(v[m]));
            trigrams_are_those_held(t, v[m]);
            let p = choose|p: int| 0 <= p && p + 2 < t.len() && #[trigger] trigram_at(t, p) == v[m];
            assert(trigram_at(text, i + p) == v[m]);
        }
        let steps = plans[k].steps;
        assert(steps =~= seq![StepModel::TrigramIntersect(v)]);
        assert(admits(steps[0], text));
        assert(meets(steps, text)) by {
            reveal_with_fuel(admits_first, 2);
        }
        lemma_union_steps(plans, k, text);
    }
}

proof fn lemma_choice_plans(parts: Seq<ShapeModel>, n: nat, k: int)
    requires
        0 <= k < n <= parts.len(),
    ensures
        choice_plans(parts, n).len() == n,
        choice_plans(parts, n)[k].steps == narrowing(parts[k]),
    decreases n,
{
    reveal_with_fuel(choice_plans, 2);
    if n > 1 {
        lemma_choice_plans(parts, (n - 1) as nat, if k < n - 1 {
            k
        } else {
            0
        });
    }
}

/// A choice that matches has a part that matches.
proof fn lemma_choice_part(parts: Seq<ShapeModel>, n: nat, t: Seq<u8>) -> (k: int)
    requires
        accepts_choice(parts, n, t),
    ensures
        0 <= k < n <= parts.len(),
        accepts(parts[k], t),
    decreases n,
{
    if accepts(parts[n - 1], t) {
        n - 1
    } else {
        lemma_choice_part(parts, (n - 1) as nat, t)
    }
}

/// Any three neighbouring parts of a sequence that matches match a piece of
/// the text.
proof fn lemma_window(parts: Seq<ShapeModel>, n: nat, w: int, t: Seq<u8>) -> (r: (int, int))
    requires
        0 <= w,
        w + 3 <= n <= parts.len(),
        accepts_row(parts, n, t),
    ensures
        0 <= r.0 <= r.1 <= t.len(),
        accepts_row(parts.subrange(w, w + 3), 3, t.subrange(r.0, r.1)),
    decreases n,
{
    let m = (n - 1) as nat;
    let k = choose|k: int|
        #[trigger] cuts(t, k) && accepts_row(parts, m, t.take(k)) && accepts(
            parts[n - 1],
            t.skip(k),
        );
    if w + 3 < n {
        let (a, b) = lemma_window(parts, m, w, t.take(k));
        assert(t.take(k).subrange(a, b) =~= t.subrange(a, b));
        (a, b)
    } else {
        let win = parts.subrange(w, w + 3);
        let t2 = t.take(k);
        let k2 = choose|k: int|
            #[trigger] cuts(t2, k) && accepts_row(parts, (n - 2) as nat, t2.take(k)) && accepts(
                parts[n - 2],
                t2.skip(k),
            );
        let t1 = t2.take(k2);
        let k1 = choose|k: int|
            #[trigger] cuts(t1, k) && accepts_row(parts, (n - 3) as nat, t1.take(k)) && accepts(
                parts[n - 3],
                t1.skip(k),
            );
        let u = t.subrange(k1, t.len() as int);
        assert(win[0] == parts[n - 3] && win[1] == parts[n - 2] && win[2] == parts[n - 1]);
        let u2 = u.take(k - k1);
        let u1 = u2.take(k2 - k1);
        assert(u1 =~= t1.skip(k1));
        assert(u2.skip(k2 - k1) =~= t2.skip(k2));
        assert(u.skip(k - k1) =~= t.skip(k));
        assert(u1.take(0) =~= Seq::<u8>::empty());
        assert(u1.skip(0) =~= u1);
        assert(accepts_row(win, 0, u1.take(0)));
        assert(cuts(u1, 0) && accepts(win[0], u1.skip(0)));
        assert(accepts_row(win, 1, u1));
        assert(cuts(u2, k2 - k1) && accepts(win[1], u2.skip(k2 - k1)));
        assert(accepts_row(win, 2, u2));
        assert(cuts(u, k - k1) && accepts(win[2], u.skip(k - k1)));
        assert(accepts_row(win, 3, u));
        (k1, t.len() as int)
    }
}

proof fn lemma_window_steps(parts: Seq<ShapeModel>, n: nat, text: Seq<u8>, i: int, j: int)
    requires
        0 <= i <= j <= text.len(),
        n + 2 <= parts.len() || n == 0,
        accepts_row(parts, parts.len(), text.subrange(i, j)),
    ensures
        meets(window_steps(parts, n), text),
    decreases n,
{
    if n > 0 {
        lemma_window_steps(parts, (n - 1) as nat, text, i, j);
        match window_words(parts, n - 1) {
            Some(w) => {
                let t = text.subrange(i, j);
                let (a, b) = lemma_window(parts, parts.len(), n - 1, t);
                concat_words_are_the_language(
                    parts.subrange(n - 1, (n + 2) as int),
                    3,
                    t.subrange(a, b),
                );
                assert(t.subrange(a, b) =~= text.subrange(i + a, i + b));
                lemma_word_steps(w, text, i + a, i + b);
                lemma_meets_sum(window_steps(parts, (n - 1) as nat), word_steps(w), text);
            },
            None => {},
        }
    }
}

/// The steps of the first parts are met, and the words still pending hold the
/// end of what those parts match.
proof fn lemma_chunks(parts: Seq<ShapeModel>, n: nat, text: Seq<u8>, i: int, j: int) -> (k: int)
    requires
        n <= parts.len(),
        0 <= i <= j <= text.len(),
        accepts_row(parts, n, text.subrange(i, j)),
    ensures
        i <= k <= j,
        meets(chunks(parts, n).0, text),
        chunks(parts, n).1.contains(text.subrange(k, j)),
    decreases parts, n,
{
    let t = text.subrange(i, j);
    if n == 0 {
        assert(chunks(parts, n).1[0] =~= text.subrange(i, j));
        i
    } else {
        let m = (n - 1) as nat;
        let c = choose|c: int|
            #[trigger] cuts(t, c) && accepts_row(parts, m, t.take(c)) && accepts(
                parts[n - 1],
                t.skip(c),
            );
        let mid = i + c;
        assert(t.take(c) =~= text.subrange(i, mid));
        assert(t.skip(c) =~= text.subrange(mid, j));
        let k = lemma_chunks(parts, m, text, i, mid);
        let (steps, pending) = chunks(parts, m);
        match words(parts[n - 1]) {
            Some(w) => {
                words_are_the_language(parts[n - 1], text.subrange(mid, j));
                match products(pending, w) {
                    Some(combined) => {
                        lemma_product_contains(
                            pending,
                            w,
                            text.subrange(k, mid),
                            text.subrange(mid, j),
                        );
                        assert(text.subrange(k, mid) + text.subrange(mid, j) =~= text.subrange(
                            k,
                            j,
                        ));
                        k
                    },
                    None => {
                        lemma_word_steps(pending, text, k, mid);
                        lemma_meets_sum(steps, word_steps(pending), text);
                        mid
                    },
                }
            },
            None => {
                lemma_word_steps(pending, text, k, mid);
                lemma_meets_sum(steps, word_steps(pending), text);
                narrowing_keeps_matches(parts[n - 1], text, mid, j);
                lemma_meets_sum(steps + word_steps(pending), narrowing(parts[n - 1]), text);
                assert(chunks(parts, n).1[0] =~= text.subrange(j, j));
                j
            },
        }
    }
}

/// A repetition of at least one copy that matches ends in a copy that matches.
proof fn lemma_last_copy(sub: ShapeModel, n: nat, t: Seq<u8>) -> (k: int)
    requires
        n > 0,
        accepts_times(sub, n, t),
    ensures
        0 <= k <= t.len(),
        accepts(sub, t.skip(k)),
{
    choose|k: int|
        #[trigger] cuts(t, k) && accepts_times(sub, (n - 1) as nat, t.take(k)) && accepts(
            sub,
            t.skip(k),
        )
}

/// No match is lost: a text in which a tree matches some piece meets every
/// step that the tree is narrowed by.
pub proof fn narrowing_keeps_matches(s: ShapeModel, text: Seq<u8>, i: int, j: int)
    requires
        0 <= i <= j <= text.len(),
        accepts(s, text.subrange(i, j)),
    ensures
        meets(narrowing(s), text),
    decreases s, 0nat,
{
    let t = text.subrange(i, j);
    match words(s) {
        Some(w) => {
            words_are_the_language(s, t);
            lemma_word_steps(w, text, i, j);
        },
        None => match s {
            ShapeModel::Literal(l) => {
                assert(seq![l][0] == t);
                lemma_word_steps(seq![l], text, i, j);
            },
            ShapeModel::Capture(x) => {
                narrowing_keeps_matches(*x, text, i, j);
            },
            ShapeModel::Repetition { min, max, sub } => {
                if min > 0 {
                    let n = choose|n: nat|
                        #[trigger] allowed(n, min, max) && accepts_times(*sub, n, t);
                    let k = lemma_last_copy(*sub, n, t);
                    assert(t.skip(k) =~= text.subrange(i + k, j));
                    narrowing_keeps_matches(*sub, text, i + k, j);
                }
            },
            ShapeModel::Alternation(parts) => {
                let k = lemma_choice_part(parts, parts.len(), t);
                narrowing_keeps_matches(parts[k], text, i, j);
                lemma_choice_plans(parts, parts.len(), k);
                lemma_union_steps(choice_plans(parts, parts.len()), k, text);
            },
            ShapeModel::Concat(parts) => {
                let k = lemma_chunks(parts, parts.len(), text, i, j);
                let (steps, pending) = chunks(parts, parts.len());
                lemma_word_steps(pending, text, k, j);
                lemma_meets_sum(steps, word_steps(pending), text);
                let windows = window_steps(parts, window_count(parts.len()));
                lemma_window_steps(parts, window_count(parts.len()), text, i, j);
                lemma_meets_sum(steps + word_steps(pending), windows, text);
            },
            _ => {},
        },
    }
}

} // verus!
