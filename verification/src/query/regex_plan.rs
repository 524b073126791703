//! Trigrams that every match of a regular expression must contain.
//!
//! The plan of a pattern never excludes a document with a match. No steps mean
//! every document. The enumeration of alternatives is bounded: beyond the
//! bound a plan loses selectivity, never matches.
use crate::query::plan::{
    lemma_plan_model, lemma_union_model, nested_plans, plan_models, step_models, PlanModel,
    PlanStep, QueryPlan, StepModel, Trigram,
};
use crate::query::shape::{
    fits, nested_shapes, pattern_shape, shape_of, shapes, shortest_match, shortest_match_of, Shape,
    ShapeModel,
};
use vstd::prelude::*;
use vstd::utf8::{encode_scalar, encode_utf8, is_scalar};

verus! {

broadcast use {nested_shapes, nested_plans};

/// Most alternatives that are enumerated.
pub const MAX_ALTERNATIVES: usize = 16;

/// Most bytes of one alternative.
pub const MAX_LITERAL_BYTES: usize = 256;

/// `char::from_u32` gives the character of a Unicode scalar value, and nothing
/// for other numbers.
pub assume_specification[ char::from_u32 ](v: u32) -> (r: Option<char>)
    ensures
        r is Some <==> is_scalar(v),
        r is Some ==> r->0 as u32 == v,
;

/// All concatenations of a word of `left` with a word of `right`.
pub open spec fn pairs(left: Seq<Seq<u8>>, right: Seq<Seq<u8>>) -> Seq<Seq<u8>>
    decreases left.len(),
{
    if left.len() == 0 {
        Seq::empty()
    } else {
        pairs(left.drop_last(), right) + right.map_values(|b: Seq<u8>| left.last() + b)
    }
}

/// Whether some concatenation is longer than allowed.
pub open spec fn some_pair_too_long(left: Seq<Seq<u8>>, right: Seq<Seq<u8>>) -> bool {
    exists|i: int, j: int|
        0 <= i < left.len() && 0 <= j < right.len() && (#[trigger] left[i]).len() + (
        #[trigger] right[j]).len() > MAX_LITERAL_BYTES
}

/// All concatenations, where neither their number nor a length is beyond the
/// bounds.
pub open spec fn products(left: Seq<Seq<u8>>, right: Seq<Seq<u8>>) -> Option<Seq<Seq<u8>>> {
    if left.len() * right.len() > MAX_ALTERNATIVES || some_pair_too_long(left, right) {
        None
    } else {
        Some(pairs(left, right))
    }
}

/// The encodings of the scalar values from `a` to `b`.
pub open spec fn range_words(a: int, b: int) -> Seq<Seq<u8>>
    decreases b - a + 1,
{
    if b < a {
        Seq::empty()
    } else if is_scalar(b as u32) {
        range_words(a, b - 1).push(encode_scalar(b as u32))
    } else {
        range_words(a, b - 1)
    }
}

/// The words of the first `n` ranges of code points.
pub open spec fn unicode_words(ranges: Seq<(u32, u32)>, n: nat) -> Option<Seq<Seq<u8>>>
    decreases n,
{
    if n == 0 || n > ranges.len() {
        Some(Seq::empty())
    } else {
        let (a, b) = ranges[n - 1];
        match unicode_words(ranges, (n - 1) as nat) {
            None => None,
            Some(w) => if b - a + 1 > MAX_ALTERNATIVES - w.len() {
                None
            } else {
                Some(w + range_words(a as int, b as int))
            },
        }
    }
}

/// The single bytes from `a` to `b`.
pub open spec fn byte_range_words(a: int, b: int) -> Seq<Seq<u8>>
    decreases b - a + 1,
{
    if b < a {
        Seq::empty()
    } else {
        byte_range_words(a, b - 1).push(seq![b as u8])
    }
}

/// The words of the first `n` ranges of bytes.
pub open spec fn byte_words(ranges: Seq<(u8, u8)>, n: nat) -> Option<Seq<Seq<u8>>>
    decreases n,
{
    if n == 0 || n > ranges.len() {
        Some(Seq::empty())
    } else {
        let (a, b) = ranges[n - 1];
        match byte_words(ranges, (n - 1) as nat) {
            None => None,
            Some(w) => if b - a + 1 > MAX_ALTERNATIVES - w.len() {
                None
            } else {
                Some(w + byte_range_words(a as int, b as int))
            },
        }
    }
}

/// `n` words of `sub` one after the other.
pub open spec fn powers(sub: Seq<Seq<u8>>, n: nat) -> Option<Seq<Seq<u8>>>
    decreases n,
{
    if n == 0 {
        Some(seq![Seq::empty()])
    } else {
        match powers(sub, (n - 1) as nat) {
            None => None,
            Some(w) => products(w, sub),
        }
    }
}

/// All words of a tree, assertions aside; nothing where they are too many, too
/// long or without end.
pub open spec fn words(s: ShapeModel) -> Option<Seq<Seq<u8>>>
    decreases s, 0nat,
{
    match s {
        ShapeModel::Empty => Some(seq![Seq::empty()]),
        ShapeModel::Look => Some(seq![Seq::empty()]),
        ShapeModel::Literal(l) => if l.len() <= MAX_LITERAL_BYTES {
            Some(seq![l])
        } else {
            None
        },
        ShapeModel::Unicode(r) => unicode_words(r, r.len()),
        ShapeModel::Bytes(r) => byte_words(r, r.len()),
        ShapeModel::Capture(x) => words(*x),
        ShapeModel::Concat(parts) => concat_words(parts, parts.len()),
        ShapeModel::Alternation(parts) => choice_words(parts, parts.len()),
        ShapeModel::Repetition { min, max, sub } => if max == Some(min) && min <= 8 {
            match words(*sub) {
                Some(w) => powers(w, min as nat),
                None => None,
            }
        } else {
            None
        },
    }
}

/// The words of the first `n` parts one after the other.
pub open spec fn concat_words(parts: Seq<ShapeModel>, n: nat) -> Option<Seq<Seq<u8>>>
    decreases parts, n,
{
    if n == 0 || n > parts.len() {
        Some(seq![Seq::empty()])
    } else {
        match (concat_words(parts, (n - 1) as nat), words(parts[n - 1])) {
            (Some(a), Some(b)) => products(a, b),
            _ => None,
        }
    }
}

/// The words of one of the first `n` parts.
pub open spec fn choice_words(parts: Seq<ShapeModel>, n: nat) -> Option<Seq<Seq<u8>>>
    decreases parts, n,
{
    if n == 0 || n > parts.len() {
        Some(Seq::empty())
    } else {
        match (choice_words(parts, (n - 1) as nat), words(parts[n - 1])) {
            (Some(a), Some(b)) => if a.len() + b.len() > MAX_ALTERNATIVES {
                None
            } else {
                Some(a + b)
            },
            _ => None,
        }
    }
}

/// Three bytes as a trigram.
pub open spec fn trigram(a: u8, b: u8, c: u8) -> Trigram {
    (a as int * 65536 + b as int * 256 + c as int) as u32
}

/// The trigram at a place.
pub open spec fn trigram_at(s: Seq<u8>, i: int) -> Trigram {
    trigram(s[i], s[i + 1], s[i + 2])
}

/// Whether a text holds a trigram.
pub open spec fn holds_trigram(s: Seq<u8>, t: Trigram) -> bool {
    exists|i: int| 0 <= i && i + 2 < s.len() && #[trigger] trigram_at(s, i) == t
}

/// Number of leading elements below `x`.
pub open spec fn place(v: Seq<Trigram>, x: Trigram) -> nat
    decreases v.len(),
{
    if v.len() > 0 && v[0] < x {
        1 + place(v.drop_first(), x)
    } else {
        0
    }
}

/// A sorted list with one more element, unless it is there.
pub open spec fn with_trigram(v: Seq<Trigram>, x: Trigram) -> Seq<Trigram> {
    let k = place(v, x) as int;
    if k < v.len() && v[k] == x {
        v
    } else {
        v.insert(k, x)
    }
}

/// The trigrams of a text, in order and each once.
pub open spec fn trigrams(s: Seq<u8>) -> Seq<Trigram>
    decreases s.len(),
{
    if s.len() < 3 {
        Seq::empty()
    } else {
        with_trigram(trigrams(s.drop_last()), trigram_at(s, s.len() - 3))
    }
}

/// The plan that asks for all trigrams of a word.
pub open spec fn word_plan(s: Seq<u8>) -> PlanModel {
    PlanModel { steps: seq![StepModel::TrigramIntersect(trigrams(s))], verification: None }
}

/// Steps that ask for one of several plans.
pub open spec fn union_steps(plans: Seq<PlanModel>) -> Seq<StepModel> {
    if plans.len() == 0 || exists|i: int|
        0 <= i < plans.len() && (#[trigger] plans[i]).steps.len() == 0 {
        Seq::empty()
    } else if plans.len() == 1 {
        plans[0].steps
    } else {
        seq![StepModel::Union(plans)]
    }
}

/// Steps that ask for one of several words; none where a word is too short to
/// hold a trigram.
pub open spec fn word_steps(strings: Seq<Seq<u8>>) -> Seq<StepModel> {
    if exists|i: int| 0 <= i < strings.len() && (#[trigger] strings[i]).len() < 3 {
        Seq::empty()
    } else {
        union_steps(strings.map_values(|s: Seq<u8>| word_plan(s)))
    }
}

/// The steps of the first `n` parts of a sequence, and the words of the parts
/// at its end that have not gone into a step. Neighbouring parts with few words
/// are taken together.
pub open spec fn chunks(parts: Seq<ShapeModel>, n: nat) -> (Seq<StepModel>, Seq<Seq<u8>>)
    decreases parts, n,
{
    if n == 0 || n > parts.len() {
        (Seq::empty(), seq![Seq::empty()])
    } else {
        let (steps, pending) = chunks(parts, (n - 1) as nat);
        match words(parts[n - 1]) {
            Some(w) => match products(pending, w) {
                Some(combined) => (steps, combined),
                None => (steps + word_steps(pending), w),
            },
            None => (
                steps + word_steps(pending) + narrowing(parts[n - 1]),
                seq![Seq::empty()],
            ),
        }
    }
}

/// The words of three parts from the `i`th on.
pub open spec fn window_words(parts: Seq<ShapeModel>, i: int) -> Option<Seq<Seq<u8>>> {
    concat_words(parts.subrange(i, i + 3), 3)
}

/// The steps of the first `n` windows of three parts.
pub open spec fn window_steps(parts: Seq<ShapeModel>, n: nat) -> Seq<StepModel>
    decreases n,
{
    if n == 0 {
        Seq::empty()
    } else {
        match window_words(parts, n - 1) {
            Some(w) => window_steps(parts, (n - 1) as nat) + word_steps(w),
            None => window_steps(parts, (n - 1) as nat),
        }
    }
}

/// Number of windows of three parts.
pub open spec fn window_count(n: nat) -> nat {
    if n < 3 {
        0
    } else {
        (n - 2) as nat
    }
}

/// Steps that every document with a match meets.
pub open spec fn narrowing(s: ShapeModel) -> Seq<StepModel>
    decreases s, 0nat,
{
    match words(s) {
        Some(w) => word_steps(w),
        None => match s {
            ShapeModel::Literal(l) => word_steps(seq![l]),
            ShapeModel::Capture(x) => narrowing(*x),
            ShapeModel::Repetition { min, sub, .. } => if min > 0 {
                narrowing(*sub)
            } else {
                Seq::empty()
            },
            ShapeModel::Alternation(parts) => union_steps(choice_plans(parts, parts.len())),
            ShapeModel::Concat(parts) => {
                let (steps, pending) = chunks(parts, parts.len());
                steps + word_steps(pending) + window_steps(parts, window_count(parts.len()))
            },
            _ => Seq::empty(),
        },
    }
}

/// The plans of the first `n` parts of a choice.
pub open spec fn choice_plans(parts: Seq<ShapeModel>, n: nat) -> Seq<PlanModel>
    decreases parts, n,
{
    if n == 0 || n > parts.len() {
        Seq::empty()
    } else {
        choice_plans(parts, (n - 1) as nat).push(
            PlanModel { steps: narrowing(parts[n - 1]), verification: None },
        )
    }
}

/// The steps of a pattern; none where it is not a pattern.
pub open spec fn pattern_steps(pattern: Seq<char>) -> Seq<StepModel> {
    match pattern_shape(pattern) {
        Some(s) => narrowing(s),
        None => Seq::empty(),
    }
}

/// Whether the tree of a pattern, if it has one, accepts what the pattern is for.
pub open spec fn pattern_fits(pattern: Seq<char>) -> bool {
    pattern_shape(pattern) is Some ==> fits(pattern, pattern_shape(pattern)->0)
}

/// The contents of a list of byte lists.
pub open spec fn byte_lists(v: Seq<Vec<u8>>) -> Seq<Seq<u8>> {
    v.map_values(|w: Vec<u8>| w@)
}

/// The contents of an optional list of byte lists.
pub open spec fn byte_lists_option(v: Option<Vec<Vec<u8>>>) -> Option<Seq<Seq<u8>>> {
    match v {
        Some(w) => Some(byte_lists(w@)),
        None => None,
    }
}

/// Adding a list at the end adds its content.
proof fn lemma_push_list(v: Seq<Vec<u8>>, w: Vec<u8>)
    ensures
        byte_lists(v.push(w)) == byte_lists(v).push(w@),
{
    assert(byte_lists(v.push(w)) =~= byte_lists(v).push(w@));
}

fn copy_bytes(v: &Vec<u8>) -> (r: Vec<u8>)
    ensures
        r@ == v@,
{
    let mut out: Vec<u8> = Vec::new();
    append_bytes(&mut out, v);
    assert(out@ =~= v@);
    out
}

fn append_bytes(out: &mut Vec<u8>, v: &Vec<u8>)
    ensures
        final(out)@ == old(out)@ + v@,
{
    let mut i: usize = 0;
    while i < v.len()
        invariant
            i <= v@.len(),
            out@ == old(out)@ + v@.take(i as int),
        decreases v@.len() - i,
    {
        out.push(v[i]);
        i += 1;
        assert(out@ =~= old(out)@ + v@.take(i as int));
    }
    assert(v@.take(v@.len() as int) =~= v@);
}

/// All concatenations, within the bounds.
pub fn product(left: &Vec<Vec<u8>>, right: &Vec<Vec<u8>>) -> (r: Option<Vec<Vec<u8>>>)
    ensures
        byte_lists_option(r) == products(byte_lists(left@), byte_lists(right@)),
{
    let ghost lm = byte_lists(left@);
    let ghost rm = byte_lists(right@);
    if right.len() > 0 && left.len() > MAX_ALTERNATIVES / right.len() {
        assert(left@.len() * right@.len() > MAX_ALTERNATIVES) by (nonlinear_arith)
            requires
                right@.len() > 0,
                left@.len() > 16int / (right@.len() as int),
                MAX_ALTERNATIVES == 16,
        ;
        return None;
    }
    assert(left@.len() * right@.len() <= MAX_ALTERNATIVES) by (nonlinear_arith)
        requires
            right@.len() == 0 || left@.len() <= 16int / (right@.len() as int),
            MAX_ALTERNATIVES == 16,
    ;
    let mut result: Vec<Vec<u8>> = Vec::new();
    assert(byte_lists(result@) =~= pairs(lm.take(0), rm));
    let mut i: usize = 0;
    while i < left.len()
        invariant
            i <= left@.len(),
            lm == byte_lists(left@),
            rm == byte_lists(right@),
            byte_lists(result@) == pairs(lm.take(i as int), rm),
            forall|k: int, j: int|
                0 <= k < i && 0 <= j < rm.len() ==> (#[trigger] lm[k]).len() + (
                #[trigger] rm[j]).len() <= MAX_LITERAL_BYTES,
        decreases left@.len() - i,
    {
        let ghost before = byte_lists(result@);
        let ghost row = rm.map_values(|b: Seq<u8>| lm[i as int] + b);
        let mut j: usize = 0;
        assert(before + row.take(0) =~= before);
        while j < right.len()
            invariant
                i < left@.len(),
                j <= right@.len(),
                lm == byte_lists(left@),
                rm == byte_lists(right@),
                row == rm.map_values(|b: Seq<u8>| lm[i as int] + b),
                byte_lists(result@) == before + row.take(j as int),
                forall|k: int|
                    0 <= k < j ==> lm[i as int].len() + (#[trigger] rm[k]).len()
                        <= MAX_LITERAL_BYTES,
            decreases right@.len() - j,
        {
            let a = &left[i];
            let b = &right[j];
            assert(lm[i as int] == a@ && rm[j as int] == b@);
            if a.len() > MAX_LITERAL_BYTES || b.len() > MAX_LITERAL_BYTES - a.len() {
                assert(some_pair_too_long(lm, rm)) by {
                    assert(lm[i as int].len() + rm[j as int].len() > MAX_LITERAL_BYTES);
                }
                return None;
            }
            let mut bytes = copy_bytes(a);
            append_bytes(&mut bytes, b);
            proof {
                lemma_push_list(result@, bytes);
            }
            result.push(bytes);
            j += 1;
            assert(row.take(j as int) =~= row.take(j - 1).push(row[j - 1]));
            assert(byte_lists(result@) =~= before + row.take(j as int));
        }
        assert(row.take(rm.len() as int) =~= row);
        i += 1;
        assert(lm.take(i as int).drop_last() =~= lm.take(i - 1));
    }
    assert(lm.take(lm.len() as int) =~= lm);
    Some(result)
}

/// The bytes of a character.
fn encoded(c: char) -> (r: Vec<u8>)
    ensures
        r@ == encode_scalar(c as u32),
{
    let mut t = String::new();
    t.push(c);
    let r = t.as_str().as_bytes_vec();
    assert(t@ =~= seq![c]);
    assert(t@.drop_first() =~= Seq::<char>::empty());
    assert(encode_utf8(t@) =~= encode_scalar(c as u32)) by {
        reveal_with_fuel(encode_utf8, 2);
    }
    r
}

fn finite_unicode(ranges: &Vec<(u32, u32)>) -> (r: Option<Vec<Vec<u8>>>)
    ensures
        byte_lists_option(r) == unicode_words(ranges@, ranges@.len()),
{
    let mut result: Vec<Vec<u8>> = Vec::new();
    let mut n: usize = 0;
    assert(byte_lists(result@) =~= Seq::<Seq<u8>>::empty());
    while n < ranges.len()
        invariant
            n <= ranges@.len(),
            result@.len() <= MAX_ALTERNATIVES,
            unicode_words(ranges@, n as nat) == Some(byte_lists(result@)),
        decreases ranges@.len() - n,
    {
        let (a, b) = ranges[n];
        if b >= a && (b - a) as usize >= MAX_ALTERNATIVES - result.len() {
            proof {
                lemma_unicode_none(ranges@, (n + 1) as nat, ranges@.len());
            }
            return None;
        }
        let ghost before = byte_lists(result@);
        if b >= a {
            let mut v: u32 = a;
            let mut more: bool = true;
            while more
                invariant
                    a <= v <= b,
                    b - a < MAX_ALTERNATIVES,
                    more ==> result@.len() <= before.len() + (v - a),
                    !more ==> result@.len() <= before.len() + (b - a) + 1,
                    more ==> byte_lists(result@) == before + range_words(a as int, v - 1),
                    !more ==> byte_lists(result@) == before + range_words(a as int, b as int),
                decreases b - v, (if more { 1int } else { 0int }),
            {
                match char::from_u32(v) {
                    Some(c) => {
                        let w = encoded(c);
                        proof {
                            lemma_push_list(result@, w);
                        }
                        result.push(w);
                    },
                    None => {},
                }
                assert(byte_lists(result@) =~= before + range_words(a as int, v as int));
                if v == b {
                    more = false;
                } else {
                    v += 1;
                }
            }
        } else {
            assert(range_words(a as int, b as int) =~= Seq::<Seq<u8>>::empty());
        }
        assert(byte_lists(result@) =~= before + range_words(a as int, b as int));
        n += 1;
    }
    Some(result)
}

/// Once the words are too many they stay so.
proof fn lemma_unicode_none(ranges: Seq<(u32, u32)>, n: nat, m: nat)
    requires
        n <= m <= ranges.len(),
        unicode_words(ranges, n) is None,
    ensures
        unicode_words(ranges, m) is None,
    decreases m,
{
    if n < m {
        lemma_unicode_none(ranges, n, (m - 1) as nat);
    }
}

/// Once the words are too many they stay so.
proof fn lemma_byte_none(ranges: Seq<(u8, u8)>, n: nat, m: nat)
    requires
        n <= m <= ranges.len(),
        byte_words(ranges, n) is None,
    ensures
        byte_words(ranges, m) is None,
    decreases m,
{
    if n < m {
        lemma_byte_none(ranges, n, (m - 1) as nat);
    }
}

fn finite_bytes(ranges: &Vec<(u8, u8)>) -> (r: Option<Vec<Vec<u8>>>)
    ensures
        byte_lists_option(r) == byte_words(ranges@, ranges@.len()),
{
    let mut result: Vec<Vec<u8>> = Vec::new();
    let mut n: usize = 0;
    assert(byte_lists(result@) =~= Seq::<Seq<u8>>::empty());
    while n < ranges.len()
        invariant
            n <= ranges@.len(),
            result@.len() <= MAX_ALTERNATIVES,
            byte_words(ranges@, n as nat) == Some(byte_lists(result@)),
        decreases ranges@.len() - n,
    {
        let (a, b) = ranges[n];
        if b >= a && (b - a) as usize >= MAX_ALTERNATIVES - result.len() {
            proof {
                lemma_byte_none(ranges@, (n + 1) as nat, ranges@.len());
            }
            return None;
        }
        let ghost before = byte_lists(result@);
        let mut v: usize = a as usize;
        while v <= b as usize
            invariant
                b >= a ==> v <= b + 1,
                b < a ==> v == a,
                a <= v,
                result@.len() == before.len() + (v - a),
                byte_lists(result@) == before + byte_range_words(a as int, v - 1),
            decreases b + 1 - v,
        {
            let mut w: Vec<u8> = Vec::new();
            w.push(v as u8);
            assert(w@ =~= seq![v as u8]);
            proof {
                lemma_push_list(result@, w);
            }
            result.push(w);
            assert(byte_lists(result@) =~= before + byte_range_words(a as int, v as int));
            v += 1;
        }
        assert(byte_lists(result@) =~= before + byte_range_words(a as int, b as int));
        n += 1;
    }
    Some(result)
}

/// One word of no bytes.
fn no_bytes() -> (r: Vec<Vec<u8>>)
    ensures
        byte_lists(r@) == seq![Seq::<u8>::empty()],
{
    let mut v: Vec<Vec<u8>> = Vec::new();
    v.push(Vec::new());
    assert(byte_lists(v@) =~= seq![Seq::<u8>::empty()]);
    v
}

proof fn lemma_concat_none(parts: Seq<ShapeModel>, n: nat, m: nat)
    requires
        n <= m <= parts.len(),
        concat_words(parts, n) is None,
    ensures
        concat_words(parts, m) is None,
    decreases m,
{
    if n < m {
        lemma_concat_none(parts, n, (m - 1) as nat);
    }
}

proof fn lemma_choice_none(parts: Seq<ShapeModel>, n: nat, m: nat)
    requires
        n <= m <= parts.len(),
        choice_words(parts, n) is None,
    ensures
        choice_words(parts, m) is None,
    decreases m,
{
    if n < m {
        lemma_choice_none(parts, n, (m - 1) as nat);
    }
}

proof fn lemma_powers_none(sub: Seq<Seq<u8>>, n: nat, m: nat)
    requires
        n <= m,
        powers(sub, n) is None,
    ensures
        powers(sub, m) is None,
    decreases m,
{
    if n < m {
        lemma_powers_none(sub, n, (m - 1) as nat);
    }
}

fn finite_concat(parts: &Vec<Shape>) -> (r: Option<Vec<Vec<u8>>>)
    ensures
        byte_lists_option(r) == concat_words(shapes(parts@), parts@.len()),
    decreases parts,
{
    let mut result = no_bytes();
    let mut n: usize = 0;
    while n < parts.len()
        invariant
            n <= parts@.len(),
            concat_words(shapes(parts@), n as nat) == Some(byte_lists(result@)),
        decreases parts@.len() - n,
    {
        assert(shapes(parts@)[n as int] == parts@[n as int].model());
        let next = match finite(&parts[n]) {
            Some(w) => product(&result, &w),
            None => None,
        };
        match next {
            Some(w) => {
                result = w;
            },
            None => {
                proof {
                    lemma_concat_none(shapes(parts@), (n + 1) as nat, parts@.len());
                }
                return None;
            },
        }
        n += 1;
    }
    Some(result)
}

fn finite_choice(parts: &Vec<Shape>) -> (r: Option<Vec<Vec<u8>>>)
    ensures
        byte_lists_option(r) == choice_words(shapes(parts@), parts@.len()),
    decreases parts,
{
    let mut result: Vec<Vec<u8>> = Vec::new();
    let mut n: usize = 0;
    assert(byte_lists(result@) =~= Seq::<Seq<u8>>::empty());
    while n < parts.len()
        invariant
            n <= parts@.len(),
            choice_words(shapes(parts@), n as nat) == Some(byte_lists(result@)),
        decreases parts@.len() - n,
    {
        assert(shapes(parts@)[n as int] == parts@[n as int].model());
        let ghost before = byte_lists(result@);
        match finite(&parts[n]) {
            Some(w) => {
                let mut w = w;
                let ghost added = byte_lists(w@);
                result.append(&mut w);
                assert(byte_lists(result@) =~= before + added);
            },
            None => {
                proof {
                    lemma_choice_none(shapes(parts@), (n + 1) as nat, parts@.len());
                }
                return None;
            },
        }
        if result.len() > MAX_ALTERNATIVES {
            proof {
                lemma_choice_none(shapes(parts@), (n + 1) as nat, parts@.len());
            }
            return None;
        }
        n += 1;
    }
    Some(result)
}

/// `times` words one after the other.
fn power(sub: &Vec<Vec<u8>>, times: u32) -> (r: Option<Vec<Vec<u8>>>)
    ensures
        byte_lists_option(r) == powers(byte_lists(sub@), times as nat),
{
    let mut result = no_bytes();
    let mut n: u32 = 0;
    while n < times
        invariant
            n <= times,
            powers(byte_lists(sub@), n as nat) == Some(byte_lists(result@)),
        decreases times - n,
    {
        match product(&result, sub) {
            Some(p) => {
                result = p;
            },
            None => {
                proof {
                    lemma_powers_none(byte_lists(sub@), (n + 1) as nat, times as nat);
                }
                return None;
            },
        }
        n += 1;
    }
    Some(result)
}

/// Enumerates all words of a tree, or declines without approximating them.
pub fn finite(shape: &Shape) -> (r: Option<Vec<Vec<u8>>>)
    ensures
        byte_lists_option(r) == words(shape.model()),
    decreases shape,
{
    match shape {
        Shape::Empty => Some(no_bytes()),
        Shape::Look => Some(no_bytes()),
        Shape::Literal(l) => {
            if l.len() <= MAX_LITERAL_BYTES {
                let mut v: Vec<Vec<u8>> = Vec::new();
                v.push(copy_bytes(l));
                assert(byte_lists(v@) =~= seq![l@]);
                Some(v)
            } else {
                None
            }
        },
        Shape::Unicode(ranges) => finite_unicode(ranges),
        Shape::Bytes(ranges) => finite_bytes(ranges),
        Shape::Capture(sub) => finite(sub),
        Shape::Concat(parts) => finite_concat(parts),
        Shape::Alternation(parts) => finite_choice(parts),
        Shape::Repetition { min, max, sub } => {
            let exact = match max {
                Some(m) => *m == *min,
                None => false,
            };
            if !exact || *min > 8 {
                return None;
            }
            let w = match finite(sub) {
                Some(w) => w,
                None => return None,
            };
            power(&w, *min)
        },
    }
}

/// The place of an element behind all smaller ones.
proof fn lemma_place(v: Seq<Trigram>, x: Trigram, k: int)
    requires
        0 <= k <= v.len(),
        forall|j: int| 0 <= j < k ==> #[trigger] v[j] < x,
        k < v.len() ==> v[k] >= x,
    ensures
        place(v, x) == k,
    decreases v.len(),
{
    if k > 0 {
        assert(v[0] < x);
        assert forall|j: int| 0 <= j < k - 1 implies #[trigger] v.drop_first()[j] < x by {
            assert(v[j + 1] < x);
        }
        lemma_place(v.drop_first(), x, k - 1);
    }
}

/// Three bytes as a trigram.
pub fn bytes_to_trigram(a: u8, b: u8, c: u8) -> (r: Trigram)
    ensures
        r == trigram(a, b, c),
{
    a as u32 * 65536 + b as u32 * 256 + c as u32
}

/// The trigrams of a text, in order and each once.
pub fn trigrams_of(s: &Vec<u8>) -> (r: Vec<Trigram>)
    ensures
        r@ == trigrams(s@),
{
    let mut out: Vec<Trigram> = Vec::new();
    if s.len() < 3 {
        return out;
    }
    let mut i: usize = 2;
    assert(out@ =~= trigrams(s@.take(2)));
    while i < s.len()
        invariant
            2 <= i <= s@.len(),
            out@ == trigrams(s@.take(i as int)),
        decreases s@.len() - i,
    {
        let t = bytes_to_trigram(s[i - 2], s[i - 1], s[i]);
        let mut k: usize = 0;
        while k < out.len() && out[k] < t
            invariant
                k <= out@.len(),
                forall|j: int| 0 <= j < k ==> #[trigger] out@[j] < t,
            decreases out@.len() - k,
        {
            k += 1;
        }
        proof {
            lemma_place(out@, t, k as int);
            let longer = s@.take(i + 1);
            assert(longer.drop_last() =~= s@.take(i as int));
            assert(trigram_at(longer, longer.len() - 3) == t);
        }
        if !(k < out.len() && out[k] == t) {
            out.insert(k, t);
        }
        i += 1;
    }
    assert(s@.take(s@.len() as int) =~= s@);
    out
}

/// Asks for one of several plans.
pub fn union(plans: Vec<QueryPlan>) -> (r: Vec<PlanStep>)
    ensures
        step_models(r@) == union_steps(plan_models(plans@)),
{
    let ghost m = plan_models(plans@);
    let mut i: usize = 0;
    while i < plans.len()
        invariant
            i <= plans@.len(),
            m == plan_models(plans@),
            forall|j: int| 0 <= j < i ==> (#[trigger] m[j]).steps.len() > 0,
        decreases plans@.len() - i,
    {
        assert(m[i as int] == plans@[i as int].model());
        proof {
            lemma_plan_model(plans@[i as int]);
        }
        if plans[i].steps.len() == 0 {
            assert(m[i as int].steps.len() == 0);
            let none: Vec<PlanStep> = Vec::new();
            assert(step_models(none@) =~= union_steps(m));
            return none;
        }
        i += 1;
    }
    let mut plans = plans;
    if plans.len() == 0 {
        let none: Vec<PlanStep> = Vec::new();
        assert(step_models(none@) =~= union_steps(m));
        none
    } else if plans.len() == 1 {
        let plan = plans.pop().unwrap();
        assert(m[0] == plan.model());
        plan.steps
    } else {
        let mut out: Vec<PlanStep> = Vec::new();
        proof {
            lemma_union_model(plans);
        }
        out.push(PlanStep::Union(plans));
        assert(step_models(out@) =~= seq![StepModel::Union(m)]);
        out
    }
}

/// Asks for one of several words.
pub fn alternatives(strings: &Vec<Vec<u8>>) -> (r: Vec<PlanStep>)
    ensures
        step_models(r@) == word_steps(byte_lists(strings@)),
{
    let ghost m = byte_lists(strings@);
    let ghost all = m.map_values(|s: Seq<u8>| word_plan(s));
    let mut plans: Vec<QueryPlan> = Vec::new();
    let mut i: usize = 0;
    assert(plan_models(plans@) =~= all.take(0));
    while i < strings.len()
        invariant
            i <= strings@.len(),
            m == byte_lists(strings@),
            all == m.map_values(|s: Seq<u8>| word_plan(s)),
            plan_models(plans@) == all.take(i as int),
            forall|j: int| 0 <= j < i ==> (#[trigger] m[j]).len() >= 3,
        decreases strings@.len() - i,
    {
        assert(m[i as int] == strings@[i as int]@);
        if strings[i].len() < 3 {
            assert(m[i as int].len() < 3);
            let none: Vec<PlanStep> = Vec::new();
            assert(step_models(none@) =~= word_steps(m));
            return none;
        }
        let grams = trigrams_of(&strings[i]);
        let mut steps: Vec<PlanStep> = Vec::new();
        steps.push(PlanStep::TrigramIntersect(grams));
        assert(step_models(steps@) =~= seq![StepModel::TrigramIntersect(grams@)]);
        let plan = QueryPlan { steps, verification: None };
        let ghost before = plans@;
        plans.push(plan);
        proof {
            lemma_plan_model(plan);
        }
        assert(plan_models(plans@) =~= plan_models(before).push(plan.model()));
        i += 1;
        assert(all.take(i as int) =~= all.take(i - 1).push(all[i - 1]));
    }
    assert(all.take(all.len() as int) =~= all);
    union(plans)
}

/// Appends steps.
fn append_steps(steps: &mut Vec<PlanStep>, more: Vec<PlanStep>)
    ensures
        step_models(final(steps)@) == step_models(old(steps)@) + step_models(more@),
{
    let mut more = more;
    let ghost added = more@;
    steps.append(&mut more);
    assert(step_models(steps@) =~= step_models(old(steps)@) + step_models(added));
}

fn window_finite(parts: &Vec<Shape>, i: usize) -> (r: Option<Vec<Vec<u8>>>)
    requires
        i + 3 <= parts@.len(),
    ensures
        byte_lists_option(r) == window_words(shapes(parts@), i as int),
{
    let ghost w = shapes(parts@).subrange(i as int, i + 3);
    let mut result = no_bytes();
    let mut n: usize = 0;
    let count = parts.len();
    while n < 3
        invariant
            n <= 3,
            i + 3 <= parts@.len(),
            count == parts@.len(),
            w == shapes(parts@).subrange(i as int, i + 3),
            concat_words(w, n as nat) == Some(byte_lists(result@)),
        decreases 3 - n,
    {
        assert(w[n as int] == parts@[i + n].model());
        let next = match finite(&parts[i + n]) {
            Some(v) => product(&result, &v),
            None => None,
        };
        match next {
            Some(v) => {
                result = v;
            },
            None => {
                proof {
                    lemma_concat_none(w, (n + 1) as nat, 3);
                }
                return None;
            },
        }
        n += 1;
    }
    Some(result)
}

fn concat_constraints(parts: &Vec<Shape>) -> (r: Vec<PlanStep>)
    ensures
        step_models(r@) == ({
            let (steps, pending) = chunks(shapes(parts@), parts@.len());
            steps + word_steps(pending) + window_steps(
                shapes(parts@),
                window_count(parts@.len()),
            )
        }),
    decreases parts,
{
    let ghost m = shapes(parts@);
    let mut steps: Vec<PlanStep> = Vec::new();
    let mut pending = no_bytes();
    let mut n: usize = 0;
    assert(step_models(steps@) =~= Seq::<StepModel>::empty());
    while n < parts.len()
        invariant
            n <= parts@.len(),
            m == shapes(parts@),
            chunks(m, n as nat) == (step_models(steps@), byte_lists(pending@)),
        decreases parts@.len() - n,
    {
        assert(m[n as int] == parts@[n as int].model());
        match finite(&parts[n]) {
            Some(strings) => match product(&pending, &strings) {
                Some(combined) => {
                    pending = combined;
                },
                None => {
                    append_steps(&mut steps, alternatives(&pending));
                    pending = strings;
                },
            },
            None => {
                append_steps(&mut steps, alternatives(&pending));
                pending = no_bytes();
                append_steps(&mut steps, constraints(&parts[n]));
            },
        }
        n += 1;
    }
    append_steps(&mut steps, alternatives(&pending));
    let ghost base = step_models(steps@);
    let mut k: usize = 0;
    assert(base =~= base + window_steps(m, 0));
    while parts.len() >= 3 && k <= parts.len() - 3
        invariant
            k <= window_count(parts@.len()),
            m == shapes(parts@),
            step_models(steps@) == base + window_steps(m, k as nat),
        decreases parts@.len() - k,
    {
        match window_finite(parts, k) {
            Some(strings) => {
                append_steps(&mut steps, alternatives(&strings));
            },
            None => {},
        }
        k += 1;
        assert(step_models(steps@) =~= base + window_steps(m, k as nat));
    }
    steps
}

fn choice_constraints(parts: &Vec<Shape>) -> (r: Vec<PlanStep>)
    ensures
        step_models(r@) == union_steps(choice_plans(shapes(parts@), parts@.len())),
    decreases parts,
{
    let ghost m = shapes(parts@);
    let mut plans: Vec<QueryPlan> = Vec::new();
    let mut n: usize = 0;
    assert(plan_models(plans@) =~= Seq::<PlanModel>::empty());
    while n < parts.len()
        invariant
            n <= parts@.len(),
            m == shapes(parts@),
            plan_models(plans@) == choice_plans(m, n as nat),
        decreases parts@.len() - n,
    {
        assert(m[n as int] == parts@[n as int].model());
        let plan = QueryPlan { steps: constraints(&parts[n]), verification: None };
        proof {
            lemma_plan_model(plan);
        }
        let ghost before = plans@;
        plans.push(plan);
        assert(plan_models(plans@) =~= plan_models(before).push(plan.model()));
        n += 1;
    }
    union(plans)
}

/// Steps that every document with a match meets.
pub fn constraints(shape: &Shape) -> (r: Vec<PlanStep>)
    ensures
        step_models(r@) == narrowing(shape.model()),
    decreases shape,
{
    match finite(shape) {
        Some(strings) => return alternatives(&strings),
        None => {},
    }
    match shape {
        Shape::Literal(l) => {
            let mut v: Vec<Vec<u8>> = Vec::new();
            v.push(copy_bytes(l));
            assert(byte_lists(v@) =~= seq![l@]);
            alternatives(&v)
        },
        Shape::Capture(sub) => constraints(sub),
        Shape::Repetition { min, max, sub } if *min > 0 => constraints(sub),
        Shape::Alternation(parts) => choice_constraints(parts),
        Shape::Concat(parts) => concat_constraints(parts),
        _ => {
            let none: Vec<PlanStep> = Vec::new();
            assert(step_models(none@) =~= Seq::<StepModel>::empty());
            none
        },
    }
}

/// The steps of a pattern; none where it is not a pattern.
pub fn regex_steps(pattern: &str) -> (r: Vec<PlanStep>)
    ensures
        step_models(r@) == pattern_steps(pattern@),
        pattern_fits(pattern@),
{
    match shape_of(pattern) {
        Some(shape) => constraints(&shape),
        None => {
            let none: Vec<PlanStep> = Vec::new();
            assert(step_models(none@) =~= Seq::<StepModel>::empty());
            none
        },
    }
}

/// Whether no range of code points holds a line feed or carriage return.
pub open spec fn code_points_avoid_breaks(r: Seq<(u32, u32)>) -> bool {
    forall|i: int|
        0 <= i < r.len() ==> !((#[trigger] r[i]).0 <= 10 <= r[i].1) && !(r[i].0 <= 13 <= r[i].1)
}

/// Whether no range of bytes holds a line feed or carriage return.
pub open spec fn bytes_avoid_breaks(r: Seq<(u8, u8)>) -> bool {
    forall|i: int|
        0 <= i < r.len() ==> !((#[trigger] r[i]).0 <= 10 <= r[i].1) && !(r[i].0 <= 13 <= r[i].1)
}

/// Whether no word of a tree can depend on, or reach across, a line break.
pub open spec fn within_a_line(s: ShapeModel) -> bool
    decreases s, 0nat,
{
    match s {
        ShapeModel::Empty => true,
        ShapeModel::Look => false,
        ShapeModel::Literal(l) => !l.contains(10u8) && !l.contains(13u8),
        ShapeModel::Unicode(r) => code_points_avoid_breaks(r),
        ShapeModel::Bytes(r) => bytes_avoid_breaks(r),
        ShapeModel::Capture(x) => within_a_line(*x),
        ShapeModel::Repetition { sub, .. } => within_a_line(*sub),
        ShapeModel::Concat(parts) => all_within_a_line(parts, parts.len()),
        ShapeModel::Alternation(parts) => all_within_a_line(parts, parts.len()),
    }
}

/// The same of the first `n` parts.
pub open spec fn all_within_a_line(parts: Seq<ShapeModel>, n: nat) -> bool
    decreases parts, n,
{
    n == 0 || n > parts.len() || (all_within_a_line(parts, (n - 1) as nat) && within_a_line(
        parts[n - 1],
    ))
}

proof fn lemma_line_break_stays(parts: Seq<ShapeModel>, n: nat, m: nat)
    requires
        n <= m <= parts.len(),
        !all_within_a_line(parts, n),
    ensures
        !all_within_a_line(parts, m),
    decreases m,
{
    if n < m {
        lemma_line_break_stays(parts, n, (m - 1) as nat);
    }
}

fn no_line_context_all(parts: &Vec<Shape>) -> (r: bool)
    ensures
        r == all_within_a_line(shapes(parts@), parts@.len()),
    decreases parts,
{
    let mut n: usize = 0;
    while n < parts.len()
        invariant
            n <= parts@.len(),
            all_within_a_line(shapes(parts@), n as nat),
        decreases parts@.len() - n,
    {
        assert(shapes(parts@)[n as int] == parts@[n as int].model());
        if !no_line_context(&parts[n]) {
            proof {
                lemma_line_break_stays(shapes(parts@), (n + 1) as nat, parts@.len());
            }
            return false;
        }
        n += 1;
    }
    true
}

fn literal_within_line(l: &Vec<u8>) -> (r: bool)
    ensures
        r == (!l@.contains(10u8) && !l@.contains(13u8)),
{
    let mut i: usize = 0;
    while i < l.len()
        invariant
            i <= l@.len(),
            forall|j: int| 0 <= j < i ==> #[trigger] l@[j] != 10u8 && l@[j] != 13u8,
        decreases l@.len() - i,
    {
        if l[i] == 10 || l[i] == 13 {
            assert(l@.contains(l@[i as int]));
            return false;
        }
        i += 1;
    }
    true
}

fn code_points_within_line(v: &Vec<(u32, u32)>) -> (r: bool)
    ensures
        r == code_points_avoid_breaks(v@),
{
    let mut i: usize = 0;
    while i < v.len()
        invariant
            i <= v@.len(),
            forall|j: int|
                0 <= j < i ==> !((#[trigger] v@[j]).0 <= 10 <= v@[j].1) && !(v@[j].0 <= 13
                    <= v@[j].1),
        decreases v@.len() - i,
    {
        let (a, b) = v[i];
        if (a <= 10 && 10 <= b) || (a <= 13 && 13 <= b) {
            assert(v@[i as int] == (a, b));
            return false;
        }
        i += 1;
    }
    true
}

fn bytes_within_line(v: &Vec<(u8, u8)>) -> (r: bool)
    ensures
        r == bytes_avoid_breaks(v@),
{
    let mut i: usize = 0;
    while i < v.len()
        invariant
            i <= v@.len(),
            forall|j: int|
                0 <= j < i ==> !((#[trigger] v@[j]).0 <= 10 <= v@[j].1) && !(v@[j].0 <= 13
                    <= v@[j].1),
        decreases v@.len() - i,
    {
        let (a, b) = v[i];
        if (a <= 10 && 10 <= b) || (a <= 13 && 13 <= b) {
            assert(v@[i as int] == (a, b));
            return false;
        }
        i += 1;
    }
    true
}

/// Whether no word of a tree can depend on, or reach across, a line break.
pub fn no_line_context(shape: &Shape) -> (r: bool)
    ensures
        r == within_a_line(shape.model()),
    decreases shape,
{
    match shape {
        Shape::Empty => true,
        Shape::Look => false,
        Shape::Literal(l) => literal_within_line(l),
        Shape::Unicode(v) => code_points_within_line(v),
        Shape::Bytes(v) => bytes_within_line(v),
        Shape::Capture(sub) => no_line_context(sub),
        Shape::Repetition { min, max, sub } => no_line_context(sub),
        Shape::Concat(parts) => no_line_context_all(parts),
        Shape::Alternation(parts) => no_line_context_all(parts),
    }
}

/// Whether a match in a whole text is surely a match within one line: a
/// sufficient condition, not a necessary one.
pub fn is_line_local(pattern: &str) -> (r: bool)
    ensures
        r == (pattern_shape(pattern@) is Some && within_a_line(pattern_shape(pattern@)->0)
            && shortest_match(pattern@) is Some && shortest_match(pattern@)->0 > 0),
{
    match (shape_of(pattern), shortest_match_of(pattern)) {
        (Some(shape), Some(n)) => n > 0 && no_line_context(&shape),
        _ => false,
    }
}

} // verus!
