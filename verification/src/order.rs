//! Sorting by keys. Items with equal keys keep their order.
use vstd::prelude::*;

verus! {

/// Whether `a` comes before `b` in the order of dictionaries.
pub open spec fn lex_lt(a: Seq<u32>, b: Seq<u32>) -> bool
    decreases a.len(),
{
    if b.len() == 0 {
        false
    } else if a.len() == 0 {
        true
    } else if a[0] != b[0] {
        a[0] < b[0]
    } else {
        lex_lt(a.drop_first(), b.drop_first())
    }
}

/// Of two keys, one comes first or they are equal.
pub proof fn lex_is_total(a: Seq<u32>, b: Seq<u32>)
    ensures
        lex_lt(a, b) || lex_lt(b, a) || a == b,
    decreases a.len(),
{
    if a.len() > 0 && b.len() > 0 && a[0] == b[0] {
        lex_is_total(a.drop_first(), b.drop_first());
        if a.drop_first() == b.drop_first() {
            assert(a =~= seq![a[0]] + a.drop_first());
            assert(b =~= seq![b[0]] + b.drop_first());
        }
    } else if a.len() == 0 && b.len() == 0 {
        assert(a =~= b);
    }
}

/// No key comes before itself, and not both of two keys come before each other.
pub proof fn lex_is_strict(a: Seq<u32>, b: Seq<u32>)
    ensures
        !(lex_lt(a, b) && lex_lt(b, a)),
        !lex_lt(a, a),
    decreases a.len(),
{
    if a.len() > 0 {
        if b.len() > 0 {
            lex_is_strict(a.drop_first(), b.drop_first());
        } else {
            lex_is_strict(a.drop_first(), b);
        }
    }
}

/// What comes before something that comes before a third comes before the third.
pub proof fn lex_is_transitive(a: Seq<u32>, b: Seq<u32>, c: Seq<u32>)
    requires
        lex_lt(a, b),
        lex_lt(b, c),
    ensures
        lex_lt(a, c),
    decreases a.len(),
{
    if a.len() > 0 && a[0] == b[0] && b[0] == c[0] {
        lex_is_transitive(a.drop_first(), b.drop_first(), c.drop_first());
    }
}

/// Whether the item with key `a` at place `i` comes before the item with key
/// `b` at place `j`.
pub open spec fn comes_first(a: Seq<u32>, i: int, b: Seq<u32>, j: int) -> bool {
    lex_lt(a, b) || (a == b && i < j)
}

/// Whether `perm` lists all places of `keys`, in order of their keys.
pub open spec fn sorts(keys: Seq<Seq<u32>>, perm: Seq<usize>) -> bool {
    &&& perm.len() == keys.len()
    &&& forall|i: int| 0 <= i < perm.len() ==> (#[trigger] perm[i]) < keys.len()
    &&& forall|i: int, j: int|
        0 <= i < j < perm.len() ==> comes_first(
            keys[#[trigger] perm[i] as int],
            perm[i] as int,
            keys[#[trigger] perm[j] as int],
            perm[j] as int,
        )
}

/// The contents of keyed items.
pub open spec fn keyed(v: Seq<(Vec<u32>, usize)>) -> Seq<(Seq<u32>, usize)> {
    v.map_values(|p: (Vec<u32>, usize)| (p.0@, p.1))
}

/// The contents of a list of keys.
pub open spec fn key_lists(v: Seq<Vec<u32>>) -> Seq<Seq<u32>> {
    v.map_values(|k: Vec<u32>| k@)
}

/// `slice::sort` puts items in ascending order: pairs by their first part, then
/// by their second; lists of numbers in the order of dictionaries. It loses
/// and adds none.
#[verifier::external_body]
fn sort_pairs(v: &mut Vec<(Vec<u32>, usize)>)
    ensures
        keyed(final(v)@).to_multiset() == keyed(old(v)@).to_multiset(),
        forall|i: int, j: int|
            0 <= i < j < final(v)@.len() ==> !comes_first(
                (#[trigger] keyed(final(v)@)[j]).0,
                keyed(final(v)@)[j].1 as int,
                (#[trigger] keyed(final(v)@)[i]).0,
                keyed(final(v)@)[i].1 as int,
            ),
{
    v.sort()
}

/// The places of the keys, in order of the keys.
pub fn order_by_keys(keys: Vec<Vec<u32>>) -> (r: Vec<usize>)
    ensures
        sorts(key_lists(keys@), r@),
{
    let ghost k = key_lists(keys@);
    let n = keys.len();
    let mut pairs: Vec<(Vec<u32>, usize)> = Vec::new();
    let mut i: usize = 0;
    let mut keys = keys;
    let ghost all = keys@;
    // Taken from the end, so that the keys can be moved.
    while i < n
        invariant
            i <= n == all.len(),
            keys@ == all.take(n - i),
            k == key_lists(all),
            pairs@.len() == i,
            forall|j: int|
                0 <= j < i ==> #[trigger] keyed(pairs@)[j] == (k[n - 1 - j], (n - 1 - j) as usize),
        decreases n - i,
    {
        let key = keys.pop().unwrap();
        let place = n - 1 - i;
        let ghost before = pairs@;
        pairs.push((key, place));
        assert(keys@ =~= all.take(n - i - 1));
        assert(keyed(pairs@) =~= keyed(before).push((key@, place)));
        i += 1;
    }
    let ghost input = keyed(pairs@);
    assert(input.no_duplicates()) by {
        assert forall|a: int, b: int| 0 <= a < b < input.len() implies input[a] != input[b] by {
            assert(input[a].1 == n - 1 - a);
            assert(input[b].1 == n - 1 - b);
        }
    }
    sort_pairs(&mut pairs);
    let ghost output = keyed(pairs@);
    proof {
        input.lemma_multiset_has_no_duplicates();
        output.lemma_multiset_has_no_duplicates_conv();
        vstd::seq_lib::to_multiset_len(input);
        vstd::seq_lib::to_multiset_len(output);
        assert(output.len() == input.len());
        assert forall|a: int| 0 <= a < output.len() implies (#[trigger] output[a]).1 < n
            && output[a].0 == k[output[a].1 as int] by {
            assert(output.contains(output[a]));
            vstd::seq_lib::to_multiset_contains(output, output[a]);
            vstd::seq_lib::to_multiset_contains(input, output[a]);
            assert(output.to_multiset().count(output[a]) > 0);
            assert(input.contains(output[a]));
            let b = choose|b: int| 0 <= b < input.len() && input[b] == output[a];
            assert(input[b] == (k[n - 1 - b], (n - 1 - b) as usize));
        }
        assert forall|a: int, b: int| 0 <= a < b < output.len() implies comes_first(
            (#[trigger] output[a]).0,
            output[a].1 as int,
            (#[trigger] output[b]).0,
            output[b].1 as int,
        ) by {
            assert(output[a] != output[b]);
            lex_is_total(output[a].0, output[b].0);
        }
    }
    let mut out: Vec<usize> = Vec::new();
    let mut m: usize = 0;
    while m < pairs.len()
        invariant
            m <= pairs@.len(),
            output == keyed(pairs@),
            out@.len() == m,
            forall|j: int| 0 <= j < m ==> #[trigger] out@[j] == output[j].1,
        decreases pairs@.len() - m,
    {
        out.push(pairs[m].1);
        assert(output[m as int].1 == pairs@[m as int].1);
        m += 1;
    }
    assert forall|a: int, b: int| 0 <= a < b < out@.len() implies comes_first(
        k[#[trigger] out@[a] as int],
        out@[a] as int,
        k[#[trigger] out@[b] as int],
        out@[b] as int,
    ) by {
        assert(out@[a] == output[a].1);
        assert(out@[b] == output[b].1);
    }
    out
}

/// There is only one way to sort: two lists of places that sort the same keys
/// are the same.
pub proof fn sorting_is_unique(keys: Seq<Seq<u32>>, a: Seq<usize>, b: Seq<usize>, n: nat)
    requires
        sorts(keys, a),
        sorts(keys, b),
        n <= keys.len(),
    ensures
        a.take(n as int) == b.take(n as int),
    decreases n,
{
    if n == 0 {
        assert(a.take(0) =~= b.take(0));
    } else {
        let m = n - 1;
        sorting_is_unique(keys, a, b, m as nat);
        lemma_all_places(keys, a);
        lemma_all_places(keys, b);
        if a[m] != b[m] {
            // The place that `b` has at `m` comes later in `a`, and the other way round.
            assert(a.contains(b[m]) && b.contains(a[m]));
            let p = choose|p: int| 0 <= p < a.len() && a[p] == b[m];
            let q = choose|q: int| 0 <= q < b.len() && b[q] == a[m];
            if p < m {
                assert(a.take(m as int)[p] == b.take(m as int)[p]);
                assert(b[p] == b[m]);
                assert(comes_first(keys[b[p] as int], b[p] as int, keys[b[m] as int], b[m] as int));
                lex_is_strict(keys[b[m] as int], keys[b[m] as int]);
                assert(false);
            }
            if q < m {
                assert(a.take(m as int)[q] == b.take(m as int)[q]);
                assert(a[q] == a[m]);
                assert(comes_first(keys[a[q] as int], a[q] as int, keys[a[m] as int], a[m] as int));
                lex_is_strict(keys[a[m] as int], keys[a[m] as int]);
                assert(false);
            }
            assert(comes_first(keys[a[m] as int], a[m] as int, keys[a[p] as int], a[p] as int));
            assert(comes_first(keys[b[m] as int], b[m] as int, keys[b[q] as int], b[q] as int));
            lex_is_strict(keys[a[m] as int], keys[b[m] as int]);
            lex_is_strict(keys[b[m] as int], keys[a[m] as int]);
            assert(false);
        }
        assert(a.take(n as int) =~= a.take(m as int).push(a[m]));
        assert(b.take(n as int) =~= b.take(m as int).push(b[m]));
    }
}

/// Whether a list names a place.
pub open spec fn names_place(perm: Seq<usize>, v: int) -> bool {
    exists|p: int| 0 <= p < perm.len() && #[trigger] perm[p] as int == v
}

/// A list that sorts the keys names every place.
pub proof fn lemma_all_places(keys: Seq<Seq<u32>>, perm: Seq<usize>)
    requires
        sorts(keys, perm),
    ensures
        forall|v: usize| v < keys.len() ==> #[trigger] perm.contains(v),
        forall|v: int| 0 <= v < keys.len() ==> #[trigger] names_place(perm, v),
        perm.no_duplicates(),
{
    assert forall|i: int, j: int| 0 <= i < perm.len() && 0 <= j < perm.len() && i != j implies perm[i]
        != perm[j] by {
        if i < j {
            lex_is_strict(keys[perm[i] as int], keys[perm[i] as int]);
            assert(comes_first(
                keys[perm[i] as int],
                perm[i] as int,
                keys[perm[j] as int],
                perm[j] as int,
            ));
        } else {
            lex_is_strict(keys[perm[j] as int], keys[perm[j] as int]);
            assert(comes_first(
                keys[perm[j] as int],
                perm[j] as int,
                keys[perm[i] as int],
                perm[i] as int,
            ));
        }
    }
    let ints = perm.map_values(|x: usize| x as int);
    assert(ints.no_duplicates());
    ints.unique_seq_to_set();
    let range = vstd::set_lib::set_int_range(0, keys.len() as int);
    vstd::set_lib::lemma_int_range(0, keys.len() as int);
    assert(ints.to_set().subset_of(range));
    vstd::set_lib::lemma_subset_equality(ints.to_set(), range);
    assert forall|v: int| 0 <= v < keys.len() implies #[trigger] names_place(perm, v) by {
        assert(range.contains(v));
        assert(ints.contains(v));
        let p = choose|p: int| 0 <= p < ints.len() && ints[p] == v;
        assert(perm[p] as int == v);
    }
    assert forall|v: usize| v < keys.len() implies #[trigger] perm.contains(v) by {
        assert(names_place(perm, v as int));
        let p = choose|p: int| 0 <= p < perm.len() && #[trigger] perm[p] as int == v as int;
        assert(perm[p] == v);
    }
}

} // verus!
