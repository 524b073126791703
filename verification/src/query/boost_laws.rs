//! How the boosts of a query come together.
use crate::query::boost::{boost_of, fraction, greatest_boost, less_boost, scaled, zeros};
use crate::query::plan::CheckModel;
use crate::query::validate::{is_decimal_number, whole_part};
use crate::text::{decimal_of_decimal_text, decimal_text, is_digit, lemma_span_is};
use vstd::prelude::*;

verus! {

/// One more place scales a number by ten.
proof fn lemma_more_places(t: Seq<char>, places: nat)
    requires
        places >= fraction(t).len(),
    ensures
        scaled(t, places + 1) == 10 * scaled(t, places),
{
    let k = (places - fraction(t).len()) as nat;
    let s = whole_part(t) + fraction(t);
    let more = s + zeros(k + 1);
    assert(more.drop_last() =~= s + zeros(k));
    assert(more.last() == '0');
}

/// The order of two numbers is the same at any number of places.
proof fn lemma_same_order(a: Seq<char>, b: Seq<char>, few: nat, many: nat)
    requires
        fraction(a).len() <= few <= many,
        fraction(b).len() <= few,
    ensures
        scaled(a, few) < scaled(b, few) <==> scaled(a, many) < scaled(b, many),
    decreases many,
{
    if few < many {
        let m = (many - 1) as nat;
        lemma_same_order(a, b, few, m);
        lemma_more_places(a, m);
        lemma_more_places(b, m);
    }
}

spec fn most(a: nat, b: nat) -> nat {
    if a < b {
        b
    } else {
        a
    }
}

/// Boosts are ordered: what is less than a lesser one is less.
pub proof fn boosts_are_ordered(a: Seq<char>, b: Seq<char>, c: Seq<char>)
    ensures
        less_boost(a, b) && less_boost(b, c) ==> less_boost(a, c),
        !less_boost(a, a),
{
    let (x, y, z) = (fraction(a).len(), fraction(b).len(), fraction(c).len());
    let all = most(most(x, y), z);
    lemma_same_order(a, b, most(x, y), all);
    lemma_same_order(b, c, most(y, z), all);
    lemma_same_order(a, c, most(x, z), all);
}

/// Boosts that are whole numbers have the order of these.
pub proof fn whole_boosts_compare_as_numbers(m: nat, n: nat)
    ensures
        less_boost(decimal_text(m), decimal_text(n)) <==> m < n,
{
    lemma_whole(m);
    lemma_whole(n);
}

proof fn lemma_whole(n: nat)
    ensures
        is_decimal_number(decimal_text(n)),
        fraction(decimal_text(n)).len() == 0,
        scaled(decimal_text(n), 0) == n,
{
    let t = decimal_text(n);
    decimal_of_decimal_text(n);
    let p = |c: char| is_digit(c);
    lemma_span_is(t, p, t.len() as int);
    assert(whole_part(t) =~= t);
    assert(whole_part(t) + fraction(t) + zeros(0) =~= t);
}

/// The boost of several checks is that of one of them, or one; and neither is
/// greater than it.
pub proof fn the_greatest_boost_counts(v: Seq<CheckModel>, n: nat, i: int)
    requires
        n <= v.len(),
        0 <= i < n,
    ensures
        !less_boost(greatest_boost(v, n), boost_of(v[i])),
        !less_boost(greatest_boost(v, n), "1"@),
        greatest_boost(v, n) == "1"@ || exists|k: int|
            0 <= k < n && greatest_boost(v, n) == boost_of(#[trigger] v[k]),
    decreases n,
{
    let m = (n - 1) as nat;
    let before = greatest_boost(v, m);
    let own = boost_of(v[n - 1]);
    if m > 0 {
        the_greatest_boost_counts(v, m, if i < m {
            i
        } else {
            0
        });
    }
    boosts_are_ordered(before, own, boost_of(v[i]));
    boosts_are_ordered(before, own, "1"@);
    boosts_are_ordered(own, own, own);
    if greatest_boost(v, n) == own {
        assert(greatest_boost(v, n) == boost_of(v[n - 1]));
    } else if before != "1"@ {
        let k = choose|k: int| 0 <= k < m && before == boost_of(#[trigger] v[k]);
        assert(greatest_boost(v, n) == boost_of(v[k]));
    }
}

/// A boosted term has its own boost; what is boosted nowhere has none.
pub proof fn boosts_are_those_given(
    text: Seq<char>,
    boost: Seq<char>,
    case_insensitive: bool,
    v: Seq<CheckModel>,
)
    ensures
        boost_of((CheckModel::BoostedLiteral { text, boost })) == boost,
        boost_of((CheckModel::BoostedPhrase { text, case_insensitive, boost })) == boost,
        boost_of(CheckModel::Literal(text)) == "1"@,
        boost_of((CheckModel::Phrase { text, case_insensitive })) == "1"@,
        boost_of(CheckModel::Regex(text)) == "1"@,
        boost_of(CheckModel::And(v)) == boost_of(CheckModel::Or(v)),
{
}

} // verus!
