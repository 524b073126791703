//! How much a search collects, and which files it finds by their names.
use crate::path_laws::{are_names, file_name_is_the_last_name};
use crate::paths::joined;
use crate::query::content::stands_in;
use crate::query::index::Index;
use crate::query::line_laws::{lemma_encode_sum, lemma_stands};
use crate::query::lines::occurs_at;
use crate::query::plan::CheckModel;
use crate::query::ranking::{name_holds_term, ranked_target, spaced_words, terms_of, terms_of_all};
use crate::query::search::total_hits;
use crate::text::{byte_len, lemma_span_is, letter_or_digit, lower_case, white_space};
use vstd::prelude::*;
use vstd::utf8::encode_utf8;

verus! {

/// A ranked search without a limit collects every match, and with one half as
/// many again as the limit, as far as numbers reach.
pub proof fn enough_is_collected(limit: usize)
    ensures
        ranked_target(limit) is None <==> limit == 0,
        limit > 0 ==> ranked_target(limit)->0 >= limit,
        0 < limit <= usize::MAX / 2 ==> 2 * ranked_target(limit)->0 <= 3 * limit < 2
            * ranked_target(limit)->0 + 2,
{
}

proof fn lemma_target(
    index: Index,
    ids: Seq<u32>,
    n: nat,
    check: Option<CheckModel>,
    bounds: (Option<u32>, Option<u32>),
    target: nat,
)
    requires
        n <= ids.len(),
    ensures
        ({
            let some = index.verified(ids, n, check, bounds, Some(target));
            let all = index.verified(ids, n, check, bounds, None);
            &&& some.is_prefix_of(all)
            &&& total_hits(some) >= target || some == all
        }),
    decreases n,
{
    if n > 0 {
        let m = (n - 1) as nat;
        lemma_target(index, ids, m, check, bounds, target);
        let some = index.verified(ids, m, check, bounds, Some(target));
        let all = index.verified(ids, m, check, bounds, None);
        let now = index.verified(ids, n, check, bounds, Some(target));
        let full = index.verified(ids, n, check, bounds, None);
        assert(full == all || (full.len() == all.len() + 1 && full.drop_last() =~= all));
        assert(all.is_prefix_of(full));
        if check is None {
            lemma_without_check(index, ids, n, bounds, target);
        } else if total_hits(some) >= target {
            assert(now == some);
            assert(now.is_prefix_of(full));
        } else {
            assert(now =~= full);
        }
    }
}

proof fn lemma_without_check(
    index: Index,
    ids: Seq<u32>,
    n: nat,
    bounds: (Option<u32>, Option<u32>),
    target: nat,
)
    ensures
        index.verified(ids, n, None, bounds, Some(target)) == index.verified(
            ids,
            n,
            None,
            bounds,
            None,
        ),
    decreases n,
{
    if n > 0 {
        lemma_without_check(index, ids, (n - 1) as nat, bounds, target);
    }
}

/// A search for a number of matches gives the first results of the search for
/// all: enough of them, or every one.
pub proof fn a_search_ends_once_it_has_enough(
    index: Index,
    ids: Seq<u32>,
    check: Option<CheckModel>,
    bounds: (Option<u32>, Option<u32>),
    target: nat,
)
    ensures
        ({
            let some = index.verified(ids, ids.len(), check, bounds, Some(target));
            let all = index.verified(ids, ids.len(), check, bounds, None);
            &&& some.is_prefix_of(all)
            &&& total_hits(some) >= target || some == all
        }),
{
    lemma_target(index, ids, ids.len(), check, bounds, target);
}

/// A listing with a limit is the start of the listing without one: as much of it
/// as the limit allows.
pub proof fn a_limited_listing_is_a_start(
    index: Index,
    ids: Seq<u32>,
    n: nat,
    check: Option<CheckModel>,
    bounds: (Option<u32>, Option<u32>),
    limit: nat,
)
    requires
        n <= ids.len(),
        limit > 0,
    ensures
        ({
            let some = index.matching_paths(ids, n, check, bounds, limit);
            let all = index.matching_paths(ids, n, check, bounds, 0);
            &&& some.is_prefix_of(all)
            &&& some.len() == if all.len() < limit {
                all.len()
            } else {
                limit
            }
        }),
    decreases n,
{
    if n > 0 {
        let m = (n - 1) as nat;
        a_limited_listing_is_a_start(index, ids, m, check, bounds, limit);
        let some = index.matching_paths(ids, m, check, bounds, limit);
        let all = index.matching_paths(ids, m, check, bounds, 0);
        let now = index.matching_paths(ids, n, check, bounds, limit);
        let full = index.matching_paths(ids, n, check, bounds, 0);
        assert(full == all || (full.len() == all.len() + 1 && full.drop_last() =~= all));
        assert(all.is_prefix_of(full));
        if some.len() == all.len() {
            assert(some =~= all);
            if some.len() < limit {
                assert(now =~= full);
            }
        }
    }
}

/// Every document of a list whose name holds a term is found by its name, with
/// its own path, and no other.
pub proof fn files_are_found_by_name(
    index: Index,
    ids: Seq<u32>,
    n: nat,
    terms: Seq<Seq<char>>,
    d: u32,
    path: Seq<char>,
)
    requires
        n <= ids.len(),
    ensures
        index.named(ids, n, terms, 0).contains((d, path)) <==> d < index.documents@.len() && path
            == index.documents@[d as int].path@ && name_holds_term(path, terms) && exists|k: int|
            0 <= k < n && #[trigger] ids[k] == d,
    decreases n,
{
    if n > 0 {
        let m = (n - 1) as nat;
        files_are_found_by_name(index, ids, m, terms, d, path);
        let before = index.named(ids, m, terms, 0);
        let all = index.named(ids, n, terms, 0);
        if before.contains((d, path)) {
            let k = choose|k: int| 0 <= k < before.len() && before[k] == (d, path);
            assert(all[k] == (d, path));
        }
        if all.contains((d, path)) {
            let k = choose|k: int| 0 <= k < all.len() && all[k] == (d, path);
            if k < before.len() {
                assert(before[k] == (d, path));
            } else {
                assert(ids[n - 1] == d);
            }
        }
        if ids[n - 1] == d && d < index.documents@.len() && path
            == index.documents@[d as int].path@ && name_holds_term(path, terms) {
            assert(all[before.len() as int] == (d, path));
        }
    }
}

/// With a limit, the first of these are found.
pub proof fn a_limit_keeps_the_first_names(
    index: Index,
    ids: Seq<u32>,
    n: nat,
    terms: Seq<Seq<char>>,
    limit: nat,
)
    requires
        n <= ids.len(),
        limit > 0,
    ensures
        ({
            let some = index.named(ids, n, terms, limit);
            let all = index.named(ids, n, terms, 0);
            &&& some.is_prefix_of(all)
            &&& some.len() == if all.len() < limit {
                all.len()
            } else {
                limit
            }
        }),
    decreases n,
{
    if n > 0 {
        let m = (n - 1) as nat;
        a_limit_keeps_the_first_names(index, ids, m, terms, limit);
        let some = index.named(ids, m, terms, limit);
        let all = index.named(ids, m, terms, 0);
        let now = index.named(ids, n, terms, limit);
        let full = index.named(ids, n, terms, 0);
        assert(full == all || (full.len() == all.len() + 1 && full.drop_last() =~= all));
        assert(all.is_prefix_of(full));
        if some.len() == all.len() {
            assert(some =~= all);
            if some.len() < limit {
                assert(now =~= full);
            }
        }
    }
}

/// The name of a file holds a term that stands anywhere in it, whatever the case
/// of its letters; the directories that it lies in do not count.
pub proof fn names_hold_their_parts(
    names: Seq<Seq<char>>,
    before: Seq<char>,
    term: Seq<char>,
    after: Seq<char>,
    terms: Seq<Seq<char>>,
    k: int,
)
    requires
        are_names(names),
        names.len() > 0,
        lower_case(names.last()) == before + term + after,
        0 <= k < terms.len(),
        terms[k] == term,
    ensures
        name_holds_term(joined(names), terms),
{
    file_name_is_the_last_name(names);
    let low = lower_case(names.last());
    lemma_encode_sum(before + term, after);
    lemma_encode_sum(before, term);
    let p = encode_utf8(before).len() as int;
    assert(encode_utf8(low).subrange(p, p + encode_utf8(term).len()) =~= encode_utf8(term));
    assert(occurs_at(encode_utf8(low), encode_utf8(term), p));
    lemma_stands(low, term);
    assert(stands_in(low, terms[k]));
}

/// The words of a text stand between white space: the first one comes first, and
/// what follows it gives the others.
pub proof fn words_stand_between_white_space(
    before: Seq<char>,
    word: Seq<char>,
    rest: Seq<char>,
)
    requires
        forall|i: int| 0 <= i < before.len() ==> white_space(#[trigger] before[i]),
        word.len() > 0,
        forall|i: int| 0 <= i < word.len() ==> !white_space(#[trigger] word[i]),
        rest.len() > 0 ==> white_space(rest[0]),
    ensures
        spaced_words(before + word + rest) == seq![word] + spaced_words(rest),
        spaced_words(before) == Seq::<Seq<char>>::empty(),
{
    let all = before + word + rest;
    let blank = |c: char| white_space(c);
    let inked = |c: char| !white_space(c);
    assert forall|i: int| 0 <= i < before.len() implies blank(#[trigger] all[i]) by {
        assert(all[i] == before[i]);
    }
    assert(all[before.len() as int] == word[0]);
    lemma_span_is(all, blank, before.len() as int);
    let tail = all.skip(before.len() as int);
    assert(tail =~= word + rest);
    assert forall|i: int| 0 <= i < word.len() implies inked(#[trigger] tail[i]) by {
        assert(tail[i] == word[i]);
    }
    if rest.len() > 0 {
        assert(tail[word.len() as int] == rest[0]);
    }
    lemma_span_is(tail, inked, word.len() as int);
    assert(tail.take(word.len() as int) =~= word);
    assert(tail.skip(word.len() as int) =~= rest);
    lemma_span_is(before, blank, before.len() as int);
}

/// A single word of at least two bytes is a term that names are searched for.
/// So is what a pattern starts with, as far as it is letters, digits and
/// underscores. What is excluded gives no terms, and what stands together gives
/// those of each.
pub proof fn words_are_terms_for_names(
    word: Seq<char>,
    sign: char,
    rest: Seq<char>,
    v: Seq<CheckModel>,
    check: CheckModel,
)
    requires
        byte_len(word) >= 2,
        word.len() > 0,
        forall|i: int| 0 <= i < word.len() ==> !white_space(#[trigger] word[i]),
    ensures
        terms_of(CheckModel::Literal(word)) == seq![word],
        terms_of((CheckModel::Phrase { text: word, case_insensitive: true })) == seq![word],
        terms_of((CheckModel::Phrase { text: word, case_insensitive: false })) == seq![word],
        (forall|i: int| 0 <= i < word.len() ==> letter_or_digit(#[trigger] word[i]) || word[i] == '_')
            && !(letter_or_digit(sign) || sign == '_') ==> terms_of(
            CheckModel::Regex(word.push(sign) + rest),
        ) == seq![word],
        terms_of(CheckModel::Not(Box::new(check))) == Seq::<Seq<char>>::empty(),
        terms_of(CheckModel::And(v.push(check))) == terms_of(CheckModel::And(v)) + terms_of(check),
        terms_of(CheckModel::Or(v.push(check))) == terms_of(CheckModel::And(v.push(check))),
{
    let none = Seq::<char>::empty();
    words_stand_between_white_space(none, word, none);
    assert(none + word + none =~= word);
    assert(seq![word] + spaced_words(none) =~= seq![word]);
    reveal_with_fuel(crate::query::ranking::long_enough, 3);
    assert(seq![word].drop_last() =~= Seq::<Seq<char>>::empty());
    assert(Seq::<Seq<char>>::empty().push(word) =~= seq![word]);
    if (forall|i: int| 0 <= i < word.len() ==> letter_or_digit(#[trigger] word[i]) || word[i] == '_')
        && !(letter_or_digit(sign) || sign == '_') {
        let pattern = word.push(sign) + rest;
        let p = |c: char| letter_or_digit(c) || c == '_';
        assert forall|i: int| 0 <= i < word.len() implies p(#[trigger] pattern[i]) by {
            assert(pattern[i] == word[i]);
        }
        assert(pattern[word.len() as int] == sign);
        lemma_span_is(pattern, p, word.len() as int);
        assert(pattern.take(word.len() as int) =~= word);
    }
    lemma_terms_start(v, v.push(check), v.len());
    assert(v.push(check)[v.len() as int] == check);
}

proof fn lemma_terms_start(v: Seq<CheckModel>, w: Seq<CheckModel>, n: nat)
    requires
        n <= v.len() <= w.len(),
        forall|i: int| 0 <= i < v.len() ==> v[i] == w[i],
    ensures
        terms_of_all(v, n) == terms_of_all(w, n),
    decreases n,
{
    if n > 0 {
        lemma_terms_start(v, w, (n - 1) as nat);
    }
}

} // verus!
