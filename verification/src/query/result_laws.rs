//! What a search shows: the lines around a match, the lines that are asked for,
//! every match of every file, and counts per file.
use crate::order::{lex_lt, names_place};
use crate::paths::{
    component_key, components, components_key, path_key, same_key_is_same_path, same_path,
};
use crate::query::ast::QueryModel;
use crate::query::content::{check_hits, numbered_between, Hit};
use crate::query::index::Index;
use crate::query::lines::lines;
use crate::query::plan::CheckModel;
use crate::query::planner::plan_of;
use crate::query::rank_laws::sorting_moves_each_item_once;
use crate::query::scan_laws::{lemma_ascending_list, lemma_found_eligible, lists_valid};
use crate::query::search::{
    arranged, ascending_list, content_key, content_keys, hit_paths, hits_in_context, in_context,
    kept_lines, limited, line_bounds, lines_after, lines_before, tally, ContentHit, FileHits,
};
use crate::server::requests::are_the_matches;
use vstd::prelude::*;

verus! {

/// Whether numbered lines come in ascending order, each once.
pub open spec fn ascending_lines(r: Seq<(u32, Seq<char>)>) -> bool {
    forall|i: int, j: int| 0 <= i < j < r.len() ==> (#[trigger] r[i]).0 < (#[trigger] r[j]).0
}

proof fn lemma_numbered(v: Seq<Seq<char>>, a: int, b: int, k: u32, t: Seq<char>)
    requires
        v.len() < u32::MAX,
        0 <= a,
    ensures
        numbered_between(v, a, b).contains((k, t)) <==> a < k <= b && k <= v.len() && t == v[k - 1],
        ascending_lines(numbered_between(v, a, b)),
        numbered_between(v, a, b).len() == if b <= a || v.len() <= a {
            0
        } else if b <= v.len() {
            b - a
        } else {
            v.len() - a
        },
{
    let r = numbered_between(v, a, b);
    if r.contains((k, t)) {
        let i = choose|i: int| 0 <= i < r.len() && r[i] == (k, t);
        assert(r[i] == ((a + i + 1) as u32, v[a + i]));
    }
    if a < k <= b && k <= v.len() && t == v[k - 1] {
        assert(r[k - 1 - a] == (k, t));
    }
}

/// The lines before a match are those that stand directly before its line, as
/// many as are asked for or as there are, each with its number and its text, in
/// their order and each once.
pub proof fn context_before_is_what_stands_before(text: Seq<char>, m: u32, n: u32, k: u32, t: Seq<char>)
    requires
        m >= 1,
        lines(text).len() < u32::MAX,
        m <= lines(text).len(),
    ensures
        lines_before(text, m, n).contains((k, t)) <==> m - n <= k < m && 1 <= k <= lines(text).len()
            && t == lines(text)[k - 1],
        ascending_lines(lines_before(text, m, n)),
        lines_before(text, m, n).len() == if n < m - 1 {
            n as int
        } else {
            m - 1
        },
{
    let a = if m - 1 >= n {
        m - 1 - n
    } else {
        0
    };
    lemma_numbered(lines(text), a, m - 1, k, t);
}

/// The lines after a match are those that stand directly after its line, as many
/// as are asked for or as there are, each with its number and its text, in their
/// order and each once.
pub proof fn context_after_is_what_stands_after(text: Seq<char>, m: u32, n: u32, k: u32, t: Seq<char>)
    requires
        m >= 1,
        lines(text).len() < u32::MAX,
        m <= lines(text).len(),
    ensures
        lines_after(text, m, n).contains((k, t)) <==> m < k <= m + n && k <= lines(text).len() && t
            == lines(text)[k - 1],
        ascending_lines(lines_after(text, m, n)),
        lines_after(text, m, n).len() == if m + n < lines(text).len() {
            n as int
        } else {
            lines(text).len() - m
        },
{
    lemma_numbered(lines(text), m as int, m + n, k, t);
}

/// A range of lines keeps exactly the matches on lines within it, both ends
/// included, in their order; where an end is left open, it sets no bound.
pub proof fn line_range_keeps_its_lines(v: Seq<Hit>, low: Option<u32>, high: Option<u32>)
    ensures
        kept_lines(v, low, high) == v.filter(
            |h: Hit| (low is None || low->0 <= h.0) && (high is None || h.0 <= high->0),
        ),
    decreases v.len(),
{
    reveal(Seq::filter);
    if v.len() > 0 {
        line_range_keeps_its_lines(v.drop_last(), low, high);
    } else {
        assert(kept_lines(v, low, high) =~= v.filter(
            |h: Hit| (low is None || low->0 <= h.0) && (high is None || h.0 <= high->0),
        ));
    }
}

proof fn lemma_in_context(
    r: FileHits,
    n: nat,
    text: Option<Seq<char>>,
    before: u32,
    after: u32,
)
    requires
        n <= r.hits.len(),
    ensures
        hits_in_context(r, n, text, before, after).len() == n,
        forall|i: int|
            0 <= i < n ==> #[trigger] hits_in_context(r, n, text, before, after)[i] == in_context(
                r.path,
                r.hits[i],
                text,
                before,
                after,
            ),
    decreases n,
{
    if n > 0 {
        lemma_in_context(r, (n - 1) as nat, text, before, after);
    }
}

/// Every match of a file is shown, one by one and in their order, with its path,
/// line, place and the lines around it in the file's text; a file without matches
/// is shown once, without a line. A further file adds its own and changes nothing
/// about the others.
pub proof fn each_match_is_shown(
    index: Index,
    v: Seq<FileHits>,
    r: FileHits,
    before: u32,
    after: u32,
)
    requires
        index.text(r.doc) is Some,
    ensures
        ({
            let front = index.all_in_context(v, v.len(), before, after);
            let all = index.all_in_context(v.push(r), v.len() + 1, before, after);
            let text = index.text(r.doc)->0;
            &&& v.len() == 0 ==> front.len() == 0
            &&& all.len() == front.len() + if r.hits.len() == 0 {
                1
            } else {
                r.hits.len()
            }
            &&& forall|i: int| 0 <= i < front.len() ==> #[trigger] all[i] == front[i]
            &&& r.hits.len() > 0 ==> forall|i: int|
                front.len() <= i < all.len() ==> {
                    let h = #[trigger] all[i];
                    let hit = r.hits[i - front.len()];
                    &&& h.path == r.path
                    &&& h.line_number == hit.0
                    &&& h.line_content == hit.1
                    &&& h.match_start == hit.2
                    &&& h.match_end == hit.3
                    &&& h.context_before == lines_before(text, hit.0, before)
                    &&& h.context_after == lines_after(text, hit.0, after)
                }
            &&& r.hits.len() == 0 ==> {
                let h = all[front.len() as int];
                h.path == r.path && h.line_number == 1 && h.line_content.len() == 0
                    && h.context_before.len() == 0 && h.context_after.len() == 0
            }
        }),
{
    let w = v.push(r);
    lemma_context_prefix(index, v, r, v.len(), before, after);
    assert(w[v.len() as int] == r);
    lemma_in_context(r, r.hits.len(), index.text(r.doc), before, after);
    let front = index.all_in_context(v, v.len(), before, after);
    let all = index.all_in_context(w, v.len() + 1, before, after);
    if r.hits.len() > 0 {
        let more = hits_in_context(r, r.hits.len(), index.text(r.doc), before, after);
        assert(all == front + more);
        assert forall|i: int| front.len() <= i < all.len() implies #[trigger] all[i] == in_context(
            r.path,
            r.hits[i - front.len()],
            index.text(r.doc),
            before,
            after,
        ) by {
            assert(all[i] == more[i - front.len()]);
        }
    }
}

proof fn lemma_context_prefix(
    index: Index,
    v: Seq<FileHits>,
    r: FileHits,
    n: nat,
    before: u32,
    after: u32,
)
    requires
        n <= v.len(),
    ensures
        index.all_in_context(v.push(r), n, before, after) == index.all_in_context(
            v,
            n,
            before,
            after,
        ),
    decreases n,
{
    if n > 0 {
        lemma_context_prefix(index, v, r, (n - 1) as nat, before, after);
        assert(v.push(r)[n - 1] == v[n - 1]);
    }
}

proof fn lemma_lex_after(a: Seq<u32>, x: Seq<u32>, y: Seq<u32>)
    ensures
        lex_lt(a + x, a + y) == lex_lt(x, y),
    decreases a.len(),
{
    if a.len() == 0 {
        assert(a + x =~= x && a + y =~= y);
    } else {
        lemma_lex_after(a.drop_first(), x, y);
        assert((a + x).drop_first() =~= a.drop_first() + x);
        assert((a + y).drop_first() =~= a.drop_first() + y);
    }
}

/// Within a file, matches come in order of their lines.
pub proof fn matches_of_a_file_come_by_line(a: ContentHit, b: ContentHit)
    requires
        same_path(a.path, b.path),
    ensures
        lex_lt(
            content_key(a.path, a.line_number),
            content_key(b.path, b.line_number),
        ) <==> a.line_number < b.line_number,
{
    same_key_is_same_path(a.path, b.path);
    let p = path_key(a.path);
    let x = seq![0u32, a.line_number];
    let y = seq![0u32, b.line_number];
    lemma_lex_after(p, x, y);
    assert(x.drop_first() =~= seq![a.line_number]);
    assert(y.drop_first() =~= seq![b.line_number]);
    reveal_with_fuel(lex_lt, 3);
    assert(lex_lt(x.drop_first(), y.drop_first()) <==> a.line_number < b.line_number);
}

/// Number of places at which a path stands.
pub open spec fn times(v: Seq<Seq<char>>, p: Seq<char>) -> nat {
    v.filter(|q: Seq<char>| same_path(p, q)).len()
}

/// Whether each path stands in one row: where a path has come before, it has just
/// come.
pub open spec fn grouped(v: Seq<Seq<char>>) -> bool {
    forall|i: int, k: int|
        0 <= i < k < v.len() && #[trigger] same_path(v[i], v[k]) ==> same_path(v[k - 1], v[k])
}

/// Of paths that stand in rows, as those of matches in order do, each is counted
/// once, as often as it stands there.
pub proof fn counts_are_those_of_the_paths(v: Seq<Seq<char>>)
    requires
        grouped(v),
    ensures
        forall|i: int|
            0 <= i < tally(v).len() ==> (#[trigger] tally(v)[i]).1 == times(v, tally(v)[i].0)
                && tally(v)[i].1 > 0,
        forall|i: int, j: int|
            0 <= i < j < tally(v).len() ==> !same_path(
                (#[trigger] tally(v)[i]).0,
                (#[trigger] tally(v)[j]).0,
            ),
        v.len() > 0 ==> tally(v).len() > 0 && same_path(tally(v).last().0, v.last()),
        forall|i: int| 0 <= i < tally(v).len() ==> v.contains((#[trigger] tally(v)[i]).0),
        forall|k: int| 0 <= k < v.len() ==> is_counted(tally(v), #[trigger] v[k]),
    decreases v.len(),
{
    reveal(Seq::filter);
    if v.len() > 0 {
        let front = v.drop_last();
        let last = v.last();
        assert forall|i: int, k: int|
            0 <= i < k < front.len() && #[trigger] same_path(
                front[i],
                front[k],
            ) implies same_path(front[k - 1], front[k]) by {
            assert(same_path(v[i], v[k]));
        }
        counts_are_those_of_the_paths(front);
        let before = tally(front);
        let all = tally(v);
        assert forall|i: int| 0 <= i < before.len() && same_path(before[i].0, last) implies i
            == before.len() - 1 by {
            assert(front.contains(before[i].0));
            let x = choose|x: int| 0 <= x < front.len() && front[x] == before[i].0;
            let n = front.len() - 1;
            assert(v[x] == before[i].0 && v[n + 1] == last && v[n] == front.last());
            assert(same_path(v[x], v[n + 1]));
            assert(same_path(before.last().0, front.last()));
            assert(same_path(before[i].0, before.last().0));
        }
        assert forall|i: int| 0 <= i < all.len() implies (#[trigger] all[i]).1 == times(
            v,
            all[i].0,
        ) && all[i].1 > 0 by {
            if i < before.len() {
                assert(all[i].0 == before[i].0);
                assert(before[i].1 == times(front, before[i].0));
            } else {
                // A new path: it does not stand before.
                assert(all[i].0 == last);
                assert(times(front, last) == 0) by {
                    if times(front, last) > 0 {
                        let f = front.filter(|q: Seq<char>| same_path(last, q));
                        lemma_filtered(front, |q: Seq<char>| same_path(last, q), 0);
                        let x = choose|x: int| 0 <= x < front.len() && front[x] == f[0];
                        assert(is_counted(before, front[x]));
                        let y = choose|y: int|
                            0 <= y < before.len() && same_path((#[trigger] before[y]).0, front[x]);
                        assert(same_path(before[y].0, last));
                        assert(y == before.len() - 1);
                    }
                }
            }
        }
        assert forall|i: int, j: int| 0 <= i < j < all.len() implies !same_path(
            (#[trigger] all[i]).0,
            (#[trigger] all[j]).0,
        ) by {
            assert(all[i].0 == before[i].0);
            if j < before.len() {
                assert(all[j].0 == before[j].0);
            }
        }
        assert forall|i: int| 0 <= i < all.len() implies v.contains((#[trigger] all[i]).0) by {
            if i < before.len() {
                assert(all[i].0 == before[i].0);
                assert(front.contains(before[i].0));
                let x = choose|x: int| 0 <= x < front.len() && front[x] == before[i].0;
                assert(v[x] == all[i].0);
            } else {
                assert(v[v.len() - 1] == all[i].0);
            }
        }
        assert forall|k: int| 0 <= k < v.len() implies is_counted(all, #[trigger] v[k]) by {
            if k < front.len() {
                assert(is_counted(before, front[k]));
                let y = choose|y: int|
                    0 <= y < before.len() && same_path((#[trigger] before[y]).0, front[k]);
                assert(all[y].0 == before[y].0);
            } else {
                assert(same_path(all[all.len() - 1].0, last));
            }
        }
    }
}

/// Whether a path is among those that are counted.
pub open spec fn is_counted(r: Seq<(Seq<char>, nat)>, p: Seq<char>) -> bool {
    exists|i: int| 0 <= i < r.len() && same_path((#[trigger] r[i]).0, p)
}

proof fn lemma_filtered(v: Seq<Seq<char>>, p: spec_fn(Seq<char>) -> bool, i: int)
    requires
        0 <= i < v.filter(p).len(),
    ensures
        p(v.filter(p)[i]),
        v.contains(v.filter(p)[i]),
    decreases v.len(),
{
    reveal(Seq::filter);
    if v.len() > 0 {
        let front = v.drop_last();
        if i < front.filter(p).len() {
            lemma_filtered(front, p, i);
            let x = choose|x: int| 0 <= x < front.len() && front[x] == front.filter(p)[i];
            assert(v[x] == v.filter(p)[i]);
        } else {
            assert(v[v.len() - 1] == v.filter(p)[i]);
        }
    }
}

/// Without a target, a search looks at each candidate: it is a result exactly
/// where it has matches within the bounds on lines, with all of them.
pub proof fn each_candidate_is_looked_at(
    index: Index,
    ids: Seq<u32>,
    check: CheckModel,
    bounds: (Option<u32>, Option<u32>),
    d: u32,
)
    ensures
        ({
            let v = index.verified(ids, ids.len(), Some(check), bounds, None);
            let hits = kept_lines(check_hits(index.text(d)->0, check), bounds.0, bounds.1);
            &&& ids.contains(d) && d < index.documents@.len() && index.text(d) is Some && hits.len()
                > 0 ==> v.contains(
                (FileHits {
                    doc: d,
                    path: index.documents@[d as int].path@,
                    mtime: index.documents@[d as int].mtime,
                    hits,
                }),
            )
            &&& forall|i: int|
                0 <= i < v.len() ==> {
                    let r = #[trigger] v[i];
                    &&& ids.contains(r.doc)
                    &&& r.doc < index.documents@.len()
                    &&& index.text(r.doc) is Some
                    &&& r.path == index.documents@[r.doc as int].path@
                    &&& r.mtime == index.documents@[r.doc as int].mtime
                    &&& r.hits == kept_lines(
                        check_hits(index.text(r.doc)->0, check),
                        bounds.0,
                        bounds.1,
                    )
                    &&& r.hits.len() > 0
                }
        }),
{
    lemma_looked_at(index, ids, ids.len(), check, bounds);
    let v = index.verified(ids, ids.len(), Some(check), bounds, None);
    if ids.contains(d) {
        let k = choose|k: int| 0 <= k < ids.len() && ids[k] == d;
        assert(ids[k] == d);
    }
}

proof fn lemma_looked_at(
    index: Index,
    ids: Seq<u32>,
    n: nat,
    check: CheckModel,
    bounds: (Option<u32>, Option<u32>),
)
    requires
        n <= ids.len(),
    ensures
        ({
            let v = index.verified(ids, n, Some(check), bounds, None);
            &&& forall|k: int|
                0 <= k < n && (#[trigger] ids[k]) < index.documents@.len() && index.text(
                    ids[k],
                ) is Some && kept_lines(
                    check_hits(index.text(ids[k])->0, check),
                    bounds.0,
                    bounds.1,
                ).len() > 0 ==> v.contains(
                    index.result(
                        ids[k],
                        kept_lines(
                            check_hits(index.text(ids[k])->0, check),
                            bounds.0,
                            bounds.1,
                        ),
                    ),
                )
            &&& forall|i: int|
                0 <= i < v.len() ==> {
                    let r = #[trigger] v[i];
                    &&& ids.contains(r.doc)
                    &&& r.doc < index.documents@.len()
                    &&& index.text(r.doc) is Some
                    &&& r == index.result(r.doc, r.hits)
                    &&& r.hits == kept_lines(
                        check_hits(index.text(r.doc)->0, check),
                        bounds.0,
                        bounds.1,
                    )
                    &&& r.hits.len() > 0
                }
        }),
    decreases n,
{
    if n > 0 {
        lemma_looked_at(index, ids, (n - 1) as nat, check, bounds);
        let before = index.verified(ids, (n - 1) as nat, Some(check), bounds, None);
        let v = index.verified(ids, n, Some(check), bounds, None);
        assert(ids.contains(ids[n - 1]));
        assert forall|k: int|
            0 <= k < n && (#[trigger] ids[k]) < index.documents@.len() && index.text(
                ids[k],
            ) is Some && kept_lines(
                check_hits(index.text(ids[k])->0, check),
                bounds.0,
                bounds.1,
            ).len() > 0 implies v.contains(
            index.result(
                ids[k],
                kept_lines(check_hits(index.text(ids[k])->0, check), bounds.0, bounds.1),
            ),
        ) by {
            let x = index.result(
                ids[k],
                kept_lines(check_hits(index.text(ids[k])->0, check), bounds.0, bounds.1),
            );
            if k < n - 1 {
                assert(before.contains(x));
                let i = choose|i: int| 0 <= i < before.len() && before[i] == x;
                assert(v[i] == x);
            } else {
                assert(v[v.len() - 1] == x);
            }
        }
        assert forall|i: int| 0 <= i < v.len() implies {
            let r = #[trigger] v[i];
            &&& ids.contains(r.doc)
            &&& r.doc < index.documents@.len()
            &&& index.text(r.doc) is Some
            &&& r == index.result(r.doc, r.hits)
            &&& r.hits == kept_lines(
                check_hits(index.text(r.doc)->0, check),
                bounds.0,
                bounds.1,
            )
            &&& r.hits.len() > 0
        } by {
            if i < before.len() {
                assert(v[i] == before[i]);
            }
        }
    }
}

/// A key of a path has no zero.
proof fn lemma_key_without_zero(path: Seq<char>)
    ensures
        forall|i: int| 0 <= i < path_key(path).len() ==> #[trigger] path_key(path)[i] > 0,
{
    lemma_components_key_without_zero(components(path), components(path).len());
}

proof fn lemma_components_key_without_zero(v: Seq<Seq<char>>, n: nat)
    ensures
        forall|i: int|
            0 <= i < components_key(v, n).len() ==> #[trigger] components_key(v, n)[i] > 0,
    decreases n,
{
    if n > 0 && n <= v.len() {
        lemma_components_key_without_zero(v, (n - 1) as nat);
        let front = components_key(v, (n - 1) as nat);
        let last = component_key(v[n - 1]);
        assert forall|i: int| 0 <= i < last.len() implies #[trigger] last[i] > 0 by {
            if 0 < i < last.len() - 1 {
                vstd::utf8::char_is_scalar(v[n - 1][i - 1]);
                assert(last[i] == (v[n - 1][i - 1] as u32 + 6) as u32);
            }
        }
        assert forall|i: int| 0 <= i < components_key(v, n).len() implies #[trigger] components_key(
            v,
            n,
        )[i] > 0 by {
            if i >= front.len() {
                assert(components_key(v, n)[i] == last[i - front.len()]);
            } else {
                assert(components_key(v, n)[i] == front[i]);
            }
        }
    }
}

/// What stands between two keys of one path is a key of that path.
proof fn lemma_between(p: Seq<u32>, q: Seq<u32>, a: u32, b: u32, c: u32)
    requires
        forall|i: int| 0 <= i < p.len() ==> #[trigger] p[i] > 0,
        forall|i: int| 0 <= i < q.len() ==> #[trigger] q[i] > 0,
        !lex_lt(q + seq![0u32, b], p + seq![0u32, a]),
        !lex_lt(p + seq![0u32, c], q + seq![0u32, b]),
    ensures
        p == q,
    decreases p.len(),
{
    let x = p + seq![0u32, a];
    let y = q + seq![0u32, b];
    let z = p + seq![0u32, c];
    if p.len() > 0 && q.len() > 0 {
        assert(p[0] == q[0]);
        let u = p.drop_first();
        let w = q.drop_first();
        assert(x.drop_first() =~= u + seq![0u32, a]);
        assert(y.drop_first() =~= w + seq![0u32, b]);
        assert(z.drop_first() =~= u + seq![0u32, c]);
        lemma_between(u, w, a, b, c);
        assert(p =~= seq![p[0]] + u);
        assert(q =~= seq![q[0]] + w);
    } else if p.len() == 0 && q.len() > 0 {
        assert(z[0] == 0 && y[0] == q[0]);
        assert(false);
    } else if p.len() > 0 {
        assert(y[0] == 0 && x[0] == p[0]);
        assert(false);
    } else {
        assert(p =~= q);
    }
}

/// The matches of a search come file by file, in a limited search too, so that
/// each file is counted once and with all its lines among them.
pub proof fn matches_come_file_by_file(
    items: Seq<ContentHit>,
    sorted: Seq<ContentHit>,
    limit: nat,
)
    requires
        arranged(items, content_keys(items), sorted),
    ensures
        grouped(hit_paths(limited(sorted, limit))),
{
    let keys = content_keys(items);
    let perm = sorting_moves_each_item_once(items, keys, sorted);
    let v = hit_paths(limited(sorted, limit));
    assert forall|i: int, k: int|
        0 <= i < k < v.len() && #[trigger] same_path(v[i], v[k]) implies same_path(
        v[k - 1],
        v[k],
    ) by {
        let j = k - 1;
        let a = sorted[i];
        let b = sorted[j];
        let c = sorted[k];
        assert(v[i] == a.path && v[j] == b.path && v[k] == c.path);
        assert(a == items[perm[i] as int] && b == items[perm[j] as int] && c
            == items[perm[k] as int]);
        same_key_is_same_path(a.path, c.path);
        same_key_is_same_path(b.path, c.path);
        lemma_key_without_zero(a.path);
        lemma_key_without_zero(b.path);
        if i < j {
            assert(!lex_lt(keys[perm[j] as int], keys[perm[i] as int]));
            assert(!lex_lt(keys[perm[k] as int], keys[perm[j] as int]));
            lemma_between(
                path_key(a.path),
                path_key(b.path),
                a.line_number,
                b.line_number,
                c.line_number,
            );
        }
    }
}

proof fn lemma_match_in_context(
    index: Index,
    v: Seq<FileHits>,
    n: nat,
    before: u32,
    after: u32,
    x: int,
    k: int,
) -> (i: int)
    requires
        0 <= x < n <= v.len(),
        0 <= k < v[x].hits.len(),
    ensures
        0 <= i < index.all_in_context(v, n, before, after).len(),
        index.all_in_context(v, n, before, after)[i] == in_context(
            v[x].path,
            v[x].hits[k],
            index.text(v[x].doc),
            before,
            after,
        ),
    decreases n,
{
    let front = index.all_in_context(v, (n - 1) as nat, before, after);
    let all = index.all_in_context(v, n, before, after);
    if x < n - 1 {
        let i = lemma_match_in_context(index, v, (n - 1) as nat, before, after, x, k);
        assert(all[i] == front[i]);
        i
    } else {
        let r = v[n - 1];
        lemma_in_context(r, r.hits.len(), index.text(r.doc), before, after);
        let i = front.len() + k;
        assert(all[i] == hits_in_context(r, r.hits.len(), index.text(r.doc), before, after)[k]);
        i
    }
}

proof fn lemma_context_source(
    index: Index,
    v: Seq<FileHits>,
    n: nat,
    before: u32,
    after: u32,
    i: int,
) -> (x: int)
    requires
        n <= v.len(),
        0 <= i < index.all_in_context(v, n, before, after).len(),
    ensures
        0 <= x < n,
        index.all_in_context(v, n, before, after)[i].path == v[x].path,
        v[x].hits.len() > 0 ==> exists|k: int|
            0 <= k < v[x].hits.len() && index.all_in_context(v, n, before, after)[i] == in_context(
                v[x].path,
                #[trigger] v[x].hits[k],
                index.text(v[x].doc),
                before,
                after,
            ),
    decreases n,
{
    let front = index.all_in_context(v, (n - 1) as nat, before, after);
    let all = index.all_in_context(v, n, before, after);
    if i < front.len() {
        assert(all[i] == front[i]);
        lemma_context_source(index, v, (n - 1) as nat, before, after, i)
    } else {
        let r = v[n - 1];
        if r.hits.len() > 0 {
            lemma_in_context(r, r.hits.len(), index.text(r.doc), before, after);
            let k = i - front.len();
            assert(all[i] == hits_in_context(r, r.hits.len(), index.text(r.doc), before, after)[k]);
            assert(all[i] == in_context(r.path, r.hits[k], index.text(r.doc), before, after));
        }
        n - 1
    }
}

/// A search shows every match of every file that it finds, as a line of that file
/// with its number and the place of the match in it.
pub proof fn every_match_of_every_file_is_shown(
    index: Index,
    q: QueryModel,
    before: u32,
    after: u32,
    out: Seq<ContentHit>,
    x: int,
    k: int,
)
    requires
        are_the_matches(index, q, before, after, out),
        0 <= x < index.answers(q, None).len(),
        0 <= k < index.answers(q, None)[x].hits.len(),
    ensures
        ({
            let r = index.answers(q, None)[x];
            exists|i: int|
                0 <= i < out.len() && (#[trigger] out[i]).path == r.path && out[i].line_number
                    == r.hits[k].0 && out[i].line_content == r.hits[k].1 && out[i].match_start
                    == r.hits[k].2 && out[i].match_end == r.hits[k].3
        }),
{
    let found = index.answers(q, None);
    let items = index.all_in_context(found, found.len(), before, after);
    let perm = sorting_moves_each_item_once(items, content_keys(items), out);
    let j = lemma_match_in_context(index, found, found.len(), before, after, x, k);
    assert(names_place(perm, j));
    let i = choose|i: int| 0 <= i < perm.len() && #[trigger] perm[i] as int == j;
    assert(out[i] == items[j]);
}

/// A search shows nothing but matches of files that it finds, as many as there
/// are, in order of paths and, within a file, of lines.
pub proof fn only_matches_are_shown(
    index: Index,
    q: QueryModel,
    before: u32,
    after: u32,
    out: Seq<ContentHit>,
    i: int,
    j: int,
)
    requires
        are_the_matches(index, q, before, after, out),
        0 <= i < out.len(),
    ensures
        exists|x: int|
            0 <= x < index.answers(q, None).len() && (#[trigger] index.answers(q, None)[x]).path
                == out[i].path && (index.answers(q, None)[x].hits.len() > 0 ==> exists|k: int|
                0 <= k < index.answers(q, None)[x].hits.len() && (
                #[trigger] index.answers(q, None)[x].hits[k]).0 == out[i].line_number
                    && index.answers(q, None)[x].hits[k].1 == out[i].line_content
                    && index.answers(q, None)[x].hits[k].2 == out[i].match_start
                    && index.answers(q, None)[x].hits[k].3 == out[i].match_end),
        i < j < out.len() ==> !lex_lt(
            content_key(out[j].path, out[j].line_number),
            content_key(out[i].path, out[i].line_number),
        ),
{
    let found = index.answers(q, None);
    let items = index.all_in_context(found, found.len(), before, after);
    let keys = content_keys(items);
    let perm = sorting_moves_each_item_once(items, keys, out);
    assert(out[i] == items[perm[i] as int]);
    let x = lemma_context_source(index, found, found.len(), before, after, perm[i] as int);
    assert(found[x].path == out[i].path);
    if i < j < out.len() {
        assert(out[j] == items[perm[j] as int]);
        assert(!lex_lt(keys[perm[j] as int], keys[perm[i] as int]));
    }
}

proof fn lemma_listed(
    index: Index,
    ids: Seq<u32>,
    n: nat,
    check: Option<CheckModel>,
    bounds: (Option<u32>, Option<u32>),
    limit: nat,
)
    requires
        n <= ids.len(),
    ensures
        ({
            let v = index.matching_paths(ids, n, check, bounds, limit);
            &&& limit > 0 ==> v.len() <= limit
            &&& forall|i: int|
                #![trigger v[i]]
                0 <= i < v.len() ==> exists|k: int|
                    0 <= k < n && #[trigger] index.lists(ids[k], check, bounds) && v[i]
                        == index.documents@[ids[k] as int].path@
            &&& limit == 0 || v.len() < limit ==> forall|k: int|
                0 <= k < n && #[trigger] index.lists(ids[k], check, bounds) ==> v.contains(
                    index.documents@[ids[k] as int].path@,
                )
        }),
    decreases n,
{
    if n > 0 {
        lemma_listed(index, ids, (n - 1) as nat, check, bounds, limit);
        let before = index.matching_paths(ids, (n - 1) as nat, check, bounds, limit);
        let v = index.matching_paths(ids, n, check, bounds, limit);
        assert forall|i: int| #![trigger v[i]] 0 <= i < v.len() implies exists|k: int|
            0 <= k < n && #[trigger] index.lists(ids[k], check, bounds) && v[i]
                == index.documents@[ids[k] as int].path@ by {
            if i < before.len() {
                assert(v[i] == before[i]);
                let k = choose|k: int|
                    0 <= k < n - 1 && #[trigger] index.lists(ids[k], check, bounds) && before[i]
                        == index.documents@[ids[k] as int].path@;
                assert(index.lists(ids[k], check, bounds));
            } else {
                assert(index.lists(ids[n - 1], check, bounds));
            }
        }
        if limit == 0 || v.len() < limit {
            assert forall|k: int|
                0 <= k < n && #[trigger] index.lists(ids[k], check, bounds) implies v.contains(
                index.documents@[ids[k] as int].path@,
            ) by {
                if k < n - 1 {
                    let p = index.documents@[ids[k] as int].path@;
                    assert(before.contains(p));
                    let i = choose|i: int| 0 <= i < before.len() && before[i] == p;
                    assert(v[i] == p);
                } else {
                    assert(v[v.len() - 1] == index.documents@[ids[k] as int].path@);
                }
            }
        }
    }
}

/// A search for files lists the path of each candidate that has a match within the
/// bounds on lines, or of every candidate where no text is asked for, and no
/// other path; a limit other than zero bounds their number, and none is left out
/// before it is reached.
pub proof fn matching_files_are_listed(index: Index, q: QueryModel, limit: nat, d: u32, i: int)
    requires
        index.wf(),
        lists_valid(index),
    ensures
        ({
            let v = index.files(q, limit);
            let plan = plan_of(q);
            let bounds = line_bounds(plan.steps);
            let matching = d < index.documents@.len() && (plan.verification is None || (index.text(
                d,
            ) is Some && kept_lines(
                check_hits(index.text(d)->0, plan.verification->0),
                bounds.0,
                bounds.1,
            ).len() > 0));
            &&& limit > 0 ==> v.len() <= limit
            &&& index.found(plan).contains(d) && matching && (limit == 0 || v.len() < limit)
                ==> v.contains(index.documents@[d as int].path@)
            &&& 0 <= i < v.len() ==> exists|e: u32|
                #[trigger] index.found(plan).contains(e) && e < index.documents@.len() && v[i]
                        == index.documents@[e as int].path@
        }),
{
    let plan = plan_of(q);
    let ids = ascending_list(index.found(plan));
    let bounds = line_bounds(plan.steps);
    let v = index.files(q, limit);
    lemma_found_eligible(index, q);
    lemma_ascending_list(index, index.found(plan));
    lemma_listed(index, ids, ids.len(), plan.verification, bounds, limit);
    if index.found(plan).contains(d) {
        assert(ids.contains(d));
        let k = choose|k: int| 0 <= k < ids.len() && ids[k] == d;
        if index.lists(ids[k], plan.verification, bounds) && (limit == 0 || v.len() < limit) {
            assert(v.contains(index.documents@[ids[k] as int].path@));
        }
    }
    if 0 <= i < v.len() {
        let k = choose|k: int|
            0 <= k < ids.len() && #[trigger] index.lists(ids[k], plan.verification, bounds) && v[i]
                == index.documents@[ids[k] as int].path@;
        let e = ids[k];
        assert(ids.contains(e));
        assert(index.found(plan).contains(e));
        assert(index.lists(e, plan.verification, bounds));
        assert(e < index.documents@.len());
    }
}

} // verus!
