//! What is shown is shown once.
use crate::order::{comes_first, lex_lt, sorts};
use crate::output::{
    distinct_paths, first_place, firsts, row_key, row_keys, same_line, shown_path, RowModel,
};
use crate::paths::{
    component_key, components, components_key, path_key, same_key_is_same_path, same_path,
};
use crate::query::search::{arranged, content_key, picked};
use crate::server::protocol::ContentMatch;
use vstd::prelude::*;

verus! {

/// What lies between two keys with the same start has that start too.
proof fn lemma_between(p: Seq<u32>, x: Seq<u32>, k: Seq<u32>, z: Seq<u32>)
    requires
        lex_lt(p + x, k) || p + x == k,
        lex_lt(k, p + z) || k == p + z,
    ensures
        k.len() >= p.len(),
        k.take(p.len() as int) == p,
    decreases p.len(),
{
    let a = p + x;
    let c = p + z;
    if p.len() == 0 {
        assert(k.take(0) =~= p);
    } else {
        assert(a[0] == p[0] && c[0] == p[0]);
        assert(k.len() > 0);
        assert(k[0] == p[0]);
        let q = p.drop_first();
        assert(a.drop_first() =~= q + x);
        assert(c.drop_first() =~= q + z);
        lemma_between(q, x, k.drop_first(), z);
        assert(k.take(p.len() as int) =~= seq![k[0]] + k.drop_first().take(q.len() as int));
        assert(p =~= seq![p[0]] + q);
    }
}

proof fn lemma_no_zero_in_components(v: Seq<Seq<char>>, n: nat)
    ensures
        !components_key(v, n).contains(0u32),
    decreases n,
{
    if 0 < n <= v.len() {
        lemma_no_zero_in_components(v, (n - 1) as nat);
        let a = components_key(v, (n - 1) as nat);
        let c = v[n - 1];
        let b = component_key(c);
        assert forall|i: int| 0 <= i < b.len() implies (#[trigger] b[i]) != 0u32 by {
            if 0 < i <= c.len() {
                assert(b[i] == (c[i - 1] as u32 + 6) as u32);
                vstd::utf8::char_is_scalar(c[i - 1]);
            }
        }
        assert forall|i: int| 0 <= i < (a + b).len() implies (#[trigger] (a + b)[i]) != 0u32 by {
            if i < a.len() {
                assert(a.contains(a[i]));
            } else {
                assert(b[i - a.len()] != 0u32);
            }
        }
    }
}

proof fn lemma_no_zero(path: Seq<char>)
    ensures
        !path_key(path).contains(0u32),
{
    let v = components(path);
    lemma_no_zero_in_components(v, v.len());
    let k = components_key(v, v.len());
    assert forall|i: int| 0 <= i < path_key(path).len() implies (#[trigger] path_key(path)[i])
        != 0u32 by {
        let lead = path_key(path).len() - k.len();
        if i >= lead {
            assert(path_key(path)[i] == k[i - lead]);
            assert(k.contains(k[i - lead]));
        }
    }
}

/// Rows for the same line as a third are for the same line.
proof fn lemma_same(a: RowModel, b: RowModel, c: RowModel)
    requires
        same_line(a, b) || same_line(b, a),
        same_line(a, c) || same_line(c, a),
    ensures
        same_line(b, c),
{
    reveal(same_line);
}

proof fn lemma_itself(a: RowModel)
    ensures
        same_line(a, a),
{
    reveal(same_line);
}

/// A row whose key starts like that of a line is for that line.
proof fn lemma_key_names_line(a: RowModel, b: RowModel, tail: Seq<u32>)
    requires
        ({
            let p = content_key(a.path, a.line);
            let k = content_key(b.path, b.line) + tail;
            k.len() >= p.len() && k.take(p.len() as int) == p
        }),
    ensures
        same_line(a, b),
{
    let p = content_key(a.path, a.line);
    let k = content_key(b.path, b.line) + tail;
    let x = path_key(a.path);
    let y = path_key(b.path);
    lemma_no_zero(a.path);
    lemma_no_zero(b.path);
    assert(p[x.len() as int] == 0u32);
    assert(k[y.len() as int] == 0u32);
    assert(forall|i: int| 0 <= i < p.len() ==> #[trigger] k.take(p.len() as int)[i] == k[i]);
    if x.len() < y.len() {
        assert(k.take(p.len() as int)[x.len() as int] == 0u32);
        assert(y[x.len() as int] == 0u32);
        assert(y.contains(0u32));
    } else if y.len() < x.len() {
        assert(k.take(p.len() as int)[y.len() as int] == 0u32);
        assert(x[y.len() as int] == 0u32);
        assert(x.contains(0u32));
    }
    let n = x.len() as int;
    assert(x =~= y) by {
        assert forall|i: int| 0 <= i < n implies x[i] == y[i] by {
            assert(p[i] == x[i]);
            assert(k.take(p.len() as int)[i] == y[i]);
        }
    }
    assert(p[n + 1] == a.line);
    assert(k.take(p.len() as int)[n + 1] == b.line);
    reveal(same_line);
    same_key_is_same_path(a.path, b.path);
}

/// In order, the rows for a line stand together.
proof fn lemma_together(items: Seq<RowModel>, perm: Seq<usize>, i: int, j: int, k: int)
    requires
        sorts(row_keys(items), perm),
        0 <= i <= j <= k < perm.len(),
        same_line(items[perm[i] as int], items[perm[k] as int]),
    ensures
        same_line(items[perm[i] as int], items[perm[j] as int]),
{
    let keys = row_keys(items);
    let a = items[perm[i] as int];
    let b = items[perm[j] as int];
    let c = items[perm[k] as int];
    assert(perm[i] < items.len() && perm[j] < items.len() && perm[k] < items.len());
    lemma_itself(a);
    reveal(same_line);
    if i < j && j < k {
        same_key_is_same_path(a.path, c.path);
        let p = content_key(a.path, a.line);
        assert(p == content_key(c.path, c.line));
        let ka = keys[perm[i] as int];
        let kb = keys[perm[j] as int];
        let kc = keys[perm[k] as int];
        assert(comes_first(ka, perm[i] as int, kb, perm[j] as int));
        assert(comes_first(kb, perm[j] as int, kc, perm[k] as int));
        let x = ka.skip(p.len() as int);
        let z = kc.skip(p.len() as int);
        assert(ka == row_key(a, perm[i] as int));
        assert(kb == row_key(b, perm[j] as int));
        assert(kc == row_key(c, perm[k] as int));
        assert(ka =~= p + x);
        assert(kc =~= p + z);
        lemma_between(p, x, kb, z);
        let q = content_key(b.path, b.line);
        assert(kb =~= q + kb.skip(q.len() as int));
        lemma_key_names_line(a, b, kb.skip(q.len() as int));
    }
}

/// Whether rows for the same line stand together in a list.
pub open spec fn lines_together(v: Seq<RowModel>) -> bool {
    forall|i: int, j: int, k: int|
        #![trigger same_line(v[i], v[k]), v[j]]
        0 <= i <= j <= k < v.len() && same_line(v[i], v[k]) ==> same_line(v[i], v[j])
}

/// The rows that are left are rows of the list, one for each line of it, and no
/// two for the same.
#[verifier::spinoff_prover]
#[verifier::rlimit(60)]
proof fn lemma_firsts(v: Seq<RowModel>)
    requires
        lines_together(v),
    ensures
        forall|i: int| 0 <= i < firsts(v).len() ==> v.contains(#[trigger] firsts(v)[i]),
        forall|i: int, j: int|
            0 <= i < j < firsts(v).len() ==> !same_line(
                #[trigger] firsts(v)[i],
                #[trigger] firsts(v)[j],
            ),
        forall|p: int|
            0 <= p < v.len() ==> exists|i: int|
                0 <= i < firsts(v).len() && same_line(#[trigger] firsts(v)[i], #[trigger] v[p]),
    decreases v.len(),
{
    if v.len() > 0 {
        let front = v.drop_last();
        assert forall|i: int, j: int, k: int|
            #![trigger same_line(front[i], front[k]), front[j]]
            0 <= i <= j <= k < front.len() && same_line(front[i], front[k]) implies same_line(
            front[i],
            front[j],
        ) by {
            assert(same_line(v[i], v[k]));
            assert(same_line(v[i], v[j]));
        }
        lemma_firsts(front);
        let f = firsts(v);
        let g = firsts(front);
        let last = v.last();
        assert(v[v.len() - 1] == last);
        assert forall|i: int| 0 <= i < g.len() implies v.contains(#[trigger] g[i]) by {
            assert(front.contains(g[i]));
            let q = choose|q: int| 0 <= q < front.len() && front[q] == g[i];
            assert(v[q] == g[i]);
        }
        if v.len() > 1 && same_line(v[v.len() - 2], last) {
            assert(f == g);
            assert forall|p: int| 0 <= p < v.len() implies exists|i: int|
                0 <= i < f.len() && same_line(#[trigger] f[i], #[trigger] v[p]) by {
                let q = if p == v.len() - 1 {
                    p - 1
                } else {
                    p
                };
                assert(front[q] == v[q]);
                let i = choose|i: int|
                    0 <= i < g.len() && same_line(#[trigger] g[i], #[trigger] front[q]);
                if q != p {
                    lemma_same(v[q], f[i], v[p]);
                }
                assert(same_line(f[i], v[p]));
            }
        } else {
            assert(f == g.push(last));
            assert forall|i: int, j: int| 0 <= i < j < f.len() implies !same_line(
                #[trigger] f[i],
                #[trigger] f[j],
            ) by {
                if j == g.len() {
                    assert(f[i] == g[i]);
                    assert(front.contains(g[i]));
                    let q = choose|q: int| 0 <= q < front.len() && front[q] == g[i];
                    assert(v[q] == g[i]);
                    if same_line(f[i], f[j]) {
                        let m = v.len() - 2;
                        assert(same_line(v[q], v[m + 1]));
                        assert(same_line(v[q], v[m]));
                        lemma_same(v[q], v[m], last);
                    }
                } else {
                    assert(f[i] == g[i] && f[j] == g[j]);
                }
            }
            assert forall|p: int| 0 <= p < v.len() implies exists|i: int|
                0 <= i < f.len() && same_line(#[trigger] f[i], #[trigger] v[p]) by {
                if p == v.len() - 1 {
                    assert(f[g.len() as int] == last);
                    lemma_itself(last);
                    assert(same_line(f[g.len() as int], v[p]));
                } else {
                    assert(front[p] == v[p]);
                    let i = choose|i: int|
                        0 <= i < g.len() && same_line(#[trigger] g[i], #[trigger] front[p]);
                    assert(f[i] == g[i]);
                    assert(same_line(f[i], v[p]));
                }
            }
        }
    }
}

/// Of the rows for matches and the lines around them, each line is shown once
/// and none is left out.
pub proof fn each_line_is_shown_once(items: Seq<RowModel>, sorted: Seq<RowModel>)
    requires
        arranged(items, row_keys(items), sorted),
        items.len() <= usize::MAX,
    ensures
        forall|i: int, j: int|
            0 <= i < j < firsts(sorted).len() ==> !same_line(
                #[trigger] firsts(sorted)[i],
                #[trigger] firsts(sorted)[j],
            ),
        forall|p: int|
            0 <= p < items.len() ==> exists|i: int|
                0 <= i < firsts(sorted).len() && same_line(
                    #[trigger] firsts(sorted)[i],
                    #[trigger] items[p],
                ),
{
    let perm = choose|perm: Seq<usize>| #[trigger]
        sorts(row_keys(items), perm) && sorted == picked(items, perm);
    assert forall|i: int, j: int, k: int|
        #![trigger same_line(sorted[i], sorted[k]), sorted[j]]
        0 <= i <= j <= k < sorted.len() && same_line(sorted[i], sorted[k]) implies same_line(
        sorted[i],
        sorted[j],
    ) by {
        lemma_together(items, perm, i, j, k);
    }
    lemma_firsts(sorted);
    crate::order::lemma_all_places(row_keys(items), perm);
    assert forall|p: int| 0 <= p < items.len() implies exists|i: int|
        0 <= i < firsts(sorted).len() && same_line(
            #[trigger] firsts(sorted)[i],
            #[trigger] items[p],
        ) by {
        assert(perm.contains(p as usize));
        let q = choose|q: int| 0 <= q < perm.len() && perm[q] == p as usize;
        assert(sorted[q] == items[p]);
        let i = choose|i: int|
            0 <= i < firsts(sorted).len() && same_line(
                #[trigger] firsts(sorted)[i],
                #[trigger] sorted[q],
            );
        assert(same_line(firsts(sorted)[i], items[p]));
    }
}

/// Paths are listed once each: no two of the list are the same, and each path
/// given is the same as one of the list.
pub proof fn each_path_is_listed_once(v: Seq<Seq<char>>)
    ensures
        forall|i: int, j: int|
            0 <= i < j < distinct_paths(v).len() ==> !same_path(
                #[trigger] distinct_paths(v)[i],
                #[trigger] distinct_paths(v)[j],
            ),
        forall|p: int|
            0 <= p < v.len() ==> exists|i: int|
                0 <= i < distinct_paths(v).len() && same_path(
                    #[trigger] distinct_paths(v)[i],
                    #[trigger] v[p],
                ),
        forall|i: int| 0 <= i < distinct_paths(v).len() ==> v.contains(#[trigger] distinct_paths(v)[i]),
    decreases v.len(),
{
    if v.len() > 0 {
        let front = v.drop_last();
        let last = v.last();
        each_path_is_listed_once(front);
        let g = distinct_paths(front);
        let f = distinct_paths(v);
        assert(v[v.len() - 1] == last);
        assert forall|i: int| 0 <= i < g.len() implies v.contains(#[trigger] g[i]) by {
            assert(front.contains(g[i]));
            let q = choose|q: int| 0 <= q < front.len() && front[q] == g[i];
            assert(v[q] == g[i]);
        }
        if exists|i: int| 0 <= i < v.len() - 1 && same_path(#[trigger] v[i], last) {
            assert(f == g);
            let q = choose|i: int| 0 <= i < v.len() - 1 && same_path(#[trigger] v[i], last);
            assert(front[q] == v[q]);
            assert forall|p: int| 0 <= p < v.len() implies exists|i: int|
                0 <= i < f.len() && same_path(#[trigger] f[i], #[trigger] v[p]) by {
                let m = if p == v.len() - 1 {
                    q
                } else {
                    p
                };
                assert(front[m] == v[m]);
                let i = choose|i: int|
                    0 <= i < g.len() && same_path(#[trigger] g[i], #[trigger] front[m]);
                assert(same_path(f[i], v[p]));
            }
        } else {
            assert(f == g.push(last));
            assert forall|i: int, j: int| 0 <= i < j < f.len() implies !same_path(
                #[trigger] f[i],
                #[trigger] f[j],
            ) by {
                if j == g.len() {
                    assert(f[i] == g[i]);
                    assert(front.contains(g[i]));
                    let q = choose|q: int| 0 <= q < front.len() && front[q] == g[i];
                    assert(v[q] == g[i]);
                } else {
                    assert(f[i] == g[i] && f[j] == g[j]);
                }
            }
            assert forall|p: int| 0 <= p < v.len() implies exists|i: int|
                0 <= i < f.len() && same_path(#[trigger] f[i], #[trigger] v[p]) by {
                if p == v.len() - 1 {
                    assert(f[g.len() as int] == last);
                } else {
                    assert(front[p] == v[p]);
                    let i = choose|i: int|
                        0 <= i < g.len() && same_path(#[trigger] g[i], #[trigger] front[p]);
                    assert(f[i] == g[i]);
                    assert(same_path(f[i], v[p]));
                }
            }
        }
    }
}

/// The first place does not depend on how a path is written, nor on what follows
/// it.
proof fn lemma_first_place_stays(
    v: Seq<ContentMatch>,
    p: Seq<char>,
    q: Seq<char>,
    n: nat,
    m: nat,
)
    requires
        same_path(p, q),
        n <= m,
        first_place(v, p, n) < n,
    ensures
        first_place(v, q, m) == first_place(v, p, n),
    decreases m,
{
    if n < m {
        lemma_first_place_stays(v, p, q, n, (m - 1) as nat);
    } else {
        lemma_same_first_place(v, p, q, n);
    }
}

proof fn lemma_same_first_place(v: Seq<ContentMatch>, p: Seq<char>, q: Seq<char>, n: nat)
    requires
        same_path(p, q),
    ensures
        first_place(v, q, n) == first_place(v, p, n),
    decreases n,
{
    if n > 0 {
        lemma_same_first_place(v, p, q, (n - 1) as nat);
    }
}

proof fn lemma_first_place_within(v: Seq<ContentMatch>, p: Seq<char>, n: nat)
    ensures
        first_place(v, p, n) <= n,
    decreases n,
{
    if n > 0 {
        lemma_first_place_within(v, p, (n - 1) as nat);
    }
}

/// All matches in a file are shown under one path.
pub proof fn one_file_has_one_path(v: Seq<ContentMatch>, i: int, j: int)
    requires
        0 <= i <= j < v.len(),
        same_path(v[i].path@, v[j].path@),
    ensures
        shown_path(v, i) == shown_path(v, j),
{
    lemma_first_place_within(v, v[i].path@, i as nat);
    lemma_first_place_stays(v, v[i].path@, v[j].path@, (i + 1) as nat, (j + 1) as nat);
}

} // verus!
