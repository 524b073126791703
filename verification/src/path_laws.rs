//! Paths are rows of names: what is below what, what a file is called, and in
//! what order paths come.
use crate::order::{lex_is_strict, lex_lt};
use crate::paths::{
    component_key, components, components_from, components_key, extension, file_name, is_absolute,
    is_within, joined, last_dot, path_key, same_path,
};
use crate::text::lemma_span_is;
use vstd::prelude::*;

verus! {

/// Whether a text can be the name of a file or directory.
pub open spec fn is_name(n: Seq<char>) -> bool {
    n.len() > 0 && !n.contains('/') && n != seq!['.'] && n != seq!['.', '.']
}

/// Whether all of several texts can.
pub open spec fn are_names(v: Seq<Seq<char>>) -> bool {
    forall|i: int| 0 <= i < v.len() ==> is_name(#[trigger] v[i])
}

/// A path is read piece by piece.
proof fn lemma_components_front(a: Seq<char>, s: Seq<char>, first: bool)
    requires
        is_name(a),
    ensures
        components_from(a, first) == seq![a],
        components_from(a + seq!['/'] + s, first) == seq![a] + components_from(s, false),
{
    let p = |c: char| c != '/';
    assert forall|i: int| 0 <= i < a.len() implies p(#[trigger] a[i]) by {
        assert(a.contains(a[i]));
    }
    lemma_span_is(a, p, a.len() as int);
    assert(a.take(a.len() as int) =~= a);
    let t = a + seq!['/'] + s;
    assert forall|i: int| 0 <= i < a.len() implies p(#[trigger] t[i]) by {
        assert(t[i] == a[i]);
    }
    assert(t[a.len() as int] == '/');
    lemma_span_is(t, p, a.len() as int);
    assert(t.take(a.len() as int) =~= a);
    assert(t.skip((a.len() + 1) as int) =~= s);
}

/// The first of joined names, and the rest.
proof fn lemma_joined_front(v: Seq<Seq<char>>)
    requires
        v.len() > 1,
    ensures
        joined(v) == v[0] + seq!['/'] + joined(v.drop_first()),
    decreases v.len(),
{
    if v.len() == 2 {
        assert(v.drop_last() =~= seq![v[0]]);
        assert(joined(v.drop_last()) == v[0]);
        assert(v.drop_first() =~= seq![v[1]]);
        assert(joined(v.drop_first()) == v[1]);
    } else {
        lemma_joined_front(v.drop_last());
        assert(v.drop_last().drop_first() =~= v.drop_first().drop_last());
        assert(joined(v) =~= v[0] + seq!['/'] + joined(v.drop_first()));
    }
}

proof fn lemma_names_of(v: Seq<Seq<char>>, first: bool)
    requires
        are_names(v),
        v.len() > 0,
    ensures
        components_from(joined(v), first) == v,
        joined(v).len() > 0,
        joined(v)[0] != '/',
    decreases v.len(),
{
    assert(is_name(v[0]));
    assert(v[0].contains(v[0][0]));
    if v.len() == 1 {
        lemma_components_front(v[0], Seq::empty(), first);
        assert(seq![v[0]] =~= v);
    } else {
        let rest = v.drop_first();
        assert forall|i: int| 0 <= i < rest.len() implies is_name(#[trigger] rest[i]) by {
            assert(is_name(v[i + 1]));
        }
        lemma_joined_front(v);
        lemma_names_of(rest, false);
        lemma_components_front(v[0], joined(rest), first);
        assert(seq![v[0]] + rest =~= v);
    }
}

/// Names with slashes between them are read back as those names.
pub proof fn joined_names_are_the_components(v: Seq<Seq<char>>)
    requires
        are_names(v),
        v.len() > 0,
    ensures
        components(joined(v)) == v,
        !is_absolute(joined(v)),
        components(seq!['/'] + joined(v)) == v,
        is_absolute(seq!['/'] + joined(v)),
{
    lemma_names_of(v, true);
    lemma_names_of(v, false);
    let t = seq!['/'] + joined(v);
    lemma_span_is(t, |c: char| c != '/', 0);
    assert(t.take(0).len() == 0);
    assert(t.skip(1) =~= joined(v));
    assert(Seq::<Seq<char>>::empty() + v =~= v);
}

/// A path lies within another exactly if it starts with all of its names.
pub proof fn within_is_below(a: Seq<Seq<char>>, b: Seq<Seq<char>>)
    requires
        are_names(a),
        are_names(b),
        a.len() > 0,
        b.len() > 0,
    ensures
        is_within(joined(a), joined(b)) <==> b.len() <= a.len() && forall|i: int|
            0 <= i < b.len() ==> #[trigger] a[i] == b[i],
{
    joined_names_are_the_components(a);
    joined_names_are_the_components(b);
    if b.len() <= a.len() && forall|i: int| 0 <= i < b.len() ==> #[trigger] a[i] == b[i] {
        assert(b =~= a.subrange(0, b.len() as int));
    }
    if b.is_prefix_of(a) {
        assert forall|i: int| 0 <= i < b.len() implies #[trigger] a[i] == b[i] by {
            assert(a.subrange(0, b.len() as int)[i] == a[i]);
        }
    }
}

/// The name of a file is the last name of its path.
pub proof fn file_name_is_the_last_name(v: Seq<Seq<char>>)
    requires
        are_names(v),
        v.len() > 0,
    ensures
        file_name(joined(v)) == Some(v.last()),
{
    joined_names_are_the_components(v);
    assert(is_name(v[v.len() - 1]));
}

proof fn lemma_last_dot(s: Seq<char>, n: nat)
    requires
        n <= s.len(),
    ensures
        match last_dot(s, n) {
            Some(i) => i < n && s[i as int] == '.' && forall|k: int| i < k < n ==> s[k] != '.',
            None => forall|k: int| 0 <= k < n ==> s[k] != '.',
        },
    decreases n,
{
    if n > 0 && s[n - 1] != '.' {
        lemma_last_dot(s, (n - 1) as nat);
    }
}

/// The extension is what follows the last dot of the file name, where something
/// stands before that dot; a name without a dot has none.
pub proof fn extension_follows_the_last_dot(v: Seq<Seq<char>>, stem: Seq<char>, ext: Seq<char>)
    requires
        are_names(v.push(stem + seq!['.'] + ext)),
        stem.len() > 0,
        !ext.contains('.'),
    ensures
        extension(joined(v.push(stem + seq!['.'] + ext))) == ext,
{
    let name = stem + seq!['.'] + ext;
    let w = v.push(name);
    file_name_is_the_last_name(w);
    lemma_last_dot(name, name.len());
    let k = stem.len() as int;
    assert(name[k] == '.');
    assert forall|i: int| k < i < name.len() implies name[i] != '.' by {
        assert(name[i] == ext[i - k - 1]);
        assert(ext.contains(ext[i - k - 1]));
    }
    assert(last_dot(name, name.len()) == Some(k as nat));
    assert(name.skip(k + 1) =~= ext);
}

/// A file whose name has no dot has no extension.
pub proof fn names_without_dots_have_no_extension(v: Seq<Seq<char>>)
    requires
        are_names(v),
        v.len() > 0,
        !v.last().contains('.'),
    ensures
        extension(joined(v)).len() == 0,
{
    file_name_is_the_last_name(v);
    let name = v.last();
    lemma_last_dot(name, name.len());
    if last_dot(name, name.len()) is Some {
        assert(name.contains(name[last_dot(name, name.len())->0 as int]));
    }
}

proof fn lemma_key_prefix(a: Seq<Seq<char>>, b: Seq<Seq<char>>, n: nat)
    requires
        n <= a.len(),
        n <= b.len(),
        forall|i: int| 0 <= i < n ==> a[i] == b[i],
    ensures
        components_key(a, n) == components_key(b, n),
    decreases n,
{
    if n > 0 {
        lemma_key_prefix(a, b, (n - 1) as nat);
    }
}

proof fn lemma_key_tail(v: Seq<Seq<char>>, n: nat, m: nat) -> (tail: Seq<u32>)
    requires
        n < m <= v.len(),
    ensures
        components_key(v, m) == components_key(v, n) + component_key(v[n as int]) + tail,
    decreases m,
{
    if m == n + 1 {
        assert(components_key(v, m) =~= components_key(v, n) + component_key(v[n as int]) + Seq::<
            u32,
        >::empty());
        Seq::empty()
    } else {
        let t = lemma_key_tail(v, n, (m - 1) as nat);
        let tail = t + component_key(v[m - 1]);
        assert(components_key(v, m) =~= components_key(v, n) + component_key(v[n as int]) + tail);
        tail
    }
}

pub(crate) proof fn lemma_same_start(p: Seq<u32>, x: Seq<u32>, y: Seq<u32>)
    ensures
        lex_lt(p + x, p + y) == lex_lt(x, y),
    decreases p.len(),
{
    if p.len() == 0 {
        assert(p + x =~= x && p + y =~= y);
    } else {
        lemma_same_start(p.drop_first(), x, y);
        assert((p + x).drop_first() =~= p.drop_first() + x);
        assert((p + y).drop_first() =~= p.drop_first() + y);
    }
}

/// Whether a name comes before another: it is a start of it, or has the smaller
/// character where they first differ.
pub open spec fn name_before(a: Seq<char>, b: Seq<char>) -> bool {
    exists|k: int|
        0 <= k <= a.len() && k < b.len() && (#[trigger] a.take(k)) == b.take(k) && (k == a.len()
            || (a[k] as u32) < (b[k] as u32))
}

/// The keys of two names are in the order of the names.
proof fn lemma_names_in_order(a: Seq<char>, b: Seq<char>, x: Seq<u32>, y: Seq<u32>)
    requires
        is_name(a),
        is_name(b),
        name_before(a, b),
    ensures
        lex_lt(component_key(a) + x, component_key(b) + y),
{
    let k = choose|k: int|
        0 <= k <= a.len() && k < b.len() && (#[trigger] a.take(k)) == b.take(k) && (k == a.len()
            || (a[k] as u32) < (b[k] as u32));
    let f = |c: char| (c as u32 + 6) as u32;
    let p = seq![5u32] + a.take(k).map_values(f);
    let u = component_key(a) + x;
    let w = component_key(b) + y;
    assert(u.take(k + 1) =~= p);
    assert(w.take(k + 1) =~= p) by {
        assert forall|i: int| 0 <= i < k + 1 implies w.take(k + 1)[i] == p[i] by {
            if i > 0 {
                assert(a.take(k)[i - 1] == b.take(k)[i - 1]);
            }
        }
    }
    let r = u.skip(k + 1);
    let s = w.skip(k + 1);
    assert(u =~= p + r);
    assert(w =~= p + s);
    vstd::utf8::char_is_scalar(b[k]);
    assert(s[0] == w[k + 1]);
    assert(w[k + 1] == (b[k] as u32 + 6) as u32);
    assert(r[0] == u[k + 1]);
    if k == a.len() {
        assert(u[k + 1] == 1);
    } else {
        vstd::utf8::char_is_scalar(a[k]);
        assert(u[k + 1] == (a[k] as u32 + 6) as u32);
    }
    assert(r[0] < s[0]);
    lemma_same_start(p, r, s);
}

/// Paths come in the order of their names, one by one: a path comes before what
/// lies below it, and else the first name that differs decides.
pub proof fn paths_come_name_by_name(
    common: Seq<Seq<char>>,
    a: Seq<Seq<char>>,
    b: Seq<Seq<char>>,
)
    requires
        are_names(common + a),
        are_names(common + b),
        (common + a).len() > 0,
        b.len() > 0,
        a.len() == 0 || name_before(a[0], b[0]),
    ensures
        lex_lt(path_key(joined(common + a)), path_key(joined(common + b))),
        !lex_lt(path_key(joined(common + b)), path_key(joined(common + a))),
{
    let x = common + a;
    let y = common + b;
    joined_names_are_the_components(x);
    joined_names_are_the_components(y);
    let n = common.len();
    assert forall|i: int| 0 <= i < n implies x[i] == y[i] by {}
    lemma_key_prefix(x, y, n);
    let p = components_key(x, n);
    let t = lemma_key_tail(y, n, y.len());
    assert(y[n as int] == b[0]);
    let none: Seq<u32> = Seq::empty();
    assert(path_key(joined(x)) =~= components_key(x, x.len()));
    assert(path_key(joined(y)) =~= components_key(y, y.len()));
    let right = component_key(b[0]) + t;
    assert(components_key(y, y.len()) =~= p + right);
    if a.len() == 0 {
        assert(x =~= common);
        assert(components_key(x, x.len()) =~= p + none);
        lemma_same_start(p, none, right);
    } else {
        let u = lemma_key_tail(x, n, x.len());
        assert(x[n as int] == a[0]);
        assert(is_name(x[n as int]) && is_name(y[n as int]));
        let left = component_key(a[0]) + u;
        assert(components_key(x, x.len()) =~= p + left);
        lemma_names_in_order(a[0], b[0], u, t);
        lemma_same_start(p, left, right);
    }
    lex_is_strict(path_key(joined(x)), path_key(joined(y)));
}

/// A path that starts at the root of all files lies within no path that does not,
/// nor the other way round, and is not the same as one.
pub proof fn absolute_and_relative_paths_differ(a: Seq<char>, b: Seq<char>)
    requires
        is_absolute(a) != is_absolute(b),
    ensures
        !is_within(a, b),
        !is_within(b, a),
        !same_path(a, b),
{
}

} // verus!
