//! Paths as texts with components between slashes.
use crate::query::ast::texts;
use crate::text::{chars_of, lemma_span, lemma_span_is, span, text_between};
use vstd::prelude::*;

verus! {

broadcast use lemma_span;

/// Whether a path starts at the root of the file system.
pub open spec fn is_absolute(path: Seq<char>) -> bool {
    path.len() > 0 && path[0] == '/'
}

/// Whether a piece between slashes is a component. A dot is one only at the
/// very start.
pub open spec fn is_component(piece: Seq<char>, first: bool) -> bool {
    piece.len() > 0 && (first || piece != seq!['.'])
}

/// The components of a path; `first` says whether it starts here.
pub open spec fn components_from(s: Seq<char>, first: bool) -> Seq<Seq<char>>
    decreases s.len(),
{
    let n = span(s, |c: char| c != '/') as int;
    let piece = s.take(n);
    let here = if is_component(piece, first) {
        seq![piece]
    } else {
        Seq::empty()
    };
    if n < s.len() {
        here + components_from(s.skip(n + 1), false)
    } else {
        here
    }
}

/// The components of a path, the root aside.
pub open spec fn components(path: Seq<char>) -> Seq<Seq<char>> {
    components_from(path, true)
}

/// Whether two texts name the same path.
pub open spec fn same_path(a: Seq<char>, b: Seq<char>) -> bool {
    is_absolute(a) == is_absolute(b) && components(a) == components(b)
}

/// Whether `path` is `scope` or lies below it.
pub open spec fn is_within(path: Seq<char>, scope: Seq<char>) -> bool {
    is_absolute(path) == is_absolute(scope) && components(scope).is_prefix_of(components(path))
}

/// The place of a kind of component in the order of paths: the current
/// directory, the parent directory, names.
pub open spec fn component_rank(c: Seq<char>) -> u32 {
    if c == seq!['.'] {
        3
    } else if c == seq!['.', '.'] {
        4
    } else {
        5
    }
}

/// The key of a component: its rank, its characters and an end below all of them.
pub open spec fn component_key(c: Seq<char>) -> Seq<u32> {
    seq![component_rank(c)] + c.map_values(|x: char| (x as u32 + 6) as u32) + seq![1u32]
}

/// The keys of the first `n` components.
pub open spec fn components_key(v: Seq<Seq<char>>, n: nat) -> Seq<u32>
    decreases n,
{
    if n == 0 || n > v.len() {
        Seq::empty()
    } else {
        components_key(v, (n - 1) as nat) + component_key(v[n - 1])
    }
}

/// The key by which paths are put in order, component by component.
pub open spec fn path_key(path: Seq<char>) -> Seq<u32> {
    (if is_absolute(path) {
        seq![2u32]
    } else {
        Seq::empty()
    }) + components_key(components(path), components(path).len())
}

/// The name of the file that a path ends in.
pub open spec fn file_name(path: Seq<char>) -> Option<Seq<char>> {
    let v = components(path);
    if v.len() > 0 && component_rank(v.last()) == 5 {
        Some(v.last())
    } else {
        None
    }
}

/// The place of the last dot before index `n`, if any.
pub open spec fn last_dot(s: Seq<char>, n: nat) -> Option<nat>
    decreases n,
{
    if n == 0 || n > s.len() {
        None
    } else if s[n - 1] == '.' {
        Some((n - 1) as nat)
    } else {
        last_dot(s, (n - 1) as nat)
    }
}

/// What follows the last dot of a file name, unless the name starts with it.
pub open spec fn name_extension(name: Seq<char>) -> Option<Seq<char>> {
    match last_dot(name, name.len()) {
        Some(i) if i > 0 => Some(name.skip((i + 1) as int)),
        _ => None,
    }
}

/// A file name without its extension.
pub open spec fn name_stem(name: Seq<char>) -> Seq<char> {
    match last_dot(name, name.len()) {
        Some(i) if i > 0 => name.take(i as int),
        _ => name,
    }
}

/// The extension of the file that a path ends in, empty where there is none.
pub open spec fn extension(path: Seq<char>) -> Seq<char> {
    match file_name(path) {
        Some(name) => match name_extension(name) {
            Some(e) => e,
            None => Seq::empty(),
        },
        None => Seq::empty(),
    }
}

/// Whether a piece is a single dot.
fn is_dot(chars: &Vec<char>, from: usize, to: usize) -> (r: bool)
    requires
        from <= to <= chars@.len(),
    ensures
        r == (chars@.subrange(from as int, to as int) == seq!['.']),
{
    let r = to - from == 1 && chars[from] == '.';
    let ghost piece = chars@.subrange(from as int, to as int);
    proof {
        if r {
            assert(piece =~= seq!['.']);
        } else if piece == seq!['.'] {
            assert(piece.len() == 1);
            assert(piece[0] == '.');
        }
    }
    r
}

/// The components of a path, the root aside.
pub fn components_of(path: &str) -> (r: Vec<String>)
    ensures
        texts(r@) == components(path@),
{
    let chars = chars_of(path);
    let mut out: Vec<String> = Vec::new();
    let mut start: usize = 0;
    let mut first = true;
    assert(chars@.skip(0) =~= chars@);
    assert(texts(out@) + components_from(chars@.skip(0), true) =~= components(path@));
    loop
        invariant
            start <= chars@.len(),
            chars@ == path@,
            texts(out@) + components_from(chars@.skip(start as int), first) == components(path@),
        decreases chars@.len() - start,
    {
        let ghost rest = chars@.skip(start as int);
        let ghost before = out@;
        let mut end: usize = start;
        while end < chars.len() && chars[end] != '/'
            invariant
                start <= end <= chars@.len(),
                forall|j: int| start <= j < end ==> chars@[j] != '/',
            decreases chars@.len() - end,
        {
            end += 1;
        }
        let ghost p = |c: char| c != '/';
        let ghost piece = chars@.subrange(start as int, end as int);
        proof {
            assert forall|i: int| 0 <= i < end - start implies p(#[trigger] rest[i]) by {
                assert(chars@[start + i] != '/');
            }
            lemma_span_is(rest, p, end - start);
            assert(rest.take(end - start) =~= piece);
        }
        if end > start && (first || !is_dot(&chars, start, end)) {
            let text = text_between(&chars, start, end);
            out.push(text);
            assert(texts(out@) =~= texts(before) + seq![piece]);
        } else {
            assert(texts(out@) =~= texts(before) + Seq::<Seq<char>>::empty());
        }
        if end == chars.len() {
            return out;
        }
        assert(rest.skip(end - start + 1) =~= chars@.skip(end + 1));
        let ghost here = if is_component(piece, first) {
            seq![piece]
        } else {
            Seq::empty()
        };
        assert(texts(before) + (here + components_from(chars@.skip(end + 1), false)) =~= (texts(
            before,
        ) + here) + components_from(chars@.skip(end + 1), false));
        start = end + 1;
        first = false;
    }
}

fn starts_at_root(path: &str) -> (r: bool)
    ensures
        r == is_absolute(path@),
{
    let n = path.unicode_len();
    n > 0 && path.get_char(0) == '/'
}

/// Whether two lists of components agree on the first `n`.
fn same_start(a: &Vec<String>, b: &Vec<String>, n: usize) -> (r: bool)
    requires
        n <= a@.len(),
        n <= b@.len(),
    ensures
        r == (texts(a@).take(n as int) == texts(b@).take(n as int)),
{
    let mut i: usize = 0;
    while i < n
        invariant
            i <= n <= a@.len(),
            n <= b@.len(),
            forall|j: int| 0 <= j < i ==> a@[j]@ == b@[j]@,
        decreases n - i,
    {
        if a[i] != b[i] {
            assert(texts(a@).take(n as int)[i as int] == a@[i as int]@);
            assert(texts(b@).take(n as int)[i as int] == b@[i as int]@);
            return false;
        }
        i += 1;
    }
    assert(texts(a@).take(n as int) =~= texts(b@).take(n as int));
    true
}

/// Whether two texts name the same path.
pub fn is_same_path(a: &str, b: &str) -> (r: bool)
    ensures
        r == same_path(a@, b@),
{
    let x = components_of(a);
    let y = components_of(b);
    assert(texts(x@).take(x@.len() as int) =~= texts(x@));
    assert(texts(y@).take(y@.len() as int) =~= texts(y@));
    if starts_at_root(a) != starts_at_root(b) || x.len() != y.len() {
        assert(texts(x@).len() == x@.len() && texts(y@).len() == y@.len());
        return false;
    }
    same_start(&x, &y, x.len())
}

/// Whether `path` is `scope` or lies below it.
pub fn lies_within(path: &str, scope: &str) -> (r: bool)
    ensures
        r == is_within(path@, scope@),
{
    let x = components_of(path);
    let y = components_of(scope);
    assert(texts(x@).len() == x@.len() && texts(y@).len() == y@.len());
    if starts_at_root(path) != starts_at_root(scope) || x.len() < y.len() {
        return false;
    }
    let r = same_start(&y, &x, y.len());
    proof {
        assert(texts(y@).take(y@.len() as int) =~= texts(y@));
        if r {
            assert(components(scope@) =~= components(path@).subrange(
                0,
                components(scope@).len() as int,
            ));
        } else if components(scope@).is_prefix_of(components(path@)) {
            assert(texts(x@).take(y@.len() as int) =~= texts(y@));
        }
    }
    r
}

/// The path below `root` that `path` names, if it lies there.
pub open spec fn below(path: Seq<char>, root: Seq<char>) -> Option<Seq<Seq<char>>> {
    if is_within(path, root) {
        Some(components(path).skip(components(root).len() as int))
    } else {
        None
    }
}

/// Components with slashes between.
pub open spec fn joined(v: Seq<Seq<char>>) -> Seq<char>
    decreases v.len(),
{
    if v.len() == 0 {
        Seq::empty()
    } else if v.len() == 1 {
        v[0]
    } else {
        joined(v.drop_last()) + seq!['/'] + v.last()
    }
}

/// The path relative to `root`, if it lies there.
pub fn relative_to(path: &str, root: &str) -> (r: Option<String>)
    ensures
        match r {
            Some(t) => is_within(path@, root@) && t@ == joined(below(path@, root@)->0),
            None => !is_within(path@, root@),
        },
{
    if !lies_within(path, root) {
        return None;
    }
    let x = components_of(path);
    let y = components_of(root);
    assert(texts(x@).len() == x@.len() && texts(y@).len() == y@.len());
    let ghost tail = components(path@).skip(components(root@).len() as int);
    let mut out = String::new();
    let start = y.len();
    let mut i: usize = start;
    while i < x.len()
        invariant
            start <= i <= x@.len(),
            tail == texts(x@).skip(start as int),
            out@ == joined(tail.take(i - start)),
        decreases x@.len() - i,
    {
        let ghost longer = tail.take(i - start + 1);
        assert(longer.drop_last() =~= tail.take(i - start));
        assert(longer.last() == x@[i as int]@);
        let ghost was = out@;
        if i > start {
            out.push('/');
        } else {
            assert(was =~= Seq::<char>::empty());
        }
        out.append(x[i].as_str());
        assert(out@ =~= joined(longer));
        i += 1;
    }
    assert(tail.take(x@.len() - start) =~= tail);
    Some(out)
}

/// The rank of a component.
fn rank_of(chars: &Vec<char>) -> (r: u32)
    ensures
        r == component_rank(chars@),
{
    if chars.len() == 1 && chars[0] == '.' {
        assert(chars@ =~= seq!['.']);
        3
    } else if chars.len() == 2 && chars[0] == '.' && chars[1] == '.' {
        assert(chars@ =~= seq!['.', '.']);
        assert(chars@.len() != seq!['.'].len());
        4
    } else {
        proof {
            assert(seq!['.'].len() == 1 && seq!['.'][0] == '.');
            assert(seq!['.', '.'].len() == 2 && seq!['.', '.'][0] == '.' && seq!['.', '.'][1]
                == '.');
        }
        5
    }
}

/// The key by which paths are put in order.
pub fn path_key_of(path: &str) -> (r: Vec<u32>)
    ensures
        r@ == path_key(path@),
{
    let v = components_of(path);
    assert(texts(v@).len() == v@.len());
    let mut out: Vec<u32> = Vec::new();
    if starts_at_root(path) {
        out.push(2);
    }
    let ghost base = out@;
    assert(base =~= if is_absolute(path@) {
        seq![2u32]
    } else {
        Seq::empty()
    });
    assert(base =~= base + components_key(texts(v@), 0));
    let mut i: usize = 0;
    while i < v.len()
        invariant
            i <= v@.len(),
            texts(v@).len() == v@.len(),
            out@ == base + components_key(texts(v@), i as nat),
        decreases v@.len() - i,
    {
        let chars = chars_of(v[i].as_str());
        let ghost before = out@;
        out.push(rank_of(&chars));
        let ghost head = out@;
        let ghost codes = chars@.map_values(|x: char| (x as u32 + 6) as u32);
        let mut k: usize = 0;
        assert(head + codes.take(0) =~= head);
        while k < chars.len()
            invariant
                k <= chars@.len(),
                codes == chars@.map_values(|x: char| (x as u32 + 6) as u32),
                out@ == head + codes.take(k as int),
            decreases chars@.len() - k,
        {
            proof {
                vstd::utf8::char_is_scalar(chars@[k as int]);
            }
            out.push(chars[k] as u32 + 6);
            k += 1;
            assert(codes.take(k as int) =~= codes.take(k - 1).push(codes[k - 1]));
            assert(out@ =~= head + codes.take(k as int));
        }
        out.push(1);
        assert(codes.take(codes.len() as int) =~= codes);
        assert(out@ =~= before + component_key(chars@));
        assert(texts(v@)[i as int] == chars@);
        i += 1;
        assert(out@ =~= base + components_key(texts(v@), i as nat));
    }
    out
}

/// The name of the file that a path ends in.
pub fn file_name_of(path: &str) -> (r: Option<String>)
    ensures
        crate::query::ast::text_option(r) == file_name(path@),
{
    let v = components_of(path);
    assert(texts(v@).len() == v@.len());
    let n = v.len();
    if n == 0 {
        return None;
    }
    assert(texts(v@).last() == v@[n - 1]@);
    if rank_of(&chars_of(v[n - 1].as_str())) == 5 {
        Some(v[n - 1].clone())
    } else {
        None
    }
}

/// The place of the last dot of a name.
fn find_last_dot(chars: &Vec<char>) -> (r: Option<usize>)
    ensures
        match r {
            Some(i) => last_dot(chars@, chars@.len()) == Some(i as nat) && i < chars@.len(),
            None => last_dot(chars@, chars@.len()) is None,
        },
{
    let mut n: usize = chars.len();
    while n > 0
        invariant
            n <= chars@.len(),
            last_dot(chars@, chars@.len()) == last_dot(chars@, n as nat),
        decreases n,
    {
        if chars[n - 1] == '.' {
            return Some(n - 1);
        }
        n -= 1;
    }
    None
}

/// The extension of the file that a path ends in, empty where there is none.
pub fn extension_of(path: &str) -> (r: String)
    ensures
        r@ == extension(path@),
{
    match file_name_of(path) {
        Some(name) => {
            let chars = chars_of(name.as_str());
            match find_last_dot(&chars) {
                Some(i) => {
                    if i > 0 {
                        let n = chars.len();
                        let r = text_between(&chars, i + 1, n);
                        assert(r@ =~= chars@.skip(i + 1));
                        return r;
                    }
                },
                None => {},
            }
            String::new()
        },
        None => String::new(),
    }
}

/// The file name that a path ends in without its extension, empty where there
/// is no file name.
pub fn file_stem_of(path: &str) -> (r: String)
    ensures
        r@ == match file_name(path@) {
            Some(name) => name_stem(name),
            None => Seq::empty(),
        },
{
    match file_name_of(path) {
        Some(name) => {
            let chars = chars_of(name.as_str());
            match find_last_dot(&chars) {
                Some(i) => {
                    if i > 0 {
                        let r = text_between(&chars, 0, i);
                        assert(r@ =~= chars@.take(i as int));
                        return r;
                    }
                },
                None => {},
            }
            name
        },
        None => String::new(),
    }
}

/// The keys of components start with that of the first.
proof fn lemma_key_front(v: Seq<Seq<char>>, n: nat)
    requires
        0 < n <= v.len(),
    ensures
        components_key(v, n) == component_key(v[0]) + components_key(
            v.drop_first(),
            (n - 1) as nat,
        ),
    decreases n,
{
    let rest = v.drop_first();
    if n == 1 {
        assert(components_key(v, 1) =~= components_key(v, 0) + component_key(v[0]));
        assert(components_key(v, 1) =~= component_key(v[0]) + components_key(rest, 0));
    } else {
        lemma_key_front(v, (n - 1) as nat);
        assert(rest[n - 2] == v[n - 1]);
        assert(components_key(v, n) =~= component_key(v[0]) + components_key(rest, (n - 1) as nat));
    }
}

/// A component can be read off the start of a key.
proof fn lemma_component_first(c: Seq<char>, d: Seq<char>, x: Seq<u32>, y: Seq<u32>)
    requires
        component_key(c) + x == component_key(d) + y,
    ensures
        c == d,
        x == y,
{
    let a = component_key(c) + x;
    let b = component_key(d) + y;
    let n = c.len() as int;
    let m = d.len() as int;
    assert(component_key(c).len() == n + 2 && component_key(d).len() == m + 2);
    assert(a[n + 1] == 1u32);
    assert(b[m + 1] == 1u32);
    if n < m {
        assert(b[n + 1] == (d[n] as u32 + 6) as u32);
        vstd::utf8::char_is_scalar(d[n]);
        assert(false);
    }
    if m < n {
        assert(a[m + 1] == (c[m] as u32 + 6) as u32);
        vstd::utf8::char_is_scalar(c[m]);
        assert(false);
    }
    assert forall|i: int| 0 <= i < n implies c[i] == d[i] by {
        assert(a[i + 1] == (c[i] as u32 + 6) as u32);
        assert(b[i + 1] == (d[i] as u32 + 6) as u32);
        vstd::utf8::char_is_scalar(c[i]);
        vstd::utf8::char_is_scalar(d[i]);
        vstd::utf8::char_u32_cast(c[i], c[i] as u32);
        vstd::utf8::char_u32_cast(d[i], d[i] as u32);
    }
    assert(c =~= d);
    assert(x =~= a.skip(n + 2));
    assert(y =~= b.skip(m + 2));
}

proof fn lemma_components_key_injective(a: Seq<Seq<char>>, b: Seq<Seq<char>>)
    requires
        components_key(a, a.len()) == components_key(b, b.len()),
    ensures
        a == b,
    decreases a.len(),
{
    if a.len() == 0 || b.len() == 0 {
        if a.len() > 0 {
            lemma_key_front(a, a.len());
            assert(components_key(a, a.len()).len() > 0);
        }
        if b.len() > 0 {
            lemma_key_front(b, b.len());
            assert(components_key(b, b.len()).len() > 0);
        }
        assert(a =~= b);
    } else {
        lemma_key_front(a, a.len());
        lemma_key_front(b, b.len());
        let x = a.drop_first();
        let y = b.drop_first();
        lemma_component_first(
            a[0],
            b[0],
            components_key(x, x.len()),
            components_key(y, y.len()),
        );
        lemma_components_key_injective(x, y);
        assert(a =~= seq![a[0]] + x);
        assert(b =~= seq![b[0]] + y);
    }
}

/// Two texts have the same key exactly if they name the same path.
pub proof fn same_key_is_same_path(a: Seq<char>, b: Seq<char>)
    ensures
        path_key(a) == path_key(b) <==> same_path(a, b),
{
    if path_key(a) == path_key(b) {
        let x = components(a);
        let y = components(b);
        let kx = components_key(x, x.len());
        let ky = components_key(y, y.len());
        if x.len() > 0 {
            lemma_key_front(x, x.len());
            assert(kx[0] == component_rank(x[0]));
        }
        if y.len() > 0 {
            lemma_key_front(y, y.len());
            assert(ky[0] == component_rank(y[0]));
        }
        if is_absolute(a) {
            assert(path_key(a)[0] == 2u32);
            if !is_absolute(b) {
                assert(path_key(b) =~= ky);
                assert(false);
            }
            assert(path_key(a).skip(1) =~= kx);
            assert(path_key(b).skip(1) =~= ky);
        } else {
            assert(path_key(a) =~= kx);
            if is_absolute(b) {
                assert(path_key(b)[0] == 2u32);
                assert(false);
            }
            assert(path_key(b) =~= ky);
        }
        lemma_components_key_injective(x, y);
    }
}

} // verus!
