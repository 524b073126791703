//! Making an index of documents.
use crate::query::bitmap::{add_to_set, docs, empty_set};
use crate::query::index::{Document, Index};
use crate::query::index_laws::is_complete;
use crate::query::plan::Trigram;
use crate::query::regex_plan::{bytes_to_trigram, holds_trigram, trigram_at};
use crate::query::scan_laws::lists_valid;
use roaring::RoaringBitmap;
use std::collections::HashMap;
use vstd::prelude::*;
use vstd::utf8::encode_utf8;

verus! {

broadcast use vstd::std_specs::hash::group_hash_axioms;

/// Whether a document is listed under a trigram.
pub open spec fn listed(table: Seq<(Trigram, RoaringBitmap)>, t: Trigram, d: u32) -> bool {
    exists|i: int|
        0 <= i < table.len() && (#[trigger] table[i]).0 == t && docs(table[i].1).contains(d)
}

/// Whether places lead to the right trigrams.
spec fn leads(places: Map<u32, usize>, table: Seq<(Trigram, RoaringBitmap)>) -> bool {
    forall|t: u32| #[trigger]
        places.contains_key(t) ==> places[t] < table.len() && table[places[t] as int].0 == t
}

/// Lists a document under a trigram.
fn note(
    table: &mut Vec<(Trigram, RoaringBitmap)>,
    places: &mut HashMap<u32, usize>,
    t: Trigram,
    d: u32,
)
    requires
        leads(old(places)@, old(table)@),
    ensures
        leads(final(places)@, final(table)@),
        forall|x: Trigram, e: u32| #[trigger]
            listed(final(table)@, x, e) <==> listed(old(table)@, x, e) || (x == t && e == d),
{
    let ghost was = table@;
    let known: Option<usize> = match places.get(&t) {
        Some(p) => Some(*p),
        None => None,
    };
    match known {
        Some(p) => {
            add_to_set(&mut table[p].1, d);
            let ghost now = table@;
            assert forall|x: Trigram, e: u32| #[trigger] listed(now, x, e) <==> listed(was, x, e)
                || (x == t && e == d) by {
                if listed(was, x, e) {
                    let i = choose|i: int|
                        0 <= i < was.len() && (#[trigger] was[i]).0 == x && docs(
                            was[i].1,
                        ).contains(e);
                    assert(now[i].0 == x && docs(now[i].1).contains(e));
                }
                if x == t && e == d {
                    assert(now[p as int].0 == t && docs(now[p as int].1).contains(d));
                }
                if listed(now, x, e) {
                    let i = choose|i: int|
                        0 <= i < now.len() && (#[trigger] now[i]).0 == x && docs(
                            now[i].1,
                        ).contains(e);
                    assert(was[i].0 == x);
                }
            }
        },
        None => {
            let mut s = empty_set();
            add_to_set(&mut s, d);
            let n = table.len();
            table.push((t, s));
            places.insert(t, n);
            let ghost now = table@;
            assert forall|x: Trigram, e: u32| #[trigger] listed(now, x, e) <==> listed(was, x, e)
                || (x == t && e == d) by {
                if listed(was, x, e) {
                    let i = choose|i: int|
                        0 <= i < was.len() && (#[trigger] was[i]).0 == x && docs(
                            was[i].1,
                        ).contains(e);
                    assert(now[i] == was[i]);
                }
                if x == t && e == d {
                    assert(now[n as int].0 == t && docs(now[n as int].1).contains(d));
                }
                if listed(now, x, e) {
                    let i = choose|i: int|
                        0 <= i < now.len() && (#[trigger] now[i]).0 == x && docs(
                            now[i].1,
                        ).contains(e);
                    if i < was.len() {
                        assert(was[i] == now[i]);
                    }
                }
            }
        },
    }
}

/// Whether one of the first `n` places of a text holds a trigram.
spec fn holds_before(s: Seq<u8>, t: Trigram, n: int) -> bool {
    exists|i: int| 0 <= i < n && i + 2 < s.len() && #[trigger] trigram_at(s, i) == t
}

/// Lists a document under each trigram of its text.
fn note_all(
    table: &mut Vec<(Trigram, RoaringBitmap)>,
    places: &mut HashMap<u32, usize>,
    text: &str,
    d: u32,
)
    requires
        leads(old(places)@, old(table)@),
    ensures
        leads(final(places)@, final(table)@),
        forall|x: Trigram, e: u32| #[trigger]
            listed(final(table)@, x, e) <==> listed(old(table)@, x, e) || (e == d && holds_trigram(
                encode_utf8(text@),
                x,
            )),
{
    let ghost was = table@;
    let bytes = text.as_bytes();
    let ghost s = encode_utf8(text@);
    let mut i: usize = 0;
    let n = bytes.len();
    while n >= 2 && i < n - 2
        invariant
            n == bytes@.len(),
            bytes@ == s,
            n >= 2 ==> i <= n - 2,
            n < 2 ==> i == 0,
            leads(places@, table@),
            forall|x: Trigram, e: u32| #[trigger]
                listed(table@, x, e) <==> listed(was, x, e) || (e == d && holds_before(
                    s,
                    x,
                    i as int,
                )),
        decreases n - i,
    {
        let ghost before = table@;
        let t = bytes_to_trigram(bytes[i], bytes[i + 1], bytes[i + 2]);
        assert(t == trigram_at(s, i as int));
        note(table, places, t, d);
        assert forall|x: Trigram, e: u32| #[trigger] listed(table@, x, e) <==> listed(was, x, e)
            || (e == d && holds_before(s, x, i + 1)) by {
            assert(listed(before, x, e) <==> listed(was, x, e) || (e == d && holds_before(
                s,
                x,
                i as int,
            )));
            if x == t {
                assert(trigram_at(s, i as int) == x);
            }
            if holds_before(s, x, i + 1) && !holds_before(s, x, i as int) {
                let k = choose|k: int|
                    0 <= k < i + 1 && k + 2 < s.len() && #[trigger] trigram_at(s, k) == x;
                assert(k == i);
            }
        }
        i += 1;
    }
    assert forall|x: Trigram| #[trigger] holds_before(s, x, i as int) <==> holds_trigram(
        s,
        x,
    ) by {
        if holds_trigram(s, x) {
            let k = choose|k: int| 0 <= k && k + 2 < s.len() && #[trigger] trigram_at(s, k) == x;
            assert(k < i);
        }
    }
}

/// Whether a document is valid and its text holds a trigram.
pub open spec fn document_holds(d: Document, t: Trigram) -> bool {
    d.valid && d.content is Some && holds_trigram(encode_utf8(d.content->0@), t)
}

impl Index {
    /// An index of documents: each valid one is listed under every trigram of
    /// its text.
    pub fn new(documents: Vec<Document>) -> (r: Index)
        requires
            documents@.len() < u32::MAX,
            forall|i: int|
                0 <= i < documents@.len() ==> match (#[trigger] documents@[i]).content {
                    Some(c) => c@.len() < u32::MAX,
                    None => true,
                },
        ensures
            r.wf(),
            r.documents == documents,
            r.stop_grams@.len() == 0,
            r.token_docs@.len() == 0,
            forall|t: Trigram, d: u32| #[trigger]
                r.gram_docs(t).contains(d) <==> d < documents@.len() && document_holds(
                    documents@[d as int],
                    t,
                ),
            is_complete(r),
            lists_valid(r),
    {
        let mut table: Vec<(Trigram, RoaringBitmap)> = Vec::new();
        let mut places: HashMap<u32, usize> = HashMap::new();
        let mut k: usize = 0;
        while k < documents.len()
            invariant
                k <= documents@.len() < u32::MAX,
                leads(places@, table@),
                forall|t: Trigram, d: u32| #[trigger]
                    listed(table@, t, d) <==> d < k && document_holds(documents@[d as int], t),
            decreases documents@.len() - k,
        {
            let ghost before = table@;
            if documents[k].valid {
                match &documents[k].content {
                    Some(text) => {
                        note_all(&mut table, &mut places, text.as_str(), k as u32);
                    },
                    None => {},
                }
            }
            assert forall|t: Trigram, d: u32| #[trigger] listed(table@, t, d) <==> d < k + 1
                && document_holds(documents@[d as int], t) by {
                assert(listed(before, t, d) <==> d < k && document_holds(documents@[d as int], t));
            }
            k += 1;
        }
        let r = Index {
            documents,
            stop_grams: Vec::new(),
            trigram_docs: table,
            token_docs: Vec::new(),
        };
        assert forall|t: Trigram, d: u32| #[trigger] r.gram_docs(t).contains(d) <==> d
            < documents@.len() && document_holds(documents@[d as int], t) by {
            assert(r.gram_docs(t).contains(d) <==> listed(table@, t, d));
        }
        r
    }
}

} // verus!
