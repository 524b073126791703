//! What a search reads of an index: the documents with their texts, and the
//! lists of documents that hold a trigram or a token.
use crate::query::ast::text_option;
use crate::query::bitmap::{add_to_set, docs, empty_set, intersect_with, unite_with};
use crate::query::lines::{find_bytes, first_at};
use crate::query::plan::Trigram;
use crate::text::{chars_of, lower_case, spells};
use roaring::RoaringBitmap;
use vstd::prelude::*;
use vstd::utf8::encode_utf8;

verus! {

/// The language of a document.
#[derive(Debug, Clone, Copy, PartialEq, Eq, Structural)]
pub enum Language {
    Rust,
    Python,
    JavaScript,
    TypeScript,
    Go,
    C,
    Cpp,
    Java,
    Ruby,
    Shell,
    Unknown,
}

/// The language that a name in lower case stands for.
pub open spec fn language_named(name: Seq<char>) -> Language {
    if name == "rust"@ || name == "rs"@ {
        Language::Rust
    } else if name == "python"@ || name == "py"@ {
        Language::Python
    } else if name == "javascript"@ || name == "js"@ {
        Language::JavaScript
    } else if name == "typescript"@ || name == "ts"@ {
        Language::TypeScript
    } else if name == "go"@ {
        Language::Go
    } else if name == "c"@ {
        Language::C
    } else if name == "cpp"@ || name == "c++"@ {
        Language::Cpp
    } else if name == "java"@ {
        Language::Java
    } else if name == "ruby"@ || name == "rb"@ {
        Language::Ruby
    } else if name == "shell"@ || name == "sh"@ || name == "bash"@ {
        Language::Shell
    } else {
        Language::Unknown
    }
}

/// The language that a name stands for, whatever the case of letters.
pub fn parse_language(lang: &str) -> (r: Language)
    ensures
        r == language_named(lower_case(lang@)),
{
    let name = chars_of(lang.to_lowercase().as_str());
    if spells(&name, "rust") || spells(&name, "rs") {
        Language::Rust
    } else if spells(&name, "python") || spells(&name, "py") {
        Language::Python
    } else if spells(&name, "javascript") || spells(&name, "js") {
        Language::JavaScript
    } else if spells(&name, "typescript") || spells(&name, "ts") {
        Language::TypeScript
    } else if spells(&name, "go") {
        Language::Go
    } else if spells(&name, "c") {
        Language::C
    } else if spells(&name, "cpp") || spells(&name, "c++") {
        Language::Cpp
    } else if spells(&name, "java") {
        Language::Java
    } else if spells(&name, "ruby") || spells(&name, "rb") {
        Language::Ruby
    } else if spells(&name, "shell") || spells(&name, "sh") || spells(&name, "bash") {
        Language::Shell
    } else {
        Language::Unknown
    }
}

/// A document.
#[derive(Debug)]
pub struct Document {
    /// Path relative to the root.
    pub path: String,
    pub language: Language,
    /// Size in bytes.
    pub size: u64,
    /// Time of modification, in seconds since 1970.
    pub mtime: u64,
    /// Whether it is neither stale nor removed.
    pub valid: bool,
    /// The text, where it can be read.
    pub content: Option<String>,
}

/// An index. A document's number is its place in `documents`.
#[derive(Debug)]
pub struct Index {
    pub documents: Vec<Document>,
    /// Trigrams too common to narrow anything.
    pub stop_grams: Vec<Trigram>,
    /// For each trigram that occurs, the documents that hold it.
    pub trigram_docs: Vec<(Trigram, RoaringBitmap)>,
    /// For each token that occurs, the documents that hold it.
    pub token_docs: Vec<(String, RoaringBitmap)>,
}

impl Index {
    /// Numbers of documents and of lines fit in 32 bits.
    pub open spec fn wf(&self) -> bool {
        &&& self.documents@.len() < u32::MAX
        &&& forall|i: int|
            0 <= i < self.documents@.len() ==> match (#[trigger] self.documents@[i]).content {
                Some(c) => c@.len() < u32::MAX,
                None => true,
            }
    }

    /// The text of a document, where there is one to be read.
    pub open spec fn text(&self, d: u32) -> Option<Seq<char>> {
        if d < self.documents@.len() {
            text_option(self.documents@[d as int].content)
        } else {
            None
        }
    }

    /// The valid documents.
    pub open spec fn valid_docs(&self) -> Set<u32> {
        Set::new(|d: u32| d < self.documents@.len() && self.documents@[d as int].valid)
    }

    /// Whether a trigram is too common to narrow anything.
    pub open spec fn is_stop(&self, t: Trigram) -> bool {
        self.stop_grams@.contains(t)
    }

    /// The documents that the index lists for a trigram.
    pub open spec fn gram_docs(&self, t: Trigram) -> Set<u32> {
        Set::new(
            |d: u32|
                exists|i: int|
                    0 <= i < self.trigram_docs@.len() && (#[trigger] self.trigram_docs@[i]).0 == t
                        && docs(self.trigram_docs@[i].1).contains(d),
        )
    }

    /// The documents that the index lists for all of the trigrams.
    pub open spec fn all_gram_docs(&self, v: Seq<Trigram>) -> Set<u32> {
        Set::new(
            |d: u32| forall|k: int| 0 <= k < v.len() ==> self.gram_docs(#[trigger] v[k]).contains(d),
        )
    }

    /// The documents that the index lists for a token.
    pub open spec fn docs_of_token(&self, token: Seq<char>) -> Set<u32> {
        Set::new(
            |d: u32|
                exists|i: int|
                    0 <= i < self.token_docs@.len() && (#[trigger] self.token_docs@[i]).0@ == token
                        && docs(self.token_docs@[i].1).contains(d),
        )
    }

    /// The documents that the index lists for a token around a text.
    pub open spec fn docs_around(&self, part: Seq<char>) -> Set<u32> {
        Set::new(
            |d: u32|
                exists|i: int|
                    0 <= i < self.token_docs@.len() && first_at(
                        encode_utf8((#[trigger] self.token_docs@[i]).0@),
                        encode_utf8(part),
                    ) is Some && docs(self.token_docs@[i].1).contains(d),
        )
    }

    /// Whether a trigram is too common to narrow anything.
    pub fn is_stop_gram(&self, t: Trigram) -> (r: bool)
        ensures
            r == self.is_stop(t),
    {
        let mut i: usize = 0;
        while i < self.stop_grams.len()
            invariant
                i <= self.stop_grams@.len(),
                forall|j: int| 0 <= j < i ==> self.stop_grams@[j] != t,
            decreases self.stop_grams@.len() - i,
        {
            if self.stop_grams[i] == t {
                return true;
            }
            i += 1;
        }
        false
    }

    /// The valid documents.
    pub fn valid_doc_ids(&self) -> (r: RoaringBitmap)
        requires
            self.wf(),
        ensures
            docs(r) == self.valid_docs(),
    {
        let mut out = empty_set();
        let mut i: usize = 0;
        while i < self.documents.len()
            invariant
                i <= self.documents@.len() < u32::MAX,
                forall|d: u32| #[trigger]
                    docs(out).contains(d) <==> d < i && self.documents@[d as int].valid,
            decreases self.documents@.len() - i,
        {
            if self.documents[i].valid {
                add_to_set(&mut out, i as u32);
            }
            i += 1;
        }
        assert(docs(out) =~= self.valid_docs());
        out
    }

    /// The documents that the index lists for a trigram.
    fn get_trigram_docs(&self, t: Trigram) -> (r: RoaringBitmap)
        ensures
            docs(r) == self.gram_docs(t),
    {
        let mut out = empty_set();
        let mut i: usize = 0;
        while i < self.trigram_docs.len()
            invariant
                i <= self.trigram_docs@.len(),
                forall|d: u32| #[trigger]
                    docs(out).contains(d) <==> exists|k: int|
                        0 <= k < i && (#[trigger] self.trigram_docs@[k]).0 == t && docs(
                            self.trigram_docs@[k].1,
                        ).contains(d),
            decreases self.trigram_docs@.len() - i,
        {
            let ghost before = docs(out);
            if self.trigram_docs[i].0 == t {
                unite_with(&mut out, &self.trigram_docs[i].1);
            }
            i += 1;
            assert forall|d: u32| #[trigger] docs(out).contains(d) <==> exists|k: int|
                0 <= k < i && (#[trigger] self.trigram_docs@[k]).0 == t && docs(
                    self.trigram_docs@[k].1,
                ).contains(d) by {
                if docs(out).contains(d) && !before.contains(d) {
                    assert(self.trigram_docs@[i - 1].0 == t);
                }
            }
        }
        assert(docs(out) =~= self.gram_docs(t));
        out
    }

    /// The documents that the index lists for all of the trigrams, of which
    /// there is at least one.
    pub fn get_trigram_docs_all(&self, v: &Vec<Trigram>) -> (r: RoaringBitmap)
        requires
            v@.len() > 0,
        ensures
            docs(r) == self.all_gram_docs(v@),
    {
        let mut out = self.get_trigram_docs(v[0]);
        let mut i: usize = 1;
        while i < v.len()
            invariant
                1 <= i <= v@.len(),
                forall|d: u32| #[trigger]
                    docs(out).contains(d) <==> forall|k: int|
                        0 <= k < i ==> self.gram_docs(#[trigger] v@[k]).contains(d),
            decreases v@.len() - i,
        {
            let more = self.get_trigram_docs(v[i]);
            intersect_with(&mut out, &more);
            i += 1;
        }
        assert(docs(out) =~= self.all_gram_docs(v@));
        out
    }

    /// The documents that the index lists for a token.
    pub fn get_token_docs(&self, token: &str) -> (r: RoaringBitmap)
        ensures
            docs(r) == self.docs_of_token(token@),
    {
        let mut out = empty_set();
        let wanted = token.to_owned();
        let mut i: usize = 0;
        while i < self.token_docs.len()
            invariant
                i <= self.token_docs@.len(),
                wanted@ == token@,
                forall|d: u32| #[trigger]
                    docs(out).contains(d) <==> exists|k: int|
                        0 <= k < i && (#[trigger] self.token_docs@[k]).0@ == token@ && docs(
                            self.token_docs@[k].1,
                        ).contains(d),
            decreases self.token_docs@.len() - i,
        {
            let ghost before = docs(out);
            if self.token_docs[i].0 == wanted {
                unite_with(&mut out, &self.token_docs[i].1);
            }
            i += 1;
            assert forall|d: u32| #[trigger] docs(out).contains(d) <==> exists|k: int|
                0 <= k < i && (#[trigger] self.token_docs@[k]).0@ == token@ && docs(
                    self.token_docs@[k].1,
                ).contains(d) by {
                if docs(out).contains(d) && !before.contains(d) {
                    assert(self.token_docs@[i - 1].0@ == token@);
                }
            }
        }
        assert(docs(out) =~= self.docs_of_token(token@));
        out
    }

    /// The documents that the index lists for a token around a text.
    pub fn get_token_docs_containing(&self, part: &str) -> (r: RoaringBitmap)
        ensures
            docs(r) == self.docs_around(part@),
    {
        let mut out = empty_set();
        let mut i: usize = 0;
        while i < self.token_docs.len()
            invariant
                i <= self.token_docs@.len(),
                forall|d: u32| #[trigger]
                    docs(out).contains(d) <==> exists|k: int|
                        0 <= k < i && first_at(
                            encode_utf8((#[trigger] self.token_docs@[k]).0@),
                            encode_utf8(part@),
                        ) is Some && docs(self.token_docs@[k].1).contains(d),
            decreases self.token_docs@.len() - i,
        {
            let ghost before = docs(out);
            let found = find_bytes(self.token_docs[i].0.as_str().as_bytes(), part.as_bytes());
            if found.is_some() {
                unite_with(&mut out, &self.token_docs[i].1);
            }
            i += 1;
            assert forall|d: u32| #[trigger] docs(out).contains(d) <==> exists|k: int|
                0 <= k < i && first_at(
                    encode_utf8((#[trigger] self.token_docs@[k]).0@),
                    encode_utf8(part@),
                ) is Some && docs(self.token_docs@[k].1).contains(d) by {
                if docs(out).contains(d) && !before.contains(d) {
                    assert(first_at(
                        encode_utf8(self.token_docs@[i - 1].0@),
                        encode_utf8(part@),
                    ) is Some);
                }
            }
        }
        assert(docs(out) =~= self.docs_around(part@));
        out
    }
}

} // verus!
