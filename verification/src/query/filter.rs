//! Filters on documents.
use crate::paths::{extension, extension_of, file_name, file_name_of, is_within, lies_within};
use crate::query::bitmap::{add_to_set, docs, empty_set, list_of_set};
use crate::query::index::{language_named, parse_language, Document, Index};
use crate::query::outside::is_simple_glob;
use crate::query::plan::{FilterStep, FilterStepModel};
use crate::text::{chars_of, has_char, lower_case, lower_chars, lowered, same_chars};
use roaring::RoaringBitmap;
use vstd::prelude::*;

verus! {

/// Whether `globset::GlobBuilder` accepts a pattern with special characters and
/// `globset::GlobSetBuilder` builds a set of it. Where `strict`,
/// `literal_separator` is set: only a separator in the pattern matches a
/// separator. A backslash counts as on the system that the crate is built for.
pub uninterp spec fn glob_valid(pattern: Seq<char>, strict: bool) -> bool;

/// Whether `globset::GlobSet::is_match` tells of the set of a pattern that it
/// matches a text, where one of them has special characters.
pub uninterp spec fn glob_match(pattern: Seq<char>, strict: bool, text: Seq<char>) -> bool;

/// Whether a glob has nothing that stands for other characters.
pub open spec fn is_literal_glob(p: Seq<char>) -> bool {
    p.len() > 0 && is_simple_glob(p) && !p.contains('*') && !p.contains('?')
}

/// Whether a pattern is a glob that can be searched for.
pub open spec fn glob_accepted(pattern: Seq<char>, strict: bool) -> bool {
    is_literal_glob(pattern) || glob_valid(pattern, strict)
}

/// Whether a glob matches a text. A glob without wildcards matches itself.
pub open spec fn glob_matches(pattern: Seq<char>, strict: bool, text: Seq<char>) -> bool {
    if is_literal_glob(pattern) && !text.contains('\\') {
        text == pattern
    } else {
        glob_match(pattern, strict, text)
    }
}

/// Builds a `globset::GlobSet` of one pattern and asks `is_match` for each text;
/// nothing where there is no such set, since the pattern is refused or too large.
/// A pattern without special characters is accepted and matches itself, but for
/// backslashes, which some systems take for slashes; a lone star that may match
/// separators matches everything. Beyond that each answer depends on the
/// pattern, the option and the text alone.
#[verifier::external_body]
pub(crate) fn match_glob(pattern: &str, strict: bool, texts: &Vec<String>) -> (r: Option<Vec<bool>>)
    ensures
        is_literal_glob(pattern@) ==> r is Some,
        !is_literal_glob(pattern@) ==> (r is Some <==> glob_valid(pattern@, strict)),
        r is Some ==> r->0@.len() == texts@.len(),
        r is Some ==> forall|i: int|
            0 <= i < texts@.len() && is_literal_glob(pattern@) && !texts@[i]@.contains('\\')
                ==> #[trigger] r->0@[i] == (texts@[i]@ == pattern@),
        r is Some ==> forall|i: int|
            0 <= i < texts@.len() && !(is_literal_glob(pattern@) && !texts@[i]@.contains('\\'))
                ==> #[trigger] r->0@[i] == glob_match(pattern@, strict, texts@[i]@),
        pattern@ == "*"@ && !strict ==> r is Some && forall|i: int|
            0 <= i < texts@.len() ==> #[trigger] r->0@[i],
{
    let glob = globset::GlobBuilder::new(pattern).literal_separator(strict).build().ok()?;
    let set = globset::GlobSetBuilder::new().add(glob).build().ok()?;
    Some(texts.iter().map(|text| set.is_match(text)).collect())
}

/// Whether a path passes a path filter. A pattern that is no glob lets every
/// path pass.
pub open spec fn path_passes(pattern: Seq<char>, path: Seq<char>) -> bool {
    glob_accepted(pattern, true) ==> glob_matches(pattern, true, path)
}

/// Whether a file filter is a pattern and not a name.
pub open spec fn is_name_pattern(pattern: Seq<char>) -> bool {
    pattern.contains('*') || pattern.contains('?') || pattern.contains('[')
}

/// What the glob of a file filter says of a path, where the filter is a pattern
/// and a glob.
pub open spec fn name_glob(pattern: Seq<char>, path: Seq<char>) -> Option<bool> {
    if is_name_pattern(pattern) && glob_accepted(lower_case(pattern), false) {
        Some(
            file_name(path) is Some && glob_matches(
                lower_case(pattern),
                false,
                lower_case(file_name(path)->0),
            ),
        )
    } else {
        None
    }
}

/// Whether a file name passes a file filter whose glob, where it has one, gives
/// an answer: without one it has to be the name, whatever the case of letters.
pub open spec fn name_passes_given(
    pattern: Seq<char>,
    path: Seq<char>,
    by_glob: Option<bool>,
) -> bool {
    match file_name(path) {
        None => false,
        Some(name) => match by_glob {
            Some(answer) => answer,
            None => lower_case(name) == lower_case(pattern),
        },
    }
}

/// Whether a file name passes a file filter, whatever the case of letters.
pub open spec fn name_passes(pattern: Seq<char>, path: Seq<char>) -> bool {
    name_passes_given(pattern, path, name_glob(pattern, path))
}

/// Whether a number lies within bounds.
pub open spec fn in_bounds(n: u64, min: Option<u64>, max: Option<u64>) -> bool {
    (min is Some ==> min->0 <= n) && (max is Some ==> n <= max->0)
}

/// Whether a document passes a filter of which the path filter and the file
/// filter, where it has them, have given their answers. The bounds on lines are
/// for its matches.
pub open spec fn passes_given(
    doc: Document,
    f: FilterStepModel,
    path_ok: bool,
    name_ok: bool,
) -> bool {
    &&& doc.valid
    &&& (f.path_glob is Some ==> path_ok)
    &&& (f.filename is Some ==> name_ok)
    &&& (f.extension is Some ==> lowered(extension(doc.path@)) == lowered(f.extension->0))
    &&& (f.language is Some ==> doc.language == language_named(lower_case(f.language->0)))
    &&& in_bounds(doc.size, f.size_min, f.size_max)
    &&& in_bounds(doc.mtime, f.mtime_min, f.mtime_max)
    &&& (f.scope is Some ==> is_within(doc.path@, f.scope->0))
}

/// Whether a document passes a filter.
pub open spec fn passes(doc: Document, f: FilterStepModel) -> bool {
    passes_given(
        doc,
        f,
        path_passes(f.path_glob->0, doc.path@),
        name_passes(f.filename->0, doc.path@),
    )
}

impl Index {
    /// The documents of a set that pass a filter.
    pub open spec fn passing(&self, base: Set<u32>, f: FilterStepModel) -> Set<u32> {
        Set::new(
            |d: u32|
                base.contains(d) && d < self.documents@.len() && passes(
                    self.documents@[d as int],
                    f,
                ),
        )
    }
}

/// Whether two texts are equal but for the case of ASCII letters.
fn same_ignoring_ascii_case(a: &str, b: &str) -> (r: bool)
    ensures
        r == (lowered(a@) == lowered(b@)),
{
    same_chars(&lower_chars(&chars_of(a)), &lower_chars(&chars_of(b)))
}

fn within(n: u64, min: Option<u64>, max: Option<u64>) -> (r: bool)
    ensures
        r == in_bounds(n, min, max),
{
    let low = match min {
        Some(m) => m <= n,
        None => true,
    };
    let high = match max {
        Some(m) => n <= m,
        None => true,
    };
    low && high
}

/// For each path, whether it passes a path filter.
fn path_flags(pattern: &str, paths: &Vec<String>) -> (r: Vec<bool>)
    ensures
        r@.len() == paths@.len(),
        forall|i: int|
            0 <= i < paths@.len() ==> #[trigger] r@[i] == path_passes(pattern@, paths@[i]@),
{
    match match_glob(pattern, true, paths) {
        Some(flags) => flags,
        None => match match_glob("*", false, paths) {
            Some(flags) => flags,
            None => Vec::new(),
        },
    }
}

/// Whether the file name of a path passes a file filter, given what the glob of
/// the filter says of it.
pub fn name_filter_passes(pattern: &str, path: &str, by_glob: Option<bool>) -> (r: bool)
    ensures
        r == name_passes_given(pattern@, path@, by_glob),
{
    match file_name_of(path) {
        None => false,
        Some(name) => match by_glob {
            Some(answer) => answer,
            None => name.as_str().to_lowercase() == pattern.to_lowercase(),
        },
    }
}

/// For each path, whether its file name passes a file filter.
fn name_flags(pattern: &str, paths: &Vec<String>) -> (r: Vec<bool>)
    ensures
        r@.len() == paths@.len(),
        forall|i: int|
            0 <= i < paths@.len() ==> #[trigger] r@[i] == name_passes(pattern@, paths@[i]@),
{
    let low = pattern.to_lowercase();
    let mut names: Vec<String> = Vec::new();
    let mut i: usize = 0;
    while i < paths.len()
        invariant
            i <= paths@.len(),
            names@.len() == i,
            forall|j: int|
                0 <= j < i && file_name(paths@[j]@) is Some ==> (#[trigger] names@[j])@
                    == lower_case(file_name(paths@[j]@)->0),
        decreases paths@.len() - i,
    {
        match file_name_of(paths[i].as_str()) {
            Some(name) => names.push(name.as_str().to_lowercase()),
            None => names.push(String::new()),
        }
        i += 1;
    }
    let chars = chars_of(pattern);
    let is_pattern = has_char(&chars, '*') || has_char(&chars, '?') || has_char(&chars, '[');
    let flags = if is_pattern {
        match_glob(low.as_str(), false, &names)
    } else {
        None
    };
    let mut out: Vec<bool> = Vec::new();
    let mut k: usize = 0;
    while k < paths.len()
        invariant
            k <= paths@.len(),
            low@ == lower_case(pattern@),
            is_pattern == is_name_pattern(pattern@),
            names@.len() == paths@.len(),
            forall|j: int|
                0 <= j < paths@.len() && file_name(paths@[j]@) is Some ==> (#[trigger] names@[j])@
                    == lower_case(file_name(paths@[j]@)->0),
            flags is Some <==> is_pattern && glob_accepted(low@, false),
            flags is Some ==> flags->0@.len() == paths@.len(),
            flags is Some ==> forall|j: int|
                0 <= j < paths@.len() ==> #[trigger] flags->0@[j] == glob_matches(
                    low@,
                    false,
                    names@[j]@,
                ),
            out@.len() == k,
            forall|j: int|
                0 <= j < k ==> #[trigger] out@[j] == name_passes(pattern@, paths@[j]@),
        decreases paths@.len() - k,
    {
        let by_glob = match &flags {
            Some(f) => Some(f[k]),
            None => None,
        };
        assert(file_name(paths@[k as int]@) is Some ==> names@[k as int]@ == lower_case(
            file_name(paths@[k as int]@)->0,
        ));
        out.push(name_filter_passes(pattern, paths[k].as_str(), by_glob));
        k += 1;
    }
    out
}

impl Document {
    /// Whether the document passes a filter of which the path filter and the
    /// file filter have given their answers.
    pub fn passes_filter(&self, f: &FilterStep, path_ok: bool, name_ok: bool) -> (r: bool)
        ensures
            r == passes_given(*self, f@, path_ok, name_ok),
    {
        if !self.valid || (f.path_glob.is_some() && !path_ok) || (f.filename.is_some() && !name_ok) {
            return false;
        }
        match &f.extension {
            Some(ext) => {
                let own = extension_of(self.path.as_str());
                if !same_ignoring_ascii_case(own.as_str(), ext.as_str()) {
                    return false;
                }
            },
            None => {},
        }
        match &f.language {
            Some(lang) => {
                if self.language != parse_language(lang.as_str()) {
                    return false;
                }
            },
            None => {},
        }
        match &f.scope {
            Some(scope) => {
                if !lies_within(self.path.as_str(), scope.as_str()) {
                    return false;
                }
            },
            None => {},
        }
        within(self.size, f.size_min, f.size_max) && within(self.mtime, f.mtime_min, f.mtime_max)
    }
}

impl Index {
    /// The documents of a set that pass a filter; of all valid documents where
    /// no set is given.
    pub fn apply_filter(&self, filter: &FilterStep, candidates: Option<&RoaringBitmap>) -> (r:
        RoaringBitmap)
        requires
            self.wf(),
        ensures
            docs(r) == self.passing(
                match candidates {
                    Some(c) => docs(*c),
                    None => self.valid_docs(),
                },
                filter@,
            ),
    {
        let ghost base = match candidates {
            Some(c) => docs(*c),
            None => self.valid_docs(),
        };
        let ids = match candidates {
            Some(c) => list_of_set(c),
            None => list_of_set(&self.valid_doc_ids()),
        };
        let mut known: Vec<u32> = Vec::new();
        let mut paths: Vec<String> = Vec::new();
        let mut i: usize = 0;
        while i < ids.len()
            invariant
                i <= ids@.len(),
                known@.len() == paths@.len(),
                forall|j: int|
                    0 <= j < known@.len() ==> (#[trigger] known@[j]) < self.documents@.len()
                        && ids@.contains(known@[j]) && paths@[j]@
                        == self.documents@[known@[j] as int].path@,
                forall|j: int|
                    0 <= j < i && ids@[j] < self.documents@.len() ==> known@.contains(
                        #[trigger] ids@[j],
                    ),
            decreases ids@.len() - i,
        {
            let d = ids[i];
            let ghost before = known@;
            if (d as usize) < self.documents.len() {
                known.push(d);
                paths.push(self.documents[d as usize].path.clone());
                assert(known@[known@.len() - 1] == d);
                assert(ids@.contains(ids@[i as int]));
            }
            i += 1;
            assert forall|j: int|
                0 <= j < i && ids@[j] < self.documents@.len() implies known@.contains(
                #[trigger] ids@[j],
            ) by {
                if j < i - 1 {
                    let k = choose|k: int| 0 <= k < before.len() && before[k] == ids@[j];
                    assert(known@[k] == ids@[j]);
                }
            }
        }
        let by_path = match &filter.path_glob {
            Some(pattern) => Some(path_flags(pattern.as_str(), &paths)),
            None => None,
        };
        let by_name = match &filter.filename {
            Some(pattern) => Some(name_flags(pattern.as_str(), &paths)),
            None => None,
        };
        let mut out = empty_set();
        let mut k: usize = 0;
        while k < known.len()
            invariant
                k <= known@.len(),
                known@.len() == paths@.len(),
                forall|j: int|
                    0 <= j < known@.len() ==> (#[trigger] known@[j]) < self.documents@.len()
                        && paths@[j]@ == self.documents@[known@[j] as int].path@,
                by_path is Some <==> filter@.path_glob is Some,
                by_name is Some <==> filter@.filename is Some,
                by_path is Some ==> by_path->0@.len() == paths@.len() && forall|j: int|
                    0 <= j < paths@.len() ==> #[trigger] by_path->0@[j] == path_passes(
                        filter@.path_glob->0,
                        paths@[j]@,
                    ),
                by_name is Some ==> by_name->0@.len() == paths@.len() && forall|j: int|
                    0 <= j < paths@.len() ==> #[trigger] by_name->0@[j] == name_passes(
                        filter@.filename->0,
                        paths@[j]@,
                    ),
                forall|d: u32| #[trigger]
                    docs(out).contains(d) <==> known@.take(k as int).contains(d) && passes(
                        self.documents@[d as int],
                        filter@,
                    ),
            decreases known@.len() - k,
        {
            let d = known[k];
            assert(known@[k as int] < self.documents@.len());
            let path_ok = match &by_path {
                Some(f) => f[k],
                None => true,
            };
            let name_ok = match &by_name {
                Some(f) => f[k],
                None => true,
            };
            let ghost before = docs(out);
            let ok = self.documents[d as usize].passes_filter(filter, path_ok, name_ok);
            assert(ok == passes(self.documents@[d as int], filter@));
            if ok {
                add_to_set(&mut out, d);
            }
            assert forall|x: u32| #[trigger] docs(out).contains(x) <==> known@.take(
                k + 1,
            ).contains(x) && passes(self.documents@[x as int], filter@) by {
                let longer = known@.take(k + 1);
                let shorter = known@.take(k as int);
                assert(longer =~= shorter.push(d));
                if shorter.contains(x) {
                    let q = choose|q: int| 0 <= q < shorter.len() && shorter[q] == x;
                    assert(longer[q] == x);
                }
                assert(longer[k as int] == d);
                if longer.contains(x) && x != d {
                    let q = choose|q: int| 0 <= q < longer.len() && longer[q] == x;
                    assert(shorter[q] == x);
                }
                assert(before.contains(x) <==> shorter.contains(x) && passes(
                    self.documents@[x as int],
                    filter@,
                ));
            }
            k += 1;
        }
        proof {
            assert(known@.take(known@.len() as int) =~= known@);
            assert forall|d: u32| #[trigger] docs(out).contains(d) <==> self.passing(
                base,
                filter@,
            ).contains(d) by {
                if base.contains(d) && d < self.documents@.len() {
                    assert(ids@.contains(d));
                    let j = choose|j: int| 0 <= j < ids@.len() && ids@[j] == d;
                    assert(known@.contains(ids@[j]));
                }
                if known@.contains(d) {
                    let j = choose|j: int| 0 <= j < known@.len() && known@[j] == d;
                    assert(ids@.contains(known@[j]));
                    assert(base.contains(d));
                }
            }
            assert(docs(out) =~= self.passing(base, filter@));
        }
        out
    }
}

} // verus!
