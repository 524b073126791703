//! Regular expressions as trees.
use crate::query::content::{regex_compiles, regex_find};
use crate::query::planner::literal_pattern;
use crate::query::regex_laws::accepts;
use crate::query::validate::spelled_text;
use crate::text::lowered;
use regex_syntax::hir::{Class, HirKind};
use vstd::prelude::*;
use vstd::utf8::encode_utf8;

verus! {

/// A parsed regular expression.
#[derive(Debug)]
pub enum Shape {
    /// Matches the empty text.
    Empty,
    /// An assertion about the place, such as a word boundary.
    Look,
    /// These bytes.
    Literal(Vec<u8>),
    /// A code point in one of the ranges.
    Unicode(Vec<(u32, u32)>),
    /// A byte in one of the ranges.
    Bytes(Vec<(u8, u8)>),
    /// A group.
    Capture(Box<Shape>),
    /// One after the other.
    Concat(Vec<Shape>),
    /// One of them.
    Alternation(Vec<Shape>),
    /// Repeated at least `min` and at most `max` times.
    Repetition { min: u32, max: Option<u32>, sub: Box<Shape> },
}

/// The mathematical content of a [`Shape`].
pub enum ShapeModel {
    Empty,
    Look,
    Literal(Seq<u8>),
    Unicode(Seq<(u32, u32)>),
    Bytes(Seq<(u8, u8)>),
    Capture(Box<ShapeModel>),
    Concat(Seq<ShapeModel>),
    Alternation(Seq<ShapeModel>),
    Repetition { min: u32, max: Option<u32>, sub: Box<ShapeModel> },
}

impl Shape {
    /// The content of the tree.
    pub open spec fn model(&self) -> ShapeModel
        decreases self,
    {
        match self {
            Shape::Empty => ShapeModel::Empty,
            Shape::Look => ShapeModel::Look,
            Shape::Literal(v) => ShapeModel::Literal(v@),
            Shape::Unicode(v) => ShapeModel::Unicode(v@),
            Shape::Bytes(v) => ShapeModel::Bytes(v@),
            Shape::Capture(s) => ShapeModel::Capture(Box::new(s.model())),
            Shape::Concat(v) => ShapeModel::Concat(
                Seq::new(
                    v@.len(),
                    |i: int|
                        if 0 <= i < v@.len() {
                            v@[i].model()
                        } else {
                            ShapeModel::Empty
                        },
                ),
            ),
            Shape::Alternation(v) => ShapeModel::Alternation(
                Seq::new(
                    v@.len(),
                    |i: int|
                        if 0 <= i < v@.len() {
                            v@[i].model()
                        } else {
                            ShapeModel::Empty
                        },
                ),
            ),
            Shape::Repetition { min, max, sub } => ShapeModel::Repetition {
                min: *min,
                max: *max,
                sub: Box::new(sub.model()),
            },
        }
    }
}

/// The contents of a list of trees.
pub open spec fn shapes(v: Seq<Shape>) -> Seq<ShapeModel> {
    v.map_values(|s: Shape| s.model())
}

/// The content of a sequence is made of its parts' contents.
pub broadcast proof fn lemma_concat_shape(v: Vec<Shape>)
    ensures
        (#[trigger] Shape::Concat(v).model()) == ShapeModel::Concat(shapes(v@)),
{
    assert(Shape::Concat(v).model()->Concat_0 =~= shapes(v@));
}

/// The content of a choice is made of its parts' contents.
pub broadcast proof fn lemma_alternation_shape(v: Vec<Shape>)
    ensures
        (#[trigger] Shape::Alternation(v).model()) == ShapeModel::Alternation(shapes(v@)),
{
    assert(Shape::Alternation(v).model()->Alternation_0 =~= shapes(v@));
}

/// What sequences and choices contain.
pub broadcast group nested_shapes {
    lemma_concat_shape,
    lemma_alternation_shape,
}

/// The content of an optional tree.
pub open spec fn shape_option(s: Option<Shape>) -> Option<ShapeModel> {
    match s {
        Some(t) => Some(t.model()),
        None => None,
    }
}

/// The intermediate form of a regular expression in `regex_syntax`.
#[verifier::external_type_specification]
#[verifier::external_body]
pub struct ExHir(regex_syntax::hir::Hir);

/// The tree that `regex_syntax::Parser::parse` gives for a pattern, or nothing
/// where it refuses the pattern.
pub uninterp spec fn pattern_shape(pattern: Seq<char>) -> Option<ShapeModel>;

/// What `regex_syntax::hir::Properties::minimum_len` says of the tree of a
/// pattern: the least number of bytes of a match; nothing where there is no
/// match or the pattern is refused.
pub uninterp spec fn shortest_match(pattern: Seq<char>) -> Option<nat>;

/// A character class in `regex_syntax`.
#[verifier::external_type_specification]
#[verifier::external_body]
pub struct ExClass(regex_syntax::hir::Class);

/// Carries a class of `regex_syntax` over, range by range.
#[verifier::external_body]
fn convert_class(class: &regex_syntax::hir::Class) -> Shape {
    match class {
        Class::Unicode(c) => {
            Shape::Unicode(c.iter().map(|r| (r.start() as u32, r.end() as u32)).collect())
        },
        Class::Bytes(c) => Shape::Bytes(c.iter().map(|r| (r.start(), r.end())).collect()),
    }
}

/// Carries a tree of `regex_syntax` over, node by node.
#[verifier::external_body]
fn convert(hir: &regex_syntax::hir::Hir) -> Shape {
    match hir.kind() {
        HirKind::Empty => Shape::Empty,
        HirKind::Look(_) => Shape::Look,
        HirKind::Literal(l) => Shape::Literal(l.0.to_vec()),
        HirKind::Class(c) => convert_class(c),
        HirKind::Capture(c) => Shape::Capture(Box::new(convert(&c.sub))),
        HirKind::Concat(v) => Shape::Concat(v.iter().map(convert).collect()),
        HirKind::Alternation(v) => Shape::Alternation(v.iter().map(convert).collect()),
        HirKind::Repetition(r) => {
            Shape::Repetition { min: r.min, max: r.max, sub: Box::new(convert(&r.sub)) }
        },
    }
}

/// Whether a tree accepts what its pattern is for: the text, where the pattern
/// spells a text; the text and those that differ from it in the case of ASCII
/// letters alone, where the pattern asks for a text in any case; and each match
/// of any other pattern.
pub open spec fn fits(pattern: Seq<char>, s: ShapeModel) -> bool {
    &&& match spelled_text(pattern) {
        Some(t) => accepts(s, encode_utf8(t)),
        None => regex_compiles(pattern) ==> forall|line: Seq<char>|
            match #[trigger] regex_find(pattern, line) {
                Some((a, b)) => a <= b <= encode_utf8(line).len() && accepts(
                    s,
                    encode_utf8(line).subrange(a as int, b as int),
                ),
                None => true,
            },
    }
    &&& forall|t: Seq<char>, x: Seq<char>|
        pattern == #[trigger] literal_pattern(t, true) && #[trigger] lowered(x) == lowered(t)
            ==> accepts(s, encode_utf8(x))
}

/// Parses a pattern with `regex_syntax::Parser::parse` and carries the tree
/// over. The tree, or that there is none, depends on the pattern alone. It is
/// the tree by which `regex::Regex` matches: an escaped character stands for
/// itself, `(?i:..)` lets an ASCII letter stand for both its cases and every
/// character still stand for itself, and what `Regex::find` finds is a text of
/// the tree, assertions aside. Which other letters `(?i:..)` lets a letter stand
/// for is left unsaid.
#[verifier::external_body]
pub(crate) fn shape_of(pattern: &str) -> (r: Option<Shape>)
    ensures
        shape_option(r) == pattern_shape(pattern@),
        r is Some ==> fits(pattern@, r->0.model()),
{
    match regex_syntax::Parser::new().parse(pattern) {
        Ok(hir) => Some(convert(&hir)),
        Err(_) => None,
    }
}

/// Asks `regex_syntax::hir::Properties::minimum_len` for the least length of a
/// match. The answer depends on the pattern alone.
#[verifier::external_body]
pub(crate) fn shortest_match_of(pattern: &str) -> (r: Option<usize>)
    ensures
        match r {
            Some(n) => shortest_match(pattern@) == Some(n as nat),
            None => shortest_match(pattern@) is None,
        },
{
    match regex_syntax::Parser::new().parse(pattern) {
        Ok(hir) => hir.properties().minimum_len(),
        Err(_) => None,
    }
}

} // verus!
