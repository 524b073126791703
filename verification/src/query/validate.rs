//! Limits on query trees, and whole-word matching.
use crate::query::ast::{
    branch_models, error_at_start, models, texts, Boost, ErrorModel, NodeModel, Query, QueryError,
    QueryModel, QueryNode, BOOST_LIMIT, MAX_QUERY_BYTES, MAX_QUERY_DEPTH, MAX_QUERY_NODES,
};
use crate::text::{
    all_digits, byte_len, bytes_in, chars_of, decimal, is_digit, join3, lemma_span_is, span,
};
use vstd::prelude::*;

verus! {

/// The digits before the decimal point.
pub open spec fn whole_part(t: Seq<char>) -> Seq<char> {
    t.take(span(t, |c: char| is_digit(c)) as int)
}

/// Whether a text is digits with at most one decimal point among them and at
/// least one digit.
pub open spec fn is_decimal_number(t: Seq<char>) -> bool {
    let n = whole_part(t).len() as int;
    t.len() > 0 && (n == t.len() || t.len() > 1 && t[n] == '.' && all_digits(t.skip(n + 1)))
}

/// Whether a text is a decimal number that rounds to a finite 32-bit float.
pub open spec fn is_finite_boost(t: Seq<char>) -> bool {
    is_decimal_number(t) && decimal(whole_part(t)) < BOOST_LIMIT
}

/// How a text reads as a boost.
#[derive(Debug, Clone, Copy, PartialEq, Eq, Structural)]
pub enum BoostKind {
    /// Not a decimal number.
    Malformed,
    /// A number too large for a 32-bit float.
    TooLarge,
    /// A finite number.
    Finite,
}

/// What kind of boost a text is.
pub open spec fn boost_kind(t: Seq<char>) -> BoostKind {
    if !is_decimal_number(t) {
        BoostKind::Malformed
    } else if decimal(whole_part(t)) < BOOST_LIMIT {
        BoostKind::Finite
    } else {
        BoostKind::TooLarge
    }
}

/// Classifies the text of a boost.
pub fn classify_boost(t: &Vec<char>) -> (r: BoostKind)
    ensures
        r == boost_kind(t@),
{
    let ghost p = |c: char| is_digit(c);
    let mut i: usize = 0;
    let mut value: u128 = 0;
    let mut large = false;
    while i < t.len() && '0' <= t[i] && t[i] <= '9'
        invariant
            i <= t@.len(),
            forall|j: int| 0 <= j < i ==> is_digit(#[trigger] t@[j]),
            !large ==> value == decimal(t@.take(i as int)) && value < BOOST_LIMIT,
            large ==> decimal(t@.take(i as int)) >= BOOST_LIMIT,
        decreases t@.len() - i,
    {
        let d: u128 = (t[i] as u32 - '0' as u32) as u128;
        assert(t@.take(i + 1).drop_last() =~= t@.take(i as int));
        if !large {
            if value > (BOOST_LIMIT - 1 - d) / 10 {
                large = true;
            } else {
                value = value * 10 + d;
            }
        }
        i += 1;
    }
    proof {
        lemma_span_is(t@, |c: char| is_digit(c), i as int);
        assert(whole_part(t@) =~= t@.take(i as int));
    }
    if t.len() == 0 {
        return BoostKind::Malformed;
    }
    if i < t.len() {
        if t.len() == 1 || t[i] != '.' {
            return BoostKind::Malformed;
        }
        let mut k: usize = i + 1;
        while k < t.len()
            invariant
                i < k <= t@.len(),
                forall|j: int| i < j < k ==> is_digit(#[trigger] t@[j]),
                whole_part(t@) == t@.take(i as int),
                i < t@.len(),
            decreases t@.len() - k,
        {
            if !('0' <= t[k] && t[k] <= '9') {
                assert(t@.skip(i + 1)[k - i - 1] == t@[k as int]);
                return BoostKind::Malformed;
            }
            k += 1;
        }
        assert(all_digits(t@.skip(i + 1)));
    }
    if large {
        BoostKind::TooLarge
    } else {
        BoostKind::Finite
    }
}

/// Number of bytes of several texts together.
pub open spec fn total_bytes(v: Seq<Seq<char>>) -> nat
    decreases v.len(),
{
    if v.len() == 0 {
        0
    } else {
        total_bytes(v.drop_last()) + byte_len(v.last())
    }
}

/// Number of bytes of text that a tree holds at its root.
pub open spec fn own_bytes(node: NodeModel) -> nat {
    match node {
        NodeModel::Literal(t) => byte_len(t),
        NodeModel::Phrase(t) => byte_len(t),
        NodeModel::Regex(t) => byte_len(t),
        NodeModel::BoostedLiteral { text, .. } => byte_len(text),
        NodeModel::BoostedPhrase { text, .. } => byte_len(text),
        NodeModel::Near { terms, .. } => total_bytes(terms),
        _ => 0,
    }
}

/// The branches right below the root of a tree.
pub open spec fn branches(node: NodeModel) -> Seq<NodeModel> {
    match node {
        NodeModel::And(v) => v,
        NodeModel::Or(v) => v,
        NodeModel::Not(n) => seq![*n],
        _ => Seq::empty(),
    }
}

/// An error at the start of the query.
pub open spec fn refusal(message: Seq<char>) -> Option<ErrorModel> {
    Some(ErrorModel { message, offset: 0 })
}

/// What is wrong with the root of a tree, apart from its size.
pub open spec fn root_error(node: NodeModel) -> Option<ErrorModel> {
    match node {
        NodeModel::Invalid(e) => Some(e),
        NodeModel::And(v) if v.len() > MAX_QUERY_NODES => refusal("Too many Boolean branches"@),
        NodeModel::Or(v) if v.len() > MAX_QUERY_NODES => refusal("Too many Boolean branches"@),
        NodeModel::Near { terms, .. } if terms.len() > MAX_QUERY_NODES => refusal(
            "Too many proximity terms"@,
        ),
        NodeModel::BoostedLiteral { boost, .. } if !is_finite_boost(boost) => refusal(
            "Boost must be finite and non-negative"@,
        ),
        NodeModel::BoostedPhrase { boost, .. } if !is_finite_boost(boost) => refusal(
            "Boost must be finite and non-negative"@,
        ),
        _ => None,
    }
}

/// Trees still to visit, each with its depth.
pub open spec fn at_depth(v: Seq<NodeModel>, depth: int) -> Seq<(NodeModel, int)> {
    v.map_values(|n: NodeModel| (n, depth))
}

/// The first thing wrong on a walk that visits the last of the `pending` trees
/// first and puts a tree's branches at the end, when `visited` trees with
/// `bytes` bytes of text have been seen before.
pub open spec fn first_error(
    pending: Seq<(NodeModel, int)>,
    visited: int,
    bytes: int,
) -> Option<ErrorModel>
    decreases 3 * MAX_QUERY_NODES + 1 - visited,
{
    if pending.len() == 0 {
        None
    } else {
        let (node, depth) = pending.last();
        if depth > 3 * MAX_QUERY_DEPTH || visited + 1 > 3 * MAX_QUERY_NODES {
            refusal("Query AST exceeds complexity limit"@)
        } else if root_error(node) is Some {
            root_error(node)
        } else if bytes + own_bytes(node) > 4 * MAX_QUERY_BYTES {
            refusal("Query AST text is too large"@)
        } else {
            first_error(
                pending.drop_last() + at_depth(branches(node), depth + 1),
                visited + 1,
                bytes + own_bytes(node),
            )
        }
    }
}

impl QueryModel {
    /// The first thing wrong with the query's tree, if anything is.
    pub open spec fn defect(self) -> Option<ErrorModel> {
        first_error(seq![(self.root, 0)], 0, 0)
    }
}

/// The stack of a walk, by content.
pub open spec fn stack_model(s: Seq<(&QueryNode, usize)>) -> Seq<(NodeModel, int)> {
    s.map_values(|p: (&QueryNode, usize)| (p.0.model(), p.1 as int))
}

fn push_all<'a>(stack: &mut Vec<(&'a QueryNode, usize)>, v: &'a Vec<QueryNode>, depth: usize)
    ensures
        stack_model(final(stack)@) == stack_model(old(stack)@) + at_depth(
            models(v@),
            depth as int,
        ),
{
    let mut i: usize = 0;
    while i < v.len()
        invariant
            i <= v@.len(),
            stack_model(stack@) == stack_model(old(stack)@) + at_depth(
                models(v@.take(i as int)),
                depth as int,
            ),
        decreases v@.len() - i,
    {
        let ghost before = stack@;
        stack.push((&v[i], depth));
        i += 1;
        let ghost entry = (v@[i - 1].model(), depth as int);
        assert(stack_model(stack@) =~= stack_model(before).push(entry));
        assert(at_depth(models(v@.take(i as int)), depth as int) =~= at_depth(
            models(v@.take(i - 1)),
            depth as int,
        ).push(entry));
        assert(stack_model(stack@) =~= stack_model(old(stack)@) + at_depth(
            models(v@.take(i as int)),
            depth as int,
        ));
    }
    assert(v@.take(v@.len() as int) =~= v@);
    assert(stack_model(stack@) =~= stack_model(old(stack)@) + at_depth(models(v@), depth as int));
}

/// Sum of the byte lengths, or the largest number where the sum is beyond it.
fn add_bytes(start: usize, v: &Vec<String>) -> (r: usize)
    ensures
        r == if start + total_bytes(texts(v@)) > usize::MAX {
            usize::MAX as int
        } else {
            start + total_bytes(texts(v@))
        },
{
    let mut n: usize = start;
    let mut i: usize = 0;
    while i < v.len()
        invariant
            i <= v@.len(),
            n == if start + total_bytes(texts(v@.take(i as int))) > usize::MAX {
                usize::MAX as int
            } else {
                start + total_bytes(texts(v@.take(i as int)))
            },
        decreases v@.len() - i,
    {
        n = n.saturating_add(bytes_in(v[i].as_str()));
        i += 1;
        assert(texts(v@.take(i as int)).drop_last() =~= texts(v@.take(i - 1)));
    }
    assert(v@.take(v@.len() as int) =~= v@);
    n
}

impl Query {
    /// Checks a tree, parsed or built by hand, before it is walked recursively.
    pub fn validate(&self) -> (r: Result<(), QueryError>)
        ensures
            match r {
                Ok(_) => self@.defect() is None,
                Err(e) => self@.defect() == Some(e@),
            },
    {
        broadcast use branch_models;

        let mut stack: Vec<(&QueryNode, usize)> = Vec::new();
        stack.push((&self.root, 0));
        let mut nodes: usize = 0;
        let mut bytes: usize = 0;
        assert(stack_model(stack@) =~= seq![(self@.root, 0)]);
        while stack.len() > 0
            invariant
                self@.defect() == first_error(stack_model(stack@), nodes as int, bytes as int),
                nodes <= 3 * MAX_QUERY_NODES,
                bytes <= 4 * MAX_QUERY_BYTES,
            decreases 3 * MAX_QUERY_NODES - nodes,
        {
            let ghost before = stack_model(stack@);
            let (node, depth) = stack.pop().unwrap();
            assert(stack_model(stack@) =~= before.drop_last());
            let ghost rest = stack_model(stack@);
            let ghost m = node.model();
            nodes += 1;
            if depth > MAX_QUERY_DEPTH * 3 || nodes > MAX_QUERY_NODES * 3 {
                return Err(error_at_start("Query AST exceeds complexity limit"));
            }
            match node {
                QueryNode::Invalid(error) => return Err(error.copied()),
                QueryNode::And(children) => {
                    if children.len() > MAX_QUERY_NODES {
                        return Err(error_at_start("Too many Boolean branches"));
                    }
                    push_all(&mut stack, children, depth + 1);
                },
                QueryNode::Or(children) => {
                    if children.len() > MAX_QUERY_NODES {
                        return Err(error_at_start("Too many Boolean branches"));
                    }
                    push_all(&mut stack, children, depth + 1);
                },
                QueryNode::Not(child) => {
                    stack.push((child, depth + 1));
                },
                QueryNode::BoostedLiteral { text, boost } => {
                    if classify_boost(&chars_of(boost.text.as_str())) != BoostKind::Finite {
                        return Err(error_at_start("Boost must be finite and non-negative"));
                    }
                    bytes = bytes.saturating_add(bytes_in(text.as_str()));
                },
                QueryNode::BoostedPhrase { text, boost } => {
                    if classify_boost(&chars_of(boost.text.as_str())) != BoostKind::Finite {
                        return Err(error_at_start("Boost must be finite and non-negative"));
                    }
                    bytes = bytes.saturating_add(bytes_in(text.as_str()));
                },
                QueryNode::Literal(text) => {
                    bytes = bytes.saturating_add(bytes_in(text.as_str()));
                },
                QueryNode::Phrase(text) => {
                    bytes = bytes.saturating_add(bytes_in(text.as_str()));
                },
                QueryNode::Regex(text) => {
                    bytes = bytes.saturating_add(bytes_in(text.as_str()));
                },
                QueryNode::Near { terms, .. } => {
                    if terms.len() > MAX_QUERY_NODES {
                        return Err(error_at_start("Too many proximity terms"));
                    }
                    bytes = add_bytes(bytes, terms);
                },
                QueryNode::Empty => {},
            }
            if bytes > MAX_QUERY_BYTES * 4 {
                return Err(error_at_start("Query AST text is too large"));
            }
            assert(stack_model(stack@) =~= rest + at_depth(branches(m), depth + 1));
        }
        Ok(())
    }
}

/// The characters that a regular expression gives a meaning of their own.
pub open spec fn is_meta(c: char) -> bool {
    c == '\\' || c == '.' || c == '+' || c == '*' || c == '?' || c == '(' || c == ')' || c == '|' || c
        == '[' || c == ']' || c == '{' || c == '}' || c == '^' || c == '$' || c == '#' || c == '&'
        || c == '-' || c == '~'
}

/// A text with a backslash before each character of [`is_meta`].
pub open spec fn escaped(t: Seq<char>) -> Seq<char>
    decreases t.len(),
{
    if t.len() == 0 {
        t
    } else if is_meta(t.last()) {
        escaped(t.drop_last()).push('\\').push(t.last())
    } else {
        escaped(t.drop_last()).push(t.last())
    }
}

/// The text that a pattern spells: characters without a meaning of their own,
/// characters with one behind a backslash, and slashes by their number. Nothing
/// where the pattern holds anything else.
pub open spec fn spelled_text(s: Seq<char>) -> Option<Seq<char>>
    decreases s.len(),
{
    if s.len() == 0 {
        Some(s)
    } else if s[0] == '\\' {
        if s.len() > 1 && is_meta(s[1]) {
            led_by(s[1], spelled_text(s.skip(2)))
        } else if s.len() > 3 && s[1] == 'x' && s[2] == '2' && s[3] == 'f' {
            led_by('/', spelled_text(s.skip(4)))
        } else {
            None
        }
    } else if is_meta(s[0]) {
        None
    } else {
        led_by(s[0], spelled_text(s.skip(1)))
    }
}

/// A text, if there is one, with a character before it.
pub open spec fn led_by(c: char, t: Option<Seq<char>>) -> Option<Seq<char>> {
    match t {
        Some(x) => Some(seq![c] + x),
        None => None,
    }
}

/// `regex::escape` puts a backslash before each of the eighteen meta
/// characters and leaves the rest of the text as it is.
#[verifier::external_body]
pub(crate) fn escape(t: &str) -> (r: String)
    ensures
        r@ == escaped(t@),
{
    regex::escape(t)
}

/// A pattern that matches `inner` at word boundaries only.
pub open spec fn at_word_boundaries(inner: Seq<char>) -> Seq<char> {
    "\\b(?:"@ + inner + ")\\b"@
}

/// The same, whatever the case of letters.
pub open spec fn at_word_boundaries_any_case(inner: Seq<char>) -> Seq<char> {
    "(?i:\\b(?:"@ + inner + ")\\b)"@
}

/// The tree that matches whole words only, or why there is none.
pub open spec fn whole_words(node: NodeModel) -> Result<NodeModel, ErrorModel>
    decreases node, 0nat,
{
    match node {
        NodeModel::Invalid(e) => Err(e),
        NodeModel::Literal(s) => Ok(NodeModel::Regex(at_word_boundaries_any_case(escaped(s)))),
        NodeModel::Phrase(s) => Ok(NodeModel::Regex(at_word_boundaries(escaped(s)))),
        NodeModel::Regex(s) => Ok(NodeModel::Regex(at_word_boundaries(s))),
        NodeModel::And(v) => match all_whole_words(v, v.len()) {
            Ok(w) => Ok(NodeModel::And(w)),
            Err(e) => Err(e),
        },
        NodeModel::Or(v) => match all_whole_words(v, v.len()) {
            Ok(w) => Ok(NodeModel::Or(w)),
            Err(e) => Err(e),
        },
        NodeModel::Not(n) => match whole_words(*n) {
            Ok(w) => Ok(NodeModel::Not(Box::new(w))),
            Err(e) => Err(e),
        },
        NodeModel::Empty => Ok(NodeModel::Empty),
        _ => Err(
            ErrorModel {
                message: "Whole-word mode does not support boosts or near queries"@,
                offset: 0,
            },
        ),
    }
}

/// The first `n` branches in whole-word form, or the first reason against one.
pub open spec fn all_whole_words(v: Seq<NodeModel>, n: nat) -> Result<Seq<NodeModel>, ErrorModel>
    decreases v, n,
{
    if n == 0 || n > v.len() {
        Ok(Seq::empty())
    } else {
        match all_whole_words(v, (n - 1) as nat) {
            Err(e) => Err(e),
            Ok(w) => match whole_words(v[n - 1]) {
                Err(e) => Err(e),
                Ok(x) => Ok(w.push(x)),
            },
        }
    }
}

/// The content of a rewritten tree or of the error.
pub open spec fn node_result(r: Result<QueryNode, QueryError>) -> Result<NodeModel, ErrorModel> {
    match r {
        Ok(n) => Ok(n.model()),
        Err(e) => Err(e@),
    }
}

/// An error among the first branches is the error of all.
proof fn lemma_first_branch_error(v: Seq<NodeModel>, n: nat, m: nat)
    requires
        n <= m <= v.len(),
        all_whole_words(v, n) is Err,
    ensures
        all_whole_words(v, m) == all_whole_words(v, n),
    decreases m,
{
    if n < m {
        lemma_first_branch_error(v, n, (m - 1) as nat);
    }
}

fn rewrite_all(v: &Vec<QueryNode>) -> (r: Result<Vec<QueryNode>, QueryError>)
    ensures
        match r {
            Ok(w) => all_whole_words(models(v@), v@.len()) == Ok::<Seq<NodeModel>, ErrorModel>(
                models(w@),
            ),
            Err(e) => all_whole_words(models(v@), v@.len()) == Err::<Seq<NodeModel>, ErrorModel>(
                e@,
            ),
        },
    decreases v,
{
    let mut out: Vec<QueryNode> = Vec::new();
    let mut i: usize = 0;
    assert(models(out@) =~= Seq::<NodeModel>::empty());
    while i < v.len()
        invariant
            i <= v@.len(),
            all_whole_words(models(v@), i as nat) == Ok::<Seq<NodeModel>, ErrorModel>(models(out@)),
        decreases v@.len() - i,
    {
        assert(models(v@)[i as int] == v@[i as int].model());
        match rewrite(&v[i]) {
            Ok(n) => {
                let ghost before = out@;
                out.push(n);
                assert(models(out@) =~= models(before).push(n.model()));
            },
            Err(e) => {
                proof {
                    lemma_first_branch_error(models(v@), (i + 1) as nat, v@.len());
                }
                return Err(e);
            },
        }
        i += 1;
    }
    Ok(out)
}

/// The tree with each leaf limited to whole words.
fn rewrite(node: &QueryNode) -> (r: Result<QueryNode, QueryError>)
    ensures
        node_result(r) == whole_words(node.model()),
    decreases node,
{
    broadcast use branch_models;

    match node {
        QueryNode::Invalid(error) => Err(error.copied()),
        QueryNode::Literal(s) => Ok(
            QueryNode::Regex(join3("(?i:\\b(?:", escape(s.as_str()).as_str(), ")\\b)")),
        ),
        QueryNode::Phrase(s) => Ok(
            QueryNode::Regex(join3("\\b(?:", escape(s.as_str()).as_str(), ")\\b")),
        ),
        QueryNode::Regex(s) => Ok(QueryNode::Regex(join3("\\b(?:", s.as_str(), ")\\b"))),
        QueryNode::And(v) => match rewrite_all(v) {
            Ok(w) => Ok(QueryNode::And(w)),
            Err(e) => Err(e),
        },
        QueryNode::Or(v) => match rewrite_all(v) {
            Ok(w) => Ok(QueryNode::Or(w)),
            Err(e) => Err(e),
        },
        QueryNode::Not(n) => match rewrite(n) {
            Ok(w) => Ok(QueryNode::Not(Box::new(w))),
            Err(e) => Err(e),
        },
        QueryNode::Empty => Ok(QueryNode::Empty),
        _ => Err(error_at_start("Whole-word mode does not support boosts or near queries")),
    }
}

impl Query {
    /// Limits the query to whole words, keeping each leaf's case rule. A query
    /// that is refused stays as it was.
    pub fn apply_word_boundaries(&mut self) -> (r: Result<(), QueryError>)
        ensures
            final(self).filters == old(self).filters,
            final(self).options == old(self).options,
            match r {
                Ok(_) => old(self)@.defect() is None && whole_words(old(self)@.root) == Ok::<
                    NodeModel,
                    ErrorModel,
                >(final(self)@.root),
                Err(e) => *final(self) == *old(self) && match old(self)@.defect() {
                    Some(defect) => e@ == defect,
                    None => whole_words(old(self)@.root) == Err::<NodeModel, ErrorModel>(e@),
                },
            },
    {
        match self.validate() {
            Ok(_) => {},
            Err(e) => return Err(e),
        }
        match rewrite(&self.root) {
            Ok(n) => {
                self.root = n;
                Ok(())
            },
            Err(e) => Err(e),
        }
    }
}

} // verus!
