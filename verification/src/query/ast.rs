//! The structure of a query: a tree of search terms, filters and options.
use crate::text::{decimal_text, number_text};
use vstd::prelude::*;

verus! {

/// Maximum accepted source bytes.
pub const MAX_QUERY_BYTES: usize = 65536;

/// Maximum accepted terms.
pub const MAX_QUERY_NODES: usize = 1024;

/// Maximum accepted nesting of groups.
pub const MAX_QUERY_DEPTH: usize = 32;

/// Least decimal number that a 32-bit float rounds to infinity: halfway
/// between the largest float and the next power of two.
pub const BOOST_LIMIT: u128 = 340282356779733661637539395458142568448;

/// Why a query was refused, and the byte at which that was noticed.
#[derive(Debug)]
pub struct QueryError {
    pub message: String,
    pub offset: usize,
}

/// What a [`QueryError`] says.
pub struct ErrorModel {
    pub message: Seq<char>,
    pub offset: nat,
}

impl View for QueryError {
    type V = ErrorModel;

    open spec fn view(&self) -> ErrorModel {
        ErrorModel { message: self.message@, offset: self.offset as nat }
    }
}

/// A ranking factor, kept as the decimal text it was written as.
#[derive(Debug)]
pub struct Boost {
    pub text: String,
}

/// A query tree.
#[derive(Debug)]
pub enum QueryNode {
    /// A query that could not be read; every executor refuses it.
    Invalid(QueryError),
    /// Simple literal search.
    Literal(String),
    /// Literal search with a ranking boost.
    BoostedLiteral { text: String, boost: Boost },
    /// Quoted phrase with a ranking boost; keeps a phrase's case rules.
    BoostedPhrase { text: String, boost: Boost },
    /// Exact phrase search (quoted).
    Phrase(String),
    /// Regular expression.
    Regex(String),
    /// Terms that must appear within `distance` lines of each other.
    Near { terms: Vec<String>, distance: u32 },
    /// All must match.
    And(Vec<QueryNode>),
    /// Any can match.
    Or(Vec<QueryNode>),
    /// Excludes matches.
    Not(Box<QueryNode>),
    /// No search term.
    Empty,
}

/// The mathematical content of a [`QueryNode`].
pub enum NodeModel {
    Invalid(ErrorModel),
    Literal(Seq<char>),
    BoostedLiteral { text: Seq<char>, boost: Seq<char> },
    BoostedPhrase { text: Seq<char>, boost: Seq<char> },
    Phrase(Seq<char>),
    Regex(Seq<char>),
    Near { terms: Seq<Seq<char>>, distance: u32 },
    And(Seq<NodeModel>),
    Or(Seq<NodeModel>),
    Not(Box<NodeModel>),
    Empty,
}

/// The contents of a list of texts.
pub open spec fn texts(v: Seq<String>) -> Seq<Seq<char>> {
    v.map_values(|s: String| s@)
}

impl QueryNode {
    /// The content of the tree.
    pub open spec fn model(&self) -> NodeModel
        decreases self,
    {
        match self {
            QueryNode::Invalid(e) => NodeModel::Invalid(e@),
            QueryNode::Literal(s) => NodeModel::Literal(s@),
            QueryNode::BoostedLiteral { text, boost } => NodeModel::BoostedLiteral {
                text: text@,
                boost: boost.text@,
            },
            QueryNode::BoostedPhrase { text, boost } => NodeModel::BoostedPhrase {
                text: text@,
                boost: boost.text@,
            },
            QueryNode::Phrase(s) => NodeModel::Phrase(s@),
            QueryNode::Regex(s) => NodeModel::Regex(s@),
            QueryNode::Near { terms, distance } => NodeModel::Near {
                terms: texts(terms@),
                distance: *distance,
            },
            QueryNode::And(v) => NodeModel::And(
                Seq::new(
                    v@.len(),
                    |i: int|
                        if 0 <= i < v@.len() {
                            v@[i].model()
                        } else {
                            NodeModel::Empty
                        },
                ),
            ),
            QueryNode::Or(v) => NodeModel::Or(
                Seq::new(
                    v@.len(),
                    |i: int|
                        if 0 <= i < v@.len() {
                            v@[i].model()
                        } else {
                            NodeModel::Empty
                        },
                ),
            ),
            QueryNode::Not(n) => NodeModel::Not(Box::new(n.model())),
            QueryNode::Empty => NodeModel::Empty,
        }
    }
}

/// The contents of a list of trees.
pub open spec fn models(v: Seq<QueryNode>) -> Seq<NodeModel> {
    v.map_values(|n: QueryNode| n.model())
}

/// The content of a conjunction is made of its branches' contents.
pub broadcast proof fn lemma_and_model(v: Vec<QueryNode>)
    ensures
        (#[trigger] QueryNode::And(v).model()) == NodeModel::And(models(v@)),
{
    assert(QueryNode::And(v).model()->And_0 =~= models(v@));
}

/// The content of a disjunction is made of its branches' contents.
pub broadcast proof fn lemma_or_model(v: Vec<QueryNode>)
    ensures
        (#[trigger] QueryNode::Or(v).model()) == NodeModel::Or(models(v@)),
{
    assert(QueryNode::Or(v).model()->Or_0 =~= models(v@));
}

/// What a conjunction and a disjunction contain.
pub broadcast group branch_models {
    lemma_and_model,
    lemma_or_model,
}

/// Filters on the files and lines searched.
#[derive(Debug)]
pub struct QueryFilters {
    /// Root-relative file or subtree selected by the client (component prefix).
    pub search_scope: Option<String>,
    /// Path glob pattern (`path:src/*.rs`).
    pub path: Option<String>,
    /// Filename pattern (`file:foo` or `file:*.rs`).
    pub filename: Option<String>,
    /// File extension filter (`ext:rs`).
    pub ext: Option<String>,
    /// Language filter (`lang:rust`).
    pub lang: Option<String>,
    /// Least size in bytes.
    pub size_min: Option<u64>,
    /// Greatest size in bytes.
    pub size_max: Option<u64>,
    /// First line considered.
    pub line_start: Option<u32>,
    /// Last line considered.
    pub line_end: Option<u32>,
    /// Earliest modification time.
    pub mtime_min: Option<u64>,
    /// Latest modification time.
    pub mtime_max: Option<u64>,
}

/// The mathematical content of [`QueryFilters`].
pub struct FilterModel {
    pub search_scope: Option<Seq<char>>,
    pub path: Option<Seq<char>>,
    pub filename: Option<Seq<char>>,
    pub ext: Option<Seq<char>>,
    pub lang: Option<Seq<char>>,
    pub size_min: Option<u64>,
    pub size_max: Option<u64>,
    pub line_start: Option<u32>,
    pub line_end: Option<u32>,
    pub mtime_min: Option<u64>,
    pub mtime_max: Option<u64>,
}

/// The content of an optional text.
pub open spec fn text_option(t: Option<String>) -> Option<Seq<char>> {
    match t {
        Some(s) => Some(s@),
        None => None,
    }
}

impl View for QueryFilters {
    type V = FilterModel;

    open spec fn view(&self) -> FilterModel {
        FilterModel {
            search_scope: text_option(self.search_scope),
            path: text_option(self.path),
            filename: text_option(self.filename),
            ext: text_option(self.ext),
            lang: text_option(self.lang),
            size_min: self.size_min,
            size_max: self.size_max,
            line_start: self.line_start,
            line_end: self.line_end,
            mtime_min: self.mtime_min,
            mtime_max: self.mtime_max,
        }
    }
}

/// No filter at all.
pub open spec fn no_filters() -> FilterModel {
    FilterModel {
        search_scope: None,
        path: None,
        filename: None,
        ext: None,
        lang: None,
        size_min: None,
        size_max: None,
        line_start: None,
        line_end: None,
        mtime_min: None,
        mtime_max: None,
    }
}

impl FilterModel {
    /// Whether a filter written in the query is set, the client's scope aside.
    pub open spec fn from_query(self) -> bool {
        self != (FilterModel { search_scope: self.search_scope, ..no_filters() })
    }
}

impl Default for QueryFilters {
    fn default() -> (r: Self)
        ensures
            r@ == no_filters(),
    {
        QueryFilters {
            search_scope: None,
            path: None,
            filename: None,
            ext: None,
            lang: None,
            size_min: None,
            size_max: None,
            line_start: None,
            line_end: None,
            mtime_min: None,
            mtime_max: None,
        }
    }
}

impl QueryFilters {
    /// Whether any filter is set.
    pub fn has_any(&self) -> (r: bool)
        ensures
            r == (self@ != no_filters()),
    {
        self.search_scope.is_some() || self.has_query_filters()
    }

    /// Whether any filter other than the client's scope is set.
    pub fn has_query_filters(&self) -> (r: bool)
        ensures
            r == self@.from_query(),
    {
        self.path.is_some() || self.filename.is_some() || self.ext.is_some() || self.lang.is_some()
            || self.size_min.is_some() || self.size_max.is_some() || self.line_start.is_some()
            || self.line_end.is_some() || self.mtime_min.is_some() || self.mtime_max.is_some()
    }
}

/// Sort order for results.
#[derive(Debug, Clone, Copy, PartialEq, Eq, Structural)]
pub enum SortOrder {
    Score,
    Recency,
    Path,
}

/// Query options.
#[derive(Debug, Clone, Copy, PartialEq, Eq, Structural)]
pub struct QueryOptions {
    /// Sort order.
    pub sort: SortOrder,
    /// Maximum results.
    pub limit: usize,
    /// Whether `top:` set the limit.
    pub explicit_limit: bool,
    /// Whether phrases and regular expressions ignore case. Bare terms do so
    /// whatever this says.
    pub case_insensitive: bool,
}

/// The options of a query that names none.
pub open spec fn plain_options() -> QueryOptions {
    QueryOptions {
        sort: SortOrder::Score,
        limit: 100,
        explicit_limit: false,
        case_insensitive: false,
    }
}

impl Default for QueryOptions {
    fn default() -> (r: Self)
        ensures
            r == plain_options(),
    {
        QueryOptions {
            sort: SortOrder::Score,
            limit: 100,
            explicit_limit: false,
            case_insensitive: false,
        }
    }
}

/// A query.
#[derive(Debug)]
pub struct Query {
    pub root: QueryNode,
    pub filters: QueryFilters,
    pub options: QueryOptions,
}

/// The mathematical content of a [`Query`].
pub struct QueryModel {
    pub root: NodeModel,
    pub filters: FilterModel,
    pub options: QueryOptions,
}

impl View for Query {
    type V = QueryModel;

    open spec fn view(&self) -> QueryModel {
        QueryModel { root: self.root.model(), filters: self.filters@, options: self.options }
    }
}

impl QueryError {
    /// The message and the place, as one text.
    pub fn to_string(&self) -> (r: String)
        ensures
            r@ == self.message@ + " at byte "@ + decimal_text(self.offset as nat),
    {
        let mut out = self.message.clone();
        out.append(" at byte ");
        out.append(number_text(self.offset as u64).as_str());
        out
    }

    /// The same error again.
    pub fn copied(&self) -> (r: QueryError)
        ensures
            r@ == self@,
    {
        QueryError { message: self.message.clone(), offset: self.offset }
    }
}

/// An error noticed at the start.
pub fn error_at_start(message: &str) -> (r: QueryError)
    ensures
        r@ == (ErrorModel { message: message@, offset: 0 }),
{
    QueryError { message: message.to_owned(), offset: 0 }
}

impl QueryModel {
    /// Whether there is neither a search term nor a filter in the query.
    pub open spec fn asks_nothing(self) -> bool {
        self.root is Empty && !self.filters.from_query()
    }
}

impl Query {
    /// The raw text of a query that is one literal or phrase.
    pub fn get_search_text(&self) -> (r: Option<&str>)
        ensures
            match r {
                Some(s) => self@.root == NodeModel::Literal(s@) || self@.root == NodeModel::Phrase(
                    s@,
                ),
                None => !(self@.root is Literal) && !(self@.root is Phrase),
            },
    {
        match &self.root {
            QueryNode::Literal(s) => Some(s.as_str()),
            QueryNode::Phrase(s) => Some(s.as_str()),
            _ => None,
        }
    }

    /// Whether the query is empty: no search term and no filters.
    pub fn is_empty(&self) -> (r: bool)
        ensures
            r == self@.asks_nothing(),
    {
        matches!(self.root, QueryNode::Empty) && !self.filters.has_query_filters()
    }
}

} // verus!
