//! Messages between client and server, and how they are framed: four bytes of
//! length, the lowest first, and then as many bytes of message.
use crate::query::content::numbered;
use crate::query::ranking::SearchMatch;
use crate::query::search::{ContentHit, ContentMatchResult};
use vstd::prelude::*;

verus! {

/// Version of the protocol. It changes only where messages do so in a way that
/// is not compatible.
pub const PROTOCOL_VERSION: u32 = 2;

/// Most bytes of a message.
pub const MAX_MESSAGE_BYTES: usize = 104857600;

/// How the answer to a search for which there is no room starts.
pub const SEARCH_OVERLOADED_PREFIX: &'static str = "search overloaded: ";

/// Options for content search.
#[derive(Debug, Clone, Copy, PartialEq, Eq, Structural)]
pub struct ContentSearchOptions {
    /// Lines of context before a match.
    pub context_before: u32,
    /// Lines of context after a match.
    pub context_after: u32,
    /// Whether case is ignored.
    pub case_insensitive: bool,
    /// Only the files are wanted.
    pub files_only: bool,
    /// The files are wanted as a list of paths.
    pub compact_files: bool,
    /// Only the number of matches in each file is wanted.
    pub counts_only: bool,
    /// Only whole words match.
    pub word_regexp: bool,
}

impl Default for ContentSearchOptions {
    fn default() -> (r: Self)
        ensures
            r == (ContentSearchOptions {
                context_before: 0,
                context_after: 0,
                case_insensitive: false,
                files_only: false,
                compact_files: false,
                counts_only: false,
                word_regexp: false,
            }),
    {
        ContentSearchOptions {
            context_before: 0,
            context_after: 0,
            case_insensitive: false,
            files_only: false,
            compact_files: false,
            counts_only: false,
            word_regexp: false,
        }
    }
}

/// A request to the server.
#[allow(inconsistent_fields)]
#[derive(Debug)]
pub enum Request {
    /// A ranked search.
    Search { query: String, root_path: Option<String>, limit: usize },
    /// A search for lines.
    ContentSearch {
        pattern: String,
        root_path: Option<String>,
        limit: usize,
        options: ContentSearchOptions,
    },
    /// How the server is.
    Status,
    /// Load the index of a path again.
    Reload { root_path: Option<String> },
    /// Remove the index of a path.
    Remove { root_path: String },
    /// Shut down.
    Shutdown,
    /// Test the connection.
    Ping,
    /// Exchange versions.
    Hello { protocol_version: u32 },
    /// Whether a root is watched.
    WatchStatus { root_path: Option<String> },
}

/// A match with its line and the lines around it.
#[derive(Debug)]
pub struct ContentMatch {
    pub path: String,
    pub line_number: u32,
    pub line_content: String,
    pub match_start: usize,
    pub match_end: usize,
    pub context_before: Vec<(u32, String)>,
    pub context_after: Vec<(u32, String)>,
}

impl View for ContentMatch {
    type V = ContentHit;

    open spec fn view(&self) -> ContentHit {
        ContentHit {
            path: self.path@,
            line_number: self.line_number,
            line_content: self.line_content@,
            match_start: self.match_start as nat,
            match_end: self.match_end as nat,
            context_before: numbered(self.context_before@),
            context_after: numbered(self.context_after@),
        }
    }
}

/// The contents of a list of matches.
pub open spec fn content_matches(v: Seq<ContentMatch>) -> Seq<ContentHit> {
    v.map_values(|m: ContentMatch| m@)
}

/// The answer to a ranked search, the time it took aside.
#[derive(Debug)]
pub struct SearchResponse {
    pub matches: Vec<SearchMatch>,
    pub cached: bool,
    pub resolved_root: Option<String>,
}

/// The answer to a search for lines, the time it took aside.
#[derive(Debug)]
pub struct ContentSearchResponse {
    pub matches: Vec<ContentMatch>,
    pub file_paths: Option<Vec<String>>,
    pub file_counts: Option<Vec<(String, usize)>>,
    pub files_with_matches: usize,
    pub resolved_root: Option<String>,
}

/// How the server is, the rate of cache hits aside.
#[derive(Debug)]
pub struct StatusResponse {
    pub uptime_secs: u64,
    pub indexes_loaded: usize,
    pub total_docs: u32,
    pub queries_served: u64,
    pub memory_bytes: u64,
    pub loaded_roots: Vec<String>,
    pub protocol_version: u32,
    pub server_version: String,
    pub watch_enabled: bool,
    pub watched_roots: Vec<String>,
}

/// An answer of the server.
#[derive(Debug)]
pub enum Response {
    Search(SearchResponse),
    ContentSearch(ContentSearchResponse),
    Status(StatusResponse),
    Reloaded { success: bool, message: String, resolved_root: Option<String> },
    ShuttingDown,
    Pong,
    Error { message: String },
    Hello { protocol_version: u32, server_version: String },
    WatchStatus { watching: bool, pending_changes: usize, resolved_root: Option<String> },
}

/// A match as it is sent.
pub fn to_content_match(m: ContentMatchResult) -> (r: ContentMatch)
    ensures
        r@ == m@,
{
    ContentMatch {
        path: m.path,
        line_number: m.line_number,
        line_content: m.line_content,
        match_start: m.match_start,
        match_end: m.match_end,
        context_before: m.context_before,
        context_after: m.context_after,
    }
}

/// Four bytes that stand for a number, the lowest first.
pub open spec fn length_bytes(n: nat) -> Seq<u8> {
    seq![
        (n % 256) as u8,
        (n / 256 % 256) as u8,
        (n / 65536 % 256) as u8,
        (n / 16777216 % 256) as u8,
    ]
}

/// The number that four bytes stand for.
pub open spec fn length_of(b: Seq<u8>) -> nat {
    b[0] as nat + 256 * b[1] as nat + 65536 * b[2] as nat + 16777216 * b[3] as nat
}

/// A framed message.
pub open spec fn framed(body: Seq<u8>) -> Seq<u8> {
    length_bytes(body.len()) + body
}

/// Why no message could be read.
#[derive(Debug, Clone, Copy, PartialEq, Eq, Structural)]
pub enum FrameError {
    /// The bytes end before the message does.
    UnexpectedEof,
    /// The message is longer than allowed.
    TooLarge,
}

/// The first message in a text of bytes, and how many bytes it takes with its
/// frame.
pub open spec fn first_message(b: Seq<u8>) -> Result<(Seq<u8>, nat), FrameError> {
    if b.len() < 4 {
        Err(FrameError::UnexpectedEof)
    } else if length_of(b) > MAX_MESSAGE_BYTES {
        Err(FrameError::TooLarge)
    } else if b.len() < 4 + length_of(b) {
        Err(FrameError::UnexpectedEof)
    } else {
        Ok((b.subrange(4, (4 + length_of(b)) as int), 4 + length_of(b)))
    }
}

/// Frames a message.
pub fn frame_message(body: &Vec<u8>) -> (r: Vec<u8>)
    requires
        body@.len() <= u32::MAX,
    ensures
        r@ == framed(body@),
{
    let n = body.len();
    let mut out: Vec<u8> = Vec::new();
    out.push((n % 256) as u8);
    out.push((n / 256 % 256) as u8);
    out.push((n / 65536 % 256) as u8);
    out.push((n / 16777216 % 256) as u8);
    assert(out@ =~= length_bytes(body@.len()));
    let mut i: usize = 0;
    while i < n
        invariant
            i <= n == body@.len(),
            out@ =~= length_bytes(body@.len()) + body@.take(i as int),
        decreases n - i,
    {
        out.push(body[i]);
        i += 1;
    }
    assert(body@.take(n as int) =~= body@);
    out
}

/// The length that a frame starts with, where it is allowed. The header has
/// four bytes.
pub fn frame_length(header: &Vec<u8>) -> (r: Result<usize, FrameError>)
    ensures
        header@.len() < 4 ==> r == Err::<usize, FrameError>(FrameError::UnexpectedEof),
        header@.len() >= 4 && length_of(header@) > MAX_MESSAGE_BYTES ==> r == Err::<
            usize,
            FrameError,
        >(FrameError::TooLarge),
        header@.len() >= 4 && length_of(header@) <= MAX_MESSAGE_BYTES ==> r is Ok && r->Ok_0
            == length_of(header@),
{
    if header.len() < 4 {
        return Err(FrameError::UnexpectedEof);
    }
    let n: u64 = header[0] as u64 + 256 * header[1] as u64 + 65536 * header[2] as u64 + 16777216
        * header[3] as u64;
    if n > MAX_MESSAGE_BYTES as u64 {
        Err(FrameError::TooLarge)
    } else {
        Ok(n as usize)
    }
}

/// Reads the first message of a text of bytes.
pub fn unframe_message(bytes: &Vec<u8>) -> (r: Result<(Vec<u8>, usize), FrameError>)
    ensures
        match r {
            Ok((body, used)) => first_message(bytes@) == Ok::<(Seq<u8>, nat), FrameError>(
                (body@, used as nat),
            ),
            Err(e) => first_message(bytes@) == Err::<(Seq<u8>, nat), FrameError>(e),
        },
{
    let n = match frame_length(bytes) {
        Ok(n) => n,
        Err(e) => return Err(e),
    };
    if bytes.len() - 4 < n {
        return Err(FrameError::UnexpectedEof);
    }
    let mut body: Vec<u8> = Vec::new();
    let mut i: usize = 0;
    while i < n
        invariant
            i <= n <= MAX_MESSAGE_BYTES,
            4 + n <= bytes@.len(),
            body@ =~= bytes@.subrange(4, 4 + i),
        decreases n - i,
    {
        body.push(bytes[4 + i]);
        i += 1;
    }
    Ok((body, 4 + n))
}

/// Reading gives back what was written: of a framed message with anything
/// behind it, the message is read, and no byte beyond it.
pub proof fn framed_message_is_read_back(body: Seq<u8>, rest: Seq<u8>)
    requires
        body.len() <= MAX_MESSAGE_BYTES,
    ensures
        first_message(framed(body) + rest) == Ok::<(Seq<u8>, nat), FrameError>(
            (body, 4 + body.len()),
        ),
{
    let n = body.len();
    let b = framed(body) + rest;
    lemma_length_back(n);
    assert(b[0] == length_bytes(n)[0]);
    assert(b[1] == length_bytes(n)[1]);
    assert(b[2] == length_bytes(n)[2]);
    assert(b[3] == length_bytes(n)[3]);
    assert(length_of(b) == n);
    assert(b.subrange(4, (4 + n) as int) =~= body);
}

/// Four bytes stand for the number they were made of.
pub proof fn lemma_length_back(n: nat)
    requires
        n <= u32::MAX,
    ensures
        length_of(length_bytes(n)) == n,
{
    let a = n % 256;
    let x = n / 256;
    let b = x % 256;
    let y = x / 256;
    let c = y % 256;
    let z = y / 256;
    assert(n / 65536 == y);
    assert(n / 16777216 == z);
    assert(z < 256);
    assert(n == a + 256 * x);
    assert(x == b + 256 * y);
    assert(y == c + 256 * z);
}

/// A message that is too long is refused whatever follows, and a frame that
/// ends early is never taken for a message.
pub proof fn oversized_message_is_refused(b: Seq<u8>)
    requires
        b.len() >= 4,
        length_of(b) > MAX_MESSAGE_BYTES,
    ensures
        first_message(b) == Err::<(Seq<u8>, nat), FrameError>(FrameError::TooLarge),
{
}

} // verus!
