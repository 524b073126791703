//! What a client makes of an answer.
use crate::server::protocol::{ContentSearchResponse, Response, SearchResponse, StatusResponse};
use vstd::prelude::*;

verus! {

/// Errors that can occur in client operations.
#[derive(Debug)]
pub enum ClientError {
    /// The server is not running.
    NotRunning,
    /// Communication failed, for the reason given.
    IoError(String),
    /// The server returned an error.
    ServerError(String),
    /// The answer is to something else.
    InvalidResponse,
}

impl ClientError {
    /// The error as text.
    pub open spec fn text(self) -> Seq<char> {
        match self {
            ClientError::NotRunning => "Index server is not running"@,
            ClientError::IoError(e) => "I/O error: "@ + e@,
            ClientError::ServerError(m) => "Server error: "@ + m@,
            ClientError::InvalidResponse => "Invalid response from server"@,
        }
    }

    /// The error as text.
    pub fn to_string(&self) -> (r: String)
        ensures
            r@ == self.text(),
    {
        match self {
            ClientError::NotRunning => "Index server is not running".to_owned(),
            ClientError::IoError(e) => {
                let mut t = "I/O error: ".to_owned();
                t.append(e.as_str());
                t
            },
            ClientError::ServerError(m) => {
                let mut t = "Server error: ".to_owned();
                t.append(m.as_str());
                t
            },
            ClientError::InvalidResponse => "Invalid response from server".to_owned(),
        }
    }
}

/// The error that an answer stands for where it is not one to what was asked.
pub open spec fn as_error(response: Response) -> ClientError {
    match response {
        Response::Error { message } => ClientError::ServerError(message),
        _ => ClientError::InvalidResponse,
    }
}

fn refusal(response: Response) -> (r: ClientError)
    ensures
        r == as_error(response),
{
    match response {
        Response::Error { message } => ClientError::ServerError(message),
        _ => ClientError::InvalidResponse,
    }
}

/// The answer to a ranked search.
pub fn search_answer(response: Response) -> (r: Result<SearchResponse, ClientError>)
    ensures
        r == match response {
            Response::Search(a) => Ok::<SearchResponse, ClientError>(a),
            _ => Err(as_error(response)),
        },
{
    match response {
        Response::Search(a) => Ok(a),
        other => Err(refusal(other)),
    }
}

/// The answer to a search for lines.
pub fn content_answer(response: Response) -> (r: Result<ContentSearchResponse, ClientError>)
    ensures
        r == match response {
            Response::ContentSearch(a) => Ok::<ContentSearchResponse, ClientError>(a),
            _ => Err(as_error(response)),
        },
{
    match response {
        Response::ContentSearch(a) => Ok(a),
        other => Err(refusal(other)),
    }
}

/// The answer to a question how the server is.
pub fn status_answer(response: Response) -> (r: Result<StatusResponse, ClientError>)
    ensures
        r == match response {
            Response::Status(a) => Ok::<StatusResponse, ClientError>(a),
            _ => Err(as_error(response)),
        },
{
    match response {
        Response::Status(a) => Ok(a),
        other => Err(refusal(other)),
    }
}

/// The answer to a request to load an index again, or to remove one.
pub fn reload_answer(response: Response) -> (r: Result<(bool, String), ClientError>)
    ensures
        r == match response {
            Response::Reloaded { success, message, .. } => Ok::<(bool, String), ClientError>(
                (success, message),
            ),
            _ => Err(as_error(response)),
        },
{
    match response {
        Response::Reloaded { success, message, .. } => Ok((success, message)),
        other => Err(refusal(other)),
    }
}

/// The answer to a request to shut down.
pub fn shutdown_answer(response: Response) -> (r: Result<(), ClientError>)
    ensures
        r == match response {
            Response::ShuttingDown => Ok::<(), ClientError>(()),
            _ => Err(as_error(response)),
        },
{
    match response {
        Response::ShuttingDown => Ok(()),
        other => Err(refusal(other)),
    }
}

/// The answer to a test of the connection.
pub fn ping_answer(response: Response) -> (r: Result<(), ClientError>)
    ensures
        r == match response {
            Response::Pong => Ok::<(), ClientError>(()),
            _ => Err(as_error(response)),
        },
{
    match response {
        Response::Pong => Ok(()),
        other => Err(refusal(other)),
    }
}

} // verus!
