//! The chunk transport's rules: where a chunk lives on a node, how long a
//! call may take, and which exchanges count as success.
//!
//! The calls themselves are made by whoever owns the connection; what came
//! back is reported here as an `Exchange`.

use vstd::prelude::*;
use vstd::string::StringExecFns;

verus! {

/// The longest a single chunk call may take, in seconds.
pub const REQUEST_TIMEOUT_SECS: u64 = 30;

/// What a call to a node came to.
#[derive(Clone, Copy, PartialEq, Eq, Structural, Debug)]
pub enum Exchange {
    /// The node answered with this status.
    Response(u16),
    /// No answer: the call failed on the way.
    Failed,
}

/// The one error of the transport: the call did not succeed. `status` holds
/// the node's answer where there was one.
#[derive(Clone, Copy, PartialEq, Eq, Structural, Debug)]
pub struct TransportError {
    pub status: Option<u16>,
}

/// The address of a chunk on a node: the node's base address, `/chunk/`, and
/// the chunk's identifier.
pub open spec fn chunk_url_of(node: Seq<char>, chunk_id: Seq<char>) -> Seq<char> {
    node + "/chunk/"@ + chunk_id
}

/// Whether a status stands for success: 200 to 299.
pub open spec fn is_success(status: u16) -> bool {
    200 <= status < 300
}

/// The transport's verdict on an exchange.
pub open spec fn verdict(exchange: Exchange) -> Result<(), TransportError> {
    match exchange {
        Exchange::Response(status) => if is_success(status) {
            Ok(())
        } else {
            Err(TransportError { status: Some(status) })
        },
        Exchange::Failed => Err(TransportError { status: None }),
    }
}

/// The address under which `node` serves the chunk `chunk_id`.
pub fn chunk_url(node: &str, chunk_id: &str) -> (url: String)
    ensures
        url@ == chunk_url_of(node@, chunk_id@),
{
    let mut url = String::from_str(node);
    url.append("/chunk/");
    url.append(chunk_id);
    url
}

/// Judges an exchange: a status from 200 to 299 is success; any other status,
/// and a call that failed on the way, are the same error.
pub fn check_exchange(exchange: Exchange) -> (judged: Result<(), TransportError>)
    ensures
        judged == verdict(exchange),
{
    match exchange {
        Exchange::Response(status) => {
            if 200 <= status && status < 300 {
                Ok(())
            } else {
                Err(TransportError { status: Some(status) })
            }
        },
        Exchange::Failed => Err(TransportError { status: None }),
    }
}

} // verus!
