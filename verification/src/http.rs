//! What came back from an HTTP service.

use vstd::prelude::*;

verus! {

/// What a request came to. `T` is what the body of a reply is read as.
#[derive(Debug)]
pub enum HttpReply<T> {
    /// There was no reply; the text says why.
    Failed(String),
    /// There was one.
    Replied {
        /// Status code.
        code: u16,
        /// Status as text, such as "404 Not Found".
        status: String,
        /// The body as text, where it is shown to an operator.
        text: String,
        /// The body as read, or why it could not be.
        parsed: Result<T, String>,
    },
}

/// Whether a status code stands for success.
pub open spec fn success(code: u16) -> bool {
    200 <= code < 300
}

/// Whether a status code stands for success.
pub fn is_success(code: u16) -> (is: bool)
    ensures
        is == success(code),
        is <==> 200 <= code <= 299,
{
    200 <= code && code < 300
}

} // verus!
