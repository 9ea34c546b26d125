//! A minimal screen-sharing HTTP server's core: raw request parsing,
//! path-to-screen routing, and response assembly, each with a proved
//! contract. A client asks for `/` or `/screen/<n>` and receives a
//! PNG capture of the named display, or `404 Not Found`. The socket
//! plumbing around this library reads each connection's bytes, hands
//! them in, and writes the assembled response back.

use vstd::prelude::*;

pub mod request;
pub mod response;
pub mod route;
pub mod server;
pub mod split;

verus! {

/// The kinds of failure that serving a connection can report.
#[derive(Clone, Copy, Debug, PartialEq, Eq, Structural)]
pub enum ServerError {
    /// The request line or a header line does not have the required shape,
    /// or the bytes are not valid text.
    MalformedRequest,
    /// The digits of a screen number overflow the machine's integer range.
    InvalidScreenNumber,
    /// A socket read or write failed.
    IoError,
    /// The capture collaborator could not produce an image.
    CaptureFailure,
    /// The listening socket could not be bound at startup.
    BindFailure,
}

} // verus!
