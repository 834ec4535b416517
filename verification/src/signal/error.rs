//! What can go wrong in signalling.

use vstd::prelude::*;

verus! {

#[derive(Debug, Clone, PartialEq, Eq)]
pub enum Error {
    /// A plain `ws://` URL to somewhere other than this machine or its network.
    ///
    /// Rendezvous identifiers are bearer secrets: anyone who sees one can
    /// enumerate that group's addresses. Sending them unencrypted across a
    /// network would hand them to everyone on the path.
    InsecureUrl { url: String },
    /// The signalling server closed the connection.
    Closed,
    /// The server said that something was wrong.
    Server { detail: String },
    /// A certificate or a fingerprint is not as it should be.
    Tls(String),
}

/// What can go wrong in signalling, as values.
pub enum Fault {
    InsecureUrl { url: Seq<char> },
    Closed,
    Server { detail: Seq<char> },
    Tls(Seq<char>),
}

impl View for Error {
    type V = Fault;

    open spec fn view(&self) -> Fault {
        match *self {
            Error::InsecureUrl { url } => Fault::InsecureUrl { url: url@ },
            Error::Closed => Fault::Closed,
            Error::Server { detail } => Fault::Server { detail: detail@ },
            Error::Tls(detail) => Fault::Tls(detail@),
        }
    }
}

impl Error {
    /// The error as a sentence.
    pub fn to_string(&self) -> (text: String)
        ensures
            text@ == (match self@ {
                Fault::InsecureUrl { url } => url
                    + " is not encrypted; use wss:// or allow_insecure() for local testing"@,
                Fault::Closed => "the signalling server closed the connection"@,
                Fault::Server { detail } => "server said: "@ + detail,
                Fault::Tls(detail) => detail,
            }),
    {
        match self {
            Error::InsecureUrl { url } => url.clone().concat(
                " is not encrypted; use wss:// or allow_insecure() for local testing",
            ),
            Error::Closed => "the signalling server closed the connection".to_owned(),
            Error::Server { detail } => "server said: ".to_owned().concat(detail),
            Error::Tls(detail) => detail.clone(),
        }
    }
}

} // verus!
