//! `HELLO` arguments.
//!
//! Syntax: `HELLO [protover] [AUTH [username] password] [SETNAME clientname]`.

use bytes::Bytes;
use vstd::prelude::*;

use crate::buffer::{bytes_clone, bytes_of};

verus! {

/// Arguments of `HELLO`.
#[derive(Debug, PartialEq, Eq)]
pub struct HelloArgs {
    /// Requested protocol version, or `None` where the client only asks what
    /// the server can do.
    pub protocol_version: Option<u32>,
    /// User name and password of `AUTH`. The user name is `None` in the legacy
    /// form with a password alone.
    pub auth: Option<(Option<Bytes>, Bytes)>,
    /// Connection name of `SETNAME`.
    pub client_name: Option<Bytes>,
}

/// Mathematical value of [`HelloArgs`].
pub ghost struct HelloView {
    pub protocol_version: Option<u32>,
    pub auth: Option<(Option<Seq<u8>>, Seq<u8>)>,
    pub client_name: Option<Seq<u8>>,
}

/// Contents of an optional byte string.
pub open spec fn opt_bytes(b: Option<Bytes>) -> Option<Seq<u8>> {
    match b {
        Some(x) => Some(bytes_of(x)),
        None => None,
    }
}

impl View for HelloArgs {
    type V = HelloView;

    open spec fn view(&self) -> HelloView {
        HelloView {
            protocol_version: self.protocol_version,
            auth: match self.auth {
                Some((u, p)) => Some((opt_bytes(u), bytes_of(p))),
                None => None,
            },
            client_name: opt_bytes(self.client_name),
        }
    }
}

/// A second handle on an optional byte string.
pub(crate) fn clone_opt_bytes(b: &Option<Bytes>) -> (r: Option<Bytes>)
    ensures
        opt_bytes(r) == opt_bytes(*b),
{
    match b {
        Some(x) => Some(bytes_clone(x)),
        None => None,
    }
}

impl HelloArgs {
    /// A minimal `HELLO`: no authentication, no client name.
    pub fn versioned(version: u32) -> (r: Self)
        ensures
            r@ == (HelloView { protocol_version: Some(version), auth: None, client_name: None }),
    {
        HelloArgs { protocol_version: Some(version), auth: None, client_name: None }
    }
}

impl Default for HelloArgs {
    /// The bare query.
    fn default() -> (r: Self)
        ensures
            r@ == (HelloView { protocol_version: None, auth: None, client_name: None }),
    {
        HelloArgs { protocol_version: None, auth: None, client_name: None }
    }
}

impl Clone for HelloArgs {
    fn clone(&self) -> (r: Self)
        ensures
            r@ == self@,
    {
        HelloArgs {
            protocol_version: self.protocol_version,
            auth: match &self.auth {
                Some((u, p)) => Some((clone_opt_bytes(u), bytes_clone(p))),
                None => None,
            },
            client_name: clone_opt_bytes(&self.client_name),
        }
    }
}

} // verus!
