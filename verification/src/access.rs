//! The access record: one observed inbound HTTP request, in the form the
//! client middleware collects and the server ingests.

use vstd::prelude::*;

verus! {

/// A client IP address, v4 or v6, held as plain numeric parts.
#[derive(Clone, Copy, PartialEq, Eq, Structural, Debug)]
pub enum IpAddress {
    /// An IPv4 address, one field per dotted octet.
    V4 { a: u8, b: u8, c: u8, d: u8 },
    /// An IPv6 address as its eight 16-bit groups, most significant first.
    V6 { g0: u16, g1: u16, g2: u16, g3: u16, g4: u16, g5: u16, g6: u16, g7: u16 },
}

/// One observed inbound HTTP request.
///
/// `date` is a Unix timestamp in seconds. `method` and `uri` are non-empty;
/// see [`Access::wf`].
#[derive(Clone, Debug)]
pub struct Access {
    /// When the request was observed, as Unix seconds (UTC).
    pub date: i64,
    /// The client address, when one could be extracted.
    pub peer_addr: Option<IpAddress>,
    /// The `User-Agent` header, verbatim.
    pub user_agent: Option<String>,
    /// The `Referer` header, verbatim.
    pub referer: Option<String>,
    /// The HTTP method.
    pub method: String,
    /// The request-target as received.
    pub uri: String,
}

/// The mathematical value of an [`Access`].
pub struct AccessView {
    pub date: int,
    pub peer_addr: Option<IpAddress>,
    pub user_agent: Option<Seq<char>>,
    pub referer: Option<Seq<char>>,
    pub method: Seq<char>,
    pub uri: Seq<char>,
}

pub open spec fn view_of_opt_string(s: Option<String>) -> Option<Seq<char>> {
    match s {
        Some(v) => Some(v@),
        None => None,
    }
}

impl View for Access {
    type V = AccessView;

    open spec fn view(&self) -> AccessView {
        AccessView {
            date: self.date as int,
            peer_addr: self.peer_addr,
            user_agent: view_of_opt_string(self.user_agent),
            referer: view_of_opt_string(self.referer),
            method: self.method@,
            uri: self.uri@,
        }
    }
}

impl AccessView {
    /// Well-formedness: the method and the request-target are never
    /// empty, and the date fits the wire format's integer width. Views
    /// outside these bounds name no representable record, so the decoder
    /// speaks of well-formed views only.
    pub open spec fn wf(self) -> bool {
        &&& self.method.len() > 0
        &&& self.uri.len() > 0
        &&& i64::MIN <= self.date <= i64::MAX
    }
}

impl Access {
    /// Builds a record from its parts, rejecting an empty method or uri.
    pub fn new(
        date: i64,
        peer_addr: Option<IpAddress>,
        user_agent: Option<String>,
        referer: Option<String>,
        method: String,
        uri: String,
    ) -> (r: Option<Access>)
        ensures
            r matches Some(a) ==> {
                &&& a@.wf()
                &&& a@.date == date
                &&& a@.peer_addr == peer_addr
                &&& a@.user_agent == view_of_opt_string(user_agent)
                &&& a@.referer == view_of_opt_string(referer)
                &&& a@.method == method@
                &&& a@.uri == uri@
            },
            r is None <==> (method@.len() == 0 || uri@.len() == 0),
    {
        if method.as_str().unicode_len() == 0 || uri.as_str().unicode_len() == 0 {
            None
        } else {
            Some(Access { date, peer_addr, user_agent, referer, method, uri })
        }
    }
}

} // verus!
