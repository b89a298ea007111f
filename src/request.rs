//! Requests as the server receives them, parsed from the bytes of one read.

use vstd::prelude::*;

verus! {

/// How far the parser got with a buffer.
#[derive(Clone, Copy, Debug, PartialEq, Eq, Structural)]
pub enum ParseStatus {
    Complete,
    Partial,
    Invalid,
}

/// One request header: its name and its raw value.
#[derive(Debug)]
pub struct RequestHeader {
    pub name: String,
    pub value: Vec<u8>,
}

/// A request line and its headers.
#[derive(Debug)]
pub struct Request {
    pub method: String,
    pub path: String,
    pub version: u8,
    pub headers: Vec<RequestHeader>,
}

/// A request as plain values: method, path, minor version, and each header's
/// name and value.
pub type RequestView = (Seq<char>, Seq<char>, u8, Seq<(Seq<char>, Seq<u8>)>);

impl View for Request {
    type V = RequestView;

    open spec fn view(&self) -> RequestView {
        (
            self.method@,
            self.path@,
            self.version,
            self.headers@.map_values(|h: RequestHeader| (h.name@, h.value@)),
        )
    }
}

/// What the parser made of a buffer.
#[derive(Debug)]
pub enum Parsed {
    Complete(Request),
    Partial,
    Invalid,
}

/// The request of an outcome that is not complete.
pub open spec fn no_request() -> RequestView {
    (Seq::empty(), Seq::empty(), 0, Seq::empty())
}

impl View for Parsed {
    type V = (ParseStatus, RequestView);

    open spec fn view(&self) -> (ParseStatus, RequestView) {
        match self {
            Parsed::Complete(req) => (ParseStatus::Complete, req@),
            Parsed::Partial => (ParseStatus::Partial, no_request()),
            Parsed::Invalid => (ParseStatus::Invalid, no_request()),
        }
    }
}

/// What the HTTP/1.x request parser makes of these bytes, with room for at
/// most `max_headers` headers.
pub uninterp spec fn parse_of(bytes: Seq<u8>, max_headers: usize) -> (ParseStatus, RequestView);

/// Relies on `httparse::Request::parse`: `Complete` once the request line and
/// all headers are there (method, path and version are then set), `Partial`
/// while bytes are missing, an error for malformed input or more headers than
/// there are slots. The outcome depends on the bytes and the slot count alone.
#[verifier::external_body]
pub(crate) fn parse_request(bytes: &[u8], max_headers: usize) -> (r: Parsed)
    ensures
        r@ == parse_of(bytes@, max_headers),
{
    let mut slots = vec![httparse::EMPTY_HEADER; max_headers];
    let mut req = httparse::Request::new(&mut slots);
    match req.parse(bytes) {
        Ok(httparse::Status::Complete(_)) => Parsed::Complete(Request {
            method: req.method.unwrap_or_default().to_string(),
            path: req.path.unwrap_or_default().to_string(),
            version: req.version.unwrap_or_default(),
            headers: req.headers.iter().map(|h| RequestHeader { name: h.name.to_string(), value: h.value.to_vec() }).collect(),
        }),
        Ok(httparse::Status::Partial) => Parsed::Partial,
        Err(_) => Parsed::Invalid,
    }
}

} // verus!
