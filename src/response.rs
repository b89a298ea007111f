//! Building HTTP responses and laying them out on the wire.

use vstd::prelude::*;
use vstd::string::StringSliceAdditionalSpecFns;
use vstd::utf8::encode_utf8;

verus! {

/// The status codes this server answers with.
#[derive(Clone, Copy, Debug, PartialEq, Eq, Structural)]
pub enum Status {
    Okay,
    MovedPermanently,
    Found,
    SeeOther,
    TemporaryRedirect,
    PermanentRedirect,
    BadRequest,
    Unauthorized,
    Forbidden,
    NotFound,
    MethodNotAllowed,
    TooManyRequests,
    InternalServerError,
    ServiceUnavailable,
}

/// The status line text (code and reason phrase) of each status.
pub open spec fn reason(s: Status) -> &'static str {
    match s {
        Status::Okay => "200 Ok",
        Status::MovedPermanently => "301 Moved Permanently",
        Status::Found => "302 Found",
        Status::SeeOther => "303 See Other",
        Status::TemporaryRedirect => "307 Temporary Redirect",
        Status::PermanentRedirect => "308 Permanent Redirect",
        Status::BadRequest => "400 Bad Request",
        Status::Unauthorized => "401 Unauthorized",
        Status::Forbidden => "403 Forbidden",
        Status::NotFound => "404 Not Found",
        Status::MethodNotAllowed => "405 Method Not Allowed",
        Status::TooManyRequests => "429 Too Many Requests",
        Status::InternalServerError => "500 Internal Server Error",
        Status::ServiceUnavailable => "503 Service Unavailable",
    }
}

impl Status {
    pub fn as_str(&self) -> (r: &'static str)
        ensures
            r == reason(*self),
    {
        match *self {
            Status::Okay => "200 Ok",
            Status::MovedPermanently => "301 Moved Permanently",
            Status::Found => "302 Found",
            Status::SeeOther => "303 See Other",
            Status::TemporaryRedirect => "307 Temporary Redirect",
            Status::PermanentRedirect => "308 Permanent Redirect",
            Status::BadRequest => "400 Bad Request",
            Status::Unauthorized => "401 Unauthorized",
            Status::Forbidden => "403 Forbidden",
            Status::NotFound => "404 Not Found",
            Status::MethodNotAllowed => "405 Method Not Allowed",
            Status::TooManyRequests => "429 Too Many Requests",
            Status::InternalServerError => "500 Internal Server Error",
            Status::ServiceUnavailable => "503 Service Unavailable",
        }
    }
}


/// The lower-case form of a text, as the standard library's Unicode case
/// mapping gives it.
pub uninterp spec fn lower_of(s: Seq<char>) -> Seq<char>;

/// Relies on `str::to_lowercase`: the result depends on the characters alone.
#[verifier::external_body]
fn lowercase(s: &str) -> (r: String)
    ensures
        r@ == lower_of(s@),
{
    s.to_lowercase()
}

/// Two header names that are the same without regard to case.
pub open spec fn same_name(a: Seq<char>, b: Seq<char>) -> bool {
    lower_of(a) == lower_of(b)
}

/// The decimal digits of `n`, most significant first, without leading zeros.
pub open spec fn decimal(n: nat) -> Seq<u8>
    decreases n,
{
    if n < 10 {
        seq![(48 + n) as u8]
    } else {
        decimal(n / 10).push((48 + n % 10) as u8)
    }
}

/// A header line: its name and its value, as bytes.
#[derive(Debug)]
pub struct Header(pub &'static str, pub Vec<u8>);

impl View for Header {
    type V = (Seq<char>, Seq<u8>);

    open spec fn view(&self) -> (Seq<char>, Seq<u8>) {
        (self.0@, self.1@)
    }
}

/// The headers of a list, each as (name, value bytes).
pub open spec fn headers_view(hs: Seq<Header>) -> Seq<(Seq<char>, Seq<u8>)> {
    hs.map_values(|h: Header| h@)
}

/// Whether a header named `name` (compared without regard to case) is in `hs`.
pub open spec fn has_header(hs: Seq<(Seq<char>, Seq<u8>)>, name: Seq<char>) -> bool {
    exists|i: int| 0 <= i < hs.len() && same_name(#[trigger] hs[i].0, name)
}

/// The name of the header that gives the body's length.
pub open spec fn content_length() -> Seq<char> {
    "Content-Length"@
}

/// The headers that go on the wire: those given, and a Content-Length with the
/// body's length where none was given.
pub open spec fn wire_headers(hs: Seq<(Seq<char>, Seq<u8>)>, body_len: nat) -> Seq<(Seq<char>, Seq<u8>)> {
    if has_header(hs, content_length()) {
        hs
    } else {
        hs.push((content_length(), decimal(body_len)))
    }
}

/// Each header laid out as CRLF, name, colon and space, value.
pub open spec fn header_lines(hs: Seq<(Seq<char>, Seq<u8>)>) -> Seq<u8>
    decreases hs.len(),
{
    if hs.len() == 0 {
        Seq::empty()
    } else {
        header_lines(hs.drop_last()) + "\r\n".spec_bytes() + encode_utf8(hs.last().0) + ": ".spec_bytes()
            + hs.last().1
    }
}

/// The bytes of a response with these parts, exactly as sent.
pub open spec fn wire(status: Status, hs: Seq<(Seq<char>, Seq<u8>)>, body: Seq<u8>) -> Seq<u8> {
    "HTTP/1.1 ".spec_bytes() + reason(status).spec_bytes() + header_lines(
        wire_headers(hs, body.len()),
    ) + "\r\n\r\n".spec_bytes() + body
}

/// Appends the bytes of `src` to `out`.
fn push_all(out: &mut Vec<u8>, src: &[u8])
    ensures
        final(out)@ == old(out)@ + src@,
{
    let mut i: usize = 0;
    while i < src.len()
        invariant
            0 <= i <= src@.len(),
            out@ == old(out)@ + src@.subrange(0, i as int),
        decreases src@.len() - i,
    {
        out.push(src[i]);
        i = i + 1;
        proof {
            assert(src@.subrange(0, i as int) == src@.subrange(0, i - 1).push(src@[i - 1]));
        }
    }
    assert(src@.subrange(0, src@.len() as int) == src@);
}

/// Appends the decimal digits of `n` to `out`.
fn push_decimal(n: usize, out: &mut Vec<u8>)
    ensures
        final(out)@ == old(out)@ + decimal(n as nat),
    decreases n,
{
    if n >= 10 {
        push_decimal(n / 10, out);
    }
    out.push((48 + n % 10) as u8);
    proof {
        if n >= 10 {
            assert(old(out)@ + decimal(n as nat) == old(out)@ + decimal((n / 10) as nat) + seq![(48 + n % 10) as u8]);
        }
    }
}

/// Copies the bytes of a string into a new vector.
fn bytes_of(s: &str) -> (r: Vec<u8>)
    ensures
        r@ == s.spec_bytes(),
{
    let mut r: Vec<u8> = Vec::new();
    push_all(&mut r, s.as_bytes());
    r
}

/// A finished response, ready to be sent.
#[derive(Debug)]
pub struct Response {
    pub status: Status,
    pub headers: Vec<Header>,
    pub body: Vec<u8>,
}

impl Response {
    /// The bytes this response puts on the wire.
    pub open spec fn spec_wire(&self) -> Seq<u8> {
        wire(self.status, headers_view(self.headers@), self.body@)
    }

    /// Whether a header of this name is present, without regard to case.
    pub fn contains_header(&self, name: &str) -> (r: bool)
        ensures
            r == has_header(headers_view(self.headers@), name@),
    {
        let ghost hs = headers_view(self.headers@);
        let target = lowercase(name);
        let mut i: usize = 0;
        while i < self.headers.len()
            invariant
                0 <= i <= self.headers@.len(),
                hs == headers_view(self.headers@),
                target@ == lower_of(name@),
                forall|j: int| 0 <= j < i ==> !same_name(#[trigger] hs[j].0, name@),
            decreases self.headers@.len() - i,
        {
            let candidate = lowercase(self.headers[i].0);
            if candidate == target {
                assert(same_name(hs[i as int].0, name@));
                return true;
            }
            i = i + 1;
        }
        false
    }

    /// Adds a Content-Length header with the body's length, unless one is present.
    pub fn add_basic_headers(&mut self)
        ensures
            final(self).status == old(self).status,
            final(self).body@ == old(self).body@,
            headers_view(final(self).headers@) == wire_headers(
                headers_view(old(self).headers@),
                old(self).body@.len(),
            ),
    {
        if !self.contains_header("Content-Length") {
            let mut value: Vec<u8> = Vec::new();
            push_decimal(self.body.len(), &mut value);
            self.headers.push(Header("Content-Length", value));
            assert(headers_view(self.headers@) =~= headers_view(old(self).headers@).push(
                (content_length(), decimal(old(self).body@.len())),
            ));
        } else {
            assert(headers_view(self.headers@) =~= headers_view(old(self).headers@));
        }
    }

    /// The number of bytes of the response with its headers as they stand,
    /// or `usize::MAX` where that does not fit.
    pub fn calculate_size(&self) -> (r: usize)
        ensures
            r == if wire_len(self) <= usize::MAX { wire_len(self) } else { usize::MAX as int },
    {
        let ghost hs = headers_view(self.headers@);
        let mut total: usize = sat_add("HTTP/1.1 ".as_bytes().len(), self.status.as_str().as_bytes().len());
        let mut i: usize = 0;
        assert(header_lines(hs.subrange(0, 0)) =~= Seq::<u8>::empty());
        while i < self.headers.len()
            invariant
                0 <= i <= self.headers@.len(),
                hs == headers_view(self.headers@),
                total == sat(prefix_len(self.status) + header_lines(hs.subrange(0, i as int)).len()),
            decreases self.headers@.len() - i,
        {
            let h = &self.headers[i];
            total = sat_add(total, "\r\n".as_bytes().len());
            total = sat_add(total, h.0.as_bytes().len());
            total = sat_add(total, ": ".as_bytes().len());
            total = sat_add(total, h.1.len());
            proof {
                let pre = hs.subrange(0, i as int);
                let next = hs.subrange(0, i + 1);
                assert(next.drop_last() =~= pre);
                assert(next.last() == hs[i as int]);
                assert(hs[i as int] == h@);
                assert(header_lines(next).len() == header_lines(pre).len() + "\r\n".spec_bytes().len()
                    + h.0.spec_bytes().len() + ": ".spec_bytes().len() + h.1@.len());
            }
            i = i + 1;
        }
        assert(hs.subrange(0, hs.len() as int) =~= hs);
        total = sat_add(total, "\r\n\r\n".as_bytes().len());
        total = sat_add(total, self.body.len());
        total
    }

    /// The header lines of the response as they stand, each led by CRLF.
    pub fn collect_headers(&self) -> (r: Vec<u8>)
        ensures
            r@ == header_lines(headers_view(self.headers@)),
    {
        let ghost hs = headers_view(self.headers@);
        let mut out: Vec<u8> = Vec::new();
        let mut i: usize = 0;
        while i < self.headers.len()
            invariant
                0 <= i <= self.headers@.len(),
                hs == headers_view(self.headers@),
                out@ == header_lines(hs.subrange(0, i as int)),
            decreases self.headers@.len() - i,
        {
            let h = &self.headers[i];
            push_all(&mut out, "\r\n".as_bytes());
            push_all(&mut out, h.0.as_bytes());
            push_all(&mut out, ": ".as_bytes());
            push_all(&mut out, h.1.as_slice());
            proof {
                let pre = hs.subrange(0, i as int);
                let next = hs.subrange(0, i + 1);
                assert(next.drop_last() =~= pre);
                assert(next.last() == hs[i as int]);
            }
            i = i + 1;
        }
        assert(hs.subrange(0, hs.len() as int) =~= hs);
        out
    }

    /// A response with no headers and the given text as its body.
    pub fn text(status: Status, body: &str) -> (r: Response)
        ensures
            r.status == status,
            r.headers@.len() == 0,
            r.body@ == body.spec_bytes(),
    {
        Response { status, headers: Vec::new(), body: bytes_of(body) }
    }

    /// The bytes of the response as sent: the status line, the headers (with a
    /// Content-Length added where none was given), a blank line and the body.
    pub fn try_into_bytes(self) -> (r: Vec<u8>)
        ensures
            r@ == self.spec_wire(),
    {
        let mut full = self;
        full.add_basic_headers();
        let mut res: Vec<u8> = Vec::with_capacity(full.calculate_size());
        push_all(&mut res, "HTTP/1.1 ".as_bytes());
        push_all(&mut res, full.status.as_str().as_bytes());
        let headers = full.collect_headers();
        push_all(&mut res, headers.as_slice());
        push_all(&mut res, "\r\n\r\n".as_bytes());
        push_all(&mut res, full.body.as_slice());
        res
    }
}

/// Length of the status line, "HTTP/1.1 " and the status text.
pub open spec fn prefix_len(s: Status) -> int {
    ("HTTP/1.1 ".spec_bytes().len() + reason(s).spec_bytes().len()) as int
}

/// Length of a response's bytes with its headers as they stand.
pub open spec fn wire_len(r: &Response) -> int {
    prefix_len(r.status) + header_lines(headers_view(r.headers@)).len()
        + "\r\n\r\n".spec_bytes().len() + r.body@.len()
}

/// An integer cut off at `usize::MAX`.
pub open spec fn sat(n: int) -> int {
    if n <= usize::MAX {
        n
    } else {
        usize::MAX as int
    }
}

fn sat_add(a: usize, b: usize) -> (r: usize)
    ensures
        r == sat(a + b),
{
    a.saturating_add(b)
}

/// Header names that differ pairwise without regard to case.
pub open spec fn names_unique(hs: Seq<(Seq<char>, Seq<u8>)>) -> bool {
    forall|i: int, j: int|
        0 <= i < hs.len() && 0 <= j < hs.len() && #[trigger] same_name(hs[i].0, hs[j].0) ==> i == j
}

/// The position of the first header with this name, without regard to case
/// (meaningful where there is one).
pub open spec fn header_index(hs: Seq<(Seq<char>, Seq<u8>)>, name: Seq<char>) -> int {
    choose|i: int|
        0 <= i < hs.len() && same_name(#[trigger] hs[i].0, name) && forall|j: int|
            0 <= j < i ==> !same_name(#[trigger] hs[j].0, name)
}

/// The headers after setting one: the first of the same name is replaced,
/// or the header is appended where there is none.
pub open spec fn with_header(hs: Seq<(Seq<char>, Seq<u8>)>, name: Seq<char>, value: Seq<u8>) -> Seq<
    (Seq<char>, Seq<u8>),
> {
    if has_header(hs, name) {
        hs.update(header_index(hs, name), (name, value))
    } else {
        hs.push((name, value))
    }
}

/// Builds a response step by step; `build` hands out the finished value.
pub struct Builder {
    status: Status,
    headers: Vec<Header>,
    body: Vec<u8>,
}

impl View for Builder {
    type V = (Status, Seq<(Seq<char>, Seq<u8>)>, Seq<u8>);

    closed spec fn view(&self) -> (Status, Seq<(Seq<char>, Seq<u8>)>, Seq<u8>) {
        (self.status, headers_view(self.headers@), self.body@)
    }
}

impl Builder {
    /// A builder with this status, no headers and an empty body.
    pub fn with_status(status: Status) -> (r: Builder)
        ensures
            r@ == (status, Seq::<(Seq<char>, Seq<u8>)>::empty(), Seq::<u8>::empty()),
            names_unique(r@.1),
    {
        let r = Builder { status, headers: Vec::new(), body: Vec::new() };
        assert(headers_view(r.headers@) =~= Seq::<(Seq<char>, Seq<u8>)>::empty());
        r
    }

    /// Sets a header: where one of the same name (without regard to case) is
    /// present, the first such one is replaced in place; otherwise the header
    /// is appended.
    pub fn add_header(self, name: &'static str, value: &str) -> (r: Builder)
        ensures
            r@ == (self@.0, with_header(self@.1, name@, value.spec_bytes()), self@.2),
            names_unique(self@.1) ==> names_unique(r@.1),
    {
        let ghost hs = self@.1;
        let mut b = self;
        let target = lowercase(name);
        let mut i: usize = 0;
        let mut found = false;
        while !found && i < b.headers.len()
            invariant
                0 <= i <= b.headers@.len(),
                hs == headers_view(b.headers@),
                target@ == lower_of(name@),
                found ==> i < b.headers@.len() && same_name(hs[i as int].0, name@),
                forall|j: int| 0 <= j < i ==> !same_name(#[trigger] hs[j].0, name@),
            decreases b.headers@.len() - i + if found { 0int } else { 1int },
        {
            let candidate = lowercase(b.headers[i].0);
            if candidate == target {
                found = true;
            } else {
                i = i + 1;
            }
        }
        if found {
            b.headers.set(i, Header(name, bytes_of(value)));
            proof {
                let k = header_index(hs, name@);
                assert(same_name(hs[i as int].0, name@));
                assert(k == i) by {
                    if k < i {
                        assert(!same_name(hs[k].0, name@));
                    } else if k > i {
                        assert(!same_name(hs[i as int].0, name@));
                    }
                }
                assert(headers_view(b.headers@) =~= hs.update(
                    i as int,
                    (name@, value.spec_bytes()),
                ));
            }
        } else {
            b.headers.push(Header(name, bytes_of(value)));
            assert(headers_view(b.headers@) =~= hs.push((name@, value.spec_bytes())));
        }
        proof {
            let r = headers_view(b.headers@);
            if names_unique(hs) {
                assert forall|x: int, y: int|
                    0 <= x < r.len() && 0 <= y < r.len() && #[trigger] same_name(r[x].0, r[y].0)
                        implies x == y by {
                    if found {
                        if x != i && y != i {
                            assert(same_name(hs[x].0, hs[y].0));
                        } else if x == i && y != i {
                            assert(same_name(hs[i as int].0, hs[y].0));
                        } else if y == i && x != i {
                            assert(same_name(hs[x].0, hs[i as int].0));
                        }
                    } else {
                        if x < hs.len() && y < hs.len() {
                            assert(same_name(hs[x].0, hs[y].0));
                        } else if x < hs.len() {
                            assert(!same_name(hs[x].0, name@));
                        } else if y < hs.len() {
                            assert(!same_name(hs[y].0, name@));
                        }
                    }
                }
            }
        }
        b
    }

    /// Replaces the body.
    pub fn set_body(self, body: Vec<u8>) -> (r: Builder)
        ensures
            r@ == (self@.0, self@.1, body@),
    {
        let mut b = self;
        b.body = body;
        b
    }

    /// The finished response, with the status, headers and body gathered so far.
    pub fn build(self) -> (r: Response)
        ensures
            r.status == self@.0,
            headers_view(r.headers@) == self@.1,
            r.body@ == self@.2,
    {
        Response { status: self.status, headers: self.headers, body: self.body }
    }
}

/// The media type served for a file name extension, given as bytes.
pub open spec fn mime_of(ext: Seq<u8>) -> Option<&'static str> {
    if ext == "aac".spec_bytes() { Some("audio/aac") }
    else if ext == "apng".spec_bytes() { Some("image/apng") }
    else if ext == "avif".spec_bytes() { Some("image/avif") }
    else if ext == "bin".spec_bytes() { Some("application/octet-stream") }
    else if ext == "bmp".spec_bytes() { Some("image/bmp") }
    else if ext == "css".spec_bytes() { Some("text/css") }
    else if ext == "csv".spec_bytes() { Some("text/csv") }
    else if ext == "gif".spec_bytes() { Some("image/gif") }
    else if ext == "htm".spec_bytes() || ext == "html".spec_bytes() { Some("text/html") }
    else if ext == "ico".spec_bytes() { Some("image/x-icon") }
    else if ext == "jpg".spec_bytes() || ext == "jpeg".spec_bytes() { Some("image/jpeg") }
    else if ext == "js".spec_bytes() || ext == "mjs".spec_bytes() { Some("text/javascript") }
    else if ext == "json".spec_bytes() { Some("application/json") }
    else if ext == "m4a".spec_bytes() { Some("audio/mp4") }
    else if ext == "mp3".spec_bytes() { Some("audio/mp3") }
    else if ext == "mp4".spec_bytes() { Some("video/mp4") }
    else if ext == "mpeg".spec_bytes() { Some("video/mpeg") }
    else if ext == "oga".spec_bytes() { Some("audio/ogg") }
    else if ext == "ogv".spec_bytes() { Some("video/ogg") }
    else if ext == "ogx".spec_bytes() { Some("application/ogg") }
    else if ext == "opus".spec_bytes() { Some("audio/ogg") }
    else if ext == "otf".spec_bytes() { Some("font/otf") }
    else if ext == "png".spec_bytes() { Some("image/png") }
    else if ext == "pdf".spec_bytes() { Some("application/pdf") }
    else if ext == "svg".spec_bytes() { Some("image/svg+xml") }
    else if ext == "tif".spec_bytes() || ext == "tiff".spec_bytes() { Some("image/tiff") }
    else if ext == "ttf".spec_bytes() { Some("font/ttf") }
    else if ext == "txt".spec_bytes() { Some("text/plain") }
    else if ext == "wav".spec_bytes() { Some("audio/wav") }
    else if ext == "weba".spec_bytes() { Some("audio/webm") }
    else if ext == "webm".spec_bytes() { Some("video/webm") }
    else if ext == "webp".spec_bytes() { Some("image/webp") }
    else if ext == "woff".spec_bytes() { Some("font/woff") }
    else if ext == "woff2".spec_bytes() { Some("font/woff2") }
    else if ext == "xml".spec_bytes() { Some("text/xml") }
    else if ext == "zip".spec_bytes() { Some("application/zip") }
    else { None }
}

/// Compares two byte strings.
fn bytes_eq(a: &[u8], b: &[u8]) -> (r: bool)
    ensures
        r == (a@ == b@),
{
    if a.len() != b.len() {
        return false;
    }
    let mut i: usize = 0;
    while i < a.len()
        invariant
            0 <= i <= a@.len(),
            a@.len() == b@.len(),
            forall|j: int| 0 <= j < i ==> #[trigger] a@[j] == b@[j],
        decreases a@.len() - i,
    {
        if a[i] != b[i] {
            return false;
        }
        i = i + 1;
    }
    assert(a@ =~= b@);
    true
}

/// The media type served for a file name extension (without the dot).
pub fn mime_from_extension(ext: &str) -> (r: Option<&'static str>)
    ensures
        r == mime_of(ext.spec_bytes()),
{
    let e = ext.as_bytes();
    if bytes_eq(e, "aac".as_bytes()) { Some("audio/aac") }
    else if bytes_eq(e, "apng".as_bytes()) { Some("image/apng") }
    else if bytes_eq(e, "avif".as_bytes()) { Some("image/avif") }
    else if bytes_eq(e, "bin".as_bytes()) { Some("application/octet-stream") }
    else if bytes_eq(e, "bmp".as_bytes()) { Some("image/bmp") }
    else if bytes_eq(e, "css".as_bytes()) { Some("text/css") }
    else if bytes_eq(e, "csv".as_bytes()) { Some("text/csv") }
    else if bytes_eq(e, "gif".as_bytes()) { Some("image/gif") }
    else if bytes_eq(e, "htm".as_bytes()) || bytes_eq(e, "html".as_bytes()) { Some("text/html") }
    else if bytes_eq(e, "ico".as_bytes()) { Some("image/x-icon") }
    else if bytes_eq(e, "jpg".as_bytes()) || bytes_eq(e, "jpeg".as_bytes()) { Some("image/jpeg") }
    else if bytes_eq(e, "js".as_bytes()) || bytes_eq(e, "mjs".as_bytes()) { Some("text/javascript") }
    else if bytes_eq(e, "json".as_bytes()) { Some("application/json") }
    else if bytes_eq(e, "m4a".as_bytes()) { Some("audio/mp4") }
    else if bytes_eq(e, "mp3".as_bytes()) { Some("audio/mp3") }
    else if bytes_eq(e, "mp4".as_bytes()) { Some("video/mp4") }
    else if bytes_eq(e, "mpeg".as_bytes()) { Some("video/mpeg") }
    else if bytes_eq(e, "oga".as_bytes()) { Some("audio/ogg") }
    else if bytes_eq(e, "ogv".as_bytes()) { Some("video/ogg") }
    else if bytes_eq(e, "ogx".as_bytes()) { Some("application/ogg") }
    else if bytes_eq(e, "opus".as_bytes()) { Some("audio/ogg") }
    else if bytes_eq(e, "otf".as_bytes()) { Some("font/otf") }
    else if bytes_eq(e, "png".as_bytes()) { Some("image/png") }
    else if bytes_eq(e, "pdf".as_bytes()) { Some("application/pdf") }
    else if bytes_eq(e, "svg".as_bytes()) { Some("image/svg+xml") }
    else if bytes_eq(e, "tif".as_bytes()) || bytes_eq(e, "tiff".as_bytes()) { Some("image/tiff") }
    else if bytes_eq(e, "ttf".as_bytes()) { Some("font/ttf") }
    else if bytes_eq(e, "txt".as_bytes()) { Some("text/plain") }
    else if bytes_eq(e, "wav".as_bytes()) { Some("audio/wav") }
    else if bytes_eq(e, "weba".as_bytes()) { Some("audio/webm") }
    else if bytes_eq(e, "webm".as_bytes()) { Some("video/webm") }
    else if bytes_eq(e, "webp".as_bytes()) { Some("image/webp") }
    else if bytes_eq(e, "woff".as_bytes()) { Some("font/woff") }
    else if bytes_eq(e, "woff2".as_bytes()) { Some("font/woff2") }
    else if bytes_eq(e, "xml".as_bytes()) { Some("text/xml") }
    else if bytes_eq(e, "zip".as_bytes()) { Some("application/zip") }
    else { None }
}

/// The extension of the file name that ends a path, as the standard library's
/// path type finds it.
pub uninterp spec fn extension_of(path: Seq<char>) -> Option<Seq<char>>;

/// Relies on `std::path::Path::extension`: the text after the last dot of the
/// final file name, or nothing where that name has no dot, starts with its only
/// dot, or is missing. Converting back with `to_str` cannot fail on a path that
/// came from a `&str`.
#[verifier::external_body]
fn path_extension(path: &str) -> (r: Option<String>)
    ensures
        r is Some <==> extension_of(path@) is Some,
        r is Some ==> r->0@ == extension_of(path@)->0,
{
    match std::path::Path::new(path).extension() {
        Some(e) => e.to_str().map(String::from),
        None => None,
    }
}

/// The media type for a path, decided by the extension of its file name.
pub fn mime_from_path(path: &str) -> (r: Option<&'static str>)
    ensures
        r == match extension_of(path@) {
            Some(e) => mime_of(vstd::utf8::encode_utf8(e)),
            None => None,
        },
{
    match path_extension(path) {
        Some(e) => mime_from_extension(e.as_str()),
        None => None,
    }
}

/// A response that carries no Content-Length header of its own is sent with
/// one more header line, `Content-Length: <body length in decimal>`, after the
/// headers it was given and before the blank line that ends them.
pub proof fn lemma_length_added(r: Response)
    requires
        !has_header(headers_view(r.headers@), content_length()),
    ensures
        r.spec_wire() == "HTTP/1.1 ".spec_bytes() + reason(r.status).spec_bytes() + header_lines(
            headers_view(r.headers@),
        ) + "\r\n".spec_bytes() + "Content-Length".spec_bytes() + ": ".spec_bytes() + decimal(
            r.body@.len(),
        ) + "\r\n\r\n".spec_bytes() + r.body@,
{
    let hs = headers_view(r.headers@);
    let full = hs.push((content_length(), decimal(r.body@.len())));
    assert(full.drop_last() =~= hs);
}

/// A response that already carries a Content-Length header, whatever the case
/// of its name, is sent with exactly the headers it was given: no second one is
/// added.
pub proof fn lemma_given_length_kept(r: Response)
    requires
        has_header(headers_view(r.headers@), content_length()),
    ensures
        wire_headers(headers_view(r.headers@), r.body@.len()) == headers_view(r.headers@),
        r.spec_wire() == "HTTP/1.1 ".spec_bytes() + reason(r.status).spec_bytes() + header_lines(
            headers_view(r.headers@),
        ) + "\r\n\r\n".spec_bytes() + r.body@,
{
}

} // verus!
