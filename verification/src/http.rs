//! HTTP requests and responses: the request parser, the response's head as
//! it is sent, and the accessors the server and its applications use.
use vstd::prelude::*;
use vstd::string::StringExecFns;

use crate::headers::{entries_insert, HeaderEntries, HeaderMap};
use crate::text::{
    ascii_lower, chars_of, decode_lossy, find_char, first_index, has_char, is_whitespace,
    line_ranges, lines_of, lowercase, range_views, split_on, split_ranges, substring,
    to_lowercase, trim, trim_end, trim_range, trim_start, utf8_lossy,
};
use crate::url_text::{join_url, parse_url, url_join, url_parse, UrlParseError};

verus! {

// ---------------------------------------------------------------------------
// Status codes
// ---------------------------------------------------------------------------

/// The status of a response.
#[derive(Clone, Copy, Debug, PartialEq, Eq, Structural)]
pub enum StatusCode {
    OK,
}

/// The number of a status.
pub open spec fn status_number(s: StatusCode) -> u32 {
    match s {
        StatusCode::OK => 200,
    }
}

/// The reason phrase of a status.
pub open spec fn status_reason(s: StatusCode) -> Seq<char> {
    match s {
        StatusCode::OK => "OK"@,
    }
}

impl StatusCode {
    /// The status's number.
    pub fn code(self) -> (n: u32)
        ensures
            n == status_number(self),
    {
        match self {
            StatusCode::OK => 200,
        }
    }

    /// The status's reason phrase.
    pub fn description(self) -> (d: &'static str)
        ensures
            d@ == status_reason(self),
    {
        match self {
            StatusCode::OK => "OK",
        }
    }
}

// ---------------------------------------------------------------------------
// Requests
// ---------------------------------------------------------------------------

/// What a request holds: its request line's three parts and its headers.
pub struct RequestView {
    pub method: Seq<char>,
    pub uri: Seq<char>,
    pub http_version: Seq<char>,
    pub headers: Map<Seq<char>, Seq<char>>,
}

/// The request with nothing in it.
pub open spec fn empty_request() -> RequestView {
    RequestView {
        method: Seq::empty(),
        uri: Seq::empty(),
        http_version: Seq::empty(),
        headers: Map::empty(),
    }
}

/// An HTTP request.
pub struct Request {
    method: String,
    uri: String,
    http_version: String,
    headers: HeaderMap,
}

impl View for Request {
    type V = RequestView;

    closed spec fn view(&self) -> RequestView {
        RequestView {
            method: self.method@,
            uri: self.uri@,
            http_version: self.http_version@,
            headers: self.headers.map(),
        }
    }
}

/// What `Request::url` builds from a request: `http://` and the `host`
/// header, parsed, with the request's URI joined onto it; without a `host`
/// header, `EmptyHost`.
pub open spec fn request_url(r: RequestView) -> Result<Seq<char>, UrlParseError> {
    if !r.headers.contains_key("host"@) {
        Err(UrlParseError::EmptyHost)
    } else {
        match url_parse("http://"@ + r.headers["host"@]) {
            Err(e) => Err(e),
            Ok(base) => url_join(base, r.uri),
        }
    }
}

impl Request {
    /// A request with empty request line and no headers.
    pub fn empty() -> (r: Request)
        ensures
            r@ == empty_request(),
    {
        Request {
            method: String::new(),
            uri: String::new(),
            http_version: String::new(),
            headers: HeaderMap::new(),
        }
    }

    /// The protocol version from the request line.
    pub fn http_version(&self) -> (v: &str)
        ensures
            v@ == self@.http_version,
    {
        self.http_version.as_str()
    }

    /// The method from the request line.
    pub fn method(&self) -> (m: &str)
        ensures
            m@ == self@.method,
    {
        self.method.as_str()
    }

    /// The URI from the request line.
    pub fn uri(&self) -> (u: &str)
        ensures
            u@ == self@.uri,
    {
        self.uri.as_str()
    }

    /// The value of the header named `key`, if there is one.
    pub fn header(&self, key: &str) -> (v: Option<&str>)
        ensures
            match v {
                Some(v) => self@.headers.contains_key(key@) && v@ == self@.headers[key@],
                None => !self@.headers.contains_key(key@),
            },
    {
        match self.headers.get(key) {
            Some(v) => Some(v.as_str()),
            None => None,
        }
    }

    /// Sets the header named `key` to `value`, and gives back the value it
    /// replaced, if there was one.
    pub fn set_header(&mut self, key: &str, value: String) -> (r: Option<String>)
        ensures
            final(self)@ == (RequestView {
                headers: old(self)@.headers.insert(key@, value@),
                ..old(self)@
            }),
            match r {
                Some(v) => old(self)@.headers.contains_key(key@) && v@ == old(self)@.headers[key@],
                None => !old(self)@.headers.contains_key(key@),
            },
    {
        self.headers.insert(key.to_owned(), value)
    }

    /// The URL the request asks for: its URI joined onto `http://` and its
    /// `host` header, as the serialization of the URL that the `url` crate
    /// builds, or the kind of the error it gives. Without a `host` header the
    /// error is `EmptyHost`.
    pub fn url(&self) -> (r: Result<String, UrlParseError>)
        ensures
            match r {
                Ok(u) => request_url(self@) == Ok::<Seq<char>, UrlParseError>(u@),
                Err(e) => request_url(self@) == Err::<Seq<char>, UrlParseError>(e),
            },
    {
        match self.header("host") {
            None => Err(UrlParseError::EmptyHost),
            Some(host) => {
                let mut base = String::from_str("http://");
                base.append(host);
                let parsed = parse_url(base.as_str())?;
                join_url(parsed.as_str(), self.uri.as_str())
            },
        }
    }
}

// ---------------------------------------------------------------------------
// Responses
// ---------------------------------------------------------------------------

/// What a response holds: its status, its header fields in order, its body.
pub struct ResponseView {
    pub status_code: StatusCode,
    pub headers: HeaderEntries,
    pub body: Seq<u8>,
}

/// An HTTP response.
pub struct Response {
    status_code: StatusCode,
    headers: HeaderMap,
    body: Vec<u8>,
}

impl View for Response {
    type V = ResponseView;

    closed spec fn view(&self) -> ResponseView {
        ResponseView { status_code: self.status_code, headers: self.headers@, body: self.body@ }
    }
}

impl Response {
    /// A response with the given status, no headers and an empty body.
    pub fn with_status_code(status_code: StatusCode) -> (r: Response)
        ensures
            r@.status_code == status_code,
            r@.headers == Seq::<(Seq<char>, Seq<char>)>::empty(),
            r@.body == Seq::<u8>::empty(),
    {
        Response { status_code, headers: HeaderMap::new(), body: Vec::new() }
    }

    /// A `200 OK` response with no headers and an empty body.
    pub fn ok() -> (r: Response)
        ensures
            r@.status_code == StatusCode::OK,
            r@.headers == Seq::<(Seq<char>, Seq<char>)>::empty(),
            r@.body == Seq::<u8>::empty(),
    {
        Self::with_status_code(StatusCode::OK)
    }

    /// The response's status.
    pub fn status_code(&self) -> (s: StatusCode)
        ensures
            s == self@.status_code,
    {
        self.status_code
    }

    /// Sets the header named `key` to `value`, and gives back the value it
    /// replaced, if there was one.
    pub fn set_header(&mut self, key: &str, value: String) -> (r: Option<String>)
        ensures
            final(self)@ == (ResponseView {
                headers: entries_insert(old(self)@.headers, key@, value@),
                ..old(self)@
            }),
            match r {
                Some(v) => crate::headers::map_of(old(self)@.headers).contains_key(key@) && v@
                    == crate::headers::map_of(old(self)@.headers)[key@],
                None => !crate::headers::map_of(old(self)@.headers).contains_key(key@),
            },
    {
        self.headers.insert(key.to_owned(), value)
    }

    /// The response's header fields.
    pub fn headers(&self) -> (h: &HeaderMap)
        ensures
            h@ == self@.headers,
    {
        &self.headers
    }

    /// The response's body.
    pub fn body(&self) -> (b: &[u8])
        ensures
            b@ == self@.body,
    {
        self.body.as_slice()
    }

    /// The length of the response's body.
    pub fn body_len(&self) -> (n: usize)
        ensures
            n == self@.body.len(),
    {
        self.body().len()
    }

    /// Appends `bytes` to the body.
    pub fn extend(&mut self, bytes: &[u8])
        ensures
            final(self)@ == (ResponseView { body: old(self)@.body + bytes@, ..old(self)@ }),
    {
        let ghost old_body = self.body@;
        self.body.extend_from_slice(bytes);
        assert(self.body@ =~= old_body + bytes@);
    }
}


// ---------------------------------------------------------------------------
// The head of a response as it is sent
// ---------------------------------------------------------------------------

/// The decimal digit `d` as a character.
pub open spec fn digit_char(d: nat) -> char {
    ((d + 48) as u32) as char
}

/// The decimal representation of `n`, without leading zeros.
pub open spec fn decimal(n: nat) -> Seq<char>
    decreases n,
{
    if n < 10 {
        seq![digit_char(n)]
    } else {
        decimal(n / 10).push(digit_char(n % 10))
    }
}

/// The header lines `name: value\r\n` of the fields `h`, in order.
pub open spec fn header_lines(h: HeaderEntries) -> Seq<char>
    decreases h.len(),
{
    if h.len() == 0 {
        Seq::empty()
    } else {
        header_lines(h.drop_last()) + h.last().0 + ": "@ + h.last().1 + "\r\n"@
    }
}

/// The head of a response as it is sent: the status line, one line per
/// header field, and an empty line, each ended by CRLF.
pub open spec fn head_text(r: ResponseView) -> Seq<char> {
    "HTTP/1.1 "@ + decimal(status_number(r.status_code) as nat) + " "@ + status_reason(r.status_code)
        + "\r\n"@ + header_lines(r.headers) + "\r\n"@
}

/// The one-character string of the digit `d`.
fn digit_str(d: u32) -> (s: &'static str)
    requires
        d < 10,
    ensures
        s@ == seq![digit_char(d as nat)],
{
    proof {
        reveal_strlit("0");
        reveal_strlit("1");
        reveal_strlit("2");
        reveal_strlit("3");
        reveal_strlit("4");
        reveal_strlit("5");
        reveal_strlit("6");
        reveal_strlit("7");
        reveal_strlit("8");
        reveal_strlit("9");
    }
    let s = if d == 0 {
        "0"
    } else if d == 1 {
        "1"
    } else if d == 2 {
        "2"
    } else if d == 3 {
        "3"
    } else if d == 4 {
        "4"
    } else if d == 5 {
        "5"
    } else if d == 6 {
        "6"
    } else if d == 7 {
        "7"
    } else if d == 8 {
        "8"
    } else {
        "9"
    };
    assert(s@ =~= seq![digit_char(d as nat)]);
    s
}

/// Appends the decimal representation of `n` to `s`.
fn append_decimal(s: &mut String, n: u32)
    ensures
        final(s)@ == old(s)@ + decimal(n as nat),
    decreases n,
{
    if n >= 10 {
        append_decimal(s, n / 10);
    }
    s.append(digit_str(n % 10));
    assert(decimal(n as nat) == if n < 10 {
        seq![digit_char(n as nat)]
    } else {
        decimal((n / 10) as nat).push(digit_char((n % 10) as nat))
    });
}

impl Response {
    /// The head of the response as it is sent before the body: the status
    /// line `HTTP/1.1 <code> <reason>`, one `name: value` line per header
    /// field in order, and an empty line, each ended by CRLF.
    pub fn head(&self) -> (t: String)
        ensures
            t@ == head_text(self@),
    {
        let mut t = String::from_str("HTTP/1.1 ");
        append_decimal(&mut t, self.status_code.code());
        t.append(" ");
        t.append(self.status_code.description());
        t.append("\r\n");
        let ghost prefix = t@;
        let n = self.headers.len();
        let mut i: usize = 0;
        while i < n
            invariant
                n == self.headers@.len(),
                i <= n,
                t@ == prefix + header_lines(self.headers@.take(i as int)),
            decreases n - i,
        {
            let (k, v) = self.headers.entry(i);
            t.append(k);
            t.append(": ");
            t.append(v);
            t.append("\r\n");
            assert(self.headers@.take(i + 1).drop_last() =~= self.headers@.take(i as int));
            i += 1;
        }
        assert(self.headers@.take(n as int) =~= self.headers@);
        t.append("\r\n");
        t
    }
}


// ---------------------------------------------------------------------------
// Parsing a request
// ---------------------------------------------------------------------------

/// Every character of `s` is ASCII.
pub open spec fn is_ascii_text(s: Seq<char>) -> bool {
    forall|i: int| 0 <= i < s.len() ==> (s[i] as u32) < 0x80
}

/// No character of `s` is an upper-case ASCII letter.
pub open spec fn has_no_upper(s: Seq<char>) -> bool {
    forall|i: int| 0 <= i < s.len() ==> !('A' <= #[trigger] s[i] && s[i] <= 'Z')
}

/// The header field that a line after the request line sets, if any: a line
/// with a `':'` sets the name before its first `':'`, trimmed and
/// lower-cased, to what follows it, trimmed.
pub open spec fn header_of_line(line: Seq<char>) -> Option<(Seq<char>, Seq<char>)> {
    if has_char(line, ':') {
        let p = first_index(line, ':');
        Some((lowercase(trim(line.take(p))), trim(line.skip(p + 1))))
    } else {
        None
    }
}

/// The headers that the lines `lines` set, in turn; a later line for a name
/// replaces the value an earlier one set.
pub open spec fn headers_of_lines(lines: Seq<Seq<char>>) -> Map<Seq<char>, Seq<char>>
    decreases lines.len(),
{
    if lines.len() == 0 {
        Map::empty()
    } else {
        let m = headers_of_lines(lines.drop_last());
        match header_of_line(lines.last()) {
            Some(kv) => m.insert(kv.0, kv.1),
            None => m,
        }
    }
}

/// The request that a message's text holds. No lines: the empty request.
/// Otherwise the first line must split at spaces into exactly three parts,
/// method, URI and version, or there is no request; every later line that
/// holds a `':'` sets a header.
pub open spec fn parse_request(text: Seq<char>) -> Option<RequestView> {
    let ls = lines_of(text);
    if ls.len() == 0 {
        Some(empty_request())
    } else {
        let toks = split_on(ls[0], ' ');
        if toks.len() != 3 {
            None
        } else {
            Some(
                RequestView {
                    method: toks[0],
                    uri: toks[1],
                    http_version: toks[2],
                    headers: headers_of_lines(ls.drop_first()),
                },
            )
        }
    }
}

/// Parses the text of a request message (see `parse_request`).
pub fn parse_request_text(text: &str) -> (r: Option<Request>)
    ensures
        match r {
            Some(req) => parse_request(text@) == Some(req@),
            None => parse_request(text@) is None,
        },
        r matches Some(req) ==> (is_ascii_text(text@) ==> forall|k: Seq<char>|
            #[trigger] req@.headers.contains_key(k) ==> has_no_upper(k)),
{
    let chars = chars_of(text);
    let n = chars.len();
    let lines = line_ranges(&chars, 0, n);
    assert(chars@.subrange(0, n as int) =~= chars@);
    let ghost ls = range_views(chars@, lines@);
    if lines.len() == 0 {
        return Some(Request::empty());
    }
    let (a0, b0) = lines[0];
    assert(0 <= lines@[0].0 <= lines@[0].1 <= n);
    let toks = split_ranges(&chars, a0, b0, ' ');
    assert(ls[0] == chars@.subrange(a0 as int, b0 as int));
    if toks.len() != 3 {
        return None;
    }
    let ghost tv = range_views(chars@, toks@);
    assert(a0 <= toks@[0].0 <= toks@[0].1 <= b0);
    assert(a0 <= toks@[1].0 <= toks@[1].1 <= b0);
    assert(a0 <= toks@[2].0 <= toks@[2].1 <= b0);
    let method = substring(text, toks[0].0, toks[0].1);
    let uri = substring(text, toks[1].0, toks[1].1);
    let http_version = substring(text, toks[2].0, toks[2].1);
    assert(method@ == tv[0]);
    assert(uri@ == tv[1]);
    assert(http_version@ == tv[2]);
    let mut headers = HeaderMap::new();
    let mut k: usize = 1;
    assert(ls.subrange(1, 1) =~= Seq::<Seq<char>>::empty());
    while k < lines.len()
        invariant
            n == chars@.len(),
            chars@ == text@,
            ls == range_views(chars@, lines@),
            forall|j: int| 0 <= j < lines@.len() ==> 0 <= #[trigger] lines@[j].0 <= lines@[j].1 <= n,
            1 <= k <= lines@.len(),
            headers.map() == headers_of_lines(ls.subrange(1, k as int)),
            is_ascii_text(text@) ==> forall|key: Seq<char>| #[trigger] headers.map().contains_key(
                key,
            ) ==> has_no_upper(key),
        decreases lines.len() - k,
    {
        let (a, b) = lines[k];
        assert(0 <= lines@[k as int].0 <= lines@[k as int].1 <= n);
        let ghost line = chars@.subrange(a as int, b as int);
        assert(ls[k as int] == line);
        assert(ls.subrange(1, k + 1).drop_last() =~= ls.subrange(1, k as int));
        assert(ls.subrange(1, k + 1).last() == line);
        match find_char(&chars, a, b, ':') {
            Some(p) => {
                proof {
                    crate::text::lemma_first_index(line, ':', p - a);
                }
                let (ka, kb) = trim_range(&chars, a, p);
                let (va, vb) = trim_range(&chars, p + 1, b);
                assert(line.take(p - a) =~= chars@.subrange(a as int, p as int));
                assert(line.skip(p - a + 1) =~= chars@.subrange(p + 1, b as int));
                let name = substring(text, ka, kb);
                let key = to_lowercase(name.as_str());
                proof {
                    if is_ascii_text(text@) {
                        assert forall|i: int| 0 <= i < name@.len() implies (name@[i] as u32) < 0x80 by {
                            assert(name@[i] == text@[ka + i]);
                        }
                        assert forall|i: int| 0 <= i < key@.len() implies !('A' <= #[trigger] key@[i]
                            && key@[i] <= 'Z') by {
                            assert(key@[i] == ascii_lower(name@[i]));
                        }
                    }
                }
                let value = substring(text, va, vb);
                headers.insert(key, value);
            },
            None => {},
        }
        k += 1;
    }
    assert(ls.subrange(1, lines@.len() as int) =~= ls.drop_first());
    Some(Request { method, uri, http_version, headers })
}

/// Parses a request message: its bytes are decoded as UTF-8, each invalid
/// sequence replaced by U+FFFD, and the text is parsed (see
/// `parse_request`).
pub fn parse_header(msg: &[u8]) -> (r: Option<Request>)
    ensures
        match r {
            Some(req) => parse_request(utf8_lossy(msg@)) == Some(req@),
            None => parse_request(utf8_lossy(msg@)) is None,
        },
{
    let text = decode_lossy(msg);
    parse_request_text(text.as_str())
}


// ---------------------------------------------------------------------------
// Laws
// ---------------------------------------------------------------------------

/// Read after write on a request's headers: once `set_header` has set a name,
/// `header` gives the value for it, and other names keep their values.
pub proof fn law_request_header_after_set(r: RequestView, k: Seq<char>, v: Seq<char>, other: Seq<char>)
    ensures
        ({
            let after = RequestView { headers: r.headers.insert(k, v), ..r };
            &&& after.headers.contains_key(k)
            &&& after.headers[k] == v
            &&& other != k ==> after.headers.contains_key(other) == r.headers.contains_key(other)
            &&& other != k && r.headers.contains_key(other) ==> after.headers[other]
                == r.headers[other]
            &&& after.method == r.method && after.uri == r.uri && after.http_version
                == r.http_version
        }),
{
}

/// The header lines are empty, or end with CRLF.
proof fn lemma_header_lines_end(h: HeaderEntries)
    ensures
        header_lines(h).len() == 0 || (header_lines(h).len() >= 2 && header_lines(h).subrange(
            header_lines(h).len() - 2,
            header_lines(h).len() as int,
        ) == "\r\n"@),
{
    reveal_strlit("\r\n");
    if h.len() > 0 {
        let x = header_lines(h.drop_last()) + h.last().0 + ": "@ + h.last().1;
        assert(header_lines(h) == x + "\r\n"@);
        assert((x + "\r\n"@).subrange(x.len() as int, (x.len() + 2) as int) =~= "\r\n"@);
    }
}

/// A response's head starts with `HTTP/1.1 ` and ends with an empty line,
/// CRLF CRLF, so that the body follows right after it.
pub proof fn law_head_framing(r: ResponseView)
    ensures
        head_text(r).len() >= 13,
        head_text(r).subrange(0, 9) == "HTTP/1.1 "@,
        head_text(r).subrange(head_text(r).len() - 4, head_text(r).len() as int) == "\r\n\r\n"@,
{
    reveal_strlit("HTTP/1.1 ");
    reveal_strlit("\r\n");
    reveal_strlit("\r\n\r\n");
    reveal_strlit(" ");
    lemma_header_lines_end(r.headers);
    let status = "HTTP/1.1 "@ + decimal(status_number(r.status_code) as nat) + " "@ + status_reason(
        r.status_code,
    );
    let a = status + "\r\n"@;
    let hl = header_lines(r.headers);
    let t = a + hl + "\r\n"@;
    assert(head_text(r) == t);
    assert(decimal(status_number(r.status_code) as nat).len() >= 1);
    assert(t.subrange(0, 9) =~= "HTTP/1.1 "@);
    if hl.len() == 0 {
        assert(t =~= status + "\r\n\r\n"@);
        assert(t.subrange(t.len() - 4, t.len() as int) =~= "\r\n\r\n"@);
    } else {
        let before = a + hl.subrange(0, hl.len() - 2);
        assert(a + hl =~= before + "\r\n"@);
        assert(t =~= before + "\r\n\r\n"@);
        assert(t.subrange(t.len() - 4, t.len() as int) =~= "\r\n\r\n"@);
    }
}


/// A request line written as `METHOD URI VERSION` and ended by CRLF parses
/// back into those three parts and no headers, where none of the parts holds
/// a space or a line feed.
pub proof fn law_request_line_round_trip(m: Seq<char>, u: Seq<char>, v: Seq<char>)
    requires
        !has_char(m, ' ') && !has_char(m, '\n'),
        !has_char(u, ' ') && !has_char(u, '\n'),
        !has_char(v, ' ') && !has_char(v, '\n'),
    ensures
        parse_request(m + seq![' '] + u + seq![' '] + v + seq!['\r', '\n']) == Some(
            RequestView { method: m, uri: u, http_version: v, headers: Map::empty() },
        ),
{
    let line = m + seq![' '] + u + seq![' '] + v;
    let text = m + seq![' '] + u + seq![' '] + v + seq!['\r', '\n'];
    assert(!has_char(line, '\n')) by {
        if has_char(line, '\n') {
            let j = choose|j: int| 0 <= j < line.len() && line[j] == '\n';
            if j < m.len() {
                assert(m[j] == '\n');
            } else if j == m.len() {
            } else if j < m.len() + 1 + u.len() {
                assert(u[j - m.len() - 1] == '\n');
            } else if j == m.len() + 1 + u.len() {
            } else {
                assert(v[j - m.len() - 2 - u.len()] == '\n');
            }
        }
    }
    let lr = line.push('\r');
    assert(!has_char(lr, '\n')) by {
        if has_char(lr, '\n') {
            let j = choose|j: int| 0 <= j < lr.len() && lr[j] == '\n';
            if j < line.len() {
                assert(line[j] == '\n');
            }
        }
    }
    assert(text =~= lr + seq!['\n'] + Seq::<char>::empty());
    crate::text::lemma_split_on_concat(lr, Seq::<char>::empty(), '\n');
    crate::text::lemma_split_on_single(lr, '\n');
    let parts = split_on(text, '\n');
    assert(parts =~= seq![lr, Seq::<char>::empty()]);
    assert(lr.drop_last() =~= line);
    assert(lines_of(text) =~= seq![line]);
    crate::text::lemma_split_on_concat(m + seq![' '] + u, v, ' ');
    crate::text::lemma_split_on_concat(m, u, ' ');
    crate::text::lemma_split_on_single(m, ' ');
    crate::text::lemma_split_on_single(u, ' ');
    crate::text::lemma_split_on_single(v, ' ');
    assert(split_on(line, ' ') =~= seq![m, u, v]);
    assert(lines_of(text).drop_first() =~= Seq::<Seq<char>>::empty());
}


/// Text that starts and ends with a non-whitespace character (or is empty)
/// is its own trim.
proof fn lemma_trim_unchanged(s: Seq<char>)
    requires
        s.len() > 0 ==> !is_whitespace(s[0]) && !is_whitespace(s.last()),
    ensures
        trim(s) == s,
{
    assert(trim_start(s) == s);
    assert(trim_end(s) == s);
}

/// None of the characters of `a + [c] + b` outside `c` is `x`, where `x`
/// is in neither `a` nor `b` and differs from `c`.
proof fn lemma_lacks_char_joined(a: Seq<char>, c: char, b: Seq<char>, x: char)
    requires
        !has_char(a, x),
        !has_char(b, x),
        c != x,
    ensures
        !has_char(a + seq![c] + b, x),
{
    let s = a + seq![c] + b;
    if has_char(s, x) {
        let j = choose|j: int| 0 <= j < s.len() && s[j] == x;
        if j < a.len() {
            assert(a[j] == x);
        } else if j > a.len() {
            assert(b[j - a.len() - 1] == x);
        }
    }
}

/// Two lines without line feeds, each ended by CRLF, are the lines of their
/// text.
proof fn lemma_two_lines(a: Seq<char>, b: Seq<char>)
    requires
        !has_char(a, '\n'),
        !has_char(b, '\n'),
    ensures
        lines_of(a + seq!['\r', '\n'] + b + seq!['\r', '\n']) == seq![a, b],
{
    let ar = a.push('\r');
    let br = b.push('\r');
    lemma_lacks_char_joined(a, '\r', Seq::<char>::empty(), '\n');
    lemma_lacks_char_joined(b, '\r', Seq::<char>::empty(), '\n');
    assert(a + seq!['\r'] + Seq::<char>::empty() =~= ar);
    assert(b + seq!['\r'] + Seq::<char>::empty() =~= br);
    let text = a + seq!['\r', '\n'] + b + seq!['\r', '\n'];
    assert(text =~= ar + seq!['\n'] + (br + seq!['\n'] + Seq::<char>::empty()));
    crate::text::lemma_split_on_concat(ar, br + seq!['\n'] + Seq::<char>::empty(), '\n');
    crate::text::lemma_split_on_concat(br, Seq::<char>::empty(), '\n');
    crate::text::lemma_split_on_single(ar, '\n');
    crate::text::lemma_split_on_single(br, '\n');
    assert(split_on(text, '\n') =~= seq![ar, br, Seq::<char>::empty()]);
    assert(ar.drop_last() =~= a);
    assert(br.drop_last() =~= b);
    assert(lines_of(text) =~= seq![a, b]);
}

/// A request line `METHOD URI VERSION` splits at its spaces into its parts.
proof fn lemma_request_line_parts(m: Seq<char>, u: Seq<char>, v: Seq<char>)
    requires
        !has_char(m, ' ') && !has_char(m, '\n'),
        !has_char(u, ' ') && !has_char(u, '\n'),
        !has_char(v, ' ') && !has_char(v, '\n'),
    ensures
        split_on(m + seq![' '] + u + seq![' '] + v, ' ') == seq![m, u, v],
        !has_char(m + seq![' '] + u + seq![' '] + v, '\n'),
{
    lemma_lacks_char_joined(m, ' ', u, '\n');
    lemma_lacks_char_joined(m + seq![' '] + u, ' ', v, '\n');
    crate::text::lemma_split_on_concat(m + seq![' '] + u, v, ' ');
    crate::text::lemma_split_on_concat(m, u, ' ');
    crate::text::lemma_split_on_single(m, ' ');
    crate::text::lemma_split_on_single(u, ' ');
    crate::text::lemma_split_on_single(v, ' ');
    assert(split_on(m + seq![' '] + u + seq![' '] + v, ' ') =~= seq![m, u, v]);
}

/// A header line `Name:value` sets the lower-cased name to the value, where
/// the name holds no `':'` and neither starts or ends with whitespace.
proof fn lemma_header_line(name: Seq<char>, value: Seq<char>)
    requires
        !has_char(name, ':'),
        name.len() > 0 ==> !is_whitespace(name[0]) && !is_whitespace(name.last()),
        value.len() > 0 ==> !is_whitespace(value[0]) && !is_whitespace(value.last()),
    ensures
        header_of_line(name + seq![':'] + value) == Some((lowercase(name), value)),
{
    let hl = name + seq![':'] + value;
    let p = name.len() as int;
    assert(hl[p] == ':');
    assert forall|j: int| 0 <= j < p implies hl[j] != ':' by {
        assert(hl[j] == name[j]);
    }
    crate::text::lemma_first_index(hl, ':', p);
    assert(hl.take(p) =~= name);
    assert(hl.skip(p + 1) =~= value);
    lemma_trim_unchanged(name);
    lemma_trim_unchanged(value);
}

/// A request line and one header line `Name:value`, each ended by CRLF,
/// parse back into the request line's parts and the one header: the name
/// lower-cased, the value as written. The parts hold no space or line feed;
/// name and value hold no line feed, the name no `':'`, and neither starts
/// or ends with whitespace.
pub proof fn law_request_header_round_trip(
    m: Seq<char>,
    u: Seq<char>,
    v: Seq<char>,
    name: Seq<char>,
    value: Seq<char>,
)
    requires
        !has_char(m, ' ') && !has_char(m, '\n'),
        !has_char(u, ' ') && !has_char(u, '\n'),
        !has_char(v, ' ') && !has_char(v, '\n'),
        !has_char(name, ':') && !has_char(name, '\n') && !has_char(value, '\n'),
        name.len() > 0 ==> !is_whitespace(name[0]) && !is_whitespace(name.last()),
        value.len() > 0 ==> !is_whitespace(value[0]) && !is_whitespace(value.last()),
    ensures
        parse_request(
            m + seq![' '] + u + seq![' '] + v + seq!['\r', '\n'] + name + seq![':'] + value + seq![
                '\r',
                '\n',
            ],
        ) == Some(
            RequestView {
                method: m,
                uri: u,
                http_version: v,
                headers: Map::empty().insert(lowercase(name), value),
            },
        ),
{
    let line = m + seq![' '] + u + seq![' '] + v;
    let hl = name + seq![':'] + value;
    let text = m + seq![' '] + u + seq![' '] + v + seq!['\r', '\n'] + name + seq![':'] + value + seq![
        '\r',
        '\n',
    ];
    lemma_request_line_parts(m, u, v);
    lemma_lacks_char_joined(name, ':', value, '\n');
    lemma_two_lines(line, hl);
    assert(text =~= line + seq!['\r', '\n'] + hl + seq!['\r', '\n']);
    lemma_header_line(name, value);
    let ls = lines_of(text);
    assert(ls == seq![line, hl]);
    assert(ls[0] == line);
    let rest = ls.drop_first();
    assert(rest =~= seq![hl]);
    assert(rest.drop_last() =~= Seq::<Seq<char>>::empty());
    assert(rest.last() == hl);
    assert(headers_of_lines(rest.drop_last()) == Map::<Seq<char>, Seq<char>>::empty());
    assert(headers_of_lines(rest) == Map::<Seq<char>, Seq<char>>::empty().insert(lowercase(name), value));
    assert(split_on(ls[0], ' ').len() == 3);
}

/// The head carries each header field exactly as it was set: one field's
/// line is its name, `": "`, its value and CRLF, the lines of two runs of
/// fields follow each other, and a `200 OK` response with the one field
/// `(k, v)` has the head `HTTP/1.1 200 OK`, that line, and an empty line.
pub proof fn law_head_carries_fields_as_set(
    a: HeaderEntries,
    b: HeaderEntries,
    k: Seq<char>,
    v: Seq<char>,
    body: Seq<u8>,
)
    ensures
        header_lines(seq![(k, v)]) == k + ": "@ + v + "\r\n"@,
        header_lines(a + b) == header_lines(a) + header_lines(b),
        head_text(ResponseView { status_code: StatusCode::OK, headers: seq![(k, v)], body })
            == "HTTP/1.1 200 OK\r\n"@ + k + ": "@ + v + "\r\n\r\n"@,
    decreases b.len(),
{
    let one = seq![(k, v)];
    assert(one.drop_last() =~= Seq::<(Seq<char>, Seq<char>)>::empty());
    assert(header_lines(one.drop_last()) == Seq::<char>::empty());
    assert(one.last() == (k, v));
    assert(header_lines(one) =~= k + ": "@ + v + "\r\n"@);
    if b.len() == 0 {
        assert(a + b =~= a);
        assert(header_lines(a) + header_lines(b) =~= header_lines(a));
    } else {
        law_head_carries_fields_as_set(a, b.drop_last(), k, v, body);
        assert((a + b).drop_last() =~= a + b.drop_last());
        assert((a + b).last() == b.last());
        let x = header_lines(a);
        let y = header_lines(b.drop_last());
        let (n, w) = b.last();
        assert(header_lines(a + b) == x + y + n + ": "@ + w + "\r\n"@);
        assert(x + y + n + ": "@ + w + "\r\n"@ =~= x + (y + n + ": "@ + w + "\r\n"@));
    }
    reveal_strlit("HTTP/1.1 ");
    reveal_strlit("HTTP/1.1 200 OK\r\n");
    reveal_strlit(" ");
    reveal_strlit("OK");
    reveal_strlit("\r\n");
    reveal_strlit("\r\n\r\n");
    reveal_strlit(": ");
    reveal_with_fuel(decimal, 3);
    assert(decimal(200) =~= seq!['2', '0', '0']);
    let r = ResponseView { status_code: StatusCode::OK, headers: one, body };
    assert(head_text(r) =~= "HTTP/1.1 200 OK\r\n"@ + k + ": "@ + v + "\r\n\r\n"@);
}

/// The URL of a request: without a `host` header it is the error
/// `EmptyHost`; with one, `http://` and the header's value are parsed, and
/// the request's URI, as it is, is joined onto the parsed base, so the
/// outcome is that of the join, or the parser's error.
pub proof fn law_url_joins_uri_onto_host(r: RequestView)
    ensures
        !r.headers.contains_key("host"@) ==> request_url(r) == Err::<Seq<char>, UrlParseError>(
            UrlParseError::EmptyHost,
        ),
        r.headers.contains_key("host"@) ==> request_url(r) == match url_parse(
            "http://"@ + r.headers["host"@],
        ) {
            Ok(parsed_base) => url_join(parsed_base, r.uri),
            Err(e) => Err::<Seq<char>, UrlParseError>(e),
        },
{
}

/// The text of a header line `Name:value` that sets the field `f`.
pub open spec fn field_line(f: (Seq<char>, Seq<char>)) -> Seq<char> {
    f.0 + seq![':'] + f.1
}

/// Header lines `Name:value`, one for each field of `fs` in order, each
/// ended by CRLF.
pub open spec fn field_block(fs: HeaderEntries) -> Seq<char>
    decreases fs.len(),
{
    if fs.len() == 0 {
        Seq::empty()
    } else {
        field_block(fs.drop_last()) + field_line(fs.last()) + seq!['\r', '\n']
    }
}

/// A field that its header line carries as it is: the name holds no `':'`,
/// neither name nor value holds a line feed, and neither starts or ends
/// with whitespace.
pub open spec fn plain_field(f: (Seq<char>, Seq<char>)) -> bool {
    &&& !has_char(f.0, ':') && !has_char(f.0, '\n') && !has_char(f.1, '\n')
    &&& f.0.len() > 0 ==> !is_whitespace(f.0[0]) && !is_whitespace(f.0.last())
    &&& f.1.len() > 0 ==> !is_whitespace(f.1[0]) && !is_whitespace(f.1.last())
}

/// The pieces, at line feeds, of a line without line feeds followed by CRLF
/// and the header lines of `fs`.
proof fn lemma_field_block_pieces(line: Seq<char>, fs: HeaderEntries)
    requires
        !has_char(line, '\n'),
        forall|j: int| 0 <= j < fs.len() ==> #[trigger] plain_field(fs[j]),
    ensures
        split_on(line + seq!['\r', '\n'] + field_block(fs), '\n') == seq![line.push('\r')]
            + Seq::new(fs.len(), |j: int| field_line(fs[j]).push('\r')) + seq![Seq::<char>::empty()],
    decreases fs.len(),
{
    let lr = line.push('\r');
    lemma_lacks_char_joined(line, '\r', Seq::<char>::empty(), '\n');
    assert(line + seq!['\r'] + Seq::<char>::empty() =~= lr);
    crate::text::lemma_split_on_single(lr, '\n');
    if fs.len() == 0 {
        let t = line + seq!['\r', '\n'] + field_block(fs);
        assert(t =~= lr + seq!['\n'] + Seq::<char>::empty());
        crate::text::lemma_split_on_concat(lr, Seq::<char>::empty(), '\n');
        assert(split_on(t, '\n') =~= seq![lr] + Seq::new(0, |j: int| field_line(fs[j]).push('\r'))
            + seq![Seq::<char>::empty()]);
    } else {
        let f0 = fs.drop_last();
        assert forall|j: int| 0 <= j < f0.len() implies #[trigger] plain_field(f0[j]) by {
            assert(f0[j] == fs[j]);
        }
        lemma_field_block_pieces(line, f0);
        let t0 = line + seq!['\r', '\n'] + field_block(f0);
        let u = t0.drop_last();
        assert(t0 =~= u + seq!['\n'] + Seq::<char>::empty());
        crate::text::lemma_split_on_concat(u, Seq::<char>::empty(), '\n');
        let fl = field_line(fs.last());
        assert(plain_field(fs[fs.len() - 1]));
        lemma_lacks_char_joined(fs.last().0, ':', fs.last().1, '\n');
        let flr = fl.push('\r');
        lemma_lacks_char_joined(fl, '\r', Seq::<char>::empty(), '\n');
        assert(fl + seq!['\r'] + Seq::<char>::empty() =~= flr);
        crate::text::lemma_split_on_single(flr, '\n');
        let t = line + seq!['\r', '\n'] + field_block(fs);
        assert(t =~= u + seq!['\n'] + (flr + seq!['\n'] + Seq::<char>::empty()));
        crate::text::lemma_split_on_concat(u, flr + seq!['\n'] + Seq::<char>::empty(), '\n');
        crate::text::lemma_split_on_concat(flr, Seq::<char>::empty(), '\n');
        let pu = split_on(u, '\n');
        assert(pu + seq![Seq::<char>::empty()] == seq![lr] + Seq::new(
            f0.len(),
            |j: int| field_line(f0[j]).push('\r'),
        ) + seq![Seq::<char>::empty()]);
        assert(pu =~= (pu + seq![Seq::<char>::empty()]).drop_last());
        assert(pu =~= seq![lr] + Seq::new(f0.len(), |j: int| field_line(f0[j]).push('\r')));
        assert(split_on(t, '\n') =~= seq![lr] + Seq::new(
            fs.len(),
            |j: int| field_line(fs[j]).push('\r'),
        ) + seq![Seq::<char>::empty()]);
    }
}

/// The lines of a line without line feeds followed by CRLF and the header
/// lines of `fs`: that line, then one line per field.
proof fn lemma_field_block_lines(line: Seq<char>, fs: HeaderEntries)
    requires
        !has_char(line, '\n'),
        forall|j: int| 0 <= j < fs.len() ==> #[trigger] plain_field(fs[j]),
    ensures
        lines_of(line + seq!['\r', '\n'] + field_block(fs)) == seq![line] + Seq::new(
            fs.len(),
            |j: int| field_line(fs[j]),
        ),
{
    lemma_field_block_pieces(line, fs);
    let parts = split_on(line + seq!['\r', '\n'] + field_block(fs), '\n');
    let ls = lines_of(line + seq!['\r', '\n'] + field_block(fs));
    assert(parts.last() =~= Seq::<char>::empty());
    assert(ls == parts.drop_last().map_values(|p: Seq<char>| crate::text::strip_cr(p)));
    assert(line.push('\r').drop_last() =~= line);
    assert forall|j: int| 0 <= j < fs.len() implies field_line(fs[j]).push('\r').drop_last()
        =~= field_line(fs[j]) by {}
    assert(ls =~= seq![line] + Seq::new(fs.len(), |j: int| field_line(fs[j])));
}

/// What the header lines of `fs` set: each field's lower-cased name, unless a
/// later field has the same lower-cased name, has the field's value; and
/// every name set is the lower-cased name of one of the fields.
proof fn lemma_field_lines_headers(fs: HeaderEntries, i: int, key: Seq<char>)
    requires
        forall|j: int| 0 <= j < fs.len() ==> #[trigger] plain_field(fs[j]),
    ensures
        ({
            let h = headers_of_lines(Seq::new(fs.len(), |j: int| field_line(fs[j])));
            &&& 0 <= i < fs.len() && (forall|j: int|
                i < j < fs.len() ==> lowercase(#[trigger] fs[j].0) != lowercase(fs[i].0))
                ==> h.contains_key(lowercase(fs[i].0)) && h[lowercase(fs[i].0)] == fs[i].1
            &&& h.contains_key(key) ==> exists|j: int| 0 <= j < fs.len() && lowercase(#[trigger] fs[j].0) == key
        }),
    decreases fs.len(),
{
    if fs.len() > 0 {
        let f0 = fs.drop_last();
        assert forall|j: int| 0 <= j < f0.len() implies #[trigger] plain_field(f0[j]) by {
            assert(f0[j] == fs[j]);
        }
        lemma_field_lines_headers(f0, i, key);
        let l = Seq::new(fs.len(), |j: int| field_line(fs[j]));
        let l0 = Seq::new(f0.len(), |j: int| field_line(f0[j]));
        assert(l.drop_last() =~= l0);
        let last = fs.last();
        assert(plain_field(fs[fs.len() - 1]));
        lemma_header_line(last.0, last.1);
        assert(l.last() == field_line(last));
        let h0 = headers_of_lines(l0);
        let h = headers_of_lines(l);
        assert(h == h0.insert(lowercase(last.0), last.1));
        if 0 <= i < fs.len() - 1 && (forall|j: int|
            i < j < fs.len() ==> lowercase(#[trigger] fs[j].0) != lowercase(fs[i].0)) {
            assert(lowercase(fs[fs.len() - 1].0) != lowercase(fs[i].0));
            assert(f0[i] == fs[i]);
            assert forall|j: int| i < j < f0.len() implies lowercase(#[trigger] f0[j].0) != lowercase(
                f0[i].0,
            ) by {
                assert(f0[j] == fs[j]);
                assert(lowercase(fs[j].0) != lowercase(fs[i].0));
            }
        }
        if h.contains_key(key) {
            if key == lowercase(last.0) {
                assert(lowercase(fs[fs.len() - 1].0) == key);
            } else {
                assert(h0.contains_key(key));
                let j = choose|j: int| 0 <= j < f0.len() && lowercase(#[trigger] f0[j].0) == key;
                assert(f0[j] == fs[j]);
                assert(lowercase(fs[j].0) == key);
            }
        }
    }
}

/// Every header line counts, however many there are: a request line
/// `METHOD URI VERSION` and then a line `Name:value` for each field of `fs`,
/// each ended by CRLF, parse into the request line's parts and headers in
/// which each field's lower-cased name has the field's value (the last
/// field's, where several names lower-case alike), and no other names. The
/// parts hold no space or line feed, and each field is carried by its line
/// as it is (`plain_field`).
pub proof fn law_request_fields_round_trip(
    m: Seq<char>,
    u: Seq<char>,
    v: Seq<char>,
    fs: HeaderEntries,
    i: int,
    key: Seq<char>,
)
    requires
        !has_char(m, ' ') && !has_char(m, '\n'),
        !has_char(u, ' ') && !has_char(u, '\n'),
        !has_char(v, ' ') && !has_char(v, '\n'),
        forall|j: int| 0 <= j < fs.len() ==> #[trigger] plain_field(fs[j]),
    ensures
        ({
            let p = parse_request(m + seq![' '] + u + seq![' '] + v + seq!['\r', '\n'] + field_block(fs));
            &&& p is Some
            &&& p->0.method == m && p->0.uri == u && p->0.http_version == v
            &&& 0 <= i < fs.len() && (forall|j: int|
                i < j < fs.len() ==> lowercase(#[trigger] fs[j].0) != lowercase(fs[i].0))
                ==> p->0.headers.contains_key(lowercase(fs[i].0)) && p->0.headers[lowercase(fs[i].0)]
                == fs[i].1
            &&& p->0.headers.contains_key(key) ==> exists|j: int|
                0 <= j < fs.len() && lowercase(#[trigger] fs[j].0) == key
        }),
{
    let line = m + seq![' '] + u + seq![' '] + v;
    lemma_request_line_parts(m, u, v);
    let text = m + seq![' '] + u + seq![' '] + v + seq!['\r', '\n'] + field_block(fs);
    assert(text =~= line + seq!['\r', '\n'] + field_block(fs));
    lemma_field_block_lines(line, fs);
    let ls = lines_of(text);
    assert(ls[0] == line);
    assert(ls.drop_first() =~= Seq::new(fs.len(), |j: int| field_line(fs[j])));
    lemma_field_lines_headers(fs, i, key);
}

} // verus!
