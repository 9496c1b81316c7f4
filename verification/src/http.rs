//! Verified HTTP request parsing and response serialization.
//!
//! A request is parsed from its header lines: the first line carries method,
//! URI and protocol version as whitespace-separated tokens, every further
//! line that contains a `": "` separator contributes one header. A response
//! serializes to a status line, its headers, a blank line and the body.

use vstd::prelude::*;

verus! {

/// ASCII whitespace, as `str::split_ascii_whitespace` understands it.
pub open spec fn is_ascii_ws(c: char) -> bool {
    c == ' ' || c == '\t' || c == '\n' || c == '\r' || c == '\u{0C}'
}

/// First index at or after `i` holding a non-whitespace character; the
/// length if there is none.
pub open spec fn skip_ws(s: Seq<char>, i: int) -> int
    decreases s.len() - i when 0 <= i <= s.len()
{
    if i >= s.len() {
        s.len() as int
    } else if is_ascii_ws(s[i]) {
        skip_ws(s, i + 1)
    } else {
        i
    }
}

/// First index at or after `i` holding whitespace; the length if there is
/// none.
pub open spec fn token_end(s: Seq<char>, i: int) -> int
    decreases s.len() - i when 0 <= i <= s.len()
{
    if i >= s.len() {
        s.len() as int
    } else if !is_ascii_ws(s[i]) {
        token_end(s, i + 1)
    } else {
        i
    }
}

/// The character ranges of the first three whitespace-separated tokens:
/// `((a1, b1), (a2, b2), (a3, b3))`, each `a` the start and each `b` the end.
pub open spec fn spec_tokens3(s: Seq<char>) -> ((int, int), (int, int), (int, int)) {
    let a1 = skip_ws(s, 0);
    let b1 = token_end(s, a1);
    let a2 = skip_ws(s, b1);
    let b2 = token_end(s, a2);
    let a3 = skip_ws(s, b2);
    let b3 = token_end(s, a3);
    ((a1, b1), (a2, b2), (a3, b3))
}

/// Which method a token names, if any.
pub open spec fn spec_method(t: Seq<char>) -> Option<HTTPMethod> {
    if t == "GET"@ {
        Some(HTTPMethod::Get)
    } else if t == "POST"@ {
        Some(HTTPMethod::Post)
    } else {
        None
    }
}

/// Index of the first `": "` at or after `i`; the length if there is none.
pub open spec fn find_sep(s: Seq<char>, i: int) -> int
    decreases s.len() - i when 0 <= i <= s.len()
{
    if i + 2 > s.len() {
        s.len() as int
    } else if s[i] == ':' && s[i + 1] == ' ' {
        i
    } else {
        find_sep(s, i + 1)
    }
}

pub proof fn lemma_find_sep_bounds(s: Seq<char>, i: int)
    requires
        0 <= i <= s.len(),
    ensures
        i <= find_sep(s, i) <= s.len(),
        find_sep(s, i) < s.len() ==> find_sep(s, i) + 2 <= s.len(),
    decreases s.len() - i,
{
    if i + 2 <= s.len() && !(s[i] == ':' && s[i + 1] == ' ') {
        lemma_find_sep_bounds(s, i + 1);
    }
}

/// How one line parses as a header: the text before the first `": "` is the
/// name, the text between the first and the second `": "` (or the end) is
/// the value; a line without `": "` is no header.
pub open spec fn spec_header(s: Seq<char>) -> Option<(Seq<char>, Seq<char>)> {
    let p1 = find_sep(s, 0);
    if p1 >= s.len() {
        None
    } else {
        let p2 = find_sep(s, p1 + 2);
        Some((s.subrange(0, p1), s.subrange(p1 + 2, p2)))
    }
}

/// The headers that a sequence of lines yields, in order; lines that parse
/// as no header are dropped.
pub open spec fn spec_headers(lines: Seq<Seq<char>>) -> Seq<(Seq<char>, Seq<char>)>
    decreases lines.len(),
{
    if lines.len() == 0 {
        Seq::empty()
    } else {
        let rest = spec_headers(lines.drop_last());
        match spec_header(lines.last()) {
            Some(h) => rest.push(h),
            None => rest,
        }
    }
}

/// The views of a sequence of strings.
pub open spec fn views_of(lines: Seq<String>) -> Seq<Seq<char>> {
    Seq::new(lines.len(), |i: int| lines[i]@)
}

/// The views of a sequence of headers.
pub open spec fn header_views(hs: Seq<HTTPHeader>) -> Seq<(Seq<char>, Seq<char>)> {
    Seq::new(hs.len(), |i: int| hs[i]@)
}

/// Whether `c` is ASCII whitespace.
fn is_ws_char(c: char) -> (r: bool)
    ensures
        r == is_ascii_ws(c),
{
    c == ' ' || c == '\t' || c == '\n' || c == '\r' || c == '\u{0C}'
}

/// First position at or after `from` holding a non-whitespace character.
fn find_non_ws(s: &str, from: usize) -> (r: usize)
    requires
        from <= s@.len(),
    ensures
        r == skip_ws(s@, from as int),
        from <= r <= s@.len(),
{
    let n = s.unicode_len();
    let mut i = from;
    while i < n
        invariant
            from <= i <= n,
            n == s@.len(),
            skip_ws(s@, from as int) == skip_ws(s@, i as int),
        decreases n - i,
    {
        if !is_ws_char(s.get_char(i)) {
            return i;
        }
        i += 1;
    }
    i
}

/// First position at or after `from` holding whitespace.
fn find_ws(s: &str, from: usize) -> (r: usize)
    requires
        from <= s@.len(),
    ensures
        r == token_end(s@, from as int),
        from <= r <= s@.len(),
    decreases s@.len() - from,
{
    let n = s.unicode_len();
    let mut i = from;
    while i < n
        invariant
            from <= i <= n,
            n == s@.len(),
            token_end(s@, from as int) == token_end(s@, i as int),
        decreases n - i,
    {
        if is_ws_char(s.get_char(i)) {
            return i;
        }
        i += 1;
    }
    i
}

/// Whether two string slices hold the same characters.
pub fn str_eq(a: &str, b: &str) -> (r: bool)
    ensures
        r == (a@ == b@),
{
    let na = a.unicode_len();
    let nb = b.unicode_len();
    if na != nb {
        return false;
    }
    let mut i: usize = 0;
    while i < na
        invariant
            i <= na,
            na == a@.len(),
            na == b@.len(),
            forall|j: int| 0 <= j < i ==> a@[j] == b@[j],
        decreases na - i,
    {
        if a.get_char(i) != b.get_char(i) {
            return false;
        }
        i += 1;
    }
    proof {
        assert(a@ =~= b@);
    }
    true
}

#[derive(Debug, Clone, Copy, PartialEq, Eq, Structural)]
pub enum HTTPMethod {
    Get,
    Post,
}

impl HTTPMethod {
    /// Parses a request-line token: exactly `GET` and `POST` are known.
    pub fn parse(token: &str) -> (r: Option<HTTPMethod>)
        ensures
            r == spec_method(token@),
    {
        if str_eq(token, "GET") {
            Some(HTTPMethod::Get)
        } else if str_eq(token, "POST") {
            Some(HTTPMethod::Post)
        } else {
            None
        }
    }
}

#[derive(Debug, Clone)]
pub struct HTTPUri {
    uri: String,
}

impl View for HTTPUri {
    type V = Seq<char>;

    closed spec fn view(&self) -> Seq<char> {
        self.uri@
    }
}

impl HTTPUri {
    pub fn new(value: &str) -> (u: HTTPUri)
        ensures
            u@ == value@,
    {
        HTTPUri { uri: value.to_owned() }
    }

    pub fn unwrap(&self) -> (s: &str)
        ensures
            s@ == self@,
    {
        self.uri.as_str()
    }
}

#[derive(Debug, Clone)]
pub struct HTTPVersion {
    version: String,
}

impl View for HTTPVersion {
    type V = Seq<char>;

    closed spec fn view(&self) -> Seq<char> {
        self.version@
    }
}

impl HTTPVersion {
    pub fn new(value: &str) -> (v: HTTPVersion)
        ensures
            v@ == value@,
    {
        HTTPVersion { version: value.to_owned() }
    }

    pub fn unwrap(&self) -> (s: &str)
        ensures
            s@ == self@,
    {
        self.version.as_str()
    }
}

#[derive(Debug, Clone)]
pub struct HTTPBody {
    body: String,
}

impl View for HTTPBody {
    type V = Seq<char>;

    closed spec fn view(&self) -> Seq<char> {
        self.body@
    }
}

impl HTTPBody {
    pub fn new(body: &str) -> (b: HTTPBody)
        ensures
            b@ == body@,
    {
        HTTPBody { body: body.to_owned() }
    }

    pub fn unwrap(&self) -> (s: &str)
        ensures
            s@ == self@,
    {
        self.body.as_str()
    }
}

#[derive(Debug, Clone)]
pub struct HTTPHeader {
    name: String,
    value: String,
}

impl View for HTTPHeader {
    type V = (Seq<char>, Seq<char>);

    closed spec fn view(&self) -> (Seq<char>, Seq<char>) {
        (self.name@, self.value@)
    }
}

impl HTTPHeader {
    pub fn new(name: &str, value: &str) -> (h: HTTPHeader)
        ensures
            h@ == (name@, value@),
    {
        HTTPHeader { name: name.to_owned(), value: value.to_owned() }
    }

    /// The header's name.
    pub fn name(&self) -> (s: &str)
        ensures
            s@ == self@.0,
    {
        self.name.as_str()
    }

    /// The header's value.
    pub fn value(&self) -> (s: &str)
        ensures
            s@ == self@.1,
    {
        self.value.as_str()
    }

    /// Parses one header line; a line without `": "` is no header.
    pub fn parse(line: &str) -> (r: Option<HTTPHeader>)
        ensures
            match r {
                Some(h) => spec_header(line@) == Some(h@),
                None => spec_header(line@) is None,
            },
    {
        let n = line.unicode_len();
        let p1 = find_sep_at(line, 0);
        if p1 == n {
            return None;
        }
        proof {
            lemma_find_sep_bounds(line@, 0);
        }
        let p2 = find_sep_at(line, p1 + 2);
        let name = line.substring_char(0, p1);
        let value = line.substring_char(p1 + 2, p2);
        Some(HTTPHeader { name: name.to_owned(), value: value.to_owned() })
    }
}

/// The mathematical content of a parsed request.
#[verifier::ext_equal]
pub struct RequestView {
    pub method: HTTPMethod,
    pub uri: Seq<char>,
    pub version: Seq<char>,
    pub headers: Seq<(Seq<char>, Seq<char>)>,
    pub body: Seq<char>,
}

/// Whether the first request line holds three whitespace-separated tokens
/// whose first names a known method.
pub open spec fn spec_request_line_ok(s: Seq<char>) -> bool {
    let ((a1, b1), (a2, b2), (a3, b3)) = spec_tokens3(s);
    a1 < s.len() && a2 < s.len() && a3 < s.len() && spec_method(s.subrange(a1, b1)) is Some
}

/// What a sequence of request lines parses to, when the first line is
/// well-formed: tokens two and three of the first line are URI and version,
/// the remaining lines contribute the headers, the body is empty.
pub open spec fn spec_request(lines: Seq<Seq<char>>) -> RequestView
    recommends
        lines.len() > 0,
        spec_request_line_ok(lines[0]),
{
    let s = lines[0];
    let ((a1, b1), (a2, b2), (a3, b3)) = spec_tokens3(s);
    RequestView {
        method: if s.subrange(a1, b1) == "GET"@ {
            HTTPMethod::Get
        } else {
            HTTPMethod::Post
        },
        uri: s.subrange(a2, b2),
        version: s.subrange(a3, b3),
        headers: spec_headers(lines.drop_first()),
        body: Seq::empty(),
    }
}

#[derive(Debug, Clone)]
pub struct HTTPRequest {
    method: HTTPMethod,
    uri: HTTPUri,
    version: HTTPVersion,
    headers: Vec<HTTPHeader>,
    body: HTTPBody,
}

impl View for HTTPRequest {
    type V = RequestView;

    closed spec fn view(&self) -> RequestView {
        RequestView {
            method: self.method,
            uri: self.uri@,
            version: self.version@,
            headers: header_views(self.headers@),
            body: self.body@,
        }
    }
}

impl HTTPRequest {
    /// Parses the header lines of a request (first line plus header lines,
    /// the empty line and everything after it already stripped). Fails
    /// exactly when there is no first line, it holds fewer than three
    /// tokens, or the method is unknown.
    pub fn new(lines: &Vec<String>) -> (r: Option<HTTPRequest>)
        ensures
            match r {
                Some(req) => {
                    &&& lines@.len() > 0
                    &&& spec_request_line_ok(lines@[0]@)
                    &&& req@ == spec_request(views_of(lines@))
                },
                None => lines@.len() == 0 || !spec_request_line_ok(lines@[0]@),
            },
    {
        if lines.len() == 0 {
            return None;
        }
        let line0: &str = lines[0].as_str();
        let n = line0.unicode_len();
        let a1 = find_non_ws(line0, 0);
        if a1 == n {
            return None;
        }
        let b1 = find_ws(line0, a1);
        let a2 = find_non_ws(line0, b1);
        if a2 == n {
            return None;
        }
        let b2 = find_ws(line0, a2);
        let a3 = find_non_ws(line0, b2);
        if a3 == n {
            return None;
        }
        let b3 = find_ws(line0, a3);
        let tok1 = line0.substring_char(a1, b1);
        let method = match HTTPMethod::parse(tok1) {
            Some(m) => m,
            None => {
                return None;
            },
        };
        let uri = HTTPUri::new(line0.substring_char(a2, b2));
        let version = HTTPVersion::new(line0.substring_char(a3, b3));
        let ghost lv = views_of(lines@);
        let mut headers: Vec<HTTPHeader> = Vec::new();
        let mut i: usize = 1;
        while i < lines.len()
            invariant
                1 <= i <= lines@.len(),
                lv == views_of(lines@),
                header_views(headers@) =~= spec_headers(lv.subrange(1, i as int)),
            decreases lines@.len() - i,
        {
            match HTTPHeader::parse(lines[i].as_str()) {
                Some(h) => {
                    headers.push(h);
                },
                None => {},
            }
            proof {
                assert(lv.subrange(1, i as int + 1).drop_last() =~= lv.subrange(1, i as int));
                assert(lv.subrange(1, i as int + 1).last() == lines@[i as int]@);
            }
            i += 1;
        }
        let body = HTTPBody::new("");
        let req = HTTPRequest { method, uri, version, headers, body };
        proof {
            reveal_strlit("");
            assert(lv.subrange(1, lv.len() as int) =~= lv.drop_first());
            assert(req@.headers =~= spec_headers(lv.drop_first()));
            assert(lv[0] == lines@[0]@);
            assert(req@.body =~= Seq::<char>::empty());
            assert(req@ =~= spec_request(lv));
        }
        Some(req)
    }

    pub fn method(&self) -> (m: &HTTPMethod)
        ensures
            *m == self@.method,
    {
        &self.method
    }

    pub fn uri(&self) -> (u: &HTTPUri)
        ensures
            u@ == self@.uri,
    {
        &self.uri
    }

    pub fn version(&self) -> (v: &HTTPVersion)
        ensures
            v@ == self@.version,
    {
        &self.version
    }

    pub fn headers(&self) -> (hs: &[HTTPHeader])
        ensures
            header_views(hs@) == self@.headers,
    {
        self.headers.as_slice()
    }

    pub fn body(&self) -> (b: &HTTPBody)
        ensures
            b@ == self@.body,
    {
        &self.body
    }
}

/// The decimal digit `d` as a character.
pub open spec fn digit_char(d: nat) -> char {
    if d == 0 {
        '0'
    } else if d == 1 {
        '1'
    } else if d == 2 {
        '2'
    } else if d == 3 {
        '3'
    } else if d == 4 {
        '4'
    } else if d == 5 {
        '5'
    } else if d == 6 {
        '6'
    } else if d == 7 {
        '7'
    } else if d == 8 {
        '8'
    } else {
        '9'
    }
}

/// The decimal digits of `n`, most significant first, no leading zeros.
pub open spec fn spec_decimal(n: nat) -> Seq<char>
    decreases n,
{
    if n < 10 {
        seq![digit_char(n)]
    } else {
        spec_decimal(n / 10).push(digit_char(n % 10))
    }
}

/// The UTF-8 byte length of a text.
pub open spec fn byte_len(s: Seq<char>) -> nat {
    vstd::utf8::encode_utf8(s).len()
}

fn digit_str(d: u64) -> (s: &'static str)
    requires
        d < 10,
    ensures
        s@ =~= seq![digit_char(d as nat)],
{
    if d == 0 {
        proof {
            reveal_strlit("0");
        }
        "0"
    } else if d == 1 {
        proof {
            reveal_strlit("1");
        }
        "1"
    } else if d == 2 {
        proof {
            reveal_strlit("2");
        }
        "2"
    } else if d == 3 {
        proof {
            reveal_strlit("3");
        }
        "3"
    } else if d == 4 {
        proof {
            reveal_strlit("4");
        }
        "4"
    } else if d == 5 {
        proof {
            reveal_strlit("5");
        }
        "5"
    } else if d == 6 {
        proof {
            reveal_strlit("6");
        }
        "6"
    } else if d == 7 {
        proof {
            reveal_strlit("7");
        }
        "7"
    } else if d == 8 {
        proof {
            reveal_strlit("8");
        }
        "8"
    } else {
        proof {
            reveal_strlit("9");
        }
        "9"
    }
}

/// Writes `n` in decimal.
pub fn decimal_string(n: u64) -> (s: String)
    ensures
        s@ =~= spec_decimal(n as nat),
    decreases n,
{
    if n < 10 {
        digit_str(n).to_owned()
    } else {
        let mut s = decimal_string(n / 10);
        s.append(digit_str(n % 10));
        proof {
            assert(s@ =~= spec_decimal(n as nat));
        }
        s
    }
}

/// The mathematical content of a response.
#[verifier::ext_equal]
pub struct ResponseView {
    pub status: Seq<char>,
    pub headers: Seq<(Seq<char>, Seq<char>)>,
    pub body: Seq<char>,
}

/// One line of header text per header, in order.
pub open spec fn spec_headers_text(hs: Seq<(Seq<char>, Seq<char>)>) -> Seq<char>
    decreases hs.len(),
{
    if hs.len() == 0 {
        Seq::empty()
    } else {
        spec_headers_text(hs.drop_last()) + hs.last().0 + ": "@ + hs.last().1 + "\r\n"@
    }
}

/// The wire text of a response: status line, header lines, a blank line,
/// the body.
pub open spec fn spec_response_text(v: ResponseView) -> Seq<char> {
    "HTTP/1.1 "@ + v.status + "\r\n"@ + spec_headers_text(v.headers) + "\r\n"@ + v.body
}

#[derive(Debug, Clone)]
pub struct HTTPStatus {
    status: String,
}

impl View for HTTPStatus {
    type V = Seq<char>;

    closed spec fn view(&self) -> Seq<char> {
        self.status@
    }
}

impl HTTPStatus {
    pub fn new(value: &str) -> (s: HTTPStatus)
        ensures
            s@ == value@,
    {
        HTTPStatus { status: value.to_owned() }
    }
}

#[derive(Debug, Clone)]
pub struct HTTPResponse {
    status: HTTPStatus,
    headers: Vec<HTTPHeader>,
    body: HTTPBody,
}

impl View for HTTPResponse {
    type V = ResponseView;

    closed spec fn view(&self) -> ResponseView {
        ResponseView {
            status: self.status@,
            headers: header_views(self.headers@),
            body: self.body@,
        }
    }
}

impl HTTPResponse {
    /// Builds a response from a status text, header lines and a body. A
    /// `Content-Length` header carrying the body's byte length in decimal
    /// is appended after the given headers. Never fails.
    pub fn new(status: &str, headers: &Vec<String>, body: String) -> (r: Option<HTTPResponse>)
        ensures
            r is Some,
            match r {
                Some(resp) => resp@ =~= (ResponseView {
                    status: status@,
                    headers: spec_headers(views_of(headers@)).push(
                        ("Content-Length"@, spec_decimal(byte_len(body@))),
                    ),
                    body: body@,
                }),
                None => false,
            },
    {
        let blen = body.as_str().as_bytes().len();
        let length_header = HTTPHeader::new("Content-Length", decimal_string(blen as u64).as_str());
        let ghost hv = views_of(headers@);
        let mut hs: Vec<HTTPHeader> = Vec::new();
        let mut i: usize = 0;
        while i < headers.len()
            invariant
                i <= headers@.len(),
                hv == views_of(headers@),
                header_views(hs@) =~= spec_headers(hv.take(i as int)),
            decreases headers@.len() - i,
        {
            match HTTPHeader::parse(headers[i].as_str()) {
                Some(h) => {
                    hs.push(h);
                },
                None => {},
            }
            proof {
                assert(hv.take(i as int + 1).drop_last() =~= hv.take(i as int));
                assert(hv.take(i as int + 1).last() == headers@[i as int]@);
            }
            i += 1;
        }
        proof {
            assert(hv.take(hv.len() as int) =~= hv);
        }
        hs.push(length_header);
        let resp = HTTPResponse {
            status: HTTPStatus::new(status),
            headers: hs,
            body: HTTPBody::new(body.as_str()),
        };
        proof {
            assert(length_header@.1 == spec_decimal(byte_len(body@)));
            assert(header_views(resp.headers@) =~= spec_headers(hv).push(
                ("Content-Length"@, spec_decimal(byte_len(body@))),
            ));
        }
        Some(resp)
    }

    /// The first line of the wire text.
    fn status_line(&self) -> (s: String)
        ensures
            s@ =~= "HTTP/1.1 "@ + self@.status + "\r\n"@,
    {
        let mut s = "HTTP/1.1 ".to_owned();
        s.append(self.status.status.as_str());
        s.append("\r\n");
        s
    }

    /// Serializes the response: status line, one line per header, a blank
    /// line, then the body.
    pub fn to_string(self) -> (out: String)
        ensures
            out@ =~= spec_response_text(self@),
    {
        let ghost hv = header_views(self.headers@);
        let ghost me = self@;
        let mut out = self.status_line();
        let mut i: usize = 0;
        while i < self.headers.len()
            invariant
                i <= self.headers@.len(),
                hv == header_views(self.headers@),
                me == self@,
                me.status == self@.status,
                out@ =~= "HTTP/1.1 "@ + me.status + "\r\n"@ + spec_headers_text(
                    hv.take(i as int),
                ),
            decreases self.headers@.len() - i,
        {
            let h = &self.headers[i];
            out.append(h.name.as_str());
            out.append(": ");
            out.append(h.value.as_str());
            out.append("\r\n");
            proof {
                assert(hv.take(i as int + 1).drop_last() =~= hv.take(i as int));
                assert(hv.take(i as int + 1).last() == self.headers@[i as int]@);
                assert(out@ =~= "HTTP/1.1 "@ + me.status + "\r\n"@ + spec_headers_text(
                    hv.take(i as int + 1),
                ));
            }
            i += 1;
        }
        proof {
            assert(hv.take(hv.len() as int) =~= hv);
        }
        out.append("\r\n");
        out.append(self.body.body.as_str());
        proof {
            assert(out@ =~= spec_response_text(me));
        }
        out
    }
}

/// First position at or after `from` where `": "` starts.
fn find_sep_at(s: &str, from: usize) -> (r: usize)
    requires
        from <= s@.len(),
    ensures
        r == find_sep(s@, from as int),
        from <= r <= s@.len(),
{
    let n = s.unicode_len();
    if n < 2 {
        return n;
    }
    let mut i = from;
    while i <= n - 2
        invariant
            from <= i <= n,
            n == s@.len(),
            n >= 2,
            find_sep(s@, from as int) == find_sep(s@, i as int),
        decreases n - i,
    {
        if s.get_char(i) == ':' && s.get_char(i + 1) == ' ' {
            return i;
        }
        i += 1;
    }
    n
}

} // verus!
