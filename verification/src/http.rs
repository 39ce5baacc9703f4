//! The fetch orchestrator: scheme dispatch, the HTTP/1.1 request/response
//! exchange over pooled transports, chunked and gzip decoding, bounded
//! redirect following, and cache-control negotiation.

pub mod connection_pool;
pub mod headers;
pub mod response;

use vstd::prelude::*;

verus! {

use crate::cache::{cache_extended_with, cache_key, stores_exactly, CacheEntryView, RequestCache};
use crate::http::connection_pool::{Connection, ConnectionPool, ReadWrite, StreamError};
use crate::http::headers::{lookup, CacheControl, Headers, HeaderEntryView, wire};
use crate::http::response::{parse_response, Parsed, Response};
use crate::text::{chars_of, string_of, utf8_to_string};
use crate::url::{HttpUrl, Scheme, SchemeView, Url, ParseError};

/// Why a fetch failed. Every failure is final: nothing is retried.
#[derive(Debug, Clone, Copy, PartialEq, Eq, Structural)]
pub enum FetchError {
    /// The URL string has no recognizable shape.
    MalformedUrl,
    /// The URL names a scheme the fetch layer does not speak.
    UnsupportedScheme,
    /// Opening the TCP or TLS transport failed.
    ConnectError,
    /// The transport failed mid-exchange, or the stream ended early.
    IoError,
    /// The response violates the HTTP framing this layer understands.
    MalformedResponse,
    /// A `Transfer-Encoding` other than `chunked`.
    UnhandledTransferEncoding,
    /// More than the allowed number of redirect hops.
    TooManyRedirects,
    /// A redirect target that is not an HTTP(S) URL.
    InvalidRedirect,
    /// The body is not the valid gzip or UTF-8 data it claims to be.
    EncodingError,
}

/// The most redirect hops one fetch may follow.
pub const REDIRECT_LIMIT: usize = 5;

/// What the fetch layer needs from its surroundings: transports, files and
/// a clock. Implementations are plain Rust outside the library; the library
/// assumes nothing about them and is verified for every behaviour of
/// theirs.
pub trait Platform<T: ReadWrite> {
    /// Opens a transport to `host:port`, TLS-wrapped when `tls` is set.
    fn connect(&mut self, host: &str, port: u16, tls: bool) -> Result<T, StreamError>;

    /// Reads the named file as UTF-8 text.
    fn read_file(&mut self, path: &str) -> Result<String, StreamError>;

    /// Milliseconds on a monotonic clock.
    fn now_millis(&mut self) -> u64;
}

// ---------------------------------------------------------------------------
// Gzip
// ---------------------------------------------------------------------------

/// The bytes a gzip stream decompresses to, or nothing when the input is
/// not a complete gzip stream: a function of the input bytes alone.
pub uninterp spec fn gunzip_of(data: Seq<u8>) -> Option<Seq<u8>>;

/// Relies on flate2's `bufread::GzDecoder`, read to the end: decoding
/// yields the decompressed bytes, or fails exactly when the input is not a
/// complete gzip stream; the result depends on the input bytes alone.
#[verifier::external_body]
fn gunzip(data: &Vec<u8>) -> (r: Option<Vec<u8>>)
    ensures
        match r {
            Some(v) => gunzip_of(data@) == Some(v@),
            None => gunzip_of(data@) == None::<Seq<u8>>,
        },
{
    let mut decoder = flate2::bufread::GzDecoder::new(&data[..]);
    let mut out: Vec<u8> = Vec::new();
    match std::io::Read::read_to_end(&mut decoder, &mut out) {
        Ok(_) => Some(out),
        Err(_) => None,
    }
}

// ---------------------------------------------------------------------------
// View-source escaping
// ---------------------------------------------------------------------------

/// How one character renders in view-source mode: `&`, `<` and `>` become
/// entities so that markup shows as literal text.
pub open spec fn escape_char(c: char) -> Seq<char> {
    if c == '&' {
        seq!['&', 'a', 'm', 'p', ';']
    } else if c == '<' {
        seq!['&', 'l', 't', ';']
    } else if c == '>' {
        seq!['&', 'g', 't', ';']
    } else {
        seq![c]
    }
}

/// A whole document escaped for view-source mode.
pub open spec fn escape_html(s: Seq<char>) -> Seq<char>
    decreases s.len(),
{
    if s.len() == 0 {
        Seq::<char>::empty()
    } else {
        escape_html(s.subrange(0, s.len() - 1)) + escape_char(s[s.len() - 1])
    }
}

/// Escapes `&`, `<` and `>` as entities, exactly as `escape_html` says.
pub fn escape_source(s: &str) -> (r: String)
    ensures
        r@ == escape_html(s@),
{
    let v = chars_of(s);
    let mut out: Vec<char> = Vec::new();
    let mut i: usize = 0;
    while i < v.len()
        invariant
            i <= v@.len(),
            v@ == s@,
            out@ == escape_html(v@.subrange(0, i as int)),
        decreases v@.len() - i,
    {
        let c = v[i];
        if c == '&' {
            out.push('&');
            out.push('a');
            out.push('m');
            out.push('p');
            out.push(';');
        } else if c == '<' {
            out.push('&');
            out.push('l');
            out.push('t');
            out.push(';');
        } else if c == '>' {
            out.push('&');
            out.push('g');
            out.push('t');
            out.push(';');
        } else {
            out.push(c);
        }
        i = i + 1;
        proof {
            let pre = v@.subrange(0, i as int);
            assert(pre.subrange(0, pre.len() - 1) =~= v@.subrange(0, i - 1));
            assert(pre[pre.len() - 1] == c);
            assert(out@ =~= escape_html(v@.subrange(0, i - 1)) + escape_char(c));
        }
    }
    proof {
        assert(v@.subrange(0, v@.len() as int) =~= v@);
    }
    string_of(&out)
}

// ---------------------------------------------------------------------------
// The outbound request
// ---------------------------------------------------------------------------

pub open spec fn user_agent_chars() -> Seq<char> {
    seq!['b', 'o', 'w', 's', 'e', 'r', 'n', 'e', 't', ' ', '0', '.', '0', '0', '0', '0', '1']
}

/// The three headers every request carries, in order: `Host`,
/// `Accept-Encoding: gzip`, `User-Agent`.
pub open spec fn request_headers(h: crate::url::HttpUrlView) -> Seq<HeaderEntryView> {
    seq![
        HeaderEntryView { name: seq!['H', 'o', 's', 't'], value: h.host },
        HeaderEntryView {
            name: seq!['A', 'c', 'c', 'e', 'p', 't', '-', 'E', 'n', 'c', 'o', 'd', 'i', 'n', 'g'],
            value: seq!['g', 'z', 'i', 'p'],
        },
        HeaderEntryView {
            name: seq!['U', 's', 'e', 'r', '-', 'A', 'g', 'e', 'n', 't'],
            value: user_agent_chars(),
        },
    ]
}

/// The request text: `GET {path} HTTP/1.1`, the request headers, and the
/// blank line.
pub open spec fn request_chars(h: crate::url::HttpUrlView) -> Seq<char> {
    seq!['G', 'E', 'T', ' '] + h.path + seq![' ', 'H', 'T', 'T', 'P', '/', '1', '.', '1', '\r', '\n']
        + wire(request_headers(h)) + seq!['\r', '\n']
}

/// Serializes the request for `http_url`, UTF-8 encoded.
fn build_request(http_url: &HttpUrl) -> (r: Vec<u8>)
    ensures
        r@ == vstd::utf8::encode_utf8(request_chars(http_url@)),
{
    proof {
        reveal_strlit("Host");
        reveal_strlit("Accept-Encoding");
        reveal_strlit("gzip");
        reveal_strlit("User-Agent");
        reveal_strlit("bowsernet 0.00001");
        assert("Host"@ =~= seq!['H', 'o', 's', 't']);
        assert("Accept-Encoding"@ =~= seq![
            'A', 'c', 'c', 'e', 'p', 't', '-', 'E', 'n', 'c', 'o', 'd', 'i', 'n', 'g'
        ]);
        assert("gzip"@ =~= seq!['g', 'z', 'i', 'p']);
        assert("User-Agent"@ =~= seq!['U', 's', 'e', 'r', '-', 'A', 'g', 'e', 'n', 't']);
        assert("bowsernet 0.00001"@ =~= user_agent_chars());
    }
    let h0 = Headers::new();
    let h1 = h0.add("Host", http_url.host.as_str());
    proof {
        crate::http::headers::lemma_index_of_key(h0@, crate::text::lower("Host"@));
        assert(h1@ =~= Seq::<HeaderEntryView>::empty().push(
            HeaderEntryView { name: "Host"@, value: http_url.host@ },
        ));
    }
    let h2 = h1.add("Accept-Encoding", "gzip");
    proof {
        crate::http::headers::lemma_index_of_key(h1@, crate::text::lower("Accept-Encoding"@));
        assert(crate::text::lower(h1@[0].name).len() == 4);
        assert(crate::text::lower("Accept-Encoding"@).len() == 15);
        assert(h2@ =~= h1@.push(HeaderEntryView { name: "Accept-Encoding"@, value: "gzip"@ }));
    }
    let headers = h2.add("User-Agent", "bowsernet 0.00001");
    proof {
        crate::http::headers::lemma_index_of_key(h2@, crate::text::lower("User-Agent"@));
        assert(crate::text::lower(h2@[0].name).len() == 4);
        assert(crate::text::lower(h2@[1].name).len() == 15);
        assert(crate::text::lower("User-Agent"@).len() == 10);
        assert(headers@ =~= request_headers(http_url@));
    }
    let header_text = headers.to_http_string();
    let mut out: Vec<char> = Vec::new();
    out.push('G');
    out.push('E');
    out.push('T');
    out.push(' ');
    let mut path = chars_of(http_url.path.as_str());
    out.append(&mut path);
    out.push(' ');
    out.push('H');
    out.push('T');
    out.push('T');
    out.push('P');
    out.push('/');
    out.push('1');
    out.push('.');
    out.push('1');
    out.push('\r');
    out.push('\n');
    let mut hdr = chars_of(header_text.as_str());
    out.append(&mut hdr);
    out.push('\r');
    out.push('\n');
    proof {
        assert(out@ =~= request_chars(http_url@));
    }
    let text = string_of(&out);
    text.as_str().as_bytes_vec()
}

// ---------------------------------------------------------------------------
// Redirects
// ---------------------------------------------------------------------------

/// The target of a redirect: an absolute-path `Location` keeps the current
/// origin and replaces the path; any other location must itself parse as an
/// HTTP(S) URL, and a non-HTTP target is an invalid redirect.
pub open spec fn spec_redirect_target(
    current: crate::url::HttpUrlView,
    location: Seq<char>,
) -> Result<crate::url::HttpUrlView, FetchError> {
    if location.len() > 0 && location[0] == '/' {
        Ok(
            crate::url::HttpUrlView {
                tls: current.tls,
                host: current.host,
                port: current.port,
                path: location,
            },
        )
    } else {
        match crate::url::spec_parse(location) {
            Ok(u) => match u.scheme {
                SchemeView::Http(h) => Ok(h),
                _ => Err(FetchError::InvalidRedirect),
            },
            Err(ParseError::MalformedUrl) => Err(FetchError::MalformedUrl),
            Err(ParseError::UnsupportedScheme) => Err(FetchError::UnsupportedScheme),
        }
    }
}

/// Resolves a `Location` header against the URL being fetched, exactly as
/// `spec_redirect_target` says.
pub fn redirect_target(current: &HttpUrl, location: String) -> (r: Result<HttpUrl, FetchError>)
    ensures
        match r {
            Ok(t) => spec_redirect_target(current@, location@) == Ok::<
                crate::url::HttpUrlView,
                FetchError,
            >(t@),
            Err(e) => spec_redirect_target(current@, location@) == Err::<
                crate::url::HttpUrlView,
                FetchError,
            >(e),
        },
{
    let loc_chars = chars_of(location.as_str());
    if loc_chars.len() > 0 && loc_chars[0] == '/' {
        Ok(
            HttpUrl {
                tls: current.tls,
                host: current.host.clone(),
                port: current.port,
                path: location,
            },
        )
    } else {
        match Url::parse(location.as_str()) {
            Ok(u) => match u.scheme {
                Scheme::Http(h) => Ok(h),
                _ => Err(FetchError::InvalidRedirect),
            },
            Err(ParseError::MalformedUrl) => Err(FetchError::MalformedUrl),
            Err(ParseError::UnsupportedScheme) => Err(FetchError::UnsupportedScheme),
        }
    }
}

// ---------------------------------------------------------------------------
// Acting on one response
// ---------------------------------------------------------------------------

pub open spec fn content_encoding_key() -> Seq<char> {
    seq!['c', 'o', 'n', 't', 'e', 'n', 't', '-', 'e', 'n', 'c', 'o', 'd', 'i', 'n', 'g']
}

pub open spec fn location_key() -> Seq<char> {
    seq!['l', 'o', 'c', 'a', 't', 'i', 'o', 'n']
}

pub open spec fn cache_control_key() -> Seq<char> {
    seq!['c', 'a', 'c', 'h', 'e', '-', 'c', 'o', 'n', 't', 'r', 'o', 'l']
}

/// The decoded text of a response body: a `Content-Encoding` header (any
/// value) means the raw bytes are gzip; the (decompressed) bytes must be
/// valid UTF-8, else the body is an encoding error.
pub open spec fn spec_decode_body(headers: Seq<HeaderEntryView>, raw: Seq<u8>) -> Result<
    Seq<char>,
    FetchError,
> {
    let bytes = if lookup(headers, content_encoding_key()) is Some {
        gunzip_of(raw)
    } else {
        Some(raw)
    };
    match bytes {
        Some(b) => if vstd::utf8::valid_utf8(b) {
            Ok(vstd::utf8::decode_utf8(b))
        } else {
            Err(FetchError::EncodingError)
        },
        None => Err(FetchError::EncodingError),
    }
}

/// What the handler does next with one parsed response.
pub enum StepView {
    /// Follow a redirect to this URL.
    Redirect(crate::url::HttpUrlView),
    /// Return this body; the second field holds `Some(max_age)` exactly
    /// when the response may be stored in the cache.
    Deliver(Seq<char>, Option<Option<u64>>),
}

pub enum Step {
    Redirect(HttpUrl),
    Deliver(String, Option<Option<u64>>),
}

/// What one parsed response means for the fetch, for every response: the
/// body is decoded first (gzip, then UTF-8); a 3xx status must carry a
/// `Location` header, which resolves per `spec_redirect_target`; a 200 is
/// delivered and is storable with the parsed `max-age` unless `no-store`
/// was sent; any other status is delivered unstored.
pub open spec fn spec_process_response(
    current: crate::url::HttpUrlView,
    status: u16,
    headers: Seq<HeaderEntryView>,
    raw: Seq<u8>,
) -> Result<StepView, FetchError> {
    match spec_decode_body(headers, raw) {
        Err(e) => Err(e),
        Ok(content) => if 300 <= status && status <= 399 {
            match lookup(headers, location_key()) {
                None => Err(FetchError::MalformedResponse),
                Some(location) => match spec_redirect_target(current, location) {
                    Ok(target) => Ok(StepView::Redirect(target)),
                    Err(e) => Err(e),
                },
            }
        } else if status == 200 {
            let cc = match lookup(headers, cache_control_key()) {
                Some(value) => crate::http::headers::spec_cache_control(value),
                None => (false, None),
            };
            Ok(StepView::Deliver(content, if cc.0 {
                None
            } else {
                Some(cc.1)
            }))
        } else {
            Ok(StepView::Deliver(content, None))
        },
    }
}

/// Acts on one parsed response, exactly as `spec_process_response` says.
pub fn process_response(current: &HttpUrl, resp: Response) -> (r: Result<Step, FetchError>)
    ensures
        match (r, spec_process_response(current@, resp.status, resp.headers@, resp.body@)) {
            (Ok(Step::Redirect(target)), Ok(StepView::Redirect(tv))) => target@ == tv,
            (Ok(Step::Deliver(body, store)), Ok(StepView::Deliver(bv, sv))) => body@ == bv && store
                == sv,
            (Err(e1), Err(e2)) => e1 == e2,
            _ => false,
        },
{
    proof {
        reveal_strlit("content-encoding");
        reveal_strlit("location");
        reveal_strlit("cache-control");
        assert(crate::text::lower("content-encoding"@) =~= content_encoding_key());
        assert(crate::text::lower("location"@) =~= location_key());
        assert(crate::text::lower("cache-control"@) =~= cache_control_key());
    }
    let status = resp.status;
    let headers = resp.headers;

    // Any Content-Encoding means gzip; the decoded bytes must be UTF-8.
    let content_bytes: Vec<u8> = if headers.contains("content-encoding") {
        match gunzip(&resp.body) {
            Some(decompressed) => decompressed,
            None => {
                return Err(FetchError::EncodingError);
            },
        }
    } else {
        resp.body
    };
    let content: String = match utf8_to_string(&content_bytes) {
        Some(s) => s,
        None => {
            return Err(FetchError::EncodingError);
        },
    };

    if 300 <= status && status <= 399 {
        // Follow the redirect; the response body is dropped, uncached.
        let location: String = match headers.get("location") {
            Some(l) => l.to_owned(),
            None => {
                return Err(FetchError::MalformedResponse);
            },
        };
        match redirect_target(current, location) {
            Ok(target) => Ok(Step::Redirect(target)),
            Err(e) => Err(e),
        }
    } else if status == 200 {
        // Deliver, storable as the Cache-Control directives allow.
        let cc: CacheControl = match headers.get("cache-control") {
            Some(value) => CacheControl::parse(value),
            None => CacheControl { no_store: false, max_age: None },
        };
        Ok(Step::Deliver(content, if cc.no_store {
            None
        } else {
            Some(cc.max_age)
        }))
    } else {
        Ok(Step::Deliver(content, None))
    }
}

// ---------------------------------------------------------------------------
// The exchange
// ---------------------------------------------------------------------------

/// The most transport reads one response may take.
pub const READ_LIMIT: usize = 1000000;

/// Reads from the transport until the buffered bytes form one complete
/// response, per `spec_parse_response`; the bytes beyond it stay buffered
/// on the connection for the next request. Whatever the transport sent, a
/// returned response is one the response grammar accepts; an end of stream,
/// a transport failure or an over-long exchange is an `IoError`.
fn read_response<T: ReadWrite>(conn: &mut Connection<T>) -> (r: Result<Response, FetchError>)
    ensures
        r matches Err(e) ==> (e == FetchError::IoError || e == FetchError::MalformedResponse || e
            == FetchError::UnhandledTransferEncoding),
        r matches Ok(resp) ==> resp.headers.wf() && (exists|data: Seq<u8>|
            crate::http::response::spec_parse_response(data)
                == crate::http::response::SpecParse::Done(
                crate::http::response::SpecResponse {
                    status: resp.status,
                    headers: resp.headers@,
                    body: resp.body@,
                    consumed: resp.consumed as int,
                },
            )),
{
    let mut reads_left: usize = READ_LIMIT;
    loop
        decreases reads_left,
    {
        let ghost buffered = conn.buffer@;
        match parse_response(&conn.buffer) {
            Parsed::Done(resp) => {
                let rest = crate::text::subvec(&conn.buffer, resp.consumed, conn.buffer.len());
                conn.buffer = rest;
                proof {
                    assert(crate::http::response::spec_parse_response(buffered)
                        == crate::http::response::SpecParse::Done(
                        crate::http::response::SpecResponse {
                            status: resp.status,
                            headers: resp.headers@,
                            body: resp.body@,
                            consumed: resp.consumed as int,
                        },
                    ));
                }
                return Ok(resp);
            },
            Parsed::Malformed => {
                return Err(FetchError::MalformedResponse);
            },
            Parsed::UnhandledTransferEncoding => {
                return Err(FetchError::UnhandledTransferEncoding);
            },
            Parsed::Incomplete => {
                if reads_left == 0 {
                    return Err(FetchError::IoError);
                }
                reads_left = reads_left - 1;
                match conn.transport.read_some(65536) {
                    Ok(bytes) => {
                        if bytes.len() == 0 {
                            return Err(FetchError::IoError);
                        }
                        let mut b = bytes;
                        conn.buffer.append(&mut b);
                    },
                    Err(_) => {
                        return Err(FetchError::IoError);
                    },
                }
            },
        }
    }
}

/// One HTTP(S) fetch with redirect following: consult the cache, otherwise
/// take or open a connection for the origin, write the request, read the
/// response and act on it per `spec_process_response`, following up to
/// `REDIRECT_LIMIT` redirects. On failure the cache is untouched; on
/// success it either kept every entry or gained exactly one, holding the
/// returned body; an entry with no `max-age` is fresh at every clock time,
/// so it is returned with no pool or cache activity at all.
fn fetch_http<T: ReadWrite, P: Platform<T>>(
    http_url: &HttpUrl,
    pool: &mut ConnectionPool<T>,
    cache: &mut RequestCache,
    platform: &mut P,
) -> (r: Result<String, FetchError>)
    requires
        old(pool).wf(),
        old(cache).wf(),
    ensures
        final(pool).wf(),
        final(cache).wf(),
        r matches Err(_) ==> final(cache)@ == old(cache)@,
        r matches Ok(s) ==> cache_extended_with(old(cache)@, final(cache)@, s@),
        (old(cache).spec_entry(cache_key(http_url@)) matches Some(e) && e.max_age is None) ==> ({
            let e = old(cache).spec_entry(cache_key(http_url@))->Some_0;
            r matches Ok(s) && s@ == e.response && final(cache)@ == old(cache)@
                && final(pool)@ == old(pool)@
        }),
{
    let mut current: HttpUrl = http_url.clone();
    let mut num_redirects: usize = 0;
    loop
        invariant
            pool.wf(),
            cache.wf(),
            num_redirects <= REDIRECT_LIMIT,
            cache@ == old(cache)@,
            (old(cache).spec_entry(cache_key(http_url@)) matches Some(e) && e.max_age is None)
                ==> (pool@ == old(pool)@ && current@ == http_url@ && num_redirects == 0),
        decreases REDIRECT_LIMIT - num_redirects,
    {
        if num_redirects >= REDIRECT_LIMIT {
            return Err(FetchError::TooManyRedirects);
        }

        // A fresh cache entry answers without any network traffic.
        let now = platform.now_millis();
        let cached: Option<String> = match cache.get(&current, now) {
            Some(content) => Some(content.to_owned()),
            None => None,
        };
        if let Some(content) = cached {
            return Ok(content);
        }

        // Reuse the pooled connection for this origin, or open one.
        let mut conn: Connection<T> = match pool.take_connection(&current) {
            Some(c) => c,
            None => {
                match platform.connect(current.host.as_str(), current.port, current.tls) {
                    Ok(t) => Connection { transport: t, buffer: Vec::new() },
                    Err(_) => {
                        return Err(FetchError::ConnectError);
                    },
                }
            },
        };

        let request_bytes = build_request(&current);
        if conn.transport.write_all(request_bytes.as_slice()).is_err() {
            return Err(FetchError::IoError);
        }
        if conn.transport.flush().is_err() {
            return Err(FetchError::IoError);
        }

        let resp = match read_response(&mut conn) {
            Ok(resp) => resp,
            Err(e) => {
                return Err(e);
            },
        };
        // The connection stays pooled for the next request to this origin.
        pool.set_connection(&current, conn);

        match process_response(&current, resp) {
            Err(e) => {
                return Err(e);
            },
            Ok(Step::Redirect(target)) => {
                current = target;
                num_redirects = num_redirects + 1;
            },
            Ok(Step::Deliver(content, store)) => {
                if let Some(max_age) = store {
                    let stored_at = platform.now_millis();
                    cache.set(&current, content.as_str(), max_age, stored_at);
                    proof {
                        assert(stores_exactly(
                            old(cache)@,
                            cache@,
                            cache_key(current@),
                            CacheEntryView {
                                response: content@,
                                max_age,
                                fetched_at: stored_at,
                            },
                        ));
                        assert(cache_extended_with(old(cache)@, cache@, content@));
                    }
                }
                return Ok(content);
            },
        }
    }
}

/// Fetches a document: dispatches on the scheme (HTTP(S) over the pool and
/// cache, `file:` through the platform, `data:` and the builtin page
/// locally), then escapes the result when the URL is in view-source mode.
/// Non-HTTP schemes never touch the pool or the cache; a failed fetch
/// leaves the cache as it was; a successful one returns (escaped iff in
/// view-source mode) the very body the cache may have gained.
pub fn request<T: ReadWrite, P: Platform<T>>(
    url: &Url,
    connection_pool: &mut ConnectionPool<T>,
    cache: &mut RequestCache,
    platform: &mut P,
) -> (r: Result<String, FetchError>)
    requires
        old(connection_pool).wf(),
        old(cache).wf(),
    ensures
        final(connection_pool).wf(),
        final(cache).wf(),
        url@.scheme matches SchemeView::Data(d) ==> (r matches Ok(s) && s@ == (
        if url@.view_source {
            escape_html(d.contents)
        } else {
            d.contents
        })),
        url@.scheme is Builtin ==> (r matches Ok(s) && s@ == Seq::<char>::empty()),
        url@.scheme is File ==> (r matches Err(e) ==> e == FetchError::IoError),
        !(url@.scheme is Http) ==> (final(connection_pool)@ == old(connection_pool)@
            && final(cache)@ == old(cache)@),
        r matches Err(_) ==> final(cache)@ == old(cache)@,
        r matches Ok(s) ==> (exists|b: Seq<char>|
            #[trigger] cache_extended_with(old(cache)@, final(cache)@, b) && s@ == (
            if url@.view_source {
                escape_html(b)
            } else {
                b
            })),
        (url@.scheme matches SchemeView::Http(h) && old(cache).spec_entry(cache_key(h)) matches Some(
            e,
        ) && e.max_age is None) ==> ({
            let e = old(cache).spec_entry(cache_key(url@.scheme->Http_0))->Some_0;
            r matches Ok(s) && s@ == (if url@.view_source {
                escape_html(e.response)
            } else {
                e.response
            }) && final(cache)@ == old(cache)@ && final(connection_pool)@ == old(connection_pool)@
        }),
{
    let content: String = match &url.scheme {
        Scheme::Http(http_url) => {
            match fetch_http(http_url, connection_pool, cache, platform) {
                Ok(content) => content,
                Err(e) => {
                    return Err(e);
                },
            }
        },
        Scheme::File(file_url) => {
            match platform.read_file(file_url.path.as_str()) {
                Ok(content) => content,
                Err(_) => {
                    return Err(FetchError::IoError);
                },
            }
        },
        Scheme::Data(data_url) => data_url.contents.clone(),
        Scheme::Builtin(_) => String::new(),
    };
    let ghost body = content@;
    proof {
        assert(cache_extended_with(old(cache)@, cache@, body));
    }
    if url.view_source {
        Ok(escape_source(content.as_str()))
    } else {
        Ok(content)
    }
}

} // verus!
