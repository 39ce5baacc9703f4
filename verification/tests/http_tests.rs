use bowsernet::http::connection_pool::{Connection, ConnectionPool, ReadWrite, StreamError};
use bowsernet::http::{request, FetchError, Platform};
use bowsernet::url::{HttpUrl, Scheme, Url};
use bowsernet::RequestCache;

pub struct FakeStream {
    response: Vec<u8>,
    pos: usize,
    pub writes: Vec<u8>,
}

impl FakeStream {
    pub fn new(response: &[u8]) -> Self {
        Self {
            response: response.to_vec(),
            pos: 0,
            writes: Vec::new(),
        }
    }

    /// How many requests were written to this stream.
    pub fn request_count(&self) -> usize {
        self.writes
            .windows(4)
            .filter(|w| w == b"GET ")
            .count()
    }
}

impl ReadWrite for FakeStream {
    fn read_some(&mut self, max: usize) -> Result<Vec<u8>, StreamError> {
        let end = (self.pos + max).min(self.response.len());
        let chunk = self.response[self.pos..end].to_vec();
        self.pos = end;
        Ok(chunk)
    }

    fn write_all(&mut self, data: &[u8]) -> Result<(), StreamError> {
        self.writes.extend_from_slice(data);
        Ok(())
    }

    fn flush(&mut self) -> Result<(), StreamError> {
        Ok(())
    }
}

pub struct FakePlatform {
    pub now: u64,
    pub connects: usize,
    pub responses: Vec<Vec<u8>>,
    pub files: Vec<(String, String)>,
}

impl FakePlatform {
    pub fn new() -> Self {
        Self {
            now: 0,
            connects: 0,
            responses: Vec::new(),
            files: Vec::new(),
        }
    }
}

impl Platform<FakeStream> for FakePlatform {
    fn connect(&mut self, _host: &str, _port: u16, _tls: bool) -> Result<FakeStream, StreamError> {
        self.connects += 1;
        if self.responses.is_empty() {
            Err(StreamError)
        } else {
            let raw = self.responses.remove(0);
            Ok(FakeStream::new(&raw))
        }
    }

    fn read_file(&mut self, path: &str) -> Result<String, StreamError> {
        for (p, contents) in &self.files {
            if p == path {
                return Ok(contents.clone());
            }
        }
        Err(StreamError)
    }

    fn now_millis(&mut self) -> u64 {
        self.now
    }
}

fn http_url_of(url: &Url) -> HttpUrl {
    match &url.scheme {
        Scheme::Http(http_url) => http_url.clone(),
        _ => panic!("Mock URL's scheme must be HTTP(S)"),
    }
}

fn mocked_request(url: &Url, raw_response: &[u8]) -> Result<String, FetchError> {
    let http_url = http_url_of(url);
    let mut connection_pool = ConnectionPool::new();
    connection_pool.set_connection(
        &http_url,
        Connection {
            transport: FakeStream::new(raw_response),
            buffer: Vec::new(),
        },
    );
    let mut platform = FakePlatform::new();
    request(
        url,
        &mut connection_pool,
        &mut RequestCache::new(),
        &mut platform,
    )
}

#[test]
fn basic_request() {
    let url = Url::parse("http://example.org").unwrap();
    let raw_response = b"\
        HTTP/1.1 200 OK\r\n\
        Content-Length: 13\r\n\
        \r\n\
        Hello, world!";

    let response = mocked_request(&url, raw_response).unwrap();

    assert_eq!(response, "Hello, world!");
}

#[test]
fn request_with_view_source() {
    let url = Url::parse("view-source:http://example.org").unwrap();
    let raw_response = b"\
        HTTP/1.1 200 OK\r\n\
        Content-Length: 20\r\n\
        \r\n\
        <p>Hello, world!</p>";

    let response = mocked_request(&url, raw_response).unwrap();

    assert_eq!(response, "&lt;p&gt;Hello, world!&lt;/p&gt;");
}

#[test]
fn request_with_redirect() {
    let url = Url::parse("http://example.org").unwrap();
    let raw_response = b"\
        HTTP/1.1 301 Moved Permanently\r\n\
        Location: /index.html\r\n\
        Content-Length: 0\r\n\
        \r\n\
        HTTP/1.1 200 OK\r\n\
        Content-Length: 13\r\n\
        \r\n\
        Hello, world!";

    let response = mocked_request(&url, raw_response).unwrap();

    assert_eq!(response, "Hello, world!");
}

#[test]
fn request_chunked_encoding() {
    let url = Url::parse("http://example.org").unwrap();
    let raw_response = b"\
        HTTP/1.1 200 OK\r\n\
        Transfer-Encoding: chunked\r\n\
        \r\n\
        7\r\n\
        Hello, \r\n\
        6\r\n\
        world!\r\n\
        0\r\n\
        \r\n";

    let response = mocked_request(&url, raw_response).unwrap();

    assert_eq!(response, "Hello, world!");
}

#[test]
fn request_gzipped() {
    let url = Url::parse("http://example.org").unwrap();
    let raw_response = b"\
        HTTP/1.1 200 OK\r\n\
        Content-Encoding: gzip\r\n\
        Transfer-Encoding: chunked\r\n\
        \r\n\
        21\r\n\
        \x1F\x8B\x08\x00\x00\x00\x00\x00\x00\x03\xF3\x48\xCD\xC9\xC9\xD7\x51\x28\xCF\x2F\xCA\x49\x51\x04\x00\xE6\xC6\xE6\xEB\x0D\x00\x00\x00\r\n\
        0\r\n\
        \r\n";

    let response = mocked_request(&url, raw_response).unwrap();

    assert_eq!(response, "Hello, world!");
}

#[test]
fn cache_idempotence_issues_one_request() {
    let url = Url::parse("http://example.org").unwrap();
    let http_url = http_url_of(&url);
    let raw_response = b"\
        HTTP/1.1 200 OK\r\n\
        Content-Length: 5\r\n\
        \r\n\
        first";

    let mut pool = ConnectionPool::new();
    pool.set_connection(
        &http_url,
        Connection {
            transport: FakeStream::new(raw_response),
            buffer: Vec::new(),
        },
    );
    let mut cache = RequestCache::new();
    let mut platform = FakePlatform::new();

    let one = request(&url, &mut pool, &mut cache, &mut platform).unwrap();
    let two = request(&url, &mut pool, &mut cache, &mut platform).unwrap();

    assert_eq!(one, "first");
    assert_eq!(one, two);
    let conn = pool.take_connection(&http_url).unwrap();
    assert_eq!(conn.transport.request_count(), 1);
    assert_eq!(platform.connects, 0);
}

#[test]
fn cache_staleness_window() {
    let url = Url::parse("http://example.org").unwrap();
    let http_url = http_url_of(&url);
    // Two responses on one stream; the second is read only on the refetch.
    let raw_response = b"\
        HTTP/1.1 200 OK\r\n\
        Cache-Control: max-age=1\r\n\
        Content-Length: 3\r\n\
        \r\n\
        one\
        HTTP/1.1 200 OK\r\n\
        Cache-Control: max-age=1\r\n\
        Content-Length: 3\r\n\
        \r\n\
        two";

    let mut pool = ConnectionPool::new();
    pool.set_connection(
        &http_url,
        Connection {
            transport: FakeStream::new(raw_response),
            buffer: Vec::new(),
        },
    );
    let mut cache = RequestCache::new();
    let mut platform = FakePlatform::new();

    platform.now = 1000;
    assert_eq!(request(&url, &mut pool, &mut cache, &mut platform).unwrap(), "one");
    // Within the second: served from cache.
    platform.now = 1900;
    assert_eq!(request(&url, &mut pool, &mut cache, &mut platform).unwrap(), "one");
    // Exactly at the boundary: still fresh.
    platform.now = 2000;
    assert_eq!(request(&url, &mut pool, &mut cache, &mut platform).unwrap(), "one");
    // Past max-age: the entry is treated as absent and refetched.
    platform.now = 2001;
    assert_eq!(request(&url, &mut pool, &mut cache, &mut platform).unwrap(), "two");
}

#[test]
fn redirect_bound_gives_up_after_five_hops() {
    let url = Url::parse("http://example.org").unwrap();
    let http_url = http_url_of(&url);
    let mut raw: Vec<u8> = Vec::new();
    for i in 0..6 {
        raw.extend_from_slice(
            format!(
                "HTTP/1.1 301 Moved Permanently\r\nLocation: /hop{}\r\nContent-Length: 0\r\n\r\n",
                i
            )
            .as_bytes(),
        );
    }

    let mut pool = ConnectionPool::new();
    pool.set_connection(
        &http_url,
        Connection {
            transport: FakeStream::new(&raw),
            buffer: Vec::new(),
        },
    );
    let mut cache = RequestCache::new();
    let mut platform = FakePlatform::new();

    let result = request(&url, &mut pool, &mut cache, &mut platform);
    assert_eq!(result, Err(FetchError::TooManyRedirects));
    let conn = pool.take_connection(&http_url).unwrap();
    assert!(conn.transport.request_count() <= 5);
    assert_eq!(conn.transport.request_count(), 5);
}

#[test]
fn connection_reuse_over_sequential_requests() {
    let url = Url::parse("http://example.org").unwrap();
    let http_url = http_url_of(&url);
    // Uncacheable responses force both fetches onto the network.
    let raw_response = b"\
        HTTP/1.1 200 OK\r\n\
        Cache-Control: no-store\r\n\
        Content-Length: 3\r\n\
        \r\n\
        one\
        HTTP/1.1 200 OK\r\n\
        Cache-Control: no-store\r\n\
        Content-Length: 3\r\n\
        \r\n\
        two";

    let mut pool = ConnectionPool::new();
    pool.set_connection(
        &http_url,
        Connection {
            transport: FakeStream::new(raw_response),
            buffer: Vec::new(),
        },
    );
    let mut cache = RequestCache::new();
    let mut platform = FakePlatform::new();

    assert_eq!(request(&url, &mut pool, &mut cache, &mut platform).unwrap(), "one");
    assert_eq!(request(&url, &mut pool, &mut cache, &mut platform).unwrap(), "two");
    // One pooled stream carried both exchanges; no new handshake happened.
    assert_eq!(platform.connects, 0);
    let conn = pool.take_connection(&http_url).unwrap();
    assert_eq!(conn.transport.request_count(), 2);
}

#[test]
fn pool_miss_connects_once() {
    let url = Url::parse("http://example.org").unwrap();
    let mut pool = ConnectionPool::new();
    let mut cache = RequestCache::new();
    let mut platform = FakePlatform::new();
    platform.responses.push(
        b"HTTP/1.1 200 OK\r\nContent-Length: 2\r\n\r\nok".to_vec(),
    );

    assert_eq!(request(&url, &mut pool, &mut cache, &mut platform).unwrap(), "ok");
    assert_eq!(platform.connects, 1);
}

#[test]
fn connect_failure_is_reported() {
    let url = Url::parse("http://example.org").unwrap();
    let mut pool = ConnectionPool::new();
    let mut cache = RequestCache::new();
    let mut platform = FakePlatform::new();

    let result = request(&url, &mut pool, &mut cache, &mut platform);
    assert_eq!(result, Err(FetchError::ConnectError));
}

#[test]
fn header_line_without_colon_is_malformed() {
    let url = Url::parse("http://example.org").unwrap();
    let raw_response = b"HTTP/1.1 200 OK\r\nBadHeader\r\n\r\n";
    assert_eq!(
        mocked_request(&url, raw_response),
        Err(FetchError::MalformedResponse)
    );
}

#[test]
fn missing_content_length_is_malformed() {
    let url = Url::parse("http://example.org").unwrap();
    let raw_response = b"HTTP/1.1 200 OK\r\n\r\n";
    assert_eq!(
        mocked_request(&url, raw_response),
        Err(FetchError::MalformedResponse)
    );
}

#[test]
fn short_status_line_is_malformed() {
    let url = Url::parse("http://example.org").unwrap();
    let raw_response = b"HTTP/1.1 200\r\nContent-Length: 0\r\n\r\n";
    assert_eq!(
        mocked_request(&url, raw_response),
        Err(FetchError::MalformedResponse)
    );
}

#[test]
fn unhandled_transfer_encoding_is_refused() {
    let url = Url::parse("http://example.org").unwrap();
    let raw_response = b"\
        HTTP/1.1 200 OK\r\n\
        Transfer-Encoding: zipped\r\n\
        \r\n";
    assert_eq!(
        mocked_request(&url, raw_response),
        Err(FetchError::UnhandledTransferEncoding)
    );
}

#[test]
fn truncated_body_is_an_io_error() {
    let url = Url::parse("http://example.org").unwrap();
    let raw_response = b"HTTP/1.1 200 OK\r\nContent-Length: 100\r\n\r\nshort";
    assert_eq!(mocked_request(&url, raw_response), Err(FetchError::IoError));
}

#[test]
fn bad_gzip_is_an_encoding_error() {
    let url = Url::parse("http://example.org").unwrap();
    let raw_response = b"\
        HTTP/1.1 200 OK\r\n\
        Content-Encoding: gzip\r\n\
        Content-Length: 9\r\n\
        \r\n\
        not-gzip!";
    assert_eq!(
        mocked_request(&url, raw_response),
        Err(FetchError::EncodingError)
    );
}

#[test]
fn invalid_utf8_body_is_an_encoding_error() {
    let url = Url::parse("http://example.org").unwrap();
    let raw_response = b"HTTP/1.1 200 OK\r\nContent-Length: 2\r\n\r\n\xFF\xFE";
    assert_eq!(
        mocked_request(&url, raw_response),
        Err(FetchError::EncodingError)
    );
}

#[test]
fn multibyte_utf8_body_is_decoded() {
    let url = Url::parse("http://example.org").unwrap();
    let raw_response = "HTTP/1.1 200 OK\r\nContent-Length: 6\r\n\r\nh\u{e9}llo".as_bytes();
    assert_eq!(mocked_request(&url, raw_response).unwrap(), "h\u{e9}llo");
}

#[test]
fn uppercase_hex_chunk_sizes_are_accepted() {
    let url = Url::parse("http://example.org").unwrap();
    let raw_response = b"\
        HTTP/1.1 200 OK\r\n\
        Transfer-Encoding: chunked\r\n\
        \r\n\
        D\r\n\
        Hello, world!\r\n\
        0\r\n\
        \r\n";
    assert_eq!(mocked_request(&url, raw_response).unwrap(), "Hello, world!");
}

#[test]
fn redirect_to_non_http_url_is_invalid() {
    let url = Url::parse("http://example.org").unwrap();
    let raw_response = b"\
        HTTP/1.1 301 Moved Permanently\r\n\
        Location: data:text/html,x\r\n\
        Content-Length: 0\r\n\
        \r\n";
    assert_eq!(
        mocked_request(&url, raw_response),
        Err(FetchError::InvalidRedirect)
    );
}

#[test]
fn redirect_to_garbage_is_malformed() {
    let url = Url::parse("http://example.org").unwrap();
    let raw_response = b"\
        HTTP/1.1 301 Moved Permanently\r\n\
        Location: nourl\r\n\
        Content-Length: 0\r\n\
        \r\n";
    assert_eq!(
        mocked_request(&url, raw_response),
        Err(FetchError::MalformedUrl)
    );
}

#[test]
fn redirect_to_unsupported_scheme_is_reported() {
    let url = Url::parse("http://example.org").unwrap();
    let raw_response = b"\
        HTTP/1.1 301 Moved Permanently\r\n\
        Location: ftp://example.org/file\r\n\
        Content-Length: 0\r\n\
        \r\n";
    assert_eq!(
        mocked_request(&url, raw_response),
        Err(FetchError::UnsupportedScheme)
    );
}

#[test]
fn missing_location_on_redirect_is_malformed() {
    let url = Url::parse("http://example.org").unwrap();
    let raw_response = b"HTTP/1.1 301 Moved Permanently\r\nContent-Length: 0\r\n\r\n";
    assert_eq!(
        mocked_request(&url, raw_response),
        Err(FetchError::MalformedResponse)
    );
}

#[test]
fn error_status_bodies_are_returned_verbatim() {
    let url = Url::parse("http://example.org").unwrap();
    let raw_response = b"HTTP/1.1 404 Not Found\r\nContent-Length: 7\r\n\r\nmissing";
    assert_eq!(mocked_request(&url, raw_response).unwrap(), "missing");
}

#[test]
fn data_request_returns_contents() {
    let url = Url::parse("data:text/html,Hello world!").unwrap();
    let mut pool: ConnectionPool<FakeStream> = ConnectionPool::new();
    let mut cache = RequestCache::new();
    let mut platform = FakePlatform::new();
    assert_eq!(
        request(&url, &mut pool, &mut cache, &mut platform).unwrap(),
        "Hello world!"
    );
}

#[test]
fn view_source_data_request_is_escaped() {
    let url = Url::parse("view-source:data:text/html,<b>&x</b>").unwrap();
    let mut pool: ConnectionPool<FakeStream> = ConnectionPool::new();
    let mut cache = RequestCache::new();
    let mut platform = FakePlatform::new();
    assert_eq!(
        request(&url, &mut pool, &mut cache, &mut platform).unwrap(),
        "&lt;b&gt;&amp;x&lt;/b&gt;"
    );
}

#[test]
fn builtin_request_is_empty() {
    let url = Url::parse("about:blank").unwrap();
    let mut pool: ConnectionPool<FakeStream> = ConnectionPool::new();
    let mut cache = RequestCache::new();
    let mut platform = FakePlatform::new();
    assert_eq!(request(&url, &mut pool, &mut cache, &mut platform).unwrap(), "");
}

#[test]
fn file_request_reads_through_the_platform() {
    let url = Url::parse("file:///tmp/welcome.html").unwrap();
    let mut pool: ConnectionPool<FakeStream> = ConnectionPool::new();
    let mut cache = RequestCache::new();
    let mut platform = FakePlatform::new();
    platform
        .files
        .push(("/tmp/welcome.html".to_string(), "<h1>hi</h1>".to_string()));
    assert_eq!(
        request(&url, &mut pool, &mut cache, &mut platform).unwrap(),
        "<h1>hi</h1>"
    );

    let missing = Url::parse("file:///tmp/absent.html").unwrap();
    assert_eq!(
        request(&missing, &mut pool, &mut cache, &mut platform),
        Err(FetchError::IoError)
    );
}
