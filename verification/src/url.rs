//! The URL model: a parsed URL is a `view_source` flag plus a tagged scheme
//! (HTTP(S), file, data, or a recognized builtin). Parsing and formatting are
//! pure; their exact behaviour is pinned by `spec_parse` and `unparse`.

use vstd::prelude::*;

verus! {

use crate::text::{
    chars_of, string_of, to_lower, lower, chars_eq, subvec, has_prefix, has_prefix_exec, find_char,
    find_char_exec, rfind_char, rfind_char_exec, find_str, find_str_exec, dec_chars, push_dec_u64,
    parse_u16, parse_u16_exec,
};

// ---------------------------------------------------------------------------
// The data model
// ---------------------------------------------------------------------------

/// A parsed URL: the scheme payload plus the `view-source:` flag.
#[derive(Debug, PartialEq)]
pub struct Url {
    pub scheme: Scheme,
    pub view_source: bool,
}

#[derive(Debug, PartialEq)]
pub enum Scheme {
    Http(HttpUrl),
    File(FileUrl),
    Data(DataUrl),
    Builtin(BuiltinUrl),
}

#[derive(Debug, PartialEq)]
pub struct HttpUrl {
    pub tls: bool,
    pub host: String,
    pub port: u16,
    pub path: String,
}

#[derive(Debug, PartialEq)]
pub struct FileUrl {
    pub path: String,
}

#[derive(Debug, PartialEq)]
pub struct DataUrl {
    pub content_type: String,
    pub contents: String,
}

#[derive(Debug, PartialEq)]
pub enum BuiltinUrl {
    AboutBlank,
}

/// Why a URL string was rejected.
#[derive(Debug, Clone, Copy, PartialEq, Eq, Structural)]
pub enum ParseError {
    /// The input has no recognizable shape (missing scheme separator, data
    /// URL without a comma, unparseable port).
    MalformedUrl,
    /// The scheme is none of the supported ones and no explicit port names
    /// the endpoint.
    UnsupportedScheme,
}

// ---------------------------------------------------------------------------
// Mathematical views
// ---------------------------------------------------------------------------

pub struct UrlView {
    pub scheme: SchemeView,
    pub view_source: bool,
}

pub enum SchemeView {
    Http(HttpUrlView),
    File(Seq<char>),
    Data(DataUrlView),
    Builtin,
}

pub struct HttpUrlView {
    pub tls: bool,
    pub host: Seq<char>,
    pub port: u16,
    pub path: Seq<char>,
}

pub struct DataUrlView {
    pub content_type: Seq<char>,
    pub contents: Seq<char>,
}

impl Clone for HttpUrl {
    /// A field-for-field copy.
    fn clone(&self) -> (r: HttpUrl)
        ensures
            r@ == self@,
    {
        HttpUrl {
            tls: self.tls,
            host: self.host.clone(),
            port: self.port,
            path: self.path.clone(),
        }
    }
}

impl View for HttpUrl {
    type V = HttpUrlView;

    open spec fn view(&self) -> HttpUrlView {
        HttpUrlView { tls: self.tls, host: self.host@, port: self.port, path: self.path@ }
    }
}

impl View for Scheme {
    type V = SchemeView;

    open spec fn view(&self) -> SchemeView {
        match self {
            Scheme::Http(h) => SchemeView::Http(h@),
            Scheme::File(f) => SchemeView::File(f.path@),
            Scheme::Data(d) => SchemeView::Data(
                DataUrlView { content_type: d.content_type@, contents: d.contents@ },
            ),
            Scheme::Builtin(_) => SchemeView::Builtin,
        }
    }
}

impl View for Url {
    type V = UrlView;

    open spec fn view(&self) -> UrlView {
        UrlView { scheme: self.scheme@, view_source: self.view_source }
    }
}

// ---------------------------------------------------------------------------
// The fixed tokens of the grammar
// ---------------------------------------------------------------------------

pub open spec fn about_blank_chars() -> Seq<char> {
    seq!['a', 'b', 'o', 'u', 't', ':', 'b', 'l', 'a', 'n', 'k']
}

pub open spec fn view_source_prefix() -> Seq<char> {
    seq!['v', 'i', 'e', 'w', '-', 's', 'o', 'u', 'r', 'c', 'e', ':']
}

pub open spec fn data_prefix() -> Seq<char> {
    seq!['d', 'a', 't', 'a', ':']
}

pub open spec fn scheme_separator() -> Seq<char> {
    seq![':', '/', '/']
}

pub open spec fn file_chars() -> Seq<char> {
    seq!['f', 'i', 'l', 'e']
}

pub open spec fn http_chars() -> Seq<char> {
    seq!['h', 't', 't', 'p']
}

pub open spec fn https_chars() -> Seq<char> {
    seq!['h', 't', 't', 'p', 's']
}

fn about_blank_vec() -> (r: Vec<char>)
    ensures
        r@ == about_blank_chars(),
{
    let r = chars_of("about:blank");
    proof {
        reveal_strlit("about:blank");
        assert(r@ =~= about_blank_chars());
    }
    r
}

fn view_source_prefix_vec() -> (r: Vec<char>)
    ensures
        r@ == view_source_prefix(),
{
    let r = chars_of("view-source:");
    proof {
        reveal_strlit("view-source:");
        assert(r@ =~= view_source_prefix());
    }
    r
}

fn data_prefix_vec() -> (r: Vec<char>)
    ensures
        r@ == data_prefix(),
{
    let r = chars_of("data:");
    proof {
        reveal_strlit("data:");
        assert(r@ =~= data_prefix());
    }
    r
}

fn scheme_separator_vec() -> (r: Vec<char>)
    ensures
        r@ == scheme_separator(),
{
    let r = chars_of("://");
    proof {
        reveal_strlit("://");
        assert(r@ =~= scheme_separator());
    }
    r
}

fn file_vec() -> (r: Vec<char>)
    ensures
        r@ == file_chars(),
{
    let r = chars_of("file");
    proof {
        reveal_strlit("file");
        assert(r@ =~= file_chars());
    }
    r
}

fn http_vec() -> (r: Vec<char>)
    ensures
        r@ == http_chars(),
{
    let r = chars_of("http");
    proof {
        reveal_strlit("http");
        assert(r@ =~= http_chars());
    }
    r
}

fn https_vec() -> (r: Vec<char>)
    ensures
        r@ == https_chars(),
{
    let r = chars_of("https");
    proof {
        reveal_strlit("https");
        assert(r@ =~= https_chars());
    }
    r
}

// ---------------------------------------------------------------------------
// Formatting
// ---------------------------------------------------------------------------

/// The canonical string of an HTTP(S) URL: `http[s]://host:port/path`,
/// with the port always written out.
pub open spec fn unparse_http(h: HttpUrlView) -> Seq<char> {
    http_chars() + (if h.tls {
        seq!['s']
    } else {
        Seq::<char>::empty()
    }) + scheme_separator() + h.host + seq![':'] + dec_chars(h.port as int) + h.path
}

/// The canonical string of any URL, as formatting produces it.
pub open spec fn unparse(u: UrlView) -> Seq<char> {
    (if u.view_source {
        view_source_prefix()
    } else {
        Seq::<char>::empty()
    }) + match u.scheme {
        SchemeView::Http(h) => unparse_http(h),
        SchemeView::File(p) => file_chars() + scheme_separator() + p,
        SchemeView::Data(d) => data_prefix() + d.content_type + seq![','] + d.contents,
        SchemeView::Builtin => about_blank_chars(),
    }
}

impl HttpUrl {
    /// Formats the URL as `http[s]://host:port/path`.
    pub fn to_display_string(&self) -> (r: String)
        ensures
            r@ == unparse_http(self@),
    {
        let mut out: Vec<char> = Vec::new();
        out.push('h');
        out.push('t');
        out.push('t');
        out.push('p');
        if self.tls {
            out.push('s');
        }
        out.push(':');
        out.push('/');
        out.push('/');
        let mut host = chars_of(self.host.as_str());
        out.append(&mut host);
        out.push(':');
        push_dec_u64(&mut out, self.port as u64);
        let mut path = chars_of(self.path.as_str());
        out.append(&mut path);
        proof {
            assert(out@ =~= unparse_http(self@));
        }
        string_of(&out)
    }
}

impl FileUrl {
    /// Formats the URL as `file://path`.
    pub fn to_display_string(&self) -> (r: String)
        ensures
            r@ == file_chars() + scheme_separator() + self.path@,
    {
        let mut out: Vec<char> = Vec::new();
        out.push('f');
        out.push('i');
        out.push('l');
        out.push('e');
        out.push(':');
        out.push('/');
        out.push('/');
        let mut path = chars_of(self.path.as_str());
        out.append(&mut path);
        proof {
            assert(out@ =~= file_chars() + scheme_separator() + self.path@);
        }
        string_of(&out)
    }
}

impl DataUrl {
    /// Formats the URL as `data:content_type,contents`.
    pub fn to_display_string(&self) -> (r: String)
        ensures
            r@ == data_prefix() + self.content_type@ + seq![','] + self.contents@,
    {
        let mut out: Vec<char> = Vec::new();
        out.push('d');
        out.push('a');
        out.push('t');
        out.push('a');
        out.push(':');
        let mut ct = chars_of(self.content_type.as_str());
        out.append(&mut ct);
        out.push(',');
        let mut contents = chars_of(self.contents.as_str());
        out.append(&mut contents);
        proof {
            assert(out@ =~= data_prefix() + self.content_type@ + seq![','] + self.contents@);
        }
        string_of(&out)
    }
}

impl BuiltinUrl {
    /// Formats the builtin URL (`about:blank`).
    pub fn to_display_string(&self) -> (r: String)
        ensures
            r@ == about_blank_chars(),
    {
        let v = about_blank_vec();
        string_of(&v)
    }
}

impl Url {
    /// Formats the URL back to its string form, `view-source:` prefix
    /// included.
    pub fn to_display_string(&self) -> (r: String)
        ensures
            r@ == unparse(self@),
    {
        let mut out: Vec<char> = Vec::new();
        if self.view_source {
            let mut p = view_source_prefix_vec();
            out.append(&mut p);
        }
        let tail = match &self.scheme {
            Scheme::Http(h) => h.to_display_string(),
            Scheme::File(f) => f.to_display_string(),
            Scheme::Data(d) => d.to_display_string(),
            Scheme::Builtin(b) => b.to_display_string(),
        };
        let mut tail_chars = chars_of(tail.as_str());
        out.append(&mut tail_chars);
        proof {
            assert(out@ =~= unparse(self@));
        }
        string_of(&out)
    }
}

// ---------------------------------------------------------------------------
// Parsing
// ---------------------------------------------------------------------------

/// What parsing a URL string yields, for every input. The steps, in order:
/// a builtin name wins outright; an optional `view-source:` prefix is
/// stripped; `data:` URLs split at the first comma; everything else needs a
/// `://` separator; `file` takes the remainder as a path; otherwise the
/// remainder splits into authority (up to the first `/`) and path, and the
/// authority splits at its last `:` into host and explicit port, the port
/// defaulting by scheme (`http` 80, `https` 443) when absent.
pub open spec fn spec_parse(s: Seq<char>) -> Result<UrlView, ParseError> {
    if lower(s) == about_blank_chars() {
        Ok(UrlView { scheme: SchemeView::Builtin, view_source: false })
    } else {
        let vs = has_prefix(s, view_source_prefix());
        let rest = if vs {
            s.subrange(view_source_prefix().len() as int, s.len() as int)
        } else {
            s
        };
        if has_prefix(rest, data_prefix()) {
            let after = rest.subrange(data_prefix().len() as int, rest.len() as int);
            let comma = find_char(after, ',');
            if comma < 0 {
                Err(ParseError::MalformedUrl)
            } else {
                Ok(
                    UrlView {
                        scheme: SchemeView::Data(
                            DataUrlView {
                                content_type: after.subrange(0, comma),
                                contents: after.subrange(comma + 1, after.len() as int),
                            },
                        ),
                        view_source: vs,
                    },
                )
            }
        } else {
            let sep = find_str(rest, scheme_separator());
            if sep < 0 {
                Err(ParseError::MalformedUrl)
            } else {
                let scheme = rest.subrange(0, sep);
                let after = rest.subrange(sep + 3, rest.len() as int);
                if scheme == file_chars() {
                    Ok(UrlView { scheme: SchemeView::File(after), view_source: vs })
                } else {
                    let slash = find_char(after, '/');
                    let authority = if slash < 0 {
                        after
                    } else {
                        after.subrange(0, slash)
                    };
                    let path = seq!['/'] + (if slash < 0 {
                        Seq::<char>::empty()
                    } else {
                        after.subrange(slash + 1, after.len() as int)
                    });
                    let colon = rfind_char(authority, ':');
                    if colon >= 0 {
                        match parse_u16(authority.subrange(colon + 1, authority.len() as int)) {
                            Some(port) => Ok(
                                UrlView {
                                    scheme: SchemeView::Http(
                                        HttpUrlView {
                                            tls: scheme == https_chars(),
                                            host: authority.subrange(0, colon),
                                            port,
                                            path,
                                        },
                                    ),
                                    view_source: vs,
                                },
                            ),
                            None => Err(ParseError::MalformedUrl),
                        }
                    } else {
                        if scheme == http_chars() {
                            Ok(
                                UrlView {
                                    scheme: SchemeView::Http(
                                        HttpUrlView { tls: false, host: authority, port: 80, path },
                                    ),
                                    view_source: vs,
                                },
                            )
                        } else if scheme == https_chars() {
                            Ok(
                                UrlView {
                                    scheme: SchemeView::Http(
                                        HttpUrlView { tls: true, host: authority, port: 443, path },
                                    ),
                                    view_source: vs,
                                },
                            )
                        } else {
                            Err(ParseError::UnsupportedScheme)
                        }
                    }
                }
            }
        }
    }
}

impl Url {
    /// Parses a URL string. The result is exactly `spec_parse` of the input.
    pub fn parse(url: &str) -> (r: Result<Url, ParseError>)
        ensures
            match (r, spec_parse(url@)) {
                (Ok(u), Ok(v)) => u@ == v,
                (Err(e), Err(f)) => e == f,
                _ => false,
            },
    {
        if let Some(b) = parse_builtin(url) {
            return Ok(Url { scheme: Scheme::Builtin(b), view_source: false });
        }
        let s = chars_of(url);
        let vsp = view_source_prefix_vec();
        let view_source = has_prefix_exec(&s, &vsp);
        let rest = if view_source {
            subvec(&s, vsp.len(), s.len())
        } else {
            s
        };
        proof {
            if view_source {
                assert(rest@ == url@.subrange(view_source_prefix().len() as int, url@.len() as int));
            }
        }

        let dp = data_prefix_vec();
        if has_prefix_exec(&rest, &dp) {
            let after = subvec(&rest, dp.len(), rest.len());
            match find_char_exec(&after, ',') {
                None => {
                    return Err(ParseError::MalformedUrl);
                },
                Some(comma) => {
                    let content_type = subvec(&after, 0, comma);
                    let contents = subvec(&after, comma + 1, after.len());
                    return Ok(
                        Url {
                            scheme: Scheme::Data(
                                DataUrl {
                                    content_type: string_of(&content_type),
                                    contents: string_of(&contents),
                                },
                            ),
                            view_source,
                        },
                    );
                },
            }
        }

        let ssep = scheme_separator_vec();
        let sep = match find_str_exec(&rest, &ssep) {
            None => {
                return Err(ParseError::MalformedUrl);
            },
            Some(sep) => sep,
        };
        proof {
            crate::text::lemma_find_str(rest@, scheme_separator());
        }
        let rest_len = rest.len();
        let scheme = subvec(&rest, 0, sep);
        let after = subvec(&rest, sep + 3, rest_len);

        if chars_eq(&scheme, &file_vec()) {
            return Ok(
                Url { scheme: Scheme::File(FileUrl { path: string_of(&after) }), view_source },
            );
        }

        let slash = find_char_exec(&after, '/');
        let authority = match slash {
            None => subvec(&after, 0, after.len()),
            Some(i) => subvec(&after, 0, i),
        };
        proof {
            if slash is None {
                assert(authority@ =~= after@);
            }
        }
        let mut path_chars: Vec<char> = Vec::new();
        path_chars.push('/');
        match slash {
            None => {
                proof {
                    assert(path_chars@ =~= seq!['/'] + Seq::<char>::empty());
                }
            },
            Some(i) => {
                let mut tail = subvec(&after, i + 1, after.len());
                path_chars.append(&mut tail);
                proof {
                    assert(path_chars@ =~= seq!['/'] + after@.subrange(
                        i + 1,
                        after@.len() as int,
                    ));
                }
            },
        }
        let path = string_of(&path_chars);

        match rfind_char_exec(&authority, ':') {
            Some(colon) => {
                match parse_u16_exec(&authority, colon + 1, authority.len()) {
                    Some(port) => {
                        let host = subvec(&authority, 0, colon);
                        Ok(
                            Url {
                                scheme: Scheme::Http(
                                    HttpUrl {
                                        tls: chars_eq(&scheme, &https_vec()),
                                        host: string_of(&host),
                                        port,
                                        path,
                                    },
                                ),
                                view_source,
                            },
                        )
                    },
                    None => Err(ParseError::MalformedUrl),
                }
            },
            None => {
                if chars_eq(&scheme, &http_vec()) {
                    Ok(
                        Url {
                            scheme: Scheme::Http(
                                HttpUrl {
                                    tls: false,
                                    host: string_of(&authority),
                                    port: 80,
                                    path,
                                },
                            ),
                            view_source,
                        },
                    )
                } else if chars_eq(&scheme, &https_vec()) {
                    Ok(
                        Url {
                            scheme: Scheme::Http(
                                HttpUrl {
                                    tls: true,
                                    host: string_of(&authority),
                                    port: 443,
                                    path,
                                },
                            ),
                            view_source,
                        },
                    )
                } else {
                    Err(ParseError::UnsupportedScheme)
                }
            },
        }
    }
}

// ---------------------------------------------------------------------------
// The round-trip law
// ---------------------------------------------------------------------------

/// The shape every HTTP(S) URL the parser produces has: a path that begins
/// with `/` and a host free of `/`.
pub open spec fn http_url_wf(h: HttpUrlView) -> bool {
    &&& h.path.len() > 0
    &&& h.path[0] == '/'
    &&& forall|i: int| 0 <= i < h.host.len() ==> h.host[i] != '/'
}

/// The scheme separator of a formatted HTTP(S) URL is first found right
/// after the scheme token.
#[verifier::spinoff_prover]
#[verifier::rlimit(50)]
proof fn lemma_roundtrip_scheme_split(tls: bool, after_s: Seq<char>)
    ensures
        ({
            let scheme_s = if tls {
                https_chars()
            } else {
                http_chars()
            };
            let core = scheme_s + scheme_separator() + after_s;
            &&& find_str(core, scheme_separator()) == scheme_s.len()
            &&& core.subrange(0, scheme_s.len() as int) == scheme_s
            &&& core.subrange(scheme_s.len() as int + 3, core.len() as int) == after_s
            &&& core[0] == 'h'
            &&& core.len() == scheme_s.len() + 3 + after_s.len()
        }),
{
    let scheme_s = if tls {
        https_chars()
    } else {
        http_chars()
    };
    let sl = scheme_s.len() as int;
    let core = scheme_s + scheme_separator() + after_s;
    crate::text::lemma_find_str(core, scheme_separator());
    assert(core.subrange(sl, sl + 3) =~= scheme_separator());
    assert(crate::text::occurs_at(core, scheme_separator(), sl));
    assert forall|i: int| 0 <= i < sl implies !crate::text::occurs_at(
        core,
        scheme_separator(),
        i,
    ) by {
        if crate::text::occurs_at(core, scheme_separator(), i) {
            assert(core.subrange(i, i + 3)[0] == core[i]);
            assert(core[i] == scheme_s[i]);
            assert(false);
        }
    }
    assert(core.subrange(0, sl) =~= scheme_s);
    assert(core.subrange(sl + 3, core.len() as int) =~= after_s);
}

/// In `host:port/path`, the first `/` starts the path, and the last `:` of
/// what precedes it separates host from port digits.
proof fn lemma_roundtrip_authority_split(host: Seq<char>, dec: Seq<char>, path: Seq<char>)
    requires
        forall|i: int| 0 <= i < host.len() ==> host[i] != '/',
        forall|i: int| 0 <= i < dec.len() ==> crate::text::is_digit_char(#[trigger] dec[i]),
        dec.len() >= 1,
        path.len() > 0,
        path[0] == '/',
    ensures
        ({
            let after_s = host + seq![':'] + dec + path;
            let fs = host.len() as int + 1 + dec.len() as int;
            let authority = after_s.subrange(0, fs);
            &&& find_char(after_s, '/') == fs
            &&& seq!['/'] + after_s.subrange(fs + 1, after_s.len() as int) == path
            &&& rfind_char(authority, ':') == host.len()
            &&& authority.subrange(0, host.len() as int) == host
            &&& authority.subrange(host.len() as int + 1, authority.len() as int) == dec
        }),
{
    let after_s = host + seq![':'] + dec + path;
    let fs = host.len() as int + 1 + dec.len() as int;
    assert forall|i: int| 0 <= i < dec.len() implies dec[i] != '/' && dec[i] != ':' by {
        assert(crate::text::is_digit_char(dec[i]));
    }
    crate::text::lemma_find_char(after_s, '/');
    assert(after_s.len() == fs + path.len());
    assert(after_s[fs] == path[0]);
    assert forall|i: int| 0 <= i < fs implies after_s[i] != '/' by {
        if i < host.len() {
            assert(after_s[i] == host[i]);
        } else if i == host.len() {
            assert(after_s[i] == ':');
        } else {
            assert(after_s[i] == dec[i - host.len() - 1]);
        }
    }
    assert(find_char(after_s, '/') == fs);
    let authority = after_s.subrange(0, fs);
    assert(seq!['/'] + after_s.subrange(fs + 1, after_s.len() as int) =~= path);

    crate::text::lemma_rfind_char(authority, ':');
    let cl = host.len() as int;
    assert(authority[cl] == ':');
    assert forall|i: int| cl < i < authority.len() implies authority[i] != ':' by {
        assert(authority[i] == dec[i - cl - 1]);
    }
    assert(rfind_char(authority, ':') == cl);
    assert(authority.subrange(0, cl) =~= host);
    assert(authority.subrange(cl + 1, authority.len() as int) =~= dec);
}

/// Round-trip law: for every HTTP(S) URL value of the shape the parser
/// produces, formatting it and re-parsing the resulting string yields the
/// same value — host, port, TLS flag, path and `view-source:` flag included.
#[verifier::rlimit(100)]
pub proof fn lemma_parse_unparse_http(u: UrlView)
    requires
        u.scheme matches SchemeView::Http(h) && http_url_wf(h),
    ensures
        spec_parse(unparse(u)) == Ok::<UrlView, ParseError>(u),
{
    let h = u.scheme->Http_0;
    let vs = u.view_source;
    let dec = dec_chars(h.port as int);
    crate::text::lemma_dec_chars_digits(h.port as int);
    crate::text::lemma_dec_val_of_dec_chars(h.port as int);

    let scheme_s = if h.tls {
        https_chars()
    } else {
        http_chars()
    };
    let sl = scheme_s.len() as int;
    let after_s = h.host + seq![':'] + dec + h.path;
    let core = scheme_s + scheme_separator() + after_s;
    let t = unparse(u);
    lemma_roundtrip_scheme_split(h.tls, after_s);
    lemma_roundtrip_authority_split(h.host, dec, h.path);
    assert(unparse_http(h) =~= core);
    assert(t =~= (if vs {
        view_source_prefix()
    } else {
        Seq::<char>::empty()
    }) + core);

    // The whole string never lowercases to the builtin name.
    assert(t[0] == (if vs {
        'v'
    } else {
        'h'
    }));
    assert(lower(t)[0] == crate::text::lower_char(t[0]));
    if lower(t) == about_blank_chars() {
        assert(lower(t)[0] == 'a');
        assert(false);
    }

    // The view-source prefix is recognized exactly when it was written.
    let rest = if vs {
        t.subrange(view_source_prefix().len() as int, t.len() as int)
    } else {
        t
    };
    if vs {
        assert(t.subrange(0, 12) =~= view_source_prefix());
        assert(has_prefix(t, view_source_prefix()));
    } else {
        if has_prefix(t, view_source_prefix()) {
            assert(t.subrange(0, 12)[0] == t[0]);
            assert(false);
        }
    }
    assert(rest =~= core);

    // The remainder is no data: URL.
    if has_prefix(core, data_prefix()) {
        assert(core.subrange(0, 5)[0] == core[0]);
        assert(false);
    }

    // The scheme is not `file`, and is `https` exactly when TLS is on.
    if scheme_s == file_chars() {
        assert(scheme_s[0] == 'f');
        assert(false);
    }
    if h.tls {
        assert(scheme_s == https_chars());
    } else {
        if scheme_s == https_chars() {
            assert(scheme_s.len() == 5);
            assert(false);
        }
        assert(scheme_s == http_chars());
    }

    // The canonical port digits parse back to the port.
    assert(crate::text::all_digits(dec));
    assert(parse_u16(dec) == Some(h.port));

    assert(spec_parse(t) == Ok::<UrlView, ParseError>(u));
}

// ---------------------------------------------------------------------------
// Builtin names
// ---------------------------------------------------------------------------

/// Every HTTP(S) URL the parser yields has the shape `http_url_wf` asks
/// for: the parser re-prefixes the path with `/`, and the authority stops
/// at the first `/` of the remainder, so the host holds none.
pub proof fn lemma_parse_yields_wf(s: Seq<char>)
    requires
        spec_parse(s) matches Ok(u) && u.scheme is Http,
    ensures
        http_url_wf(spec_parse(s)->Ok_0.scheme->Http_0),
{
    let u = spec_parse(s)->Ok_0;
    let h = u.scheme->Http_0;
    let vs = has_prefix(s, view_source_prefix());
    let rest = if vs {
        s.subrange(view_source_prefix().len() as int, s.len() as int)
    } else {
        s
    };
    let sep = find_str(rest, scheme_separator());
    crate::text::lemma_find_str(rest, scheme_separator());
    let after = rest.subrange(sep + 3, rest.len() as int);
    let slash = find_char(after, '/');
    crate::text::lemma_find_char(after, '/');
    let authority = if slash < 0 {
        after
    } else {
        after.subrange(0, slash)
    };
    let colon = rfind_char(authority, ':');
    crate::text::lemma_rfind_char(authority, ':');
    assert forall|i: int| 0 <= i < authority.len() implies authority[i] != '/' by {
        if slash >= 0 {
            assert(authority[i] == after[i]);
        }
    }
    if colon >= 0 {
        assert(h.host == authority.subrange(0, colon));
        assert forall|i: int| 0 <= i < h.host.len() implies h.host[i] != '/' by {
            assert(h.host[i] == authority[i]);
        }
    } else {
        assert(h.host == authority);
    }
}

/// Recognizes a builtin URL: the input, lowercased, must be `about:blank`.
pub fn parse_builtin(url: &str) -> (r: Option<BuiltinUrl>)
    ensures
        r == if lower(url@) == about_blank_chars() {
            Some(BuiltinUrl::AboutBlank)
        } else {
            None::<BuiltinUrl>
        },
{
    let v = chars_of(url);
    let lowered = to_lower(&v);
    let blank = about_blank_vec();
    if chars_eq(&lowered, &blank) {
        Some(BuiltinUrl::AboutBlank)
    } else {
        None
    }
}

} // verus!

