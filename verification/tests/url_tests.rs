use bowsernet::url::{BuiltinUrl, DataUrl, FileUrl, HttpUrl, ParseError, Scheme, Url};

#[test]
fn url_parse_http() {
    let expected = Url {
        scheme: Scheme::Http(HttpUrl {
            tls: false,
            host: "example.org".to_string(),
            port: 80,
            path: "/index.html".to_string(),
        }),
        view_source: false,
    };
    assert_eq!(
        expected,
        Url::parse("http://example.org/index.html").unwrap()
    );
}

#[test]
fn url_parse_http_with_no_path() {
    let expected = Url {
        scheme: Scheme::Http(HttpUrl {
            tls: false,
            host: "example.org".to_string(),
            port: 80,
            path: "/".to_string(),
        }),
        view_source: false,
    };
    assert_eq!(expected, Url::parse("http://example.org").unwrap());
}

#[test]
fn url_parse_http_with_explicit_port() {
    let expected = Url {
        scheme: Scheme::Http(HttpUrl {
            tls: false,
            host: "example.org".to_string(),
            port: 3000,
            path: "/index.html".to_string(),
        }),
        view_source: false,
    };
    assert_eq!(
        expected,
        Url::parse("http://example.org:3000/index.html").unwrap()
    );
}

#[test]
fn url_parse_http_with_view_source() {
    let expected = Url {
        scheme: Scheme::Http(HttpUrl {
            tls: false,
            host: "example.org".to_string(),
            port: 80,
            path: "/index.html".to_string(),
        }),
        view_source: true,
    };
    assert_eq!(
        expected,
        Url::parse("view-source:http://example.org/index.html").unwrap()
    );
}

#[test]
fn url_parse_https() {
    let expected = Url {
        scheme: Scheme::Http(HttpUrl {
            tls: true,
            host: "example.org".to_string(),
            port: 443,
            path: "/index.html".to_string(),
        }),
        view_source: false,
    };
    assert_eq!(
        expected,
        Url::parse("https://example.org/index.html").unwrap()
    );
}

#[test]
fn url_parse_file() {
    let expected = Url {
        scheme: Scheme::File(FileUrl {
            path: "/etc/test.html".to_string(),
        }),
        view_source: false,
    };
    assert_eq!(expected, Url::parse("file:///etc/test.html").unwrap());
}

#[test]
fn url_parse_data() {
    let expected = Url {
        scheme: Scheme::Data(DataUrl {
            content_type: "text/html".to_string(),
            contents: "Hello world!".to_string(),
        }),
        view_source: false,
    };
    assert_eq!(expected, Url::parse("data:text/html,Hello world!").unwrap());
}

#[test]
fn display_http_url() {
    let url = Url {
        scheme: Scheme::Http(HttpUrl {
            tls: false,
            host: "example.org".to_string(),
            port: 80,
            path: "/index.html".to_string(),
        }),
        view_source: false,
    };
    assert_eq!(url.to_display_string(), "http://example.org:80/index.html");
}

#[test]
fn display_https_url() {
    let url = Url {
        scheme: Scheme::Http(HttpUrl {
            tls: true,
            host: "example.org".to_string(),
            port: 80,
            path: "/index.html".to_string(),
        }),
        view_source: false,
    };
    assert_eq!(url.to_display_string(), "https://example.org:80/index.html");
}

#[test]
fn display_view_source_url() {
    let url = Url {
        scheme: Scheme::Http(HttpUrl {
            tls: false,
            host: "example.org".to_string(),
            port: 80,
            path: "/index.html".to_string(),
        }),
        view_source: true,
    };
    assert_eq!(
        url.to_display_string(),
        "view-source:http://example.org:80/index.html"
    );
}

#[test]
fn display_file_url() {
    let url = Url {
        scheme: Scheme::File(FileUrl {
            path: "/etc/passwd".to_string(),
        }),
        view_source: false,
    };
    assert_eq!(url.to_display_string(), "file:///etc/passwd");
}

#[test]
fn display_data_url() {
    let url = Url {
        scheme: Scheme::Data(DataUrl {
            content_type: "text/html".to_string(),
            contents: "<b>Hello world!</b>".to_string(),
        }),
        view_source: false,
    };
    assert_eq!(url.to_display_string(), "data:text/html,<b>Hello world!</b>");
}

#[test]
fn url_parse_builtin() {
    let expected = Url {
        scheme: Scheme::Builtin(BuiltinUrl::AboutBlank),
        view_source: false,
    };
    assert_eq!(expected, Url::parse("about:blank").unwrap());
    assert_eq!(expected, Url::parse("About:Blank").unwrap());
    assert_eq!("about:blank", expected.to_display_string());
}

#[test]
fn url_roundtrip_examples() {
    // The round-trip law on a few concrete values: parse(display(u)) == u.
    let urls = vec![
        Url {
            scheme: Scheme::Http(HttpUrl {
                tls: true,
                host: "a.example".to_string(),
                port: 8443,
                path: "/x/y?q=1".to_string(),
            }),
            view_source: true,
        },
        Url {
            scheme: Scheme::Http(HttpUrl {
                tls: false,
                host: "".to_string(),
                port: 65535,
                path: "/".to_string(),
            }),
            view_source: false,
        },
    ];
    for url in urls {
        let formatted = url.to_display_string();
        assert_eq!(url, Url::parse(&formatted).unwrap());
    }
}

#[test]
fn url_parse_rejects_garbage() {
    assert_eq!(Err(ParseError::MalformedUrl), Url::parse("no scheme here"));
    assert_eq!(Err(ParseError::UnsupportedScheme), Url::parse("ftp://example.org/"));
    assert_eq!(Err(ParseError::MalformedUrl), Url::parse("data:missing-comma"));
    assert_eq!(Err(ParseError::MalformedUrl), Url::parse("http://example.org:notaport/"));
}
