use bowsernet::cache::CacheEntry;
use bowsernet::html::{lex, translate_entity, Token};
use bowsernet::url::{HttpUrl, Scheme, Url};
use bowsernet::RequestCache;

fn http_url(s: &str) -> HttpUrl {
    match Url::parse(s).unwrap().scheme {
        Scheme::Http(h) => h,
        _ => panic!("not an HTTP URL"),
    }
}

#[test]
fn cache_set_then_get_returns_the_body() {
    let url = http_url("http://example.org/page");
    let mut cache = RequestCache::new();
    cache.set(&url, "body", None, 100);
    assert_eq!(cache.get(&url, 100), Some("body"));
    // No max-age: the entry never expires by time.
    assert_eq!(cache.get(&url, u64::MAX), Some("body"));
}

#[test]
fn cache_misses_on_other_urls() {
    let url = http_url("http://example.org/page");
    let other = http_url("http://example.org/other");
    let mut cache = RequestCache::new();
    cache.set(&url, "body", None, 0);
    assert_eq!(cache.get(&other, 0), None);
}

#[test]
fn cache_overwrites_unconditionally() {
    let url = http_url("http://example.org/page");
    let mut cache = RequestCache::new();
    cache.set(&url, "old", Some(1), 0);
    // The old entry is stale at this point, yet set still overwrites it.
    cache.set(&url, "new", None, 5000);
    assert_eq!(cache.get(&url, 5000), Some("new"));
}

#[test]
fn cache_distinguishes_tls_and_port() {
    let plain = http_url("http://example.org/");
    let tls = http_url("https://example.org/");
    let port = http_url("http://example.org:8080/");
    let mut cache = RequestCache::new();
    cache.set(&plain, "plain", None, 0);
    assert_eq!(cache.get(&tls, 0), None);
    assert_eq!(cache.get(&port, 0), None);
}

#[test]
fn entry_is_stale_only_past_max_age() {
    let entry = CacheEntry {
        response: "body".to_string(),
        max_age: Some(1),
        fetched_at: 1000,
    };
    assert!(!entry.is_stale(1000));
    assert!(!entry.is_stale(2000));
    assert!(entry.is_stale(2001));

    let forever = CacheEntry {
        response: "body".to_string(),
        max_age: None,
        fetched_at: 1000,
    };
    assert!(!forever.is_stale(u64::MAX));
}

#[test]
fn lex_splits_tags_and_text() {
    let tokens = lex("<p>hi</p>");
    assert_eq!(
        tokens,
        vec![
            Token::Tag("p".to_string()),
            Token::Text("hi".to_string()),
            Token::Tag("/p".to_string()),
        ]
    );
}

#[test]
fn lex_lowercases_tags() {
    let tokens = lex("<DIV>x</DIV>");
    assert_eq!(
        tokens,
        vec![
            Token::Tag("div".to_string()),
            Token::Text("x".to_string()),
            Token::Tag("/div".to_string()),
        ]
    );
}

#[test]
fn lex_translates_entities() {
    let tokens = lex("a &lt; b &amp; c &gt; d");
    assert_eq!(tokens, vec![Token::Text("a < b & c > d".to_string())]);
}

#[test]
fn lex_keeps_unknown_entities_verbatim() {
    let tokens = lex("x &nosuch; y");
    assert_eq!(tokens, vec![Token::Text("x &nosuch; y".to_string())]);
}

#[test]
fn lex_flushes_pending_text_at_end() {
    let tokens = lex("tail text");
    assert_eq!(tokens, vec![Token::Text("tail text".to_string())]);
    let tokens = lex("broken &amp");
    assert_eq!(tokens, vec![Token::Text("broken &amp".to_string())]);
}

#[test]
fn lex_empty_input_gives_no_tokens() {
    assert_eq!(lex(""), Vec::<Token>::new());
}

#[test]
fn translate_entity_table() {
    assert_eq!(translate_entity("gt"), Some(">"));
    assert_eq!(translate_entity("lt"), Some("<"));
    assert_eq!(translate_entity("amp"), Some("&"));
    assert_eq!(translate_entity("hellip"), Some("\u{2026}"));
    assert_eq!(translate_entity("rsquo"), Some("\u{2019}"));
    assert_eq!(translate_entity("ldquo"), Some("\u{201c}"));
    assert_eq!(translate_entity("rdquo"), Some("\u{201d}"));
    assert_eq!(translate_entity("nosuch"), None);
}
