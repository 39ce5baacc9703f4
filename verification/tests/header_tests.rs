use bowsernet::http::headers::{CacheControl, Headers};

#[test]
fn headers_keyed_by_lowercase() {
    let headers = Headers::new().add("Host", "example.org");

    assert!(headers.contains("Host"));
    assert!(headers.contains("host"));
    assert!(!headers.contains("nonexistent"));
}

#[test]
fn headers_set_overwrites_or_adds() {
    let mut headers = Headers::new();
    headers.set("Host", "example.org");
    headers.set("host", "example.com");

    assert_eq!(Some("example.com"), headers.get("Host"));
    assert_eq!(Some("example.com"), headers.get("host"));
}

#[test]
fn headers_to_http_string() {
    let headers = Headers::new()
        .add("Host", "example.org")
        .add("Connection", "close");

    let http_string = headers.to_http_string();

    assert!(
        http_string == "Host: example.org\r\nConnection: close\r\n"
            || http_string == "Connection: close\r\nHost: example.org\r\n"
    );
}

#[test]
fn headers_overwrite_keeps_new_casing() {
    let mut headers = Headers::new();
    headers.set("host", "a");
    headers.set("HOST", "b");
    assert_eq!(headers.to_http_string(), "HOST: b\r\n");
}

#[test]
fn cache_control_no_store() {
    let cc = CacheControl::parse("no-store");
    assert!(cc.no_store);
    assert_eq!(cc.max_age, None);
}

#[test]
fn cache_control_max_age() {
    let cc = CacheControl::parse("max-age=60");
    assert!(!cc.no_store);
    assert_eq!(cc.max_age, Some(60));
}

#[test]
fn cache_control_max_age_zero_means_no_expiry() {
    // A zero max-age is dropped rather than treated as already-expired.
    let cc = CacheControl::parse("max-age=0");
    assert!(!cc.no_store);
    assert_eq!(cc.max_age, None);
}

#[test]
fn cache_control_is_case_insensitive_and_trimmed() {
    let cc = CacheControl::parse(" No-Store , MAX-AGE=5 ");
    assert!(cc.no_store);
    assert_eq!(cc.max_age, Some(5));
}

#[test]
fn cache_control_unreadable_max_age_clears_it() {
    let cc = CacheControl::parse("max-age=7, max-age=oops");
    assert_eq!(cc.max_age, None);
    let cc = CacheControl::parse("public, private");
    assert!(!cc.no_store);
    assert_eq!(cc.max_age, None);
}
