//! Cookie and Set-Cookie parsing, formatting and the header boundary.

use taskflow::http::Cookie;
use taskflow::http::SetCookie;
use taskflow::http::set_cookie::SetCookieOptions;
use taskflow::http::set_cookie::fmt;

#[test]
fn set_cookie_from_header_values() {
    let header_value = "key=value; Max-Age=12345; Domain=eeee.com; HttpOnly; Secure; Path=/abcd/e";

    let values = vec![header_value.to_string()];

    let set_cookie = SetCookie::from_header_values(&values);

    let expected = SetCookie::new().set(
        "key",
        "value",
        SetCookieOptions::new()
            .http_only(true)
            .secure(true)
            .max_age(12345)
            .domain("eeee.com")
            .path("/abcd/e"),
    );

    assert_eq!(set_cookie, expected);
}

#[test]
fn set_cookie_store_roundtrip() {
    let mut sc = SetCookie::new().set(
        "token",
        "abc",
        SetCookieOptions::new().http_only(true),
    );
    assert!(!sc.is_empty());
    assert_eq!(sc.get("token"), Some("abc"));
    assert_eq!(sc.get("missing"), None);
    assert_eq!(sc.take("token"), Some("abc".to_string()));
    assert!(sc.is_empty());
    let sc2 = SetCookie::new().set("a", "1", SetCookieOptions::new()).remove("a");
    assert!(sc2.is_empty());
}

#[test]
fn set_cookie_fmt_writes_attributes_in_order() {
    let options = SetCookieOptions::new()
        .http_only(true)
        .secure(true)
        .max_age(-7)
        .domain("example.org")
        .path("/p");
    let line = fmt("k", "v", &options);
    assert_eq!(
        line,
        "k=v; Domain=example.org; Max-Age=-7; Path=/p; HttpOnly; Secure"
    );
    let bare = fmt("k", "v", &SetCookieOptions::new());
    assert_eq!(bare, "k=v");
}

#[test]
fn set_cookie_iter_renders_stored_entries() {
    let sc = SetCookie::new().set("k", "v", SetCookieOptions::new().max_age(5));
    let lines = sc.iter();
    assert_eq!(lines, vec!["k=v; Max-Age=5".to_string()]);
}

#[test]
fn set_cookie_option_fragments_are_recognized() {
    assert!(SetCookieOptions::is_set_cookie_option("Max-Age=12"));
    assert!(SetCookieOptions::is_set_cookie_option("domain=x.y"));
    assert!(SetCookieOptions::is_set_cookie_option("PATH=/"));
    assert!(SetCookieOptions::is_set_cookie_option("HttpOnly"));
    assert!(SetCookieOptions::is_set_cookie_option("secure"));
    assert!(!SetCookieOptions::is_set_cookie_option("key=value"));
    assert!(!SetCookieOptions::is_set_cookie_option("secureX"));
}

#[test]
fn set_cookie_reads_real_header_map() {
    // The header boundary must hand the actual Set-Cookie values to the
    // parser, not something of its own.
    let mut headers = http::HeaderMap::new();
    headers.append(
        http::header::SET_COOKIE,
        http::HeaderValue::from_static("sid=abc; HttpOnly"),
    );
    headers.append(
        http::header::SET_COOKIE,
        http::HeaderValue::from_static("theme=dark; Path=/ui"),
    );
    headers.append(
        http::header::CONTENT_TYPE,
        http::HeaderValue::from_static("text/plain"),
    );
    let sc = SetCookie::from_headers(&headers);
    assert_eq!(sc.get("sid"), Some("abc"));
    assert_eq!(sc.get("theme"), Some("dark"));
    assert_eq!(sc.get("content-type"), None);
}

#[test]
fn cookie_reads_real_header_map() {
    let mut headers = http::HeaderMap::new();
    headers.insert(
        http::header::COOKIE,
        http::HeaderValue::from_static("access_token=avchdef; refresh_token=qwehkdfsjd"),
    );
    let c = Cookie::from_headers(&headers);
    assert_eq!(c.get("access_token"), Some("avchdef"));
    assert_eq!(c.get("refresh_token"), Some("qwehkdfsjd"));
    let empty = Cookie::from_headers(&http::HeaderMap::new());
    assert_eq!(empty.get("access_token"), None);
}

#[test]
fn cookie_parse_reads_pairs() {
    let mut c = Cookie::parse("access_token=avchdef; refresh_token=qwehkdfsjd");
    assert_eq!(c.get("access_token"), Some("avchdef"));
    assert_eq!(c.get("refresh_token"), Some("qwehkdfsjd"));
    assert_eq!(c.take("access_token"), Some("avchdef".to_string()));
    assert_eq!(c.get("access_token"), None);
}

#[test]
fn cookie_parse_edge_shapes() {
    // A fragment without `=` keeps an empty value; a later repeated name
    // wins; names are trimmed but values are not.
    let c = Cookie::parse("bare; a=1;a=2; b = spaced");
    assert_eq!(c.get("bare"), Some(""));
    assert_eq!(c.get("a"), Some("2"));
    assert_eq!(c.get("b"), Some(" spaced"));
}

#[test]
fn cookie_add_overwrites() {
    let mut c = Cookie::new();
    c.add("k", "1");
    c.add("k", "2");
    assert_eq!(c.get("k"), Some("2"));
}
