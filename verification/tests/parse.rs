use phantom_http::error::Error;
use phantom_http::Uri;

#[test]
fn parse_rfc3986_uri() {
    let uri = "https://datatracker.ietf.org/doc/html/rfc3986".parse::<Uri>().unwrap();
    assert_eq!(uri.scheme(), Some("https"));
    assert_eq!(uri.host(), Some("datatracker.ietf.org"));
    assert_eq!(uri.path(), "/doc/html/rfc3986");
}

#[test]
fn make_scheme_and_authority_lowercase() {
    let uri = "HTTPS://DATATRACKER.IETF.ORG/DOC/html/rfc3986".parse::<Uri>().unwrap();
    assert_eq!(uri.scheme(), Some("https"));
    assert_eq!(uri.host(), Some("datatracker.ietf.org"));
    // The whole input is folded up front, so the path comes back folded too.
    assert_eq!(uri.path(), "/doc/html/rfc3986");
}

#[test]
fn canonical_round_trip() {
    let uri = Uri::parse("https://example.org/a/b?q=1#frag").unwrap();
    assert_eq!(uri.scheme(), Some("https"));
    assert_eq!(uri.host(), Some("example.org"));
    assert_eq!(uri.path(), "/a/b");
    assert_eq!(uri.query(), Some("q=1"));
    assert_eq!(uri.fragment(), Some("frag"));
    assert_eq!(uri.userinfo(), None);
    assert_eq!(uri.port(), None);
    assert_eq!(uri.port_str(), None);
}

#[test]
fn case_folding_applies_to_path_too() {
    let uri = Uri::parse("HTTPS://EXAMPLE.ORG/A").unwrap();
    assert_eq!(uri.scheme(), Some("https"));
    assert_eq!(uri.host(), Some("example.org"));
    assert_eq!(uri.path(), "/a");
}

#[test]
fn scheme_without_authority_rejected() {
    let err = Uri::parse("mailto:user").unwrap_err();
    assert!(matches!(err, Error::SchemeWithoutAuthority));
}

#[test]
fn missing_host() {
    let err = Uri::parse("https://").unwrap_err();
    assert!(matches!(err, Error::MissingHost));
}

#[test]
fn trailing_empty_port_tolerated() {
    let uri = Uri::parse("https://example.org:/path").unwrap();
    assert_eq!(uri.host(), Some("example.org"));
    assert_eq!(uri.port(), None);
    assert_eq!(uri.port_str(), None);
    assert_eq!(uri.path(), "/path");
}

#[test]
fn invalid_port_rejected() {
    let err = Uri::parse("https://example.org:notanumber").unwrap_err();
    assert!(matches!(err, Error::InvalidPort));
}

#[test]
fn numeric_port_parsed() {
    let uri = Uri::parse("https://example.org:8080/x").unwrap();
    assert_eq!(uri.port(), Some(8080));
    assert_eq!(uri.port_str(), Some("8080"));
    assert_eq!(uri.path(), "/x");
}

#[test]
fn port_with_leading_zeros() {
    let uri = Uri::parse("https://example.org:0080").unwrap();
    assert_eq!(uri.port(), Some(80));
    assert_eq!(uri.port_str(), Some("0080"));
}

#[test]
fn port_too_large_rejected() {
    let err = Uri::parse("https://example.org:65536").unwrap_err();
    assert!(matches!(err, Error::InvalidPort));
}

#[test]
fn userinfo_recognized() {
    let uri = Uri::parse("https://alice@example.org/inbox").unwrap();
    assert_eq!(uri.userinfo(), Some("alice"));
    assert_eq!(uri.host(), Some("example.org"));
    assert_eq!(uri.path(), "/inbox");
}

#[test]
fn unexpected_character_reported() {
    let err = Uri::parse("https://example org").unwrap_err();
    assert!(matches!(err, Error::UnexpectedToken(_)));
}

#[test]
fn invalid_host_characters_rejected() {
    let err = Uri::parse("https://ho=st").unwrap_err();
    assert!(matches!(err, Error::InvalidHostCharacters));
}

#[test]
fn invalid_scheme_characters_rejected() {
    // A digit is allowed in an identifier run but not in a scheme.
    let err = Uri::parse("h2tp://example.org").unwrap_err();
    assert!(matches!(err, Error::InvalidSchemeCharacters));
}

#[test]
fn unexpected_token_in_query() {
    let err = Uri::parse("https://example.org?a/b").unwrap_err();
    assert!(matches!(err, Error::UnexpectedToken(_)));
}

#[test]
fn unexpected_token_in_fragment() {
    // A delimiter right after the pound sign is not a fragment.
    let err = Uri::parse("https://example.org#?x").unwrap_err();
    assert!(matches!(err, Error::UnexpectedToken(_)));
}

#[test]
fn tokens_after_fragment_ignored() {
    // The fragment takes "a"; what follows it is dropped.
    let uri = Uri::parse("https://example.org#a?b").unwrap();
    assert_eq!(uri.fragment(), Some("a"));
    assert_eq!(uri.query(), None);
}

#[test]
fn empty_input_is_empty_uri() {
    let uri = Uri::parse("").unwrap();
    assert_eq!(uri.scheme(), None);
    assert_eq!(uri.host(), None);
    assert_eq!(uri.path(), "");
    assert_eq!(uri.query(), None);
    assert_eq!(uri.fragment(), None);
}

#[test]
fn path_only_input() {
    let uri = Uri::parse("/doc/html").unwrap();
    assert_eq!(uri.scheme(), None);
    assert_eq!(uri.host(), None);
    assert_eq!(uri.path(), "/doc/html");
}

#[test]
fn query_then_fragment() {
    let uri = Uri::parse("//example.org?q#f").unwrap();
    assert_eq!(uri.host(), Some("example.org"));
    assert_eq!(uri.query(), Some("q"));
    assert_eq!(uri.fragment(), Some("f"));
}

#[test]
fn empty_query_at_end() {
    let uri = Uri::parse("//example.org?").unwrap();
    assert_eq!(uri.query(), Some(""));
    assert_eq!(uri.fragment(), None);
}

#[test]
fn pound_at_end_means_no_fragment() {
    let uri = Uri::parse("//example.org#").unwrap();
    assert_eq!(uri.fragment(), None);
}

#[test]
fn reparse_of_components_is_stable() {
    let first = Uri::parse("https://user@example.org:0443/a/b?q=1#frag").unwrap();
    let rebuilt = format!(
        "{}://{}@{}:{}{}?{}#{}",
        first.scheme().unwrap(),
        first.userinfo().unwrap(),
        first.host().unwrap(),
        first.port_str().unwrap(),
        first.path(),
        first.query().unwrap(),
        first.fragment().unwrap(),
    );
    let second = Uri::parse(&rebuilt).unwrap();
    assert_eq!(first.scheme(), second.scheme());
    assert_eq!(first.userinfo(), second.userinfo());
    assert_eq!(first.host(), second.host());
    assert_eq!(first.port_str(), second.port_str());
    assert_eq!(first.port(), second.port());
    assert_eq!(first.path(), second.path());
    assert_eq!(first.query(), second.query());
    assert_eq!(first.fragment(), second.fragment());
}

#[test]
fn reparse_drops_tolerated_empty_port() {
    let first = Uri::parse("https://example.org:/path").unwrap();
    let rebuilt = format!(
        "{}://{}{}",
        first.scheme().unwrap(),
        first.host().unwrap(),
        first.path(),
    );
    let second = Uri::parse(&rebuilt).unwrap();
    assert_eq!(first.host(), second.host());
    assert_eq!(first.port(), second.port());
    assert_eq!(first.path(), second.path());
}

#[test]
fn port_at_upper_bound() {
    let uri = Uri::parse("https://example.org:65535").unwrap();
    assert_eq!(uri.port(), Some(65535));
}

#[test]
fn non_ascii_character_rejected() {
    let err = Uri::parse("caf\u{e9}.example").unwrap_err();
    assert!(matches!(err, Error::UnexpectedToken(_)));
}

#[test]
fn ident_run_includes_dots_dashes_equals() {
    let uri = Uri::parse("//my-host.example?key=value").unwrap();
    assert_eq!(uri.host(), Some("my-host.example"));
    assert_eq!(uri.query(), Some("key=value"));
}
