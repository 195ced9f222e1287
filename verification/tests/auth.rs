use ryu_subtitles::auth::{authorized, bearer_in, bearer_ok, ct_eq, port, DEFAULT_PORT, MOUNT};

#[test]
fn bearer_ok_matches_only_exact_nonempty_token() {
    assert!(bearer_ok(Some("secret"), Some("secret")));
    assert!(!bearer_ok(Some("secret"), Some("other")));
    assert!(!bearer_ok(Some("secre"), Some("secret")));
    assert!(!bearer_ok(None, Some("secret")));
}

#[test]
fn the_gate_is_fail_closed_with_no_token_configured() {
    assert!(!bearer_ok(Some("anything"), None));
    assert!(!bearer_ok(None, None));
    assert!(!bearer_ok(Some(""), Some("")));
}

#[test]
fn the_header_carries_the_bearer() {
    assert_eq!(bearer_in("Bearer secret"), Some("secret".to_string()));
    assert_eq!(bearer_in("bearer secret"), None);
    assert_eq!(bearer_in("Bearer"), None);
    assert!(authorized(Some("Bearer secret"), Some("secret")));
    assert!(!authorized(Some("secret"), Some("secret")));
    assert!(!authorized(Some("Bearer secret "), Some("secret")));
    assert!(!authorized(None, Some("secret")));
    assert!(!authorized(Some("Bearer "), Some("")));
}

#[test]
fn bytes_are_compared_whole() {
    assert!(ct_eq(b"abc", b"abc"));
    assert!(!ct_eq(b"abc", b"abd"));
    assert!(!ct_eq(b"abc", b"ab"));
    assert!(ct_eq(b"", b""));
}

#[test]
fn the_port_is_the_one_that_is_set_or_the_usual_one() {
    assert_eq!(MOUNT, "/api/subtitles");
    assert_eq!(DEFAULT_PORT, 8013);
    assert_eq!(port(&None), 8013);
    assert_eq!(port(&Some(" 9000 ".to_string())), 9000);
    assert_eq!(port(&Some("90000".to_string())), 8013);
    assert_eq!(port(&Some("eighty".to_string())), 8013);
}
