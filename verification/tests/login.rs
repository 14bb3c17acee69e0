use tree::auth::{authorized, LOGIN_CHALLENGE};

#[test]
fn without_a_password_everyone_is_let_in() {
    assert!(authorized(None, "admin", None));
    assert!(authorized(Some("Basic garbage"), "admin", None));
}

#[test]
fn the_right_credentials_are_accepted() {
    // base64("admin:123456") == "YWRtaW46MTIzNDU2"
    assert!(authorized(Some("Basic YWRtaW46MTIzNDU2"), "admin", Some("123456")));
    // base64("用户:密码") == "55So5oi3OuWvhueggQ=="
    assert!(authorized(Some("Basic 55So5oi3OuWvhueggQ=="), "用户", Some("密码")));
}

#[test]
fn wrong_or_missing_credentials_are_refused() {
    assert!(!authorized(None, "admin", Some("123456")));
    assert!(!authorized(Some("Basic YWRtaW46MTIzNDU3"), "admin", Some("123456")));
    assert!(!authorized(Some("YWRtaW46MTIzNDU2"), "admin", Some("123456")));
    assert!(!authorized(Some("Basic YWRtaW46MTIzNDU2"), "root", Some("123456")));
    assert!(!authorized(Some(""), "admin", Some("")));
    assert_eq!(LOGIN_CHALLENGE, "Basic realm=\"tree\"");
}
