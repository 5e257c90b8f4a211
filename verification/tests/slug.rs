use tasky::validate_slug;

#[test]
fn slugs_are_validated() {
    for bad in [
        "",
        "Auth",
        "-auth",
        "auth-",
        "auth login",
        "auth_login",
        "a/b",
    ] {
        assert!(validate_slug(bad).is_err(), "{bad:?} should be rejected");
    }
    assert!(validate_slug("auth-2").is_ok());
}
