use cargo_new_release::auth::auth_header;

#[test]
fn auth_header_encodes_account_and_token() {
    // base64 of "ehuss:token" under the standard alphabet with padding.
    assert_eq!(auth_header("token"), "ZWh1c3M6dG9rZW4=");
}

#[test]
fn auth_header_depends_on_the_token() {
    assert_eq!(auth_header("sekrit123"), "ZWh1c3M6c2Vrcml0MTIz");
    assert_ne!(auth_header("a"), auth_header("b"));
}
