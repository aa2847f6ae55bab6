use base64::engine::general_purpose::STANDARD as BASE64_STD;
use base64::Engine;
use elrond::auth::{answer, check, claim, presented, AuthBasic};
use hyper::HeaderMap;

#[test]
fn rejects_plaintext_entries() {
    let err = AuthBasic::from_text("alice:swordfish\n", "p", "r".into()).unwrap_err();
    assert!(err.contains("non-bcrypt"), "got: {err}");
}

#[test]
fn rejects_apr1_entries() {
    let err = AuthBasic::from_text("bob:$apr1$saltsalt$abcdefghijklmnopqrstuv\n", "p", "r".into())
        .unwrap_err();
    assert!(err.contains("non-bcrypt"), "got: {err}");
}

#[test]
fn loads_bcrypt_and_verifies() {
    // Pre-computed bcrypt hash for the password "swordfish" with cost 4.
    let hash = bcrypt::hash("swordfish", 4).unwrap();
    let auth =
        AuthBasic::from_text(&format!("alice:{hash}\n# a comment\n\n"), "p", "secret".into())
            .unwrap();
    assert_eq!(auth.realm, "secret");
    assert_eq!(auth.users.len(), 1);

    // Build a fake Authorization header and verify.
    let mut h = HeaderMap::new();
    let creds = BASE64_STD.encode(b"alice:swordfish");
    h.insert("authorization", format!("Basic {creds}").parse().unwrap());
    assert!(check(&auth, &h).is_ok());

    // Wrong password fails.
    let mut h2 = HeaderMap::new();
    let bad = BASE64_STD.encode(b"alice:wrong");
    h2.insert("authorization", format!("Basic {bad}").parse().unwrap());
    let resp = check(&auth, &h2).unwrap_err();
    assert_eq!(resp.status, 401);
    assert!(resp
        .headers
        .get("www-authenticate")
        .map(|v| v.to_str().unwrap().contains("Basic"))
        .unwrap_or(false));

    // Missing Authorization header → 401.
    assert!(check(&auth, &HeaderMap::new()).is_err());
}

#[test]
fn rejects_empty_file() {
    let err = AuthBasic::from_text("# only comments\n", "p", "r".into()).unwrap_err();
    assert!(err.contains("empty"), "got: {err}");
}

#[test]
fn unknown_user_and_bad_encoding_are_challenged() {
    let hash = bcrypt::hash("swordfish", 4).unwrap();
    let auth = AuthBasic::from_text(&format!("alice:{hash}\n"), "p", "zone".into()).unwrap();
    for value in [
        format!("Basic {}", BASE64_STD.encode(b"bob:swordfish")),
        "Basic ???".to_string(),
        format!("Basic {}", BASE64_STD.encode(b"no-colon")),
        "Bearer x".to_string(),
    ] {
        let mut h = HeaderMap::new();
        h.insert("authorization", value.parse().unwrap());
        let resp = check(&auth, &h).unwrap_err();
        assert_eq!(resp.status, 401);
        assert!(resp.headers.get("www-authenticate").unwrap().to_str().unwrap().contains("zone"));
    }
}

#[test]
fn error_names_the_line() {
    let hash = bcrypt::hash("x", 4).unwrap();
    let err =
        AuthBasic::from_text(&format!("# c\nalice:{hash}\nbob:plain\n"), "users", "r".into())
            .unwrap_err();
    assert!(err.contains("users") && err.contains('3'), "got: {err}");
}

#[test]
fn credentials_are_taken_apart() {
    let auth = AuthBasic::from_text("alice:$2b$04$abc\nbob:$2y$04$def\n", "p", "zone".into())
        .unwrap();
    let mut h = HeaderMap::new();
    assert_eq!(presented(&h), None);
    h.insert("authorization", "bAsIc  YWxpY2U6eA== ".parse().unwrap());
    assert_eq!(presented(&h).as_deref(), Some("YWxpY2U6eA=="));
    h.insert("authorization", "Bearer YWxpY2U6eA==".parse().unwrap());
    assert_eq!(presented(&h), None);

    let asked = |c: &[u8]| claim(&auth, c.to_vec());
    assert_eq!(asked(b"bob:a:b"), Some(("a:b".to_string(), "$2y$04$def".to_string())));
    assert_eq!(asked(b"carol:x"), None);
    assert_eq!(asked(b"alice"), None);
    assert_eq!(asked(b"alice:\xff"), None);

    assert!(answer(&auth, true).is_ok());
    let resp = answer(&auth, false).unwrap_err();
    assert_eq!(resp.headers.get("www-authenticate").unwrap(), "Basic realm=\"zone\"");
}
