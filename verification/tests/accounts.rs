use solidate::accounts::{
    check_login, hex_string, token_credentials, check_password_policy, check_token_scopes, new_token_credentials, check_registration, hash_password, verify_password, random_hex, secret_matches, token_accepted, token_parts, token_string, Config,
    TOKEN_PREFIX,
};
use solidate::error::AppError;

type Digest = solidate::hash::Hash;

#[test]
fn default_config() {
    let c = Config::default();
    assert_eq!(c.max_doc_bytes, 1 << 20);
    assert_eq!(c.min_password_len, 8);
}

#[test]
fn password_policy_counts_characters() {
    let c = Config::default();
    assert!(check_password_policy(&c, "long-enough-pw").is_ok());
    assert_eq!(
        check_password_policy(&c, "short"),
        Err(AppError::Invalid("password must be at least 8 characters".into()))
    );
    // Eight characters, sixteen bytes.
    assert!(check_password_policy(&c, "éééééééé").is_ok());
}

#[test]
fn registration_checks_in_order() {
    let c = Config::default();
    assert_eq!(
        check_registration(&c, "  a@b.c ", " Reader ", "long-enough-pw").unwrap(),
        ("a@b.c".to_owned(), "Reader".to_owned())
    );
    assert_eq!(
        check_registration(&c, "nope", "", "x"),
        Err(AppError::Invalid("invalid email".into()))
    );
    let long = format!("{}@x", "a".repeat(253));
    assert_eq!(check_registration(&c, &long, "n", "long-enough-pw"), Err(AppError::Invalid("invalid email".into())));
    assert_eq!(
        check_registration(&c, "a@b.c", "   ", "x"),
        Err(AppError::Invalid("name is required".into()))
    );
    assert_eq!(
        check_registration(&c, "a@b.c", "A", "short"),
        Err(AppError::Invalid("password must be at least 8 characters".into()))
    );
}

#[test]
fn tokens_split_into_prefix_and_secret() {
    let id = random_hex(6).unwrap();
    let secret = random_hex(32).unwrap();
    assert_eq!(id.len(), 12);
    assert_eq!(secret.len(), 64);
    assert!(secret.chars().all(|c| c.is_ascii_hexdigit() && !c.is_ascii_uppercase()));
    let prefix = format!("{TOKEN_PREFIX}{id}");
    let token = token_string(&prefix, &secret);
    assert_eq!(token_parts(&token), Some((prefix, secret.clone())));
    assert_eq!(token_parts(" sol_abc_def "), Some(("sol_abc".to_owned(), "def".to_owned())));
    assert_eq!(token_parts("sol_abc"), None);
    assert_eq!(token_parts("tok_abc_def"), None);
    let stored = Digest::of_str(&secret);
    assert!(secret_matches(&secret, stored.as_bytes()));
    assert!(!secret_matches("other", stored.as_bytes()));
    assert!(!secret_matches(&secret, &stored.as_bytes()[..31]));
}

#[test]
fn password_round_trip() {
    let h = hash_password("correct horse").unwrap();
    assert!(h.starts_with("$argon2id$"));
    assert!(verify_password("correct horse", &h));
    assert!(!verify_password("wrong", &h));
    assert!(!verify_password("x", "not a phc string"));
}

#[test]
fn login_refuses_unknown_wrong_and_disabled_alike() {
    let h = hash_password("long-enough-pw").unwrap();
    assert_eq!(check_login(Some((&h, false)), "long-enough-pw", &h), Ok(()));
    assert_eq!(check_login(Some((&h, true)), "long-enough-pw", &h), Err(AppError::Unauthorized));
    assert_eq!(check_login(Some((&h, false)), "wrong-password", &h), Err(AppError::Unauthorized));
    assert_eq!(check_login(None, "long-enough-pw", &h), Err(AppError::Unauthorized));
    assert_eq!(check_login(Some(("not a phc string", false)), "x", &h), Err(AppError::Unauthorized));
}

#[test]
fn tokens_are_refused_when_wrong_revoked_or_expired() {
    let secret = "ab".repeat(32);
    let stored = Digest::of_str(&secret);
    let h = stored.as_bytes();
    assert!(token_accepted(&secret, h, false, None, 100));
    assert!(token_accepted(&secret, h, false, Some(101), 100));
    assert!(!token_accepted(&secret, h, false, Some(100), 100));
    assert!(!token_accepted(&secret, h, true, None, 100));
    assert!(!token_accepted("cd", h, false, None, 100));
    assert!(!token_accepted(&secret, &h[..31], false, None, 100));
}

#[test]
fn new_token_credentials_round_trip() {
    let (prefix, secret, secret_hash) = new_token_credentials().unwrap();
    assert!(prefix.starts_with(TOKEN_PREFIX) && prefix.len() == 16);
    assert!(prefix[4..].chars().all(|c| c.is_ascii_hexdigit() && !c.is_ascii_uppercase()));
    assert_eq!(secret.len(), 64);
    let raw = token_string(&prefix, &secret);
    assert_eq!(token_parts(&raw), Some((prefix.clone(), secret.clone())));
    assert!(token_accepted(&secret, secret_hash.as_bytes(), false, None, 0));
    assert!(!token_accepted("0", secret_hash.as_bytes(), false, None, 0));
}

#[test]
fn token_requests_need_a_scope() {
    assert_eq!(check_token_scopes(&[]), Err(AppError::Invalid("at least one scope is required".into())));
    assert_eq!(check_token_scopes(&[solidate::auth::Scope::Read]), Ok(()));
}

#[test]
fn hex_text_of_bytes() {
    assert_eq!(hex_string(&[0x00, 0x0f, 0xa5, 0xff]), "000fa5ff");
    assert_eq!(hex_string(&[]), "");
    assert_eq!(random_hex(0), Ok(String::new()));
    let a = random_hex(16).unwrap();
    let b = random_hex(16).unwrap();
    assert_eq!(a.len(), 32);
    assert_ne!(a, b);
}

#[test]
fn token_credentials_from_bytes() {
    let (prefix, secret, secret_hash) = token_credentials(&[1, 2, 3, 4, 5, 0xab], &[0xff; 32]);
    assert_eq!(prefix, "sol_0102030405ab");
    assert_eq!(secret, "ff".repeat(32));
    assert_eq!(secret_hash, Digest::of_str(&secret));
    let (p1, s1, _) = new_token_credentials().unwrap();
    let (p2, s2, _) = new_token_credentials().unwrap();
    assert!(p1 != p2 || s1 != s2);
}
