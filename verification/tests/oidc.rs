use solidate::error::AppError;
use solidate::oidc::{config_from_settings, internal, login_email, new_user_name, rejected, scopes_of, state_matches, OidcIdentity, PendingLogin};

fn identity(email: Option<&str>, verified: bool, name: Option<&str>) -> OidcIdentity {
    OidcIdentity {
        issuer: "https://idp".into(),
        subject: "sub-1".into(),
        email: email.map(str::to_owned),
        email_verified: verified,
        name: name.map(str::to_owned),
    }
}

#[test]
fn config_defaults_and_requirements() {
    assert_eq!(config_from_settings(None, Some("c"), None, None, None, None, None), Ok(None));
    assert_eq!(config_from_settings(Some("  "), None, None, None, None, None, None), Ok(None));
    assert_eq!(
        config_from_settings(Some("https://idp"), None, None, None, None, None, None),
        Err("SOLIDATE_OIDC_CLIENT_ID must be set".to_owned())
    );
    assert_eq!(
        config_from_settings(Some("https://idp"), Some("c"), None, None, None, None, None),
        Err("SOLIDATE_OIDC_REDIRECT_URL or SOLIDATE_PUBLIC_URL must be set".to_owned())
    );
    let c = config_from_settings(Some(" https://idp "), Some("c"), Some(""), None, None, None, Some("https://x.dev//"))
        .unwrap()
        .unwrap();
    assert_eq!(c.issuer, "https://idp");
    assert_eq!(c.client_secret, None);
    assert_eq!(c.redirect_url, "https://x.dev/login/oidc/callback");
    assert_eq!(c.scopes, ["email", "profile"]);
    assert_eq!(c.label, "SSO");
    let c = config_from_settings(Some("i"), Some("c"), Some("s"), Some("https://r"), Some("openid  groups\temail"), Some("Acme"), None)
        .unwrap()
        .unwrap();
    assert_eq!((c.client_secret.as_deref(), c.redirect_url.as_str(), c.label.as_str()), (Some("s"), "https://r", "Acme"));
    assert_eq!(c.scopes, ["groups", "email"]);
    assert!(scopes_of("   ").is_empty());
}

#[test]
fn identities_sign_in_with_a_verified_email() {
    assert_eq!(login_email(&identity(Some(" a@b.c "), true, None)).unwrap(), "a@b.c");
    let refused = AppError::Invalid("the identity provider did not supply a verified email address".into());
    assert_eq!(login_email(&identity(Some("a@b.c"), false, None)), Err(refused.clone()));
    assert_eq!(login_email(&identity(Some("nope"), true, None)), Err(refused.clone()));
    assert_eq!(login_email(&identity(None, true, None)), Err(refused));
    assert_eq!(new_user_name(&identity(None, true, Some("  Bob ")), "b@x"), "Bob");
    assert_eq!(new_user_name(&identity(None, true, Some("  ")), "b@x"), "b@x");
    assert_eq!(new_user_name(&identity(None, true, None), "b@x"), "b@x");
}

#[test]
fn callback_state_and_errors() {
    let p = PendingLogin { state: "abc".into(), nonce: "n".into(), pkce_verifier: "v".into() };
    assert!(state_matches("abc", &p));
    assert!(!state_matches("abd", &p));
    assert!(!state_matches("ab", &p));
    assert_eq!(internal("discovery", "boom"), AppError::Internal("oidc discovery: boom".into()));
    assert_eq!(rejected("state mismatch"), AppError::Unauthorized);
}
