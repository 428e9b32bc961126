//! OpenID Connect sign-in settings and the decisions around it: reading the
//! provider configuration, checking the callback state, and which email and name a
//! verified identity signs in with.

use vstd::prelude::*;

use crate::error::AppError;
use crate::text::{chars_of, find, is_whitespace, is_ws, string_of, trim, trim_end, trim_pat};
use vstd::utf8::encode_utf8;

verus! {

/// Path of the callback the web front end serves.
pub const CALLBACK_PATH: &'static str = "/login/oidc/callback";

/// Settings for one OpenID Connect provider.
#[derive(Debug, Clone, PartialEq, Eq)]
pub struct OidcConfig {
    pub issuer: String,
    pub client_id: String,
    /// `None` for public clients (PKCE only).
    pub client_secret: Option<String>,
    /// Absolute callback URL registered with the provider.
    pub redirect_url: String,
    /// Scopes requested in addition to `openid`.
    pub scopes: Vec<String>,
    /// Provider name on the sign-in page.
    pub label: String,
}

/// Per-attempt secrets kept by the front end between the start of a sign-in and its
/// callback. All fields are base64url strings.
#[derive(Debug, Clone, PartialEq, Eq)]
pub struct PendingLogin {
    pub state: String,
    pub nonce: String,
    pub pkce_verifier: String,
}

/// A started sign-in attempt.
#[derive(Debug, Clone, PartialEq, Eq)]
pub struct OidcStart {
    /// Provider authorization URL to redirect the browser to.
    pub url: String,
    pub pending: PendingLogin,
}

/// Identity asserted by a verified ID token.
#[derive(Debug, Clone, PartialEq, Eq)]
pub struct OidcIdentity {
    pub issuer: String,
    pub subject: String,
    pub email: Option<String>,
    pub email_verified: bool,
    pub name: Option<String>,
}

/// An environment value as read: trimmed, and absent when empty.
pub open spec fn setting(raw: Option<Seq<char>>) -> Option<Seq<char>> {
    match raw {
        Some(v) => if trim(v, None).len() > 0 {
            Some(trim(v, None))
        } else {
            None
        },
        None => None,
    }
}

fn read_setting(raw: Option<&str>) -> (r: Option<String>)
    ensures
        crate::links::opt_view_string(r) == setting(match raw {
            Some(v) => Some(v@),
            None => None,
        }),
{
    match raw {
        Some(v) => {
            let t = trim_pat(&chars_of(v), None);
            if t.len() > 0 {
                Some(string_of(&t))
            } else {
                None
            }
        },
        None => None,
    }
}

/// The whitespace-separated words of `s`.
pub open spec fn words(s: Seq<char>) -> Seq<Seq<char>>
    decreases s.len(),
{
    if s.len() == 0 {
        seq![]
    } else if is_ws(s[0]) {
        words(s.drop_first())
    } else {
        let w = word_len(s, 0);
        proof {
            lemma_word_len(s, 0);
        }
        seq![s.take(w)] + words(s.skip(w))
    }
}

/// The length of the run of non-whitespace characters of `s` from `i` on, plus `i`.
pub open spec fn word_len(s: Seq<char>, i: int) -> int
    decreases s.len() - i,
{
    if i < 0 || i >= s.len() || is_ws(s[i]) {
        i
    } else {
        word_len(s, i + 1)
    }
}

pub proof fn lemma_word_len(s: Seq<char>, i: int)
    requires
        0 <= i <= s.len(),
    ensures
        i <= word_len(s, i) <= s.len(),
        word_len(s, i) < s.len() ==> is_ws(s[word_len(s, i)]),
        forall|k: int| i <= k < word_len(s, i) ==> !is_ws(#[trigger] s[k]),
    decreases s.len() - i,
{
    if i < s.len() && !is_ws(s[i]) {
        lemma_word_len(s, i + 1);
    }
}

/// The scopes to request besides `openid`: the words of `s` other than `openid`.
pub open spec fn extra_scopes(ws: Seq<Seq<char>>) -> Seq<Seq<char>>
    decreases ws.len(),
{
    if ws.len() == 0 {
        seq![]
    } else if ws.last() == "openid"@ {
        extra_scopes(ws.drop_last())
    } else {
        extra_scopes(ws.drop_last()).push(ws.last())
    }
}

pub open spec fn strings_view(v: Seq<String>) -> Seq<Seq<char>> {
    Seq::new(v.len(), |i: int| v[i]@)
}

fn split_words(v: &[char]) -> (r: Vec<Vec<char>>)
    ensures
        crate::text::views(r@) == words(v@),
{
    let mut out: Vec<Vec<char>> = Vec::new();
    let mut i: usize = 0;
    assert(v@.skip(0) =~= v@);
    while i < v.len()
        invariant
            0 <= i <= v@.len(),
            crate::text::views(out@) + words(v@.skip(i as int)) == words(v@),
        decreases v@.len() - i,
    {
        let ghost rest = v@.skip(i as int);
        if is_whitespace(v[i]) {
            assert(rest.drop_first() =~= v@.skip(i + 1));
            i += 1;
        } else {
            let mut j: usize = i;
            proof {
                lemma_word_len(rest, 0);
            }
            while j < v.len() && !is_whitespace(v[j])
                invariant
                    i <= j <= v@.len(),
                    rest == v@.skip(i as int),
                    word_len(rest, 0) == word_len(rest, j - i),
                decreases v@.len() - j,
            {
                j += 1;
            }
            assert(word_len(rest, j - i) == j - i);
            let w = crate::text::copy_range(v, i, j);
            assert(w@ =~= rest.take(j - i));
            assert(rest.skip(j - i) =~= v@.skip(j as int));
            let ghost prev = out@;
            out.push(w);
            proof {
                crate::text::lemma_views_push(prev, w);
            }
            assert(crate::text::views(out@) + words(v@.skip(j as int)) =~= crate::text::views(prev) + words(rest));
            i = j;
        }
    }
    assert(v@.skip(i as int) =~= Seq::<char>::empty());
    assert(crate::text::views(out@) + words(v@.skip(i as int)) =~= crate::text::views(out@));
    out
}

/// Reads the scope setting: the words other than `openid`.
pub fn scopes_of(s: &str) -> (r: Vec<String>)
    ensures
        strings_view(r@) == extra_scopes(words(s@)),
{
    let ws = split_words(&chars_of(s));
    let ghost wv = crate::text::views(ws@);
    let mut out: Vec<String> = Vec::new();
    let mut i: usize = 0;
    while i < ws.len()
        invariant
            0 <= i <= ws@.len(),
            wv == crate::text::views(ws@),
            strings_view(out@) == extra_scopes(wv.take(i as int)),
        decreases ws@.len() - i,
    {
        assert(wv.take(i + 1).drop_last() =~= wv.take(i as int));
        assert(wv.take(i + 1).last() == ws@[i as int]@);
        let w = string_of(&ws[i]);
        if !crate::auth::str_eq(w.as_str(), "openid") {
            let ghost prev = strings_view(out@);
            out.push(w);
            assert(strings_view(out@) =~= prev.push(ws@[i as int]@));
        }
        i += 1;
    }
    assert(wv.take(i as int) =~= wv);
    out
}

/// `s` without trailing `/`.
pub open spec fn without_trailing_slashes(s: Seq<char>) -> Seq<char> {
    trim_end(s, Some('/'))
}

/// The provider settings from the environment values as read (`None` when unset).
/// `None` when no issuer is set; an error names a missing required setting.
pub open spec fn config_of(
    issuer: Option<Seq<char>>,
    client_id: Option<Seq<char>>,
    client_secret: Option<Seq<char>>,
    redirect_url: Option<Seq<char>>,
    scopes: Option<Seq<char>>,
    label: Option<Seq<char>>,
    public_url: Option<Seq<char>>,
) -> Result<Option<(Seq<char>, Seq<char>, Option<Seq<char>>, Seq<char>, Seq<Seq<char>>, Seq<char>)>, Seq<char>> {
    match setting(issuer) {
        None => Ok(None),
        Some(iss) => match setting(client_id) {
            None => Err("SOLIDATE_OIDC_CLIENT_ID must be set"@),
            Some(cid) => {
                let redirect = match setting(redirect_url) {
                    Some(r) => Some(r),
                    None => match public_url {
                        Some(u) => Some(without_trailing_slashes(u) + "/login/oidc/callback"@),
                        None => None,
                    },
                };
                match redirect {
                    None => Err("SOLIDATE_OIDC_REDIRECT_URL or SOLIDATE_PUBLIC_URL must be set"@),
                    Some(r) => Ok(
                        Some(
                            (
                                iss,
                                cid,
                                setting(client_secret),
                                r,
                                extra_scopes(
                                    words(
                                        match setting(scopes) {
                                            Some(s) => s,
                                            None => "email profile"@,
                                        },
                                    ),
                                ),
                                match setting(label) {
                                    Some(l) => l,
                                    None => "SSO"@,
                                },
                            ),
                        ),
                    ),
                }
            },
        },
    }
}

pub open spec fn config_view(c: OidcConfig) -> (Seq<char>, Seq<char>, Option<Seq<char>>, Seq<char>, Seq<Seq<char>>, Seq<char>) {
    (c.issuer@, c.client_id@, crate::links::opt_view_string(c.client_secret), c.redirect_url@, strings_view(c.scopes@), c.label@)
}

pub open spec fn opt_str(o: Option<&str>) -> Option<Seq<char>> {
    match o {
        Some(v) => Some(v@),
        None => None,
    }
}

/// Builds the provider settings from the raw values of `SOLIDATE_OIDC_ISSUER`,
/// `_CLIENT_ID`, `_CLIENT_SECRET`, `_REDIRECT_URL` (default: `public_url` +
/// [`CALLBACK_PATH`]), `_SCOPES` (space-separated, default `email profile`) and
/// `_LABEL` (default `SSO`). Values are trimmed and empty ones count as unset.
pub fn config_from_settings(
    issuer: Option<&str>,
    client_id: Option<&str>,
    client_secret: Option<&str>,
    redirect_url: Option<&str>,
    scopes: Option<&str>,
    label: Option<&str>,
    public_url: Option<&str>,
) -> (r: Result<Option<OidcConfig>, String>)
    ensures
        match (r, config_of(
            opt_str(issuer),
            opt_str(client_id),
            opt_str(client_secret),
            opt_str(redirect_url),
            opt_str(scopes),
            opt_str(label),
            opt_str(public_url),
        )) {
            (Ok(Some(c)), Ok(Some(v))) => config_view(c) == v,
            (Ok(None), Ok(None)) => true,
            (Err(m), Err(v)) => m@ == v,
            _ => false,
        },
{
    let iss = match read_setting(issuer) {
        Some(i) => i,
        None => return Ok(None),
    };
    let cid = match read_setting(client_id) {
        Some(c) => c,
        None => return Err(String::from_str("SOLIDATE_OIDC_CLIENT_ID must be set")),
    };
    let redirect = match read_setting(redirect_url) {
        Some(r) => Some(r),
        None => match public_url {
            Some(u) => {
                let mut r = string_of(&crate::text::trim_end_pat(&chars_of(u), Some('/')));
                r.append(CALLBACK_PATH);
                proof {
                    reveal_strlit("/login/oidc/callback");
                }
                Some(r)
            },
            None => None,
        },
    };
    let redirect = match redirect {
        Some(r) => r,
        None => return Err(String::from_str("SOLIDATE_OIDC_REDIRECT_URL or SOLIDATE_PUBLIC_URL must be set")),
    };
    let scopes = match read_setting(scopes) {
        Some(s) => scopes_of(s.as_str()),
        None => scopes_of("email profile"),
    };
    let label = match read_setting(label) {
        Some(l) => l,
        None => String::from_str("SSO"),
    };
    Ok(
        Some(
            OidcConfig {
                issuer: iss,
                client_id: cid,
                client_secret: read_setting(client_secret),
                redirect_url: redirect,
                scopes,
                label,
            },
        ),
    )
}

/// Whether the callback's `state` is the one issued, compared in constant time.
pub fn state_matches(state: &str, pending: &PendingLogin) -> (b: bool)
    ensures
        b == (encode_utf8(state@) == encode_utf8(pending.state@)),
{
    crate::accounts::constant_time_eq(state.as_bytes(), pending.state.as_str().as_bytes())
}

/// An internal error while talking to the provider.
pub fn internal(context: &str, e: &str) -> (r: AppError)
    ensures
        r is Internal && r->Internal_0@ == "oidc "@ + context@ + ": "@ + e@,
{
    let mut m = String::from_str("oidc ");
    m.append(context);
    m.append(": ");
    m.append(e);
    AppError::Internal(m)
}

/// A refused sign-in. The reason is for the log, never for the caller.
pub fn rejected(reason: &str) -> (r: AppError)
    ensures
        r == AppError::Unauthorized,
{
    AppError::Unauthorized
}

/// The email a new identity signs in with: its email, trimmed, when the provider
/// verified it, it holds an `@` and is at most 254 bytes long.
pub open spec fn login_email_of(id: OidcIdentity) -> Option<Seq<char>> {
    match id.email {
        Some(e) => {
            let t = trim(e@, None);
            if id.email_verified && find(t, '@') >= 0 && encode_utf8(t).len() <= 254 {
                Some(t)
            } else {
                None
            }
        },
        None => None,
    }
}

pub fn login_email(id: &OidcIdentity) -> (r: Result<String, AppError>)
    ensures
        match r {
            Ok(e) => login_email_of(*id) == Some(e@),
            Err(err) => login_email_of(*id) is None && err is Invalid && err->Invalid_0@
                == "the identity provider did not supply a verified email address"@,
        },
{
    let refused = "the identity provider did not supply a verified email address";
    match &id.email {
        Some(e) => {
            let t = trim_pat(&chars_of(e.as_str()), None);
            proof {
                crate::text::lemma_find(t@, '@');
            }
            let has_at = match crate::text::find_from(&t, '@', 0) {
                Some(_) => true,
                None => false,
            };
            assert(t@.skip(0) =~= t@);
            if id.email_verified && has_at && crate::text::utf8_len(&t) <= 254 {
                Ok(string_of(&t))
            } else {
                Err(AppError::Invalid(String::from_str(refused)))
            }
        },
        None => Err(AppError::Invalid(String::from_str(refused))),
    }
}

/// The name a user created for identity `id` gets: its name, trimmed, unless empty;
/// otherwise `email`.
pub open spec fn new_user_name_of(id: OidcIdentity, email: Seq<char>) -> Seq<char> {
    match id.name {
        Some(n) => if trim(n@, None).len() > 0 {
            trim(n@, None)
        } else {
            email
        },
        None => email,
    }
}

pub fn new_user_name(id: &OidcIdentity, email: &str) -> (n: String)
    ensures
        n@ == new_user_name_of(*id, email@),
{
    match &id.name {
        Some(n) => {
            let t = trim_pat(&chars_of(n.as_str()), None);
            if t.len() > 0 {
                string_of(&t)
            } else {
                String::from_str(email)
            }
        },
        None => String::from_str(email),
    }
}

} // verus!
