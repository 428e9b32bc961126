//! Passwords, registration and API tokens.
//!
//! API token format: `sol_<12 hex>_<64 hex>`. The `sol_<12 hex>` part is the stored
//! lookup prefix; the rest is the secret, stored as its BLAKE3 hash. Secrets carry
//! 256 bits of entropy, so a fast hash is sufficient.

use argon2::password_hash::{PasswordHash, PasswordHasher, PasswordVerifier, SaltString};
use vstd::prelude::*;

use crate::error::AppError;
use crate::hash::{hash_of, hex_char, hex_of};
use crate::links::split_once;
use crate::text::{chars_of, decimal, decimal_string, find, is_ws, string_of, trim};

verus! {

pub const TOKEN_PREFIX: &'static str = "sol_";

/// Service limits.
#[derive(Debug, Clone, Copy, PartialEq, Eq, Structural)]
pub struct Config {
    /// Maximum size of one document variant in bytes.
    pub max_doc_bytes: usize,
    /// Minimum password length.
    pub min_password_len: usize,
}

impl Default for Config {
    fn default() -> (c: Config)
        ensures
            c.max_doc_bytes == 1048576,
            c.min_password_len == 8,
    {
        Config { max_doc_bytes: 1048576, min_password_len: 8 }
    }
}

/// A per-principal request rate limit.
#[derive(Debug, Clone, Copy, PartialEq, Eq, Structural)]
pub struct RateLimit {
    /// Sustained requests per minute.
    pub per_minute: u32,
    /// Requests allowed at once from a full bucket.
    pub burst: u32,
}

/// The message for a password shorter than `min` characters.
pub open spec fn short_password_text(min: usize) -> Seq<char> {
    "password must be at least "@ + decimal(min as nat) + " characters"@
}

/// Refuses a password shorter than the configured minimum, counted in characters.
pub fn check_password_policy(config: &Config, password: &str) -> (r: Result<(), AppError>)
    ensures
        r is Ok <==> password@.len() >= config.min_password_len,
        r is Err ==> (r->Err_0 is Invalid && r->Err_0->Invalid_0@ == short_password_text(config.min_password_len)),
{
    let n = chars_of(password).len();
    if n < config.min_password_len {
        let mut msg = String::from_str("password must be at least ");
        msg.append(decimal_string(config.min_password_len as u64).as_str());
        msg.append(" characters");
        return Err(AppError::Invalid(msg));
    }
    Ok(())
}

/// Whether `email` (already trimmed) is acceptable: it holds an `@` and is at most
/// 254 bytes long.
pub open spec fn email_ok(email: Seq<char>) -> bool {
    find(email, '@') >= 0 && vstd::utf8::encode_utf8(email).len() <= 254
}

/// Checks a registration and returns the trimmed email and name. Refuses an email
/// without `@` or longer than 254 bytes, an empty name, then a short password.
pub fn check_registration(config: &Config, email: &str, name: &str, password: &str) -> (r: Result<
    (String, String),
    AppError,
>)
    ensures
        match r {
            Ok((e, n)) => {
                &&& e@ == trim(email@, None)
                &&& n@ == trim(name@, None)
                &&& email_ok(trim(email@, None))
                &&& n@.len() > 0
                &&& password@.len() >= config.min_password_len
            },
            Err(err) => if !email_ok(trim(email@, None)) {
                err is Invalid && err->Invalid_0@ == "invalid email"@
            } else if trim(name@, None).len() == 0 {
                err is Invalid && err->Invalid_0@ == "name is required"@
            } else {
                password@.len() < config.min_password_len && err is Invalid && err->Invalid_0@
                    == short_password_text(config.min_password_len)
            },
        },
{
    let e = string_of(&crate::text::trim_pat(&chars_of(email), None));
    let ec = chars_of(e.as_str());
    proof {
        crate::text::lemma_find(ec@, '@');
    }
    let has_at = match crate::text::find_from(&ec, '@', 0) {
        Some(_) => true,
        None => false,
    };
    assert(ec@.skip(0) =~= ec@);
    if !has_at || crate::text::utf8_len(&ec) > 254 {
        return Err(AppError::Invalid(String::from_str("invalid email")));
    }
    let n = string_of(&crate::text::trim_pat(&chars_of(name), None));
    if chars_of(n.as_str()).len() == 0 {
        return Err(AppError::Invalid(String::from_str("name is required")));
    }
    match check_password_policy(config, password) {
        Ok(()) => Ok((e, n)),
        Err(err) => Err(err),
    }
}

/// Calls `subtle::ConstantTimeEq::ct_eq` on two byte slices: true exactly when they
/// hold the same bytes.
#[verifier::external_body]
pub(crate) fn constant_time_eq(a: &[u8], b: &[u8]) -> (r: bool)
    ensures
        r == (a@ == b@),
{
    subtle::ConstantTimeEq::ct_eq(a, b).into()
}

/// Whether `secret` hashes to the stored `secret_hash`, compared in constant time.
pub fn secret_matches(secret: &str, secret_hash: &[u8]) -> (b: bool)
    ensures
        b == (hash_of(vstd::utf8::encode_utf8(secret@)) == secret_hash@),
{
    let given = crate::hash::Hash::of_str(secret);
    constant_time_eq(given.as_bytes(), secret_hash)
}

/// Whether a presented token secret is accepted for its stored credentials: the
/// secret hashes to the stored hash, the token is not revoked, and it has not
/// expired (an expiry, if set, lies after `now`; both in one time unit).
pub fn token_accepted(
    secret: &str,
    secret_hash: &[u8],
    revoked: bool,
    expires_at: Option<i128>,
    now: i128,
) -> (b: bool)
    ensures
        b == (hash_of(vstd::utf8::encode_utf8(secret@)) == secret_hash@ && !revoked && match expires_at {
            Some(e) => now < e,
            None => true,
        }),
{
    let matches = secret_matches(secret, secret_hash);
    let expired = match expires_at {
        Some(e) => e <= now,
        None => false,
    };
    matches && !revoked && !expired
}

/// The lookup prefix and the secret of a raw token: `sol_<id>_<secret>` gives
/// `sol_<id>` and `<secret>`, after trimming.
pub open spec fn token_parts_of(raw: Seq<char>) -> Option<(Seq<char>, Seq<char>)> {
    let t = trim(raw, None);
    let p = "sol_"@;
    if t.len() < p.len() || t.take(p.len() as int) != p {
        None
    } else {
        match split_once(t.skip(p.len() as int), '_') {
            Some((id, secret)) => Some((p + id, secret)),
            None => None,
        }
    }
}

/// Splits a raw `sol_…` token into its lookup prefix and its secret.
pub fn token_parts(raw: &str) -> (r: Option<(String, String)>)
    ensures
        match r {
            Some((p, s)) => token_parts_of(raw@) == Some((p@, s@)),
            None => token_parts_of(raw@) is None,
        },
{
    let t = crate::text::trim_pat(&chars_of(raw), None);
    let p = chars_of(TOKEN_PREFIX);
    proof {
        reveal_strlit("sol_");
    }
    if !crate::text::has_prefix(&t, &p) {
        return None;
    }
    let rest = crate::text::copy_range(&t, p.len(), t.len());
    assert(rest@ =~= t@.skip(p@.len() as int));
    match crate::links::split_once_chars(&rest, '_') {
        Some((id, secret)) => {
            let mut prefix = String::from_str(TOKEN_PREFIX);
            prefix.append(string_of(&id).as_str());
            Some((prefix, string_of(&secret)))
        },
        None => None,
    }
}

/// The full token handed to its owner: `<prefix>_<secret>`.
pub open spec fn token_text(prefix: Seq<char>, secret: Seq<char>) -> Seq<char> {
    prefix + seq!['_'] + secret
}

pub fn token_string(prefix: &str, secret: &str) -> (t: String)
    ensures
        t@ == token_text(prefix@, secret@),
{
    let mut t = String::from_str(prefix);
    t.append("_");
    t.append(secret);
    proof {
        reveal_strlit("_");
    }
    assert(t@ =~= token_text(prefix@, secret@));
    t
}

/// Lowercase hexadecimal digits, as `random_hex` produces.
pub open spec fn is_hex_text(s: Seq<char>) -> bool {
    forall|i: int| 0 <= i < s.len() ==> (('0' <= #[trigger] s[i] && s[i] <= '9') || ('a' <= s[i] && s[i] <= 'f'))
}

proof fn lemma_hex_text(b: Seq<u8>)
    ensures
        is_hex_text(hex_of(b)),
        hex_of(b).len() == 2 * b.len(),
{
    assert forall|i: int| 0 <= i < hex_of(b).len() implies (('0' <= #[trigger] hex_of(b)[i] && hex_of(b)[i] <= '9') || (
    'a' <= hex_of(b)[i] && hex_of(b)[i] <= 'f')) by {
        let n: u8 = if i % 2 == 0 {
            b[i / 2] / 16
        } else {
            b[i / 2] % 16
        };
        assert(n < 16);
        assert(hex_of(b)[i] == hex_char(n));
        if n < 10 {
            assert(hex_char(n) as int == n + 48);
        } else {
            assert(hex_char(n) as int == n + 87);
        }
    }
}

/// A token with `id` and `secret` made of lowercase hex digits splits back into the
/// lookup prefix `sol_<id>` and the secret.
pub proof fn lemma_token_round_trip(id: Seq<char>, secret: Seq<char>)
    requires
        is_hex_text(id),
        is_hex_text(secret),
    ensures
        token_parts_of(token_text("sol_"@ + id, secret)) == Some(("sol_"@ + id, secret)),
{
    reveal_strlit("sol_");
    let t = token_text("sol_"@ + id, secret);
    assert forall|i: int| 0 <= i < t.len() implies !is_ws(#[trigger] t[i]) by {
        if i >= 4 && i < 4 + id.len() {
            assert(t[i] == id[i - 4]);
        } else if i >= 5 + id.len() {
            assert(t[i] == secret[i - 5 - id.len()]);
        }
    }
    lemma_trim_no_ws(t);
    assert(t.take(4) =~= "sol_"@);
    let rest = t.skip(4);
    assert(rest =~= id + seq!['_'] + secret);
    lemma_find_after_hex(id, secret);
    assert(rest.take(id.len() as int) =~= id);
    assert(rest.skip(id.len() + 1int) =~= secret);
}

proof fn lemma_find_after_hex(id: Seq<char>, secret: Seq<char>)
    requires
        is_hex_text(id),
    ensures
        find(id + seq!['_'] + secret, '_') == id.len(),
    decreases id.len(),
{
    let s = id + seq!['_'] + secret;
    if id.len() == 0 {
        assert(s[0] == '_');
    } else {
        assert(s[0] == id[0]);
        assert(s.drop_first() =~= id.drop_first() + seq!['_'] + secret);
        assert(is_hex_text(id.drop_first())) by {
            assert forall|i: int| 0 <= i < id.drop_first().len() implies (('0' <= #[trigger] id.drop_first()[i]
                && id.drop_first()[i] <= '9') || ('a' <= id.drop_first()[i] && id.drop_first()[i] <= 'f')) by {
                assert(id.drop_first()[i] == id[i + 1]);
            }
        }
        lemma_find_after_hex(id.drop_first(), secret);
    }
}

proof fn lemma_trim_no_ws(t: Seq<char>)
    requires
        forall|i: int| 0 <= i < t.len() ==> !is_ws(#[trigger] t[i]),
    ensures
        trim(t, None) == t,
{
    if t.len() > 0 {
        assert(!is_ws(t[0]));
        assert(!is_ws(t.last()));
    }
}

/// Calls `getrandom::fill` on a buffer of `n` bytes. Which bytes come back depends
/// on chance; only their number is stated, and that an empty buffer is filled at
/// once (`fill_uninit` asks the system for nothing then). An error comes back as
/// its message.
#[verifier::external_body]
fn random_bytes(n: usize) -> (r: Result<Vec<u8>, String>)
    ensures
        r matches Ok(v) ==> v@.len() == n,
        n == 0 ==> r is Ok,
{
    let mut buf = vec![0u8; n];
    match getrandom::fill(&mut buf) {
        Ok(()) => Ok(buf),
        Err(e) => Err(e.to_string()),
    }
}

/// Whether Argon2 accepts `password` against the PHC string `phc`.
pub uninterp spec fn argon2_verifies(password: Seq<char>, phc: Seq<char>) -> bool;

/// The PHC string of `password` hashed by Argon2 with default parameters under the
/// salt bytes `salt`.
pub uninterp spec fn argon2_phc(password: Seq<char>, salt: Seq<u8>) -> Seq<char>;

/// Encodes `salt` with `SaltString::encode_b64` and hashes `password` under it with
/// `PasswordHasher::hash_password` of `Argon2::default()`, rendered as a PHC string.
/// Claimed: a success is the PHC string named by [`argon2_phc`], and Argon2's own
/// verification (`PasswordVerifier::verify_password`, which recomputes the hash with
/// the salt and parameters the string records) accepts `password` against it. Why
/// an error comes, and its message, are left unsaid. The salt must encode to 4 to
/// 64 characters, which `as_salt` otherwise refuses with a panic.
#[verifier::external_body]
fn argon2_hash(password: &str, salt: &[u8]) -> (r: Result<String, String>)
    requires
        3 <= salt@.len() <= 48,
    ensures
        r matches Ok(h) ==> h@ == argon2_phc(password@, salt@) && argon2_verifies(password@, h@),
{
    let salt = match SaltString::encode_b64(salt) {
        Ok(s) => s,
        Err(e) => return Err(e.to_string()),
    };
    match argon2::Argon2::default().hash_password(password.as_bytes(), &salt) {
        Ok(h) => Ok(h.to_string()),
        Err(e) => Err(e.to_string()),
    }
}

/// Parses `hash` with `PasswordHash::new` and checks `password` against it with
/// `PasswordVerifier::verify_password` of `Argon2::default()`; a string that does
/// not parse is refused. The verdict is named by [`argon2_verifies`].
#[verifier::external_body]
fn argon2_verify(password: &str, hash: &str) -> (b: bool)
    ensures
        b == argon2_verifies(password@, hash@),
{
    match PasswordHash::new(hash) {
        Ok(h) => argon2::Argon2::default().verify_password(password.as_bytes(), &h).is_ok(),
        Err(_) => false,
    }
}

/// Bytes of random salt per password hash.
pub const SALT_LEN: usize = 16;

/// Hashes a password for storage: Argon2 with default parameters under a fresh
/// random salt, as a PHC string. Whatever salt came, the password verifies against
/// the result.
pub fn hash_password(password: &str) -> (r: Result<String, AppError>)
    ensures
        r matches Ok(h) ==> argon2_verifies(password@, h@),
        r matches Ok(h) ==> exists|salt: Seq<u8>| salt.len() == SALT_LEN && #[trigger] argon2_phc(password@, salt) == h@,
        r matches Err(e) ==> e is Internal,
        r matches Err(e) ==> exists|m: Seq<char>|
            #![trigger rng_error_text(m)]
            #![trigger argon2_error_text(m)]
            e->Internal_0@ == rng_error_text(m) || e->Internal_0@ == argon2_error_text(m),
{
    let salt = match random_bytes(SALT_LEN) {
        Ok(b) => b,
        Err(m) => {
            let mut msg = String::from_str("rng: ");
            msg.append(m.as_str());
            proof {
                reveal_strlit("rng: ");
                assert(msg@ == rng_error_text(m@));
            }
            return Err(AppError::Internal(msg));
        },
    };
    match argon2_hash(password, &salt) {
        Ok(h) => {
            assert(argon2_phc(password@, salt@) == h@);
            assert(salt@.len() == SALT_LEN);
            assert(argon2_verifies(password@, h@));
            assert(exists|x: Seq<u8>| x.len() == SALT_LEN && #[trigger] argon2_phc(password@, x) == h@);
            Ok(h)
        },
        Err(m) => {
            let mut msg = String::from_str("argon2: ");
            msg.append(m.as_str());
            proof {
                reveal_strlit("argon2: ");
                assert(msg@ == argon2_error_text(m@));
                assert(msg@ == argon2_error_text(m@) || msg@ == rng_error_text(m@));
            }
            Err(AppError::Internal(msg))
        },
    }
}

/// The message for a failure of Argon2.
pub open spec fn argon2_error_text(m: Seq<char>) -> Seq<char> {
    "argon2: "@ + m
}

/// Whether `password` matches the stored PHC string `hash`. A string that is no
/// PHC string matches nothing.
pub fn verify_password(password: &str, hash: &str) -> (b: bool)
    ensures
        b == argon2_verifies(password@, hash@),
{
    argon2_verify(password, hash)
}

/// Decides a login against the stored account, if any: its password hash and
/// whether it is disabled. Unknown users, wrong passwords and disabled accounts
/// are refused alike with `Unauthorized`; for an unknown user the password is
/// still checked against `dummy_hash`, so both paths cost the same.
pub fn check_login(account: Option<(&str, bool)>, password: &str, dummy_hash: &str) -> (r: Result<(), AppError>)
    ensures
        r is Ok <==> (account matches Some((h, disabled)) && !disabled && argon2_verifies(password@, h@)),
        r matches Err(e) ==> e is Unauthorized,
{
    match account {
        Some((h, disabled)) => {
            if verify_password(password, h) && !disabled {
                Ok(())
            } else {
                Err(AppError::Unauthorized)
            }
        },
        None => {
            let _ = verify_password(password, dummy_hash);
            Err(AppError::Unauthorized)
        },
    }
}


/// `bytes` as lowercase hex, two digits per byte.
pub fn hex_string(bytes: &[u8]) -> (s: String)
    ensures
        s@ == hex_of(bytes@),
{
    let mut out: Vec<char> = Vec::new();
    let mut i: usize = 0;
    while i < bytes.len()
        invariant
            0 <= i <= bytes@.len(),
            out@ == hex_of(bytes@.take(i as int)),
        decreases bytes@.len() - i,
    {
        let b = bytes[i];
        out.push(crate::hash::hex_digit(b / 16));
        out.push(crate::hash::hex_digit(b % 16));
        i += 1;
        assert(out@ =~= hex_of(bytes@.take(i as int)));
    }
    assert(bytes@.take(i as int) =~= bytes@);
    string_of(&out)
}

/// The message for a failure of the system's random source.
pub open spec fn rng_error_text(m: Seq<char>) -> Seq<char> {
    "rng: "@ + m
}

/// Whether `s` is the hex text of some `n` bytes.
pub open spec fn hex_of_some(s: Seq<char>, n: nat) -> bool {
    exists|b: Seq<u8>| b.len() == n && #[trigger] hex_of(b) == s
}

/// `bytes` random bytes as lowercase hex: `2 * bytes` hex digits, the hex text of
/// the bytes drawn ([`hex_string`]). Drawing nothing always succeeds.
pub fn random_hex(bytes: usize) -> (r: Result<String, AppError>)
    requires
        bytes < usize::MAX / 2,
    ensures
        match r {
            Ok(s) => s@.len() == 2 * bytes && is_hex_text(s@) && hex_of_some(s@, bytes as nat),
            Err(e) => bytes > 0 && e is Internal && exists|m: Seq<char>| e->Internal_0@ == #[trigger] rng_error_text(m),
        },
        bytes == 0 ==> (r matches Ok(s) && s@.len() == 0),
{
    let buf = match random_bytes(bytes) {
        Ok(b) => b,
        Err(m) => {
            let mut msg = String::from_str("rng: ");
            msg.append(m.as_str());
            proof {
                reveal_strlit("rng: ");
                assert(msg@ == rng_error_text(m@));
            }
            return Err(AppError::Internal(msg));
        },
    };
    let s = hex_string(&buf);
    proof {
        lemma_hex_text(buf@);
        assert(hex_of(buf@) == s@);
    }
    Ok(s)
}

/// The lookup prefix and the secret of an API token made from `id` and `secret`
/// bytes: `sol_` and the hex of `id`, and the hex of `secret`.
pub open spec fn credentials_of(id: Seq<u8>, secret: Seq<u8>) -> (Seq<char>, Seq<char>) {
    ("sol_"@ + hex_of(id), hex_of(secret))
}

/// The credentials of an API token made from `id` and `secret` bytes: the lookup
/// prefix, the secret, and the secret's stored hash (see [`credentials_of`]).
pub fn token_credentials(id: &[u8], secret: &[u8]) -> (r: (String, String, crate::hash::Hash))
    ensures
        (r.0@, r.1@) == credentials_of(id@, secret@),
        r.2@ == hash_of(vstd::utf8::encode_utf8(r.1@)),
{
    let mut prefix = String::from_str(TOKEN_PREFIX);
    prefix.append(hex_string(id).as_str());
    let secret = hex_string(secret);
    let secret_hash = crate::hash::Hash::of_str(secret.as_str());
    (prefix, secret, secret_hash)
}

/// Fresh credentials for an API token, from 6 and 32 random bytes: the lookup
/// prefix `sol_` and 12 hex digits, the secret of 64 hex digits, and the secret's
/// stored hash. The token's text is [`token_string`] of the prefix and the secret.
pub fn new_token_credentials() -> (r: Result<(String, String, crate::hash::Hash), AppError>)
    ensures
        match r {
            Ok((prefix, secret, secret_hash)) => {
                &&& exists|id: Seq<u8>, sec: Seq<u8>|
                    id.len() == 6 && sec.len() == 32 && #[trigger] credentials_of(id, sec) == (prefix@, secret@)
                &&& prefix@.len() == 16
                &&& prefix@.take(4) == "sol_"@
                &&& is_hex_text(prefix@.skip(4))
                &&& secret@.len() == 64
                &&& is_hex_text(secret@)
                &&& secret_hash@ == hash_of(vstd::utf8::encode_utf8(secret@))
            },
            Err(e) => e is Internal && exists|m: Seq<char>| e->Internal_0@ == #[trigger] rng_error_text(m),
        },
{
    let id = match random_bytes(6) {
        Ok(b) => b,
        Err(m) => {
            let mut msg = String::from_str("rng: ");
            msg.append(m.as_str());
            proof {
                reveal_strlit("rng: ");
                assert(msg@ == rng_error_text(m@));
            }
            return Err(AppError::Internal(msg));
        },
    };
    let sec = match random_bytes(32) {
        Ok(b) => b,
        Err(m) => {
            let mut msg = String::from_str("rng: ");
            msg.append(m.as_str());
            proof {
                reveal_strlit("rng: ");
                assert(msg@ == rng_error_text(m@));
            }
            return Err(AppError::Internal(msg));
        },
    };
    let (prefix, secret, secret_hash) = token_credentials(&id, &sec);
    proof {
        reveal_strlit("sol_");
        lemma_hex_text(id@);
        lemma_hex_text(sec@);
        assert(credentials_of(id@, sec@) == (prefix@, secret@));
        assert(prefix@.take(4) =~= "sol_"@);
        assert(prefix@.skip(4) =~= hex_of(id@));
    }
    Ok((prefix, secret, secret_hash))
}

/// Refuses a token request without scopes.
pub fn check_token_scopes(scopes: &[crate::auth::Scope]) -> (r: Result<(), AppError>)
    ensures
        r is Ok <==> scopes@.len() > 0,
        r matches Err(e) ==> e is Invalid && e->Invalid_0@ == "at least one scope is required"@,
{
    if scopes.len() == 0 {
        return Err(crate::error::invalid("at least one scope is required"));
    }
    Ok(())
}

} // verus!
