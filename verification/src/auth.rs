//! Authentication of the application's principals: secrets, fingerprints,
//! password checks, API key scopes and attempt throttling.
use argon2::{Argon2, PasswordVerifier};
use sha2::{Digest, Sha256};
use vstd::prelude::*;
use vstd::string::StringSliceAdditionalSpecFns;

use crate::code::{normalize, normalized};
use crate::error::AppError;
use crate::net::Address;
use crate::throttle::{admit_spec, Throttle, ThrottleKey, Throttles};
use crate::text::{
    concat_spec, i64_to_text, int_digits, push_char, same_text, split, split_on, split_once,
    split_once_spec, text_of, trim, trimmed,
};

verus! {

/// Lifetime of a session, in seconds (thirty days).
pub const SESSION_TTL_SECONDS: i64 = 2592000;

// ---------------------------------------------------------------------------
// Secrets and fingerprints
// ---------------------------------------------------------------------------

/// Lower-case hexadecimal digit of a value below sixteen.
pub open spec fn hex_digit(v: nat) -> char {
    if v < 10 {
        ((v + 48) as u32) as char
    } else {
        ((v + 87) as u32) as char
    }
}

/// Two lower-case hexadecimal digits per byte.
pub open spec fn hex_spec(bytes: Seq<u8>) -> Seq<char>
    decreases bytes.len(),
{
    if bytes.len() == 0 {
        Seq::empty()
    } else {
        hex_spec(bytes.drop_last()).push(hex_digit((bytes.last() / 16) as nat)).push(
            hex_digit((bytes.last() % 16) as nat),
        )
    }
}

proof fn lemma_hex_len(bytes: Seq<u8>)
    ensures
        hex_spec(bytes).len() == 2 * bytes.len(),
    decreases bytes.len(),
{
    if bytes.len() > 0 {
        lemma_hex_len(bytes.drop_last());
    }
}

fn hex_char(v: u8) -> (c: char)
    requires
        v < 16,
    ensures
        c == hex_digit(v as nat),
{
    if v < 10 {
        (v + 48) as char
    } else {
        (v + 87) as char
    }
}

/// Lower-case hexadecimal writing of bytes.
pub fn hex(bytes: &[u8]) -> (s: String)
    ensures
        s@ == hex_spec(bytes@),
{
    let mut s = String::new();
    let mut i: usize = 0;
    while i < bytes.len()
        invariant
            i <= bytes@.len(),
            s@ == hex_spec(bytes@.take(i as int)),
        decreases bytes@.len() - i,
    {
        let b = bytes[i];
        push_char(&mut s, hex_char(b / 16));
        push_char(&mut s, hex_char(b % 16));
        proof {
            assert(bytes@.take(i + 1).drop_last() == bytes@.take(i as int));
        }
        i = i + 1;
    }
    proof {
        assert(bytes@.take(bytes@.len() as int) == bytes@);
    }
    s
}

/// SHA-256 digest of a byte string.
pub uninterp spec fn sha256_spec(data: Seq<u8>) -> Seq<u8>;

/// `sha2::Sha256::digest`.
///
/// Claimed: the digest is `sha256_spec` of the input, 32 bytes long.
#[verifier::external_body]
fn sha256(data: &[u8]) -> (r: Vec<u8>)
    ensures
        r@ == sha256_spec(data@),
        r@.len() == 32,
{
    Sha256::digest(data).to_vec()
}

/// Fingerprint of a secret: the hexadecimal SHA-256 of its UTF-8 bytes.
pub open spec fn fingerprint_spec(secret: &str) -> Seq<char> {
    hex_spec(sha256_spec(secret.spec_bytes()))
}

/// Fingerprint of a full-entropy secret.
///
/// SHA-256 and not Argon2id: the cost of a key-derivation function only
/// slows down the exhaustive search of a *guessable* secret. On 256 random
/// bits it would bring nothing and cost 100 ms per request.
pub fn fingerprint(secret: &str) -> (r: String)
    ensures
        r@ == fingerprint_spec(secret),
        r@.len() == 64,
        forall|i: int| 0 <= i < r@.len() ==> is_hex_lower(#[trigger] r@[i]),
{
    let digest = sha256(secret.as_bytes());
    proof {
        lemma_hex_len(digest@);
        lemma_hex_alphabet(digest@);
    }
    hex(digest.as_slice())
}

/// The text fingerprinted for the teacher's credentials: user name, a NUL
/// separator, password hash.
pub open spec fn credential_text(username: Seq<char>, password_hash: Seq<char>) -> Seq<char> {
    username + seq!['\0'] + password_hash
}

/// Fingerprint of the teacher's credentials, carried by every teacher
/// session: changing the password or the user name changes it, and every
/// session opened before stops being valid.
pub fn credential_fingerprint(username: &str, password_hash: &str) -> (r: String)
    ensures
        exists|joined: &str| joined@ == credential_text(username@, password_hash@) && r@ == fingerprint_spec(joined),
        r@.len() == 64,
        forall|i: int| 0 <= i < r@.len() ==> is_hex_lower(#[trigger] r@[i]),
{
    let mut joined = String::from_str(username);
    push_char(&mut joined, '\0');
    joined.append(password_hash);
    proof {
        assert(joined@ == credential_text(username@, password_hash@));
    }
    let js = joined.as_str();
    let r = fingerprint(js);
    proof {
        assert(js@ == credential_text(username@, password_hash@));
    }
    r
}

/// The NUL separator keeps the two fields apart: moving the boundary between
/// a user name and a password hash cannot give the same fingerprinted text.
pub proof fn lemma_credential_text_injective(u1: Seq<char>, h1: Seq<char>, u2: Seq<char>, h2: Seq<char>)
    requires
        !u1.contains('\0'),
        !u2.contains('\0'),
        credential_text(u1, h1) == credential_text(u2, h2),
    ensures
        u1 == u2,
        h1 == h2,
{
    let t = credential_text(u1, h1);
    assert(t[u1.len() as int] == '\0');
    assert(t[u2.len() as int] == '\0');
    if u1.len() < u2.len() {
        assert(u2[u1.len() as int] == t[u1.len() as int]);
        assert(u2.contains('\0'));
    } else if u2.len() < u1.len() {
        assert(u1[u2.len() as int] == t[u2.len() as int]);
        assert(u1.contains('\0'));
    }
    assert(u1 =~= t.take(u1.len() as int));
    assert(u2 =~= t.take(u2.len() as int));
    assert(h1 =~= t.skip(u1.len() as int + 1));
    assert(h2 =~= t.skip(u2.len() as int + 1));
}

pub open spec fn is_hex_lower(c: char) -> bool {
    ('0' <= c && c <= '9') || ('a' <= c && c <= 'f')
}

/// 256 bits from the operating system's generator, in hexadecimal.
pub fn random_secret() -> (s: String)
    ensures
        s@.len() == 64,
        forall|i: int| 0 <= i < s@.len() ==> is_hex_lower(#[trigger] s@[i]),
{
    let mut bytes = [0u8; 32];
    crate::code::fill_random(&mut bytes);
    let s = hex(&bytes);
    proof {
        lemma_hex_len(bytes@);
        lemma_hex_alphabet(bytes@);
    }
    s
}

proof fn lemma_hex_digit_is_hex(v: nat)
    requires
        v < 16,
    ensures
        is_hex_lower(hex_digit(v)),
{
    if v < 10 {
        assert(((v + 48) as u32) as char == ((v + 48) as u32) as char);
        assert(48 <= v + 48 <= 57);
    } else {
        assert(97 <= v + 87 <= 102);
    }
}

proof fn lemma_hex_alphabet(bytes: Seq<u8>)
    ensures
        forall|i: int| 0 <= i < hex_spec(bytes).len() ==> is_hex_lower(#[trigger] hex_spec(bytes)[i]),
    decreases bytes.len(),
{
    if bytes.len() > 0 {
        lemma_hex_alphabet(bytes.drop_last());
        let b = bytes.last();
        lemma_hex_digit_is_hex((b / 16) as nat);
        lemma_hex_digit_is_hex((b % 16) as nat);
        let h = hex_spec(bytes);
        let p = hex_spec(bytes.drop_last());
        assert forall|i: int| 0 <= i < h.len() implies is_hex_lower(#[trigger] h[i]) by {
            if i < p.len() {
                assert(h[i] == p[i]);
            }
        }
    }
}

// ---------------------------------------------------------------------------
// Passwords
// ---------------------------------------------------------------------------

/// `phc::PasswordHash::new` accepts the text as a PHC string.
pub uninterp spec fn phc_readable(phc: Seq<char>) -> bool;

/// `Argon2::default()` verifies `password` against the PHC string `phc`.
pub uninterp spec fn argon2_accepts(password: Seq<char>, phc: Seq<char>) -> bool;

/// `argon2::PasswordHash::new(phc)` succeeds.
///
/// Claimed: the answer is `phc_readable` of the text.
#[verifier::external_body]
fn phc_parses(phc: &str) -> (r: bool)
    ensures
        r == phc_readable(phc@),
{
    argon2::PasswordHash::new(phc).is_ok()
}

/// `Argon2::default().verify_password(password, phc)` succeeds.
///
/// Claimed: the answer is `argon2_accepts` of the two texts.
#[verifier::external_body]
fn argon2_verify(password: &str, phc: &str) -> (r: bool)
    ensures
        r == argon2_accepts(password@, phc@),
{
    Argon2::default().verify_password(password.as_bytes(), phc).is_ok()
}

/// Checks a password against an Argon2id PHC string. An unreadable string is
/// refused, never accepted.
pub fn verify_password(password: &str, phc: &str) -> (r: Result<bool, AppError>)
    ensures
        phc_readable(phc@) ==> r == Ok::<bool, AppError>(argon2_accepts(password@, phc@)),
        !phc_readable(phc@) ==> (r matches Err(AppError::Internal(m)) && m@ == "TEACHER_PASSWORD_HASH illisible"@),
{
    if !phc_parses(phc) {
        return Err(AppError::Internal(String::from_str("TEACHER_PASSWORD_HASH illisible")));
    }
    Ok(argon2_verify(password, phc))
}

// ---------------------------------------------------------------------------
// API keys and principals
// ---------------------------------------------------------------------------

/// What an API key allows.
#[derive(Clone, Copy, Debug, PartialEq, Eq, Structural)]
pub enum Scope {
    /// Drafting subjects and reading pseudonymised results. Allows neither
    /// validating a draft, nor opening an assessment, nor anything touching
    /// participants, tokens or purges.
    Agent,
}

pub open spec fn scope_text(s: Scope) -> Seq<char> {
    match s {
        Scope::Agent => "agent"@,
    }
}

pub open spec fn scope_of_text(t: Seq<char>) -> Option<Scope> {
    if t == "agent"@ {
        Some(Scope::Agent)
    } else {
        None
    }
}

impl Scope {
    pub fn as_str(&self) -> (r: &'static str)
        ensures
            r@ == scope_text(*self),
    {
        match self {
            Scope::Agent => "agent",
        }
    }

    pub fn parse(s: &str) -> (r: Option<Scope>)
        ensures
            r == scope_of_text(s@),
    {
        if same_text(s, "agent") {
            Some(Scope::Agent)
        } else {
            None
        }
    }
}

/// A scope read back from its text is the same scope.
pub proof fn lemma_scope_round_trip(s: Scope)
    ensures
        scope_of_text(scope_text(s)) == Some(s),
{
}

/// Who may **draft** a subject: the teacher or an agent. Validating, opening
/// an assessment and anything that destroys stay the teacher's alone.
#[derive(Clone, Copy, Debug, PartialEq, Eq, Structural)]
pub enum Author {
    Teacher,
    Agent,
}

pub open spec fn author_text(a: Author) -> Seq<char> {
    match a {
        Author::Teacher => "teacher"@,
        Author::Agent => "agent"@,
    }
}

impl Author {
    pub fn as_str(&self) -> (r: &'static str)
        ensures
            r@ == author_text(*self),
    {
        match self {
            Author::Teacher => "teacher",
            Author::Agent => "agent",
        }
    }
}

// ---------------------------------------------------------------------------
// Request credentials
// ---------------------------------------------------------------------------

/// Name of the teacher's session cookie.
pub const SESSION_COOKIE: &'static str = "qcmweb_session";

/// The value of the first cookie, among `;`-separated pieces, whose trimmed
/// text splits at its first `=` into the session cookie's name and a value.
pub open spec fn cookie_value(pieces: Seq<Seq<char>>) -> Option<Seq<char>>
    decreases pieces.len(),
{
    if pieces.len() == 0 {
        None
    } else {
        match cookie_value(pieces.drop_last()) {
            Some(v) => Some(v),
            None => match split_once_spec(trimmed(pieces.last()), '=') {
                Some((name, value)) => if name == "qcmweb_session"@ {
                    Some(value)
                } else {
                    None
                },
                None => None,
            },
        }
    }
}

/// The session token carried by a `Cookie` header.
pub fn session_cookie(cookie_header: &str) -> (r: Option<String>)
    ensures
        match cookie_value(split_on(cookie_header@, ';')) {
            Some(v) => r matches Some(t) && t@ == v,
            None => r is None,
        },
{
    let pieces = split(cookie_header, ';');
    let ghost all = pieces@.map_values(|p: &str| p@);
    let mut i: usize = 0;
    proof {
        assert(all.take(0) =~= Seq::<Seq<char>>::empty());
    }
    while i < pieces.len()
        invariant
            i <= pieces@.len(),
            all == pieces@.map_values(|p: &str| p@),
            all == split_on(cookie_header@, ';'),
            cookie_value(all.take(i as int)) is None,
        decreases pieces@.len() - i,
    {
        proof {
            assert(all.take(i + 1).drop_last() == all.take(i as int));
            assert(all.take(i + 1).last() == pieces@[i as int]@);
        }
        if let Some((name, value)) = split_once(trim(pieces[i]), '=') {
            if same_text(name, SESSION_COOKIE) {
                proof {
                    reveal_strlit("qcmweb_session");
                    lemma_cookie_found_stays(all, (i + 1) as int);
                }
                return Some(String::from_str(value));
            }
        }
        proof {
            reveal_strlit("qcmweb_session");
        }
        i = i + 1;
    }
    proof {
        assert(all.take(pieces@.len() as int) == all);
    }
    None
}

/// Once a cookie is found, pieces after it change nothing.
proof fn lemma_cookie_found_stays(pieces: Seq<Seq<char>>, k: int)
    requires
        0 <= k <= pieces.len(),
        cookie_value(pieces.take(k)) is Some,
    ensures
        cookie_value(pieces) == cookie_value(pieces.take(k)),
    decreases pieces.len() - k,
{
    if k < pieces.len() {
        assert(pieces.take(k + 1).drop_last() == pieces.take(k));
        lemma_cookie_found_stays(pieces, k + 1);
    } else {
        assert(pieces.take(k) == pieces);
    }
}

/// The key of an `Authorization: Bearer` header: the text after `Bearer `,
/// trimmed.
pub open spec fn bearer_spec(header: Seq<char>) -> Option<Seq<char>> {
    if header.len() >= 7 && header.take(7) == "Bearer "@ {
        Some(trimmed(header.skip(7)))
    } else {
        None
    }
}

/// The API key carried by an `Authorization` header.
pub fn bearer(header: &str) -> (r: Option<String>)
    ensures
        match bearer_spec(header@) {
            Some(k) => r matches Some(t) && t@ == k,
            None => r is None,
        },
{
    let n = header.unicode_len();
    if n < 7 {
        return None;
    }
    let head = header.substring_char(0, 7);
    if !same_text(head, "Bearer ") {
        proof {
            reveal_strlit("Bearer ");
        }
        return None;
    }
    proof {
        reveal_strlit("Bearer ");
    }
    Some(String::from_str(trim(header.substring_char(7, n))))
}

/// The `Set-Cookie` value that opens (or, with a zero age, ends) a session.
///
/// `HttpOnly` keeps the token out of reach of any script, `SameSite=Strict`
/// because no legitimate path comes here from another site, `Secure` because
/// the service is served over HTTPS.
pub open spec fn session_cookie_header_spec(token: Seq<char>, max_age_seconds: i64) -> Seq<char> {
    concat_spec(
        seq![
            "qcmweb_session="@,
            token,
            "; HttpOnly; Secure; SameSite=Strict; Path=/; Max-Age="@,
            int_digits(max_age_seconds as int),
        ],
    )
}

pub fn session_cookie_header(token: &str, max_age_seconds: i64) -> (r: String)
    ensures
        r@ == session_cookie_header_spec(token@, max_age_seconds),
{
    let age = i64_to_text(max_age_seconds);
    let parts = [
        "qcmweb_session=",
        token,
        "; HttpOnly; Secure; SameSite=Strict; Path=/; Max-Age=",
        age.as_str(),
    ];
    let r = text_of(&parts);
    proof {
        assert(parts@.map_values(|p: &str| p@) =~= seq![
            "qcmweb_session="@,
            token@,
            "; HttpOnly; Secure; SameSite=Strict; Path=/; Max-Age="@,
            int_digits(max_age_seconds as int),
        ]);
    }
    r
}

// ---------------------------------------------------------------------------
// Principals
// ---------------------------------------------------------------------------

/// Prefix of every API key.
pub const KEY_PREFIX: &'static str = "qcmw_";

/// A fresh API key: the prefix, then 256 bits from the operating system's
/// generator in hexadecimal. It is shown once; only its fingerprint is kept.
pub fn new_api_key() -> (k: String)
    ensures
        k@.len() == 69,
        k@.take(5) == "qcmw_"@,
        forall|i: int| 5 <= i < k@.len() ==> is_hex_lower(#[trigger] k@[i]),
{
    let secret = random_secret();
    let k = text_of(&[KEY_PREFIX, secret.as_str()]);
    proof {
        reveal_with_fuel(concat_spec, 3);
        reveal_strlit("qcmw_");
        assert(k@.take(5) =~= "qcmw_"@);
        assert forall|i: int| 5 <= i < k@.len() implies is_hex_lower(#[trigger] k@[i]) by {
            assert(k@[i] == secret@[i - 5]);
        }
    }
    k
}

/// Proof that a request comes from the authenticated teacher.
pub struct Teacher;

/// Proof that a request comes from an agent holding a valid key.
pub struct Agent {
    pub scope: Scope,
}

/// The agent behind a key, from the scope stored with it (`None` when no
/// valid key matches): an unknown key is not authenticated, a key of an
/// unknown scope is refused.
pub fn agent_of_key(stored_scope: Option<&str>) -> (r: Result<Agent, AppError>)
    ensures
        match stored_scope {
            None => r matches Err(AppError::Unauthorized),
            Some(s) => match scope_of_text(s@) {
                Some(scope) => r matches Ok(a) && a.scope == scope,
                None => r matches Err(AppError::Forbidden),
            },
        },
{
    match stored_scope {
        None => Err(AppError::Unauthorized),
        Some(s) => match Scope::parse(s) {
            Some(scope) => Ok(Agent { scope }),
            None => Err(AppError::Forbidden),
        },
    }
}

/// Who drafts: the teacher when the request carries a teacher session,
/// else the agent of its key, else the agent's refusal.
pub fn author_of(teacher: bool, agent: Result<Agent, AppError>) -> (r: Result<Author, AppError>)
    ensures
        teacher ==> r == Ok::<Author, AppError>(Author::Teacher),
        !teacher ==> match agent {
            Ok(_) => r == Ok::<Author, AppError>(Author::Agent),
            Err(e) => r == Err::<Author, AppError>(e),
        },
{
    if teacher {
        return Ok(Author::Teacher);
    }
    match agent {
        Ok(_) => Ok(Author::Agent),
        Err(e) => Err(e),
    }
}

/// The credentials of the instance's single teacher.
pub struct AuthConfig {
    pub username: String,
    pub password_hash: String,
    /// Fingerprint of the two above, carried by the sessions opened.
    pub credential: String,
}

impl AuthConfig {
    pub fn new(username: String, password_hash: String) -> (c: AuthConfig)
        ensures
            c.username@ == username@,
            c.password_hash@ == password_hash@,
            exists|joined: &str| joined@ == credential_text(username@, password_hash@) && c.credential@ == fingerprint_spec(joined),
    {
        let credential = credential_fingerprint(username.as_str(), password_hash.as_str());
        AuthConfig { username, password_hash, credential }
    }
}

/// What a teacher sends to log in.
pub struct Credentials {
    pub username: String,
    pub password: String,
}

/// What a pupil sends to log in.
pub struct TokenCredentials {
    pub token: String,
    pub secret: String,
}

/// How a password check ends.
#[derive(Clone, Copy, Debug, PartialEq, Eq, Structural)]
pub enum Check {
    Accepted,
    Refused,
    /// The stored hash cannot be read: refused, never let through.
    Unreadable,
}

pub open spec fn teacher_check(config: AuthConfig, creds: Credentials) -> Check {
    if !phc_readable(config.password_hash@) {
        Check::Unreadable
    } else if creds.username@ == config.username@ && argon2_accepts(creds.password@, config.password_hash@) {
        Check::Accepted
    } else {
        Check::Refused
    }
}

/// The answer for a check that ended as `c`.
pub open spec fn check_answers(c: Check, r: Result<(), AppError>) -> bool {
    match c {
        Check::Accepted => r is Ok,
        Check::Refused => r matches Err(AppError::Unauthorized),
        Check::Unreadable => r matches Err(AppError::Internal(m)) && m@ == "TEACHER_PASSWORD_HASH illisible"@,
    }
}

/// Checks the teacher's credentials. The password is checked even when the
/// user name is wrong, so that the time taken does not tell which is.
pub fn check_credentials(config: &AuthConfig, creds: &Credentials) -> (r: Result<(), AppError>)
    ensures
        check_answers(teacher_check(*config, *creds), r),
{
    let user_ok = same_text(creds.username.as_str(), config.username.as_str());
    let pass_ok = match verify_password(creds.password.as_str(), config.password_hash.as_str()) {
        Ok(b) => b,
        Err(e) => {
            return Err(e);
        },
    };
    if !(user_ok && pass_ok) {
        return Err(AppError::Unauthorized);
    }
    Ok(())
}

/// What a login does to its counter and answers, the try being made at
/// `now` and the check ending as `c`: the quota is **reserved before** the
/// check, a refused reservation answers "too many tries" without checking,
/// and only a success frees the key's counter.
pub open spec fn login_spec<KV>(
    before: Map<KV, (u32, u128)>,
    key: KV,
    now: u128,
    max: u32,
    window: u128,
    c: Check,
    r: Result<(), AppError>,
    after: Map<KV, (u32, u128)>,
) -> bool {
    let (admitted, counted) = admit_spec(before, key, now, max, window);
    if !admitted {
        r matches Err(AppError::TooManyRequests) && after == counted
    } else {
        &&& check_answers(c, r)
        &&& (c == Check::Accepted ==> after == counted.remove(key))
        &&& (c != Check::Accepted ==> after == counted)
    }
}

/// First step of a login: a try on `key` is reserved **before** anything is
/// checked; counting afterwards would let through as many tries as
/// simultaneous requests. A refusal answers "too many tries".
pub fn reserve_try<K: ThrottleKey>(throttle: &mut Throttle<K>, key: &K) -> (r: Result<(), AppError>)
    requires
        old(throttle).wf(),
    ensures
        final(throttle).wf(),
        final(throttle).quota() == old(throttle).quota(),
        final(throttle).window() == old(throttle).window(),
        exists|now: u128|
            #[trigger] admit_spec(old(throttle)@, key@, now, old(throttle).quota(), old(throttle).window())
                == (r is Ok, final(throttle)@),
        r is Err ==> r matches Err(AppError::TooManyRequests),
{
    if throttle.admit_now(key) {
        Ok(())
    } else {
        Err(AppError::TooManyRequests)
    }
}

/// Last step of a login: the answer is the check's, and only a success —
/// which proves knowledge of this key's own secret — frees the key's counter.
pub fn settle_try<K: ThrottleKey>(throttle: &mut Throttle<K>, key: &K, checked: Result<(), AppError>) -> (r: Result<(), AppError>)
    requires
        old(throttle).wf(),
    ensures
        final(throttle).wf(),
        final(throttle).quota() == old(throttle).quota(),
        final(throttle).window() == old(throttle).window(),
        r == checked,
        checked is Ok ==> final(throttle)@ == old(throttle)@.remove(key@),
        checked is Err ==> final(throttle)@ == old(throttle)@,
{
    if checked.is_ok() {
        throttle.clear(key);
    }
    checked
}

/// The check of a pupil's secret: the secret typed, in its canonical form,
/// against the token's hash.
pub fn check_pupil_secret(secret: &str, secret_hash: &str) -> (r: Result<(), AppError>)
    ensures
        check_answers(pupil_check(secret@, secret_hash@), r),
{
    let canonical = normalize(secret);
    match verify_password(canonical.as_str(), secret_hash) {
        Ok(true) => Ok(()),
        Ok(false) => Err(AppError::Unauthorized),
        Err(e) => Err(e),
    }
}

/// A teacher's login from `ip`. Succeeding proves knowledge of the teacher's
/// password: the counter of that address may be freed, and this is the only
/// place where it is.
pub fn teacher_login(throttles: &mut Throttles, ip: Address, config: &AuthConfig, creds: &Credentials) -> (r: Result<(), AppError>)
    requires
        old(throttles).teacher.wf(),
    ensures
        final(throttles).teacher.wf(),
        final(throttles).teacher.quota() == old(throttles).teacher.quota(),
        final(throttles).teacher.window() == old(throttles).teacher.window(),
        final(throttles).student == old(throttles).student,
        exists|now: u128| #[trigger] login_spec(
            old(throttles).teacher@,
            ip,
            now,
            old(throttles).teacher.quota(),
            old(throttles).teacher.window(),
            teacher_check(*config, *creds),
            r,
            final(throttles).teacher@,
        ),
{
    let ghost before = throttles.teacher@;
    let ghost q = throttles.teacher.quota();
    let ghost w = throttles.teacher.window();
    let reserved = reserve_try(&mut throttles.teacher, &ip);
    let ghost counted = throttles.teacher@;
    let ghost now = choose|now: u128| #[trigger] admit_spec(before, ip@, now, q, w) == (reserved is Ok, counted);
    if reserved.is_err() {
        let refused = Err(AppError::TooManyRequests);
        proof {
            assert(login_spec(before, ip, now, q, w, teacher_check(*config, *creds), refused, counted));
        }
        return refused;
    }
    let checked = settle_try(&mut throttles.teacher, &ip, check_credentials(config, creds));
    proof {
        assert(login_spec(before, ip, now, q, w, teacher_check(*config, *creds), checked, throttles.teacher@));
    }
    checked
}

pub open spec fn pupil_check(secret: Seq<char>, secret_hash: Seq<char>) -> Check {
    if !phc_readable(secret_hash) {
        Check::Unreadable
    } else if argon2_accepts(normalized(secret), secret_hash) {
        Check::Accepted
    } else {
        Check::Refused
    }
}

/// A pupil's login with a known token, from `ip`: the secret typed, in its
/// canonical form, against the token's hash. The counter is that of the
/// (token, address) pair: only knowing this token's secret frees it, and a
/// third party who knows a token cannot lock its owner out from another
/// machine.
pub fn pupil_login(
    throttles: &mut Throttles,
    token: String,
    ip: Address,
    secret: &str,
    secret_hash: &str,
) -> (r: Result<(), AppError>)
    requires
        old(throttles).student.wf(),
    ensures
        final(throttles).student.wf(),
        final(throttles).student.quota() == old(throttles).student.quota(),
        final(throttles).student.window() == old(throttles).student.window(),
        final(throttles).teacher == old(throttles).teacher,
        exists|now: u128| #[trigger] login_spec(
            old(throttles).student@,
            (token@, ip),
            now,
            old(throttles).student.quota(),
            old(throttles).student.window(),
            pupil_check(secret@, secret_hash@),
            r,
            final(throttles).student@,
        ),
{
    let ghost before = throttles.student@;
    let ghost q = throttles.student.quota();
    let ghost w = throttles.student.window();
    let key = (token, ip);
    let reserved = reserve_try(&mut throttles.student, &key);
    let ghost counted = throttles.student@;
    let ghost now = choose|now: u128| #[trigger] admit_spec(before, key@, now, q, w) == (reserved is Ok, counted);
    if reserved.is_err() {
        let refused = Err(AppError::TooManyRequests);
        proof {
            assert(login_spec(before, key@, now, q, w, pupil_check(secret@, secret_hash@), refused, counted));
        }
        return refused;
    }
    let checked = settle_try(&mut throttles.student, &key, check_pupil_secret(secret, secret_hash));
    proof {
        assert(login_spec(before, key@, now, q, w, pupil_check(secret@, secret_hash@), checked, throttles.student@));
    }
    checked
}

} // verus!
