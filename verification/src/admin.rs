//! The admin panel's session: a signing key derived from the password with
//! BLAKE2b, cookies that carry their issue time in hex and a keyed BLAKE2b
//! MAC of it, and what the panel's guard, login and logout decide.

use vstd::prelude::*;
use vstd::string::StringSliceAdditionalSpecFns;
use vstd::utf8::*;

use crate::codec::{hex_encode, hex_text};
use crate::text::{
    chars_of, concat_str, contains_seq, copy_range, digit_value, find_char, find_char_index,
    has_lit, has_prefix, lemma_find_char, lemma_numeral_digits, numeral, opt_view, parse_i64,
    parse_i64_spec, push_char, push_numeral, split_by, split_chars, starts_with, string_of,
    trim_by, trim_chars, views, CharClass,
};

verus! {

/// Name of the cookie that carries an admin session.
pub const SESSION_COOKIE_NAME: &'static str = "admin_session";

/// How long, in seconds, an admin session lasts.
pub const SESSION_MAX_AGE_SECS: i64 = 86400;

/// BLAKE2b with a 32-byte output, the given key and personalization, over
/// `data`.
pub uninterp spec fn blake2b_256_digest(key: Seq<u8>, personal: Seq<u8>, data: Seq<u8>) -> Seq<u8>;

/// `blake2b_simd::Params::new().hash_length(32).key(key).personal(personal).hash(data)`:
/// the digest is named, not described; the crate's source shows that it is
/// 32 bytes long, and that an empty key or personalization means none. Keys
/// over 64 bytes and personalizations over 16 bytes make the crate panic.
#[verifier::external_body]
fn blake2b_256(key: &[u8], personal: &[u8], data: &[u8]) -> (out: Vec<u8>)
    requires
        key@.len() <= 64,
        personal@.len() <= 16,
    ensures
        out@ == blake2b_256_digest(key@, personal@, data@),
        out@.len() == 32,
{
    blake2b_simd::Params::new().hash_length(32).key(key).personal(personal).hash(
        data,
    ).as_bytes().to_vec()
}

/// `chrono::Utc::now().timestamp()`: the current time in Unix seconds. Of
/// the value nothing is stated: it is the clock's.
#[verifier::external_body]
fn now_unix_secs() -> (t: i64) {
    chrono::Utc::now().timestamp()
}

/// The personalization of the password hash.
pub open spec fn key_personal() -> Seq<u8> {
    encode_utf8("zcpool-admin-key"@)
}

/// The signing key of a password: its BLAKE2b-256 under the panel's
/// personalization.
pub open spec fn spec_signing_key(password: Seq<char>) -> Seq<u8> {
    blake2b_256_digest(Seq::<u8>::empty(), key_personal(), encode_utf8(password))
}

/// The MAC of `message` under `key`: keyed BLAKE2b-256, in lowercase hex.
pub open spec fn spec_mac(key: Seq<u8>, message: Seq<u8>) -> Seq<char> {
    hex_text(blake2b_256_digest(key, Seq::<u8>::empty(), message))
}

/// Derives the session-signing key from the admin password.
pub fn derive_signing_key(password: &str) -> (key: [u8; 32])
    ensures
        key@ == spec_signing_key(password@),
{
    let personal_text = "zcpool-admin-key";
    proof {
        reveal_strlit("zcpool-admin-key");
        assert(vstd::string::is_ascii(personal_text));
        vstd::string::is_ascii_spec_bytes(personal_text);
    }
    let personal = personal_text.as_bytes();
    let none: Vec<u8> = Vec::new();
    let digest = blake2b_256(none.as_slice(), personal, password.as_bytes());
    let mut key = [0u8; 32];
    let mut i: usize = 0;
    while i < 32
        invariant
            i <= 32,
            digest@.len() == 32,
            forall|j: int| 0 <= j < i ==> key@[j] == digest@[j],
        decreases 32 - i,
    {
        key[i] = digest[i];
        i = i + 1;
    }
    assert(key@ =~= digest@);
    key
}

/// The MAC of `message` under `key`, in lowercase hex.
pub fn compute_mac(key: &[u8; 32], message: &[u8]) -> (mac: String)
    ensures
        mac@ == spec_mac(key@, message@),
{
    let none: Vec<u8> = Vec::new();
    let digest = blake2b_256(key.as_slice(), none.as_slice(), message);
    hex_encode(digest.as_slice())
}

/// What `{:x}` prints for an `i64`: the lowercase hex numeral of its
/// two's-complement bits.
pub open spec fn hex_of_timestamp(ts: i64) -> Seq<char> {
    if ts >= 0 {
        numeral(ts as nat, 16)
    } else {
        numeral((ts + 0x1_0000_0000_0000_0000) as nat, 16)
    }
}

/// The cookie issued at `ts`: the time in hex, `:`, and the MAC of that hex.
pub open spec fn spec_session_cookie(key: Seq<u8>, ts: i64) -> Seq<char> {
    let h = hex_of_timestamp(ts);
    h + seq![':'] + spec_mac(key, encode_utf8(h))
}

/// Whether a cookie is accepted at `now`: it has a `:`, what follows the
/// first `:` is the MAC of what precedes it, that part is a hex `i64`, and
/// less than a session's length has passed since.
pub open spec fn spec_session_valid(key: Seq<u8>, cookie: Seq<char>, now: int) -> bool {
    let i = find_char(cookie, ':');
    if i >= cookie.len() {
        false
    } else {
        let ts_hex = cookie.take(i);
        let mac = cookie.skip(i + 1);
        &&& mac == spec_mac(key, encode_utf8(ts_hex))
        &&& match parse_i64_spec(ts_hex, 16) {
            Some(ts) => now - ts < SESSION_MAX_AGE_SECS,
            None => false,
        }
    }
}

/// Whether a cookie is well signed: whether it is accepted at some time.
pub open spec fn session_signed(key: Seq<u8>, cookie: Seq<char>) -> bool {
    let i = find_char(cookie, ':');
    &&& i < cookie.len()
    &&& cookie.skip(i + 1) == spec_mac(key, encode_utf8(cookie.take(i)))
    &&& parse_i64_spec(cookie.take(i), 16) is Some
}

/// The session cookie issued at time `ts` (Unix seconds).
pub fn make_session_cookie_at(key: &[u8; 32], ts: i64) -> (cookie: String)
    ensures
        cookie@ == spec_session_cookie(key@, ts),
{
    let bits: u128 = if ts >= 0 {
        ts as u128
    } else {
        let u: i128 = (ts as i128) + 0x1_0000_0000_0000_0000i128;
        u as u128
    };
    let mut ts_hex = String::new();
    push_numeral(&mut ts_hex, bits, 16);
    assert(ts_hex@ == hex_of_timestamp(ts));
    let mac = compute_mac(key, ts_hex.as_str().as_bytes());
    let mut cookie = ts_hex.clone();
    push_char(&mut cookie, ':');
    let cookie = concat_str(cookie.as_str(), mac.as_str());
    assert(cookie@ =~= spec_session_cookie(key@, ts));
    cookie
}

/// A session cookie issued now.
pub fn make_session_cookie(key: &[u8; 32]) -> (cookie: String)
    ensures
        exists|ts: i64| cookie@ == spec_session_cookie(key@, ts),
{
    let ts = now_unix_secs();
    make_session_cookie_at(key, ts)
}

/// Whether `cookie` is a session this key signed that has not expired at
/// `now` (Unix seconds).
pub fn verify_session_cookie_at(key: &[u8; 32], cookie: &str, now: i64) -> (ok: bool)
    ensures
        ok == spec_session_valid(key@, cookie@, now as int),
{
    let c = chars_of(cookie);
    let i = find_char_index(&c, ':');
    proof {
        lemma_find_char(c@, ':');
    }
    if i >= c.len() {
        return false;
    }
    let ts_chars = copy_range(&c, 0, i);
    let mac_chars = copy_range(&c, i + 1, c.len());
    assert(ts_chars@ =~= cookie@.take(i as int));
    assert(mac_chars@ =~= cookie@.skip(i + 1));
    let ts_hex = string_of(&ts_chars);
    let mac = string_of(&mac_chars);
    let expected = compute_mac(key, ts_hex.as_str().as_bytes());
    let expected_chars = chars_of(expected.as_str());
    if !crate::text::seq_equal(&mac_chars, &expected_chars) {
        return false;
    }
    match parse_i64(&ts_chars, 16) {
        Some(ts) => {
            let age: i128 = (now as i128) - (ts as i128);
            age < (SESSION_MAX_AGE_SECS as i128)
        },
        None => false,
    }
}

/// Whether `cookie` is a session this key signed that has not expired now.
pub fn verify_session_cookie(key: &[u8; 32], cookie: &str) -> (ok: bool)
    ensures
        ok ==> session_signed(key@, cookie@),
        exists|now: i64| ok == spec_session_valid(key@, cookie@, now as int),
{
    let now = now_unix_secs();
    let ok = verify_session_cookie_at(key, cookie, now);
    proof {
        lemma_find_char(cookie@, ':');
    }
    ok
}

/// The hex of a non-negative time reads back as that time; the hex of a
/// negative one is too large for an `i64`.
proof fn lemma_hex_of_timestamp_parses(ts: i64)
    ensures
        parse_i64_spec(hex_of_timestamp(ts), 16) == if ts >= 0 {
            Some(ts)
        } else {
            None::<i64>
        },
        forall|j: int|
            0 <= j < hex_of_timestamp(ts).len() ==> #[trigger] hex_of_timestamp(ts)[j] != ':',
{
    let n: nat = if ts >= 0 {
        ts as nat
    } else {
        (ts + 0x1_0000_0000_0000_0000) as nat
    };
    lemma_numeral_digits(n, 16);
    let h = numeral(n, 16);
    assert(h == hex_of_timestamp(ts));
    assert forall|j: int| 0 <= j < h.len() implies #[trigger] h[j] != ':' by {
        assert(digit_value(h[j], 16) is Some);
    }
    assert(h[0] != '-' && h[0] != '+');
}

/// A cookie the panel issued at `ts` is accepted at `now` exactly when `ts`
/// is not negative and less than a session's length has passed since.
pub proof fn law_issued_cookie_accepted(key: Seq<u8>, ts: i64, now: int)
    ensures
        spec_session_valid(key, spec_session_cookie(key, ts), now) <==> (ts >= 0 && now - ts
            < SESSION_MAX_AGE_SECS),
{
    let h = hex_of_timestamp(ts);
    let cookie = spec_session_cookie(key, ts);
    lemma_hex_of_timestamp_parses(ts);
    assert forall|j: int| 0 <= j < h.len() implies cookie[j] != ':' by {
        assert(cookie[j] == h[j]);
    }
    assert(cookie[h.len() as int] == ':');
    crate::text::lemma_find_char_at(cookie, ':', h.len() as int);
    assert(cookie.take(h.len() as int) =~= h);
    assert(cookie.skip(h.len() as int + 1) =~= spec_mac(key, encode_utf8(h)));
}

// ---------------------------------------------------------------------------
// Reading the session cookie from the request
// ---------------------------------------------------------------------------

/// `admin_session=`, the start of the pair that carries the session.
pub open spec fn session_pair_prefix() -> Seq<char> {
    SESSION_COOKIE_NAME@.push('=')
}

/// The value of the first pair, trimmed of white space, that starts with
/// `admin_session=`.
pub open spec fn session_in_pairs(pairs: Seq<Seq<char>>) -> Option<Seq<char>>
    decreases pairs.len(),
{
    if pairs.len() == 0 {
        None
    } else {
        let p = trim_by(pairs[0], CharClass::White);
        if starts_with(p, session_pair_prefix()) {
            Some(p.skip(session_pair_prefix().len() as int))
        } else {
            session_in_pairs(pairs.drop_first())
        }
    }
}

/// The session carried by a request's `Cookie` header values: the first
/// `admin_session=` pair, each value cut at `;` into pairs.
pub open spec fn spec_extract_session(values: Seq<Seq<char>>) -> Option<Seq<char>>
    decreases values.len(),
{
    if values.len() == 0 {
        None
    } else {
        match session_in_pairs(split_by(values[0], CharClass::Semicolon)) {
            Some(v) => Some(v),
            None => spec_extract_session(values.drop_first()),
        }
    }
}

/// The texts of a sequence of strings.
pub open spec fn string_views(v: Seq<String>) -> Seq<Seq<char>> {
    v.map_values(|s: String| s@)
}

fn session_in_value(value: &Vec<char>, prefix: &Vec<char>) -> (r: Option<String>)
    requires
        prefix@ == session_pair_prefix(),
    ensures
        opt_view(r) == session_in_pairs(split_by(value@, CharClass::Semicolon)),
{
    let pairs = split_chars(value, CharClass::Semicolon);
    let ghost ps = views(pairs@);
    let mut j: usize = 0;
    assert(ps.skip(0) =~= ps);
    while j < pairs.len()
        invariant
            j <= pairs.len(),
            ps == views(pairs@),
            ps == split_by(value@, CharClass::Semicolon),
            prefix@ == session_pair_prefix(),
            session_in_pairs(ps) == session_in_pairs(ps.skip(j as int)),
        decreases pairs.len() - j,
    {
        let ghost rest = ps.skip(j as int);
        assert(rest[0] == pairs@[j as int]@);
        assert(rest.drop_first() =~= ps.skip(j + 1));
        let p = trim_chars(&pairs[j], CharClass::White);
        if has_prefix(&p, prefix) {
            let v = copy_range(&p, prefix.len(), p.len());
            assert(v@ =~= p@.skip(prefix@.len() as int));
            return Some(string_of(&v));
        }
        j = j + 1;
    }
    assert(ps.skip(j as int) =~= Seq::<Seq<char>>::empty());
    None
}

/// The session cookie among a request's `Cookie` header values.
pub fn extract_session_cookie(values: &Vec<String>) -> (r: Option<String>)
    ensures
        opt_view(r) == spec_extract_session(string_views(values@)),
{
    let ghost vs = string_views(values@);
    let mut prefix = chars_of(SESSION_COOKIE_NAME);
    prefix.push('=');
    let mut i: usize = 0;
    assert(vs.skip(0) =~= vs);
    while i < values.len()
        invariant
            i <= values.len(),
            vs == string_views(values@),
            prefix@ == session_pair_prefix(),
            spec_extract_session(vs) == spec_extract_session(vs.skip(i as int)),
        decreases values.len() - i,
    {
        let ghost rest = vs.skip(i as int);
        assert(rest[0] == values@[i as int]@);
        assert(rest.drop_first() =~= vs.skip(i + 1));
        let chars = chars_of(values[i].as_str());
        match session_in_value(&chars, &prefix) {
            Some(v) => {
                return Some(v);
            },
            None => {},
        }
        i = i + 1;
    }
    assert(vs.skip(i as int) =~= Seq::<Seq<char>>::empty());
    None
}

/// Whether a request with these `Cookie` header values carries a session
/// that is valid at `now`.
pub fn request_authenticated(key: &[u8; 32], cookie_values: &Vec<String>, now: i64) -> (ok: bool)
    ensures
        ok == match spec_extract_session(string_views(cookie_values@)) {
            Some(c) => spec_session_valid(key@, c, now as int),
            None => false,
        },
{
    match extract_session_cookie(cookie_values) {
        Some(c) => verify_session_cookie_at(key, c.as_str(), now),
        None => false,
    }
}

/// What the panel's guard does with a request.
#[derive(Clone, Copy, PartialEq, Eq, Debug)]
pub enum AuthDecision {
    /// The session is valid: the request goes on.
    Proceed,
    /// An API call without a valid session: 401 with a JSON error.
    Unauthorized,
    /// A page without a valid session: redirect to the login page.
    RedirectToLogin,
}

/// The guard: authenticated requests go on; API calls (paths holding
/// `/admin/api/`) get 401, pages a redirect to the login page.
pub fn auth_decision(authenticated: bool, path: &str) -> (d: AuthDecision)
    ensures
        d == if authenticated {
            AuthDecision::Proceed
        } else if contains_seq(path@, "/admin/api/"@) {
            AuthDecision::Unauthorized
        } else {
            AuthDecision::RedirectToLogin
        },
{
    if authenticated {
        return AuthDecision::Proceed;
    }
    let p = chars_of(path);
    if has_lit(&p, "/admin/api/") {
        AuthDecision::Unauthorized
    } else {
        AuthDecision::RedirectToLogin
    }
}

/// Whether a submitted password derives the panel's signing key.
pub fn login_accepted(signing_key: &[u8; 32], password: &str) -> (ok: bool)
    ensures
        ok == (spec_signing_key(password@) == signing_key@),
{
    let submitted = derive_signing_key(password);
    let mut i: usize = 0;
    while i < 32
        invariant
            i <= 32,
            submitted@.len() == 32,
            submitted@ == spec_signing_key(password@),
            signing_key@.len() == 32,
            forall|j: int| 0 <= j < i ==> submitted@[j] == signing_key@[j],
        decreases 32 - i,
    {
        if submitted[i] != signing_key[i] {
            assert(submitted@[i as int] != signing_key@[i as int]);
            assert(submitted@ != signing_key@);
            return false;
        }
        i = i + 1;
    }
    assert(submitted@ =~= signing_key@);
    true
}

/// The `Set-Cookie` value that opens a session.
pub fn session_set_cookie(cookie: &str) -> (h: String)
    ensures
        h@ == "admin_session="@ + cookie@ + "; Path=/admin; HttpOnly; SameSite=Lax; Secure; Max-Age=86400"@,
{
    let head = concat_str("admin_session=", cookie);
    concat_str(head.as_str(), "; Path=/admin; HttpOnly; SameSite=Lax; Secure; Max-Age=86400")
}

/// The `Set-Cookie` value that ends a session.
pub fn session_clear_cookie() -> (h: String)
    ensures
        h@ == "admin_session=; Path=/admin; HttpOnly; SameSite=Strict; Max-Age=0"@,
{
    "admin_session=; Path=/admin; HttpOnly; SameSite=Strict; Max-Age=0".to_owned()
}

// ---------------------------------------------------------------------------
// Saving the configuration
// ---------------------------------------------------------------------------

/// The message of the error that parsing `content` as a TOML table gives,
/// when it gives one.
pub uninterp spec fn toml_table_parse_error(content: Seq<char>) -> Option<Seq<char>>;

/// `content.parse::<toml::Table>()`, with the error rendered by `Display`:
/// whether the text parses, and the message, are named, not described.
#[verifier::external_body]
fn toml_table_error(content: &str) -> (r: Option<String>)
    ensures
        opt_view(r) == toml_table_parse_error(content@),
{
    match content.parse::<toml::Table>() {
        Ok(_) => None,
        Err(e) => Some(format!("{e}")),
    }
}

/// Why the panel refuses to save a configuration text: `Invalid TOML: `
/// and the parser's message, when the text is not a TOML table.
pub open spec fn spec_config_rejection(parse_error: Option<Seq<char>>) -> Option<Seq<char>> {
    match parse_error {
        Some(m) => Some("Invalid TOML: "@ + m),
        None => None,
    }
}

/// The refusal for a given parser outcome.
pub fn config_rejection(parse_error: Option<String>) -> (r: Option<String>)
    ensures
        opt_view(r) == spec_config_rejection(opt_view(parse_error)),
{
    match parse_error {
        Some(m) => Some(concat_str("Invalid TOML: ", m.as_str())),
        None => None,
    }
}

/// Checks a configuration text before it is saved: `None` when it parses as
/// a TOML table, else the message the panel answers with.
pub fn validate_config_text(content: &str) -> (r: Option<String>)
    ensures
        opt_view(r) == spec_config_rejection(toml_table_parse_error(content@)),
{
    config_rejection(toml_table_error(content))
}

// ---------------------------------------------------------------------------
// Health page
// ---------------------------------------------------------------------------

/// The Unix milliseconds of an RFC 3339 time, when the text is one.
pub uninterp spec fn rfc3339_millis(s: Seq<char>) -> Option<i64>;

/// `chrono::DateTime::parse_from_rfc3339(s).ok().map(|t| t.timestamp_millis())`:
/// whether the text parses, and the time, are named, not described.
#[verifier::external_body]
fn rfc3339_unix_millis(s: &str) -> (r: Option<i64>)
    ensures
        r == rfc3339_millis(s@),
{
    match chrono::DateTime::parse_from_rfc3339(s) {
        Ok(t) => Some(t.timestamp_millis()),
        Err(_) => None,
    }
}

/// Whole seconds from `then_ms` to `now_ms`, rounded toward zero as integer
/// division does.
pub open spec fn seconds_between(then_ms: int, now_ms: int) -> int {
    let d = now_ms - then_ms;
    if d >= 0 {
        d / 1000
    } else {
        -((-d) / 1000)
    }
}

/// Seconds since a template time written in RFC 3339, given the parsed time.
pub fn template_age_from(then_ms: Option<i64>, now_ms: i64) -> (age: Option<i64>)
    ensures
        age == match then_ms {
            Some(t) => Some(seconds_between(t as int, now_ms as int) as i64),
            None => None::<i64>,
        },
        age matches Some(a) ==> a == seconds_between(then_ms.unwrap() as int, now_ms as int),
{
    match then_ms {
        None => None,
        Some(t) => {
            let d: i128 = (now_ms as i128) - (t as i128);
            let q: i128 = if d >= 0 {
                d / 1000
            } else {
                -((-d) / 1000)
            };
            assert(-9223372036854775808 <= q <= 9223372036854775807) by (nonlinear_arith)
                requires
                    -18446744073709551615 <= d <= 18446744073709551615,
                    d >= 0 ==> q == d / 1000,
                    d < 0 ==> q == -((-d) / 1000),
            ;
            Some(q as i64)
        },
    }
}

/// Seconds since the last template, when its time is known and parses.
pub fn template_age_secs(last_template_at: &Option<String>, now_ms: i64) -> (age: Option<i64>)
    ensures
        age == match last_template_at {
            Some(ts) => match rfc3339_millis(ts@) {
                Some(t) => Some(seconds_between(t as int, now_ms as int) as i64),
                None => None::<i64>,
            },
            None => None::<i64>,
        },
{
    match last_template_at {
        Some(ts) => template_age_from(rfc3339_unix_millis(ts.as_str()), now_ms),
        None => None,
    }
}

/// The wallet's balances on the health page, `?` for a figure the wallet did
/// not give as text.
pub struct WalletBalanceInfo {
    pub transparent: String,
    pub private: String,
    pub total: String,
}

/// A text the wallet gave, or `?`.
pub open spec fn text_or_unknown(v: Option<String>) -> Seq<char> {
    match v {
        Some(s) => s@,
        None => "?"@,
    }
}

impl WalletBalanceInfo {
    /// The balances from the fields the wallet returned.
    pub fn from_fields(transparent: Option<String>, private: Option<String>, total: Option<String>) -> (b:
        WalletBalanceInfo)
        ensures
            b.transparent@ == text_or_unknown(transparent),
            b.private@ == text_or_unknown(private),
            b.total@ == text_or_unknown(total),
    {
        WalletBalanceInfo {
            transparent: Self::or_unknown(transparent),
            private: Self::or_unknown(private),
            total: Self::or_unknown(total),
        }
    }

    fn or_unknown(v: Option<String>) -> (s: String)
        ensures
            s@ == text_or_unknown(v),
    {
        match v {
            Some(s) => s,
            None => "?".to_owned(),
        }
    }
}

} // verus!
