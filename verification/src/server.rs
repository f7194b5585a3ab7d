//! The decisions of the server's HTTP side: API-key checks of the Server API, defaults of its
//! requests, presence statistics, the admin session (cookie, login, token), whether the admin UI
//! may listen, which lifecycle events go to the webhook, the Prometheus exposition of the
//! counters, and the base64 framing of binary data in JSON and SSE.

use vstd::prelude::*;
use base64::Engine;
use crate::broker::unix_secs;
use crate::config::ApiKey;
use crate::protocol::ClientInfo;
use crate::strmap::StrMap;
use crate::text::{decimal, decimal_string, split_by, split_on, strip_prefix, views};

verus! {

// ─── Server API access ───

/// The scheme word of an API-key `Authorization` header.
pub open spec fn apikey_scheme() -> Seq<char> {
    "apikey "@
}

/// The key an `Authorization` header carries: the text after `apikey ` (empty when the header
/// is missing or has another scheme).
pub open spec fn header_key(header: Option<Seq<char>>) -> Seq<char> {
    match header {
        Some(h) => if apikey_scheme().len() <= h.len() && h.take(apikey_scheme().len() as int) == apikey_scheme() {
            h.skip(apikey_scheme().len() as int)
        } else {
            Seq::empty()
        },
        None => Seq::empty(),
    }
}

/// Whether a configured key grants `method`: it names the method, or it names none (all).
pub open spec fn key_grants(k: ApiKey, method: Seq<char>) -> bool {
    k.allow@.len() == 0 || views(k.allow@).contains(method)
}

/// Whether a request whose `Authorization` header is `header` may call `method`.
pub open spec fn api_key_allows_spec(keys: Seq<ApiKey>, header: Option<Seq<char>>, method: Seq<char>) -> bool {
    let key = header_key(header);
    key.len() > 0 && exists|i: int| 0 <= i < keys.len() && keys[i].key@ == key && key_grants(keys[i], method)
}

/// A configured key that names no methods opens every method of the Server API, to a request
/// that presents it as `apikey <key>`; no request without a key gets through.
pub proof fn lemma_unrestricted_key(keys: Seq<ApiKey>, i: int, method: Seq<char>)
    requires
        0 <= i < keys.len(),
        keys[i].allow@.len() == 0,
        keys[i].key@.len() > 0,
    ensures
        api_key_allows_spec(keys, Some(apikey_scheme() + keys[i].key@), method),
        !api_key_allows_spec(keys, None, method),
{
    let h = apikey_scheme() + keys[i].key@;
    assert(h.take(apikey_scheme().len() as int) =~= apikey_scheme());
    assert(h.skip(apikey_scheme().len() as int) =~= keys[i].key@);
}

/// A configured key with a non-empty key opens to a request presenting it as `apikey <key>`
/// every method that its `allow` list names, wherever in the list; a method that no key of that
/// name lists is refused unless one of those keys lists none.
pub proof fn lemma_listed_methods_granted(keys: Seq<ApiKey>, i: int, j: int, method: Seq<char>)
    requires
        0 <= i < keys.len(),
        keys[i].key@.len() > 0,
        0 <= j < keys[i].allow@.len(),
    ensures
        api_key_allows_spec(keys, Some(apikey_scheme() + keys[i].key@), keys[i].allow@[j]@),
        (forall|k: int| 0 <= k < keys.len() && keys[k].key@ == keys[i].key@ ==> keys[k].allow@.len() > 0
            && forall|l: int| 0 <= l < keys[k].allow@.len() ==> keys[k].allow@[l]@ != method)
            ==> !api_key_allows_spec(keys, Some(apikey_scheme() + keys[i].key@), method),
{
    let h = apikey_scheme() + keys[i].key@;
    assert(h.take(apikey_scheme().len() as int) =~= apikey_scheme());
    assert(h.skip(apikey_scheme().len() as int) =~= keys[i].key@);
    assert(views(keys[i].allow@)[j] == keys[i].allow@[j]@);
    if forall|k: int| 0 <= k < keys.len() && keys[k].key@ == keys[i].key@ ==> keys[k].allow@.len() > 0
        && forall|l: int| 0 <= l < keys[k].allow@.len() ==> keys[k].allow@[l]@ != method {
        assert forall|k: int| 0 <= k < keys.len() && keys[k].key@ == header_key(Some(h)) implies !key_grants(
            keys[k],
            method,
        ) by {
            if views(keys[k].allow@).contains(method) {
                let l = choose|l: int| 0 <= l < views(keys[k].allow@).len() && views(keys[k].allow@)[l] == method;
                assert(keys[k].allow@[l]@ == method);
            }
        }
    }
}

/// The key of an `Authorization` header.
pub fn header_api_key(header: Option<&str>) -> (k: String)
    ensures
        k@ == header_key(match header {
            Some(h) => Some(h@),
            None => None,
        }),
{
    match header {
        Some(h) => match strip_prefix(h, "apikey ") {
            Some(k) => k,
            None => String::new(),
        },
        None => String::new(),
    }
}

/// Whether a configured key grants `method`.
fn grants(k: &ApiKey, method: &str) -> (b: bool)
    ensures
        b == key_grants(*k, method@),
{
    if k.allow.len() == 0 {
        return true;
    }
    let m = method.to_owned();
    let mut i: usize = 0;
    while i < k.allow.len()
        invariant
            i <= k.allow@.len(),
            m@ == method@,
            forall|j: int| 0 <= j < i ==> k.allow@[j]@ != method@,
        decreases k.allow@.len() - i,
    {
        if k.allow[i] == m {
            assert(views(k.allow@)[i as int] == method@);
            return true;
        }
        i = i + 1;
    }
    assert(!views(k.allow@).contains(method@)) by {
        if views(k.allow@).contains(method@) {
            let j = choose|j: int| 0 <= j < views(k.allow@).len() && views(k.allow@)[j] == method@;
            assert(k.allow@[j]@ == method@);
        }
    }
    false
}

/// Whether a Server API request with the `Authorization` header `header` may call `method`:
/// the header carries `apikey <key>` with a non-empty key that is configured and grants the
/// method.
pub fn api_key_allows(keys: &Vec<ApiKey>, header: Option<&str>, method: &str) -> (b: bool)
    ensures
        b == api_key_allows_spec(keys@, match header {
            Some(h) => Some(h@),
            None => None,
        }, method@),
{
    let key = header_api_key(header);
    if key.as_str().is_empty() {
        return false;
    }
    let ghost hv = match header {
        Some(h) => Some(h@),
        None => None,
    };
    let mut i: usize = 0;
    while i < keys.len()
        invariant
            i <= keys@.len(),
            key@.len() > 0,
            key@ == header_key(hv),
            hv == match header {
                Some(h) => Some(h@),
                None => None,
            },
            forall|j: int| 0 <= j < i ==> !(keys@[j].key@ == key@ && key_grants(keys@[j], method@)),
        decreases keys@.len() - i,
    {
        if keys[i].key == key && grants(&keys[i], method) {
            assert(keys@[i as int].key@ == key@ && key_grants(keys@[i as int], method@));
            return true;
        }
        i = i + 1;
    }
    false
}

/// The default number of publications of a history request.
pub const DEFAULT_HISTORY_LIMIT: usize = 100;

/// The limit of a history request: the one asked when positive, else the default.
pub fn history_limit(limit: usize) -> (n: usize)
    ensures
        n == if limit > 0 { limit } else { DEFAULT_HISTORY_LIMIT },
{
    if limit > 0 {
        limit
    } else {
        DEFAULT_HISTORY_LIMIT
    }
}

/// An optional text from a protocol field, where empty means absent.
pub fn non_empty(s: &str) -> (r: Option<&str>)
    ensures
        r matches Some(x) ==> x@ == s@,
        r is None <==> s@.len() == 0,
{
    if s.is_empty() {
        None
    } else {
        Some(s)
    }
}

/// The users of a presence map.
pub open spec fn presence_users(p: Map<Seq<char>, ClientInfo>) -> Set<Seq<char>> {
    p.dom().map(|k: Seq<char>| p[k].user@)
}

/// The number of clients and of distinct users present, each cut to 32 bits.
pub fn presence_stats(p: &StrMap<ClientInfo>) -> (r: (u32, u32))
    ensures
        r.0 == p@.dom().len() as u32,
        r.1 == presence_users(p@).len() as u32,
{
    let keys = p.keys();
    let ghost ks = views(keys@);
    let mut users: StrMap<()> = StrMap::new();
    proof {
        assert(users@.dom() =~= Set::<Seq<char>>::empty());
        assert(ks.take(0).to_set() =~= Set::<Seq<char>>::empty());
    }
    let mut i: usize = 0;
    while i < keys.len()
        invariant
            i <= keys@.len(),
            ks == views(keys@),
            ks.to_set() == p@.dom(),
            users@.dom() == ks.take(i as int).to_set().map(|k: Seq<char>| p@[k].user@),
        decreases keys@.len() - i,
    {
        let info = match p.get(keys[i].as_str()) {
            Some(x) => x,
            None => {
                proof {
                    assert(ks.to_set().contains(ks[i as int]));
                }
                return (0, 0);
            },
        };
        let ghost before = users@.dom();
        let _ = users.insert(info.user.clone(), ());
        proof {
            assert(ks.take(i as int + 1) =~= ks.take(i as int).push(ks[i as int]));
            ks.take(i as int).lemma_push_to_set_commute(ks[i as int]);
            let f = |k: Seq<char>| p@[k].user@;
            assert(users@.dom() =~= ks.take(i as int + 1).to_set().map(f)) by {
                assert forall|u: Seq<char>| users@.dom().contains(u) implies ks.take(i as int + 1).to_set().map(f).contains(u) by {
                    if u == info.user@ {
                        assert(ks.take(i as int + 1).to_set().contains(ks[i as int]));
                    } else {
                        let k = choose|k: Seq<char>| #[trigger] ks.take(i as int).to_set().contains(k) && f(k) == u;
                        assert(ks.take(i as int + 1).to_set().contains(k));
                    }
                }
                assert forall|u: Seq<char>| ks.take(i as int + 1).to_set().map(f).contains(u) implies users@.dom().contains(u) by {
                    let k = choose|k: Seq<char>| #[trigger] ks.take(i as int + 1).to_set().contains(k) && f(k) == u;
                    if k != ks[i as int] {
                        assert(ks.take(i as int).to_set().contains(k));
                        assert(before.contains(u));
                    }
                }
            }
        }
        i = i + 1;
    }
    proof {
        assert(ks.take(keys@.len() as int) =~= ks);
    }
    let n = users.len();
    let c = p.len();
    (#[verifier::truncate] (c as u32), #[verifier::truncate] (n as u32))
}

// ─── admin session ───

/// The name of the admin session cookie.
pub const SESSION_COOKIE: &'static str = "admin_session";

/// How long an admin session lasts, in seconds.
pub const SESSION_TTL_SECS: u64 = 86_400;

/// The current time in seconds since the Unix epoch.
pub fn now() -> u64 {
    unix_secs()
}

/// Whether `c` is white space as `char::is_whitespace` says (the Unicode `White_Space`
/// property).
pub open spec fn is_space(c: char) -> bool {
    let x = c as int;
    (0x09 <= x <= 0x0d) || x == 0x20 || x == 0x85 || x == 0xa0 || x == 0x1680 || (0x2000 <= x
        <= 0x200a) || x == 0x2028 || x == 0x2029 || x == 0x202f || x == 0x205f || x == 0x3000
}

/// `s` without its leading white space.
pub open spec fn trim_start_spec(s: Seq<char>) -> Seq<char>
    decreases s.len(),
{
    if s.len() > 0 && is_space(s[0]) {
        trim_start_spec(s.skip(1))
    } else {
        s
    }
}

/// `s` without its trailing white space.
pub open spec fn trim_end_spec(s: Seq<char>) -> Seq<char>
    decreases s.len(),
{
    if s.len() > 0 && is_space(s.last()) {
        trim_end_spec(s.drop_last())
    } else {
        s
    }
}

/// `s.trim()`.
pub open spec fn trim_spec(s: Seq<char>) -> Seq<char> {
    trim_end_spec(trim_start_spec(s))
}

fn space(c: char) -> (b: bool)
    ensures
        b == is_space(c),
{
    let x = c as u32;
    (0x09 <= x && x <= 0x0d) || x == 0x20 || x == 0x85 || x == 0xa0 || x == 0x1680 || (0x2000 <= x
        && x <= 0x200a) || x == 0x2028 || x == 0x2029 || x == 0x202f || x == 0x205f || x == 0x3000
}

/// `s.trim()`, owned.
pub fn trim(s: &str) -> (t: String)
    ensures
        t@ == trim_spec(s@),
{
    let n = s.unicode_len();
    let mut a: usize = 0;
    assert(s@.skip(0) =~= s@);
    while a < n && space(s.get_char(a))
        invariant
            n == s@.len(),
            a <= n,
            trim_start_spec(s@.skip(a as int)) == trim_start_spec(s@),
        decreases n - a,
    {
        assert(s@.skip(a as int).skip(1) =~= s@.skip(a as int + 1));
        a = a + 1;
    }
    let ghost head = s@.skip(a as int);
    assert(trim_start_spec(head) == head);
    let mut b: usize = n;
    while b > a && space(s.get_char(b - 1))
        invariant
            n == s@.len(),
            a <= b <= n,
            head == s@.skip(a as int),
            trim_end_spec(s@.subrange(a as int, b as int)) == trim_end_spec(head),
        decreases b - a,
    {
        assert(s@.subrange(a as int, b as int).drop_last() =~= s@.subrange(a as int, b as int - 1));
        b = b - 1;
    }
    assert(head =~= s@.subrange(a as int, n as int));
    let t = s.substring_char(a, b).to_owned();
    t
}

/// The first segment of a `Cookie` header (split at `;`, trimmed) that starts with `prefix`,
/// without the prefix.
pub open spec fn cookie_value(segs: Seq<Seq<char>>, prefix: Seq<char>) -> Option<Seq<char>>
    decreases segs.len(),
{
    if segs.len() == 0 {
        None
    } else {
        let t = trim_spec(segs[0]);
        if prefix.len() <= t.len() && t.take(prefix.len() as int) == prefix {
            Some(t.skip(prefix.len() as int))
        } else {
            cookie_value(segs.skip(1), prefix)
        }
    }
}

/// The admin session token of a `Cookie` header (empty when there is none).
pub open spec fn session_token_spec(cookie: Seq<char>) -> Seq<char> {
    match cookie_value(split_on(cookie, ';'), "admin_session="@) {
        Some(t) => t,
        None => Seq::empty(),
    }
}

/// The admin session token of a `Cookie` header.
pub fn session_token(cookie: &str) -> (t: String)
    ensures
        t@ == session_token_spec(cookie@),
{
    let segs = split_by(cookie, ';');
    let ghost all = views(segs@);
    let mut i: usize = 0;
    assert(all.skip(0) =~= all);
    while i < segs.len()
        invariant
            i <= segs@.len(),
            all == views(segs@),
            all == split_on(cookie@, ';'),
            cookie_value(all.skip(i as int), "admin_session="@) == cookie_value(all, "admin_session="@),
        decreases segs@.len() - i,
    {
        let t = trim(segs[i].as_str());
        let ghost rest = all.skip(i as int);
        assert(rest[0] == segs@[i as int]@);
        assert(rest.skip(1) =~= all.skip(i as int + 1));
        match strip_prefix(t.as_str(), "admin_session=") {
            Some(v) => {
                return v;
            },
            None => {},
        }
        i = i + 1;
    }
    String::new()
}

/// Text without the separator is a single segment.
proof fn lemma_split_single(x: Seq<char>, sep: char)
    requires
        !x.contains(sep),
    ensures
        split_on(x, sep) == seq![x],
    decreases x.len(),
{
    if x.len() > 0 {
        let p = x.drop_last();
        assert(!p.contains(sep)) by {
            if p.contains(sep) {
                let k = choose|k: int| 0 <= k < p.len() && p[k] == sep;
                assert(x[k] == sep);
            }
        }
        lemma_split_single(p, sep);
        assert(x.last() != sep) by {
            assert(x[x.len() - 1] == x.last());
        }
        assert(p.push(x.last()) =~= x);
    } else {
        assert(x =~= Seq::<char>::empty());
    }
}

/// Text without the separator, then the separator, then more: the first segment is the text.
proof fn lemma_split_first(x: Seq<char>, sep: char, y: Seq<char>)
    requires
        !x.contains(sep),
    ensures
        split_on(x + seq![sep] + y, sep) == seq![x] + split_on(y, sep),
    decreases y.len(),
{
    let s = x + seq![sep] + y;
    if y.len() == 0 {
        lemma_split_single(x, sep);
        assert(s.drop_last() =~= x);
        assert(s.last() == sep);
        assert(seq![x] + split_on(y, sep) =~= seq![x].push(Seq::<char>::empty()));
    } else {
        let yd = y.drop_last();
        lemma_split_first(x, sep, yd);
        assert(s.drop_last() =~= x + seq![sep] + yd);
        assert(s.last() == y.last());
        crate::text::lemma_split_nonempty(yd, sep);
        let r = split_on(yd, sep);
        if y.last() == sep {
            assert(seq![x] + r.push(Seq::<char>::empty()) =~= (seq![x] + r).push(Seq::<char>::empty()));
        } else {
            let rr = seq![x] + r;
            assert(rr.update(rr.len() - 1, rr.last().push(y.last())) =~= seq![x] + r.update(
                r.len() - 1,
                r.last().push(y.last()),
            ));
        }
    }
}

/// The session cookie that a login sets is read back as its token by the session check, for a
/// token without `;` that does not end in white space (a JWT is such a token).
pub proof fn lemma_session_cookie_round_trip(token: Seq<char>)
    requires
        !token.contains(';'),
        token.len() > 0 ==> !is_space(token.last()),
    ensures
        session_token_spec(session_cookie_spec(token)) == token,
{
    let p = "admin_session="@;
    let rest = " HttpOnly; Path=/; Max-Age=86400; SameSite=Lax"@;
    assert(p =~= seq!['a', 'd', 'm', 'i', 'n', '_', 's', 'e', 's', 's', 'i', 'o', 'n', '=']) by {
        reveal_strlit("admin_session=");
    }
    assert("; HttpOnly; Path=/; Max-Age=86400; SameSite=Lax"@ =~= seq![';'] + rest) by {
        reveal_strlit("; HttpOnly; Path=/; Max-Age=86400; SameSite=Lax");
        reveal_strlit(" HttpOnly; Path=/; Max-Age=86400; SameSite=Lax");
    }
    let x = p + token;
    assert(!x.contains(';')) by {
        if x.contains(';') {
            let k = choose|k: int| 0 <= k < x.len() && x[k] == ';';
            if k < p.len() {
                assert(x[k] == p[k]);
            } else {
                assert(x[k] == token[k - p.len()]);
            }
        }
    }
    assert(session_cookie_spec(token) =~= x + seq![';'] + rest);
    lemma_split_first(x, ';', rest);
    let segs = split_on(session_cookie_spec(token), ';');
    assert(segs[0] == x);
    assert(x[0] == 'a');
    assert(!is_space(x[0])) by {
        assert('a' as int == 97);
    }
    assert(trim_start_spec(x) == x);
    assert(!is_space(x.last())) by {
        if token.len() > 0 {
            assert(x.last() == token.last());
        } else {
            assert(x.last() == '=');
            assert('=' as int == 61);
        }
    }
    assert(trim_end_spec(x) == x);
    assert(trim_spec(x) == x);
    assert(x.take(p.len() as int) =~= p);
    assert(x.skip(p.len() as int) =~= token);
}

/// Whether an admin login with `given` succeeds: a password is configured and matches.
pub fn login_ok(password: &str, given: &str) -> (b: bool)
    ensures
        b == (password@.len() > 0 && given@ == password@),
{
    if password.is_empty() {
        return false;
    }
    let p = password.to_owned();
    let g = given.to_owned();
    g == p
}

/// When an admin session opened at `now` expires.
pub fn session_expiry(now: u64) -> (t: u64)
    requires
        now + SESSION_TTL_SECS <= u64::MAX,
    ensures
        t == now + SESSION_TTL_SECS,
{
    now + SESSION_TTL_SECS
}

/// The `Set-Cookie` value that opens an admin session with `token`.
pub open spec fn session_cookie_spec(token: Seq<char>) -> Seq<char> {
    "admin_session="@ + token + "; HttpOnly; Path=/; Max-Age=86400; SameSite=Lax"@
}

/// The `Set-Cookie` value that opens an admin session with `token`.
pub fn session_cookie(token: &str) -> (c: String)
    ensures
        c@ == session_cookie_spec(token@),
{
    let mut c = String::from_str("admin_session=");
    c.append(token);
    c.append("; HttpOnly; Path=/; Max-Age=86400; SameSite=Lax");
    c
}

/// The admin session token of a session expiring at `exp`, signed with `secret`.
pub uninterp spec fn admin_jwt(secret: Seq<char>, exp: u64) -> Seq<char>;

/// `jsonwebtoken::encode` with the default header (HS256) of the claims `{"exp": exp}` under the
/// HMAC key `secret` (empty text if encoding fails). The token is a function of the two.
#[verifier::external_body]
fn encode_admin_token(secret: &str, exp: u64) -> (t: String)
    ensures
        t@ == admin_jwt(secret@, exp),
{
    let claims: std::collections::BTreeMap<&str, u64> = [("exp", exp)].into_iter().collect();
    jsonwebtoken::encode(
        &jsonwebtoken::Header::default(),
        &claims,
        &jsonwebtoken::EncodingKey::from_secret(secret.as_bytes()),
    ).unwrap_or_default()
}

/// When the admin session token `token` under `secret` expires: what `jsonwebtoken::decode`
/// (HS256, required `exp`, no audience) accepts with the expiry check turned off, and the `exp`
/// claim it holds as an integer; none if the token does not decode.
pub uninterp spec fn admin_token_expiry(token: Seq<char>, secret: Seq<char>) -> Option<u64>;

/// How long past its `exp` a token is still accepted, in seconds (the `jsonwebtoken`
/// default leeway).
pub const SESSION_LEEWAY_SECS: u64 = 60;

/// `jsonwebtoken::decode` of `token` under the HMAC key `secret` with the default validation
/// but the expiry check turned off (which makes it read no clock), then the `exp` claim of the
/// claims as an integer. The answer is a function of the two arguments.
#[verifier::external_body]
fn admin_token_exp(token: &str, secret: &str) -> (e: Option<u64>)
    ensures
        e == admin_token_expiry(token@, secret@),
{
    let mut validation = jsonwebtoken::Validation::default();
    validation.validate_exp = false;
    jsonwebtoken::decode::<std::collections::BTreeMap<String, serde_json::Value>>(
        token,
        &jsonwebtoken::DecodingKey::from_secret(secret.as_bytes()),
        &validation,
    ).ok().and_then(|d| d.claims.get("exp").and_then(|v| v.as_u64()))
}

/// A fresh admin session token for `password`, expiring a day after `now`.
pub fn mint(password: &str, now: u64) -> (t: String)
    requires
        now + SESSION_TTL_SECS <= u64::MAX,
    ensures
        t@ == admin_jwt(password@, (now + SESSION_TTL_SECS) as u64),
{
    encode_admin_token(password, session_expiry(now))
}

/// Whether the admin session of a request with the `Cookie` header `cookie` is live at time
/// `now`: it carries a session token that the admin password signed and whose expiry, with the
/// leeway, is not before `now`.
pub open spec fn session_live_at(cookie: Seq<char>, password: Seq<char>, now: u64) -> bool {
    let token = session_token_spec(cookie);
    &&& token.len() > 0
    &&& admin_token_expiry(token, password) matches Some(e) && now <= e + SESSION_LEEWAY_SECS
}

/// Whether the admin session of a request with the `Cookie` header `cookie` is live at time
/// `now` (see [`session_live_at`]).
pub fn valid_session_at(cookie: &str, password: &str, now: u64) -> (b: bool)
    ensures
        b == session_live_at(cookie@, password@, now),
{
    let token = session_token(cookie);
    if token.as_str().is_empty() {
        return false;
    }
    match admin_token_exp(token.as_str(), password) {
        Some(e) => now <= e || now - e <= SESSION_LEEWAY_SECS,
        None => false,
    }
}

/// Whether a request with the `Cookie` header `cookie` carries a live admin session now: a
/// session token that the admin password signed and that has not expired (see
/// [`valid_session_at`], here with the current time).
pub fn valid_session(cookie: &str, password: &str) -> (b: bool)
    ensures
        b ==> session_token_spec(cookie@).len() > 0 && admin_token_expiry(
            session_token_spec(cookie@),
            password@,
        ) is Some,
        session_token_spec(cookie@).len() == 0 || admin_token_expiry(session_token_spec(cookie@), password@) is None
            ==> !b,
{
    valid_session_at(cookie, password, now())
}

/// Whether the admin UI listens on the loopback interface only.
pub fn listen_is_local(listen: &str) -> (b: bool)
    ensures
        b == ((9 <= listen@.len() && listen@.take(9) == "127.0.0.1"@) || (9 <= listen@.len()
            && listen@.take(9) == "localhost"@)),
{
    proof {
        reveal_strlit("127.0.0.1");
        reveal_strlit("localhost");
    }
    strip_prefix(listen, "127.0.0.1").is_some() || strip_prefix(listen, "localhost").is_some()
}

/// Whether the admin UI may start: it refuses an empty password on a public interface.
pub fn admin_may_start(password: &str, listen: &str) -> (b: bool)
    ensures
        b == !(password@.len() == 0 && !((9 <= listen@.len() && listen@.take(9) == "127.0.0.1"@)
            || (9 <= listen@.len() && listen@.take(9) == "localhost"@))),
{
    !(password.is_empty() && !listen_is_local(listen))
}

// ─── Prometheus exposition ───

/// One metric in the text exposition format: its help line, its type line, and its sample
/// labelled with the node.
pub open spec fn metric_block(name: Seq<char>, help: Seq<char>, kind: Seq<char>, node: Seq<char>, value: nat) -> Seq<char> {
    "# HELP "@ + name + " "@ + help + "\n# TYPE "@ + name + " "@ + kind + "\n"@ + name + "{node=\""@ + node
        + "\"} "@ + decimal(value) + "\n"@
}

fn append_metric(out: &mut String, name: &str, help: &str, kind: &str, node: &str, value: u64)
    ensures
        final(out)@ == old(out)@ + metric_block(name@, help@, kind@, node@, value as nat),
{
    out.append("# HELP ");
    out.append(name);
    out.append(" ");
    out.append(help);
    out.append("\n# TYPE ");
    out.append(name);
    out.append(" ");
    out.append(kind);
    out.append("\n");
    out.append(name);
    out.append("{node=\"");
    out.append(node);
    out.append("\"} ");
    let v = decimal_string(value as u128);
    out.append(v.as_str());
    out.append("\n");
    assert(final(out)@ =~= old(out)@ + metric_block(name@, help@, kind@, node@, value as nat));
}

/// The `/metrics` page of a node: its connections and channels (gauges) and its counters of
/// publications, subscriptions, and connections opened and closed.
pub open spec fn metrics_page(
    node: Seq<char>,
    conns: nat,
    chans: nat,
    published: nat,
    subs: nat,
    opened: nat,
    closed: nat,
) -> Seq<char> {
    metric_block("socket_connections"@, "Current connections on node"@, "gauge"@, node, conns)
        + metric_block("socket_channels"@, "Active channels on node"@, "gauge"@, node, chans)
        + metric_block("socket_messages_published_total"@, "Messages published"@, "counter"@, node, published)
        + metric_block("socket_subscriptions_total"@, "Subscriptions"@, "counter"@, node, subs)
        + metric_block("socket_connections_opened_total"@, "Connections opened"@, "counter"@, node, opened)
        + metric_block("socket_connections_closed_total"@, "Connections closed"@, "counter"@, node, closed)
}

/// Renders the `/metrics` page from the node summary and the counters.
pub fn metrics_text(stats: &crate::api::NodeStats, m: &crate::metrics::Metrics) -> (t: String)
    ensures
        t@ == metrics_page(
            stats.node@,
            stats.num_connections as nat,
            stats.num_channels as nat,
            m.messages_published as nat,
            m.subscriptions as nat,
            m.connections_opened as nat,
            m.connections_closed as nat,
        ),
{
    let node = stats.node.as_str();
    let mut t = String::new();
    append_metric(&mut t, "socket_connections", "Current connections on node", "gauge", node, stats.num_connections as u64);
    append_metric(&mut t, "socket_channels", "Active channels on node", "gauge", node, stats.num_channels as u64);
    append_metric(&mut t, "socket_messages_published_total", "Messages published", "counter", node, m.messages_published);
    append_metric(&mut t, "socket_subscriptions_total", "Subscriptions", "counter", node, m.subscriptions);
    append_metric(&mut t, "socket_connections_opened_total", "Connections opened", "counter", node, m.connections_opened);
    append_metric(&mut t, "socket_connections_closed_total", "Connections closed", "counter", node, m.connections_closed);
    assert(t@ =~= metrics_page(
        stats.node@,
        stats.num_connections as nat,
        stats.num_channels as nat,
        m.messages_published as nat,
        m.subscriptions as nat,
        m.connections_opened as nat,
        m.connections_closed as nat,
    ));
    t
}

// ─── lifecycle webhook ───

/// Whether the webhook forwards an event of `kind`: every kind when no types are configured,
/// else only the configured ones.
pub fn event_wanted(types: &Vec<String>, kind: &str) -> (b: bool)
    ensures
        b == (types@.len() == 0 || views(types@).contains(kind@)),
{
    if types.len() == 0 {
        return true;
    }
    let k = kind.to_owned();
    let mut i: usize = 0;
    while i < types.len()
        invariant
            i <= types@.len(),
            k@ == kind@,
            forall|j: int| 0 <= j < i ==> types@[j]@ != kind@,
        decreases types@.len() - i,
    {
        if types[i] == k {
            assert(views(types@)[i as int] == kind@);
            return true;
        }
        i = i + 1;
    }
    assert(!views(types@).contains(kind@)) by {
        if views(types@).contains(kind@) {
            let j = choose|j: int| 0 <= j < views(types@).len() && views(types@)[j] == kind@;
            assert(types@[j]@ == kind@);
        }
    }
    false
}

// ─── base64 framing ───

/// The standard base64 text (RFC 4648 alphabet, padded) of some bytes.
pub uninterp spec fn base64_text(b: Seq<u8>) -> Seq<char>;

/// The bytes that a standard base64 text stands for, if it is one.
pub uninterp spec fn base64_bytes(s: Seq<char>) -> Option<Seq<u8>>;

/// `base64::engine::general_purpose::STANDARD.encode`.
#[verifier::external_body]
fn b64_encode(b: &[u8]) -> (s: String)
    ensures
        s@ == base64_text(b@),
{
    base64::engine::general_purpose::STANDARD.encode(b)
}

/// `base64::engine::general_purpose::STANDARD.decode` (none when the text is no base64). It
/// undoes `encode`: the text that `encode` gives for some bytes decodes to those bytes.
#[verifier::external_body]
fn b64_decode(s: &str) -> (r: Option<Vec<u8>>)
    ensures
        match r {
            Some(v) => base64_bytes(s@) == Some(v@),
            None => base64_bytes(s@) is None,
        },
        forall|b: Seq<u8>| #[trigger] base64_text(b) == s@ ==> r is Some && r->0@ == b,
{
    base64::engine::general_purpose::STANDARD.decode(s).ok()
}

/// Binary data in base64 (publication data in JSON, replies in SSE events).
pub fn base64_of(b: &Vec<u8>) -> (s: String)
    ensures
        s@ == base64_text(b@),
{
    b64_encode(b.as_slice())
}

/// The data field of a JSON publish request: its base64 bytes, nothing when it is no base64.
/// The base64 text of some bytes (see [`base64_of`]) gives back those bytes.
pub fn request_data(field: &str) -> (d: Vec<u8>)
    ensures
        d@ == match base64_bytes(field@) {
            Some(b) => b,
            None => Seq::empty(),
        },
        forall|b: Seq<u8>| #[trigger] base64_text(b) == field@ ==> d@ == b,
{
    match b64_decode(field) {
        Some(v) => v,
        None => Vec::new(),
    }
}

} // verus!
