//! The companion service: its access details and token, which requests it
//! answers and for whom, and the redaction of what it sends (no file paths,
//! keys in snake case).
use vstd::prelude::*;
use vstd::string::StrSliceExecFns;
use vstd::utf8::encode_utf8;
use crate::classify::{lower_byte, lowered};
use crate::runtime::{lemma_uuid_text_len, new_id, uuid_text};
use crate::sort::into_deque;
use crate::text::{owned, push_char, str_eq, trim_str, trimmed};

verus! {

/// How a companion reaches the service.
#[derive(Debug, Clone)]
pub struct CompanionAccess {
    pub local_url: String,
    pub access_token: String,
    pub tls_notice: String,
}

pub const NOT_CONFIGURED: &'static str = "LumaSift companion service is not configured.";
pub const LOCAL_URL: &'static str = "http://127.0.0.1:7417";
pub const TLS_NOTICE: &'static str = "Expose this local service to mobile companions only through an owner-managed HTTPS reverse proxy on the same Windows host.";

/// The access details of a service that grants `token`.
pub fn new_companion_access(token: String) -> (a: CompanionAccess)
    ensures
        a.local_url@ == LOCAL_URL@,
        a.access_token == token,
        a.tls_notice@ == TLS_NOTICE@,
{
    CompanionAccess { local_url: owned(LOCAL_URL), access_token: token, tls_notice: owned(TLS_NOTICE) }
}

/// The access details of the service, once it is configured.
pub fn companion_access(configured: &Option<CompanionAccess>) -> (r: Result<CompanionAccess, String>)
    ensures
        configured is Some ==> r == Ok::<CompanionAccess, String>(configured->0),
        configured is None ==> (r matches Err(e) && e@ == NOT_CONFIGURED@),
{
    match configured {
        Some(a) => Ok(
            CompanionAccess {
                local_url: a.local_url.clone(),
                access_token: a.access_token.clone(),
                tls_notice: a.tls_notice.clone(),
            },
        ),
        None => Err(owned(NOT_CONFIGURED)),
    }
}

/// The service's access token: the stored one, trimmed, where one is stored
/// and not blank; else a fresh one, the UUID made from `random`, which is to
/// be stored (the second part of the result says so).
pub fn companion_token(stored: Option<&str>, random: u128) -> (r: (String, bool))
    ensures
        stored is Some && trimmed(stored->0@).len() > 0 ==> r.0@ == trimmed(stored->0@) && !r.1,
        !(stored is Some && trimmed(stored->0@).len() > 0) ==> r.1 && r.0@ == uuid_text(random),
        r.1 ==> r.0@.len() == 36,
{
    if let Some(t) = stored {
        let token = trim_str(t);
        if token.unicode_len() > 0 {
            return (owned(token), false);
        }
    }
    let token = new_id(random);
    proof {
        lemma_uuid_text_len(random);
    }
    (token, true)
}

/// The character `c` is an upper-case ASCII letter.
pub open spec fn is_upper(c: char) -> bool {
    'A' <= c <= 'Z'
}

/// The lower-case letter of an upper-case ASCII letter.
pub open spec fn lower(c: char) -> char {
    ((c as u32) + 32) as char
}

/// A key in snake case: each upper-case ASCII letter lowered, and preceded
/// by an underscore unless it comes first.
pub open spec fn snake_case(key: Seq<char>) -> Seq<char>
    decreases key.len(),
{
    if key.len() == 0 {
        Seq::empty()
    } else {
        let c = key.last();
        snake_case(key.drop_last()) + if is_upper(c) {
            if key.len() == 1 {
                seq![lower(c)]
            } else {
                seq!['_', lower(c)]
            }
        } else {
            seq![c]
        }
    }
}

/// A key in snake case.
pub fn snake_case_key(key: &str) -> (r: String)
    ensures
        r@ == snake_case(key@),
{
    let n = key.unicode_len();
    let mut out = String::new();
    let mut i: usize = 0;
    while i < n
        invariant
            n == key@.len(),
            i <= n,
            out@ == snake_case(key@.take(i as int)),
        decreases n - i,
    {
        let c = key.get_char(i);
        assert(key@.take(i + 1).drop_last() =~= key@.take(i as int));
        let u = c as u32;
        if 65 <= u && u <= 90 {
            if i > 0 {
                push_char(&mut out, '_');
            }
            push_char(&mut out, ((u + 32) as u8) as char);
        } else {
            push_char(&mut out, c);
        }
        i = i + 1;
        assert(out@ =~= snake_case(key@.take(i as int)));
    }
    assert(key@.take(n as int) =~= key@);
    out
}

/// `serde_json::Number`, carried through unread.
#[verifier::external_type_specification]
#[verifier::external_body]
pub struct ExJsonNumber(serde_json::Number);

/// A JSON value as the companion service sends it. An object is its
/// entries in order.
#[derive(Debug)]
pub enum JsonValue {
    Null,
    Bool(bool),
    Number(serde_json::Number),
    Text(String),
    Array(Vec<JsonValue>),
    Object(Vec<(String, JsonValue)>),
}

pub const FILE_PATH_KEY: &'static str = "filePath";
pub const QUARANTINE_PATH_KEY: &'static str = "quarantinePath";
pub const CURRENT_PATH_KEY: &'static str = "currentPath";

/// Keys whose entries are never sent: they hold file paths.
pub open spec fn is_path_key(key: Seq<char>) -> bool {
    key == FILE_PATH_KEY@ || key == QUARANTINE_PATH_KEY@ || key == CURRENT_PATH_KEY@
}

/// `out` is `value` redacted: every entry under a path key dropped, every
/// other key in snake case, at every depth, order kept.
pub open spec fn redacts(out: JsonValue, value: JsonValue) -> bool
    decreases value,
{
    match value {
        JsonValue::Array(items) => out matches JsonValue::Array(o) && redacts_items(o@, items@),
        JsonValue::Object(entries) => out matches JsonValue::Object(o) && redacts_entries(o@, entries@),
        _ => out == value,
    }
}

/// `out` is the items `items` redacted, in order.
pub open spec fn redacts_items(out: Seq<JsonValue>, items: Seq<JsonValue>) -> bool
    decreases items,
{
    if items.len() == 0 {
        out.len() == 0
    } else {
        &&& out.len() > 0
        &&& redacts(out.last(), items.last())
        &&& redacts_items(out.drop_last(), items.drop_last())
    }
}

/// `out` is the entries `entries` redacted, in order.
pub open spec fn redacts_entries(out: Seq<(String, JsonValue)>, entries: Seq<(String, JsonValue)>) -> bool
    decreases entries,
{
    if entries.len() == 0 {
        out.len() == 0
    } else if is_path_key(entries.last().0@) {
        redacts_entries(out, entries.drop_last())
    } else {
        &&& out.len() > 0
        &&& out.last().0@ == snake_case(entries.last().0@)
        &&& redacts(out.last().1, entries.last().1)
        &&& redacts_entries(out.drop_last(), entries.drop_last())
    }
}

/// Whether entries under `key` hold a file path.
pub fn path_key(key: &str) -> (r: bool)
    ensures
        r == is_path_key(key@),
{
    str_eq(key, FILE_PATH_KEY) || str_eq(key, QUARANTINE_PATH_KEY) || str_eq(key, CURRENT_PATH_KEY)
}

/// Redacts what the companion service sends: entries that hold file paths
/// are dropped and keys are put in snake case, at every depth.
pub fn redact_companion_value(value: JsonValue) -> (r: JsonValue)
    ensures
        redacts(r, value),
    decreases value,
{
    let ghost v0 = value;
    match value {
        JsonValue::Array(items) => {
            let ghost s = items@;
            let mut out: Vec<JsonValue> = Vec::new();
            let mut d = into_deque(items);
            let ghost mut i: int = 0;
            assert(s.take(0) =~= Seq::<JsonValue>::empty());
            while d.len() > 0
                invariant
                    0 <= i <= s.len(),
                    d@ == s.subrange(i, s.len() as int),
                    redacts_items(out@, s.take(i)),
                    v0 matches JsonValue::Array(items0) && items0@ == s,
                    v0 == value,
                decreases s.len() - i,
            {
                let item = d.pop_front().unwrap();
                assert(item == s[i]);
                assert(s.take(i + 1).drop_last() =~= s.take(i));
                let ghost o0 = out@;
                proof {
                    assert(decreases_to!(v0 => item));
                }
                let r = redact_companion_value(item);
                out.push(r);
                assert(out@.drop_last() =~= o0);
                proof {
                    i = i + 1;
                }
                assert(d@ =~= s.subrange(i, s.len() as int));
            }
            assert(s.take(s.len() as int) =~= s);
            JsonValue::Array(out)
        },
        JsonValue::Object(entries) => {
            let ghost s = entries@;
            let mut out: Vec<(String, JsonValue)> = Vec::new();
            let mut d = into_deque(entries);
            let ghost mut i: int = 0;
            assert(s.take(0) =~= Seq::<(String, JsonValue)>::empty());
            while d.len() > 0
                invariant
                    0 <= i <= s.len(),
                    d@ == s.subrange(i, s.len() as int),
                    redacts_entries(out@, s.take(i)),
                    v0 matches JsonValue::Object(entries0) && entries0@ == s,
                    v0 == value,
                decreases s.len() - i,
            {
                let (key, item) = d.pop_front().unwrap();
                assert((key, item) == s[i]);
                assert(s.take(i + 1).drop_last() =~= s.take(i));
                let ghost o0 = out@;
                if !path_key(key.as_str()) {
                    proof {
                        assert(decreases_to!(v0 => item));
                    }
                    let k = snake_case_key(key.as_str());
                    let r = redact_companion_value(item);
                    out.push((k, r));
                    assert(out@.drop_last() =~= o0);
                }
                proof {
                    i = i + 1;
                }
                assert(d@ =~= s.subrange(i, s.len() as int));
            }
            assert(s.take(s.len() as int) =~= s);
            JsonValue::Object(out)
        },
        other => other,
    }
}

pub const AUTHORIZATION: &'static str = "Authorization";
pub const BEARER: &'static str = "Bearer ";

/// Two texts are equal but for the case of ASCII letters (std's
/// `eq_ignore_ascii_case`, byte by byte).
pub open spec fn equal_ignoring_case(a: Seq<char>, b: Seq<char>) -> bool {
    lowered(encode_utf8(a)) == lowered(encode_utf8(b))
}

/// Whether two texts are equal but for the case of ASCII letters.
pub fn eq_ignore_ascii_case(a: &str, b: &str) -> (r: bool)
    ensures
        r == equal_ignoring_case(a@, b@),
{
    let x = a.as_bytes();
    let y = b.as_bytes();
    if x.len() != y.len() {
        return false;
    }
    let mut i: usize = 0;
    while i < x.len()
        invariant
            x@.len() == y@.len(),
            x@ == encode_utf8(a@),
            y@ == encode_utf8(b@),
            i <= x@.len(),
            forall|k: int| 0 <= k < i ==> lower_byte(#[trigger] x@[k]) == lower_byte(y@[k]),
        decreases x@.len() - i,
    {
        let p = x[i];
        let q = y[i];
        let lp = if 65 <= p && p <= 90 { p + 32 } else { p };
        let lq = if 65 <= q && q <= 90 { q + 32 } else { q };
        if lp != lq {
            assert(lowered(x@)[i as int] != lowered(y@)[i as int]);
            return false;
        }
        i = i + 1;
    }
    assert(lowered(x@) =~= lowered(y@));
    true
}

/// A request carries the bearer token `token` in an `Authorization` header
/// (header names compared without ASCII case).
pub open spec fn authorizes(headers: Seq<(String, String)>, token: Seq<char>) -> bool {
    exists|i: int|
        0 <= i < headers.len() && equal_ignoring_case(AUTHORIZATION@, #[trigger] headers[i].0@) && headers[i].1@
            == BEARER@ + token
}

/// The header that lets a request in is named `Authorization` and carries
/// `Bearer `, a space, then the token.
pub proof fn lemma_authorization_header_words()
    ensures
        AUTHORIZATION@ == seq!['A', 'u', 't', 'h', 'o', 'r', 'i', 'z', 'a', 't', 'i', 'o', 'n'],
        BEARER@ == seq!['B', 'e', 'a', 'r', 'e', 'r', ' '],
{
    reveal_strlit("Authorization");
    reveal_strlit("Bearer ");
}

/// Any one header, wherever it stands among the others, lets a request in
/// when its name is `Authorization` in any ASCII case and its value is
/// `Bearer ` followed by the token; and a request is let in only by such a
/// header.
pub proof fn lemma_any_header_authorizes(headers: Seq<(String, String)>, token: Seq<char>)
    ensures
        forall|i: int|
            0 <= i < headers.len() && equal_ignoring_case(AUTHORIZATION@, #[trigger] headers[i].0@)
                && headers[i].1@ == BEARER@ + token ==> authorizes(headers, token),
        authorizes(headers, token) ==> exists|i: int|
            0 <= i < headers.len() && equal_ignoring_case(AUTHORIZATION@, #[trigger] headers[i].0@)
                && headers[i].1@ == BEARER@ + token,
{
}

/// Headers added before or after never take an authorization away; and
/// where none of them is itself an authorizing header, they change nothing.
pub proof fn lemma_other_headers_irrelevant(
    before: Seq<(String, String)>,
    headers: Seq<(String, String)>,
    after: Seq<(String, String)>,
    token: Seq<char>,
)
    ensures
        authorizes(headers, token) ==> authorizes(before + headers + after, token),
        !authorizes(before, token) && !authorizes(after, token) ==> (authorizes(before + headers + after, token)
            == authorizes(headers, token)),
{
    let all = before + headers + after;
    if authorizes(headers, token) {
        let i = choose|i: int|
            0 <= i < headers.len() && equal_ignoring_case(AUTHORIZATION@, #[trigger] headers[i].0@)
                && headers[i].1@ == BEARER@ + token;
        assert(all[before.len() + i] == headers[i]);
    }
    if authorizes(all, token) && !authorizes(before, token) && !authorizes(after, token) {
        let j = choose|j: int|
            0 <= j < all.len() && equal_ignoring_case(AUTHORIZATION@, #[trigger] all[j].0@) && all[j].1@
                == BEARER@ + token;
        if j < before.len() {
            assert(all[j] == before[j]);
        } else if j < before.len() + headers.len() {
            assert(all[j] == headers[j - before.len()]);
        } else {
            assert(all[j] == after[j - before.len() - headers.len()]);
        }
    }
}

/// Whether a request with these headers (name, value) may use the service
/// that grants `token`.
pub fn is_authorized(headers: &Vec<(String, String)>, token: &str) -> (r: bool)
    ensures
        r == authorizes(headers@, token@),
{
    let mut expected = owned(BEARER);
    expected.append(token);
    let mut i: usize = 0;
    while i < headers.len()
        invariant
            i <= headers@.len(),
            expected@ == BEARER@ + token@,
            forall|k: int|
                0 <= k < i ==> !(equal_ignoring_case(AUTHORIZATION@, #[trigger] headers@[k].0@) && headers@[k].1@
                    == BEARER@ + token@),
        decreases headers@.len() - i,
    {
        let (name, value) = &headers[i];
        if eq_ignore_ascii_case(AUTHORIZATION, name.as_str()) && str_eq(value.as_str(), expected.as_str()) {
            return true;
        }
        i = i + 1;
    }
    false
}

/// The method of a request to the service.
#[derive(Debug, Clone, Copy, PartialEq, Eq, Structural)]
pub enum RequestMethod {
    Get,
    Post,
    Other,
}

/// What the service does with a request.
#[derive(Debug, Clone, Copy, PartialEq, Eq, Structural)]
pub enum CompanionRoute {
    /// Report the scan's progress.
    Status,
    /// Give the current plan.
    Plan,
    /// Start a scan of the configured sources.
    Start,
    /// Apply a reviewed plan.
    Apply,
    /// Nothing: the request is not known.
    NotFound,
}

pub const STATUS_PATH: &'static str = "/api/lumasift/status";
pub const PLAN_PATH: &'static str = "/api/lumasift/plan";
pub const START_PATH: &'static str = "/api/lumasift/start";
pub const APPLY_PATH: &'static str = "/api/lumasift/plan/apply";

/// The route of a request: reading the status or the plan by `GET`,
/// starting a scan or applying a plan by `POST`, nothing else.
pub open spec fn route_of(method: RequestMethod, path: Seq<char>) -> CompanionRoute {
    if method == RequestMethod::Get && path == STATUS_PATH@ {
        CompanionRoute::Status
    } else if method == RequestMethod::Get && path == PLAN_PATH@ {
        CompanionRoute::Plan
    } else if method == RequestMethod::Post && path == START_PATH@ {
        CompanionRoute::Start
    } else if method == RequestMethod::Post && path == APPLY_PATH@ {
        CompanionRoute::Apply
    } else {
        CompanionRoute::NotFound
    }
}

/// The route of a request.
pub fn companion_route(method: RequestMethod, path: &str) -> (r: CompanionRoute)
    ensures
        r == route_of(method, path@),
{
    match method {
        RequestMethod::Get => {
            if str_eq(path, STATUS_PATH) {
                CompanionRoute::Status
            } else if str_eq(path, PLAN_PATH) {
                CompanionRoute::Plan
            } else {
                CompanionRoute::NotFound
            }
        },
        RequestMethod::Post => {
            if str_eq(path, START_PATH) {
                CompanionRoute::Start
            } else if str_eq(path, APPLY_PATH) {
                CompanionRoute::Apply
            } else {
                CompanionRoute::NotFound
            }
        },
        RequestMethod::Other => CompanionRoute::NotFound,
    }
}

/// No entry of `v`, at any depth, is under a path key.
pub open spec fn hides_paths(v: JsonValue) -> bool
    decreases v,
{
    match v {
        JsonValue::Array(items) => hides_paths_items(items@),
        JsonValue::Object(entries) => hides_paths_entries(entries@),
        _ => true,
    }
}

/// No item hides a path key.
pub open spec fn hides_paths_items(items: Seq<JsonValue>) -> bool
    decreases items,
{
    items.len() == 0 || (hides_paths(items.last()) && hides_paths_items(items.drop_last()))
}

/// No entry is under a path key, nor hides one.
pub open spec fn hides_paths_entries(entries: Seq<(String, JsonValue)>) -> bool
    decreases entries,
{
    entries.len() == 0 || (!is_path_key(entries.last().0@) && hides_paths(entries.last().1) && hides_paths_entries(
        entries.drop_last(),
    ))
}

proof fn lemma_snake_case_lower(key: Seq<char>)
    ensures
        forall|i: int| 0 <= i < snake_case(key).len() ==> !is_upper(#[trigger] snake_case(key)[i]),
    decreases key.len(),
{
    if key.len() > 0 {
        lemma_snake_case_lower(key.drop_last());
        let prev = snake_case(key.drop_last());
        let c = key.last();
        let tail = if is_upper(c) {
            if key.len() == 1 {
                seq![lower(c)]
            } else {
                seq!['_', lower(c)]
            }
        } else {
            seq![c]
        };
        assert(snake_case(key) == prev + tail);
        assert forall|i: int| 0 <= i < snake_case(key).len() implies !is_upper(#[trigger] snake_case(key)[i]) by {
            if i >= prev.len() {
                assert(snake_case(key)[i] == tail[i - prev.len()]);
            } else {
                assert(snake_case(key)[i] == prev[i]);
            }
        }
    }
}

proof fn lemma_snake_case_not_path(key: Seq<char>)
    ensures
        !is_path_key(snake_case(key)),
{
    lemma_snake_case_lower(key);
    reveal_strlit("filePath");
    reveal_strlit("quarantinePath");
    reveal_strlit("currentPath");
    let s = snake_case(key);
    if s == FILE_PATH_KEY@ {
        assert(is_upper(s[4]));
    }
    if s == QUARANTINE_PATH_KEY@ {
        assert(is_upper(s[10]));
    }
    if s == CURRENT_PATH_KEY@ {
        assert(is_upper(s[7]));
    }
}

/// What the companion service sends holds no entry under a path key, at
/// any depth.
pub proof fn lemma_redaction_hides_paths(out: JsonValue, value: JsonValue)
    requires
        redacts(out, value),
    ensures
        hides_paths(out),
    decreases value,
{
    match value {
        JsonValue::Array(items) => {
            let o = out->Array_0;
            lemma_items_hide_paths(o@, items@);
        },
        JsonValue::Object(entries) => {
            let o = out->Object_0;
            lemma_entries_hide_paths(o@, entries@);
        },
        _ => {},
    }
}

proof fn lemma_items_hide_paths(out: Seq<JsonValue>, items: Seq<JsonValue>)
    requires
        redacts_items(out, items),
    ensures
        hides_paths_items(out),
    decreases items,
{
    if items.len() > 0 {
        lemma_redaction_hides_paths(out.last(), items.last());
        lemma_items_hide_paths(out.drop_last(), items.drop_last());
    }
}

proof fn lemma_entries_hide_paths(out: Seq<(String, JsonValue)>, entries: Seq<(String, JsonValue)>)
    requires
        redacts_entries(out, entries),
    ensures
        hides_paths_entries(out),
    decreases entries,
{
    if entries.len() > 0 {
        if is_path_key(entries.last().0@) {
            lemma_entries_hide_paths(out, entries.drop_last());
        } else {
            lemma_snake_case_not_path(entries.last().0@);
            lemma_redaction_hides_paths(out.last().1, entries.last().1);
            lemma_entries_hide_paths(out.drop_last(), entries.drop_last());
        }
    }
}

proof fn lemma_snake_case_keeps_lower(key: Seq<char>)
    requires
        forall|i: int| 0 <= i < key.len() ==> !is_upper(#[trigger] key[i]),
    ensures
        snake_case(key) == key,
    decreases key.len(),
{
    if key.len() > 0 {
        lemma_snake_case_keeps_lower(key.drop_last());
        assert(!is_upper(key[key.len() - 1]));
        assert(key.drop_last().push(key.last()) =~= key);
    }
}

/// Putting a key in snake case twice gives what putting it once gives.
pub proof fn lemma_snake_case_idempotent(key: Seq<char>)
    ensures
        snake_case(snake_case(key)) == snake_case(key),
{
    lemma_snake_case_lower(key);
    lemma_snake_case_keeps_lower(snake_case(key));
}

} // verus!
