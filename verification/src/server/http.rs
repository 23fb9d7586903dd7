//! Replies of the HTTP authentication service.
//!
//! The phone calls `getVersion`, `requestAuth`, `cancelAuth` and
//! `completeAuth` on the device; every other path is answered 404. The
//! request is read as text and only its first line matters: the second
//! whitespace-separated token is the path, with its query string.

use crate::REPORT_VERSION;
use vstd::prelude::*;
use vstd::string::*;
use vstd::utf8::encode_utf8;

verus! {

/// Status line and headers of a successful reply, up to the body length.
pub const OK_HEAD: &'static str = "HTTP/1.1 200 OK\r\nContent-Type: application/json; charset=utf-8\r\nContent-Length: ";

/// Headers after the body length, up to the body.
pub const OK_TAIL: &'static str = "\r\nConnection: close\r\n\r\n";

/// The whole reply to an unknown path.
pub const NOT_FOUND_REPLY: &'static str = "HTTP/1.1 404 Not Found\r\nContent-Length: 0\r\nConnection: close\r\n\r\n";

/// `getVersion` body, up to the version number.
pub const VERSION_BODY_HEAD: &'static str = "{\"status\":0,\"msg\":\"ok\",\"data\":{\"version\":";

/// `getVersion` body, after the version number.
pub const VERSION_BODY_TAIL: &'static str = "}}";

/// `requestAuth` body, up to the echoed device id.
pub const AUTH_BODY_HEAD: &'static str = "{\"code\":60000,\"msg\":\"ok\",\"resp_data\":{\"device_id\":\"";

/// `requestAuth` body, between the device id and the TV id.
pub const AUTH_BODY_MID: &'static str = "\",\"tv_id\":\"";

/// `requestAuth` body, after the TV id.
pub const AUTH_BODY_TAIL: &'static str = "\",\"public_key\":\"\",\"verify_code_additional\":\"\",\"versionCode\":\"1\"}}";

/// `cancelAuth` body.
pub const CANCEL_BODY: &'static str = "{\"code\":60000,\"msg\":\"ok\"}";

/// `completeAuth` body, up to the TV id.
pub const COMPLETE_BODY_HEAD: &'static str = "{\"code\":60000,\"msg\":\"ok\",\"resp_data\":{\"tv_id\":\"";

/// `completeAuth` body, after the TV id.
pub const COMPLETE_BODY_TAIL: &'static str = "\"}}";

/// Path fragments that select the routes.
pub const GET_INFO: &'static str = "/getInfo";

pub const GET_VERSION: &'static str = "getVersion";

pub const REQUEST_AUTH: &'static str = "/requestAuth";

pub const CANCEL_AUTH: &'static str = "/cancelAuth";

pub const COMPLETE_AUTH: &'static str = "/completeAuth";

/// Query parameter that carries the phone's device id.
pub const DEVICE_ID_PARAM: &'static str = "device_id";

/// Unicode `White_Space`, the characters `char::is_whitespace` accepts.
pub open spec fn is_ws(c: char) -> bool {
    let u = c as u32;
    ||| u == 0x20
    ||| 0x09 <= u <= 0x0D
    ||| u == 0x85
    ||| u == 0xA0
    ||| u == 0x1680
    ||| 0x2000 <= u <= 0x200A
    ||| u == 0x2028
    ||| u == 0x2029
    ||| u == 0x202F
    ||| u == 0x205F
    ||| u == 0x3000
}

/// First position at or after `i` that is not whitespace (or `s.len()`).
pub open spec fn skip_ws(s: Seq<char>, i: int) -> int
    decreases s.len() - i,
{
    if 0 <= i < s.len() && is_ws(s[i]) {
        skip_ws(s, i + 1)
    } else {
        i
    }
}

/// First position at or after `i` that is whitespace (or `s.len()`).
pub open spec fn skip_token(s: Seq<char>, i: int) -> int
    decreases s.len() - i,
{
    if 0 <= i < s.len() && !is_ws(s[i]) {
        skip_token(s, i + 1)
    } else {
        i
    }
}

/// Bounds of the second whitespace-separated token of `s`; an empty range
/// at the end when there is none.
pub open spec fn second_token_bounds(s: Seq<char>) -> (int, int) {
    let a1 = skip_ws(s, 0);
    let b1 = skip_token(s, a1);
    let a2 = skip_ws(s, b1);
    (a2, skip_token(s, a2))
}

/// The request path: the second whitespace-separated token of the line.
pub open spec fn spec_uri_path(line: Seq<char>) -> Seq<char> {
    line.subrange(second_token_bounds(line).0, second_token_bounds(line).1)
}

/// Position of the first `'\n'` at or after `i` (or `s.len()`).
pub open spec fn line_end(s: Seq<char>, i: int) -> int
    decreases s.len() - i,
{
    if 0 <= i < s.len() && s[i] != '\n' {
        line_end(s, i + 1)
    } else {
        i
    }
}

/// The first line of the request, without its line ending.
pub open spec fn spec_first_line(req: Seq<char>) -> Seq<char> {
    req.take(line_end(req, 0))
}

/// First position at or after `i` where `p` occurs in `s`.
pub open spec fn spec_find(s: Seq<char>, p: Seq<char>, i: int) -> Option<int>
    decreases s.len() + 1 - i,
{
    if i < 0 || i + p.len() > s.len() {
        None
    } else if s.subrange(i, i + p.len()) == p {
        Some(i)
    } else {
        spec_find(s, p, i + 1)
    }
}

/// `p` occurs in `s`.
pub open spec fn spec_contains(s: Seq<char>, p: Seq<char>) -> bool {
    spec_find(s, p, 0) is Some
}

/// Characters that end a query value.
pub open spec fn is_value_stop(c: char) -> bool {
    c == '&' || c == ' ' || c == '\r' || c == '\n'
}

/// First position at or after `i` holding a value stop (or `s.len()`).
pub open spec fn value_end(s: Seq<char>, i: int) -> int
    decreases s.len() - i,
{
    if 0 <= i < s.len() && !is_value_stop(s[i]) {
        value_end(s, i + 1)
    } else {
        i
    }
}

/// The value after the first occurrence of `name=` in `query`, up to the
/// next `&`, space, CR or LF; `None` when `name=` is absent or the value is
/// empty.
pub open spec fn spec_query_value(query: Seq<char>, name: Seq<char>) -> Option<Seq<char>> {
    let key = name.push('=');
    match spec_find(query, key, 0) {
        None => None,
        Some(idx) => {
            let start = idx + key.len();
            let end = value_end(query, start);
            if end == start {
                None
            } else {
                Some(query.subrange(start, end))
            }
        },
    }
}

/// The decimal digit `d` (for `0 <= d < 10`).
pub open spec fn digit_char(d: int) -> char {
    if d == 0 {
        '0'
    } else if d == 1 {
        '1'
    } else if d == 2 {
        '2'
    } else if d == 3 {
        '3'
    } else if d == 4 {
        '4'
    } else if d == 5 {
        '5'
    } else if d == 6 {
        '6'
    } else if d == 7 {
        '7'
    } else if d == 8 {
        '8'
    } else {
        '9'
    }
}

/// Decimal notation of `n`, without leading zeros.
pub open spec fn decimal(n: nat) -> Seq<char>
    decreases n,
{
    if n < 10 {
        seq![digit_char(n as int)]
    } else {
        decimal(n / 10).push(digit_char((n % 10) as int))
    }
}

/// A `200 OK` reply carrying `body` as JSON; the announced length is the
/// body's length in UTF-8 bytes.
pub open spec fn ok_reply(body: Seq<char>) -> Seq<char> {
    OK_HEAD@ + decimal((encode_utf8(body).len() as usize) as nat) + OK_TAIL@ + body
}

/// Body of the `getVersion` reply.
pub open spec fn version_body() -> Seq<char> {
    VERSION_BODY_HEAD@ + decimal(REPORT_VERSION as nat) + VERSION_BODY_TAIL@
}

/// Body of the `requestAuth` reply.
pub open spec fn auth_body(device_id: Seq<char>, tv_id: Seq<char>) -> Seq<char> {
    AUTH_BODY_HEAD@ + device_id + AUTH_BODY_MID@ + tv_id + AUTH_BODY_TAIL@
}

/// Body of the `completeAuth` reply.
pub open spec fn complete_body(tv_id: Seq<char>) -> Seq<char> {
    COMPLETE_BODY_HEAD@ + tv_id + COMPLETE_BODY_TAIL@
}

/// The reply to `req`, and whether it reports an authentication request
/// (which the host forwards as "connection up").
pub open spec fn spec_http_reply(req: Seq<char>, device_id: Seq<char>, tv_id: Seq<char>) -> (
    Seq<char>,
    bool,
) {
    let path = spec_uri_path(spec_first_line(req));
    if spec_contains(path, GET_INFO@) && spec_contains(path, GET_VERSION@) {
        (ok_reply(version_body()), false)
    } else if spec_contains(path, REQUEST_AUTH@) {
        let asked = match spec_query_value(path, DEVICE_ID_PARAM@) {
            Some(v) => v,
            None => Seq::empty(),
        };
        let echo = if asked.len() == 0 {
            device_id
        } else {
            asked
        };
        (ok_reply(auth_body(echo, tv_id)), true)
    } else if spec_contains(path, CANCEL_AUTH@) {
        (ok_reply(CANCEL_BODY@), false)
    } else if spec_contains(path, COMPLETE_AUTH@) {
        (ok_reply(complete_body(tv_id)), false)
    } else {
        (NOT_FOUND_REPLY@, false)
    }
}

/// `spec_find` gives the first occurrence at or after `i`, and `None`
/// exactly when there is none.
pub proof fn lemma_spec_find(s: Seq<char>, p: Seq<char>, i: int)
    requires
        0 <= i,
    ensures
        spec_find(s, p, i) matches Some(k) ==> i <= k && k + p.len() <= s.len() && s.subrange(
            k,
            k + p.len(),
        ) == p,
        forall|j: int|
            i <= j && j + p.len() <= s.len() && (spec_find(s, p, i) matches Some(k) ==> j < k)
                ==> #[trigger] s.subrange(j, j + p.len()) != p,
    decreases s.len() + 1 - i,
{
    if i + p.len() <= s.len() && s.subrange(i, i + p.len()) != p {
        lemma_spec_find(s, p, i + 1);
    }
}

fn chars_of(s: &str) -> (v: Vec<char>)
    ensures
        v@ == s@,
{
    let mut v: Vec<char> = Vec::new();
    for c in it: s.chars()
        invariant
            v@ == it.seq().take(it.index() as int),
    {
        v.push(c);
    }
    v
}

fn is_ws_char(c: char) -> (r: bool)
    ensures
        r == is_ws(c),
{
    let u = c as u32;
    u == 0x20 || (0x09 <= u && u <= 0x0D) || u == 0x85 || u == 0xA0 || u == 0x1680 || (0x2000
        <= u && u <= 0x200A) || u == 0x2028 || u == 0x2029 || u == 0x202F || u == 0x205F || u
        == 0x3000
}

fn skip_ws_from(s: &Vec<char>, i: usize) -> (r: usize)
    requires
        i <= s@.len(),
    ensures
        r == skip_ws(s@, i as int),
        i <= r <= s@.len(),
{
    let mut j = i;
    while j < s.len() && is_ws_char(s[j])
        invariant
            i <= j <= s@.len(),
            skip_ws(s@, j as int) == skip_ws(s@, i as int),
        decreases s@.len() - j,
    {
        j = j + 1;
    }
    j
}

fn skip_token_from(s: &Vec<char>, i: usize) -> (r: usize)
    requires
        i <= s@.len(),
    ensures
        r == skip_token(s@, i as int),
        i <= r <= s@.len(),
{
    let mut j = i;
    while j < s.len() && !is_ws_char(s[j])
        invariant
            i <= j <= s@.len(),
            skip_token(s@, j as int) == skip_token(s@, i as int),
        decreases s@.len() - j,
    {
        j = j + 1;
    }
    j
}

/// The request path of a request line: its second whitespace-separated
/// token, or the empty string when it has none.
pub fn extract_uri_path(line: &str) -> (path: String)
    ensures
        path@ == spec_uri_path(line@),
{
    let s = chars_of(line);
    let a1 = skip_ws_from(&s, 0);
    let b1 = skip_token_from(&s, a1);
    let a2 = skip_ws_from(&s, b1);
    let b2 = skip_token_from(&s, a2);
    line.substring_char(a2, b2).to_owned()
}

fn matches_at(s: &Vec<char>, i: usize, p: &Vec<char>) -> (r: bool)
    requires
        i + p@.len() <= s@.len(),
    ensures
        r == (s@.subrange(i as int, i + p@.len()) == p@),
{
    let n = s.len();
    let mut j: usize = 0;
    while j < p.len()
        invariant
            n == s@.len(),
            j <= p@.len(),
            i + p@.len() <= s@.len(),
            forall|k: int| 0 <= k < j ==> s@[i + k] == p@[k],
        decreases p@.len() - j,
    {
        if s[i + j] != p[j] {
            assert(s@.subrange(i as int, i + p@.len())[j as int] != p@[j as int]);
            return false;
        }
        j = j + 1;
    }
    assert(s@.subrange(i as int, i + p@.len()) =~= p@);
    true
}

fn find_from(s: &Vec<char>, p: &Vec<char>) -> (r: Option<usize>)
    ensures
        match spec_find(s@, p@, 0) {
            None => r is None,
            Some(k) => r matches Some(x) && x == k,
        },
{
    let n = s.len();
    let mut i: usize = 0;
    if p.len() > n {
        return None;
    }
    let last = n - p.len();
    loop
        invariant
            n == s@.len(),
            p@.len() <= s@.len(),
            last == s@.len() - p@.len(),
            i <= last,
            spec_find(s@, p@, i as int) == spec_find(s@, p@, 0),
        decreases last - i,
    {
        if matches_at(s, i, p) {
            return Some(i);
        }
        if i == last {
            assert(spec_find(s@, p@, i + 1) is None);
            return None;
        }
        i = i + 1;
    }
}

fn contains_str(s: &Vec<char>, p: &str) -> (r: bool)
    ensures
        r == spec_contains(s@, p@),
{
    let pv = chars_of(p);
    find_from(s, &pv).is_some()
}

fn value_end_from(s: &Vec<char>, i: usize) -> (r: usize)
    requires
        i <= s@.len(),
    ensures
        r == value_end(s@, i as int),
        i <= r <= s@.len(),
{
    let mut j = i;
    while j < s.len() && !(s[j] == '&' || s[j] == ' ' || s[j] == '\r' || s[j] == '\n')
        invariant
            i <= j <= s@.len(),
            value_end(s@, j as int) == value_end(s@, i as int),
        decreases s@.len() - j,
    {
        j = j + 1;
    }
    j
}

/// The value of query parameter `name` in `query`: the text after the first
/// `name=` up to the next `&`, space, CR or LF; `None` when `name=` does
/// not occur or the value is empty.
pub fn query_value<'a>(query: &'a str, name: &str) -> (r: Option<&'a str>)
    ensures
        match spec_query_value(query@, name@) {
            None => r is None,
            Some(v) => r matches Some(x) && x@ == v,
        },
{
    let q = chars_of(query);
    let mut key = chars_of(name);
    key.push('=');
    match find_from(&q, &key) {
        None => None,
        Some(idx) => {
            proof {
                lemma_spec_find(q@, key@, 0);
            }
            let start = idx + key.len();
            let end = value_end_from(&q, start);
            if end == start {
                None
            } else {
                Some(query.substring_char(start, end))
            }
        },
    }
}

fn digit_str(d: usize) -> (r: &'static str)
    requires
        d < 10,
    ensures
        r@ == seq![digit_char(d as int)],
{
    if d == 0 {
        proof {
            reveal_strlit("0");
        }
        "0"
    } else if d == 1 {
        proof {
            reveal_strlit("1");
        }
        "1"
    } else if d == 2 {
        proof {
            reveal_strlit("2");
        }
        "2"
    } else if d == 3 {
        proof {
            reveal_strlit("3");
        }
        "3"
    } else if d == 4 {
        proof {
            reveal_strlit("4");
        }
        "4"
    } else if d == 5 {
        proof {
            reveal_strlit("5");
        }
        "5"
    } else if d == 6 {
        proof {
            reveal_strlit("6");
        }
        "6"
    } else if d == 7 {
        proof {
            reveal_strlit("7");
        }
        "7"
    } else if d == 8 {
        proof {
            reveal_strlit("8");
        }
        "8"
    } else {
        proof {
            reveal_strlit("9");
        }
        "9"
    }
}

/// Appends the decimal notation of `n` to `out`.
fn push_decimal(out: &mut String, n: usize)
    ensures
        final(out)@ == old(out)@ + decimal(n as nat),
    decreases n,
{
    if n >= 10 {
        push_decimal(out, n / 10);
    }
    out.append(digit_str(n % 10));
    proof {
        if n >= 10 {
            assert(old(out)@ + decimal(n as nat) =~= old(out)@ + decimal((n / 10) as nat) + seq![
                digit_char((n % 10) as int),
            ]);
        } else {
            assert(decimal(n as nat) =~= seq![digit_char((n % 10) as int)]);
        }
    }
}

/// A `200 OK` reply around `body`.
fn ok_reply_for(body: &String) -> (r: String)
    ensures
        r@ == ok_reply(body@),
{
    let mut r = String::new();
    r.append(OK_HEAD);
    push_decimal(&mut r, body.as_str().len());
    r.append(OK_TAIL);
    r.append(body.as_str());
    r
}

/// The reply to an HTTP request of the phone, and whether the request was
/// an authentication request (which the host reports as "connection up").
///
/// Only the path in the first line counts: `getVersion` (under `/getInfo`)
/// reports [`REPORT_VERSION`]; `/requestAuth` echoes the phone's
/// `device_id` parameter (or `device_id` when the phone sent none) together
/// with `tv_id`; `/cancelAuth` and `/completeAuth` acknowledge; anything
/// else is 404.
pub fn handle_http_request(req: &str, device_id: &str, tv_id: &str) -> (r: (String, bool))
    ensures
        (r.0@, r.1) == spec_http_reply(req@, device_id@, tv_id@),
{
    let req_chars = chars_of(req);
    let mut e: usize = 0;
    while e < req_chars.len() && req_chars[e] != '\n'
        invariant
            e <= req_chars@.len(),
            req_chars@ == req@,
            line_end(req@, e as int) == line_end(req@, 0),
        decreases req_chars@.len() - e,
    {
        e = e + 1;
    }
    let line = req.substring_char(0, e);
    assert(line@ =~= spec_first_line(req@));
    let path_string = extract_uri_path(line);
    let path = chars_of(path_string.as_str());
    if contains_str(&path, GET_INFO) && contains_str(&path, GET_VERSION) {
        let mut body = String::new();
        body.append(VERSION_BODY_HEAD);
        push_decimal(&mut body, REPORT_VERSION as usize);
        body.append(VERSION_BODY_TAIL);
        assert(body@ == version_body());
        (ok_reply_for(&body), false)
    } else if contains_str(&path, REQUEST_AUTH) {
        let asked: &str = match query_value(path_string.as_str(), DEVICE_ID_PARAM) {
            Some(v) => v,
            None => {
                proof {
                    reveal_strlit("");
                }
                ""
            },
        };
        let echo: &str = if asked.is_empty() {
            device_id
        } else {
            asked
        };
        let mut body = String::new();
        body.append(AUTH_BODY_HEAD);
        body.append(echo);
        body.append(AUTH_BODY_MID);
        body.append(tv_id);
        body.append(AUTH_BODY_TAIL);
        (ok_reply_for(&body), true)
    } else if contains_str(&path, CANCEL_AUTH) {
        let mut body = String::new();
        body.append(CANCEL_BODY);
        (ok_reply_for(&body), false)
    } else if contains_str(&path, COMPLETE_AUTH) {
        let mut body = String::new();
        body.append(COMPLETE_BODY_HEAD);
        body.append(tv_id);
        body.append(COMPLETE_BODY_TAIL);
        (ok_reply_for(&body), false)
    } else {
        let mut r = String::new();
        r.append(NOT_FOUND_REPLY);
        (r, false)
    }
}

/// Every reply is either the 404 reply or a 200 reply whose announced
/// length is its body's length in UTF-8 bytes, and "connection up" is
/// reported exactly for authentication requests, whose reply echoes the
/// phone's device id when it sent one.
pub proof fn lemma_http_reply_shape(req: Seq<char>, device_id: Seq<char>, tv_id: Seq<char>)
    ensures
        ({
            let (reply, auth) = spec_http_reply(req, device_id, tv_id);
            let path = spec_uri_path(spec_first_line(req));
            &&& reply == NOT_FOUND_REPLY@ || exists|body: Seq<char>| reply == ok_reply(body)
            &&& auth <==> (spec_contains(path, REQUEST_AUTH@) && !(spec_contains(path, GET_INFO@)
                && spec_contains(path, GET_VERSION@)))
            &&& auth ==> (spec_query_value(path, DEVICE_ID_PARAM@) matches Some(v) ==> reply
                == ok_reply(auth_body(v, tv_id)))
        }),
{
    let (reply, auth) = spec_http_reply(req, device_id, tv_id);
    let path = spec_uri_path(spec_first_line(req));
    if spec_contains(path, GET_INFO@) && spec_contains(path, GET_VERSION@) {
        assert(reply == ok_reply(version_body()));
    } else if spec_contains(path, REQUEST_AUTH@) {
        lemma_query_value_shape(path, DEVICE_ID_PARAM@);
        let asked = match spec_query_value(path, DEVICE_ID_PARAM@) {
            Some(v) => v,
            None => Seq::empty(),
        };
        let echo = if asked.len() == 0 {
            device_id
        } else {
            asked
        };
        assert(reply == ok_reply(auth_body(echo, tv_id)));
    } else if spec_contains(path, CANCEL_AUTH@) {
        assert(reply == ok_reply(CANCEL_BODY@));
    } else if spec_contains(path, COMPLETE_AUTH@) {
        assert(reply == ok_reply(complete_body(tv_id)));
    }
}

/// A query value is never empty and stops before the first `&`, space, CR
/// or LF.
pub proof fn lemma_query_value_shape(query: Seq<char>, name: Seq<char>)
    ensures
        spec_query_value(query, name) matches Some(v) ==> v.len() > 0 && forall|i: int|
            0 <= i < v.len() ==> !is_value_stop(#[trigger] v[i]),
{
    let key = name.push('=');
    lemma_spec_find(query, key, 0);
    if let Some(idx) = spec_find(query, key, 0) {
        let start = idx + key.len();
        lemma_value_end(query, start);
    }
}

proof fn lemma_value_end(s: Seq<char>, i: int)
    requires
        0 <= i <= s.len(),
    ensures
        i <= value_end(s, i) <= s.len(),
        forall|j: int| i <= j < value_end(s, i) ==> !is_value_stop(#[trigger] s[j]),
        value_end(s, i) == s.len() || is_value_stop(s[value_end(s, i)]),
    decreases s.len() - i,
{
    if i < s.len() && !is_value_stop(s[i]) {
        lemma_value_end(s, i + 1);
    }
}

/// Every character of `s` in `[i, j)` is whitespace.
pub open spec fn all_ws(s: Seq<char>, i: int, j: int) -> bool {
    forall|k: int| i <= k < j ==> is_ws(#[trigger] s[k])
}

/// No character of `s` in `[i, j)` is whitespace.
pub open spec fn no_ws(s: Seq<char>, i: int, j: int) -> bool {
    forall|k: int| i <= k < j ==> !is_ws(#[trigger] s[k])
}

/// `s` splits at whitespace into a first token `[a1, b1)` and a second token
/// `[a2, b2)`: only whitespace comes before the first token, the tokens are
/// non-empty runs of non-whitespace separated by whitespace, and the second
/// token runs to the end or to whitespace.
pub open spec fn is_token_split(s: Seq<char>, a1: int, b1: int, a2: int, b2: int) -> bool {
    &&& 0 <= a1 < b1 < a2 < b2 <= s.len()
    &&& all_ws(s, 0, a1)
    &&& no_ws(s, a1, b1)
    &&& all_ws(s, b1, a2)
    &&& no_ws(s, a2, b2)
    &&& (b2 == s.len() || is_ws(s[b2]))
}

proof fn lemma_skip_ws_spec(s: Seq<char>, i: int)
    requires
        0 <= i <= s.len(),
    ensures
        i <= skip_ws(s, i) <= s.len(),
        all_ws(s, i, skip_ws(s, i)),
        skip_ws(s, i) < s.len() ==> !is_ws(s[skip_ws(s, i)]),
    decreases s.len() - i,
{
    if i < s.len() && is_ws(s[i]) {
        lemma_skip_ws_spec(s, i + 1);
    }
}

proof fn lemma_skip_token_spec(s: Seq<char>, i: int)
    requires
        0 <= i <= s.len(),
    ensures
        i <= skip_token(s, i) <= s.len(),
        no_ws(s, i, skip_token(s, i)),
        skip_token(s, i) < s.len() ==> is_ws(s[skip_token(s, i)]),
    decreases s.len() - i,
{
    if i < s.len() && !is_ws(s[i]) {
        lemma_skip_token_spec(s, i + 1);
    }
}

proof fn lemma_skip_ws_unique(s: Seq<char>, i: int, j: int)
    requires
        0 <= i <= j <= s.len(),
        all_ws(s, i, j),
        j < s.len() ==> !is_ws(s[j]),
    ensures
        skip_ws(s, i) == j,
    decreases j - i,
{
    if i < j {
        assert(is_ws(s[i]));
        lemma_skip_ws_unique(s, i + 1, j);
    }
}

proof fn lemma_skip_token_unique(s: Seq<char>, i: int, j: int)
    requires
        0 <= i <= j <= s.len(),
        no_ws(s, i, j),
        j < s.len() ==> is_ws(s[j]),
    ensures
        skip_token(s, i) == j,
    decreases j - i,
{
    if i < j {
        assert(!is_ws(s[i]));
        lemma_skip_token_unique(s, i + 1, j);
    }
}

/// The request path is the second whitespace-separated token of the line
/// (as `split_whitespace().nth(1)` gives it): it is non-empty exactly when
/// the line splits into at least two tokens, and then it is the second one.
pub proof fn lemma_uri_path_is_second_token(line: Seq<char>)
    ensures
        spec_uri_path(line).len() > 0 <==> exists|a1: int, b1: int, a2: int, b2: int|
            is_token_split(line, a1, b1, a2, b2),
        forall|a1: int, b1: int, a2: int, b2: int|
            is_token_split(line, a1, b1, a2, b2) ==> spec_uri_path(line) == line.subrange(a2, b2),
{
    let a1 = skip_ws(line, 0);
    lemma_skip_ws_spec(line, 0);
    let b1 = skip_token(line, a1);
    lemma_skip_token_spec(line, a1);
    let a2 = skip_ws(line, b1);
    lemma_skip_ws_spec(line, b1);
    let b2 = skip_token(line, a2);
    lemma_skip_token_spec(line, a2);
    assert forall|x1: int, y1: int, x2: int, y2: int|
        is_token_split(line, x1, y1, x2, y2) implies spec_uri_path(line) == line.subrange(
        x2,
        y2,
    ) by {
        lemma_skip_ws_unique(line, 0, x1);
        lemma_skip_token_unique(line, x1, y1);
        lemma_skip_ws_unique(line, y1, x2);
        lemma_skip_token_unique(line, x2, y2);
    }
    if a2 < b2 {
        assert(a1 < b1) by {
            if a1 == b1 {
                // No first token: the whole line is whitespace.
                assert(a1 == line.len());
            }
        }
        assert(b1 < a2) by {
            if b1 == a2 {
                assert(b1 < line.len());
            }
        }
        assert(is_token_split(line, a1, b1, a2, b2));
    }
}

/// `p` occurs somewhere in `s`.
pub open spec fn occurs(s: Seq<char>, p: Seq<char>) -> bool {
    exists|i: int| 0 <= i && i + p.len() <= s.len() && #[trigger] s.subrange(i, i + p.len()) == p
}

/// `p` occurs in `s` at `idx` and nowhere before.
pub open spec fn first_occurrence_at(s: Seq<char>, p: Seq<char>, idx: int) -> bool {
    &&& 0 <= idx
    &&& idx + p.len() <= s.len()
    &&& s.subrange(idx, idx + p.len()) == p
    &&& forall|j: int| 0 <= j < idx ==> #[trigger] s.subrange(j, j + p.len()) != p
}

proof fn lemma_contains_occurs(s: Seq<char>, p: Seq<char>)
    ensures
        spec_contains(s, p) <==> occurs(s, p),
        spec_find(s, p, 0) matches Some(k) ==> first_occurrence_at(s, p, k),
{
    lemma_spec_find(s, p, 0);
    if occurs(s, p) {
        let i = choose|i: int| 0 <= i && i + p.len() <= s.len() && #[trigger] s.subrange(i, i + p.len()) == p;
        assert(s.subrange(i, i + p.len()) == p);
    }
}

/// The value of `name=` in a query is the whole run of characters after its
/// first occurrence, up to the next `&`, space, CR, LF or the end: when the
/// run is empty or `name=` does not occur there is none; otherwise it is
/// that run, non-empty, free of stop characters, and followed by a stop
/// character or the end.
pub proof fn lemma_query_value_law(query: Seq<char>, name: Seq<char>)
    ensures
        !occurs(query, name.push('=')) ==> spec_query_value(query, name) is None,
        forall|idx: int|
            #[trigger] first_occurrence_at(query, name.push('='), idx) ==> {
                let start = idx + name.len() + 1;
                match spec_query_value(query, name) {
                    Some(v) => {
                        &&& v.len() > 0
                        &&& start + v.len() <= query.len()
                        &&& query.subrange(start, start + v.len()) == v
                        &&& forall|i: int| 0 <= i < v.len() ==> !is_value_stop(#[trigger] v[i])
                        &&& (start + v.len() == query.len() || is_value_stop(
                            query[start + v.len()],
                        ))
                    },
                    None => start == query.len() || is_value_stop(query[start]),
                }
            },
{
    let key = name.push('=');
    lemma_contains_occurs(query, key);
    lemma_spec_find(query, key, 0);
    assert forall|idx: int| #[trigger] first_occurrence_at(query, key, idx) implies {
        let start = idx + name.len() + 1;
        match spec_query_value(query, name) {
            Some(v) => {
                &&& v.len() > 0
                &&& start + v.len() <= query.len()
                &&& query.subrange(start, start + v.len()) == v
                &&& forall|i: int| 0 <= i < v.len() ==> !is_value_stop(#[trigger] v[i])
                &&& (start + v.len() == query.len() || is_value_stop(query[start + v.len()]))
            },
            None => start == query.len() || is_value_stop(query[start]),
        }
    } by {
        let k = spec_find(query, key, 0)->Some_0;
        assert(spec_find(query, key, 0) is Some) by {
            if spec_find(query, key, 0) is None {
                assert(query.subrange(idx, idx + key.len()) == key);
            }
        }
        assert(k == idx) by {
            if k < idx {
                assert(query.subrange(k, k + key.len()) == key);
            } else if idx < k {
                assert(query.subrange(idx, idx + key.len()) == key);
            }
        }
        let start = idx + key.len();
        lemma_value_end(query, start);
        let end = value_end(query, start);
        if end > start {
            let v = query.subrange(start, end);
            assert forall|i: int| 0 <= i < v.len() implies !is_value_stop(#[trigger] v[i]) by {
                assert(v[i] == query[start + i]);
            }
            assert(query.subrange(start, start + v.len()) =~= v);
        }
    }
}

/// The first line of a request runs up to the first LF (or the end) and
/// holds no LF.
pub proof fn lemma_first_line(req: Seq<char>)
    ensures
        spec_first_line(req).len() <= req.len(),
        spec_first_line(req) == req.take(spec_first_line(req).len() as int),
        forall|i: int| 0 <= i < spec_first_line(req).len() ==> #[trigger] req[i] != '\n',
        spec_first_line(req).len() == req.len() || req[spec_first_line(req).len() as int] == '\n',
{
    lemma_line_end(req, 0);
}

proof fn lemma_line_end(s: Seq<char>, i: int)
    requires
        0 <= i <= s.len(),
    ensures
        i <= line_end(s, i) <= s.len(),
        forall|j: int| i <= j < line_end(s, i) ==> #[trigger] s[j] != '\n',
        line_end(s, i) == s.len() || s[line_end(s, i)] == '\n',
    decreases s.len() - i,
{
    if i < s.len() && s[i] != '\n' {
        lemma_line_end(s, i + 1);
    }
}

/// Routing of a request by the path in its first line: `getVersion` under
/// `/getInfo` reports the version; otherwise a path with `/requestAuth`
/// reports "connection up" and echoes the phone's `device_id` (or the
/// device's own when the phone sent none) with the TV id; otherwise a path
/// with `/cancelAuth` is acknowledged, whatever else the path holds;
/// otherwise a path with `/completeAuth` returns the TV id; anything else is
/// 404. Only authentication requests report "connection up".
pub proof fn lemma_http_routes(req: Seq<char>, device_id: Seq<char>, tv_id: Seq<char>)
    ensures
        ({
            let path = spec_uri_path(spec_first_line(req));
            let (reply, auth) = spec_http_reply(req, device_id, tv_id);
            let version = occurs(path, GET_INFO@) && occurs(path, GET_VERSION@);
            let request = !version && occurs(path, REQUEST_AUTH@);
            let cancel = !version && !occurs(path, REQUEST_AUTH@) && occurs(path, CANCEL_AUTH@);
            let complete = !version && !occurs(path, REQUEST_AUTH@) && !occurs(path, CANCEL_AUTH@)
                && occurs(path, COMPLETE_AUTH@);
            let echo = match spec_query_value(path, DEVICE_ID_PARAM@) {
                Some(v) => v,
                None => device_id,
            };
            &&& version ==> reply == ok_reply(version_body()) && !auth
            &&& request ==> reply == ok_reply(auth_body(echo, tv_id)) && auth
            &&& cancel ==> reply == ok_reply(CANCEL_BODY@) && !auth
            &&& complete ==> reply == ok_reply(complete_body(tv_id)) && !auth
            &&& !version && !request && !cancel && !complete ==> reply == NOT_FOUND_REPLY@ && !auth
        }),
{
    let path = spec_uri_path(spec_first_line(req));
    lemma_contains_occurs(path, GET_INFO@);
    lemma_contains_occurs(path, GET_VERSION@);
    lemma_contains_occurs(path, REQUEST_AUTH@);
    lemma_contains_occurs(path, CANCEL_AUTH@);
    lemma_contains_occurs(path, COMPLETE_AUTH@);
    lemma_query_value_shape(path, DEVICE_ID_PARAM@);
}

/// The number a string of decimal digits stands for.
pub open spec fn decimal_value(s: Seq<char>) -> int
    decreases s.len(),
{
    if s.len() == 0 {
        0
    } else {
        decimal_value(s.drop_last()) * 10 + (s.last() as int - 48)
    }
}

/// Decimal notation is made of the digits `0` to `9`, reads back as the
/// number, and has no leading zero (only zero itself starts with `0`).
pub proof fn lemma_decimal_law(n: nat)
    ensures
        decimal(n).len() > 0,
        forall|i: int| 0 <= i < decimal(n).len() ==> 48 <= #[trigger] (decimal(n)[i] as int) <= 57,
        decimal_value(decimal(n)) == n,
        decimal(n)[0] == '0' ==> n == 0,
    decreases n,
{
    if n >= 10 {
        lemma_decimal_law(n / 10);
        let d = decimal(n);
        assert(d.drop_last() =~= decimal(n / 10));
        assert(d[0] == decimal(n / 10)[0]);
        let r = (n % 10) as int;
        assert(d.last() as int - 48 == r);
        assert(decimal_value(d) == decimal_value(decimal(n / 10)) * 10 + r);
        assert((n / 10) * 10 + r == n);
    } else {
        let d = decimal(n);
        assert(d.drop_last() =~= Seq::<char>::empty());
        assert(decimal_value(Seq::<char>::empty()) == 0);
        assert(d.last() as int - 48 == n);
        assert(decimal_value(d) == decimal_value(d.drop_last()) * 10 + (d.last() as int - 48));
    }
}

} // verus!
