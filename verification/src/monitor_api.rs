//! Personal phone monitor: pairing links, the token gate and request routing
//! of the token-gated HTTP API (the server loop itself runs outside).

use vstd::prelude::*;
use crate::codec::{hex_lower, spec_hex_lower, spec_url_encode, str_bytes, url_encode_bytes};
use crate::codec::{hex_val, is_hex_byte, is_unreserved, nibble_upper};
use crate::text::{
    chars_of, dec, extend_chars, extend_str, first_index, first_index_of, has_prefix,
    is_whitespace, is_ws, lower_chars, lower_seq, push_dec, starts_with, string_of, sub_chars,
    trim, trim_chars, trim_end, trim_end_chars, trim_start, trimmed,
};

verus! {

pub const MONITOR_PORT: u16 = 19285;

/// Public install id and secret pairing token of one Companion install.
#[derive(Debug, Clone)]
pub struct MonitorCreds {
    pub install_id: String,
    pub token: String,
}

/// Percent-encoding for URL fields (space included).
pub fn url_encode(s: &str) -> (r: String)
    ensures
        r@ == spec_url_encode(str_bytes(s@), false),
{
    url_encode_bytes(s.as_bytes(), false)
}

/// `njordrseas://cyd-monitor/v1?host=…&port=…&id=…&token=…`
pub open spec fn spec_pair_url(host: Seq<char>, port: u16, id: Seq<char>, token: Seq<char>) -> Seq<
    char,
> {
    "njordrseas://cyd-monitor/v1?host="@ + spec_url_encode(str_bytes(trim(host)), false)
        + "&port="@ + dec(port as nat) + "&id="@ + spec_url_encode(str_bytes(trim(id)), false)
        + "&token="@ + spec_url_encode(str_bytes(trim(token)), false)
}

/// `http://host:port/?id=…&token=…`
pub open spec fn spec_web_pair_url(host: Seq<char>, port: u16, id: Seq<char>, token: Seq<char>) -> Seq<
    char,
> {
    "http://"@ + trim(host) + ":"@ + dec(port as nat) + "/?id="@ + spec_url_encode(
        str_bytes(trim(id)),
        false,
    ) + "&token="@ + spec_url_encode(str_bytes(trim(token)), false)
}

fn encoded_trimmed(s: &str) -> (r: String)
    ensures
        r@ == spec_url_encode(str_bytes(trim(s@)), false),
{
    let t = trimmed(s);
    let ts = string_of(t.as_slice());
    url_encode(ts.as_str())
}

/// Deep-link payload encoded in the personal QR (unique per Companion install).
pub fn pair_url(host: &str, port: u16, install_id: &str, token: &str) -> (r: String)
    ensures
        r@ == spec_pair_url(host@, port, install_id@, token@),
{
    let mut out: Vec<char> = Vec::new();
    extend_str(&mut out, "njordrseas://cyd-monitor/v1?host=");
    let h = encoded_trimmed(host);
    extend_str(&mut out, h.as_str());
    extend_str(&mut out, "&port=");
    push_dec(&mut out, port as u64);
    extend_str(&mut out, "&id=");
    let i = encoded_trimmed(install_id);
    extend_str(&mut out, i.as_str());
    extend_str(&mut out, "&token=");
    let t = encoded_trimmed(token);
    extend_str(&mut out, t.as_str());
    string_of(out.as_slice())
}

/// Browser fallback URL that carries the personal token.
pub fn web_pair_url(host: &str, port: u16, install_id: &str, token: &str) -> (r: String)
    ensures
        r@ == spec_web_pair_url(host@, port, install_id@, token@),
{
    let mut out: Vec<char> = Vec::new();
    extend_str(&mut out, "http://");
    let h = trimmed(host);
    extend_chars(&mut out, h.as_slice());
    extend_str(&mut out, ":");
    push_dec(&mut out, port as u64);
    extend_str(&mut out, "/?id=");
    let i = encoded_trimmed(install_id);
    extend_str(&mut out, i.as_str());
    extend_str(&mut out, "&token=");
    let t = encoded_trimmed(token);
    extend_str(&mut out, t.as_str());
    string_of(out.as_slice())
}

// ----- query strings -----

/// Hex digit value of a byte, if it is one.
pub open spec fn spec_hex_nibble(b: u8) -> Option<u8> {
    if is_hex_byte(b) {
        Some(hex_val(b))
    } else {
        None
    }
}

pub fn hex_nibble(b: u8) -> (r: Option<u8>)
    ensures
        r == spec_hex_nibble(b),
{
    if 48u8 <= b && b <= 57u8 {
        Some(b - 48u8)
    } else if 97u8 <= b && b <= 102u8 {
        Some(b - 87u8)
    } else if 65u8 <= b && b <= 70u8 {
        Some(b - 55u8)
    } else {
        None
    }
}

/// Percent-decoding of bytes: `+` is a space, `%XX` with two hex digits is
/// that byte, anything else stays.
pub open spec fn url_decode_bytes(b: Seq<u8>) -> Seq<u8>
    decreases b.len(),
{
    if b.len() == 0 {
        Seq::empty()
    } else if b[0] == 43 {
        seq![32u8] + url_decode_bytes(b.drop_first())
    } else if b[0] == 37 && 2 < b.len() && is_hex_byte(b[1]) && is_hex_byte(b[2]) {
        seq![(hex_val(b[1]) * 16 + hex_val(b[2])) as u8] + url_decode_bytes(b.skip(3))
    } else {
        seq![b[0]] + url_decode_bytes(b.drop_first())
    }
}

/// Percent-decoding undoes percent-encoding, whether spaces were written as
/// `+` or as `%20`.
pub proof fn lemma_url_roundtrip(b: Seq<u8>, plus_space: bool)
    ensures
        url_decode_bytes(str_bytes(spec_url_encode(b, plus_space))) == b,
{
    lemma_url_roundtrip_rest(b, plus_space, Seq::empty());
    assert(str_bytes(spec_url_encode(b, plus_space)) + Seq::<u8>::empty() =~= str_bytes(
        spec_url_encode(b, plus_space),
    ));
    assert(url_decode_bytes(Seq::<u8>::empty()) =~= Seq::<u8>::empty());
    assert(b + Seq::<u8>::empty() =~= b);
}

proof fn lemma_url_roundtrip_rest(b: Seq<u8>, plus_space: bool, rest: Seq<u8>)
    ensures
        url_decode_bytes(str_bytes(spec_url_encode(b, plus_space)) + rest) == b
            + url_decode_bytes(rest),
    decreases b.len(),
{
    if b.len() == 0 {
        assert(str_bytes(Seq::<char>::empty()) =~= Seq::<u8>::empty());
        assert(Seq::<u8>::empty() + rest =~= rest);
        assert(b + url_decode_bytes(rest) =~= url_decode_bytes(rest));
    } else {
        let p = b.drop_last();
        let x = b.last();
        let e0 = spec_url_encode(p, plus_space);
        let u = url_unit(x, plus_space);
        assert(spec_url_encode(b, plus_space) =~= e0 + u);
        crate::text::lemma_utf8_concat(e0, u);
        let ub = str_bytes(u);
        lemma_url_unit(x, plus_space, rest);
        lemma_url_roundtrip_rest(p, plus_space, ub + rest);
        assert(str_bytes(e0) + ub + rest =~= str_bytes(e0) + (ub + rest));
        assert(p + (seq![x] + url_decode_bytes(rest)) =~= b + url_decode_bytes(rest));
    }
}

/// The text percent-encoding gives for one byte.
spec fn url_unit(x: u8, plus_space: bool) -> Seq<char> {
    if is_unreserved(x) {
        seq![x as char]
    } else if plus_space && x == 32 {
        seq!['+']
    } else {
        seq!['%', nibble_upper(x / 16), nibble_upper(x % 16)]
    }
}

proof fn lemma_nibble_upper(n: u8)
    requires
        n < 16,
    ensures
        (nibble_upper(n) as u32) < 128,
        is_hex_byte((nibble_upper(n) as u32) as u8),
        hex_val((nibble_upper(n) as u32) as u8) == n,
{
}

proof fn lemma_url_unit(x: u8, plus_space: bool, rest: Seq<u8>)
    ensures
        url_decode_bytes(str_bytes(url_unit(x, plus_space)) + rest) == seq![x] + url_decode_bytes(
            rest,
        ),
{
    let u = url_unit(x, plus_space);
    if is_unreserved(x) {
        crate::text::lemma_utf8_ascii_char(x as char);
        let s = seq![x] + rest;
        assert(str_bytes(u) + rest =~= s);
        assert(s[0] == x);
        assert(s.drop_first() =~= rest);
    } else if plus_space && x == 32 {
        crate::text::lemma_utf8_ascii_char('+');
        let s = seq![43u8] + rest;
        assert(str_bytes(u) + rest =~= s);
        assert(s.drop_first() =~= rest);
    } else {
        let hi = nibble_upper(x / 16);
        let lo = nibble_upper(x % 16);
        lemma_nibble_upper(x / 16);
        lemma_nibble_upper(x % 16);
        let e = Seq::<char>::empty();
        crate::text::lemma_utf8_push_ascii(e, '%');
        crate::text::lemma_utf8_push_ascii(e.push('%'), hi);
        crate::text::lemma_utf8_push_ascii(e.push('%').push(hi), lo);
        assert(e.push('%').push(hi).push(lo) =~= u);
        assert(str_bytes(e) =~= Seq::<u8>::empty());
        let hb = (hi as u32) as u8;
        let lb = (lo as u32) as u8;
        assert(str_bytes(u) =~= seq![37u8, hb, lb]);
        let s = seq![37u8, hb, lb] + rest;
        assert(str_bytes(u) + rest =~= s);
        assert(s.skip(3) =~= rest);
        assert((hex_val(hb) * 16 + hex_val(lb)) as u8 == x);
    }
}

/// Text of possibly invalid UTF-8, with U+FFFD in place of bad sequences
/// (a name for what std's `String::from_utf8_lossy` returns).
pub uninterp spec fn utf8_lossy(b: Seq<u8>) -> Seq<char>;

/// std's `String::from_utf8_lossy`: valid UTF-8 comes back as its text.
#[verifier::external_body]
fn string_from_utf8_lossy(b: &[u8]) -> (r: String)
    ensures
        r@ == utf8_lossy(b@),
        vstd::utf8::valid_utf8(b@) ==> r@ == vstd::utf8::decode_utf8(b@),
{
    String::from_utf8_lossy(b).into_owned()
}

/// Text of decoded bytes: their UTF-8 reading when they are valid UTF-8.
pub open spec fn decoded_text(b: Seq<u8>) -> Seq<char> {
    if vstd::utf8::valid_utf8(b) {
        vstd::utf8::decode_utf8(b)
    } else {
        utf8_lossy(b)
    }
}

pub open spec fn spec_url_decode(s: Seq<char>) -> Seq<char> {
    decoded_text(url_decode_bytes(str_bytes(s)))
}

fn url_decode_vec(b: &[u8]) -> (r: Vec<u8>)
    ensures
        r@ == url_decode_bytes(b@),
{
    let mut out: Vec<u8> = Vec::new();
    let mut i: usize = 0;
    let n = b.len();
    assert(b@.skip(0) =~= b@);
    assert(out@ + url_decode_bytes(b@) =~= url_decode_bytes(b@));
    while i < n
        invariant
            i <= n == b@.len(),
            url_decode_bytes(b@) == out@ + url_decode_bytes(b@.skip(i as int)),
        decreases n - i,
    {
        let ghost rest = b@.skip(i as int);
        assert(rest[0] == b@[i as int]);
        if b[i] == 43u8 {
            out.push(32u8);
            assert(rest.drop_first() =~= b@.skip(i + 1));
            i = i + 1;
        } else if b[i] == 37u8 && n - i > 2 {
            assert(rest[1] == b@[i + 1] && rest[2] == b@[i + 2]);
            match (hex_nibble(b[i + 1]), hex_nibble(b[i + 2])) {
                (Some(hi), Some(lo)) => {
                    out.push(hi * 16 + lo);
                    assert(rest.skip(3) =~= b@.skip(i + 3));
                    i = i + 3;
                },
                _ => {
                    out.push(b[i]);
                    assert(rest.drop_first() =~= b@.skip(i + 1));
                    i = i + 1;
                },
            }
        } else {
            out.push(b[i]);
            assert(rest.drop_first() =~= b@.skip(i + 1));
            i = i + 1;
        }
    }
    assert(b@.skip(i as int).len() == 0);
    assert(out@ + Seq::<u8>::empty() =~= out@);
    out
}

pub fn url_decode(s: &str) -> (r: String)
    ensures
        r@ == spec_url_decode(s@),
{
    let out = url_decode_vec(s.as_bytes());
    string_from_utf8_lossy(out.as_slice())
}

/// The key of a `k=v` query part (all of it when there is no `=`).
pub open spec fn part_key(p: Seq<char>) -> Seq<char> {
    if p.contains('=') {
        p.take(first_index(p, '='))
    } else {
        p
    }
}

/// The raw value of a `k=v` query part (empty when there is no `=`).
pub open spec fn part_value(p: Seq<char>) -> Seq<char> {
    if p.contains('=') {
        p.skip(first_index(p, '=') + 1)
    } else {
        Seq::empty()
    }
}

/// The raw value of the first `&`-separated part whose key is `key`.
pub open spec fn query_raw(q: Seq<char>, key: Seq<char>) -> Option<Seq<char>>
    decreases q.len(),
{
    if q.contains('&') {
        let i = first_index(q, '&');
        proof {
            crate::text::lemma_first_index_bound(q, '&');
        }
        let part = q.take(i);
        if part_key(part) == key {
            Some(part_value(part))
        } else {
            query_raw(q.skip(i + 1), key)
        }
    } else if part_key(q) == key {
        Some(part_value(q))
    } else {
        None
    }
}

/// A decoded query parameter.
pub open spec fn spec_query_param(q: Seq<char>, key: Seq<char>) -> Option<Seq<char>> {
    match query_raw(q, key) {
        Some(v) => Some(spec_url_decode(v)),
        None => None,
    }
}

fn chars_eq(a: &[char], b: &[char]) -> (r: bool)
    ensures
        r == (a@ == b@),
{
    if a.len() != b.len() {
        return false;
    }
    let r = crate::text::has_prefix(a, b);
    assert(a@ =~= a@.take(b@.len() as int));
    r
}

fn split_part(p: &[char]) -> (r: (Vec<char>, Vec<char>))
    ensures
        r.0@ == part_key(p@),
        r.1@ == part_value(p@),
{
    match first_index_of(p, '=') {
        Some(i) => {
            let n = p.len();
            (sub_chars(p, 0, i), sub_chars(p, i + 1, n))
        },
        None => (sub_chars(p, 0, p.len()), Vec::new()),
    }
}

fn query_raw_of(q: &[char], key: &[char]) -> (r: Option<Vec<char>>)
    ensures
        match r {
            Some(v) => query_raw(q@, key@) == Some(v@),
            None => query_raw(q@, key@) is None,
        },
    decreases q@.len(),
{
    match first_index_of(q, '&') {
        Some(i) => {
            let part = sub_chars(q, 0, i);
            let (k, v) = split_part(part.as_slice());
            if chars_eq(k.as_slice(), key) {
                Some(v)
            } else {
                let n = q.len();
                let rest = sub_chars(q, i + 1, n);
                query_raw_of(rest.as_slice(), key)
            }
        },
        None => {
            let (k, v) = split_part(q);
            if chars_eq(k.as_slice(), key) {
                Some(v)
            } else {
                None
            }
        },
    }
}

pub fn query_param(query: &str, key: &str) -> (r: Option<String>)
    ensures
        match r {
            Some(v) => spec_query_param(query@, key@) == Some(v@),
            None => spec_query_param(query@, key@) is None,
        },
{
    let q = chars_of(query);
    let k = chars_of(key);
    match query_raw_of(q.as_slice(), k.as_slice()) {
        Some(v) => {
            let vs = string_of(v.as_slice());
            Some(url_decode(vs.as_str()))
        },
        None => None,
    }
}

/// `path?query` split at the first `?`.
pub open spec fn spec_split_path_query(pq: Seq<char>) -> (Seq<char>, Seq<char>) {
    if pq.contains('?') {
        let i = first_index(pq, '?');
        (pq.take(i), pq.skip(i + 1))
    } else {
        (pq, Seq::empty())
    }
}

pub fn split_path_query(path_q: &str) -> (r: (String, String))
    ensures
        (r.0@, r.1@) == spec_split_path_query(path_q@),
{
    let pq = chars_of(path_q);
    match first_index_of(pq.as_slice(), '?') {
        Some(i) => {
            let n = pq.len();
            let p = sub_chars(pq.as_slice(), 0, i);
            let q = sub_chars(pq.as_slice(), i + 1, n);
            (string_of(p.as_slice()), string_of(q.as_slice()))
        },
        None => (string_of(pq.as_slice()), String::new()),
    }
}

// ----- the token gate -----

/// The pieces of `s` between line feeds (std's `split('\n')`).
pub open spec fn split_lines(s: Seq<char>) -> Seq<Seq<char>>
    decreases s.len(),
{
    if s.contains('\n') {
        let i = first_index(s, '\n');
        proof {
            crate::text::lemma_first_index_bound(s, '\n');
        }
        seq![s.take(i)] + split_lines(s.skip(i + 1))
    } else {
        seq![s]
    }
}

/// Splitting always gives at least one piece.
pub proof fn lemma_split_lines_nonempty(s: Seq<char>)
    ensures
        split_lines(s).len() > 0,
{
}

/// The token of an `Authorization` value (`Bearer <token>` / `bearer <token>`),
/// empty for any other scheme.
pub open spec fn strip_bearer(v: Seq<char>) -> Seq<char> {
    if starts_with(v, "Bearer "@) || starts_with(v, "bearer "@) {
        v.skip(7)
    } else {
        Seq::empty()
    }
}

/// One header line that carries the expected token, as `Authorization:
/// Bearer <token>` or `X-Cyd-Token: <token>` (header names in any case).
pub open spec fn header_grants(line: Seq<char>, expected: Seq<char>) -> bool {
    line.contains(':') && {
        let i = first_index(line, ':');
        let name = lower_seq(line.take(i));
        let value = trim(line.skip(i + 1));
        (name == "authorization"@ && trim(strip_bearer(value)) == expected) || (name
            == "x-cyd-token"@ && value == expected)
    }
}

/// Some header line, before the blank line that ends the headers, grants access.
pub open spec fn headers_grant(lines: Seq<Seq<char>>, expected: Seq<char>) -> bool
    decreases lines.len(),
{
    if lines.len() == 0 {
        false
    } else {
        let l = trim_end(lines[0]);
        if l.len() == 0 {
            false
        } else if header_grants(l, expected) {
            true
        } else {
            headers_grant(lines.drop_first(), expected)
        }
    }
}

/// A request is let through when a token is configured and the request
/// carries it: as `?token=` / `?t=` or in a header.
pub open spec fn spec_token_authorized(req: Seq<char>, query: Seq<char>, expected: Seq<char>) -> bool {
    expected.len() > 0 && (spec_query_param(query, "token"@) == Some(expected) || spec_query_param(
        query,
        "t"@,
    ) == Some(expected) || headers_grant(split_lines(req).skip(1), expected))
}

/// Path and query the browser asks for when it opens the pairing link.
pub open spec fn web_pair_target(id: Seq<char>, token: Seq<char>) -> Seq<char> {
    "/?id="@ + spec_url_encode(str_bytes(trim(id)), false) + "&token="@ + spec_url_encode(
        str_bytes(trim(token)),
        false,
    )
}

/// Percent-encoded text holds no `&` and no `=`, so it stays one query value.
pub proof fn lemma_url_encode_no_separators(b: Seq<u8>, plus_space: bool)
    ensures
        forall|i: int|
            0 <= i < spec_url_encode(b, plus_space).len() ==> #[trigger] spec_url_encode(
                b,
                plus_space,
            )[i] != '&' && spec_url_encode(b, plus_space)[i] != '=',
    decreases b.len(),
{
    if b.len() > 0 {
        let p = spec_url_encode(b.drop_last(), plus_space);
        let e = spec_url_encode(b, plus_space);
        lemma_url_encode_no_separators(b.drop_last(), plus_space);
        let x = b.last();
        if is_unreserved(x) {
            let c = x as char;
            assert(c as u32 == x as u32);
            assert(e == p.push(c));
        } else if !(plus_space && x == 32) {
            lemma_nibble_upper(x / 16);
            lemma_nibble_upper(x % 16);
            assert(e == p.push('%').push(nibble_upper(x / 16)).push(nibble_upper(x % 16)));
        }
        assert forall|i: int| 0 <= i < e.len() implies #[trigger] e[i] != '&' && e[i] != '=' by {
            if i < p.len() {
                assert(e[i] == p[i]);
            }
        }
    }
}

/// The browser pairing link is `http://host:port` followed by its request
/// target, and a request for that target is let through on the install's
/// (trimmed, non-empty) token, whatever headers it carries.
pub proof fn lemma_web_pairing_authorizes(
    host: Seq<char>,
    port: u16,
    id: Seq<char>,
    token: Seq<char>,
    req: Seq<char>,
)
    requires
        trim(token).len() > 0,
    ensures
        spec_web_pair_url(host, port, id, token) == "http://"@ + trim(host) + ":"@ + dec(
            port as nat,
        ) + web_pair_target(id, token),
        spec_token_authorized(
            req,
            spec_split_path_query(web_pair_target(id, token)).1,
            trim(token),
        ),
{
    reveal_strlit("/?id=");
    reveal_strlit("&token=");
    reveal_strlit("token");
    reveal_strlit("token=");
    reveal_strlit("id=");
    reveal_strlit("id");
    let ei = spec_url_encode(str_bytes(trim(id)), false);
    let et = spec_url_encode(str_bytes(trim(token)), false);
    lemma_url_encode_no_separators(str_bytes(trim(id)), false);
    lemma_url_encode_no_separators(str_bytes(trim(token)), false);
    assert(spec_web_pair_url(host, port, id, token) =~= "http://"@ + trim(host) + ":"@ + dec(
        port as nat,
    ) + web_pair_target(id, token));
    let t = web_pair_target(id, token);
    assert(t[0] == '/' && t[1] == '?');
    crate::text::lemma_first_index(t, '?', 1);
    assert(t.contains('?'));
    let q = t.skip(2);
    assert(spec_split_path_query(t).1 == q);
    assert(q =~= "id="@ + ei + "&token="@ + et);
    let k: int = 3 + ei.len() as int;
    assert(q[k] == '&');
    assert forall|j: int| 0 <= j < k implies q[j] != '&' by {
        if j >= 3 {
            assert(q[j] == ei[j - 3]);
        }
    }
    crate::text::lemma_first_index(q, '&', k);
    let part = q.take(k);
    assert(part =~= "id="@ + ei);
    assert(part[2] == '=');
    crate::text::lemma_first_index(part, '=', 2);
    assert(part_key(part) =~= "id"@);
    assert(part_key(part) != "token"@);
    let rest = q.skip(k + 1);
    assert(rest =~= "token="@ + et);
    assert forall|j: int| 0 <= j < rest.len() implies rest[j] != '&' by {
        if j >= 6 {
            assert(rest[j] == et[j - 6]);
        }
    }
    assert(!rest.contains('&'));
    assert(rest[5] == '=');
    crate::text::lemma_first_index(rest, '=', 5);
    assert(part_key(rest) =~= "token"@);
    assert(part_value(rest) =~= et);
    assert(query_raw(rest, "token"@) == Some(et));
    assert(q.contains('&'));
    assert(q.skip(k + 1) == rest);
    assert(query_raw(q, "token"@) == Some(et));
    lemma_url_roundtrip(str_bytes(trim(token)), false);
    vstd::utf8::encode_utf8_valid_utf8(trim(token));
    vstd::utf8::encode_utf8_decode_utf8(trim(token));
    assert(spec_query_param(q, "token"@) == Some(trim(token)));
}

/// `key=v`, then `&` and the parts `more` when there are more.
pub open spec fn query_part(key: Seq<char>, v: Seq<char>, more: Option<Seq<char>>) -> Seq<char> {
    key + "="@ + v + match more {
        Some(r) => "&"@ + r,
        None => Seq::empty(),
    }
}

proof fn lemma_query_raw_part(key: Seq<char>, v: Seq<char>, more: Option<Seq<char>>, want: Seq<char>)
    requires
        forall|j: int| 0 <= j < key.len() ==> key[j] != '&' && key[j] != '=',
        forall|j: int| 0 <= j < v.len() ==> v[j] != '&',
    ensures
        query_raw(query_part(key, v, more), want) == if key == want {
            Some(v)
        } else {
            match more {
                Some(r) => query_raw(r, want),
                None => None,
            }
        },
{
    reveal_strlit("=");
    reveal_strlit("&");
    let q = query_part(key, v, more);
    let part = key + "="@ + v;
    let k = part.len() as int;
    assert(part[key.len() as int] == '=');
    assert forall|j: int| 0 <= j < key.len() implies part[j] != '=' by {
        assert(part[j] == key[j]);
    }
    crate::text::lemma_first_index(part, '=', key.len() as int);
    assert(part.contains('='));
    assert(part_key(part) =~= key);
    assert(part_value(part) =~= v);
    assert forall|j: int| 0 <= j < k implies q[j] != '&' by {
        assert(q[j] == part[j]);
        if j > key.len() {
            assert(part[j] == v[j - key.len() - 1]);
        } else if j < key.len() {
            assert(part[j] == key[j]);
        }
    }
    match more {
        Some(r) => {
            assert(q =~= part + "&"@ + r);
            assert(q[k] == '&');
            crate::text::lemma_first_index(q, '&', k);
            assert(q.contains('&'));
            assert(q.take(k) =~= part);
            assert(q.skip(k + 1) =~= r);
        },
        None => {
            assert(q =~= part);
            assert(!q.contains('&'));
        },
    }
}

/// Decimal digits are left as they are by percent-encoding.
proof fn lemma_dec_url_plain(n: nat)
    ensures
        spec_url_encode(str_bytes(dec(n)), false) == dec(n),
    decreases n,
{
    let d: nat = if n < 10 { n } else { n % 10 };
    let prefix = if n < 10 { Seq::<char>::empty() } else { dec(n / 10) };
    if n >= 10 {
        lemma_dec_url_plain(n / 10);
    }
    let c = crate::text::digit(d);
    assert(dec(n) =~= prefix.push(c));
    assert((c as u32) == 48 + d);
    crate::text::lemma_utf8_push_ascii(prefix, c);
    let b = str_bytes(prefix).push((c as u32) as u8);
    assert(str_bytes(dec(n)) == b);
    assert(b.drop_last() =~= str_bytes(prefix));
    assert(is_unreserved(b.last()));
    assert((b.last() as char) == c);
    if n < 10 {
        assert(str_bytes(prefix) =~= Seq::<u8>::empty()) by {
            assert(vstd::utf8::encode_utf8(Seq::<char>::empty()) =~= Seq::<u8>::empty());
        }
    }
    assert(spec_url_encode(str_bytes(prefix), false) == prefix);
}

proof fn lemma_decode_encoded(s: Seq<char>)
    ensures
        spec_url_decode(spec_url_encode(str_bytes(s), false)) == s,
{
    lemma_url_roundtrip(str_bytes(s), false);
    vstd::utf8::encode_utf8_valid_utf8(s);
    vstd::utf8::encode_utf8_decode_utf8(s);
}

/// The query of the app pairing link reads back what it was written from:
/// the trimmed host, the port, the trimmed install id and the trimmed token.
pub proof fn lemma_pair_url_fields(host: Seq<char>, port: u16, id: Seq<char>, token: Seq<char>)
    ensures
        ({
            let q = spec_split_path_query(spec_pair_url(host, port, id, token)).1;
            &&& spec_query_param(q, "host"@) == Some(trim(host))
            &&& spec_query_param(q, "port"@) == Some(dec(port as nat))
            &&& spec_query_param(q, "id"@) == Some(trim(id))
            &&& spec_query_param(q, "token"@) == Some(trim(token))
        }),
{
    reveal_strlit("njordrseas://cyd-monitor/v1?host=");
    reveal_strlit("&port=");
    reveal_strlit("&id=");
    reveal_strlit("&token=");
    reveal_strlit("host");
    reveal_strlit("port");
    reveal_strlit("id");
    reveal_strlit("token");
    reveal_strlit("=");
    reveal_strlit("&");
    let eh = spec_url_encode(str_bytes(trim(host)), false);
    let ei = spec_url_encode(str_bytes(trim(id)), false);
    let et = spec_url_encode(str_bytes(trim(token)), false);
    let dp = dec(port as nat);
    lemma_url_encode_no_separators(str_bytes(trim(host)), false);
    lemma_url_encode_no_separators(str_bytes(trim(id)), false);
    lemma_url_encode_no_separators(str_bytes(trim(token)), false);
    lemma_dec_url_plain(port as nat);
    lemma_url_encode_no_separators(str_bytes(dp), false);
    let u = spec_pair_url(host, port, id, token);
    let pre: int = 27;
    assert(u[pre] == '?');
    assert forall|j: int| 0 <= j < pre implies u[j] != '?' by {}
    crate::text::lemma_first_index(u, '?', pre);
    assert(u.contains('?'));
    let q = spec_split_path_query(u).1;
    let q4 = query_part("token"@, et, None);
    let q3 = query_part("id"@, ei, Some(q4));
    let q2 = query_part("port"@, dp, Some(q3));
    let q1 = query_part("host"@, eh, Some(q2));
    assert(q =~= q1);
    lemma_query_raw_part("host"@, eh, Some(q2), "host"@);
    lemma_query_raw_part("host"@, eh, Some(q2), "port"@);
    lemma_query_raw_part("host"@, eh, Some(q2), "id"@);
    lemma_query_raw_part("host"@, eh, Some(q2), "token"@);
    lemma_query_raw_part("port"@, dp, Some(q3), "port"@);
    lemma_query_raw_part("port"@, dp, Some(q3), "id"@);
    lemma_query_raw_part("port"@, dp, Some(q3), "token"@);
    lemma_query_raw_part("id"@, ei, Some(q4), "id"@);
    lemma_query_raw_part("id"@, ei, Some(q4), "token"@);
    lemma_query_raw_part("token"@, et, None, "token"@);
    lemma_decode_encoded(trim(host));
    lemma_decode_encoded(trim(id));
    lemma_decode_encoded(trim(token));
    lemma_decode_encoded(dp);
}

/// The path a request asks for: the second word of its first line, up to `?`
/// (`/` when the line has no second word).
pub open spec fn request_path(req: Seq<char>) -> Seq<char> {
    let target = match crate::text::nth_word(split_lines(req)[0], 1) {
        Some(w) => w,
        None => "/"@,
    };
    if target.contains('?') {
        target.take(first_index(target, '?'))
    } else {
        target
    }
}

/// The phone page is public: a request for `/`, or for a path under `/index`
/// or `/monitor`, gets the page whatever token it carries; a path that is
/// none of these nor under `/api/status` is not found.
pub proof fn lemma_page_paths(req: Seq<char>, token: Seq<char>)
    ensures
        ({
            let p = request_path(req);
            &&& (p == "/"@ || starts_with(p, "/index"@) || starts_with(p, "/monitor"@)) && !starts_with(
                p,
                "/api/status"@,
            ) ==> spec_route(req, token) == Route::Page
            &&& !(p == "/"@ || starts_with(p, "/index"@) || starts_with(p, "/monitor"@) || starts_with(
                p,
                "/api/status"@,
            )) ==> spec_route(req, token) == Route::NotFound
        }),
{
}

/// The status API is token-gated: a request under `/api/status` gets the
/// status exactly when its token is let through, and 401 otherwise.
pub proof fn lemma_status_gate(req: Seq<char>, token: Seq<char>)
    ensures
        ({
            let target = match crate::text::nth_word(split_lines(req)[0], 1) {
                Some(w) => w,
                None => "/"@,
            };
            let query = spec_split_path_query(target).1;
            starts_with(request_path(req), "/api/status"@) ==> spec_route(req, token) == if spec_token_authorized(
                req,
                query,
                token,
            ) {
                Route::Status
            } else {
                Route::Unauthorized
            }
        }),
{
}

fn header_line_grants(line: &[char], expected: &[char]) -> (r: bool)
    ensures
        r == header_grants(line@, expected@),
{
    let i = match first_index_of(line, ':') {
        Some(i) => i,
        None => {
            return false;
        },
    };
    let name = lower_chars(sub_chars(line, 0, i).as_slice());
    let n = line.len();
    let value = trim_chars(sub_chars(line, i + 1, n).as_slice());
    let auth = chars_of("authorization");
    let xtok = chars_of("x-cyd-token");
    if chars_eq(name.as_slice(), auth.as_slice()) {
        let b1 = chars_of("Bearer ");
        let b2 = chars_of("bearer ");
        let tok: Vec<char> = if has_prefix(value.as_slice(), b1.as_slice()) || has_prefix(
            value.as_slice(),
            b2.as_slice(),
        ) {
            proof {
                reveal_strlit("Bearer ");
                reveal_strlit("bearer ");
            }
            sub_chars(value.as_slice(), 7, value.len())
        } else {
            Vec::new()
        };
        let t = trim_chars(tok.as_slice());
        if chars_eq(t.as_slice(), expected) {
            return true;
        }
    }
    if chars_eq(name.as_slice(), xtok.as_slice()) && chars_eq(value.as_slice(), expected) {
        return true;
    }
    proof {
        reveal_strlit("authorization");
        reveal_strlit("x-cyd-token");
    }
    false
}

/// One step over the header lines: the first line, and what follows it.
pub fn first_line(s: &[char]) -> (r: (Vec<char>, Option<Vec<char>>))
    ensures
        split_lines(s@).len() > 0,
        r.0@ == split_lines(s@)[0],
        match r.1 {
            Some(tail) => split_lines(s@).drop_first() == split_lines(tail@) && tail@.len() < s@.len(),
            None => split_lines(s@).drop_first().len() == 0,
        },
{
    proof {
        crate::text::lemma_first_index_bound(s@, '\n');
    }
    match first_index_of(s, '\n') {
        Some(i) => {
            let n = s.len();
            let piece = sub_chars(s, 0, i);
            let tail = sub_chars(s, i + 1, n);
            assert(split_lines(s@) == seq![s@.take(i as int)] + split_lines(s@.skip(i + 1)));
            assert(split_lines(s@).drop_first() =~= split_lines(s@.skip(i + 1)));
            assert(tail@ =~= s@.skip(i + 1));
            assert(piece@ =~= s@.take(i as int));
            (piece, Some(tail))
        },
        None => {
            assert(s@.take(s@.len() as int) =~= s@);
            assert(split_lines(s@).drop_first() =~= Seq::<Seq<char>>::empty());
            (sub_chars(s, 0, s.len()), None)
        },
    }
}

fn headers_grant_from(s: &[char], expected: &[char]) -> (r: bool)
    ensures
        r == headers_grant(split_lines(s@), expected@),
{
    let mut cur: Vec<char> = sub_chars(s, 0, s.len());
    assert(cur@ =~= s@);
    loop
        invariant
            headers_grant(split_lines(s@), expected@) == headers_grant(
                split_lines(cur@),
                expected@,
            ),
        decreases cur@.len(),
    {
        let (piece, rest) = first_line(cur.as_slice());
        let l = trim_end_chars(piece.as_slice());
        if l.len() == 0 {
            return false;
        }
        if header_line_grants(l.as_slice(), expected) {
            return true;
        }
        match rest {
            Some(tail) => {
                cur = tail;
            },
            None => {
                proof {
                    let lines = split_lines(cur@);
                    assert(headers_grant(lines, expected@) == headers_grant(
                        lines.drop_first(),
                        expected@,
                    ));
                    assert(headers_grant(lines.drop_first(), expected@) == false);
                }
                return false;
            },
        }
    }
}

fn string_is(s: &String, expected: &[char]) -> (r: bool)
    ensures
        r == (s@ == expected@),
{
    let c = chars_of(s.as_str());
    chars_eq(c.as_slice(), expected)
}

pub fn token_authorized(req: &str, query: &str, expected: &str) -> (r: bool)
    ensures
        r == spec_token_authorized(req@, query@, expected@),
{
    let exp = chars_of(expected);
    if exp.len() == 0 {
        return false;
    }
    match query_param(query, "token") {
        Some(v) => {
            if string_is(&v, exp.as_slice()) {
                return true;
            }
        },
        None => {},
    }
    match query_param(query, "t") {
        Some(v) => {
            if string_is(&v, exp.as_slice()) {
                return true;
            }
        },
        None => {},
    }
    let cs = chars_of(req);
    match first_index_of(cs.as_slice(), '\n') {
        Some(i) => {
            let n = cs.len();
            let rest = sub_chars(cs.as_slice(), i + 1, n);
            assert(split_lines(cs@).skip(1) =~= split_lines(rest@));
            headers_grant_from(rest.as_slice(), exp.as_slice())
        },
        None => {
            assert(split_lines(cs@).skip(1).len() == 0);
            false
        },
    }
}

// ----- the host a phone connects to -----

/// `s` with every leading copy of `p` removed.
pub open spec fn strip_all(s: Seq<char>, p: Seq<char>) -> Seq<char>
    decreases s.len(),
{
    if p.len() > 0 && starts_with(s, p) {
        strip_all(s.skip(p.len() as int), p)
    } else {
        s
    }
}

/// The part of `s` before the first `c` (all of `s` without one).
pub open spec fn before_char(s: Seq<char>, c: char) -> Seq<char> {
    if s.contains(c) {
        s.take(first_index(s, c))
    } else {
        s
    }
}

/// The host of a user-given public address: scheme, path and port dropped.
pub open spec fn spec_public_host(o: Seq<char>) -> Seq<char> {
    before_char(before_char(strip_all(strip_all(trim(o), "http://"@), "https://"@), '/'), ':')
}

/// The host put in pairing links: the user's public address when set, else
/// the LAN address found earlier; `None` leaves the choice to a fresh lookup.
pub open spec fn spec_monitor_host(public: Seq<char>, lan_ip: Seq<char>) -> Option<Seq<char>> {
    if trim(public).len() > 0 {
        Some(spec_public_host(public))
    } else if lan_ip.len() > 0 {
        Some(lan_ip)
    } else {
        None
    }
}

fn strip_all_of(s: Vec<char>, p: &str) -> (r: Vec<char>)
    ensures
        r@ == strip_all(s@, p@),
    decreases s@.len(),
{
    let pc = chars_of(p);
    if pc.len() > 0 && has_prefix(s.as_slice(), pc.as_slice()) {
        let rest = sub_chars(s.as_slice(), pc.len(), s.len());
        assert(rest@ =~= s@.skip(p@.len() as int));
        strip_all_of(rest, p)
    } else {
        s
    }
}

fn before_char_of(s: &[char], c: char) -> (r: Vec<char>)
    ensures
        r@ == before_char(s@, c),
{
    match first_index_of(s, c) {
        Some(i) => sub_chars(s, 0, i),
        None => {
            let r = sub_chars(s, 0, s.len());
            assert(r@ =~= s@);
            r
        },
    }
}

pub fn monitor_host(public: &str, lan_ip: &str) -> (r: Option<String>)
    ensures
        match r {
            Some(h) => spec_monitor_host(public@, lan_ip@) == Some(h@),
            None => spec_monitor_host(public@, lan_ip@) is None,
        },
{
    let t = trimmed(public);
    if t.len() > 0 {
        let a = strip_all_of(t, "http://");
        let b = strip_all_of(a, "https://");
        let c = before_char_of(b.as_slice(), '/');
        let d = before_char_of(c.as_slice(), ':');
        Some(string_of(d.as_slice()))
    } else {
        let l = chars_of(lan_ip);
        if l.len() > 0 {
            Some(string_of(l.as_slice()))
        } else {
            None
        }
    }
}

// ----- routing -----

/// What the monitor answers a request with.
#[derive(Debug, Clone, Copy, PartialEq, Eq, Structural)]
pub enum Route {
    /// 200 with the JSON snapshot.
    Status,
    /// 401: `/api/status` without the personal token.
    Unauthorized,
    /// 200 with the phone web page.
    Page,
    /// 404.
    NotFound,
}

/// The routing decision for a raw request and the expected token.
pub open spec fn spec_route(req: Seq<char>, token: Seq<char>) -> Route {
    let first = split_lines(req)[0];
    let pq = match crate::text::nth_word(first, 1) {
        Some(w) => w,
        None => "/"@,
    };
    let (path, query) = spec_split_path_query(pq);
    if starts_with(path, "/api/status"@) {
        if spec_token_authorized(req, query, token) {
            Route::Status
        } else {
            Route::Unauthorized
        }
    } else if path == "/"@ || starts_with(path, "/index"@) || starts_with(path, "/monitor"@) {
        Route::Page
    } else {
        Route::NotFound
    }
}

fn prefix_is(s: &[char], p: &str) -> (r: bool)
    ensures
        r == starts_with(s@, p@),
{
    let pc = chars_of(p);
    has_prefix(s, pc.as_slice())
}

/// Decides the reply to a request: the status API is token-gated, the web
/// shell is public, everything else is not found.
pub fn route_request(req: &str, token: &str) -> (r: Route)
    ensures
        r == spec_route(req@, token@),
{
    let cs = chars_of(req);
    let (line, _rest) = first_line(cs.as_slice());
    let pq: Vec<char> = match crate::text::nth_word_of(line.as_slice(), 1) {
        Some(w) => w,
        None => chars_of("/"),
    };
    let pqs = string_of(pq.as_slice());
    let (path, query) = split_path_query(pqs.as_str());
    let pc = chars_of(path.as_str());
    if prefix_is(pc.as_slice(), "/api/status") {
        if token_authorized(req, query.as_str(), token) {
            Route::Status
        } else {
            Route::Unauthorized
        }
    } else if chars_eq(pc.as_slice(), chars_of("/").as_slice()) || prefix_is(pc.as_slice(), "/index")
        || prefix_is(pc.as_slice(), "/monitor") {
        Route::Page
    } else {
        Route::NotFound
    }
}

/// HTTP status code of a route.
pub open spec fn route_code(r: Route) -> u16 {
    match r {
        Route::Status => 200,
        Route::Unauthorized => 401,
        Route::Page => 200,
        Route::NotFound => 404,
    }
}

pub fn status_code(r: Route) -> (c: u16)
    ensures
        c == route_code(r),
{
    match r {
        Route::Status => 200,
        Route::Unauthorized => 401,
        Route::Page => 200,
        Route::NotFound => 404,
    }
}

pub open spec fn reason_phrase(code: u16) -> Seq<char> {
    if code == 200 {
        "OK"@
    } else if code == 401 {
        "Unauthorized"@
    } else if code == 404 {
        "Not Found"@
    } else {
        "Error"@
    }
}

/// The response head the monitor sends before a body of `len` bytes.
pub open spec fn spec_response_head(code: u16, ctype: Seq<char>, len: nat) -> Seq<char> {
    "HTTP/1.1 "@ + dec(code as nat) + " "@ + reason_phrase(code) + "\r\nContent-Type: "@ + ctype
        + "\r\nContent-Length: "@ + dec(len) + "\r\nAccess-Control-Allow-Origin: *\r\n"@
        + "Access-Control-Allow-Headers: Authorization, X-Cyd-Token, Content-Type\r\n"@
        + "Cache-Control: no-store\r\nConnection: close\r\n\r\n"@
}

pub fn response_head(code: u16, ctype: &str, len: usize) -> (r: String)
    ensures
        r@ == spec_response_head(code, ctype@, len as nat),
{
    let reason = if code == 200 {
        "OK"
    } else if code == 401 {
        "Unauthorized"
    } else if code == 404 {
        "Not Found"
    } else {
        "Error"
    };
    let mut out: Vec<char> = Vec::new();
    extend_str(&mut out, "HTTP/1.1 ");
    push_dec(&mut out, code as u64);
    extend_str(&mut out, " ");
    extend_str(&mut out, reason);
    extend_str(&mut out, "\r\nContent-Type: ");
    extend_str(&mut out, ctype);
    extend_str(&mut out, "\r\nContent-Length: ");
    push_dec(&mut out, len as u64);
    extend_str(&mut out, "\r\nAccess-Control-Allow-Origin: *\r\n");
    extend_str(&mut out, "Access-Control-Allow-Headers: Authorization, X-Cyd-Token, Content-Type\r\n");
    extend_str(&mut out, "Cache-Control: no-store\r\nConnection: close\r\n\r\n");
    string_of(out.as_slice())
}

// ----- pairing secrets and the QR matrix -----

/// `n` bytes from the thread-local generator of the `rand` crate
/// (`thread_rng().fill_bytes`). Only the length is promised: the bytes are random.
#[verifier::external_body]
fn random_bytes(n: usize) -> (r: Vec<u8>)
    ensures
        r@.len() == n,
{
    let mut b = vec![0u8; n];
    rand::RngCore::fill_bytes(&mut rand::thread_rng(), &mut b);
    b
}

/// Short public install id (8 hex chars): the hex text of 4 random bytes.
pub fn generate_install_id() -> (r: String)
    ensures
        exists|b: Seq<u8>| b.len() == 4 && r@ == spec_hex_lower(b),
{
    let b = random_bytes(4);
    hex_lower(b.as_slice())
}

/// Secret pairing token (32 hex chars / 128-bit): the hex text of 16 random bytes.
pub fn generate_token() -> (r: String)
    ensures
        exists|b: Seq<u8>| b.len() == 16 && r@ == spec_hex_lower(b),
{
    let b = random_bytes(16);
    hex_lower(b.as_slice())
}

/// The module matrix of the QR code the `qrcode` crate makes for `data`
/// (error correction M): its width and its modules row by row, `true` for dark;
/// `None` when the data does not fit.
pub uninterp spec fn qr_matrix(data: Seq<u8>) -> Option<(usize, Seq<bool>)>;

/// `QrCode::new` of the `qrcode` crate, its `width` and its row-major module
/// colours (`to_colors`), dark as `true`. The crate builds `width * width`
/// modules, a standard code is at least 21 modules wide, and the top-left
/// module is the dark corner of the finder pattern the canvas draws at (3, 3)
/// (written as a masked module, which masking leaves alone).
#[verifier::external_body]
fn qr_encode(data: &[u8]) -> (r: Option<(usize, Vec<bool>)>)
    ensures
        match r {
            Some((w, cells)) => {
                &&& qr_matrix(data@) == Some((w, cells@))
                &&& cells@.len() == w * w
                &&& w >= 21
                &&& cells@[0]
            },
            None => qr_matrix(data@) is None,
        },
{
    qrcode::QrCode::new(data).ok().map(
        |code| (code.width(), code.to_colors().into_iter().map(|c| c == qrcode::Color::Dark).collect())
    )
}

/// QR module matrix (true = dark), `None` on encode failure.
pub fn qr_modules(data: &str) -> (r: Option<(usize, Vec<bool>)>)
    ensures
        match r {
            Some((w, cells)) => {
                &&& qr_matrix(str_bytes(data@)) == Some((w, cells@))
                &&& cells@.len() == w * w
                &&& w >= 21
                &&& cells@[0]
            },
            None => qr_matrix(str_bytes(data@)) is None,
        },
{
    qr_encode(data.as_bytes())
}

} // verus!
