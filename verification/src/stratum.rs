//! Bitcoin SHA-256 stratum: the pool session state machine, block-header
//! building for the board, and local share checks.

use vstd::prelude::*;
use crate::codec::{
    dsha256, hex_encode, hex_fixed, hex_decode, spec_dsha256, spec_hex_decode, spec_hex_fixed,
    spec_hex_lower, spec_url_encode, str_bytes, url_encode_bytes,
};
use crate::target::{hash_meets_target, meets_target};
use crate::text::{
    chars_of, first_index, first_index_of, has_prefix, last_index, last_index_of, lower_chars,
    lower_seq, parse_u16, is_hex, is_hex_digit, extend_str, spec_parse_u16, starts_with, string_of, sub_chars, trim, trimmed,
};

verus! {

/// A block-header job ready for the board.
#[derive(Clone, Debug)]
pub struct WorkJob {
    pub job_id: String,
    pub header: [u8; 80],
    pub target: [u8; 32],
    pub extranonce2_hex: String,
    pub ntime_hex: String,
}

// ----- byte order -----

/// Reverses the first 4-byte word (when there is one).
pub open spec fn spec_swab32(s: Seq<u8>) -> Seq<u8> {
    if s.len() >= 4 {
        s.update(0, s[3]).update(1, s[2]).update(2, s[1]).update(3, s[0])
    } else {
        s
    }
}

/// Index that byte `j` of the first 32 bytes takes when each 4-byte word is reversed.
pub open spec fn swab_index(j: int) -> int {
    j - j % 4 + (3 - j % 4)
}

/// Reverses each of the first eight 4-byte words.
pub open spec fn spec_swab256(s: Seq<u8>) -> Seq<u8> {
    Seq::new(s.len(), |j: int| if j < 32 { s[swab_index(j)] } else { s[j] })
}

/// Stratum sends words in getwork order; the board hashes wire order.
pub fn swab32_bytes(b: &mut [u8])
    ensures
        final(b)@ == spec_swab32(old(b)@),
{
    if b.len() >= 4 {
        let b0 = b[0];
        let b1 = b[1];
        let b2 = b[2];
        let b3 = b[3];
        b[0] = b3;
        b[1] = b2;
        b[2] = b1;
        b[3] = b0;
    }
}

pub fn swab256(hash: &mut [u8])
    requires
        old(hash)@.len() >= 32,
    ensures
        final(hash)@ == spec_swab256(old(hash)@),
{
    let ghost orig = hash@;
    let mut w: usize = 0;
    while w < 8
        invariant
            w <= 8,
            hash@.len() == orig.len(),
            orig.len() >= 32,
            forall|j: int| 0 <= j < 4 * w ==> #[trigger] hash@[j] == orig[swab_index(j)],
            forall|j: int| 4 * w <= j < orig.len() ==> #[trigger] hash@[j] == orig[j],
        decreases 8 - w,
    {
        let i = 4 * w;
        let b0 = hash[i];
        let b1 = hash[i + 1];
        let b2 = hash[i + 2];
        let b3 = hash[i + 3];
        hash[i] = b3;
        hash[i + 1] = b2;
        hash[i + 2] = b1;
        hash[i + 3] = b0;
        assert(swab_index(i as int) == i + 3);
        assert(swab_index(i + 1) == i + 2);
        assert(swab_index(i + 2) == i + 1);
        assert(swab_index(i + 3) == i as int);
        w = w + 1;
    }
    assert(hash@ =~= spec_swab256(orig));
}

/// Reversing every word twice gives the bytes back.
pub proof fn lemma_swab256_involution(s: Seq<u8>)
    requires
        s.len() >= 32,
    ensures
        spec_swab256(spec_swab256(s)) == s,
{
    assert forall|j: int| 0 <= j < 32 implies swab_index(swab_index(j)) == j && 0 <= swab_index(j)
        < 32 by {}
    assert(spec_swab256(spec_swab256(s)) =~= s);
}

pub proof fn lemma_swab32_involution(s: Seq<u8>)
    ensures
        spec_swab32(spec_swab32(s)) == s,
{
    assert(spec_swab32(spec_swab32(s)) =~= s);
}

// ----- job commands for the board -----

/// URL-style encoding for `cmp` arguments (space becomes `+`).
pub fn urlenc(s: &str) -> (r: String)
    ensures
        r@ == spec_url_encode(str_bytes(s@), true),
{
    url_encode_bytes(s.as_bytes(), true)
}

/// `cmp job header=…&target=…&job=…&en2=…&ntime=…`.
pub open spec fn spec_job_cmd(job: WorkJob) -> Seq<char> {
    "cmp job header="@ + spec_hex_lower(job.header@) + "&target="@ + spec_hex_lower(job.target@)
        + "&job="@ + spec_url_encode(str_bytes(job.job_id@), true) + "&en2="@ + spec_url_encode(
        str_bytes(job.extranonce2_hex@),
        true,
    ) + "&ntime="@ + spec_url_encode(str_bytes(job.ntime_hex@), true)
}

/// The three short `cmp jh` / `cmp jt` / `cmp ja` commands of a job.
pub open spec fn spec_job_parts(job: WorkJob) -> Seq<Seq<char>> {
    seq![
        "cmp jh "@ + spec_hex_lower(job.header@),
        "cmp jt "@ + spec_hex_lower(job.target@),
        "cmp ja job="@ + spec_url_encode(str_bytes(job.job_id@), true) + "&en2="@
            + spec_url_encode(str_bytes(job.extranonce2_hex@), true) + "&ntime="@
            + spec_url_encode(str_bytes(job.ntime_hex@), true),
    ]
}

fn concat_strs(parts: &[&str]) -> (r: String)
    ensures
        r@ == parts@.fold_left(Seq::<char>::empty(), |acc: Seq<char>, p: &str| acc + p@),
{
    let mut out: Vec<char> = Vec::new();
    let mut i: usize = 0;
    while i < parts.len()
        invariant
            i <= parts@.len(),
            out@ == parts@.take(i as int).fold_left(
                Seq::<char>::empty(),
                |acc: Seq<char>, p: &str| acc + p@,
            ),
        decreases parts@.len() - i,
    {
        crate::text::extend_str(&mut out, parts[i]);
        assert(parts@.take(i + 1).drop_last() =~= parts@.take(i as int));
        i = i + 1;
    }
    assert(parts@.take(parts@.len() as int) =~= parts@);
    crate::text::string_of(out.as_slice())
}

/// Legacy one-shot job command (kept for older firmware).
pub fn encode_job_cmd(job: &WorkJob) -> (r: String)
    ensures
        r@ == spec_job_cmd(*job),
{
    let h = hex_encode(job.header.as_slice());
    let t = hex_encode(job.target.as_slice());
    let j = urlenc(job.job_id.as_str());
    let e = urlenc(job.extranonce2_hex.as_str());
    let n = urlenc(job.ntime_hex.as_str());
    let parts = [
        "cmp job header=",
        h.as_str(),
        "&target=",
        t.as_str(),
        "&job=",
        j.as_str(),
        "&en2=",
        e.as_str(),
        "&ntime=",
        n.as_str(),
    ];
    let r = concat_strs(parts.as_slice());
    proof {
        reveal_with_fuel(Seq::fold_left, 11);
    }
    r
}

/// Short multi-part job commands — survives 115200 USB under hash load.
pub fn encode_job_parts(job: &WorkJob) -> (r: [String; 3])
    ensures
        r[0]@ == spec_job_parts(*job)[0],
        r[1]@ == spec_job_parts(*job)[1],
        r[2]@ == spec_job_parts(*job)[2],
{
    let h = hex_encode(job.header.as_slice());
    let t = hex_encode(job.target.as_slice());
    let j = urlenc(job.job_id.as_str());
    let e = urlenc(job.extranonce2_hex.as_str());
    let n = urlenc(job.ntime_hex.as_str());
    let p0 = concat_strs(["cmp jh ", h.as_str()].as_slice());
    let p1 = concat_strs(["cmp jt ", t.as_str()].as_slice());
    let p2 = concat_strs(
        ["cmp ja job=", j.as_str(), "&en2=", e.as_str(), "&ntime=", n.as_str()].as_slice(),
    );
    proof {
        reveal_with_fuel(Seq::fold_left, 7);
    }
    [p0, p1, p2]
}

// ----- pool endpoints -----

/// A stratum URL with its scheme removed; `stratum+ssl://` is refused.
/// Schemes match case-insensitively.
pub open spec fn strip_scheme(s: Seq<char>) -> Result<Seq<char>, Seq<char>> {
    let l = lower_seq(s);
    if starts_with(l, "stratum+ssl://"@) {
        Err("SSL stratum not supported"@)
    } else if starts_with(l, "stratum+tcp://"@) {
        Ok(s.skip(14))
    } else if starts_with(l, "stratum://"@) {
        Ok(s.skip(10))
    } else if starts_with(l, "tcp://"@) {
        Ok(s.skip(6))
    } else {
        Ok(s)
    }
}

/// `s` up to (not including) its first `/`.
pub open spec fn before_slash(s: Seq<char>) -> Seq<char> {
    if s.contains('/') {
        s.take(first_index(s, '/'))
    } else {
        s
    }
}

/// `host:port` of a pool URL; the port defaults to 3333.
pub open spec fn spec_parse_endpoint(raw: Seq<char>) -> Result<(Seq<char>, u16), Seq<char>> {
    match strip_scheme(trim(raw)) {
        Err(e) => Err(e),
        Ok(s0) => {
            spec_host_port(before_slash(s0))
        },
    }
}

fn scheme_matches(l: &[char], pref: &str) -> (r: bool)
    ensures
        r == starts_with(l@, pref@),
{
    let p = chars_of(pref);
    has_prefix(l, p.as_slice())
}

fn strip_scheme_chars(t: Vec<char>) -> (r: Result<Vec<char>, String>)
    ensures
        r matches Ok(v) ==> strip_scheme(t@) == Ok::<Seq<char>, Seq<char>>(v@),
        r matches Err(e) ==> strip_scheme(t@) == Err::<Seq<char>, Seq<char>>(e@),
{
    let l = lower_chars(t.as_slice());
    if scheme_matches(l.as_slice(), "stratum+ssl://") {
        Err(string_of(chars_of("SSL stratum not supported").as_slice()))
    } else if scheme_matches(l.as_slice(), "stratum+tcp://") {
        proof {
            reveal_strlit("stratum+tcp://");
        }
        Ok(sub_chars(t.as_slice(), 14, t.len()))
    } else if scheme_matches(l.as_slice(), "stratum://") {
        proof {
            reveal_strlit("stratum://");
        }
        Ok(sub_chars(t.as_slice(), 10, t.len()))
    } else if scheme_matches(l.as_slice(), "tcp://") {
        proof {
            reveal_strlit("tcp://");
        }
        Ok(sub_chars(t.as_slice(), 6, t.len()))
    } else {
        Ok(t)
    }
}

/// The part after the scheme: `host[:port]`, defaults filled in.
pub open spec fn spec_host_port(s: Seq<char>) -> Result<(Seq<char>, u16), Seq<char>> {
    if s.contains(':') {
        let i = last_index(s, ':');
        let host = s.take(i);
        match spec_parse_u16(s.skip(i + 1)) {
            None => Err("bad port"@),
            Some(p) => if host.len() == 0 {
                Err("empty host"@)
            } else {
                Ok((host, p))
            },
        }
    } else {
        Ok((s, 3333u16))
    }
}

fn split_host_port(s: &[char]) -> (r: Result<(String, u16), String>)
    ensures
        r matches Ok((h, p)) ==> spec_host_port(s@) == Ok::<(Seq<char>, u16), Seq<char>>(
            (h@, p),
        ),
        r matches Err(e) ==> spec_host_port(s@) == Err::<(Seq<char>, u16), Seq<char>>(e@),
{
    match last_index_of(s, ':') {
        Some(i) => {
            let host = sub_chars(s, 0, i);
            let n = s.len();
            let rest = sub_chars(s, i + 1, n);
            assert(host@ =~= s@.take(i as int));
            assert(rest@ =~= s@.skip(i + 1));
            match parse_u16(rest.as_slice()) {
                None => Err(string_of(chars_of("bad port").as_slice())),
                Some(p) => {
                    if host.len() == 0 {
                        Err(string_of(chars_of("empty host").as_slice()))
                    } else {
                        Ok((string_of(host.as_slice()), p))
                    }
                },
            }
        },
        None => Ok((string_of(s), 3333)),
    }
}

pub fn parse_endpoint(raw: &str) -> (r: Result<(String, u16), String>)
    ensures
        r matches Ok((h, p)) ==> spec_parse_endpoint(raw@) == Ok::<(Seq<char>, u16), Seq<char>>(
            (h@, p),
        ),
        r matches Err(e) ==> spec_parse_endpoint(raw@) == Err::<(Seq<char>, u16), Seq<char>>(e@),
{
    let t = trimmed(raw);
    let s0 = match strip_scheme_chars(t) {
        Ok(v) => v,
        Err(e) => {
            return Err(e);
        },
    };
    let s = match first_index_of(s0.as_slice(), '/') {
        Some(i) => sub_chars(s0.as_slice(), 0, i),
        None => s0,
    };
    assert(s@ =~= before_slash(s0@));
    let r = split_host_port(s.as_slice());
    assert(spec_parse_endpoint(raw@) == spec_host_port(s@));
    r
}

// ----- local share check -----

/// Value of a hex digit char.
pub open spec fn hex_cval(c: char) -> u8 {
    if '0' <= c <= '9' {
        ((c as u32) - 48) as u8
    } else if 'a' <= c <= 'f' {
        ((c as u32) - 87) as u8
    } else {
        ((c as u32) - 55) as u8
    }
}

/// Eight hex digits, as cgminer prints a nonce (`%08x`).
pub open spec fn nonce_ok(n: Seq<char>) -> bool {
    n.len() == 8 && forall|i: int| 0 <= i < 8 ==> is_hex(#[trigger] n[i])
}

/// Byte `k` (big-endian) of the hex text `n`.
pub open spec fn hex_pair(n: Seq<char>, k: int) -> u8 {
    (hex_cval(n[2 * k]) * 16 + hex_cval(n[2 * k + 1])) as u8
}

/// The header with the nonce's little-endian bytes at offset 76.
pub open spec fn with_nonce(header: Seq<u8>, n: Seq<char>) -> Seq<u8> {
    header.update(76, hex_pair(n, 3)).update(77, hex_pair(n, 2)).update(78, hex_pair(n, 1)).update(
        79,
        hex_pair(n, 0),
    )
}

/// The local share check: the nonce must be eight hex digits and the double
/// SHA-256 of the header carrying it must meet the job's target.
pub open spec fn spec_verify_share(job: WorkJob, n: Seq<char>) -> Result<Seq<u8>, Seq<char>> {
    if !nonce_ok(n) {
        Err("bad nonce hex '"@ + n + "'"@)
    } else {
        let h = spec_dsha256(with_nonce(job.header@, n));
        if !meets_target(h, job.target@) {
            Err("hash "@ + spec_hex_lower(h.reverse()) + " does not meet share target"@)
        } else {
            Ok(h)
        }
    }
}

fn hex_char_value(c: char) -> (v: u8)
    requires
        is_hex(c),
    ensures
        v == hex_cval(c),
        v < 16,
{
    if '0' <= c && c <= '9' {
        (c as u32 - 48) as u8
    } else if 'a' <= c && c <= 'f' {
        (c as u32 - 87) as u8
    } else {
        (c as u32 - 55) as u8
    }
}

fn nonce_shape_ok(n: &[char]) -> (r: bool)
    ensures
        r == nonce_ok(n@),
{
    if n.len() != 8 {
        return false;
    }
    let mut i: usize = 0;
    while i < 8
        invariant
            i <= 8,
            n@.len() == 8,
            forall|j: int| 0 <= j < i ==> is_hex(#[trigger] n@[j]),
        decreases 8 - i,
    {
        if !is_hex_digit(n[i]) {
            return false;
        }
        i = i + 1;
    }
    true
}

fn reversed32(h: &[u8; 32]) -> (r: [u8; 32])
    ensures
        r@ == h@.reverse(),
{
    let mut out = [0u8; 32];
    let mut i: usize = 0;
    while i < 32
        invariant
            i <= 32,
            forall|j: int| 0 <= j < i ==> #[trigger] out@[j] == h@[31 - j],
        decreases 32 - i,
    {
        out[i] = h[31 - i];
        i = i + 1;
    }
    assert(out@ =~= h@.reverse());
    out
}

/// Local pre-check before pool submit. `nonce_hex` is cgminer stratum form (`%08x`).
pub(crate) fn check_share(job: &WorkJob, nonce_hex: &str) -> (r: Result<[u8; 32], String>)
    ensures
        r matches Ok(h) ==> spec_verify_share(*job, nonce_hex@) == Ok::<Seq<u8>, Seq<char>>(h@),
        r matches Err(e) ==> spec_verify_share(*job, nonce_hex@) == Err::<Seq<u8>, Seq<char>>(
            e@,
        ),
{
    let n = chars_of(nonce_hex);
    if !nonce_shape_ok(n.as_slice()) {
        let mut msg: Vec<char> = Vec::new();
        extend_str(&mut msg, "bad nonce hex '");
        extend_str(&mut msg, nonce_hex);
        extend_str(&mut msg, "'");
        return Err(string_of(msg.as_slice()));
    }
    let mut header = job.header;
    let b0 = hex_char_value(n[0]) * 16 + hex_char_value(n[1]);
    let b1 = hex_char_value(n[2]) * 16 + hex_char_value(n[3]);
    let b2 = hex_char_value(n[4]) * 16 + hex_char_value(n[5]);
    let b3 = hex_char_value(n[6]) * 16 + hex_char_value(n[7]);
    header[76] = b3;
    header[77] = b2;
    header[78] = b1;
    header[79] = b0;
    assert(header@ =~= with_nonce(job.header@, nonce_hex@));
    let hash = dsha256(header.as_slice());
    if !hash_meets_target(&hash, &job.target) {
        let disp = hex_encode(reversed32(&hash).as_slice());
        let mut msg: Vec<char> = Vec::new();
        extend_str(&mut msg, "hash ");
        extend_str(&mut msg, disp.as_str());
        extend_str(&mut msg, " does not meet share target");
        return Err(string_of(msg.as_slice()));
    }
    Ok(hash)
}

/// The number that hex text `n` spells (most significant digit first).
pub open spec fn hex_number(n: Seq<char>) -> nat
    decreases n.len(),
{
    if n.len() == 0 {
        0
    } else {
        hex_number(n.drop_last()) * 16 + hex_cval(n.last()) as nat
    }
}

/// `header` with bytes 76..80 replaced by the 32-bit number `v`, least
/// significant byte first.
pub open spec fn header_with_le_nonce(header: Seq<u8>, v: nat) -> Seq<u8> {
    header.subrange(0, 76) + seq![
        (v % 256) as u8,
        ((v / 256) % 256) as u8,
        ((v / 65536) % 256) as u8,
        ((v / 16777216) % 256) as u8,
    ]
}

proof fn lemma_hex_cval_small(c: char)
    requires
        is_hex(c),
    ensures
        hex_cval(c) < 16,
{
}

proof fn lemma_le_bytes(p0: int, p1: int, p2: int, p3: int)
    requires
        0 <= p0 < 256,
        0 <= p1 < 256,
        0 <= p2 < 256,
        0 <= p3 < 256,
    ensures
        ({
            let v = p0 * 16777216 + p1 * 65536 + p2 * 256 + p3;
            &&& v % 256 == p3
            &&& (v / 256) % 256 == p2
            &&& (v / 65536) % 256 == p1
            &&& (v / 16777216) % 256 == p0
        }),
{
    let v = p0 * 16777216 + p1 * 65536 + p2 * 256 + p3;
    assert(v % 256 == p3 && v / 256 == p0 * 65536 + p1 * 256 + p2) by (nonlinear_arith)
        requires
            v == p0 * 16777216 + p1 * 65536 + p2 * 256 + p3,
            0 <= p3 < 256,
            0 <= p0,
            0 <= p1,
            0 <= p2,
    ;
    assert((p0 * 65536 + p1 * 256 + p2) % 256 == p2 && (p0 * 65536 + p1 * 256 + p2) / 256 == p0 * 256 + p1)
        by (nonlinear_arith)
        requires
            0 <= p2 < 256,
            0 <= p0,
            0 <= p1,
    ;
    assert(v / 65536 == p0 * 256 + p1) by (nonlinear_arith)
        requires
            v == p0 * 16777216 + p1 * 65536 + p2 * 256 + p3,
            0 <= p2 < 256,
            0 <= p3 < 256,
            0 <= p0,
            0 <= p1,
    ;
    assert((p0 * 256 + p1) % 256 == p1) by (nonlinear_arith)
        requires
            0 <= p1 < 256,
            0 <= p0,
    ;
    assert(v / 16777216 == p0) by (nonlinear_arith)
        requires
            v == p0 * 16777216 + p1 * 65536 + p2 * 256 + p3,
            0 <= p1 < 256,
            0 <= p2 < 256,
            0 <= p3 < 256,
            0 <= p0 < 256,
    ;
}

/// The share check hashes the job header with the nonce in place as the
/// board sent it: bytes 76..80 are the little-endian bytes of the 32-bit
/// number the eight hex digits spell (byte 76 from the last two digits), all
/// other bytes are the job's. The share passes exactly when the double
/// SHA-256 of that header meets the job's target, and the hash is returned.
pub proof fn lemma_share_check_hashes_le_nonce(job: WorkJob, n: Seq<char>)
    requires
        nonce_ok(n),
    ensures
        hex_number(n) < 0x1_0000_0000,
        ({
            let h = spec_dsha256(header_with_le_nonce(job.header@, hex_number(n)));
            &&& spec_verify_share(job, n) is Ok <==> meets_target(h, job.target@)
            &&& spec_verify_share(job, n) matches Ok(x) ==> x == h
        }),
{
    let d = |k: int| hex_cval(n[k]) as int;
    assert forall|k: int| 0 <= k < 8 implies #[trigger] hex_cval(n[k]) < 16 by {
        lemma_hex_cval_small(n[k]);
    }
    let p0 = d(0) * 16 + d(1);
    let p1 = d(2) * 16 + d(3);
    let p2 = d(4) * 16 + d(5);
    let p3 = d(6) * 16 + d(7);
    reveal_with_fuel(hex_number, 9);
    assert(n.drop_last().drop_last().drop_last().drop_last().drop_last().drop_last().drop_last().drop_last().len() == 0);
    assert(hex_number(n) == (((((((d(0) * 16 + d(1)) * 16 + d(2)) * 16 + d(3)) * 16 + d(4)) * 16 + d(5)) * 16 + d(6))
        * 16 + d(7)));
    assert(hex_number(n) == p0 * 16777216 + p1 * 65536 + p2 * 256 + p3) by (nonlinear_arith)
        requires
            hex_number(n) == (((((((d(0) * 16 + d(1)) * 16 + d(2)) * 16 + d(3)) * 16 + d(4)) * 16 + d(5)) * 16
                + d(6)) * 16 + d(7)),
            p0 == d(0) * 16 + d(1),
            p1 == d(2) * 16 + d(3),
            p2 == d(4) * 16 + d(5),
            p3 == d(6) * 16 + d(7),
    ;
    lemma_le_bytes(p0, p1, p2, p3);
    assert(hex_pair(n, 0) == p0 && hex_pair(n, 1) == p1 && hex_pair(n, 2) == p2 && hex_pair(n, 3) == p3);
    assert(with_nonce(job.header@, n) =~= header_with_le_nonce(job.header@, hex_number(n)));
}

/// A share that passes the local check meets its job's target, and its nonce
/// is eight hex digits.
pub proof fn lemma_checked_share_meets_target(job: WorkJob, n: Seq<char>)
    ensures
        spec_verify_share(job, n) matches Ok(h) ==> meets_target(h, job.target@) && nonce_ok(n),
{
}

} // verus!
