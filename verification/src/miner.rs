//! Companion-side mining rules: pool worker names, board firmware versions,
//! `cmp` reply lines, CPU clock steps and small labels.

use vstd::prelude::*;
use crate::stratum::WorkJob;
use crate::text::{
    chars_of, contains, find_str, first_occurrence, dec, dec_pad, extend_chars, extend_str, find, has_prefix, lower_chars,
    lower_seq, occurs_at, push_dec, push_dec_pad, starts_with, string_of, sub_chars, trim,
    trimmed, is_digit, is_ascii_digit, nth_word, nth_word_of, first_index, first_index_of,
    spec_parse_u32, parse_u32,
};

verus! {

// ----- warm-up jobs -----

/// Local easy-target arming / truncated USB job ids (`warm`, `warmu`, `warmup`).
pub open spec fn spec_is_warmup_job_id(job: Seq<char>) -> bool {
    let j = trim(job);
    j.len() == 0 || lower_seq(j) == "warmup"@ || starts_with(lower_seq(j), "warm"@)
}

pub fn is_warmup_job_id(job: &str) -> (r: bool)
    ensures
        r == spec_is_warmup_job_id(job@),
{
    let j = trimmed(job);
    if j.len() == 0 {
        return true;
    }
    let lower = lower_chars(j.as_slice());
    let w = chars_of("warmup");
    let is_warmup = lower.len() == w.len() && has_prefix(lower.as_slice(), w.as_slice());
    assert(is_warmup ==> lower@ =~= lower@.take(w@.len() as int));
    assert(lower@ == w@ ==> is_warmup) by {
        if lower@ == w@ {
            assert(lower@.take(w@.len() as int) =~= lower@);
        }
    }
    let warm = chars_of("warm");
    is_warmup || has_prefix(lower.as_slice(), warm.as_slice())
}

/// The easy local job the board hashes until the pool sends work.
pub open spec fn warmup_header() -> Seq<u8> {
    Seq::new(80, |i: int| if i == 0 { 1u8 } else if i == 68 { 0x5au8 } else { 0u8 })
}

pub open spec fn warmup_target() -> Seq<u8> {
    Seq::new(32, |i: int| if i == 31 { 0x0fu8 } else { 0xffu8 })
}

pub fn warmup_job() -> (j: WorkJob)
    ensures
        j.job_id@ == "warmup"@,
        j.header@ == warmup_header(),
        j.target@ == warmup_target(),
        j.extranonce2_hex@ == "00000000"@,
        j.ntime_hex@ == "00000000"@,
{
    let mut header = [0u8; 80];
    header[0] = 0x01;
    header[68] = 0x5a;
    let mut target = [0xffu8; 32];
    target[31] = 0x0f;
    assert(header@ =~= warmup_header());
    assert(target@ =~= warmup_target());
    WorkJob {
        job_id: string_of(chars_of("warmup").as_slice()),
        header,
        target,
        extranonce2_hex: string_of(chars_of("00000000").as_slice()),
        ntime_hex: string_of(chars_of("00000000").as_slice()),
    }
}

// ----- pool credentials -----

/// HMPool-style `address.worker` label: bare addresses get `.companion`.
pub open spec fn spec_worker_for_companion(base: Seq<char>) -> Seq<char> {
    let w = trim(base);
    if w.len() == 0 {
        Seq::empty()
    } else if w.contains('.') {
        w
    } else {
        w + ".companion"@
    }
}

pub fn stratum_worker_for_companion(base: &str) -> (r: String)
    ensures
        r@ == spec_worker_for_companion(base@),
{
    let w = trimmed(base);
    if w.len() == 0 {
        return String::new();
    }
    if crate::text::find_char(w.as_slice(), '.').is_some() {
        return string_of(w.as_slice());
    }
    let mut out = w;
    extend_str(&mut out, ".companion");
    string_of(out.as_slice())
}

// ----- the pool URL -----

/// HM Pool's port for ESP32 boards (start difficulty about 0.01).
pub open spec fn spec_default_pool() -> Seq<char> {
    "stratum+tcp://btc.hmpool.io:3337"@
}

/// The pool a new install mines on.
pub fn default_pool() -> (r: &'static str)
    ensures
        r@ == spec_default_pool(),
{
    "stratum+tcp://btc.hmpool.io:3337"
}

/// The pool URL to use from a saved one: empty means the default, and HM
/// Pool's CPU/GPU port 3335 (difficulty about 128, mass rejects on a CYD) is
/// moved to 3337; any other URL is kept as saved.
pub open spec fn spec_migrate_pool(saved: Seq<char>) -> Seq<char> {
    let p = if saved.len() == 0 { spec_default_pool() } else { saved };
    if trim(p) == "stratum+tcp://btc.hmpool.io:3335"@ || trim(p) == "stratum+tcp://hmpool.io:3335"@ {
        spec_default_pool()
    } else {
        p
    }
}

pub fn migrate_pool(saved: &str) -> (r: String)
    ensures
        r@ == spec_migrate_pool(saved@),
{
    let sc = chars_of(saved);
    let p = if sc.len() == 0 { chars_of(default_pool()) } else { sc };
    let t = crate::text::trim_chars(p.as_slice());
    if crate::text::eq_str(t.as_slice(), "stratum+tcp://btc.hmpool.io:3335") || crate::text::eq_str(
        t.as_slice(),
        "stratum+tcp://hmpool.io:3335",
    ) {
        string_of(chars_of(default_pool()).as_slice())
    } else {
        string_of(p.as_slice())
    }
}

/// The warning shown under a pool URL on HM Pool's CPU/GPU port.
pub open spec fn spec_pool_port_warning(url: Seq<char>) -> Option<Seq<char>> {
    if contains(url, ":3335"@) && contains(url, "hmpool"@) {
        Some("HM Pool :3335 is CPU/GPU (diff≈128) — CYD boards get mass rejects. Use :3337."@)
    } else {
        None
    }
}

pub fn pool_port_warning(url: &str) -> (r: Option<&'static str>)
    ensures
        match r {
            Some(w) => spec_pool_port_warning(url@) == Some(w@),
            None => spec_pool_port_warning(url@) is None,
        },
{
    let c = chars_of(url);
    if crate::text::contains_str(c.as_slice(), ":3335") && crate::text::contains_str(c.as_slice(), "hmpool") {
        Some("HM Pool :3335 is CPU/GPU (diff≈128) — CYD boards get mass rejects. Use :3337.")
    } else {
        None
    }
}

/// What a request to start mining comes to.
#[derive(Debug, Clone, Copy, PartialEq, Eq, Structural)]
pub enum MineStart {
    /// No board link is open ("Connect USB first.").
    NeedLink,
    /// No worker name ("Enter worker / Bitcoin address.").
    NeedWorker,
    /// The same pool session already mines as the same worker: keep its counters.
    AlreadyMining,
    /// Start the pool session.
    Start,
}

/// The start request with board link `link_open`, worker field `worker` and
/// pool field `endpoint`, while the session mines (`mining`, `authorized`) on
/// `live_endpoint` as `active_worker`.
pub open spec fn spec_mine_start(
    link_open: bool,
    worker: Seq<char>,
    mining: bool,
    authorized: bool,
    live_endpoint: Seq<char>,
    endpoint: Seq<char>,
    active_worker: Seq<char>,
) -> MineStart {
    if !link_open {
        MineStart::NeedLink
    } else if trim(worker).len() == 0 {
        MineStart::NeedWorker
    } else if mining && authorized && endpoint_key(live_endpoint) == endpoint_key(trim(endpoint))
        && lower_seq(active_worker) == lower_seq(spec_worker_for_companion(trim(worker))) {
        MineStart::AlreadyMining
    } else {
        MineStart::Start
    }
}

fn same_chars(a: &[char], b: &[char]) -> (r: bool)
    ensures
        r == (a@ == b@),
{
    if a.len() != b.len() {
        return false;
    }
    let r = has_prefix(a, b);
    assert(a@ =~= a@.take(b@.len() as int));
    r
}

pub fn mine_start(
    link_open: bool,
    worker: &str,
    mining: bool,
    authorized: bool,
    live_endpoint: &str,
    endpoint: &str,
    active_worker: &str,
) -> (r: MineStart)
    ensures
        r == spec_mine_start(link_open, worker@, mining, authorized, live_endpoint@, endpoint@, active_worker@),
{
    if !link_open {
        return MineStart::NeedLink;
    }
    let w = trimmed(worker);
    if w.len() == 0 {
        return MineStart::NeedWorker;
    }
    if mining && authorized {
        let ws = string_of(w.as_slice());
        let user = stratum_worker_for_companion(ws.as_str());
        let es = string_of(trimmed(endpoint).as_slice());
        if stratum_endpoints_match(live_endpoint, es.as_str()) {
            let a = lower_chars(chars_of(active_worker).as_slice());
            let u = lower_chars(chars_of(user.as_str()).as_slice());
            if same_chars(a.as_slice(), u.as_slice()) {
                return MineStart::AlreadyMining;
            }
        }
    }
    MineStart::Start
}

/// Board onboard stratum uses the same pool username as Companion (no MAC suffix).
pub fn stratum_worker_for_board(base: &str, _mac: &str) -> (r: String)
    ensures
        r@ == spec_worker_for_companion(base@),
{
    stratum_worker_for_companion(base)
}

/// Naming a worker twice changes nothing: a labelled worker keeps its label.
pub proof fn lemma_worker_label_idempotent(base: Seq<char>)
    ensures
        spec_worker_for_companion(spec_worker_for_companion(base)) == spec_worker_for_companion(
            base,
        ),
{
    let w = trim(base);
    crate::text::lemma_trim_ends(base);
    if w.len() > 0 && !w.contains('.') {
        let r = w + ".companion"@;
        reveal_strlit(".companion");
        assert(r[0] == w[0]);
        assert(r.last() == 'n');
        crate::text::lemma_trim_fixed(r);
        assert(r[w.len() as int] == '.');
    }
}

pub open spec fn spec_stratum_password(raw: Seq<char>) -> Seq<char> {
    let p = trim(raw);
    if p.len() == 0 {
        "x"@
    } else {
        p
    }
}

/// The pool password; `x` when none is set.
pub fn stratum_password(raw: &str) -> (r: String)
    ensures
        r@ == spec_stratum_password(raw@),
{
    let p = trimmed(raw);
    if p.len() == 0 {
        string_of(chars_of("x").as_slice())
    } else {
        string_of(p.as_slice())
    }
}

/// `s` with every leading copy of `p` removed (std's `trim_start_matches`).
pub open spec fn strip_prefixes(s: Seq<char>, p: Seq<char>) -> Seq<char>
    decreases s.len(),
{
    if p.len() > 0 && starts_with(s, p) {
        strip_prefixes(s.skip(p.len() as int), p)
    } else {
        s
    }
}

/// `s` without trailing `/`s (std's `trim_end_matches('/')`).
pub open spec fn strip_slashes(s: Seq<char>) -> Seq<char>
    decreases s.len(),
{
    if s.len() > 0 && s.last() == '/' {
        strip_slashes(s.drop_last())
    } else {
        s
    }
}

/// A pool URL without scheme noise, trailing slashes or case.
pub open spec fn endpoint_key(s: Seq<char>) -> Seq<char> {
    lower_seq(
        strip_prefixes(
            strip_prefixes(
                strip_prefixes(strip_slashes(trim(s)), "stratum+tcp://"@),
                "stratum+ssl://"@,
            ),
            "tcp://"@,
        ),
    )
}

fn strip_prefixes_of(s: Vec<char>, p: &str) -> (r: Vec<char>)
    ensures
        r@ == strip_prefixes(s@, p@),
{
    let pc = chars_of(p);
    let mut cur = s;
    if pc.len() == 0 {
        return cur;
    }
    while has_prefix(cur.as_slice(), pc.as_slice())
        invariant
            pc@.len() > 0,
            pc@ == p@,
            strip_prefixes(s@, p@) == strip_prefixes(cur@, p@),
        decreases cur@.len(),
    {
        let n = cur.len();
        cur = sub_chars(cur.as_slice(), pc.len(), n);
    }
    cur
}

fn strip_slashes_of(s: Vec<char>) -> (r: Vec<char>)
    ensures
        r@ == strip_slashes(s@),
{
    let mut n = s.len();
    assert(s@.take(n as int) =~= s@);
    while n > 0 && s[n - 1] == '/'
        invariant
            n <= s@.len(),
            strip_slashes(s@) == strip_slashes(s@.take(n as int)),
        decreases n,
    {
        assert(s@.take(n as int).drop_last() =~= s@.take(n - 1));
        n = n - 1;
    }
    sub_chars(s.as_slice(), 0, n)
}

fn endpoint_key_of(s: &str) -> (r: Vec<char>)
    ensures
        r@ == endpoint_key(s@),
{
    let t = trimmed(s);
    let a = strip_slashes_of(t);
    let b = strip_prefixes_of(a, "stratum+tcp://");
    let c = strip_prefixes_of(b, "stratum+ssl://");
    let d = strip_prefixes_of(c, "tcp://");
    lower_chars(d.as_slice())
}

/// Compare stratum URLs ignoring scheme / trailing slash noise.
pub fn stratum_endpoints_match(a: &str, b: &str) -> (r: bool)
    ensures
        r == (endpoint_key(a@) == endpoint_key(b@)),
{
    let ka = endpoint_key_of(a);
    let kb = endpoint_key_of(b);
    if ka.len() != kb.len() {
        return false;
    }
    let r = has_prefix(ka.as_slice(), kb.as_slice());
    assert(ka@ =~= ka@.take(kb@.len() as int));
    r
}

// ----- board replies -----

/// The reply tags of the `cmp` line protocol, in the order they are looked for.
pub open spec fn reply_tags() -> Seq<Seq<char>> {
    seq![
        "CMPSTATUS "@,
        "CMPCONFIG "@,
        "CMPBENCHPROG "@,
        "CMPBENCH "@,
        "CMPMESH "@,
        "CMPACK"@,
        "CMP ok"@,
        "CMPERR"@,
    ]
}

/// The reply in one (trimmed) line: from the first tag, in tag order, that
/// occurs in it (share notices are not replies).
pub open spec fn reply_in(t: Seq<char>, k: nat) -> Option<Seq<char>>
    decreases 8 - k,
{
    if k >= 8 {
        None
    } else {
        match first_occurrence(t, reply_tags()[k as int]) {
            Some(i) => Some(t.skip(i)),
            None => reply_in(t, k + 1),
        }
    }
}

/// The first line of `lines` that holds a reply, as that reply.
pub open spec fn reply_in_lines(lines: Seq<Seq<char>>) -> Option<Seq<char>>
    decreases lines.len(),
{
    if lines.len() == 0 {
        None
    } else {
        match reply_in(trim(lines[0]), 0) {
            Some(r) => Some(r),
            None => reply_in_lines(lines.drop_first()),
        }
    }
}

pub open spec fn spec_cmp_reply_line(buf: Seq<char>) -> Option<Seq<char>> {
    reply_in_lines(crate::monitor_api::split_lines(buf))
}

fn tag_str(k: usize) -> (r: &'static str)
    requires
        k < 8,
    ensures
        r@ == reply_tags()[k as int],
{
    if k == 0 {
        "CMPSTATUS "
    } else if k == 1 {
        "CMPCONFIG "
    } else if k == 2 {
        "CMPBENCHPROG "
    } else if k == 3 {
        "CMPBENCH "
    } else if k == 4 {
        "CMPMESH "
    } else if k == 5 {
        "CMPACK"
    } else if k == 6 {
        "CMP ok"
    } else {
        "CMPERR"
    }
}

fn reply_in_line(t: &[char]) -> (r: Option<Vec<char>>)
    ensures
        match r {
            Some(v) => reply_in(t@, 0) == Some(v@),
            None => reply_in(t@, 0) is None,
        },
{
    let mut k: usize = 0;
    while k < 8
        invariant
            k <= 8,
            reply_in(t@, 0) == reply_in(t@, k as nat),
        decreases 8 - k,
    {
        match find_str(t, tag_str(k)) {
            Some(i) => {
                return Some(sub_chars(t, i, t.len()));
            },
            None => {},
        }
        k = k + 1;
    }
    None
}

/// The first `cmp` reply in a receive buffer.
pub fn cmp_reply_line(buf: &str) -> (r: Option<String>)
    ensures
        match r {
            Some(v) => spec_cmp_reply_line(buf@) == Some(v@),
            None => spec_cmp_reply_line(buf@) is None,
        },
{
    let cs = chars_of(buf);
    let mut cur = cs;
    loop
        invariant
            spec_cmp_reply_line(buf@) == reply_in_lines(crate::monitor_api::split_lines(cur@)),
        decreases cur@.len(),
    {
        let (piece, rest) = crate::monitor_api::first_line(cur.as_slice());
        let t = crate::text::trim_chars(piece.as_slice());
        match reply_in_line(t.as_slice()) {
            Some(v) => {
                return Some(string_of(v.as_slice()));
            },
            None => {},
        }
        match rest {
            Some(tail) => {
                cur = tail;
            },
            None => {
                proof {
                    let lines = crate::monitor_api::split_lines(cur@);
                    assert(reply_in_lines(lines) == reply_in_lines(lines.drop_first()));
                }
                return None;
            },
        }
    }
}

// ----- firmware versions -----

/// `fw` with every char that is neither a digit nor `.` turned into a space.
pub open spec fn version_chars(fw: Seq<char>) -> Seq<char> {
    fw.map_values(|c: char| if is_digit(c) || c == '.' { c } else { ' ' })
}

/// The first run of digits and dots in a firmware tag.
pub open spec fn version_token(fw: Seq<char>) -> Seq<char> {
    match nth_word(version_chars(fw), 0) {
        Some(w) => w,
        None => Seq::empty(),
    }
}

/// The `k`-th `.`-separated part of `s`.
pub open spec fn nth_part(s: Seq<char>, k: nat) -> Option<Seq<char>>
    decreases s.len(),
{
    if s.contains('.') {
        let i = first_index(s, '.');
        proof {
            crate::text::lemma_first_index_bound(s, '.');
        }
        if k == 0 {
            Some(s.take(i))
        } else {
            nth_part(s.skip(i + 1), (k - 1) as nat)
        }
    } else if k == 0 {
        Some(s)
    } else {
        None
    }
}

/// Version component `k`; 0 when missing or not a number.
pub open spec fn version_part(fw: Seq<char>, k: nat) -> nat {
    match nth_part(version_token(fw), k) {
        Some(p) => match spec_parse_u32(p) {
            Some(v) => v as nat,
            None => 0,
        },
        None => 0,
    }
}

/// Split jobs (`jh`/`jt`/`ja`) arrived in firmware 0.6.2.
pub open spec fn spec_fw_supports_split_jobs(fw: Seq<char>) -> bool {
    let (a, b, c) = (version_part(fw, 0), version_part(fw, 1), version_part(fw, 2));
    a > 0 || (a == 0 && (b > 6 || (b == 6 && c >= 2)))
}

fn nth_part_of(s: &[char], k: usize) -> (r: Option<Vec<char>>)
    ensures
        match r {
            Some(p) => nth_part(s@, k as nat) == Some(p@),
            None => nth_part(s@, k as nat) is None,
        },
{
    let mut cur = sub_chars(s, 0, s.len());
    let mut j: usize = k;
    assert(cur@ =~= s@);
    loop
        invariant
            nth_part(s@, k as nat) == nth_part(cur@, j as nat),
        decreases cur@.len(),
    {
        proof {
            crate::text::lemma_first_index_bound(cur@, '.');
        }
        match first_index_of(cur.as_slice(), '.') {
            Some(i) => {
                if j == 0 {
                    return Some(sub_chars(cur.as_slice(), 0, i));
                }
                let n = cur.len();
                cur = sub_chars(cur.as_slice(), i + 1, n);
                j = j - 1;
            },
            None => {
                if j == 0 {
                    return Some(cur);
                }
                return None;
            },
        }
    }
}

fn version_part_of(tok: &[char], k: usize) -> (r: u32)
    ensures
        r as nat == match nth_part(tok@, k as nat) {
            Some(p) => match spec_parse_u32(p) {
                Some(v) => v as nat,
                None => 0,
            },
            None => 0,
        },
{
    match nth_part_of(tok, k) {
        Some(p) => match parse_u32(p.as_slice()) {
            Some(v) => v,
            None => 0,
        },
        None => 0,
    }
}

pub fn fw_supports_split_jobs(fw: &str) -> (r: bool)
    ensures
        r == spec_fw_supports_split_jobs(fw@),
{
    let cs = chars_of(fw);
    let mut mapped: Vec<char> = Vec::new();
    let mut i: usize = 0;
    while i < cs.len()
        invariant
            i <= cs@.len(),
            mapped@ == version_chars(cs@.take(i as int)),
        decreases cs@.len() - i,
    {
        let c = cs[i];
        mapped.push(if is_ascii_digit(c) || c == '.' { c } else { ' ' });
        assert(version_chars(cs@.take(i + 1)) =~= version_chars(cs@.take(i as int)).push(
            if is_digit(c) || c == '.' { c } else { ' ' },
        ));
        i = i + 1;
    }
    assert(cs@.take(cs@.len() as int) =~= cs@);
    let tok: Vec<char> = match nth_word_of(mapped.as_slice(), 0) {
        Some(w) => w,
        None => Vec::new(),
    };
    assert(tok@ == version_token(fw@));
    let a = version_part_of(tok.as_slice(), 0);
    let b = version_part_of(tok.as_slice(), 1);
    let c = version_part_of(tok.as_slice(), 2);
    a > 0 || (a == 0 && (b > 6 || (b == 6 && c >= 2)))
}

// ----- labels -----

/// Uptime: `45s` → `3m 12s` → `2h 5m` → `1d 4h`.
pub open spec fn spec_format_uptime(secs: nat) -> Seq<char> {
    if secs < 60 {
        dec(secs) + "s"@
    } else if secs < 3600 {
        let m = secs / 60;
        let s = secs % 60;
        if s == 0 {
            dec(m) + "m"@
        } else {
            dec(m) + "m "@ + dec(s) + "s"@
        }
    } else if secs < 86400 {
        let h = secs / 3600;
        let m = (secs % 3600) / 60;
        if m == 0 {
            dec(h) + "h"@
        } else {
            dec(h) + "h "@ + dec(m) + "m"@
        }
    } else {
        let d = secs / 86400;
        let h = (secs % 86400) / 3600;
        if h == 0 {
            dec(d) + "d"@
        } else {
            dec(d) + "d "@ + dec(h) + "h"@
        }
    }
}

fn two_units(out: &mut Vec<char>, big: u64, big_unit: &str, small: u64, small_unit: &str)
    ensures
        final(out)@ == old(out)@ + if small == 0 {
            dec(big as nat) + big_unit@
        } else {
            dec(big as nat) + big_unit@ + " "@ + dec(small as nat) + small_unit@
        },
{
    push_dec(out, big);
    extend_str(out, big_unit);
    if small != 0 {
        extend_str(out, " ");
        push_dec(out, small);
        extend_str(out, small_unit);
    }
}

pub fn format_uptime(secs: u64) -> (r: String)
    ensures
        r@ == spec_format_uptime(secs as nat),
{
    let mut out: Vec<char> = Vec::new();
    if secs < 60 {
        push_dec(&mut out, secs);
        extend_str(&mut out, "s");
    } else if secs < 3600 {
        two_units(&mut out, secs / 60, "m", secs % 60, "s");
        proof {
            reveal_strlit("m ");
            reveal_strlit("m");
            reveal_strlit(" ");
            assert("m"@ + " "@ =~= "m "@);
        }
    } else if secs < 86_400 {
        two_units(&mut out, secs / 3600, "h", (secs % 3600) / 60, "m");
        proof {
            reveal_strlit("h ");
            reveal_strlit("h");
            reveal_strlit(" ");
            assert("h"@ + " "@ =~= "h "@);
        }
    } else {
        two_units(&mut out, secs / 86_400, "d", (secs % 86_400) / 3600, "h");
        proof {
            reveal_strlit("d ");
            reveal_strlit("d");
            reveal_strlit(" ");
            assert("d"@ + " "@ =~= "d "@);
        }
    }
    let r = string_of(out.as_slice());
    assert(r@ =~= spec_format_uptime(secs as nat));
    r
}

/// `HH:MM:SS.mmm` (UTC) of a Unix time.
pub open spec fn spec_clock_label(secs: nat, millis: nat) -> Seq<char> {
    dec_pad((secs / 3600) % 24, 2) + ":"@ + dec_pad((secs / 60) % 60, 2) + ":"@ + dec_pad(
        secs % 60,
        2,
    ) + "."@ + dec_pad(millis, 3)
}

pub fn clock_label(secs: u64, millis: u32) -> (r: String)
    ensures
        r@ == spec_clock_label(secs as nat, millis as nat),
{
    let mut out: Vec<char> = Vec::new();
    push_dec_pad(&mut out, (secs / 3600) % 24, 2);
    extend_str(&mut out, ":");
    push_dec_pad(&mut out, (secs / 60) % 60, 2);
    extend_str(&mut out, ":");
    push_dec_pad(&mut out, secs % 60, 2);
    extend_str(&mut out, ".");
    push_dec_pad(&mut out, millis as u64, 3);
    string_of(out.as_slice())
}

/// std's wall-clock time, carried through opaque.
#[verifier::external_type_specification]
#[verifier::external_body]
pub struct ExSystemTime(std::time::SystemTime);

/// std's `SystemTime::now`: the current wall-clock time (nothing is promised of it).
#[verifier::external_body]
fn system_now() -> (r: std::time::SystemTime) {
    std::time::SystemTime::now()
}

/// std's `SystemTime::duration_since(UNIX_EPOCH)`: the time since 1970, `None`
/// when the clock is earlier (the error carries nothing the library uses).
#[verifier::external_body]
fn since_unix_epoch(t: &std::time::SystemTime) -> (r: Option<core::time::Duration>) {
    t.duration_since(std::time::UNIX_EPOCH).ok()
}

/// std's `Duration::as_secs`: the whole seconds.
#[verifier::external_body]
fn whole_secs(d: &core::time::Duration) -> (r: u64) {
    d.as_secs()
}

/// std's `Duration::subsec_millis`: the milliseconds past the whole
/// seconds, which std documents as below 1000.
#[verifier::external_body]
fn millis_part(d: &core::time::Duration) -> (r: u32)
    ensures
        r < 1000,
{
    d.subsec_millis()
}

/// Seconds and milliseconds since the Unix epoch; zero when the clock is
/// before 1970. The milliseconds are below 1000.
fn now_since_epoch() -> (r: (u64, u32))
    ensures
        r.1 < 1000,
{
    let now = system_now();
    match since_unix_epoch(&now) {
        Some(d) => (whole_secs(&d), millis_part(&d)),
        None => (0, 0),
    }
}

/// Wall-clock time of day for log lines.
pub fn stamp() -> (r: String)
    ensures
        exists|secs: nat, ms: nat| ms < 1000 && r@ == spec_clock_label(secs, ms),
{
    let (secs, ms) = now_since_epoch();
    clock_label(secs, ms)
}

// ----- SHA path labels -----

/// The board's SHA path: its `sha_mode` when it reports one, else the part
/// after `SHA256-` of a hardware pool label (`SHA256-HW+` → `HW+`), else `—`.
pub open spec fn spec_sha_mode_label(sha_mode: Seq<char>, pool: Seq<char>) -> Seq<char> {
    if sha_mode.len() > 0 {
        sha_mode
    } else if contains(pool, "HW"@) && starts_with(pool, "SHA256-"@) {
        pool.skip(7)
    } else {
        "—"@
    }
}

pub fn sha_mode_label(sha_mode: &str, pool: &str) -> (r: String)
    ensures
        r@ == spec_sha_mode_label(sha_mode@, pool@),
{
    let m = chars_of(sha_mode);
    if m.len() > 0 {
        return string_of(m.as_slice());
    }
    let p = chars_of(pool);
    let hw = crate::text::contains_str(p.as_slice(), "HW");
    let tagged = crate::text::starts_with_str(p.as_slice(), "SHA256-");
    if hw && tagged {
        proof {
            reveal_strlit("SHA256-");
        }
        let rest = sub_chars(p.as_slice(), 7, p.len());
        assert(rest@ =~= pool@.skip(7));
        string_of(rest.as_slice())
    } else {
        string_of(chars_of("—").as_slice())
    }
}

/// How the dashboard names a SHA path label.
pub open spec fn spec_sha_path_display(label: Seq<char>) -> Seq<char> {
    if label == "HW"@ {
        "Full HW"@
    } else if label == "HW+"@ {
        "HW+ mid"@
    } else if label == "SW"@ {
        "Software"@
    } else {
        label
    }
}

pub fn sha_path_display(label: &str) -> (r: String)
    ensures
        r@ == spec_sha_path_display(label@),
{
    let l = chars_of(label);
    let ls = l.as_slice();
    if crate::text::eq_str(ls, "HW") {
        string_of(chars_of("Full HW").as_slice())
    } else if crate::text::eq_str(ls, "HW+") {
        string_of(chars_of("HW+ mid").as_slice())
    } else if crate::text::eq_str(ls, "SW") {
        string_of(chars_of("Software").as_slice())
    } else {
        string_of(ls)
    }
}

// ----- CPU clock steps -----

pub fn default_mhz() -> (r: u8)
    ensures
        r == 240,
{
    240
}

/// ESP32 `setCpuFrequencyMhz` lock points (Arduino-ESP32).
pub open spec fn cpu_steps() -> Seq<u8> {
    seq![10u8, 20u8, 40u8, 80u8, 160u8, 240u8]
}

pub open spec fn dist(a: u8, b: u8) -> int {
    if a >= b {
        a - b
    } else {
        b - a
    }
}

/// Index of the first step among the first `k` that is nearest to `mhz`.
pub open spec fn nearest_index(mhz: u8, k: nat) -> int
    decreases k,
{
    if k <= 1 {
        0
    } else {
        let b = nearest_index(mhz, (k - 1) as nat);
        if dist(cpu_steps()[k - 1], mhz) < dist(cpu_steps()[b], mhz) {
            k - 1
        } else {
            b
        }
    }
}

/// The clock step nearest to `mhz` (the lower one on a tie); 0 means 240.
pub open spec fn spec_normalize_cpu_mhz(mhz: u8) -> u8 {
    if mhz == 0 {
        240
    } else {
        cpu_steps()[nearest_index(mhz, 6)]
    }
}

proof fn lemma_nearest_index_bound(mhz: u8, k: nat)
    requires
        1 <= k <= 6,
    ensures
        0 <= nearest_index(mhz, k) < k,
    decreases k,
{
    if k > 1 {
        lemma_nearest_index_bound(mhz, (k - 1) as nat);
    }
}

fn step_at(i: usize) -> (r: u8)
    requires
        i < 6,
    ensures
        r == cpu_steps()[i as int],
{
    if i == 0 {
        10
    } else if i == 1 {
        20
    } else if i == 2 {
        40
    } else if i == 3 {
        80
    } else if i == 4 {
        160
    } else {
        240
    }
}

fn dist_of(a: u8, b: u8) -> (r: u8)
    ensures
        r == dist(a, b),
{
    if a >= b {
        a - b
    } else {
        b - a
    }
}

pub fn normalize_cpu_mhz(mhz: u8) -> (r: u8)
    ensures
        r == spec_normalize_cpu_mhz(mhz),
{
    if mhz == 0 {
        return 240;
    }
    let mut best: usize = 0;
    let mut k: usize = 1;
    while k < 6
        invariant
            1 <= k <= 6,
            best == nearest_index(mhz, k as nat),
            best < k,
        decreases 6 - k,
    {
        if dist_of(step_at(k), mhz) < dist_of(step_at(best), mhz) {
            best = k;
        }
        k = k + 1;
    }
    step_at(best)
}

/// The board command that sets the CPU clock (normalised to a clock step).
pub open spec fn spec_clock_command(mhz: u8) -> Seq<char> {
    "cmp clock cpu_mhz="@ + dec(spec_normalize_cpu_mhz(mhz) as nat)
}

pub fn clock_command(mhz: u8) -> (r: String)
    ensures
        r@ == spec_clock_command(mhz),
{
    let mut out = chars_of("cmp clock cpu_mhz=");
    push_dec(&mut out, normalize_cpu_mhz(mhz) as u64);
    string_of(out.as_slice())
}

/// The next clock step up or down from the current (normalised) clock.
pub open spec fn spec_cpu_mhz_nudge(current: u8, up: bool) -> u8 {
    let cur = spec_normalize_cpu_mhz(current);
    let i = cpu_steps().index_of(cur);
    if up {
        cpu_steps()[if i + 1 < 5 { i + 1 } else { 5 }]
    } else {
        cpu_steps()[if i > 0 { i - 1 } else { 0 }]
    }
}

proof fn lemma_normalized_is_step(mhz: u8)
    ensures
        cpu_steps().contains(spec_normalize_cpu_mhz(mhz)),
        0 <= cpu_steps().index_of(spec_normalize_cpu_mhz(mhz)) < 6,
        cpu_steps()[cpu_steps().index_of(spec_normalize_cpu_mhz(mhz))] == spec_normalize_cpu_mhz(mhz),
{
    let r = spec_normalize_cpu_mhz(mhz);
    if mhz == 0 {
        assert(cpu_steps()[5] == r);
    } else {
        lemma_nearest_index_bound(mhz, 6);
        assert(cpu_steps()[nearest_index(mhz, 6)] == r);
    }
    cpu_steps().index_of_first_ensures(r);
    assert(cpu_steps().contains(r));
}

pub fn cpu_mhz_nudge(current: u8, up: bool) -> (r: u8)
    ensures
        r == spec_cpu_mhz_nudge(current, up),
{
    let cur = normalize_cpu_mhz(current);
    proof {
        lemma_normalized_is_step(current);
    }
    let mut i: usize = 0;
    while i < 6 && step_at(i) != cur
        invariant
            i <= 6,
            forall|j: int| 0 <= j < i ==> cpu_steps()[j] != cur,
            cpu_steps().contains(cur),
        decreases 6 - i,
    {
        i = i + 1;
    }
    if i == 6 {
        proof {
            let j = choose|j: int| 0 <= j < 6 && cpu_steps()[j] == cur;
            assert(cpu_steps()[j] != cur);
        }
        return if up { 240 } else { 160 };
    }
    proof {
        cpu_steps().index_of_first_ensures(cur);
        let k = cpu_steps().index_of(cur);
        assert(cpu_steps().index_of(cur) == i as int) by {
            if k < i {
                assert(cpu_steps()[k] != cur);
            } else if k > i {
                assert(cpu_steps()[i as int] == cur);
            }
        }
    }
    if up {
        step_at(if i + 1 < 5 { i + 1 } else { 5 })
    } else {
        step_at(if i > 0 { i - 1 } else { 0 })
    }
}

/// Nudging up never lowers the clock, nudging down never raises it.
pub proof fn lemma_cpu_mhz_nudge_direction(current: u8)
    ensures
        spec_cpu_mhz_nudge(current, true) >= spec_normalize_cpu_mhz(current),
        spec_cpu_mhz_nudge(current, false) <= spec_normalize_cpu_mhz(current),
        cpu_steps().contains(spec_cpu_mhz_nudge(current, true)),
        cpu_steps().contains(spec_cpu_mhz_nudge(current, false)),
{
    lemma_normalized_is_step(current);
    let i = cpu_steps().index_of(spec_normalize_cpu_mhz(current));
    let up = if i + 1 < 5 { i + 1 } else { 5 };
    let down = if i > 0 { i - 1 } else { 0 };
    assert(cpu_steps()[up] == spec_cpu_mhz_nudge(current, true));
    assert(cpu_steps()[down] == spec_cpu_mhz_nudge(current, false));
}

/// A clock step is its own normal form.
pub proof fn lemma_normalize_cpu_mhz_idempotent(mhz: u8)
    ensures
        spec_normalize_cpu_mhz(spec_normalize_cpu_mhz(mhz)) == spec_normalize_cpu_mhz(mhz),
{
    lemma_normalized_is_step(mhz);
    reveal_with_fuel(nearest_index, 7);
}

} // verus!
