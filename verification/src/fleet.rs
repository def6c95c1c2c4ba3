//! Decisions of the mining loop that drives the linked boards: how long to
//! wait for a `cmp` reply, what a reply or a status poll means for a board,
//! which shares are held, dropped or submitted, and where a Wi‑Fi command goes.
//! The loop itself (serial and TCP reads and writes, sleeps) runs outside.

use std::collections::VecDeque;
use vstd::prelude::*;
use crate::miner::{cmp_reply_line, spec_cmp_reply_line, spec_is_warmup_job_id};
use crate::miner::spec_fw_supports_split_jobs;
use crate::miner::fw_supports_split_jobs;
use crate::codec::{spec_url_encode, str_bytes};
use crate::stratum::{urlenc, WorkJob};
use crate::workers::{
    hex_count, is_usb_serial_port, mac_is_stable, normalize_mac, port_names_match,
    spec_is_usb_serial_port, spec_normalize_mac, spec_normalize_port_name,
};
use crate::monitor_api::{first_line, part_key, part_value, split_lines};
use crate::text::{
    chars_of, contains, contains_str, extend_chars, extend_str, find, first_occurrence,
    lower_chars, lower_seq, split_on, starts_with, starts_with_str, string_of, trim, trimmed,
    upper_chars, upper_seq,
};

verus! {

// ----- bounded queues -----

/// `s` with `x` appended, keeping only the newest `cap` items.
pub open spec fn capped_push<T>(s: Seq<T>, x: T, cap: nat) -> Seq<T> {
    let n = s.push(x);
    if n.len() > cap {
        n.skip(n.len() - cap)
    } else {
        n
    }
}

/// Appends `x` and drops the oldest items beyond `cap`.
pub fn push_capped<T>(q: &mut VecDeque<T>, x: T, cap: usize)
    ensures
        final(q)@ == capped_push(old(q)@, x, cap as nat),
{
    let ghost n = old(q)@.push(x);
    q.push_back(x);
    let ghost mut k: int = 0;
    while q.len() > cap
        invariant
            0 <= k <= n.len(),
            q@ == n.skip(k),
            k > 0 ==> n.len() - k >= cap,
        decreases q@.len(),
    {
        let _ = q.pop_front();
        assert(q@ =~= n.skip(k + 1));
        proof {
            k = k + 1;
        }
    }
    proof {
        if n.len() > cap {
            assert(k == n.len() - cap);
        } else {
            assert(k == 0);
            assert(n.skip(0) =~= n);
        }
    }
}

/// A capped queue never grows past its cap, and the newest item is last.
pub proof fn lemma_capped_push<T>(s: Seq<T>, x: T, cap: nat)
    requires
        cap > 0,
    ensures
        capped_push(s, x, cap).len() <= cap,
        capped_push(s, x, cap).len() > 0,
        capped_push(s, x, cap).last() == x,
        s.len() < cap ==> capped_push(s, x, cap) == s.push(x),
{
}

// ----- waiting for a `cmp` reply -----

/// How a `cmp` command is written and waited for.
#[derive(Clone, Copy, Debug, PartialEq, Eq, Structural)]
pub struct CmdTiming {
    /// How long one attempt waits for the reply.
    pub wait_ms: u64,
    /// How many attempts are made.
    pub retries: usize,
    /// Bytes written per chunk.
    pub chunk: usize,
    /// Pause between chunks.
    pub gap_ms: u64,
}

pub open spec fn timing(wait_ms: u64, retries: usize, chunk: usize, gap_ms: u64) -> CmdTiming {
    CmdTiming { wait_ms, retries, chunk, gap_ms }
}

/// The timing table of the board link, by what the command contains.
pub open spec fn spec_cmd_timing(cmd: Seq<char>) -> CmdTiming {
    if contains(cmd, "bench"@) {
        timing(180_000, 1, 128, 1)
    } else if contains(cmd, " via "@) {
        timing(10_000, 1, 256, 0)
    } else if contains(cmd, "wifi"@) {
        timing(3_500, 2, 256, 0)
    } else if contains(cmd, "status"@) {
        timing(1_800, 3, 256, 0)
    } else if contains(cmd, "stats"@) {
        timing(450, 1, 256, 0)
    } else if contains(cmd, " jh"@) || contains(cmd, " jt"@) || contains(cmd, " ja"@) {
        timing(2_400, 3, 256, 0)
    } else if contains(cmd, " job "@) {
        timing(3_200, 2, 128, 1)
    } else {
        timing(2_000, 3, 256, 0)
    }
}

pub fn cmd_timing(cmd: &str) -> (r: CmdTiming)
    ensures
        r == spec_cmd_timing(cmd@),
{
    let c = chars_of(cmd);
    let s = c.as_slice();
    if contains_str(s, "bench") {
        CmdTiming { wait_ms: 180_000, retries: 1, chunk: 128, gap_ms: 1 }
    } else if contains_str(s, " via ") {
        CmdTiming { wait_ms: 10_000, retries: 1, chunk: 256, gap_ms: 0 }
    } else if contains_str(s, "wifi") {
        CmdTiming { wait_ms: 3_500, retries: 2, chunk: 256, gap_ms: 0 }
    } else if contains_str(s, "status") {
        CmdTiming { wait_ms: 1_800, retries: 3, chunk: 256, gap_ms: 0 }
    } else if contains_str(s, "stats") {
        CmdTiming { wait_ms: 450, retries: 1, chunk: 256, gap_ms: 0 }
    } else if contains_str(s, " jh") || contains_str(s, " jt") || contains_str(s, " ja") {
        CmdTiming { wait_ms: 2_400, retries: 3, chunk: 256, gap_ms: 0 }
    } else if contains_str(s, " job ") {
        CmdTiming { wait_ms: 3_200, retries: 2, chunk: 128, gap_ms: 1 }
    } else {
        CmdTiming { wait_ms: 2_000, retries: 3, chunk: 256, gap_ms: 0 }
    }
}

/// A board update may cut a wait short, except for Wi‑Fi and pool commands.
pub fn update_may_preempt(cmd: &str) -> (r: bool)
    ensures
        r == (!contains(cmd@, "wifi"@) && !contains(cmd@, "pool"@)),
{
    let c = chars_of(cmd);
    !contains_str(c.as_slice(), "wifi") && !contains_str(c.as_slice(), "pool")
}

/// The first 56 chars of `cmd`, as error messages quote it.
pub open spec fn cmd_quote(cmd: Seq<char>) -> Seq<char> {
    if cmd.len() > 56 {
        cmd.take(56)
    } else {
        cmd
    }
}

/// ``USB timeout waiting for reply to `cmd` `` (the command cut to 56 chars).
pub open spec fn spec_timeout_message(cmd: Seq<char>) -> Seq<char> {
    "USB timeout waiting for reply to `"@ + cmd_quote(cmd) + "`"@
}

pub fn timeout_message(cmd: &str) -> (r: String)
    ensures
        r@ == spec_timeout_message(cmd@),
{
    let c = chars_of(cmd);
    let n = if c.len() > 56 {
        56
    } else {
        c.len()
    };
    let mut out: Vec<char> = Vec::new();
    extend_str(&mut out, "USB timeout waiting for reply to `");
    let q = crate::text::sub_chars(c.as_slice(), 0, n);
    assert(q@ =~= cmd_quote(cmd@));
    extend_chars(&mut out, q.as_slice());
    extend_str(&mut out, "`");
    string_of(out.as_slice())
}

/// The bench variant: old firmware that never reports progress.
pub open spec fn spec_bench_silent_message(cmd: Seq<char>) -> Seq<char> {
    spec_timeout_message(cmd) + " (no CMPBENCHPROG — update board firmware)"@
}

pub fn bench_silent_message(cmd: &str) -> (r: String)
    ensures
        r@ == spec_bench_silent_message(cmd@),
{
    let t = timeout_message(cmd);
    let mut out = chars_of(t.as_str());
    extend_str(&mut out, " (no CMPBENCHPROG — update board firmware)");
    string_of(out.as_slice())
}

/// What the bench watchdog does on one tick of a running bench.
#[derive(Debug)]
pub enum BenchWatch {
    /// Busy for too long: clear the bench with this message.
    Expired(String),
    /// No progress for too long: cancel the bench with this message.
    Stalled(String),
    /// Log this "still benching" line.
    Notify(String),
    /// Nothing to do.
    Quiet,
}

/// The watchdog over a bench that started `elapsed` seconds ago and last
/// reported progress `last_prog` seconds ago: cleared after 210 s, cancelled
/// after 50 s with 45 s of silence, otherwise a reminder when one is due.
pub open spec fn bench_watch_ok(r: BenchWatch, elapsed: u64, last_prog: u64, notify_due: bool, status: Seq<char>) -> bool {
    if elapsed >= 210 {
        r matches BenchWatch::Expired(m) && m@ == "Bench watchdog: still busy after "@ + crate::text::dec(
            elapsed as nat,
        ) + "s — cleared. Retry Bench or Push firmware if it hangs again."@
    } else if elapsed >= 50 && last_prog >= 45 {
        r matches BenchWatch::Stalled(m) && m@ == "Bench stuck — no progress for "@ + crate::text::dec(
            last_prog as nat,
        ) + "s (elapsed "@ + crate::text::dec(elapsed as nat)
            + "s). Cancelled; update board FW if this repeats."@
    } else if notify_due {
        r matches BenchWatch::Notify(m) && m@ == "Still benching… "@ + (if status.len() == 0 {
            "tuning SHA paths"@
        } else {
            status
        }) + " · "@ + crate::text::dec(elapsed as nat) + "s"@
    } else {
        r is Quiet
    }
}

pub fn bench_watch(elapsed: u64, last_prog: u64, notify_due: bool, status: &str) -> (r: BenchWatch)
    ensures
        bench_watch_ok(r, elapsed, last_prog, notify_due, status@),
{
    let mut out: Vec<char> = Vec::new();
    if elapsed >= 210 {
        extend_str(&mut out, "Bench watchdog: still busy after ");
        crate::text::push_dec(&mut out, elapsed);
        extend_str(&mut out, "s — cleared. Retry Bench or Push firmware if it hangs again.");
        BenchWatch::Expired(string_of(out.as_slice()))
    } else if elapsed >= 50 && last_prog >= 45 {
        extend_str(&mut out, "Bench stuck — no progress for ");
        crate::text::push_dec(&mut out, last_prog);
        extend_str(&mut out, "s (elapsed ");
        crate::text::push_dec(&mut out, elapsed);
        extend_str(&mut out, "s). Cancelled; update board FW if this repeats.");
        BenchWatch::Stalled(string_of(out.as_slice()))
    } else if notify_due {
        extend_str(&mut out, "Still benching… ");
        let sc = chars_of(status);
        if sc.len() == 0 {
            extend_str(&mut out, "tuning SHA paths");
        } else {
            extend_str(&mut out, status);
        }
        extend_str(&mut out, " · ");
        crate::text::push_dec(&mut out, elapsed);
        extend_str(&mut out, "s");
        BenchWatch::Notify(string_of(out.as_slice()))
    } else {
        BenchWatch::Quiet
    }
}

// ----- errors and endpoints -----

/// I/O error texts that mean the board is gone (unplugged, port closed).
pub open spec fn unplug_markers() -> Seq<Seq<char>> {
    seq![
        "write:"@,
        "access is denied"@,
        "no such file"@,
        "broken pipe"@,
        "not connected"@,
        "connection reset"@,
        "clearcomm"@,
        "device"@,
        "os error 5"@,
        "os error 6"@,
        "os error 21"@,
        "os error 22"@,
        "os error 1167"@,
        "the device does not recognize"@,
        "the semaphore timeout"@,
    ]
}

pub open spec fn spec_usb_err_looks_unplugged(err: Seq<char>) -> bool {
    exists|k: int| 0 <= k < 15 && contains(lower_seq(err), #[trigger] unplug_markers()[k])
}

fn unplug_marker(k: usize) -> (r: &'static str)
    requires
        k < 15,
    ensures
        r@ == unplug_markers()[k as int],
{
    if k == 0 {
        "write:"
    } else if k == 1 {
        "access is denied"
    } else if k == 2 {
        "no such file"
    } else if k == 3 {
        "broken pipe"
    } else if k == 4 {
        "not connected"
    } else if k == 5 {
        "connection reset"
    } else if k == 6 {
        "clearcomm"
    } else if k == 7 {
        "device"
    } else if k == 8 {
        "os error 5"
    } else if k == 9 {
        "os error 6"
    } else if k == 10 {
        "os error 21"
    } else if k == 11 {
        "os error 22"
    } else if k == 12 {
        "os error 1167"
    } else if k == 13 {
        "the device does not recognize"
    } else {
        "the semaphore timeout"
    }
}

/// Whether a board I/O error means the board is gone (case-insensitive).
pub fn usb_err_looks_unplugged(err: &str) -> (r: bool)
    ensures
        r == spec_usb_err_looks_unplugged(err@),
{
    let c = chars_of(err);
    let e = lower_chars(c.as_slice());
    let mut k: usize = 0;
    while k < 15
        invariant
            k <= 15,
            e@ == lower_seq(err@),
            forall|j: int| 0 <= j < k ==> !contains(e@, #[trigger] unplug_markers()[j]),
        decreases 15 - k,
    {
        if contains_str(e.as_slice(), unplug_marker(k)) {
            return true;
        }
        k = k + 1;
    }
    false
}

/// The SoftAP setup portal (`10.88.88.x:19284`), which has no pool uplink.
pub open spec fn spec_is_softap_setup(endpoint: Seq<char>) -> bool {
    let ep = trim(endpoint);
    starts_with(ep, "10.88.88."@) || contains(ep, "@10.88.88."@)
}

pub fn board_endpoint_is_softap_setup(endpoint: &str) -> (r: bool)
    ensures
        r == spec_is_softap_setup(endpoint@),
{
    let ep = trimmed(endpoint);
    starts_with_str(ep.as_slice(), "10.88.88.") || contains_str(ep.as_slice(), "@10.88.88.")
}

/// The pool reconnect delay after one more failure: doubled, at most 60 s.
pub open spec fn spec_next_backoff(secs: u64) -> u64 {
    if secs >= 30 {
        60
    } else {
        (2 * secs) as u64
    }
}

pub fn next_backoff(secs: u64) -> (r: u64)
    ensures
        r == spec_next_backoff(secs),
{
    if secs >= 30 {
        60
    } else {
        2 * secs
    }
}

/// Whether a newly linked board starts hashing.
#[derive(Clone, Copy, Debug, PartialEq, Eq, Structural)]
pub enum ArmDecision {
    /// Not mining, or a board in ROM download mode: leave it idle.
    Idle,
    /// The board sits on the SoftAP setup portal: no pool path, warn and skip.
    SkipSoftAp,
    /// Reset its share counters and push the warm-up job.
    Arm,
}

pub open spec fn spec_arm_decision(download_mode: bool, mining: bool, name: Seq<char>) -> ArmDecision {
    if download_mode || !mining {
        ArmDecision::Idle
    } else if spec_is_softap_setup(name) {
        ArmDecision::SkipSoftAp
    } else {
        ArmDecision::Arm
    }
}

pub fn arm_decision(download_mode: bool, mining: bool, name: &str) -> (r: ArmDecision)
    ensures
        r == spec_arm_decision(download_mode, mining, name@),
{
    if download_mode || !mining {
        ArmDecision::Idle
    } else if board_endpoint_is_softap_setup(name) {
        ArmDecision::SkipSoftAp
    } else {
        ArmDecision::Arm
    }
}

// ----- the receive buffer -----

/// How many leading chars of `s` cover at least `cut` of its UTF-8 bytes:
/// the first char boundary at or after byte `cut`.
pub open spec fn chars_covering(s: Seq<char>, cut: int) -> int
    decreases s.len(),
{
    if cut <= 0 || s.len() == 0 {
        0
    } else {
        1 + chars_covering(s.drop_first(), cut - crate::text::char_width(s[0]))
    }
}

/// A receive buffer over `limit` UTF-8 bytes keeps only its last `keep`
/// bytes, the cut moved forward to the next char boundary.
pub open spec fn spec_rx_tail(s: Seq<char>, limit: nat, keep: nat) -> Seq<char> {
    let n = crate::text::utf8(s).len();
    if n > limit {
        s.skip(chars_covering(s, n - keep))
    } else {
        s
    }
}

proof fn lemma_chars_covering_bound(s: Seq<char>, cut: int)
    ensures
        0 <= chars_covering(s, cut) <= s.len(),
    decreases s.len(),
{
    if cut > 0 && s.len() > 0 {
        lemma_chars_covering_bound(s.drop_first(), cut - crate::text::char_width(s[0]));
    }
}

proof fn lemma_chars_covering_reaches(s: Seq<char>, cut: int)
    requires
        cut <= crate::text::utf8(s).len(),
    ensures
        crate::text::utf8(s.take(chars_covering(s, cut))).len() >= cut,
    decreases s.len(),
{
    lemma_chars_covering_bound(s, cut);
    if cut <= 0 || s.len() == 0 {
        assert(s.take(0) =~= Seq::<char>::empty());
        assert(crate::text::utf8(Seq::<char>::empty()).len() == 0) by {
            assert(crate::text::utf8(Seq::<char>::empty()) =~= Seq::<u8>::empty());
        }
    } else {
        let head = seq![s[0]];
        let t = s.drop_first();
        let w = crate::text::char_width(s[0]);
        assert(s =~= head + t);
        crate::text::lemma_utf8_concat(head, t);
        assert(crate::text::utf8(head).len() == w) by {
            assert(head.take(1) =~= head);
            assert(head.take(0) =~= Seq::<char>::empty());
            crate::text::lemma_utf8_take(head, 0);
            assert(crate::text::utf8(Seq::<char>::empty()) =~= Seq::<u8>::empty());
        }
        lemma_chars_covering_reaches(t, cut - w);
        lemma_chars_covering_bound(t, cut - w);
        let c2 = chars_covering(t, cut - w);
        assert(s.take(1 + c2) =~= head + t.take(c2));
        crate::text::lemma_utf8_concat(head, t.take(c2));
    }
}

/// The receive buffer stays bounded: what is kept is a tail of it, and holds
/// at most `limit` UTF-8 bytes when it was not cut, else at most `keep`.
pub proof fn lemma_rx_tail_bounded(s: Seq<char>, limit: nat, keep: nat)
    ensures
        exists|k: int| 0 <= k <= s.len() && #[trigger] s.skip(k) == spec_rx_tail(s, limit, keep),
        crate::text::utf8(spec_rx_tail(s, limit, keep)).len() <= if crate::text::utf8(s).len() > limit {
            keep
        } else {
            limit
        },
{
    let n = crate::text::utf8(s).len();
    if n > limit {
        let c = chars_covering(s, n - keep);
        lemma_chars_covering_bound(s, n - keep);
        lemma_chars_covering_reaches(s, n - keep);
        assert(s =~= s.take(c) + s.skip(c));
        crate::text::lemma_utf8_concat(s.take(c), s.skip(c));
    } else {
        assert(s.skip(0) =~= s);
    }
}

/// Trims a receive buffer that grew past `limit` bytes to its last `keep` bytes.
pub fn rx_tail(buf: &str, limit: usize, keep: usize) -> (r: String)
    ensures
        r@ == spec_rx_tail(buf@, limit as nat, keep as nat),
{
    let s = chars_of(buf);
    let bytes = buf.as_bytes();
    let total = bytes.len();
    assert(total == crate::text::utf8(s@).len());
    if total <= limit {
        return string_of(s.as_slice());
    }
    let cut: usize = if total > keep {
        total - keep
    } else {
        0
    };
    let mut k: usize = 0;
    let mut b: usize = 0;
    assert(s@.skip(0) =~= s@);
    proof {
        lemma_chars_covering_bound(s@, (total - keep) as int);
    }
    while b < cut && k < s.len()
        invariant
            k <= s@.len(),
            b <= cut,
            chars_covering(s@, total - keep) == k + chars_covering(s@.skip(k as int), cut - b),
            cut == if total > keep { total - keep } else { 0 },
        decreases s@.len() - k,
    {
        let w = crate::text::utf8_width(s[k]);
        let ghost rem = s@.skip(k as int);
        assert(rem[0] == s@[k as int]);
        assert(rem.drop_first() =~= s@.skip(k + 1));
        assert(chars_covering(rem, cut - b) == 1 + chars_covering(rem.drop_first(), cut - b - w));
        if w >= cut - b {
            assert(chars_covering(s@.skip(k + 1), cut - b - w) == 0);
            assert(chars_covering(s@.skip(k + 1), 0) == 0);
            b = cut;
        } else {
            b = b + w;
        }
        k = k + 1;
    }
    let rest = crate::text::sub_chars(s.as_slice(), k, s.len());
    assert(rest@ =~= s@.skip(k as int));
    string_of(rest.as_slice())
}

/// A share notice line (`CMPSHARE …`), whitespace around it ignored.
pub open spec fn is_share_notice(l: Seq<char>) -> bool {
    starts_with(trim(l), "CMPSHARE "@)
}

/// The share notices among `lines`, each trimmed and ended by a line feed.
pub open spec fn share_notices_text(lines: Seq<Seq<char>>) -> Seq<char>
    decreases lines.len(),
{
    if lines.len() == 0 {
        Seq::empty()
    } else {
        let rest = share_notices_text(lines.drop_first());
        if is_share_notice(lines[0]) {
            trim(lines[0]) + "\n"@ + rest
        } else {
            rest
        }
    }
}

fn share_notices_of(buf: &[char]) -> (r: Vec<char>)
    ensures
        r@ == share_notices_text(split_lines(buf@)),
{
    let mut out: Vec<char> = Vec::new();
    let mut cur: Vec<char> = crate::text::sub_chars(buf, 0, buf.len());
    assert(cur@ =~= buf@);
    loop
        invariant
            share_notices_text(split_lines(buf@)) == out@ + share_notices_text(
                split_lines(cur@),
            ),
        decreases cur@.len(),
    {
        let (piece, rest) = first_line(cur.as_slice());
        let t = crate::text::trim_chars(piece.as_slice());
        let ghost before = out@;
        if starts_with_str(t.as_slice(), "CMPSHARE ") {
            extend_chars(&mut out, t.as_slice());
            out.push('\n');
            proof {
                reveal_strlit("\n");
            }
            assert(out@ =~= before + (trim(piece@) + "\n"@));
        }
        proof {
            let ls = split_lines(cur@);
            assert(ls[0] == piece@);
            if is_share_notice(piece@) {
                assert(share_notices_text(ls) == trim(piece@) + "\n"@ + share_notices_text(
                    ls.drop_first(),
                ));
            }
        }
        match rest {
            Some(tail) => {
                assert(out@ + share_notices_text(split_lines(tail@)) =~= before
                    + share_notices_text(split_lines(cur@)));
                cur = tail;
            },
            None => {
                assert(split_lines(cur@).drop_first() =~= Seq::<Seq<char>>::empty());
                assert(share_notices_text(split_lines(cur@).drop_first()) =~= Seq::<char>::empty());
                assert(out@ =~= before + share_notices_text(split_lines(cur@)));
                assert(out@ =~= out@ + share_notices_text(Seq::<Seq<char>>::empty()));
                return out;
            },
        }
    }
}

/// Only the share notices of a receive buffer (sent before a new command so
/// stale replies cannot answer it).
pub fn keep_share_lines(buf: &str) -> (r: String)
    ensures
        r@ == share_notices_text(split_lines(buf@)),
{
    let c = chars_of(buf);
    let out = share_notices_of(c.as_slice());
    string_of(out.as_slice())
}

/// What a reply means for the command that waits for it.
#[derive(Debug)]
pub enum ReplyStep {
    /// `CMPERR…`: the command failed with this reply.
    Failed(String),
    /// `CMPBENCHPROG…`: bench progress; keep waiting.
    Progress(String),
    /// Any other reply answers the command.
    Done(String),
}

/// The buffer once `reply` is taken out of it: only share notices stay.
pub open spec fn spec_after_reply(buf: Seq<char>, reply: Seq<char>) -> Seq<char> {
    match first_occurrence(buf, reply) {
        Some(pos) => share_notices_text(split_lines(buf.take(pos) + buf.skip(pos + reply.len()))),
        None => buf,
    }
}

pub open spec fn reply_step_ok(r: ReplyStep, reply: Seq<char>) -> bool {
    match r {
        ReplyStep::Failed(x) => x@ == reply && starts_with(reply, "CMPERR"@),
        ReplyStep::Progress(x) => x@ == reply && !starts_with(reply, "CMPERR"@) && starts_with(
            reply,
            "CMPBENCHPROG"@,
        ),
        ReplyStep::Done(x) => x@ == reply && !starts_with(reply, "CMPERR"@) && !starts_with(
            reply,
            "CMPBENCHPROG"@,
        ),
    }
}

/// The buffer with `reply` cut out (its first occurrence), keeping share notices.
fn cut_reply(b: &[char], rc: &[char]) -> (r: Vec<char>)
    ensures
        r@ == spec_after_reply(b@, rc@),
{
    match find(b, rc) {
        Some(pos) => {
            proof {
                crate::text::lemma_first_occurrence(b@, rc@, pos as int);
            }
            let n = b.len();
            let mut rest = crate::text::sub_chars(b, 0, pos);
            let tail = crate::text::sub_chars(b, pos + rc.len(), n);
            extend_chars(&mut rest, tail.as_slice());
            assert(rest@ =~= b@.take(pos as int) + b@.skip(pos + rc@.len()));
            share_notices_of(rest.as_slice())
        },
        None => crate::text::sub_chars(b, 0, b.len()),
    }
}

/// Takes the first `cmp` reply out of the receive buffer, if one has come.
pub fn take_reply(buf: &mut String) -> (r: Option<ReplyStep>)
    ensures
        match spec_cmp_reply_line(old(buf)@) {
            None => r is None && final(buf)@ == old(buf)@,
            Some(reply) => {
                &&& final(buf)@ == spec_after_reply(old(buf)@, reply)
                &&& r matches Some(step) && reply_step_ok(step, reply)
            },
        },
{
    let reply = match cmp_reply_line(buf.as_str()) {
        Some(v) => v,
        None => {
            return None;
        },
    };
    let b = chars_of(buf.as_str());
    let rc = chars_of(reply.as_str());
    let kept = cut_reply(b.as_slice(), rc.as_slice());
    *buf = string_of(kept.as_slice());
    if starts_with_str(rc.as_slice(), "CMPERR") {
        Some(ReplyStep::Failed(reply))
    } else if starts_with_str(rc.as_slice(), "CMPBENCHPROG") {
        Some(ReplyStep::Progress(reply))
    } else {
        Some(ReplyStep::Done(reply))
    }
}

// ----- job pushes -----

/// `CMPACK…` or `CMP ok…`: the board took the command.
pub open spec fn is_ack(reply: Seq<char>) -> bool {
    starts_with(reply, "CMPACK"@) || starts_with(reply, "CMP ok"@)
}

/// What one reply to a split job part means.
#[derive(Debug)]
pub enum JobReply {
    Accepted,
    /// Old firmware refused split jobs: warn with this text and use the legacy job.
    Fallback(String),
    /// The push failed with this error.
    Failed(String),
}

pub open spec fn job_reply_ok(r: JobReply, part: Seq<char>, reply: Result<Seq<char>, Seq<char>>) -> bool {
    match reply {
        Ok(x) => if is_ack(x) {
            r is Accepted
        } else if contains(x, "unknown"@) || starts_with(x, "CMPERR"@) {
            r matches JobReply::Fallback(m) && m@ == "Board rejected `"@ + part + "` ("@ + x
                + ") — falling back to legacy job"@
        } else {
            r matches JobReply::Failed(m) && m@ == "unexpected job reply: "@ + x
        },
        Err(e) => if contains(e, "CMPERR"@) && contains(e, "unknown"@) {
            r matches JobReply::Fallback(m) && m@ == "Board rejected split job ("@ + e
                + ") — falling back to legacy job"@
        } else {
            r matches JobReply::Failed(m) && m@ == e
        },
    }
}

pub open spec fn result_text(r: Result<String, String>) -> Result<Seq<char>, Seq<char>> {
    match r {
        Ok(x) => Ok(x@),
        Err(e) => Err(e@),
    }
}

fn joined(parts: &[&str]) -> (r: String)
    ensures
        r@ == parts@.fold_left(Seq::<char>::empty(), |acc: Seq<char>, p: &str| acc + p@),
{
    let mut out: Vec<char> = Vec::new();
    let mut i: usize = 0;
    while i < parts.len()
        invariant
            i <= parts@.len(),
            out@ == parts@.take(i as int).fold_left(
                Seq::<char>::empty(),
                |acc: Seq<char>, p: &str| acc + p@,
            ),
        decreases parts@.len() - i,
    {
        extend_str(&mut out, parts[i]);
        assert(parts@.take(i + 1).drop_last() =~= parts@.take(i as int));
        i = i + 1;
    }
    assert(parts@.take(parts@.len() as int) =~= parts@);
    string_of(out.as_slice())
}

/// Classifies the board's reply to one split job part (`cmp jh/jt/ja`).
pub fn split_job_reply(part: &str, reply: Result<String, String>) -> (r: JobReply)
    ensures
        job_reply_ok(r, part@, result_text(reply)),
{
    match reply {
        Ok(x) => {
            let c = chars_of(x.as_str());
            if starts_with_str(c.as_slice(), "CMPACK") || starts_with_str(c.as_slice(), "CMP ok") {
                JobReply::Accepted
            } else if contains_str(c.as_slice(), "unknown") || starts_with_str(
                c.as_slice(),
                "CMPERR",
            ) {
                let m = joined(
                    [
                        "Board rejected `",
                        part,
                        "` (",
                        x.as_str(),
                        ") — falling back to legacy job",
                    ].as_slice(),
                );
                proof {
                    reveal_with_fuel(Seq::fold_left, 6);
                }
                JobReply::Fallback(m)
            } else {
                let m = joined(["unexpected job reply: ", x.as_str()].as_slice());
                proof {
                    reveal_with_fuel(Seq::fold_left, 3);
                }
                JobReply::Failed(m)
            }
        },
        Err(e) => {
            let c = chars_of(e.as_str());
            if contains_str(c.as_slice(), "CMPERR") && contains_str(c.as_slice(), "unknown") {
                let m = joined(
                    ["Board rejected split job (", e.as_str(), ") — falling back to legacy job"].as_slice(),
                );
                proof {
                    reveal_with_fuel(Seq::fold_left, 4);
                }
                JobReply::Fallback(m)
            } else {
                JobReply::Failed(e)
            }
        },
    }
}

/// The reply to the legacy one-shot `cmp job …`: an acknowledgement, or the error.
pub fn legacy_job_reply(reply: Result<String, String>) -> (r: Result<(), String>)
    ensures
        match result_text(reply) {
            Ok(x) => if is_ack(x) {
                r is Ok
            } else {
                r matches Err(m) && m@ == "unexpected job reply: "@ + x
            },
            Err(e) => r matches Err(m) && m@ == e,
        },
{
    match reply {
        Ok(x) => {
            let c = chars_of(x.as_str());
            if starts_with_str(c.as_slice(), "CMPACK") || starts_with_str(c.as_slice(), "CMP ok") {
                Ok(())
            } else {
                let m = joined(["unexpected job reply: ", x.as_str()].as_slice());
                proof {
                    reveal_with_fuel(Seq::fold_left, 3);
                }
                Err(m)
            }
        },
        Err(e) => Err(e),
    }
}

// ----- board shares -----

/// One `CMPSHARE job=…&en2=…&ntime=…&nonce=…` notice from a board.
#[derive(Clone, Debug)]
pub struct ShareNotice {
    pub job: String,
    pub en2: String,
    pub ntime: String,
    pub nonce: String,
}

pub open spec fn notice_view(s: ShareNotice) -> (Seq<char>, Seq<char>, Seq<char>, Seq<char>) {
    (s.job@, s.en2@, s.ntime@, s.nonce@)
}

pub open spec fn notices_view(q: Seq<ShareNotice>) -> Seq<(Seq<char>, Seq<char>, Seq<char>, Seq<char>)> {
    q.map_values(|s: ShareNotice| notice_view(s))
}

/// The value of `key` among `k=v` parts: the last part with that key wins,
/// empty when none has it.
pub open spec fn share_field(parts: Seq<Seq<char>>, key: Seq<char>) -> Seq<char>
    decreases parts.len(),
{
    if parts.len() == 0 {
        Seq::empty()
    } else if part_key(parts.last()) == key {
        part_value(parts.last())
    } else {
        share_field(parts.drop_last(), key)
    }
}

/// The fields of a notice's text after `CMPSHARE `.
pub open spec fn spec_parse_share(rest: Seq<char>) -> (Seq<char>, Seq<char>, Seq<char>, Seq<char>) {
    let parts = split_on(rest, '&');
    (
        share_field(parts, "job"@),
        share_field(parts, "en2"@),
        share_field(parts, "ntime"@),
        share_field(parts, "nonce"@),
    )
}

fn chars_eq(a: &[char], b: &str) -> (r: bool)
    ensures
        r == (a@ == b@),
{
    crate::text::eq_str(a, b)
}

pub fn parse_share(rest: &[char]) -> (r: ShareNotice)
    ensures
        notice_view(r) == spec_parse_share(rest@),
{
    let ghost parts = split_on(rest@, '&');
    let mut job: Vec<char> = Vec::new();
    let mut en2: Vec<char> = Vec::new();
    let mut ntime: Vec<char> = Vec::new();
    let mut nonce: Vec<char> = Vec::new();
    let mut cur: Vec<char> = crate::text::sub_chars(rest, 0, rest.len());
    assert(cur@ =~= rest@);
    let ghost mut i: int = 0;
    assert(parts.skip(0) =~= parts);
    loop
        invariant
            parts == split_on(rest@, '&'),
            0 <= i < parts.len(),
            split_on(cur@, '&') == parts.skip(i),
            job@ == share_field(parts.take(i), "job"@),
            en2@ == share_field(parts.take(i), "en2"@),
            ntime@ == share_field(parts.take(i), "ntime"@),
            nonce@ == share_field(parts.take(i), "nonce"@),
        decreases cur@.len(),
    {
        let (piece, tail) = crate::text::split_first(cur.as_slice(), '&');
        assert(piece@ == parts[i]);
        let (k, v) = split_part(piece.as_slice());
        assert(parts.take(i + 1).drop_last() =~= parts.take(i));
        assert(parts.take(i + 1).last() == parts[i]);
        proof {
            reveal_strlit("job");
            reveal_strlit("en2");
            reveal_strlit("ntime");
            reveal_strlit("nonce");
            let t1 = parts.take(i + 1);
            assert(share_field(t1, "job"@) == if part_key(parts[i]) == "job"@ {
                part_value(parts[i])
            } else {
                share_field(parts.take(i), "job"@)
            });
            assert(share_field(t1, "en2"@) == if part_key(parts[i]) == "en2"@ {
                part_value(parts[i])
            } else {
                share_field(parts.take(i), "en2"@)
            });
            assert(share_field(t1, "ntime"@) == if part_key(parts[i]) == "ntime"@ {
                part_value(parts[i])
            } else {
                share_field(parts.take(i), "ntime"@)
            });
            assert(share_field(t1, "nonce"@) == if part_key(parts[i]) == "nonce"@ {
                part_value(parts[i])
            } else {
                share_field(parts.take(i), "nonce"@)
            });
        }
        if chars_eq(k.as_slice(), "job") {
            job = crate::text::sub_chars(v.as_slice(), 0, v.len());
        }
        if chars_eq(k.as_slice(), "en2") {
            en2 = crate::text::sub_chars(v.as_slice(), 0, v.len());
        }
        if chars_eq(k.as_slice(), "ntime") {
            ntime = crate::text::sub_chars(v.as_slice(), 0, v.len());
        }
        if chars_eq(k.as_slice(), "nonce") {
            nonce = v;
        }
        assert(job@ == share_field(parts.take(i + 1), "job"@));
        assert(en2@ == share_field(parts.take(i + 1), "en2"@));
        assert(ntime@ == share_field(parts.take(i + 1), "ntime"@));
        assert(nonce@ == share_field(parts.take(i + 1), "nonce"@));
        match tail {
            Some(t) => {
                assert(parts.skip(i).drop_first() =~= parts.skip(i + 1));
                cur = t;
                proof {
                    i = i + 1;
                }
            },
            None => {
                assert(parts.skip(i).len() == 1);
                assert(parts.take(i + 1) =~= parts);
                let r = ShareNotice {
                    job: string_of(job.as_slice()),
                    en2: string_of(en2.as_slice()),
                    ntime: string_of(ntime.as_slice()),
                    nonce: string_of(nonce.as_slice()),
                };
                assert(r.job@ == share_field(parts, "job"@));
                assert(r.en2@ == share_field(parts, "en2"@));
                assert(r.ntime@ == share_field(parts, "ntime"@));
                assert(r.nonce@ == share_field(parts, "nonce"@));
                return r;
            },
        }
    }
}

fn split_part(p: &[char]) -> (r: (Vec<char>, Vec<char>))
    ensures
        r.0@ == part_key(p@),
        r.1@ == part_value(p@),
{
    match crate::text::first_index_of(p, '=') {
        Some(i) => {
            let n = p.len();
            (crate::text::sub_chars(p, 0, i), crate::text::sub_chars(p, i + 1, n))
        },
        None => (crate::text::sub_chars(p, 0, p.len()), Vec::new()),
    }
}

/// What one pass over the receive buffer collected.
#[derive(Debug)]
pub struct Harvest {
    /// The other non-empty lines, trimmed, each ended by a line feed.
    pub keep: String,
    /// Shares to submit (or hold), in the order the board sent them.
    pub shares: Vec<ShareNotice>,
    /// Nonces of warm-up shares that were ignored (for the log).
    pub ignored_warmup: Vec<String>,
}

/// The pass over `lines`: share notices are parsed; when `discard` is set (a
/// board on its own pool session) or the job is a warm-up job they are not
/// kept; other non-empty lines are kept.
pub open spec fn spec_harvest(lines: Seq<Seq<char>>, discard: bool) -> (
    Seq<char>,
    Seq<(Seq<char>, Seq<char>, Seq<char>, Seq<char>)>,
    Seq<Seq<char>>,
)
    decreases lines.len(),
{
    if lines.len() == 0 {
        (Seq::empty(), Seq::empty(), Seq::empty())
    } else {
        let (k, sh, ig) = spec_harvest(lines.drop_last(), discard);
        let t = trim(lines.last());
        if starts_with(t, "CMPSHARE "@) {
            let f = spec_parse_share(t.skip(9));
            if discard {
                (k, sh, ig)
            } else if spec_is_warmup_job_id(f.0) {
                (k, sh, ig.push(f.3))
            } else {
                (k, sh.push(f), ig)
            }
        } else if t.len() > 0 {
            (k + t + "\n"@, sh, ig)
        } else {
            (k, sh, ig)
        }
    }
}

pub open spec fn strings_view(v: Seq<String>) -> Seq<Seq<char>> {
    v.map_values(|s: String| s@)
}

/// Share `s` is the notice on line `l`: the line is `CMPSHARE <parts>` and
/// each field is the value under its own key among the `&`-separated parts.
pub open spec fn share_from_line(l: Seq<char>, s: (Seq<char>, Seq<char>, Seq<char>, Seq<char>)) -> bool {
    let t = trim(l);
    let parts = split_on(t.skip(9), '&');
    &&& starts_with(t, "CMPSHARE "@)
    &&& s.0 == share_field(parts, "job"@)
    &&& s.1 == share_field(parts, "en2"@)
    &&& s.2 == share_field(parts, "ntime"@)
    &&& s.3 == share_field(parts, "nonce"@)
}

/// Each share of `shares` is the notice of one of `lines`.
pub open spec fn shares_from_lines(
    lines: Seq<Seq<char>>,
    shares: Seq<(Seq<char>, Seq<char>, Seq<char>, Seq<char>)>,
) -> bool {
    forall|i: int| 0 <= i < shares.len() ==> #[trigger] some_line_has(lines, shares[i])
}

/// Share `s` is the notice of one of `lines`.
pub open spec fn some_line_has(lines: Seq<Seq<char>>, s: (Seq<char>, Seq<char>, Seq<char>, Seq<char>)) -> bool {
    exists|j: int| 0 <= j < lines.len() && #[trigger] share_from_line(lines[j], s)
}

/// Every harvested share is the notice of one of the lines, field by field
/// (its extranonce2 is the value under `en2`, its ntime the value under
/// `ntime`), and a board on its own pool session yields none.
pub proof fn lemma_harvested_shares(lines: Seq<Seq<char>>, discard: bool)
    ensures
        shares_from_lines(lines, spec_harvest(lines, discard).1),
        discard ==> spec_harvest(lines, discard).1.len() == 0,
    decreases lines.len(),
{
    if lines.len() > 0 {
        let prev = lines.drop_last();
        lemma_harvested_shares(prev, discard);
        let sh0 = spec_harvest(prev, discard).1;
        let sh = spec_harvest(lines, discard).1;
        let t = trim(lines.last());
        let f = spec_parse_share(t.skip(9));
        let pushed = starts_with(t, "CMPSHARE "@) && !discard && !spec_is_warmup_job_id(f.0);
        assert(sh == if pushed { sh0.push(f) } else { sh0 });
        assert forall|i: int| 0 <= i < sh.len() implies #[trigger] some_line_has(lines, sh[i]) by {
            if i < sh0.len() {
                assert(sh[i] == sh0[i]);
                assert(some_line_has(prev, sh0[i]));
                let j = choose|j: int| 0 <= j < prev.len() && #[trigger] share_from_line(prev[j], sh0[i]);
                assert(lines[j] == prev[j]);
                assert(share_from_line(lines[j], sh[i]));
            } else {
                let j = lines.len() - 1;
                assert(pushed);
                assert(sh[i] == f);
                assert(lines[j] == lines.last());
                assert(share_from_line(lines[j], sh[i]));
            }
        }
        assert(shares_from_lines(lines, sh));
    } else {
        assert(spec_harvest(lines, discard).1 =~= Seq::<(Seq<char>, Seq<char>, Seq<char>, Seq<char>)>::empty());
    }
}

/// A single notice line with a real job is harvested as exactly its share.
pub proof fn lemma_harvest_one_notice(l: Seq<char>, s: (Seq<char>, Seq<char>, Seq<char>, Seq<char>))
    requires
        share_from_line(l, s),
        !spec_is_warmup_job_id(s.0),
    ensures
        spec_harvest(seq![l], false).1 == seq![s],
{
    let lines = seq![l];
    assert(lines.drop_last() =~= Seq::<Seq<char>>::empty());
    assert(lines.last() == l);
    let t = trim(l);
    let f = spec_parse_share(t.skip(9));
    assert(f == s);
    assert(spec_harvest(lines.drop_last(), false).1 =~= Seq::<(Seq<char>, Seq<char>, Seq<char>, Seq<char>)>::empty());
    assert(spec_harvest(lines, false).1 == spec_harvest(lines.drop_last(), false).1.push(f));
    assert(Seq::<(Seq<char>, Seq<char>, Seq<char>, Seq<char>)>::empty().push(s) =~= seq![s]);
}

/// Sorts a receive buffer into share notices and other lines.
pub fn harvest_lines(buf: &str, discard: bool) -> (r: Harvest)
    ensures
        (r.keep@, notices_view(r.shares@), strings_view(r.ignored_warmup@)) == spec_harvest(
            split_lines(buf@),
            discard,
        ),
{
    let ghost lines = split_lines(buf@);
    let mut keep: Vec<char> = Vec::new();
    let mut shares: Vec<ShareNotice> = Vec::new();
    let mut ignored: Vec<String> = Vec::new();
    let c = chars_of(buf);
    let mut cur: Vec<char> = c;
    let ghost mut i: int = 0;
    assert(lines.skip(0) =~= lines);
    assert(lines.take(0) =~= Seq::<Seq<char>>::empty());
    proof {
        crate::monitor_api::lemma_split_lines_nonempty(buf@);
    }
    loop
        invariant
            lines == split_lines(buf@),
            0 <= i < lines.len(),
            split_lines(cur@) == lines.skip(i),
            (keep@, notices_view(shares@), strings_view(ignored@)) == spec_harvest(
                lines.take(i),
                discard,
            ),
        decreases cur@.len(),
    {
        let (piece, tail) = first_line(cur.as_slice());
        assert(piece@ == lines[i]);
        assert(lines.take(i + 1).drop_last() =~= lines.take(i));
        assert(lines.take(i + 1).last() == lines[i]);
        let t = crate::text::trim_chars(piece.as_slice());
        let ghost sh0 = shares@;
        let ghost ig0 = ignored@;
        if starts_with_str(t.as_slice(), "CMPSHARE ") {
            proof {
                reveal_strlit("CMPSHARE ");
            }
            let body = crate::text::sub_chars(t.as_slice(), 9, t.len());
            assert(body@ =~= t@.skip(9));
            let f = parse_share(body.as_slice());
            if !discard {
                if crate::miner::is_warmup_job_id(f.job.as_str()) {
                    ignored.push(f.nonce);
                    assert(strings_view(ignored@) =~= strings_view(ig0).push(f.nonce@));
                } else {
                    shares.push(f);
                    assert(notices_view(shares@) =~= notices_view(sh0).push(notice_view(f)));
                }
            }
        } else if t.len() > 0 {
            extend_chars(&mut keep, t.as_slice());
            keep.push('\n');
            proof {
                reveal_strlit("\n");
            }
        }
        match tail {
            Some(tl) => {
                assert(lines.skip(i).drop_first() =~= lines.skip(i + 1));
                cur = tl;
                proof {
                    i = i + 1;
                }
            },
            None => {
                assert(lines.skip(i).len() == 1);
                assert(lines.take(i + 1) =~= lines);
                return Harvest {
                    keep: string_of(keep.as_slice()),
                    shares,
                    ignored_warmup: ignored,
                };
            },
        }
    }
}

/// Holds shares while the pool is away: at most 64, the oldest go first.
pub fn hold_shares(held: &mut VecDeque<ShareNotice>, shares: Vec<ShareNotice>)
    ensures
        notices_view(final(held)@) == hold_all(notices_view(old(held)@), notices_view(shares@)),
{
    let mut i: usize = 0;
    let ghost h0 = notices_view(held@);
    while i < shares.len()
        invariant
            i <= shares@.len(),
            notices_view(held@) == hold_all(h0, notices_view(shares@).take(i as int)),
        decreases shares@.len() - i,
    {
        let s = shares[i].clone_notice();
        let ghost before = held@;
        push_capped(held, s, 64);
        assert(notices_view(shares@).take(i + 1).drop_last() =~= notices_view(shares@).take(
            i as int,
        ));
        assert(notices_view(held@) =~= capped_push(notices_view(before), notice_view(s), 64));
        i = i + 1;
    }
    assert(notices_view(shares@).take(shares@.len() as int) =~= notices_view(shares@));
}

/// The held queue after holding each of `shares` in turn (cap 64).
pub open spec fn hold_all<T>(held: Seq<T>, shares: Seq<T>) -> Seq<T>
    decreases shares.len(),
{
    if shares.len() == 0 {
        held
    } else {
        capped_push(hold_all(held, shares.drop_last()), shares.last(), 64)
    }
}

/// The shares to submit in one pass: while the pool is up, the held shares
/// (oldest first) and then the new ones, and nothing stays held; while it is
/// down, nothing is submitted and the new shares are held (cap 64).
pub fn share_plan(held: &mut VecDeque<ShareNotice>, shares: Vec<ShareNotice>, pool_up: bool) -> (r: Vec<ShareNotice>)
    ensures
        pool_up ==> notices_view(r@) == notices_view(old(held)@) + notices_view(shares@)
            && final(held)@.len() == 0,
        !pool_up ==> r@.len() == 0 && notices_view(final(held)@) == hold_all(
            notices_view(old(held)@),
            notices_view(shares@),
        ),
{
    let mut out: Vec<ShareNotice> = Vec::new();
    if !pool_up {
        hold_shares(held, shares);
        return out;
    }
    let ghost h0 = notices_view(held@);
    let ghost k: int = 0;
    while held.len() > 0
        invariant
            0 <= k <= h0.len(),
            notices_view(held@) == h0.skip(k),
            notices_view(out@) == h0.take(k),
        decreases held@.len(),
    {
        let ghost before = held@;
        let x = held.pop_front().unwrap();
        proof {
            assert(notices_view(before)[0] == notice_view(x));
            assert(h0.skip(k)[0] == notice_view(x));
            assert(notices_view(held@) =~= notices_view(before).drop_first());
            assert(h0.skip(k).drop_first() =~= h0.skip(k + 1));
        }
        let ghost o0 = notices_view(out@);
        out.push(x);
        proof {
            assert(notices_view(out@) =~= o0.push(notice_view(x)));
            assert(h0.take(k + 1) =~= h0.take(k).push(h0[k]));
            assert(h0[k] == h0.skip(k)[0]);
            k = k + 1;
        }
    }
    assert(h0.skip(k).len() == 0);
    assert(h0.take(k) =~= h0);
    let mut i: usize = 0;
    while i < shares.len()
        invariant
            i <= shares@.len(),
            held@.len() == 0,
            notices_view(out@) == h0 + notices_view(shares@).take(i as int),
        decreases shares@.len() - i,
    {
        let s = shares[i].clone_notice();
        let ghost o0 = notices_view(out@);
        out.push(s);
        assert(notices_view(out@) =~= o0.push(notice_view(s)));
        assert(notices_view(shares@).take(i + 1) =~= notices_view(shares@).take(i as int).push(
            notice_view(shares@[i as int]),
        ));
        assert((h0 + notices_view(shares@).take(i as int)).push(notice_view(s)) =~= h0 + notices_view(
            shares@,
        ).take(i + 1));
        i = i + 1;
    }
    assert(notices_view(shares@).take(shares@.len() as int) =~= notices_view(shares@));
    out
}

impl ShareNotice {
    pub fn clone_notice(&self) -> (r: ShareNotice)
        ensures
            notice_view(r) == notice_view(*self),
    {
        ShareNotice {
            job: string_of(chars_of(self.job.as_str()).as_slice()),
            en2: string_of(chars_of(self.en2.as_str()).as_slice()),
            ntime: string_of(chars_of(self.ntime.as_str()).as_slice()),
            nonce: string_of(chars_of(self.nonce.as_str()).as_slice()),
        }
    }
}

// ----- submitting shares -----

/// What a failed `mining.submit` means for the share.
#[derive(Clone, Copy, Debug, PartialEq, Eq, Structural)]
pub enum SubmitFailure {
    /// The pool already has it: skip.
    Duplicate,
    /// The worker is not authorized yet: hold the share until it is.
    Unauthorized,
    /// Any other error: report it and drop the share.
    Other,
}

pub open spec fn spec_submit_failure(e: Seq<char>) -> SubmitFailure {
    if contains(e, "duplicate share"@) {
        SubmitFailure::Duplicate
    } else if contains(e, "not authorized"@) {
        SubmitFailure::Unauthorized
    } else {
        SubmitFailure::Other
    }
}

pub fn classify_submit_error(e: &str) -> (r: SubmitFailure)
    ensures
        r == spec_submit_failure(e@),
{
    let c = chars_of(e);
    if contains_str(c.as_slice(), "duplicate share") {
        SubmitFailure::Duplicate
    } else if contains_str(c.as_slice(), "not authorized") {
        SubmitFailure::Unauthorized
    } else {
        SubmitFailure::Other
    }
}

/// The cached job a share was mined on: same job id, same extranonce2
/// (ASCII case ignored).
pub open spec fn job_matches(j: WorkJob, job: Seq<char>, en2: Seq<char>) -> bool {
    j.job_id@ == job && lower_seq(j.extranonce2_hex@) == lower_seq(en2)
}

fn same_lower(a: &str, b: &[char]) -> (r: bool)
    ensures
        r == (lower_seq(a@) == b@),
{
    let ac = chars_of(a);
    let al = lower_chars(ac.as_slice());
    if al.len() != b.len() {
        return false;
    }
    let r = crate::text::has_prefix(al.as_slice(), b);
    assert(al@ =~= al@.take(b@.len() as int));
    r
}

/// Index of the newest cached job matching the share's job id and extranonce2.
pub fn find_recent_job(recent: &VecDeque<WorkJob>, job: &str, en2: &str) -> (r: Option<usize>)
    ensures
        match r {
            Some(i) => {
                &&& i < recent@.len()
                &&& job_matches(recent@[i as int], job@, en2@)
                &&& forall|k: int| i < k < recent@.len() ==> !job_matches(recent@[k], job@, en2@)
            },
            None => forall|k: int| 0 <= k < recent@.len() ==> !job_matches(recent@[k], job@, en2@),
        },
{
    let jc = chars_of(job);
    let ec = chars_of(en2);
    let el = lower_chars(ec.as_slice());
    let mut i: usize = recent.len();
    while i > 0
        invariant
            i <= recent@.len(),
            jc@ == job@,
            el@ == lower_seq(en2@),
            forall|k: int| i <= k < recent@.len() ==> !job_matches(recent@[k], job@, en2@),
        decreases i,
    {
        let j = &recent[i - 1];
        let idc = chars_of(j.job_id.as_str());
        if crate::text::eq_str(idc.as_slice(), job) && same_lower(j.extranonce2_hex.as_str(), el.as_slice()) {
            return Some(i - 1);
        }
        i = i - 1;
    }
    None
}

// ----- resuming after a bench -----

pub open spec fn recent_en2s(recent: Seq<WorkJob>) -> Seq<Seq<char>> {
    recent.map_values(|j: WorkJob| j.extranonce2_hex@)
}

pub open spec fn picked_en2(en2s: Seq<Seq<char>>, acc: Seq<int>, x: Seq<char>) -> bool {
    exists|t: int| 0 <= t < acc.len() && en2s[#[trigger] acc[t]] == x
}

/// The walk over the jobs `0..k` still to visit, newest first: a job whose
/// extranonce2 is not picked yet is picked, and the walk stops once `n` are picked.
pub open spec fn resume_walk(en2s: Seq<Seq<char>>, k: int, n: nat, acc: Seq<int>) -> Seq<int>
    decreases k,
{
    if k <= 0 {
        acc
    } else {
        let i = k - 1;
        if !picked_en2(en2s, acc, en2s[i]) {
            if acc.len() + 1 >= n {
                acc.push(i)
            } else {
                resume_walk(en2s, i, n, acc.push(i))
            }
        } else {
            resume_walk(en2s, i, n, acc)
        }
    }
}

/// The cached jobs to resume boards on after a bench: newest first, one per
/// extranonce2 (boards must not share one), until `n` are found.
pub open spec fn spec_resume_jobs(recent: Seq<WorkJob>, n: nat) -> Seq<int> {
    resume_walk(recent_en2s(recent), recent.len() as int, n, Seq::empty())
}

pub open spec fn distinct_picks(en2s: Seq<Seq<char>>, acc: Seq<int>, lo: int) -> bool {
    &&& forall|t: int| 0 <= t < acc.len() ==> lo <= #[trigger] acc[t] < en2s.len()
    &&& forall|a: int, b: int| 0 <= a < b < acc.len() ==> en2s[#[trigger] acc[a]] != en2s[#[trigger] acc[b]]
}

proof fn lemma_resume_walk_distinct(en2s: Seq<Seq<char>>, k: int, n: nat, acc: Seq<int>)
    requires
        0 <= k <= en2s.len(),
        distinct_picks(en2s, acc, k),
    ensures
        distinct_picks(en2s, resume_walk(en2s, k, n, acc), 0),
    decreases k,
{
    if k > 0 {
        let i = k - 1;
        if !picked_en2(en2s, acc, en2s[i]) {
            let a2 = acc.push(i);
            assert forall|a: int, b: int| 0 <= a < b < a2.len() implies en2s[#[trigger] a2[a]] != en2s[#[trigger] a2[b]] by {
                if b == acc.len() {
                    assert(a2[a] == acc[a]);
                    if en2s[acc[a]] == en2s[i] {
                        assert(picked_en2(en2s, acc, en2s[i]));
                    }
                } else {
                    assert(a2[a] == acc[a] && a2[b] == acc[b]);
                }
            }
            assert(distinct_picks(en2s, a2, i));
            if acc.len() + 1 < n {
                lemma_resume_walk_distinct(en2s, i, n, a2);
            }
        } else {
            lemma_resume_walk_distinct(en2s, i, n, acc);
        }
    }
}

/// The jobs resumed after a bench never share an extranonce2, and each is a
/// cached job.
pub proof fn lemma_resume_jobs_distinct(recent: Seq<WorkJob>, n: nat)
    ensures
        forall|t: int| 0 <= t < spec_resume_jobs(recent, n).len() ==> 0 <= #[trigger] spec_resume_jobs(recent, n)[t] < recent.len(),
        forall|a: int, b: int|
            #![trigger spec_resume_jobs(recent, n)[a], spec_resume_jobs(recent, n)[b]]
            0 <= a < b < spec_resume_jobs(recent, n).len() ==> recent[spec_resume_jobs(recent, n)[a]].extranonce2_hex@
                != recent[spec_resume_jobs(recent, n)[b]].extranonce2_hex@,
{
    let en2s = recent_en2s(recent);
    lemma_resume_walk_distinct(en2s, recent.len() as int, n, Seq::empty());
    let r = spec_resume_jobs(recent, n);
    assert forall|a: int, b: int| 0 <= a < b < r.len() implies recent[#[trigger] r[a]].extranonce2_hex@
        != recent[#[trigger] r[b]].extranonce2_hex@ by {
        assert(en2s[r[a]] != en2s[r[b]]);
    }
}

pub open spec fn usizes_view(v: Seq<usize>) -> Seq<int> {
    v.map_values(|x: usize| x as int)
}

fn same_text(a: &str, b: &str) -> (r: bool)
    ensures
        r == (a@ == b@),
{
    let ac = chars_of(a);
    let bc = chars_of(b);
    if ac.len() != bc.len() {
        return false;
    }
    let r = crate::text::has_prefix(ac.as_slice(), bc.as_slice());
    assert(ac@ =~= ac@.take(bc@.len() as int));
    r
}

/// Positions in `recent` of the jobs to resume `n` boards on after a bench.
pub fn resume_jobs(recent: &VecDeque<WorkJob>, n: usize) -> (r: Vec<usize>)
    ensures
        usizes_view(r@) == spec_resume_jobs(recent@, n as nat),
{
    let ghost en2s = recent_en2s(recent@);
    let mut acc: Vec<usize> = Vec::new();
    let mut k: usize = recent.len();
    assert(usizes_view(acc@) =~= Seq::<int>::empty());
    while k > 0
        invariant
            k <= recent@.len(),
            en2s == recent_en2s(recent@),
            resume_walk(en2s, recent@.len() as int, n as nat, Seq::empty()) == resume_walk(
                en2s,
                k as int,
                n as nat,
                usizes_view(acc@),
            ),
            forall|t: int| 0 <= t < acc@.len() ==> #[trigger] acc@[t] < recent@.len(),
        decreases k,
    {
        let i = k - 1;
        let x = recent[i].extranonce2_hex.as_str();
        assert(en2s[i as int] == x@);
        let mut seen = false;
        let mut t: usize = 0;
        while t < acc.len()
            invariant
                t <= acc@.len(),
                en2s == recent_en2s(recent@),
                forall|q: int| 0 <= q < acc@.len() ==> #[trigger] acc@[q] < recent@.len(),
                x@ == en2s[i as int],
                i < recent@.len(),
                seen == exists|q: int| 0 <= q < t && en2s[#[trigger] usizes_view(acc@)[q]] == x@,
            decreases acc@.len() - t,
        {
            let j = acc[t];
            assert(usizes_view(acc@)[t as int] == j as int);
            assert(en2s[j as int] == recent@[j as int].extranonce2_hex@);
            if same_text(recent[j].extranonce2_hex.as_str(), x) {
                seen = true;
            }
            t = t + 1;
        }
        assert(seen == picked_en2(en2s, usizes_view(acc@), en2s[i as int]));
        let ghost before = usizes_view(acc@);
        if !seen {
            acc.push(i);
            assert(usizes_view(acc@) =~= before.push(i as int));
            if acc.len() >= n {
                return acc;
            }
        }
        k = i;
    }
    acc
}

// ----- handing out pool jobs -----

/// The first board, in rotation from `start`, that takes pushed jobs (is not
/// on its own pool session), looking at offsets `k` onwards.
pub open spec fn rotation_pick(indep: Seq<bool>, start: int, k: int) -> Option<int>
    decreases indep.len() - k,
{
    if k >= indep.len() || k < 0 {
        None
    } else {
        let i = (start + k) % (indep.len() as int);
        if !indep[i] {
            Some(i)
        } else {
            rotation_pick(indep, start, k + 1)
        }
    }
}

/// Which board gets the next pool job: the first board from `start` on
/// (wrapping round) that is not on its own pool session, and where the
/// rotation starts next time; `None` when every board mines on its own.
pub open spec fn spec_job_board(indep: Seq<bool>, start: int) -> Option<(int, int)> {
    match rotation_pick(indep, start, 0) {
        Some(i) => Some((i, (i + 1) % (indep.len() as int))),
        None => None,
    }
}

pub fn job_board(indep: &Vec<bool>, start: usize) -> (r: Option<(usize, usize)>)
    ensures
        match r {
            Some((i, next)) => spec_job_board(indep@, start as int) == Some((i as int, next as int)),
            None => spec_job_board(indep@, start as int) is None,
        },
{
    let n = indep.len();
    if n == 0 {
        return None;
    }
    let s = start % n;
    let mut k: usize = 0;
    while k < n
        invariant
            n == indep@.len(),
            n > 0,
            s == start % n,
            k <= n,
            rotation_pick(indep@, start as int, 0) == rotation_pick(indep@, start as int, k as int),
        decreases n - k,
    {
        assert(s < n) by (nonlinear_arith)
            requires
                s == start % n,
                n > 0,
        ;
        let i = if k >= n - s { k - (n - s) } else { s + k };
        assert(i as int == (start as int + k as int) % (n as int) && i < n) by (nonlinear_arith)
            requires
                s == start % n,
                n > 0,
                s < n,
                k < n,
                i == if k >= n - s { k - (n - s) } else { s + k },
        {
            assert(start as int == (start as int / n as int) * n as int + s);
        }
        if !indep[i] {
            let next = if i + 1 == n { 0 } else { i + 1 };
            assert(next as int == (i as int + 1) % (n as int)) by (nonlinear_arith)
                requires
                    i < n,
                    n > 0,
                    next == if i + 1 == n { 0 } else { i + 1 },
            ;
            return Some((i, next));
        }
        k = k + 1;
    }
    None
}

// ----- pool and port watch -----

/// The pool comes before board chatter while a reconnect is scheduled, while
/// the handshake runs (connected, not yet authorized, not given up), or while
/// a job waits to be pushed.
pub open spec fn spec_pool_has_priority(
    reconnect_pending: bool,
    stream_connected: bool,
    authorized: bool,
    gave_up: bool,
    job_pending: bool,
) -> bool {
    reconnect_pending || (stream_connected && !authorized && !gave_up) || job_pending
}

pub fn pool_has_priority(
    reconnect_pending: bool,
    stream_connected: bool,
    authorized: bool,
    gave_up: bool,
    job_pending: bool,
) -> (r: bool)
    ensures
        r == spec_pool_has_priority(reconnect_pending, stream_connected, authorized, gave_up, job_pending),
{
    reconnect_pending || (stream_connected && !authorized && !gave_up) || job_pending
}

/// What losing the pool session means.
#[derive(Clone, Copy, Debug, PartialEq, Eq, Structural)]
pub enum PoolLost {
    /// The pool refused the worker: stop mining, do not retry.
    GiveUp,
    /// Still mining on a pool: reconnect after the backoff.
    Reconnect,
    /// Not mining: nothing to do.
    Idle,
}

pub open spec fn spec_pool_lost(gave_up: bool, phase: Seq<char>, mining: bool, endpoint: Seq<char>) -> PoolLost {
    if gave_up || phase == "auth-fail"@ {
        PoolLost::GiveUp
    } else if mining && endpoint.len() > 0 {
        PoolLost::Reconnect
    } else {
        PoolLost::Idle
    }
}

pub fn pool_lost(gave_up: bool, phase: &str, mining: bool, endpoint: &str) -> (r: PoolLost)
    ensures
        r == spec_pool_lost(gave_up, phase@, mining, endpoint@),
{
    let p = chars_of(phase);
    if gave_up || crate::text::eq_str(p.as_slice(), "auth-fail") {
        PoolLost::GiveUp
    } else if mining && chars_of(endpoint).len() > 0 {
        PoolLost::Reconnect
    } else {
        PoolLost::Idle
    }
}

/// A linked board stays in the fleet while its link is TCP, while an update
/// holds its port, or while the OS still lists its port.
pub open spec fn spec_board_present(
    name: Seq<char>,
    tcp: bool,
    hold_port: Option<Seq<char>>,
    listed: Seq<Seq<char>>,
) -> bool {
    tcp || (match hold_port {
        Some(p) => spec_port_listed(seq![p], name),
        None => false,
    }) || spec_port_listed(listed, name)
}

pub fn board_present(name: &str, tcp: bool, hold_port: Option<&str>, listed: &Vec<String>) -> (r: bool)
    ensures
        r == spec_board_present(name@, tcp, match hold_port {
            Some(p) => Some(p@),
            None => None,
        }, strs_view(listed@)),
{
    if tcp {
        return true;
    }
    let held = match hold_port {
        Some(p) => {
            let one = vec![string_of(chars_of(p).as_slice())];
            let r = port_listed(&one, name);
            assert(strs_view(one@) =~= seq![p@]);
            r
        },
        None => false,
    };
    held || port_listed(listed, name)
}

// ----- board bookkeeping -----

/// What the mining loop knows of one linked board. The hash rate itself is a
/// float kept beside it; here only whether it is above zero.
#[derive(Debug)]
pub struct BoardState {
    /// COM port, or `host:port` of a Wi‑Fi board.
    pub name: String,
    /// Firmware without split jobs (`cmp jh/jt/ja`): push the one-shot job.
    pub legacy_job: bool,
    pub fw: String,
    pub mac: String,
    /// The last known hash rate is above zero.
    pub has_rate: bool,
    pub hashes: u64,
    pub mining: bool,
    /// Consecutive failed status polls.
    pub status_fails: u8,
    /// ROM download mode (BOOT held / blank): no `cmp`, flash only.
    pub download_mode: bool,
    /// The board runs its own pool session; the loop only watches it.
    pub mine_indep: bool,
}

/// The fields of a `CMPSTATUS` reply that the loop reads.
#[derive(Debug)]
pub struct StatusReport {
    /// The reported hash rate is above zero.
    pub rate_positive: bool,
    pub hashes: u64,
    pub mining: bool,
    pub mac: String,
    pub mine_indep: bool,
    pub pool_phase: String,
}

/// The board's own pool session counts only once it is authorized
/// (phase `ok` or `mine`, any case).
pub open spec fn spec_board_indep_live(mine_indep: bool, phase: Seq<char>) -> bool {
    mine_indep && (lower_seq(phase) == "ok"@ || lower_seq(phase) == "mine"@)
}

pub fn board_indep_live(mine_indep: bool, pool_phase: &str) -> (r: bool)
    ensures
        r == spec_board_indep_live(mine_indep, pool_phase@),
{
    if !mine_indep {
        return false;
    }
    let c = chars_of(pool_phase);
    let l = lower_chars(c.as_slice());
    crate::text::eq_str(l.as_slice(), "ok") || crate::text::eq_str(l.as_slice(), "mine")
}

/// How the caller updates the board's hash rate after a status reply.
#[derive(Clone, Copy, Debug, PartialEq, Eq, Structural)]
pub enum RateUpdate {
    /// Take the reported rate.
    Take,
    /// Set it to zero (nothing is mining).
    Zero,
    /// Keep the last rate across an empty window.
    Keep,
}

/// A change of the board's own pool session, for the log.
#[derive(Clone, Copy, Debug, PartialEq, Eq, Structural)]
pub enum IndepChange {
    Unchanged,
    /// The board's pool went live: stop pushing jobs to it.
    Started,
    /// The board's pool went down: push jobs again.
    Stopped,
}

pub open spec fn spec_rate_update(rate_positive: bool, fleet_mining: bool, was_mining: bool) -> RateUpdate {
    if rate_positive {
        RateUpdate::Take
    } else if !(fleet_mining || was_mining) {
        RateUpdate::Zero
    } else {
        RateUpdate::Keep
    }
}

pub open spec fn spec_status_hashes(old_hashes: u64, was_mining: bool, reported: u64, fleet_mining: bool) -> u64 {
    if fleet_mining {
        if reported > old_hashes {
            reported
        } else {
            old_hashes
        }
    } else if reported > 0 || !was_mining {
        reported
    } else {
        old_hashes
    }
}

/// Applies a good status reply to a board: counters only rise while the fleet
/// mines, the last rate is held across empty windows, and the board's own
/// pool session is tracked.
pub fn apply_status(b: &mut BoardState, st: &StatusReport, fleet_mining: bool) -> (r: (RateUpdate, IndepChange))
    ensures
        r.0 == spec_rate_update(st.rate_positive, fleet_mining, old(b).mining),
        final(b).has_rate == match r.0 {
            RateUpdate::Take => true,
            RateUpdate::Zero => false,
            RateUpdate::Keep => old(b).has_rate,
        },
        final(b).hashes == spec_status_hashes(old(b).hashes, old(b).mining, st.hashes, fleet_mining),
        final(b).mining == (st.mining || (fleet_mining && final(b).has_rate)),
        final(b).mac@ == if st.mac@.len() > 0 {
            spec_normalize_mac(st.mac@)
        } else {
            old(b).mac@
        },
        final(b).mine_indep == spec_board_indep_live(st.mine_indep, st.pool_phase@),
        r.1 == if final(b).mine_indep && !old(b).mine_indep {
            IndepChange::Started
        } else if old(b).mine_indep && !final(b).mine_indep {
            IndepChange::Stopped
        } else {
            IndepChange::Unchanged
        },
        final(b).status_fails == 0,
        final(b).name == old(b).name,
        final(b).legacy_job == old(b).legacy_job,
        final(b).fw == old(b).fw,
        final(b).download_mode == old(b).download_mode,
{
    b.status_fails = 0;
    let was_mining = b.mining;
    let rate = if st.rate_positive {
        RateUpdate::Take
    } else if !(fleet_mining || was_mining) {
        RateUpdate::Zero
    } else {
        RateUpdate::Keep
    };
    match rate {
        RateUpdate::Take => {
            b.has_rate = true;
        },
        RateUpdate::Zero => {
            b.has_rate = false;
        },
        RateUpdate::Keep => {},
    }
    if fleet_mining {
        if st.hashes > b.hashes {
            b.hashes = st.hashes;
        }
    } else if st.hashes > 0 || !was_mining {
        b.hashes = st.hashes;
    }
    b.mining = st.mining || (fleet_mining && b.has_rate);
    if !st.mac.as_str().is_empty() {
        b.mac = normalize_mac(st.mac.as_str());
    }
    let live = board_indep_live(st.mine_indep, st.pool_phase.as_str());
    let change = if live && !b.mine_indep {
        IndepChange::Started
    } else if b.mine_indep && !live {
        IndepChange::Stopped
    } else {
        IndepChange::Unchanged
    };
    b.mine_indep = live;
    (rate, change)
}

/// What a failed status poll means for a board.
#[derive(Clone, Copy, Debug, PartialEq, Eq, Structural)]
pub enum StatusFailure {
    /// The port is gone (unplugged): drop the board now.
    Gone,
    /// A soft failure; `log` on the first and every fifth, `drop` from the fourth on.
    Soft { log: bool, drop: bool },
}

/// Counts a failed status poll: `io_error` is the link error, if the poll
/// failed on the link rather than on the reply's text.
pub fn note_status_failure(b: &mut BoardState, io_error: Option<&str>) -> (r: StatusFailure)
    ensures
        match io_error {
            Some(e) => spec_usb_err_looks_unplugged(e@),
            None => false,
        } ==> (r == StatusFailure::Gone && *final(b) == *old(b)),
        !match io_error {
            Some(e) => spec_usb_err_looks_unplugged(e@),
            None => false,
        } ==> {
            let n = if old(b).status_fails == 255 {
                255u8
            } else {
                (old(b).status_fails + 1) as u8
            };
            &&& *final(b) == (BoardState { status_fails: n, ..*old(b) })
            &&& r == StatusFailure::Soft { log: n == 1 || n % 5 == 0, drop: n >= 4 }
        },
{
    match io_error {
        Some(e) => {
            if usb_err_looks_unplugged(e) {
                return StatusFailure::Gone;
            }
        },
        None => {},
    }
    b.status_fails = if b.status_fails == 255 {
        255
    } else {
        b.status_fails + 1
    };
    let n = b.status_fails;
    StatusFailure::Soft { log: n == 1 || n % 5 == 0, drop: n >= 4 }
}

/// Takes in a `CMPCONFIG` reply: firmware, split-job support and identity.
pub fn apply_config(b: &mut BoardState, fw: &str, mac: &str)
    ensures
        final(b).fw@ == fw@,
        final(b).legacy_job == !spec_fw_supports_split_jobs(fw@),
        final(b).mac@ == if mac@.len() > 0 {
            spec_normalize_mac(mac@)
        } else {
            old(b).mac@
        },
        final(b).name == old(b).name,
        final(b).has_rate == old(b).has_rate,
        final(b).hashes == old(b).hashes,
        final(b).mining == old(b).mining,
        final(b).status_fails == old(b).status_fails,
        final(b).download_mode == old(b).download_mode,
        final(b).mine_indep == old(b).mine_indep,
{
    b.legacy_job = !fw_supports_split_jobs(fw);
    b.fw = string_of(chars_of(fw).as_slice());
    if !mac.is_empty() {
        b.mac = normalize_mac(mac);
    }
}

/// The payload of a tagged reply (`CMPSTATUS {json}` → `{json}`), or
/// `bad <what> line: <line>`.
pub open spec fn spec_reply_payload(line: Seq<char>, tag: Seq<char>, what: Seq<char>) -> Result<Seq<char>, Seq<char>> {
    if starts_with(line, tag) {
        Ok(line.skip(tag.len() as int))
    } else {
        Err("bad "@ + what + " line: "@ + line)
    }
}

pub fn reply_payload(line: &str, tag: &str, what: &str) -> (r: Result<String, String>)
    ensures
        result_text(r) == spec_reply_payload(line@, tag@, what@),
{
    let c = chars_of(line);
    let t = chars_of(tag);
    if crate::text::has_prefix(c.as_slice(), t.as_slice()) {
        let body = crate::text::sub_chars(c.as_slice(), t.len(), c.len());
        assert(body@ =~= line@.skip(tag@.len() as int));
        Ok(string_of(body.as_slice()))
    } else {
        let m = joined(["bad ", what, " line: ", line].as_slice());
        proof {
            reveal_with_fuel(Seq::fold_left, 5);
        }
        Err(m)
    }
}

// ----- linking boards -----

pub open spec fn strs_view(v: Seq<String>) -> Seq<Seq<char>> {
    v.map_values(|s: String| s@)
}

/// Whether the OS still lists the port `name` (either spelling matches).
pub open spec fn spec_port_listed(listed: Seq<Seq<char>>, name: Seq<char>) -> bool {
    exists|k: int|
        0 <= k < listed.len() && (spec_normalize_port_name(#[trigger] listed[k])
            == spec_normalize_port_name(name) || listed[k] == name)
}

pub fn port_listed(listed: &Vec<String>, name: &str) -> (r: bool)
    ensures
        r == spec_port_listed(strs_view(listed@), name@),
{
    let mut i: usize = 0;
    while i < listed.len()
        invariant
            i <= listed@.len(),
            forall|k: int|
                0 <= k < i ==> !(spec_normalize_port_name(#[trigger] strs_view(listed@)[k])
                    == spec_normalize_port_name(name@) || strs_view(listed@)[k] == name@),
        decreases listed@.len() - i,
    {
        let p = listed[i].as_str();
        if port_names_match(p, name) || crate::text::eq_str(chars_of(p).as_slice(), name) {
            assert(strs_view(listed@)[i as int] == p@);
            return true;
        }
        i = i + 1;
    }
    false
}

/// Index of the first linked board on port `name` (either spelling).
pub fn linked_index(names: &Vec<String>, name: &str) -> (r: Option<usize>)
    ensures
        match r {
            Some(i) => i < names@.len() && spec_normalize_port_name(names@[i as int]@)
                == spec_normalize_port_name(name@) && forall|k: int|
                0 <= k < i ==> spec_normalize_port_name(#[trigger] names@[k]@)
                    != spec_normalize_port_name(name@),
            None => forall|k: int|
                0 <= k < names@.len() ==> spec_normalize_port_name(#[trigger] names@[k]@)
                    != spec_normalize_port_name(name@),
        },
{
    let mut i: usize = 0;
    while i < names.len()
        invariant
            i <= names@.len(),
            forall|k: int|
                0 <= k < i ==> spec_normalize_port_name(#[trigger] names@[k]@)
                    != spec_normalize_port_name(name@),
        decreases names@.len() - i,
    {
        if port_names_match(names[i].as_str(), name) {
            return Some(i);
        }
        i = i + 1;
    }
    None
}

/// Two MACs name the same board: both are real 6-byte identities and they
/// normalize alike.
pub open spec fn same_board_mac(a: Seq<char>, b: Seq<char>) -> bool {
    hex_count(a) == 12 && hex_count(b) == 12 && spec_normalize_mac(a) == spec_normalize_mac(b)
}

/// Index of the first linked board with the same eFuse MAC as `mac`.
pub fn same_mac_index(macs: &Vec<String>, mac: &str) -> (r: Option<usize>)
    ensures
        match r {
            Some(i) => i < macs@.len() && same_board_mac(macs@[i as int]@, mac@) && forall|k: int|
                0 <= k < i ==> !same_board_mac(#[trigger] macs@[k]@, mac@),
            None => forall|k: int|
                0 <= k < macs@.len() ==> !same_board_mac(#[trigger] macs@[k]@, mac@),
        },
{
    if !mac_is_stable(mac) {
        return None;
    }
    let want = normalize_mac(mac);
    let mut i: usize = 0;
    while i < macs.len()
        invariant
            i <= macs@.len(),
            hex_count(mac@) == 12,
            want@ == spec_normalize_mac(mac@),
            forall|k: int| 0 <= k < i ==> !same_board_mac(#[trigger] macs@[k]@, mac@),
        decreases macs@.len() - i,
    {
        let m = macs[i].as_str();
        if mac_is_stable(m) {
            let n = normalize_mac(m);
            if n == want {
                return Some(i);
            }
        }
        i = i + 1;
    }
    None
}

/// Two linked boards report the same eFuse MAC (a board linked twice).
pub open spec fn spec_mac_collision(macs: Seq<Seq<char>>) -> bool {
    exists|i: int, j: int| 0 <= i < j < macs.len() && #[trigger] same_board_mac(macs[i], macs[j])
}

/// Whether two of the linked boards are the same board by MAC.
pub fn mac_collision(macs: &Vec<String>) -> (r: bool)
    ensures
        r == spec_mac_collision(strs_view(macs@)),
{
    let ghost v = strs_view(macs@);
    let mut i: usize = 0;
    while i < macs.len()
        invariant
            i <= macs@.len(),
            v == strs_view(macs@),
            forall|a: int, b: int| 0 <= a < b < i ==> !#[trigger] same_board_mac(v[a], v[b]),
        decreases macs@.len() - i,
    {
        let m = macs[i].as_str();
        assert(v[i as int] == m@);
        if let Some(j) = same_mac_index(macs, m) {
            if j < i {
                assert(v[j as int] == macs@[j as int]@);
                assert(same_board_mac(v[j as int], v[i as int]));
                return true;
            }
        }
        proof {
            assert forall|a: int| 0 <= a < i implies !#[trigger] same_board_mac(v[a], v[i as int]) by {
                assert(v[a] == macs@[a]@);
            }
        }
        i = i + 1;
    }
    false
}

// ----- board Wi‑Fi commands -----

/// Where a board Wi‑Fi command is sent.
#[derive(Debug)]
pub enum WifiRoute {
    /// Over the link of this linked board.
    Linked(usize),
    /// A one-shot USB session on this (trimmed) port.
    OneShotUsb(String),
    /// A one-shot TCP session (SoftAP portal or a LAN board).
    OneShotTcp(String),
    /// Nowhere: this error is reported.
    NotLinked(String),
}

/// Linked board `k` is the board at `endpoint` (either port spelling).
pub open spec fn route_hit(linked: Seq<Seq<char>>, endpoint: Seq<char>, k: int) -> bool {
    spec_normalize_port_name(linked[k]) == spec_normalize_port_name(endpoint) || linked[k]
        == endpoint
}

/// `ep` looks like `host:port` rather than a COM port.
pub open spec fn looks_tcp(ep: Seq<char>) -> bool {
    ep.contains(':') && !starts_with(upper_seq(ep), "COM"@)
}

pub open spec fn wifi_route_ok(r: WifiRoute, linked: Seq<Seq<char>>, endpoint: Seq<char>) -> bool {
    let ep = trim(endpoint);
    let none = forall|k: int| 0 <= k < linked.len() ==> !#[trigger] route_hit(linked, endpoint, k);
    match r {
        WifiRoute::Linked(i) => i < linked.len() && route_hit(linked, endpoint, i as int) && forall|
            k: int,
        | 0 <= k < i ==> !#[trigger] route_hit(linked, endpoint, k),
        WifiRoute::OneShotUsb(p) => none && p@ == ep && spec_is_usb_serial_port(ep),
        WifiRoute::OneShotTcp(p) => none && p@ == ep && !spec_is_usb_serial_port(ep) && looks_tcp(
            ep,
        ),
        WifiRoute::NotLinked(m) => none && !spec_is_usb_serial_port(ep) && !looks_tcp(ep) && m@
            == "Board "@ + endpoint + " not linked — join open SoftAP Njordr-XXXX or Link USB first"@,
    }
}

/// Chooses the link for a board Wi‑Fi command (`cmp wifi …`).
pub fn wifi_cmd_route(linked: &Vec<String>, endpoint: &str) -> (r: WifiRoute)
    ensures
        wifi_route_ok(r, strs_view(linked@), endpoint@),
{
    let ghost lv = strs_view(linked@);
    let mut i: usize = 0;
    while i < linked.len()
        invariant
            i <= linked@.len(),
            lv == strs_view(linked@),
            forall|k: int| 0 <= k < i ==> !#[trigger] route_hit(lv, endpoint@, k),
        decreases linked@.len() - i,
    {
        let b = linked[i].as_str();
        if port_names_match(b, endpoint) || crate::text::eq_str(chars_of(b).as_slice(), endpoint) {
            return WifiRoute::Linked(i);
        }
        i = i + 1;
    }
    let ep = trimmed(endpoint);
    let eps = string_of(ep.as_slice());
    if is_usb_serial_port(eps.as_str()) {
        return WifiRoute::OneShotUsb(eps);
    }
    let up = upper_chars(ep.as_slice());
    if crate::text::find_char(ep.as_slice(), ':').is_some() && !starts_with_str(up.as_slice(), "COM") {
        return WifiRoute::OneShotTcp(eps);
    }
    let m = joined(
        ["Board ", endpoint, " not linked — join open SoftAP Njordr-XXXX or Link USB first"].as_slice(),
    );
    proof {
        reveal_with_fuel(Seq::fold_left, 4);
    }
    WifiRoute::NotLinked(m)
}

/// `cmp wifi ssid=…&pass=…&en=1` to store credentials, `cmp wifi clear` to drop them.
pub open spec fn spec_board_wifi_command(ssid: Seq<char>, pass: Seq<char>, enable: bool) -> Seq<char> {
    if enable {
        "cmp wifi ssid="@ + spec_url_encode(str_bytes(ssid), true) + "&pass="@ + spec_url_encode(
            str_bytes(pass),
            true,
        ) + "&en=1"@
    } else {
        "cmp wifi clear"@
    }
}

pub fn board_wifi_command(ssid: &str, pass: &str, enable: bool) -> (r: String)
    ensures
        r@ == spec_board_wifi_command(ssid@, pass@, enable),
{
    if enable {
        let s = urlenc(ssid);
        let p = urlenc(pass);
        let r = joined(["cmp wifi ssid=", s.as_str(), "&pass=", p.as_str(), "&en=1"].as_slice());
        proof {
            reveal_with_fuel(Seq::fold_left, 6);
        }
        r
    } else {
        string_of(chars_of("cmp wifi clear").as_slice())
    }
}

/// The board refused a Wi‑Fi command (`CMPERR`, any case).
pub open spec fn spec_wifi_reply_failed(reply: Seq<char>) -> bool {
    contains(lower_seq(reply), "cmperr"@)
}

pub fn wifi_reply_failed(reply: &str) -> (r: bool)
    ensures
        r == spec_wifi_reply_failed(reply@),
{
    let l = lower_chars(chars_of(reply).as_slice());
    contains_str(l.as_slice(), "cmperr")
}

/// A Wi‑Fi reply names the SSID that was saved (`ssid=<ssid>`, ASCII case
/// ignored, or exactly as typed).
pub open spec fn spec_reply_has_ssid(reply: Seq<char>, ssid: Seq<char>) -> bool {
    contains(lower_seq(reply), "ssid="@ + lower_seq(ssid)) || contains(reply, "ssid="@ + ssid)
}

pub fn reply_has_ssid(reply: &str, ssid: &str) -> (r: bool)
    ensures
        r == spec_reply_has_ssid(reply@, ssid@),
{
    let rc = chars_of(reply);
    let rl = lower_chars(rc.as_slice());
    let sc = chars_of(ssid);
    let sl = lower_chars(sc.as_slice());
    let mut want_l = chars_of("ssid=");
    extend_chars(&mut want_l, sl.as_slice());
    let mut want = chars_of("ssid=");
    extend_chars(&mut want, sc.as_slice());
    let a = find(rl.as_slice(), want_l.as_slice()).is_some();
    let b = find(rc.as_slice(), want.as_slice()).is_some();
    a || b
}

/// Over a SoftAP/TCP link the save counts when the acknowledgement names the
/// SSID or says `wifi saved`.
pub open spec fn spec_tcp_save_confirmed(reply: Seq<char>, ssid: Seq<char>) -> bool {
    spec_reply_has_ssid(reply, ssid) || contains(lower_seq(reply), "wifi saved"@)
}

pub fn tcp_save_confirmed(reply: &str, ssid: &str) -> (r: bool)
    ensures
        r == spec_tcp_save_confirmed(reply@, ssid@),
{
    let l = lower_chars(chars_of(reply).as_slice());
    reply_has_ssid(reply, ssid) || contains_str(l.as_slice(), "wifi saved")
}

/// `cmp pool url=…&worker=…&pass=…&indep=1`: the pool a board mines on by itself.
pub open spec fn spec_pool_command(endpoint: Seq<char>, worker: Seq<char>, pass: Seq<char>) -> Seq<char> {
    "cmp pool url="@ + spec_url_encode(str_bytes(endpoint), true) + "&worker="@ + spec_url_encode(
        str_bytes(worker),
        true,
    ) + "&pass="@ + spec_url_encode(str_bytes(pass), true) + "&indep=1"@
}

pub fn pool_command(endpoint: &str, worker: &str, pass: &str) -> (r: String)
    ensures
        r@ == spec_pool_command(endpoint@, worker@, pass@),
{
    let e = urlenc(endpoint);
    let w = urlenc(worker);
    let p = urlenc(pass);
    let r = joined(
        ["cmp pool url=", e.as_str(), "&worker=", w.as_str(), "&pass=", p.as_str(), "&indep=1"].as_slice(),
    );
    proof {
        reveal_with_fuel(Seq::fold_left, 8);
    }
    r
}

/// The board took the pool settings (`CMPACK`, any case).
pub fn pool_push_acked(reply: &str) -> (r: bool)
    ensures
        r == contains(lower_seq(reply@), "cmpack"@),
{
    let l = lower_chars(chars_of(reply).as_slice());
    contains_str(l.as_slice(), "cmpack")
}

/// How many pool jobs to take for the boards the loop feeds (at least one).
pub open spec fn spec_fleet_job_count(indep: Seq<bool>) -> nat {
    let n = indep.filter(|b: bool| !b).len();
    if n == 0 {
        1
    } else {
        n
    }
}

pub fn fleet_job_count(indep: &Vec<bool>) -> (r: usize)
    ensures
        r == spec_fleet_job_count(indep@),
{
    let mut n: usize = 0;
    let mut i: usize = 0;
    while i < indep.len()
        invariant
            i <= indep@.len(),
            n == indep@.take(i as int).filter(|b: bool| !b).len(),
            n <= i,
        decreases indep@.len() - i,
    {
        assert(indep@.take(i + 1).drop_last() =~= indep@.take(i as int));
        proof {
            indep@.take(i as int).lemma_filter_push(indep@[i as int], |b: bool| !b);
        }
        assert(indep@.take(i as int).push(indep@[i as int]) =~= indep@.take(i + 1));
        if !indep[i] {
            n = n + 1;
        }
        i = i + 1;
    }
    assert(indep@.take(indep@.len() as int) =~= indep@);
    if n == 0 {
        1
    } else {
        n
    }
}

// ----- writing a command -----

/// The bytes written for a command: `\r\n<cmd>\r\n`.
pub open spec fn command_line_bytes(cmd: Seq<char>) -> Seq<u8> {
    seq![13u8, 10u8] + str_bytes(cmd) + seq![13u8, 10u8]
}

/// `b` cut into pieces of `n` bytes (the last may be shorter).
pub open spec fn spec_chunks(b: Seq<u8>, n: nat) -> Seq<Seq<u8>>
    decreases b.len(),
{
    if b.len() == 0 || n == 0 {
        Seq::empty()
    } else if b.len() <= n {
        seq![b]
    } else {
        seq![b.take(n as int)] + spec_chunks(b.skip(n as int), n)
    }
}

/// The pieces, joined again.
pub open spec fn flatten_bytes(c: Seq<Seq<u8>>) -> Seq<u8>
    decreases c.len(),
{
    if c.len() == 0 {
        Seq::empty()
    } else {
        c[0] + flatten_bytes(c.drop_first())
    }
}

pub open spec fn byte_chunks_view(v: Seq<Vec<u8>>) -> Seq<Seq<u8>> {
    v.map_values(|x: Vec<u8>| x@)
}

/// Chunking loses and adds nothing, and no piece is longer than `n`.
pub proof fn lemma_chunks_rejoin(b: Seq<u8>, n: nat)
    requires
        n > 0,
    ensures
        flatten_bytes(spec_chunks(b, n)) == b,
        forall|k: int|
            0 <= k < spec_chunks(b, n).len() ==> 0 < (#[trigger] spec_chunks(b, n)[k]).len() <= n,
    decreases b.len(),
{
    if b.len() == 0 {
        assert(flatten_bytes(Seq::<Seq<u8>>::empty()) =~= b);
    } else if b.len() <= n {
        let c = seq![b];
        assert(c.drop_first() =~= Seq::<Seq<u8>>::empty());
        assert(flatten_bytes(c.drop_first()) =~= Seq::<u8>::empty());
        assert(flatten_bytes(c) == c[0] + flatten_bytes(c.drop_first()));
        assert(flatten_bytes(c) =~= b);
    } else {
        lemma_chunks_rejoin(b.skip(n as int), n);
        let c = spec_chunks(b, n);
        assert(c.drop_first() =~= spec_chunks(b.skip(n as int), n));
        assert(b.take(n as int) + b.skip(n as int) =~= b);
        assert forall|k: int| 0 <= k < c.len() implies 0 < (#[trigger] c[k]).len() <= n by {
            if k > 0 {
                assert(c[k] == spec_chunks(b.skip(n as int), n)[k - 1]);
            }
        }
    }
}

/// The pieces in which a command is written to the board.
pub fn command_chunks(cmd: &str, chunk: usize) -> (r: Vec<Vec<u8>>)
    requires
        chunk > 0,
    ensures
        byte_chunks_view(r@) == spec_chunks(command_line_bytes(cmd@), chunk as nat),
{
    let mut line: Vec<u8> = Vec::new();
    line.push(13u8);
    line.push(10u8);
    let cb = cmd.as_bytes();
    let mut j: usize = 0;
    while j < cb.len()
        invariant
            j <= cb@.len(),
            line@ == seq![13u8, 10u8] + cb@.take(j as int),
        decreases cb@.len() - j,
    {
        line.push(cb[j]);
        assert(cb@.take(j + 1) =~= cb@.take(j as int).push(cb@[j as int]));
        j = j + 1;
    }
    line.push(13u8);
    line.push(10u8);
    assert(cb@.take(cb@.len() as int) =~= cb@);
    assert(line@ =~= command_line_bytes(cmd@));
    let ghost all = line@;
    let mut out: Vec<Vec<u8>> = Vec::new();
    let mut pos: usize = 0;
    let n = line.len();
    assert(all.skip(0) =~= all);
    assert(byte_chunks_view(out@) =~= Seq::<Seq<u8>>::empty());
    assert(byte_chunks_view(out@) + spec_chunks(all, chunk as nat) =~= spec_chunks(all, chunk as nat));
    while pos < n
        invariant
            pos <= n == all.len(),
            line@ == all,
            chunk > 0,
            spec_chunks(all, chunk as nat) == byte_chunks_view(out@) + spec_chunks(
                all.skip(pos as int),
                chunk as nat,
            ),
        decreases n - pos,
    {
        let end = if n - pos <= chunk {
            n
        } else {
            pos + chunk
        };
        let mut piece: Vec<u8> = Vec::new();
        let mut k: usize = pos;
        while k < end
            invariant
                pos <= k <= end <= n == line@.len(),
                piece@ == line@.subrange(pos as int, k as int),
            decreases end - k,
        {
            piece.push(line[k]);
            assert(line@.subrange(pos as int, k + 1) =~= line@.subrange(pos as int, k as int).push(
                line@[k as int],
            ));
            k = k + 1;
        }
        let ghost rest = all.skip(pos as int);
        let ghost before = byte_chunks_view(out@);
        if n - pos <= chunk {
            assert(piece@ =~= rest);
            assert(spec_chunks(rest, chunk as nat) == seq![rest]);
            assert(all.skip(end as int) =~= Seq::<u8>::empty());
        } else {
            assert(piece@ =~= rest.take(chunk as int));
            assert(rest.skip(chunk as int) =~= all.skip(end as int));
        }
        out.push(piece);
        assert(byte_chunks_view(out@) =~= before.push(piece@));
        assert(before.push(piece@) + spec_chunks(all.skip(end as int), chunk as nat) =~= before + (
        seq![piece@] + spec_chunks(all.skip(end as int), chunk as nat)));
        pos = end;
    }
    assert(all.skip(n as int) =~= Seq::<u8>::empty());
    assert(byte_chunks_view(out@) + Seq::<Seq<u8>>::empty() =~= byte_chunks_view(out@));
    out
}

// ----- the pool badge -----

/// What the pool badge says, from the session as last reported: authorized;
/// failed; a soft reconnect in progress (`hold`: within the hold time while
/// mining); the handshake step; down while mining (with a hint when this PC
/// is on the board's SoftAP); or idle.
pub open spec fn spec_pool_state(
    authorized: bool,
    phase: Seq<char>,
    last_error: Seq<char>,
    hold: bool,
    mining: bool,
    connected: bool,
    on_softap: bool,
) -> Seq<char> {
    let handshake = phase == "sub"@ || phase == "auth"@ || phase == "tcp"@;
    if authorized {
        "AUTHORIZED"@
    } else if phase == "auth-fail"@ || phase == "err"@ || last_error.len() > 0 {
        "AUTH FAILED"@
    } else if hold && mining {
        if handshake {
            "RECONNECTING…"@
        } else {
            "AUTHORIZED"@
        }
    } else if connected || handshake {
        if phase == "tcp"@ {
            "TCP…"@
        } else if phase == "sub"@ {
            "SUBSCRIBE…"@
        } else if phase == "auth"@ {
            "AUTHORIZE…"@
        } else {
            "CONNECTING…"@
        }
    } else if mining {
        if on_softap {
            "SOFTAP — REJOIN HOME"@
        } else {
            "POOL DOWN"@
        }
    } else {
        "IDLE"@
    }
}

pub fn pool_state(
    authorized: bool,
    phase: &str,
    last_error: &str,
    hold: bool,
    mining: bool,
    connected: bool,
    on_softap: bool,
) -> (r: &'static str)
    ensures
        r@ == spec_pool_state(authorized, phase@, last_error@, hold, mining, connected, on_softap),
{
    let p = chars_of(phase);
    let ps = p.as_slice();
    let handshake = crate::text::eq_str(ps, "sub") || crate::text::eq_str(ps, "auth")
        || crate::text::eq_str(ps, "tcp");
    if authorized {
        "AUTHORIZED"
    } else if crate::text::eq_str(ps, "auth-fail") || crate::text::eq_str(ps, "err")
        || !last_error.is_empty() {
        "AUTH FAILED"
    } else if hold && mining {
        if handshake {
            "RECONNECTING…"
        } else {
            "AUTHORIZED"
        }
    } else if connected || handshake {
        if crate::text::eq_str(ps, "tcp") {
            "TCP…"
        } else if crate::text::eq_str(ps, "sub") {
            "SUBSCRIBE…"
        } else if crate::text::eq_str(ps, "auth") {
            "AUTHORIZE…"
        } else {
            "CONNECTING…"
        }
    } else if mining {
        if on_softap {
            "SOFTAP — REJOIN HOME"
        } else {
            "POOL DOWN"
        }
    } else {
        "IDLE"
    }
}

} // verus!
