//! The stratum session: subscribe → authorize → notify → submit, as a state
//! machine. Reading and writing the socket, and turning JSON text into
//! [`Json`] values and requests back into JSON text, happen outside it.

use vstd::prelude::*;
use crate::codec::{
    dsha256, hex_decode, hex_encode, hex_fixed, spec_dsha256, spec_hex_decode, spec_hex_fixed,
    spec_hex_lower, str_bytes,
};
use crate::json::{
    json_array, json_bool, json_get, json_is_null, json_is_number, json_str, json_u64, Json,
};
use crate::stratum::{
    check_share, parse_endpoint, spec_parse_endpoint, spec_swab256, spec_swab32,
    spec_verify_share, swab256, swab32_bytes, WorkJob,
};
use crate::text::{
    chars_of, dec, extend_chars, extend_str, preview, preview_of, preview_ok, push_dec,
    string_of, trim, trimmed,
};

verus! {

/// A request for the pool (a JSON-RPC call with string parameters).
#[derive(Debug)]
pub struct StratumRequest {
    pub id: u64,
    pub method: String,
    pub params: Vec<String>,
}

/// What the caller should do after a pool message was handled.
#[derive(Debug)]
pub enum StratumEvent {
    Idle,
    /// `mining.set_difficulty` with a numeric difficulty: compute the share
    /// target for it and hand it to [`StratumClient::apply_difficulty`].
    SetDifficulty,
    Send(StratumRequest),
}

#[verifier::ext_equal]
pub struct RequestView {
    pub id: u64,
    pub method: Seq<char>,
    pub params: Seq<Seq<char>>,
}

pub enum EventView {
    Idle,
    SetDifficulty,
    Send(RequestView),
}

pub struct JobView {
    pub job_id: Seq<char>,
    pub header: Seq<u8>,
    pub target: Seq<u8>,
    pub extranonce2_hex: Seq<char>,
    pub ntime_hex: Seq<char>,
}

pub open spec fn job_view(j: WorkJob) -> JobView {
    JobView {
        job_id: j.job_id@,
        header: j.header@,
        target: j.target@,
        extranonce2_hex: j.extranonce2_hex@,
        ntime_hex: j.ntime_hex@,
    }
}

pub open spec fn strings_view(v: Seq<String>) -> Seq<Seq<char>> {
    v.map_values(|s: String| s@)
}

pub open spec fn request_view(r: StratumRequest) -> RequestView {
    RequestView { id: r.id, method: r.method@, params: strings_view(r.params@) }
}

pub open spec fn event_view(e: StratumEvent) -> EventView {
    match e {
        StratumEvent::Idle => EventView::Idle,
        StratumEvent::SetDifficulty => EventView::SetDifficulty,
        StratumEvent::Send(r) => EventView::Send(request_view(r)),
    }
}

pub open spec fn result_view(r: Result<StratumEvent, String>) -> Result<EventView, Seq<char>> {
    match r {
        Ok(e) => Ok(event_view(e)),
        Err(s) => Err(s@),
    }
}

/// The session's state, as the contracts see it.
#[verifier::ext_equal]
pub struct ClientView {
    pub worker: Seq<char>,
    pub password: Seq<char>,
    pub msg_id: u64,
    pub subscribe_id: u64,
    pub authorize_id: u64,
    pub subscribed: bool,
    pub authorized: bool,
    pub stream_open: bool,
    pub extranonce1: Seq<u8>,
    pub extranonce2_size: usize,
    pub en2_counter: u64,
    pub share_target: Seq<u8>,
    pub difficulty_label: Seq<char>,
    pub job_id: Seq<char>,
    pub prevhash_hex: Seq<char>,
    pub coinb1_hex: Seq<char>,
    pub coinb2_hex: Seq<char>,
    pub merkle_hex: Seq<Seq<char>>,
    pub version_hex: Seq<char>,
    pub nbits_hex: Seq<char>,
    pub ntime_hex: Seq<char>,
    pub active_en2_hex: Seq<char>,
    pub active_ntime_hex: Seq<char>,
    pub pending_job: Option<JobView>,
    pub accepted: u32,
    pub rejected: u32,
    pub phase: Seq<char>,
    pub endpoint: Seq<char>,
    pub jobs_seen: u32,
    pub lines_rx: u64,
    pub lines_tx: u64,
    pub last_rx: Seq<char>,
    pub last_tx: Seq<char>,
    pub recent: Seq<Seq<char>>,
}

/// Stratum session state (the socket itself is held by the caller).
pub struct StratumClient {
    worker: String,
    password: String,
    msg_id: u64,
    subscribe_id: u64,
    authorize_id: u64,
    subscribed: bool,
    authorized: bool,
    stream_open: bool,
    extranonce1: Vec<u8>,
    extranonce2_size: usize,
    en2_counter: u64,
    share_target: [u8; 32],
    difficulty_label: String,
    job_id: String,
    prevhash_hex: String,
    coinb1_hex: String,
    coinb2_hex: String,
    merkle_hex: Vec<String>,
    version_hex: String,
    nbits_hex: String,
    ntime_hex: String,
    active_en2_hex: String,
    active_ntime_hex: String,
    pending_job: Option<WorkJob>,
    pub accepted: u32,
    pub rejected: u32,
    pub phase: String,
    pub endpoint: String,
    pub jobs_seen: u32,
    pub lines_rx: u64,
    pub lines_tx: u64,
    pub last_rx: String,
    pub last_tx: String,
    /// Recent stratum lines for the UI (newest last).
    pub recent: Vec<String>,
}

impl View for StratumClient {
    type V = ClientView;

    closed spec fn view(&self) -> ClientView {
        ClientView {
            worker: self.worker@,
            password: self.password@,
            msg_id: self.msg_id,
            subscribe_id: self.subscribe_id,
            authorize_id: self.authorize_id,
            subscribed: self.subscribed,
            authorized: self.authorized,
            stream_open: self.stream_open,
            extranonce1: self.extranonce1@,
            extranonce2_size: self.extranonce2_size,
            en2_counter: self.en2_counter,
            share_target: self.share_target@,
            difficulty_label: self.difficulty_label@,
            job_id: self.job_id@,
            prevhash_hex: self.prevhash_hex@,
            coinb1_hex: self.coinb1_hex@,
            coinb2_hex: self.coinb2_hex@,
            merkle_hex: strings_view(self.merkle_hex@),
            version_hex: self.version_hex@,
            nbits_hex: self.nbits_hex@,
            ntime_hex: self.ntime_hex@,
            active_en2_hex: self.active_en2_hex@,
            active_ntime_hex: self.active_ntime_hex@,
            pending_job: match self.pending_job {
                Some(j) => Some(job_view(j)),
                None => None,
            },
            accepted: self.accepted,
            rejected: self.rejected,
            phase: self.phase@,
            endpoint: self.endpoint@,
            jobs_seen: self.jobs_seen,
            lines_rx: self.lines_rx,
            lines_tx: self.lines_tx,
            last_rx: self.last_rx@,
            last_tx: self.last_tx@,
            recent: strings_view(self.recent@),
        }
    }
}

// ----- small arithmetic and log helpers -----

/// `x + 1`, wrapping at the top (the counters of a long-lived session).
pub open spec fn inc64(x: u64) -> u64 {
    if x == u64::MAX {
        0
    } else {
        (x + 1) as u64
    }
}

pub open spec fn inc32(x: u32) -> u32 {
    if x == u32::MAX {
        0
    } else {
        (x + 1) as u32
    }
}

fn wrapping_inc64(x: u64) -> (r: u64)
    ensures
        r == inc64(x),
{
    if x == u64::MAX {
        0
    } else {
        x + 1
    }
}

fn wrapping_inc32(x: u32) -> (r: u32)
    ensures
        r == inc32(x),
{
    if x == u32::MAX {
        0
    } else {
        x + 1
    }
}

/// The log after appending `line`: only the newest 40 lines are kept.
pub open spec fn push_recent_spec(recent: Seq<Seq<char>>, line: Seq<char>) -> Seq<Seq<char>> {
    let n = recent.push(line);
    if n.len() > 40 {
        n.skip(n.len() - 40)
    } else {
        n
    }
}

/// The difficulty-1 share target (`0xffff0000` placed in word 6).
pub open spec fn diff1_target() -> Seq<u8> {
    Seq::new(32, |i: int| if i == 26 || i == 27 { 0xffu8 } else { 0u8 })
}

fn string_from(s: &str) -> (r: String)
    ensures
        r@ == s@,
{
    let cs = chars_of(s);
    string_of(cs.as_slice())
}

fn clone_string(s: &String) -> (r: String)
    ensures
        r@ == s@,
{
    s.clone()
}

impl StratumClient {
    pub fn new(worker: String, password: String) -> (r: Self)
        ensures
            r@.worker == worker@,
            r@.password == password@,
            r@.msg_id == 1,
            r@.subscribe_id == 0,
            r@.authorize_id == 0,
            !r@.subscribed,
            !r@.authorized,
            !r@.stream_open,
            r@.extranonce1 == Seq::<u8>::empty(),
            r@.extranonce2_size == 4,
            r@.en2_counter == 1,
            r@.share_target == diff1_target(),
            r@.difficulty_label == "1"@,
            r@.job_id == Seq::<char>::empty(),
            r@.merkle_hex == Seq::<Seq<char>>::empty(),
            r@.pending_job is None,
            r@.accepted == 0,
            r@.rejected == 0,
            r@.phase == "off"@,
            r@.endpoint == Seq::<char>::empty(),
            r@.jobs_seen == 0,
            r@.lines_rx == 0,
            r@.lines_tx == 0,
            r@.recent == Seq::<Seq<char>>::empty(),
    {
        let mut target = [0u8; 32];
        target[26] = 0xff;
        target[27] = 0xff;
        assert(target@ =~= diff1_target());
        let merkle: Vec<String> = Vec::new();
        let recent: Vec<String> = Vec::new();
        let r = StratumClient {
            worker,
            password,
            msg_id: 1,
            subscribe_id: 0,
            authorize_id: 0,
            subscribed: false,
            authorized: false,
            stream_open: false,
            extranonce1: Vec::new(),
            extranonce2_size: 4,
            en2_counter: 1,
            share_target: target,
            difficulty_label: string_from("1"),
            job_id: String::new(),
            prevhash_hex: String::new(),
            coinb1_hex: String::new(),
            coinb2_hex: String::new(),
            merkle_hex: merkle,
            version_hex: String::new(),
            nbits_hex: String::new(),
            ntime_hex: String::new(),
            active_en2_hex: String::new(),
            active_ntime_hex: String::new(),
            pending_job: None,
            accepted: 0,
            rejected: 0,
            phase: string_from("off"),
            endpoint: String::new(),
            jobs_seen: 0,
            lines_rx: 0,
            lines_tx: 0,
            last_rx: String::new(),
            last_tx: String::new(),
            recent,
        };
        assert(r@.merkle_hex =~= Seq::<Seq<char>>::empty());
        assert(r@.recent =~= Seq::<Seq<char>>::empty());
        r
    }

    /// Connected to the pool and authorized.
    pub fn connected(&self) -> (r: bool)
        ensures
            r == (self@.stream_open && self@.authorized),
    {
        self.stream_open && self.authorized
    }

    pub fn stream_connected(&self) -> (r: bool)
        ensures
            r == self@.stream_open,
    {
        self.stream_open
    }

    pub fn authorized(&self) -> (r: bool)
        ensures
            r == self@.authorized,
    {
        self.authorized
    }

    pub fn job_id(&self) -> (r: &str)
        ensures
            r@ == self@.job_id,
    {
        self.job_id.as_str()
    }

    /// Text of the current difficulty (for logs).
    pub fn difficulty_label(&self) -> (r: &str)
        ensures
            r@ == self@.difficulty_label,
    {
        self.difficulty_label.as_str()
    }

    /// The share target jobs are built with.
    pub fn share_target(&self) -> (r: [u8; 32])
        ensures
            r@ == self@.share_target,
    {
        self.share_target
    }

    /// Appends `line` to the session log, keeping only the newest 40 lines.
    pub fn push_recent(&mut self, line: String)
        ensures
            final(self)@ == (ClientView {
                recent: push_recent_spec(old(self)@.recent, line@),
                ..old(self)@
            }),
    {
        let ghost n = strings_view(self.recent@).push(line@);
        self.recent.push(line);
        assert(strings_view(self.recent@) =~= n);
        let ghost s0 = old(self)@;
        let ghost mut k: int = 0;
        while self.recent.len() > 40
            invariant
                self@ == (ClientView { recent: strings_view(self.recent@), ..s0 }),
                0 <= k <= n.len(),
                strings_view(self.recent@) == n.skip(k),
                self.recent@.len() == n.len() - k,
                k > 0 ==> n.len() - k >= 40,
            decreases self.recent@.len(),
        {
            let ghost before = self.recent@;
            self.recent.remove(0);
            assert(self@ =~= (ClientView { recent: strings_view(self.recent@), ..s0 }));
            assert(self.recent@ =~= before.drop_first());
            assert(strings_view(before) == n.skip(k));
            assert forall|j: int| 0 <= j < self.recent@.len() implies strings_view(self.recent@)[j]
                == n.skip(k + 1)[j] by {
                assert(strings_view(self.recent@)[j] == self.recent@[j]@);
                assert(self.recent@[j] == before[j + 1]);
                assert(strings_view(before)[j + 1] == before[j + 1]@);
                assert(n.skip(k)[j + 1] == n.skip(k + 1)[j]);
            }
            assert(strings_view(self.recent@) =~= n.skip(k + 1));
            proof {
                k = k + 1;
            }
        }
        proof {
            if n.len() > 40 {
                assert(k == n.len() - 40);
            } else {
                assert(k == 0);
                assert(n.skip(0) =~= n);
            }
        }
        assert(self@ =~= (ClientView {
            recent: push_recent_spec(old(self)@.recent, line@),
            ..old(self)@
        }));
    }

    /// Hands the recent log lines to the caller and clears them.
    pub fn take_recent(&mut self) -> (r: Vec<String>)
        ensures
            strings_view(r@) == old(self)@.recent,
            final(self)@ == (ClientView { recent: Seq::empty(), ..old(self)@ }),
    {
        let mut out: Vec<String> = Vec::new();
        std::mem::swap(&mut out, &mut self.recent);
        assert(self@ =~= (ClientView { recent: Seq::empty(), ..old(self)@ }));
        out
    }

    /// Hands out the job waiting for the board, if any.
    pub fn take_job(&mut self) -> (r: Option<WorkJob>)
        ensures
            match r {
                Some(j) => old(self)@.pending_job == Some(job_view(j)),
                None => old(self)@.pending_job is None,
            },
            final(self)@ == (ClientView { pending_job: None, ..old(self)@ }),
    {
        let r = self.pending_job.take();
        assert(self@ =~= (ClientView { pending_job: None, ..old(self)@ }));
        r
    }
}

pub open spec fn subscribe_request(id: u64) -> RequestView {
    RequestView { id, method: "mining.subscribe"@, params: seq!["cgminer/4.12.0"@] }
}

pub open spec fn authorize_request(v: ClientView) -> RequestView {
    RequestView { id: v.msg_id, method: "mining.authorize"@, params: seq![v.worker, v.password] }
}

/// State after asking the pool to authorize the worker.
pub open spec fn after_authorize_sent(v: ClientView) -> ClientView {
    ClientView { authorize_id: v.msg_id, msg_id: inc64(v.msg_id), phase: "auth"@, ..v }
}

pub open spec fn submit_request(
    v: ClientView,
    job_id: Seq<char>,
    en2: Seq<char>,
    ntime: Seq<char>,
    nonce: Seq<char>,
) -> RequestView {
    RequestView {
        id: v.msg_id,
        method: "mining.submit"@,
        params: seq![v.worker, job_id, en2, ntime, nonce],
    }
}

fn single(s: String) -> (r: Vec<String>)
    ensures
        strings_view(r@) == seq![s@],
{
    let mut v: Vec<String> = Vec::new();
    v.push(s);
    assert(strings_view(v@) =~= seq![s@]);
    v
}

impl StratumClient {
    /// Records a line read from the pool.
    pub fn record_received(&mut self, line: &str)
        requires
            preview_ok(line@),
        ensures
            final(self)@ == (ClientView {
                lines_rx: inc64(old(self)@.lines_rx),
                last_rx: line@,
                recent: push_recent_spec(old(self)@.recent, "← "@ + preview(line@)),
                ..old(self)@
            }),
    {
        self.lines_rx = wrapping_inc64(self.lines_rx);
        self.last_rx = string_from(line);
        let cs = chars_of(line);
        let p = preview_of(cs.as_slice());
        let mut msg: Vec<char> = Vec::new();
        extend_str(&mut msg, "← ");
        extend_chars(&mut msg, p.as_slice());
        self.push_recent(string_of(msg.as_slice()));
    }

    /// Records a line written to the pool (`line` as sent, newline included).
    pub fn record_sent(&mut self, line: &str)
        requires
            preview_ok(trim(line@)),
        ensures
            final(self)@ == (ClientView {
                lines_tx: inc64(old(self)@.lines_tx),
                last_tx: trim(line@),
                recent: push_recent_spec(old(self)@.recent, "→ "@ + preview(trim(line@))),
                ..old(self)@
            }),
    {
        self.lines_tx = wrapping_inc64(self.lines_tx);
        let t = trimmed(line);
        self.last_tx = string_of(t.as_slice());
        let p = preview_of(t.as_slice());
        let mut msg: Vec<char> = Vec::new();
        extend_str(&mut msg, "→ ");
        extend_chars(&mut msg, p.as_slice());
        self.push_recent(string_of(msg.as_slice()));
    }

    /// Parses the pool URL and remembers `host:port` as the endpoint.
    pub fn prepare_connect(&mut self, endpoint: &str) -> (r: Result<(String, u16), String>)
        ensures
            match r {
                Ok((h, p)) => {
                    &&& spec_parse_endpoint(endpoint@) == Ok::<(Seq<char>, u16), Seq<char>>(
                        (h@, p),
                    )
                    &&& final(self)@ == (ClientView {
                        endpoint: h@ + ":"@ + dec(p as nat),
                        ..old(self)@
                    })
                },
                Err(e) => {
                    &&& spec_parse_endpoint(endpoint@) == Err::<(Seq<char>, u16), Seq<char>>(e@)
                    &&& final(self)@ == old(self)@
                },
            },
    {
        let r = parse_endpoint(endpoint);
        match &r {
            Ok((h, p)) => {
                let mut e: Vec<char> = Vec::new();
                extend_str(&mut e, h.as_str());
                extend_str(&mut e, ":");
                push_dec(&mut e, *p as u64);
                self.endpoint = string_of(e.as_slice());
            },
            Err(_) => {},
        }
        r
    }

    /// The TCP connection is up: reset the session and subscribe.
    pub fn on_connected(&mut self) -> (r: StratumRequest)
        ensures
            request_view(r) == subscribe_request(old(self)@.msg_id),
            final(self)@ == (ClientView {
                stream_open: true,
                subscribed: false,
                authorized: false,
                pending_job: None,
                subscribe_id: old(self)@.msg_id,
                msg_id: inc64(old(self)@.msg_id),
                phase: "sub"@,
                recent: push_recent_spec(
                    old(self)@.recent,
                    "← TCP connected "@ + old(self)@.endpoint,
                ),
                ..old(self)@
            }),
    {
        self.stream_open = true;
        self.subscribed = false;
        self.authorized = false;
        self.pending_job = None;
        let mut msg: Vec<char> = Vec::new();
        extend_str(&mut msg, "← TCP connected ");
        extend_str(&mut msg, self.endpoint.as_str());
        self.push_recent(string_of(msg.as_slice()));
        self.subscribe_id = self.msg_id;
        self.msg_id = wrapping_inc64(self.msg_id);
        self.phase = string_from("sub");
        let req = StratumRequest {
            id: self.subscribe_id,
            method: string_from("mining.subscribe"),
            params: single(string_from("cgminer/4.12.0")),
        };
        assert(request_view(req) =~= subscribe_request(old(self)@.msg_id));
        req
    }

    pub fn disconnect(&mut self)
        ensures
            final(self)@ == (ClientView {
                stream_open: false,
                subscribed: false,
                authorized: false,
                pending_job: None,
                phase: "off"@,
                recent: push_recent_spec(old(self)@.recent, "← disconnected"@),
                ..old(self)@
            }),
    {
        self.stream_open = false;
        self.subscribed = false;
        self.authorized = false;
        self.pending_job = None;
        self.phase = string_from("off");
        self.push_recent(string_from("← disconnected"));
    }

    /// A new pool difficulty: its share target and its text for the log.
    pub fn apply_difficulty(&mut self, target: [u8; 32], label: String)
        ensures
            final(self)@ == (ClientView {
                share_target: target@,
                difficulty_label: label@,
                ..old(self)@
            }),
    {
        self.share_target = target;
        self.difficulty_label = label;
    }

    /// A `mining.submit` request for a share; refused before authorization.
    pub fn submit_share(&mut self, job_id: &str, en2: &str, ntime: &str, nonce_hex: &str) -> (r:
        Result<StratumRequest, String>)
        ensures
            match r {
                Ok(req) => {
                    &&& old(self)@.authorized
                    &&& request_view(req) == submit_request(
                        old(self)@,
                        job_id@,
                        en2@,
                        ntime@,
                        nonce_hex@,
                    )
                    &&& final(self)@ == (ClientView {
                        msg_id: inc64(old(self)@.msg_id),
                        ..old(self)@
                    })
                },
                Err(e) => {
                    &&& !old(self)@.authorized
                    &&& e@ == "not authorized"@
                    &&& final(self)@ == old(self)@
                },
            },
    {
        if !self.authorized {
            return Err(string_from("not authorized"));
        }
        let id = self.msg_id;
        self.msg_id = wrapping_inc64(self.msg_id);
        let mut params: Vec<String> = Vec::new();
        params.push(clone_string(&self.worker));
        params.push(string_from(job_id));
        params.push(string_from(en2));
        params.push(string_from(ntime));
        params.push(string_from(nonce_hex));
        assert(strings_view(params@) =~= seq![old(self)@.worker, job_id@, en2@, ntime@, nonce_hex@]);
        let req = StratumRequest { id, method: string_from("mining.submit"), params };
        assert(request_view(req) =~= submit_request(
            old(self)@,
            job_id@,
            en2@,
            ntime@,
            nonce_hex@,
        ));
        Ok(req)
    }

    /// Local pre-check of a board share before it goes to the pool: the nonce
    /// (cgminer `%08x` form) placed in the job header must give a double
    /// SHA-256 that meets the job's target.
    pub fn verify_share_against_job(job: &WorkJob, nonce_hex: &str) -> (r: Result<[u8; 32], String>)
        ensures
            r matches Ok(h) ==> spec_verify_share(*job, nonce_hex@) == Ok::<Seq<u8>, Seq<char>>(
                h@,
            ),
            r matches Err(e) ==> spec_verify_share(*job, nonce_hex@) == Err::<Seq<u8>, Seq<char>>(
                e@,
            ),
    {
        check_share(job, nonce_hex)
    }

    fn send_authorize(&mut self) -> (r: StratumRequest)
        ensures
            request_view(r) == authorize_request(old(self)@),
            final(self)@ == after_authorize_sent(old(self)@),
    {
        self.authorize_id = self.msg_id;
        self.msg_id = wrapping_inc64(self.msg_id);
        self.phase = string_from("auth");
        let mut params: Vec<String> = Vec::new();
        params.push(clone_string(&self.worker));
        params.push(clone_string(&self.password));
        assert(strings_view(params@) =~= seq![old(self)@.worker, old(self)@.password]);
        let req = StratumRequest { id: self.authorize_id, method: string_from("mining.authorize"), params };
        assert(request_view(req) =~= authorize_request(old(self)@));
        req
    }
}

// ----- block header -----

pub open spec fn clamp_size(x: usize) -> usize {
    if x < 1 {
        1
    } else if x > 16 {
        16
    } else {
        x
    }
}

/// extranonce2 as cgminer fills it: the counter's little-endian bytes, zero-padded.
pub open spec fn en2_bytes(counter: u64, size: nat) -> Seq<u8> {
    Seq::new(
        size,
        |i: int|
            if i < 8 {
                ((counter >> ((8 * i) as u64)) & 0xff) as u8
            } else {
                0u8
            },
    )
}

/// Folds the merkle branches (hex text, 32 bytes each) into the root.
pub open spec fn merkle_root(coinbase_hash: Seq<u8>, branches: Seq<Seq<char>>) -> Option<Seq<u8>>
    decreases branches.len(),
{
    if branches.len() == 0 {
        Some(coinbase_hash)
    } else {
        match merkle_root(coinbase_hash, branches.drop_last()) {
            Some(m) => match spec_hex_decode(str_bytes(branches.last())) {
                Some(b) => if b.len() == 32 {
                    Some(spec_dsha256(m + b))
                } else {
                    None
                },
                None => None,
            },
            None => None,
        }
    }
}

/// The 80-byte wire header (nonce zero).
pub open spec fn header_of(
    version: Seq<u8>,
    prev: Seq<u8>,
    merkle: Seq<u8>,
    ntime: Seq<u8>,
    nbits: Seq<u8>,
) -> Seq<u8> {
    spec_swab32(version) + spec_swab256(prev) + merkle + spec_swab32(ntime) + spec_swab32(nbits)
        + seq![0u8, 0u8, 0u8, 0u8]
}

/// Building a job from the latest `mining.notify`: the coinbase parts must be
/// hex, each branch 32 bytes of hex, version/nbits/ntime 4 bytes and the
/// previous hash 32 bytes. The extranonce2 counter moves on once the coinbase
/// parts decode, whether or not the job comes out.
pub open spec fn spec_build_job(v: ClientView) -> (ClientView, Option<JobView>) {
    match (spec_hex_decode(str_bytes(v.coinb1_hex)), spec_hex_decode(str_bytes(v.coinb2_hex))) {
        (Some(c1), Some(c2)) => {
            let size = clamp_size(v.extranonce2_size);
            let en2 = en2_bytes(v.en2_counter, size as nat);
            let v1 = ClientView {
                en2_counter: inc64(v.en2_counter),
                active_en2_hex: spec_hex_lower(en2),
                active_ntime_hex: v.ntime_hex,
                ..v
            };
            let coinbase = c1 + v.extranonce1 + en2 + c2;
            match merkle_root(spec_dsha256(coinbase), v.merkle_hex) {
                None => (v1, None),
                Some(m) => match (
                    spec_hex_fixed(v.version_hex, 4),
                    spec_hex_fixed(v.prevhash_hex, 32),
                    spec_hex_fixed(v.nbits_hex, 4),
                    spec_hex_fixed(v.ntime_hex, 4),
                ) {
                    (Some(ver), Some(prev), Some(nb), Some(nt)) => (
                        v1,
                        Some(
                            JobView {
                                job_id: v.job_id,
                                header: header_of(ver, prev, m, nt, nb),
                                target: v.share_target,
                                extranonce2_hex: v1.active_en2_hex,
                                ntime_hex: v1.active_ntime_hex,
                            },
                        ),
                    ),
                    _ => (v1, None),
                },
            }
        },
        _ => (v, None),
    }
}

fn put_bytes(header: &mut [u8; 80], at: usize, src: &[u8])
    requires
        at + src@.len() <= 80,
    ensures
        final(header)@ == old(header)@.subrange(0, at as int) + src@ + old(header)@.subrange(
            at + src@.len(),
            80,
        ),
{
    let ghost h0 = header@;
    let mut i: usize = 0;
    while i < src.len()
        invariant
            i <= src@.len(),
            at + src@.len() <= 80,
            header@.len() == 80,
            forall|j: int| 0 <= j < at ==> #[trigger] header@[j] == h0[j],
            forall|j: int| at <= j < at + i ==> #[trigger] header@[j] == src@[j - at],
            forall|j: int| at + i <= j < 80 ==> #[trigger] header@[j] == h0[j],
        decreases src@.len() - i,
    {
        header[at + i] = src[i];
        i = i + 1;
    }
    assert(header@ =~= h0.subrange(0, at as int) + src@ + h0.subrange(at + src@.len(), 80));
}

fn en2_of(counter: u64, size: usize) -> (r: Vec<u8>)
    ensures
        r@ == en2_bytes(counter, size as nat),
{
    let mut out: Vec<u8> = Vec::new();
    let mut i: usize = 0;
    while i < size
        invariant
            i <= size,
            out@ == en2_bytes(counter, size as nat).take(i as int),
        decreases size - i,
    {
        let b: u8 = if i < 8 {
            ((counter >> (8 * i) as u64) & 0xff) as u8
        } else {
            0
        };
        out.push(b);
        assert(out@ =~= en2_bytes(counter, size as nat).take(i + 1));
        i = i + 1;
    }
    assert(out@ =~= en2_bytes(counter, size as nat));
    out
}

fn concat_bytes(a: &[u8], b: &[u8]) -> (r: Vec<u8>)
    ensures
        r@ == a@ + b@,
{
    let mut out: Vec<u8> = Vec::new();
    let mut i: usize = 0;
    while i < a.len()
        invariant
            i <= a@.len(),
            out@ == a@.take(i as int),
        decreases a@.len() - i,
    {
        out.push(a[i]);
        assert(out@ =~= a@.take(i + 1));
        i = i + 1;
    }
    let mut j: usize = 0;
    while j < b.len()
        invariant
            j <= b@.len(),
            out@ == a@ + b@.take(j as int),
        decreases b@.len() - j,
    {
        out.push(b[j]);
        assert(out@ =~= a@ + b@.take(j + 1));
        j = j + 1;
    }
    assert(a@.take(a@.len() as int) =~= a@);
    assert(b@.take(b@.len() as int) =~= b@);
    out
}

/// Folds the branches into the merkle root.
fn fold_merkle(coinbase_hash: [u8; 32], branches: &Vec<String>) -> (r: Option<[u8; 32]>)
    ensures
        match r {
            Some(m) => merkle_root(coinbase_hash@, strings_view(branches@)) == Some(m@),
            None => merkle_root(coinbase_hash@, strings_view(branches@)) is None,
        },
{
    let mut m = coinbase_hash;
    let mut i: usize = 0;
    while i < branches.len()
        invariant
            i <= branches@.len(),
            merkle_root(coinbase_hash@, strings_view(branches@).take(i as int)) == Some(m@),
        decreases branches@.len() - i,
    {
        assert(strings_view(branches@).take(i + 1).drop_last() =~= strings_view(branches@).take(
            i as int,
        ));
        assert(strings_view(branches@).take(i + 1).last() == branches@[i as int]@);
        let branch = match hex_decode(branches[i].as_str()) {
            Some(b) => b,
            None => {
                proof {
                    lemma_merkle_none_extends(coinbase_hash@, strings_view(branches@), i + 1);
                }
                return None;
            },
        };
        if branch.len() != 32 {
            proof {
                lemma_merkle_none_extends(coinbase_hash@, strings_view(branches@), i + 1);
            }
            return None;
        }
        let cat = concat_bytes(m.as_slice(), branch.as_slice());
        m = dsha256(cat.as_slice());
        i = i + 1;
    }
    assert(strings_view(branches@).take(i as int) =~= strings_view(branches@));
    Some(m)
}

proof fn lemma_merkle_none_extends(m0: Seq<u8>, bs: Seq<Seq<char>>, k: int)
    requires
        0 <= k <= bs.len(),
        merkle_root(m0, bs.take(k)) is None,
    ensures
        merkle_root(m0, bs) is None,
    decreases bs.len() - k,
{
    if k < bs.len() {
        assert(bs.take(k + 1).drop_last() =~= bs.take(k));
        lemma_merkle_none_extends(m0, bs, k + 1);
    } else {
        assert(bs.take(k) =~= bs);
    }
}

fn hex_of_string(s: &String, n: usize) -> (r: Option<Vec<u8>>)
    ensures
        match r {
            Some(v) => spec_hex_fixed(s@, n as nat) == Some(v@),
            None => spec_hex_fixed(s@, n as nat) is None,
        },
{
    hex_fixed(s.as_str(), n)
}

impl StratumClient {
    fn build_job(&mut self) -> (r: Option<WorkJob>)
        ensures
            final(self)@ == spec_build_job(old(self)@).0,
            match r {
                Some(j) => spec_build_job(old(self)@).1 == Some(job_view(j)),
                None => spec_build_job(old(self)@).1 is None,
            },
    {
        let ghost v = self@;
        let coinb1 = match hex_decode(self.coinb1_hex.as_str()) {
            Some(b) => b,
            None => {
                return None;
            },
        };
        let coinb2 = match hex_decode(self.coinb2_hex.as_str()) {
            Some(b) => b,
            None => {
                return None;
            },
        };
        let size = if self.extranonce2_size < 1 {
            1
        } else if self.extranonce2_size > 16 {
            16
        } else {
            self.extranonce2_size
        };
        let en2 = en2_of(self.en2_counter, size);
        self.en2_counter = wrapping_inc64(self.en2_counter);
        self.active_en2_hex = hex_encode(en2.as_slice());
        self.active_ntime_hex = clone_string(&self.ntime_hex);
        let ghost v1 = self@;
        assert(v1 =~= spec_build_job(v).0);
        let p1 = concat_bytes(coinb1.as_slice(), self.extranonce1.as_slice());
        let p2 = concat_bytes(p1.as_slice(), en2.as_slice());
        let coinbase = concat_bytes(p2.as_slice(), coinb2.as_slice());
        let cb_hash = dsha256(coinbase.as_slice());
        let merkle = match fold_merkle(cb_hash, &self.merkle_hex) {
            Some(m) => m,
            None => {
                return None;
            },
        };
        let mut version = match hex_of_string(&self.version_hex, 4) {
            Some(b) => b,
            None => {
                return None;
            },
        };
        let mut prev = match hex_of_string(&self.prevhash_hex, 32) {
            Some(b) => b,
            None => {
                return None;
            },
        };
        let mut nbits = match hex_of_string(&self.nbits_hex, 4) {
            Some(b) => b,
            None => {
                return None;
            },
        };
        let mut ntime = match hex_of_string(&self.ntime_hex, 4) {
            Some(b) => b,
            None => {
                return None;
            },
        };
        let ghost (ver0, prev0, nb0, nt0) = (version@, prev@, nbits@, ntime@);
        swab32_bytes(version.as_mut_slice());
        swab256(prev.as_mut_slice());
        swab32_bytes(ntime.as_mut_slice());
        swab32_bytes(nbits.as_mut_slice());
        let mut header = [0u8; 80];
        put_bytes(&mut header, 0, version.as_slice());
        put_bytes(&mut header, 4, prev.as_slice());
        put_bytes(&mut header, 36, merkle.as_slice());
        put_bytes(&mut header, 68, ntime.as_slice());
        put_bytes(&mut header, 72, nbits.as_slice());
        assert(header@ =~= header_of(ver0, prev0, merkle@, nt0, nb0));
        let job = WorkJob {
            job_id: clone_string(&self.job_id),
            header,
            target: self.share_target,
            extranonce2_hex: clone_string(&self.active_en2_hex),
            ntime_hex: clone_string(&self.active_ntime_hex),
        };
        Some(job)
    }
}

// ----- pool messages -----

pub open spec fn str_or_empty(j: Json) -> Seq<char> {
    match json_str(j) {
        Some(s) => s,
        None => Seq::empty(),
    }
}

/// The string elements of an array, in order (others are skipped).
pub open spec fn string_members(a: Seq<Json>) -> Seq<Seq<char>>
    decreases a.len(),
{
    if a.len() == 0 {
        Seq::empty()
    } else {
        let p = string_members(a.drop_last());
        match json_str(a.last()) {
            Some(s) => p.push(s),
            None => p,
        }
    }
}

/// The message id; 0 when absent or not an unsigned integer.
pub open spec fn message_id(m: Json) -> u64 {
    match json_get(m, "id"@) {
        Some(i) => match json_u64(i) {
            Some(n) => n,
            None => 0,
        },
        None => 0,
    }
}

/// An `error` member that is not `null`.
pub open spec fn has_error(m: Json) -> bool {
    match json_get(m, "error"@) {
        Some(e) => !json_is_null(e),
        None => false,
    }
}

/// The JSON text of the `error` member, or `default` without one.
pub open spec fn error_or(m: Json, default: Seq<char>) -> Seq<char> {
    match json_get(m, "error"@) {
        Some(e) => e.text@,
        None => default,
    }
}

pub open spec fn result_member(m: Json) -> Option<Json> {
    json_get(m, "result"@)
}

pub open spec fn notify_line(job_id: Seq<char>, label: Seq<char>) -> Seq<char> {
    "← mining.notify job="@ + job_id + " diff="@ + label
}

pub open spec fn accepted_line(id: u64) -> Seq<char> {
    "← share ACCEPTED id="@ + dec(id as nat)
}

pub open spec fn rejected_line(id: u64, why: Seq<char>) -> Seq<char> {
    "← share REJECTED id="@ + dec(id as nat) + " "@ + why
}

/// `mining.notify` with at least eight parameters.
pub open spec fn spec_notify(v: ClientView, a: Seq<Json>) -> (ClientView, Result<EventView, Seq<char>>) {
    let v1 = ClientView {
        job_id: str_or_empty(a[0]),
        prevhash_hex: str_or_empty(a[1]),
        coinb1_hex: str_or_empty(a[2]),
        coinb2_hex: str_or_empty(a[3]),
        merkle_hex: match json_array(a[4]) {
            Some(b) => string_members(b),
            None => Seq::empty(),
        },
        version_hex: str_or_empty(a[5]),
        nbits_hex: str_or_empty(a[6]),
        ntime_hex: str_or_empty(a[7]),
        ..v
    };
    let (v2, job) = spec_build_job(v1);
    match job {
        Some(j) => (
            ClientView {
                jobs_seen: inc32(v2.jobs_seen),
                recent: push_recent_spec(v2.recent, notify_line(j.job_id, v2.difficulty_label)),
                pending_job: Some(j),
                phase: "mine"@,
                ..v2
            },
            Ok(EventView::Idle),
        ),
        None => (v2, Ok(EventView::Idle)),
    }
}

/// A pool notification (a message with a string `method`).
pub open spec fn spec_handle_method(v: ClientView, m: Json, method: Seq<char>) -> (
    ClientView,
    Result<EventView, Seq<char>>,
) {
    let arr = match json_get(m, "params"@) {
        Some(p) => json_array(p),
        None => None,
    };
    if method == "mining.set_difficulty"@ {
        let numeric = match arr {
            Some(a) => a.len() > 0 && json_is_number(a[0]),
            None => false,
        };
        (v, Ok(if numeric { EventView::SetDifficulty } else { EventView::Idle }))
    } else if method == "mining.notify"@ {
        match arr {
            Some(a) => if a.len() >= 8 {
                spec_notify(v, a)
            } else {
                (v, Ok(EventView::Idle))
            },
            None => (v, Ok(EventView::Idle)),
        }
    } else {
        (v, Ok(EventView::Idle))
    }
}

/// The answer to our `mining.subscribe`.
pub open spec fn spec_subscribe_reply(v: ClientView, m: Json) -> (
    ClientView,
    Result<EventView, Seq<char>>,
) {
    if has_error(m) {
        (ClientView { phase: "err"@, ..v }, Err("subscribe failed: "@ + error_or(m, Seq::empty())))
    } else {
        match result_member(m) {
            Some(r) => match json_str(r) {
                Some(text) => (ClientView { phase: "err"@, ..v }, Err("subscribe rejected: "@ + text)),
                None => match json_array(r) {
                    Some(res) => if res.len() >= 3 {
                        let en1 = str_or_empty(res[1]);
                        let x1 = match spec_hex_decode(str_bytes(en1)) {
                            Some(b) => b,
                            None => Seq::empty(),
                        };
                        let sz0 = (match json_u64(res[2]) {
                            Some(n) => n,
                            None => 4u64,
                        }) as usize;
                        let sz = if sz0 == 0 {
                            4usize
                        } else if sz0 > 16 {
                            16usize
                        } else {
                            sz0
                        };
                        let v1 = ClientView {
                            extranonce1: x1,
                            extranonce2_size: sz,
                            subscribed: true,
                            ..v
                        };
                        (after_authorize_sent(v1), Ok(EventView::Send(authorize_request(v1))))
                    } else {
                        (v, Ok(EventView::Idle))
                    },
                    None => (v, Ok(EventView::Idle)),
                },
            },
            None => (v, Ok(EventView::Idle)),
        }
    }
}

/// A reply to one of our requests (a message without a string `method`).
pub open spec fn spec_handle_reply(v: ClientView, m: Json) -> (
    ClientView,
    Result<EventView, Seq<char>>,
) {
    let id = message_id(m);
    let err = has_error(m);
    let result_bool = match result_member(m) {
        Some(r) => json_bool(r),
        None => None,
    };
    if id == v.subscribe_id && !v.subscribed {
        spec_subscribe_reply(v, m)
    } else if result_bool is Some {
        let ok = result_bool->0 && !err;
        if id == v.authorize_id {
            (
                ClientView { authorized: ok, phase: if ok { "idle"@ } else { "err"@ }, ..v },
                if ok {
                    Ok(EventView::Idle)
                } else {
                    Err("authorize failed"@)
                },
            )
        } else if ok {
            (
                ClientView {
                    accepted: inc32(v.accepted),
                    recent: push_recent_spec(v.recent, accepted_line(id)),
                    ..v
                },
                Ok(EventView::Idle),
            )
        } else {
            (
                ClientView {
                    rejected: inc32(v.rejected),
                    recent: push_recent_spec(v.recent, rejected_line(id, error_or(m, "false"@))),
                    ..v
                },
                Ok(EventView::Idle),
            )
        }
    } else if err && id != 0 && id != v.subscribe_id && id != v.authorize_id {
        (
            ClientView {
                rejected: inc32(v.rejected),
                recent: push_recent_spec(v.recent, rejected_line(id, error_or(m, "error"@))),
                ..v
            },
            Ok(EventView::Idle),
        )
    } else if id == v.authorize_id && !v.authorized && !err {
        (ClientView { authorized: true, phase: "idle"@, ..v }, Ok(EventView::Idle))
    } else {
        (v, Ok(EventView::Idle))
    }
}

/// One message from the pool: what the session becomes and what it answers.
pub open spec fn spec_handle(v: ClientView, m: Json) -> (ClientView, Result<EventView, Seq<char>>) {
    match json_get(m, "method"@) {
        Some(mj) => match json_str(mj) {
            Some(method) => spec_handle_method(v, m, method),
            None => spec_handle_reply(v, m),
        },
        None => spec_handle_reply(v, m),
    }
}

fn strings_of(a: &Vec<Json>) -> (r: Vec<String>)
    ensures
        strings_view(r@) == string_members(a@),
{
    let mut out: Vec<String> = Vec::new();
    let mut i: usize = 0;
    while i < a.len()
        invariant
            i <= a@.len(),
            strings_view(out@) == string_members(a@.take(i as int)),
        decreases a@.len() - i,
    {
        assert(a@.take(i + 1).drop_last() =~= a@.take(i as int));
        match a[i].as_str() {
            Some(s) => {
                out.push(clone_string(s));
                assert(strings_view(out@) =~= string_members(a@.take(i as int)).push(s@));
            },
            None => {},
        }
        i = i + 1;
    }
    assert(a@.take(a@.len() as int) =~= a@);
    out
}

fn str_member(j: &Json) -> (r: String)
    ensures
        r@ == str_or_empty(*j),
{
    match j.as_str() {
        Some(s) => clone_string(s),
        None => String::new(),
    }
}

fn error_text_or(m: &Json, default: &str) -> (r: String)
    ensures
        r@ == error_or(*m, default@),
{
    match m.get("error") {
        Some(e) => clone_string(&e.text),
        None => string_from(default),
    }
}

fn message_id_of(m: &Json) -> (r: u64)
    ensures
        r == message_id(*m),
{
    match m.get("id") {
        Some(i) => match i.as_u64() {
            Some(n) => n,
            None => 0,
        },
        None => 0,
    }
}

fn has_error_of(m: &Json) -> (r: bool)
    ensures
        r == has_error(*m),
{
    match m.get("error") {
        Some(e) => !e.is_null(),
        None => false,
    }
}

impl StratumClient {
    fn handle_notify(&mut self, a: &Vec<Json>) -> (r: Result<StratumEvent, String>)
        requires
            a@.len() >= 8,
        ensures
            (final(self)@, result_view(r)) == spec_notify(old(self)@, a@),
    {
        self.job_id = str_member(&a[0]);
        self.prevhash_hex = str_member(&a[1]);
        self.coinb1_hex = str_member(&a[2]);
        self.coinb2_hex = str_member(&a[3]);
        self.merkle_hex = match a[4].as_array() {
            Some(m) => strings_of(m),
            None => Vec::new(),
        };
        self.version_hex = str_member(&a[5]);
        self.nbits_hex = str_member(&a[6]);
        self.ntime_hex = str_member(&a[7]);
        let ghost v0 = old(self)@;
        let ghost v1 = ClientView {
            job_id: str_or_empty(a@[0]),
            prevhash_hex: str_or_empty(a@[1]),
            coinb1_hex: str_or_empty(a@[2]),
            coinb2_hex: str_or_empty(a@[3]),
            merkle_hex: match json_array(a@[4]) {
                Some(b) => string_members(b),
                None => Seq::empty(),
            },
            version_hex: str_or_empty(a@[5]),
            nbits_hex: str_or_empty(a@[6]),
            ntime_hex: str_or_empty(a@[7]),
            ..v0
        };
        assert(self@ =~= v1);
        match self.build_job() {
            Some(job) => {
                self.jobs_seen = wrapping_inc32(self.jobs_seen);
                let mut msg: Vec<char> = Vec::new();
                extend_str(&mut msg, "← mining.notify job=");
                extend_str(&mut msg, job.job_id.as_str());
                extend_str(&mut msg, " diff=");
                extend_str(&mut msg, self.difficulty_label.as_str());
                self.push_recent(string_of(msg.as_slice()));
                self.pending_job = Some(job);
                self.phase = string_from("mine");
                Ok(StratumEvent::Idle)
            },
            None => Ok(StratumEvent::Idle),
        }
    }
}

impl StratumClient {
    fn handle_subscribe_reply(&mut self, m: &Json) -> (r: Result<StratumEvent, String>)
        ensures
            (final(self)@, result_view(r)) == spec_subscribe_reply(old(self)@, *m),
    {
        if has_error_of(m) {
            self.phase = string_from("err");
            let detail = error_text_or(m, "");
            let mut msg: Vec<char> = Vec::new();
            extend_str(&mut msg, "subscribe failed: ");
            extend_str(&mut msg, detail.as_str());
            return Err(string_of(msg.as_slice()));
        }
        let r = match m.get("result") {
            Some(r) => r,
            None => {
                return Ok(StratumEvent::Idle);
            },
        };
        match r.as_str() {
            Some(text) => {
                self.phase = string_from("err");
                let mut msg: Vec<char> = Vec::new();
                extend_str(&mut msg, "subscribe rejected: ");
                extend_str(&mut msg, text.as_str());
                return Err(string_of(msg.as_slice()));
            },
            None => {},
        }
        match r.as_array() {
            Some(res) => {
                if res.len() >= 3 {
                    let en1 = str_member(&res[1]);
                    self.extranonce1 = match hex_decode(en1.as_str()) {
                        Some(b) => b,
                        None => Vec::new(),
                    };
                    let n: u64 = match res[2].as_u64() {
                        Some(n) => n,
                        None => 4,
                    };
                    let sz0 = n as usize;
                    self.extranonce2_size = if sz0 == 0 {
                        4
                    } else if sz0 > 16 {
                        16
                    } else {
                        sz0
                    };
                    self.subscribed = true;
                    let req = self.send_authorize();
                    return Ok(StratumEvent::Send(req));
                }
                Ok(StratumEvent::Idle)
            },
            None => Ok(StratumEvent::Idle),
        }
    }

    fn handle_reply(&mut self, m: &Json) -> (r: Result<StratumEvent, String>)
        ensures
            (final(self)@, result_view(r)) == spec_handle_reply(old(self)@, *m),
    {
        let id = message_id_of(m);
        let err = has_error_of(m);
        if id == self.subscribe_id && !self.subscribed {
            return self.handle_subscribe_reply(m);
        }
        let result_bool: Option<bool> = match m.get("result") {
            Some(r) => r.as_bool(),
            None => None,
        };
        match result_bool {
            Some(b) => {
                let ok = b && !err;
                if id == self.authorize_id {
                    self.authorized = ok;
                    self.phase = if ok {
                        string_from("idle")
                    } else {
                        string_from("err")
                    };
                    if !ok {
                        return Err(string_from("authorize failed"));
                    }
                    return Ok(StratumEvent::Idle);
                }
                if ok {
                    self.accepted = wrapping_inc32(self.accepted);
                    let mut msg: Vec<char> = Vec::new();
                    extend_str(&mut msg, "← share ACCEPTED id=");
                    push_dec(&mut msg, id);
                    self.push_recent(string_of(msg.as_slice()));
                } else {
                    self.rejected = wrapping_inc32(self.rejected);
                    let why = error_text_or(m, "false");
                    let mut msg: Vec<char> = Vec::new();
                    extend_str(&mut msg, "← share REJECTED id=");
                    push_dec(&mut msg, id);
                    extend_str(&mut msg, " ");
                    extend_str(&mut msg, why.as_str());
                    self.push_recent(string_of(msg.as_slice()));
                }
                return Ok(StratumEvent::Idle);
            },
            None => {},
        }
        if err && id != 0 && id != self.subscribe_id && id != self.authorize_id {
            self.rejected = wrapping_inc32(self.rejected);
            let why = error_text_or(m, "error");
            let mut msg: Vec<char> = Vec::new();
            extend_str(&mut msg, "← share REJECTED id=");
            push_dec(&mut msg, id);
            extend_str(&mut msg, " ");
            extend_str(&mut msg, why.as_str());
            self.push_recent(string_of(msg.as_slice()));
        } else if id == self.authorize_id && !self.authorized && !err {
            self.authorized = true;
            self.phase = string_from("idle");
        }
        Ok(StratumEvent::Idle)
    }

    /// Handles one message from the pool. `SetDifficulty` asks the caller for
    /// the share target of the new difficulty; `Send` carries a request to write.
    pub fn handle_message(&mut self, m: &Json) -> (r: Result<StratumEvent, String>)
        ensures
            (final(self)@, result_view(r)) == spec_handle(old(self)@, *m),
    {
        let method: Option<&String> = match m.get("method") {
            Some(mj) => mj.as_str(),
            None => None,
        };
        match method {
            Some(name) => {
                let arr: Option<&Vec<Json>> = match m.get("params") {
                    Some(p) => p.as_array(),
                    None => None,
                };
                let nc = chars_of(name.as_str());
                if seq_is(nc.as_slice(), "mining.set_difficulty") {
                    let numeric = match arr {
                        Some(a) => a.len() > 0 && a[0].is_number(),
                        None => false,
                    };
                    if numeric {
                        Ok(StratumEvent::SetDifficulty)
                    } else {
                        Ok(StratumEvent::Idle)
                    }
                } else if seq_is(nc.as_slice(), "mining.notify") {
                    match arr {
                        Some(a) => {
                            if a.len() >= 8 {
                                self.handle_notify(a)
                            } else {
                                Ok(StratumEvent::Idle)
                            }
                        },
                        None => Ok(StratumEvent::Idle),
                    }
                } else {
                    Ok(StratumEvent::Idle)
                }
            },
            None => self.handle_reply(m),
        }
    }
}

// ----- laws of the session -----

/// The UI log never holds more than 40 lines; the newest line is last and the
/// lines before it are the newest of the old log.
pub proof fn lemma_log_keeps_newest(recent: Seq<Seq<char>>, line: Seq<char>)
    ensures
        push_recent_spec(recent, line).len() <= 40,
        push_recent_spec(recent, line).len() > 0,
        push_recent_spec(recent, line).last() == line,
        push_recent_spec(recent, line).drop_last() == recent.skip(
            recent.len() + 1 - push_recent_spec(recent, line).len(),
        ),
{
    let n = recent.push(line);
    let r = push_recent_spec(recent, line);
    assert(r.drop_last() =~= recent.skip(recent.len() + 1 - r.len()));
}

/// Handling any pool message keeps the UI log within 40 lines.
pub proof fn lemma_handle_keeps_log_bounded(v: ClientView, m: Json)
    requires
        v.recent.len() <= 40,
    ensures
        spec_handle(v, m).0.recent.len() <= 40,
{
    lemma_log_keeps_newest(v.recent, Seq::empty());
    assert forall|r: Seq<Seq<char>>, l: Seq<char>| #[trigger] push_recent_spec(r, l).len() <= 40 by {
        lemma_log_keeps_newest(r, l);
    }
}

/// A job built from a notification carries the session's share target and the
/// notified job id, its header ends in the four zero nonce bytes the board
/// fills in, and the extranonce2 counter moved on.
pub proof fn lemma_job_carries_share_target(v: ClientView)
    ensures
        spec_build_job(v).1 matches Some(j) ==> {
            &&& j.target == v.share_target
            &&& j.job_id == v.job_id
            &&& j.header.len() >= 4
            &&& j.header.skip(j.header.len() - 4) == seq![0u8, 0u8, 0u8, 0u8]
            &&& spec_build_job(v).0.en2_counter == inc64(v.en2_counter)
        },
{
    if let Some(j) = spec_build_job(v).1 {
        let h = j.header;
        assert(h.skip(h.len() - 4) =~= seq![0u8, 0u8, 0u8, 0u8]);
    }
}

/// A pool reply carrying an error is never counted as an accepted share; a
/// reply to a share (an id that is not 0, the subscribe id or the authorize
/// id) with an error and no boolean result is counted as exactly one more
/// rejected share and logged as `← share REJECTED id=<id> <error json>`.
pub proof fn lemma_error_reply_counts(v: ClientView, m: Json)
    requires
        json_get(m, "method"@) is None,
        json_get(m, "error"@) matches Some(e) && !json_is_null(e),
    ensures
        spec_handle(v, m).0.accepted == v.accepted,
        ({
            let id = match json_get(m, "id"@) {
                Some(i) => match json_u64(i) {
                    Some(n) => n,
                    None => 0u64,
                },
                None => 0u64,
            };
            let boolean_result = match json_get(m, "result"@) {
                Some(r) => json_bool(r) is Some,
                None => false,
            };
            (id != 0 && id != v.subscribe_id && id != v.authorize_id && !boolean_result) ==> {
                &&& spec_handle(v, m).0.rejected as int == (v.rejected as int + 1) % 0x1_0000_0000
                &&& spec_handle(v, m).0.recent.last() == "← share REJECTED id="@ + dec(id as nat) + " "@
                    + json_get(m, "error"@)->0.text@
            }
        }),
{
    let id = message_id(m);
    if id == v.subscribe_id && !v.subscribed {
        let r = spec_subscribe_reply(v, m);
        assert(r.0.accepted == v.accepted);
    }
    let line = rejected_line(id, error_or(m, "error"@));
    lemma_log_keeps_newest(v.recent, line);
}

/// The merkle root the way Bitcoin folds it: starting from the coinbase hash,
/// each step hashes the running hash followed by the next branch.
pub open spec fn running_root(start: Seq<u8>, branches: Seq<Seq<u8>>) -> Seq<u8>
    decreases branches.len(),
{
    if branches.len() == 0 {
        start
    } else {
        spec_dsha256(running_root(start, branches.drop_last()) + branches.last())
    }
}

/// The bytes each merkle branch's hex text spells.
pub open spec fn branch_bytes(branches: Seq<Seq<char>>) -> Seq<Seq<u8>> {
    branches.map_values(|b: Seq<char>| spec_hex_decode(str_bytes(b))->0)
}

/// Every branch is 32 bytes of hex.
pub open spec fn branches_ok(branches: Seq<Seq<char>>) -> bool {
    forall|i: int|
        0 <= i < branches.len() ==> (#[trigger] spec_hex_decode(str_bytes(branches[i])) matches Some(b)
            && b.len() == 32)
}

proof fn lemma_merkle_root_runs(h: Seq<u8>, bs: Seq<Seq<char>>)
    ensures
        merkle_root(h, bs) is Some ==> branches_ok(bs) && merkle_root(h, bs)->0 == running_root(
            h,
            branch_bytes(bs),
        ),
    decreases bs.len(),
{
    if bs.len() > 0 {
        let prev = bs.drop_last();
        lemma_merkle_root_runs(h, prev);
        if merkle_root(h, bs) is Some {
            assert(branch_bytes(bs).drop_last() =~= branch_bytes(prev));
            assert(branch_bytes(bs).last() == spec_hex_decode(str_bytes(bs.last()))->0);
            assert forall|i: int| 0 <= i < bs.len() implies (#[trigger] spec_hex_decode(str_bytes(bs[i]))
                matches Some(b) && b.len() == 32) by {
                if i < prev.len() {
                    assert(bs[i] == prev[i]);
                    assert(spec_hex_decode(str_bytes(prev[i])) matches Some(b) && b.len() == 32);
                }
            }
        }
    }
}

/// Adding a branch hashes the running root first and the branch second.
pub proof fn lemma_merkle_step(h: Seq<u8>, bs: Seq<Seq<char>>, b: Seq<char>, x: Seq<u8>)
    requires
        merkle_root(h, bs) is Some,
        spec_hex_decode(str_bytes(b)) == Some(x),
        x.len() == 32,
    ensures
        merkle_root(h, bs.push(b)) == Some(spec_dsha256(merkle_root(h, bs)->0 + x)),
{
    assert(bs.push(b).drop_last() =~= bs);
}

/// The job header carries the Bitcoin merkle root: every branch is 32 bytes
/// of hex, and bytes 36.. (before the last 12) are the running root that
/// starts from the double SHA-256 of coinb1, extranonce1, the job's own
/// extranonce2 and coinb2, and hashes at each step the running hash followed
/// by the next branch; for an 80-byte header that is bytes 36..68.
pub proof fn lemma_job_merkle_root(v: ClientView)
    ensures
        spec_build_job(v).1 matches Some(j) ==> {
            let c1 = spec_hex_decode(str_bytes(v.coinb1_hex))->0;
            let c2 = spec_hex_decode(str_bytes(v.coinb2_hex))->0;
            let en2 = spec_hex_decode(str_bytes(j.extranonce2_hex))->0;
            let root = running_root(spec_dsha256(c1 + v.extranonce1 + en2 + c2), branch_bytes(v.merkle_hex));
            &&& branches_ok(v.merkle_hex)
            &&& j.header.len() == 48 + root.len()
            &&& j.header.subrange(36, j.header.len() - 12) == root
            &&& j.header.len() == 80 ==> j.header.subrange(36, 68) == root
        },
{
    if let Some(j) = spec_build_job(v).1 {
        let c1 = spec_hex_decode(str_bytes(v.coinb1_hex))->0;
        let c2 = spec_hex_decode(str_bytes(v.coinb2_hex))->0;
        let size = clamp_size(v.extranonce2_size);
        let e = en2_bytes(v.en2_counter, size as nat);
        crate::codec::lemma_hex_roundtrip(e);
        assert(spec_hex_decode(str_bytes(j.extranonce2_hex))->0 == e);
        let h = spec_dsha256(c1 + v.extranonce1 + e + c2);
        lemma_merkle_root_runs(h, v.merkle_hex);
        let m = merkle_root(h, v.merkle_hex)->0;
        let ver = spec_hex_fixed(v.version_hex, 4)->0;
        let prev = spec_hex_fixed(v.prevhash_hex, 32)->0;
        let nb = spec_hex_fixed(v.nbits_hex, 4)->0;
        let nt = spec_hex_fixed(v.ntime_hex, 4)->0;
        assert(j.header == header_of(ver, prev, m, nt, nb));
        assert(spec_swab32(ver).len() == 4);
        assert(spec_swab256(prev).len() == 32);
        assert(spec_swab32(nt).len() == 4);
        assert(spec_swab32(nb).len() == 4);
        let hd = j.header;
        assert(hd.subrange(36, hd.len() - 12) =~= m);
    }
}

fn seq_is(a: &[char], b: &str) -> (r: bool)
    ensures
        r == (a@ == b@),
{
    let bc = chars_of(b);
    if a.len() != bc.len() {
        return false;
    }
    let r = crate::text::has_prefix(a, bc.as_slice());
    assert(a@ =~= a@.take(bc@.len() as int));
    r
}

} // verus!
