//! What a discovery probe or beacon says about a board: the `cmp ping` pong,
//! the `cmp config` reply, board and Companion UDP beacons, and the rows the
//! worker list shows for them. Opening ports and sockets happens outside.

use vstd::prelude::*;
use crate::json::{json_get, json_str, Json};
use crate::ports::{key_lt, lemma_map_multiset, lemma_multiset_forall, sort_by_key, text_lt};
use crate::monitor_api::{first_line, part_key, part_value, split_lines};
use crate::text::{
    chars_of, contains, dec, extend_chars, extend_str, find, first_index, first_occurrence,
    lower_chars, lower_seq, push_dec, split_on, starts_with, starts_with_str, string_of,
    sub_chars, trim, trim_chars,
};
use crate::fleet::same_board_mac;
use crate::workers::{
    spec_normalize_port_name,
    normalize_mac, spec_normalize_mac, spec_transport_mac_id, transport_mac_id, DiscoveredWorker,
    WorkerKind, BOARD_WIFI_PORT, LAN_DISCOVERY_PORT,
};

verus! {

/// A discovered worker, as the contracts see it.
pub struct WorkerView {
    pub id: Seq<char>,
    pub kind: WorkerKind,
    pub endpoint: Seq<char>,
    pub mac: Seq<char>,
    pub fw: Seq<char>,
    pub detail: Seq<char>,
    pub host: Seq<char>,
    pub last_seen_ms: u64,
}

pub open spec fn worker_view(w: DiscoveredWorker) -> WorkerView {
    WorkerView {
        id: w.id@,
        kind: w.kind,
        endpoint: w.endpoint@,
        mac: w.mac@,
        fw: w.fw@,
        detail: w.detail@,
        host: w.host@,
        last_seen_ms: w.last_seen_ms,
    }
}

fn text(cs: Vec<char>) -> (r: String)
    ensures
        r@ == cs@,
{
    string_of(cs.as_slice())
}

fn concat(parts: &[&str]) -> (r: String)
    ensures
        r@ == parts@.fold_left(Seq::<char>::empty(), |acc: Seq<char>, p: &str| acc + p@),
{
    let mut out: Vec<char> = Vec::new();
    let mut i: usize = 0;
    while i < parts.len()
        invariant
            i <= parts@.len(),
            out@ == parts@.take(i as int).fold_left(
                Seq::<char>::empty(),
                |acc: Seq<char>, p: &str| acc + p@,
            ),
        decreases parts@.len() - i,
    {
        extend_str(&mut out, parts[i]);
        assert(parts@.take(i + 1).drop_last() =~= parts@.take(i as int));
        i = i + 1;
    }
    assert(parts@.take(parts@.len() as int) =~= parts@);
    string_of(out.as_slice())
}

// ----- ping and config replies -----

/// A pong to `cmp ping`: `CMP ok…`, or `CMPACK ping` in any case.
pub open spec fn is_pong(line: Seq<char>) -> bool {
    let t = trim(line);
    starts_with(t, "CMP ok"@) || lower_seq(t) == "cmpack ping"@
}

/// The first pong among `lines`, trimmed.
pub open spec fn first_pong(lines: Seq<Seq<char>>) -> Option<Seq<char>>
    decreases lines.len(),
{
    if lines.len() == 0 {
        None
    } else if is_pong(lines[0]) {
        Some(trim(lines[0]))
    } else {
        first_pong(lines.drop_first())
    }
}

fn pong_line(line: &[char]) -> (r: bool)
    ensures
        r == is_pong(line@),
{
    let t = trim_chars(line);
    let l = lower_chars(t.as_slice());
    starts_with_str(t.as_slice(), "CMP ok") || crate::text::eq_str(l.as_slice(), "cmpack ping")
}

/// The pong line in a receive buffer, if the board has answered.
pub fn find_pong_line(buf: &str) -> (r: Option<String>)
    ensures
        match r {
            Some(v) => first_pong(split_lines(buf@)) == Some(v@),
            None => first_pong(split_lines(buf@)) is None,
        },
{
    let mut cur = chars_of(buf);
    loop
        invariant
            first_pong(split_lines(buf@)) == first_pong(split_lines(cur@)),
        decreases cur@.len(),
    {
        let (piece, rest) = first_line(cur.as_slice());
        if pong_line(piece.as_slice()) {
            return Some(text(trim_chars(piece.as_slice())));
        }
        match rest {
            Some(t) => {
                cur = t;
            },
            None => {
                let ghost ls = split_lines(cur@);
                assert(ls.drop_first() =~= Seq::<Seq<char>>::empty());
                assert(!is_pong(ls[0]));
                assert(first_pong(ls) == first_pong(ls.drop_first()));
                assert(first_pong(ls.drop_first()) is None);
                return None;
            },
        }
    }
}

/// The board MAC a pong carries after `mac=` (normalised), empty without one.
pub open spec fn spec_pong_mac(line: Seq<char>) -> Seq<char> {
    match first_occurrence(line, "mac="@) {
        Some(i) => spec_normalize_mac(trim(line.skip(i + 4))),
        None => Seq::empty(),
    }
}

pub fn pong_mac(line: &str) -> (r: String)
    ensures
        r@ == spec_pong_mac(line@),
{
    let c = chars_of(line);
    match crate::text::find_str(c.as_slice(), "mac=") {
        Some(i) => {
            proof {
                reveal_strlit("mac=");
                crate::text::lemma_first_occurrence_bound(c@, "mac="@, i as int);
            }
            let n = c.len();
            assert(i + 4 <= n);
            let rest = sub_chars(c.as_slice(), i + 4, n);
            let t = text(trim_chars(rest.as_slice()));
            normalize_mac(t.as_str())
        },
        None => String::new(),
    }
}

/// A line that carries the `cmp config` JSON (bare, or after `CMPCONFIG `).
pub open spec fn is_config_line(line: Seq<char>) -> bool {
    let t = trim(line);
    starts_with(t, "{"@) || starts_with(t, "CMPCONFIG "@)
}

/// The JSON text of a config line.
pub open spec fn config_json(line: Seq<char>) -> Seq<char> {
    let t = trim(line);
    if starts_with(t, "CMPCONFIG "@) {
        t.skip(10)
    } else {
        t
    }
}

/// The newest config line among `lines`, as its JSON text.
pub open spec fn last_config(lines: Seq<Seq<char>>) -> Option<Seq<char>>
    decreases lines.len(),
{
    if lines.len() == 0 {
        None
    } else if is_config_line(lines.last()) {
        Some(config_json(lines.last()))
    } else {
        last_config(lines.drop_last())
    }
}

fn config_json_of(line: &[char]) -> (r: Option<Vec<char>>)
    ensures
        match r {
            Some(v) => is_config_line(line@) && v@ == config_json(line@),
            None => !is_config_line(line@),
        },
{
    let t = trim_chars(line);
    if starts_with_str(t.as_slice(), "CMPCONFIG ") {
        proof {
            reveal_strlit("CMPCONFIG ");
        }
        Some(sub_chars(t.as_slice(), 10, t.len()))
    } else if starts_with_str(t.as_slice(), "{") {
        Some(t)
    } else {
        None
    }
}

/// The JSON of the newest config reply in a receive buffer.
pub fn find_config_json(buf: &str) -> (r: Option<String>)
    ensures
        match r {
            Some(v) => last_config(split_lines(buf@)) == Some(v@),
            None => last_config(split_lines(buf@)) is None,
        },
{
    let ghost lines = split_lines(buf@);
    let mut found: Option<Vec<char>> = None;
    let mut cur = chars_of(buf);
    let ghost mut i: int = 0;
    proof {
        crate::monitor_api::lemma_split_lines_nonempty(buf@);
    }
    assert(lines.skip(0) =~= lines);
    assert(lines.take(0) =~= Seq::<Seq<char>>::empty());
    loop
        invariant
            lines == split_lines(buf@),
            0 <= i < lines.len(),
            split_lines(cur@) == lines.skip(i),
            match found {
                Some(v) => last_config(lines.take(i)) == Some(v@),
                None => last_config(lines.take(i)) is None,
            },
        decreases cur@.len(),
    {
        let (piece, rest) = first_line(cur.as_slice());
        assert(piece@ == lines[i]);
        assert(lines.take(i + 1).drop_last() =~= lines.take(i));
        assert(lines.take(i + 1).last() == lines[i]);
        match config_json_of(piece.as_slice()) {
            Some(v) => {
                found = Some(v);
            },
            None => {},
        }
        match rest {
            Some(t) => {
                assert(lines.skip(i).drop_first() =~= lines.skip(i + 1));
                cur = t;
                proof {
                    i = i + 1;
                }
            },
            None => {
                assert(lines.skip(i).len() == 1);
                assert(lines.take(i + 1) =~= lines);
                return match found {
                    Some(v) => Some(text(v)),
                    None => None,
                };
            },
        }
    }
}

/// What a `cmp config` reply says: firmware, mode and (when given) the MAC.
pub open spec fn config_text(cfg: Json, key: Seq<char>) -> Seq<char> {
    match json_get(cfg, key) {
        Some(v) => match json_str(v) {
            Some(s) => s,
            None => Seq::empty(),
        },
        None => Seq::empty(),
    }
}

fn config_text_of(cfg: &Json, key: &str) -> (r: String)
    ensures
        r@ == config_text(*cfg, key@),
{
    match cfg.get(key) {
        Some(v) => match v.as_str() {
            Some(s) => text(chars_of(s.as_str())),
            None => String::new(),
        },
        None => String::new(),
    }
}

/// Reads firmware, mode and MAC from a parsed `cmp config` reply; the MAC
/// from the pong stays when the reply has none.
pub fn read_probe_config(cfg: &Json, pong_mac: String) -> (r: (String, String, String))
    ensures
        r.0@ == config_text(*cfg, "fw"@),
        r.1@ == config_text(*cfg, "mode"@),
        r.2@ == if config_text(*cfg, "mac"@).len() > 0 {
            spec_normalize_mac(config_text(*cfg, "mac"@))
        } else {
            pong_mac@
        },
{
    let fw = config_text_of(cfg, "fw");
    let mode = config_text_of(cfg, "mode");
    let m = config_text_of(cfg, "mac");
    let mac = if m.as_str().is_empty() {
        pong_mac
    } else {
        normalize_mac(m.as_str())
    };
    (fw, mode, mac)
}

// ----- worker rows -----

/// The id of a probed worker: its transport MAC id, or `<prefix>:<endpoint>`.
pub open spec fn probe_id(kind: WorkerKind, prefix: Seq<char>, endpoint: Seq<char>, mac: Seq<char>) -> Seq<char> {
    if spec_transport_mac_id(kind, mac).len() == 0 {
        prefix + endpoint
    } else {
        spec_transport_mac_id(kind, mac)
    }
}

fn probe_id_of(kind: WorkerKind, prefix: &str, endpoint: &str, mac: &str) -> (r: String)
    ensures
        r@ == probe_id(kind, prefix@, endpoint@, mac@),
{
    let mid = transport_mac_id(kind, mac);
    if mid.as_str().is_empty() {
        let r = concat([prefix, endpoint].as_slice());
        proof {
            reveal_with_fuel(Seq::fold_left, 3);
        }
        r
    } else {
        mid
    }
}

/// The row of a board that answered a USB probe at `baud`.
pub open spec fn spec_usb_probe_worker(
    name: Seq<char>,
    baud: u32,
    mac: Seq<char>,
    fw: Seq<char>,
    mode: Seq<char>,
    now_ms: u64,
) -> WorkerView {
    WorkerView {
        id: probe_id(WorkerKind::Usb, "usb:"@, name, mac),
        kind: WorkerKind::Usb,
        endpoint: name,
        mac,
        fw,
        detail: if fw.len() == 0 {
            "CYD companion USB · pong @ "@ + dec(baud as nat)
        } else if mode.len() == 0 {
            "fw "@ + fw + " @ "@ + dec(baud as nat)
        } else {
            "fw "@ + fw + " · "@ + mode + " @ "@ + dec(baud as nat)
        },
        host: "local"@,
        last_seen_ms: now_ms,
    }
}

pub fn usb_probe_worker(name: &str, baud: u32, mac: String, fw: String, mode: &str, now_ms: u64) -> (r:
    DiscoveredWorker)
    ensures
        worker_view(r) == spec_usb_probe_worker(name@, baud, mac@, fw@, mode@, now_ms),
{
    let id = probe_id_of(WorkerKind::Usb, "usb:", name, mac.as_str());
    let mut d: Vec<char> = Vec::new();
    if fw.as_str().is_empty() {
        extend_str(&mut d, "CYD companion USB · pong @ ");
    } else if mode.is_empty() {
        extend_str(&mut d, "fw ");
        extend_str(&mut d, fw.as_str());
        extend_str(&mut d, " @ ");
    } else {
        extend_str(&mut d, "fw ");
        extend_str(&mut d, fw.as_str());
        extend_str(&mut d, " · ");
        extend_str(&mut d, mode);
        extend_str(&mut d, " @ ");
    }
    push_dec(&mut d, baud as u64);
    DiscoveredWorker {
        id,
        kind: WorkerKind::Usb,
        endpoint: text(chars_of(name)),
        mac,
        fw,
        detail: text(d),
        host: text(chars_of("local")),
        last_seen_ms: now_ms,
    }
}

/// `s` up to its first `:` (all of it without one).
pub open spec fn before_colon(s: Seq<char>) -> Seq<char> {
    if s.contains(':') {
        s.take(first_index(s, ':'))
    } else {
        s
    }
}

/// The row of a board that answered a Wi‑Fi TCP probe.
pub open spec fn spec_wifi_probe_worker(endpoint: Seq<char>, mac: Seq<char>, fw: Seq<char>, now_ms: u64) -> WorkerView {
    WorkerView {
        id: probe_id(WorkerKind::Wifi, "wifi:"@, endpoint, mac),
        kind: WorkerKind::Wifi,
        endpoint,
        mac,
        fw,
        detail: if fw.len() == 0 {
            "Wi‑Fi TCP :"@ + dec(BOARD_WIFI_PORT as nat)
        } else {
            "fw "@ + fw + " · Wi‑Fi TCP"@
        },
        host: before_colon(endpoint),
        last_seen_ms: now_ms,
    }
}

pub fn wifi_probe_worker(endpoint: &str, mac: String, fw: String, now_ms: u64) -> (r: DiscoveredWorker)
    ensures
        worker_view(r) == spec_wifi_probe_worker(endpoint@, mac@, fw@, now_ms),
{
    let id = probe_id_of(WorkerKind::Wifi, "wifi:", endpoint, mac.as_str());
    let mut d: Vec<char> = Vec::new();
    if fw.as_str().is_empty() {
        extend_str(&mut d, "Wi‑Fi TCP :");
        push_dec(&mut d, BOARD_WIFI_PORT as u64);
    } else {
        extend_str(&mut d, "fw ");
        extend_str(&mut d, fw.as_str());
        extend_str(&mut d, " · Wi‑Fi TCP");
    }
    let e = chars_of(endpoint);
    let host = match crate::text::first_index_of(e.as_slice(), ':') {
        Some(i) => sub_chars(e.as_slice(), 0, i),
        None => sub_chars(e.as_slice(), 0, e.len()),
    };
    assert(host@ =~= before_colon(endpoint@));
    assert(d@ =~= (if fw@.len() == 0 {
        "Wi‑Fi TCP :"@ + dec(BOARD_WIFI_PORT as nat)
    } else {
        "fw "@ + fw@ + " · Wi‑Fi TCP"@
    }));
    DiscoveredWorker {
        id,
        kind: WorkerKind::Wifi,
        endpoint: text(e),
        mac,
        fw,
        detail: text(d),
        host: text(host),
        last_seen_ms: now_ms,
    }
}

/// How long probe attempt `attempt` waits for the pong at `baud`:
/// boards at 115200 boot slower, and each retry waits 400 ms longer.
pub open spec fn spec_probe_wait_ms(baud: u32, attempt: u32) -> int {
    (if baud > 115_200 {
        1_500int
    } else {
        2_500int
    }) + attempt * 400
}

pub fn probe_wait_ms(baud: u32, attempt: u32) -> (r: u64)
    ensures
        r == spec_probe_wait_ms(baud, attempt),
{
    let base: u64 = if baud > 115_200 {
        1_500
    } else {
        2_500
    };
    base + attempt as u64 * 400
}

/// The same for linking a board to mine (a longer first wait).
pub open spec fn spec_link_wait_ms(baud: u32, attempt: u32) -> int {
    (if baud > 115_200 {
        1_600int
    } else {
        2_800int
    }) + attempt * 400
}

pub fn link_wait_ms(baud: u32, attempt: u32) -> (r: u64)
    ensures
        r == spec_link_wait_ms(baud, attempt),
{
    let base: u64 = if baud > 115_200 {
        1_600
    } else {
        2_800
    };
    base + attempt as u64 * 400
}

/// A USB probe result that came in over a Bluetooth serial port.
pub open spec fn spec_as_bluetooth(w: WorkerView) -> WorkerView {
    WorkerView {
        kind: WorkerKind::Bluetooth,
        detail: "Bluetooth serial · "@ + w.detail,
        id: if starts_with(w.id, "usb:"@) {
            "bt:"@ + w.id.skip(4)
        } else {
            w.id
        },
        ..w
    }
}

pub fn as_bluetooth(w: DiscoveredWorker) -> (r: DiscoveredWorker)
    ensures
        worker_view(r) == spec_as_bluetooth(worker_view(w)),
{
    let mut d = chars_of("Bluetooth serial · ");
    extend_str(&mut d, w.detail.as_str());
    let idc = chars_of(w.id.as_str());
    let id = if starts_with_str(idc.as_slice(), "usb:") {
        proof {
            reveal_strlit("usb:");
        }
        let mut n = chars_of("bt:");
        extend_chars(&mut n, sub_chars(idc.as_slice(), 4, idc.len()).as_slice());
        text(n)
    } else {
        w.id
    };
    DiscoveredWorker {
        id,
        kind: WorkerKind::Bluetooth,
        endpoint: w.endpoint,
        mac: w.mac,
        fw: w.fw,
        detail: text(d),
        host: w.host,
        last_seen_ms: w.last_seen_ms,
    }
}

// ----- beacons -----

/// The value of the last `key=value` part (parts without `=` do not count),
/// among those with a non-empty value when `nonempty` is set.
pub open spec fn last_value(parts: Seq<Seq<char>>, key: Seq<char>, nonempty: bool) -> Option<Seq<char>>
    decreases parts.len(),
{
    if parts.len() == 0 {
        None
    } else {
        let p = parts.last();
        if p.contains('=') && part_key(p) == key && (!nonempty || part_value(p).len() > 0) {
            Some(part_value(p))
        } else {
            last_value(parts.drop_last(), key, nonempty)
        }
    }
}

pub open spec fn or_empty(v: Option<Seq<char>>) -> Seq<char> {
    match v {
        Some(x) => x,
        None => Seq::empty(),
    }
}

/// The `|`-separated fields after the magic word.
pub open spec fn beacon_fields(line: Seq<char>) -> Seq<Seq<char>> {
    split_on(line, '|').drop_first()
}

fn scan_value(rest: &[char], key: &str, nonempty: bool) -> (r: Option<Vec<char>>)
    ensures
        match r {
            Some(v) => last_value(split_on(rest@, '|'), key@, nonempty) == Some(v@),
            None => last_value(split_on(rest@, '|'), key@, nonempty) is None,
        },
{
    let ghost parts = split_on(rest@, '|');
    let mut found: Option<Vec<char>> = None;
    let mut cur = sub_chars(rest, 0, rest.len());
    assert(cur@ =~= rest@);
    let ghost mut i: int = 0;
    assert(parts.skip(0) =~= parts);
    assert(parts.take(0) =~= Seq::<Seq<char>>::empty());
    loop
        invariant
            parts == split_on(rest@, '|'),
            0 <= i < parts.len(),
            split_on(cur@, '|') == parts.skip(i),
            match found {
                Some(v) => last_value(parts.take(i), key@, nonempty) == Some(v@),
                None => last_value(parts.take(i), key@, nonempty) is None,
            },
        decreases cur@.len(),
    {
        let (piece, tail) = crate::text::split_first(cur.as_slice(), '|');
        assert(piece@ == parts[i]);
        assert(parts.take(i + 1).drop_last() =~= parts.take(i));
        assert(parts.take(i + 1).last() == parts[i]);
        match crate::text::first_index_of(piece.as_slice(), '=') {
            Some(e) => {
                let n = piece.len();
                let k = sub_chars(piece.as_slice(), 0, e);
                let v = sub_chars(piece.as_slice(), e + 1, n);
                if crate::text::eq_str(k.as_slice(), key) && (!nonempty || v.len() > 0) {
                    found = Some(v);
                }
            },
            None => {},
        }
        match tail {
            Some(t) => {
                assert(parts.skip(i).drop_first() =~= parts.skip(i + 1));
                cur = t;
                proof {
                    i = i + 1;
                }
            },
            None => {
                assert(parts.skip(i).len() == 1);
                assert(parts.take(i + 1) =~= parts);
                return found;
            },
        }
    }
}

/// `last_value` over the fields after the first `|` of `line`.
fn field_value(line: &[char], key: &str, nonempty: bool) -> (r: Option<Vec<char>>)
    ensures
        match r {
            Some(v) => last_value(beacon_fields(line@), key@, nonempty) == Some(v@),
            None => last_value(beacon_fields(line@), key@, nonempty) is None,
        },
{
    proof {
        crate::text::lemma_first_index_bound(line@, '|');
    }
    match crate::text::first_index_of(line, '|') {
        Some(i) => {
            let n = line.len();
            let rest = sub_chars(line, i + 1, n);
            assert(rest@ =~= line@.skip(i + 1));
            assert(beacon_fields(line@) =~= split_on(rest@, '|'));
            scan_value(rest.as_slice(), key, nonempty)
        },
        None => {
            assert(beacon_fields(line@) =~= Seq::<Seq<char>>::empty());
            None
        },
    }
}

fn value_or_empty(v: Option<Vec<char>>) -> (r: Vec<char>)
    ensures
        r@ == or_empty(match v {
            Some(x) => Some(x@),
            None => None,
        }),
{
    match v {
        Some(x) => x,
        None => Vec::new(),
    }
}

/// The text of a board beacon's detail column.
pub open spec fn board_beacon_detail(fw: Seq<char>, mode: Seq<char>, ap: Seq<char>) -> Seq<char> {
    if fw.len() > 0 && ap.len() > 0 {
        "fw "@ + fw + " · Wi‑Fi "@ + mode + " · AP "@ + ap
    } else if fw.len() > 0 {
        "fw "@ + fw + " · Wi‑Fi "@ + mode
    } else if ap.len() > 0 {
        "Wi‑Fi board · AP "@ + ap
    } else {
        "Wi‑Fi CYD board"@
    }
}

/// A board's UDP beacon (`CYDBOARD|mac=…|fw=…|tcp=…|ip=…|ap=…|mode=…`), sent
/// from `sender_ip`: the board's Wi‑Fi row.
pub open spec fn spec_parse_board_beacon(raw: Seq<char>, sender_ip: Seq<char>, now_ms: u64) -> Option<WorkerView> {
    let line = trim(raw);
    if !starts_with(line, "CYDBOARD"@) {
        None
    } else {
        let f = beacon_fields(line);
        let mac = match last_value(f, "mac"@, false) {
            Some(v) => spec_normalize_mac(v),
            None => Seq::empty(),
        };
        let fw = or_empty(last_value(f, "fw"@, false));
        let tcp = match last_value(f, "tcp"@, false) {
            Some(v) => match crate::text::spec_parse_u16(v) {
                Some(p) => p,
                None => BOARD_WIFI_PORT,
            },
            None => BOARD_WIFI_PORT,
        };
        let ip = match last_value(f, "ip"@, true) {
            Some(v) => v,
            None => sender_ip,
        };
        let ap = or_empty(last_value(f, "ap"@, false));
        let mode = or_empty(last_value(f, "mode"@, false));
        let endpoint = ip + ":"@ + dec(tcp as nat);
        Some(
            WorkerView {
                id: probe_id(WorkerKind::Wifi, "wifi:"@, endpoint, mac),
                kind: WorkerKind::Wifi,
                endpoint,
                mac,
                fw,
                detail: board_beacon_detail(fw, mode, ap),
                host: ip,
                last_seen_ms: now_ms,
            },
        )
    }
}

pub fn parse_board_beacon(raw: &str, sender_ip: &str, now_ms: u64) -> (r: Option<DiscoveredWorker>)
    ensures
        match r {
            Some(w) => spec_parse_board_beacon(raw@, sender_ip@, now_ms) == Some(worker_view(w)),
            None => spec_parse_board_beacon(raw@, sender_ip@, now_ms) is None,
        },
{
    let line = crate::text::trimmed(raw);
    if !starts_with_str(line.as_slice(), "CYDBOARD") {
        return None;
    }
    let l = line.as_slice();
    let mac = match field_value(l, "mac", false) {
        Some(v) => normalize_mac(text(v).as_str()),
        None => String::new(),
    };
    let fw = value_or_empty(field_value(l, "fw", false));
    let tcp: u16 = match field_value(l, "tcp", false) {
        Some(v) => match crate::text::parse_u16(v.as_slice()) {
            Some(p) => p,
            None => BOARD_WIFI_PORT,
        },
        None => BOARD_WIFI_PORT,
    };
    let ip = match field_value(l, "ip", true) {
        Some(v) => v,
        None => chars_of(sender_ip),
    };
    let ap = value_or_empty(field_value(l, "ap", false));
    let mode = value_or_empty(field_value(l, "mode", false));
    let mut ep = crate::text::sub_chars(ip.as_slice(), 0, ip.len());
    extend_str(&mut ep, ":");
    push_dec(&mut ep, tcp as u64);
    let endpoint = text(ep);
    let id = probe_id_of(WorkerKind::Wifi, "wifi:", endpoint.as_str(), mac.as_str());
    let mut d: Vec<char> = Vec::new();
    if fw.len() > 0 && ap.len() > 0 {
        extend_str(&mut d, "fw ");
        extend_chars(&mut d, fw.as_slice());
        extend_str(&mut d, " · Wi‑Fi ");
        extend_chars(&mut d, mode.as_slice());
        extend_str(&mut d, " · AP ");
        extend_chars(&mut d, ap.as_slice());
    } else if fw.len() > 0 {
        extend_str(&mut d, "fw ");
        extend_chars(&mut d, fw.as_slice());
        extend_str(&mut d, " · Wi‑Fi ");
        extend_chars(&mut d, mode.as_slice());
    } else if ap.len() > 0 {
        extend_str(&mut d, "Wi‑Fi board · AP ");
        extend_chars(&mut d, ap.as_slice());
    } else {
        extend_str(&mut d, "Wi‑Fi CYD board");
    }
    assert(d@ =~= board_beacon_detail(fw@, mode@, ap@));
    assert(endpoint@ =~= ip@ + ":"@ + dec(tcp as nat));
    let w = DiscoveredWorker {
        id,
        kind: WorkerKind::Wifi,
        endpoint,
        mac,
        fw: text(fw),
        detail: text(d),
        host: text(ip),
        last_seen_ms: now_ms,
    };
    assert(worker_view(w) =~= spec_parse_board_beacon(raw@, sender_ip@, now_ms)->0);
    Some(w)
}

/// Firmware and MAC of the first advertised board with a firmware field
/// (`port@fw@mac`); empty when none has one.
pub open spec fn first_board_fw(boards: Seq<Seq<char>>) -> (Seq<char>, Seq<char>)
    decreases boards.len(),
{
    if boards.len() == 0 {
        (Seq::empty(), Seq::empty())
    } else {
        let ps = split_on(boards[0], '@');
        if ps.len() >= 2 {
            (ps[1], if ps.len() >= 3 {
                spec_normalize_mac(ps[2])
            } else {
                Seq::empty()
            })
        } else {
            first_board_fw(boards.drop_first())
        }
    }
}

/// A Companion peer's UDP beacon (`CYDCOMPANION|v=…|host=…|boards=…`) sent
/// from `sender_ip`: the peer's LAN row.
pub open spec fn spec_parse_beacon(raw: Seq<char>, sender_ip: Seq<char>, now_ms: u64) -> Option<WorkerView> {
    let line = trim(raw);
    if !starts_with(line, "CYDCOMPANION"@) {
        None
    } else {
        let f = beacon_fields(line);
        let host = match last_value(f, "host"@, false) {
            Some(v) => v,
            None => sender_ip,
        };
        let boards = or_empty(last_value(f, "boards"@, false));
        let ver = or_empty(last_value(f, "v"@, false));
        let (fw, mac) = first_board_fw(split_on(boards, ','));
        Some(
            WorkerView {
                id: "lan:"@ + sender_ip + ":"@ + host,
                kind: WorkerKind::Lan,
                endpoint: sender_ip + ":"@ + dec(LAN_DISCOVERY_PORT as nat),
                mac,
                fw,
                detail: if boards.len() == 0 {
                    "Companion "@ + ver + " · no USB boards advertised"@
                } else {
                    "Companion "@ + ver + " · boards "@ + boards
                },
                host,
                last_seen_ms: now_ms,
            },
        )
    }
}

/// Piece `k` of `s` split at `c`, if there is one.
fn piece_at(s: &[char], c: char, k: usize) -> (r: Option<Vec<char>>)
    ensures
        match r {
            Some(v) => k < split_on(s@, c).len() && v@ == split_on(s@, c)[k as int],
            None => k >= split_on(s@, c).len(),
        },
{
    let mut cur = sub_chars(s, 0, s.len());
    assert(cur@ =~= s@);
    let mut j: usize = 0;
    let ghost parts = split_on(s@, c);
    assert(parts.skip(0) =~= parts);
    loop
        invariant
            parts == split_on(s@, c),
            j <= k,
            j < parts.len(),
            split_on(cur@, c) == parts.skip(j as int),
        decreases cur@.len(),
    {
        let (piece, tail) = crate::text::split_first(cur.as_slice(), c);
        if j == k {
            return Some(piece);
        }
        match tail {
            Some(t) => {
                assert(parts.skip(j as int).drop_first() =~= parts.skip(j + 1));
                cur = t;
                j = j + 1;
            },
            None => {
                assert(parts.skip(j as int).len() == 1);
                return None;
            },
        }
    }
}

fn first_board_fw_of(boards: &[char]) -> (r: (Vec<char>, Vec<char>))
    ensures
        (r.0@, r.1@) == first_board_fw(split_on(boards@, ',')),
{
    let mut cur = sub_chars(boards, 0, boards.len());
    assert(cur@ =~= boards@);
    loop
        invariant
            first_board_fw(split_on(boards@, ',')) == first_board_fw(split_on(cur@, ',')),
        decreases cur@.len(),
    {
        let (b, tail) = crate::text::split_first(cur.as_slice(), ',');
        match piece_at(b.as_slice(), '@', 1) {
            Some(fw) => {
                let mac = match piece_at(b.as_slice(), '@', 2) {
                    Some(m) => chars_of(normalize_mac(text(m).as_str()).as_str()),
                    None => Vec::new(),
                };
                return (fw, mac);
            },
            None => {},
        }
        match tail {
            Some(t) => {
                cur = t;
            },
            None => {
                let ghost ls = split_on(cur@, ',');
                assert(ls.drop_first() =~= Seq::<Seq<char>>::empty());
                assert(first_board_fw(ls) == first_board_fw(ls.drop_first()));
                return (Vec::new(), Vec::new());
            },
        }
    }
}

pub fn parse_beacon(raw: &str, sender_ip: &str, now_ms: u64) -> (r: Option<DiscoveredWorker>)
    ensures
        match r {
            Some(w) => spec_parse_beacon(raw@, sender_ip@, now_ms) == Some(worker_view(w)),
            None => spec_parse_beacon(raw@, sender_ip@, now_ms) is None,
        },
{
    let line = crate::text::trimmed(raw);
    if !starts_with_str(line.as_slice(), "CYDCOMPANION") {
        return None;
    }
    let l = line.as_slice();
    let host = match field_value(l, "host", false) {
        Some(v) => v,
        None => chars_of(sender_ip),
    };
    let boards = value_or_empty(field_value(l, "boards", false));
    let ver = value_or_empty(field_value(l, "v", false));
    let (fw, mac) = first_board_fw_of(boards.as_slice());
    let mut id = chars_of("lan:");
    extend_str(&mut id, sender_ip);
    extend_str(&mut id, ":");
    extend_chars(&mut id, host.as_slice());
    let mut ep = chars_of(sender_ip);
    extend_str(&mut ep, ":");
    push_dec(&mut ep, LAN_DISCOVERY_PORT as u64);
    let mut d = chars_of("Companion ");
    extend_chars(&mut d, ver.as_slice());
    if boards.len() == 0 {
        extend_str(&mut d, " · no USB boards advertised");
    } else {
        extend_str(&mut d, " · boards ");
        extend_chars(&mut d, boards.as_slice());
    }
    let w = DiscoveredWorker {
        id: text(id),
        kind: WorkerKind::Lan,
        endpoint: text(ep),
        mac: text(mac),
        fw: text(fw),
        detail: text(d),
        host: text(host),
        last_seen_ms: now_ms,
    };
    assert(worker_view(w) =~= spec_parse_beacon(raw@, sender_ip@, now_ms)->0);
    Some(w)
}

// ----- our own beacon -----

/// Host names in beacons: ASCII letters, digits, `-`, `_` and `.` stay,
/// anything else becomes `_`; at most 48 chars.
pub open spec fn sanitize_char(c: char) -> char {
    if crate::text::is_alnum(c) || c == '-' || c == '_' || c == '.' {
        c
    } else {
        '_'
    }
}

pub open spec fn spec_sanitize(s: Seq<char>) -> Seq<char> {
    let t = if s.len() > 48 {
        s.take(48)
    } else {
        s
    };
    t.map_values(|c: char| sanitize_char(c))
}

pub fn sanitize(s: &str) -> (r: String)
    ensures
        r@ == spec_sanitize(s@),
{
    let c = chars_of(s);
    let n = if c.len() > 48 {
        48
    } else {
        c.len()
    };
    let mut out: Vec<char> = Vec::new();
    let mut i: usize = 0;
    while i < n
        invariant
            i <= n <= c@.len(),
            n == if c@.len() > 48 {
                48
            } else {
                c@.len()
            },
            c@ == s@,
            out@ == c@.take(i as int).map_values(|x: char| sanitize_char(x)),
        decreases n - i,
    {
        let x = c[i];
        let y = if crate::text::is_ascii_alnum(x) || x == '-' || x == '_' || x == '.' {
            x
        } else {
            '_'
        };
        out.push(y);
        assert(c@.take(i + 1).map_values(|x: char| sanitize_char(x)) =~= c@.take(i as int).map_values(
            |x: char| sanitize_char(x),
        ).push(sanitize_char(x)));
        i = i + 1;
    }
    assert(c@.take(n as int) =~= (if s@.len() > 48 {
        s@.take(48)
    } else {
        s@
    }));
    string_of(out.as_slice())
}

/// One advertised board: `port`, then `@fw` and `@mac` when known.
pub open spec fn board_entry(port: Seq<char>, fw: Seq<char>, mac: Seq<char>) -> Seq<char> {
    port + (if fw.len() > 0 {
        "@"@ + fw
    } else {
        Seq::empty()
    }) + (if mac.len() > 0 {
        "@"@ + mac
    } else {
        Seq::empty()
    })
}

/// The advertised boards, joined by `,`.
pub open spec fn board_list(b: Seq<(Seq<char>, Seq<char>, Seq<char>)>) -> Seq<char>
    decreases b.len(),
{
    if b.len() == 0 {
        Seq::empty()
    } else if b.len() == 1 {
        board_entry(b[0].0, b[0].1, b[0].2)
    } else {
        board_list(b.drop_last()) + ","@ + board_entry(b.last().0, b.last().1, b.last().2)
    }
}

pub open spec fn boards_view(b: Seq<(String, String, String)>) -> Seq<(Seq<char>, Seq<char>, Seq<char>)> {
    b.map_values(|x: (String, String, String)| (x.0@, x.1@, x.2@))
}

/// `CYDCOMPANION|v=<version>|host=<host>|boards=<port@fw@mac,…>`.
pub open spec fn spec_lan_beacon(version: Seq<char>, host: Seq<char>, boards: Seq<(Seq<char>, Seq<char>, Seq<char>)>) -> Seq<char> {
    "CYDCOMPANION|v="@ + version + "|host="@ + spec_sanitize(host) + "|boards="@ + board_list(boards)
}

pub fn lan_beacon_message(version: &str, host: &str, boards: &Vec<(String, String, String)>) -> (r: String)
    ensures
        r@ == spec_lan_beacon(version@, host@, boards_view(boards@)),
{
    let mut out = chars_of("CYDCOMPANION|v=");
    extend_str(&mut out, version);
    extend_str(&mut out, "|host=");
    let h = sanitize(host);
    extend_str(&mut out, h.as_str());
    extend_str(&mut out, "|boards=");
    let ghost head = out@;
    let mut list: Vec<char> = Vec::new();
    let mut i: usize = 0;
    while i < boards.len()
        invariant
            i <= boards@.len(),
            list@ == board_list(boards_view(boards@).take(i as int)),
        decreases boards@.len() - i,
    {
        let (p, fw, mac) = &boards[i];
        let ghost l0 = list@;
        if i > 0 {
            list.push(',');
        }
        let ghost l1 = list@;
        let mut e = chars_of(p.as_str());
        if !fw.as_str().is_empty() {
            e.push('@');
            extend_str(&mut e, fw.as_str());
        }
        if !mac.as_str().is_empty() {
            e.push('@');
            extend_str(&mut e, mac.as_str());
        }
        proof {
            reveal_strlit(",");
            reveal_strlit("@");
        }
        assert(e@ =~= board_entry(p@, fw@, mac@));
        extend_chars(&mut list, e.as_slice());
        proof {
            let bv = boards_view(boards@);
            assert(bv.take(i + 1).drop_last() =~= bv.take(i as int));
            assert(bv.take(i + 1).last() == (p@, fw@, mac@));
            if i == 0 {
                assert(l1 == l0);
                assert(l0 =~= Seq::<char>::empty());
                assert(list@ =~= board_entry(p@, fw@, mac@));
            } else {
                assert(l1 =~= l0 + ","@);
            }
        }
        assert(list@ =~= board_list(boards_view(boards@).take(i + 1)));
        i = i + 1;
    }
    assert(boards_view(boards@).take(boards@.len() as int) =~= boards_view(boards@));
    extend_chars(&mut out, list.as_slice());
    string_of(out.as_slice())
}

// ----- scan results -----

pub open spec fn keyed_worker_view(x: (u8, String, String, DiscoveredWorker)) -> WorkerView {
    worker_view(x.3)
}

pub open spec fn keyed_worker_ok(x: (u8, String, String, DiscoveredWorker)) -> bool {
    x.0 == 0 && x.1@ == x.3.endpoint@ && x.2@.len() == 0
}

/// Scan results in endpoint order (the same workers, reordered).
pub fn sort_by_endpoint(found: Vec<DiscoveredWorker>) -> (r: Vec<DiscoveredWorker>)
    ensures
        forall|i: int, j: int|
            0 <= i < j < r@.len() ==> !text_lt(r@[j].endpoint@, r@[i].endpoint@),
        r@.map_values(|w: DiscoveredWorker| worker_view(w)).to_multiset() == found@.map_values(
            |w: DiscoveredWorker| worker_view(w),
        ).to_multiset(),
{
    let mut rest = found;
    let ghost all = rest@;
    let mut items: Vec<(u8, String, String, DiscoveredWorker)> = Vec::new();
    let ghost mut k: int = 0;
    assert(all.skip(0) =~= all);
    while rest.len() > 0
        invariant
            0 <= k <= all.len(),
            rest@ == all.skip(k),
            items@.map_values(|x: (u8, String, String, DiscoveredWorker)| keyed_worker_view(x)) == all.take(
                k,
            ).map_values(|w: DiscoveredWorker| worker_view(w)),
            forall|j: int| 0 <= j < items@.len() ==> keyed_worker_ok(#[trigger] items@[j]),
        decreases rest@.len(),
    {
        let w = rest.remove(0);
        assert(rest@ =~= all.skip(k + 1));
        let e = text(chars_of(w.endpoint.as_str()));
        let ghost before = items@;
        items.push((0u8, e, String::new(), w));
        assert(all.take(k + 1) =~= all.take(k).push(w));
        assert(items@.map_values(|x: (u8, String, String, DiscoveredWorker)| keyed_worker_view(x)) =~= before.map_values(
            |x: (u8, String, String, DiscoveredWorker)| keyed_worker_view(x),
        ).push(worker_view(w)));
        proof {
            k = k + 1;
        }
    }
    assert(all.take(k) =~= all);
    let ghost unsorted = items@;
    let mut sorted = sort_by_key(items);
    proof {
        lemma_map_multiset(sorted@, unsorted, |x: (u8, String, String, DiscoveredWorker)| keyed_worker_view(x));
        lemma_multiset_forall(unsorted, sorted@, |x: (u8, String, String, DiscoveredWorker)| keyed_worker_ok(x));
    }
    let ghost s0 = sorted@;
    let mut out: Vec<DiscoveredWorker> = Vec::new();
    let ghost mut m: int = 0;
    assert(s0.skip(0) =~= s0);
    while sorted.len() > 0
        invariant
            0 <= m <= s0.len(),
            sorted@ == s0.skip(m),
            out@.len() == m,
            forall|j: int| 0 <= j < m ==> #[trigger] out@[j] == s0[j].3,
        decreases sorted@.len(),
    {
        let x = sorted.remove(0);
        assert(sorted@ =~= s0.skip(m + 1));
        out.push(x.3);
        proof {
            m = m + 1;
        }
    }
    assert(out@.map_values(|w: DiscoveredWorker| worker_view(w)) =~= s0.map_values(
        |x: (u8, String, String, DiscoveredWorker)| keyed_worker_view(x),
    ));
    assert forall|i: int, j: int| 0 <= i < j < out@.len() implies !text_lt(
        out@[j].endpoint@,
        out@[i].endpoint@,
    ) by {
        assert(keyed_worker_ok(s0[i]));
        assert(keyed_worker_ok(s0[j]));
        assert(!key_lt(crate::ports::item_key(s0[j]), crate::ports::item_key(s0[i])));
    }
    out
}

/// Whether `name` is not one of the ports to skip (either spelling).
pub fn not_skipped(skip: &Vec<String>, name: &str) -> (r: bool)
    ensures
        r == forall|k: int|
            0 <= k < skip@.len() ==> crate::workers::spec_normalize_port_name(#[trigger] skip@[k]@)
                != crate::workers::spec_normalize_port_name(name@),
{
    crate::fleet::linked_index(skip, name).is_none()
}

// ----- the worker list -----

/// Two rows are the same worker: the same id; or both USB on the same port;
/// or both Wi‑Fi at the same endpoint or with the same stable MAC; or both
/// of another transport with the same stable MAC. A USB row and a Wi‑Fi row
/// are never merged by MAC, and an unknown MAC merges nothing.
pub open spec fn same_worker(w: WorkerView, x: WorkerView) -> bool {
    ||| w.id == x.id
    ||| (w.kind == WorkerKind::Usb && x.kind == WorkerKind::Usb && spec_normalize_port_name(
        w.endpoint,
    ) == spec_normalize_port_name(x.endpoint))
    ||| (w.kind == WorkerKind::Wifi && x.kind == WorkerKind::Wifi && (w.endpoint == x.endpoint
        || same_board_mac(x.mac, w.mac)))
    ||| (w.kind == x.kind && w.kind != WorkerKind::Usb && w.kind != WorkerKind::Wifi
        && same_board_mac(x.mac, w.mac))
}

/// The first row that is the same worker as `x`.
pub open spec fn first_same(list: Seq<WorkerView>, x: WorkerView) -> Option<int>
    decreases list.len(),
{
    if list.len() == 0 {
        None
    } else if same_worker(list[0], x) {
        Some(0)
    } else {
        match first_same(list.drop_first(), x) {
            Some(k) => Some(k + 1),
            None => None,
        }
    }
}

/// The rows after `x` is merged in: it replaces the first row of the same
/// worker, or is added.
pub open spec fn merged_rows(list: Seq<WorkerView>, x: WorkerView) -> Seq<WorkerView> {
    match first_same(list, x) {
        Some(k) => list.update(k, x),
        None => list.push(x),
    }
}

pub open spec fn workers_view(v: Seq<DiscoveredWorker>) -> Seq<WorkerView> {
    v.map_values(|w: DiscoveredWorker| worker_view(w))
}

proof fn lemma_first_same_bound(list: Seq<WorkerView>, x: WorkerView)
    ensures
        match first_same(list, x) {
            Some(k) => 0 <= k < list.len() && same_worker(list[k], x) && forall|j: int|
                0 <= j < k ==> !same_worker(#[trigger] list[j], x),
            None => forall|j: int| 0 <= j < list.len() ==> !same_worker(#[trigger] list[j], x),
        },
    decreases list.len(),
{
    if list.len() > 0 {
        lemma_first_same_bound(list.drop_first(), x);
        if !same_worker(list[0], x) {
            assert forall|j: int| 0 < j < list.len() implies list[j] == list.drop_first()[j - 1] by {}
        }
    }
}

proof fn lemma_first_same_is(list: Seq<WorkerView>, x: WorkerView, k: int)
    requires
        0 <= k < list.len(),
        same_worker(list[k], x),
        forall|j: int| 0 <= j < k ==> !same_worker(#[trigger] list[j], x),
    ensures
        first_same(list, x) == Some(k),
{
    lemma_first_same_bound(list, x);
    match first_same(list, x) {
        Some(m) => {
            if m < k {
                assert(!same_worker(list[m], x));
            } else if m > k {
                assert(!same_worker(list[k], x));
            }
        },
        None => {
            assert(!same_worker(list[k], x));
        },
    }
}

fn same_worker_of(w: &DiscoveredWorker, x: &DiscoveredWorker) -> (r: bool)
    ensures
        r == same_worker(worker_view(*w), worker_view(*x)),
{
    if w.id == x.id {
        return true;
    }
    if w.kind == WorkerKind::Usb && x.kind == WorkerKind::Usb && crate::workers::port_names_match(
        w.endpoint.as_str(),
        x.endpoint.as_str(),
    ) {
        return true;
    }
    let same_mac = crate::workers::mac_is_stable(x.mac.as_str()) && crate::workers::mac_is_stable(
        w.mac.as_str(),
    ) && normalize_mac(w.mac.as_str()) == normalize_mac(x.mac.as_str());
    if w.kind == WorkerKind::Wifi && x.kind == WorkerKind::Wifi && (w.endpoint == x.endpoint
        || same_mac) {
        return true;
    }
    w.kind == x.kind && w.kind != WorkerKind::Usb && w.kind != WorkerKind::Wifi && same_mac
}

pub open spec fn keyed_row(x: (u8, String, String, DiscoveredWorker)) -> WorkerView {
    worker_view(x.3)
}

pub open spec fn keyed_row_ok(x: (u8, String, String, DiscoveredWorker)) -> bool {
    x.0 == 0 && x.1@ == x.3.endpoint@ && x.2@ == x.3.mac@
}

/// Merges one discovered worker into the list, which stays in endpoint,
/// then MAC, order.
pub fn merge_discovered(list: Vec<DiscoveredWorker>, worker: DiscoveredWorker) -> (r: Vec<DiscoveredWorker>)
    ensures
        forall|i: int, j: int|
            0 <= i < j < r@.len() ==> !crate::ports::key_lt(
                (0u8, r@[j].endpoint@, r@[j].mac@),
                (0u8, r@[i].endpoint@, r@[i].mac@),
            ),
        workers_view(r@).to_multiset() == merged_rows(workers_view(list@), worker_view(worker)).to_multiset(),
{
    let mut list = list;
    let ghost lv = workers_view(list@);
    let ghost xv = worker_view(worker);
    let mut k: usize = 0;
    loop
        invariant
            k <= list@.len(),
            lv == workers_view(list@),
            xv == worker_view(worker),
            forall|j: int| 0 <= j < k ==> !same_worker(#[trigger] lv[j], xv),
        ensures
            k <= list@.len(),
            forall|j: int| 0 <= j < k ==> !same_worker(#[trigger] lv[j], xv),
            k < list@.len() ==> same_worker(lv[k as int], xv),
        decreases list@.len() - k,
    {
        if k >= list.len() {
            break;
        }
        if same_worker_of(&list[k], &worker) {
            break;
        }
        k = k + 1;
    }
    proof {
        lemma_first_same_bound(lv, xv);
    }
    if k < list.len() {
        proof {
            lemma_first_same_is(lv, xv, k as int);
        }
        list.set(k, worker);
        assert(workers_view(list@) =~= lv.update(k as int, xv));
    } else {
        list.push(worker);
        assert(workers_view(list@) =~= lv.push(xv));
    }
    let ghost merged = workers_view(list@);
    assert(merged == merged_rows(lv, xv));
    let mut rest = list;
    let ghost all = rest@;
    let mut items: Vec<(u8, String, String, DiscoveredWorker)> = Vec::new();
    let ghost mut m: int = 0;
    assert(all.skip(0) =~= all);
    while rest.len() > 0
        invariant
            0 <= m <= all.len(),
            rest@ == all.skip(m),
            items@.map_values(|x: (u8, String, String, DiscoveredWorker)| keyed_row(x)) == workers_view(
                all.take(m),
            ),
            forall|j: int| 0 <= j < items@.len() ==> keyed_row_ok(#[trigger] items@[j]),
        decreases rest@.len(),
    {
        let w = rest.remove(0);
        assert(rest@ =~= all.skip(m + 1));
        let e = text(chars_of(w.endpoint.as_str()));
        let mc = text(chars_of(w.mac.as_str()));
        let ghost before = items@;
        items.push((0u8, e, mc, w));
        assert(all.take(m + 1) =~= all.take(m).push(w));
        assert(items@.map_values(|x: (u8, String, String, DiscoveredWorker)| keyed_row(x)) =~= before.map_values(
            |x: (u8, String, String, DiscoveredWorker)| keyed_row(x),
        ).push(worker_view(w)));
        proof {
            m = m + 1;
        }
    }
    assert(all.take(m) =~= all);
    let ghost unsorted = items@;
    let mut sorted = sort_by_key(items);
    proof {
        lemma_map_multiset(sorted@, unsorted, |x: (u8, String, String, DiscoveredWorker)| keyed_row(x));
        lemma_multiset_forall(unsorted, sorted@, |x: (u8, String, String, DiscoveredWorker)| keyed_row_ok(x));
    }
    let ghost s0 = sorted@;
    let mut out: Vec<DiscoveredWorker> = Vec::new();
    let ghost mut q: int = 0;
    assert(s0.skip(0) =~= s0);
    while sorted.len() > 0
        invariant
            0 <= q <= s0.len(),
            sorted@ == s0.skip(q),
            out@.len() == q,
            forall|j: int| 0 <= j < q ==> #[trigger] out@[j] == s0[j].3,
        decreases sorted@.len(),
    {
        let x = sorted.remove(0);
        assert(sorted@ =~= s0.skip(q + 1));
        out.push(x.3);
        proof {
            q = q + 1;
        }
    }
    assert(workers_view(out@) =~= s0.map_values(|x: (u8, String, String, DiscoveredWorker)| keyed_row(x)));
    assert forall|i: int, j: int| 0 <= i < j < out@.len() implies !crate::ports::key_lt(
        (0u8, out@[j].endpoint@, out@[j].mac@),
        (0u8, out@[i].endpoint@, out@[i].mac@),
    ) by {
        assert(keyed_row_ok(s0[i]));
        assert(keyed_row_ok(s0[j]));
        assert(!key_lt(crate::ports::item_key(s0[j]), crate::ports::item_key(s0[i])));
    }
    out
}

/// Merging the same worker again changes nothing: a beacon heard twice is
/// one row.
pub proof fn lemma_merge_idempotent(list: Seq<WorkerView>, x: WorkerView)
    ensures
        merged_rows(merged_rows(list, x), x) == merged_rows(list, x),
{
    lemma_first_same_bound(list, x);
    let m = merged_rows(list, x);
    assert(same_worker(x, x));
    match first_same(list, x) {
        Some(k) => {
            assert forall|j: int| 0 <= j < k implies !same_worker(#[trigger] m[j], x) by {
                assert(m[j] == list[j]);
            }
            lemma_first_same_is(m, x, k);
            assert(m.update(k, x) =~= m);
        },
        None => {
            let k = list.len() as int;
            assert forall|j: int| 0 <= j < k implies !same_worker(#[trigger] m[j], x) by {
                assert(m[j] == list[j]);
            }
            lemma_first_same_is(m, x, k);
            assert(m.update(k, x) =~= m);
        },
    }
}

/// A merge adds at most one row, and adds none when the worker is known.
pub proof fn lemma_merge_len(list: Seq<WorkerView>, x: WorkerView)
    ensures
        merged_rows(list, x).len() == list.len() + if first_same(list, x) is Some {
            0int
        } else {
            1int
        },
        merged_rows(list, x).contains(x),
{
    lemma_first_same_bound(list, x);
    let m = merged_rows(list, x);
    match first_same(list, x) {
        Some(k) => {
            assert(m[k] == x);
        },
        None => {
            assert(m[list.len() as int] == x);
        },
    }
}


// ----- after a Wi‑Fi setup push -----

/// A beacon detail of a board that joined a network as a station.
pub open spec fn detail_on_lan(d: Seq<char>) -> bool {
    contains(d, "apsta"@) || contains(d, "wi-fi sta"@) || contains(d, "wi‑fi sta"@) || (contains(
        d,
        "sta"@,
    ) && !contains(d, "softap"@))
}

/// The worker is the board that was set up: same eFuse MAC, or the endpoint
/// the credentials were pushed to.
pub open spec fn is_setup_board(w_endpoint: Seq<char>, w_mac: Seq<char>, endpoint: Seq<char>, mac: Seq<char>) -> bool {
    same_board_mac(mac, w_mac) || w_endpoint == endpoint
}

/// A beacon of the board from the home network: a station detail (not the
/// setup access point) and a host other than the access point's.
pub open spec fn beacon_shows_sta(w: WorkerView, endpoint: Seq<char>, mac: Seq<char>) -> bool {
    let d = lower_seq(w.detail);
    &&& is_setup_board(w.endpoint, w.mac, endpoint, mac)
    &&& !contains(d, "setup softap"@)
    &&& detail_on_lan(d)
    &&& w.host.len() > 0
    &&& w.host != before_colon(endpoint)
}

/// A linked Wi‑Fi worker of the board on a host other than the access point's.
pub open spec fn linked_shows_sta(e: Seq<char>, m: Seq<char>, endpoint: Seq<char>, mac: Seq<char>) -> bool {
    &&& is_setup_board(e, m, endpoint, mac)
    &&& e.contains(':')
    &&& !starts_with(crate::text::upper_seq(e), "COM"@)
    &&& before_colon(e).len() > 0
    &&& before_colon(e) != before_colon(endpoint)
}

/// Whether the board set up through `endpoint` shows up on the home network.
#[derive(Debug)]
pub enum StaJoin {
    /// Not yet.
    Waiting,
    /// Its beacon (discovered worker `index`) shows it at `ip`.
    Beacon { index: usize, ip: String },
    /// Linked worker `index` reaches it at `ip`.
    Linked { index: usize, ip: String },
}

pub open spec fn linked_view(l: Seq<(String, String)>) -> Seq<(Seq<char>, Seq<char>)> {
    l.map_values(|p: (String, String)| (p.0@, p.1@))
}

fn host_part(s: &[char]) -> (r: Vec<char>)
    ensures
        r@ == before_colon(s@),
{
    match crate::text::first_index_of(s, ':') {
        Some(i) => sub_chars(s, 0, i),
        None => sub_chars(s, 0, s.len()),
    }
}

fn same_chars(a: &[char], b: &[char]) -> (r: bool)
    ensures
        r == (a@ == b@),
{
    if a.len() != b.len() {
        return false;
    }
    let r = crate::text::has_prefix(a, b);
    assert(a@ =~= a@.take(b@.len() as int));
    r
}

fn setup_board(w_endpoint: &str, w_mac: &str, endpoint: &[char], mac: &str) -> (r: bool)
    ensures
        r == is_setup_board(w_endpoint@, w_mac@, endpoint@, mac@),
{
    let same = crate::workers::mac_is_stable(mac) && crate::workers::mac_is_stable(w_mac)
        && crate::workers::normalize_mac(mac) == crate::workers::normalize_mac(w_mac);
    let we = chars_of(w_endpoint);
    same || same_chars(we.as_slice(), endpoint)
}

/// The first beacon, else the first linked worker, that shows the board set
/// up through `endpoint` (eFuse `mac`) joined the home network.
pub fn sta_join(endpoint: &str, mac: &str, found: &Vec<DiscoveredWorker>, linked: &Vec<(String, String)>) -> (r: StaJoin)
    ensures
        match r {
            StaJoin::Beacon { index, ip } => {
                &&& index < found@.len()
                &&& beacon_shows_sta(worker_view(found@[index as int]), endpoint@, mac@)
                &&& ip@ == found@[index as int].host@
                &&& forall|k: int| 0 <= k < index ==> !beacon_shows_sta(#[trigger] worker_view(found@[k]), endpoint@, mac@)
            },
            StaJoin::Linked { index, ip } => {
                &&& forall|k: int| 0 <= k < found@.len() ==> !beacon_shows_sta(#[trigger] worker_view(found@[k]), endpoint@, mac@)
                &&& index < linked@.len()
                &&& linked_shows_sta(linked_view(linked@)[index as int].0, linked_view(linked@)[index as int].1, endpoint@, mac@)
                &&& ip@ == before_colon(linked_view(linked@)[index as int].0)
                &&& forall|k: int| 0 <= k < index ==> !linked_shows_sta(#[trigger] linked_view(linked@)[k].0, linked_view(linked@)[k].1, endpoint@, mac@)
            },
            StaJoin::Waiting => {
                &&& forall|k: int| 0 <= k < found@.len() ==> !beacon_shows_sta(#[trigger] worker_view(found@[k]), endpoint@, mac@)
                &&& forall|k: int| 0 <= k < linked@.len() ==> !linked_shows_sta(#[trigger] linked_view(linked@)[k].0, linked_view(linked@)[k].1, endpoint@, mac@)
            },
        },
{
    let ep = chars_of(endpoint);
    let ap_host = host_part(ep.as_slice());
    let mut i: usize = 0;
    while i < found.len()
        invariant
            i <= found@.len(),
            ep@ == endpoint@,
            ap_host@ == before_colon(endpoint@),
            forall|k: int| 0 <= k < i ==> !beacon_shows_sta(#[trigger] worker_view(found@[k]), endpoint@, mac@),
        decreases found@.len() - i,
    {
        let w = &found[i];
        if setup_board(w.endpoint.as_str(), w.mac.as_str(), ep.as_slice(), mac) {
            let dc = chars_of(w.detail.as_str());
            let d = lower_chars(dc.as_slice());
            let ds = d.as_slice();
            let on_lan = crate::text::contains_str(ds, "apsta") || crate::text::contains_str(ds, "wi-fi sta")
                || crate::text::contains_str(ds, "wi‑fi sta") || (crate::text::contains_str(ds, "sta")
                && !crate::text::contains_str(ds, "softap"));
            let hc = chars_of(w.host.as_str());
            if !crate::text::contains_str(ds, "setup softap") && on_lan && hc.len() > 0 && !same_chars(
                hc.as_slice(),
                ap_host.as_slice(),
            ) {
                return StaJoin::Beacon { index: i, ip: string_of(hc.as_slice()) };
            }
        }
        i = i + 1;
    }
    let mut j: usize = 0;
    while j < linked.len()
        invariant
            j <= linked@.len(),
            ep@ == endpoint@,
            ap_host@ == before_colon(endpoint@),
            forall|k: int| 0 <= k < found@.len() ==> !beacon_shows_sta(#[trigger] worker_view(found@[k]), endpoint@, mac@),
            forall|k: int| 0 <= k < j ==> !linked_shows_sta(#[trigger] linked_view(linked@)[k].0, linked_view(linked@)[k].1, endpoint@, mac@),
        decreases linked@.len() - j,
    {
        let e = linked[j].0.as_str();
        let m = linked[j].1.as_str();
        assert(linked_view(linked@)[j as int] == (e@, m@));
        if setup_board(e, m, ep.as_slice(), mac) {
            let ec = chars_of(e);
            let up = crate::text::upper_chars(ec.as_slice());
            let colon = crate::text::first_index_of(ec.as_slice(), ':');
            if colon.is_some() && !crate::text::starts_with_str(up.as_slice(), "COM") {
                let ip = host_part(ec.as_slice());
                if ip.len() > 0 && !same_chars(ip.as_slice(), ap_host.as_slice()) {
                    return StaJoin::Linked { index: j, ip: string_of(ip.as_slice()) };
                }
            }
        }
        j = j + 1;
    }
    StaJoin::Waiting
}

/// One tick of the wait for a board to join the home network.
#[derive(Debug)]
pub enum StaWait {
    /// Over 90 s: give up with this message.
    TimedOut(String),
    /// Log this progress line.
    Progress(String),
    /// Nothing to say.
    Quiet,
}

/// The wait started `waited_ms` ago and last logged `since_log_ms` ago: it
/// times out after 90 s and reports every 15 s.
pub open spec fn sta_wait_ok(r: StaWait, waited_ms: u64, since_log_ms: u64, ssid: Seq<char>, endpoint: Seq<char>) -> bool {
    if waited_ms > 90_000 {
        r matches StaWait::TimedOut(m) && m@ == "Timed out waiting for home Wi‑Fi “"@ + ssid
            + "” after SoftAP push ("@ + endpoint + "). Re-join SoftAP or check SSID/password."@
    } else if since_log_ms >= 15_000 {
        r matches StaWait::Progress(m) && m@ == "  · still waiting for STA on “"@ + ssid + "”… "@ + dec(
            (waited_ms / 1000) as nat,
        ) + "s / 90s · SoftAP was "@ + endpoint
    } else {
        r is Quiet
    }
}

pub fn sta_wait(waited_ms: u64, since_log_ms: u64, ssid: &str, endpoint: &str) -> (r: StaWait)
    ensures
        sta_wait_ok(r, waited_ms, since_log_ms, ssid@, endpoint@),
{
    let mut out: Vec<char> = Vec::new();
    if waited_ms > 90_000 {
        extend_str(&mut out, "Timed out waiting for home Wi‑Fi “");
        extend_str(&mut out, ssid);
        extend_str(&mut out, "” after SoftAP push (");
        extend_str(&mut out, endpoint);
        extend_str(&mut out, "). Re-join SoftAP or check SSID/password.");
        StaWait::TimedOut(string_of(out.as_slice()))
    } else if since_log_ms >= 15_000 {
        extend_str(&mut out, "  · still waiting for STA on “");
        extend_str(&mut out, ssid);
        extend_str(&mut out, "”… ");
        push_dec(&mut out, waited_ms / 1000);
        extend_str(&mut out, "s / 90s · SoftAP was ");
        extend_str(&mut out, endpoint);
        StaWait::Progress(string_of(out.as_slice()))
    } else {
        StaWait::Quiet
    }
}

/// The MAC of the first row at endpoint `ep`.
pub open spec fn mac_at(rows: Seq<(Seq<char>, Seq<char>)>, ep: Seq<char>) -> Option<Seq<char>>
    decreases rows.len(),
{
    if rows.len() == 0 {
        None
    } else if rows[0].0 == ep {
        Some(rows[0].1)
    } else {
        mac_at(rows.drop_first(), ep)
    }
}

pub open spec fn endpoint_macs(found: Seq<WorkerView>) -> Seq<(Seq<char>, Seq<char>)> {
    found.map_values(|w: WorkerView| (w.endpoint, w.mac))
}

/// What follows a successful Wi‑Fi credentials push.
#[derive(Debug)]
pub enum SetupPushed {
    /// Pushed over a USB link: the board saved them; nothing to wait for.
    SavedOverUsb,
    /// Pushed to an access point: wait for the board (eFuse `mac`, empty
    /// when unknown) to show up on the home network.
    WaitForSta { mac: String },
}

pub open spec fn setup_pushed_ok(r: SetupPushed, endpoint: Seq<char>, linked: Seq<(Seq<char>, Seq<char>)>, found: Seq<WorkerView>) -> bool {
    if crate::workers::spec_is_usb_serial_port(endpoint) {
        r is SavedOverUsb
    } else {
        r matches SetupPushed::WaitForSta { mac } && mac@ == match mac_at(linked, endpoint) {
            Some(m) => m,
            None => match mac_at(endpoint_macs(found), endpoint) {
                Some(m) => m,
                None => Seq::empty(),
            },
        }
    }
}

fn mac_at_of(rows: &Vec<(String, String)>, ep: &[char]) -> (r: Option<String>)
    ensures
        match r {
            Some(m) => mac_at(linked_view(rows@), ep@) == Some(m@),
            None => mac_at(linked_view(rows@), ep@) is None,
        },
{
    let ghost v = linked_view(rows@);
    let mut i: usize = 0;
    assert(v.skip(0) =~= v);
    while i < rows.len()
        invariant
            i <= rows@.len(),
            v == linked_view(rows@),
            mac_at(v, ep@) == mac_at(v.skip(i as int), ep@),
        decreases rows@.len() - i,
    {
        let e = chars_of(rows[i].0.as_str());
        assert(v.skip(i as int)[0] == (rows@[i as int].0@, rows@[i as int].1@));
        if same_chars(e.as_slice(), ep) {
            return Some(string_of(chars_of(rows[i].1.as_str()).as_slice()));
        }
        assert(v.skip(i as int).drop_first() =~= v.skip(i + 1));
        i = i + 1;
    }
    None
}

/// After credentials went to `endpoint`: saved over USB, or wait for the
/// board, known by the MAC of the linked worker (else the scanned board) at
/// that endpoint.
pub fn setup_pushed(endpoint: &str, linked: &Vec<(String, String)>, found: &Vec<DiscoveredWorker>) -> (r: SetupPushed)
    ensures
        setup_pushed_ok(r, endpoint@, linked_view(linked@), found@.map_values(|w: DiscoveredWorker| worker_view(w))),
{
    if crate::workers::is_usb_serial_port(endpoint) {
        return SetupPushed::SavedOverUsb;
    }
    let ep = chars_of(endpoint);
    match mac_at_of(linked, ep.as_slice()) {
        Some(m) => SetupPushed::WaitForSta { mac: m },
        None => {
            let ghost fv = found@.map_values(|w: DiscoveredWorker| worker_view(w));
            let mut pairs: Vec<(String, String)> = Vec::new();
            let mut i: usize = 0;
            while i < found.len()
                invariant
                    i <= found@.len(),
                    fv == found@.map_values(|w: DiscoveredWorker| worker_view(w)),
                    linked_view(pairs@) == endpoint_macs(fv.take(i as int)),
                decreases found@.len() - i,
            {
                let ghost p0 = linked_view(pairs@);
                let e = string_of(chars_of(found[i].endpoint.as_str()).as_slice());
                let m = string_of(chars_of(found[i].mac.as_str()).as_slice());
                pairs.push((e, m));
                assert(linked_view(pairs@) =~= p0.push((found@[i as int].endpoint@, found@[i as int].mac@)));
                assert(fv.take(i + 1) =~= fv.take(i as int).push(fv[i as int]));
                assert(endpoint_macs(fv.take(i + 1)) =~= endpoint_macs(fv.take(i as int)).push(
                    (fv[i as int].endpoint, fv[i as int].mac),
                ));
                i = i + 1;
            }
            assert(fv.take(fv.len() as int) =~= fv);
            match mac_at_of(&pairs, ep.as_slice()) {
                Some(m) => SetupPushed::WaitForSta { mac: m },
                None => SetupPushed::WaitForSta { mac: String::new() },
            }
        },
    }
}

// ----- where a Wi‑Fi setup push can go -----

/// The row of a linked worker: `endpoint · linked`, with its MAC when known.
pub open spec fn linked_label(ep: Seq<char>, mac: Seq<char>) -> Seq<char> {
    if mac.len() == 0 {
        ep + " · linked"@
    } else {
        ep + " · "@ + mac + " · linked"@
    }
}

pub open spec fn linked_rows(linked: Seq<(Seq<char>, Seq<char>)>) -> Seq<(Seq<char>, Seq<char>)> {
    linked.map_values(|l: (Seq<char>, Seq<char>)| (l.0, linked_label(l.0, l.1)))
}

pub open spec fn row_has_endpoint(rows: Seq<(Seq<char>, Seq<char>)>, ep: Seq<char>) -> bool {
    exists|k: int| 0 <= k < rows.len() && #[trigger] rows[k].0 == ep
}

pub open spec fn linked_endpoints(linked: Seq<(Seq<char>, Seq<char>)>) -> Seq<Seq<char>> {
    linked.map_values(|l: (Seq<char>, Seq<char>)| l.0)
}

/// A scanned USB or Wi‑Fi board not listed yet and not linked (by port or by MAC).
pub open spec fn offered_for_setup(
    linked: Seq<(Seq<char>, Seq<char>)>,
    rows: Seq<(Seq<char>, Seq<char>)>,
    w: WorkerView,
) -> bool {
    &&& (w.kind == WorkerKind::Wifi || w.kind == WorkerKind::Usb)
    &&& !row_has_endpoint(rows, w.endpoint)
    &&& !crate::fleet::spec_port_listed(linked_endpoints(linked), w.endpoint)
    &&& !exists|k: int| 0 <= k < linked.len() && #[trigger] same_board_mac(linked[k].1, w.mac)
}

/// The rows before ordering: linked workers, then the scanned boards offered.
pub open spec fn setup_rows(linked: Seq<(Seq<char>, Seq<char>)>, found: Seq<WorkerView>) -> Seq<(Seq<char>, Seq<char>)>
    decreases found.len(),
{
    if found.len() == 0 {
        linked_rows(linked)
    } else {
        let prev = setup_rows(linked, found.drop_last());
        let w = found.last();
        if offered_for_setup(linked, prev, w) {
            prev.push((w.endpoint, w.endpoint + " · "@ + w.detail))
        } else {
            prev
        }
    }
}

/// Order of a row: the access point just joined first, then linked workers,
/// other boards, and setup access points last.
pub open spec fn setup_rank(ep: Seq<char>, label: Seq<char>, routed: Seq<char>) -> u8 {
    let l = lower_seq(label);
    if routed.len() > 0 && ep == routed {
        0
    } else if contains(l, "· linked"@) || crate::text::ends_with(l, " linked"@) {
        1
    } else if contains(l, "setup softap"@) {
        3
    } else {
        2
    }
}

pub open spec fn setup_key(row: (Seq<char>, Seq<char>), routed: Seq<char>) -> (u8, Seq<char>, Seq<char>) {
    (setup_rank(row.0, row.1, routed), row.0, row.1)
}

pub open spec fn pairs_view(v: Seq<(String, String)>) -> Seq<(Seq<char>, Seq<char>)> {
    v.map_values(|p: (String, String)| (p.0@, p.1@))
}

pub open spec fn keyed_pair_view(x: (u8, String, String, ())) -> (Seq<char>, Seq<char>) {
    (x.1@, x.2@)
}

pub open spec fn keyed_pair_ok(x: (u8, String, String, ()), routed: Seq<char>) -> bool {
    x.0 == setup_rank(x.1@, x.2@, routed)
}

fn ends_with_chars(s: &[char], p: &str) -> (r: bool)
    ensures
        r == crate::text::ends_with(s@, p@),
{
    let pc = chars_of(p);
    if pc.len() > s.len() {
        return false;
    }
    let r = crate::text::matches_at(s, pc.as_slice(), s.len() - pc.len());
    assert(s@.subrange(s@.len() - pc@.len(), s@.len() as int) =~= s@.skip(s@.len() - pc@.len()));
    r
}

fn rank_of(ep: &str, label: &str, routed: &str) -> (r: u8)
    ensures
        r == setup_rank(ep@, label@, routed@),
{
    let rc = chars_of(routed);
    let ec = chars_of(ep);
    if rc.len() > 0 && same_chars(ec.as_slice(), rc.as_slice()) {
        return 0;
    }
    let lc = chars_of(label);
    let l = lower_chars(lc.as_slice());
    if crate::text::contains_str(l.as_slice(), "· linked") || ends_with_chars(l.as_slice(), " linked") {
        1
    } else if crate::text::contains_str(l.as_slice(), "setup softap") {
        3
    } else {
        2
    }
}

fn has_row(rows: &Vec<(String, String)>, ep: &str) -> (r: bool)
    ensures
        r == row_has_endpoint(pairs_view(rows@), ep@),
{
    let ec = chars_of(ep);
    let mut k: usize = 0;
    while k < rows.len()
        invariant
            k <= rows@.len(),
            ec@ == ep@,
            forall|q: int| 0 <= q < k ==> pairs_view(rows@)[q].0 != ep@,
        decreases rows@.len() - k,
    {
        let rc = chars_of(rows[k].0.as_str());
        if same_chars(rc.as_slice(), ec.as_slice()) {
            assert(pairs_view(rows@)[k as int].0 == ep@);
            return true;
        }
        k = k + 1;
    }
    false
}

/// Where a home Wi‑Fi push can go: the linked workers (`endpoint`, `mac`),
/// then the scanned USB and Wi‑Fi boards not yet listed or linked, ordered by
/// rank and endpoint (rows of one rank and endpoint, which linked workers on
/// distinct endpoints never give, by label); `routed` is the access point
/// just joined, empty when none.
pub fn setup_target_choices(
    linked: &Vec<(String, String)>,
    found: &Vec<DiscoveredWorker>,
    routed: &str,
) -> (r: Vec<(String, String)>)
    ensures
        pairs_view(r@).to_multiset() == setup_rows(
            linked_view(linked@),
            found@.map_values(|w: DiscoveredWorker| worker_view(w)),
        ).to_multiset(),
        forall|i: int, j: int|
            0 <= i < j < r@.len() ==> !key_lt(
                setup_key(pairs_view(r@)[j], routed@),
                setup_key(pairs_view(r@)[i], routed@),
            ),
{
    let ghost lv = linked_view(linked@);
    let ghost fv = found@.map_values(|w: DiscoveredWorker| worker_view(w));
    let mut rows: Vec<(String, String)> = Vec::new();
    let mut eps: Vec<String> = Vec::new();
    let mut macs: Vec<String> = Vec::new();
    let mut i: usize = 0;
    while i < linked.len()
        invariant
            i <= linked@.len(),
            lv == linked_view(linked@),
            pairs_view(rows@) == linked_rows(lv.take(i as int)),
            crate::fleet::strs_view(eps@) == linked_endpoints(lv.take(i as int)),
            crate::fleet::strs_view(macs@) == lv.take(i as int).map_values(|l: (Seq<char>, Seq<char>)| l.1),
        decreases linked@.len() - i,
    {
        let e = linked[i].0.as_str();
        let m = linked[i].1.as_str();
        assert(lv[i as int] == (e@, m@));
        let ec = chars_of(e);
        let mc = chars_of(m);
        let mut label = chars_of(e);
        if mc.len() > 0 {
            extend_str(&mut label, " · ");
            extend_chars(&mut label, mc.as_slice());
        }
        extend_str(&mut label, " · linked");
        assert(label@ == linked_label(e@, m@));
        let ghost r0 = pairs_view(rows@);
        let ghost e0 = crate::fleet::strs_view(eps@);
        let ghost m0 = crate::fleet::strs_view(macs@);
        rows.push((string_of(ec.as_slice()), string_of(label.as_slice())));
        eps.push(string_of(ec.as_slice()));
        macs.push(string_of(mc.as_slice()));
        assert(pairs_view(rows@) =~= r0.push((e@, linked_label(e@, m@))));
        assert(crate::fleet::strs_view(eps@) =~= e0.push(e@));
        assert(crate::fleet::strs_view(macs@) =~= m0.push(m@));
        assert(lv.take(i + 1) =~= lv.take(i as int).push(lv[i as int]));
        assert(linked_rows(lv.take(i + 1)) =~= linked_rows(lv.take(i as int)).push((e@, linked_label(e@, m@))));
        assert(linked_endpoints(lv.take(i + 1)) =~= linked_endpoints(lv.take(i as int)).push(e@));
        assert(lv.take(i + 1).map_values(|l: (Seq<char>, Seq<char>)| l.1) =~= lv.take(i as int).map_values(
            |l: (Seq<char>, Seq<char>)| l.1,
        ).push(m@));
        i = i + 1;
    }
    assert(lv.take(lv.len() as int) =~= lv);
    assert(crate::fleet::strs_view(macs@).len() == macs@.len());
    let mut j: usize = 0;
    assert(fv.take(0) =~= Seq::<WorkerView>::empty());
    while j < found.len()
        invariant
            j <= found@.len(),
            lv == linked_view(linked@),
            fv == found@.map_values(|w: DiscoveredWorker| worker_view(w)),
            pairs_view(rows@) == setup_rows(lv, fv.take(j as int)),
            crate::fleet::strs_view(eps@) == linked_endpoints(lv),
            crate::fleet::strs_view(macs@) == lv.map_values(|l: (Seq<char>, Seq<char>)| l.1),
            macs@.len() == lv.len(),
        decreases found@.len() - j,
    {
        let w = &found[j];
        let ghost prev = pairs_view(rows@);
        assert(fv.take(j + 1).drop_last() =~= fv.take(j as int));
        assert(fv.take(j + 1).last() == worker_view(*w));
        let ghost wv = worker_view(*w);
        assert(setup_rows(lv, fv.take(j + 1)) == if offered_for_setup(lv, prev, wv) {
            prev.push((wv.endpoint, wv.endpoint + " · "@ + wv.detail))
        } else {
            prev
        });
        let kind_ok = match w.kind {
            WorkerKind::Wifi => true,
            WorkerKind::Usb => true,
            _ => false,
        };
        let listed_row = has_row(&rows, w.endpoint.as_str());
        let linked_port = crate::fleet::port_listed(&eps, w.endpoint.as_str());
        assert(kind_ok == (wv.kind == WorkerKind::Wifi || wv.kind == WorkerKind::Usb));
        assert(listed_row == row_has_endpoint(prev, wv.endpoint));
        assert(linked_port == crate::fleet::spec_port_listed(linked_endpoints(lv), wv.endpoint));
        if kind_ok && !listed_row && !linked_port {
            let same = crate::fleet::same_mac_index(&macs, w.mac.as_str());
            proof {
                assert forall|k: int| 0 <= k < lv.len() implies #[trigger] same_board_mac(lv[k].1, w.mac@)
                    == same_board_mac(macs@[k]@, w.mac@) by {
                    assert(crate::fleet::strs_view(macs@)[k] == macs@[k]@);
                    assert(lv.map_values(|l: (Seq<char>, Seq<char>)| l.1)[k] == lv[k].1);
                }
            }
            if same.is_none() {
                let ec = chars_of(w.endpoint.as_str());
                let mut label = chars_of(w.endpoint.as_str());
                extend_str(&mut label, " · ");
                extend_str(&mut label, w.detail.as_str());
                rows.push((string_of(ec.as_slice()), string_of(label.as_slice())));
                assert(pairs_view(rows@) =~= prev.push((w.endpoint@, w.endpoint@ + " · "@ + w.detail@)));
                assert(offered_for_setup(lv, prev, wv));
            } else {
                let k = same.unwrap();
                assert(wv.mac == w.mac@);
                assert(0 <= k < lv.len());
                assert(same_board_mac(lv[k as int].1, wv.mac));
                assert(!offered_for_setup(lv, prev, wv));
            }
        } else {
            assert(!offered_for_setup(lv, prev, wv));
        }
        j = j + 1;
    }
    assert(fv.take(fv.len() as int) =~= fv);
    let ghost rows_v = pairs_view(rows@);
    let mut items: Vec<(u8, String, String, ())> = Vec::new();
    let mut q: usize = 0;
    while q < rows.len()
        invariant
            q <= rows@.len(),
            rows_v == pairs_view(rows@),
            items@.map_values(|x: (u8, String, String, ())| keyed_pair_view(x)) == rows_v.take(q as int),
            forall|t: int| 0 <= t < items@.len() ==> keyed_pair_ok(#[trigger] items@[t], routed@),
        decreases rows@.len() - q,
    {
        let e = rows[q].0.as_str();
        let l = rows[q].1.as_str();
        let rk = rank_of(e, l, routed);
        let ghost before = items@;
        items.push((rk, string_of(chars_of(e).as_slice()), string_of(chars_of(l).as_slice()), ()));
        assert(rows_v.take(q + 1) =~= rows_v.take(q as int).push(rows_v[q as int]));
        assert(items@.map_values(|x: (u8, String, String, ())| keyed_pair_view(x)) =~= before.map_values(
            |x: (u8, String, String, ())| keyed_pair_view(x),
        ).push((e@, l@)));
        q = q + 1;
    }
    assert(rows_v.take(rows_v.len() as int) =~= rows_v);
    let ghost unsorted = items@;
    let mut sorted = sort_by_key(items);
    proof {
        lemma_map_multiset(sorted@, unsorted, |x: (u8, String, String, ())| keyed_pair_view(x));
        assert forall|t: int| 0 <= t < unsorted.len() implies (|x: (u8, String, String, ())| keyed_pair_ok(x, routed@))(
            #[trigger] unsorted[t],
        ) by {}
        lemma_multiset_forall(unsorted, sorted@, |x: (u8, String, String, ())| keyed_pair_ok(x, routed@));
    }
    let ghost s0 = sorted@;
    let mut out: Vec<(String, String)> = Vec::new();
    let ghost mut m: int = 0;
    assert(s0.skip(0) =~= s0);
    while sorted.len() > 0
        invariant
            0 <= m <= s0.len(),
            sorted@ == s0.skip(m),
            out@.len() == m,
            forall|t: int| 0 <= t < m ==> (#[trigger] out@[t]).0@ == s0[t].1@ && out@[t].1@ == s0[t].2@,
        decreases sorted@.len(),
    {
        let x = sorted.remove(0);
        assert(sorted@ =~= s0.skip(m + 1));
        out.push((x.1, x.2));
        proof {
            m = m + 1;
        }
    }
    assert(pairs_view(out@) =~= s0.map_values(|x: (u8, String, String, ())| keyed_pair_view(x)));
    assert forall|a: int, b: int| 0 <= a < b < out@.len() implies !key_lt(
        setup_key(pairs_view(out@)[b], routed@),
        setup_key(pairs_view(out@)[a], routed@),
    ) by {
        assert(keyed_pair_ok(s0[a], routed@));
        assert(keyed_pair_ok(s0[b], routed@));
        assert(!key_lt(crate::ports::item_key(s0[b]), crate::ports::item_key(s0[a])));
    }
    out
}

} // verus!
