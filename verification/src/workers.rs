//! Worker identities and port names: MAC normalisation, serial-port
//! classification, discovery ids, and parsing of board / Companion beacons.

use vstd::prelude::*;
use crate::text::{
    chars_of, contains, extend_str, first_index, find, find_char, has_prefix, is_alpha, is_ascii_alpha, is_ascii_digit,
    is_digit, is_hex, is_hex_digit, is_ws, lower, lower_chars, lower_seq, starts_with, string_of,
    sub_chars, to_lower, trim, trim_chars, trim_end, trim_start, trimmed, upper_chars, upper_seq,
};

verus! {

pub const LAN_DISCOVERY_PORT: u16 = 19283;
pub const BOARD_WIFI_PORT: u16 = 19284;

/// How a worker is reached.
#[derive(Debug, Clone, Copy, PartialEq, Eq, Structural)]
pub enum WorkerKind {
    Usb,
    Bluetooth,
    Wifi,
    Lan,
}

/// A board (or Companion peer) found by a scan or a beacon.
#[derive(Debug, Clone)]
pub struct DiscoveredWorker {
    pub id: String,
    pub kind: WorkerKind,
    /// COM port path, or `host:port` for Wi‑Fi / LAN peers.
    pub endpoint: String,
    /// Board Wi‑Fi STA MAC (`aa:bb:…`) when known — stable board identity.
    pub mac: String,
    pub fw: String,
    pub detail: String,
    pub host: String,
    pub last_seen_ms: u64,
}

/// One OS serial port with a human-readable label (USB chip / product).
#[derive(Debug, Clone)]
pub struct PortChoice {
    pub name: String,
    pub label: String,
}

// ----- MAC addresses -----

/// The hex digits of `s`, lower-cased, in order.
pub open spec fn hex_digits_lower(s: Seq<char>) -> Seq<char>
    decreases s.len(),
{
    if s.len() == 0 {
        Seq::empty()
    } else {
        let p = hex_digits_lower(s.drop_last());
        if is_hex(s.last()) {
            p.push(lower(s.last()))
        } else {
            p
        }
    }
}

/// The number of hex digits in `s`.
pub open spec fn hex_count(s: Seq<char>) -> nat
    decreases s.len(),
{
    if s.len() == 0 {
        0
    } else {
        hex_count(s.drop_last()) + if is_hex(s.last()) {
            1nat
        } else {
            0nat
        }
    }
}

/// Twelve hex digits written as `aa:bb:cc:dd:ee:ff`.
pub open spec fn mac_colons(h: Seq<char>) -> Seq<char> {
    h.subrange(0, 2) + seq![':'] + h.subrange(2, 4) + seq![':'] + h.subrange(4, 6) + seq![':']
        + h.subrange(6, 8) + seq![':'] + h.subrange(8, 10) + seq![':'] + h.subrange(10, 12)
}

/// Normal form of a MAC: twelve hex digits become `aa:bb:cc:dd:ee:ff`;
/// anything else is only trimmed and ASCII-lower-cased.
pub open spec fn spec_normalize_mac(raw: Seq<char>) -> Seq<char> {
    let h = hex_digits_lower(raw);
    if h.len() != 12 {
        lower_seq(trim(raw))
    } else {
        mac_colons(h)
    }
}

fn hex_digits_lower_of(s: &[char]) -> (r: Vec<char>)
    ensures
        r@ == hex_digits_lower(s@),
{
    let mut out: Vec<char> = Vec::new();
    let mut i: usize = 0;
    while i < s.len()
        invariant
            i <= s@.len(),
            out@ == hex_digits_lower(s@.take(i as int)),
        decreases s@.len() - i,
    {
        assert(s@.take(i + 1).drop_last() =~= s@.take(i as int));
        if is_hex_digit(s[i]) {
            out.push(to_lower(s[i]));
        }
        i = i + 1;
    }
    assert(s@.take(s@.len() as int) =~= s@);
    out
}

/// Normalize MAC for ids / display (`aabbccddeeff` → `aa:bb:cc:dd:ee:ff`).
pub fn normalize_mac(raw: &str) -> (r: String)
    ensures
        r@ == spec_normalize_mac(raw@),
{
    let cs = chars_of(raw);
    let h = hex_digits_lower_of(cs.as_slice());
    if h.len() != 12 {
        let t = trim_chars(cs.as_slice());
        let l = lower_chars(t.as_slice());
        return string_of(l.as_slice());
    }
    let mut out: Vec<char> = Vec::new();
    let mut k: usize = 0;
    while k < 6
        invariant
            k <= 6,
            h@.len() == 12,
            out@ == if k == 0 {
                Seq::<char>::empty()
            } else {
                mac_prefix(h@, k as nat)
            },
        decreases 6 - k,
    {
        if k > 0 {
            out.push(':');
        }
        out.push(h[2 * k]);
        out.push(h[2 * k + 1]);
        k = k + 1;
    }
    proof {
        reveal_with_fuel(mac_prefix, 7);
    }
    assert(mac_prefix(h@, 6) =~= mac_colons(h@));
    string_of(out.as_slice())
}

/// The first `k` pairs of `h`, separated by colons.
pub open spec fn mac_prefix(h: Seq<char>, k: nat) -> Seq<char>
    decreases k,
{
    if k <= 1 {
        h.subrange(0, 2)
    } else {
        mac_prefix(h, (k - 1) as nat) + seq![':'] + h.subrange(2 * k - 2, 2 * k as int)
    }
}

// ----- serial port names -----

/// What `normalize_port_name` makes of `name`: trimmed, a leading `\\.\`
/// removed, ASCII upper-cased.
pub open spec fn spec_normalize_port_name(name: Seq<char>) -> Seq<char> {
    let t = trim(name);
    let stripped = if starts_with(t, "\\\\.\\"@) {
        t.skip(4)
    } else {
        t
    };
    upper_seq(stripped)
}

/// Normalize COM / serial path for comparisons (`\\.\COM10` ↔ `COM10`).
pub fn normalize_port_name(name: &str) -> (r: String)
    ensures
        r@ == spec_normalize_port_name(name@),
{
    let t = trimmed(name);
    let pre = chars_of("\\\\.\\");
    proof {
        reveal_strlit("\\\\.\\");
    }
    let stripped = if has_prefix(t.as_slice(), pre.as_slice()) {
        sub_chars(t.as_slice(), 4, t.len())
    } else {
        t
    };
    let u = upper_chars(stripped.as_slice());
    string_of(u.as_slice())
}

/// A port name and its `\\.\`-prefixed device path name the same port.
pub proof fn lemma_port_device_prefix_ignored(n: Seq<char>)
    requires
        n.len() > 0,
        trim(n) == n,
        !starts_with(n, "\\\\.\\"@),
    ensures
        spec_normalize_port_name("\\\\.\\"@ + n) == spec_normalize_port_name(n),
{
    reveal_strlit("\\\\.\\");
    let p = "\\\\.\\"@ + n;
    crate::text::lemma_trim_ends(n);
    assert(p[0] == '\\');
    assert(p.last() == n.last());
    crate::text::lemma_trim_fixed(p);
    assert(p.take(4) =~= "\\\\.\\"@);
    assert(p.skip(4) =~= n);
}

fn string_eq(a: &String, b: &String) -> (r: bool)
    ensures
        r == (a@ == b@),
{
    *a == *b
}

pub fn port_names_match(a: &str, b: &str) -> (r: bool)
    ensures
        r == (spec_normalize_port_name(a@) == spec_normalize_port_name(b@)),
{
    let na = normalize_port_name(a);
    let nb = normalize_port_name(b);
    string_eq(&na, &nb)
}

/// Every char of `s` is an ASCII digit.
pub open spec fn all_digits(s: Seq<char>) -> bool {
    forall|i: int| 0 <= i < s.len() ==> is_digit(#[trigger] s[i])
}

pub open spec fn any_alpha(s: Seq<char>) -> bool {
    exists|i: int| 0 <= i < s.len() && is_alpha(#[trigger] s[i])
}

/// Number of occurrences of `c` in `s`.
pub open spec fn count_char(s: Seq<char>, c: char) -> nat
    decreases s.len(),
{
    if s.len() == 0 {
        0
    } else {
        count_char(s.drop_last(), c) + if s.last() == c {
            1nat
        } else {
            0nat
        }
    }
}

/// `host:port` with a numeric port and a host name that is not `COM`:
/// a network endpoint rather than a serial device.
pub open spec fn looks_like_host_port(t: Seq<char>) -> bool {
    count_char(t, ':') == 1 && {
        let i = first_index(t, ':');
        let host = t.take(i);
        let port = t.skip(i + 1);
        &&& host.len() > 0
        &&& all_digits(port)
        &&& lower_seq(host) != "com"@
        &&& (host.contains('.') || any_alpha(host))
    }
}

/// The device-name fragments that mark a USB-UART bridge.
pub open spec fn has_usb_uart_marker(lower: Seq<char>) -> bool {
    ||| contains(lower, "ttyusb"@)
    ||| contains(lower, "ttyacm"@)
    ||| contains(lower, "usbserial"@)
    ||| contains(lower, "wchusb"@)
    ||| contains(lower, "usbmodem"@)
    ||| contains(lower, "slab_uspto"@)
}

/// `COM` followed by one or more digits.
pub open spec fn is_com_name(n: Seq<char>) -> bool {
    starts_with(n, "COM"@) && n.len() > 3 && all_digits(n.skip(3))
}

pub open spec fn spec_is_usb_serial_port(name: Seq<char>) -> bool {
    let t = trim(name);
    if t.len() == 0 {
        false
    } else if t.contains('.') && t.contains(':') {
        false
    } else if looks_like_host_port(t) {
        false
    } else if is_com_name(spec_normalize_port_name(t)) {
        true
    } else {
        has_usb_uart_marker(lower_seq(t))
    }
}

pub(crate) fn all_digits_of(s: &[char], from: usize) -> (r: bool)
    requires
        from <= s@.len(),
    ensures
        r == all_digits(s@.skip(from as int)),
{
    let mut i: usize = from;
    while i < s.len()
        invariant
            from <= i <= s@.len(),
            forall|j: int| from <= j < i ==> is_digit(s@[j]),
        decreases s@.len() - i,
    {
        if !is_ascii_digit(s[i]) {
            assert(s@.skip(from as int)[i - from] == s@[i as int]);
            return false;
        }
        i = i + 1;
    }
    assert forall|j: int| 0 <= j < s@.skip(from as int).len() implies is_digit(
        #[trigger] s@.skip(from as int)[j],
    ) by {
        assert(s@.skip(from as int)[j] == s@[from + j]);
    }
    true
}

fn any_alpha_of(s: &[char]) -> (r: bool)
    ensures
        r == any_alpha(s@),
{
    let mut i: usize = 0;
    while i < s.len()
        invariant
            i <= s@.len(),
            forall|j: int| 0 <= j < i ==> !is_alpha(s@[j]),
        decreases s@.len() - i,
    {
        if is_ascii_alpha(s[i]) {
            return true;
        }
        i = i + 1;
    }
    false
}

fn count_of(s: &[char], c: char) -> (r: usize)
    ensures
        r == count_char(s@, c),
{
    let mut n: usize = 0;
    let mut i: usize = 0;
    while i < s.len()
        invariant
            i <= s@.len(),
            n == count_char(s@.take(i as int), c),
            n <= i,
        decreases s@.len() - i,
    {
        assert(s@.take(i + 1).drop_last() =~= s@.take(i as int));
        if s[i] == c {
            n = n + 1;
        }
        i = i + 1;
    }
    assert(s@.take(s@.len() as int) =~= s@);
    n
}

fn contains_str(s: &[char], p: &str) -> (r: bool)
    ensures
        r == contains(s@, p@),
{
    let pc = chars_of(p);
    find(s, pc.as_slice()).is_some()
}

fn seq_eq(a: &[char], b: &str) -> (r: bool)
    ensures
        r == (a@ == b@),
{
    let bc = chars_of(b);
    if a.len() != bc.len() {
        return false;
    }
    let r = has_prefix(a, bc.as_slice());
    assert(a@ =~= a@.take(bc@.len() as int));
    r
}

fn host_port_shape(t: &[char]) -> (r: bool)
    ensures
        r == looks_like_host_port(t@),
{
    if count_of(t, ':') != 1 {
        return false;
    }
    let i = match crate::text::first_index_of(t, ':') {
        Some(i) => i,
        None => {
            assert(count_char(t@, ':') == 0) by {
                lemma_count_zero(t@, ':');
            }
            return false;
        },
    };
    let host = sub_chars(t, 0, i);
    assert(host@ =~= t@.take(i as int));
    let host_ok = host.len() > 0;
    let n = t.len();
    assert(i < n);
    let port_ok = all_digits_of(t, i + 1);
    let lh = lower_chars(host.as_slice());
    let not_com = !seq_eq(lh.as_slice(), "com");
    let has_dot = find_char(host.as_slice(), '.').is_some();
    let has_alpha = any_alpha_of(host.as_slice());
    host_ok && port_ok && not_com && (has_dot || has_alpha)
}

proof fn lemma_count_zero(s: Seq<char>, c: char)
    requires
        !s.contains(c),
    ensures
        count_char(s, c) == 0,
    decreases s.len(),
{
    if s.len() > 0 {
        assert(!s.drop_last().contains(c)) by {
            if s.drop_last().contains(c) {
                let j = choose|j: int| 0 <= j < s.drop_last().len() && s.drop_last()[j] == c;
                assert(s[j] == c);
            }
        }
        lemma_count_zero(s.drop_last(), c);
    }
}

/// True when `name` is a local USB/UART serial device (not Wi‑Fi / LAN TCP).
pub fn is_usb_serial_port(name: &str) -> (r: bool)
    ensures
        r == spec_is_usb_serial_port(name@),
{
    let t = trimmed(name);
    if t.len() == 0 {
        return false;
    }
    if find_char(t.as_slice(), '.').is_some() && find_char(t.as_slice(), ':').is_some() {
        return false;
    }
    if host_port_shape(t.as_slice()) {
        return false;
    }
    let ts = string_of(t.as_slice());
    let n = normalize_port_name(ts.as_str());
    let nc = chars_of(n.as_str());
    proof {
        lemma_trim_idempotent(name@);
    }
    let com = chars_of("COM");
    if has_prefix(nc.as_slice(), com.as_slice()) && nc.len() > 3 && all_digits_of(nc.as_slice(), 3) {
        proof {
            reveal_strlit("COM");
        }
        return true;
    }
    proof {
        reveal_strlit("COM");
    }
    let lower = lower_chars(t.as_slice());
    let l = lower.as_slice();
    contains_str(l, "ttyusb") || contains_str(l, "ttyacm") || contains_str(l, "usbserial")
        || contains_str(l, "wchusb") || contains_str(l, "usbmodem") || contains_str(l, "slab_uspto")
}

pub proof fn lemma_trim_start_idempotent(s: Seq<char>)
    ensures
        trim_start(trim_start(s)) == trim_start(s),
        trim_start(s).len() > 0 ==> !is_ws(trim_start(s)[0]),
    decreases s.len(),
{
    if s.len() > 0 && is_ws(s[0]) {
        lemma_trim_start_idempotent(s.drop_first());
    }
}

pub proof fn lemma_trim_end_keeps_start(s: Seq<char>)
    requires
        s.len() > 0 ==> !is_ws(s[0]),
    ensures
        trim_end(s).len() > 0 ==> !is_ws(trim_end(s)[0]),
        trim_end(s).len() > 0 ==> !is_ws(trim_end(s).last()),
        trim_end(s).len() <= s.len(),
        trim_end(s) == s.take(trim_end(s).len() as int),
    decreases s.len(),
{
    if s.len() > 0 && is_ws(s.last()) {
        let d = s.drop_last();
        lemma_trim_end_keeps_start(d);
        assert(trim_end(d) == d.take(trim_end(d).len() as int));
        assert(d.take(trim_end(d).len() as int) =~= s.take(trim_end(d).len() as int));
    } else {
        assert(s.take(s.len() as int) =~= s);
    }
}

pub proof fn lemma_trim_idempotent(s: Seq<char>)
    ensures
        trim(trim(s)) == trim(s),
{
    let a = trim_start(s);
    lemma_trim_start_idempotent(s);
    lemma_trim_end_keeps_start(a);
    let b = trim_end(a);
    // b neither starts nor ends with whitespace
    assert(trim_start(b) == b);
    assert(trim_end(b) == b);
}

// ----- stable MAC identities -----

pub proof fn lemma_hex_count_len(s: Seq<char>)
    ensures
        hex_digits_lower(s).len() == hex_count(s),
    decreases s.len(),
{
    if s.len() > 0 {
        lemma_hex_count_len(s.drop_last());
    }
}

pub proof fn lemma_hex_count_concat(a: Seq<char>, b: Seq<char>)
    ensures
        hex_count(a + b) == hex_count(a) + hex_count(b),
        hex_digits_lower(a + b) == hex_digits_lower(a) + hex_digits_lower(b),
    decreases b.len(),
{
    if b.len() == 0 {
        assert(a + b =~= a);
        assert(hex_digits_lower(a) + hex_digits_lower(b) =~= hex_digits_lower(a));
    } else {
        assert((a + b).drop_last() =~= a + b.drop_last());
        lemma_hex_count_concat(a, b.drop_last());
        if is_hex(b.last()) {
            assert(hex_digits_lower(a) + hex_digits_lower(b.drop_last()).push(lower(b.last()))
                =~= (hex_digits_lower(a) + hex_digits_lower(b.drop_last())).push(lower(b.last())));
        }
    }
}

pub proof fn lemma_hex_count_lower(s: Seq<char>)
    ensures
        hex_count(lower_seq(s)) == hex_count(s),
        hex_digits_lower(lower_seq(s)) == hex_digits_lower(s),
    decreases s.len(),
{
    if s.len() > 0 {
        assert(lower_seq(s).drop_last() =~= lower_seq(s.drop_last()));
        lemma_hex_count_lower(s.drop_last());
    }
}

pub proof fn lemma_hex_count_trim(s: Seq<char>)
    ensures
        hex_count(trim(s)) == hex_count(s),
{
    lemma_hex_count_trim_start(s);
    lemma_hex_count_trim_end(trim_start(s));
}

proof fn lemma_hex_count_trim_start(s: Seq<char>)
    ensures
        hex_count(trim_start(s)) == hex_count(s),
    decreases s.len(),
{
    if s.len() > 0 && is_ws(s[0]) {
        lemma_hex_count_trim_start(s.drop_first());
        assert(s =~= seq![s[0]] + s.drop_first());
        lemma_hex_count_concat(seq![s[0]], s.drop_first());
        assert(seq![s[0]].drop_last() =~= Seq::<char>::empty());
        reveal_with_fuel(hex_count, 2);
    }
}

proof fn lemma_hex_count_trim_end(s: Seq<char>)
    ensures
        hex_count(trim_end(s)) == hex_count(s),
    decreases s.len(),
{
    if s.len() > 0 && is_ws(s.last()) {
        lemma_hex_count_trim_end(s.drop_last());
    }
}

/// Lower-case hex digits, only.
pub open spec fn all_lower_hex(h: Seq<char>) -> bool {
    forall|i: int| 0 <= i < h.len() ==> is_hex(#[trigger] h[i]) && lower(h[i]) == h[i]
}

proof fn lemma_hex_digits_lower_all(s: Seq<char>)
    ensures
        all_lower_hex(hex_digits_lower(s)),
    decreases s.len(),
{
    if s.len() > 0 {
        lemma_hex_digits_lower_all(s.drop_last());
    }
}

proof fn lemma_hex_digits_lower_fixed(h: Seq<char>)
    requires
        all_lower_hex(h),
    ensures
        hex_digits_lower(h) == h,
        hex_count(h) == h.len(),
    decreases h.len(),
{
    if h.len() > 0 {
        lemma_hex_digits_lower_fixed(h.drop_last());
        assert(hex_digits_lower(h.drop_last()).push(lower(h.last())) =~= h);
    }
}

proof fn lemma_colon_free(h: Seq<char>)
    ensures
        hex_count(seq![':']) == 0,
        hex_digits_lower(seq![':']) == Seq::<char>::empty(),
{
    assert(seq![':'].drop_last() =~= Seq::<char>::empty());
    reveal_with_fuel(hex_count, 2);
    reveal_with_fuel(hex_digits_lower, 2);
}

proof fn lemma_mac_colons_digits(h: Seq<char>)
    requires
        h.len() == 12,
        all_lower_hex(h),
    ensures
        hex_digits_lower(mac_colons(h)) == h,
        hex_count(mac_colons(h)) == 12,
{
    lemma_colon_free(h);
    let c = seq![':'];
    let p0 = h.subrange(0, 2);
    let p1 = h.subrange(2, 4);
    let p2 = h.subrange(4, 6);
    let p3 = h.subrange(6, 8);
    let p4 = h.subrange(8, 10);
    let p5 = h.subrange(10, 12);
    assert forall|k: int, b: int| 0 <= k <= b <= 12 implies all_lower_hex(
        #[trigger] h.subrange(k, b),
    ) by {
        assert forall|i: int| 0 <= i < h.subrange(k, b).len() implies is_hex(
            #[trigger] h.subrange(k, b)[i],
        ) && lower(h.subrange(k, b)[i]) == h.subrange(k, b)[i] by {
            assert(h.subrange(k, b)[i] == h[k + i]);
        }
    }
    lemma_hex_digits_lower_fixed(p0);
    lemma_hex_digits_lower_fixed(p1);
    lemma_hex_digits_lower_fixed(p2);
    lemma_hex_digits_lower_fixed(p3);
    lemma_hex_digits_lower_fixed(p4);
    lemma_hex_digits_lower_fixed(p5);
    lemma_hex_count_concat(p0, c);
    lemma_hex_count_concat(p0 + c, p1);
    lemma_hex_count_concat(p0 + c + p1, c);
    lemma_hex_count_concat(p0 + c + p1 + c, p2);
    lemma_hex_count_concat(p0 + c + p1 + c + p2, c);
    lemma_hex_count_concat(p0 + c + p1 + c + p2 + c, p3);
    lemma_hex_count_concat(p0 + c + p1 + c + p2 + c + p3, c);
    lemma_hex_count_concat(p0 + c + p1 + c + p2 + c + p3 + c, p4);
    lemma_hex_count_concat(p0 + c + p1 + c + p2 + c + p3 + c + p4, c);
    lemma_hex_count_concat(p0 + c + p1 + c + p2 + c + p3 + c + p4 + c, p5);
    assert(p0 + p1 + p2 + p3 + p4 + p5 =~= h);
    assert(hex_digits_lower(mac_colons(h)) =~= h);
}

/// A MAC is stable exactly when it holds twelve hex digits, whatever else
/// surrounds them: normalising never adds or drops a hex digit.
pub proof fn lemma_normalize_mac_hex_count(raw: Seq<char>)
    ensures
        hex_count(spec_normalize_mac(raw)) == hex_count(raw),
{
    let h = hex_digits_lower(raw);
    lemma_hex_count_len(raw);
    if h.len() != 12 {
        lemma_hex_count_lower(trim(raw));
        lemma_hex_count_trim(raw);
    } else {
        lemma_hex_digits_lower_all(raw);
        lemma_mac_colons_digits(h);
    }
}

/// True when `mac` is a real 6-byte identity (not empty / `unknown`).
pub fn mac_is_stable(mac: &str) -> (r: bool)
    ensures
        r == (hex_count(spec_normalize_mac(mac@)) == 12),
        r == (hex_count(mac@) == 12),
{
    let n = normalize_mac(mac);
    let cs = chars_of(n.as_str());
    let h = hex_digits_lower_of(cs.as_slice());
    proof {
        lemma_hex_count_len(n@);
        lemma_normalize_mac_hex_count(mac@);
    }
    h.len() == 12
}

/// Prefix naming the transport in a discovery id.
pub open spec fn kind_prefix(kind: WorkerKind) -> Seq<char> {
    match kind {
        WorkerKind::Wifi => "wifi"@,
        WorkerKind::Lan => "lan"@,
        WorkerKind::Bluetooth => "bt"@,
        WorkerKind::Usb => "usb"@,
    }
}

/// `<transport>:mac:<normalised mac>` for a stable MAC, empty otherwise.
pub open spec fn spec_transport_mac_id(kind: WorkerKind, mac: Seq<char>) -> Seq<char> {
    if hex_count(mac) != 12 {
        Seq::empty()
    } else {
        kind_prefix(kind) + ":mac:"@ + spec_normalize_mac(mac)
    }
}

fn kind_prefix_str(kind: WorkerKind) -> (r: &'static str)
    ensures
        r@ == kind_prefix(kind),
{
    match kind {
        WorkerKind::Wifi => "wifi",
        WorkerKind::Lan => "lan",
        WorkerKind::Bluetooth => "bt",
        WorkerKind::Usb => "usb",
    }
}

/// Stable discovery id that keeps USB and Wi‑Fi rows distinct for the same board.
pub fn transport_mac_id(kind: WorkerKind, mac: &str) -> (r: String)
    ensures
        r@ == spec_transport_mac_id(kind, mac@),
{
    if !mac_is_stable(mac) {
        return String::new();
    }
    let mut out: Vec<char> = Vec::new();
    extend_str(&mut out, kind_prefix_str(kind));
    extend_str(&mut out, ":mac:");
    let n = normalize_mac(mac);
    extend_str(&mut out, n.as_str());
    string_of(out.as_slice())
}

pub fn mac_worker_id(mac: &str) -> (r: String)
    ensures
        r@ == spec_transport_mac_id(WorkerKind::Usb, mac@),
{
    if !mac_is_stable(mac) {
        String::new()
    } else {
        let mut out: Vec<char> = Vec::new();
        extend_str(&mut out, "usb:mac:");
        let n = normalize_mac(mac);
        extend_str(&mut out, n.as_str());
        proof {
            reveal_strlit("usb:mac:");
            reveal_strlit("usb");
            reveal_strlit(":mac:");
            assert("usb:mac:"@ =~= "usb"@ + ":mac:"@);
        }
        string_of(out.as_slice())
    }
}

/// For one board, the ids of two different transports never collide, so a
/// board seen over USB and over Wi‑Fi is listed twice.
pub proof fn lemma_transport_ids_distinct(k1: WorkerKind, k2: WorkerKind, mac: Seq<char>)
    requires
        k1 != k2,
        hex_count(mac) == 12,
    ensures
        spec_transport_mac_id(k1, mac) != spec_transport_mac_id(k2, mac),
{
    reveal_strlit("wifi");
    reveal_strlit("lan");
    reveal_strlit("bt");
    reveal_strlit("usb");
    let a = spec_transport_mac_id(k1, mac);
    let b = spec_transport_mac_id(k2, mac);
    assert(a[0] == kind_prefix(k1)[0]);
    assert(b[0] == kind_prefix(k2)[0]);
}

/// Normalising a MAC twice changes nothing.
pub proof fn lemma_normalize_mac_idempotent(raw: Seq<char>)
    ensures
        spec_normalize_mac(spec_normalize_mac(raw)) == spec_normalize_mac(raw),
{
    let h = hex_digits_lower(raw);
    lemma_hex_count_len(raw);
    let y = spec_normalize_mac(raw);
    if h.len() == 12 {
        lemma_hex_digits_lower_all(raw);
        lemma_mac_colons_digits(h);
    } else {
        lemma_normalize_mac_hex_count(raw);
        lemma_hex_count_len(y);
        lemma_trim_lower_commute(trim(raw));
        lemma_trim_idempotent(raw);
        assert(lower_seq(lower_seq(trim(raw))) =~= lower_seq(trim(raw)));
    }
}

pub proof fn lemma_trim_lower_commute(s: Seq<char>)
    ensures
        trim(lower_seq(s)) == lower_seq(trim(s)),
{
    lemma_trim_start_lower(s);
    lemma_trim_end_lower(trim_start(s));
}

proof fn lemma_trim_start_lower(s: Seq<char>)
    ensures
        trim_start(lower_seq(s)) == lower_seq(trim_start(s)),
    decreases s.len(),
{
    if s.len() > 0 {
        assert(lower_seq(s).drop_first() =~= lower_seq(s.drop_first()));
        if is_ws(s[0]) {
            lemma_trim_start_lower(s.drop_first());
        }
    }
}

proof fn lemma_trim_end_lower(s: Seq<char>)
    ensures
        trim_end(lower_seq(s)) == lower_seq(trim_end(s)),
    decreases s.len(),
{
    if s.len() > 0 {
        assert(lower_seq(s).drop_last() =~= lower_seq(s.drop_last()));
        if is_ws(s.last()) {
            lemma_trim_end_lower(s.drop_last());
        }
    }
}

} // verus!
