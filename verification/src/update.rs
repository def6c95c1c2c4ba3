//! Firmware updates of a board: which link a target is, whether the board
//! can take a live push, and which kind of update a request becomes.

use vstd::prelude::*;
use crate::discovery::{worker_view, WorkerView};
use crate::text::{
    chars_of, contains, contains_str, extend_chars, extend_str, lower_chars, lower_seq, starts_with,
    starts_with_str, string_of, trim, trimmed, upper_chars, upper_seq,
};
use crate::workers::{
    is_usb_serial_port, port_names_match, spec_is_usb_serial_port, spec_normalize_port_name,
    DiscoveredWorker, WorkerKind,
};

verus! {

/// A firmware tag that means the ROM bootloader (BOOT held / blank board).
pub open spec fn spec_fw_looks_download_mode(fw: Seq<char>) -> bool {
    let l = lower_seq(trim(fw));
    l == "download-mode"@ || contains(l, "download"@) || contains(l, "bootloader"@) || l == "rom"@
}

pub fn fw_looks_download_mode(fw: &str) -> (r: bool)
    ensures
        r == spec_fw_looks_download_mode(fw@),
{
    let t = trimmed(fw);
    let l = lower_chars(t.as_slice());
    crate::text::eq_str(l.as_slice(), "download-mode") || contains_str(l.as_slice(), "download")
        || contains_str(l.as_slice(), "bootloader") || crate::text::eq_str(l.as_slice(), "rom")
}

/// A `host:port` Wi‑Fi endpoint that can take a `cmp ota` push (not a COM
/// port or a `/dev/` path).
pub open spec fn spec_is_wifi_ota_endpoint(name: Seq<char>) -> bool {
    let n = trim(name);
    let u = upper_seq(n);
    n.len() > 0 && !spec_is_usb_serial_port(n) && !starts_with(u, "COM"@) && !starts_with(
        u,
        "/DEV/"@,
    ) && n.contains(':')
}

pub fn is_wifi_ota_endpoint(name: &str) -> (r: bool)
    ensures
        r == spec_is_wifi_ota_endpoint(name@),
{
    let n = trimmed(name);
    if n.len() == 0 {
        return false;
    }
    let ns = string_of(n.as_slice());
    if is_usb_serial_port(ns.as_str()) {
        return false;
    }
    let u = upper_chars(n.as_slice());
    if starts_with_str(u.as_slice(), "COM") || starts_with_str(u.as_slice(), "/DEV/") {
        return false;
    }
    crate::text::find_char(n.as_slice(), ':').is_some()
}

/// A linked board on `port` (either spelling) that is in download mode.
pub open spec fn spec_linked_download_mode(linked: Seq<(String, String)>, port: Seq<char>) -> bool {
    exists|k: int|
        0 <= k < linked.len() && spec_normalize_port_name(#[trigger] linked[k].0@)
            == spec_normalize_port_name(port) && spec_fw_looks_download_mode(linked[k].1@)
}

/// A linked board on `port` (either spelling) with companion firmware.
pub open spec fn spec_linked_live(linked: Seq<(String, String)>, port: Seq<char>) -> bool {
    exists|k: int|
        0 <= k < linked.len() && spec_normalize_port_name(#[trigger] linked[k].0@)
            == spec_normalize_port_name(port) && !spec_fw_looks_download_mode(linked[k].1@)
}

/// Scans `linked` (endpoint, firmware) for a board on `port`; `live` asks for
/// companion firmware, otherwise for download mode.
fn linked_with(linked: &Vec<(String, String)>, port: &str, live: bool) -> (r: bool)
    ensures
        live ==> r == spec_linked_live(linked@, port@),
        !live ==> r == spec_linked_download_mode(linked@, port@),
{
    let mut i: usize = 0;
    while i < linked.len()
        invariant
            i <= linked@.len(),
            forall|k: int|
                0 <= k < i ==> !(spec_normalize_port_name(#[trigger] linked@[k].0@)
                    == spec_normalize_port_name(port@) && spec_fw_looks_download_mode(linked@[k].1@)
                    != live),
        decreases linked@.len() - i,
    {
        let (e, fw) = &linked[i];
        if port_names_match(e.as_str(), port) && fw_looks_download_mode(fw.as_str()) != live {
            return true;
        }
        i = i + 1;
    }
    false
}

/// A scanned board of `kind` at `endpoint` whose firmware is known and live.
pub open spec fn spec_scanned_live(found: Seq<DiscoveredWorker>, kind: WorkerKind, endpoint: Seq<char>, need_fw: bool) -> bool {
    exists|k: int|
        0 <= k < found.len() && (#[trigger] found[k]).kind == kind && spec_normalize_port_name(
            found[k].endpoint@,
        ) == spec_normalize_port_name(endpoint) && (!need_fw || found[k].fw@.len() > 0)
            && !spec_fw_looks_download_mode(found[k].fw@)
}

fn scanned_live(found: &Vec<DiscoveredWorker>, kind: WorkerKind, endpoint: &str, need_fw: bool) -> (r: bool)
    ensures
        r == spec_scanned_live(found@, kind, endpoint@, need_fw),
{
    let mut i: usize = 0;
    while i < found.len()
        invariant
            i <= found@.len(),
            forall|k: int|
                0 <= k < i ==> !((#[trigger] found@[k]).kind == kind && spec_normalize_port_name(
                    found@[k].endpoint@,
                ) == spec_normalize_port_name(endpoint@) && (!need_fw || found@[k].fw@.len() > 0)
                    && !spec_fw_looks_download_mode(found@[k].fw@)),
        decreases found@.len() - i,
    {
        let w = &found[i];
        if w.kind == kind && port_names_match(w.endpoint.as_str(), endpoint) && (!need_fw
            || !w.fw.as_str().is_empty()) && !fw_looks_download_mode(w.fw.as_str()) {
            return true;
        }
        i = i + 1;
    }
    false
}

/// A Wi‑Fi board answering `cmp` (linked, or seen by a scan) can take a
/// `cmp ota` push.
pub open spec fn spec_supports_wifi_ota(linked: Seq<(String, String)>, found: Seq<DiscoveredWorker>, endpoint: Seq<char>) -> bool {
    spec_is_wifi_ota_endpoint(endpoint) && (spec_linked_live(linked, endpoint) || spec_scanned_live(
        found,
        WorkerKind::Wifi,
        endpoint,
        false,
    ))
}

pub fn board_supports_wifi_ota(linked: &Vec<(String, String)>, found: &Vec<DiscoveredWorker>, endpoint: &str) -> (r: bool)
    ensures
        r == spec_supports_wifi_ota(linked@, found@, endpoint@),
{
    if !is_wifi_ota_endpoint(endpoint) {
        return false;
    }
    linked_with(linked, endpoint, true) || scanned_live(found, WorkerKind::Wifi, endpoint, false)
}

/// The board on `port` likely runs companion firmware that answers `cmp`, so
/// an update can be pushed without BOOT: a Wi‑Fi board that takes OTA; else
/// not in download mode and either linked, the open USB session, or found by
/// a scan with a known firmware.
pub open spec fn spec_supports_live_push(
    linked: Seq<(String, String)>,
    found: Seq<DiscoveredWorker>,
    usb_open: bool,
    com_port: Seq<char>,
    fw_label: Seq<char>,
    port: Seq<char>,
) -> bool {
    if spec_is_wifi_ota_endpoint(port) {
        spec_supports_wifi_ota(linked, found, port)
    } else if spec_linked_download_mode(linked, port) {
        false
    } else {
        spec_linked_live(linked, port) || (usb_open && spec_normalize_port_name(com_port)
            == spec_normalize_port_name(port) && !spec_fw_looks_download_mode(fw_label))
            || spec_scanned_live(found, WorkerKind::Usb, port, true)
    }
}

pub fn board_supports_live_push(
    linked: &Vec<(String, String)>,
    found: &Vec<DiscoveredWorker>,
    usb_open: bool,
    com_port: &str,
    fw_label: &str,
    port: &str,
) -> (r: bool)
    ensures
        r == spec_supports_live_push(linked@, found@, usb_open, com_port@, fw_label@, port@),
{
    if is_wifi_ota_endpoint(port) {
        return board_supports_wifi_ota(linked, found, port);
    }
    if linked_with(linked, port, false) {
        return false;
    }
    linked_with(linked, port, true) || (usb_open && port_names_match(com_port, port)
        && !fw_looks_download_mode(fw_label)) || scanned_live(found, WorkerKind::Usb, port, true)
}

/// How an update request is carried out.
#[derive(Clone, Copy, Debug, PartialEq, Eq, Structural)]
pub enum UpdateMode {
    /// `cmp ota` over Wi‑Fi TCP.
    WifiPush,
    /// USB OTA without BOOT.
    LivePush,
    /// ROM flash (BOOT held, then Ready).
    Flash,
}

pub open spec fn spec_update_mode(
    port: Seq<char>,
    prefer_live_push: bool,
    wifi_ota: bool,
    download_mode: bool,
) -> Result<UpdateMode, Seq<char>> {
    let wifi_target = spec_is_wifi_ota_endpoint(port);
    if wifi_ota && !wifi_target {
        Err(
            "Push update (Wi‑Fi) needs a Wi‑Fi board (host:19284). Link/scan one on Mine, or pick it above."@,
        )
    } else if !wifi_ota && wifi_target {
        Err("This target is Wi‑Fi — use Push update (Wi‑Fi). USB Flash (BOOT) needs a COM port."@)
    } else if prefer_live_push && !wifi_ota && download_mode {
        Err("This COM is in download mode (BOOT held / blank) — use Flash (BOOT), then Ready."@)
    } else if wifi_ota {
        Ok(UpdateMode::WifiPush)
    } else if prefer_live_push {
        Ok(UpdateMode::LivePush)
    } else {
        Ok(UpdateMode::Flash)
    }
}

fn text_of(s: &str) -> (r: String)
    ensures
        r@ == s@,
{
    string_of(chars_of(s).as_slice())
}

/// Checks an update request against its target: the Wi‑Fi push needs a
/// Wi‑Fi board, USB needs a COM port, and a live push refuses a board known
/// to be in download mode.
pub fn update_mode(port: &str, prefer_live_push: bool, wifi_ota: bool, download_mode: bool) -> (r:
    Result<UpdateMode, String>)
    ensures
        match r {
            Ok(m) => spec_update_mode(port@, prefer_live_push, wifi_ota, download_mode) == Ok::<
                UpdateMode,
                Seq<char>,
            >(m),
            Err(e) => spec_update_mode(port@, prefer_live_push, wifi_ota, download_mode) == Err::<
                UpdateMode,
                Seq<char>,
            >(e@),
        },
{
    let wifi_target = is_wifi_ota_endpoint(port);
    if wifi_ota && !wifi_target {
        Err(
            text_of(
                "Push update (Wi‑Fi) needs a Wi‑Fi board (host:19284). Link/scan one on Mine, or pick it above.",
            ),
        )
    } else if !wifi_ota && wifi_target {
        Err(text_of("This target is Wi‑Fi — use Push update (Wi‑Fi). USB Flash (BOOT) needs a COM port."))
    } else if prefer_live_push && !wifi_ota && download_mode {
        Err(text_of("This COM is in download mode (BOOT held / blank) — use Flash (BOOT), then Ready."))
    } else if wifi_ota {
        Ok(UpdateMode::WifiPush)
    } else if prefer_live_push {
        Ok(UpdateMode::LivePush)
    } else {
        Ok(UpdateMode::Flash)
    }
}

/// The status line shown when an update starts.
pub open spec fn spec_update_status(mode: UpdateMode, port: Seq<char>) -> Seq<char> {
    match mode {
        UpdateMode::WifiPush => "Pushing firmware over Wi‑Fi to "@ + port + "…"@,
        UpdateMode::LivePush => "Releasing "@ + port + " for push (USB OTA, no BOOT)…"@,
        UpdateMode::Flash => "Flashing board via "@ + port + "…"@,
    }
}

pub fn update_status(mode: UpdateMode, port: &str) -> (r: String)
    ensures
        r@ == spec_update_status(mode, port@),
{
    let mut out: Vec<char> = Vec::new();
    match mode {
        UpdateMode::WifiPush => {
            extend_str(&mut out, "Pushing firmware over Wi‑Fi to ");
            extend_str(&mut out, port);
            extend_str(&mut out, "…");
        },
        UpdateMode::LivePush => {
            extend_str(&mut out, "Releasing ");
            extend_str(&mut out, port);
            extend_str(&mut out, " for push (USB OTA, no BOOT)…");
        },
        UpdateMode::Flash => {
            extend_str(&mut out, "Flashing board via ");
            extend_str(&mut out, port);
            extend_str(&mut out, "…");
        },
    }
    string_of(out.as_slice())
}


// ----- flash progress lines -----

/// A progress line of an upload that carries a percentage belongs to an OTA
/// push (its band of the bar is 15–85 %) rather than to a flash tool write.
pub open spec fn spec_flash_upload_is_ota(line: Seq<char>) -> bool {
    let l = lower_seq(line);
    contains(l, "upload"@) && contains(l, "ota"@)
}

pub fn flash_upload_is_ota(line: &str) -> (r: bool)
    ensures
        r == spec_flash_upload_is_ota(line@),
{
    let c = chars_of(line);
    let l = lower_chars(c.as_slice());
    contains_str(l.as_slice(), "upload") && contains_str(l.as_slice(), "ota")
}

/// The update phase a flash or OTA progress line (without a percentage)
/// announces, with the floor in percent the progress bar rises to; `None` as
/// floor keeps the bar where it is. `None` for a line that names no phase.
pub open spec fn spec_flash_phase(l: Seq<char>) -> Option<(Seq<char>, Option<u8>)> {
    if contains(l, "waiting for ready"@) || contains(l, "hold boot"@) || contains(l, "click ready"@)
        || contains(l, "auto-reset push stalled"@) || contains(l, "silent push stalled"@) {
        Some(("Hold BOOT — click Ready"@, Some(8u8)))
    } else if contains(l, "ready — writing"@) || contains(l, "writing now"@) || contains(
        l,
        "keep boot held until writing"@,
    ) {
        Some(("Writing after Ready"@, Some(12u8)))
    } else if contains(l, "chip seen"@) || (contains(l, "mac"@) && contains(l, "connect"@)) || contains(
        l,
        "chip connected"@,
    ) {
        Some(("Chip connected"@, Some(14u8)))
    } else if contains(l, "write-bin"@) || contains(l, "write_flash"@) || contains(l, "writing firmware"@)
        || contains(l, "writing after"@) || contains(l, "patient write"@) || contains(l, "auto-reset"@)
        || contains(l, "push update round"@) {
        Some(("Pushing / writing"@, Some(12u8)))
    } else if contains(l, "connecting to chip"@) || contains(l, "espflash write"@) || contains(
        l,
        "esptool write"@,
    ) {
        Some(("Connecting to chip"@, Some(10u8)))
    } else if contains(l, "released"@) || contains(l, "releasing"@) || contains(l, "waiting for com"@) {
        Some(("Releasing USB"@, Some(5u8)))
    } else if contains(l, "staging firmware"@) || contains(l, "flash staging"@) {
        Some(("Staging firmware"@, Some(7u8)))
    } else if contains(l, "espflash"@) && (contains(l, "found"@) || contains(l, "download"@)) {
        Some(("Preparing flash tool"@, Some(8u8)))
    } else if contains(l, "download"@) && (contains(l, "firmware"@) || contains(l, "kb"@)) {
        Some(("Downloading firmware"@, Some(6u8)))
    } else if contains(l, "flash budget"@) {
        Some(("Preparing flash"@, Some(9u8)))
    } else if contains(l, "wifi ota"@) || contains(l, "wi‑fi ota"@) || contains(l, "wi-fi ota"@) {
        Some(("Wi‑Fi OTA"@, Some(12u8)))
    } else if contains(l, "usb ota"@) || contains(l, "live push — usb"@) || contains(l, "no boot, no hold"@) {
        Some(("USB OTA (no hold)"@, Some(12u8)))
    } else if contains(l, "board ready"@) {
        Some(("Board ready for OTA"@, Some(15u8)))
    } else if contains(l, "waiting for board ack"@) || (contains(l, "upload complete"@) && contains(
        l,
        "waiting"@,
    )) || (contains(l, "no ota ack"@) && contains(l, "82%"@)) {
        Some(("Waiting for board ACK"@, Some(85u8)))
    } else if contains(l, "pushed over wi"@) || contains(l, "pushed over usb"@) || contains(l, "usb ota pushed"@)
        || contains(l, "ota push complete"@) || contains(l, "soft-verified"@) {
        Some(("OTA push complete"@, Some(88u8)))
    } else if contains(l, "cancelled"@) {
        Some(("Cancelled"@, None))
    } else if contains(l, "verif"@) || contains(l, "reading board config"@) || contains(
        l,
        "usb linked after flash"@,
    ) {
        Some(("Verifying board"@, Some(92u8)))
    } else if contains(l, "flash ok"@) || contains(l, "booting board"@) || contains(l, "reconnecting"@)
        || contains(l, "reconnect"@) {
        Some(("Reconnecting"@, Some(88u8)))
    } else if contains(l, "complete"@) && contains(l, "espflash"@) {
        Some(("Write complete"@, Some(86u8)))
    } else if contains(l, "erase"@) {
        Some(("Erasing flash"@, Some(8u8)))
    } else {
        None
    }
}

fn has(l: &[char], p: &str) -> (r: bool)
    ensures
        r == contains(l@, p@),
{
    contains_str(l, p)
}

/// Classifies a progress line of a firmware update (ASCII case ignored).
pub fn flash_phase_of(line: &str) -> (r: Option<(&'static str, Option<u8>)>)
    ensures
        match r {
            Some((p, f)) => spec_flash_phase(lower_seq(line@)) == Some((p@, f)),
            None => spec_flash_phase(lower_seq(line@)) is None,
        },
{
    let c = chars_of(line);
    let lv = lower_chars(c.as_slice());
    let l = lv.as_slice();
    if has(l, "waiting for ready") || has(l, "hold boot") || has(l, "click ready") || has(
        l,
        "auto-reset push stalled",
    ) || has(l, "silent push stalled") {
        Some(("Hold BOOT — click Ready", Some(8u8)))
    } else if has(l, "ready — writing") || has(l, "writing now") || has(l, "keep boot held until writing") {
        Some(("Writing after Ready", Some(12u8)))
    } else if has(l, "chip seen") || (has(l, "mac") && has(l, "connect")) || has(l, "chip connected") {
        Some(("Chip connected", Some(14u8)))
    } else if has(l, "write-bin") || has(l, "write_flash") || has(l, "writing firmware") || has(
        l,
        "writing after",
    ) || has(l, "patient write") || has(l, "auto-reset") || has(l, "push update round") {
        Some(("Pushing / writing", Some(12u8)))
    } else if has(l, "connecting to chip") || has(l, "espflash write") || has(l, "esptool write") {
        Some(("Connecting to chip", Some(10u8)))
    } else if has(l, "released") || has(l, "releasing") || has(l, "waiting for com") {
        Some(("Releasing USB", Some(5u8)))
    } else if has(l, "staging firmware") || has(l, "flash staging") {
        Some(("Staging firmware", Some(7u8)))
    } else if has(l, "espflash") && (has(l, "found") || has(l, "download")) {
        Some(("Preparing flash tool", Some(8u8)))
    } else if has(l, "download") && (has(l, "firmware") || has(l, "kb")) {
        Some(("Downloading firmware", Some(6u8)))
    } else if has(l, "flash budget") {
        Some(("Preparing flash", Some(9u8)))
    } else if has(l, "wifi ota") || has(l, "wi‑fi ota") || has(l, "wi-fi ota") {
        Some(("Wi‑Fi OTA", Some(12u8)))
    } else if has(l, "usb ota") || has(l, "live push — usb") || has(l, "no boot, no hold") {
        Some(("USB OTA (no hold)", Some(12u8)))
    } else if has(l, "board ready") {
        Some(("Board ready for OTA", Some(15u8)))
    } else if has(l, "waiting for board ack") || (has(l, "upload complete") && has(l, "waiting")) || (has(
        l,
        "no ota ack",
    ) && has(l, "82%")) {
        Some(("Waiting for board ACK", Some(85u8)))
    } else if has(l, "pushed over wi") || has(l, "pushed over usb") || has(l, "usb ota pushed") || has(
        l,
        "ota push complete",
    ) || has(l, "soft-verified") {
        Some(("OTA push complete", Some(88u8)))
    } else if has(l, "cancelled") {
        Some(("Cancelled", None))
    } else if has(l, "verif") || has(l, "reading board config") || has(l, "usb linked after flash") {
        Some(("Verifying board", Some(92u8)))
    } else if has(l, "flash ok") || has(l, "booting board") || has(l, "reconnecting") || has(l, "reconnect") {
        Some(("Reconnecting", Some(88u8)))
    } else if has(l, "complete") && has(l, "espflash") {
        Some(("Write complete", Some(86u8)))
    } else if has(l, "erase") {
        Some(("Erasing flash", Some(8u8)))
    } else {
        None
    }
}

// ----- checking the board after an update -----

/// The status line when the check of a freshly written board starts on `port`.
pub open spec fn spec_verify_start_status(port: Seq<char>) -> Seq<char> {
    "Update OK — booting board, then verifying on "@ + port + " ("@ + (if spec_is_wifi_ota_endpoint(port) {
        "Wi‑Fi"@
    } else {
        "USB"@
    }) + ")…"@
}

pub fn verify_start_status(port: &str) -> (r: String)
    ensures
        r@ == spec_verify_start_status(port@),
{
    let mut out = chars_of("Update OK — booting board, then verifying on ");
    extend_str(&mut out, port);
    extend_str(&mut out, " (");
    if is_wifi_ota_endpoint(port) {
        extend_str(&mut out, "Wi‑Fi");
    } else {
        extend_str(&mut out, "USB");
    }
    extend_str(&mut out, ")…");
    string_of(out.as_slice())
}

/// What a failed check of the written board comes to.
#[derive(Debug)]
pub enum VerifyRetry {
    /// No attempt or time left: fail with this reason.
    Failed(String),
    /// Try again with one attempt less; `reopen` when the board link must be
    /// opened again (it is not linked), with this status line.
    Again { attempts_left: u8, reopen: bool, status: String },
}

pub open spec fn verify_retry_ok(
    r: VerifyRetry,
    attempts_left: u8,
    past_deadline: bool,
    linked: bool,
    why: Seq<char>,
    port: Seq<char>,
) -> bool {
    if attempts_left == 0 || past_deadline {
        r matches VerifyRetry::Failed(m) && m@ == "Flash wrote OK but verify failed ("@ + why + ")."@
    } else {
        r matches VerifyRetry::Again { attempts_left: n, reopen, status } && n == attempts_left - 1
            && reopen == !linked && status@ == if linked {
            "Verify wait ("@ + why + ") — USB stays linked, waiting for board config…"@
        } else {
            "Verify retry: "@ + why + " — opening "@ + port + " (no disconnect bounce)…"@
        }
    }
}

pub fn verify_retry(attempts_left: u8, past_deadline: bool, linked: bool, why: &str, port: &str) -> (r: VerifyRetry)
    ensures
        verify_retry_ok(r, attempts_left, past_deadline, linked, why@, port@),
{
    let mut out: Vec<char> = Vec::new();
    if attempts_left == 0 || past_deadline {
        extend_str(&mut out, "Flash wrote OK but verify failed (");
        extend_str(&mut out, why);
        extend_str(&mut out, ").");
        return VerifyRetry::Failed(string_of(out.as_slice()));
    }
    if linked {
        extend_str(&mut out, "Verify wait (");
        extend_str(&mut out, why);
        extend_str(&mut out, ") — USB stays linked, waiting for board config…");
    } else {
        extend_str(&mut out, "Verify retry: ");
        extend_str(&mut out, why);
        extend_str(&mut out, " — opening ");
        extend_str(&mut out, port);
        extend_str(&mut out, " (no disconnect bounce)…");
    }
    VerifyRetry::Again { attempts_left: attempts_left - 1, reopen: !linked, status: string_of(out.as_slice()) }
}

/// The message when the check fails: what to do next depends on the link
/// the board was updated over.
pub open spec fn spec_verify_fail_tip(reason: Seq<char>, port: Seq<char>) -> Seq<char> {
    if spec_is_wifi_ota_endpoint(port) {
        reason + " Wait for the board to rejoin Wi‑Fi, then Find workers / Connect and retry Push update (Wi‑Fi)."@
    } else {
        reason
            + " Flash image is on the board — wait a few seconds, unplug/replug USB if needed, then Connect. Do not re-flash unless the board stays silent."@
    }
}

pub fn verify_fail_tip(reason: &str, port: &str) -> (r: String)
    ensures
        r@ == spec_verify_fail_tip(reason@, port@),
{
    let mut out = chars_of(reason);
    if is_wifi_ota_endpoint(port) {
        extend_str(&mut out, " Wait for the board to rejoin Wi‑Fi, then Find workers / Connect and retry Push update (Wi‑Fi).");
    } else {
        extend_str(
            &mut out,
            " Flash image is on the board — wait a few seconds, unplug/replug USB if needed, then Connect. Do not re-flash unless the board stays silent.",
        );
    }
    string_of(out.as_slice())
}

/// The message when the board answers after its update.
pub open spec fn spec_verified_message(board_fw: Seq<char>) -> Seq<char> {
    if board_fw.len() == 0 {
        "Update verified — board responded."@
    } else {
        "Update verified · board fw "@ + board_fw
    }
}

pub fn verified_message(board_fw: &str) -> (r: String)
    ensures
        r@ == spec_verified_message(board_fw@),
{
    let f = chars_of(board_fw);
    if f.len() == 0 {
        string_of(chars_of("Update verified — board responded.").as_slice())
    } else {
        let mut out = chars_of("Update verified · board fw ");
        extend_chars(&mut out, f.as_slice());
        string_of(out.as_slice())
    }
}

} // verus!
