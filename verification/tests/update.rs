use cyd_companion::update::{
    board_supports_live_push, board_supports_wifi_ota, flash_phase_of, flash_upload_is_ota,
    fw_looks_download_mode, verified_message, verify_fail_tip, verify_retry, verify_start_status, VerifyRetry,
    is_wifi_ota_endpoint, update_mode, update_status, UpdateMode,
};
use cyd_companion::workers::{DiscoveredWorker, WorkerKind};

fn found(kind: WorkerKind, endpoint: &str, fw: &str) -> DiscoveredWorker {
    DiscoveredWorker {
        id: String::new(),
        kind,
        endpoint: endpoint.into(),
        mac: String::new(),
        fw: fw.into(),
        detail: String::new(),
        host: String::new(),
        last_seen_ms: 0,
    }
}

#[test]
fn download_mode_tags() {
    assert!(fw_looks_download_mode(" Download-Mode "));
    assert!(fw_looks_download_mode("ROM"));
    assert!(fw_looks_download_mode("esp bootloader"));
    assert!(!fw_looks_download_mode("0.7.1"));
    assert!(!fw_looks_download_mode("romance"));
}

#[test]
fn ota_endpoints() {
    assert!(is_wifi_ota_endpoint("192.168.1.9:19284"));
    assert!(is_wifi_ota_endpoint(" cyd.local:19284 "));
    assert!(!is_wifi_ota_endpoint("COM3"));
    assert!(!is_wifi_ota_endpoint("/dev/ttyUSB0"));
    assert!(!is_wifi_ota_endpoint("cyd.local"));
    assert!(!is_wifi_ota_endpoint(""));
}

#[test]
fn update_modes() {
    assert_eq!(update_mode("COM3", true, false, false), Ok(UpdateMode::LivePush));
    assert_eq!(update_mode("COM3", false, false, true), Ok(UpdateMode::Flash));
    assert_eq!(update_mode("10.0.0.9:19284", false, true, false), Ok(UpdateMode::WifiPush));
    assert_eq!(
        update_mode("COM3", false, true, false),
        Err("Push update (Wi\u{2011}Fi) needs a Wi\u{2011}Fi board (host:19284). Link/scan one on Mine, or pick it above.".to_string())
    );
    assert_eq!(
        update_mode("10.0.0.9:19284", true, false, false),
        Err("This target is Wi\u{2011}Fi — use Push update (Wi\u{2011}Fi). USB Flash (BOOT) needs a COM port.".to_string())
    );
    assert_eq!(
        update_mode("COM3", true, false, true),
        Err("This COM is in download mode (BOOT held / blank) — use Flash (BOOT), then Ready.".to_string())
    );
    assert_eq!(update_status(UpdateMode::Flash, "COM3"), "Flashing board via COM3…");
    assert_eq!(update_status(UpdateMode::LivePush, "COM3"), "Releasing COM3 for push (USB OTA, no BOOT)…");
    assert_eq!(update_status(UpdateMode::WifiPush, "h:1"), "Pushing firmware over Wi\u{2011}Fi to h:1…");
}

#[test]
fn live_push_support() {
    let linked = vec![("COM3".to_string(), "0.7.1".to_string()), ("COM4".to_string(), "download-mode".to_string())];
    let scans = vec![found(WorkerKind::Usb, "COM5", "0.7"), found(WorkerKind::Usb, "COM6", ""), found(WorkerKind::Wifi, "h:19284", "0.7")];
    assert!(board_supports_live_push(&linked, &scans, false, "", "", r"\\.\COM3"));
    assert!(!board_supports_live_push(&linked, &scans, true, "COM4", "0.7", "COM4"));
    assert!(board_supports_live_push(&linked, &scans, false, "", "", "COM5"));
    assert!(!board_supports_live_push(&linked, &scans, false, "", "", "COM6"));
    assert!(board_supports_live_push(&linked, &scans, true, "com7", "0.7", "COM7"));
    assert!(board_supports_live_push(&linked, &scans, false, "", "", "h:19284"));
    assert!(board_supports_wifi_ota(&linked, &scans, "h:19284"));
    assert!(!board_supports_wifi_ota(&linked, &scans, "other:19284"));
}

#[test]
fn flash_lines_name_their_phase() {
    assert_eq!(flash_phase_of("Waiting for READY — hold BOOT"), Some(("Hold BOOT — click Ready", Some(8))));
    assert_eq!(flash_phase_of("Chip connected, MAC 24:0a:c4"), Some(("Chip connected", Some(14))));
    assert_eq!(flash_phase_of("espflash write-bin 0x0 fw.bin"), Some(("Pushing / writing", Some(12))));
    assert_eq!(flash_phase_of("Downloading firmware 412 KB"), Some(("Downloading firmware", Some(6))));
    assert_eq!(flash_phase_of("Wi-Fi OTA to 192.168.1.40"), Some(("Wi‑Fi OTA", Some(12))));
    assert_eq!(flash_phase_of("Board ready"), Some(("Board ready for OTA", Some(15))));
    assert_eq!(flash_phase_of("Upload complete, waiting for ack"), Some(("Waiting for board ACK", Some(85))));
    assert_eq!(flash_phase_of("Update cancelled by user"), Some(("Cancelled", None)));
    assert_eq!(flash_phase_of("Verifying board"), Some(("Verifying board", Some(92))));
    assert_eq!(flash_phase_of("Flash OK — booting"), Some(("Reconnecting", Some(88))));
    assert_eq!(flash_phase_of("Erase region 0x1000"), Some(("Erasing flash", Some(8))));
    assert_eq!(flash_phase_of("hello"), None);
    assert!(flash_upload_is_ota("USB OTA upload 40%"));
    assert!(!flash_upload_is_ota("Writing 40%"));
}

#[test]
fn checking_the_board_after_an_update() {
    assert_eq!(
        verify_start_status("COM5"),
        "Update OK — booting board, then verifying on COM5 (USB)…"
    );
    assert_eq!(
        verify_start_status("192.168.1.40:19284"),
        "Update OK — booting board, then verifying on 192.168.1.40:19284 (Wi‑Fi)…"
    );
    match verify_retry(0, false, true, "no config", "COM5") {
        VerifyRetry::Failed(m) => assert_eq!(m, "Flash wrote OK but verify failed (no config)."),
        other => panic!("{other:?}"),
    }
    match verify_retry(3, false, false, "fw still 0.8.1", "COM5") {
        VerifyRetry::Again { attempts_left, reopen, status } => {
            assert_eq!(attempts_left, 2);
            assert!(reopen);
            assert_eq!(status, "Verify retry: fw still 0.8.1 — opening COM5 (no disconnect bounce)…");
        }
        other => panic!("{other:?}"),
    }
    match verify_retry(3, false, true, "empty fw", "COM5") {
        VerifyRetry::Again { reopen, status, .. } => {
            assert!(!reopen);
            assert_eq!(status, "Verify wait (empty fw) — USB stays linked, waiting for board config…");
        }
        other => panic!("{other:?}"),
    }
    assert!(matches!(verify_retry(3, true, true, "x", "COM5"), VerifyRetry::Failed(_)));
    assert!(verify_fail_tip("Failed.", "10.0.0.9:19284").starts_with("Failed. Wait for the board to rejoin"));
    assert!(verify_fail_tip("Failed.", "COM5").starts_with("Failed. Flash image is on the board"));
    assert_eq!(verified_message(""), "Update verified — board responded.");
    assert_eq!(verified_message("0.8.175"), "Update verified · board fw 0.8.175");
}
