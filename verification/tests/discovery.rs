use cyd_companion::discovery::{
    as_bluetooth, find_config_json, find_pong_line, lan_beacon_message, merge_discovered,
    not_skipped, parse_beacon, parse_board_beacon, pong_mac, read_probe_config, sanitize,
    setup_pushed, setup_target_choices, sort_by_endpoint, sta_join, sta_wait, SetupPushed, StaWait, usb_probe_worker, wifi_probe_worker, StaJoin,
};
use cyd_companion::json::{Json, JsonValue};
use cyd_companion::workers::{DiscoveredWorker, WorkerKind};

fn cfg(members: Vec<(&str, &str)>) -> Json {
    Json {
        value: JsonValue::Object(
            members
                .iter()
                .map(|(k, v)| (k.to_string(), Json { value: JsonValue::Str(v.to_string()), text: format!("\"{v}\"") }))
                .collect(),
        ),
        text: String::new(),
    }
}

fn worker(id: &str, kind: WorkerKind, endpoint: &str, mac: &str) -> DiscoveredWorker {
    DiscoveredWorker {
        id: id.into(),
        kind,
        endpoint: endpoint.into(),
        mac: mac.into(),
        fw: String::new(),
        detail: String::new(),
        host: String::new(),
        last_seen_ms: 0,
    }
}

#[test]
fn pong_and_config() {
    assert_eq!(find_pong_line("boot\r\n  CMP ok pong mac=AABBCCDDEEFF \r\n"), Some("CMP ok pong mac=AABBCCDDEEFF".to_string()));
    assert_eq!(find_pong_line("cmpack PING\n"), Some("cmpack PING".to_string()));
    assert_eq!(find_pong_line("CMPACK pingx\n"), None);
    assert_eq!(pong_mac("CMP ok mac= aabbccddee01 "), "aa:bb:cc:dd:ee:01");
    assert_eq!(pong_mac("CMP ok"), "");
    assert_eq!(
        find_config_json("CMPCONFIG {\"fw\":\"1\"}\nnoise\n{\"fw\":\"2\"}\n"),
        Some("{\"fw\":\"2\"}".to_string())
    );
    assert_eq!(find_config_json("CMPCONFIG {\"fw\":\"1\"}\n"), Some("{\"fw\":\"1\"}".to_string()));
    assert_eq!(find_config_json("nothing\n"), None);
    let (fw, mode, mac) = read_probe_config(&cfg(vec![("fw", "0.7.1"), ("mode", "sta"), ("mac", "AABBCCDDEE02")]), "x".into());
    assert_eq!((fw.as_str(), mode.as_str(), mac.as_str()), ("0.7.1", "sta", "aa:bb:cc:dd:ee:02"));
    let (_, _, mac) = read_probe_config(&cfg(vec![("fw", "0.7.1")]), "aa:bb:cc:dd:ee:03".into());
    assert_eq!(mac, "aa:bb:cc:dd:ee:03");
}

#[test]
fn probe_rows() {
    let w = usb_probe_worker("COM3", 460_800, "aa:bb:cc:dd:ee:01".into(), "0.7.1".into(), "sta", 5);
    assert_eq!(w.id, "usb:mac:aa:bb:cc:dd:ee:01");
    assert_eq!(w.detail, "fw 0.7.1 · sta @ 460800");
    assert_eq!(w.host, "local");
    assert_eq!(w.last_seen_ms, 5);
    let w = usb_probe_worker("COM3", 115_200, String::new(), String::new(), "", 0);
    assert_eq!(w.id, "usb:COM3");
    assert_eq!(w.detail, "CYD companion USB · pong @ 115200");
    let w2 = usb_probe_worker("COM4", 115_200, String::new(), "0.6".into(), "", 0);
    assert_eq!(w2.detail, "fw 0.6 @ 115200");
    let bt = as_bluetooth(w);
    assert_eq!(bt.kind, WorkerKind::Bluetooth);
    assert_eq!(bt.id, "bt:COM3");
    assert_eq!(bt.detail, "Bluetooth serial · CYD companion USB · pong @ 115200");
    let wf = wifi_probe_worker("192.168.1.9:19284", String::new(), String::new(), 1);
    assert_eq!(wf.id, "wifi:192.168.1.9:19284");
    assert_eq!(wf.detail, "Wi\u{2011}Fi TCP :19284");
    assert_eq!(wf.host, "192.168.1.9");
    let wf = wifi_probe_worker("cyd.local:19284", "aa:bb:cc:dd:ee:01".into(), "0.7".into(), 1);
    assert_eq!(wf.id, "wifi:mac:aa:bb:cc:dd:ee:01");
    assert_eq!(wf.detail, "fw 0.7 · Wi\u{2011}Fi TCP");
}

#[test]
fn board_beacons() {
    let w = parse_board_beacon(
        " CYDBOARD|mac=AABBCCDDEEFF|fw=0.7.1|tcp=19300|ip=|ap=Njordr-1A2B|mode=ap\n",
        "10.88.88.1",
        42,
    )
    .expect("beacon");
    assert_eq!(w.endpoint, "10.88.88.1:19300");
    assert_eq!(w.id, "wifi:mac:aa:bb:cc:dd:ee:ff");
    assert_eq!(w.detail, "fw 0.7.1 · Wi\u{2011}Fi ap · AP Njordr-1A2B");
    assert_eq!(w.host, "10.88.88.1");
    assert_eq!(w.kind, WorkerKind::Wifi);
    let w = parse_board_beacon("CYDBOARD|tcp=bad|ip=192.168.1.7", "192.168.1.200", 0).unwrap();
    assert_eq!(w.endpoint, "192.168.1.7:19284");
    assert_eq!(w.id, "wifi:192.168.1.7:19284");
    assert_eq!(w.detail, "Wi\u{2011}Fi CYD board");
    assert!(parse_board_beacon("HELLO|x=1", "1.2.3.4", 0).is_none());
}

#[test]
fn companion_beacons() {
    let msg = lan_beacon_message(
        "0.9.0",
        "My PC (home)",
        &vec![
            ("COM3".to_string(), "0.7.1".to_string(), "aa:bb:cc:dd:ee:01".to_string()),
            ("COM4".to_string(), String::new(), String::new()),
        ],
    );
    assert_eq!(msg, "CYDCOMPANION|v=0.9.0|host=My_PC__home_|boards=COM3@0.7.1@aa:bb:cc:dd:ee:01,COM4");
    let w = parse_beacon(&msg, "192.168.1.50", 9).expect("peer");
    assert_eq!(w.id, "lan:192.168.1.50:My_PC__home_");
    assert_eq!(w.endpoint, "192.168.1.50:19283");
    assert_eq!(w.fw, "0.7.1");
    assert_eq!(w.mac, "aa:bb:cc:dd:ee:01");
    assert_eq!(w.detail, "Companion 0.9.0 · boards COM3@0.7.1@aa:bb:cc:dd:ee:01,COM4");
    let w = parse_beacon("CYDCOMPANION|v=1", "10.0.0.2", 0).unwrap();
    assert_eq!(w.host, "10.0.0.2");
    assert_eq!(w.detail, "Companion 1 · no USB boards advertised");
    assert_eq!(sanitize(&"é".repeat(60)), "_".repeat(48));
}

#[test]
fn worker_lists() {
    let list = vec![
        worker("usb:COM9", WorkerKind::Usb, "COM9", ""),
        worker("wifi:b", WorkerKind::Wifi, "b:19284", "aa:bb:cc:dd:ee:01"),
    ];
    let sorted = sort_by_endpoint(vec![list[1].clone(), list[0].clone()]);
    assert_eq!(sorted.iter().map(|w| w.endpoint.as_str()).collect::<Vec<_>>(), vec!["COM9", "b:19284"]);
    // Same Wi-Fi board seen at a new address: replaced, not added.
    let moved = worker("wifi:c", WorkerKind::Wifi, "a:19284", "AABBCCDDEE01");
    let merged = merge_discovered(list.clone(), moved.clone());
    assert_eq!(merged.len(), 2);
    assert_eq!(merged[0].endpoint, "COM9");
    assert_eq!(merged[1].endpoint, "a:19284");
    // The same board over USB is its own row.
    let usb = worker("usb:COM3", WorkerKind::Usb, "COM3", "aa:bb:cc:dd:ee:01");
    let merged = merge_discovered(merged, usb.clone());
    assert_eq!(merged.len(), 3);
    // Hearing it again changes nothing.
    let again = merge_discovered(merged.clone(), usb);
    assert_eq!(
        again.iter().map(|w| w.id.clone()).collect::<Vec<_>>(),
        merged.iter().map(|w| w.id.clone()).collect::<Vec<_>>()
    );
    assert!(not_skipped(&vec!["COM3".to_string()], "COM4"));
    assert!(!not_skipped(&vec![r"\\.\COM3".to_string()], "com3"));
}

fn beacon(endpoint: &str, mac: &str, detail: &str, host: &str) -> DiscoveredWorker {
    DiscoveredWorker {
        id: String::new(),
        kind: WorkerKind::Wifi,
        endpoint: endpoint.to_string(),
        mac: mac.to_string(),
        fw: String::new(),
        detail: detail.to_string(),
        host: host.to_string(),
        last_seen_ms: 0,
    }
}

#[test]
fn board_seen_on_home_network_after_setup() {
    let ap = "10.88.88.1:19284";
    let mac = "AA:BB:CC:00:11:22";
    // Still the setup access point: keep waiting.
    let found = vec![beacon(ap, mac, "setup SoftAP", "10.88.88.1")];
    assert!(matches!(sta_join(ap, mac, &found, &Vec::new()), StaJoin::Waiting));
    // The same board (by MAC) beacons from the home LAN.
    let found = vec![
        beacon("192.168.1.9:19284", "11:22:33:44:55:66", "Wi-Fi STA", "192.168.1.9"),
        beacon("192.168.1.40:19284", "aabbcc001122", "Wi-Fi STA ok", "192.168.1.40"),
    ];
    match sta_join(ap, mac, &found, &Vec::new()) {
        StaJoin::Beacon { index, ip } => {
            assert_eq!(index, 1);
            assert_eq!(ip, "192.168.1.40");
        }
        other => panic!("{other:?}"),
    }
    // A linked Wi-Fi worker of the board on another host.
    let linked = vec![
        ("COM5".to_string(), mac.to_string()),
        ("192.168.1.41:19284".to_string(), mac.to_string()),
    ];
    match sta_join(ap, mac, &Vec::new(), &linked) {
        StaJoin::Linked { index, ip } => {
            assert_eq!(index, 1);
            assert_eq!(ip, "192.168.1.41");
        }
        other => panic!("{other:?}"),
    }
}

#[test]
fn setup_push_targets_in_order() {
    let linked = vec![("COM5".to_string(), "aa:bb:cc:dd:ee:01".to_string())];
    let mut usb_again = beacon("COM5", "", "fw 0.8", "");
    usb_again.kind = WorkerKind::Usb;
    let mut peer = beacon("192.168.1.50:19283", "", "Companion", "192.168.1.50");
    peer.kind = WorkerKind::Lan;
    let found = vec![
        beacon("10.88.88.1:19284", "", "setup SoftAP", "10.88.88.1"),
        beacon("192.168.1.9:19284", "11:22:33:44:55:66", "Wi-Fi STA", "192.168.1.9"),
        usb_again,
        beacon("192.168.1.7:19284", "AABBCCDDEE01", "Wi-Fi STA", "192.168.1.7"),
        peer,
    ];
    let rows = setup_target_choices(&linked, &found, "");
    let eps: Vec<&str> = rows.iter().map(|r| r.0.as_str()).collect();
    assert_eq!(eps, vec!["COM5", "192.168.1.9:19284", "10.88.88.1:19284"]);
    assert_eq!(rows[0].1, "COM5 · aa:bb:cc:dd:ee:01 · linked");
    assert_eq!(rows[1].1, "192.168.1.9:19284 · Wi-Fi STA");
    // Just routed from the board's access point: it comes first.
    let rows = setup_target_choices(&linked, &found, "10.88.88.1:19284");
    assert_eq!(rows[0].0, "10.88.88.1:19284");
    assert_eq!(rows[1].0, "COM5");
}

#[test]
fn after_credentials_push() {
    assert!(matches!(setup_pushed("COM7", &Vec::new(), &Vec::new()), SetupPushed::SavedOverUsb));
    let ap = "10.88.88.1:19284";
    let found = vec![beacon(ap, "11:22:33:44:55:66", "setup SoftAP", "10.88.88.1")];
    match setup_pushed(ap, &Vec::new(), &found) {
        SetupPushed::WaitForSta { mac } => assert_eq!(mac, "11:22:33:44:55:66"),
        other => panic!("{other:?}"),
    }
    let linked = vec![(ap.to_string(), "aa:bb:cc:dd:ee:01".to_string())];
    match setup_pushed(ap, &linked, &found) {
        SetupPushed::WaitForSta { mac } => assert_eq!(mac, "aa:bb:cc:dd:ee:01"),
        other => panic!("{other:?}"),
    }
    match setup_pushed(ap, &Vec::new(), &Vec::new()) {
        SetupPushed::WaitForSta { mac } => assert_eq!(mac, ""),
        other => panic!("{other:?}"),
    }
}

#[test]
fn waiting_for_home_network() {
    match sta_wait(91_000, 0, "home", "10.88.88.1:19284") {
        StaWait::TimedOut(m) => assert_eq!(
            m,
            "Timed out waiting for home Wi‑Fi “home” after SoftAP push (10.88.88.1:19284). Re-join SoftAP or check SSID/password."
        ),
        other => panic!("{other:?}"),
    }
    match sta_wait(31_500, 15_000, "home", "10.88.88.1:19284") {
        StaWait::Progress(m) => assert_eq!(m, "  · still waiting for STA on “home”… 31s / 90s · SoftAP was 10.88.88.1:19284"),
        other => panic!("{other:?}"),
    }
    assert!(matches!(sta_wait(90_000, 14_999, "home", "x"), StaWait::Quiet));
}
