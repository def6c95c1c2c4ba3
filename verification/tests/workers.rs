use cyd_companion::ports::flash_port_arg;
use cyd_companion::workers::{
    is_usb_serial_port, mac_is_stable, mac_worker_id, normalize_mac, normalize_port_name,
    port_names_match, transport_mac_id, WorkerKind,
};

#[test]
fn port_normalize_matches_windows_prefixes() {
    assert!(port_names_match(r"\\.\COM6", "COM6"));
    assert!(port_names_match("com10", r"\\.\COM10"));
    assert!(!port_names_match("COM6", "COM7"));
    assert!(is_usb_serial_port("COM6"));
    assert!(is_usb_serial_port(r"\\.\COM10"));
    assert!(!is_usb_serial_port("192.168.4.1:19284"));
    assert!(!is_usb_serial_port("cyd.local:19284"));
    // Prefer plain COMx — espflash exact-matches available_ports() names.
    let arg = flash_port_arg("COM6");
    assert!(
        arg.eq_ignore_ascii_case("COM6") || arg.eq_ignore_ascii_case(r"\\.\COM6"),
        "unexpected flash port arg {arg}"
    );
    assert_eq!(flash_port_arg(r"\\.\COM6").to_ascii_uppercase().replace(r"\\.\", ""), "COM6");
}

#[test]
fn mac_stable_rejects_unknown() {
    assert!(!mac_is_stable(""));
    assert!(!mac_is_stable("unknown"));
    assert!(mac_is_stable("aa:bb:cc:dd:ee:01"));
    assert_eq!(mac_worker_id("aabbccddee01"), "usb:mac:aa:bb:cc:dd:ee:01");
    assert!(mac_worker_id("unknown").is_empty());
    assert_eq!(
        transport_mac_id(WorkerKind::Wifi, "aabbccddee01"),
        "wifi:mac:aa:bb:cc:dd:ee:01"
    );
    assert_ne!(
        transport_mac_id(WorkerKind::Usb, "aabbccddee01"),
        transport_mac_id(WorkerKind::Wifi, "aabbccddee01")
    );
}

#[test]
fn normalize_mac_forms() {
    assert_eq!(normalize_mac("AABBCCDDEEFF"), "aa:bb:cc:dd:ee:ff");
    assert_eq!(normalize_mac("aa-bb-cc-dd-ee-ff"), "aa:bb:cc:dd:ee:ff");
    assert_eq!(normalize_mac("  Unknown "), "unknown");
    // Normalising twice changes nothing.
    let once = normalize_mac("AA:BB:CC:DD:EE:FF");
    assert_eq!(normalize_mac(&once), once);
}

#[test]
fn port_names_normalize() {
    assert_eq!(normalize_port_name("  com3 "), "COM3");
    assert_eq!(normalize_port_name(r"\\.\com12"), "COM12");
    assert_eq!(normalize_port_name("/dev/ttyUSB0"), "/DEV/TTYUSB0");
}

#[test]
fn usb_serial_port_shapes() {
    assert!(is_usb_serial_port("/dev/ttyUSB0"));
    assert!(is_usb_serial_port("/dev/ttyACM1"));
    assert!(is_usb_serial_port("/dev/cu.usbserial-1420"));
    assert!(!is_usb_serial_port(""));
    assert!(!is_usb_serial_port("COM"));
    assert!(!is_usb_serial_port("/dev/ttyS0"));
    assert!(!is_usb_serial_port("cyd:19284"));
}

#[test]
fn transport_ids_by_kind() {
    assert_eq!(transport_mac_id(WorkerKind::Lan, "AABBCCDDEE01"), "lan:mac:aa:bb:cc:dd:ee:01");
    assert_eq!(transport_mac_id(WorkerKind::Bluetooth, "aabbccddee01"), "bt:mac:aa:bb:cc:dd:ee:01");
    assert_eq!(transport_mac_id(WorkerKind::Usb, "nope"), "");
}
