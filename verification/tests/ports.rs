use cyd_companion::ports::{
    flash_port_arg_among, port_choices, port_label, scan_candidates, PortInfo, PortKind,
};
use cyd_companion::workers::WorkerKind;

fn usb(name: &str, m: Option<&str>, p: Option<&str>, sn: Option<&str>) -> PortInfo {
    PortInfo {
        name: name.into(),
        kind: PortKind::Usb {
            vid: 0x1a86,
            pid: 0x7523,
            manufacturer: m.map(String::from),
            product: p.map(String::from),
            serial_number: sn.map(String::from),
        },
    }
}

#[test]
fn port_labels() {
    assert_eq!(port_label(&usb("COM3", Some(" wch.cn "), Some("USB-SERIAL CH340"), Some("123"))), "COM3 — wch.cn · USB-SERIAL CH340 · SN 123");
    assert_eq!(port_label(&usb("COM4", None, Some("  "), None)), "COM4 — USB 1A86:7523");
    assert_eq!(port_label(&PortInfo { name: "COM1".into(), kind: PortKind::Pci }), "COM1 — PCI");
    assert_eq!(port_label(&PortInfo { name: "COM9".into(), kind: PortKind::Bluetooth }), "COM9 — Bluetooth");
    assert_eq!(port_label(&PortInfo { name: "/dev/ttyS0".into(), kind: PortKind::Unknown }), "/dev/ttyS0");
}

#[test]
fn port_order_and_candidates() {
    let ports = vec![
        usb("COM5", None, None, None),
        PortInfo { name: "COM1".into(), kind: PortKind::Pci },
        PortInfo { name: "COM2".into(), kind: PortKind::Bluetooth },
        PortInfo { name: "COM0".into(), kind: PortKind::Unknown },
        usb("COM3", Some("x"), None, None),
    ];
    let choices = port_choices(&ports);
    assert_eq!(choices.iter().map(|c| c.name.as_str()).collect::<Vec<_>>(), vec!["COM0", "COM1", "COM2", "COM3", "COM5"]);
    assert_eq!(choices[3].label, "COM3 — x");
    let c = scan_candidates(&ports, false);
    assert_eq!(
        c.iter().map(|x| (x.0, x.1.as_str(), x.3)).collect::<Vec<_>>(),
        vec![(0, "COM3", WorkerKind::Usb), (0, "COM5", WorkerKind::Usb), (1, "COM0", WorkerKind::Usb)]
    );
    let c = scan_candidates(&ports, true);
    assert_eq!(c.last().map(|x| (x.1.as_str(), x.3)), Some(("COM2", WorkerKind::Bluetooth)));
}

#[test]
fn flasher_port_names() {
    let listed = Some(vec![r"\\.\COM6".to_string(), "COM7".to_string()]);
    assert_eq!(flash_port_arg_among("com6", listed.clone()), r"\\.\COM6");
    assert_eq!(flash_port_arg_among(r"\\.\COM7", listed.clone()), "COM7");
    assert_eq!(flash_port_arg_among(r"\\.\com8", listed), "COM8");
    assert_eq!(flash_port_arg_among(" /dev/ttyUSB0 ", None), "/dev/ttyUSB0");
}
