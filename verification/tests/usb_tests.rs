use rover::usb::{
    ch340_setup_requests, hex4, is_cdc_acm, is_ch340, select_bulk_endpoints, usb_device_entry,
    EndpointInfo, InterfaceClass,
};

#[test]
fn ch340_identity_and_setup() {
    assert!(is_ch340(0x1a86, 0x7523));
    assert!(!is_ch340(0x1a86, 0x7522));
    let r = ch340_setup_requests();
    assert_eq!(r.len(), 3);
    assert_eq!((r[0].request, r[0].value, r[0].index), (0xa1, 0, 0));
    assert_eq!((r[1].request, r[1].value, r[1].index), (0x9a, 0x1312, 0xcc03));
    assert_eq!((r[2].request, r[2].value, r[2].index), (0x9a, 0x2518, 0x00c3));
}

#[test]
fn last_bulk_endpoints_win() {
    let eps = vec![
        EndpointInfo { is_bulk: false, is_in: true, address: 0x81 },
        EndpointInfo { is_bulk: true, is_in: true, address: 0x82 },
        EndpointInfo { is_bulk: true, is_in: false, address: 0x02 },
        EndpointInfo { is_bulk: true, is_in: true, address: 0x84 },
    ];
    assert_eq!(select_bulk_endpoints(&eps), (0x84, 0x02));
    assert_eq!(select_bulk_endpoints(&vec![]), (0, 0));
}

#[test]
fn serial_settings() {
    let vendor = vec![InterfaceClass { class: 0xff, subclass: 1, protocol: 2 }];
    assert!(is_cdc_acm(0x1a86, 0x7523, &vendor));
    assert!(!is_cdc_acm(0x1234, 0x7523, &vendor));
    let acm = vec![
        InterfaceClass { class: 0x0a, subclass: 0, protocol: 0 },
        InterfaceClass { class: 0x02, subclass: 0x02, protocol: 0x01 },
    ];
    assert!(is_cdc_acm(0x1234, 0x5678, &acm));
    assert!(!is_cdc_acm(0x1234, 0x5678, &vec![]));
}

#[test]
fn hex_like_format() {
    for v in [0u16, 1, 0x0a, 0x1a86, 0x7523, 0xffff, 0x00f0, 4096] {
        assert_eq!(hex4(v), format!("{:04x}", v));
    }
}

#[test]
fn device_listing() {
    let d = usb_device_entry(0x1a86, 0x7523, None);
    assert_eq!(d.id, "1a86-7523");
    assert_eq!(d.name, "Unknown CDC ACM Device");
    assert_eq!(d.vendor.as_deref(), Some("1a86"));
    assert_eq!(d.product.as_deref(), Some("7523"));
    let d = usb_device_entry(0x0001, 0xabcd, Some("GNSS".to_string()));
    assert_eq!(d.id, "0001-abcd");
    assert_eq!(d.name, "GNSS");
}
