use rover::beacon::{get_ip_string, ip_text_or_unspecified};

#[test]
fn found_address_is_announced() {
    assert_eq!(ip_text_or_unspecified(Some("192.168.4.17".to_string())), "192.168.4.17");
}

#[test]
fn missing_address_is_unspecified() {
    assert_eq!(ip_text_or_unspecified(None), "0.0.0.0");
}

#[test]
fn local_address_reads_as_an_ip() {
    let text = get_ip_string();
    assert!(!text.is_empty());
    assert!(
        text.chars().all(|c| c.is_ascii_hexdigit() || c == '.' || c == ':'),
        "{}",
        text
    );
}
