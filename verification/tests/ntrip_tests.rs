use rover::stream::SentenceCollector;
use rover::ntrip::{
    caster_accepted, is_position_report_exec, ntrip_request, ntrip_request_with_auth,
    position_reports_of, reply_accepts, uploads_for_message, NTRIPSettings,
};

#[test]
fn request_carries_mountpoint_and_basic_auth() {
    let settings = NTRIPSettings {
        username: "user".to_string(),
        mountpoint: "IndiaTN02".to_string(),
        password: "pass".to_string(),
        host: "rtk2go.com:2101".to_string(),
    };
    assert_eq!(
        ntrip_request(&settings),
        "GET /IndiaTN02 HTTP/1.0\r\nUser-Agent: RustNtripClient/1.0\r\nAuthorization: Basic dXNlcjpwYXNz\r\n\r\n"
    );
}

#[test]
fn request_with_unicode_credentials_encodes_utf8() {
    let settings = NTRIPSettings {
        username: "é".to_string(),
        mountpoint: "M".to_string(),
        password: String::new(),
        host: String::new(),
    };
    // base64 of the bytes c3 a9 3a
    assert_eq!(
        ntrip_request(&settings),
        "GET /M HTTP/1.0\r\nUser-Agent: RustNtripClient/1.0\r\nAuthorization: Basic w6k6\r\n\r\n"
    );
}

#[test]
fn request_with_given_token() {
    assert_eq!(
        ntrip_request_with_auth("MP", "abc="),
        "GET /MP HTTP/1.0\r\nUser-Agent: RustNtripClient/1.0\r\nAuthorization: Basic abc=\r\n\r\n"
    );
}

#[test]
fn default_and_blank_settings() {
    let d = NTRIPSettings::default_for("me@example.com".to_string());
    assert_eq!(d.username, "me@example.com");
    assert_eq!(d.password, "");
    assert_eq!(d.mountpoint, "IndiaTN02");
    assert_eq!(d.host, "rtk2go.com:2101");
    let b = NTRIPSettings::blank();
    assert!(b.username.is_empty() && b.password.is_empty() && b.mountpoint.is_empty() && b.host.is_empty());
}

#[test]
fn caster_replies() {
    assert!(caster_accepted(b"ICY 200 OK\r\n\r\n"));
    assert!(caster_accepted(b"HTTP/1.1 200 OK\r\nServer: x\r\n"));
    assert!(!caster_accepted(b"HTTP/1.1 401 Unauthorized\r\n"));
    assert!(!caster_accepted(b""));
    assert!(caster_accepted(&[0xff, 0xfe, b'2', b'0', b'0', b' ', b'O', b'K']));
    assert!(!caster_accepted(&[b'2', b'0', b'0', 0xff, b'O', b'K']));
    assert!(reply_accepts("SOURCETABLE 200 OK"));
    assert!(!reply_accepts("200 ok"));
}

#[test]
fn only_northern_gga_sentences_are_uploaded() {
    assert!(is_position_report_exec("$GNGGA,1,1234.5,N,07712.3,E,4"));
    assert!(!is_position_report_exec("$GNGGA,1,1234.5,S,07712.3,E,4"));
    assert!(!is_position_report_exec("$GNRMC,1,1234.5,N,07712.3,E"));
    let batch = vec![
        "$GNRMC,1,A,1,N,2,E".to_string(),
        "$GNGGA,1,1,N,2,E".to_string(),
        "$GNGGA,1,1,S,2,E".to_string(),
        "$GPGGA,2,3,N,4,W".to_string(),
    ];
    assert_eq!(
        position_reports_of(&batch),
        vec!["$GNGGA,1,1,N,2,E".to_string(), "$GPGGA,2,3,N,4,W".to_string()]
    );
    let message = serde_json::to_string(&batch).unwrap();
    assert_eq!(uploads_for_message(&message), position_reports_of(&batch));
    assert!(uploads_for_message("User says: hi").is_empty());
    assert!(uploads_for_message("[1,2]").is_empty());
}

#[test]
fn broadcast_batch_reaches_the_caster() {
    let mut c = SentenceCollector::new();
    c.push_text("$GNGGA,1,1,N,2,E\r\n$GNRMC,1,A\n$GNGGA,1,1,S,2,E\n$GPGGA,2,3,N,\"4\",W\npart");
    let batch = c.take_batch().unwrap();
    assert_eq!(
        uploads_for_message(&batch),
        vec!["$GNGGA,1,1,N,2,E".to_string(), "$GPGGA,2,3,N,\"4\",W".to_string()]
    );
}
