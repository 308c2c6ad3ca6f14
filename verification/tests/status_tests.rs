use rover::status::{
    receiver_events, route_sentence, LiveStatus, ReceiverEvent, ReceiverReading, SentenceOutcome,
};

type Status = LiveStatus<f64, f32, u8, (f64, f64)>;

fn reading(lat: Option<f64>, lng: Option<f64>, alt: Option<f32>) -> ReceiverReading<f64, f32, u8> {
    ReceiverReading {
        latitude: lat,
        longitude: lng,
        altitude: alt,
        speed_over_ground: None,
        fix_type: Some(4),
        satellites: 12,
        fix_satellites: Some(9),
        hdop: Some(0.8),
        vdop: None,
        pdop: Some(1.5),
    }
}

#[test]
fn position_is_updated_only_when_whole() {
    let s: Status = LiveStatus::unknown();
    assert!(!s.has_position());
    let s = s.absorb(reading(Some(12.5), Some(77.25), Some(900.0)));
    assert!(s.has_position());
    assert_eq!((s.latitude, s.longitude), (Some(12.5), Some(77.25)));
    let s = s.absorb(reading(Some(13.0), None, None));
    assert_eq!((s.latitude, s.longitude), (Some(12.5), Some(77.25)));
    assert_eq!(s.altitude, Some(900.0));
    assert_eq!(s.satellites, 12);
    assert_eq!(s.fix_satellites, Some(9));
    assert_eq!(s.hdop, Some(0.8));
    assert_eq!(s.vdop, None);
    assert_eq!(s.pdop, Some(1.5));
    assert_eq!(s.fix_type, Some(4));
}

#[test]
fn counts_follow_the_latest_reading() {
    let s: Status = LiveStatus::unknown();
    let s = s.absorb(reading(None, None, None));
    let mut r = reading(None, None, None);
    r.satellites = 3;
    r.fix_satellites = None;
    r.hdop = None;
    let s = s.absorb(r);
    assert_eq!(s.satellites, 3);
    assert_eq!(s.fix_satellites, None);
    assert_eq!(s.hdop, None);
}

#[test]
fn accuracy_kept_until_replaced() {
    let s: Status = LiveStatus::unknown();
    let s = s.with_accuracy(Some((0.1, 0.2)));
    let s = s.with_accuracy(None);
    assert_eq!(s.accuracy, Some((0.1, 0.2)));
    let s = s.absorb(reading(None, None, None));
    assert_eq!(s.accuracy, Some((0.1, 0.2)));
}

#[test]
fn routes() {
    let r = route_sentence("$GNGST,1,2");
    assert!(r.to_receiver && r.to_gst);
    let r = route_sentence("GST only");
    assert!(!r.to_receiver && r.to_gst);
    let r = route_sentence("$GPGGA");
    assert!(r.to_receiver && !r.to_gst);
    let r = route_sentence("");
    assert!(!r.to_receiver && !r.to_gst);
}

#[test]
fn events_in_order() {
    let ev = receiver_events(&reading(Some(1.0), Some(2.0), Some(3.0)));
    assert_eq!(ev.len(), 4);
    assert!(matches!(ev[0], ReceiverEvent::LatLngUpdate { latitude, longitude } if latitude == 1.0 && longitude == 2.0));
    assert!(matches!(ev[1], ReceiverEvent::AltitudeUpdate { altitude } if altitude == 3.0));
    assert!(matches!(ev[2], ReceiverEvent::FixUpdate { fix_type: 4 }));
    assert!(matches!(ev[3], ReceiverEvent::StatusUpdate { satellites: 12 }));
    let mut r = reading(Some(1.0), None, None);
    r.fix_type = None;
    let ev = receiver_events(&r);
    assert_eq!(ev.len(), 1);
    assert!(matches!(ev[0], ReceiverEvent::StatusUpdate { satellites: 12 }));
}

fn outcome(
    sentence: &str,
    r: Option<ReceiverReading<f64, f32, u8>>,
    acc: Option<(f64, f64)>,
) -> SentenceOutcome<f64, f32, u8, (f64, f64)> {
    SentenceOutcome { sentence: sentence.to_string(), reading: r, accuracy: acc }
}

#[test]
fn batch_keeps_known_fields_and_the_last_accuracy() {
    let s: Status = LiveStatus::unknown();
    let s = s.after_outcomes(vec![
        outcome("$GNGGA,1", Some(reading(Some(12.5), Some(77.25), Some(900.0))), None),
        outcome("$GNGST,1", Some(reading(None, None, None)), Some((0.1, 0.2))),
        outcome("$GNRMC,refused", None, None),
        outcome("$GNGST,2", Some(reading(None, None, None)), Some((0.3, 0.4))),
        outcome("$GNGST,bad", Some(reading(None, None, None)), None),
    ]);
    assert_eq!((s.latitude, s.longitude), (Some(12.5), Some(77.25)));
    assert_eq!(s.altitude, Some(900.0));
    assert_eq!(s.accuracy, Some((0.3, 0.4)));
}

#[test]
fn unrouted_sentences_change_nothing() {
    let routed = vec![
        outcome("$GNGGA,1", Some(reading(Some(1.0), Some(2.0), None)), None),
        outcome("$GNGST,1", None, Some((0.5, 0.5))),
    ];
    let with_noise = vec![
        outcome("noise", Some(reading(Some(9.0), Some(9.0), Some(9.0))), Some((9.0, 9.0))),
        outcome("$GNGGA,1", Some(reading(Some(1.0), Some(2.0), None)), None),
        outcome("", Some(reading(Some(8.0), Some(8.0), None)), Some((8.0, 8.0))),
        outcome("$GNGST,1", None, Some((0.5, 0.5))),
        outcome("GGA without dollar", Some(reading(Some(7.0), Some(7.0), None)), None),
    ];
    let a: Status = LiveStatus::unknown().after_outcomes(routed);
    let b: Status = LiveStatus::unknown().after_outcomes(with_noise);
    assert_eq!((a.latitude, a.longitude, a.altitude), (b.latitude, b.longitude, b.altitude));
    assert_eq!((a.accuracy, a.satellites, a.hdop), (b.accuracy, b.satellites, b.hdop));
}
