use rover::track::{
    get_draft_points, get_track_polygon, polygon_outline, polygon_sides, DraftError,
    SavePayload, TrackingData,
};

type P = (f64, f64);

fn draft(name: &str, pts: Vec<P>) -> SavePayload<P> {
    SavePayload::Draft { name: name.to_string(), coordinates: pts }
}

fn track(name: &str, pts: Vec<P>) -> SavePayload<P> {
    SavePayload::Track { name: name.to_string(), coordinates: pts }
}

fn coords_of(p: &SavePayload<P>) -> Vec<P> {
    match p {
        SavePayload::Track { coordinates, .. } | SavePayload::Draft { coordinates, .. } => {
            coordinates.clone()
        }
        SavePayload::Bookmark { coordinates, .. } => vec![*coordinates],
    }
}

#[test]
fn insert_get_remove() {
    let mut d: TrackingData<P> = TrackingData::new();
    d.insert("a".to_string(), track("A", vec![(1.0, 2.0)]));
    d.insert("b".to_string(), draft("B", vec![]));
    d.insert("a".to_string(), track("A2", vec![(3.0, 4.0)]));
    assert_eq!(d.len(), 2);
    assert!(matches!(d.get("a"), Some(SavePayload::Track { name, .. }) if name == "A2"));
    assert!(d.get("zz").is_none());
    assert!(d.remove("b").is_some());
    assert!(d.remove("b").is_none());
    assert_eq!(d.len(), 1);
}

#[test]
fn save_draft_moves_points_into_a_new_track() {
    let mut d: TrackingData<P> = TrackingData::new();
    d.insert("draft".to_string(), draft("", vec![(1.0, 1.0), (2.0, 2.0)]));
    let random: [u8; 16] = [
        0x12, 0x34, 0x56, 0x78, 0x9a, 0xbc, 0xde, 0xf0, 0xff, 0x01, 0x23, 0x45, 0x67, 0x89,
        0xab, 0xcd,
    ];
    let key = d.save_draft("Field".to_string(), random).ok().unwrap();
    assert_eq!(key, "12345678-9abc-4ef0-bf01-23456789abcd");
    assert_eq!(key, uuid::Builder::from_random_bytes(random).into_uuid().to_string());
    assert!(d.get("draft").is_none());
    match d.get(&key) {
        Some(SavePayload::Track { name, coordinates }) => {
            assert_eq!(name, "Field");
            assert_eq!(coordinates, &vec![(1.0, 1.0), (2.0, 2.0)]);
        }
        _ => panic!("no track"),
    }
}

#[test]
fn save_draft_errors() {
    let mut d: TrackingData<P> = TrackingData::new();
    assert!(matches!(d.save_draft("x".to_string(), [0u8; 16]), Err(DraftError::NotFound)));
    d.insert("draft".to_string(), track("t", vec![]));
    assert!(matches!(d.save_draft_as("k".to_string(), "x".to_string()), Err(DraftError::InvalidPayload)));
    assert!(d.get("draft").is_some());
    assert_eq!(d.len(), 1);
    assert_eq!(DraftError::NotFound.status_and_message(), (404, "Draft not found".to_string()));
    assert_eq!(
        DraftError::InvalidPayload.status_and_message(),
        (400, "The draft entry has an invalid payload type".to_string())
    );
}

#[test]
fn undo_takes_back_last_point() {
    let mut d: TrackingData<P> = TrackingData::new();
    d.undo_draft();
    assert_eq!(d.len(), 0);
    d.insert("draft".to_string(), draft("D", vec![(1.0, 1.0)]));
    d.append_payload("draft".to_string(), draft("ignored", vec![(1.0, 1.0), (5.0, 6.0)]));
    assert_eq!(coords_of(d.get("draft").unwrap()), vec![(1.0, 1.0), (5.0, 6.0)]);
    assert!(matches!(d.get("draft"), Some(SavePayload::Draft { name, .. }) if name == "D"));
    d.undo_draft();
    assert_eq!(coords_of(d.get("draft").unwrap()), vec![(1.0, 1.0)]);
    d.undo_draft();
    d.undo_draft();
    assert_eq!(coords_of(d.get("draft").unwrap()), Vec::<P>::new());
}

#[test]
fn append_keeps_non_drafts() {
    let mut d: TrackingData<P> = TrackingData::new();
    d.append_payload("t1".to_string(), track("T", vec![(0.0, 0.0)]));
    d.append_payload("t1".to_string(), track("T2", vec![(9.0, 9.0)]));
    assert_eq!(coords_of(d.get("t1").unwrap()), vec![(0.0, 0.0)]);
    d.append_payload("b".to_string(), SavePayload::Bookmark { name: "B".to_string(), coordinates: (7.0, 8.0) });
    d.append_payload("b".to_string(), draft("x", vec![(1.0, 1.0)]));
    assert_eq!(coords_of(d.get("b").unwrap()), vec![(7.0, 8.0)]);
}

#[test]
fn sides_open_and_closed() {
    let pts: Vec<P> = vec![(0.0, 0.0), (0.0, 1.0), (1.0, 1.0)];
    let open = polygon_sides(&pts, false);
    assert_eq!(open, vec![((0.0, 0.0), (0.0, 1.0)), ((0.0, 1.0), (1.0, 1.0))]);
    let closed = polygon_sides(&pts, true);
    assert_eq!(closed.len(), 3);
    assert_eq!(closed[2], ((1.0, 1.0), (0.0, 0.0)));
    assert!(polygon_sides(&pts[..2].to_vec(), true).len() == 1);
    assert!(polygon_sides(&Vec::<P>::new(), true).is_empty());
    assert!(polygon_sides(&vec![(1.0, 1.0)], true).is_empty());
    let o = polygon_outline(pts.clone(), "id".to_string(), "n".to_string(), true);
    assert_eq!(o.points, pts);
    assert_eq!(o.sides.len(), 3);
    assert_eq!(o.id, "id");
}

#[test]
fn outlines_of_tracks_and_draft() {
    let mut d: TrackingData<P> = TrackingData::new();
    d.insert("t1".to_string(), track("T1", vec![(0.0, 0.0), (0.0, 1.0), (1.0, 1.0)]));
    d.insert("bm".to_string(), SavePayload::Bookmark { name: "B".to_string(), coordinates: (5.0, 5.0) });
    d.insert("draft".to_string(), draft("D", vec![(2.0, 2.0), (3.0, 3.0), (4.0, 2.0)]));
    d.insert("t2".to_string(), track("T2", vec![(1.0, 1.0)]));
    let mut d2: TrackingData<P> = TrackingData::new();
    d2.insert("draft".to_string(), draft("D", vec![(2.0, 2.0), (3.0, 3.0), (4.0, 2.0)]));
    let outlines = get_track_polygon(d);
    assert_eq!(outlines.len(), 2);
    assert_eq!(outlines[0].id, "t1");
    assert_eq!(outlines[0].sides.len(), 3);
    assert_eq!(outlines[1].name, "T2");
    assert!(outlines[1].sides.is_empty());
    let dr = get_draft_points(d2).unwrap();
    assert_eq!(dr.name, "D");
    assert_eq!(dr.sides.len(), 2);
    assert!(get_draft_points(TrackingData::<P>::new()).is_none());
}

#[test]
fn entries_come_back_in_order() {
    let mut d: TrackingData<P> = TrackingData::new();
    d.insert("x".to_string(), track("X", vec![]));
    d.insert("y".to_string(), track("Y", vec![]));
    let keys: Vec<String> = d.into_entries().into_iter().map(|(k, _)| k).collect();
    assert_eq!(keys, vec!["x".to_string(), "y".to_string()]);
}
