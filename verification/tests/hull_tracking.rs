use preprocess_cancellation::hulls::{HullTracker, KnownObject};

fn pt(x: &str, y: &str, ht: &mut HullTracker) {
    ht.add_point(x.as_bytes().to_vec(), y.as_bytes().to_vec());
}

fn ring_of(ht: &HullTracker) -> Vec<(f64, f64)> {
    serde_json::from_slice(&ht.exterior()).unwrap()
}

#[test]
fn test_hulls_simple() {
    let mut ht = HullTracker::default();
    pt("0.0", "0.0", &mut ht);
    pt("0.0", "1.0", &mut ht);
    pt("1.0", "1.0", &mut ht);
    pt("1.0", "0.0", &mut ht);

    assert_eq!(
        ring_of(&ht),
        vec![(1.0, 0.0), (1.0, 1.0), (0.0, 1.0), (0.0, 0.0), (1.0, 0.0)]
    );
    assert_eq!(ht.center(), Some(b"0.500,0.500".to_vec()));
}

#[test]
fn test_hulls_rhombus() {
    let mut ht = HullTracker::default();
    pt("0.0", "5.0", &mut ht);
    pt("5.0", "10.0", &mut ht);
    pt("10.0", "5.0", &mut ht);
    pt("5.0", "0.0", &mut ht);

    assert_eq!(
        ring_of(&ht),
        vec![(5.0, 0.0), (10.0, 5.0), (5.0, 10.0), (0.0, 5.0), (5.0, 0.0)]
    );
    assert_eq!(ht.center(), Some(b"5.000,5.000".to_vec()));
}

#[test]
fn test_hulls_circle() {
    let mut ht = HullTracker::default();
    pt("0.0", "5.0", &mut ht);
    pt("5.0", "10.0", &mut ht);
    pt("10.0", "5.0", &mut ht);
    pt("5.0", "0.0", &mut ht);

    for i in 0..360 {
        let a = (i as f64).to_radians();
        let x = 5.0 + 5.0 * a.cos();
        let y = 5.0 + 5.0 * a.sin();
        pt(&format!("{x}"), &format!("{y}"), &mut ht);
    }

    for (x, y) in ring_of(&ht) {
        let dist = ((5.0 - x).powf(2.0) + (5.0 - y).powf(2.0)).sqrt();
        assert!((4.9..=5.1).contains(&dist));
    }

    assert_eq!(ht.center(), Some(b"5.000,5.000".to_vec()));
}

#[test]
fn test_unicode_object_names() {
    let known_object = KnownObject::new(&"D\u{e9} id:0 copy 0".as_bytes().to_vec());
    assert_eq!(known_object.name, b"De_id_0_copy_0".to_vec())
}

#[test]
fn test_duplicate_points_are_held_once() {
    let mut ht = HullTracker::default();
    pt("1.5", "2.5", &mut ht);
    pt("1.5", "2.5", &mut ht);
    pt("1.5", "2.5", &mut ht);
    assert_eq!(ht.points.len(), 1);
    assert_eq!(ht.center(), Some(b"1.500,2.500".to_vec()));
}

#[test]
fn test_empty_tracker_reports_nothing() {
    let ht = HullTracker::default();
    assert_eq!(ht.center(), None);
    assert_eq!(ht.exterior(), Vec::<u8>::new());
}

#[test]
fn test_sanitize_trims_and_collapses() {
    let known_object = KnownObject::new(&"  box (1).stl  ".as_bytes().to_vec());
    assert_eq!(known_object.name, b"box_1_stl".to_vec());
}
