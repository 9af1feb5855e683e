use rustytime::frame::Frame;
use rustytime::ts::Timestamp;

fn ts(year: u32, month: u32, day: u32, hour: u32, minute: u32, second: u32) -> Timestamp {
    Timestamp { year, month, day, hour, minute, second }
}

fn tags(xs: &[&str]) -> Vec<String> {
    xs.iter().map(|s| s.to_string()).collect()
}

#[test]
fn id_is_the_digest_of_the_content_text() {
    // sha256 of "2024-01-02 03:04:052024-01-02 03:04:05a,b", hex-encoded
    let f = Frame::new(
        ts(2024, 1, 2, 3, 4, 5),
        ts(2024, 1, 2, 3, 4, 5),
        tags(&["a", "b"]),
    );
    assert_eq!(
        f.id,
        "5d2a4f37879d19330c50d171157622dfdc38b3cf74c2696de55770580e1c0f54"
    );
}

#[test]
fn id_is_deterministic() {
    let a = Frame::new(ts(2024, 1, 2, 3, 4, 5), ts(2024, 1, 2, 4, 0, 0), tags(&["x", "y"]));
    let b = Frame::new(ts(2024, 1, 2, 3, 4, 5), ts(2024, 1, 2, 4, 0, 0), tags(&["x", "y"]));
    assert_eq!(a.id, b.id);
}

#[test]
fn id_changes_with_any_input() {
    let base = Frame::new(ts(2024, 1, 2, 3, 4, 5), ts(2024, 1, 2, 4, 0, 0), tags(&["x", "y"]));
    let other_start =
        Frame::new(ts(2024, 1, 2, 3, 4, 6), ts(2024, 1, 2, 4, 0, 0), tags(&["x", "y"]));
    let other_end =
        Frame::new(ts(2024, 1, 2, 3, 4, 5), ts(2024, 1, 2, 4, 0, 1), tags(&["x", "y"]));
    let other_tags =
        Frame::new(ts(2024, 1, 2, 3, 4, 5), ts(2024, 1, 2, 4, 0, 0), tags(&["x", "z"]));
    let ids = [&base.id, &other_start.id, &other_end.id, &other_tags.id];
    for i in 0..ids.len() {
        for j in 0..ids.len() {
            if i != j {
                assert_ne!(ids[i], ids[j]);
            }
        }
    }
}

#[test]
fn id_end_is_fed_into_the_digest() {
    // sha256 of "2024-01-02 03:04:052024-01-02 03:04:06a,b": one second on
    // the end timestamp moves the whole digest
    let f = Frame::new(
        ts(2024, 1, 2, 3, 4, 5),
        ts(2024, 1, 2, 3, 4, 6),
        tags(&["a", "b"]),
    );
    assert_eq!(
        f.id,
        "11ba15a0d5dd9bcef8c36c55b5f2872b868624ea58348fe7b139beca513b454b"
    );
}

#[test]
fn duplicate_copies_every_field() {
    let f = Frame::new(ts(2024, 5, 6, 7, 8, 9), ts(2024, 5, 6, 8, 0, 0), tags(&["work"]));
    let g = f.duplicate();
    assert_eq!(f.id, g.id);
    assert_eq!(f.start, g.start);
    assert_eq!(f.end, g.end);
    assert_eq!(f.tags, g.tags);
}

#[test]
fn timestamp_renders_zero_padded() {
    assert_eq!(ts(1, 2, 3, 4, 5, 6).render(), "0001-02-03 04:05:06");
    assert_eq!(ts(2024, 12, 31, 23, 59, 59).render(), "2024-12-31 23:59:59");
    assert_eq!(ts(9999, 12, 31, 23, 59, 59).render(), "9999-12-31 23:59:59");
    assert_eq!(ts(0, 1, 1, 0, 0, 0).render(), "0000-01-01 00:00:00");
}

#[test]
fn timestamp_order_is_chronological() {
    let a = ts(2024, 1, 2, 3, 4, 5);
    let b = ts(2024, 1, 2, 3, 4, 6);
    let c = ts(2025, 1, 1, 0, 0, 0);
    assert!(a.le(&b));
    assert!(!b.le(&a));
    assert!(b.le(&c));
    assert!(a.le(&a));
}
