use rustytime::frame::Frame;
use rustytime::render::{render, Format};
use rustytime::settings::Settings;
use rustytime::tracker::RTime;
use rustytime::ts::Timestamp;

fn ts(year: u32, month: u32, day: u32, hour: u32, minute: u32, second: u32) -> Timestamp {
    Timestamp { year, month, day, hour, minute, second }
}

fn tags(xs: &[&str]) -> Vec<String> {
    xs.iter().map(|s| s.to_string()).collect()
}

fn with_frames(frames: Vec<Frame>) -> RTime {
    RTime {
        tags: Vec::new(),
        state: None,
        frames,
        settings: Settings::with_home(String::from("/tmp/rt-home")),
    }
}

fn two_frames() -> RTime {
    with_frames(vec![
        Frame::new(ts(2024, 1, 2, 9, 0, 0), ts(2024, 1, 2, 10, 0, 0), tags(&["a"])),
        Frame::new(ts(2024, 1, 2, 11, 0, 0), ts(2024, 1, 2, 12, 0, 0), tags(&["b"])),
    ])
}

#[test]
fn a_from_bound_keeps_only_later_frames() {
    let rt = two_frames();
    let listed = rt.list_frames(Some(ts(2024, 1, 2, 10, 30, 0)), None);
    assert_eq!(listed.len(), 1);
    assert_eq!(listed[0].start, ts(2024, 1, 2, 11, 0, 0));
}

#[test]
fn a_to_bound_can_reject_everything() {
    let rt = two_frames();
    let listed = rt.list_frames(None, Some(ts(2024, 1, 2, 9, 30, 0)));
    assert_eq!(listed.len(), 0);
}

#[test]
fn no_bounds_list_everything_ascending() {
    let rt = with_frames(vec![
        Frame::new(ts(2024, 1, 2, 11, 0, 0), ts(2024, 1, 2, 12, 0, 0), tags(&["b"])),
        Frame::new(ts(2024, 1, 2, 9, 0, 0), ts(2024, 1, 2, 10, 0, 0), tags(&["a"])),
    ]);
    let listed = rt.list_frames(None, None);
    assert_eq!(listed.len(), 2);
    assert_eq!(listed[0].start, ts(2024, 1, 2, 9, 0, 0));
    assert_eq!(listed[1].start, ts(2024, 1, 2, 11, 0, 0));
}

#[test]
fn equal_starts_keep_their_stored_order() {
    let same = ts(2024, 1, 2, 9, 0, 0);
    let rt = with_frames(vec![
        Frame::new(same, ts(2024, 1, 2, 10, 0, 0), tags(&["first"])),
        Frame::new(same, ts(2024, 1, 2, 11, 0, 0), tags(&["second"])),
        Frame::new(ts(2024, 1, 2, 8, 0, 0), ts(2024, 1, 2, 8, 30, 0), tags(&["earlier"])),
    ]);
    let listed = rt.list_frames(None, None);
    assert_eq!(listed.len(), 3);
    assert_eq!(listed[0].tags, tags(&["earlier"]));
    assert_eq!(listed[1].tags, tags(&["first"]));
    assert_eq!(listed[2].tags, tags(&["second"]));
}

#[test]
fn every_format_renders_the_empty_set_as_the_signal() {
    let empty: Vec<Frame> = Vec::new();
    assert_eq!(render(Format::Pretty, &empty), "no frames tracked");
    assert_eq!(render(Format::Json, &empty), "no frames tracked");
    assert_eq!(render(Format::Yaml, &empty), "no frames tracked");
    assert_eq!(render(Format::Csv, &empty), "no frames tracked");
}

#[test]
fn log_renders_the_signal_when_nothing_matches() {
    let rt = two_frames();
    let out = rt.log(Format::Json, None, Some(ts(2024, 1, 2, 8, 0, 0)));
    assert_eq!(out, "no frames tracked");
}

#[test]
fn json_holds_the_full_frame() {
    let id = "5d2a4f37879d19330c50d171157622dfdc38b3cf74c2696de55770580e1c0f54";
    let frames = vec![Frame::new(
        ts(2024, 1, 2, 3, 4, 5),
        ts(2024, 1, 2, 3, 4, 5),
        tags(&["a", "b"]),
    )];
    let expected = format!(
        "[{{\"id\":\"{}\",\"start\":\"2024-01-02 03:04:05\",\"end\":\"2024-01-02 03:04:05\",\"tags\":[\"a\",\"b\"]}}]",
        id
    );
    assert_eq!(render(Format::Json, &frames), expected);
}

#[test]
fn yaml_holds_one_block_per_frame() {
    let id = "5d2a4f37879d19330c50d171157622dfdc38b3cf74c2696de55770580e1c0f54";
    let frames = vec![Frame::new(
        ts(2024, 1, 2, 3, 4, 5),
        ts(2024, 1, 2, 3, 4, 5),
        tags(&["a", "b"]),
    )];
    let expected = format!(
        "- id: \"{}\"\n  start: \"2024-01-02 03:04:05\"\n  end: \"2024-01-02 03:04:05\"\n  tags: [\"a\",\"b\"]",
        id
    );
    assert_eq!(render(Format::Yaml, &frames), expected);
}

#[test]
fn csv_holds_a_header_and_flat_rows() {
    let id = "5d2a4f37879d19330c50d171157622dfdc38b3cf74c2696de55770580e1c0f54";
    let frames = vec![Frame::new(
        ts(2024, 1, 2, 3, 4, 5),
        ts(2024, 1, 2, 3, 4, 5),
        tags(&["a", "b"]),
    )];
    let expected = format!(
        "id,start,end,tags\n\"{}\",2024-01-02 03:04:05,2024-01-02 03:04:05,\"a b\"",
        id
    );
    assert_eq!(render(Format::Csv, &frames), expected);
}

#[test]
fn pretty_holds_one_summary_line_per_frame() {
    let frames = vec![
        Frame::new(ts(2024, 1, 2, 9, 0, 0), ts(2024, 1, 2, 10, 0, 0), tags(&["a", "b"])),
        Frame::new(ts(2024, 1, 3, 9, 0, 0), ts(2024, 1, 3, 9, 30, 0), tags(&["c"])),
    ];
    let expected = "2024-01-02 09:00:00 -> 2024-01-02 10:00:00  [a b]\n\
                    2024-01-03 09:00:00 -> 2024-01-03 09:30:00  [c]";
    assert_eq!(render(Format::Pretty, &frames), expected);
}

#[test]
fn quotes_and_controls_are_escaped() {
    let frames = vec![Frame::new(
        ts(2024, 1, 2, 3, 4, 5),
        ts(2024, 1, 2, 3, 4, 5),
        tags(&["q\"uote", "back\\slash", "line\nbreak"]),
    )];
    let json = render(Format::Json, &frames);
    assert!(json.contains("\"q\\\"uote\""));
    assert!(json.contains("\"back\\\\slash\""));
    assert!(json.contains("\"line\\nbreak\""));
    let csv = render(Format::Csv, &frames);
    assert!(csv.contains("q\"\"uote"));
}

#[test]
fn log_filters_then_renders() {
    let rt = two_frames();
    let out = rt.log(Format::Pretty, Some(ts(2024, 1, 2, 10, 30, 0)), None);
    assert_eq!(out, "2024-01-02 11:00:00 -> 2024-01-02 12:00:00  [b]");
}
