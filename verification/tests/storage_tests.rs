use rustytime::errors::Error;
use rustytime::frame::Frame;
use rustytime::settings::Settings;
use rustytime::storage::{
    decode_frames_doc, decode_state_doc, decode_tags_doc, encode_frames_doc, encode_state_doc,
    encode_tags_doc,
};
use rustytime::tracker::{RTime, State};
use rustytime::ts::Timestamp;

fn ts(year: u32, month: u32, day: u32, hour: u32, minute: u32, second: u32) -> Timestamp {
    Timestamp { year, month, day, hour, minute, second }
}

fn tags(xs: &[&str]) -> Vec<String> {
    xs.iter().map(|s| s.to_string()).collect()
}

#[test]
fn frames_round_trip_through_the_document() {
    let frames = vec![
        Frame::new(ts(2024, 1, 2, 9, 0, 0), ts(2024, 1, 2, 10, 0, 0), tags(&["a", "b"])),
        Frame::new(ts(2024, 1, 3, 9, 0, 0), ts(2024, 1, 3, 9, 30, 0), tags(&["c"])),
        Frame::new(ts(2024, 1, 4, 9, 0, 0), ts(2024, 1, 4, 9, 30, 0), Vec::new()),
    ];
    let doc = encode_frames_doc(&frames);
    let back = decode_frames_doc(Some(doc.as_str())).expect("the document decodes");
    assert_eq!(back.len(), frames.len());
    for (f, g) in frames.iter().zip(back.iter()) {
        assert_eq!(f.id, g.id);
        assert_eq!(f.start, g.start);
        assert_eq!(f.end, g.end);
        assert_eq!(f.tags, g.tags);
    }
}

#[test]
fn state_round_trips_through_the_marker() {
    let st = State { tags: tags(&["deep", "work"]), start: ts(2024, 6, 1, 8, 15, 0) };
    let doc = encode_state_doc(&st);
    let back = decode_state_doc(Some(doc.as_str()))
        .expect("the marker decodes")
        .expect("the marker holds an interval");
    assert_eq!(back.start, st.start);
    assert_eq!(back.tags, st.tags);
}

#[test]
fn tags_round_trip_through_the_registry() {
    let registry = tags(&["a", "", "with space", "wi:th,punct\"uation"]);
    let doc = encode_tags_doc(&registry);
    let back = decode_tags_doc(Some(doc.as_str())).expect("the registry decodes");
    assert_eq!(back, registry);
}

#[test]
fn awkward_tag_contents_survive_the_round_trip() {
    let frames = vec![Frame::new(
        ts(2024, 1, 2, 9, 0, 0),
        ts(2024, 1, 2, 10, 0, 0),
        tags(&["12:34", "a,b", "line\nbreak", "q\"uote"]),
    )];
    let doc = encode_frames_doc(&frames);
    let back = decode_frames_doc(Some(doc.as_str())).expect("the document decodes");
    assert_eq!(back[0].tags, frames[0].tags);
}

#[test]
fn absent_artifacts_mean_empty_and_idle() {
    assert!(decode_frames_doc(None).expect("absent is fine").is_empty());
    assert!(decode_state_doc(None).expect("absent is fine").is_none());
    assert!(decode_tags_doc(None).expect("absent is fine").is_empty());
}

#[test]
fn present_but_unreadable_artifacts_are_corrupt() {
    assert_eq!(decode_frames_doc(Some("garbage")).unwrap_err(), Error::CorruptState);
    assert_eq!(decode_state_doc(Some("garbage")).unwrap_err(), Error::CorruptState);
    assert_eq!(decode_tags_doc(Some("garbage")), Err(Error::CorruptState));
    // a count that promises more frames than the document holds
    assert_eq!(decode_frames_doc(Some("2:")).unwrap_err(), Error::CorruptState);
    // trailing text after a well-formed document
    let doc = encode_frames_doc(&Vec::new());
    let mut with_tail = doc.clone();
    with_tail.push('x');
    assert!(decode_frames_doc(Some(doc.as_str())).is_ok());
    assert_eq!(decode_frames_doc(Some(with_tail.as_str())).unwrap_err(), Error::CorruptState);
}

#[test]
fn the_document_format_is_pinned() {
    assert_eq!(encode_tags_doc(&tags(&["a", "bc"])), "2:1:a2:bc");
    assert_eq!(encode_tags_doc(&Vec::new()), "0:");
    let st = State { tags: tags(&["a"]), start: ts(2024, 1, 2, 3, 4, 5) };
    assert_eq!(encode_state_doc(&st), "2024-01-02 03:04:051:1:a");
    assert_eq!(encode_frames_doc(&Vec::new()), "0:");
}

#[test]
fn out_of_range_fields_and_counts_are_corrupt() {
    // month 13 in an otherwise well-shaped marker
    assert_eq!(
        decode_state_doc(Some("2024-13-01 00:00:001:1:a")).unwrap_err(),
        Error::CorruptState
    );
    // a length that no machine word holds
    assert_eq!(
        decode_tags_doc(Some("99999999999999999999:")).unwrap_err(),
        Error::CorruptState
    );
    // a tag count claiming more entries than the registry holds
    assert_eq!(decode_tags_doc(Some("2:1:a")).unwrap_err(), Error::CorruptState);
    // a well-formed marker decodes
    assert!(decode_state_doc(Some("2024-01-02 03:04:051:1:a")).is_ok());
}

#[test]
fn the_machine_loads_from_its_documents() {
    let mut rt = RTime {
        tags: Vec::new(),
        state: None,
        frames: Vec::new(),
        settings: Settings::with_home(String::from("/tmp/rt-home")),
    };
    let t1 = ts(2024, 3, 4, 9, 0, 0);
    let t2 = ts(2024, 3, 4, 10, 0, 0);
    rt.start(t1, tags(&["a"])).unwrap();
    rt.start(t2, tags(&["b"])).unwrap();
    let frames_doc = encode_frames_doc(&rt.frames);
    let state_doc = encode_state_doc(rt.state.as_ref().unwrap());
    let tags_doc = encode_tags_doc(&tags(&["a", "b"]));
    let loaded = RTime::new(
        Settings::with_home(String::from("/tmp/rt-home")),
        Some(state_doc.as_str()),
        Some(tags_doc.as_str()),
        Some(frames_doc.as_str()),
    )
    .expect("all three documents decode");
    assert_eq!(loaded.frames.len(), 1);
    assert_eq!(loaded.frames[0].start, t1);
    assert_eq!(loaded.frames[0].end, t2);
    assert_eq!(loaded.state.as_ref().unwrap().start, t2);
    assert_eq!(loaded.tags, tags(&["a", "b"]));
    let bad = RTime::new(
        Settings::with_home(String::from("/tmp/rt-home")),
        Some("garbage"),
        None,
        None,
    );
    assert!(bad.is_err());
}
