use rustytime::errors::Error;
use rustytime::settings::Settings;
use rustytime::tracker::{RTime, State};
use rustytime::ts::Timestamp;

fn ts(year: u32, month: u32, day: u32, hour: u32, minute: u32, second: u32) -> Timestamp {
    Timestamp { year, month, day, hour, minute, second }
}

fn tags(xs: &[&str]) -> Vec<String> {
    xs.iter().map(|s| s.to_string()).collect()
}

fn idle() -> RTime {
    RTime {
        tags: Vec::new(),
        state: None,
        frames: Vec::new(),
        settings: Settings::with_home(String::from("/tmp/rt-home")),
    }
}

#[test]
fn start_then_stop_yields_one_frame_with_the_tags() {
    let mut rt = idle();
    let at = ts(2024, 3, 4, 9, 0, 0);
    assert!(rt.start(at, tags(&["alpha", "beta"])).is_ok());
    rt.stop(at);
    assert!(rt.state.is_none());
    assert_eq!(rt.frames.len(), 1);
    assert_eq!(rt.frames[0].tags, tags(&["alpha", "beta"]));
    assert_eq!(rt.frames[0].start, at);
    assert_eq!(rt.frames[0].end, at);
}

#[test]
fn consecutive_starts_close_the_prior_interval() {
    let mut rt = idle();
    let t1 = ts(2024, 3, 4, 9, 0, 0);
    let t2 = ts(2024, 3, 4, 10, 0, 0);
    let t3 = ts(2024, 3, 4, 11, 0, 0);
    assert!(rt.start(t1, tags(&["a"])).is_ok());
    assert!(rt.start(t2, tags(&["b"])).is_ok());
    assert!(rt.start(t3, tags(&["c"])).is_ok());
    // three starts, no stop: exactly two frames
    assert_eq!(rt.frames.len(), 2);
    assert_eq!(rt.frames[0].start, t1);
    assert_eq!(rt.frames[0].end, t2);
    assert_eq!(rt.frames[0].tags, tags(&["a"]));
    assert_eq!(rt.frames[1].start, t2);
    assert_eq!(rt.frames[1].end, t3);
    let open = rt.state.as_ref().expect("an interval is open");
    assert_eq!(open.start, t3);
    assert_eq!(open.tags, tags(&["c"]));
}

#[test]
fn start_with_no_tags_fails_and_changes_nothing() {
    let mut rt = idle();
    let at = ts(2024, 3, 4, 9, 0, 0);
    assert!(rt.start(at, tags(&["a"])).is_ok());
    let frames_before = rt.frames.len();
    let r = rt.start(ts(2024, 3, 4, 10, 0, 0), Vec::new());
    assert_eq!(r, Err(Error::EmptyTagSet));
    assert_eq!(rt.frames.len(), frames_before);
    let open = rt.state.as_ref().expect("the prior interval is untouched");
    assert_eq!(open.start, at);
}

#[test]
fn stop_when_idle_is_a_quiet_no_op() {
    let mut rt = idle();
    rt.stop(ts(2024, 3, 4, 9, 0, 0));
    assert!(rt.state.is_none());
    assert_eq!(rt.frames.len(), 0);
}

#[test]
fn status_reports_the_open_interval() {
    let mut rt = idle();
    assert_eq!(rt.status(), "No frame started.");
    rt.state = Some(State { tags: tags(&["a", "b"]), start: ts(2024, 3, 4, 9, 0, 0) });
    assert_eq!(rt.status(), "Started frame [a b] at 2024-03-04 09:00:00");
}

#[test]
fn error_messages_name_each_failure() {
    assert_eq!(Error::EmptyTagSet.message(), "at least one tag is required");
    assert_eq!(Error::AlreadyTracking.message(), "an interval is already being tracked");
    assert_eq!(Error::NoActiveInterval.message(), "no interval is being tracked");
    assert_eq!(Error::CorruptState.message(), "a stored artifact could not be decoded");
    assert_eq!(Error::StorageError.message(), "the storage layer failed");
}
