// The renderers build their documents by hand; these tests hold the output
// against real parsers for each encoding.

use rustytime::frame::Frame;
use rustytime::render::{render, Format};
use rustytime::ts::Timestamp;

fn ts(year: u32, month: u32, day: u32, hour: u32, minute: u32, second: u32) -> Timestamp {
    Timestamp { year, month, day, hour, minute, second }
}

fn tags(xs: &[&str]) -> Vec<String> {
    xs.iter().map(|s| s.to_string()).collect()
}

fn awkward_frames() -> Vec<Frame> {
    vec![
        Frame::new(
            ts(2024, 1, 2, 9, 0, 0),
            ts(2024, 1, 2, 10, 0, 0),
            tags(&["plain", "q\"uote", "back\\slash", "line\nbreak", "tab\there", "a,b"]),
        ),
        Frame::new(ts(2024, 1, 3, 9, 0, 0), ts(2024, 1, 3, 9, 30, 0), Vec::new()),
    ]
}

#[test]
fn the_json_document_parses_as_json() {
    let frames = awkward_frames();
    let out = render(Format::Json, &frames);
    let v: serde_json::Value = serde_json::from_str(&out).expect("valid JSON");
    let arr = v.as_array().expect("a top-level array");
    assert_eq!(arr.len(), 2);
    assert_eq!(arr[0]["id"].as_str().unwrap(), frames[0].id);
    assert_eq!(arr[0]["start"].as_str().unwrap(), "2024-01-02 09:00:00");
    assert_eq!(arr[0]["end"].as_str().unwrap(), "2024-01-02 10:00:00");
    let parsed_tags: Vec<String> = arr[0]["tags"]
        .as_array()
        .unwrap()
        .iter()
        .map(|t| t.as_str().unwrap().to_string())
        .collect();
    assert_eq!(parsed_tags, frames[0].tags);
    assert_eq!(arr[1]["tags"].as_array().unwrap().len(), 0);
}

#[test]
fn the_yaml_document_parses_as_yaml() {
    let frames = awkward_frames();
    let out = render(Format::Yaml, &frames);
    let v: serde_yaml::Value = serde_yaml::from_str(&out).expect("valid YAML");
    let arr = v.as_sequence().expect("a top-level sequence");
    assert_eq!(arr.len(), 2);
    assert_eq!(arr[0]["id"].as_str().unwrap(), frames[0].id);
    assert_eq!(arr[0]["start"].as_str().unwrap(), "2024-01-02 09:00:00");
    let parsed_tags: Vec<String> = arr[0]["tags"]
        .as_sequence()
        .unwrap()
        .iter()
        .map(|t| t.as_str().unwrap().to_string())
        .collect();
    assert_eq!(parsed_tags, frames[0].tags);
}

#[test]
fn the_csv_document_parses_as_csv() {
    let frames = awkward_frames();
    let out = render(Format::Csv, &frames);
    let mut reader = csv::ReaderBuilder::new()
        .has_headers(true)
        .from_reader(out.as_bytes());
    let headers = reader.headers().expect("a header row").clone();
    assert_eq!(&headers[0], "id");
    assert_eq!(&headers[1], "start");
    assert_eq!(&headers[2], "end");
    assert_eq!(&headers[3], "tags");
    let rows: Vec<csv::StringRecord> = reader.records().map(|r| r.expect("a valid row")).collect();
    assert_eq!(rows.len(), 2);
    assert_eq!(&rows[0][0], frames[0].id.as_str());
    assert_eq!(&rows[0][1], "2024-01-02 09:00:00");
    assert_eq!(&rows[0][2], "2024-01-02 10:00:00");
    assert_eq!(&rows[0][3], frames[0].tags.join(" "));
    assert_eq!(&rows[1][3], "");
}
