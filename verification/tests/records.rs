use pr_tracker::store::parse_record;
use pr_tracker::store::render_record;

fn names(xs: &[&str]) -> Vec<String> {
    xs.iter().map(|x| x.to_string()).collect()
}

#[test]
fn record_round_trip() {
    let stored = names(&["nixos-unstable", "master", "release 23.05"]);
    let text = render_record(&stored);
    assert_eq!(parse_record(&text), Some(stored));
}

#[test]
fn empty_record_round_trip() {
    let stored: Vec<String> = Vec::new();
    let text = render_record(&stored);
    assert_eq!(parse_record(&text), Some(stored));
}

#[test]
fn record_format_is_a_json_array() {
    assert_eq!(render_record(&names(&["a", "b"])), "[\"a\",\"b\"]");
    assert_eq!(parse_record("[\"x\",\"y\"]"), Some(names(&["x", "y"])));
}

#[test]
fn corrupt_records_are_rejected() {
    assert_eq!(parse_record(""), None);
    assert_eq!(parse_record("{\"a\": 1}"), None);
    assert_eq!(parse_record("[1, 2]"), None);
    assert_eq!(parse_record("not json"), None);
}
