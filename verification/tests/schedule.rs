use rinse::civil::days_from_civil;
use rinse::schedule::{
    body_start, check_ends, checked_current_show, current_show, find_show, parse_schedule,
    read_episode, read_episodes, schedule_request, show_name, EndOverflow, Episode,
};
use serde_json::Value;

fn some(s: &str) -> Option<String> {
    Some(s.to_string())
}

/// An episode of the channel `uk` on 2026-07-01, from 10:30 for an hour.
fn episode() -> Episode {
    Episode {
        slug: some("uk"),
        date: some("2026-07-01T00:00:00.000Z"),
        time: some("1970-01-01T10:30:00.000Z"),
        length: None,
        artist: some("Artist"),
        title: some("Title - Guest"),
    }
}

fn day() -> i64 {
    days_from_civil(2026, 7, 1) * 86400
}

fn start() -> i64 {
    day() + (10 * 60 + 30) * 60
}

fn json(s: &str) -> Value {
    serde_json::from_slice(s.as_bytes()).unwrap()
}

const DOCUMENT: &str = r#"{"episodes": [
    {"channel": [{"slug": "kool"}], "episodeDate": "2026-07-01T00:00:00Z",
     "episodeTime": "1970-01-01T10:00:00Z", "episodeLength": 120, "artistTitle": "Kool Show"},
    {"channel": [{"slug": "uk"}, {"slug": "kool"}], "episodeDate": "2026-07-01T00:00:00Z",
     "episodeTime": "1970-01-01T10:00:00Z", "episodeLength": 120, "artistTitle": "  ",
     "title": "Morning Show - with Guest - live"},
    {"channel": [{"slug": "uk"}], "episodeDate": "2026-07-01T00:00:00Z",
     "episodeTime": "1970-01-01T12:00:00Z", "artistTitle": " Noon ♪ ", "title": "x"}
]}"#;

#[test]
fn request_for_the_schedule() {
    assert_eq!(
        schedule_request(),
        "GET /api/query/v1/schedule HTTP/1.0\r\nHost: www.rinse.fm\r\nUser-Agent: rinse-cli/1.0\r\nAccept: application/json\r\nConnection: close\r\n\r\n"
    );
}

#[test]
fn body_begins_after_the_first_blank_line() {
    assert_eq!(body_start(b"HTTP/1.0 200 OK\r\nA: b\r\n\r\n{}\r\n\r\n"), Some(25));
    assert_eq!(body_start(b"\r\n\r\n"), Some(4));
    assert_eq!(body_start(b"\r\n\r"), None);
    assert_eq!(body_start(b""), None);
    assert_eq!(body_start(b"\xff\r\n\r\n\xff"), Some(5));
}

#[test]
fn schedule_is_the_document_after_the_headers() {
    let v = parse_schedule(b"HTTP/1.0 200 OK\r\n\r\n{\"episodes\": []}").unwrap();
    assert_eq!(v.get("episodes").and_then(|e| e.as_array()).map(|a| a.len()), Some(0));
    assert!(parse_schedule(b"{\"episodes\": []}").is_none());
    assert!(parse_schedule(b"HTTP/1.0 200 OK\r\n\r\n{").is_none());
    assert!(parse_schedule(b"HTTP/1.0 200 OK\r\n\r\n").is_none());
}

#[test]
fn episode_is_on_air_within_its_window() {
    let list = vec![episode()];
    assert_eq!(find_show(&list, "uk", start() - 1), None);
    assert_eq!(find_show(&list, "uk", start()), some("Artist"));
    assert_eq!(find_show(&list, "uk", start() + 3599), some("Artist"));
    assert_eq!(find_show(&list, "uk", start() + 3600), None);
}

#[test]
fn length_is_in_minutes() {
    let mut e = episode();
    e.length = Some(90);
    let list = vec![e];
    assert_eq!(find_show(&list, "uk", start() + 90 * 60 - 1), some("Artist"));
    assert_eq!(find_show(&list, "uk", start() + 90 * 60), None);
    for length in [0, -5] {
        let mut e = episode();
        e.length = Some(length);
        assert_eq!(find_show(&vec![e], "uk", start()), None);
    }
}

#[test]
fn other_channels_do_not_count() {
    let mut other = episode();
    other.slug = some("kool");
    other.artist = some("Kool Artist");
    let mut nowhere = episode();
    nowhere.slug = None;
    let list = vec![other, nowhere, episode()];
    assert_eq!(find_show(&list, "uk", start()), some("Artist"));
    assert_eq!(find_show(&list, "kool", start()), some("Kool Artist"));
    assert_eq!(find_show(&list, "UK", start()), None);
    assert_eq!(find_show(&list, "", start()), None);
}

#[test]
fn first_episode_with_a_name_is_taken() {
    let mut nameless = episode();
    nameless.artist = some(" ");
    nameless.title = some("  - only a guest");
    let mut second = episode();
    second.artist = some("Second");
    let mut third = episode();
    third.artist = some("Third");
    assert_eq!(find_show(&vec![nameless, second, third], "uk", start()), some("Second"));
}

#[test]
fn episodes_without_a_time_are_passed_over() {
    let mut list = Vec::new();
    for (date, time) in [
        (None, some("1970-01-01T10:30:00Z")),
        (some("2026-07-01T00:00:00Z"), None),
        (some("2026-07-01"), some("1970-01-01T10:30:00Z")),
        (some("2026-07-01T00:00:00Z"), some("1970-01-01T1x:30:00Z")),
        (some("2026-07-01T00:00:00Z"), some("1970-01-01T10:3")),
    ] {
        let mut e = episode();
        e.date = date;
        e.time = time;
        e.artist = some("Wrong");
        list.push(e);
    }
    list.push(episode());
    assert_eq!(find_show(&list, "uk", start()), some("Artist"));
}

#[test]
fn time_of_day_needs_no_seconds() {
    let mut e = episode();
    e.time = some("xxxxxxxxxxx10x30");
    assert_eq!(find_show(&vec![e], "uk", start()), some("Artist"));
}

#[test]
fn day_of_broadcast_may_begin_before_midnight() {
    let mut e = episode();
    e.date = some("2026-06-30T23:00:00.000Z");
    assert_eq!(find_show(&vec![e], "uk", start() - 3600), some("Artist"));
}

#[test]
fn names_of_shows() {
    let name = |artist: Option<&str>, title: Option<&str>| {
        let mut e = episode();
        e.artist = artist.map(|s| s.to_string());
        e.title = title.map(|s| s.to_string());
        show_name(&e)
    };
    assert_eq!(name(Some("  A  "), Some("T - x")), some("A"));
    assert_eq!(name(Some(" "), Some("T - x - y")), some("T"));
    assert_eq!(name(None, Some(" T-x ")), some("T-x"));
    assert_eq!(name(None, Some("T -x")), some("T -x"));
    assert_eq!(name(None, Some(" - x")), None);
    assert_eq!(name(None, Some("")), None);
    assert_eq!(name(None, None), None);
    assert_eq!(name(Some(""), None), None);
}

#[test]
fn episodes_are_read_from_the_document() {
    let list = read_episodes(&json(DOCUMENT)).unwrap();
    assert_eq!(list.len(), 3);
    assert_eq!(list[0].slug, some("kool"));
    assert_eq!(list[0].length, Some(120));
    assert_eq!(list[0].title, None);
    assert_eq!(list[1].slug, some("uk"));
    assert_eq!(list[1].date, some("2026-07-01T00:00:00Z"));
    assert_eq!(list[1].time, some("1970-01-01T10:00:00Z"));
    assert_eq!(list[2].length, None);
    assert_eq!(list[2].artist, some(" Noon ♪ "));
}

#[test]
fn members_of_another_kind_are_missing() {
    let e = read_episode(&json(
        r#"{"channel": {"slug": "uk"}, "episodeDate": 5, "episodeTime": null,
            "episodeLength": 60.5, "artistTitle": ["a"], "title": true}"#,
    ));
    assert_eq!(e.slug, None);
    assert_eq!(e.date, None);
    assert_eq!(e.time, None);
    assert_eq!(e.length, None);
    assert_eq!(e.artist, None);
    assert_eq!(e.title, None);
    assert_eq!(read_episode(&json(r#"{"channel": []}"#)).slug, None);
    assert_eq!(read_episode(&json(r#"{"channel": [1, {"slug": "uk"}]}"#)).slug, None);
    assert_eq!(read_episode(&json(r#"{"episodeLength": 9223372036854775808}"#)).length, None);
    assert_eq!(read_episode(&json(r#"{"episodeLength": -7}"#)).length, Some(-7));
    assert_eq!(read_episode(&json("[]")).title, None);
}

#[test]
fn schedule_without_a_list_has_no_episodes() {
    assert!(read_episodes(&json("{}")).is_none());
    assert!(read_episodes(&json("[]")).is_none());
    assert!(read_episodes(&json(r#"{"episodes": {}}"#)).is_none());
    assert_eq!(current_show(&json("{}"), "uk", 0), None);
}

#[test]
fn show_on_air_in_the_document() {
    let v = json(DOCUMENT);
    let at = |h: i64, m: i64| day() + h * 3600 + m * 60;
    assert_eq!(current_show(&v, "uk", at(9, 59)), None);
    assert_eq!(current_show(&v, "uk", at(10, 0)), some("Morning Show"));
    assert_eq!(current_show(&v, "uk", at(11, 59)), some("Morning Show"));
    assert_eq!(current_show(&v, "uk", at(12, 0)), some("Noon ♪"));
    assert_eq!(current_show(&v, "uk", at(13, 0)), None);
    assert_eq!(current_show(&v, "kool", at(11, 0)), some("Kool Show"));
    assert_eq!(current_show(&v, "fr", at(11, 0)), None);
    assert_eq!(checked_current_show(&v, "uk", at(12, 0)), Ok(some("Noon ♪")));
}

#[test]
fn ends_beyond_the_range_are_found() {
    let with = |length: &str| {
        json(&format!(
            r#"{{"episodes": [{{"channel": [{{"slug": "uk"}}], "episodeDate": "2026-07-01T00:00:00Z",
                "episodeTime": "1970-01-01T10:00:00Z", "episodeLength": {}, "title": "x"}}]}}"#,
            length
        ))
    };
    assert_eq!(checked_current_show(&with("9223372036854775807"), "uk", 0), Err(EndOverflow));
    assert_eq!(checked_current_show(&with("153722867280912930"), "uk", 0), Err(EndOverflow));
    assert_eq!(checked_current_show(&with("9223372036854775807"), "kool", 0), Ok(None));
    assert_eq!(checked_current_show(&with("9223372036854775808"), "uk", 0), Ok(None));
    assert_eq!(checked_current_show(&with("153722867200000000"), "uk", start()), Ok(some("x")));
    let mut late = episode();
    late.length = Some(i64::MAX);
    assert!(check_ends(&vec![episode()], "uk", 0));
    assert!(check_ends(&vec![episode(), late], "uk", start()));
    let mut late = episode();
    late.length = Some(i64::MAX);
    assert!(!check_ends(&vec![episode(), late], "uk", 0));
}
