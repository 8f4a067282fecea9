use rinse::icy::{fanout, parse_meta, stream_request, title_in, Phase, Session, Want, BUFFER};
use rinse::state::StreamState;

fn lines(session: &mut Session, state: &mut StreamState, all: &[&str]) {
    for line in all {
        assert_eq!(session.want(), Want::Line);
        assert_eq!(session.on_line(line, state), Ok(()));
    }
}

/// Reads `body` to its end as a connection would, and gives the audio, the titles and the error.
fn listen(session: &mut Session, state: &mut StreamState, body: &[u8]) -> (Vec<u8>, Vec<String>, String) {
    let mut at = 0;
    let mut audio = Vec::new();
    let mut titles = Vec::new();
    loop {
        let n = match session.want() {
            Want::Line => unreachable!(),
            Want::Exact(n) => {
                if body.len() - at < n {
                    return (audio, titles, session.on_failure("unexpected end of file"));
                }
                n
            }
            Want::UpTo(n) => n.min(body.len() - at).min(1000),
        };
        let bytes = &body[at..at + n];
        at += n;
        match session.on_bytes(bytes, state) {
            Ok(true) => audio.extend_from_slice(bytes),
            Ok(false) => {
                if titles.last() != Some(&state.title) {
                    titles.push(state.title.clone());
                }
            }
            Err(e) => return (audio, titles, e),
        }
    }
}

fn block(text: &str) -> Vec<u8> {
    let mut bytes = text.as_bytes().to_vec();
    while bytes.len() % 16 != 0 {
        bytes.push(0);
    }
    let mut out = vec![(bytes.len() / 16) as u8];
    out.extend(bytes);
    out
}

#[test]
fn request_asks_for_metadata() {
    assert_eq!(
        stream_request("example.org", "/live"),
        "GET /live HTTP/1.0\r\nHost: example.org\r\nIcy-MetaData: 1\r\nUser-Agent: rinse-cli/1.0\r\nConnection: close\r\n\r\n"
    );
}

#[test]
fn both_kinds_of_status_line_are_good() {
    for line in ["ICY 200 OK\r\n", "HTTP/1.0 200 OK\r\n", "200"] {
        let mut session = Session::new();
        let mut state = StreamState::connecting();
        assert_eq!(session.on_line(line, &mut state), Ok(()));
        assert_eq!(session.phase, Phase::Headers);
        assert_eq!(state.status, "connecting…");
    }
}

#[test]
fn bad_status_line_is_reported_trimmed() {
    let mut session = Session::new();
    let mut state = StreamState::connecting();
    assert_eq!(
        session.on_line("HTTP/1.0 404 Not Found\r\n", &mut state),
        Err("bad status: HTTP/1.0 404 Not Found".to_string())
    );
    assert_eq!(session.on_line("", &mut state), Err("bad status: ".to_string()));
    assert_eq!(state.status, "connecting…");
}

#[test]
fn headers_give_interval_and_station() {
    let mut session = Session::new();
    let mut state = StreamState::connecting();
    lines(
        &mut session,
        &mut state,
        &["ICY 200 OK\r\n", "Icy-MetaInt : 8192\r\n", "ICY-NAME: Rinse: FM \r\n", "junk\r\n", "icy-name:\r\n"],
    );
    assert_eq!(session.metaint, 8192);
    assert_eq!(state.station, "Rinse: FM");
    lines(&mut session, &mut state, &["\r\n"]);
    assert_eq!(state.status, "live");
    assert_eq!(session.phase, Phase::Audio(8192));
}

#[test]
fn interval_is_read_as_the_standard_library_reads_it() {
    for v in ["16", "+16", "0", "-1", "", "1 6", "x", "18446744073709551615", "18446744073709551616"] {
        let mut session = Session::new();
        let mut state = StreamState::connecting();
        lines(&mut session, &mut state, &["200", "icy-metaint: 7", &format!("icy-metaint:{}", v)]);
        assert_eq!(session.metaint, v.parse().unwrap_or(0));
    }
}

#[test]
fn body_is_taken_apart() {
    let mut session = Session::new();
    let mut state = StreamState::connecting();
    lines(&mut session, &mut state, &["ICY 200 OK", "icy-metaint: 10000", ""]);
    assert_eq!(session.want(), Want::Exact(BUFFER));
    let audio: Vec<u8> = (0..30000u32).map(|i| (i * 7 % 251) as u8).collect();
    let mut body = Vec::new();
    body.extend_from_slice(&audio[..10000]);
    body.extend(block("StreamTitle='Artist - Track';StreamUrl='';"));
    body.extend_from_slice(&audio[10000..20000]);
    body.push(0);
    body.extend_from_slice(&audio[20000..]);
    body.extend(block("StreamTitle='Test Show - Live';"));
    let (heard, titles, error) = listen(&mut session, &mut state, &body);
    assert_eq!(heard, audio);
    assert_eq!(
        titles,
        vec!["".to_string(), "Artist - Track".to_string(), "Test Show - Live".to_string()]
    );
    assert_eq!(error, "stream ended");
}

#[test]
fn body_without_metadata_is_all_audio() {
    let mut session = Session::new();
    let mut state = StreamState::connecting();
    lines(&mut session, &mut state, &["ICY 200 OK", "\r\n"]);
    assert_eq!(session.want(), Want::UpTo(BUFFER));
    let audio: Vec<u8> = (0..5000u32).map(|i| i as u8).collect();
    let (heard, titles, error) = listen(&mut session, &mut state, &audio);
    assert_eq!(heard, audio);
    assert!(titles.is_empty());
    assert_eq!(error, "stream ended");
}

#[test]
fn failures_are_reported_by_phase() {
    let error = "connection reset";
    assert_eq!(Session::new().on_failure(error), error);
    assert_eq!(Session { phase: Phase::Plain, metaint: 0 }.on_failure(error), error);
    assert_eq!(Session { phase: Phase::Audio(1), metaint: 1 }.on_failure(error), "stream ended");
    assert_eq!(Session { phase: Phase::Length, metaint: 1 }.on_failure(error), "stream ended");
    assert_eq!(Session { phase: Phase::Meta(16), metaint: 1 }.on_failure(error), "stream ended");
}

#[test]
fn length_byte_counts_sixteens() {
    let mut state = StreamState::default();
    let mut session = Session { phase: Phase::Length, metaint: 5 };
    assert_eq!(session.on_bytes(&[255], &mut state), Ok(false));
    assert_eq!(session.want(), Want::Exact(4080));
    let mut session = Session { phase: Phase::Length, metaint: 5 };
    assert_eq!(session.on_bytes(&[0], &mut state), Ok(false));
    assert_eq!(session.want(), Want::Exact(5));
}

#[test]
fn titles_in_blocks() {
    assert_eq!(title_in("StreamTitle='A - B';StreamUrl='';\0\0\0"), Some("A - B".to_string()));
    assert_eq!(title_in("x StreamTitle='  it's \u{2009}';"), Some("it's".to_string()));
    assert_eq!(title_in("StreamTitle='';"), None);
    assert_eq!(title_in("StreamTitle=' \t ';"), None);
    assert_eq!(title_in("StreamTitle='open"), None);
    assert_eq!(title_in("StreamTitle='open'\0;"), None);
    assert_eq!(title_in("StreamTitle='StreamTitle='x';"), Some("StreamTitle='x".to_string()));
    assert_eq!(title_in("StreamUrl='';"), None);
    assert_eq!(title_in("\0\0"), None);
    assert_eq!(title_in("StreamTitle='a\0';\0"), Some("a\0".to_string()));
}

#[test]
fn white_space_is_that_of_the_standard_library() {
    for n in (0..0x3100u32).chain(0xfe00..0x10100) {
        if let Some(c) = char::from_u32(n) {
            let s = format!("{}x{}", c, c);
            assert_eq!(title_in(&format!("StreamTitle='{}';", s)), Some(s.trim().to_string()));
        }
    }
}

#[test]
fn ill_formed_bytes_are_replaced() {
    let mut state = StreamState::default();
    parse_meta(b"StreamTitle='caf\xe9 \xe2\x99\xaa';\0\0", &mut state);
    assert_eq!(state.title, "caf\u{fffd} ♪");
    parse_meta(b"StreamTitle='';", &mut state);
    assert_eq!(state.title, "caf\u{fffd} ♪");
    parse_meta(b"\xff\xff", &mut state);
    assert_eq!(state.title, "caf\u{fffd} ♪");
}

#[test]
fn title_comes_back_from_its_block() {
    let mut state = StreamState::default();
    let bytes = block("StreamTitle='Ünïcode ♪ show';StreamUrl='http://x';");
    parse_meta(&bytes[1..], &mut state);
    assert_eq!(state.title, "Ünïcode ♪ show");
    assert_eq!(state.station, "");
}

#[test]
fn every_sink_gets_the_data() {
    assert_eq!(fanout(2, &[1, 2, 3]), vec![vec![1, 2, 3], vec![1, 2, 3]]);
    assert_eq!(fanout(0, &[1]), Vec::<Vec<u8>>::new());
}

#[test]
fn body_that_is_cut_off_is_heard_as_far_as_it_came() {
    let mut state = StreamState::default();
    let mut session = Session { phase: Phase::Audio(9000), metaint: 9000 };
    let audio: Vec<u8> = (0..18000u32).map(|i| (i % 253) as u8).collect();
    let mut body = audio[..9000].to_vec();
    body.extend(block("StreamTitle='First';"));
    body.extend_from_slice(&audio[9000..17500]);
    let (heard, titles, error) = listen(&mut session, &mut state, &body);
    assert_eq!(heard, audio[..9000 + BUFFER].to_vec());
    assert_eq!(titles.last(), Some(&"First".to_string()));
    assert_eq!(error, "stream ended");
}

#[test]
fn body_without_metadata_may_come_in_any_reads() {
    let audio: Vec<u8> = (0..20000u32).map(|i| (i * 3) as u8).collect();
    for size in [1, 7, 1000, BUFFER] {
        let mut state = StreamState::default();
        state.title = "Kept".to_string();
        let mut session = Session { phase: Phase::Plain, metaint: 0 };
        let mut heard = Vec::new();
        for read in audio.chunks(size) {
            assert_eq!(session.on_bytes(read, &mut state), Ok(true));
            heard.extend_from_slice(read);
        }
        assert_eq!(heard, audio);
        assert_eq!(session.phase, Phase::Plain);
        assert_eq!(state.title, "Kept");
        assert_eq!(session.on_bytes(&[], &mut state), Err("stream ended".to_string()));
    }
}

#[test]
fn zeros_at_the_end_of_a_block_make_no_difference() {
    for text in ["StreamTitle='Caf\u{e9} \u{266a}';", "StreamTitle='a", "StreamTitle='';", ""] {
        let mut padded = text.as_bytes().to_vec();
        padded.extend([0u8; 16]);
        let mut state = StreamState::default();
        let mut want = StreamState::default();
        parse_meta(&padded, &mut state);
        parse_meta(text.as_bytes(), &mut want);
        assert_eq!(state.title, want.title);
        assert_eq!(state.title, title_in(text).unwrap_or_default());
    }
}
