use rinse::args::{is_quit, parse_args, RINSE_URL};
use rinse::url::rinse_channel;

fn parse(args: &[&str]) -> Option<(String, usize, bool)> {
    let args: Vec<String> = args.iter().map(|s| s.to_string()).collect();
    parse_args(&args).map(|a| (a.url, a.bars, a.no_audio))
}

#[test]
fn defaults() {
    assert_eq!(parse(&[]), Some((RINSE_URL.to_string(), 128, false)));
    assert_eq!(rinse_channel(RINSE_URL), Some("uk".to_string()));
}

#[test]
fn every_option() {
    assert_eq!(
        parse(&["--no-audio", "--bars", "+40", "--url", "http://127.0.0.1:8899/stream"]),
        Some(("http://127.0.0.1:8899/stream".to_string(), 40, true))
    );
    assert_eq!(parse(&["--url", "--bars"]), Some(("--bars".to_string(), 128, false)));
}

#[test]
fn last_option_of_a_kind_counts() {
    assert_eq!(
        parse(&["--bars", "1", "--url", "a", "--bars", "2", "--url", "b"]),
        Some(("b".to_string(), 2, false))
    );
}

#[test]
fn usage_is_shown_for_the_rest() {
    assert_eq!(parse(&["--url"]), None);
    assert_eq!(parse(&["--bars"]), None);
    assert_eq!(parse(&["--bars", "many"]), None);
    assert_eq!(parse(&["--bars", "-1"]), None);
    assert_eq!(parse(&["--help"]), None);
    assert_eq!(parse(&["--no-audio", "x"]), None);
    assert_eq!(parse(&[""]), None);
}

#[test]
fn keys_that_quit() {
    assert!(is_quit(Some('q'), false));
    assert!(is_quit(Some('Q'), true));
    assert!(is_quit(Some('c'), true));
    assert!(!is_quit(Some('c'), false));
    assert!(!is_quit(Some('C'), true));
    assert!(!is_quit(Some('x'), true));
    assert!(!is_quit(None, true));
}
