use rinse::state::StreamState;

#[test]
fn headline_prefers_the_show() {
    let mut s = StreamState::connecting();
    assert_eq!(s.headline(), "connecting…");
    s.station = "Rinse FM".to_string();
    assert_eq!(s.headline(), "Rinse FM");
    s.title = "Track".to_string();
    assert_eq!(s.headline(), "♪ Track");
    s.now_playing(Some("Show".to_string()));
    assert_eq!(s.headline(), "♪ Show");
}

#[test]
fn lost_connection_is_shown_with_its_reason() {
    let mut s = StreamState::default();
    s.reconnecting("stream ended");
    assert_eq!(s.status, "reconnecting… (stream ended)");
    assert_eq!(s.headline(), "reconnecting… (stream ended)");
}

#[test]
fn last_show_is_kept() {
    let mut s = StreamState::default();
    s.now_playing(Some("One".to_string()));
    s.now_playing(None);
    assert_eq!(s.show, "One");
    s.now_playing(Some("Two".to_string()));
    assert_eq!(s.show, "Two");
}
