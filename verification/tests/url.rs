use rinse::url::{parse_http_url, rinse_channel};

fn parts(url: &str) -> Result<(String, u16, String, bool), String> {
    parse_http_url(url)
}

fn ok(host: &str, port: u16, path: &str, https: bool) -> Result<(String, u16, String, bool), String> {
    Ok((host.to_string(), port, path.to_string(), https))
}

#[test]
fn address_with_port_and_path() {
    assert_eq!(
        parts("http://admin.stream.rinse.fm:8820/stream"),
        ok("admin.stream.rinse.fm", 8820, "/stream", false)
    );
    assert_eq!(parts("https://h:1/a/b:c/d"), ok("h", 1, "/a/b:c/d", true));
}

#[test]
fn address_without_port_has_the_port_of_its_scheme() {
    assert_eq!(
        parts("https://admin.stream.rinse.fm/proxy/rinse_uk/stream"),
        ok("admin.stream.rinse.fm", 443, "/proxy/rinse_uk/stream", true)
    );
    assert_eq!(parts("http://host"), ok("host", 80, "/", false));
    assert_eq!(parts("https://"), ok("", 443, "/", true));
}

#[test]
fn address_with_colons_in_its_host() {
    assert_eq!(parts("http://[::1]:8000/s"), ok("[::1]", 8000, "/s", false));
    assert_eq!(parts("http://a:b:9"), ok("a:b", 9, "/", false));
}

#[test]
fn address_without_a_known_scheme() {
    let e = Err("URL must start with http:// or https://".to_string());
    assert_eq!(parts("ftp://host/"), e);
    assert_eq!(parts(""), e);
    assert_eq!(parts("HTTP://host/"), e);
    assert_eq!(parts("http:/host/"), e);
}

#[test]
fn address_with_a_bad_port() {
    for port in ["", "x", "65536", "-1", "80 ", "+", "99999999999999999999999"] {
        assert_eq!(parts(&format!("http://h:{}/p", port)), Err("bad port".to_string()));
    }
}

#[test]
fn ports_are_read_as_the_standard_library_reads_them() {
    for port in ["0", "00080", "+80", "65535", "65536", "080", "1e3", "٣", "-0", "+-1", "++1"] {
        let want = port.parse::<u16>().ok();
        let got = parts(&format!("http://h:{}", port)).ok().map(|p| p.1);
        assert_eq!(got, want);
    }
}

#[test]
fn channel_of_the_stations_own_mounts() {
    let front = "https://admin.stream.rinse.fm/proxy/";
    assert_eq!(rinse_channel(&format!("{}rinse_uk/stream", front)), Some("uk".to_string()));
    assert_eq!(rinse_channel(&format!("{}kool/stream", front)), Some("kool".to_string()));
    assert_eq!(rinse_channel(&format!("{}kool", front)), Some("kool".to_string()));
    assert_eq!(rinse_channel(&format!("{}rinse_", front)), Some(String::new()));
    assert_eq!(rinse_channel(front), Some(String::new()));
    assert_eq!(rinse_channel(&format!("{}rinse_rinse_a/", front)), Some("rinse_a".to_string()));
}

#[test]
fn no_channel_for_other_addresses() {
    assert_eq!(rinse_channel("http://127.0.0.1:8899/stream"), None);
    assert_eq!(rinse_channel("http://admin.stream.rinse.fm:8820/stream"), None);
    assert_eq!(rinse_channel(""), None);
}

#[test]
fn channel_ends_where_the_mark_comes_again() {
    let mark = "admin.stream.rinse.fm/proxy/";
    assert_eq!(rinse_channel(&format!("{}x{}y/z", mark, mark)), Some("x".to_string()));
}

#[test]
fn mark_after_the_mount_makes_no_difference() {
    let mark = "admin.stream.rinse.fm/proxy/";
    assert_eq!(rinse_channel(&format!("{}kool/{}rinse_uk/", mark, mark)), Some("kool".to_string()));
    assert_eq!(rinse_channel(&format!("{}{}", mark, mark)), Some(String::new()));
}

#[test]
fn no_channel_where_another_host_holds_the_mark() {
    let path = "/admin.stream.rinse.fm/proxy/kool/stream";
    assert_eq!(rinse_channel(&format!("http://example.com{}", path)), None);
    assert_eq!(rinse_channel(&format!("https://example.com{}", path)), None);
    assert_eq!(rinse_channel(&format!("https://{}", path)), None);
    assert_eq!(rinse_channel(&format!("example.com{}", path)), None);
    assert_eq!(rinse_channel(&format!("example.com/{}", path)), None);
    assert_eq!(rinse_channel("http://example.com:admin.stream.rinse.fm/proxy/kool"), None);
    assert_eq!(rinse_channel("http://example.com?admin.stream.rinse.fm/proxy/kool"), None);
    assert_eq!(rinse_channel("http://example.com#admin.stream.rinse.fm/proxy/kool"), None);
    assert_eq!(rinse_channel("example.com?u=https://admin.stream.rinse.fm/proxy/kool"), None);
    assert_eq!(rinse_channel("https://example.com/?u=https://admin.stream.rinse.fm/proxy/kool"), None);
    assert_eq!(
        rinse_channel("http://admin.stream.rinse.fm/proxy/kool/stream"),
        Some("kool".to_string())
    );
}

#[test]
fn channel_whatever_the_scheme_and_the_user() {
    let own = "admin.stream.rinse.fm/proxy/kool/stream";
    for front in ["http://", "https://", "ftp://", "HTTPS://", "://", "//", "", "https://x@", "http://u:p@"] {
        assert_eq!(rinse_channel(&format!("{}{}", front, own)), Some("kool".to_string()));
    }
    assert_eq!(rinse_channel(&format!("https://not-{}", own)), Some("kool".to_string()));
    assert_eq!(rinse_channel("icy://admin.stream.rinse.fm/proxy/rinse_uk"), Some("uk".to_string()));
}
