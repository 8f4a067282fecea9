//! Stream addresses: their parts, and the channel that one of the station's own stands for.

use vstd::prelude::*;
use vstd::string::*;
use crate::text;

verus! {

/// The parts of an address.
pub struct UrlParts {
    pub host: Seq<char>,
    pub port: u16,
    pub path: Seq<char>,
    pub https: bool,
}

/// The port of an address that names none.
pub open spec fn default_port(https: bool) -> u16 {
    if https {
        443
    } else {
        80
    }
}

/// The parts of an address without its scheme. The path begins at the first `/`, and is `/`
/// when there is none; the port follows the last `:` before the path.
pub open spec fn parts_of(rest: Seq<char>, https: bool) -> Result<UrlParts, Seq<char>> {
    let (hostport, path) = match text::find(rest, "/"@) {
        Some(i) => (rest.take(i), rest.skip(i)),
        None => (rest, "/"@),
    };
    match text::find_last(hostport, ':') {
        Some(i) => match text::unsigned(hostport.skip(i + 1), u16::MAX as int) {
            Some(port) => Ok(UrlParts { host: hostport.take(i), port: port as u16, path, https }),
            None => Err("bad port"@),
        },
        None => Ok(UrlParts { host: hostport, port: default_port(https), path, https }),
    }
}

/// The parts of an address, or what is wrong with it.
pub open spec fn http_url(url: Seq<char>) -> Result<UrlParts, Seq<char>> {
    if text::stands_at(url, "https://"@, 0) {
        parts_of(url.skip(8), true)
    } else if text::stands_at(url, "http://"@, 0) {
        parts_of(url.skip(7), false)
    } else {
        Err("URL must start with http:// or https://"@)
    }
}

/// The host, the port, the path and whether to use TLS, of the address `url`.
pub fn parse_http_url(url: &str) -> (r: Result<(String, u16, String, bool), String>)
    ensures
        match r {
            Ok((host, port, path, https)) => http_url(url@) == Ok::<UrlParts, Seq<char>>(
                UrlParts { host: host@, port, path: path@, https },
            ),
            Err(e) => http_url(url@) == Err::<UrlParts, Seq<char>>(e@),
        },
{
    let chars: Vec<char> = text::chars_of(url);
    proof {
        reveal_strlit("https://");
        reveal_strlit("http://");
        reveal_strlit("/");
    }
    let (start, https) = if text::begins_with(&chars, "https://") {
        (8usize, true)
    } else if text::begins_with(&chars, "http://") {
        (7usize, false)
    } else {
        return Err("URL must start with http:// or https://".to_owned());
    };
    let ghost rest = url@.skip(start as int);
    proof {
        text::lemma_find_stands(url@, "/"@, start as int);
        text::lemma_find_in_tail(url@, "/"@, start as int, start as int);
    }
    let (slash, path): (usize, String) = match text::find_in(&chars, "/", start) {
        Some(i) => {
            assert(rest.take(i - start) =~= url@.subrange(start as int, i as int));
            assert(rest.skip(i - start) =~= url@.subrange(i as int, url@.len() as int));
            (i, text::slice(url, i, chars.len()))
        },
        None => {
            assert(rest =~= url@.subrange(start as int, url@.len() as int));
            (chars.len(), "/".to_owned())
        },
    };
    let ghost hostport = url@.subrange(start as int, slash as int);
    match text::find_last_in(&chars, ':', start, slash) {
        Some(i) => {
            let colon: usize = start + i;
            assert(hostport.skip(i + 1) =~= url@.subrange(colon + 1, slash as int));
            assert(hostport.take(i as int) =~= url@.subrange(start as int, colon as int));
            match text::read_unsigned(&chars, colon + 1, slash, 65535) {
                Some(port) => Ok((text::slice(url, start, colon), port as u16, path, https)),
                None => Err("bad port".to_owned()),
            }
        },
        None => {
            let port: u16 = if https {
                443
            } else {
                80
            };
            Ok((text::slice(url, start, slash), port, path, https))
        },
    }
}

/// What stands before the mount in the address of one of the station's own streams.
pub open spec fn mark() -> Seq<char> {
    "admin.stream.rinse.fm/proxy/"@
}

/// The channel of a mount: `rinse_uk` is the channel `uk`, `kool` is `kool`.
pub open spec fn channel_of_mount(mount: Seq<char>) -> Seq<char> {
    if text::stands_at(mount, "rinse_"@, 0) {
        mount.skip(6)
    } else {
        mount
    }
}

/// None of the characters that end the authority of an address occurs in `s`.
pub open spec fn within_authority(s: Seq<char>) -> bool {
    text::lacks(s, '/') && text::lacks(s, '?') && text::lacks(s, '#')
}

/// Where the authority of an address begins: after the first `//`, where nothing or a scheme
/// comes before it, and else at the beginning.
pub open spec fn authority_start(url: Seq<char>) -> int {
    match text::find(url, "//"@) {
        Some(k) if within_authority(url.take(k)) && (k == 0 || url[k - 1] == ':') => k + 2,
        _ => 0,
    }
}

/// What comes after an authority that begins with `s` can still be in its host: only a user, up
/// to the last `@`, and the labels of a subdomain come before it, and no port.
pub open spec fn within_host(s: Seq<char>) -> bool {
    within_authority(s) && text::lacks(
        match text::find_last(s, '@') {
            Some(k) => s.skip(k + 1),
            None => s,
        },
        ':',
    )
}

/// What stands at `i` in an address is in its host.
pub open spec fn in_host(url: Seq<char>, i: int) -> bool {
    authority_start(url) <= i && within_host(url.subrange(authority_start(url), i))
}

/// The channel that an address stands for. The first mark must stand in the host, whatever the
/// scheme is; the mount is what comes after it, up to the next mark or `/`.
pub open spec fn channel_of(url: Seq<char>) -> Option<Seq<char>> {
    match text::find(url, mark()) {
        Some(i) if in_host(url, i) => {
            let mount = text::before(text::before(url.skip(i + 28), mark()), "/"@);
            Some(channel_of_mount(mount))
        },
        _ => None,
    }
}

fn is_within_authority(chars: &Vec<char>, from: usize, to: usize) -> (b: bool)
    requires
        from <= to <= chars@.len(),
    ensures
        b == within_authority(chars@.subrange(from as int, to as int)),
{
    text::lacks_in(chars, '/', from, to) && text::lacks_in(chars, '?', from, to)
        && text::lacks_in(chars, '#', from, to)
}

/// What stands at `i` in the address is in its host.
fn is_in_host(chars: &Vec<char>, i: usize) -> (b: bool)
    requires
        i <= chars@.len(),
    ensures
        b == in_host(chars@, i as int),
{
    let ghost url = chars@;
    proof {
        reveal_strlit("//");
        text::lemma_find_stands(url, "//"@, 0);
    }
    let len: usize = chars.len();
    let start: usize = match text::find_in(chars, "//", 0) {
        Some(k) => {
            assert(k + 2 <= len);
            assert(url.take(k as int) =~= url.subrange(0, k as int));
            if is_within_authority(chars, 0, k) && (k == 0 || chars[k - 1] == ':') {
                k + 2
            } else {
                0
            }
        },
        None => 0,
    };
    assert(start == authority_start(url));
    if start > i || !is_within_authority(chars, start, i) {
        return false;
    }
    let ghost front = url.subrange(start as int, i as int);
    let host: usize = match text::find_last_in(chars, '@', start, i) {
        Some(k) => {
            assert(front.skip(k + 1) =~= url.subrange(start + k + 1, i as int));
            start + k + 1
        },
        None => start,
    };
    text::lacks_in(chars, ':', host, i)
}

/// The channel that the address `url` stands for; none for an address that is not one of the
/// station's own.
pub fn rinse_channel(url: &str) -> (r: Option<String>)
    ensures
        match r {
            Some(channel) => channel_of(url@) == Some(channel@),
            None => channel_of(url@) is None,
        },
{
    let chars: Vec<char> = text::chars_of(url);
    proof {
        reveal_strlit("admin.stream.rinse.fm/proxy/");
        reveal_strlit("rinse_");
        reveal_strlit("/");
        text::lemma_find_stands(url@, mark(), 0);
    }
    let len: usize = chars.len();
    let start: usize = match text::find_in(&chars, "admin.stream.rinse.fm/proxy/", 0) {
        Some(i) => if is_in_host(&chars, i) {
            i + 28
        } else {
            return None;
        },
        None => return None,
    };
    let ghost after = url@.skip(start as int);
    let mut seg: Vec<char> = text::part(&chars, start, len);
    assert(seg@ =~= after);
    proof {
        text::lemma_find_stands(after, mark(), 0);
    }
    if let Some(i) = text::find_in(&seg, "admin.stream.rinse.fm/proxy/", 0) {
        seg = text::part(&seg, 0, i);
        assert(seg@ =~= after.take(i as int));
    }
    let ghost segment = seg@;
    proof {
        text::lemma_find_stands(segment, "/"@, 0);
    }
    let end: usize = match text::find_in(&seg, "/", 0) {
        Some(i) => i,
        None => seg.len(),
    };
    let mount: Vec<char> = text::part(&seg, 0, end);
    assert(mount@ =~= text::before(segment, "/"@));
    assert(mount@ =~= url@.subrange(start as int, start + end));
    if text::begins_with(&mount, "rinse_") {
        assert(mount@.skip(6) =~= url@.subrange(start + 6, start + end));
        Some(text::slice(url, start + 6, start + end))
    } else {
        Some(text::slice(url, start, start + end))
    }
}

/// The scheme of an address.
pub open spec fn scheme(https: bool) -> Seq<char> {
    if https {
        "https://"@
    } else {
        "http://"@
    }
}

/// An address that begins with its scheme is read by its parts.
proof fn lemma_scheme(https: bool, rest: Seq<char>)
    ensures
        http_url(scheme(https) + rest) == parts_of(rest, https),
{
    reveal_strlit("https://");
    reveal_strlit("http://");
    let url = scheme(https) + rest;
    if https {
        assert(url.subrange(0, 8) =~= "https://"@);
        assert(url.skip(8) =~= rest);
    } else {
        assert(url.subrange(0, 7) =~= "http://"@);
        assert(url.skip(7) =~= rest);
        assert(url[4] == ':');
        if text::stands_at(url, "https://"@, 0) {
            assert(url.subrange(0, 8)[4] == 's');
        }
    }
}

/// The path begins at the first `/`.
proof fn lemma_slash(hostport: Seq<char>, path: Seq<char>)
    requires
        forall|i: int| 0 <= i < hostport.len() ==> #[trigger] hostport[i] != '/',
        path.len() > 0 ==> path[0] == '/',
    ensures
        path.len() > 0 ==> text::find(hostport + path, "/"@) == Some(hostport.len() as int),
        path.len() == 0 ==> text::find(hostport + path, "/"@) is None,
        (hostport + path).take(hostport.len() as int) == hostport,
        (hostport + path).skip(hostport.len() as int) == path,
{
    reveal_strlit("/");
    let s = hostport + path;
    let n = hostport.len() as int;
    assert(s.take(n) =~= hostport);
    assert(s.skip(n) =~= path);
    assert forall|j: int| 0 <= j < n implies !text::stands_at(s, "/"@, j) by {
        if text::stands_at(s, "/"@, j) {
            assert(s.subrange(j, j + 1)[0] == hostport[j]);
        }
    }
    if path.len() > 0 {
        assert(s.subrange(n, n + 1) =~= "/"@);
        text::lemma_find_first(s, "/"@, 0, n);
    } else {
        text::lemma_find_stands(s, "/"@, 0);
        if text::find(s, "/"@) is Some {
            assert(text::stands_at(s, "/"@, text::find(s, "/"@).unwrap()));
        }
    }
}

/// The path of an address whose path is `path`: `/` when that is empty.
pub open spec fn path_or_root(path: Seq<char>) -> Seq<char> {
    if path.len() > 0 {
        path
    } else {
        "/"@
    }
}

/// The parts of an address come back from it: scheme, host, port and path, the path `/` where
/// none is written. The host must not hold a `/`, and the path, if there is one, begins with it.
pub proof fn law_parts_come_back(https: bool, host: Seq<char>, port: u16, path: Seq<char>)
    requires
        forall|i: int| 0 <= i < host.len() ==> #[trigger] host[i] != '/',
        path.len() > 0 ==> path[0] == '/',
    ensures
        http_url(scheme(https) + (host + seq![':'] + text::digits_of(port as nat) + path)) == Ok::<
            UrlParts,
            Seq<char>,
        >(UrlParts { host, port, path: path_or_root(path), https }),
{
    let number = text::digits_of(port as nat);
    let hostport = host + seq![':'] + number;
    let n = host.len() as int;
    text::law_number_comes_back(port as nat, u16::MAX as int);
    assert forall|i: int| 0 <= i < hostport.len() implies #[trigger] hostport[i] != '/' by {
        if i > n {
            assert(text::digit(number[i - n - 1]));
        }
    }
    lemma_scheme(https, hostport + path);
    lemma_slash(hostport, path);
    assert forall|j: int| n < j < hostport.len() implies #[trigger] hostport[j] != ':' by {
        assert(text::digit(number[j - n - 1]));
    }
    text::lemma_find_last_at(hostport, ':', n);
    assert(hostport.skip(n + 1) =~= number);
    assert(hostport.take(n) =~= host);
    assert(hostport + path =~= host + seq![':'] + number + path);
    if path.len() == 0 {
        assert(hostport + path =~= hostport);
    }
}

/// An address that names no port has the port of its scheme: 443 with TLS, 80 without.
pub proof fn law_port_is_the_schemes(https: bool, host: Seq<char>, path: Seq<char>)
    requires
        forall|i: int| 0 <= i < host.len() ==> #[trigger] host[i] != '/' && host[i] != ':',
        path.len() > 0 ==> path[0] == '/',
    ensures
        http_url(scheme(https) + (host + path)) == Ok::<UrlParts, Seq<char>>(
            UrlParts { host, port: default_port(https), path: path_or_root(path), https },
        ),
{
    lemma_scheme(https, host + path);
    lemma_slash(host, path);
    text::lemma_find_last_none(host, ':');
    if path.len() == 0 {
        assert(host + path =~= host);
    }
}

/// The channel comes back from an address with its mount, whatever comes after: the mount
/// `rinse_uk` gives `uk`, `kool` gives `kool`. The first mark stands in the host, and does not
/// begin again within the mount, which a `/` or the next mark ends.
pub proof fn law_channel_comes_back(front: Seq<char>, mount: Seq<char>, more: Seq<char>)
    requires
        text::lacks(mount, '/'),
        more.len() > 0 ==> more[0] == '/' || text::stands_at(more, mark(), 0),
        text::find(front + mark() + mount + more, mark()) == Some(front.len() as int),
        in_host(front + mark() + mount + more, front.len() as int),
        forall|j: int| 0 <= j < mount.len() ==> !text::stands_at(mount + more, mark(), j),
    ensures
        channel_of(front + mark() + mount + more) == Some(channel_of_mount(mount)),
{
    reveal_strlit("admin.stream.rinse.fm/proxy/");
    let url = front + mark() + mount + more;
    let n = front.len() as int;
    assert(url.subrange(n, n + 28) =~= mark());
    let after = url.skip(n + 28);
    assert(after =~= mount + more);
    text::lemma_find_stands(after, mark(), 0);
    let len = mount.len() as int;
    if text::stands_at(more, mark(), 0) {
        assert(after.subrange(len, len + 28) =~= more.subrange(0, 28));
        assert(text::stands_at(after, mark(), len));
    }
    let tail = match text::find(after, mark()) {
        Some(k) => {
            assert(after.subrange(k, k + 28)[0] == after[k]);
            assert(k >= len);
            more.take(k - len)
        },
        None => more,
    };
    let segment = text::before(after, mark());
    assert(segment =~= mount + tail);
    lemma_slash(mount, tail);
    if tail.len() == 0 {
        assert(segment =~= mount);
    }
    assert(text::before(segment, "/"@) =~= mount);
}

/// An address stands for a channel exactly when it holds the mark, and first in its host: what
/// an address of another host holds further on makes no difference.
pub proof fn law_channel_needs_the_mark(url: Seq<char>)
    ensures
        channel_of(url) is Some <==> (text::find(url, mark()) matches Some(i) && in_host(url, i)),
{
}

/// What characters the mark is made of.
proof fn lemma_mark()
    ensures
        mark().len() == 28,
        mark()[0] == 'a',
        mark()[21] == '/',
        within_authority(mark().take(21)),
        text::lacks(mark(), ':'),
        mark().take(21) == "admin.stream.rinse.fm"@,
{
    reveal_strlit("admin.stream.rinse.fm/proxy/");
    reveal_strlit("admin.stream.rinse.fm");
    assert forall|i: int| 0 <= i < 28 implies #[trigger] mark()[i] != ':' by {
        assert(i == 0 || i == 1 || i == 2 || i == 3 || i == 4 || i == 5 || i == 6 || i == 7 || i
            == 8 || i == 9 || i == 10 || i == 11 || i == 12 || i == 13 || i == 14 || i == 15 || i
            == 16 || i == 17 || i == 18 || i == 19 || i == 20 || i == 21 || i == 22 || i == 23 || i
            == 24 || i == 25 || i == 26 || i == 27);
    }
    assert(mark().take(21) =~= "admin.stream.rinse.fm"@);
    assert forall|i: int| 0 <= i < 21 implies #[trigger] mark().take(21)[i] != '/'
        && mark().take(21)[i] != '?' && mark().take(21)[i] != '#' by {
        assert(i == 0 || i == 1 || i == 2 || i == 3 || i == 4 || i == 5 || i == 6 || i == 7 || i
            == 8 || i == 9 || i == 10 || i == 11 || i == 12 || i == 13 || i == 14 || i == 15 || i
            == 16 || i == 17 || i == 18 || i == 19 || i == 20);
    }
}

/// The authority of an address begins after its scheme, whatever the scheme is.
proof fn lemma_authority_start(scheme: Seq<char>, rest: Seq<char>)
    requires
        within_authority(scheme),
    ensures
        authority_start(scheme + "://"@ + rest) == scheme.len() + 3,
{
    reveal_strlit("//");
    reveal_strlit("://");
    let url = scheme + "://"@ + rest;
    let n = scheme.len() as int;
    assert(url[n] == ':' && url[n + 1] == '/' && url[n + 2] == '/');
    assert(url.subrange(n + 1, n + 3) =~= "//"@);
    assert forall|j: int| 0 <= j < n + 1 implies !text::stands_at(url, "//"@, j) by {
        if text::stands_at(url, "//"@, j) {
            assert(url.subrange(j, j + 2)[0] == url[j]);
            if j < n {
                assert(url[j] == scheme[j]);
            }
        }
    }
    text::lemma_find_first(url, "//"@, 0, n + 1);
    let before = url.take(n + 1);
    assert forall|i: int| 0 <= i < before.len() implies #[trigger] before[i] != '/' && before[i]
        != '?' && before[i] != '#' by {
        if i < n {
            assert(before[i] == scheme[i]);
        }
    }
}

/// The mark does not begin before the end of a scheme.
proof fn lemma_no_mark_in_scheme(url: Seq<char>, scheme: Seq<char>, j: int)
    requires
        within_authority(scheme),
        0 <= j < scheme.len() + 3 <= url.len(),
        url.take(scheme.len() as int) == scheme,
        url[scheme.len() as int] == ':',
        url[scheme.len() as int + 1] == '/',
        url[scheme.len() as int + 2] == '/',
    ensures
        !text::stands_at(url, mark(), j),
{
    lemma_mark();
    let colon = scheme.len() as int;
    if text::stands_at(url, mark(), j) {
        let stood = url.subrange(j, j + 28);
        assert(stood == mark());
        if j >= colon {
            assert(stood[0] == url[j]);
            assert(j == colon || j == colon + 1 || j == colon + 2);
        } else if j + 21 < colon {
            assert(stood[21] == url[j + 21]);
            assert(scheme[j + 21] == url[j + 21]);
        } else {
            assert(stood[colon - j] == url[colon]);
        }
    }
}

/// After a scheme the mark stands for the first time.
proof fn lemma_mark_after_scheme(scheme: Seq<char>, rest: Seq<char>)
    requires
        within_authority(scheme),
    ensures
        text::find(scheme + "://"@ + (mark() + rest), mark()) == Some(
            (scheme.len() + 3) as int,
        ),
{
    let url = scheme + "://"@ + (mark() + rest);
    let n = scheme.len() as int;
    assert(mark().len() == 28) by {
        lemma_mark();
    }
    assert(url.len() >= n + 31 && url[n] == ':' && url[n + 1] == '/' && url[n + 2] == '/'
        && url.subrange(n + 3, n + 31) == mark()) by {
        reveal_strlit("://");
        assert(url.subrange(n + 3, n + 31) =~= mark());
    }
    assert(url.take(n) =~= scheme);
    assert forall|j: int| 0 <= j < n + 3 implies !text::stands_at(url, mark(), j) by {
        lemma_no_mark_in_scheme(url, scheme, j);
    }
    text::lemma_find_first(url, mark(), 0, n + 3);
}

/// The channel comes back from the station's own address with its mount, whatever the scheme
/// is, and whatever comes after the mount.
pub proof fn law_every_scheme_counts(scheme: Seq<char>, mount: Seq<char>, more: Seq<char>)
    requires
        within_authority(scheme),
        text::lacks(mount, '/'),
        more.len() > 0 ==> more[0] == '/',
        forall|j: int| 0 <= j < mount.len() ==> !text::stands_at(mount + more, mark(), j),
    ensures
        channel_of(scheme + "://"@ + mark() + mount + more) == Some(channel_of_mount(mount)),
{
    let front = scheme + "://"@;
    let url = front + mark() + mount + more;
    let n = front.len() as int;
    assert(n == scheme.len() + 3) by {
        reveal_strlit("://");
    }
    assert(url =~= scheme + "://"@ + (mark() + (mount + more)));
    lemma_authority_start(scheme, mark() + (mount + more));
    lemma_mark_after_scheme(scheme, mount + more);
    assert(url.subrange(n, n) =~= Seq::<char>::empty());
    assert(in_host(url, n));
    law_channel_comes_back(front, mount, more);
}

/// `s` ends with `p`.
pub open spec fn ends_with(s: Seq<char>, p: Seq<char>) -> bool {
    text::stands_at(s, p, s.len() - p.len())
}

/// An address of another host stands for no channel, whatever its path is.
pub proof fn law_other_hosts_have_no_channel(
    scheme: Seq<char>,
    host: Seq<char>,
    path: Seq<char>,
)
    requires
        within_authority(scheme),
        within_authority(host),
        !ends_with(host, "admin.stream.rinse.fm"@),
        path.len() > 0 ==> path[0] == '/' || path[0] == '?' || path[0] == '#',
    ensures
        channel_of(scheme + "://"@ + (host + path)) is None,
{
    reveal_strlit("://");
    reveal_strlit("admin.stream.rinse.fm");
    lemma_mark();
    let url = scheme + "://"@ + (host + path);
    let n = scheme.len() + 3;
    lemma_authority_start(scheme, host + path);
    text::lemma_find_stands(url, mark(), 0);
    if channel_of(url) is Some {
        let i = text::find(url, mark()).unwrap();
        let stood = url.subrange(i, i + 28);
        let front = url.subrange(n as int, i);
        let end = n + host.len();
        assert(stood[21] == url[i + 21]);
        assert forall|k: int| n <= k < end implies #[trigger] url[k] == host[k - n] by {}
        if i + 21 < end {
            assert(url[i + 21] == host[i + 21 - n]);
        }
        assert(end < url.len());
        assert(url[end as int] == path[0]);
        if end < i {
            assert(front[end - n] == url[end as int]);
        } else if end < i + 21 {
            assert(stood[end - i] == url[end as int]);
            assert(mark().take(21)[end - i] == url[end as int]);
        }
        assert(end == i + 21);
        let from = host.len() - 21;
        assert(host.subrange(from, from + 21) =~= mark().take(21)) by {
            assert forall|k: int| 0 <= k < 21 implies host[from + k] == #[trigger] mark()[k] by {
                assert(stood[k] == url[i + k]);
                assert(url[n + (from + k)] == host[from + k]);
            }
        }
    }
}

/// An address is read as it is written: after `https://` or `http://` the host, up to the last
/// `:` before the path; the port after it, up to 65535; and the path from the first `/` on, or
/// `/` when there is none. A port that is no such number is reported.
pub proof fn law_address_with_a_port(
    https: bool,
    host: Seq<char>,
    port: Seq<char>,
    path: Seq<char>,
    url: &str,
    r: Result<(String, u16, String, bool), String>,
)
    requires
        call_ensures(parse_http_url, (url,), r),
        url@ == (if https {
            "https://"@
        } else {
            "http://"@
        }) + (host + seq![':'] + port + path),
        !host.contains('/'),
        !port.contains('/'),
        !port.contains(':'),
        path.len() > 0 ==> path[0] == '/',
    ensures
        match text::unsigned(port, 65535) {
            Some(n) => r matches Ok((h, p, rest, tls)) && {
                &&& h@ == host
                &&& p == n
                &&& path.len() > 0 ==> rest@ == path
                &&& path.len() == 0 ==> rest@ == seq!['/']
                &&& tls == https
            },
            None => r matches Err(e) && e@ == seq!['b', 'a', 'd', ' ', 'p', 'o', 'r', 't'],
        },
{
    let hostport = host + seq![':'] + port;
    let n = host.len() as int;
    assert forall|i: int| 0 <= i < hostport.len() implies #[trigger] hostport[i] != '/' by {
        if i < n {
            assert(host.contains(host[i]));
        } else if i > n {
            assert(port.contains(port[i - n - 1]));
        }
    }
    assert(scheme(https) + (hostport + path) =~= url@);
    lemma_scheme(https, hostport + path);
    lemma_slash(hostport, path);
    assert forall|j: int| n < j < hostport.len() implies #[trigger] hostport[j] != ':' by {
        assert(port.contains(port[j - n - 1]));
    }
    text::lemma_find_last_at(hostport, ':', n);
    assert(hostport.skip(n + 1) =~= port);
    assert(hostport.take(n) =~= host);
    if path.len() == 0 {
        assert(hostport + path =~= hostport);
    }
    text::lemma_unsigned_is_within(port, 65535);
    reveal_strlit("/");
    reveal_strlit("bad port");
    assert("/"@ =~= seq!['/']);
    assert("bad port"@ =~= seq!['b', 'a', 'd', ' ', 'p', 'o', 'r', 't']);
}

/// An address without a port has port 443 after `https://` and 80 after `http://`.
pub proof fn law_address_without_a_port(
    https: bool,
    host: Seq<char>,
    path: Seq<char>,
    url: &str,
    r: Result<(String, u16, String, bool), String>,
)
    requires
        call_ensures(parse_http_url, (url,), r),
        url@ == (if https {
            "https://"@
        } else {
            "http://"@
        }) + (host + path),
        !host.contains('/'),
        !host.contains(':'),
        path.len() > 0 ==> path[0] == '/',
    ensures
        r matches Ok((h, p, rest, tls)) && {
            &&& h@ == host
            &&& https ==> p == 443
            &&& !https ==> p == 80
            &&& path.len() > 0 ==> rest@ == path
            &&& path.len() == 0 ==> rest@ == seq!['/']
            &&& tls == https
        },
{
    assert forall|i: int| 0 <= i < host.len() implies #[trigger] host[i] != '/' && host[i]
        != ':' by {
        assert(host.contains(host[i]));
    }
    assert(scheme(https) + (host + path) =~= url@);
    law_port_is_the_schemes(https, host, path);
    reveal_strlit("/");
    assert("/"@ =~= seq!['/']);
}

/// An address with another scheme, or none, is reported.
pub proof fn law_address_needs_its_scheme(
    url: &str,
    r: Result<(String, u16, String, bool), String>,
)
    requires
        call_ensures(parse_http_url, (url,), r),
        url@.len() < 7 || url@.take(7) != "http://"@,
        url@.len() < 8 || url@.take(8) != "https://"@,
    ensures
        r matches Err(e) && e@ == "URL must start with http:// or https://"@,
{
    reveal_strlit("https://");
    reveal_strlit("http://");
    if url@.len() >= 7 {
        assert(url@.subrange(0, 7) =~= url@.take(7));
    }
    if url@.len() >= 8 {
        assert(url@.subrange(0, 8) =~= url@.take(8));
    }
}

/// A mount that begins with `rinse_` is the channel that comes after it, and any other is the
/// channel itself.
pub proof fn law_mount_names_the_channel(mount: Seq<char>)
    ensures
        channel_of_mount(seq!['r', 'i', 'n', 's', 'e', '_'] + mount) == mount,
        mount.len() < 6 || mount.take(6) != seq!['r', 'i', 'n', 's', 'e', '_'] ==> channel_of_mount(
            mount,
        ) == mount,
{
    reveal_strlit("rinse_");
    let six = seq!['r', 'i', 'n', 's', 'e', '_'];
    assert("rinse_"@ =~= six);
    let all = six + mount;
    assert(all.subrange(0, 6) =~= six);
    assert(all.skip(6) =~= mount);
    if mount.len() >= 6 {
        assert(mount.subrange(0, 6) =~= mount.take(6));
    }
}

/// Before the mark of the station's own host there can be labels of a subdomain, `sub`, and a
/// user before them; the mark still stands for the first time, and in the host.
proof fn lemma_own_host(front: Seq<char>, n: int, pre: Seq<char>, rest: Seq<char>)
    requires
        n == front.len(),
        authority_start(front + pre + (mark() + rest)) == n,
        within_host(pre),
        forall|j: int|
            0 <= j < n ==> !text::stands_at(front + pre + (mark() + rest), mark(), j),
    ensures
        text::find(front + pre + (mark() + rest), mark()) == Some(n + pre.len()),
        in_host(front + pre + (mark() + rest), n + pre.len()),
{
    lemma_mark();
    let url = front + pre + (mark() + rest);
    let at = n + pre.len();
    assert(url.subrange(at, at + 28) =~= mark());
    assert(url.subrange(n, at) =~= pre);
    assert forall|j: int| 0 <= j < at implies !text::stands_at(url, mark(), j) by {
        if j >= n && text::stands_at(url, mark(), j) {
            let stood = url.subrange(j, j + 28);
            assert(stood[21] == url[j + 21]);
            if j + 21 < at {
                assert(url[j + 21] == pre[j + 21 - n]);
            } else {
                assert(url[j + 21] == mark()[j + 21 - at]);
                assert(mark().take(21)[j + 21 - at] != '/');
            }
        }
    }
    text::lemma_find_first(url, mark(), 0, at);
}

/// The channel of one of the station's own addresses is that of its mount, whatever the scheme
/// is, whether or not labels of a subdomain or a user stand before the host, and whatever comes
/// after the mount.
pub proof fn law_own_address_has_a_channel(
    scheme: Seq<char>,
    user: Option<Seq<char>>,
    sub: Seq<char>,
    mount: Seq<char>,
    more: Seq<char>,
    url: &str,
    r: Option<String>,
)
    requires
        call_ensures(rinse_channel, (url,), r),
        !scheme.contains('/') && !scheme.contains('?') && !scheme.contains('#'),
        !sub.contains('/') && !sub.contains('?') && !sub.contains('#'),
        !sub.contains(':') && !sub.contains('@'),
        user matches Some(u) ==> !u.contains('/') && !u.contains('?') && !u.contains('#'),
        !mount.contains('/'),
        more.len() > 0 ==> more[0] == '/' || text::stands_at(
            more,
            "admin.stream.rinse.fm/proxy/"@,
            0,
        ),
        forall|j: int|
            0 <= j < mount.len() ==> !text::stands_at(
                mount + more,
                "admin.stream.rinse.fm/proxy/"@,
                j,
            ),
        url@ == scheme + "://"@ + (match user {
            Some(u) => u + seq!['@'],
            None => Seq::empty(),
        }) + sub + "admin.stream.rinse.fm/proxy/"@ + mount + more,
    ensures
        r matches Some(channel) && {
            &&& mount.len() < 6 || mount.take(6) != seq!['r', 'i', 'n', 's', 'e', '_']
                ==> channel@ == mount
            &&& mount.len() >= 6 && mount.take(6) == seq!['r', 'i', 'n', 's', 'e', '_']
                ==> channel@ == mount.skip(6)
        },
{
    text::law_last_place_is_found(scheme, '/');
    text::law_last_place_is_found(scheme, '?');
    text::law_last_place_is_found(scheme, '#');
    text::law_last_place_is_found(mount, '/');
    let named = match user {
        Some(u) => u + seq!['@'],
        None => Seq::<char>::empty(),
    };
    let pre = named + sub;
    lemma_before_the_host(user, sub);
    assert(url@ =~= scheme + "://"@ + pre + mark() + mount + more);
    lemma_own_channel(scheme, pre, mount, more);
    lemma_channel_of_mount(mount);
}

/// The channel of a mount, with and without `rinse_` before it.
proof fn lemma_channel_of_mount(mount: Seq<char>)
    ensures
        mount.len() < 6 || mount.take(6) != seq!['r', 'i', 'n', 's', 'e', '_'] ==> channel_of_mount(
            mount,
        ) == mount,
        mount.len() >= 6 && mount.take(6) == seq!['r', 'i', 'n', 's', 'e', '_']
            ==> channel_of_mount(mount) == mount.skip(6),
{
    law_mount_names_the_channel(mount);
    if mount.len() >= 6 && mount.take(6) == seq!['r', 'i', 'n', 's', 'e', '_'] {
        law_mount_names_the_channel(mount.skip(6));
        assert(mount.take(6) + mount.skip(6) =~= mount);
    }
}

/// The channel of one of the station's own addresses, with `pre` before the mark in its host.
proof fn lemma_own_channel(
    scheme: Seq<char>,
    pre: Seq<char>,
    mount: Seq<char>,
    more: Seq<char>,
)
    requires
        within_authority(scheme),
        within_host(pre),
        text::lacks(mount, '/'),
        more.len() > 0 ==> more[0] == '/' || text::stands_at(more, mark(), 0),
        forall|j: int| 0 <= j < mount.len() ==> !text::stands_at(mount + more, mark(), j),
    ensures
        channel_of(scheme + "://"@ + pre + mark() + mount + more) == Some(channel_of_mount(mount)),
{
    let front = scheme + "://"@;
    let rest = mount + more;
    let url = front + pre + mark() + mount + more;
    let n = front.len() as int;
    assert(n == scheme.len() + 3) by {
        reveal_strlit("://");
    }
    assert(url =~= front + pre + (mark() + rest));
    assert(authority_start(url) == n) by {
        assert(url =~= scheme + "://"@ + (pre + (mark() + rest)));
        lemma_authority_start(scheme, pre + (mark() + rest));
    }
    assert(url.take(n - 3) =~= scheme);
    assert(url[n - 3] == ':' && url[n - 2] == '/' && url[n - 1] == '/') by {
        reveal_strlit("://");
    }
    assert forall|j: int| 0 <= j < n implies !text::stands_at(url, mark(), j) by {
        lemma_no_mark_in_scheme(url, scheme, j);
    }
    lemma_own_host(front, n, pre, rest);
    law_channel_comes_back(front + pre, mount, more);
}

/// Labels of a subdomain, and a user with an `@` before them, can come before the host.
proof fn lemma_before_the_host(user: Option<Seq<char>>, sub: Seq<char>)
    requires
        !sub.contains('/') && !sub.contains('?') && !sub.contains('#'),
        !sub.contains(':') && !sub.contains('@'),
        user matches Some(u) ==> !u.contains('/') && !u.contains('?') && !u.contains('#'),
    ensures
        within_host(
            (match user {
                Some(u) => u + seq!['@'],
                None => Seq::<char>::empty(),
            }) + sub,
        ),
{
    let named = match user {
        Some(u) => u + seq!['@'],
        None => Seq::<char>::empty(),
    };
    let pre = named + sub;
    assert forall|i: int| 0 <= i < pre.len() implies #[trigger] pre[i] != '/' && pre[i] != '?'
        && pre[i] != '#' by {
        if i >= named.len() {
            assert(sub.contains(sub[i - named.len()]));
        } else if i < named.len() - 1 {
            assert(user.unwrap().contains(user.unwrap()[i]));
        }
    }
    assert forall|i: int| 0 <= i < sub.len() implies #[trigger] sub[i] != ':' && sub[i] != '@' by {
        assert(sub.contains(sub[i]));
    }
    match user {
        Some(u) => {
            let k = u.len() as int;
            assert forall|j: int| k < j < pre.len() implies #[trigger] pre[j] != '@' by {
                assert(pre[j] == sub[j - k - 1]);
            }
            text::lemma_find_last_at(pre, '@', k);
            assert(pre.skip(k + 1) =~= sub);
        },
        None => {
            assert(pre =~= sub);
            text::lemma_find_last_none(pre, '@');
        },
    }
}

/// The channel of the station's own address without a scheme, with `pre` before the mark.
proof fn lemma_own_channel_bare(pre: Seq<char>, mount: Seq<char>, more: Seq<char>)
    requires
        within_host(pre),
        text::lacks(mount, '/'),
        more.len() > 0 ==> more[0] == '/' || text::stands_at(more, mark(), 0),
        forall|j: int| 0 <= j < mount.len() ==> !text::stands_at(mount + more, mark(), j),
    ensures
        channel_of(pre + mark() + mount + more) == Some(channel_of_mount(mount)),
{
    lemma_mark();
    let none = Seq::<char>::empty();
    let rest = mount + more;
    let url = pre + mark() + mount + more;
    let n = pre.len() as int;
    assert(url =~= none + pre + (mark() + rest));
    assert(url[n + 21] == '/');
    assert(url[n + 22] == 'p') by {
        reveal_strlit("admin.stream.rinse.fm/proxy/");
    }
    assert(authority_start(url) == 0) by {
        reveal_strlit("//");
        text::lemma_find_stands(url, "//"@, 0);
        if let Some(k) = text::find(url, "//"@) {
            let pair = url.subrange(k, k + 2);
            assert(pair[0] == url[k] && pair[1] == url[k + 1]);
            if k > n + 21 {
                assert(url.take(k)[n + 21] == url[n + 21]);
            } else if k < n {
                assert(url[k] == pre[k]);
            } else if k < n + 21 {
                assert(mark().take(21)[k - n] == url[k]);
            }
        }
    }
    lemma_own_host(none, 0, pre, rest);
    law_channel_comes_back(pre, mount, more);
}

/// The station's own address without a scheme has the channel of its mount too.
pub proof fn law_own_address_without_a_scheme(
    user: Option<Seq<char>>,
    sub: Seq<char>,
    mount: Seq<char>,
    more: Seq<char>,
    url: &str,
    r: Option<String>,
)
    requires
        call_ensures(rinse_channel, (url,), r),
        !sub.contains('/') && !sub.contains('?') && !sub.contains('#'),
        !sub.contains(':') && !sub.contains('@'),
        user matches Some(u) ==> !u.contains('/') && !u.contains('?') && !u.contains('#'),
        !mount.contains('/'),
        more.len() > 0 ==> more[0] == '/' || text::stands_at(
            more,
            "admin.stream.rinse.fm/proxy/"@,
            0,
        ),
        forall|j: int|
            0 <= j < mount.len() ==> !text::stands_at(
                mount + more,
                "admin.stream.rinse.fm/proxy/"@,
                j,
            ),
        url@ == (match user {
            Some(u) => u + seq!['@'],
            None => Seq::empty(),
        }) + sub + "admin.stream.rinse.fm/proxy/"@ + mount + more,
    ensures
        r matches Some(channel) && {
            &&& mount.len() < 6 || mount.take(6) != seq!['r', 'i', 'n', 's', 'e', '_']
                ==> channel@ == mount
            &&& mount.len() >= 6 && mount.take(6) == seq!['r', 'i', 'n', 's', 'e', '_']
                ==> channel@ == mount.skip(6)
        },
{
    text::law_last_place_is_found(mount, '/');
    lemma_before_the_host(user, sub);
    let named = match user {
        Some(u) => u + seq!['@'],
        None => Seq::<char>::empty(),
    };
    lemma_own_channel_bare(named + sub, mount, more);
    lemma_channel_of_mount(mount);
}

/// In an address without a scheme too, what comes after another host makes no difference.
proof fn lemma_other_host_bare(host: Seq<char>, path: Seq<char>)
    requires
        within_authority(host),
        host.len() > 0 && host.last() != ':',
        !ends_with(host, "admin.stream.rinse.fm"@),
        path.len() > 0 ==> path[0] == '/' || path[0] == '?' || path[0] == '#',
    ensures
        channel_of(host + path) is None,
{
    reveal_strlit("admin.stream.rinse.fm");
    lemma_mark();
    let url = host + path;
    let end = host.len() as int;
    assert(authority_start(url) == 0) by {
        reveal_strlit("//");
        text::lemma_find_stands(url, "//"@, 0);
        if let Some(k) = text::find(url, "//"@) {
            let pair = url.subrange(k, k + 2);
            assert(pair[0] == url[k]);
            if k < end {
                assert(url[k] == host[k]);
            } else if k > end {
                assert(url.take(k)[end] == path[0]);
            } else {
                assert(url[k - 1] == host.last());
            }
        }
    }
    text::lemma_find_stands(url, mark(), 0);
    if channel_of(url) is Some {
        let i = text::find(url, mark()).unwrap();
        let stood = url.subrange(i, i + 28);
        let front = url.subrange(0, i);
        assert(stood[21] == url[i + 21]);
        if i + 21 < end {
            assert(url[i + 21] == host[i + 21]);
        }
        assert(end < url.len());
        assert(url[end] == path[0]);
        if end < i {
            assert(front[end] == url[end]);
        } else if end < i + 21 {
            assert(stood[end - i] == url[end]);
            assert(mark().take(21)[end - i] == url[end]);
        }
        assert(end == i + 21);
        assert(host.subrange(i, i + 21) =~= mark().take(21)) by {
            assert forall|k: int| 0 <= k < 21 implies host[i + k] == #[trigger] mark()[k] by {
                assert(stood[k] == url[i + k]);
            }
        }
    }
}

/// An address that does not hold the mark of the station's own streams, or whose host is
/// another one, has no channel, whatever the path holds.
pub proof fn law_other_address_has_no_channel(
    scheme: Seq<char>,
    host: Seq<char>,
    path: Seq<char>,
    url: &str,
    r: Option<String>,
)
    requires
        call_ensures(rinse_channel, (url,), r),
        (forall|j: int| !text::stands_at(url@, "admin.stream.rinse.fm/proxy/"@, j)) || {
            &&& url@ == scheme + "://"@ + (host + path)
            &&& !scheme.contains('/') && !scheme.contains('?') && !scheme.contains('#')
            &&& !host.contains('/') && !host.contains('?') && !host.contains('#')
            &&& host.len() < 21 || host.skip(host.len() - 21) != "admin.stream.rinse.fm"@
            &&& path.len() > 0 ==> path[0] == '/' || path[0] == '?' || path[0] == '#'
        } || {
            &&& url@ == host + path
            &&& host.len() > 0 && host.last() != ':'
            &&& !host.contains('/') && !host.contains('?') && !host.contains('#')
            &&& host.len() < 21 || host.skip(host.len() - 21) != "admin.stream.rinse.fm"@
            &&& path.len() > 0 ==> path[0] == '/' || path[0] == '?' || path[0] == '#'
        },
    ensures
        r is None,
{
    text::lemma_find_stands(url@, mark(), 0);
    text::law_last_place_is_found(scheme, '/');
    text::law_last_place_is_found(scheme, '?');
    text::law_last_place_is_found(scheme, '#');
    text::law_last_place_is_found(host, '/');
    text::law_last_place_is_found(host, '?');
    text::law_last_place_is_found(host, '#');
    if exists|j: int| text::stands_at(url@, "admin.stream.rinse.fm/proxy/"@, j) {
        reveal_strlit("admin.stream.rinse.fm");
        if host.len() >= 21 {
            let from = host.len() - 21;
            assert(host.subrange(from, from + 21) =~= host.skip(from));
        }
        if url@ == host + path && host.len() > 0 && host.last() != ':' {
            lemma_other_host_bare(host, path);
        } else {
            law_other_hosts_have_no_channel(scheme, host, path);
        }
    }
}

/// What stands where the port of another host is makes no channel.
pub proof fn law_port_is_no_host(
    scheme: Seq<char>,
    host: Seq<char>,
    port: Seq<char>,
    rest: Seq<char>,
    url: &str,
    r: Option<String>,
)
    requires
        call_ensures(rinse_channel, (url,), r),
        !scheme.contains('/') && !scheme.contains('?') && !scheme.contains('#'),
        !host.contains('/') && !host.contains('?') && !host.contains('#'),
        !port.contains('/') && !port.contains('?') && !port.contains('#') && !port.contains('@'),
        url@ == scheme + "://"@ + host + seq![':'] + port + "admin.stream.rinse.fm/proxy/"@ + rest,
    ensures
        r is None,
{
    text::law_last_place_is_found(scheme, '/');
    text::law_last_place_is_found(scheme, '?');
    text::law_last_place_is_found(scheme, '#');
    let pre = host + seq![':'] + port;
    assert(url@ =~= scheme + "://"@ + (pre + (mark() + rest)));
    lemma_authority_start(scheme, pre + (mark() + rest));
    lemma_mark_after_colon(scheme, host, port, rest);
    let n = scheme.len() + 3;
    if let Some(i) = text::find(url@, mark()) {
        let before = url@.subrange(n as int, i);
        let c = host.len() as int;
        reveal_strlit("://");
        assert(before[c] == ':');
        assert forall|j: int| c < j < before.len() implies #[trigger] before[j] != '@' by {
            assert(before[j] == port[j - c - 1]);
            assert(port.contains(port[j - c - 1]));
        }
        lemma_after_a_port(before, c);
    }
}

/// After a colon with no `@` behind it there is no host.
proof fn lemma_after_a_port(s: Seq<char>, c: int)
    requires
        0 <= c < s.len(),
        s[c] == ':',
        forall|j: int| c < j < s.len() ==> #[trigger] s[j] != '@',
    ensures
        !within_host(s),
{
    text::law_last_place_is_found(s, '@');
    if let Some(k) = text::find_last(s, '@') {
        assert(s.skip(k + 1)[c - k - 1] == ':');
    }
}

/// The first mark is not before the colon, and not after the end of what follows it.
proof fn lemma_mark_after_colon(
    scheme: Seq<char>,
    host: Seq<char>,
    port: Seq<char>,
    rest: Seq<char>,
)
    requires
        within_authority(scheme),
        !host.contains('/'),
        !port.contains('/'),
    ensures
        ({
            let pre = host + seq![':'] + port;
            text::find(scheme + "://"@ + (pre + (mark() + rest)), mark()) == Some(
                (scheme.len() + 3 + pre.len()) as int,
            )
        }),
{
    lemma_mark();
    let pre = host + seq![':'] + port;
    let url = scheme + "://"@ + (pre + (mark() + rest));
    let n = scheme.len() as int + 3;
    let at = n + pre.len();
    assert(url.subrange(at, at + 28) =~= mark() && url.take(n - 3) =~= scheme && url[n - 3]
        == ':' && url[n - 2] == '/' && url[n - 1] == '/') by {
        reveal_strlit("://");
    }
    assert forall|i: int| n <= i < at implies #[trigger] url[i] != '/' by {
        reveal_strlit("://");
        if i < n + host.len() {
            assert(host.contains(host[i - n]));
        } else if i > n + host.len() {
            assert(port.contains(port[i - n - host.len() - 1]));
        }
    }
    assert forall|i: int| at <= i < at + 21 implies #[trigger] url[i] != '/' by {
        assert(url.subrange(at, at + 28)[i - at] == url[i]);
        assert(mark().take(21)[i - at] != '/');
    }
    assert forall|j: int| 0 <= j < at implies !text::stands_at(url, mark(), j) by {
        if j < n {
            lemma_no_mark_in_scheme(url, scheme, j);
        } else if text::stands_at(url, mark(), j) {
            assert(url.subrange(j, j + 28)[21] == url[j + 21]);
        }
    }
    text::lemma_find_first(url, mark(), 0, at);
}

} // verus!
