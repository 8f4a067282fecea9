//! The station's schedule: the request for it, its episodes, and the show on air.

use serde_json::Value;
use vstd::prelude::*;
use vstd::string::*;
use vstd::utf8::*;
use crate::civil;
use crate::json;
use crate::json::Json;
use crate::text;

verus! {

/// The host that serves the schedule, over TLS.
pub const SCHEDULE_HOST: &'static str = "www.rinse.fm";

/// The seconds between two looks at the schedule.
pub const POLL_SECONDS: u64 = 60;

/// The minutes an episode lasts when the schedule does not say.
pub const DEFAULT_MINUTES: i64 = 60;

/// An episode as the schedule gives it.
pub struct Episode {
    /// The channel's slug.
    pub slug: Option<String>,
    /// The day of broadcast: London midnight as a UTC timestamp.
    pub date: Option<String>,
    /// A timestamp with the time of day.
    pub time: Option<String>,
    /// The length in minutes.
    pub length: Option<i64>,
    pub artist: Option<String>,
    pub title: Option<String>,
}

/// What an episode says.
pub struct EpisodeText {
    pub slug: Option<Seq<char>>,
    pub date: Option<Seq<char>>,
    pub time: Option<Seq<char>>,
    pub length: Option<i64>,
    pub artist: Option<Seq<char>>,
    pub title: Option<Seq<char>>,
}

/// The characters of a text that may be missing.
pub open spec fn chars_if_any(s: Option<String>) -> Option<Seq<char>> {
    match s {
        Some(t) => Some(t@),
        None => None,
    }
}

impl View for Episode {
    type V = EpisodeText;

    open spec fn view(&self) -> EpisodeText {
        EpisodeText {
            slug: chars_if_any(self.slug),
            date: chars_if_any(self.date),
            time: chars_if_any(self.time),
            length: self.length,
            artist: chars_if_any(self.artist),
            title: chars_if_any(self.title),
        }
    }
}

/// What each of the episodes says.
pub open spec fn texts(episodes: Seq<Episode>) -> Seq<EpisodeText> {
    Seq::new(episodes.len(), |i: int| episodes[i]@)
}

impl EpisodeText {
    /// The second of the time of day on the day of broadcast, since 1970-01-01.
    pub open spec fn start(self) -> Option<int> {
        match (self.date, self.time) {
            (Some(date), Some(time)) => {
                let clock = civil::as_chars(encode_utf8(time));
                match (
                    civil::iso_epoch(encode_utf8(date)),
                    civil::field(clock, 11, 13),
                    civil::field(clock, 14, 16),
                ) {
                    (Some(day), Some(h), Some(m)) => Some(day + (h * 60 + m) * 60),
                    _ => None,
                }
            },
            _ => None,
        }
    }

    /// The length in seconds.
    pub open spec fn seconds(self) -> int {
        match self.length {
            Some(minutes) => minutes * 60,
            None => DEFAULT_MINUTES * 60,
        }
    }

    /// The episode is on `channel` and says when it begins.
    pub open spec fn scheduled(self, channel: Seq<char>) -> bool {
        self.slug == Some(channel) && self.start() is Some
    }

    /// The second `now` is between the episode's start, included, and its end, excluded.
    pub open spec fn on_air(self, channel: Seq<char>, now: int) -> bool {
        &&& self.scheduled(channel)
        &&& self.start().unwrap() <= now < self.start().unwrap() + self.seconds()
    }

    /// The name of the show: the artist, or else what comes before ` - ` in the title. A name
    /// that is blank is none.
    pub open spec fn name(self) -> Option<Seq<char>> {
        let chosen = match (self.artist, self.title) {
            (Some(artist), _) if text::trim(artist).len() > 0 => Some(text::trim(artist)),
            (_, Some(title)) => Some(text::trim(text::before(title, " - "@))),
            _ => None,
        };
        match chosen {
            Some(name) if name.len() > 0 => Some(name),
            _ => None,
        }
    }

    /// The episode is on air and has a name.
    pub open spec fn answers(self, channel: Seq<char>, now: int) -> bool {
        self.on_air(channel, now) && self.name() is Some
    }

    /// The episode's length in seconds, and its end, are within an `i64`.
    pub open spec fn end_fits(self) -> bool {
        civil::fits(self.seconds()) && (self.start() matches Some(start) ==> civil::fits(
            start + self.seconds(),
        ))
    }
}

/// The name of the first episode that is on air and has one.
pub open spec fn show_on_air(
    episodes: Seq<EpisodeText>,
    channel: Seq<char>,
    now: int,
) -> Option<Seq<char>>
    decreases episodes.len(),
{
    if episodes.len() == 0 {
        None
    } else if episodes[0].answers(channel, now) {
        episodes[0].name()
    } else {
        show_on_air(episodes.drop_first(), channel, now)
    }
}

/// The ends of the channel's episodes, up to the one that answers, are within an `i64`.
pub open spec fn ends_fit(episodes: Seq<EpisodeText>, channel: Seq<char>, now: int) -> bool
    decreases episodes.len(),
{
    episodes.len() == 0 || {
        &&& episodes[0].scheduled(channel) ==> episodes[0].end_fits()
        &&& episodes[0].answers(channel, now) || ends_fit(episodes.drop_first(), channel, now)
    }
}

/// The text of a member, where there is one.
pub open spec fn text_member(j: Json, key: Seq<char>) -> Option<Seq<char>> {
    match j.member(key) {
        Some(x) => x.chars(),
        None => None,
    }
}

/// The slug of an episode's first channel.
pub open spec fn first_slug(j: Json) -> Option<Seq<char>> {
    match j.member("channel"@) {
        Some(x) => match x.items() {
            Some(channels) if channels.len() > 0 => text_member(channels[0], "slug"@),
            _ => None,
        },
        None => None,
    }
}

/// The episode that a JSON value describes.
pub open spec fn episode_of(j: Json) -> EpisodeText {
    EpisodeText {
        slug: first_slug(j),
        date: text_member(j, "episodeDate"@),
        time: text_member(j, "episodeTime"@),
        length: match j.member("episodeLength"@) {
            Some(x) => x.integer(),
            None => None,
        },
        artist: text_member(j, "artistTitle"@),
        title: text_member(j, "title"@),
    }
}

/// The episodes of a schedule, where it has a list of them.
pub open spec fn episodes_of(j: Json) -> Option<Seq<EpisodeText>> {
    match j.member("episodes"@) {
        Some(x) => match x.items() {
            Some(items) => Some(Seq::new(items.len(), |i: int| episode_of(items[i]))),
            None => None,
        },
        None => None,
    }
}

/// The schedule in the server's answer: the document after the first blank line.
pub open spec fn schedule_in(raw: Seq<u8>) -> Option<Json> {
    match text::find(civil::as_chars(raw), "\r\n\r\n"@) {
        Some(i) => json::json_document(raw.skip(i + 4)),
        None => None,
    }
}

/// The request for the schedule.
pub fn schedule_request() -> (request: String)
    ensures
        request@
            == "GET /api/query/v1/schedule HTTP/1.0\r\nHost: www.rinse.fm\r\nUser-Agent: rinse-cli/1.0\r\nAccept: application/json\r\nConnection: close\r\n\r\n"@,
{
    "GET /api/query/v1/schedule HTTP/1.0\r\nHost: www.rinse.fm\r\nUser-Agent: rinse-cli/1.0\r\nAccept: application/json\r\nConnection: close\r\n\r\n".to_owned()
}

/// The position after the blank line that ends the headers of an answer.
pub fn body_start(raw: &[u8]) -> (r: Option<usize>)
    ensures
        match r {
            Some(i) => text::find(civil::as_chars(raw@), "\r\n\r\n"@) == Some(i - 4) && 4 <= i
                <= raw@.len(),
            None => text::find(civil::as_chars(raw@), "\r\n\r\n"@) is None,
        },
{
    let chars: Vec<char> = civil::chars_of_bytes(raw);
    let len: usize = chars.len();
    match text::find_in(&chars, "\r\n\r\n", 0) {
        Some(i) => {
            proof {
                reveal_strlit("\r\n\r\n");
                text::lemma_find_stands(chars@, "\r\n\r\n"@, 0);
                assert(i + 4 <= len);
            }
            Some(i + 4)
        },
        None => None,
    }
}

/// The schedule in the server's answer `raw`.
pub fn parse_schedule(raw: &[u8]) -> (r: Option<Value>)
    ensures
        match r {
            Some(v) => schedule_in(raw@) == Some(json::json_of(v)),
            None => schedule_in(raw@) is None,
        },
{
    match body_start(raw) {
        Some(i) => {
            let body: &[u8] = vstd::slice::slice_subrange(raw, i, raw.len());
            assert(body@ =~= raw@.skip(i as int));
            json::read_document(body)
        },
        None => None,
    }
}

fn text_of(v: &Value, key: &str) -> (r: Option<String>)
    ensures
        chars_if_any(r) == text_member(json::json_of(*v), key@),
{
    match json::member(v, key) {
        Some(x) => match json::chars(x) {
            Some(s) => Some(s.to_owned()),
            None => None,
        },
        None => None,
    }
}

fn slug_of(v: &Value) -> (r: Option<String>)
    ensures
        chars_if_any(r) == first_slug(json::json_of(*v)),
{
    match json::member(v, "channel") {
        Some(x) => match json::items(x) {
            Some(channels) => if channels.len() > 0 {
                text_of(&channels[0], "slug")
            } else {
                None
            },
            None => None,
        },
        None => None,
    }
}

/// The episode that a JSON value describes.
pub fn read_episode(v: &Value) -> (e: Episode)
    ensures
        e@ == episode_of(json::json_of(*v)),
{
    let length: Option<i64> = match json::member(v, "episodeLength") {
        Some(x) => json::integer(x),
        None => None,
    };
    Episode {
        slug: slug_of(v),
        date: text_of(v, "episodeDate"),
        time: text_of(v, "episodeTime"),
        length,
        artist: text_of(v, "artistTitle"),
        title: text_of(v, "title"),
    }
}

/// The episodes of a schedule.
pub fn read_episodes(sched: &Value) -> (r: Option<Vec<Episode>>)
    ensures
        match r {
            Some(episodes) => episodes_of(json::json_of(*sched)) == Some(texts(episodes@)),
            None => episodes_of(json::json_of(*sched)) is None,
        },
{
    let list: &Value = match json::member(sched, "episodes") {
        Some(x) => x,
        None => return None,
    };
    let values: &Vec<Value> = match json::items(list) {
        Some(values) => values,
        None => return None,
    };
    let mut episodes: Vec<Episode> = Vec::new();
    while episodes.len() < values.len()
        invariant
            episodes@.len() <= values@.len(),
            forall|i: int|
                0 <= i < episodes@.len() ==> (#[trigger] episodes@[i])@ == episode_of(
                    json::json_of(values@[i]),
                ),
        decreases values@.len() - episodes@.len(),
    {
        let e: Episode = read_episode(&values[episodes.len()]);
        episodes.push(e);
    }
    assert(texts(episodes@) =~= episodes_of(json::json_of(*sched)).unwrap());
    Some(episodes)
}

/// The second at which an episode begins. It is far within an `i64`.
fn start_of(e: &Episode) -> (r: Option<i64>)
    ensures
        match r {
            Some(start) => e@.start() == Some(start as int),
            None => e@.start() is None,
        },
{
    let (date, time) = match (&e.date, &e.time) {
        (Some(date), Some(time)) => (date, time),
        _ => return None,
    };
    let day: i64 = match civil::iso_to_epoch(date.as_str()) {
        Some(day) => day,
        None => return None,
    };
    let clock: Vec<char> = civil::chars_of_bytes(time.as_str().as_bytes());
    let h: i64 = match civil::read_field(&clock, 11, 13) {
        Some(h) => h,
        None => return None,
    };
    let m: i64 = match civil::read_field(&clock, 14, 16) {
        Some(m) => m,
        None => return None,
    };
    Some(day + (h * 60 + m) * 60)
}

/// The second at which an episode that begins at `start` ends, when an `i64` holds it and the
/// length in seconds.
fn end_of(e: &Episode, start: i64) -> (r: Option<i64>)
    requires
        e@.start() == Some(start as int),
    ensures
        match r {
            Some(end) => e@.end_fits() && end == start + e@.seconds(),
            None => !e@.end_fits(),
        },
{
    let minutes: i64 = match e.length {
        Some(minutes) => minutes,
        None => DEFAULT_MINUTES,
    };
    match minutes.checked_mul(60) {
        Some(seconds) => start.checked_add(seconds),
        None => None,
    }
}

/// The episode is on `channel`.
fn is_on(e: &Episode, channel: &str) -> (b: bool)
    ensures
        b == (e@.slug == Some(channel@)),
{
    match &e.slug {
        Some(slug) => text::same_text(slug.as_str(), channel),
        None => false,
    }
}

/// The name of an episode's show.
pub fn show_name(e: &Episode) -> (name: Option<String>)
    ensures
        chars_if_any(name) == e@.name(),
{
    if let Some(artist) = &e.artist {
        let name: String = text::trimmed(artist.as_str());
        if !name.as_str().is_empty() {
            return Some(name);
        }
    }
    if let Some(title) = &e.title {
        let chars: Vec<char> = text::chars_of(title.as_str());
        let end: usize = match text::find_in(&chars, " - ", 0) {
            Some(i) => {
                proof {
                    text::lemma_find_stands(chars@, " - "@, 0);
                }
                i
            },
            None => chars.len(),
        };
        assert(text::before(chars@, " - "@) =~= chars@.subrange(0, end as int));
        let (a, b) = text::trim_bounds(&chars, 0, end);
        if a < b {
            return Some(text::slice(title.as_str(), a, b));
        }
    }
    None
}

/// The ends of the channel's episodes, up to the one that answers, are within an `i64`.
pub fn check_ends(episodes: &Vec<Episode>, channel: &str, now: i64) -> (b: bool)
    ensures
        b == ends_fit(texts(episodes@), channel@, now as int),
{
    let ghost all = texts(episodes@);
    let mut i: usize = 0;
    assert(all.skip(0) =~= all);
    while i < episodes.len()
        invariant
            i <= episodes@.len(),
            all == texts(episodes@),
            ends_fit(all, channel@, now as int) == ends_fit(
                all.skip(i as int),
                channel@,
                now as int,
            ),
        decreases episodes@.len() - i,
    {
        let e: &Episode = &episodes[i];
        let ghost rest = all.skip(i as int);
        assert(rest[0] == e@);
        assert(rest.drop_first() =~= all.skip(i + 1));
        i = i + 1;
        if is_on(e, channel) {
            if let Some(start) = start_of(e) {
                match end_of(e, start) {
                    Some(end) => {
                        if start <= now && now < end {
                            if let Some(_) = show_name(e) {
                                return true;
                            }
                        }
                    },
                    None => return false,
                }
            }
        }
    }
    true
}

/// The name of the first episode of `channel` that is on air at the second `now` and has one.
pub fn find_show(episodes: &Vec<Episode>, channel: &str, now: i64) -> (show: Option<String>)
    requires
        ends_fit(texts(episodes@), channel@, now as int),
    ensures
        chars_if_any(show) == show_on_air(texts(episodes@), channel@, now as int),
{
    let ghost all = texts(episodes@);
    let mut i: usize = 0;
    assert(all.skip(0) =~= all);
    while i < episodes.len()
        invariant
            i <= episodes@.len(),
            all == texts(episodes@),
            ends_fit(all.skip(i as int), channel@, now as int),
            show_on_air(all, channel@, now as int) == show_on_air(
                all.skip(i as int),
                channel@,
                now as int,
            ),
        decreases episodes@.len() - i,
    {
        let e: &Episode = &episodes[i];
        let ghost rest = all.skip(i as int);
        assert(rest[0] == e@);
        assert(rest.drop_first() =~= all.skip(i + 1));
        i = i + 1;
        if is_on(e, channel) {
            if let Some(start) = start_of(e) {
                if let Some(end) = end_of(e, start) {
                    if start <= now && now < end {
                        let name: Option<String> = show_name(e);
                        if name.is_some() {
                            return name;
                        }
                    }
                }
            }
        }
    }
    None
}

/// The show that a schedule has on air on `channel` at the second `now`.
pub open spec fn show_in(sched: Json, channel: Seq<char>, now: int) -> Option<Seq<char>> {
    match episodes_of(sched) {
        Some(episodes) => show_on_air(episodes, channel, now),
        None => None,
    }
}

/// The ends of the episodes that are looked at for the show on air are within an `i64`.
pub open spec fn schedule_fits(sched: Json, channel: Seq<char>, now: int) -> bool {
    episodes_of(sched) matches Some(episodes) ==> ends_fit(episodes, channel, now)
}

/// The show that `sched` has on air on `channel` at the second `now`.
pub fn current_show(sched: &Value, channel: &str, now: i64) -> (show: Option<String>)
    requires
        schedule_fits(json::json_of(*sched), channel@, now as int),
    ensures
        chars_if_any(show) == show_in(json::json_of(*sched), channel@, now as int),
{
    match read_episodes(sched) {
        Some(episodes) => find_show(&episodes, channel, now),
        None => None,
    }
}

/// An episode ends beyond what an `i64` holds.
#[derive(Debug, Clone, Copy, PartialEq, Eq)]
pub struct EndOverflow;

/// The show that `sched` has on air on `channel` at the second `now`, if no episode that is
/// looked at ends beyond what an `i64` holds.
pub fn checked_current_show(sched: &Value, channel: &str, now: i64) -> (r: Result<
    Option<String>,
    EndOverflow,
>)
    ensures
        match r {
            Ok(show) => {
                &&& schedule_fits(json::json_of(*sched), channel@, now as int)
                &&& chars_if_any(show) == show_in(json::json_of(*sched), channel@, now as int)
            },
            Err(_) => !schedule_fits(json::json_of(*sched), channel@, now as int),
        },
{
    if let Some(episodes) = read_episodes(sched) {
        if !check_ends(&episodes, channel, now) {
            return Err(EndOverflow);
        }
    }
    Ok(current_show(sched, channel, now))
}

/// A show that is given is the name of an episode that is on air, and no episode before it
/// was on air with a name; when none is given, no episode is on air with a name.
pub proof fn law_show_is_the_first_on_air(
    episodes: Seq<EpisodeText>,
    channel: Seq<char>,
    now: int,
)
    ensures
        match show_on_air(episodes, channel, now) {
            Some(name) => exists|i: int|
                0 <= i < episodes.len() && #[trigger] episodes[i].answers(channel, now)
                    && episodes[i].name() == Some(name) && forall|j: int|
                    0 <= j < i ==> !(#[trigger] episodes[j].answers(channel, now)),
            None => forall|i: int|
                0 <= i < episodes.len() ==> !(#[trigger] episodes[i].answers(channel, now)),
        },
    decreases episodes.len(),
{
    if episodes.len() > 0 {
        if episodes[0].answers(channel, now) {
        } else {
            let rest = episodes.drop_first();
            law_show_is_the_first_on_air(rest, channel, now);
            match show_on_air(rest, channel, now) {
                Some(name) => {
                    let i = choose|i: int|
                        0 <= i < rest.len() && #[trigger] rest[i].answers(channel, now)
                            && rest[i].name() == Some(name) && forall|j: int|
                            0 <= j < i ==> !(#[trigger] rest[j].answers(channel, now));
                    assert(episodes[i + 1].answers(channel, now));
                    assert forall|j: int| 0 <= j < i + 1 implies !(
                    #[trigger] episodes[j].answers(channel, now)) by {
                        if j > 0 {
                            assert(!rest[j - 1].answers(channel, now));
                        }
                    }
                },
                None => {
                    assert forall|i: int| 0 <= i < episodes.len() implies !(
                    #[trigger] episodes[i].answers(channel, now)) by {
                        if i > 0 {
                            assert(!rest[i - 1].answers(channel, now));
                        }
                    }
                },
            }
        }
    }
}

/// Episodes that do not answer can be left out.
proof fn lemma_only_answers_count(
    episodes: Seq<EpisodeText>,
    channel: Seq<char>,
    now: int,
    keep: spec_fn(EpisodeText) -> bool,
)
    requires
        forall|e: EpisodeText| #[trigger] e.answers(channel, now) ==> keep(e),
    ensures
        show_on_air(episodes, channel, now) == show_on_air(episodes.filter(keep), channel, now),
    decreases episodes.len(),
{
    if episodes.len() == 0 {
        reveal(Seq::filter);
        assert(episodes.filter(keep) =~= episodes);
    } else {
        let first = seq![episodes[0]];
        let rest = episodes.drop_first();
        lemma_only_answers_count(rest, channel, now, keep);
        assert(episodes =~= first + rest);
        Seq::filter_distributes_over_add(first, rest, keep);
        reveal_with_fuel(Seq::filter, 2);
        assert(first.drop_last() =~= Seq::<EpisodeText>::empty());
        let kept = episodes.filter(keep);
        if keep(episodes[0]) {
            assert(first.filter(keep) =~= first);
            assert(kept[0] == episodes[0]);
            assert(kept.drop_first() =~= rest.filter(keep));
        } else {
            assert(first.filter(keep) =~= Seq::<EpisodeText>::empty());
            assert(kept =~= rest.filter(keep));
        }
    }
}

/// The episodes of other channels make no difference.
pub proof fn law_other_channels_do_not_count(
    episodes: Seq<EpisodeText>,
    channel: Seq<char>,
    now: int,
)
    ensures
        show_on_air(episodes, channel, now) == show_on_air(
            episodes.filter(|e: EpisodeText| e.slug == Some(channel)),
            channel,
            now,
        ),
{
    lemma_only_answers_count(
        episodes,
        channel,
        now,
        |e: EpisodeText| e.slug == Some(channel),
    );
}

/// The episodes whose date or time is missing or cannot be read make no difference, nor do
/// those of other channels.
pub proof fn law_unscheduled_episodes_do_not_count(
    episodes: Seq<EpisodeText>,
    channel: Seq<char>,
    now: int,
)
    ensures
        show_on_air(episodes, channel, now) == show_on_air(
            episodes.filter(|e: EpisodeText| e.start() is Some),
            channel,
            now,
        ),
        show_on_air(episodes, channel, now) == show_on_air(
            episodes.filter(|e: EpisodeText| e.scheduled(channel)),
            channel,
            now,
        ),
{
    lemma_only_answers_count(episodes, channel, now, |e: EpisodeText| e.start() is Some);
    lemma_only_answers_count(episodes, channel, now, |e: EpisodeText| e.scheduled(channel));
}

/// An episode begins at its time of day on its day of broadcast: with a day that is written as
/// one timestamp, a London midnight that may be an hour off in UTC, and a time of day in
/// another, it begins that many hours and minutes after the first.
pub proof fn law_day_and_time_are_joined(
    e: EpisodeText,
    y: int,
    mo: int,
    d: int,
    day_h: int,
    day_mi: int,
    day_s: int,
    day_more: Seq<u8>,
    y2: int,
    mo2: int,
    d2: int,
    h: int,
    mi: int,
    s: int,
    more: Seq<u8>,
)
    requires
        0 <= y < 10000 && 0 <= mo < 100 && 0 <= d < 100,
        0 <= day_h < 100 && 0 <= day_mi < 100 && 0 <= day_s < 100,
        0 <= y2 < 10000 && 0 <= mo2 < 100 && 0 <= d2 < 100,
        0 <= h < 100 && 0 <= mi < 100 && 0 <= s < 100,
        e.date is Some,
        encode_utf8(e.date.unwrap()) == civil::stamp(y, mo, d, day_h, day_mi, day_s) + day_more,
        e.time is Some,
        encode_utf8(e.time.unwrap()) == civil::stamp(y2, mo2, d2, h, mi, s) + more,
    ensures
        e.start() == Some(
            civil::civil_days(y, mo, d) * 86400 + (day_h + h) * 3600 + (day_mi + mi) * 60 + day_s,
        ),
{
    civil::law_time_comes_back(y, mo, d, day_h, day_mi, day_s, day_more);
    civil::lemma_stamp_fields(y2, mo2, d2, h, mi, s, more);
}

/// An episode is on air from its start, for as long as it lasts, and no longer: at its end it
/// is off, so the next one can begin there.
pub proof fn law_episode_has_its_window(e: EpisodeText, channel: Seq<char>, now: int)
    requires
        e.scheduled(channel),
    ensures
        e.on_air(channel, now) <==> 0 <= now - e.start().unwrap() < e.seconds(),
        e.on_air(channel, e.start().unwrap()) <==> e.seconds() > 0,
        !e.on_air(channel, e.start().unwrap() + e.seconds()),
{
}

/// A name that is given is not blank and has no white space at its ends, and an artist that is
/// not blank is the name whatever the title is.
pub proof fn law_artist_is_preferred(e: EpisodeText)
    ensures
        e.name() matches Some(name) ==> name.len() > 0 && text::trim(name) == name,
        e.artist matches Some(artist) ==> (text::trim(artist).len() > 0 ==> e.name() == Some(
            text::trim(artist),
        )),
{
    if let Some(artist) = e.artist {
        text::law_trim_is_settled(artist);
    }
    if let Some(title) = e.title {
        text::law_trim_is_settled(text::before(title, " - "@));
    }
}

/// What an episode says is what it holds, part by part.
pub proof fn law_episode_says_what_it_holds(e: Episode, s: String)
    ensures
        chars_if_any(Some(s)) == Some(s@),
        chars_if_any(None) is None,
        e@.slug == chars_if_any(e.slug) && e@.date == chars_if_any(e.date),
        e@.time == chars_if_any(e.time) && e@.length == e.length,
        e@.artist == chars_if_any(e.artist) && e@.title == chars_if_any(e.title),
{
}

/// An episode of the channel is on air from its start for as many minutes as are given, for an
/// hour when none are, and at no other second; one of another channel, or without a start, never
/// is.
pub proof fn law_episode_lasts_its_minutes(
    e: EpisodeText,
    channel: Seq<char>,
    start: int,
    now: int,
)
    ensures
        e.slug == Some(channel) && e.start() == Some(start) ==> {
            &&& e.length matches Some(m) ==> (e.on_air(channel, now) <==> start <= now < start + 60
                * m)
            &&& e.length is None ==> (e.on_air(channel, now) <==> start <= now < start + 3600)
        },
        e.slug != Some(channel) || e.start() is None ==> !e.on_air(channel, now),
        e.answers(channel, now) <==> e.on_air(channel, now) && e.name() is Some,
{
}

/// The second at which an episode begins is that of its date, and as many hours and minutes
/// more as its time says in the bytes 11 and 12, and 14 and 15; without a date and a time that
/// say so it has no start.
pub proof fn law_start_is_the_date_and_the_time(e: EpisodeText)
    ensures
        e.date is None || e.time is None ==> e.start() is None,
        e.date is Some && e.time is Some ==> {
            let day = civil::iso_epoch(encode_utf8(e.date.unwrap()));
            let clock = civil::as_chars(encode_utf8(e.time.unwrap()));
            let h = civil::field(clock, 11, 13);
            let m = civil::field(clock, 14, 16);
            &&& day is None || h is None || m is None ==> e.start() is None
            &&& day is Some && h is Some && m is Some ==> e.start() == Some(
                day.unwrap() + 3600 * h.unwrap() + 60 * m.unwrap(),
            )
        },
{
}

/// With a date that is a time, and a time in digits, an episode begins that many hours and
/// minutes after its date.
pub proof fn law_hours_and_minutes_are_added(e: EpisodeText, day: int, h: int, m: int)
    requires
        e.date matches Some(d) && civil::iso_epoch(encode_utf8(d)) == Some(day),
        0 <= h <= 99 && 0 <= m <= 99,
        e.time matches Some(t) && {
            let bytes = encode_utf8(t);
            &&& bytes.len() >= 16
            &&& bytes[11] == 48 + h / 10 && bytes[12] == 48 + h % 10
            &&& bytes[14] == 48 + m / 10 && bytes[15] == 48 + m % 10
        },
    ensures
        e.start() == Some(day + 3600 * h + 60 * m),
{
    let bytes = encode_utf8(e.time.unwrap());
    let clock = civil::as_chars(bytes);
    assert(clock[11] as int == bytes[11] && clock[12] as int == bytes[12]);
    assert(clock[14] as int == bytes[14] && clock[15] as int == bytes[15]);
    civil::law_field_of_two(clock, 11);
    civil::law_field_of_two(clock, 14);
}

/// The name of a show is the artist, trimmed, unless that is missing or blank; then it is what
/// comes before the first ` - ` of the title, or the whole title, trimmed. A name that would be
/// blank is none.
pub proof fn law_name_is_the_artist_or_from_the_title(
    e: &Episode,
    name: Option<String>,
    head: Seq<char>,
    tail: Seq<char>,
)
    requires
        call_ensures(show_name, (e,), name),
    ensures
        e.artist matches Some(a) ==> (text::trim(a@).len() > 0 ==> name is Some && name.unwrap()@
            == text::trim(a@)),
        (e.artist matches Some(a) ==> text::trim(a@).len() == 0) ==> {
            &&& e.title is None ==> name is None
            &&& e.title matches Some(t) ==> {
                ||| t@ == head && forall|j: int|
                    0 <= j <= head.len() - 3 ==> !(#[trigger] head[j] == ' ' && head[j + 1] == '-'
                        && head[j + 2] == ' ')
                ||| t@ == head + seq![' ', '-', ' '] + tail && forall|j: int|
                    0 <= j < head.len() ==> !(#[trigger] t@[j] == ' ' && t@[j + 1] == '-' && t@[j
                        + 2] == ' ')
            } ==> {
                &&& text::trim(head).len() > 0 ==> name is Some && name.unwrap()@ == text::trim(
                    head,
                )
                &&& text::trim(head).len() == 0 ==> name is None
            }
        },
        chars_if_any(name) == e@.name(),
{
    reveal_strlit(" - ");
    if let Some(t) = e.title {
        let s = t@;
        assert forall|j: int| 0 <= j <= s.len() - 3 implies (text::stands_at(s, " - "@, j) <==> (
        #[trigger] s[j] == ' ' && s[j + 1] == '-' && s[j + 2] == ' ')) by {
            let three = s.subrange(j, j + 3);
            assert(three[0] == s[j] && three[1] == s[j + 1] && three[2] == s[j + 2]);
            if s[j] == ' ' && s[j + 1] == '-' && s[j + 2] == ' ' {
                assert(three =~= " - "@);
            }
        }
        text::lemma_find_stands(s, " - "@, 0);
        if s == head + seq![' ', '-', ' '] + tail {
            let n = head.len() as int;
            assert(s[n] == ' ' && s[n + 1] == '-' && s[n + 2] == ' ');
            if forall|j: int|
                0 <= j < n ==> !(#[trigger] s[j] == ' ' && s[j + 1] == '-' && s[j + 2] == ' ') {
                assert forall|j: int| 0 <= j < n implies !text::stands_at(s, " - "@, j) by {
                    assert(!(s[j] == ' ' && s[j + 1] == '-' && s[j + 2] == ' '));
                    assert(j <= s.len() - 3);
                    let three = s.subrange(j, j + 3);
                    assert(three[0] == s[j] && three[1] == s[j + 1] && three[2] == s[j + 2]);
                }
                text::lemma_find_first(s, " - "@, 0, n);
                assert(s.take(n) =~= head);
            }
        }
        if s == head && forall|j: int|
            0 <= j <= head.len() - 3 ==> !(#[trigger] head[j] == ' ' && head[j + 1] == '-'
                && head[j + 2] == ' ') {
            if let Some(i) = text::find(s, " - "@) {
                assert(text::stands_at(s, " - "@, i));
                assert(!(head[i] == ' ' && head[i + 1] == '-' && head[i + 2] == ' '));
            }
        }
    }
}

/// What an object holds under a key as a text.
pub open spec fn text_under(members: Map<Seq<char>, Json>, key: Seq<char>) -> Option<Seq<char>> {
    if members.contains_key(key) {
        match members[key] {
            Json::Text(s) => Some(s),
            _ => None,
        }
    } else {
        None
    }
}

/// An episode is read from an object by its keys: each text where the member is a text, the
/// length where it is an integer, and the slug where the first item of a list is an object that
/// has one. A member that is missing or something else leaves its own part out and no other.
pub proof fn law_episode_is_read_by_its_keys(
    v: &Value,
    e: Episode,
    members: Map<Seq<char>, Json>,
    channels: Seq<Json>,
    first: Map<Seq<char>, Json>,
)
    requires
        call_ensures(read_episode, (v,), e),
        json::json_of(*v) == Json::Object(members),
    ensures
        chars_if_any(e.date) == text_under(members, "episodeDate"@),
        chars_if_any(e.time) == text_under(members, "episodeTime"@),
        chars_if_any(e.artist) == text_under(members, "artistTitle"@),
        chars_if_any(e.title) == text_under(members, "title"@),
        e.length == (if members.contains_key("episodeLength"@) {
            match members["episodeLength"@] {
                Json::Integer(m) => Some(m),
                _ => None,
            }
        } else {
            None
        }),
        !members.contains_key("channel"@) || !(members["channel"@] is Array) ==> e.slug is None,
        members.contains_key("channel"@) && members["channel"@] == Json::Array(channels) ==> {
            &&& channels.len() == 0 || !(channels[0] is Object) ==> e.slug is None
            &&& channels.len() > 0 && channels[0] == Json::Object(first) ==> chars_if_any(e.slug)
                == text_under(first, "slug"@)
        },
{
    assert(e@ == episode_of(json::json_of(*v)));
    assert(e@.slug == chars_if_any(e.slug));
}

/// A value that is no object is an episode that says nothing.
pub proof fn law_other_values_say_nothing(v: &Value, e: Episode)
    requires
        call_ensures(read_episode, (v,), e),
        !(json::json_of(*v) is Object),
    ensures
        e.slug is None && e.date is None && e.time is None,
        e.length is None && e.artist is None && e.title is None,
{
    assert(e@ == episode_of(json::json_of(*v)));
}

/// The episodes of a schedule are the items of the list that it holds as `episodes`, each read
/// as it stands, in order; a schedule without such a list has none.
pub proof fn law_every_episode_is_read(
    sched: &Value,
    r: Option<Vec<Episode>>,
    members: Map<Seq<char>, Json>,
    items: Seq<Json>,
    i: int,
)
    requires
        call_ensures(read_episodes, (sched,), r),
    ensures
        !(json::json_of(*sched) is Object) ==> r is None,
        json::json_of(*sched) == Json::Object(members) ==> {
            &&& !members.contains_key("episodes"@) || !(members["episodes"@] is Array) ==> r is None
            &&& members.contains_key("episodes"@) && members["episodes"@] == Json::Array(items) ==> {
                &&& r matches Some(episodes) && episodes@.len() == items.len()
                &&& 0 <= i < items.len() ==> r.unwrap()@[i]@ == episode_of(items[i])
            }
        },
{
    if let Some(episodes) = r {
        let all = texts(episodes@);
        assert(all.len() == episodes@.len());
        if 0 <= i < all.len() {
            assert(all[i] == episodes@[i]@);
        }
    }
}

/// The show is the name of the first episode in the list that is on air and has a name,
/// whatever comes after it; there is none when no episode is such.
pub proof fn law_first_named_episode_is_the_show(
    episodes: &Vec<Episode>,
    channel: &str,
    now: i64,
    show: Option<String>,
    i: int,
)
    requires
        call_ensures(find_show, (episodes, channel, now), show),
    ensures
        0 <= i < episodes@.len() && episodes@[i]@.on_air(channel@, now as int)
            && episodes@[i]@.name() is Some && (forall|j: int|
            0 <= j < i ==> !(#[trigger] episodes@[j]@.on_air(channel@, now as int)
                && episodes@[j]@.name() is Some)) ==> show is Some && Some(
            show.unwrap()@,
        ) == episodes@[i]@.name(),
        (forall|j: int|
            0 <= j < episodes@.len() ==> !(#[trigger] episodes@[j]@.on_air(channel@, now as int)
                && episodes@[j]@.name() is Some)) ==> show is None,
{
    lemma_first_named(texts(episodes@), channel@, now as int, i);
    let all = texts(episodes@);
    assert(all.len() == episodes@.len());
    assert forall|j: int| 0 <= j < all.len() implies #[trigger] all[j] == episodes@[j]@ by {}
    if forall|j: int|
        0 <= j < episodes@.len() ==> !(#[trigger] episodes@[j]@.on_air(channel@, now as int)
            && episodes@[j]@.name() is Some) {
        assert forall|j: int| 0 <= j < all.len() implies !(#[trigger] all[j].on_air(
            channel@,
            now as int,
        ) && all[j].name() is Some) by {
            assert(!(episodes@[j]@.on_air(channel@, now as int) && episodes@[j]@.name() is Some));
        }
    }
    if 0 <= i < episodes@.len() && forall|j: int|
        0 <= j < i ==> !(#[trigger] episodes@[j]@.on_air(channel@, now as int)
            && episodes@[j]@.name() is Some) {
        assert forall|j: int| 0 <= j < i implies !(#[trigger] all[j].on_air(channel@, now as int)
            && all[j].name() is Some) by {
            assert(!(episodes@[j]@.on_air(channel@, now as int) && episodes@[j]@.name() is Some));
        }
    }
}

proof fn lemma_first_named(episodes: Seq<EpisodeText>, channel: Seq<char>, now: int, i: int)
    ensures
        0 <= i < episodes.len() && episodes[i].on_air(channel, now) && episodes[i].name() is Some
            && (forall|j: int|
            0 <= j < i ==> !(#[trigger] episodes[j].on_air(channel, now)
                && episodes[j].name() is Some)) ==> show_on_air(episodes, channel, now)
            == episodes[i].name(),
        (forall|j: int|
            0 <= j < episodes.len() ==> !(#[trigger] episodes[j].on_air(channel, now)
                && episodes[j].name() is Some)) ==> show_on_air(episodes, channel, now) is None,
{
    law_show_is_the_first_on_air(episodes, channel, now);
    match show_on_air(episodes, channel, now) {
        Some(name) => {
            let k = choose|k: int|
                0 <= k < episodes.len() && #[trigger] episodes[k].answers(channel, now)
                    && episodes[k].name() == Some(name) && forall|j: int|
                    0 <= j < k ==> !(#[trigger] episodes[j].answers(channel, now));
            assert(episodes[k].on_air(channel, now) && episodes[k].name() is Some);
            if 0 <= i < k {
                assert(!episodes[i].answers(channel, now));
            }
        },
        None => {
            if 0 <= i < episodes.len() {
                assert(!episodes[i].answers(channel, now));
            }
        },
    }
}

/// The show that a schedule has on air is that of its episodes, as they are read; a schedule
/// without episodes has none.
pub proof fn law_current_show_is_that_of_the_episodes(
    sched: &Value,
    channel: &str,
    now: i64,
    show: Option<String>,
    episodes: Option<Vec<Episode>>,
    i: int,
)
    requires
        call_ensures(current_show, (sched, channel, now), show),
        call_ensures(read_episodes, (sched,), episodes),
    ensures
        episodes is None ==> show is None,
        episodes matches Some(list) ==> {
            &&& 0 <= i < list@.len() && list@[i]@.on_air(channel@, now as int)
                && list@[i]@.name() is Some && (forall|j: int|
                0 <= j < i ==> !(#[trigger] list@[j]@.on_air(channel@, now as int)
                    && list@[j]@.name() is Some)) ==> show is Some && Some(
                show.unwrap()@,
            ) == list@[i]@.name()
            &&& (forall|j: int|
                0 <= j < list@.len() ==> !(#[trigger] list@[j]@.on_air(channel@, now as int)
                    && list@[j]@.name() is Some)) ==> show is None
        },
{
    if let Some(list) = episodes {
        let all = texts(list@);
        lemma_first_named(all, channel@, now as int, i);
        assert(all.len() == list@.len());
        assert forall|j: int| 0 <= j < all.len() implies #[trigger] all[j] == list@[j]@ by {}
        if forall|j: int|
            0 <= j < list@.len() ==> !(#[trigger] list@[j]@.on_air(channel@, now as int)
                && list@[j]@.name() is Some) {
            assert forall|j: int| 0 <= j < all.len() implies !(#[trigger] all[j].on_air(
                channel@,
                now as int,
            ) && all[j].name() is Some) by {
                assert(!(list@[j]@.on_air(channel@, now as int) && list@[j]@.name() is Some));
            }
        }
        if 0 <= i < list@.len() && forall|j: int|
            0 <= j < i ==> !(#[trigger] list@[j]@.on_air(channel@, now as int)
                && list@[j]@.name() is Some) {
            assert forall|j: int| 0 <= j < i implies !(#[trigger] all[j].on_air(
                channel@,
                now as int,
            ) && all[j].name() is Some) by {
                assert(!(list@[j]@.on_air(channel@, now as int) && list@[j]@.name() is Some));
            }
        }
    }
}

proof fn lemma_ends_fit(episodes: Seq<EpisodeText>, channel: Seq<char>, now: int)
    requires
        forall|i: int|
            0 <= i < episodes.len() ==> ((#[trigger] episodes[i]).length matches Some(m)
                ==> -1_000_000_000_000_000 <= m <= 1_000_000_000_000_000),
    ensures
        ends_fit(episodes, channel, now),
    decreases episodes.len(),
{
    if episodes.len() > 0 {
        let e = episodes[0];
        let rest = episodes.drop_first();
        assert forall|i: int| 0 <= i < rest.len() implies ((#[trigger] rest[i]).length matches Some(
            m,
        ) ==> -1_000_000_000_000_000 <= m <= 1_000_000_000_000_000) by {
            assert(rest[i] == episodes[i + 1]);
        }
        lemma_ends_fit(rest, channel, now);
        if let Some(d) = e.date {
            civil::lemma_time_bound(encode_utf8(d));
        }
        if let Some(t) = e.time {
            civil::lemma_time_bound(encode_utf8(t));
        }
    }
}

/// A look at the schedule that is given is what `current_show` gives. It is given when the ends
/// of the episodes fit, so where none lasts some thousand million years, and without episodes.
pub proof fn law_checked_show_is_the_current_show(
    sched: &Value,
    channel: &str,
    now: i64,
    r: Result<Option<String>, EndOverflow>,
    show: Option<String>,
    episodes: Option<Vec<Episode>>,
    fit: bool,
)
    requires
        call_ensures(checked_current_show, (sched, channel, now), r),
        call_ensures(current_show, (sched, channel, now), show),
        call_ensures(read_episodes, (sched,), episodes),
        episodes matches Some(list) ==> call_ensures(check_ends, (&list, channel, now), fit),
    ensures
        r matches Ok(s) ==> chars_if_any(s) == chars_if_any(show),
        episodes is None ==> r is Ok,
        episodes is Some ==> (r is Ok <==> fit),
        episodes matches Some(list) ==> ((forall|i: int|
            0 <= i < list@.len() ==> ((#[trigger] list@[i]).length matches Some(m)
                ==> -1_000_000_000_000_000 <= m <= 1_000_000_000_000_000)) ==> r is Ok),
{
    if let Some(list) = episodes {
        if forall|i: int|
            0 <= i < list@.len() ==> ((#[trigger] list@[i]).length matches Some(m)
                ==> -1_000_000_000_000_000 <= m <= 1_000_000_000_000_000) {
            let all = texts(list@);
            assert forall|i: int| 0 <= i < all.len() implies ((#[trigger] all[i]).length matches Some(
                m,
            ) ==> -1_000_000_000_000_000 <= m <= 1_000_000_000_000_000) by {
                assert(all[i].length == list@[i].length);
            }
            lemma_ends_fit(all, channel@, now as int);
        }
    }
}

/// The ends fit when an `i64` holds the seconds and the end of every episode of the channel with
/// a start, up to the first one that answers, and only then.
pub proof fn law_ends_are_checked_up_to_the_answer(
    episodes: &Vec<Episode>,
    channel: &str,
    now: i64,
    b: bool,
)
    requires
        call_ensures(check_ends, (episodes, channel, now), b),
    ensures
        b <==> forall|i: int|
            0 <= i < episodes@.len() && (#[trigger] episodes@[i])@.slug == Some(channel@)
                && episodes@[i]@.start() is Some && (forall|j: int|
                0 <= j < i ==> !(#[trigger] episodes@[j]@.answers(channel@, now as int))) ==> {
                let minutes = match episodes@[i].length {
                    Some(m) => m as int,
                    None => 60,
                };
                &&& -0x8000_0000_0000_0000 <= 60 * minutes <= 0x7fff_ffff_ffff_ffff
                &&& -0x8000_0000_0000_0000 <= episodes@[i]@.start().unwrap() + 60 * minutes
                    <= 0x7fff_ffff_ffff_ffff
            },
{
    let all = texts(episodes@);
    lemma_ends_up_to_the_answer(all, channel@, now as int);
    assert(all.len() == episodes@.len());
    assert forall|i: int| 0 <= i < all.len() implies #[trigger] all[i] == episodes@[i]@ by {}
    if b {
        assert forall|i: int|
            0 <= i < episodes@.len() && (#[trigger] episodes@[i])@.slug == Some(channel@)
                && episodes@[i]@.start() is Some && (forall|j: int|
                0 <= j < i ==> !(#[trigger] episodes@[j]@.answers(channel@, now as int))) implies {
            let minutes = match episodes@[i].length {
                Some(m) => m as int,
                None => 60,
            };
            &&& -0x8000_0000_0000_0000 <= 60 * minutes <= 0x7fff_ffff_ffff_ffff
            &&& -0x8000_0000_0000_0000 <= episodes@[i]@.start().unwrap() + 60 * minutes
                <= 0x7fff_ffff_ffff_ffff
        } by {
            assert forall|j: int| 0 <= j < i implies !(#[trigger] all[j].answers(
                channel@,
                now as int,
            )) by {
                assert(!episodes@[j]@.answers(channel@, now as int));
            }
            assert(all[i].scheduled(channel@));
            assert(all[i].end_fits());
        }
    } else {
        let i = choose|i: int|
            0 <= i < all.len() && (#[trigger] all[i]).scheduled(channel@) && (forall|j: int|
                0 <= j < i ==> !(#[trigger] all[j].answers(channel@, now as int)))
                && !all[i].end_fits();
        assert(episodes@[i]@ == all[i]);
        assert forall|j: int| 0 <= j < i implies !(#[trigger] episodes@[j]@.answers(
            channel@,
            now as int,
        )) by {
            assert(!all[j].answers(channel@, now as int));
        }
    }
}

proof fn lemma_ends_up_to_the_answer(episodes: Seq<EpisodeText>, channel: Seq<char>, now: int)
    ensures
        ends_fit(episodes, channel, now) <==> forall|i: int|
            0 <= i < episodes.len() && (#[trigger] episodes[i]).scheduled(channel) && (forall|j: int|
                0 <= j < i ==> !(#[trigger] episodes[j].answers(channel, now)))
                ==> episodes[i].end_fits(),
    decreases episodes.len(),
{
    if episodes.len() > 0 {
        let rest = episodes.drop_first();
        lemma_ends_up_to_the_answer(rest, channel, now);
        if ends_fit(episodes, channel, now) {
            assert forall|i: int|
                0 <= i < episodes.len() && (#[trigger] episodes[i]).scheduled(channel) && (forall|
                    j: int,
                |
                    0 <= j < i ==> !(#[trigger] episodes[j].answers(channel, now))) implies
                episodes[i].end_fits() by {
                if i > 0 {
                    assert(!episodes[0].answers(channel, now));
                    assert(rest[i - 1] == episodes[i]);
                    assert forall|j: int| 0 <= j < i - 1 implies !(#[trigger] rest[j].answers(
                        channel,
                        now,
                    )) by {
                        assert(!episodes[j + 1].answers(channel, now));
                    }
                }
            }
        } else if !(episodes[0].scheduled(channel) ==> episodes[0].end_fits()) {
            assert(episodes[0].scheduled(channel) && !episodes[0].end_fits());
        } else {
            let i = choose|i: int|
                0 <= i < rest.len() && (#[trigger] rest[i]).scheduled(channel) && (forall|j: int|
                    0 <= j < i ==> !(#[trigger] rest[j].answers(channel, now)))
                    && !rest[i].end_fits();
            assert(episodes[i + 1] == rest[i]);
            assert forall|j: int| 0 <= j < i + 1 implies !(#[trigger] episodes[j].answers(
                channel,
                now,
            )) by {
                if j > 0 {
                    assert(!rest[j - 1].answers(channel, now));
                }
            }
        }
    }
}

/// The document in an answer is what comes after the first blank line, all of it and nothing
/// else, whatever the headers before it are.
pub proof fn law_document_follows_the_blank_line(
    head: Seq<u8>,
    body: Seq<u8>,
    raw: &[u8],
    r: Option<Value>,
    start: Option<usize>,
)
    requires
        call_ensures(parse_schedule, (raw,), r),
        call_ensures(body_start, (raw,), start),
        raw@ == head + seq![13u8, 10u8, 13u8, 10u8] + body,
        forall|j: int|
            0 <= j < head.len() ==> !(#[trigger] raw@[j] == 13 && raw@[j + 1] == 10 && raw@[j + 2]
                == 13 && raw@[j + 3] == 10),
    ensures
        start == Some((head.len() + 4) as usize),
        match r {
            Some(v) => json::json_document(body) == Some(json::json_of(v)),
            None => json::json_document(body) is None,
        },
{
    lemma_blank_line(raw@);
    let n = head.len() as int;
    assert(raw@[n] == 13 && raw@[n + 1] == 10 && raw@[n + 2] == 13 && raw@[n + 3] == 10);
    assert(text::stands_at(civil::as_chars(raw@), "\r\n\r\n"@, n));
    assert forall|j: int| 0 <= j < n implies !text::stands_at(
        civil::as_chars(raw@),
        "\r\n\r\n"@,
        j,
    ) by {
        assert(!(raw@[j] == 13 && raw@[j + 1] == 10 && raw@[j + 2] == 13 && raw@[j + 3] == 10));
    }
    text::lemma_find_first(civil::as_chars(raw@), "\r\n\r\n"@, 0, n);
    assert(raw@.skip(n + 4) =~= body);
}

/// An answer without a blank line has no document.
pub proof fn law_no_blank_line_no_document(raw: &[u8], r: Option<Value>, start: Option<usize>)
    requires
        call_ensures(parse_schedule, (raw,), r),
        call_ensures(body_start, (raw,), start),
        forall|j: int|
            0 <= j <= raw@.len() - 4 ==> !(#[trigger] raw@[j] == 13 && raw@[j + 1] == 10 && raw@[j
                + 2] == 13 && raw@[j + 3] == 10),
    ensures
        start is None,
        r is None,
{
    lemma_blank_line(raw@);
    text::lemma_find_stands(civil::as_chars(raw@), "\r\n\r\n"@, 0);
    reveal_strlit("\r\n\r\n");
    if let Some(i) = text::find(civil::as_chars(raw@), "\r\n\r\n"@) {
        assert(text::stands_at(civil::as_chars(raw@), "\r\n\r\n"@, i));
        assert(raw@[i] == 13 && raw@[i + 1] == 10 && raw@[i + 2] == 13 && raw@[i + 3] == 10);
    }
}

proof fn lemma_blank_line(raw: Seq<u8>)
    ensures
        forall|j: int|
            0 <= j <= raw.len() - 4 ==> (text::stands_at(
                civil::as_chars(raw),
                "\r\n\r\n"@,
                j,
            ) <==> (#[trigger] raw[j] == 13 && raw[j + 1] == 10 && raw[j + 2] == 13 && raw[j + 3]
                == 10)),
{
    reveal_strlit("\r\n\r\n");
    let chars = civil::as_chars(raw);
    assert forall|j: int| 0 <= j <= raw.len() - 4 implies (text::stands_at(
        chars,
        "\r\n\r\n"@,
        j,
    ) <==> (#[trigger] raw[j] == 13 && raw[j + 1] == 10 && raw[j + 2] == 13 && raw[j + 3]
        == 10)) by {
        let four = chars.subrange(j, j + 4);
        assert(four[0] as int == raw[j] && four[1] as int == raw[j + 1] && four[2] as int == raw[j
            + 2] && four[3] as int == raw[j + 3]);
        if raw[j] == 13 && raw[j + 1] == 10 && raw[j + 2] == 13 && raw[j + 3] == 10 {
            assert(four =~= "\r\n\r\n"@);
        }
    }
}

/// The schedule is asked for once a minute, of the host that the request names.
pub proof fn law_schedule_is_asked_for_every_minute()
    ensures
        POLL_SECONDS == 60,
        SCHEDULE_HOST@ == "www.rinse.fm"@,
{
}

/// The request is made of the lines that ask for the schedule as JSON, each ended by CR LF, and
/// an empty line.
pub proof fn law_schedule_request_in_lines(request: String)
    requires
        call_ensures(schedule_request, (), request),
    ensures
        ({
            let end = seq!['\r', '\n'];
            request@ == "GET /api/query/v1/schedule HTTP/1.0"@ + end + "Host: www.rinse.fm"@ + end
                + "User-Agent: rinse-cli/1.0"@ + end + "Accept: application/json"@ + end
                + "Connection: close"@ + end + end
        }),
{
    reveal_strlit(
        "GET /api/query/v1/schedule HTTP/1.0\r\nHost: www.rinse.fm\r\nUser-Agent: rinse-cli/1.0\r\nAccept: application/json\r\nConnection: close\r\n\r\n",
    );
    reveal_strlit("GET /api/query/v1/schedule HTTP/1.0");
    reveal_strlit("Host: www.rinse.fm");
    reveal_strlit("User-Agent: rinse-cli/1.0");
    reveal_strlit("Accept: application/json");
    reveal_strlit("Connection: close");
    let end = seq!['\r', '\n'];
    assert(request@ =~= "GET /api/query/v1/schedule HTTP/1.0"@ + end + "Host: www.rinse.fm"@ + end
        + "User-Agent: rinse-cli/1.0"@ + end + "Accept: application/json"@ + end
        + "Connection: close"@ + end + end);
}

} // verus!
