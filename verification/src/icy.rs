//! The ICY protocol: the request, the answer's status and headers, and a body in which
//! audio is interleaved with metadata blocks.

use vstd::prelude::*;
use vstd::string::*;
use vstd::utf8::*;
use crate::state::StreamState;
use crate::text;

verus! {

/// The most bytes asked for at a time.
pub const BUFFER: usize = 8192;

/// The seconds to wait before a lost connection is made again.
pub const RETRY_SECONDS: u64 = 2;

/// The text of the bytes `blob`, each ill-formed sequence replaced by U+FFFD as
/// `String::from_utf8_lossy` does it.
pub uninterp spec fn utf8_lossy(blob: Seq<u8>) -> Seq<char>;

/// Calls `String::from_utf8_lossy`: its text is a function of the bytes, and the decoded
/// text where the bytes are well-formed UTF-8. Where a replacement character goes in
/// ill-formed bytes is left to the name.
#[verifier::external_body]
fn lossy_text(blob: &[u8]) -> (s: String)
    ensures
        s@ == utf8_lossy(blob@),
        valid_utf8(blob@) ==> s@ == decode_utf8(blob@),
{
    String::from_utf8_lossy(blob).into_owned()
}

/// `s` without the NULs it ends with.
pub open spec fn without_padding(s: Seq<char>) -> Seq<char>
    decreases s.len(),
{
    if s.len() > 0 && s.last() == '\0' {
        without_padding(s.drop_last())
    } else {
        s
    }
}

/// The title in the text of a metadata block: what stands between the first
/// `StreamTitle='` and the next `';`, trimmed, unless that is nothing.
pub open spec fn stream_title(s: Seq<char>) -> Option<Seq<char>> {
    let t = without_padding(s);
    match text::find(t, "StreamTitle='"@) {
        Some(i) => {
            let rest = t.skip(i + 13);
            match text::find(rest, "';"@) {
                Some(end) if text::trim(rest.take(end)).len() > 0 => Some(
                    text::trim(rest.take(end)),
                ),
                _ => None,
            }
        },
        None => None,
    }
}

/// The title after a metadata block with the text `s`, when it was `title` before.
pub open spec fn title_after(s: Seq<char>, title: Seq<char>) -> Seq<char> {
    match stream_title(s) {
        Some(new) => new,
        None => title,
    }
}

/// The title in the text of a metadata block.
pub fn title_in(text: &str) -> (title: Option<String>)
    ensures
        match title {
            Some(t) => stream_title(text@) == Some(t@),
            None => stream_title(text@) is None,
        },
{
    let mut chars: Vec<char> = text::chars_of(text);
    while chars.len() > 0 && chars[chars.len() - 1] == '\0'
        invariant
            chars@.len() <= text@.len(),
            chars@ == text@.take(chars@.len() as int),
            without_padding(chars@) == without_padding(text@),
        decreases chars@.len(),
    {
        let ghost longer = chars@;
        chars.pop();
        assert(chars@ =~= longer.drop_last());
    }
    let ghost t = chars@;
    assert(t == without_padding(text@));
    proof {
        reveal_strlit("StreamTitle='");
        reveal_strlit("';");
    }
    let start: usize = match text::find_in(&chars, "StreamTitle='", 0) {
        Some(i) => {
            proof {
                text::lemma_find_stands(t, "StreamTitle='"@, 0);
            }
            i + 13
        },
        None => return None,
    };
    let ghost rest = t.skip(start as int);
    match text::find_in(&chars, "';", start) {
        Some(end) => {
            proof {
                text::lemma_find_stands(t, "';"@, start as int);
                text::lemma_find_in_tail(t, "';"@, start as int, start as int);
                assert(rest.take(end - start) =~= t.subrange(start as int, end as int));
            }
            let (a, b) = text::trim_bounds(&chars, start, end);
            if a == b {
                return None;
            }
            assert(text@.subrange(a as int, b as int) =~= t.subrange(a as int, b as int));
            Some(text::slice(text, a, b))
        },
        None => {
            proof {
                text::lemma_find_in_tail(t, "';"@, start as int, start as int);
            }
            None
        },
    }
}

/// Takes the title of a metadata block, and keeps the last one when the block has none.
pub fn parse_meta(blob: &[u8], state: &mut StreamState)
    ensures
        final(state).title@ == title_after(utf8_lossy(blob@), old(state).title@),
        valid_utf8(blob@) ==> final(state).title@ == title_after(
            decode_utf8(blob@),
            old(state).title@,
        ),
        final(state).status == old(state).status,
        final(state).station == old(state).station,
        final(state).show == old(state).show,
{
    let block: String = lossy_text(blob);
    if let Some(title) = title_in(block.as_str()) {
        state.title = title;
    }
}

/// The request for the stream at `path` of `host`, metadata included.
pub open spec fn request_text(host: Seq<char>, path: Seq<char>) -> Seq<char> {
    "GET "@ + path + " HTTP/1.0\r\nHost: "@ + host
        + "\r\nIcy-MetaData: 1\r\nUser-Agent: rinse-cli/1.0\r\nConnection: close\r\n\r\n"@
}

/// The request for the stream at `path` of `host`.
pub fn stream_request(host: &str, path: &str) -> (request: String)
    ensures
        request@ == request_text(host@, path@),
{
    let mut request: String = "GET ".to_owned();
    request.append(path);
    request.append(" HTTP/1.0\r\nHost: ");
    request.append(host);
    request.append(
        "\r\nIcy-MetaData: 1\r\nUser-Agent: rinse-cli/1.0\r\nConnection: close\r\n\r\n",
    );
    request
}

/// A header line's name, in lower case, and its value, both trimmed.
pub open spec fn header(line: Seq<char>) -> Option<(Seq<char>, Seq<char>)> {
    let t = text::trim(line);
    match text::find(t, ":"@) {
        Some(i) => Some((text::to_lower(text::trim(t.take(i))), text::trim(t.skip(i + 1)))),
        None => None,
    }
}

/// The metadata interval after the header line `line`, when it was `metaint` before.
pub open spec fn metaint_after(line: Seq<char>, metaint: usize) -> usize {
    match header(line) {
        Some((name, value)) if name == "icy-metaint"@ => match text::unsigned(
            value,
            usize::MAX as int,
        ) {
            Some(n) => n as usize,
            None => 0,
        },
        _ => metaint,
    }
}

/// The station's name after the header line `line`, when it was `station` before.
pub open spec fn station_after(line: Seq<char>, station: Seq<char>) -> Seq<char> {
    match header(line) {
        Some((name, value)) if name == "icy-name"@ && value.len() > 0 => value,
        _ => station,
    }
}

/// Where a connection stands.
#[derive(Debug, Clone, Copy, PartialEq, Eq)]
pub enum Phase {
    /// The status line comes next.
    Status,
    /// A header line comes next.
    Headers,
    /// That many bytes of audio come next, and a length byte after them.
    Audio(usize),
    /// The length byte of a metadata block comes next.
    Length,
    /// A metadata block of that many bytes comes next.
    Meta(usize),
    /// Audio comes until the end, with no metadata.
    Plain,
}

/// What is to be read next.
#[derive(Debug, Clone, Copy, PartialEq, Eq)]
pub enum Want {
    /// A line of text.
    Line,
    /// That many bytes, no fewer.
    Exact(usize),
    /// As many bytes as have come, that many at most.
    UpTo(usize),
}

/// One connection to a stream, from the status line on.
#[derive(Debug, Clone, Copy, PartialEq, Eq)]
pub struct Session {
    pub phase: Phase,
    /// The bytes of audio between two metadata blocks; 0 for a body without metadata.
    pub metaint: usize,
}

impl Session {
    /// What holds of every session that `new` and the steps below give.
    pub open spec fn wf(self) -> bool {
        match self.phase {
            Phase::Status => self.metaint == 0,
            Phase::Headers => true,
            Phase::Audio(left) => 0 < left <= self.metaint,
            Phase::Length => self.metaint > 0,
            Phase::Meta(len) => self.metaint > 0 && 0 < len <= 255 * 16 && len % 16 == 0,
            Phase::Plain => self.metaint == 0,
        }
    }

    /// What is to be read next.
    pub open spec fn wants(self) -> Want {
        match self.phase {
            Phase::Status => Want::Line,
            Phase::Headers => Want::Line,
            Phase::Audio(left) => Want::Exact(vstd::math::min(left as int, BUFFER as int) as usize),
            Phase::Length => Want::Exact(1),
            Phase::Meta(len) => Want::Exact(len),
            Phase::Plain => Want::UpTo(BUFFER),
        }
    }

    /// `bytes` is what the session wants.
    pub open spec fn accepts(self, bytes: Seq<u8>) -> bool {
        match self.wants() {
            Want::Line => false,
            Want::Exact(n) => bytes.len() == n,
            Want::UpTo(n) => bytes.len() <= n,
        }
    }

    /// The phase in which a body, or its next stretch of audio, begins.
    pub open spec fn body_phase(self) -> Phase {
        if self.metaint > 0 {
            Phase::Audio(self.metaint)
        } else {
            Phase::Plain
        }
    }

    /// The phase after `bytes` were read in the body.
    pub open spec fn phase_after(self, bytes: Seq<u8>) -> Phase {
        match self.phase {
            Phase::Audio(left) => if left > bytes.len() {
                Phase::Audio((left - bytes.len()) as usize)
            } else {
                Phase::Length
            },
            Phase::Length => if bytes[0] > 0 {
                Phase::Meta((bytes[0] * 16) as usize)
            } else {
                self.body_phase()
            },
            Phase::Meta(len) => self.body_phase(),
            _ => self.phase,
        }
    }

    /// What is read now is audio.
    pub open spec fn in_audio(self) -> bool {
        self.phase is Audio || self.phase is Plain
    }

    /// A connection on which nothing was read yet.
    pub fn new() -> (s: Session)
        ensures
            s.wf(),
            s.phase == Phase::Status,
    {
        Session { phase: Phase::Status, metaint: 0 }
    }

    /// What is to be read next.
    pub fn want(&self) -> (w: Want)
        ensures
            w == self.wants(),
    {
        match self.phase {
            Phase::Status => Want::Line,
            Phase::Headers => Want::Line,
            Phase::Audio(left) => Want::Exact(if left <= BUFFER {
                left
            } else {
                BUFFER
            }),
            Phase::Length => Want::Exact(1),
            Phase::Meta(len) => Want::Exact(len),
            Phase::Plain => Want::UpTo(BUFFER),
        }
    }

    /// Takes the status line or a header line.
    ///
    /// A status line is good when `200` occurs in it: some servers write `ICY 200 OK` in
    /// place of an HTTP version. A blank line ends the headers, and the stream is live.
    pub fn on_line(&mut self, line: &str, state: &mut StreamState) -> (r: Result<(), String>)
        requires
            old(self).wf(),
            old(self).wants() == Want::Line,
        ensures
            final(self).wf(),
            final(state).title == old(state).title,
            final(state).show == old(state).show,
            match old(self).phase {
                Phase::Status => {
                    &&& *final(state) == *old(state)
                    &&& match text::find(line@, "200"@) {
                        Some(_) => {
                            &&& r is Ok
                            &&& final(self).phase == Phase::Headers
                            &&& final(self).metaint == old(self).metaint
                        },
                        None => {
                            &&& r matches Err(e) && e@ == "bad status: "@ + text::trim(line@)
                            &&& *final(self) == *old(self)
                        },
                    }
                },
                _ => {
                    &&& r is Ok
                    &&& if text::trim(line@).len() == 0 {
                        &&& final(self).phase == old(self).body_phase()
                        &&& final(self).metaint == old(self).metaint
                        &&& final(state).status@ == "live"@
                        &&& final(state).station == old(state).station
                    } else {
                        &&& final(self).phase == Phase::Headers
                        &&& final(self).metaint == metaint_after(line@, old(self).metaint)
                        &&& final(state).status == old(state).status
                        &&& final(state).station@ == station_after(line@, old(state).station@)
                    }
                },
            },
    {
        if let Phase::Status = self.phase {
            let chars: Vec<char> = text::chars_of(line);
            match text::find_in(&chars, "200", 0) {
                Some(_) => {
                    self.phase = Phase::Headers;
                    return Ok(());
                },
                None => {
                    let mut e: String = "bad status: ".to_owned();
                    e.append(text::trimmed(line).as_str());
                    return Err(e);
                },
            }
        }
        let hdr: String = text::trimmed(line);
        if hdr.as_str().is_empty() {
            state.status = "live".to_owned();
            self.phase = if self.metaint > 0 {
                Phase::Audio(self.metaint)
            } else {
                Phase::Plain
            };
            return Ok(());
        }
        let chars: Vec<char> = text::chars_of(hdr.as_str());
        if let Some(i) = text::find_in(&chars, ":", 0) {
            proof {
                reveal_strlit(":");
                text::lemma_find_stands(chars@, ":"@, 0);
            }
            let ghost t = chars@;
            let (a, b) = text::trim_bounds(&chars, 0, i);
            let (c, d) = text::trim_bounds(&chars, i + 1, chars.len());
            assert(t.take(i as int) =~= t.subrange(0, i as int));
            assert(t.skip(i + 1) =~= t.subrange(i + 1, t.len() as int));
            if text::same_lower(&chars, a, b, "icy-metaint") {
                self.metaint = match text::read_unsigned(&chars, c, d, usize::MAX as u64) {
                    Some(n) => n as usize,
                    None => 0,
                };
            } else if text::same_lower(&chars, a, b, "icy-name") {
                if c < d {
                    state.station = text::slice(hdr.as_str(), c, d);
                }
            }
            proof {
                reveal_strlit("icy-metaint");
                reveal_strlit("icy-name");
                assert("icy-metaint"@.len() != "icy-name"@.len());
            }
        }
        Ok(())
    }

    /// Takes the bytes that were read of the body, and says whether they are audio, to be
    /// handed on. An empty read ends a body without metadata.
    pub fn on_bytes(&mut self, bytes: &[u8], state: &mut StreamState) -> (r: Result<bool, String>)
        requires
            old(self).wf(),
            old(self).accepts(bytes@),
        ensures
            final(self).wf(),
            final(self).metaint == old(self).metaint,
            final(self).phase == old(self).phase_after(bytes@),
            final(state).status == old(state).status,
            final(state).station == old(state).station,
            final(state).show == old(state).show,
            if old(self).phase == Phase::Plain && bytes@.len() == 0 {
                r matches Err(e) && e@ == "stream ended"@
            } else {
                r == Ok::<bool, String>(old(self).in_audio())
            },
            if old(self).phase is Meta {
                &&& final(state).title@ == title_after(utf8_lossy(bytes@), old(state).title@)
                &&& valid_utf8(bytes@) ==> final(state).title@ == title_after(
                    decode_utf8(bytes@),
                    old(state).title@,
                )
            } else {
                final(state).title == old(state).title
            },
    {
        match self.phase {
            Phase::Audio(left) => {
                self.phase = if left > bytes.len() {
                    Phase::Audio(left - bytes.len())
                } else {
                    Phase::Length
                };
                Ok(true)
            },
            Phase::Length => {
                self.phase = if bytes[0] > 0 {
                    Phase::Meta(bytes[0] as usize * 16)
                } else {
                    Phase::Audio(self.metaint)
                };
                Ok(false)
            },
            Phase::Meta(_) => {
                parse_meta(bytes, state);
                self.phase = Phase::Audio(self.metaint);
                Ok(false)
            },
            _ => if bytes.len() == 0 {
                Err("stream ended".to_owned())
            } else {
                Ok(true)
            },
        }
    }

    /// What is reported when a read failed with `error`: in a body with metadata, where
    /// every read is for a fixed number of bytes, that the stream ended.
    pub fn on_failure(&self, error: &str) -> (e: String)
        ensures
            e@ == (if self.wants() is Exact {
                "stream ended"@
            } else {
                error@
            }),
    {
        match self.phase {
            Phase::Status | Phase::Headers | Phase::Plain => error.to_owned(),
            _ => "stream ended".to_owned(),
        }
    }
}

/// The data for each of `sinks` sinks: all of `data`, whatever becomes of the others.
pub fn fanout(sinks: usize, data: &[u8]) -> (copies: Vec<Vec<u8>>)
    ensures
        copies@.len() == sinks,
        forall|i: int| 0 <= i < sinks ==> (#[trigger] copies@[i])@ == data@,
{
    let mut copies: Vec<Vec<u8>> = Vec::new();
    while copies.len() < sinks
        invariant
            copies@.len() <= sinks,
            forall|i: int| 0 <= i < copies@.len() ==> (#[trigger] copies@[i])@ == data@,
        decreases sinks - copies@.len(),
    {
        copies.push(vstd::slice::slice_to_vec(data));
    }
    copies
}

/// The name and the value of a header come back from its line, whatever white space stands
/// after the colon and at the end. The name must not hold a colon.
pub proof fn law_header_comes_back(
    name: Seq<char>,
    gap: Seq<char>,
    value: Seq<char>,
    end: Seq<char>,
)
    requires
        text::settled(name),
        forall|i: int| 0 <= i < name.len() ==> #[trigger] name[i] != ':',
        text::settled(value),
        text::blank(gap),
        text::blank(end),
    ensures
        text::trim(name + ":"@ + gap + value + end).len() > 0,
        header(name + ":"@ + gap + value + end) == Some((text::to_lower(name), value)),
{
    reveal_strlit(":");
    let none = Seq::<char>::empty();
    let n = name.len() as int;
    let t = name + ":"@ + gap + value;
    assert(name + ":"@ + gap + value + end =~= none + t + end);
    text::law_trim_leaves_the_text(none, t, end);
    assert(t.subrange(n, n + 1) =~= ":"@);
    assert forall|j: int| 0 <= j < n implies !text::stands_at(t, ":"@, j) by {
        if text::stands_at(t, ":"@, j) {
            assert(t.subrange(j, j + 1)[0] == name[j]);
        }
    }
    text::lemma_find_first(t, ":"@, 0, n);
    assert(t.take(n) =~= none + name + none);
    text::law_trim_leaves_the_text(none, name, none);
    assert(t.skip(n + 1) =~= gap + value + none);
    text::law_trim_leaves_the_text(gap, value, none);
}

/// The interval that a server announces is taken, in whatever case it writes the name.
pub proof fn law_metaint_is_taken(name: Seq<char>, n: usize, before: usize)
    requires
        text::to_lower(name) == "icy-metaint"@,
    ensures
        metaint_after(name + ":"@ + " "@ + text::digits_of(n as nat) + "\r\n"@, before) == n,
{
    reveal_strlit("icy-metaint");
    reveal_strlit(" ");
    reveal_strlit("\r\n");
    let value = text::digits_of(n as nat);
    text::law_number_comes_back(n as nat, usize::MAX as int);
    assert(text::digit(value[0]) && text::digit(value.last()));
    assert forall|i: int| 0 <= i < name.len() implies #[trigger] name[i] != ':' && !text::white(
        name[i],
    ) by {
        assert(text::to_lower(name).len() == name.len());
        assert("icy-metaint"@[i] == text::lower(name[i]));
        assert(i == 0 || i == 1 || i == 2 || i == 3 || i == 4 || i == 5 || i == 6 || i == 7 || i
            == 8 || i == 9 || i == 10);
    }
    assert(text::to_lower(name).len() == name.len());
    assert(name.last() == name[name.len() - 1]);
    law_header_comes_back(name, " "@, value, "\r\n"@);
}

/// The name that a station gives itself is taken, in whatever case it writes the header's name.
pub proof fn law_station_is_taken(name: Seq<char>, station: Seq<char>, before: Seq<char>)
    requires
        text::to_lower(name) == "icy-name"@,
        text::settled(station),
    ensures
        station_after(name + ":"@ + " "@ + station + "\r\n"@, before) == station,
{
    reveal_strlit("icy-name");
    reveal_strlit(" ");
    reveal_strlit("\r\n");
    assert forall|i: int| 0 <= i < name.len() implies #[trigger] name[i] != ':' && !text::white(
        name[i],
    ) by {
        assert(text::to_lower(name).len() == name.len());
        assert("icy-name"@[i] == text::lower(name[i]));
        assert(i == 0 || i == 1 || i == 2 || i == 3 || i == 4 || i == 5 || i == 6 || i == 7);
    }
    assert(text::to_lower(name).len() == name.len());
    assert(name.last() == name[name.len() - 1]);
    law_header_comes_back(name, " "@, station, "\r\n"@);
}

/// What reading a body to its end gives: the audio handed on, the metadata blocks taken, and
/// the title at the end.
pub struct Heard {
    pub audio: Seq<u8>,
    pub blocks: Seq<Seq<u8>>,
    pub title: Seq<char>,
}

impl Session {
    /// The session after `bytes` were read in the body.
    pub open spec fn after(self, bytes: Seq<u8>) -> Session {
        Session { phase: self.phase_after(bytes), metaint: self.metaint }
    }

    /// The title after `bytes` were read in the body, when it was `title` before.
    pub open spec fn title_then(self, bytes: Seq<u8>, title: Seq<char>) -> Seq<char> {
        if self.phase is Meta {
            title_after(utf8_lossy(bytes), title)
        } else {
            title
        }
    }

    /// What is heard when `bytes` are read and `rest` is heard after them.
    pub open spec fn heard_first(self, bytes: Seq<u8>, rest: Heard) -> Heard {
        Heard {
            audio: if self.in_audio() {
                bytes + rest.audio
            } else {
                rest.audio
            },
            blocks: if self.phase is Meta {
                seq![bytes] + rest.blocks
            } else {
                rest.blocks
            },
            title: rest.title,
        }
    }

    /// How much is read when `input` is all that is left and all of it has come: what the
    /// session wants, or nothing, at the end, when too little is left.
    pub open spec fn read_len(self, input: Seq<u8>) -> int {
        match self.wants() {
            Want::Line => 0,
            Want::Exact(n) => if n <= input.len() {
                n as int
            } else {
                0
            },
            Want::UpTo(n) => vstd::math::min(n as int, input.len() as int),
        }
    }
}

/// What the session hears when the title is `title` and `input` is all that is left of a body:
/// it reads what it wants, step by step, until too little is left.
pub open spec fn hear(s: Session, title: Seq<char>, input: Seq<u8>) -> Heard
    decreases input.len(),
{
    let n = s.read_len(input);
    if 0 < n <= input.len() {
        let bytes = input.take(n);
        s.heard_first(bytes, hear(s.after(bytes), s.title_then(bytes, title), input.skip(n)))
    } else {
        Heard { audio: Seq::empty(), blocks: Seq::empty(), title }
    }
}

/// What the session hears when the title is `title` and the reads give `reads`, until one gives
/// nothing or what the session does not want.
pub open spec fn hear_reads(s: Session, title: Seq<char>, reads: Seq<Seq<u8>>) -> Heard
    decreases reads.len(),
{
    if reads.len() > 0 && reads[0].len() > 0 && s.accepts(reads[0]) {
        let bytes = reads[0];
        s.heard_first(
            bytes,
            hear_reads(s.after(bytes), s.title_then(bytes, title), reads.drop_first()),
        )
    } else {
        Heard { audio: Seq::empty(), blocks: Seq::empty(), title }
    }
}

/// A body without metadata is handed on whole, however it is divided into reads, and leaves
/// the title as it was.
pub proof fn law_plain_body_is_handed_on(
    title: Seq<char>,
    input: Seq<u8>,
    reads: Seq<Seq<u8>>,
)
    requires
        reads.flatten() == input,
        forall|i: int| 0 <= i < reads.len() ==> 0 < (#[trigger] reads[i]).len() <= BUFFER,
    ensures
        hear_reads(Session { phase: Phase::Plain, metaint: 0 }, title, reads) == (Heard {
            audio: input,
            blocks: Seq::empty(),
            title,
        }),
    decreases reads.len(),
{
    let s = Session { phase: Phase::Plain, metaint: 0 };
    if reads.len() > 0 {
        let rest = reads.drop_first();
        assert(0 < reads[0].len() <= BUFFER);
        assert forall|i: int| 0 <= i < rest.len() implies 0 < (#[trigger] rest[i]).len()
            <= BUFFER by {
            assert(rest[i] == reads[i + 1]);
        }
        law_plain_body_is_handed_on(title, rest.flatten(), rest);
        assert(s.after(reads[0]) == s);
        assert(hear_reads(s, title, reads).audio =~= input);
    } else {
        assert(input =~= Seq::<u8>::empty());
    }
}

/// A body without metadata is heard whole, and leaves the title as it was.
pub proof fn law_plain_body_is_heard_whole(title: Seq<char>, input: Seq<u8>)
    ensures
        hear(Session { phase: Phase::Plain, metaint: 0 }, title, input) == (Heard {
            audio: input,
            blocks: Seq::empty(),
            title,
        }),
    decreases input.len(),
{
    let s = Session { phase: Phase::Plain, metaint: 0 };
    if input.len() > 0 {
        let n = s.read_len(input);
        law_plain_body_is_heard_whole(title, input.skip(n));
        assert(s.after(input.take(n)) == s);
        assert(input =~= input.take(n) + input.skip(n));
    } else {
        assert(input =~= Seq::<u8>::empty());
    }
}

/// One stretch of a body: audio, and the metadata block after it, which may be empty.
pub struct Stretch {
    pub audio: Seq<u8>,
    pub block: Seq<u8>,
}

impl Stretch {
    /// The stretch can stand in a body with the metadata interval `metaint`.
    pub open spec fn fits(self, metaint: usize) -> bool {
        &&& self.audio.len() == metaint
        &&& self.block.len() % 16 == 0
        &&& self.block.len() <= 255 * 16
    }

    /// The stretch as it is sent: the audio, the block's length in units of 16 bytes, the block.
    pub open spec fn sent(self) -> Seq<u8> {
        self.audio + seq![(self.block.len() / 16) as u8] + self.block
    }
}

/// The body that holds the stretches one after the other.
pub open spec fn body_of(stretches: Seq<Stretch>) -> Seq<u8>
    decreases stretches.len(),
{
    if stretches.len() == 0 {
        Seq::empty()
    } else {
        stretches[0].sent() + body_of(stretches.drop_first())
    }
}

/// The audio of the stretches, joined.
pub open spec fn audio_of(stretches: Seq<Stretch>) -> Seq<u8>
    decreases stretches.len(),
{
    if stretches.len() == 0 {
        Seq::empty()
    } else {
        stretches[0].audio + audio_of(stretches.drop_first())
    }
}

/// The blocks of the stretches, in order, without the empty ones.
pub open spec fn blocks_of(stretches: Seq<Stretch>) -> Seq<Seq<u8>>
    decreases stretches.len(),
{
    if stretches.len() == 0 {
        Seq::empty()
    } else if stretches[0].block.len() == 0 {
        blocks_of(stretches.drop_first())
    } else {
        seq![stretches[0].block] + blocks_of(stretches.drop_first())
    }
}

/// The title after the blocks, when it was `title` before: the last one that a block has.
pub open spec fn title_after_all(blocks: Seq<Seq<u8>>, title: Seq<char>) -> Seq<char>
    decreases blocks.len(),
{
    if blocks.len() == 0 {
        title
    } else {
        title_after_all(blocks.drop_first(), title_after(utf8_lossy(blocks[0]), title))
    }
}

/// The `left` bytes of audio that come next are handed on, in however many reads, and the
/// length byte is next.
proof fn lemma_hear_audio(
    metaint: usize,
    left: usize,
    title: Seq<char>,
    audio: Seq<u8>,
    rest: Seq<u8>,
)
    requires
        0 < left,
        audio.len() == left,
    ensures
        ({
            let after = hear(Session { phase: Phase::Length, metaint }, title, rest);
            let all = hear(Session { phase: Phase::Audio(left), metaint }, title, audio + rest);
            &&& all.audio == audio + after.audio
            &&& all.blocks == after.blocks
            &&& all.title == after.title
        }),
    decreases left,
{
    let s = Session { phase: Phase::Audio(left), metaint };
    let n = vstd::math::min(left as int, BUFFER as int);
    let input = audio + rest;
    assert(s.wants() == Want::Exact(n as usize));
    let bytes = input.take(n);
    assert(bytes =~= audio.take(n));
    assert(input.skip(n) =~= audio.skip(n) + rest);
    assert(audio =~= audio.take(n) + audio.skip(n));
    if left > BUFFER {
        lemma_hear_audio(metaint, (left - n) as usize, title, audio.skip(n), rest);
    } else {
        assert(input.skip(n) =~= rest);
        assert(bytes =~= audio);
    }
    let after = hear(Session { phase: Phase::Length, metaint }, title, rest);
    assert(hear(s, title, input).audio =~= audio + after.audio);
}

/// The first stretch of a body is taken apart, and what follows it is heard as a body with the
/// same interval and the title that the stretch leaves.
proof fn lemma_hear_stretch(metaint: usize, title: Seq<char>, first: Stretch, more: Seq<u8>)
    requires
        metaint > 0,
        first.fits(metaint),
    ensures
        ({
            let s = Session { phase: Phase::Audio(metaint), metaint };
            let later = if first.block.len() == 0 {
                title
            } else {
                title_after(utf8_lossy(first.block), title)
            };
            let all = hear(s, title, first.sent() + more);
            let rest = hear(s, later, more);
            &&& all.audio == first.audio + rest.audio
            &&& all.blocks == (if first.block.len() == 0 {
                rest.blocks
            } else {
                seq![first.block] + rest.blocks
            })
            &&& all.title == rest.title
        }),
{
    let s = Session { phase: Phase::Audio(metaint), metaint };
    let unit = (first.block.len() / 16) as u8;
    let tail = seq![unit] + first.block + more;
    assert(first.sent() + more =~= first.audio + tail);
    lemma_hear_audio(metaint, metaint, title, first.audio, tail);
    let at_length = Session { phase: Phase::Length, metaint };
    assert(at_length.wants() == Want::Exact(1));
    assert(tail.take(1)[0] == unit);
    assert(tail.skip(1) =~= first.block + more);
    if first.block.len() == 0 {
        assert(tail.skip(1) =~= more);
        assert(at_length.phase_after(tail.take(1)) == Phase::Audio(metaint));
        assert(hear(at_length, title, tail) == hear(s, title, more));
    } else {
        let len = first.block.len();
        assert(unit as int * 16 == len);
        let at_block = Session { phase: Phase::Meta(len as usize), metaint };
        assert(at_length.phase_after(tail.take(1)) == at_block.phase);
        assert(at_block.wants() == Want::Exact(len as usize));
        let input = first.block + more;
        assert(input.take(len as int) =~= first.block);
        assert(input.skip(len as int) =~= more);
        assert(at_block.phase_after(first.block) == Phase::Audio(metaint));
        assert(hear(at_length, title, tail) == hear(at_block, title, input));
    }
}

/// As far as a body with metadata has come, it is taken apart into what it was made of:
/// whatever the stretches are, their audio is handed on complete, in order and with nothing
/// between, each block that is not empty is taken once, in order, and the title is the last
/// one that a block had when the rest, `cut` off anywhere, begins to be heard.
pub proof fn law_stretches_are_taken_apart(
    metaint: usize,
    title: Seq<char>,
    stretches: Seq<Stretch>,
    cut: Seq<u8>,
)
    requires
        metaint > 0,
        forall|i: int| 0 <= i < stretches.len() ==> (#[trigger] stretches[i]).fits(metaint),
    ensures
        ({
            let s = Session { phase: Phase::Audio(metaint), metaint };
            let all = hear(s, title, body_of(stretches) + cut);
            let rest = hear(s, title_after_all(blocks_of(stretches), title), cut);
            &&& all.audio == audio_of(stretches) + rest.audio
            &&& all.blocks == blocks_of(stretches) + rest.blocks
            &&& all.title == rest.title
        }),
    decreases stretches.len(),
{
    let s = Session { phase: Phase::Audio(metaint), metaint };
    let all = hear(s, title, body_of(stretches) + cut);
    let rest = hear(s, title_after_all(blocks_of(stretches), title), cut);
    if stretches.len() == 0 {
        assert(body_of(stretches) + cut =~= cut);
    } else {
        let first = stretches[0];
        let others = stretches.drop_first();
        assert(first.fits(metaint));
        assert forall|i: int| 0 <= i < others.len() implies (#[trigger] others[i]).fits(
            metaint,
        ) by {
            assert(others[i] == stretches[i + 1]);
        }
        let later = if first.block.len() == 0 {
            title
        } else {
            title_after(utf8_lossy(first.block), title)
        };
        law_stretches_are_taken_apart(metaint, later, others, cut);
        lemma_hear_stretch(metaint, title, first, body_of(others) + cut);
        assert(body_of(stretches) + cut =~= first.sent() + (body_of(others) + cut));
        if first.block.len() > 0 {
            assert(blocks_of(stretches).drop_first() =~= blocks_of(others));
        }
    }
    assert(all.audio =~= audio_of(stretches) + rest.audio);
    assert(all.blocks =~= blocks_of(stretches) + rest.blocks);
}

/// A whole body with metadata gives its audio, its blocks, and its last title.
pub proof fn law_body_is_taken_apart(
    metaint: usize,
    title: Seq<char>,
    stretches: Seq<Stretch>,
)
    requires
        metaint > 0,
        forall|i: int| 0 <= i < stretches.len() ==> (#[trigger] stretches[i]).fits(metaint),
    ensures
        hear(Session { phase: Phase::Audio(metaint), metaint }, title, body_of(stretches)) == (
        Heard {
            audio: audio_of(stretches),
            blocks: blocks_of(stretches),
            title: title_after_all(blocks_of(stretches), title),
        }),
{
    let none = Seq::<u8>::empty();
    law_stretches_are_taken_apart(metaint, title, stretches, none);
    assert(body_of(stretches) + none =~= body_of(stretches));
    assert(audio_of(stretches) + none =~= audio_of(stretches));
    assert(blocks_of(stretches) + Seq::<Seq<u8>>::empty() =~= blocks_of(stretches));
}

/// `n` NULs.
pub open spec fn padding(n: nat) -> Seq<char> {
    Seq::new(n, |i: int| '\0')
}

/// The text of a metadata block that carries `title`, with whatever follows it.
pub open spec fn block_text(title: Seq<char>, more: Seq<char>) -> Seq<char> {
    "StreamTitle='"@ + title + "';"@ + more
}

/// Taking the padding away leaves at least what ends at `keep`, where no NUL stands.
proof fn lemma_padding_only(s: Seq<char>, keep: int)
    requires
        0 < keep <= s.len(),
        s[keep - 1] != '\0',
    ensures
        keep <= without_padding(s).len() <= s.len(),
        without_padding(s) == s.take(without_padding(s).len() as int),
    decreases s.len(),
{
    if s.last() == '\0' {
        lemma_padding_only(s.drop_last(), keep);
        let n = without_padding(s).len() as int;
        assert(s.take(n) =~= s.drop_last().take(n));
    } else {
        assert(s.take(s.len() as int) =~= s);
    }
}

/// The `';` after a title without one is the first in the rest of the block.
proof fn lemma_title_end(title: Seq<char>, rest: Seq<char>)
    requires
        forall|j: int| !text::stands_at(title, "';"@, j),
        rest.len() >= title.len() + 2,
        rest.take(title.len() as int) == title,
        rest[title.len() as int] == '\'',
        rest[title.len() as int + 1] == ';',
    ensures
        text::find(rest, "';"@) == Some(title.len() as int),
{
    reveal_strlit("';");
    let n = title.len() as int;
    assert(rest.subrange(n, n + 2) =~= "';"@);
    assert forall|j: int| 0 <= j < n implies !text::stands_at(rest, "';"@, j) by {
        if text::stands_at(rest, "';"@, j) {
            let pair = rest.subrange(j, j + 2);
            assert(pair[0] == rest[j] && pair[1] == rest[j + 1]);
            assert(rest.take(n)[j] == rest[j]);
            if j + 1 < n {
                assert(rest.take(n)[j + 1] == rest[j + 1]);
                assert(title.subrange(j, j + 2) =~= "';"@);
                assert(text::stands_at(title, "';"@, j));
            }
        }
    }
    text::lemma_find_first(rest, "';"@, 0, n);
}

/// A title comes back from the block that carries it, trimmed, whatever follows it in the
/// block, NULs included. The title must not hold the `';` that ends it, nor be blank.
pub proof fn law_title_comes_back(title: Seq<char>, more: Seq<char>)
    requires
        forall|j: int| !text::stands_at(title, "';"@, j),
        text::trim(title).len() > 0,
    ensures
        stream_title(block_text(title, more)) == Some(text::trim(title)),
        stream_title(decode_utf8(encode_utf8(block_text(title, more)))) == Some(text::trim(title)),
        valid_utf8(encode_utf8(block_text(title, more))),
{
    let s = block_text(title, more);
    let t = without_padding(s);
    let n = title.len() as int;
    assert("StreamTitle='"@.len() == 13 && "';"@ =~= seq!['\'', ';']) by {
        reveal_strlit("StreamTitle='");
        reveal_strlit("';");
    }
    assert(s[n + 14] == ';');
    lemma_padding_only(s, n + 15);
    assert(text::find(t, "StreamTitle='"@) == Some(0int)) by {
        assert(t.subrange(0, 13) =~= "StreamTitle='"@);
        text::lemma_find_first(t, "StreamTitle='"@, 0, 0);
    }
    let rest = t.skip(13);
    assert(rest.take(n) =~= title);
    assert(rest[n] == '\'' && rest[n + 1] == ';');
    lemma_title_end(title, rest);
    encode_utf8_decode_utf8(s);
    encode_utf8_valid_utf8(s);
}

/// The NULs that fill a block up do not change the title in it.
pub proof fn law_padding_is_ignored(s: Seq<char>, n: nat)
    ensures
        stream_title(s + padding(n)) == stream_title(s),
    decreases n,
{
    if n == 0 {
        assert(s + padding(0) =~= s);
    } else {
        let m = (n - 1) as nat;
        let padded = s + padding(n);
        assert(padded.last() == '\0');
        assert(padded.drop_last() =~= s + padding(m));
        law_padding_is_ignored(s, m);
    }
}

/// `n` zero bytes.
pub open spec fn zeros(n: nat) -> Seq<u8> {
    Seq::new(n, |i: int| 0u8)
}

/// The zero bytes are well-formed, and are decoded as NULs.
proof fn lemma_zeros(n: nat)
    ensures
        encode_utf8(padding(n)) == zeros(n),
        valid_utf8(zeros(n)),
        decode_utf8(zeros(n)) == padding(n),
{
    let nuls = padding(n);
    assert(is_ascii_chars(nuls));
    is_ascii_chars_encode_utf8(nuls);
    assert forall|i: int| 0 <= i < n implies encode_utf8(nuls)[i] == 0u8 by {
        assert(nuls[i] as u8 == 0u8);
    }
    assert(encode_utf8(nuls) =~= zeros(n));
    encode_utf8_valid_utf8(nuls);
    encode_utf8_decode_utf8(nuls);
}

/// Well-formed bytes in a row are decoded one after the other.
proof fn lemma_decode_in_a_row(a: Seq<u8>, b: Seq<u8>)
    requires
        valid_utf8(a),
        valid_utf8(b),
    ensures
        valid_utf8(a + b),
        decode_utf8(a + b) == decode_utf8(a) + decode_utf8(b),
    decreases a.len(),
{
    valid_utf8_concat(a, b);
    if a.len() == 0 {
        assert(a + b =~= b);
        assert(decode_utf8(a) =~= Seq::<char>::empty());
        assert(decode_utf8(a) + decode_utf8(b) =~= decode_utf8(b));
    } else {
        let rest = pop_first_scalar(a);
        assert(0 < length_of_first_scalar(a) <= a.len());
        lemma_decode_in_a_row(rest, b);
        assert(pop_first_scalar(a + b) =~= rest + b);
        assert(decode_first_scalar(a + b) == decode_first_scalar(a));
        assert(decode_utf8(a + b) =~= decode_utf8(a) + decode_utf8(b));
    }
}

/// The zero bytes that fill a block of well-formed text up to its length do not change the
/// title in it: they are decoded as NULs at the end, and nothing is made of those.
pub proof fn law_zeros_are_ignored(block: Seq<u8>, n: nat)
    requires
        valid_utf8(block),
    ensures
        valid_utf8(block + zeros(n)),
        decode_utf8(block + zeros(n)) == decode_utf8(block) + padding(n),
        stream_title(decode_utf8(block + zeros(n))) == stream_title(decode_utf8(block)),
{
    lemma_zeros(n);
    lemma_decode_in_a_row(block, zeros(n));
    law_padding_is_ignored(decode_utf8(block), n);
}

/// The title in a text with `StreamTitle='`, for the first time after `front`, a title without
/// `';`, and that after it.
proof fn lemma_title_after_front(front: Seq<char>, title: Seq<char>, more: Seq<char>)
    requires
        forall|j: int|
            0 <= j < front.len() ==> !text::stands_at(
                front + "StreamTitle='"@ + title + "';"@ + more,
                "StreamTitle='"@,
                j,
            ),
        forall|j: int| !text::stands_at(title, "';"@, j),
    ensures
        stream_title(front + "StreamTitle='"@ + title + "';"@ + more) == (if text::trim(title).len()
            > 0 {
            Some(text::trim(title))
        } else {
            None
        }),
{
    let mark = "StreamTitle='"@;
    let s = front + mark + title + "';"@ + more;
    let t = without_padding(s);
    let f = front.len() as int;
    let n = title.len() as int;
    assert(mark.len() == 13 && "';"@ =~= seq!['\'', ';']) by {
        reveal_strlit("StreamTitle='");
        reveal_strlit("';");
    }
    assert(s[f + n + 14] == ';');
    lemma_padding_only(s, f + n + 15);
    assert(text::find(t, mark) == Some(f)) by {
        assert(t.subrange(f, f + 13) =~= mark);
        assert forall|j: int| 0 <= j < f implies !text::stands_at(t, mark, j) by {
            if text::stands_at(t, mark, j) {
                assert(s.subrange(j, j + 13) =~= t.subrange(j, j + 13));
                assert(text::stands_at(s, mark, j));
            }
        }
        text::lemma_find_first(t, mark, 0, f);
    }
    let rest = t.skip(f + 13);
    assert(rest.take(n) =~= title);
    assert(rest[n] == '\'' && rest[n + 1] == ';');
    lemma_title_end(title, rest);
}

/// Taking the padding away gives a first part of a text.
proof fn lemma_padding_prefix(s: Seq<char>)
    ensures
        without_padding(s).len() <= s.len(),
        without_padding(s) == s.take(without_padding(s).len() as int),
    decreases s.len(),
{
    if s.len() > 0 && s.last() == '\0' {
        lemma_padding_prefix(s.drop_last());
        let n = without_padding(s).len() as int;
        assert(s.take(n) =~= s.drop_last().take(n));
    } else {
        assert(s.take(s.len() as int) =~= s);
    }
}

/// A text in which no `';` follows a `StreamTitle='` has no title.
proof fn lemma_no_title(s: Seq<char>)
    requires
        forall|i: int, j: int|
            i + 13 <= j && #[trigger] text::stands_at(s, "StreamTitle='"@, i)
                ==> !#[trigger] text::stands_at(s, "';"@, j),
    ensures
        stream_title(s) is None,
{
    let t = without_padding(s);
    lemma_padding_prefix(s);
    reveal_strlit("StreamTitle='");
    reveal_strlit("';");
    text::lemma_find_stands(t, "StreamTitle='"@, 0);
    if let Some(i) = text::find(t, "StreamTitle='"@) {
        assert(s.subrange(i, i + 13) =~= t.subrange(i, i + 13));
        assert(text::stands_at(s, "StreamTitle='"@, i));
        let rest = t.skip(i + 13);
        text::lemma_find_stands(rest, "';"@, 0);
        if let Some(e) = text::find(rest, "';"@) {
            let j = i + 13 + e;
            assert(s.subrange(j, j + 2) =~= rest.subrange(e, e + 2));
            assert(text::stands_at(s, "';"@, j));
        }
    }
}

/// A block that carries a title makes it the title, trimmed, whatever the title was before and
/// whatever comes before and after it in the block; only a blank title leaves the last one. The
/// title is not to hold the `';` that ends it, nor what is before it the `StreamTitle='` that
/// begins it.
pub proof fn law_block_replaces_the_title(
    front: Seq<char>,
    title: Seq<char>,
    more: Seq<char>,
    before: Seq<char>,
)
    requires
        forall|j: int|
            0 <= j < front.len() ==> !text::stands_at(
                front + "StreamTitle='"@ + title + "';"@ + more,
                "StreamTitle='"@,
                j,
            ),
        forall|j: int| !text::stands_at(title, "';"@, j),
    ensures
        text::trim(title).len() > 0 ==> title_after(
            front + "StreamTitle='"@ + title + "';"@ + more,
            before,
        ) == text::trim(title),
        text::trim(title).len() == 0 ==> title_after(
            front + "StreamTitle='"@ + title + "';"@ + more,
            before,
        ) == before,
{
    lemma_title_after_front(front, title, more);
}

/// A block in which no `';` follows a `StreamTitle='` leaves the title as it was.
pub proof fn law_block_without_title_keeps_the_last(s: Seq<char>, before: Seq<char>)
    requires
        forall|i: int, j: int|
            i + 13 <= j && #[trigger] text::stands_at(s, "StreamTitle='"@, i)
                ==> !#[trigger] text::stands_at(s, "';"@, j),
    ensures
        title_after(s, before) == before,
{
    lemma_no_title(s);
}

/// After `parse_meta` the state holds the title that the block carries, or the last one when it
/// carries none or a blank one, and all else as it was. `said` is what the block says.
pub proof fn law_state_follows_the_title(
    blob: &[u8],
    state: &mut StreamState,
    said: Seq<char>,
    front: Seq<char>,
    title: Seq<char>,
    more: Seq<char>,
)
    requires
        call_ensures(parse_meta, (blob, state), ()),
        said == utf8_lossy(blob@) || (valid_utf8(blob@) && said == decode_utf8(blob@)),
    ensures
        said == front + "StreamTitle='"@ + title + "';"@ + more && (forall|j: int|
            0 <= j < front.len() ==> !text::stands_at(said, "StreamTitle='"@, j)) && (forall|j: int|
            !text::stands_at(title, "';"@, j)) ==> {
            &&& text::trim(title).len() > 0 ==> final(state).title@ == text::trim(title)
            &&& text::trim(title).len() == 0 ==> final(state).title@ == old(state).title@
        },
        (forall|i: int, j: int|
            i + 13 <= j && #[trigger] text::stands_at(said, "StreamTitle='"@, i)
                ==> !#[trigger] text::stands_at(said, "';"@, j)) ==> final(state).title@ == old(
            state,
        ).title@,
        final(state).status == old(state).status,
        final(state).station == old(state).station,
        final(state).show == old(state).show,
{
    if said == front + "StreamTitle='"@ + title + "';"@ + more && (forall|j: int|
        0 <= j < front.len() ==> !text::stands_at(said, "StreamTitle='"@, j)) && (forall|j: int|
        !text::stands_at(title, "';"@, j)) {
        lemma_title_after_front(front, title, more);
    }
    if forall|i: int, j: int|
        i + 13 <= j && #[trigger] text::stands_at(said, "StreamTitle='"@, i)
            ==> !#[trigger] text::stands_at(said, "';"@, j) {
        lemma_no_title(said);
    }
}

/// `title_in` gives the title that a text carries, and nothing when it carries none or a blank
/// one.
pub proof fn law_title_is_found_in_the_text(
    said: &str,
    found: Option<String>,
    front: Seq<char>,
    title: Seq<char>,
    more: Seq<char>,
)
    requires
        call_ensures(title_in, (said,), found),
    ensures
        said@ == front + "StreamTitle='"@ + title + "';"@ + more && (forall|j: int|
            0 <= j < front.len() ==> !text::stands_at(said@, "StreamTitle='"@, j)) && (forall|
            j: int,
        |
            !text::stands_at(title, "';"@, j)) ==> {
            &&& text::trim(title).len() > 0 ==> found is Some && found.unwrap()@ == text::trim(
                title,
            )
            &&& text::trim(title).len() == 0 ==> found is None
        },
        (forall|i: int, j: int|
            i + 13 <= j && #[trigger] text::stands_at(said@, "StreamTitle='"@, i)
                ==> !#[trigger] text::stands_at(said@, "';"@, j)) ==> found is None,
{
    if said@ == front + "StreamTitle='"@ + title + "';"@ + more && (forall|j: int|
        0 <= j < front.len() ==> !text::stands_at(said@, "StreamTitle='"@, j)) && (forall|j: int|
        !text::stands_at(title, "';"@, j)) {
        lemma_title_after_front(front, title, more);
    }
    if forall|i: int, j: int|
        i + 13 <= j && #[trigger] text::stands_at(said@, "StreamTitle='"@, i)
            ==> !#[trigger] text::stands_at(said@, "';"@, j) {
        lemma_no_title(said@);
    }
}

/// Of several blocks the last one that has a title gives the title, whatever the others had; it
/// stays as it was when none has one.
pub proof fn law_last_title_stays(blocks: Seq<Seq<u8>>, title: Seq<char>, k: int)
    ensures
        0 <= k < blocks.len() && stream_title(utf8_lossy(blocks[k])) is Some && (forall|j: int|
            k < j < blocks.len() ==> stream_title(utf8_lossy(#[trigger] blocks[j])) is None)
            ==> title_after_all(blocks, title) == stream_title(utf8_lossy(blocks[k])).unwrap(),
        (forall|j: int|
            0 <= j < blocks.len() ==> stream_title(utf8_lossy(#[trigger] blocks[j])) is None)
            ==> title_after_all(blocks, title) == title,
    decreases blocks.len(),
{
    if blocks.len() > 0 {
        let rest = blocks.drop_first();
        let later = title_after(utf8_lossy(blocks[0]), title);
        law_last_title_stays(rest, later, k - 1);
        law_last_title_stays(rest, later, 0);
        if forall|j: int|
            0 <= j < blocks.len() ==> stream_title(utf8_lossy(#[trigger] blocks[j])) is None {
            assert(stream_title(utf8_lossy(blocks[0])) is None);
            assert forall|j: int| 0 <= j < rest.len() implies stream_title(
                utf8_lossy(#[trigger] rest[j]),
            ) is None by {
                assert(rest[j] == blocks[j + 1]);
            }
        }
        if 0 <= k < blocks.len() && forall|j: int|
            k < j < blocks.len() ==> stream_title(utf8_lossy(#[trigger] blocks[j])) is None {
            assert forall|j: int| k - 1 < j < rest.len() implies stream_title(
                utf8_lossy(#[trigger] rest[j]),
            ) is None by {
                assert(rest[j] == blocks[j + 1]);
            }
            if k > 0 {
                assert(rest[k - 1] == blocks[k]);
            }
        }
    }
}

/// A header line is split at its first colon: what comes before it, trimmed and in lower case,
/// is the name, and what comes after it, trimmed, the value. A line without a colon is no header.
pub proof fn law_header_is_split_at_the_colon(name: Seq<char>, value: Seq<char>)
    requires
        !name.contains(':'),
    ensures
        header(name) is None,
        header(name + seq![':'] + value) == Some(
            (text::to_lower(text::trim(name)), text::trim(value)),
        ),
        text::trim(name + seq![':'] + value).len() > 0,
{
    reveal_strlit(":");
    text::law_last_place_is_found(name, ':');
    let line = name + seq![':'] + value;
    let n = name.len() as int;
    let ab = text::law_trim_keeps_what_is_between(line);
    let (a, b) = ab;
    assert(line[n] == ':');
    assert(a <= n < b);
    let t = line.subrange(a, b);
    assert(t.subrange(n - a, n - a + 1) =~= ":"@);
    assert forall|j: int| 0 <= j < n - a implies !text::stands_at(t, ":"@, j) by {
        if text::stands_at(t, ":"@, j) {
            assert(t.subrange(j, j + 1)[0] == name[a + j]);
        }
    }
    text::lemma_find_first(t, ":"@, 0, n - a);
    let none = Seq::<char>::empty();
    assert(t.take(n - a) =~= name.skip(a));
    assert(name =~= name.take(a) + name.skip(a) + none);
    assert(text::blank(name.take(a))) by {
        assert forall|i: int| 0 <= i < a implies text::white(#[trigger] name.take(a)[i]) by {
            assert(name.take(a)[i] == line[i]);
        }
    }
    text::law_white_space_around_does_not_matter(name.take(a), name.skip(a), none);
    let m = b - n - 1;
    assert(t.skip(n - a + 1) =~= value.take(m));
    assert(value =~= none + value.take(m) + value.skip(m));
    assert(text::blank(value.skip(m))) by {
        assert forall|i: int| 0 <= i < value.len() - m implies text::white(
            #[trigger] value.skip(m)[i],
        ) by {
            assert(value.skip(m)[i] == line[b + i]);
        }
    }
    text::law_white_space_around_does_not_matter(none, value.take(m), value.skip(m));
    lemma_no_header(name);
}

proof fn lemma_no_header(line: Seq<char>)
    requires
        text::lacks(line, ':'),
    ensures
        header(line) is None,
{
    reveal_strlit(":");
    let (a, b) = text::law_trim_keeps_what_is_between(line);
    let t = line.subrange(a, b);
    text::lemma_find_stands(t, ":"@, 0);
    if let Some(i) = text::find(t, ":"@) {
        assert(t.subrange(i, i + 1)[0] == line[a + i]);
    }
}

/// A header line changes what its name says and nothing else: `icy-metaint`, in whatever case,
/// the interval, to the number that is its value or to 0 when that is none; `icy-name` the
/// station, unless the value is blank. A header of any other name leaves both as they were.
pub proof fn law_header_line_sets_what_it_names(
    s: &mut Session,
    line: &str,
    state: &mut StreamState,
    r: Result<(), String>,
    name: Seq<char>,
    value: Seq<char>,
)
    requires
        call_ensures(Session::on_line, (s, line, state), r),
        old(s).phase == Phase::Headers,
        !name.contains(':'),
        line@ == name + seq![':'] + value,
    ensures
        r is Ok,
        final(s).phase == Phase::Headers,
        ({
            let key = text::to_lower(text::trim(name));
            &&& key == "icy-metaint"@ ==> final(s).metaint == (match text::unsigned(
                text::trim(value),
                usize::MAX as int,
            ) {
                Some(n) => n,
                None => 0,
            })
            &&& key != "icy-metaint"@ ==> final(s).metaint == old(s).metaint
            &&& key == "icy-name"@ && text::trim(value).len() > 0 ==> final(state).station@
                == text::trim(value)
            &&& key != "icy-name"@ || text::trim(value).len() == 0 ==> final(state).station@ == old(
                state,
            ).station@
        }),
        final(state).status == old(state).status,
        final(state).title == old(state).title,
        final(state).show == old(state).show,
{
    law_header_is_split_at_the_colon(name, value);
    text::lemma_unsigned_is_within(text::trim(value), usize::MAX as int);
}

/// A line without a colon that is not blank changes nothing, and a blank line ends the headers:
/// the stream is live, and audio comes next, as many bytes as the interval says, or without end
/// when it is 0.
pub proof fn law_blank_line_ends_the_headers(
    s: &mut Session,
    line: &str,
    state: &mut StreamState,
    r: Result<(), String>,
)
    requires
        call_ensures(Session::on_line, (s, line, state), r),
        old(s).phase == Phase::Headers,
        !line@.contains(':'),
    ensures
        r is Ok,
        final(s).metaint == old(s).metaint,
        final(state).station@ == old(state).station@,
        final(state).title == old(state).title,
        final(state).show == old(state).show,
        (exists|i: int| 0 <= i < line@.len() && !text::white(#[trigger] line@[i])) ==> {
            &&& final(s).phase == Phase::Headers
            &&& final(state).status == old(state).status
        },
        (forall|i: int| 0 <= i < line@.len() ==> text::white(#[trigger] line@[i])) ==> {
            &&& old(s).metaint == 0 ==> final(s).phase == Phase::Plain
            &&& old(s).metaint > 0 ==> final(s).phase == Phase::Audio(old(s).metaint)
            &&& final(state).status@ == seq!['l', 'i', 'v', 'e']
        },
{
    let ab = text::law_trim_keeps_what_is_between(line@);
    law_header_is_split_at_the_colon(line@, Seq::empty());
    reveal_strlit("live");
    assert("live"@ =~= seq!['l', 'i', 'v', 'e']);
}

/// A status line is good when `200` occurs in it, and then the headers come; any other is
/// reported, trimmed. It changes nothing that is known of the stream.
pub proof fn law_status_needs_200(
    s: &mut Session,
    line: &str,
    state: &mut StreamState,
    r: Result<(), String>,
)
    requires
        call_ensures(Session::on_line, (s, line, state), r),
        old(s).phase == Phase::Status,
    ensures
        *final(state) == *old(state),
        final(s).metaint == old(s).metaint,
        (exists|i: int|
            0 <= i <= line@.len() - 3 && #[trigger] line@[i] == '2' && line@[i + 1] == '0' && line@[i
                + 2] == '0') ==> r is Ok && final(s).phase == Phase::Headers,
        (forall|i: int|
            0 <= i <= line@.len() - 3 ==> !(#[trigger] line@[i] == '2' && line@[i + 1] == '0'
                && line@[i + 2] == '0')) ==> {
            &&& final(s).phase == Phase::Status
            &&& r is Err
            &&& r.unwrap_err()@ == "bad status: "@ + text::trim(line@)
        },
{
    reveal_strlit("200");
    let t = line@;
    text::lemma_find_stands(t, "200"@, 0);
    if let Some(i) = text::find(t, "200"@) {
        let three = t.subrange(i, i + 3);
        assert(three[0] == t[i] && three[1] == t[i + 1] && three[2] == t[i + 2]);
    } else if exists|i: int|
        0 <= i <= t.len() - 3 && #[trigger] t[i] == '2' && t[i + 1] == '0' && t[i + 2] == '0' {
        let i = choose|i: int|
            0 <= i <= t.len() - 3 && #[trigger] t[i] == '2' && t[i + 1] == '0' && t[i + 2] == '0';
        assert(t.subrange(i, i + 3) =~= "200"@);
        assert(text::stands_at(t, "200"@, i));
    }
}

/// After a whole block of header lines the interval is that of the last `icy-metaint` line, and
/// what it was before them when there is none; `at` is the interval before each line and after
/// the last. A new session begins with 0.
pub proof fn law_last_interval_counts(
    lines: Seq<Seq<char>>,
    at: Seq<usize>,
    k: int,
    value: Seq<char>,
    new: Session,
)
    requires
        call_ensures(Session::new, (), new),
        at.len() == lines.len() + 1,
        forall|i: int|
            0 <= i < lines.len() ==> #[trigger] at[i + 1] == metaint_after(lines[i], at[i]),
    ensures
        new.metaint == 0 && new.phase == Phase::Status,
        (forall|i: int|
            0 <= i < lines.len() ==> !(header(#[trigger] lines[i]) matches Some((name, _)) && name
                == "icy-metaint"@)) ==> at.last() == at[0],
        0 <= k < lines.len() && header(lines[k]) == Some(("icy-metaint"@, value)) && (forall|i: int|
            k < i < lines.len() ==> !(header(#[trigger] lines[i]) matches Some((name, _)) && name
                == "icy-metaint"@)) ==> at.last() == (match text::unsigned(
            value,
            usize::MAX as int,
        ) {
            Some(n) => n,
            None => 0,
        }),
    decreases lines.len(),
{
    text::lemma_unsigned_is_within(value, usize::MAX as int);
    if lines.len() > 0 {
        let n = lines.len() - 1;
        let shorter = lines.drop_last();
        let before = at.drop_last();
        assert(at[n + 1] == metaint_after(lines[n], at[n]));
        assert forall|i: int| 0 <= i < shorter.len() implies #[trigger] before[i + 1]
            == metaint_after(shorter[i], before[i]) by {
            assert(at[i + 1] == metaint_after(lines[i], at[i]));
        }
        law_last_interval_counts(shorter, before, k, value, new);
        assert forall|i: int| 0 <= i < shorter.len() implies #[trigger] shorter[i] == lines[i] by {}
    }
}

/// What is read next goes by the phase: a line, the audio that is left but no more than 8192
/// bytes, one byte, the whole block, or up to 8192 bytes.
pub proof fn law_reads_go_by_the_phase(s: &Session, w: Want)
    requires
        call_ensures(Session::want, (s,), w),
    ensures
        match s.phase {
            Phase::Status => w == Want::Line,
            Phase::Headers => w == Want::Line,
            Phase::Audio(left) => {
                &&& left <= 8192 ==> w == Want::Exact(left)
                &&& left > 8192 ==> w == Want::Exact(8192)
            },
            Phase::Length => w == Want::Exact(1),
            Phase::Meta(len) => w == Want::Exact(len),
            Phase::Plain => w == Want::UpTo(8192),
        },
{
}

/// In a body, audio is handed on and counted until none is left, and then a length byte comes.
/// That byte gives the length of the block that comes next in units of 16 bytes; after the block,
/// or at once when there is none, the next stretch of audio begins, as long as the first. Neither
/// the length nor the block is handed on, and only a block changes the title. A body without
/// metadata is handed on until it ends.
pub proof fn law_body_goes_on_by_the_phase(
    s: &mut Session,
    bytes: &[u8],
    state: &mut StreamState,
    r: Result<bool, String>,
)
    requires
        call_ensures(Session::on_bytes, (s, bytes, state), r),
        old(s).metaint > 0 || old(s).phase == Phase::Plain,
    ensures
        final(s).metaint == old(s).metaint,
        final(state).status == old(state).status,
        final(state).station == old(state).station,
        final(state).show == old(state).show,
        !(old(s).phase is Meta) ==> final(state).title == old(state).title,
        match old(s).phase {
            Phase::Audio(left) => {
                &&& r is Ok && r.unwrap()
                &&& bytes@.len() < left ==> final(s).phase == Phase::Audio(
                    (left - bytes@.len()) as usize,
                )
                &&& bytes@.len() >= left ==> final(s).phase == Phase::Length
            },
            Phase::Length => {
                &&& r is Ok && !r.unwrap()
                &&& bytes@[0] == 0 ==> final(s).phase == Phase::Audio(old(s).metaint)
                &&& bytes@[0] > 0 ==> final(s).phase == Phase::Meta((16 * bytes@[0]) as usize)
            },
            Phase::Meta(_) => {
                &&& r is Ok && !r.unwrap()
                &&& final(s).phase == Phase::Audio(old(s).metaint)
            },
            Phase::Plain => {
                &&& final(s).phase == Phase::Plain
                &&& bytes@.len() > 0 ==> r is Ok && r.unwrap()
                &&& bytes@.len() == 0 ==> r is Err && r.unwrap_err()@ == "stream ended"@
            },
            _ => true,
        },
{
}

/// A metadata block of the body makes the title that it carries the title, whatever that was
/// before, and leaves the last one when it carries none or a blank one.
pub proof fn law_block_of_the_body_gives_the_title(
    s: &mut Session,
    bytes: &[u8],
    state: &mut StreamState,
    r: Result<bool, String>,
    said: Seq<char>,
    front: Seq<char>,
    title: Seq<char>,
    more: Seq<char>,
)
    requires
        call_ensures(Session::on_bytes, (s, bytes, state), r),
        old(s).phase is Meta,
        said == utf8_lossy(bytes@) || (valid_utf8(bytes@) && said == decode_utf8(bytes@)),
    ensures
        said == front + "StreamTitle='"@ + title + "';"@ + more && (forall|j: int|
            0 <= j < front.len() ==> !text::stands_at(said, "StreamTitle='"@, j)) && (forall|j: int|
            !text::stands_at(title, "';"@, j)) ==> {
            &&& text::trim(title).len() > 0 ==> final(state).title@ == text::trim(title)
            &&& text::trim(title).len() == 0 ==> final(state).title@ == old(state).title@
        },
        (forall|i: int, j: int|
            i + 13 <= j && #[trigger] text::stands_at(said, "StreamTitle='"@, i)
                ==> !#[trigger] text::stands_at(said, "';"@, j)) ==> final(state).title@ == old(
            state,
        ).title@,
{
    if said == front + "StreamTitle='"@ + title + "';"@ + more && (forall|j: int|
        0 <= j < front.len() ==> !text::stands_at(said, "StreamTitle='"@, j)) && (forall|j: int|
        !text::stands_at(title, "';"@, j)) {
        lemma_title_after_front(front, title, more);
    }
    if forall|i: int, j: int|
        i + 13 <= j && #[trigger] text::stands_at(said, "StreamTitle='"@, i)
            ==> !#[trigger] text::stands_at(said, "';"@, j) {
        lemma_no_title(said);
    }
}

/// A read that failed is reported by its own error before the body and in a body without
/// metadata, and as the stream's end in a body with it.
pub proof fn law_failure_by_the_phase(s: &Session, error: &str, e: String)
    requires
        call_ensures(Session::on_failure, (s, error), e),
    ensures
        match s.phase {
            Phase::Status | Phase::Headers | Phase::Plain => e@ == error@,
            _ => e@ == "stream ended"@,
        },
{
}

/// Every sink gets all of the data, in order, and nothing else.
pub proof fn law_every_sink_gets_the_data(
    sinks: usize,
    data: &[u8],
    copies: Vec<Vec<u8>>,
    i: int,
)
    requires
        call_ensures(fanout, (sinks, data), copies),
    ensures
        copies@.len() == sinks,
        0 <= i < sinks ==> copies@[i]@ == data@,
{
}

/// The request is made of the lines that ask a host for a path, and for metadata, each ended by
/// CR LF, and an empty line.
pub proof fn law_stream_request_in_lines(host: &str, path: &str, request: String)
    requires
        call_ensures(stream_request, (host, path), request),
    ensures
        ({
            let end = seq!['\r', '\n'];
            request@ == "GET "@ + path@ + " HTTP/1.0"@ + end + "Host: "@ + host@ + end
                + "Icy-MetaData: 1"@ + end + "User-Agent: rinse-cli/1.0"@ + end
                + "Connection: close"@ + end + end
        }),
{
    reveal_strlit("GET ");
    reveal_strlit(" HTTP/1.0");
    reveal_strlit(" HTTP/1.0\r\nHost: ");
    reveal_strlit("Host: ");
    reveal_strlit("Icy-MetaData: 1");
    reveal_strlit("User-Agent: rinse-cli/1.0");
    reveal_strlit("Connection: close");
    reveal_strlit(
        "\r\nIcy-MetaData: 1\r\nUser-Agent: rinse-cli/1.0\r\nConnection: close\r\n\r\n",
    );
    let end = seq!['\r', '\n'];
    let middle = " HTTP/1.0"@ + end + "Host: "@;
    let last = end + "Icy-MetaData: 1"@ + end + "User-Agent: rinse-cli/1.0"@ + end
        + "Connection: close"@ + end + end;
    assert(" HTTP/1.0\r\nHost: "@ =~= middle);
    assert("\r\nIcy-MetaData: 1\r\nUser-Agent: rinse-cli/1.0\r\nConnection: close\r\n\r\n"@
        =~= last);
    assert(request@ =~= "GET "@ + path@ + " HTTP/1.0"@ + end + "Host: "@ + host@ + end
        + "Icy-MetaData: 1"@ + end + "User-Agent: rinse-cli/1.0"@ + end + "Connection: close"@ + end
        + end);
}

} // verus!
