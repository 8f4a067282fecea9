//! What the player knows of the stream it is playing.

use vstd::prelude::*;
use vstd::string::*;

verus! {

/// The texts shown for the stream.
pub struct StreamState {
    pub status: String,
    pub station: String,
    pub title: String,
    /// The show on air, as the schedule has it.
    pub show: String,
}

impl Default for StreamState {
    /// All four texts empty.
    fn default() -> (s: StreamState)
        ensures
            s.status@ == Seq::<char>::empty(),
            s.station@ == Seq::<char>::empty(),
            s.title@ == Seq::<char>::empty(),
            s.show@ == Seq::<char>::empty(),
    {
        StreamState {
            status: String::new(),
            station: String::new(),
            title: String::new(),
            show: String::new(),
        }
    }
}

/// The line shown under the marquee: the show on air, else the track, else the station,
/// else the status. A note stands before a show or a track.
pub open spec fn headline(s: StreamState) -> Seq<char> {
    if s.show@.len() > 0 {
        "♪ "@ + s.show@
    } else if s.title@.len() > 0 {
        "♪ "@ + s.title@
    } else if s.station@.len() > 0 {
        s.station@
    } else {
        s.status@
    }
}

impl StreamState {
    /// The state before the first connection.
    pub fn connecting() -> (s: StreamState)
        ensures
            s.status@ == "connecting…"@,
            s.station@ == Seq::<char>::empty(),
            s.title@ == Seq::<char>::empty(),
            s.show@ == Seq::<char>::empty(),
    {
        let mut s: StreamState = StreamState::default();
        s.status = "connecting…".to_owned();
        s
    }

    /// The line shown under the marquee.
    pub fn headline(&self) -> (line: String)
        ensures
            line@ == headline(*self),
    {
        let noted: &String = if !self.show.as_str().is_empty() {
            &self.show
        } else if !self.title.as_str().is_empty() {
            &self.title
        } else if !self.station.as_str().is_empty() {
            return self.station.clone();
        } else {
            return self.status.clone();
        };
        let mut line: String = "♪ ".to_owned();
        line.append(noted.as_str());
        line
    }

    /// Notes that the connection was lost for `error` and is being made again.
    pub fn reconnecting(&mut self, error: &str)
        ensures
            final(self).status@ == "reconnecting… ("@ + error@ + ")"@,
            final(self).station == old(self).station,
            final(self).title == old(self).title,
            final(self).show == old(self).show,
    {
        let mut status: String = "reconnecting… (".to_owned();
        status.append(error);
        status.append(")");
        self.status = status;
    }

    /// Takes the show that the schedule gives, and keeps the last one when it gives none.
    pub fn now_playing(&mut self, show: Option<String>)
        ensures
            final(self).show@ == (match show {
                Some(name) => name@,
                None => old(self).show@,
            }),
            final(self).status == old(self).status,
            final(self).station == old(self).station,
            final(self).title == old(self).title,
    {
        if let Some(name) = show {
            self.show = name;
        }
    }
}

/// The show on air comes before the track, the track before the station, and the station before
/// the status; a note and a space stand before a show or a track, and nothing is left out.
pub proof fn law_headline_takes_the_first_known(s: &StreamState, line: String)
    requires
        call_ensures(StreamState::headline, (s,), line),
    ensures
        s.show@.len() > 0 ==> line@ == seq!['♪', ' '] + s.show@,
        s.show@.len() == 0 && s.title@.len() > 0 ==> line@ == seq!['♪', ' '] + s.title@,
        s.show@.len() == 0 && s.title@.len() == 0 && s.station@.len() > 0 ==> line@ == s.station@,
        s.show@.len() == 0 && s.title@.len() == 0 && s.station@.len() == 0 ==> line@ == s.status@,
{
    reveal_strlit("♪ ");
    assert("♪ "@ =~= seq!['♪', ' ']);
}

/// Nothing is known at first but that the connection is being made, and before that nothing.
pub proof fn law_connecting_comes_first(s: StreamState, none: StreamState)
    requires
        call_ensures(StreamState::connecting, (), s),
        call_ensures(StreamState::default, (), none),
    ensures
        none.status@.len() == 0 && none.station@.len() == 0,
        none.title@.len() == 0 && none.show@.len() == 0,
        s.status@ == seq!['c', 'o', 'n', 'n', 'e', 'c', 't', 'i', 'n', 'g', '…'],
        s.station@.len() == 0 && s.title@.len() == 0 && s.show@.len() == 0,
{
    reveal_strlit("connecting…");
    assert("connecting…"@ =~= seq!['c', 'o', 'n', 'n', 'e', 'c', 't', 'i', 'n', 'g', '…']);
}

/// A lost connection changes the status alone, and its reason is in the status between round
/// brackets.
pub proof fn law_lost_connection_is_reported(s: &mut StreamState, error: &str)
    requires
        call_ensures(StreamState::reconnecting, (s, error), ()),
    ensures
        final(s).status@ == seq![
            'r',
            'e',
            'c',
            'o',
            'n',
            'n',
            'e',
            'c',
            't',
            'i',
            'n',
            'g',
            '…',
            ' ',
            '(',
        ] + error@ + seq![')'],
        final(s).station == old(s).station,
        final(s).title == old(s).title,
        final(s).show == old(s).show,
{
    reveal_strlit("reconnecting… (");
    reveal_strlit(")");
    let front = seq!['r', 'e', 'c', 'o', 'n', 'n', 'e', 'c', 't', 'i', 'n', 'g', '…', ' ', '('];
    assert("reconnecting… ("@ =~= front);
    assert(")"@ =~= seq![')']);
}

/// A show that the schedule gives is the show, whatever it was before; when it gives none, the
/// last one stays. Nothing else changes.
pub proof fn law_last_show_stays(s: &mut StreamState, show: Option<String>)
    requires
        call_ensures(StreamState::now_playing, (s, show), ()),
    ensures
        show matches Some(name) ==> final(s).show@ == name@,
        show is None ==> final(s).show@ == old(s).show@,
        final(s).status == old(s).status,
        final(s).station == old(s).station,
        final(s).title == old(s).title,
{
}

} // verus!
