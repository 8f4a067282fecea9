//! The screen: a marquee, a headline, the bars of the spectrum and a footer, as lines of
//! styled text.

use vstd::prelude::*;
use vstd::string::*;
use crate::state;
use crate::state::StreamState;
use crate::text;

verus! {

/// The text of the marquee.
pub const LOGO: &'static str = "~ RINSE FM ~ 106.8 ~ LIVE FROM LONDON ~   ";

#[derive(Debug, Clone, Copy, PartialEq, Eq)]
pub enum Color {
    /// The terminal's own colour.
    Reset,
    /// A colour of the 256-colour palette.
    Indexed(u8),
}

/// The colour of the marquee and of the peaks.
pub const ACCENT: u8 = 201;

#[derive(Debug, Clone, Copy, PartialEq, Eq)]
pub struct Style {
    pub fg: Option<Color>,
    pub bold: bool,
    pub dim: bool,
}

/// A text in one style.
pub struct Span {
    pub text: String,
    pub style: Style,
}

/// What a span shows.
pub struct Shown {
    pub text: Seq<char>,
    pub style: Style,
}

impl View for Span {
    type V = Shown;

    open spec fn view(&self) -> Shown {
        Shown { text: self.text@, style: self.style }
    }
}

/// A line of the screen.
pub struct Line {
    pub spans: Vec<Span>,
}

impl View for Line {
    type V = Seq<Shown>;

    open spec fn view(&self) -> Seq<Shown> {
        Seq::new(self.spans@.len(), |i: int| self.spans@[i]@)
    }
}

/// What the lines show.
pub open spec fn shown(lines: Seq<Line>) -> Seq<Seq<Shown>> {
    Seq::new(lines.len(), |i: int| lines[i]@)
}

/// A bar of the spectrum, in rows of the screen.
#[derive(Debug, Clone, Copy, PartialEq, Eq)]
pub struct Bar {
    /// The rows that are filled whole.
    pub full: usize,
    /// The row above them is filled enough to show.
    pub partial: bool,
    /// The eighths of that row that are filled.
    pub eighths: usize,
    /// The row of the peak.
    pub peak: usize,
    /// The peak is high enough to show.
    pub peak_shown: bool,
}

pub open spec fn plain() -> Style {
    Style { fg: None, bold: false, dim: false }
}

pub open spec fn colored(c: Color) -> Style {
    Style { fg: Some(c), bold: false, dim: false }
}

/// The colours of a bar, from green at the bottom to red at the top.
pub open spec fn ramp() -> Seq<u8> {
    seq![46u8, 46u8, 82u8, 118u8, 154u8, 190u8, 226u8, 220u8, 214u8, 208u8, 202u8, 196u8]
}

/// The place in the ramp of a row, counted from the bottom, of bars with `height` rows.
pub open spec fn ramp_place(row: int, height: int) -> int {
    let place = row * 12 / (if height > 1 {
        height
    } else {
        1
    });
    if place < 11 {
        place
    } else {
        11
    }
}

/// The colour of a row, counted from the bottom, of bars with `height` rows.
pub fn ramp_color(row: usize, height: usize) -> (c: Color)
    requires
        row * 12 <= usize::MAX,
    ensures
        c == Color::Indexed(ramp()[ramp_place(row as int, height as int)]),
{
    let ramp: [u8; 12] = [46, 46, 82, 118, 154, 190, 226, 220, 214, 208, 202, 196];
    let place: usize = row * 12 / (if height > 1 {
        height
    } else {
        1
    });
    let at: usize = if place < 11 {
        place
    } else {
        11
    };
    Color::Indexed(ramp[at])
}

/// The block that fills so many eighths of a row from below, between 1 and 7.
pub open spec fn partial_block(eighths: int) -> char {
    if eighths <= 1 {
        '▁'
    } else if eighths == 2 {
        '▂'
    } else if eighths == 3 {
        '▃'
    } else if eighths == 4 {
        '▄'
    } else if eighths == 5 {
        '▅'
    } else if eighths == 6 {
        '▆'
    } else {
        '▇'
    }
}

/// What a row, counted from the bottom, shows of a bar: a whole block below the bar's end, a
/// partial block at it, the peak, or nothing.
pub open spec fn cell(bar: Bar, row: int, height: int) -> (char, Color) {
    let color = Color::Indexed(ramp()[ramp_place(row, height)]);
    if row < bar.full {
        ('█', color)
    } else if row == bar.full && bar.partial {
        (partial_block(bar.eighths as int), color)
    } else if row == bar.peak && bar.peak_shown {
        ('▔', Color::Indexed(ACCENT))
    } else {
        (' ', Color::Reset)
    }
}

fn partial_text(eighths: usize) -> (s: String)
    ensures
        s@ == seq![partial_block(eighths as int), partial_block(eighths as int)],
{
    proof {
        reveal_strlit("▁▁");
        reveal_strlit("▂▂");
        reveal_strlit("▃▃");
        reveal_strlit("▄▄");
        reveal_strlit("▅▅");
        reveal_strlit("▆▆");
        reveal_strlit("▇▇");
    }
    let s: String = (if eighths <= 1 {
        "▁▁"
    } else if eighths == 2 {
        "▂▂"
    } else if eighths == 3 {
        "▃▃"
    } else if eighths == 4 {
        "▄▄"
    } else if eighths == 5 {
        "▅▅"
    } else if eighths == 6 {
        "▆▆"
    } else {
        "▇▇"
    }).to_owned();
    assert(s@ =~= seq![partial_block(eighths as int), partial_block(eighths as int)]);
    s
}

/// The two columns that a bar has in a row.
pub open spec fn cell_span(bar: Bar, row: int, height: int) -> Shown {
    let (block, color) = cell(bar, row, height);
    Shown { text: seq![block, block], style: colored(color) }
}

fn draw_cell(bar: &Bar, row: usize, height: usize) -> (s: Span)
    requires
        row * 12 <= usize::MAX,
    ensures
        s@ == cell_span(*bar, row as int, height as int),
{
    proof {
        reveal_strlit("██");
        reveal_strlit("▔▔");
        reveal_strlit("  ");
    }
    let ghost want = cell_span(*bar, row as int, height as int);
    let (text, color): (String, Color) = if row < bar.full {
        ("██".to_owned(), ramp_color(row, height))
    } else if row == bar.full && bar.partial {
        (partial_text(bar.eighths), ramp_color(row, height))
    } else if row == bar.peak && bar.peak_shown {
        ("▔▔".to_owned(), Color::Indexed(ACCENT))
    } else {
        ("  ".to_owned(), Color::Reset)
    };
    assert(text@ =~= want.text);
    Span { text, style: Style { fg: Some(color), bold: false, dim: false } }
}

/// `n` spaces.
pub open spec fn spaces(n: int) -> Seq<char> {
    Seq::new(n as nat, |i: int| ' ')
}

fn draw_spaces(n: usize) -> (s: String)
    ensures
        s@ == spaces(n as int),
{
    proof {
        reveal_strlit(" ");
    }
    let mut s: String = String::new();
    let mut i: usize = 0;
    while i < n
        invariant
            i <= n,
            " "@.len() == 1,
            " "@[0] == ' ',
            s@ == spaces(i as int),
        decreases n - i,
    {
        s.append(" ");
        i = i + 1;
        assert(s@ =~= spaces(i as int));
    }
    s
}

/// A screen that is too small to draw on.
pub open spec fn too_small(w: int, h: int) -> bool {
    h < 6 || w < 10
}

/// The bars that fill the width: each takes two columns and a gap of one, and there is at
/// least one and at most `max`.
pub open spec fn bars_for(w: int, max: int) -> int {
    let fill = (w - 2) / 3;
    if fill < 1 {
        1
    } else if fill > max {
        max
    } else {
        fill
    }
}

/// The rows that the bars have: those that the marquee, the headline, the footer and two
/// empty rows leave.
pub open spec fn rows_for(h: int) -> int {
    h - 5
}

/// The number of bars on a screen and the rows that they have; none when the screen is too
/// small to draw on.
pub fn bar_area(w: u16, h: u16, max: usize) -> (area: Option<(usize, usize)>)
    requires
        too_small(w as int, h as int) || max >= 1,
    ensures
        match area {
            Some((bars, rows)) => {
                &&& !too_small(w as int, h as int)
                &&& bars == bars_for(w as int, max as int)
                &&& rows == rows_for(h as int)
            },
            None => too_small(w as int, h as int),
        },
{
    if h < 6 || w < 10 {
        return None;
    }
    let fill: usize = (w as usize - 2) / 3;
    Some(
        (
            if fill > max {
                max
            } else {
                fill
            },
            h as usize - 5,
        ),
    )
}

/// The first `n` bars in a row, each with the gap after it.
pub open spec fn bar_spans(bars: Seq<Bar>, n: int, row: int, height: int) -> Seq<Shown>
    decreases n,
{
    if n <= 0 {
        Seq::empty()
    } else {
        bar_spans(bars, n - 1, row, height).push(cell_span(bars[n - 1], row, height)).push(
            Shown { text: spaces(1), style: plain() },
        )
    }
}

/// A row of the bars, counted from the bottom, in the middle of the width.
pub open spec fn bar_line(bars: Seq<Bar>, row: int, height: int, w: int) -> Seq<Shown> {
    seq![Shown { text: spaces((w - 3 * bars.len()) / 2), style: plain() }] + bar_spans(
        bars,
        bars.len() as int,
        row,
        height,
    )
}

fn draw_bars(bars: &Vec<Bar>, row: usize, height: usize, w: usize) -> (line: Line)
    requires
        row * 12 <= usize::MAX,
        3 * bars@.len() <= w,
    ensures
        line@ == bar_line(bars@, row as int, height as int, w as int),
{
    let none: Style = Style { fg: None, bold: false, dim: false };
    let margin: usize = (w - 3 * bars.len()) / 2;
    let mut spans: Vec<Span> = Vec::new();
    spans.push(Span { text: draw_spaces(margin), style: none });
    let ghost margin_span = Shown { text: spaces(margin as int), style: plain() };
    let ghost mut drawn: Seq<Shown> = seq![margin_span];
    assert(drawn =~= seq![margin_span] + bar_spans(bars@, 0, row as int, height as int));
    let mut i: usize = 0;
    while i < bars.len()
        invariant
            i <= bars@.len(),
            row * 12 <= usize::MAX,
            none == plain(),
            drawn == seq![margin_span] + bar_spans(bars@, i as int, row as int, height as int),
            spans@.len() == drawn.len(),
            forall|k: int| 0 <= k < drawn.len() ==> (#[trigger] spans@[k])@ == drawn[k],
        decreases bars@.len() - i,
    {
        let bar: Span = draw_cell(&bars[i], row, height);
        let gap: Span = Span { text: draw_spaces(1), style: none };
        proof {
            drawn = drawn.push(bar@).push(gap@);
        }
        spans.push(bar);
        spans.push(gap);
        i = i + 1;
        assert(drawn =~= seq![margin_span] + bar_spans(
            bars@,
            i as int,
            row as int,
            height as int,
        ));
    }
    let line: Line = Line { spans };
    assert(line@ =~= drawn);
    line
}

/// What the marquee shows in a width: the logo over and over, three times at most, from a
/// place that moves on by one every two ticks.
pub open spec fn marquee(w: int, tick: int) -> Seq<char> {
    let logo = LOGO@;
    let from = (tick / 2) % (logo.len() as int);
    Seq::new(
        vstd::math::min(w - 2, 3 * logo.len() - from) as nat,
        |i: int| logo[(from + i) % (logo.len() as int)],
    )
}

fn draw_marquee(w: usize, tick: usize) -> (s: String)
    requires
        2 <= w,
    ensures
        s@ == marquee(w as int, tick as int),
{
    proof {
        reveal_strlit("~ RINSE FM ~ 106.8 ~ LIVE FROM LONDON ~   ");
    }
    let mut logos: String = LOGO.to_owned();
    logos.append(LOGO);
    logos.append(LOGO);
    let from: usize = (tick / 2) % 42;
    let to: usize = if w - 2 <= 126 - from {
        from + (w - 2)
    } else {
        126
    };
    let s: String = text::slice(logos.as_str(), from, to);
    assert(s@ =~= marquee(w as int, tick as int));
    s
}

/// The first line of the screen.
pub open spec fn marquee_line(w: int, tick: int) -> Seq<Shown> {
    seq![
        Shown {
            text: seq![' '] + marquee(w, tick),
            style: Style { fg: Some(Color::Indexed(ACCENT)), bold: true, dim: false },
        },
    ]
}

/// The second line: the headline in the middle of the width, or from the first column when it
/// is wider.
pub open spec fn headline_line(headline: Seq<char>, w: int) -> Seq<Shown> {
    let room = if w > headline.len() {
        w - headline.len()
    } else {
        0
    };
    seq![
        Shown {
            text: spaces(room / 2) + headline,
            style: Style { fg: None, bold: true, dim: false },
        },
    ]
}

/// The last line.
pub open spec fn footer_line(w: int) -> Seq<Shown> {
    seq![
        Shown {
            text: spaces(w - 9) + "q: quit "@,
            style: Style { fg: None, bold: false, dim: true },
        },
    ]
}

/// The lines of a screen of `w` columns and `h` rows: marquee, headline, an empty line, the
/// bars from their top row down, footer.
pub open spec fn frame(
    w: int,
    h: int,
    headline: Seq<char>,
    tick: int,
    bars: Seq<Bar>,
) -> Seq<Seq<Shown>> {
    let height = rows_for(h);
    seq![marquee_line(w, tick), headline_line(headline, w), Seq::empty()] + Seq::new(
        height as nat,
        |i: int| bar_line(bars, height - 1 - i, height, w),
    ) + seq![footer_line(w)]
}

fn one_span(text: String, style: Style) -> (line: Line)
    ensures
        line@ == seq![Shown { text: text@, style }],
{
    let mut spans: Vec<Span> = Vec::new();
    spans.push(Span { text, style });
    let line: Line = Line { spans };
    assert(line@ =~= seq![Shown { text: text@, style }]);
    line
}

/// Draws the screen: nothing when it is too small.
pub fn draw_frame(
    w: u16,
    h: u16,
    state: &StreamState,
    tick: usize,
    max: usize,
    bars: &Vec<Bar>,
) -> (lines: Option<Vec<Line>>)
    requires
        too_small(w as int, h as int) || (max >= 1 && bars@.len() == bars_for(
            w as int,
            max as int,
        )),
    ensures
        match lines {
            Some(lines) => {
                &&& !too_small(w as int, h as int)
                &&& shown(lines@) == frame(
                    w as int,
                    h as int,
                    state::headline(*state),
                    tick as int,
                    bars@,
                )
            },
            None => too_small(w as int, h as int),
        },
{
    if h < 6 || w < 10 {
        return None;
    }
    let w: usize = w as usize;
    let height: usize = h as usize - 5;
    let mut lines: Vec<Line> = Vec::new();
    proof {
        reveal_strlit(" ");
        reveal_strlit("q: quit ");
    }
    let mut top: String = " ".to_owned();
    top.append(draw_marquee(w, tick).as_str());
    assert(top@ =~= seq![' '] + marquee(w as int, tick as int));
    lines.push(
        one_span(top, Style { fg: Some(Color::Indexed(ACCENT)), bold: true, dim: false }),
    );
    let headline: String = state.headline();
    let taken: usize = headline.as_str().unicode_len();
    let room: usize = if w > taken {
        w - taken
    } else {
        0
    };
    let mut second: String = draw_spaces(room / 2);
    second.append(headline.as_str());
    lines.push(one_span(second, Style { fg: None, bold: true, dim: false }));
    lines.push(Line { spans: Vec::new() });
    let ghost head = seq![
        marquee_line(w as int, tick as int),
        headline_line(headline@, w as int),
        Seq::<Shown>::empty(),
    ];
    assert(lines@[2]@ =~= Seq::<Shown>::empty());
    let mut i: usize = 0;
    while i < height
        invariant
            i <= height,
            height == h - 5,
            3 * bars@.len() <= w,
            lines@.len() == 3 + i,
            head.len() == 3,
            forall|k: int| 0 <= k < 3 ==> (#[trigger] lines@[k])@ == head[k],
            forall|k: int|
                3 <= k < 3 + i ==> (#[trigger] lines@[k])@ == bar_line(
                    bars@,
                    height - 1 - (k - 3),
                    height as int,
                    w as int,
                ),
        decreases height - i,
    {
        lines.push(draw_bars(bars, height - 1 - i, height, w));
        i = i + 1;
    }
    let mut last: String = draw_spaces(w - 9);
    last.append("q: quit ");
    lines.push(one_span(last, Style { fg: None, bold: false, dim: true }));
    assert(shown(lines@) =~= frame(w as int, h as int, headline@, tick as int, bars@));
    Some(lines)
}

/// There is at least one bar and at most `max`, the bars and their gaps leave two columns
/// free, and a wider screen or a greater `max` has no fewer bars.
pub proof fn law_bars_follow_the_width(w: int, max: int, w2: int, max2: int)
    requires
        10 <= w <= w2,
        1 <= max <= max2,
    ensures
        1 <= bars_for(w, max) <= max,
        3 * bars_for(w, max) <= w - 2,
        bars_for(w, max) <= bars_for(w2, max2),
{
}

/// The columns that a line takes.
pub open spec fn width(line: Seq<Shown>) -> int
    decreases line.len(),
{
    if line.len() == 0 {
        0
    } else {
        width(line.drop_last()) + line.last().text.len()
    }
}

proof fn lemma_width_of_bars(front: Shown, bars: Seq<Bar>, n: int, row: int, height: int)
    requires
        0 <= n <= bars.len(),
    ensures
        width(seq![front] + bar_spans(bars, n, row, height)) == front.text.len() + 3 * n,
    decreases n,
{
    let line = seq![front] + bar_spans(bars, n, row, height);
    if n == 0 {
        assert(line =~= seq![front]);
        assert(line.drop_last() =~= Seq::<Shown>::empty());
        reveal_with_fuel(width, 2);
    } else {
        lemma_width_of_bars(front, bars, n - 1, row, height);
        let gap = Shown { text: spaces(1), style: plain() };
        let shorter = seq![front] + bar_spans(bars, n - 1, row, height);
        let bar = cell_span(bars[n - 1], row, height);
        assert(line =~= shorter.push(bar).push(gap));
        assert(line.drop_last() =~= shorter.push(bar));
        assert(shorter.push(bar).drop_last() =~= shorter);
        assert(width(shorter.push(bar)) == width(shorter) + 2);
        assert(width(line) == width(shorter.push(bar)) + 1);
    }
}

proof fn lemma_width_of_one(s: Shown)
    ensures
        width(seq![s]) == s.text.len(),
{
    assert(seq![s].drop_last() =~= Seq::<Shown>::empty());
    reveal_with_fuel(width, 2);
}

/// The screen has one line less than it has rows, and no line but the headline can be wider
/// than the screen; nor is the headline when its text is not.
pub proof fn law_frame_fits(
    w: int,
    h: int,
    headline: Seq<char>,
    tick: int,
    max: int,
    bars: Seq<Bar>,
    i: int,
)
    requires
        !too_small(w, h),
        tick >= 0,
        max >= 1,
        bars.len() == bars_for(w, max),
        0 <= i < h - 1,
    ensures
        frame(w, h, headline, tick, bars).len() == h - 1,
        i != 1 || headline.len() <= w ==> width(frame(w, h, headline, tick, bars)[i]) <= w,
{
    reveal_strlit("q: quit ");
    reveal_strlit("~ RINSE FM ~ 106.8 ~ LIVE FROM LONDON ~   ");
    let lines = frame(w, h, headline, tick, bars);
    if i == 0 {
        lemma_width_of_one(marquee_line(w, tick)[0]);
    } else if i == 1 {
        lemma_width_of_one(headline_line(headline, w)[0]);
    } else if i == 2 {
    } else if i < h - 2 {
        let row = h - 6 - (i - 3);
        assert(lines[i] == bar_line(bars, row, h - 5, w));
        let front = Shown { text: spaces((w - 3 * bars.len()) / 2), style: plain() };
        lemma_width_of_bars(front, bars, bars.len() as int, row, h - 5);
    } else {
        lemma_width_of_one(footer_line(w)[0]);
    }
}

/// A bar is solid: a row shows a whole block exactly when it is below the bar's end, so all
/// the rows under a whole block show one too.
pub proof fn law_bar_is_solid(bar: Bar, row: int, height: int)
    ensures
        cell(bar, row, height).0 == '█' <==> row < bar.full,
{
}

/// Every row has a colour of the ramp, the lowest the first one, a higher row none that comes
/// before a lower row's, and all rows from the height of the bars on the last.
pub proof fn law_ramp_rises(row: int, row2: int, height: int)
    requires
        0 <= row <= row2,
        0 <= height,
    ensures
        0 <= ramp_place(row, height) <= ramp_place(row2, height) < ramp().len(),
        ramp_place(0, height) == 0,
        1 <= row && height <= row ==> ramp_place(row, height) == 11,
        height >= 12 ==> ramp_place(height - 1, height) == 11,
{
    let rows = if height > 1 {
        height
    } else {
        1
    };
    vstd::arithmetic::div_mod::lemma_div_is_ordered(row * 12, row2 * 12, rows);
    vstd::arithmetic::div_mod::lemma_div_pos_is_pos(row * 12, rows);
    assert(0int / rows == 0) by (nonlinear_arith)
        requires
            rows > 0,
    ;
    if 1 <= row && height <= row {
        assert(row * 12 / rows >= 12) by (nonlinear_arith)
            requires
                0 < rows <= row,
        ;
    }
    if height >= 12 {
        assert((height - 1) * 12 / height >= 11) by (nonlinear_arith)
            requires
                height >= 12,
        ;
    }
}

/// The marquee moves one place to the left every two ticks, and is back where it was after
/// the ticks that the whole logo takes.
pub proof fn law_marquee_moves(w: int, tick: int, i: int)
    requires
        tick >= 0,
    ensures
        0 <= i && i + 1 < marquee(w, tick).len() && i < marquee(w, tick + 2).len() ==> marquee(
            w,
            tick + 2,
        )[i] == marquee(w, tick)[i + 1],
        marquee(w, tick + 2 * LOGO@.len()) == marquee(w, tick),
{
    reveal_strlit("~ RINSE FM ~ 106.8 ~ LIVE FROM LONDON ~   ");
    let from = (tick / 2) % 42;
    let next = ((tick + 2) / 2) % 42;
    assert(next == if from == 41 {
        0
    } else {
        from + 1
    });
    assert((next + i) % 42 == (from + (i + 1)) % 42);
    assert((tick + 2 * 42) / 2 % 42 == from);
    assert(marquee(w, tick + 2 * LOGO@.len()) =~= marquee(w, tick));
}

/// A row's colour goes by the twelfth of the height that the row begins in, from 46 (green) in
/// the lowest one to 196 (red) in the highest one and above; a height of none counts as one.
pub proof fn law_color_goes_by_twelfths(row: usize, height: usize, c: Color, p: int)
    requires
        call_ensures(ramp_color, (row, height), c),
        0 <= p <= 11,
    ensures
        ({
            let rows = if height == 0 {
                1
            } else {
                height as int
            };
            let codes = seq![46u8, 46u8, 82u8, 118u8, 154u8, 190u8, 226u8, 220u8, 214u8, 208u8, 202u8, 196u8];
            p * rows <= 12 * row && (12 * row < (p + 1) * rows || p == 11) ==> c == Color::Indexed(
                codes[p],
            )
        }),
{
    let rows = if height == 0 {
        1
    } else {
        height as int
    };
    if p * rows <= 12 * row && (12 * row < (p + 1) * rows || p == 11) {
        lemma_ramp_place(row as int, height as int, p);
    }
}

/// The place in the ramp is the twelfth of the height that the row begins in.
proof fn lemma_ramp_place(row: int, height: int, p: int)
    requires
        0 <= p <= 11,
        0 <= row,
        0 <= height,
        ({
            let rows = if height == 0 {
                1
            } else {
                height
            };
            p * rows <= 12 * row && (12 * row < (p + 1) * rows || p == 11)
        }),
    ensures
        ramp_place(row, height) == p,
{
    let rows = if height > 1 {
        height
    } else {
        1
    };
    let q = row * 12 / rows;
    assert(p * rows <= row * 12);
    assert(q >= p && (row * 12 < (p + 1) * rows ==> q == p)) by (nonlinear_arith)
        requires
            q == row * 12 / rows,
            p * rows <= row * 12,
            rows > 0,
    ;
}

/// The bars that have room on a screen are as many as fit: each takes three columns, two more
/// stay free, and there are no more than `max`. They have all rows but five. A screen of fewer
/// than six rows or ten columns has none.
pub proof fn law_bars_fill_the_screen(w: u16, h: u16, max: usize, area: Option<(usize, usize)>)
    requires
        call_ensures(bar_area, (w, h, max), area),
        max >= 1,
    ensures
        area is None <==> h < 6 || w < 10,
        area matches Some((n, rows)) ==> {
            &&& 1 <= n <= max
            &&& 3 * n + 2 <= w
            &&& n == max || 3 * (n + 1) + 2 > w
            &&& rows + 5 == h
        },
{
}

/// A screen is drawn when it has at least six rows and ten columns: one line for each row but
/// the last.
pub proof fn law_frame_needs_room(
    w: u16,
    h: u16,
    state: &StreamState,
    tick: usize,
    max: usize,
    bars: &Vec<Bar>,
    lines: Option<Vec<Line>>,
)
    requires
        call_ensures(draw_frame, (w, h, state, tick, max, bars), lines),
    ensures
        lines is Some <==> h >= 6 && w >= 10,
        lines matches Some(l) ==> l@.len() == h - 1 && l@[2].spans@.len() == 0,
{
    if let Some(l) = lines {
        let all = shown(l@);
        assert(all.len() == h - 1);
        assert(all[2] =~= Seq::<Shown>::empty());
        assert(all[2] == l@[2]@);
        assert(l@[2]@.len() == l@[2].spans@.len());
    }
}

/// A screen that is drawn has room for it.
proof fn lemma_drawn(
    w: u16,
    h: u16,
    state: &StreamState,
    tick: usize,
    max: usize,
    bars: &Vec<Bar>,
    lines: Vec<Line>,
)
    requires
        call_ensures(draw_frame, (w, h, state, tick, max, bars), Some(lines)),
    ensures
        h >= 6,
        w >= 10,
{
}

/// The spans of a line of the frame are those that are shown of it.
proof fn lemma_lines(
    w: u16,
    h: u16,
    state: &StreamState,
    tick: usize,
    max: usize,
    bars: &Vec<Bar>,
    lines: Vec<Line>,
    i: int,
)
    requires
        call_ensures(draw_frame, (w, h, state, tick, max, bars), Some(lines)),
        0 <= i < h - 1,
    ensures
        h >= 6,
        w >= 10,
        lines@.len() == h - 1,
        ({
            let line = frame(w as int, h as int, state::headline(*state), tick as int, bars@)[i];
            &&& lines@[i].spans@.len() == line.len()
            &&& forall|j: int| 0 <= j < line.len() ==> #[trigger] lines@[i].spans@[j]@ == line[j]
        }),
{
    let line = frame(w as int, h as int, state::headline(*state), tick as int, bars@)[i];
    assert(shown(lines@).len() == lines@.len());
    assert(shown(lines@)[i] == lines@[i]@);
    assert(lines@[i]@.len() == lines@[i].spans@.len());
    assert forall|j: int| 0 <= j < line.len() implies #[trigger] lines@[i].spans@[j]@
        == line[j] by {
        assert(lines@[i]@[j] == lines@[i].spans@[j]@);
    }
}

/// The spans of a row of bars: the margin, and then each bar and its gap.
proof fn lemma_bar_spans(bars: Seq<Bar>, n: int, row: int, height: int, b: int)
    requires
        0 <= b < n <= bars.len(),
    ensures
        bar_spans(bars, n, row, height).len() == 2 * n,
        bar_spans(bars, n, row, height)[2 * b] == cell_span(bars[b], row, height),
        bar_spans(bars, n, row, height)[2 * b + 1] == (Shown { text: spaces(1), style: plain() }),
    decreases n,
{
    if n == 1 {
        assert(bar_spans(bars, 0, row, height) =~= Seq::<Shown>::empty());
    } else if b < n - 1 {
        lemma_bar_spans(bars, n - 1, row, height, b);
    } else {
        lemma_bar_spans(bars, n - 1, row, height, 0);
    }
}

/// The line `3 + k` of a frame is the row of bars `h - 6 - k` rows above the lowest.
proof fn lemma_bar_lines(
    w: u16,
    h: u16,
    state: &StreamState,
    tick: usize,
    max: usize,
    bars: &Vec<Bar>,
    lines: Vec<Line>,
    k: int,
)
    requires
        call_ensures(draw_frame, (w, h, state, tick, max, bars), Some(lines)),
        0 <= k < h - 5,
    ensures
        ({
            let line = bar_line(bars@, h - 6 - k, h - 5, w as int);
            &&& lines@[3 + k].spans@.len() == line.len()
            &&& forall|j: int|
                0 <= j < line.len() ==> #[trigger] lines@[3 + k].spans@[j]@ == line[j]
        }),
{
    let shape = frame(w as int, h as int, state::headline(*state), tick as int, bars@);
    lemma_lines(w, h, state, tick, max, bars, lines, 3 + k);
    assert(shape[3 + k] == bar_line(bars@, h - 6 - k, h - 5, w as int));
}

/// The bars stand on the bottom: the line `3 + k` of the frame, with `h - 6 - k` rows of bars
/// below it, shows for each bar two columns of a whole block when the bar fills more rows than
/// are below; the part of a row when it fills just those and enough of this one; the peak when
/// it is in this row; and else nothing. The part is one of the seven blocks from U+2581 on, by
/// the eighths.
pub proof fn law_bars_stand_on_the_bottom(
    w: u16,
    h: u16,
    state: &StreamState,
    tick: usize,
    max: usize,
    bars: &Vec<Bar>,
    lines: Vec<Line>,
    k: int,
    b: int,
)
    requires
        call_ensures(draw_frame, (w, h, state, tick, max, bars), Some(lines)),
        0 <= k < h - 5,
        0 <= b < bars@.len(),
    ensures
        lines@[3 + k].spans@.len() == 1 + 2 * bars@.len(),
        ({
            let bar = bars@[b];
            let below = h - 6 - k;
            let shape = lines@[3 + k].spans@[1 + 2 * b].text@;
            &&& shape.len() == 2
            &&& shape[0] == shape[1]
            &&& shape[0] as int == 0x2588 <==> below < bar.full
            &&& below == bar.full && bar.partial ==> {
                &&& bar.eighths <= 1 ==> shape[0] as int == 0x2581
                &&& 1 <= bar.eighths <= 7 ==> shape[0] as int == 0x2580 + bar.eighths
                &&& bar.eighths >= 7 ==> shape[0] as int == 0x2587
            }
            &&& shape[0] as int == 0x2594 <==> {
                &&& below >= bar.full
                &&& !(below == bar.full && bar.partial)
                &&& below == bar.peak
                &&& bar.peak_shown
            }
            &&& shape[0] as int == 0x20 <==> {
                &&& below >= bar.full
                &&& !(below == bar.full && bar.partial)
                &&& !(below == bar.peak && bar.peak_shown)
            }
        }),
{
    lemma_bar_lines(w, h, state, tick, max, bars, lines, k);
    let line = lines@[3 + k];
    lemma_bar_spans(bars@, bars@.len() as int, h - 6 - k, h - 5, b);
    assert(line.spans@[1 + 2 * b]@ == cell_span(bars@[b], h - 6 - k, h - 5));
}

/// In each column a whole block has whole blocks under it, in all lines down to the footer; and
/// the lowest line has one for each bar that fills a row.
pub proof fn law_bars_are_solid(
    w: u16,
    h: u16,
    state: &StreamState,
    tick: usize,
    max: usize,
    bars: &Vec<Bar>,
    lines: Vec<Line>,
    i: int,
    j: int,
    b: int,
)
    requires
        call_ensures(draw_frame, (w, h, state, tick, max, bars), Some(lines)),
        3 <= i <= j < h - 2,
        0 <= b < bars@.len(),
    ensures
        lines@[i].spans@[1 + 2 * b].text@ == seq!['█', '█'] ==> lines@[j].spans@[1 + 2
            * b].text@ == seq!['█', '█'],
        lines@[h - 3].spans@[1 + 2 * b].text@ == seq!['█', '█'] <==> bars@[b].full > 0,
{
    law_bars_stand_on_the_bottom(w, h, state, tick, max, bars, lines, i - 3, b);
    law_bars_stand_on_the_bottom(w, h, state, tick, max, bars, lines, j - 3, b);
    law_bars_stand_on_the_bottom(w, h, state, tick, max, bars, lines, h - 6, b);
    let upper = lines@[i].spans@[1 + 2 * b].text@;
    let lower = lines@[j].spans@[1 + 2 * b].text@;
    let lowest = lines@[h - 3].spans@[1 + 2 * b].text@;
    assert(upper == seq!['█', '█'] ==> upper[0] == '█');
    assert(lower[0] == '█' ==> lower =~= seq!['█', '█']);
    assert(lowest == seq!['█', '█'] ==> lowest[0] == '█');
    assert(lowest[0] == '█' ==> lowest =~= seq!['█', '█']);
}

/// A block has the colour of its row, by the twelfth of the height that the rows below it reach
/// to; a peak has the accent's, and an empty cell the terminal's own. Nothing of a bar is bold
/// or dim.
pub proof fn law_blocks_are_coloured_by_row(
    w: u16,
    h: u16,
    state: &StreamState,
    tick: usize,
    max: usize,
    bars: &Vec<Bar>,
    lines: Vec<Line>,
    k: int,
    b: int,
    p: int,
)
    requires
        call_ensures(draw_frame, (w, h, state, tick, max, bars), Some(lines)),
        0 <= k < h - 5,
        0 <= b < bars@.len(),
        0 <= p <= 11,
    ensures
        ({
            let bar = bars@[b];
            let below = h - 6 - k;
            let style = lines@[3 + k].spans@[1 + 2 * b].style;
            let codes = seq![46u8, 46u8, 82u8, 118u8, 154u8, 190u8, 226u8, 220u8, 214u8, 208u8, 202u8, 196u8];
            &&& !style.bold && !style.dim
            &&& below < bar.full || (below == bar.full && bar.partial) ==> {
                p * (h - 5) <= 12 * below && (12 * below < (p + 1) * (h - 5) || p == 11)
                    ==> style.fg == Some(Color::Indexed(codes[p]))
            }
            &&& !(below < bar.full || (below == bar.full && bar.partial)) ==> style.fg == Some(
                if below == bar.peak && bar.peak_shown {
                    Color::Indexed(201u8)
                } else {
                    Color::Reset
                },
            )
        }),
{
    lemma_bar_lines(w, h, state, tick, max, bars, lines, k);
    let line = lines@[3 + k];
    let below = h - 6 - k;
    lemma_bar_spans(bars@, bars@.len() as int, below, h - 5, b);
    assert(line.spans@[1 + 2 * b]@ == cell_span(bars@[b], below, h - 5));
    if p * (h - 5) <= 12 * below && (12 * below < (p + 1) * (h - 5) || p == 11) {
        lemma_ramp_place(below, h - 5, p);
    }
}

/// The bars are in the middle: a margin of half the columns that they and their gaps leave, and
/// one empty column after each of them.
pub proof fn law_bars_are_in_the_middle(
    w: u16,
    h: u16,
    state: &StreamState,
    tick: usize,
    max: usize,
    bars: &Vec<Bar>,
    lines: Vec<Line>,
    k: int,
    b: int,
)
    requires
        call_ensures(draw_frame, (w, h, state, tick, max, bars), Some(lines)),
        0 <= k < h - 5,
        0 <= b < bars@.len(),
        3 * bars@.len() <= w,
    ensures
        ({
            let margin = lines@[3 + k].spans@[0];
            let gap = lines@[3 + k].spans@[2 + 2 * b];
            &&& 2 * margin.text@.len() <= w - 3 * bars@.len() <= 2 * margin.text@.len() + 1
            &&& forall|i: int| 0 <= i < margin.text@.len() ==> #[trigger] margin.text@[i] == ' '
            &&& gap.text@ == seq![' ']
            &&& margin.style == (Style { fg: None, bold: false, dim: false })
            &&& gap.style == (Style { fg: None, bold: false, dim: false })
        }),
{
    lemma_bar_lines(w, h, state, tick, max, bars, lines, k);
    let line = lines@[3 + k];
    lemma_bar_spans(bars@, bars@.len() as int, h - 6 - k, h - 5, b);
    assert(line.spans@[0]@.text == spaces((w - 3 * bars@.len()) / 2));
    assert(line.spans@[2 + 2 * b]@.text == spaces(1));
    assert(spaces(1) =~= seq![' ']);
}

/// The first line is one bold span in the accent's colour: a space, and then the logo over and
/// over, from a place that moves on by one every two ticks. It fills the width but for one
/// column, as far as three logos reach.
pub proof fn law_marquee_is_the_logo(
    w: u16,
    h: u16,
    state: &StreamState,
    tick: usize,
    max: usize,
    bars: &Vec<Bar>,
    lines: Vec<Line>,
    i: int,
)
    requires
        call_ensures(draw_frame, (w, h, state, tick, max, bars), Some(lines)),
    ensures
        lines@[0].spans@.len() == 1,
        ({
            let top = lines@[0].spans@[0];
            let logo = "~ RINSE FM ~ 106.8 ~ LIVE FROM LONDON ~   "@;
            let from = (tick / 2) % 42;
            &&& top.style == (Style { fg: Some(Color::Indexed(201u8)), bold: true, dim: false })
            &&& top.text@.len() == (if w - 1 <= 127 - from {
                w - 1
            } else {
                127 - from
            })
            &&& top.text@[0] == ' '
            &&& 0 <= i < top.text@.len() - 1 ==> top.text@[1 + i] == logo[(tick / 2 + i) % 42]
        }),
{
    reveal_strlit("~ RINSE FM ~ 106.8 ~ LIVE FROM LONDON ~   ");
    lemma_drawn(w, h, state, tick, max, bars, lines);
    lemma_lines(w, h, state, tick, max, bars, lines, 0);
    let shape = frame(w as int, h as int, state::headline(*state), tick as int, bars@);
    assert(shape[0] == marquee_line(w as int, tick as int));
    assert(lines@[0].spans@[0]@ == shape[0][0]);
    let from = (tick / 2) % 42;
    assert((from + i) % 42 == (tick / 2 + i) % 42);
}

/// The second line is one bold span: the show on air after a note, else the track after a note,
/// else the station, else the status, with half the columns that it leaves before it.
pub proof fn law_headline_is_in_the_middle(
    w: u16,
    h: u16,
    state: &StreamState,
    tick: usize,
    max: usize,
    bars: &Vec<Bar>,
    lines: Vec<Line>,
)
    requires
        call_ensures(draw_frame, (w, h, state, tick, max, bars), Some(lines)),
    ensures
        lines@[1].spans@.len() == 1,
        ({
            let second = lines@[1].spans@[0];
            let info = if state.show@.len() > 0 {
                seq!['♪', ' '] + state.show@
            } else if state.title@.len() > 0 {
                seq!['♪', ' '] + state.title@
            } else if state.station@.len() > 0 {
                state.station@
            } else {
                state.status@
            };
            let pad = second.text@.len() - info.len();
            &&& second.style == (Style { fg: None, bold: true, dim: false })
            &&& pad >= 0
            &&& info.len() >= w ==> pad == 0
            &&& info.len() < w ==> 2 * pad <= w - info.len() <= 2 * pad + 1
            &&& second.text@.skip(pad) == info
            &&& forall|i: int| 0 <= i < pad ==> #[trigger] second.text@[i] == ' '
        }),
{
    reveal_strlit("♪ ");
    lemma_drawn(w, h, state, tick, max, bars, lines);
    lemma_lines(w, h, state, tick, max, bars, lines, 1);
    let info = state::headline(*state);
    assert("♪ "@ =~= seq!['♪', ' ']);
    let shape = frame(w as int, h as int, info, tick as int, bars@);
    assert(shape[1] == headline_line(info, w as int));
    assert(lines@[1].spans@[0]@ == shape[1][0]);
    let text = lines@[1].spans@[0].text@;
    assert(text.skip(text.len() - info.len()) =~= info);
}

/// The last line is one dim span of all columns but one, with `q: quit ` at its end and spaces
/// before it.
pub proof fn law_footer_is_at_the_right(
    w: u16,
    h: u16,
    state: &StreamState,
    tick: usize,
    max: usize,
    bars: &Vec<Bar>,
    lines: Vec<Line>,
)
    requires
        call_ensures(draw_frame, (w, h, state, tick, max, bars), Some(lines)),
    ensures
        lines@[h - 2].spans@.len() == 1,
        ({
            let last = lines@[h - 2].spans@[0];
            &&& last.style == (Style { fg: None, bold: false, dim: true })
            &&& last.text@.len() == w - 1
            &&& last.text@.skip(w - 9) == seq!['q', ':', ' ', 'q', 'u', 'i', 't', ' ']
            &&& forall|i: int| 0 <= i < w - 9 ==> #[trigger] last.text@[i] == ' '
        }),
{
    reveal_strlit("q: quit ");
    lemma_drawn(w, h, state, tick, max, bars, lines);
    lemma_lines(w, h, state, tick, max, bars, lines, h - 2);
    let shape = frame(w as int, h as int, state::headline(*state), tick as int, bars@);
    assert(shape[h - 2] == footer_line(w as int));
    assert(lines@[h - 2].spans@[0]@ == shape[h - 2][0]);
    let text = lines@[h - 2].spans@[0].text@;
    assert(text.skip(w - 9) =~= seq!['q', ':', ' ', 'q', 'u', 'i', 't', ' ']);
}

} // verus!
