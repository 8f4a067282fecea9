use rinse::frame::{bar_area, draw_frame, ramp_color, Bar, Color, Line, Style, LOGO};
use rinse::state::StreamState;

fn text(line: &Line) -> String {
    line.spans.iter().map(|s| s.text.as_str()).collect()
}

fn bar(full: usize, partial: bool, eighths: usize, peak: usize, peak_shown: bool) -> Bar {
    Bar { full, partial, eighths, peak, peak_shown }
}

fn silent(n: usize) -> Vec<Bar> {
    vec![bar(0, false, 0, 0, false); n]
}

#[test]
fn bars_fill_the_width() {
    assert_eq!(bar_area(80, 24, 128), Some((26, 19)));
    assert_eq!(bar_area(110, 30, 128), Some((36, 25)));
    assert_eq!(bar_area(10, 6, 128), Some((2, 1)));
    assert_eq!(bar_area(65535, 6, 128), Some((128, 1)));
    assert_eq!(bar_area(80, 24, 1), Some((1, 19)));
}

#[test]
fn small_screens_are_left_alone() {
    assert_eq!(bar_area(9, 24, 128), None);
    assert_eq!(bar_area(80, 5, 128), None);
    assert_eq!(bar_area(0, 0, 0), None);
    let state = StreamState::default();
    assert!(draw_frame(9, 24, &state, 0, 128, &silent(0)).is_none());
    assert!(draw_frame(80, 5, &state, 0, 0, &silent(0)).is_none());
}

#[test]
fn ramp_goes_from_green_to_red() {
    let colors: Vec<Color> = (0..12).map(|row| ramp_color(row, 12)).collect();
    let want = [46, 46, 82, 118, 154, 190, 226, 220, 214, 208, 202, 196];
    assert_eq!(colors, want.iter().map(|&c| Color::Indexed(c)).collect::<Vec<_>>());
    assert_eq!(ramp_color(5, 10), Color::Indexed(226));
    assert_eq!(ramp_color(3, 0), Color::Indexed(196));
    assert_eq!(ramp_color(0, 0), Color::Indexed(46));
    assert_eq!(ramp_color(100, 10), Color::Indexed(196));
}

#[test]
fn lines_of_a_silent_screen() {
    let state = StreamState::connecting();
    let lines = draw_frame(20, 8, &state, 0, 128, &silent(6)).unwrap();
    let texts: Vec<String> = lines.iter().map(text).collect();
    assert_eq!(texts.len(), 7);
    assert_eq!(texts[0], " ~ RINSE FM ~ 106.8");
    assert_eq!(texts[1], "    connecting…");
    assert_eq!(texts[2], "");
    for row in 3..6 {
        assert_eq!(texts[row], " ".repeat(19));
    }
    assert_eq!(texts[6], format!("{:>width$}", "q: quit ", width = 19));
    assert_eq!(lines[0].spans[0].style, Style { fg: Some(Color::Indexed(201)), bold: true, dim: false });
    assert_eq!(lines[1].spans[0].style, Style { fg: None, bold: true, dim: false });
    assert_eq!(lines[6].spans[0].style, Style { fg: None, bold: false, dim: true });
    assert_eq!(lines[3].spans[1].style, Style { fg: Some(Color::Reset), bold: false, dim: false });
    assert_eq!(lines[3].spans[2].style, Style { fg: None, bold: false, dim: false });
}

#[test]
fn bars_are_drawn_from_the_bottom() {
    let state = StreamState::default();
    let bars = vec![bar(2, true, 3, 3, true), bar(0, true, 0, 0, true)];
    let lines = draw_frame(10, 9, &state, 0, 2, &bars).unwrap();
    let texts: Vec<String> = lines[3..7].iter().map(text).collect();
    assert_eq!(texts, vec!["  ▔▔    ", "  ▃▃    ", "  ██    ", "  ██ ▁▁ "]);
    assert_eq!(lines[3].spans[1].style.fg, Some(Color::Indexed(201)));
    assert_eq!(lines[4].spans[1].style.fg, Some(Color::Indexed(226)));
    assert_eq!(lines[6].spans[1].style.fg, Some(Color::Indexed(46)));
}

#[test]
fn partial_blocks_by_eighths() {
    let state = StreamState::default();
    let blocks = ['▁', '▁', '▂', '▃', '▄', '▅', '▆', '▇', '▇'];
    for (eighths, block) in blocks.iter().enumerate() {
        let lines = draw_frame(10, 6, &state, 0, 1, &vec![bar(0, true, eighths, 0, false)]).unwrap();
        assert_eq!(text(&lines[3]).trim(), format!("{}{}", block, block));
    }
}

#[test]
fn partial_row_hides_the_peak() {
    let state = StreamState::default();
    let lines = draw_frame(10, 6, &state, 0, 1, &vec![bar(0, true, 4, 0, true)]).unwrap();
    assert_eq!(text(&lines[3]).trim(), "▄▄");
    let lines = draw_frame(10, 6, &state, 0, 1, &vec![bar(0, false, 4, 0, true)]).unwrap();
    assert_eq!(text(&lines[3]).trim(), "▔▔");
    let lines = draw_frame(10, 6, &state, 0, 1, &vec![bar(1, true, 4, 0, true)]).unwrap();
    assert_eq!(text(&lines[3]).trim(), "██");
}

#[test]
fn marquee_moves_every_two_ticks() {
    let state = StreamState::default();
    let marquee = |w: u16, tick: usize| {
        let (n, _) = bar_area(w, 6, 128).unwrap();
        let lines = draw_frame(w, 6, &state, tick, 128, &silent(n)).unwrap();
        text(&lines[0])
    };
    assert_eq!(marquee(20, 1), marquee(20, 0));
    assert_eq!(marquee(20, 2), "  RINSE FM ~ 106.8 ");
    assert_eq!(marquee(20, 84), marquee(20, 0));
    assert_eq!(marquee(20, usize::MAX), marquee(20, (usize::MAX / 2 % 42) * 2));
    assert_eq!(marquee(300, 0), format!(" {}{}{}", LOGO, LOGO, LOGO));
    assert_eq!(marquee(300, 82).chars().count(), 1 + 126 - 41);
}

#[test]
fn headline_stands_in_the_middle() {
    let mut state = StreamState::default();
    state.show = "Ünïcode".to_string();
    let lines = draw_frame(20, 6, &state, 0, 128, &silent(6)).unwrap();
    assert_eq!(text(&lines[1]), "     ♪ Ünïcode");
    state.show = "a show with a name that is wider than the screen".to_string();
    let lines = draw_frame(20, 6, &state, 0, 128, &silent(6)).unwrap();
    assert_eq!(text(&lines[1]), "♪ a show with a name that is wider than the screen");
}
