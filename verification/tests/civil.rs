use rinse::civil::{days_from_civil, iso_to_epoch};

#[test]
fn known_days() {
    assert_eq!(days_from_civil(1970, 1, 1), 0);
    assert_eq!(days_from_civil(1969, 12, 31), -1);
    assert_eq!(days_from_civil(2000, 2, 29), 11016);
    assert_eq!(days_from_civil(2026, 7, 1), 20635);
    assert_eq!(days_from_civil(0, 3, 1), -719468);
    assert_eq!(days_from_civil(-400, 3, 1), -719468 - 146097);
    assert_eq!(days_from_civil(-1, 12, 31), days_from_civil(0, 1, 1) - 1);
}

#[test]
fn days_follow_one_another_over_a_cycle() {
    let lengths = [31, 28, 31, 30, 31, 30, 31, 31, 30, 31, 30, 31];
    let mut day = days_from_civil(1890, 1, 1);
    for y in 1890..2300 {
        let leap = y % 4 == 0 && (y % 100 != 0 || y % 400 == 0);
        for m in 1..=12 {
            let len = lengths[m as usize - 1] + if m == 2 && leap { 1 } else { 0 };
            for d in 1..=len {
                assert_eq!(days_from_civil(y, m, d), day);
                day += 1;
            }
        }
    }
}

#[test]
fn months_and_days_beyond_the_calendar_count_on() {
    assert_eq!(days_from_civil(2026, 13, 1), days_from_civil(2027, 1, 1));
    assert_eq!(days_from_civil(2026, 1, 32), days_from_civil(2026, 2, 1));
    assert_eq!(days_from_civil(2026, 0, 1), days_from_civil(2025, 12, 1));
    assert_eq!(days_from_civil(2026, -10, 1), days_from_civil(2025, 3, 1) - 30);
}

#[test]
fn known_times() {
    assert_eq!(iso_to_epoch("1970-01-01T00:00:00Z"), Some(0));
    assert_eq!(iso_to_epoch("2026-07-01T12:34:56.000Z"), Some(20635 * 86400 + 45296));
    assert_eq!(iso_to_epoch("2001-09-09T01:46:40"), Some(1_000_000_000));
    assert_eq!(iso_to_epoch("1969-12-31 23.59.59é"), Some(-1));
}

#[test]
fn times_that_are_not_written_out() {
    assert_eq!(iso_to_epoch(""), None);
    assert_eq!(iso_to_epoch("2026-07-01"), None);
    assert_eq!(iso_to_epoch("2026-07-01T12:34:5"), None);
    assert_eq!(iso_to_epoch("2026-07-01T12:3x:56"), None);
    assert_eq!(iso_to_epoch("20é6-07-01T12:34:56"), None);
    assert_eq!(iso_to_epoch("2026é07-01T12:34:56"), None);
    assert_eq!(iso_to_epoch("2026-07-01T12:34: 6"), None);
}

#[test]
fn signs_are_read_as_the_standard_library_reads_them() {
    assert_eq!(iso_to_epoch("+970-+1-+1T+0:-0:+5"), Some(days_from_civil(970, 1, 1) * 86400 + 5));
    assert_eq!(iso_to_epoch("-001-01-01T-1:00:00"), Some(days_from_civil(-1, 1, 1) * 86400 - 3600));
}

#[test]
fn boundaries_are_those_of_the_characters() {
    let reference = |s: &str| -> Option<i64> {
        let f = |a: usize, b: usize| s.get(a..b).and_then(|x| x.parse::<i64>().ok());
        let (y, mo, d) = (f(0, 4)?, f(5, 7)?, f(8, 10)?);
        let (h, mi, se) = (f(11, 13)?, f(14, 16)?, f(17, 19)?);
        Some(days_from_civil(y, mo, d) * 86400 + h * 3600 + mi * 60 + se)
    };
    let plain: Vec<char> = "2026-07-01T12:34:56Z".chars().collect();
    for at in 0..plain.len() {
        for c in ['é', '♪', '+', '-', '0', '٣', ' '] {
            let mut changed = plain.clone();
            changed[at] = c;
            let s: String = changed.into_iter().collect();
            assert_eq!(iso_to_epoch(&s), reference(&s));
        }
    }
}
