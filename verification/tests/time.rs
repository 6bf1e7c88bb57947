use gloss::commands::fresh_timestamp;
use gloss::edit_id::{edit_id_text, parse_edit_id};
use gloss::time::{timestamp, Timestamp};

#[test]
fn timestamps_print_with_the_digits_they_need() {
    let whole = Timestamp::parse("2026-08-28T18:42:11Z").unwrap();
    assert_eq!(timestamp(whole), "2026-08-28T18:42:11Z");
    let millis = Timestamp::parse("2026-08-28T18:42:11.250Z").unwrap();
    assert_eq!(millis.nanos, 250_000_000);
    assert_eq!(timestamp(millis), "2026-08-28T18:42:11.250Z");
    let offset = Timestamp::parse("2026-08-28T20:42:11+02:00").unwrap();
    assert_eq!(offset, whole);
    assert!(Timestamp::parse("yesterday").is_none());
}

#[test]
fn fresh_timestamps_move_forward() {
    let previous = Timestamp::parse("2026-08-28T18:42:11Z").unwrap();
    let earlier_clock = Timestamp::parse("2026-08-28T18:00:00Z").unwrap();
    let next = fresh_timestamp(earlier_clock, previous);
    assert_eq!(next, Timestamp { secs: previous.secs, nanos: 1 });
    let later_clock = Timestamp::parse("2026-08-28T19:00:00Z").unwrap();
    assert_eq!(fresh_timestamp(later_clock, previous), later_clock);
    let edge = Timestamp { secs: previous.secs, nanos: 999_999_999 };
    assert_eq!(
        fresh_timestamp(earlier_clock, edge),
        Timestamp { secs: previous.secs + 1, nanos: 0 }
    );
    assert!(previous.is_before(&next));
}

#[test]
fn edit_ids_print_hyphenated_lower_case() {
    let id = 0x0198f5cf48077ac3a42a938ff9b78220u128;
    assert_eq!(edit_id_text(id), "0198f5cf-4807-7ac3-a42a-938ff9b78220");
    assert_eq!(parse_edit_id("0198F5CF-4807-7AC3-A42A-938FF9B78220"), Some(id));
    assert_eq!(parse_edit_id("not-a-uuid"), None);
}

#[test]
fn instants_outside_four_digit_years_and_leap_seconds_read_back() {
    let far = Timestamp { secs: 253402300800, nanos: 0 };
    assert_eq!(timestamp(far), "+10000-01-01T00:00:00Z");
    assert_eq!(Timestamp::parse(&timestamp(far)), Some(far));
    let before_zero = Timestamp { secs: -62167219201, nanos: 0 };
    assert_eq!(timestamp(before_zero), "-0001-12-31T23:59:59Z");
    assert_eq!(Timestamp::parse(&timestamp(before_zero)), Some(before_zero));
    let leap = Timestamp { secs: 1483228799, nanos: 1_500_000_000 };
    assert_eq!(timestamp(leap), "2016-12-31T23:59:60.500Z");
    assert_eq!(Timestamp::parse(&timestamp(leap)), Some(leap));
    assert_eq!(timestamp(Timestamp { secs: i64::MAX, nanos: 0 }), "");
}

#[test]
fn gloss_headers_keep_far_and_leap_instants() {
    for t in [
        Timestamp { secs: 253402300800, nanos: 0 },
        Timestamp { secs: 1483228799, nanos: 1_000_000_000 },
    ] {
        let text = gloss::format::GlossFile::empty(t, "codex").render();
        let back = gloss::format::GlossFile::parse(&text, "a.gloss").unwrap();
        assert_eq!(back.updated, t);
        assert_eq!(back.render(), text);
    }
}
