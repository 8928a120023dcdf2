use plumb_workspace::events::{EventEditError, EventShorthandError};
use plumb_workspace::shorthand::{
    compact_event_schedule, inferred_start, parse_event_shorthand, shorthand_context, shorthand_start, CalendarDate,
};

fn day(year: i32, month: u32, day: u32) -> CalendarDate {
    CalendarDate { year, month, day }
}

const OFFSET: i32 = 8 * 3600;

fn times(input: &str) -> Result<(String, Option<String>, Option<String>, Option<String>, usize), EventShorthandError> {
    parse_event_shorthand(input, day(2026, 3, 1), OFFSET, None)
        .map(|(event, start)| (event.title, event.at, event.start, event.end, start))
}

#[test]
fn a_time_and_title_make_a_point_event() {
    assert_eq!(
        times("09:30 Standup"),
        Ok(("Standup".to_string(), Some("2026-03-01T09:30:00+08:00".to_string()), None, None, 6))
    );
    assert_eq!(times("09:30 Café  ").unwrap().0, "Café");
}

#[test]
fn a_range_makes_an_interval_and_rolls_over_midnight() {
    assert_eq!(
        times("09:30--10:00  Sync  "),
        Ok((
            "Sync".to_string(),
            None,
            Some("2026-03-01T09:30:00+08:00".to_string()),
            Some("2026-03-01T10:00:00+08:00".to_string()),
            14
        ))
    );
    let night = times("23:00--01:00 Night").unwrap();
    assert_eq!(night.3.as_deref(), Some("2026-03-02T01:00:00+08:00"));
    let trip = times("2026-03-05T09:00--2026-03-06T10:00:30 Trip").unwrap();
    assert_eq!(trip.2.as_deref(), Some("2026-03-05T09:00:00+08:00"));
    assert_eq!(trip.3.as_deref(), Some("2026-03-06T10:00:30+08:00"));
}

#[test]
fn malformed_shorthands_are_refused() {
    assert_eq!(times("09:00--09:00 x"), Err(EventShorthandError::InvalidInterval));
    assert_eq!(times("09:00-- x"), Err(EventShorthandError::InvalidShorthand));
    assert_eq!(times("--09:00 x"), Err(EventShorthandError::InvalidShorthand));
    assert_eq!(times("09:00--10:00--11:00 x"), Err(EventShorthandError::InvalidShorthand));
    assert_eq!(times("0930 x"), Err(EventShorthandError::InvalidShorthand));
    assert_eq!(times("09:30"), Err(EventShorthandError::InvalidShorthand));
    assert_eq!(times("09:30   "), Err(EventShorthandError::InvalidShorthand));
    assert_eq!(times("2026-02-30T09:00 x"), Err(EventShorthandError::InvalidShorthand));
    assert_eq!(times("2026-03-01T09:00T10 x"), Err(EventShorthandError::InvalidShorthand));
}

#[test]
fn an_open_end_is_inferred_from_the_next_start() {
    let next = shorthand_start(&"10:15".chars().collect(), day(2026, 3, 1), OFFSET).unwrap();
    let (event, _) = parse_event_shorthand("09:00-- Block", day(2026, 3, 1), OFFSET, Some(next)).unwrap();
    assert_eq!(event.end.as_deref(), Some("2026-03-01T10:15:00+08:00"));
    let early = shorthand_start(&"08:00".chars().collect(), day(2026, 3, 1), OFFSET).unwrap();
    let (event, _) = parse_event_shorthand("22:00-- Late", day(2026, 3, 1), OFFSET, Some(early)).unwrap();
    assert_eq!(event.end.as_deref(), Some("2026-03-02T08:00:00+08:00"));
    let elsewhere = shorthand_start(&"10:15".chars().collect(), day(2026, 3, 1), 0).unwrap();
    assert_eq!(
        parse_event_shorthand("09:00-- Block", day(2026, 3, 1), OFFSET, Some(elsewhere)).map(|_| ()),
        Err(EventShorthandError::InvalidInterval)
    );
}

#[test]
fn document_dates_and_timezones_set_the_context() {
    let now = day(2026, 3, 1);
    assert_eq!(shorthand_context(now, 0, None, None), (now, 0));
    assert_eq!(shorthand_context(now, 0, Some("2026-04-01"), None), (day(2026, 4, 1), 0));
    assert_eq!(shorthand_context(now, 0, Some("2026-04-01T23:30:00-05:00"), None), (day(2026, 4, 1), -5 * 3600));
    assert_eq!(shorthand_context(now, 0, Some("2026-04-01"), Some("+02:00")), (day(2026, 4, 1), 7200));
    assert_eq!(shorthand_context(now, 3600, Some("soon"), Some("nowhere")), (now, 3600));
}

fn input(at: Option<&str>, start: Option<&str>, end: Option<&str>) -> plumb_workspace::events::EventInput {
    plumb_workspace::events::EventInput {
        title: "e".to_string(),
        at: at.map(|s| s.to_string()),
        start: start.map(|s| s.to_string()),
        end: end.map(|s| s.to_string()),
        tasks: vec![],
    }
}

#[test]
fn schedules_are_written_compactly() {
    let owned = |a: &str, b: &str, c: &str| Ok((a.to_string(), b.to_string(), c.to_string()));
    assert_eq!(compact_event_schedule(&input(Some("2026-03-01T09:30:00+08:00"), None, None)), owned("2026-03-01", "+08:00", "09:30"));
    assert_eq!(
        compact_event_schedule(&input(None, Some("2026-03-01T23:00:15+08:00"), Some("2026-03-02T01:00:00+08:00"))),
        owned("2026-03-01", "+08:00", "23:00:15--01:00")
    );
    assert_eq!(
        compact_event_schedule(&input(None, Some("2026-03-01T09:00:00Z"), Some("2026-03-03T10:00:00Z"))),
        owned("2026-03-01", "+00:00", "09:00--2026-03-03T10:00")
    );
    assert_eq!(
        compact_event_schedule(&input(None, Some("2026-03-01T09:00:00+08:00"), Some("2026-03-02T10:00:00+08:00"))),
        owned("2026-03-01", "+08:00", "09:00--2026-03-02T10:00")
    );
    assert_eq!(
        compact_event_schedule(&input(None, Some("2026-03-01T09:00:00-05:30"), Some("2026-03-01T10:00:00-05:30"))),
        owned("2026-03-01", "-05:30", "09:00--10:00")
    );
    assert_eq!(compact_event_schedule(&input(Some("bad"), None, None)), Err(EventEditError::InvalidDatetime));
    assert_eq!(compact_event_schedule(&input(None, None, None)), Err(EventEditError::InvalidTimeShape));
    assert_eq!(
        compact_event_schedule(&input(None, Some("2026-03-01T09:00:00Z"), None)),
        Err(EventEditError::InvalidTimeShape)
    );
}

#[test]
fn following_blocks_give_an_inferred_start() {
    let start = inferred_start("10:15 Next item", day(2026, 3, 1), OFFSET).unwrap();
    assert_eq!(start.time.seconds, 10 * 3600 + 15 * 60);
    assert!(!start.explicit_date);
    let ranged = inferred_start("10:15--11:00 Next", day(2026, 3, 1), OFFSET).unwrap();
    assert_eq!(ranged.time.seconds, 10 * 3600 + 15 * 60);
    let open_ended = inferred_start("2026-03-04T08:00-- Next", day(2026, 3, 1), OFFSET).unwrap();
    assert!(open_ended.explicit_date);
    assert_eq!(open_ended.date, day(2026, 3, 4));
    assert!(inferred_start("10:15", day(2026, 3, 1), OFFSET).is_none());
    assert!(inferred_start("10:15   ", day(2026, 3, 1), OFFSET).is_none());
    assert!(inferred_start("10:15--2026-03-02T11:00 Next", day(2026, 3, 1), OFFSET).is_none());
    assert!(inferred_start("10:15--11 Next", day(2026, 3, 1), OFFSET).is_some());
    assert!(inferred_start("10:15--1100 Next", day(2026, 3, 1), OFFSET).is_none());
    assert!(inferred_start("--11:00 Next", day(2026, 3, 1), OFFSET).is_none());
    assert!(inferred_start("lunch with team", day(2026, 3, 1), OFFSET).is_none());
}
