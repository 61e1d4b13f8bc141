use pack_match::calendar::CalendarDate;
use pack_match::membership_log::{
    decode_date, decode_event, decode_operation, feed_dated_row, feed_row, replay_rows, LogError,
    LogFailure, LogField,
};
use pack_match::replay::{Operation, Progress, Replay};

fn row(fields: &[&str]) -> Vec<String> {
    fields.iter().map(|field| field.to_string()).collect()
}

fn day(year: i32, month: u32, day: u32) -> CalendarDate {
    CalendarDate { year, month, day }
}

fn sorted(mut ids: Vec<String>) -> Vec<String> {
    ids.sort();
    ids
}

#[test]
fn decode_operation_knows_two_codes() {
    assert_eq!(decode_operation(&"c".to_string()), Some(Operation::Add));
    assert_eq!(decode_operation(&"d".to_string()), Some(Operation::Remove));
    assert_eq!(decode_operation(&"".to_string()), None);
    assert_eq!(decode_operation(&"C".to_string()), None);
    assert_eq!(decode_operation(&"cd".to_string()), None);
    assert_eq!(decode_operation(&"u".to_string()), None);
    assert_eq!(decode_operation(&" c".to_string()), None);
    assert_eq!(decode_operation(&"ç".to_string()), None);
}

#[test]
fn decode_date_reads_the_day_of_a_timestamp() {
    assert_eq!(decode_date(&row(&["2024-03-05T10:00:00Z"])), Ok(day(2024, 3, 5)));
    assert_eq!(decode_date(&row(&["2024-12-31T23:59:59.999Z", "c"])), Ok(day(2024, 12, 31)));
    assert_eq!(decode_date(&row(&["1999-01-01 00:00:00+00:00"])), Ok(day(1999, 1, 1)));
}

#[test]
fn decode_date_takes_the_day_in_the_offset_of_the_timestamp() {
    // Half past eleven at night, five hours behind UTC: the next day in UTC.
    assert_eq!(decode_date(&row(&["2024-03-05T23:30:00-05:00"])), Ok(day(2024, 3, 5)));
    // Half past midnight, two hours ahead of UTC: the day before in UTC.
    assert_eq!(decode_date(&row(&["2024-03-05T00:30:00+02:00"])), Ok(day(2024, 3, 5)));
}

#[test]
fn decode_date_rejects_what_is_not_a_timestamp() {
    assert_eq!(decode_date(&row(&[])), Err(LogError::MissingField(LogField::Date)));
    assert_eq!(decode_date(&row(&[""])), Err(LogError::MalformedTimestamp));
    assert_eq!(decode_date(&row(&["2024-03-05"])), Err(LogError::MalformedTimestamp));
    assert_eq!(decode_date(&row(&["2024-02-30T10:00:00Z"])), Err(LogError::MalformedTimestamp));
    assert_eq!(decode_date(&row(&["2024-03-05T10:00:00"])), Err(LogError::MalformedTimestamp));
    assert_eq!(decode_date(&row(&["yesterday"])), Err(LogError::MalformedTimestamp));
}

#[test]
fn decode_event_reads_operation_member_and_list() {
    let event =
        decode_event(&row(&["ignored", "c", "did:plc:m1", "at://list/1"]), day(2024, 3, 5))
            .unwrap();
    assert_eq!(event.date, day(2024, 3, 5));
    assert_eq!(event.operation, Operation::Add);
    assert_eq!(event.member, "did:plc:m1");
    assert_eq!(event.list, "at://list/1");
    let event = decode_event(&row(&["", "d", "m", "l", "more"]), day(2000, 1, 1)).unwrap();
    assert_eq!(event.operation, Operation::Remove);
}

#[test]
fn decode_event_names_the_first_missing_field() {
    let date = day(2024, 3, 5);
    assert_eq!(
        decode_event(&row(&["t"]), date).unwrap_err(),
        LogError::MissingField(LogField::Operation)
    );
    assert_eq!(
        decode_event(&row(&["t", "x"]), date).unwrap_err(),
        LogError::MissingField(LogField::Member)
    );
    assert_eq!(
        decode_event(&row(&["t", "x", "m"]), date).unwrap_err(),
        LogError::MissingField(LogField::List)
    );
    assert_eq!(decode_event(&row(&["t", "x", "m", "l"]), date).unwrap_err(), LogError::UnknownOperation);
}

#[test]
fn replay_rows_builds_the_snapshot() {
    let rows = vec![
        row(&["2024-05-01T08:00:00Z", "c", "m1", "L1"]),
        row(&["2024-05-01T09:00:00Z", "c", "m2", "L1"]),
        row(&["2024-05-02T09:00:00Z", "c", "m1", "L2"]),
        row(&["2024-05-03T09:00:00Z", "d", "m2", "L1"]),
        row(&["2024-05-03T10:00:00Z", "d", "m5", "L1"]),
    ];
    let out = replay_rows(&rows, day(2024, 5, 3)).unwrap();
    assert_eq!(out.packs.len(), 2);
    assert_eq!(out.packs[0].uri, "L1");
    assert_eq!(sorted(out.packs[0].participants.to_vec()), vec!["m1".to_string()]);
    assert_eq!(out.packs[1].uri, "L2");
    assert_eq!(sorted(out.packs[1].participants.to_vec()), vec!["m1".to_string()]);
    assert_eq!(out.absent_removals, vec![4]);
}

#[test]
fn replay_rows_with_cutoff_between_removal_and_second_addition() {
    let rows = vec![
        row(&["2024-05-01T08:00:00Z", "c", "m1", "L1"]),
        row(&["2024-05-03T08:00:00Z", "d", "m1", "L1"]),
        row(&["2024-05-07T08:00:00Z", "c", "m1", "L1"]),
    ];
    let out = replay_rows(&rows, day(2024, 5, 5)).unwrap();
    assert!(out.packs.is_empty());
    let later = replay_rows(&rows, day(2024, 5, 7)).unwrap();
    assert_eq!(later.packs.len(), 1);
    assert_eq!(later.packs[0].participants.to_vec(), vec!["m1".to_string()]);
}

#[test]
fn replay_rows_does_not_look_behind_the_cutoff() {
    let rows = vec![
        row(&["2024-05-01T08:00:00Z", "c", "m1", "L1"]),
        row(&["2024-05-09T08:00:00Z"]),
        row(&["not a timestamp", "c", "m2", "L1"]),
        row(&["2024-05-02T08:00:00Z", "?", "m3", "L1"]),
    ];
    let out = replay_rows(&rows, day(2024, 5, 5)).unwrap();
    assert_eq!(out.packs.len(), 1);
    assert_eq!(out.packs[0].participants.to_vec(), vec!["m1".to_string()]);
}

#[test]
fn replay_rows_fails_at_the_first_unreadable_row() {
    let cutoff = day(2024, 5, 5);
    let good = row(&["2024-05-01T08:00:00Z", "c", "m1", "L1"]);
    let failure = |bad: Vec<String>| replay_rows(&vec![good.clone(), bad, row(&[])], cutoff).unwrap_err();
    assert_eq!(
        failure(row(&[])),
        LogFailure { row: 1, error: LogError::MissingField(LogField::Date) }
    );
    assert_eq!(
        failure(row(&["2024-05-01"])),
        LogFailure { row: 1, error: LogError::MalformedTimestamp }
    );
    assert_eq!(
        failure(row(&["2024-05-01T08:00:00Z"])),
        LogFailure { row: 1, error: LogError::MissingField(LogField::Operation) }
    );
    assert_eq!(
        failure(row(&["2024-05-01T08:00:00Z", "c"])),
        LogFailure { row: 1, error: LogError::MissingField(LogField::Member) }
    );
    assert_eq!(
        failure(row(&["2024-05-01T08:00:00Z", "c", "m"])),
        LogFailure { row: 1, error: LogError::MissingField(LogField::List) }
    );
    assert_eq!(
        failure(row(&["2024-05-01T08:00:00Z", "x", "m", "l"])),
        LogFailure { row: 1, error: LogError::UnknownOperation }
    );
}

#[test]
fn feed_row_reads_one_row_at_a_time() {
    let mut state = Replay::new(day(2024, 5, 5));
    assert_eq!(
        feed_row(&mut state, &row(&["2024-05-01T08:00:00Z", "c", "m1", "L1"])),
        Ok(Progress::Applied)
    );
    assert_eq!(
        feed_row(&mut state, &row(&["2024-05-01T08:00:00Z", "d", "m2", "L1"])),
        Ok(Progress::AbsentRemoval)
    );
    assert_eq!(
        feed_row(&mut state, &row(&["2024-05-01T08:00:00Z", "z", "m2", "L1"])),
        Err(LogError::UnknownOperation)
    );
    assert!(!state.is_stopped());
    assert_eq!(
        feed_row(&mut state, &row(&["2024-05-06T00:00:00Z", "z"])),
        Ok(Progress::PastCutoff)
    );
    assert!(state.is_stopped());
    assert_eq!(feed_row(&mut state, &row(&[])), Ok(Progress::PastCutoff));
    let packs = state.finish();
    assert_eq!(packs.len(), 1);
    assert_eq!(packs[0].uri, "L1");
    assert_eq!(packs[0].participants.to_vec(), vec!["m1".to_string()]);
}

#[test]
fn row_on_the_cutoff_day_in_its_own_offset_is_read() {
    // In UTC this instant falls on the sixth, in its own offset on the fifth.
    let rows = vec![row(&["2024-05-05T23:00:00-03:00", "c", "m1", "L1"])];
    let out = replay_rows(&rows, day(2024, 5, 5)).unwrap();
    assert_eq!(out.packs.len(), 1);
}

#[test]
fn feed_dated_row_goes_by_the_date_it_is_given() {
    let mut state = Replay::new(day(2024, 5, 5));
    let first = row(&["no timestamp at all", "c", "m1", "L1"]);
    assert_eq!(feed_dated_row(&mut state, &first, day(2024, 5, 5)), Ok(Progress::Applied));
    assert_eq!(
        feed_dated_row(&mut state, &row(&["", "d", "m2", "L1"]), day(2024, 5, 5)),
        Ok(Progress::AbsentRemoval)
    );
    assert_eq!(
        feed_dated_row(&mut state, &row(&["", "c", "m2"]), day(2024, 5, 4)),
        Err(LogError::MissingField(LogField::List))
    );
    assert_eq!(
        feed_dated_row(&mut state, &row(&["", "q", "m2", "L1"]), day(2024, 5, 4)),
        Err(LogError::UnknownOperation)
    );
    assert!(!state.is_stopped());
    assert_eq!(
        feed_dated_row(&mut state, &row(&["", "q"]), day(2024, 5, 6)),
        Ok(Progress::PastCutoff)
    );
    assert!(state.is_stopped());
    assert_eq!(
        feed_dated_row(&mut state, &row(&["", "c", "m3", "L1"]), day(2024, 5, 1)),
        Ok(Progress::PastCutoff)
    );
    let packs = state.finish();
    assert_eq!(packs.len(), 1);
    assert_eq!(packs[0].participants.to_vec(), vec!["m1".to_string()]);
}
