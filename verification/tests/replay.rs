use pack_match::calendar::CalendarDate;
use pack_match::replay::{
    dates_ascend, replay, MembershipEvent, Operation, Progress, Replay,
};
use pack_match::score::StarterPack;

fn day(year: i32, month: u32, day: u32) -> CalendarDate {
    CalendarDate { year, month, day }
}

fn event(date: CalendarDate, operation: Operation, member: &str, list: &str) -> MembershipEvent {
    MembershipEvent { date, operation, member: member.to_string(), list: list.to_string() }
}

fn members_of(packs: &[StarterPack], uri: &str) -> Option<Vec<String>> {
    let found: Vec<&StarterPack> = packs.iter().filter(|pack| pack.uri == uri).collect();
    assert!(found.len() <= 1);
    found.first().map(|pack| {
        let mut ids = pack.participants.to_vec();
        ids.sort();
        ids
    })
}

#[test]
fn is_after_compares_year_then_month_then_day() {
    assert!(day(2024, 1, 1).is_after(&day(2023, 12, 31)));
    assert!(day(2024, 2, 1).is_after(&day(2024, 1, 31)));
    assert!(day(2024, 2, 2).is_after(&day(2024, 2, 1)));
    assert!(!day(2024, 2, 1).is_after(&day(2024, 2, 1)));
    assert!(!day(2023, 12, 31).is_after(&day(2024, 1, 1)));
    assert!(!day(2024, 1, 31).is_after(&day(2024, 2, 1)));
    assert!(!day(-1, 12, 31).is_after(&day(0, 1, 1)));
}

#[test]
fn member_added_and_not_removed_is_in_the_snapshot() {
    let out = replay(
        vec![
            event(day(2024, 5, 1), Operation::Add, "m1", "L1"),
            event(day(2024, 5, 2), Operation::Add, "m2", "L1"),
            event(day(2024, 5, 3), Operation::Add, "m1", "L2"),
        ],
        day(2024, 5, 3),
    );
    assert_eq!(out.packs.len(), 2);
    assert_eq!(members_of(&out.packs, "L1"), Some(vec!["m1".to_string(), "m2".to_string()]));
    assert_eq!(members_of(&out.packs, "L2"), Some(vec!["m1".to_string()]));
    assert!(out.absent_removals.is_empty());
}

#[test]
fn member_added_again_after_the_cutoff_is_absent() {
    let out = replay(
        vec![
            event(day(2024, 5, 1), Operation::Add, "m1", "L1"),
            event(day(2024, 5, 3), Operation::Remove, "m1", "L1"),
            event(day(2024, 5, 7), Operation::Add, "m1", "L1"),
        ],
        day(2024, 5, 5),
    );
    assert_eq!(members_of(&out.packs, "L1"), None);
    assert!(out.packs.is_empty());
    assert!(out.absent_removals.is_empty());
}

#[test]
fn removed_member_is_absent_and_the_others_stay() {
    let out = replay(
        vec![
            event(day(2024, 5, 1), Operation::Add, "m1", "L1"),
            event(day(2024, 5, 1), Operation::Add, "m2", "L1"),
            event(day(2024, 5, 2), Operation::Remove, "m1", "L1"),
        ],
        day(2024, 5, 2),
    );
    assert_eq!(members_of(&out.packs, "L1"), Some(vec!["m2".to_string()]));
}

#[test]
fn change_on_the_cutoff_day_counts() {
    let out = replay(
        vec![
            event(day(2024, 5, 5), Operation::Add, "m1", "L1"),
            event(day(2024, 5, 6), Operation::Add, "m2", "L1"),
        ],
        day(2024, 5, 5),
    );
    assert_eq!(members_of(&out.packs, "L1"), Some(vec!["m1".to_string()]));
}

#[test]
fn nothing_is_read_behind_the_first_late_change() {
    // The log is not sorted: the third change is dated before the cutoff but
    // stands behind one that is dated after it.
    let out = replay(
        vec![
            event(day(2024, 5, 1), Operation::Add, "m1", "L1"),
            event(day(2024, 6, 1), Operation::Add, "m2", "L1"),
            event(day(2024, 5, 2), Operation::Add, "m3", "L1"),
            event(day(2024, 5, 2), Operation::Remove, "m1", "L1"),
        ],
        day(2024, 5, 5),
    );
    assert_eq!(members_of(&out.packs, "L1"), Some(vec!["m1".to_string()]));
}

#[test]
fn removing_an_absent_member_is_reported_and_changes_nothing() {
    let out = replay(
        vec![
            event(day(2024, 5, 1), Operation::Add, "m1", "L1"),
            event(day(2024, 5, 2), Operation::Remove, "m9", "L1"),
            event(day(2024, 5, 2), Operation::Remove, "m1", "L7"),
            event(day(2024, 5, 3), Operation::Add, "m2", "L1"),
            event(day(2024, 5, 4), Operation::Remove, "m2", "L1"),
            event(day(2024, 5, 4), Operation::Remove, "m2", "L1"),
        ],
        day(2024, 5, 5),
    );
    assert_eq!(out.packs.len(), 1);
    assert_eq!(members_of(&out.packs, "L1"), Some(vec!["m1".to_string()]));
    assert_eq!(out.absent_removals, vec![1, 2, 5]);
}

#[test]
fn adding_a_member_twice_keeps_one() {
    let out = replay(
        vec![
            event(day(2024, 5, 1), Operation::Add, "m1", "L1"),
            event(day(2024, 5, 2), Operation::Add, "m1", "L1"),
        ],
        day(2024, 5, 5),
    );
    assert_eq!(members_of(&out.packs, "L1"), Some(vec!["m1".to_string()]));
    assert_eq!(out.packs[0].participants.len(), 1);
}

#[test]
fn pack_that_ends_up_empty_is_dropped() {
    let out = replay(
        vec![
            event(day(2024, 5, 1), Operation::Add, "m1", "L1"),
            event(day(2024, 5, 1), Operation::Add, "m1", "L2"),
            event(day(2024, 5, 2), Operation::Remove, "m1", "L1"),
        ],
        day(2024, 5, 5),
    );
    assert_eq!(out.packs.len(), 1);
    assert_eq!(out.packs[0].uri, "L2");
}

#[test]
fn empty_log_gives_an_empty_snapshot() {
    let out = replay(Vec::new(), day(2024, 5, 5));
    assert!(out.packs.is_empty());
    assert!(out.absent_removals.is_empty());
}

#[test]
fn apply_reports_what_each_change_did() {
    let mut state = Replay::new(day(2024, 5, 5));
    assert_eq!(state.cutoff(), day(2024, 5, 5));
    assert!(!state.is_stopped());
    assert_eq!(state.apply(event(day(2024, 5, 1), Operation::Add, "m1", "L1")), Progress::Applied);
    assert_eq!(state.apply(event(day(2024, 5, 1), Operation::Add, "m1", "L1")), Progress::Applied);
    assert_eq!(
        state.apply(event(day(2024, 5, 2), Operation::Remove, "m2", "L1")),
        Progress::AbsentRemoval
    );
    assert_eq!(
        state.apply(event(day(2024, 5, 2), Operation::Remove, "m1", "L1")),
        Progress::Applied
    );
    assert_eq!(
        state.apply(event(day(2024, 5, 2), Operation::Remove, "m1", "L1")),
        Progress::AbsentRemoval
    );
    assert!(!state.is_stopped());
    assert_eq!(
        state.apply(event(day(2024, 5, 6), Operation::Add, "m3", "L1")),
        Progress::PastCutoff
    );
    assert!(state.is_stopped());
    assert_eq!(
        state.apply(event(day(2024, 5, 1), Operation::Add, "m4", "L1")),
        Progress::PastCutoff
    );
    assert!(state.finish().is_empty());
}

#[test]
fn stop_ends_a_replay() {
    let mut state = Replay::new(day(2024, 5, 5));
    assert_eq!(state.apply(event(day(2024, 5, 1), Operation::Add, "m1", "L1")), Progress::Applied);
    state.stop();
    assert!(state.is_stopped());
    assert_eq!(
        state.apply(event(day(2024, 5, 1), Operation::Add, "m2", "L1")),
        Progress::PastCutoff
    );
    let packs = state.finish();
    assert_eq!(members_of(&packs, "L1"), Some(vec!["m1".to_string()]));
}

#[test]
fn many_packs_are_kept_apart() {
    let mut events = Vec::new();
    for i in 0..300 {
        events.push(event(day(2024, 5, 1), Operation::Add, "m1", &format!("at://list/{}", i)));
        events.push(event(day(2024, 5, 1), Operation::Add, "m2", &format!("at://list/{}", i)));
    }
    for i in 0..300 {
        if i % 3 == 0 {
            events.push(event(day(2024, 5, 2), Operation::Remove, "m1", &format!("at://list/{}", i)));
            events.push(event(day(2024, 5, 2), Operation::Remove, "m2", &format!("at://list/{}", i)));
        } else if i % 3 == 1 {
            events.push(event(day(2024, 5, 2), Operation::Remove, "m2", &format!("at://list/{}", i)));
        }
    }
    let out = replay(events, day(2024, 5, 2));
    assert_eq!(out.packs.len(), 200);
    assert!(out.absent_removals.is_empty());
    for i in 0..300 {
        let expected = match i % 3 {
            0 => None,
            1 => Some(vec!["m1".to_string()]),
            _ => Some(vec!["m1".to_string(), "m2".to_string()]),
        };
        assert_eq!(members_of(&out.packs, &format!("at://list/{}", i)), expected);
    }
}

#[test]
fn dates_ascend_looks_at_neighbouring_changes() {
    assert!(dates_ascend(&Vec::new()));
    assert!(dates_ascend(&vec![event(day(2024, 5, 1), Operation::Add, "m", "L")]));
    assert!(dates_ascend(&vec![
        event(day(2024, 5, 1), Operation::Add, "m", "L"),
        event(day(2024, 5, 1), Operation::Remove, "m", "L"),
        event(day(2024, 6, 1), Operation::Add, "m", "L"),
        event(day(2025, 1, 1), Operation::Add, "n", "L"),
    ]));
    assert!(!dates_ascend(&vec![
        event(day(2024, 5, 1), Operation::Add, "m", "L"),
        event(day(2024, 5, 3), Operation::Remove, "m", "L"),
        event(day(2024, 5, 2), Operation::Add, "m", "L"),
        event(day(2024, 5, 4), Operation::Add, "n", "L"),
    ]));
}
