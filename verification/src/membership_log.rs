//! Reading the log of membership changes row by row.
//!
//! A row holds, in this order, an RFC 3339 timestamp, the operation (`c` for
//! an account that joins a pack, `d` for one that leaves), the account and
//! the pack. The date is read first: a row dated after the cutoff ends the
//! replay whatever else it holds.

use vstd::prelude::*;
use vstd::string::StrSliceExecFns;
use crate::calendar::{rfc3339_date, timestamp_date, CalendarDate};
use crate::members::texts_of;
use crate::replay::{
    is_snapshot, memberships_of, progress_of, start, step, EventView, MembershipEvent, Operation,
    Progress, Replay, ReplayOutcome, ReplayView,
};

verus! {

/// A field of a row of the log.
#[derive(Clone, Copy, Debug, PartialEq, Eq)]
pub enum LogField {
    Date,
    Operation,
    Member,
    List,
}

/// Why a row of the log cannot be read.
#[derive(Clone, Copy, Debug, PartialEq, Eq)]
pub enum LogError {
    /// The row is too short to hold the field.
    MissingField(LogField),
    /// The first field is not an RFC 3339 timestamp.
    MalformedTimestamp,
    /// The operation is neither `c` nor `d`.
    UnknownOperation,
}

/// A row that cannot be read, and why.
#[derive(Clone, Copy, Debug, PartialEq, Eq)]
pub struct LogFailure {
    pub row: usize,
    pub error: LogError,
}

/// The operation that a code stands for.
pub open spec fn operation_of(code: Seq<char>) -> Option<Operation> {
    if code == seq!['c'] {
        Some(Operation::Add)
    } else if code == seq!['d'] {
        Some(Operation::Remove)
    } else {
        None
    }
}

/// The date of a row.
pub open spec fn row_date(row: Seq<Seq<char>>) -> Result<CalendarDate, LogError> {
    if row.len() < 1 {
        Err(LogError::MissingField(LogField::Date))
    } else {
        match rfc3339_date(row[0]) {
            Some((year, month, day)) => Ok(CalendarDate { year, month, day }),
            None => Err(LogError::MalformedTimestamp),
        }
    }
}

/// The change that a row with the date `date` describes.
pub open spec fn row_event(row: Seq<Seq<char>>, date: CalendarDate) -> Result<
    EventView,
    LogError,
> {
    if row.len() < 2 {
        Err(LogError::MissingField(LogField::Operation))
    } else if row.len() < 3 {
        Err(LogError::MissingField(LogField::Member))
    } else if row.len() < 4 {
        Err(LogError::MissingField(LogField::List))
    } else {
        match operation_of(row[1]) {
            Some(operation) => Ok(EventView { date, operation, member: row[2], list: row[3] }),
            None => Err(LogError::UnknownOperation),
        }
    }
}

/// The state after one more row whose date is `date`, with what the row
/// reports, or the reason why the row cannot be read. A row dated after the
/// cutoff ends the replay; the rest of such a row is not looked at, and once
/// the replay has ended no row is.
pub open spec fn feed_dated(state: ReplayView, row: Seq<Seq<char>>, date: CalendarDate) -> Result<
    (ReplayView, Progress),
    LogError,
> {
    if state.stopped {
        Ok((state, Progress::PastCutoff))
    } else if date.later_than(state.cutoff) {
        Ok((ReplayView { stopped: true, ..state }, Progress::PastCutoff))
    } else {
        match row_event(row, date) {
            Err(error) => Err(error),
            Ok(event) => Ok((step(state, event), progress_of(state, event))),
        }
    }
}

/// The state after one more row, with what the row reports, or the reason
/// why the row cannot be read. Once the replay has ended, rows are not
/// looked at.
pub open spec fn feed(state: ReplayView, row: Seq<Seq<char>>) -> Result<
    (ReplayView, Progress),
    LogError,
> {
    if state.stopped {
        Ok((state, Progress::PastCutoff))
    } else {
        match row_date(row) {
            Err(error) => Err(error),
            Ok(date) => feed_dated(state, row, date),
        }
    }
}

/// The rows of a log as sequences of texts.
pub open spec fn rows_of(rows: Seq<Vec<String>>) -> Seq<Seq<Seq<char>>> {
    Seq::new(rows.len(), |i: int| texts_of(rows[i]@))
}

/// The state after a sequence of rows, or the first row that cannot be read.
pub open spec fn run_rows(cutoff: CalendarDate, rows: Seq<Seq<Seq<char>>>) -> Result<
    ReplayView,
    LogFailure,
>
    decreases rows.len(),
{
    if rows.len() == 0 {
        Ok(start(cutoff))
    } else {
        match run_rows(cutoff, rows.drop_last()) {
            Err(failure) => Err(failure),
            Ok(state) => match feed(state, rows.last()) {
                Err(error) => Err(LogFailure { row: (rows.len() - 1) as usize, error }),
                Ok((next, _)) => Ok(next),
            },
        }
    }
}

/// The positions, in rising order, of the rows that removed an account that
/// was not a member, for a log that can be read.
pub open spec fn absent_removal_rows(cutoff: CalendarDate, rows: Seq<Seq<Seq<char>>>) -> Seq<usize>
    decreases rows.len(),
{
    if rows.len() == 0 {
        Seq::empty()
    } else {
        let earlier = absent_removal_rows(cutoff, rows.drop_last());
        match run_rows(cutoff, rows.drop_last()) {
            Ok(state) => match feed(state, rows.last()) {
                Ok((_, Progress::AbsentRemoval)) => earlier.push((rows.len() - 1) as usize),
                _ => earlier,
            },
            Err(_) => earlier,
        }
    }
}

/// Reads an operation code.
pub fn decode_operation(code: &String) -> (r: Option<Operation>)
    ensures
        r == operation_of(code@),
{
    let text = code.as_str();
    if text.unicode_len() != 1 {
        return None;
    }
    let c = text.get_char(0);
    if c == 'c' {
        assert(code@ =~= seq!['c']);
        Some(Operation::Add)
    } else if c == 'd' {
        assert(code@ =~= seq!['d']);
        Some(Operation::Remove)
    } else {
        None
    }
}

/// Reads the date of a row from its first field.
pub fn decode_date(row: &Vec<String>) -> (r: Result<CalendarDate, LogError>)
    ensures
        r == row_date(texts_of(row@)),
{
    if row.len() < 1 {
        return Err(LogError::MissingField(LogField::Date));
    }
    match timestamp_date(row[0].as_str()) {
        Ok(date) => Ok(date),
        Err(_) => Err(LogError::MalformedTimestamp),
    }
}

/// Reads the change that a row describes; `date` is the date of the row.
pub fn decode_event(row: &Vec<String>, date: CalendarDate) -> (r: Result<
    MembershipEvent,
    LogError,
>)
    ensures
        match r {
            Ok(event) => row_event(texts_of(row@), date) == Ok::<EventView, LogError>(event@),
            Err(error) => row_event(texts_of(row@), date) == Err::<EventView, LogError>(error),
        },
{
    if row.len() < 2 {
        return Err(LogError::MissingField(LogField::Operation));
    }
    if row.len() < 3 {
        return Err(LogError::MissingField(LogField::Member));
    }
    if row.len() < 4 {
        return Err(LogError::MissingField(LogField::List));
    }
    match decode_operation(&row[1]) {
        Some(operation) => Ok(
            MembershipEvent { date, operation, member: row[2].clone(), list: row[3].clone() },
        ),
        None => Err(LogError::UnknownOperation),
    }
}

/// Reads into the replay one row whose date has been read already. A row
/// that cannot be read leaves the replay as it was.
pub fn feed_dated_row(state: &mut Replay, row: &Vec<String>, date: CalendarDate) -> (r: Result<
    Progress,
    LogError,
>)
    requires
        old(state).wf(),
    ensures
        final(state).wf(),
        match r {
            Ok(progress) => feed_dated(old(state)@, texts_of(row@), date) == Ok::<
                (ReplayView, Progress),
                LogError,
            >((final(state)@, progress)),
            Err(error) => final(state)@ == old(state)@ && feed_dated(
                old(state)@,
                texts_of(row@),
                date,
            ) == Err::<(ReplayView, Progress), LogError>(error),
        },
{
    if state.is_stopped() {
        return Ok(Progress::PastCutoff);
    }
    let cutoff = state.cutoff();
    if date.is_after(&cutoff) {
        state.stop();
        return Ok(Progress::PastCutoff);
    }
    match decode_event(row, date) {
        Ok(event) => Ok(state.apply(event)),
        Err(error) => Err(error),
    }
}

/// Reads one row into the replay. A row that cannot be read leaves the
/// replay as it was.
pub fn feed_row(state: &mut Replay, row: &Vec<String>) -> (r: Result<Progress, LogError>)
    requires
        old(state).wf(),
    ensures
        final(state).wf(),
        match r {
            Ok(progress) => feed(old(state)@, texts_of(row@)) == Ok::<
                (ReplayView, Progress),
                LogError,
            >((final(state)@, progress)),
            Err(error) => final(state)@ == old(state)@ && feed(old(state)@, texts_of(row@))
                == Err::<(ReplayView, Progress), LogError>(error),
        },
{
    if state.is_stopped() {
        return Ok(Progress::PastCutoff);
    }
    match decode_date(row) {
        Ok(date) => feed_dated_row(state, row, date),
        Err(error) => Err(error),
    }
}

/// Replays the rows of a log in their order up to `cutoff` and gives the
/// snapshot of all packs that have a member then, or the first row that
/// cannot be read.
pub fn replay_rows(rows: &Vec<Vec<String>>, cutoff: CalendarDate) -> (r: Result<
    ReplayOutcome,
    LogFailure,
>)
    ensures
        match r {
            Ok(out) => {
                &&& run_rows(cutoff, rows_of(rows@)) is Ok
                &&& is_snapshot(out.packs@)
                &&& memberships_of(out.packs@) == run_rows(
                    cutoff,
                    rows_of(rows@),
                )->Ok_0.memberships
                &&& out.absent_removals@ == absent_removal_rows(cutoff, rows_of(rows@))
            },
            Err(failure) => run_rows(cutoff, rows_of(rows@)) == Err::<ReplayView, LogFailure>(
                failure,
            ),
        },
{
    let ghost all = rows_of(rows@);
    let mut state = Replay::new(cutoff);
    let mut anomalies: Vec<usize> = Vec::new();
    let mut n: usize = 0;
    while n < rows.len()
        invariant
            n <= rows@.len(),
            all == rows_of(rows@),
            state.wf(),
            run_rows(cutoff, all.take(n as int)) == Ok::<ReplayView, LogFailure>(state@),
            anomalies@ == absent_removal_rows(cutoff, all.take(n as int)),
        decreases rows@.len() - n,
    {
        proof {
            assert(all.take(n + 1).drop_last() =~= all.take(n as int));
        }
        match feed_row(&mut state, &rows[n]) {
            Err(error) => {
                proof {
                    lemma_failure_is_final(cutoff, all, n + 1);
                }
                return Err(LogFailure { row: n, error });
            },
            Ok(Progress::AbsentRemoval) => {
                anomalies.push(n);
            },
            Ok(Progress::PastCutoff) => {
                proof {
                    lemma_stop_is_final(cutoff, all, n + 1);
                }
                return Ok(ReplayOutcome { packs: state.finish(), absent_removals: anomalies });
            },
            Ok(Progress::Applied) => {},
        }
        n += 1;
    }
    proof {
        assert(all.take(n as int) =~= all);
    }
    Ok(ReplayOutcome { packs: state.finish(), absent_removals: anomalies })
}

/// Once the replay has ended, the rows that follow change nothing and
/// report nothing.
proof fn lemma_stop_is_final(cutoff: CalendarDate, rows: Seq<Seq<Seq<char>>>, n: int)
    requires
        0 <= n <= rows.len(),
        run_rows(cutoff, rows.take(n)) is Ok,
        run_rows(cutoff, rows.take(n))->Ok_0.stopped,
    ensures
        run_rows(cutoff, rows) == run_rows(cutoff, rows.take(n)),
        absent_removal_rows(cutoff, rows) == absent_removal_rows(cutoff, rows.take(n)),
    decreases rows.len() - n,
{
    if n == rows.len() {
        assert(rows.take(n) =~= rows);
    } else {
        assert(rows.take(n + 1).drop_last() =~= rows.take(n));
        lemma_stop_is_final(cutoff, rows, n + 1);
    }
}

/// A row that cannot be read ends the replay with that failure, whatever
/// follows it.
proof fn lemma_failure_is_final(cutoff: CalendarDate, rows: Seq<Seq<Seq<char>>>, n: int)
    requires
        0 <= n <= rows.len(),
        run_rows(cutoff, rows.take(n)) is Err,
    ensures
        run_rows(cutoff, rows) == run_rows(cutoff, rows.take(n)),
    decreases rows.len() - n,
{
    if n == rows.len() {
        assert(rows.take(n) =~= rows);
    } else {
        assert(rows.take(n + 1).drop_last() =~= rows.take(n));
        lemma_failure_is_final(cutoff, rows, n + 1);
    }
}

} // verus!
