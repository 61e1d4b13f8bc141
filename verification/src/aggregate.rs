//! Grouping follow records into batches.
//!
//! A record says that, as part of the batch with a given sequence number, one
//! account was followed. The accounts of all records with the same sequence
//! number form the target set of that batch; the order of the records does
//! not matter.

use std::collections::HashMap;
use vstd::prelude::*;
use crate::decimal::{parse_i64, parsed_i64};
use crate::members::{texts_of, MemberSet};

verus! {

/// One follow: as part of batch `seq`, the account `followee` was followed.
#[derive(Debug)]
pub struct FollowRecord {
    pub seq: i64,
    pub followee: String,
}

impl View for FollowRecord {
    type V = (i64, Seq<char>);

    open spec fn view(&self) -> (i64, Seq<char>) {
        (self.seq, self.followee@)
    }
}

/// The accounts that were followed together under one sequence number.
#[derive(Debug)]
pub struct MultiFollowBatch {
    pub seq: i64,
    pub followed: MemberSet,
}

/// The account `pair.1` was followed as part of `batch`, and `pair.0` is the
/// sequence number of that batch.
pub open spec fn lists_follow(batch: MultiFollowBatch, pair: (i64, Seq<char>)) -> bool {
    batch.seq == pair.0 && batch.followed@.contains(pair.1)
}

/// Who was followed in which batch according to `batches`, as pairs of
/// sequence number and account.
pub open spec fn follows_of(batches: Seq<MultiFollowBatch>) -> Set<(i64, Seq<char>)> {
    Set::new(
        |pair: (i64, Seq<char>)|
            exists|k: int| 0 <= k < batches.len() && lists_follow(#[trigger] batches[k], pair),
    )
}

/// `batches` is a grouping: well-formed target sets, none of them empty, and
/// no sequence number twice.
pub open spec fn is_grouping(batches: Seq<MultiFollowBatch>) -> bool {
    &&& forall|i: int| 0 <= i < batches.len() ==> (#[trigger] batches[i]).followed.wf()
    &&& forall|i: int| 0 <= i < batches.len() ==> (#[trigger] batches[i]).followed@.len() > 0
    &&& forall|i: int, j: int|
        #![trigger batches[i], batches[j]]
        0 <= i < j < batches.len() ==> batches[i].seq != batches[j].seq
}

/// The values of a vector of records.
pub open spec fn records_of(records: Seq<FollowRecord>) -> Seq<(i64, Seq<char>)> {
    Seq::new(records.len(), |i: int| records[i]@)
}

/// `index` says for every sequence number where its batch stands in
/// `batches`, and holds nothing else.
spec fn is_index_of(index: Map<i64, usize>, batches: Seq<MultiFollowBatch>) -> bool {
    &&& forall|seq: i64| #[trigger]
        index.contains_key(seq) ==> index[seq] < batches.len() && batches[index[seq] as int].seq
            == seq
    &&& forall|k: int|
        0 <= k < batches.len() ==> index.contains_key((#[trigger] batches[k]).seq)
            && index[batches[k].seq] == k
}

/// A grouping that records can be added to.
#[derive(Debug)]
pub struct Aggregator {
    batches: Vec<MultiFollowBatch>,
    index: HashMap<i64, usize>,
}

impl View for Aggregator {
    type V = Set<(i64, Seq<char>)>;

    closed spec fn view(&self) -> Set<(i64, Seq<char>)> {
        follows_of(self.batches@)
    }
}

impl Aggregator {
    /// The batches so far form a grouping, and each is found through the
    /// index.
    pub closed spec fn wf(&self) -> bool {
        is_grouping(self.batches@) && is_index_of(self.index@, self.batches@)
    }

    /// A grouping without records.
    pub fn new() -> (r: Aggregator)
        ensures
            r.wf(),
            r@ == Set::<(i64, Seq<char>)>::empty(),
    {
        Aggregator { batches: Vec::new(), index: HashMap::new() }
    }

    /// Position of the batch with the sequence number `seq`.
    fn find_batch(&self, seq: i64) -> (r: Option<usize>)
        requires
            self.wf(),
        ensures
            match r {
                Some(k) => k < self.batches@.len() && self.batches@[k as int].seq == seq,
                None => forall|j: int|
                    0 <= j < self.batches@.len() ==> (#[trigger] self.batches@[j]).seq != seq,
            },
    {
        match self.index.get(&seq) {
            Some(k) => Some(*k),
            None => None,
        }
    }

    /// Adds one record. A record that was added before changes nothing.
    pub fn add(&mut self, record: FollowRecord)
        requires
            old(self).wf(),
        ensures
            final(self).wf(),
            final(self)@ == old(self)@.insert(record@),
    {
        let ghost before = self.batches@;
        let ghost pair = record@;
        match self.find_batch(record.seq) {
            Some(k) => {
                let batch = &mut self.batches[k];
                batch.followed.insert(record.followee);
                proof {
                    let after = self.batches@;
                    after[k as int].followed.lemma_view_finite();
                    lemma_follow_added(before, after, k as int, pair);
                }
            },
            None => {
                let mut followed = MemberSet::new();
                followed.insert(record.followee);
                self.index.insert(record.seq, self.batches.len());
                self.batches.push(MultiFollowBatch { seq: record.seq, followed });
                proof {
                    lemma_batch_started(before, self.batches@, pair);
                }
            },
        }
    }

    /// The batches, one for each sequence number that a record named.
    pub fn finish(self) -> (batches: Vec<MultiFollowBatch>)
        requires
            self.wf(),
        ensures
            is_grouping(batches@),
            follows_of(batches@) == self@,
    {
        self.batches
    }
}

/// Adding an account to batch number `k` adds that one follow.
proof fn lemma_follow_added(
    before: Seq<MultiFollowBatch>,
    after: Seq<MultiFollowBatch>,
    k: int,
    pair: (i64, Seq<char>),
)
    requires
        is_grouping(before),
        0 <= k < before.len(),
        after.len() == before.len(),
        forall|j: int| 0 <= j < before.len() && j != k ==> after[j] == before[j],
        after[k].seq == before[k].seq,
        before[k].seq == pair.0,
        after[k].followed.wf(),
        after[k].followed@.finite(),
        after[k].followed@ == before[k].followed@.insert(pair.1),
    ensures
        is_grouping(after),
        follows_of(after) == follows_of(before).insert(pair),
{
    assert(after[k].followed@.contains(pair.1));
    assert(follows_of(after) =~= follows_of(before).insert(pair));
}

/// A new batch with one account adds that one follow.
proof fn lemma_batch_started(
    before: Seq<MultiFollowBatch>,
    after: Seq<MultiFollowBatch>,
    pair: (i64, Seq<char>),
)
    requires
        is_grouping(before),
        forall|j: int| 0 <= j < before.len() ==> (#[trigger] before[j]).seq != pair.0,
        after.len() == before.len() + 1,
        forall|j: int| 0 <= j < before.len() ==> after[j] == before[j],
        after[before.len() as int].seq == pair.0,
        after[before.len() as int].followed.wf(),
        after[before.len() as int].followed@ == set![pair.1],
    ensures
        is_grouping(after),
        follows_of(after) == follows_of(before).insert(pair),
{
    assert(follows_of(after) =~= follows_of(before).insert(pair));
}

/// Groups `records` into batches: one batch for each sequence number, with
/// every account that a record with that number names.
pub fn aggregate(records: Vec<FollowRecord>) -> (batches: Vec<MultiFollowBatch>)
    ensures
        is_grouping(batches@),
        follows_of(batches@) == records_of(records@).to_set(),
{
    let ghost all = records_of(records@);
    let mut grouping = Aggregator::new();
    for record in it: records
        invariant
            it.seq() == records@,
            all == records_of(records@),
            grouping.wf(),
            grouping@ == all.take(it.index() as int).to_set(),
    {
        proof {
            let n = it.index() as int;
            assert(all.take(n + 1) =~= all.take(n).push(record@));
            all.take(n).lemma_push_to_set_commute(record@);
        }
        grouping.add(record);
    }
    proof {
        assert(all.take(all.len() as int) =~= all);
    }
    grouping.finish()
}

/// A field of a row of follow records.
#[derive(Clone, Copy, Debug, PartialEq, Eq)]
pub enum FollowField {
    Sequence,
    Followee,
}

/// Why a row of follow records cannot be read.
#[derive(Clone, Copy, Debug, PartialEq, Eq)]
pub enum FollowError {
    /// The row is too short to hold the field.
    MissingField(FollowField),
    /// The sequence number is not a decimal number of 64 bits.
    MalformedSequence,
}

/// A row that cannot be read, and why.
#[derive(Clone, Copy, Debug, PartialEq, Eq)]
pub struct FollowFailure {
    pub row: usize,
    pub error: FollowError,
}

/// The record that a row describes: the sequence number is its second field
/// and the followed account its fifth.
pub open spec fn row_record(row: Seq<Seq<char>>) -> Result<(i64, Seq<char>), FollowError> {
    if row.len() < 2 {
        Err(FollowError::MissingField(FollowField::Sequence))
    } else {
        match parsed_i64(row[1]) {
            None => Err(FollowError::MalformedSequence),
            Some(seq) => if row.len() < 5 {
                Err(FollowError::MissingField(FollowField::Followee))
            } else {
                Ok((seq, row[4]))
            },
        }
    }
}

/// The records that a sequence of rows describes, or the first row that
/// cannot be read.
pub open spec fn read_rows(rows: Seq<Seq<Seq<char>>>) -> Result<
    Seq<(i64, Seq<char>)>,
    FollowFailure,
>
    decreases rows.len(),
{
    if rows.len() == 0 {
        Ok(Seq::empty())
    } else {
        match read_rows(rows.drop_last()) {
            Err(failure) => Err(failure),
            Ok(records) => match row_record(rows.last()) {
                Err(error) => Err(FollowFailure { row: (rows.len() - 1) as usize, error }),
                Ok(record) => Ok(records.push(record)),
            },
        }
    }
}

/// The rows of a log as sequences of texts.
pub open spec fn follow_rows_of(rows: Seq<Vec<String>>) -> Seq<Seq<Seq<char>>> {
    Seq::new(rows.len(), |i: int| texts_of(rows[i]@))
}

/// Reads the record that a row describes.
pub fn decode_record(row: &Vec<String>) -> (r: Result<FollowRecord, FollowError>)
    ensures
        match r {
            Ok(record) => row_record(texts_of(row@)) == Ok::<(i64, Seq<char>), FollowError>(
                record@,
            ),
            Err(error) => row_record(texts_of(row@)) == Err::<(i64, Seq<char>), FollowError>(
                error,
            ),
        },
{
    if row.len() < 2 {
        return Err(FollowError::MissingField(FollowField::Sequence));
    }
    let seq: i64 = match parse_i64(row[1].as_str()) {
        Some(seq) => seq,
        None => {
            return Err(FollowError::MalformedSequence);
        },
    };
    if row.len() < 5 {
        return Err(FollowError::MissingField(FollowField::Followee));
    }
    Ok(FollowRecord { seq, followee: row[4].clone() })
}

/// Groups the records of `rows` into batches, or gives the first row that
/// cannot be read.
pub fn aggregate_rows(rows: &Vec<Vec<String>>) -> (r: Result<
    Vec<MultiFollowBatch>,
    FollowFailure,
>)
    ensures
        match r {
            Ok(batches) => {
                &&& read_rows(follow_rows_of(rows@)) is Ok
                &&& is_grouping(batches@)
                &&& follows_of(batches@) == read_rows(follow_rows_of(rows@))->Ok_0.to_set()
            },
            Err(failure) => read_rows(follow_rows_of(rows@)) == Err::<
                Seq<(i64, Seq<char>)>,
                FollowFailure,
            >(failure),
        },
{
    let ghost all = follow_rows_of(rows@);
    let mut grouping = Aggregator::new();
    let mut n: usize = 0;
    while n < rows.len()
        invariant
            n <= rows@.len(),
            all == follow_rows_of(rows@),
            grouping.wf(),
            read_rows(all.take(n as int)) is Ok,
            grouping@ == read_rows(all.take(n as int))->Ok_0.to_set(),
        decreases rows@.len() - n,
    {
        proof {
            assert(all.take(n + 1).drop_last() =~= all.take(n as int));
        }
        match decode_record(&rows[n]) {
            Err(error) => {
                proof {
                    lemma_unread_row_is_final(all, n + 1);
                }
                return Err(FollowFailure { row: n, error });
            },
            Ok(record) => {
                proof {
                    read_rows(all.take(n as int))->Ok_0.lemma_push_to_set_commute(record@);
                }
                grouping.add(record);
            },
        }
        n += 1;
    }
    proof {
        assert(all.take(n as int) =~= all);
    }
    Ok(grouping.finish())
}

/// A row that cannot be read decides the outcome, whatever follows it.
proof fn lemma_unread_row_is_final(rows: Seq<Seq<Seq<char>>>, n: int)
    requires
        0 <= n <= rows.len(),
        read_rows(rows.take(n)) is Err,
    ensures
        read_rows(rows) == read_rows(rows.take(n)),
    decreases rows.len() - n,
{
    if n == rows.len() {
        assert(rows.take(n) =~= rows);
    } else {
        assert(rows.take(n + 1).drop_last() =~= rows.take(n));
        lemma_unread_row_is_final(rows, n + 1);
    }
}

} // verus!
