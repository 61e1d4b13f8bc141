//! Replaying the log of membership changes up to a cutoff date.
//!
//! The log is read in its own order. A change dated after the cutoff ends the
//! replay: it and everything behind it is left unread, on the understanding
//! that the log is sorted by time. What remains at the end is, for every
//! starter pack, the set of accounts whose last change was an addition.

use std::collections::HashMap;
use vstd::prelude::*;
use crate::calendar::{lemma_later_than_is_an_order, CalendarDate};
use crate::fingerprint::{fingerprint, fingerprint_of};
use crate::members::MemberSet;
use crate::score::{packs_wf, StarterPack};

verus! {

/// What a change does to the membership of a pack.
#[derive(Clone, Copy, Debug, PartialEq, Eq)]
pub enum Operation {
    Add,
    Remove,
}

/// One change of membership: on `date`, `member` was added to or removed
/// from the starter pack `list`.
#[derive(Debug)]
pub struct MembershipEvent {
    pub date: CalendarDate,
    pub operation: Operation,
    pub member: String,
    pub list: String,
}

/// The mathematical value of a [`MembershipEvent`].
pub struct EventView {
    pub date: CalendarDate,
    pub operation: Operation,
    pub member: Seq<char>,
    pub list: Seq<char>,
}

impl View for MembershipEvent {
    type V = EventView;

    open spec fn view(&self) -> EventView {
        EventView {
            date: self.date,
            operation: self.operation,
            member: self.member@,
            list: self.list@,
        }
    }
}

/// The state of a replay: the cutoff, whether a change after the cutoff has
/// ended it, and who is a member of what, as pairs of pack and account.
pub struct ReplayView {
    pub cutoff: CalendarDate,
    pub stopped: bool,
    pub memberships: Set<(Seq<char>, Seq<char>)>,
}

/// What one change did to a replay.
#[derive(Clone, Copy, Debug, PartialEq, Eq)]
pub enum Progress {
    /// The change was carried out.
    Applied,
    /// The change removed an account that was not a member; nothing changed.
    AbsentRemoval,
    /// The change is dated after the cutoff, or the replay had ended before;
    /// nothing changed, and nothing will from here on.
    PastCutoff,
}

/// The state before any change.
pub open spec fn start(cutoff: CalendarDate) -> ReplayView {
    ReplayView { cutoff, stopped: false, memberships: Set::empty() }
}

/// The state after one more change.
pub open spec fn step(state: ReplayView, event: EventView) -> ReplayView {
    if state.stopped {
        state
    } else if event.date.later_than(state.cutoff) {
        ReplayView { stopped: true, ..state }
    } else {
        match event.operation {
            Operation::Add => ReplayView {
                memberships: state.memberships.insert((event.list, event.member)),
                ..state
            },
            Operation::Remove => ReplayView {
                memberships: state.memberships.remove((event.list, event.member)),
                ..state
            },
        }
    }
}

/// What one more change reports.
pub open spec fn progress_of(state: ReplayView, event: EventView) -> Progress {
    if state.stopped || event.date.later_than(state.cutoff) {
        Progress::PastCutoff
    } else if event.operation == Operation::Remove && !state.memberships.contains(
        (event.list, event.member),
    ) {
        Progress::AbsentRemoval
    } else {
        Progress::Applied
    }
}

/// The state after a sequence of changes.
pub open spec fn run(cutoff: CalendarDate, events: Seq<EventView>) -> ReplayView
    decreases events.len(),
{
    if events.len() == 0 {
        start(cutoff)
    } else {
        step(run(cutoff, events.drop_last()), events.last())
    }
}

/// The account `pair.1` is a member of `pack`, and `pair.0` is that pack.
pub open spec fn holds(pack: StarterPack, pair: (Seq<char>, Seq<char>)) -> bool {
    pack.uri@ == pair.0 && pack.participants@.contains(pair.1)
}

/// Who is a member of what according to `packs`, as pairs of pack and
/// account.
pub open spec fn memberships_of(packs: Seq<StarterPack>) -> Set<(Seq<char>, Seq<char>)> {
    Set::new(
        |pair: (Seq<char>, Seq<char>)|
            exists|k: int| 0 <= k < packs.len() && holds(#[trigger] packs[k], pair),
    )
}

/// One of the first `n` packs has the identifier `uri`.
spec fn uri_among(packs: Seq<StarterPack>, n: int, uri: Seq<char>) -> bool {
    exists|j: int| 0 <= j < n && (#[trigger] packs[j]).uri@ == uri
}

/// No two packs have the same identifier.
pub open spec fn distinct_uris(packs: Seq<StarterPack>) -> bool {
    forall|i: int, j: int|
        #![trigger packs[i], packs[j]]
        0 <= i < j < packs.len() ==> packs[i].uri@ != packs[j].uri@
}

/// `packs` is a snapshot: well-formed packs with distinct identifiers, none
/// of them empty.
pub open spec fn is_snapshot(packs: Seq<StarterPack>) -> bool {
    &&& packs_wf(packs)
    &&& distinct_uris(packs)
    &&& forall|i: int| 0 <= i < packs.len() ==> (#[trigger] packs[i]).participants@.len() > 0
}

/// Pack number `k` is entered in `index` under `mark`.
spec fn is_entered(index: Map<u64, Vec<usize>>, mark: u64, k: int) -> bool {
    index.contains_key(mark) && exists|i: int|
        0 <= i < index[mark]@.len() && #[trigger] index[mark]@[i] == k
}

/// `index` enters every pack under the fingerprint of its identifier, and
/// holds nothing else.
spec fn is_uri_index(index: Map<u64, Vec<usize>>, packs: Seq<StarterPack>) -> bool {
    &&& forall|mark: u64, i: int|
        #![trigger index[mark]@[i]]
        index.contains_key(mark) && 0 <= i < index[mark]@.len() ==> index[mark]@[i] < packs.len()
            && fingerprint_of(packs[index[mark]@[i] as int].uri@) == mark
    &&& forall|k: int|
        0 <= k < packs.len() ==> is_entered(index, fingerprint_of((#[trigger] packs[k]).uri@), k)
}

/// A replay in progress.
#[derive(Debug)]
pub struct Replay {
    cutoff: CalendarDate,
    stopped: bool,
    lists: Vec<StarterPack>,
    index: HashMap<u64, Vec<usize>>,
}

impl View for Replay {
    type V = ReplayView;

    closed spec fn view(&self) -> ReplayView {
        ReplayView {
            cutoff: self.cutoff,
            stopped: self.stopped,
            memberships: memberships_of(self.lists@),
        }
    }
}

impl Replay {
    /// The packs seen so far are well formed and have distinct identifiers,
    /// and each is found through the index.
    pub closed spec fn wf(&self) -> bool {
        &&& packs_wf(self.lists@)
        &&& distinct_uris(self.lists@)
        &&& is_uri_index(self.index@, self.lists@)
    }

    /// A replay that has seen no change yet.
    pub fn new(cutoff: CalendarDate) -> (r: Replay)
        ensures
            r.wf(),
            r@ == start(cutoff),
    {
        let r = Replay { cutoff, stopped: false, lists: Vec::new(), index: HashMap::new() };
        assert(r@.memberships =~= Set::<(Seq<char>, Seq<char>)>::empty());
        r
    }

    /// The date after which changes are not carried out.
    pub fn cutoff(&self) -> (r: CalendarDate)
        ensures
            r == self@.cutoff,
    {
        self.cutoff
    }

    /// Whether a change after the cutoff has ended the replay.
    pub fn is_stopped(&self) -> (r: bool)
        ensures
            r == self@.stopped,
    {
        self.stopped
    }

    /// Ends the replay: no later change is carried out.
    pub fn stop(&mut self)
        requires
            old(self).wf(),
        ensures
            final(self).wf(),
            final(self)@ == (ReplayView { stopped: true, ..old(self)@ }),
    {
        self.stopped = true;
    }

    /// Position of the pack `uri`, whose fingerprint is `mark`, among the
    /// packs seen so far.
    fn find_list(&self, uri: &String, mark: u64) -> (r: Option<usize>)
        requires
            self.wf(),
            mark == fingerprint_of(uri@),
        ensures
            match r {
                Some(k) => k < self.lists@.len() && self.lists@[k as int].uri@ == uri@,
                None => forall|j: int|
                    0 <= j < self.lists@.len() ==> (#[trigger] self.lists@[j]).uri@ != uri@,
            },
    {
        match self.index.get(&mark) {
            None => {
                // A pack with this identifier would be entered under `mark`.
                assert forall|j: int| 0 <= j < self.lists@.len() implies (
                #[trigger] self.lists@[j]).uri@ != uri@ by {
                    assert(is_entered(self.index@, fingerprint_of(self.lists@[j].uri@), j));
                }
                None
            },
            Some(entries) => {
                let mut i: usize = 0;
                while i < entries.len()
                    invariant
                        self.wf(),
                        self.index@.contains_key(mark),
                        self.index@[mark] == *entries,
                        i <= entries@.len(),
                        forall|o: int|
                            0 <= o < i ==> self.lists@[(#[trigger] entries@[o]) as int].uri@
                                != uri@,
                    decreases entries@.len() - i,
                {
                    let k: usize = entries[i];
                    if self.lists[k].uri == *uri {
                        return Some(k);
                    }
                    i += 1;
                }
                // A pack with this identifier would be among the entries.
                assert forall|j: int| 0 <= j < self.lists@.len() implies (
                #[trigger] self.lists@[j]).uri@ != uri@ by {
                    assert(is_entered(self.index@, fingerprint_of(self.lists@[j].uri@), j));
                }
                None
            },
        }
    }

    /// Starts the pack `uri`, which has not been seen before, without
    /// members, and gives its position.
    fn open_list(&mut self, uri: String, mark: u64) -> (k: usize)
        requires
            old(self).wf(),
            mark == fingerprint_of(uri@),
            forall|j: int|
                0 <= j < old(self).lists@.len() ==> (#[trigger] old(self).lists@[j]).uri@ != uri@,
        ensures
            final(self).wf(),
            final(self).cutoff == old(self).cutoff,
            final(self).stopped == old(self).stopped,
            k == old(self).lists@.len(),
            final(self).lists@.len() == k + 1,
            forall|j: int| 0 <= j < k ==> final(self).lists@[j] == old(self).lists@[j],
            final(self).lists@[k as int].uri@ == uri@,
            final(self).lists@[k as int].participants@ == Set::<Seq<char>>::empty(),
    {
        let ghost index_before = self.index@;
        let k: usize = self.lists.len();
        let mut entries: Vec<usize> = match self.index.remove(&mark) {
            Some(entries) => entries,
            None => Vec::new(),
        };
        let ghost entries_before = entries@;
        entries.push(k);
        self.index.insert(mark, entries);
        self.lists.push(StarterPack { uri, participants: MemberSet::new() });
        proof {
            let after = self.lists@;
            let index_after = self.index@;
            assert forall|j: int| 0 <= j < after.len() implies is_entered(
                index_after,
                fingerprint_of((#[trigger] after[j]).uri@),
                j,
            ) by {
                let m = fingerprint_of(after[j].uri@);
                if j < k {
                    let o = choose|o: int|
                        0 <= o < index_before[m]@.len() && #[trigger] index_before[m]@[o] == j;
                    assert(index_after[m]@[o] == j);
                } else {
                    assert(index_after[mark]@[entries_before.len() as int] == j);
                }
            }
        }
        k
    }

    /// Carries out one change, unless it is dated after the cutoff or the
    /// replay has ended. Removing an account that is not a member is
    /// reported and changes nothing.
    pub fn apply(&mut self, event: MembershipEvent) -> (r: Progress)
        requires
            old(self).wf(),
        ensures
            final(self).wf(),
            final(self)@ == step(old(self)@, event@),
            r == progress_of(old(self)@, event@),
    {
        if self.stopped {
            return Progress::PastCutoff;
        }
        if event.date.is_after(&self.cutoff) {
            self.stopped = true;
            return Progress::PastCutoff;
        }
        let ghost before = self.lists@;
        let ghost pair = (event.list@, event.member@);
        let mark = fingerprint(&event.list);
        let found = self.find_list(&event.list, mark);
        match event.operation {
            Operation::Add => {
                let k: usize = match found {
                    Some(k) => k,
                    None => {
                        let k = self.open_list(event.list, mark);
                        proof {
                            lemma_empty_pack_adds_nothing(before, self.lists@);
                        }
                        k
                    },
                };
                let ghost grown = self.lists@;
                let pack = &mut self.lists[k];
                pack.participants.insert(event.member);
                proof {
                    lemma_member_inserted(grown, self.lists@, k as int, pair);
                }
                Progress::Applied
            },
            Operation::Remove => {
                match found {
                    None => {
                        assert(memberships_of(before).remove(pair) =~= memberships_of(before));
                        Progress::AbsentRemoval
                    },
                    Some(k) => {
                        let pack = &mut self.lists[k];
                        let present = pack.participants.remove(&event.member);
                        proof {
                            lemma_member_removed(before, self.lists@, k as int, pair);
                        }
                        if present {
                            Progress::Applied
                        } else {
                            Progress::AbsentRemoval
                        }
                    },
                }
            },
        }
    }

    /// Ends the replay and gives the snapshot: every pack that has a member,
    /// with its members.
    pub fn finish(self) -> (packs: Vec<StarterPack>)
        requires
            self.wf(),
        ensures
            is_snapshot(packs@),
            memberships_of(packs@) == self@.memberships,
    {
        let ghost all = self.lists@;
        let mut kept: Vec<StarterPack> = Vec::new();
        for pack in it: self.lists
            invariant
                it.seq() == all,
                packs_wf(all),
                distinct_uris(all),
                is_snapshot(kept@),
                memberships_of(kept@) == memberships_of(all.take(it.index() as int)),
                forall|i: int|
                    0 <= i < kept@.len() ==> uri_among(
                        all,
                        it.index() as int,
                        (#[trigger] kept@[i]).uri@,
                    ),
        {
            let ghost n = it.index() as int;
            let ghost before = kept@;
            if !pack.participants.is_empty() {
                kept.push(pack);
                proof {
                    lemma_pack_kept(all, n, before, kept@);
                }
            }
        }
        proof {
            assert(all.take(all.len() as int) =~= all);
        }
        kept
    }
}

/// Keeping pack number `n` of `all` extends a snapshot of the packs before
/// it to one of the packs up to it.
proof fn lemma_pack_kept(
    all: Seq<StarterPack>,
    n: int,
    before: Seq<StarterPack>,
    after: Seq<StarterPack>,
)
    requires
        0 <= n < all.len(),
        packs_wf(all),
        distinct_uris(all),
        all[n].participants@.len() > 0,
        is_snapshot(before),
        after == before.push(all[n]),
        memberships_of(before) == memberships_of(all.take(n)),
        forall|i: int| 0 <= i < before.len() ==> uri_among(all, n, (#[trigger] before[i]).uri@),
    ensures
        is_snapshot(after),
        memberships_of(after) == memberships_of(all.take(n + 1)),
        forall|i: int| 0 <= i < after.len() ==> uri_among(all, n + 1, (#[trigger] after[i]).uri@),
{
    let more = all.take(n + 1);
    assert forall|p: (Seq<char>, Seq<char>)|
        memberships_of(after).contains(p) <==> memberships_of(more).contains(p) by {
        if memberships_of(after).contains(p) {
            let j = choose|j: int| 0 <= j < after.len() && holds(#[trigger] after[j], p);
            if j >= before.len() {
                assert(holds(more[n], p));
            }
        }
        if memberships_of(more).contains(p) {
            let o = choose|o: int| 0 <= o < more.len() && holds(#[trigger] more[o], p);
            if o < n {
                assert(memberships_of(before).contains(p));
                let j = choose|j: int| 0 <= j < before.len() && holds(#[trigger] before[j], p);
                assert(holds(after[j], p));
            } else {
                assert(holds(after[before.len() as int], p));
            }
        }
    }
}

/// A pack without members adds no membership.
proof fn lemma_empty_pack_adds_nothing(before: Seq<StarterPack>, after: Seq<StarterPack>)
    requires
        after.len() == before.len() + 1,
        forall|j: int| 0 <= j < before.len() ==> after[j] == before[j],
        after[before.len() as int].participants@ == Set::<Seq<char>>::empty(),
    ensures
        memberships_of(after) == memberships_of(before),
{
}

/// Adding an account to pack number `k` adds that one membership.
proof fn lemma_member_inserted(
    before: Seq<StarterPack>,
    after: Seq<StarterPack>,
    k: int,
    pair: (Seq<char>, Seq<char>),
)
    requires
        0 <= k < before.len(),
        after.len() == before.len(),
        forall|j: int| 0 <= j < before.len() && j != k ==> after[j] == before[j],
        after[k].uri@ == before[k].uri@,
        before[k].uri@ == pair.0,
        after[k].participants@ == before[k].participants@.insert(pair.1),
    ensures
        memberships_of(after) == memberships_of(before).insert(pair),
{
    assert(memberships_of(after) =~= memberships_of(before).insert(pair));
}

/// Taking an account out of pack number `k` takes away that one membership.
proof fn lemma_member_removed(
    before: Seq<StarterPack>,
    after: Seq<StarterPack>,
    k: int,
    pair: (Seq<char>, Seq<char>),
)
    requires
        distinct_uris(before),
        0 <= k < before.len(),
        after.len() == before.len(),
        forall|j: int| 0 <= j < before.len() && j != k ==> after[j] == before[j],
        after[k].uri@ == before[k].uri@,
        before[k].uri@ == pair.0,
        after[k].participants@ == before[k].participants@.remove(pair.1),
    ensures
        memberships_of(after) == memberships_of(before).remove(pair),
        memberships_of(before).contains(pair) == before[k].participants@.contains(pair.1),
        distinct_uris(after),
{
    assert(memberships_of(after) =~= memberships_of(before).remove(pair));
}

/// The values of a vector of changes.
pub open spec fn views_of(events: Seq<MembershipEvent>) -> Seq<EventView> {
    Seq::new(events.len(), |i: int| events[i]@)
}

/// The positions, in rising order, of the changes that removed an account
/// that was not a member.
pub open spec fn absent_removals(cutoff: CalendarDate, events: Seq<EventView>) -> Seq<usize>
    decreases events.len(),
{
    if events.len() == 0 {
        Seq::empty()
    } else {
        let earlier = absent_removals(cutoff, events.drop_last());
        if progress_of(run(cutoff, events.drop_last()), events.last()) == Progress::AbsentRemoval {
            earlier.push((events.len() - 1) as usize)
        } else {
            earlier
        }
    }
}

/// What a replay leaves: the snapshot, and where the log removed an account
/// that was not a member.
#[derive(Debug)]
pub struct ReplayOutcome {
    pub packs: Vec<StarterPack>,
    pub absent_removals: Vec<usize>,
}

/// Replays `events` in their order up to `cutoff` and gives the snapshot of
/// all packs that have a member then.
pub fn replay(events: Vec<MembershipEvent>, cutoff: CalendarDate) -> (out: ReplayOutcome)
    ensures
        is_snapshot(out.packs@),
        memberships_of(out.packs@) == run(cutoff, views_of(events@)).memberships,
        out.absent_removals@ == absent_removals(cutoff, views_of(events@)),
{
    let ghost all = views_of(events@);
    let mut state = Replay::new(cutoff);
    let mut anomalies: Vec<usize> = Vec::new();
    let total: usize = events.len();
    let mut n: usize = 0;
    for event in it: events
        invariant
            it.seq() == events@,
            total == events@.len(),
            all == views_of(events@),
            n == it.index(),
            state.wf(),
            state@ == run(cutoff, all.take(n as int)),
            anomalies@ == absent_removals(cutoff, all.take(n as int)),
    {
        proof {
            assert(all.take(n + 1).drop_last() =~= all.take(n as int));
        }
        let progress = state.apply(event);
        match progress {
            Progress::AbsentRemoval => {
                anomalies.push(n);
            },
            _ => {},
        }
        n += 1;
    }
    proof {
        assert(all.take(n as int) =~= all);
    }
    ReplayOutcome { packs: state.finish(), absent_removals: anomalies }
}

/// The replay goes on, after `events`, exactly if none of them is dated
/// after the cutoff.
pub proof fn lemma_stops_at_first_late_event(cutoff: CalendarDate, events: Seq<EventView>)
    ensures
        run(cutoff, events).cutoff == cutoff,
        !run(cutoff, events).stopped <==> forall|j: int|
            0 <= j < events.len() ==> !(#[trigger] events[j]).date.later_than(cutoff),
    decreases events.len(),
{
    if events.len() > 0 {
        let earlier = events.drop_last();
        lemma_stops_at_first_late_event(cutoff, earlier);
        if !run(cutoff, events).stopped {
            assert forall|j: int| 0 <= j < events.len() implies !(#[trigger] events[j]).date.later_than(
                cutoff,
            ) by {
                if j < earlier.len() {
                    assert(earlier[j] == events[j]);
                }
            }
        }
    }
}

/// Change number `i` is read: neither it nor a change before it is dated
/// after the cutoff.
pub open spec fn is_read(cutoff: CalendarDate, events: Seq<EventView>, i: int) -> bool {
    forall|j: int| 0 <= j <= i ==> !(#[trigger] events[j]).date.later_than(cutoff)
}

/// The last change that is read decides. An account that a change which is
/// read adds to a pack, and that no later such change removes from it, is a
/// member at the end; one that such a change removes, and that no later one
/// adds again, is not.
pub proof fn lemma_last_change_decides(cutoff: CalendarDate, events: Seq<EventView>, i: int)
    requires
        0 <= i < events.len(),
        is_read(cutoff, events, i),
        forall|j: int|
            i < j < events.len() && is_read(cutoff, events, j) && (#[trigger] events[j]).list
                == events[i].list && events[j].member == events[i].member ==> events[j].operation
                == events[i].operation,
    ensures
        run(cutoff, events).memberships.contains((events[i].list, events[i].member)) <==> events[i].operation
            == Operation::Add,
    decreases events.len(),
{
    let earlier = events.drop_last();
    let last = events.last();
    lemma_stops_at_first_late_event(cutoff, earlier);
    if i < events.len() - 1 {
        assert forall|j: int|
            i < j < earlier.len() && is_read(cutoff, earlier, j) && (#[trigger] earlier[j]).list
                == earlier[i].list && earlier[j].member == earlier[i].member implies earlier[j].operation
            == earlier[i].operation by {
            assert forall|o: int| 0 <= o <= j implies !(#[trigger] events[o]).date.later_than(
                cutoff,
            ) by {
                assert(earlier[o] == events[o]);
            }
        }
        lemma_last_change_decides(cutoff, earlier, i);
        if !run(cutoff, earlier).stopped && !last.date.later_than(cutoff) {
            assert forall|o: int| 0 <= o <= events.len() - 1 implies !(#[trigger] events[o]).date.later_than(
                cutoff,
            ) by {
                if o < earlier.len() {
                    assert(earlier[o] == events[o]);
                }
            }
        }
    }
}

/// Changes dated after the cutoff never count: such a change leaves every
/// membership as it was, and so does whatever follows it in the log.
pub proof fn lemma_nothing_counts_after_cutoff(
    cutoff: CalendarDate,
    events: Seq<EventView>,
    k: int,
)
    requires
        0 <= k < events.len(),
        events[k].date.later_than(cutoff),
    ensures
        run(cutoff, events).memberships == run(cutoff, events.take(k)).memberships,
    decreases events.len(),
{
    let earlier = events.drop_last();
    lemma_stops_at_first_late_event(cutoff, earlier);
    if k < events.len() - 1 {
        assert(earlier[k] == events[k]);
        assert(earlier.take(k) =~= events.take(k));
        lemma_nothing_counts_after_cutoff(cutoff, earlier, k);
    }
}

/// Removing an account that is not a member changes no membership.
pub proof fn lemma_absent_removal_changes_nothing(state: ReplayView, event: EventView)
    requires
        event.operation == Operation::Remove,
        !state.memberships.contains((event.list, event.member)),
    ensures
        step(state, event).memberships == state.memberships,
        progress_of(state, event) != Progress::Applied,
{
}

/// The changes are in the order of their dates: none is dated before one
/// that stands earlier.
pub open spec fn is_sorted_by_date(events: Seq<EventView>) -> bool {
    forall|i: int, j: int|
        #![trigger events[i], events[j]]
        0 <= i <= j < events.len() ==> !events[i].date.later_than(events[j].date)
}

/// Whether `events` are in the order of their dates. A replay relies on
/// that order without looking for it.
pub fn dates_ascend(events: &Vec<MembershipEvent>) -> (r: bool)
    ensures
        r == is_sorted_by_date(views_of(events@)),
{
    let ghost all = views_of(events@);
    let mut n: usize = 1;
    while n < events.len()
        invariant
            1 <= n,
            all == views_of(events@),
            forall|i: int, j: int|
                #![trigger all[i], all[j]]
                0 <= i <= j < n && j < all.len() ==> !all[i].date.later_than(all[j].date),
        decreases events@.len() - n,
    {
        if events[n - 1].date.is_after(&events[n].date) {
            return false;
        }
        proof {
            assert forall|i: int, j: int|
                #![trigger all[i], all[j]]
                0 <= i <= j < n + 1 && j < all.len() implies !all[i].date.later_than(
                all[j].date,
            ) by {
                if j == n && i < n {
                    lemma_later_than_is_an_order(all[i].date, all[n - 1].date, all[n as int].date);
                }
            }
        }
        n += 1;
    }
    true
}

/// In a log that is in the order of its dates, the changes that are read
/// are exactly those dated on or before the cutoff: ending the replay at the
/// first later change loses none of them.
pub proof fn lemma_sorted_log_is_read_up_to_cutoff(
    cutoff: CalendarDate,
    events: Seq<EventView>,
    i: int,
)
    requires
        is_sorted_by_date(events),
        0 <= i < events.len(),
    ensures
        is_read(cutoff, events, i) <==> !events[i].date.later_than(cutoff),
{
}

} // verus!
