//! Ranking the starter packs of a snapshot against the accounts of a batch.
//!
//! Packs that share no account with the batch are left out. The others are
//! ordered by descending result; packs with the same result keep the order
//! in which the snapshot lists them, so a ranking is fully determined by its
//! inputs.

use vstd::prelude::*;
use crate::aggregate::MultiFollowBatch;
use crate::members::MemberSet;
use crate::ratio::{lemma_fraction_order_transitive, Fraction};
use crate::score::{
    lemma_score_in_unit_interval, lemma_shared_at_most_smaller, packs_wf, score_of, smaller_of,
    OverlapScore, StarterPack,
};

verus! {

/// A pack, given by its result and its position in the snapshot, comes
/// before another: its result is larger, or the results are the same number
/// and it stands earlier in the snapshot.
pub open spec fn outranks(result: Fraction, index: int, other: Fraction, other_index: int) -> bool {
    other.is_less(result) || (result.is_same(other) && index < other_index)
}

/// The pack shares at least one account with `follows`.
pub open spec fn shares_accounts(pack: StarterPack, follows: Set<Seq<char>>) -> bool {
    pack.participants@.intersect(follows).len() > 0
}

/// How many of the first `limit` packs share an account with `follows`.
pub open spec fn sharing_count(packs: Seq<StarterPack>, follows: Set<Seq<char>>, limit: int) -> nat
    decreases limit,
{
    if limit <= 0 {
        0
    } else if shares_accounts(packs[limit - 1], follows) {
        sharing_count(packs, follows, limit - 1) + 1
    } else {
        sharing_count(packs, follows, limit - 1)
    }
}

/// The score of one starter pack against one batch, with the pack's
/// identifier and its position in the snapshot that was searched.
#[derive(Debug)]
pub struct StarterPackOverlap {
    pub list_index: usize,
    pub uri: String,
    pub score: OverlapScore,
}

impl StarterPackOverlap {
    /// This entry comes before `other` in a ranking.
    pub open spec fn ranks_before(self, other: StarterPackOverlap) -> bool {
        outranks(
            self.score@.result,
            self.list_index as int,
            other.score@.result,
            other.list_index as int,
        )
    }

    /// This entry is the score of pack number `list_index` of `packs`
    /// against `follows`, and that pack shares an account with `follows`.
    pub open spec fn is_match_of(self, packs: Seq<StarterPack>, follows: Set<Seq<char>>) -> bool {
        &&& self.list_index < packs.len()
        &&& self.uri@ == packs[self.list_index as int].uri@
        &&& self.score@ == score_of(packs[self.list_index as int].participants@, follows)
        &&& self.score.wf()
        &&& shares_accounts(packs[self.list_index as int], follows)
    }
}

/// Some entry of `out` is for pack number `p`.
pub open spec fn is_listed(out: Seq<StarterPackOverlap>, p: int) -> bool {
    exists|k: int| 0 <= k < out.len() && (#[trigger] out[k]).list_index == p
}

/// Every entry of `out` comes before a pack with the given result and
/// position.
pub open spec fn all_outrank(out: Seq<StarterPackOverlap>, result: Fraction, index: int) -> bool {
    forall|k: int|
        0 <= k < out.len() ==> outranks(
            (#[trigger] out[k]).score@.result,
            out[k].list_index as int,
            result,
            index,
        )
}

/// Each entry comes before all later ones.
pub open spec fn is_ranked(out: Seq<StarterPackOverlap>) -> bool {
    forall|j: int, k: int|
        #![trigger out[j], out[k]]
        0 <= j < k < out.len() ==> out[j].ranks_before(out[k])
}

/// `out` is the ranking of the first `limit` packs against `follows`, cut
/// to `top_k` entries: it holds matches only, in ranking order, and a pack
/// that shares an account with `follows` is missing only if the ranking is
/// full and every entry comes before that pack.
pub open spec fn is_ranking_upto(
    out: Seq<StarterPackOverlap>,
    packs: Seq<StarterPack>,
    follows: Set<Seq<char>>,
    top_k: nat,
    limit: int,
) -> bool {
    &&& out.len() <= top_k
    &&& forall|k: int|
        0 <= k < out.len() ==> (#[trigger] out[k]).is_match_of(packs, follows) && out[k].list_index
            < limit
    &&& is_ranked(out)
    &&& forall|p: int|
        0 <= p < limit && p < packs.len() && shares_accounts(#[trigger] packs[p], follows)
            ==> is_listed(out, p) || (out.len() == top_k && all_outrank(
            out,
            score_of(packs[p].participants@, follows).result,
            p,
        ))
}

/// `out` is the ranking of all of `packs` against `follows`, cut to `top_k`
/// entries.
pub open spec fn is_ranking(
    out: Seq<StarterPackOverlap>,
    packs: Seq<StarterPack>,
    follows: Set<Seq<char>>,
    top_k: nat,
) -> bool {
    is_ranking_upto(out, packs, follows, top_k, packs.len() as int)
}

/// `out` holds the match of every pack that shares an account with
/// `follows`, once each, in the order of the snapshot, and nothing else.
pub open spec fn is_all_matches(
    out: Seq<StarterPackOverlap>,
    packs: Seq<StarterPack>,
    follows: Set<Seq<char>>,
    limit: int,
) -> bool {
    &&& forall|k: int|
        0 <= k < out.len() ==> (#[trigger] out[k]).is_match_of(packs, follows) && out[k].list_index
            < limit
    &&& forall|j: int, k: int|
        #![trigger out[j], out[k]]
        0 <= j < k < out.len() ==> out[j].list_index < out[k].list_index
    &&& forall|p: int|
        0 <= p < limit && p < packs.len() && shares_accounts(#[trigger] packs[p], follows)
            ==> is_listed(out, p)
}

/// Coming before is transitive.
pub proof fn lemma_outranks_transitive(
    a: Fraction,
    ia: int,
    b: Fraction,
    ib: int,
    c: Fraction,
    ic: int,
)
    requires
        a.wf(),
        b.wf(),
        c.wf(),
        outranks(a, ia, b, ib),
        outranks(b, ib, c, ic),
    ensures
        outranks(a, ia, c, ic),
{
    lemma_fraction_order_transitive(c, b, a);
}

/// Scores pack number `p` against `follows`; `None` when they share no
/// account, which includes every case in which one of the two is empty.
pub fn match_pack(follows: &MemberSet, packs: &Vec<StarterPack>, p: usize) -> (r: Option<
    StarterPackOverlap,
>)
    requires
        follows.wf(),
        packs_wf(packs@),
        p < packs@.len(),
    ensures
        match r {
            Some(m) => m.is_match_of(packs@, follows@) && m.list_index == p,
            None => !shares_accounts(packs@[p as int], follows@),
        },
{
    let pack = &packs[p];
    proof {
        follows.lemma_view_finite();
        pack.participants.lemma_view_finite();
        lemma_shared_at_most_smaller(pack.participants@, follows@);
    }
    if follows.is_empty() || pack.participants.is_empty() {
        return None;
    }
    let score = pack.calculate_overlap(follows);
    if score.overlap.num > 0 {
        Some(StarterPackOverlap { list_index: p, uri: pack.uri.clone(), score })
    } else {
        None
    }
}

/// All packs that share an account with `follow_members`, each with its
/// score, in the order of the snapshot. An empty `follow_members` matches
/// nothing.
pub fn find_best_matches(follow_members: &MemberSet, b: &Vec<StarterPack>) -> (out: Vec<
    StarterPackOverlap,
>)
    requires
        follow_members.wf(),
        packs_wf(b@),
    ensures
        is_all_matches(out@, b@, follow_members@, b@.len() as int),
        out@.len() == sharing_count(b@, follow_members@, b@.len() as int),
        out@.len() <= b@.len(),
        follow_members@.len() == 0 ==> out@.len() == 0,
{
    let mut out: Vec<StarterPackOverlap> = Vec::new();
    let mut p: usize = 0;
    while p < b.len()
        invariant
            p <= b@.len(),
            follow_members.wf(),
            packs_wf(b@),
            is_all_matches(out@, b@, follow_members@, p as int),
            out@.len() == sharing_count(b@, follow_members@, p as int),
            out@.len() <= p,
            follow_members@.len() == 0 ==> out@.len() == 0,
        decreases b@.len() - p,
    {
        let ghost before = out@;
        match match_pack(follow_members, b, p) {
            None => {},
            Some(m) => {
                out.push(m);
                proof {
                    let after = out@;
                    assert forall|q: int|
                        0 <= q < p + 1 && q < b@.len() && shares_accounts(
                            #[trigger] b@[q],
                            follow_members@,
                        ) implies is_listed(after, q) by {
                        if q < p {
                            let k = choose|k: int|
                                0 <= k < before.len() && (#[trigger] before[k]).list_index == q;
                            assert(after[k].list_index == q);
                        } else {
                            assert(after[before.len() as int].list_index == q);
                        }
                    }
                }
            },
        }
        p += 1;
    }
    out
}

/// Puts `m` at its place in the ranking `best` and cuts the ranking back to
/// `top_k` entries. Returns the place: the number of entries that come
/// before `m`.
fn place(best: &mut Vec<StarterPackOverlap>, m: StarterPackOverlap, top_k: usize) -> (q: usize)
    requires
        is_ranked(old(best)@),
        old(best)@.len() <= top_k,
        m.score.wf(),
        forall|k: int|
            0 <= k < old(best)@.len() ==> (#[trigger] old(best)@[k]).score.wf() && old(
                best,
            )@[k].list_index < m.list_index,
    ensures
        q <= old(best)@.len(),
        forall|k: int| 0 <= k < q ==> (#[trigger] old(best)@[k]).ranks_before(m),
        forall|k: int| q <= k < old(best)@.len() ==> m.ranks_before(#[trigger] old(best)@[k]),
        q >= top_k ==> final(best)@ == old(best)@,
        q < top_k && old(best)@.len() < top_k ==> final(best)@ == old(best)@.insert(q as int, m),
        q < top_k && old(best)@.len() == top_k ==> final(best)@ == old(best)@.insert(
            q as int,
            m,
        ).drop_last(),
{
    let mut q: usize = 0;
    while q < best.len() && !best[q].score.result.less_than(&m.score.result)
        invariant
            q <= best@.len(),
            best@ == old(best)@,
            m.score.wf(),
            forall|k: int|
                0 <= k < best@.len() ==> (#[trigger] best@[k]).score.wf() && best@[k].list_index
                    < m.list_index,
            forall|k: int| 0 <= k < q ==> (#[trigger] best@[k]).ranks_before(m),
        decreases best@.len() - q,
    {
        q += 1;
    }
    proof {
        assert forall|k: int| q <= k < best@.len() implies m.ranks_before(#[trigger] best@[k]) by {
            let first = best@[q as int];
            let later = best@[k];
            if k > q {
                lemma_fraction_order_transitive(
                    later.score@.result,
                    first.score@.result,
                    m.score@.result,
                );
            }
        }
    }
    if q < top_k {
        best.insert(q, m);
        if best.len() > top_k {
            best.pop();
        }
    }
    q
}

/// The `top_k` best matches among `packs` for the accounts `follows`, best
/// first. An empty `follows` gives an empty ranking.
pub fn rank_batch(follows: &MemberSet, packs: &Vec<StarterPack>, top_k: usize) -> (out: Vec<
    StarterPackOverlap,
>)
    requires
        follows.wf(),
        packs_wf(packs@),
    ensures
        is_ranking(out@, packs@, follows@, top_k as nat),
        out@.len() == smaller_of(
            top_k as nat,
            sharing_count(packs@, follows@, packs@.len() as int),
        ),
        out@.len() <= packs@.len(),
        follows@.len() == 0 ==> out@.len() == 0,
{
    let mut best: Vec<StarterPackOverlap> = Vec::new();
    let mut p: usize = 0;
    while p < packs.len()
        invariant
            p <= packs@.len(),
            follows.wf(),
            packs_wf(packs@),
            is_ranking_upto(best@, packs@, follows@, top_k as nat, p as int),
            best@.len() == smaller_of(top_k as nat, sharing_count(packs@, follows@, p as int)),
            best@.len() <= p,
            follows@.len() == 0 ==> best@.len() == 0,
        decreases packs@.len() - p,
    {
        match match_pack(follows, packs, p) {
            None => {},
            Some(m) => {
                let ghost before = best@;
                let ghost entry = m;
                proof {
                    follows.lemma_view_finite();
                }
                let q = place(&mut best, m, top_k);
                proof {
                    lemma_placed_is_ranking(
                        before,
                        best@,
                        entry,
                        q as int,
                        packs@,
                        follows@,
                        top_k as nat,
                        p as int,
                    );
                }
            },
        }
        p += 1;
    }
    best
}

/// The ranking of the packs for one batch.
#[derive(Debug)]
pub struct BatchRanking {
    pub seq: i64,
    pub matches: Vec<StarterPackOverlap>,
}

/// Every batch has a well-formed target set.
pub open spec fn batches_wf(batches: Seq<MultiFollowBatch>) -> bool {
    forall|i: int| 0 <= i < batches.len() ==> (#[trigger] batches[i]).followed.wf()
}

/// `ranking` is the ranking of `packs` for `batch`, cut to `top_k` entries:
/// it has the sequence number of the batch and holds the best matches, as
/// many as the cut and the number of packs that share an account allow.
pub open spec fn is_ranking_of_batch(
    ranking: BatchRanking,
    batch: MultiFollowBatch,
    packs: Seq<StarterPack>,
    top_k: nat,
) -> bool {
    &&& ranking.seq == batch.seq
    &&& is_ranking(ranking.matches@, packs, batch.followed@, top_k)
    &&& ranking.matches@.len() == smaller_of(
        top_k,
        sharing_count(packs, batch.followed@, packs.len() as int),
    )
}

/// Ranks the packs for every batch: one ranking of at most `top_k` matches
/// for each batch, in the order of the batches. A batch that followed
/// nobody gets an empty ranking.
pub fn rank_all(batches: &Vec<MultiFollowBatch>, packs: &Vec<StarterPack>, top_k: usize) -> (out:
    Vec<BatchRanking>)
    requires
        batches_wf(batches@),
        packs_wf(packs@),
    ensures
        out@.len() == batches@.len(),
        forall|i: int|
            0 <= i < out@.len() ==> is_ranking_of_batch(
                #[trigger] out@[i],
                batches@[i],
                packs@,
                top_k as nat,
            ),
{
    let mut out: Vec<BatchRanking> = Vec::new();
    let mut b: usize = 0;
    while b < batches.len()
        invariant
            b <= batches@.len(),
            batches_wf(batches@),
            packs_wf(packs@),
            out@.len() == b,
            forall|i: int|
                0 <= i < out@.len() ==> is_ranking_of_batch(
                    #[trigger] out@[i],
                    batches@[i],
                    packs@,
                    top_k as nat,
                ),
        decreases batches@.len() - b,
    {
        let batch = &batches[b];
        let matches = rank_batch(&batch.followed, packs, top_k);
        out.push(BatchRanking { seq: batch.seq, matches });
        b += 1;
    }
    out
}

/// Placing the match of pack number `p` into the ranking of the packs
/// before it gives the ranking of the packs up to and including `p`.
proof fn lemma_placed_is_ranking(
    before: Seq<StarterPackOverlap>,
    after: Seq<StarterPackOverlap>,
    m: StarterPackOverlap,
    q: int,
    packs: Seq<StarterPack>,
    follows: Set<Seq<char>>,
    top_k: nat,
    p: int,
)
    requires
        0 <= p < packs.len(),
        packs_wf(packs),
        follows.finite(),
        is_ranking_upto(before, packs, follows, top_k, p),
        m.is_match_of(packs, follows),
        m.list_index == p,
        0 <= q <= before.len(),
        forall|k: int| 0 <= k < q ==> (#[trigger] before[k]).ranks_before(m),
        forall|k: int| q <= k < before.len() ==> m.ranks_before(#[trigger] before[k]),
        q >= top_k ==> after == before,
        q < top_k && before.len() < top_k ==> after == before.insert(q, m),
        q < top_k && before.len() == top_k ==> after == before.insert(q, m).drop_last(),
    ensures
        is_ranking_upto(after, packs, follows, top_k, p + 1),
{
    assert forall|x: int|
        0 <= x < p + 1 && x < packs.len() && shares_accounts(
            #[trigger] packs[x],
            follows,
        ) implies is_listed(after, x) || (after.len() == top_k && all_outrank(
        after,
        score_of(packs[x].participants@, follows).result,
        x,
    )) by {
        let result = score_of(packs[x].participants@, follows).result;
        if x == p {
            // The new match is listed, unless the ranking is full of better ones.
            if q < top_k {
                assert(after[q].list_index == p);
            }
        } else if is_listed(before, x) {
            // A match that was listed stays, moved by one place if it stands
            // behind the new one, unless it was the last of a full ranking.
            let k = choose|k: int| 0 <= k < before.len() && (#[trigger] before[k]).list_index == x;
            if q < top_k && k < q {
                assert(after[k] == before[k]);
            } else if q < top_k && k + 1 < after.len() {
                assert(after[k + 1] == before[k]);
            }
        } else {
            // A pack that every entry outranked is outranked by the new
            // match too, which comes before the entry that was last.
            packs[x].participants.lemma_view_finite();
            lemma_score_in_unit_interval_of_match(packs[x].participants@, follows);
            if q < top_k {
                let last = before[top_k - 1];
                assert forall|i: int| 0 <= i < after.len() implies outranks(
                    (#[trigger] after[i]).score@.result,
                    after[i].list_index as int,
                    result,
                    x,
                ) by {
                    if i == q {
                        lemma_outranks_transitive(
                            m.score@.result,
                            m.list_index as int,
                            last.score@.result,
                            last.list_index as int,
                            result,
                            x,
                        );
                    }
                }
            }
        }
    }
}

/// The fractions in the score of two sets that share an account have
/// denominators.
proof fn lemma_score_in_unit_interval_of_match(pack: Set<Seq<char>>, follows: Set<Seq<char>>)
    requires
        pack.finite(),
        follows.finite(),
        pack.intersect(follows).len() > 0,
    ensures
        score_of(pack, follows).result.wf(),
{
    lemma_shared_at_most_smaller(pack, follows);
    lemma_score_in_unit_interval(pack, follows);
}

/// Of two packs at different positions exactly one comes before the other,
/// and no pack comes before itself.
pub proof fn lemma_outranks_is_strict_and_total(a: Fraction, ia: int, b: Fraction, ib: int)
    ensures
        !(outranks(a, ia, b, ib) && outranks(b, ib, a, ia)),
        ia != ib ==> outranks(a, ia, b, ib) || outranks(b, ib, a, ia),
        !outranks(a, ia, a, ia),
{
}

/// A pack that has no account in common with the followed accounts is in no
/// ranking.
pub proof fn lemma_disjoint_pack_is_not_ranked(
    out: Seq<StarterPackOverlap>,
    packs: Seq<StarterPack>,
    follows: Set<Seq<char>>,
    top_k: nat,
    p: int,
)
    requires
        is_ranking(out, packs, follows, top_k),
        0 <= p < packs.len(),
        packs[p].participants@.disjoint(follows),
    ensures
        !is_listed(out, p),
{
    assert(packs[p].participants@.intersect(follows) =~= Set::<Seq<char>>::empty());
}

/// Of two rankings of the same packs for the same accounts that agree on
/// their first `n` entries, `b` has an entry at position `n` if `a` has one,
/// and if the two differ there, the one of `a` does not come first.
proof fn lemma_no_better_entry(
    a: Seq<StarterPackOverlap>,
    b: Seq<StarterPackOverlap>,
    packs: Seq<StarterPack>,
    follows: Set<Seq<char>>,
    top_k: nat,
    n: int,
)
    requires
        is_ranking(a, packs, follows, top_k),
        is_ranking(b, packs, follows, top_k),
        0 <= n < a.len(),
        n <= b.len(),
        forall|i: int| 0 <= i < n ==> (#[trigger] a[i]).list_index == b[i].list_index,
    ensures
        n < b.len(),
        a[n].list_index != b[n].list_index ==> !a[n].ranks_before(b[n]),
{
    // The pack of `a[n]` is listed in `b` or outranked by all of `b`. It is
    // not listed before position `n`, where `b` agrees with `a`, which lists
    // no pack twice; behind position `n`, or outranked, it comes after `b[n]`.
    let p = a[n].list_index as int;
    if is_listed(b, p) {
        let j = choose|j: int| 0 <= j < b.len() && (#[trigger] b[j]).list_index == p;
        if j < n {
            assert(a[j].list_index == b[j].list_index);
        }
    }
}

/// A ranking is determined by what is ranked: two rankings of the same
/// packs for the same accounts with the same cut have the same length and
/// hold, place by place, the same pack with the same score.
pub proof fn lemma_ranking_is_unique(
    a: Seq<StarterPackOverlap>,
    b: Seq<StarterPackOverlap>,
    packs: Seq<StarterPack>,
    follows: Set<Seq<char>>,
    top_k: nat,
)
    requires
        is_ranking(a, packs, follows, top_k),
        is_ranking(b, packs, follows, top_k),
    ensures
        a.len() == b.len(),
        forall|i: int|
            0 <= i < a.len() ==> (#[trigger] a[i]).list_index == b[i].list_index && a[i].score
                == b[i].score && a[i].uri@ == b[i].uri@,
{
    lemma_rankings_agree(a, b, packs, follows, top_k, a.len() as int);
    lemma_rankings_agree(b, a, packs, follows, top_k, b.len() as int);
}

/// Two rankings of the same packs for the same accounts agree on the first
/// `n` entries of `a`, which `b` has too.
proof fn lemma_rankings_agree(
    a: Seq<StarterPackOverlap>,
    b: Seq<StarterPackOverlap>,
    packs: Seq<StarterPack>,
    follows: Set<Seq<char>>,
    top_k: nat,
    n: int,
)
    requires
        is_ranking(a, packs, follows, top_k),
        is_ranking(b, packs, follows, top_k),
        0 <= n <= a.len(),
    ensures
        n <= b.len(),
        forall|i: int| 0 <= i < n ==> (#[trigger] a[i]).list_index == b[i].list_index,
    decreases n,
{
    if n > 0 {
        let m = n - 1;
        lemma_rankings_agree(a, b, packs, follows, top_k, m);
        // Neither of the two entries at position `m` comes before the other,
        // so they are for the same pack.
        lemma_no_better_entry(a, b, packs, follows, top_k, m);
        lemma_no_better_entry(b, a, packs, follows, top_k, m);
    }
}

} // verus!
