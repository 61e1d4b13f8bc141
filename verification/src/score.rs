//! The overlap score of a starter pack against the accounts of one batch.
//!
//! With `I` the number of accounts that the pack and the batch share, the
//! score is the product of two factors: the overlap `I / smaller`, the share
//! of the smaller set that is in the other, and the size-difference factor
//! `1 - |I - larger| / larger`, which is one when the shared accounts fill
//! the larger set and falls as they diverge from it.

use vstd::prelude::*;
use vstd::set_lib::lemma_len_intersect;
use crate::members::MemberSet;
use crate::ratio::{Fraction, Ratio};

verus! {

/// The larger of two sizes.
pub open spec fn larger_of(a: nat, b: nat) -> nat {
    if a >= b {
        a
    } else {
        b
    }
}

/// The smaller of two sizes.
pub open spec fn smaller_of(a: nat, b: nat) -> nat {
    if a <= b {
        a
    } else {
        b
    }
}

/// `|a - b|`.
pub open spec fn distance(a: nat, b: nat) -> nat {
    if a >= b {
        (a - b) as nat
    } else {
        (b - a) as nat
    }
}

/// The mathematical value of an [`OverlapScore`].
pub struct ScoreModel {
    pub multi_follow_size: nat,
    pub starter_pack_size: nat,
    pub intersection_size: nat,
    pub size_diff_factor: Fraction,
    pub overlap: Fraction,
    pub result: Fraction,
}

/// The score of the pack with members `pack` against the followed accounts
/// `follows`.
pub open spec fn score_of(pack: Set<Seq<char>>, follows: Set<Seq<char>>) -> ScoreModel {
    let shared = pack.intersect(follows).len();
    let larger = larger_of(pack.len(), follows.len());
    let smaller = smaller_of(pack.len(), follows.len());
    let size_diff_factor = Fraction {
        num: distance(shared, larger) as int,
        den: larger as int,
    }.complement();
    let overlap = Fraction { num: shared as int, den: smaller as int };
    ScoreModel {
        multi_follow_size: follows.len(),
        starter_pack_size: pack.len(),
        intersection_size: shared,
        size_diff_factor,
        overlap,
        result: overlap.times(size_diff_factor),
    }
}

/// How well one starter pack matches one batch of follows.
#[derive(Clone, Copy, Debug, PartialEq, Eq)]
pub struct OverlapScore {
    pub multi_follow_size: usize,
    pub starter_pack_size: usize,
    pub intersection_size: usize,
    pub size_diff_factor: Ratio,
    pub overlap: Ratio,
    pub result: Ratio,
}

impl View for OverlapScore {
    type V = ScoreModel;

    open spec fn view(&self) -> ScoreModel {
        ScoreModel {
            multi_follow_size: self.multi_follow_size as nat,
            starter_pack_size: self.starter_pack_size as nat,
            intersection_size: self.intersection_size as nat,
            size_diff_factor: self.size_diff_factor@,
            overlap: self.overlap@,
            result: self.result@,
        }
    }
}

impl OverlapScore {
    /// All three fractions have a denominator.
    pub open spec fn wf(self) -> bool {
        self.size_diff_factor.wf() && self.overlap.wf() && self.result.wf()
    }
}

/// A starter pack as it stood at one point in time: its identifier and the
/// accounts that were members.
#[derive(Debug)]
pub struct StarterPack {
    pub uri: String,
    pub participants: MemberSet,
}

impl StarterPack {
    /// The member set is well formed.
    pub open spec fn wf(&self) -> bool {
        self.participants.wf()
    }

    /// Scores this pack against the accounts `to` that a batch followed.
    ///
    /// Neither set may be empty: the two quotients have no value then.
    pub fn calculate_overlap(&self, to: &MemberSet) -> (r: OverlapScore)
        requires
            self.wf(),
            to.wf(),
            self.participants@.len() > 0,
            to@.len() > 0,
        ensures
            r@ == score_of(self.participants@, to@),
            r.wf(),
            r@.overlap.in_unit_interval(),
            r@.size_diff_factor.in_unit_interval(),
            r@.result.in_unit_interval(),
    {
        let intersection_size: usize = self.participants.intersection_size(to);
        let pack_size: usize = self.participants.len();
        let follow_size: usize = to.len();
        proof {
            self.participants.lemma_view_finite();
            to.lemma_view_finite();
            lemma_shared_at_most_smaller(self.participants@, to@);
        }
        let larger: usize = if follow_size >= pack_size {
            follow_size
        } else {
            pack_size
        };
        let smaller: usize = if follow_size <= pack_size {
            follow_size
        } else {
            pack_size
        };
        let size_difference: usize = if intersection_size >= larger {
            intersection_size - larger
        } else {
            larger - intersection_size
        };
        let size_diff_factor = Ratio {
            num: (larger - size_difference) as u128,
            den: larger as u128,
        };
        let overlap = Ratio { num: intersection_size as u128, den: smaller as u128 };
        proof {
            lemma_product_fits(
                overlap.num as int,
                size_diff_factor.num as int,
                u64::MAX as int,
            );
            lemma_product_fits(
                overlap.den as int,
                size_diff_factor.den as int,
                u64::MAX as int,
            );
            lemma_product_positive(overlap.den as int, size_diff_factor.den as int);
            lemma_score_in_unit_interval(self.participants@, to@);
        }
        OverlapScore {
            multi_follow_size: follow_size,
            starter_pack_size: pack_size,
            intersection_size,
            size_diff_factor,
            overlap,
            result: Ratio {
                num: overlap.num * size_diff_factor.num,
                den: overlap.den * size_diff_factor.den,
            },
        }
    }
}

/// Every pack has a well-formed member set.
pub open spec fn packs_wf(packs: Seq<StarterPack>) -> bool {
    forall|i: int| 0 <= i < packs.len() ==> (#[trigger] packs[i]).wf()
}

/// A product of two numbers up to `bound` is at most `bound * bound`.
proof fn lemma_product_fits(a: int, b: int, bound: int)
    requires
        0 <= a <= bound,
        0 <= b <= bound,
    ensures
        0 <= a * b <= bound * bound,
{
    assert(0 <= a * b <= bound * bound) by (nonlinear_arith)
        requires
            0 <= a <= bound,
            0 <= b <= bound,
    ;
}

/// A product of two positive numbers is positive.
proof fn lemma_product_positive(a: int, b: int)
    requires
        0 < a,
        0 < b,
    ensures
        0 < a * b,
{
    assert(0 < a * b) by (nonlinear_arith)
        requires
            0 < a,
            0 < b,
    ;
}

/// Two finite sets share at most as many elements as the smaller one has.
pub proof fn lemma_shared_at_most_smaller(a: Set<Seq<char>>, b: Set<Seq<char>>)
    requires
        a.finite(),
        b.finite(),
    ensures
        a.intersect(b).len() <= smaller_of(a.len(), b.len()),
        a.intersect(b).len() == b.intersect(a).len(),
{
    lemma_len_intersect(a, b);
    lemma_len_intersect(b, a);
    assert(a.intersect(b) =~= b.intersect(a));
}

/// For two finite sets that are not empty, the overlap, the size-difference
/// factor and their product, the result, each lie between zero and one.
pub proof fn lemma_score_in_unit_interval(pack: Set<Seq<char>>, follows: Set<Seq<char>>)
    requires
        pack.finite(),
        follows.finite(),
        pack.len() > 0,
        follows.len() > 0,
    ensures
        score_of(pack, follows).overlap.in_unit_interval(),
        score_of(pack, follows).size_diff_factor.in_unit_interval(),
        score_of(pack, follows).result.in_unit_interval(),
        score_of(pack, follows).result == score_of(pack, follows).overlap.times(
            score_of(pack, follows).size_diff_factor,
        ),
        score_of(pack, follows).overlap.wf(),
        score_of(pack, follows).size_diff_factor.wf(),
        score_of(pack, follows).result.wf(),
{
    lemma_shared_at_most_smaller(pack, follows);
    let s = score_of(pack, follows);
    lemma_product_fits(s.overlap.num, s.size_diff_factor.num, s.size_diff_factor.den);
    assert(s.overlap.num * s.size_diff_factor.num <= s.overlap.den * s.size_diff_factor.den)
        by (nonlinear_arith)
        requires
            0 <= s.overlap.num <= s.overlap.den,
            0 <= s.size_diff_factor.num <= s.size_diff_factor.den,
    ;
    lemma_product_positive(s.overlap.den, s.size_diff_factor.den);
}

/// The score does not depend on which of the two sets is the pack and which
/// the batch: exchanging them exchanges the two recorded sizes and leaves
/// the shared count, both factors and the result as they were.
pub proof fn lemma_score_symmetric(a: Set<Seq<char>>, b: Set<Seq<char>>)
    ensures
        score_of(a, b).intersection_size == score_of(b, a).intersection_size,
        score_of(a, b).overlap == score_of(b, a).overlap,
        score_of(a, b).size_diff_factor == score_of(b, a).size_diff_factor,
        score_of(a, b).result == score_of(b, a).result,
        score_of(a, b).multi_follow_size == score_of(b, a).starter_pack_size,
        score_of(a, b).starter_pack_size == score_of(b, a).multi_follow_size,
{
    assert(a.intersect(b) =~= b.intersect(a));
}

/// A finite set that is not empty matches itself perfectly: all of it is
/// shared, and the overlap, the size-difference factor and the result are
/// one.
pub proof fn lemma_score_of_identical_sets(a: Set<Seq<char>>)
    requires
        a.finite(),
        a.len() > 0,
    ensures
        score_of(a, a).intersection_size == a.len(),
        score_of(a, a).overlap.is_one(),
        score_of(a, a).size_diff_factor.is_one(),
        score_of(a, a).result.is_one(),
{
    assert(a.intersect(a) =~= a);
}

/// Two sets without a common element have overlap zero, and so result zero.
pub proof fn lemma_score_of_disjoint_sets(a: Set<Seq<char>>, b: Set<Seq<char>>)
    requires
        a.disjoint(b),
    ensures
        score_of(a, b).intersection_size == 0,
        score_of(a, b).overlap.is_zero(),
        score_of(a, b).result.is_zero(),
{
    assert(a.intersect(b) =~= Set::<Seq<char>>::empty());
    let s = score_of(a, b);
    assert(s.overlap.num * s.size_diff_factor.num == 0) by (nonlinear_arith)
        requires
            s.overlap.num == 0,
    ;
}

/// The overlap is zero exactly when the sets share nothing; for finite sets
/// that is when they are disjoint.
pub proof fn lemma_zero_overlap_is_disjoint(a: Set<Seq<char>>, b: Set<Seq<char>>)
    requires
        a.finite(),
        b.finite(),
    ensures
        score_of(a, b).overlap.is_zero() <==> a.disjoint(b),
{
    let shared = a.intersect(b);
    if a.disjoint(b) {
        assert(shared =~= Set::<Seq<char>>::empty());
    } else {
        let x = choose|x: Seq<char>| a.contains(x) && b.contains(x);
        assert(shared.contains(x));
        if shared.len() == 0 {
            shared.lemma_len0_is_empty();
        }
    }
}

} // verus!
