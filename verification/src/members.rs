//! Finite sets of account identifiers.
//!
//! An identifier is an opaque string; a set keeps each identifier once,
//! together with its fingerprint, by which a search passes over most of the
//! other identifiers without reading them.

use vstd::prelude::*;
use crate::fingerprint::{fingerprint, fingerprint_of};

verus! {

/// The texts, as character sequences, that a vector of strings holds.
pub open spec fn texts_of(ids: Seq<String>) -> Seq<Seq<char>> {
    Seq::new(ids.len(), |i: int| ids[i]@)
}

/// A set of account identifiers.
#[derive(Debug)]
pub struct MemberSet {
    ids: Vec<String>,
    marks: Vec<u64>,
}

impl View for MemberSet {
    type V = Set<Seq<char>>;

    closed spec fn view(&self) -> Set<Seq<char>> {
        texts_of(self.ids@).to_set()
    }
}

impl MemberSet {
    /// No identifier is stored twice, and each is stored with its
    /// fingerprint.
    pub closed spec fn wf(&self) -> bool {
        &&& texts_of(self.ids@).no_duplicates()
        &&& self.marks@.len() == self.ids@.len()
        &&& forall|i: int|
            0 <= i < self.ids@.len() ==> #[trigger] self.marks@[i] == fingerprint_of(self.ids@[i]@)
    }

    /// The set of identifiers is finite.
    pub proof fn lemma_view_finite(&self)
        ensures
            self@.finite(),
    {
    }

    /// The empty set.
    pub fn new() -> (r: MemberSet)
        ensures
            r.wf(),
            r@ == Set::<Seq<char>>::empty(),
    {
        MemberSet { ids: Vec::new(), marks: Vec::new() }
    }

    /// Number of identifiers in the set.
    pub fn len(&self) -> (n: usize)
        requires
            self.wf(),
        ensures
            n == self@.len(),
    {
        proof {
            texts_of(self.ids@).unique_seq_to_set();
        }
        self.ids.len()
    }

    /// Whether the set has no element.
    pub fn is_empty(&self) -> (r: bool)
        ensures
            r == (self@ == Set::<Seq<char>>::empty()),
            r == (self@.len() == 0),
    {
        let r = self.ids.len() == 0;
        proof {
            if r {
                assert(self@ =~= Set::<Seq<char>>::empty());
            } else {
                assert(self@.contains(texts_of(self.ids@)[0]));
            }
        }
        r
    }

    /// Position of `id`, whose fingerprint is `mark`, in the vector, if it
    /// is stored.
    fn position(&self, id: &String, mark: u64) -> (r: Option<usize>)
        requires
            self.wf(),
            mark == fingerprint_of(id@),
        ensures
            match r {
                Some(i) => i < self.ids@.len() && self.ids@[i as int]@ == id@,
                None => !self@.contains(id@),
            },
    {
        let mut i: usize = 0;
        while i < self.ids.len()
            invariant
                self.wf(),
                mark == fingerprint_of(id@),
                i <= self.ids@.len(),
                forall|j: int| 0 <= j < i ==> self.ids@[j]@ != id@,
            decreases self.ids@.len() - i,
        {
            if self.marks[i] == mark && self.ids[i] == *id {
                return Some(i);
            }
            i += 1;
        }
        assert(!texts_of(self.ids@).contains(id@));
        None
    }

    /// Whether `id` is an element.
    pub fn contains(&self, id: &String) -> (r: bool)
        requires
            self.wf(),
        ensures
            r == self@.contains(id@),
    {
        let found = self.position(id, fingerprint(id));
        proof {
            if let Some(i) = found {
                assert(texts_of(self.ids@)[i as int] == id@);
            }
        }
        found.is_some()
    }

    /// Adds `id`. Returns whether it was new; adding an element again
    /// changes nothing.
    pub fn insert(&mut self, id: String) -> (fresh: bool)
        requires
            old(self).wf(),
        ensures
            final(self).wf(),
            final(self)@ == old(self)@.insert(id@),
            fresh == !old(self)@.contains(id@),
    {
        let mark = fingerprint(&id);
        if self.position(&id, mark).is_some() {
            assert(texts_of(self.ids@).contains(id@)) by {
                let i = choose|i: int| 0 <= i < self.ids@.len() && self.ids@[i]@ == id@;
                assert(texts_of(self.ids@)[i] == id@);
            }
            false
        } else {
            let ghost before = texts_of(self.ids@);
            self.ids.push(id);
            self.marks.push(mark);
            proof {
                let after = texts_of(self.ids@);
                assert(after =~= before.push(id@));
                before.lemma_push_to_set_commute(id@);
            }
            true
        }
    }

    /// Takes `id` out. Returns whether it was an element; taking out an
    /// identifier that is not in the set changes nothing.
    pub fn remove(&mut self, id: &String) -> (found: bool)
        requires
            old(self).wf(),
        ensures
            final(self).wf(),
            final(self)@ == old(self)@.remove(id@),
            found == old(self)@.contains(id@),
    {
        match self.position(id, fingerprint(id)) {
            None => false,
            Some(i) => {
                let ghost before = texts_of(self.ids@);
                self.ids.remove(i);
                self.marks.remove(i);
                proof {
                    let after = texts_of(self.ids@);
                    assert(before[i as int] == id@);
                    assert(after =~= before.remove(i as int));
                    assert forall|x: Seq<char>|
                        after.to_set().contains(x) <==> before.to_set().remove(id@).contains(
                            x,
                        ) by {
                        if before.contains(x) && x != id@ {
                            let k = choose|k: int| 0 <= k < before.len() && before[k] == x;
                            if k < i {
                                assert(after[k] == x);
                            } else {
                                assert(after[k - 1] == x);
                            }
                        }
                    }
                }
                true
            },
        }
    }

    /// Number of identifiers that are in both sets.
    pub fn intersection_size(&self, other: &MemberSet) -> (n: usize)
        requires
            self.wf(),
            other.wf(),
        ensures
            n == self@.intersect(other@).len(),
    {
        let ghost names = texts_of(self.ids@);
        let mut n: usize = 0;
        let mut i: usize = 0;
        proof {
            assert(names.take(0).to_set().intersect(other@) =~= Set::<Seq<char>>::empty());
        }
        while i < self.ids.len()
            invariant
                self.wf(),
                other.wf(),
                i <= self.ids@.len(),
                names == texts_of(self.ids@),
                names.no_duplicates(),
                n <= i,
                n == names.take(i as int).to_set().intersect(other@).len(),
            decreases self.ids@.len() - i,
        {
            let found = other.position(&self.ids[i], self.marks[i]);
            let hit = found.is_some();
            proof {
                if let Some(o) = found {
                    assert(texts_of(other.ids@)[o as int] == self.ids@[i as int]@);
                }
                let seen = names.take(i as int);
                let next = names.take(i + 1);
                let x = names[i as int];
                assert(next =~= seen.push(x));
                seen.lemma_push_to_set_commute(x);
                if hit {
                    assert(next.to_set().intersect(other@) =~= seen.to_set().intersect(
                        other@,
                    ).insert(x));
                } else {
                    assert(next.to_set().intersect(other@) =~= seen.to_set().intersect(other@));
                }
            }
            if hit {
                n += 1;
            }
            i += 1;
        }
        assert(names.take(i as int) =~= names);
        n
    }

    /// The identifiers of the set, each once, in no particular order.
    pub fn to_vec(&self) -> (v: Vec<String>)
        requires
            self.wf(),
        ensures
            texts_of(v@).no_duplicates(),
            texts_of(v@).to_set() == self@,
    {
        let mut v: Vec<String> = Vec::new();
        let mut i: usize = 0;
        while i < self.ids.len()
            invariant
                i <= self.ids@.len(),
                v@.len() == i,
                forall|j: int| 0 <= j < i ==> v@[j]@ == self.ids@[j]@,
            decreases self.ids@.len() - i,
        {
            v.push(self.ids[i].clone());
            i += 1;
        }
        assert(texts_of(v@) =~= texts_of(self.ids@));
        v
    }
}

} // verus!
