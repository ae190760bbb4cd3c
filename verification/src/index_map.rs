//! The old-index-to-new-index map built while translating a header.
//!
//! Old reference indices are dense (one per `SQ` entry of the original
//! header, in order), so the map is stored as one slot per old index: a kept
//! contig's slot holds its new index, a dropped contig's slot holds nothing.
//! The map is populated once, left to right, and read-only afterwards; since
//! every push covers a fresh old index, no old index can ever be mapped
//! twice.

use vstd::prelude::*;

verus! {

/// Number of filled slots in a prefix of the store.
pub open spec fn count_somes(s: Seq<Option<i32>>) -> int
    decreases s.len(),
{
    if s.len() == 0 {
        0
    } else {
        count_somes(s.drop_last()) + if s.last() is Some {
            1int
        } else {
            0int
        }
    }
}

proof fn lemma_count_somes_bounds(s: Seq<Option<i32>>)
    ensures
        0 <= count_somes(s) <= s.len(),
    decreases s.len(),
{
    if s.len() > 0 {
        lemma_count_somes_bounds(s.drop_last());
    }
}

proof fn lemma_count_somes_step(s: Seq<Option<i32>>, i: int)
    requires
        0 <= i < s.len(),
    ensures
        count_somes(s.take(i + 1)) == count_somes(s.take(i)) + if s[i] is Some {
            1int
        } else {
            0int
        },
{
    assert(s.take(i + 1).drop_last() =~= s.take(i));
    assert(s.take(i + 1).last() == s[i]);
}

proof fn lemma_count_somes_monotone(s: Seq<Option<i32>>, i: int, j: int)
    requires
        0 <= i <= j <= s.len(),
    ensures
        count_somes(s.take(i)) <= count_somes(s.take(j)),
    decreases j - i,
{
    if i < j {
        lemma_count_somes_monotone(s, i, j - 1);
        lemma_count_somes_step(s, j - 1);
    }
}

proof fn lemma_count_somes_preimage(s: Seq<Option<i32>>, v: int)
    requires
        0 <= v < count_somes(s),
    ensures
        exists|i: int|
            0 <= i < s.len() && s[i] is Some && count_somes(s.take(i)) == v,
    decreases s.len(),
{
    let n = s.len() - 1;
    assert(s.take(n) =~= s.drop_last());
    if s[n] is Some && v == count_somes(s.drop_last()) {
        assert(s[n] is Some && count_somes(s.take(n)) == v);
    } else {
        lemma_count_somes_bounds(s.drop_last());
        lemma_count_somes_preimage(s.drop_last(), v);
        let i = choose|i: int|
            0 <= i < s.drop_last().len() && s.drop_last()[i] is Some && count_somes(
                s.drop_last().take(i),
            ) == v;
        assert(s.drop_last().take(i) =~= s.take(i));
        assert(0 <= i < s.len() && s[i] is Some && count_somes(s.take(i)) == v);
    }
}

/// Map from old reference index to new reference index, with one slot per
/// old index.
pub struct IndexMap {
    slots: Vec<Option<i32>>,
    kept: i32,
}

impl IndexMap {
    /// The mapping itself: old index to new index, over kept contigs only.
    pub closed spec fn view(&self) -> Map<int, int> {
        Map::new(
            |i: int| 0 <= i < self.slots@.len() && self.slots@[i] is Some,
            |i: int| self.slots@[i]->Some_0 as int,
        )
    }

    /// Number of old reference indices covered so far.
    pub closed spec fn num_old(&self) -> int {
        self.slots@.len() as int
    }

    /// Number of kept contigs.
    pub closed spec fn num_kept(&self) -> int {
        self.kept as int
    }

    /// Each kept slot holds the number of kept slots before it, so new
    /// indices are assigned densely, in order of appearance.
    pub closed spec fn wf(&self) -> bool {
        &&& self.slots@.len() <= i32::MAX
        &&& self.kept as int == count_somes(self.slots@)
        &&& forall|i: int|
            0 <= i < self.slots@.len() && self.slots@[i] is Some ==> self.slots@[i]->Some_0
                == count_somes(self.slots@.take(i))
    }

    /// An empty map, covering no old index.
    pub fn new() -> (m: Self)
        ensures
            m.wf(),
            m@ == Map::<int, int>::empty(),
            m.num_old() == 0,
            m.num_kept() == 0,
    {
        let m = IndexMap { slots: Vec::new(), kept: 0 };
        proof {
            assert(m@ =~= Map::<int, int>::empty());
        }
        m
    }

    /// Record the next old index as kept: it is assigned the next new index.
    pub fn push_kept(&mut self)
        requires
            old(self).wf(),
            old(self).num_old() < i32::MAX,
        ensures
            final(self).wf(),
            final(self)@ == old(self)@.insert(old(self).num_old(), old(self).num_kept()),
            final(self).num_old() == old(self).num_old() + 1,
            final(self).num_kept() == old(self).num_kept() + 1,
    {
        proof {
            lemma_count_somes_bounds(self.slots@);
        }
        let n: i32 = self.kept;
        self.slots.push(Some(n));
        self.kept = self.kept + 1;
        proof {
            let s = self.slots@;
            let prev = old(self).slots@;
            assert(s.drop_last() =~= prev);
            assert(forall|i: int|
                0 <= i < prev.len() ==> s.take(i) =~= prev.take(i));
            assert(s.take(s.len() - 1) =~= prev);
            assert(self@ =~= old(self)@.insert(old(self).num_old(), old(self).num_kept()));
        }
    }

    /// Record the next old index as dropped: it is given no new index.
    pub fn push_skipped(&mut self)
        requires
            old(self).wf(),
            old(self).num_old() < i32::MAX,
        ensures
            final(self).wf(),
            final(self)@ == old(self)@,
            final(self).num_old() == old(self).num_old() + 1,
            final(self).num_kept() == old(self).num_kept(),
    {
        self.slots.push(None);
        proof {
            let s = self.slots@;
            let prev = old(self).slots@;
            assert(s.drop_last() =~= prev);
            assert(forall|i: int|
                0 <= i < prev.len() ==> s.take(i) =~= prev.take(i));
            assert(self@ =~= old(self)@);
        }
    }

    /// Look up the new index of an old reference index; `None` when the old
    /// index was dropped or never covered (in particular for `-1`).
    pub fn get(&self, old_index: i32) -> (r: Option<i32>)
        ensures
            match r {
                Some(n) => self@.dom().contains(old_index as int)
                    && n as int == self@[old_index as int],
                None => !self@.dom().contains(old_index as int),
            },
    {
        if old_index < 0 {
            return None;
        }
        let idx = old_index as usize;
        if idx >= self.slots.len() {
            return None;
        }
        self.slots[idx]
    }

    /// Number of old reference indices covered.
    pub fn old_len(&self) -> (n: usize)
        ensures
            n == self.num_old(),
    {
        self.slots.len()
    }

    /// Number of kept contigs.
    pub fn kept_len(&self) -> (n: i32)
        requires
            self.wf(),
        ensures
            n as int == self.num_kept(),
            0 <= n,
    {
        proof {
            lemma_count_somes_bounds(self.slots@);
        }
        self.kept
    }

    /// The new indices of a well-formed map are exactly `0 .. num_kept()`:
    /// every kept old index gets a new index below the number of kept
    /// contigs, no two old indices share a new index, and every new index
    /// below that number is used.
    pub proof fn lemma_bijective(&self)
        requires
            self.wf(),
        ensures
            forall|i: int| self@.dom().contains(i) ==> 0 <= i < self.num_old(),
            forall|i: int| self@.dom().contains(i) ==> 0 <= #[trigger] self@[i] < self.num_kept(),
            forall|i: int, j: int|
                self@.dom().contains(i) && self@.dom().contains(j) && i != j
                    ==> self@[i] != self@[j],
            forall|v: int| 0 <= v < self.num_kept() ==> #[trigger] self@.contains_value(v),
    {
        let s = self.slots@;
        assert forall|i: int| self@.dom().contains(i) implies 0 <= #[trigger] self@[i]
            < self.num_kept() by {
            lemma_count_somes_bounds(s.take(i));
            lemma_count_somes_step(s, i);
            lemma_count_somes_monotone(s, i + 1, s.len() as int);
            assert(s.take(s.len() as int) =~= s);
        }
        assert forall|i: int, j: int|
            self@.dom().contains(i) && self@.dom().contains(j) && i != j
            implies self@[i] != self@[j] by {
            if i < j {
                lemma_count_somes_step(s, i);
                lemma_count_somes_monotone(s, i + 1, j);
            } else {
                lemma_count_somes_step(s, j);
                lemma_count_somes_monotone(s, j + 1, i);
            }
        }
        assert forall|v: int| 0 <= v < self.num_kept() implies #[trigger] self@.contains_value(
            v,
        ) by {
            lemma_count_somes_preimage(s, v);
            let i = choose|i: int|
                0 <= i < s.len() && s[i] is Some && count_somes(s.take(i)) == v;
            assert(self@.dom().contains(i) && self@[i] == v);
        }
    }
}

} // verus!
