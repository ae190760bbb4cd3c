//! Accounting of dropped records, grouped by original contig name.
//!
//! A run-long accumulator: every dropped record bumps the counter of the
//! contig it was aligned to in the original header, and a total counter.
//! Counters only grow; the summary is read once, at the end of a run.

use vstd::prelude::*;

use crate::bytes::{bytes_eq, copy_bytes};

verus! {

/// One contig's drop counter.
pub struct ContigCount {
    pub name: Vec<u8>,
    pub count: u64,
}

/// The mapping a counter list denotes.
pub open spec fn counts_view(s: Seq<ContigCount>) -> Map<Seq<u8>, int>
    decreases s.len(),
{
    if s.len() == 0 {
        Map::empty()
    } else {
        counts_view(s.drop_last()).insert(s.last().name@, s.last().count as int)
    }
}

/// The count a mapping holds for a name, zero when the name is absent.
pub open spec fn count_in(m: Map<Seq<u8>, int>, n: Seq<u8>) -> int {
    if m.dom().contains(n) {
        m[n]
    } else {
        0
    }
}

proof fn lemma_counts_view_absent(s: Seq<ContigCount>, n: Seq<u8>)
    requires
        forall|j: int| 0 <= j < s.len() ==> s[j].name@ != n,
    ensures
        !counts_view(s).dom().contains(n),
    decreases s.len(),
{
    if s.len() > 0 {
        assert(forall|j: int| 0 <= j < s.drop_last().len() ==> s.drop_last()[j] == s[j]);
        lemma_counts_view_absent(s.drop_last(), n);
    }
}

proof fn lemma_counts_view_at(s: Seq<ContigCount>, i: int)
    requires
        0 <= i < s.len(),
        forall|j: int| i < j < s.len() ==> s[j].name@ != s[i].name@,
    ensures
        counts_view(s).dom().contains(s[i].name@),
        counts_view(s)[s[i].name@] == s[i].count as int,
    decreases s.len(),
{
    if i < s.len() - 1 {
        assert(forall|j: int| 0 <= j < s.drop_last().len() ==> s.drop_last()[j] == s[j]);
        lemma_counts_view_at(s.drop_last(), i);
    }
}

proof fn lemma_counts_view_update(s: Seq<ContigCount>, i: int, c: ContigCount)
    requires
        0 <= i < s.len(),
        c.name@ == s[i].name@,
        forall|j: int| 0 <= j < s.len() && j != i ==> s[j].name@ != s[i].name@,
    ensures
        counts_view(s.update(i, c)) == counts_view(s).insert(c.name@, c.count as int),
    decreases s.len(),
{
    let u = s.update(i, c);
    if i == s.len() - 1 {
        assert(u.drop_last() =~= s.drop_last());
        assert(u.last() == c);
        assert(counts_view(u) =~= counts_view(s).insert(c.name@, c.count as int));
    } else {
        assert(u.drop_last() =~= s.drop_last().update(i, c));
        assert(u.last() == s.last());
        assert(forall|j: int| 0 <= j < s.drop_last().len() ==> s.drop_last()[j] == s[j]);
        lemma_counts_view_update(s.drop_last(), i, c);
        assert(s.last().name@ != s[i].name@);
        assert(counts_view(u) =~= counts_view(s).insert(c.name@, c.count as int));
    }
}

/// Position of a name among the counters, if it is listed.
fn find_name(counts: &Vec<ContigCount>, name: &Vec<u8>) -> (r: Option<usize>)
    ensures
        match r {
            Some(i) => i < counts@.len() && counts@[i as int].name@ == name@ && forall|j: int|
                0 <= j < i ==> counts@[j].name@ != name@,
            None => forall|j: int| 0 <= j < counts@.len() ==> counts@[j].name@ != name@,
        },
{
    let n = counts.len();
    let mut i: usize = 0;
    while i < n
        invariant
            n == counts@.len(),
            0 <= i <= n,
            forall|j: int| 0 <= j < i ==> counts@[j].name@ != name@,
        decreases n - i,
    {
        if bytes_eq(&counts[i].name, name) {
            return Some(i);
        }
        i = i + 1;
    }
    None
}

/// Counts of dropped records: one counter per original contig name, plus a
/// total.
pub struct DropStatistics {
    counts: Vec<ContigCount>,
    total: u64,
}

impl DropStatistics {
    /// Mapping from original contig name to how many of its records were
    /// dropped.
    pub closed spec fn view(&self) -> Map<Seq<u8>, int> {
        counts_view(self.counts@)
    }

    /// Total number of dropped records.
    pub closed spec fn total(&self) -> int {
        self.total as int
    }

    /// Names are listed once each, and every counter is at least one and at
    /// most the total.
    pub closed spec fn wf(&self) -> bool {
        &&& forall|i: int, j: int|
            0 <= i < j < self.counts@.len() ==> self.counts@[i].name@ != self.counts@[j].name@
        &&& forall|i: int|
            0 <= i < self.counts@.len() ==> 1 <= #[trigger] self.counts@[i].count as int
                <= self.total as int
    }

    /// An empty accumulator.
    pub fn new() -> (s: Self)
        ensures
            s.wf(),
            s@ == Map::<Seq<u8>, int>::empty(),
            s.total() == 0,
    {
        let s = DropStatistics { counts: Vec::new(), total: 0 };
        s
    }

    /// Account one dropped record to a contig: its counter grows by one
    /// (starting from zero if the name is new), and so does the total.
    pub fn record_drop(&mut self, name: &Vec<u8>)
        requires
            old(self).wf(),
            old(self).total() < u64::MAX,
        ensures
            final(self).wf(),
            final(self)@ == old(self)@.insert(name@, count_in(old(self)@, name@) + 1),
            final(self).total() == old(self).total() + 1,
    {
        match find_name(&self.counts, name) {
            Some(i) => {
                proof {
                    assert(forall|j: int|
                        i < j < self.counts@.len() ==> self.counts@[j].name@
                            != self.counts@[i as int].name@);
                    lemma_counts_view_at(self.counts@, i as int);
                }
                let ghost pre = self.counts@;
                let c = self.counts[i].count;
                let updated = ContigCount { name: copy_bytes(&self.counts[i].name), count: c + 1 };
                self.counts[i] = updated;
                self.total = self.total + 1;
                proof {
                    assert(self.counts@ == pre.update(i as int, updated));
                    lemma_counts_view_update(pre, i as int, updated);
                    assert(updated.name@ == name@);
                    assert(self@ == old(self)@.insert(name@, count_in(old(self)@, name@) + 1));
                    assert forall|a: int|
                        0 <= a < self.counts@.len() implies 1 <= #[trigger] self.counts@[a].count
                        as int <= self.total as int by {
                        if a != i {
                            assert(self.counts@[a] == pre[a]);
                        }
                    }
                }
            },
            None => {
                proof {
                    lemma_counts_view_absent(self.counts@, name@);
                }
                let ghost pre = self.counts@;
                let fresh = ContigCount { name: copy_bytes(name), count: 1 };
                self.counts.push(fresh);
                self.total = self.total + 1;
                proof {
                    assert(self.counts@ == pre.push(fresh));
                    assert(self.counts@.drop_last() =~= pre);
                    assert(self@ == old(self)@.insert(name@, count_in(old(self)@, name@) + 1));
                    assert forall|a: int, b: int|
                        0 <= a < b < self.counts@.len() implies self.counts@[a].name@
                        != self.counts@[b].name@ by {
                        assert(self.counts@[a] == pre[a]);
                        if b < pre.len() {
                            assert(self.counts@[b] == pre[b]);
                        }
                    }
                    assert forall|a: int|
                        0 <= a < self.counts@.len() implies 1 <= #[trigger] self.counts@[a].count
                        as int <= self.total as int by {
                        if a < pre.len() {
                            assert(self.counts@[a] == pre[a]);
                        }
                    }
                }
            },
        }
    }

    /// The total number of dropped records.
    pub fn total_count(&self) -> (n: u64)
        ensures
            n as int == self.total(),
    {
        self.total
    }

    /// The count recorded for one contig name, zero when none was.
    pub fn count_for(&self, name: &Vec<u8>) -> (c: u64)
        requires
            self.wf(),
        ensures
            c as int == count_in(self@, name@),
    {
        match find_name(&self.counts, name) {
            Some(i) => {
                proof {
                    assert(forall|j: int|
                        i < j < self.counts@.len() ==> self.counts@[j].name@
                            != self.counts@[i as int].name@);
                    lemma_counts_view_at(self.counts@, i as int);
                }
                self.counts[i].count
            },
            None => {
                proof {
                    lemma_counts_view_absent(self.counts@, name@);
                }
                0
            },
        }
    }

    /// The per-contig counters, for reporting: each listed name is counted in
    /// the summary mapping with the listed count, and no name is listed
    /// twice.
    pub fn entries(&self) -> (r: &Vec<ContigCount>)
        requires
            self.wf(),
        ensures
            counts_view(r@) == self@,
            forall|i: int, j: int| 0 <= i < j < r@.len() ==> r@[i].name@ != r@[j].name@,
            forall|i: int|
                0 <= i < r@.len() ==> self@.dom().contains(#[trigger] r@[i].name@)
                    && self@[r@[i].name@] == r@[i].count as int,
    {
        proof {
            assert forall|i: int|
                0 <= i < self.counts@.len() implies self@.dom().contains(
                #[trigger] self.counts@[i].name@,
            ) && self@[self.counts@[i].name@] == self.counts@[i].count as int by {
                lemma_counts_view_at(self.counts@, i);
            }
        }
        &self.counts
    }
}

} // verus!
