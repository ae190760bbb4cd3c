//! The contig-name translation table.
//!
//! An immutable mapping from old contig name to new contig name. It is built
//! once from a list of (key, value) pairs — as loaded, for instance, from a
//! two-column delimited file — where a later pair with the same key
//! overwrites an earlier one, and is read-only afterwards.

use vstd::prelude::*;

use crate::bytes::bytes_eq;

verus! {

/// One (old name, new name) pair of the translation table.
pub struct TranslationPair {
    pub key: Vec<u8>,
    pub value: Vec<u8>,
}

/// The mapping a pair list denotes: pairs apply left to right, so a later
/// duplicate key overwrites an earlier one.
pub open spec fn table_view(ps: Seq<(Seq<u8>, Seq<u8>)>) -> Map<Seq<u8>, Seq<u8>>
    decreases ps.len(),
{
    if ps.len() == 0 {
        Map::empty()
    } else {
        table_view(ps.drop_last()).insert(ps.last().0, ps.last().1)
    }
}

/// The pairs a pair list holds, as a sequence of views.
pub open spec fn pairs_view(ps: Seq<TranslationPair>) -> Seq<(Seq<u8>, Seq<u8>)> {
    ps.map_values(|p: TranslationPair| (p.key@, p.value@))
}

proof fn lemma_table_view_skip(ps: Seq<(Seq<u8>, Seq<u8>)>, k: Seq<u8>, i: int)
    requires
        0 <= i <= ps.len(),
        forall|j: int| i <= j < ps.len() ==> ps[j].0 != k,
    ensures
        table_view(ps).dom().contains(k) == table_view(ps.take(i)).dom().contains(k),
        table_view(ps).dom().contains(k) ==> table_view(ps)[k] == table_view(ps.take(i))[k],
    decreases ps.len() - i,
{
    if i < ps.len() {
        lemma_table_view_skip(ps, k, i + 1);
        lemma_table_view_prefix_step(ps, k, i);
    } else {
        assert(ps.take(i) =~= ps);
    }
}

proof fn lemma_table_view_prefix_step(ps: Seq<(Seq<u8>, Seq<u8>)>, k: Seq<u8>, i: int)
    requires
        0 <= i < ps.len(),
        ps[i].0 != k,
    ensures
        table_view(ps.take(i + 1)).dom().contains(k) == table_view(ps.take(i)).dom().contains(k),
        table_view(ps.take(i + 1)).dom().contains(k) ==> table_view(ps.take(i + 1))[k]
            == table_view(ps.take(i))[k],
{
    assert(ps.take(i + 1).drop_last() =~= ps.take(i));
    assert(ps.take(i + 1).last() == ps[i]);
}

/// Immutable mapping from old contig name to new contig name.
pub struct TranslationTable {
    pairs: Vec<TranslationPair>,
}

impl TranslationTable {
    /// The mapping: later pairs overwrite earlier ones with the same key.
    pub closed spec fn view(&self) -> Map<Seq<u8>, Seq<u8>> {
        table_view(pairs_view(self.pairs@))
    }

    /// Build the table from its pairs.
    pub fn new(pairs: Vec<TranslationPair>) -> (t: Self)
        ensures
            t@ == table_view(pairs_view(pairs@)),
    {
        TranslationTable { pairs }
    }

    /// The translation of a contig name, or `None` when the name has none.
    pub fn get(&self, name: &Vec<u8>) -> (r: Option<&Vec<u8>>)
        ensures
            match r {
                Some(v) => self@.dom().contains(name@) && v@ == self@[name@],
                None => !self@.dom().contains(name@),
            },
    {
        let ghost ps = pairs_view(self.pairs@);
        let mut i: usize = self.pairs.len();
        while i > 0
            invariant
                0 <= i <= self.pairs@.len(),
                ps == pairs_view(self.pairs@),
                forall|j: int| i <= j < ps.len() ==> ps[j].0 != name@,
            decreases i,
        {
            i = i - 1;
            if bytes_eq(&self.pairs[i].key, name) {
                proof {
                    lemma_table_view_skip(ps, name@, i + 1);
                    assert(ps.take(i + 1).drop_last() =~= ps.take(i as int));
                    assert(ps.take(i + 1).last() == ps[i as int]);
                    assert(table_view(ps.take(i + 1)).dom().contains(name@));
                    assert(table_view(ps.take(i + 1))[name@] == ps[i as int].1);
                }
                return Some(&self.pairs[i].value);
            }
        }
        proof {
            lemma_table_view_skip(ps, name@, 0);
            assert(ps.take(0) =~= Seq::<(Seq<u8>, Seq<u8>)>::empty());
        }
        None
    }
}

} // verus!
