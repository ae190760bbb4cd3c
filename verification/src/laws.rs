//! Laws of header translation.
//!
//! Public proof functions stating what the translation guarantees across
//! functions: which contigs appear in the new header and in the index map,
//! that the original order is kept, and that translating an
//! already-translated header again changes nothing.

use vstd::prelude::*;

use crate::header::{
    entry_name, has_sn, is_sq, keeps, kept_count, lemma_counts_bounds, lemma_sn_at,
    lemma_sn_index_props, rename_entry, sn_index, spec_sn_tag, sq_count, sq_names, translate_map,
    translate_seq, EntryV, TagV,
};

verus! {

/// How often a name occurs in a name list.
pub open spec fn count_name(ns: Seq<Seq<u8>>, n: Seq<u8>) -> int
    decreases ns.len(),
{
    if ns.len() == 0 {
        0
    } else {
        count_name(ns.drop_last(), n) + if ns.last() == n {
            1int
        } else {
            0int
        }
    }
}

/// Renaming a kept sequence-dictionary entry keeps it a sequence-dictionary
/// entry, keeps its name tag in place, and sets its name to the translation.
proof fn lemma_rename_entry_facts(e: EntryV, t: Map<Seq<u8>, Seq<u8>>)
    requires
        is_sq(e),
        has_sn(e.tags),
        t.dom().contains(entry_name(e)),
    ensures
        is_sq(rename_entry(e, t)),
        has_sn(rename_entry(e, t).tags),
        sn_index(rename_entry(e, t).tags) == sn_index(e.tags),
        entry_name(rename_entry(e, t)) == t[entry_name(e)],
{
    let k = sn_index(e.tags);
    lemma_sn_index_props(e.tags);
    let u = e.tags.update(k, TagV { name: spec_sn_tag(), value: t[entry_name(e)] });
    assert(u[k].name == spec_sn_tag());
    assert(forall|j: int| 0 <= j < k ==> u[j] == e.tags[j]);
    lemma_sn_at(u, k);
}

/// Every key of the translation map is an old index below the number of
/// `SQ` entries.
proof fn lemma_map_dom_bound(s: Seq<EntryV>, t: Map<Seq<u8>, Seq<u8>>)
    ensures
        forall|k: int|
            translate_map(s, t).dom().contains(k) ==> 0 <= k < sq_count(s),
    decreases s.len(),
{
    if s.len() > 0 {
        lemma_map_dom_bound(s.drop_last(), t);
        lemma_counts_bounds(s.drop_last(), t);
        assert forall|k: int|
            translate_map(s, t).dom().contains(k) implies 0 <= k < sq_count(s) by {
            if translate_map(s.drop_last(), t).dom().contains(k) {
                assert(0 <= k < sq_count(s.drop_last()));
            }
        }
    }
}

/// One step of the prefix counters.
proof fn lemma_count_step(s: Seq<EntryV>, t: Map<Seq<u8>, Seq<u8>>, i: int)
    requires
        0 <= i < s.len(),
    ensures
        sq_count(s.take(i + 1)) == sq_count(s.take(i)) + if is_sq(s[i]) {
            1int
        } else {
            0int
        },
        kept_count(s.take(i + 1), t) == kept_count(s.take(i), t) + if is_sq(s[i]) && keeps(
            s[i],
            t,
        ) {
            1int
        } else {
            0int
        },
{
    assert(s.take(i + 1).drop_last() =~= s.take(i));
    assert(s.take(i + 1).last() == s[i]);
}

/// The prefix counters never decrease.
proof fn lemma_counts_monotone(s: Seq<EntryV>, t: Map<Seq<u8>, Seq<u8>>, i: int, j: int)
    requires
        0 <= i <= j <= s.len(),
    ensures
        sq_count(s.take(i)) <= sq_count(s.take(j)),
        kept_count(s.take(i), t) <= kept_count(s.take(j), t),
    decreases j - i,
{
    if i < j {
        lemma_counts_monotone(s, t, i, j - 1);
        lemma_count_step(s, t, j - 1);
    }
}

/// The new header has one contig name per kept `SQ` entry.
proof fn lemma_out_names_len(s: Seq<EntryV>, t: Map<Seq<u8>, Seq<u8>>)
    ensures
        sq_names(translate_seq(s, t)).len() == kept_count(s, t),
    decreases s.len(),
{
    if s.len() > 0 {
        lemma_out_names_len(s.drop_last(), t);
        let e = s.last();
        if keeps(e, t) {
            let out = translate_seq(s, t);
            assert(out.drop_last() =~= translate_seq(s.drop_last(), t));
            assert(out.last() == rename_entry(e, t));
            if is_sq(e) {
                lemma_rename_entry_facts(e, t);
            }
        }
    }
}

/// Where a sequence-dictionary entry of the original lands: a kept one's old
/// index is mapped to the position its translation takes among the new
/// header's contigs, and a dropped one's old index is not mapped at all.
proof fn lemma_translated_entry(s: Seq<EntryV>, t: Map<Seq<u8>, Seq<u8>>, i: int)
    requires
        0 <= i < s.len(),
        is_sq(s[i]),
    ensures
        keeps(s[i], t) ==> translate_map(s, t).dom().contains(sq_count(s.take(i)))
            && translate_map(s, t)[sq_count(s.take(i))] == kept_count(s.take(i), t)
            && sq_names(translate_seq(s, t))[kept_count(s.take(i), t)] == t[entry_name(s[i])]
            && 0 <= kept_count(s.take(i), t) < sq_names(translate_seq(s, t)).len(),
        !keeps(s[i], t) ==> !translate_map(s, t).dom().contains(sq_count(s.take(i))),
    decreases s.len(),
{
    let n = s.len() - 1;
    let dl = s.drop_last();
    assert(s.take(n) =~= dl);
    lemma_out_names_len(s, t);
    lemma_counts_bounds(s.take(i), t);
    if i == n {
        if keeps(s[i], t) {
            lemma_rename_entry_facts(s[i], t);
            let out = translate_seq(s, t);
            assert(out.drop_last() =~= translate_seq(dl, t));
            assert(out.last() == rename_entry(s[i], t));
            lemma_out_names_len(dl, t);
            assert(sq_names(out) == sq_names(translate_seq(dl, t)).push(t[entry_name(s[i])]));
        } else {
            lemma_map_dom_bound(dl, t);
            assert(translate_map(s, t) == translate_map(dl, t));
            assert(sq_count(s.take(i)) == sq_count(dl));
            assert(!translate_map(dl, t).dom().contains(sq_count(dl)));
        }
    } else {
        lemma_translated_entry(dl, t, i);
        assert(dl[i] == s[i]);
        assert(dl.take(i) =~= s.take(i));
        lemma_count_step(s, t, i);
        lemma_counts_monotone(s, t, i + 1, n);
        lemma_out_names_len(dl, t);
        assert(sq_count(s.take(i)) < sq_count(dl)) by {
            assert(sq_count(s.take(i + 1)) == sq_count(s.take(i)) + 1);
            assert(sq_count(s.take(n)) == sq_count(dl));
        }
        if !keeps(s[i], t) {
            assert(!translate_map(dl, t).dom().contains(sq_count(s.take(i))));
            if is_sq(s.last()) && keeps(s.last(), t) {
                assert(translate_map(s, t) == translate_map(dl, t).insert(
                    sq_count(dl),
                    kept_count(dl, t),
                ));
                assert(!translate_map(s, t).dom().contains(sq_count(s.take(i))));
            } else {
                assert(translate_map(s, t) == translate_map(dl, t));
            }
        }
        if keeps(s.last(), t) {
            let out = translate_seq(s, t);
            assert(out.drop_last() =~= translate_seq(dl, t));
            assert(out.last() == rename_entry(s.last(), t));
            if is_sq(s.last()) {
                lemma_rename_entry_facts(s.last(), t);
                assert(sq_names(out) == sq_names(translate_seq(dl, t)).push(
                    t[entry_name(s.last())],
                ));
            } else {
                assert(sq_names(out) == sq_names(translate_seq(dl, t)));
            }
        }
    }
}

/// A contig with a translation is kept: its old reference index is mapped,
/// the new index is the number of kept contigs before it, and the new header
/// carries the translated name at exactly that position among its contigs.
pub proof fn lemma_present_contig(s: Seq<EntryV>, t: Map<Seq<u8>, Seq<u8>>, i: int)
    requires
        0 <= i < s.len(),
        is_sq(s[i]),
        has_sn(s[i].tags),
        t.dom().contains(entry_name(s[i])),
    ensures
        translate_map(s, t).dom().contains(sq_count(s.take(i))),
        translate_map(s, t)[sq_count(s.take(i))] == kept_count(s.take(i), t),
        0 <= kept_count(s.take(i), t) < sq_names(translate_seq(s, t)).len(),
        sq_names(translate_seq(s, t))[kept_count(s.take(i), t)] == t[entry_name(s[i])],
{
    lemma_translated_entry(s, t, i);
}

/// A contig without a translation is dropped: its old reference index is not
/// mapped, and — as long as no other contig translates to its name — its
/// name does not occur in the new header.
pub proof fn lemma_absent_contig(s: Seq<EntryV>, t: Map<Seq<u8>, Seq<u8>>, i: int)
    requires
        0 <= i < s.len(),
        is_sq(s[i]),
        has_sn(s[i].tags),
        !t.dom().contains(entry_name(s[i])),
        !t.values().contains(entry_name(s[i])),
    ensures
        !translate_map(s, t).dom().contains(sq_count(s.take(i))),
        count_name(sq_names(translate_seq(s, t)), entry_name(s[i])) == 0,
{
    lemma_translated_entry(s, t, i);
    lemma_untranslated_name_absent(s, t, entry_name(s[i]));
}

/// A name that is no contig's translation never occurs in the new header.
proof fn lemma_untranslated_name_absent(s: Seq<EntryV>, t: Map<Seq<u8>, Seq<u8>>, c: Seq<u8>)
    requires
        !t.values().contains(c),
    ensures
        count_name(sq_names(translate_seq(s, t)), c) == 0,
    decreases s.len(),
{
    if s.len() > 0 {
        lemma_untranslated_name_absent(s.drop_last(), t, c);
        let e = s.last();
        let out_dl = translate_seq(s.drop_last(), t);
        if keeps(e, t) {
            let out = translate_seq(s, t);
            assert(out.drop_last() =~= out_dl);
            assert(out.last() == rename_entry(e, t));
            if is_sq(e) {
                lemma_rename_entry_facts(e, t);
                assert(t.contains_value(t[entry_name(e)])) by {
                    assert(t.dom().contains(entry_name(e)) && t[entry_name(e)] == t[entry_name(
                        e,
                    )]);
                }
                assert(sq_names(out) == sq_names(out_dl).push(t[entry_name(e)]));
                assert(sq_names(out).drop_last() =~= sq_names(out_dl));
                assert(sq_names(out).last() == t[entry_name(e)]);
                assert(t[entry_name(e)] != c);
            } else {
                assert(rename_entry(e, t) == e);
                assert(sq_names(out) == sq_names(out_dl));
            }
        } else {
            assert(translate_seq(s, t) == out_dl);
        }
    }
}

/// Translation touches name multiplicities exactly as expected: for a contig
/// name with a translation that no other translated name shares, the new
/// header holds its translation as often as the original held the name. In
/// particular, a contig listed once comes out exactly once.
pub proof fn lemma_kept_name_count(s: Seq<EntryV>, t: Map<Seq<u8>, Seq<u8>>, c: Seq<u8>)
    requires
        t.dom().contains(c),
        forall|d: Seq<u8>| t.dom().contains(d) && d != c ==> t[d] != t[c],
    ensures
        count_name(sq_names(translate_seq(s, t)), t[c]) == count_name(sq_names(s), c),
    decreases s.len(),
{
    if s.len() > 0 {
        lemma_kept_name_count(s.drop_last(), t, c);
        let e = s.last();
        let names_dl = sq_names(s.drop_last());
        let out_dl = translate_seq(s.drop_last(), t);
        if is_sq(e) && has_sn(e.tags) {
            assert(sq_names(s) == names_dl.push(entry_name(e)));
            assert(sq_names(s).drop_last() =~= names_dl);
            assert(sq_names(s).last() == entry_name(e));
            if t.dom().contains(entry_name(e)) {
                lemma_rename_entry_facts(e, t);
                let out = translate_seq(s, t);
                assert(out.drop_last() =~= out_dl);
                assert(out.last() == rename_entry(e, t));
                assert(sq_names(out) == sq_names(out_dl).push(t[entry_name(e)]));
                assert(sq_names(out).drop_last() =~= sq_names(out_dl));
                assert(sq_names(out).last() == t[entry_name(e)]);
                if entry_name(e) == c {
                    assert(t[entry_name(e)] == t[c]);
                } else {
                    assert(t[entry_name(e)] != t[c]);
                }
            } else {
                assert(entry_name(e) != c);
                assert(translate_seq(s, t) == out_dl);
            }
        } else {
            assert(sq_names(s) == names_dl);
            if keeps(e, t) {
                let out = translate_seq(s, t);
                assert(out.drop_last() =~= out_dl);
                assert(out.last() == rename_entry(e, t));
                assert(rename_entry(e, t) == e);
                assert(sq_names(out) == sq_names(out_dl));
            }
        }
    }
}

/// The new header's contig names are exactly the original contig names that
/// have a translation, in their original order, each replaced by its
/// translation: kept contigs are never reordered.
pub proof fn lemma_order_preserved(s: Seq<EntryV>, t: Map<Seq<u8>, Seq<u8>>)
    ensures
        sq_names(translate_seq(s, t)) == sq_names(s).filter(
            |n: Seq<u8>| t.dom().contains(n),
        ).map_values(|n: Seq<u8>| t[n]),
    decreases s.len(),
{
    reveal(Seq::filter);
    let pred = |n: Seq<u8>| t.dom().contains(n);
    let f = |n: Seq<u8>| t[n];
    if s.len() == 0 {
        assert(sq_names(translate_seq(s, t)) =~= sq_names(s).filter(pred).map_values(f));
    } else {
        lemma_order_preserved(s.drop_last(), t);
        let e = s.last();
        let names_dl = sq_names(s.drop_last());
        let out_dl = translate_seq(s.drop_last(), t);
        if is_sq(e) && has_sn(e.tags) {
            assert(sq_names(s) == names_dl.push(entry_name(e)));
            assert(sq_names(s).drop_last() =~= names_dl);
            assert(sq_names(s).last() == entry_name(e));
            if t.dom().contains(entry_name(e)) {
                lemma_rename_entry_facts(e, t);
                let out = translate_seq(s, t);
                assert(out.drop_last() =~= out_dl);
                assert(out.last() == rename_entry(e, t));
                assert(sq_names(out) == sq_names(out_dl).push(t[entry_name(e)]));
                assert(sq_names(s).filter(pred) == names_dl.filter(pred).push(entry_name(e)));
                assert(sq_names(s).filter(pred).map_values(f) =~= names_dl.filter(pred)
                    .map_values(f).push(f(entry_name(e))));
            } else {
                assert(translate_seq(s, t) == out_dl);
                assert(sq_names(s).filter(pred) == names_dl.filter(pred));
            }
        } else {
            assert(sq_names(s) == names_dl);
            if keeps(e, t) {
                let out = translate_seq(s, t);
                assert(out.drop_last() =~= out_dl);
                assert(out.last() == rename_entry(e, t));
                assert(rename_entry(e, t) == e);
                assert(sq_names(out) == sq_names(out_dl));
            }
        }
    }
}

/// Translating through a table that maps every contig of the header to
/// itself changes nothing, and maps the old indices identically onto
/// themselves.
pub proof fn lemma_identity_translation(s: Seq<EntryV>, t: Map<Seq<u8>, Seq<u8>>)
    requires
        forall|i: int|
            0 <= i < s.len() && is_sq(#[trigger] s[i]) ==> has_sn(s[i].tags) && t.dom().contains(
                entry_name(s[i]),
            ) && t[entry_name(s[i])] == entry_name(s[i]),
    ensures
        translate_seq(s, t) == s,
        kept_count(s, t) == sq_count(s),
        translate_map(s, t) == Map::new(|i: int| 0 <= i < sq_count(s), |i: int| i),
    decreases s.len(),
{
    if s.len() == 0 {
        assert(translate_seq(s, t) =~= s);
        assert(translate_map(s, t) =~= Map::new(|i: int| 0 <= i < sq_count(s), |i: int| i));
    } else {
        let dl = s.drop_last();
        assert(forall|i: int| 0 <= i < dl.len() ==> dl[i] == s[i]);
        lemma_identity_translation(dl, t);
        let e = s.last();
        assert(e == s[s.len() - 1]);
        if is_sq(e) {
            lemma_sn_index_props(e.tags);
            let k = sn_index(e.tags);
            assert(e.tags[k] =~= (TagV { name: spec_sn_tag(), value: t[entry_name(e)] }));
            assert(e.tags.update(k, TagV { name: spec_sn_tag(), value: t[entry_name(e)] })
                =~= e.tags);
            assert(rename_entry(e, t) =~= e);
            assert(translate_seq(s, t) =~= s);
            lemma_counts_bounds(dl, t);
            assert(translate_map(s, t) =~= Map::new(|i: int| 0 <= i < sq_count(s), |i: int| i));
        } else {
            assert(rename_entry(e, t) == e);
            assert(translate_seq(s, t) =~= s);
            assert(translate_map(s, t) =~= Map::new(|i: int| 0 <= i < sq_count(s), |i: int| i));
        }
    }
}

/// Every sequence-dictionary entry of a translated header carries a contig
/// name, and that name is among the new header's contig names.
proof fn lemma_out_entries_named(s: Seq<EntryV>, t: Map<Seq<u8>, Seq<u8>>)
    ensures
        forall|i: int|
            0 <= i < translate_seq(s, t).len() && is_sq(#[trigger] translate_seq(s, t)[i])
                ==> has_sn(translate_seq(s, t)[i].tags) && sq_names(translate_seq(s, t)).contains(
                entry_name(translate_seq(s, t)[i]),
            ),
    decreases s.len(),
{
    if s.len() > 0 {
        lemma_out_entries_named(s.drop_last(), t);
        let e = s.last();
        let out = translate_seq(s, t);
        let out_dl = translate_seq(s.drop_last(), t);
        if keeps(e, t) {
            assert(out.drop_last() =~= out_dl);
            assert(out.last() == rename_entry(e, t));
            if is_sq(e) {
                lemma_rename_entry_facts(e, t);
                assert(sq_names(out) == sq_names(out_dl).push(t[entry_name(e)]));
            } else {
                assert(rename_entry(e, t) == e);
                assert(sq_names(out) == sq_names(out_dl));
            }
            assert forall|i: int|
                0 <= i < out.len() && is_sq(#[trigger] out[i]) implies has_sn(out[i].tags)
                && sq_names(out).contains(entry_name(out[i])) by {
                if i < out_dl.len() {
                    assert(out[i] == out_dl[i]);
                    let n = entry_name(out_dl[i]);
                    if is_sq(out_dl[i]) {
                        let w = choose|w: int|
                            0 <= w < sq_names(out_dl).len() && sq_names(out_dl)[w] == n;
                        assert(sq_names(out)[w] == n);
                    }
                } else {
                    assert(out[i] == rename_entry(e, t));
                    if is_sq(out[i]) {
                        assert(sq_names(out).last() == entry_name(out[i]));
                    }
                }
            }
        }
    }
}

/// A translated header has as many sequence-dictionary entries as contigs
/// were kept.
proof fn lemma_out_sq_count(s: Seq<EntryV>, t: Map<Seq<u8>, Seq<u8>>)
    ensures
        sq_count(translate_seq(s, t)) == kept_count(s, t),
    decreases s.len(),
{
    if s.len() > 0 {
        lemma_out_sq_count(s.drop_last(), t);
        let e = s.last();
        if keeps(e, t) {
            let out = translate_seq(s, t);
            assert(out.drop_last() =~= translate_seq(s.drop_last(), t));
            assert(out.last() == rename_entry(e, t));
            if is_sq(e) {
                lemma_rename_entry_facts(e, t);
            }
        }
    }
}

/// Translating is idempotent: running an already-translated header through a
/// table that maps each of its contig names to itself reproduces the header,
/// and yields the identity map over the dense new indices `0 .. k` for the
/// `k` kept contigs.
pub proof fn lemma_translate_idempotent(
    s: Seq<EntryV>,
    t: Map<Seq<u8>, Seq<u8>>,
    t_id: Map<Seq<u8>, Seq<u8>>,
)
    requires
        forall|n: Seq<u8>|
            #[trigger] sq_names(translate_seq(s, t)).contains(n) ==> t_id.dom().contains(n)
                && t_id[n] == n,
    ensures
        translate_seq(translate_seq(s, t), t_id) == translate_seq(s, t),
        translate_map(translate_seq(s, t), t_id) == Map::new(
            |i: int| 0 <= i < kept_count(s, t),
            |i: int| i,
        ),
{
    lemma_out_entries_named(s, t);
    lemma_out_sq_count(s, t);
    assert forall|i: int|
        0 <= i < translate_seq(s, t).len() && is_sq(#[trigger] translate_seq(s, t)[i])
        implies has_sn(translate_seq(s, t)[i].tags) && t_id.dom().contains(
        entry_name(translate_seq(s, t)[i]),
    ) && t_id[entry_name(translate_seq(s, t)[i])] == entry_name(translate_seq(s, t)[i]) by {
        assert(has_sn(translate_seq(s, t)[i].tags));
        assert(sq_names(translate_seq(s, t)).contains(entry_name(translate_seq(s, t)[i])));
    }
    lemma_identity_translation(translate_seq(s, t), t_id);
}

} // verus!
