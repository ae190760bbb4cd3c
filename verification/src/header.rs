//! Header model and header translation.
//!
//! A header is an ordered sequence of typed entries; each entry carries an
//! ordered list of (tag name, tag value) pairs. Sequence-dictionary entries
//! (type `SQ`) name a contig in their `SN` tag. Translation rewrites each
//! `SQ` entry whose contig name has a translation, drops the ones whose name
//! has none, copies every other entry unchanged, and records the mapping from
//! old reference index to new reference index.

use vstd::prelude::*;

use crate::bytes::copy_bytes;
use crate::index_map::IndexMap;
use crate::table::TranslationTable;

verus! {

/// Mathematical model of one header tag: a (name, value) pair of byte strings.
#[verifier::ext_equal]
pub struct TagV {
    pub name: Seq<u8>,
    pub value: Seq<u8>,
}

/// Mathematical model of one header entry: a record type and its ordered tags.
#[verifier::ext_equal]
pub struct EntryV {
    pub rec_type: Seq<u8>,
    pub tags: Seq<TagV>,
}

/// One (tag name, tag value) pair of a header entry.
pub struct HeaderTag {
    pub name: Vec<u8>,
    pub value: Vec<u8>,
}

impl View for HeaderTag {
    type V = TagV;

    open spec fn view(&self) -> TagV {
        TagV { name: self.name@, value: self.value@ }
    }
}

/// One typed header entry, e.g. an `SQ`, `RG`, `PG` or `CO` record.
pub struct HeaderEntry {
    pub rec_type: Vec<u8>,
    pub tags: Vec<HeaderTag>,
}

/// The models of a tag list's elements, in order.
pub open spec fn tags_view(s: Seq<HeaderTag>) -> Seq<TagV> {
    s.map_values(|t: HeaderTag| t@)
}

impl View for HeaderEntry {
    type V = EntryV;

    open spec fn view(&self) -> EntryV {
        EntryV { rec_type: self.rec_type@, tags: tags_view(self.tags@) }
    }
}

/// The model of a whole header: the views of its entries, in order.
pub open spec fn header_view(s: Seq<HeaderEntry>) -> Seq<EntryV> {
    s.map_values(|e: HeaderEntry| e@)
}

/// The byte `S`, first letter of both the `SQ` record type and the `SN` tag.
pub const BYTE_S: u8 = 83;

/// The byte `Q`, second letter of the `SQ` record type.
pub const BYTE_Q: u8 = 81;

/// The byte `N`, second letter of the `SN` tag.
pub const BYTE_N: u8 = 78;

/// The record type of sequence-dictionary entries: `SQ`.
pub open spec fn spec_sq_type() -> Seq<u8> {
    seq![BYTE_S, BYTE_Q]
}

/// The tag that names a contig inside a sequence-dictionary entry: `SN`.
pub open spec fn spec_sn_tag() -> Seq<u8> {
    seq![BYTE_S, BYTE_N]
}

/// Whether an entry is a sequence-dictionary entry.
pub open spec fn is_sq(e: EntryV) -> bool {
    e.rec_type == spec_sq_type()
}

/// Whether a tag list carries a contig-name tag.
pub open spec fn has_sn(tags: Seq<TagV>) -> bool
    decreases tags.len(),
{
    if tags.len() == 0 {
        false
    } else if tags[0].name == spec_sn_tag() {
        true
    } else {
        has_sn(tags.drop_first())
    }
}

/// Position of the first contig-name tag in a tag list.
pub open spec fn sn_index(tags: Seq<TagV>) -> int
    recommends
        has_sn(tags),
    decreases tags.len(),
{
    if tags.len() == 0 {
        0
    } else if tags[0].name == spec_sn_tag() {
        0
    } else {
        1 + sn_index(tags.drop_first())
    }
}

/// The contig name an entry carries in its first `SN` tag.
pub open spec fn entry_name(e: EntryV) -> Seq<u8>
    recommends
        has_sn(e.tags),
{
    e.tags[sn_index(e.tags)].value
}

/// Whether translation keeps an entry: every non-`SQ` entry is kept; an `SQ`
/// entry is kept exactly when it names a contig that has a translation.
pub open spec fn keeps(e: EntryV, t: Map<Seq<u8>, Seq<u8>>) -> bool {
    if is_sq(e) {
        has_sn(e.tags) && t.dom().contains(entry_name(e))
    } else {
        true
    }
}

/// A kept entry after translation: an `SQ` entry has its contig name replaced
/// by its translation, every other tag is copied verbatim; a non-`SQ` entry is
/// returned unchanged.
pub open spec fn rename_entry(e: EntryV, t: Map<Seq<u8>, Seq<u8>>) -> EntryV {
    if is_sq(e) && has_sn(e.tags) && t.dom().contains(entry_name(e)) {
        EntryV {
            rec_type: e.rec_type,
            tags: e.tags.update(
                sn_index(e.tags),
                TagV { name: spec_sn_tag(), value: t[entry_name(e)] },
            ),
        }
    } else {
        e
    }
}

/// The translated header: kept entries, renamed, in their original order.
pub open spec fn translate_seq(s: Seq<EntryV>, t: Map<Seq<u8>, Seq<u8>>) -> Seq<EntryV>
    decreases s.len(),
{
    if s.len() == 0 {
        Seq::empty()
    } else {
        let rest = translate_seq(s.drop_last(), t);
        if keeps(s.last(), t) {
            rest.push(rename_entry(s.last(), t))
        } else {
            rest
        }
    }
}

/// Number of `SQ` entries: each one advances the old reference index by one.
pub open spec fn sq_count(s: Seq<EntryV>) -> int
    decreases s.len(),
{
    if s.len() == 0 {
        0
    } else {
        sq_count(s.drop_last()) + if is_sq(s.last()) {
            1int
        } else {
            0int
        }
    }
}

/// Number of `SQ` entries that translation keeps.
pub open spec fn kept_count(s: Seq<EntryV>, t: Map<Seq<u8>, Seq<u8>>) -> int
    decreases s.len(),
{
    if s.len() == 0 {
        0
    } else {
        kept_count(s.drop_last(), t) + if is_sq(s.last()) && keeps(s.last(), t) {
            1int
        } else {
            0int
        }
    }
}

/// The old-index-to-new-index map of a translation: each kept `SQ` entry maps
/// its old reference index to the position it takes among kept `SQ` entries.
pub open spec fn translate_map(s: Seq<EntryV>, t: Map<Seq<u8>, Seq<u8>>) -> Map<int, int>
    decreases s.len(),
{
    if s.len() == 0 {
        Map::empty()
    } else {
        let m = translate_map(s.drop_last(), t);
        if is_sq(s.last()) && keeps(s.last(), t) {
            m.insert(sq_count(s.drop_last()), kept_count(s.drop_last(), t))
        } else {
            m
        }
    }
}

/// The contig names of the `SQ` entries that carry one, in order.
pub open spec fn sq_names(s: Seq<EntryV>) -> Seq<Seq<u8>>
    decreases s.len(),
{
    if s.len() == 0 {
        Seq::empty()
    } else {
        let rest = sq_names(s.drop_last());
        if is_sq(s.last()) && has_sn(s.last().tags) {
            rest.push(entry_name(s.last()))
        } else {
            rest
        }
    }
}

/// One name per `SQ` entry, indexed by old reference index; an `SQ` entry
/// without a name tag contributes the empty name.
pub open spec fn old_names(s: Seq<EntryV>) -> Seq<Seq<u8>>
    decreases s.len(),
{
    if s.len() == 0 {
        Seq::empty()
    } else {
        let rest = old_names(s.drop_last());
        if is_sq(s.last()) {
            rest.push(
                if has_sn(s.last().tags) {
                    entry_name(s.last())
                } else {
                    Seq::empty()
                },
            )
        } else {
            rest
        }
    }
}

/// Counts are non-negative and no larger than the entry count, and no more
/// contigs are kept than there are `SQ` entries.
pub proof fn lemma_counts_bounds(s: Seq<EntryV>, t: Map<Seq<u8>, Seq<u8>>)
    ensures
        0 <= kept_count(s, t) <= sq_count(s) <= s.len(),
    decreases s.len(),
{
    if s.len() > 0 {
        lemma_counts_bounds(s.drop_last(), t);
    }
}

/// If position `k` holds the first `SN` tag, the tag list has an `SN` tag and
/// `k` is its index.
pub proof fn lemma_sn_at(tags: Seq<TagV>, k: int)
    requires
        0 <= k < tags.len(),
        tags[k].name == spec_sn_tag(),
        forall|j: int| 0 <= j < k ==> tags[j].name != spec_sn_tag(),
    ensures
        has_sn(tags),
        sn_index(tags) == k,
    decreases k,
{
    if k > 0 {
        let rest = tags.drop_first();
        assert(rest[k - 1] == tags[k]);
        assert(forall|j: int| 0 <= j < k - 1 ==> rest[j] == tags[j + 1]);
        lemma_sn_at(rest, k - 1);
    }
}

/// A tag list none of whose tags is named `SN` has no `SN` tag.
pub proof fn lemma_no_sn(tags: Seq<TagV>)
    requires
        forall|j: int| 0 <= j < tags.len() ==> tags[j].name != spec_sn_tag(),
    ensures
        !has_sn(tags),
    decreases tags.len(),
{
    if tags.len() > 0 {
        let rest = tags.drop_first();
        assert(forall|j: int| 0 <= j < rest.len() ==> rest[j] == tags[j + 1]);
        lemma_no_sn(rest);
    }
}

/// The index of the first `SN` tag is in range, points at an `SN` tag, and
/// nothing before it is an `SN` tag.
pub proof fn lemma_sn_index_props(tags: Seq<TagV>)
    requires
        has_sn(tags),
    ensures
        0 <= sn_index(tags) < tags.len(),
        tags[sn_index(tags)].name == spec_sn_tag(),
        forall|j: int| 0 <= j < sn_index(tags) ==> tags[j].name != spec_sn_tag(),
    decreases tags.len(),
{
    if tags[0].name != spec_sn_tag() {
        let rest = tags.drop_first();
        lemma_sn_index_props(rest);
        assert(forall|j: int| 0 <= j < rest.len() ==> rest[j] == tags[j + 1]);
        assert(tags[sn_index(tags)] == rest[sn_index(rest)]);
        assert forall|j: int| 0 <= j < sn_index(tags) implies tags[j].name != spec_sn_tag() by {
            if j > 0 {
                assert(tags[j] == rest[j - 1]);
            }
        }
    }
}

/// Whether a byte vector holds exactly the two given bytes.
fn tag_code_is(v: &Vec<u8>, c0: u8, c1: u8) -> (r: bool)
    ensures
        r <==> v@ == seq![c0, c1],
{
    if v.len() == 2 {
        let r = v[0] == c0 && v[1] == c1;
        proof {
            if r {
                assert(v@ =~= seq![c0, c1]);
            }
        }
        r
    } else {
        assert(v@.len() != 2);
        false
    }
}

/// Whether an entry is a sequence-dictionary (`SQ`) entry.
pub fn is_sq_entry(e: &HeaderEntry) -> (r: bool)
    ensures
        r == is_sq(e@),
{
    tag_code_is(&e.rec_type, BYTE_S, BYTE_Q)
}

/// The position of the first `SN` tag of an entry, if it has one.
pub fn find_sn(tags: &Vec<HeaderTag>) -> (r: Option<usize>)
    ensures
        match r {
            Some(k) => k < tags@.len() && has_sn(tags_view(tags@)) && k as int == sn_index(
                tags_view(tags@),
            ) && tags_view(tags@)[k as int].name == spec_sn_tag(),
            None => !has_sn(tags_view(tags@)),
        },
{
    let ghost tv = tags_view(tags@);
    let n = tags.len();
    let mut i: usize = 0;
    while i < n
        invariant
            n == tags@.len(),
            tv == tags_view(tags@),
            0 <= i <= n,
            forall|j: int| 0 <= j < i ==> tv[j].name != spec_sn_tag(),
        decreases n - i,
    {
        if tag_code_is(&tags[i].name, BYTE_S, BYTE_N) {
            proof {
                lemma_sn_at(tv, i as int);
            }
            return Some(i);
        }
        i = i + 1;
    }
    proof {
        lemma_no_sn(tv);
    }
    None
}

/// A fresh copy of a header tag.
pub fn clone_tag(t: &HeaderTag) -> (r: HeaderTag)
    ensures
        r@ == t@,
{
    HeaderTag { name: copy_bytes(&t.name), value: copy_bytes(&t.value) }
}

/// A fresh copy of a header entry.
pub fn clone_entry(e: &HeaderEntry) -> (r: HeaderEntry)
    ensures
        r@ == e@,
{
    let mut tags: Vec<HeaderTag> = Vec::new();
    let n = e.tags.len();
    let mut i: usize = 0;
    while i < n
        invariant
            n == e.tags@.len(),
            0 <= i <= n,
            tags_view(tags@) == e@.tags.take(i as int),
        decreases n - i,
    {
        let t = clone_tag(&e.tags[i]);
        let ghost pre = tags@;
        tags.push(t);
        proof {
            assert(tags_view(pre).len() == pre.len());
            assert(pre.len() == i);
            assert(tags@ == pre.push(t));
            assert forall|j: int| 0 <= j < i + 1 implies tags_view(tags@)[j] == e@.tags.take(
                i + 1,
            )[j] by {
                if j < i {
                    assert(tags@[j] == pre[j]);
                    assert(tags_view(pre)[j] == e@.tags.take(i as int)[j]);
                }
            }
            assert(tags_view(tags@) =~= e@.tags.take(i + 1));
        }
        i = i + 1;
    }
    let r = HeaderEntry { rec_type: copy_bytes(&e.rec_type), tags };
    proof {
        assert(e@.tags.take(n as int) =~= e@.tags);
        assert(r@ =~= e@);
    }
    r
}

/// A copy of a sequence-dictionary entry whose `SN` tag at position `k` is
/// given a new value; every other tag is copied verbatim.
pub fn rename_sq_entry(e: &HeaderEntry, k: usize, new_name: &Vec<u8>) -> (r: HeaderEntry)
    requires
        k < e.tags@.len(),
        e@.tags[k as int].name == spec_sn_tag(),
    ensures
        r@ == (EntryV {
            rec_type: e@.rec_type,
            tags: e@.tags.update(k as int, TagV { name: spec_sn_tag(), value: new_name@ }),
        }),
{
    let ghost target = e@.tags.update(
        k as int,
        TagV { name: spec_sn_tag(), value: new_name@ },
    );
    let mut tags: Vec<HeaderTag> = Vec::new();
    let n = e.tags.len();
    let mut i: usize = 0;
    while i < n
        invariant
            n == e.tags@.len(),
            0 <= i <= n,
            k < n,
            e@.tags[k as int].name == spec_sn_tag(),
            target == e@.tags.update(
                k as int,
                TagV { name: spec_sn_tag(), value: new_name@ },
            ),
            tags_view(tags@) == target.take(i as int),
        decreases n - i,
    {
        let t = if i == k {
            HeaderTag { name: copy_bytes(&e.tags[k].name), value: copy_bytes(new_name) }
        } else {
            clone_tag(&e.tags[i])
        };
        let ghost pre = tags@;
        tags.push(t);
        proof {
            assert(tags_view(pre).len() == pre.len());
            assert(pre.len() == i);
            assert(tags@ == pre.push(t));
            assert forall|j: int| 0 <= j < i + 1 implies tags_view(tags@)[j] == target.take(
                i + 1,
            )[j] by {
                if j < i {
                    assert(tags@[j] == pre[j]);
                    assert(tags_view(pre)[j] == target.take(i as int)[j]);
                }
            }
            assert(tags_view(tags@) =~= target.take(i + 1));
        }
        i = i + 1;
    }
    let r = HeaderEntry { rec_type: copy_bytes(&e.rec_type), tags };
    proof {
        assert(target.take(n as int) =~= target);
        assert(r@ =~= (EntryV { rec_type: e@.rec_type, tags: target }));
    }
    r
}

/// A translated header together with its old-to-new index map.
pub struct TranslatedHeader {
    pub entries: Vec<HeaderEntry>,
    pub index_map: IndexMap,
}

/// Translate a header in one pass.
///
/// Every `SQ` entry whose contig name has a translation is kept with the name
/// rewritten and its old reference index mapped to the next new index; an
/// `SQ` entry whose name has none is dropped and gets no new index; every
/// other entry is copied unchanged. Old indices advance once per `SQ` entry
/// of the original, whatever its fate.
pub fn translate_header(entries: &Vec<HeaderEntry>, table: &TranslationTable) -> (out:
    TranslatedHeader)
    requires
        entries@.len() <= i32::MAX,
    ensures
        header_view(out.entries@) == translate_seq(header_view(entries@), table@),
        out.index_map@ == translate_map(header_view(entries@), table@),
        out.index_map.wf(),
        out.index_map.num_old() == sq_count(header_view(entries@)),
        out.index_map.num_kept() == kept_count(header_view(entries@), table@),
{
    let ghost hv = header_view(entries@);
    let ghost t = table@;
    let mut new_entries: Vec<HeaderEntry> = Vec::new();
    let mut imap = IndexMap::new();
    let n = entries.len();
    let mut i: usize = 0;
    proof {
        assert(hv.take(0) =~= Seq::<EntryV>::empty());
    }
    while i < n
        invariant
            n == entries@.len(),
            n <= i32::MAX,
            0 <= i <= n,
            hv == header_view(entries@),
            t == table@,
            header_view(new_entries@) == translate_seq(hv.take(i as int), t),
            imap@ == translate_map(hv.take(i as int), t),
            imap.wf(),
            imap.num_old() == sq_count(hv.take(i as int)),
            imap.num_kept() == kept_count(hv.take(i as int), t),
        decreases n - i,
    {
        let ghost prefix = hv.take(i as int);
        let ghost step = hv.take(i + 1);
        proof {
            assert(step.drop_last() =~= prefix);
            assert(step.last() == hv[i as int]);
            lemma_counts_bounds(prefix, t);
        }
        let e = &entries[i];
        proof {
            assert(hv[i as int] == e@);
        }
        if is_sq_entry(e) {
            match find_sn(&e.tags) {
                Some(k) => {
                    proof {
                        assert(entry_name(e@) == e@.tags[k as int].value);
                        assert(e@.tags[k as int] == e.tags@[k as int]@);
                    }
                    match table.get(&e.tags[k].value) {
                        Some(new_name) => {
                            proof {
                                assert(t.dom().contains(entry_name(e@)));
                                assert(keeps(e@, t));
                            }
                            let ne = rename_sq_entry(e, k, new_name);
                            proof {
                                assert(ne@ == rename_entry(e@, t));
                            }
                            new_entries.push(ne);
                            imap.push_kept();
                            proof {
                                assert(header_view(new_entries@) =~= translate_seq(prefix, t).push(
                                    rename_entry(e@, t),
                                ));
                                assert(header_view(new_entries@) == translate_seq(step, t));
                            }
                        },
                        None => {
                            proof {
                                assert(!keeps(e@, t));
                            }
                            imap.push_skipped();
                            proof {
                                assert(header_view(new_entries@) == translate_seq(step, t));
                            }
                        },
                    }
                },
                None => {
                    // An `SQ` entry without a contig-name tag has no name to
                    // translate: it is dropped, and its old index advances.
                    proof {
                        assert(!keeps(e@, t));
                    }
                    imap.push_skipped();
                    proof {
                        assert(header_view(new_entries@) == translate_seq(step, t));
                    }
                },
            }
        } else {
            let ne = clone_entry(e);
            proof {
                assert(keeps(e@, t));
                assert(rename_entry(e@, t) == e@);
            }
            new_entries.push(ne);
            proof {
                assert(header_view(new_entries@) =~= translate_seq(prefix, t).push(e@));
                assert(header_view(new_entries@) == translate_seq(step, t));
            }
        }
        i = i + 1;
    }
    proof {
        assert(hv.take(n as int) =~= hv);
    }
    TranslatedHeader { entries: new_entries, index_map: imap }
}

/// The contig names of the original header, indexed by old reference index:
/// one name per `SQ` entry, in order; an `SQ` entry without a name tag
/// contributes an empty name.
pub fn sq_name_list(entries: &Vec<HeaderEntry>) -> (names: Vec<Vec<u8>>)
    ensures
        names@.map_values(|v: Vec<u8>| v@) == old_names(header_view(entries@)),
{
    let ghost hv = header_view(entries@);
    let mut names: Vec<Vec<u8>> = Vec::new();
    let n = entries.len();
    let mut i: usize = 0;
    proof {
        assert(hv.take(0) =~= Seq::<EntryV>::empty());
    }
    while i < n
        invariant
            n == entries@.len(),
            0 <= i <= n,
            hv == header_view(entries@),
            names@.map_values(|v: Vec<u8>| v@) == old_names(hv.take(i as int)),
        decreases n - i,
    {
        let ghost prefix = hv.take(i as int);
        let ghost step = hv.take(i + 1);
        proof {
            assert(step.drop_last() =~= prefix);
            assert(step.last() == hv[i as int]);
        }
        let e = &entries[i];
        proof {
            assert(hv[i as int] == e@);
        }
        if is_sq_entry(e) {
            match find_sn(&e.tags) {
                Some(k) => {
                    proof {
                        assert(entry_name(e@) == e.tags@[k as int]@.value);
                    }
                    names.push(copy_bytes(&e.tags[k].value));
                },
                None => {
                    names.push(Vec::new());
                },
            }
            proof {
                assert(names@.map_values(|v: Vec<u8>| v@) =~= old_names(step));
            }
        } else {
            proof {
                assert(names@.map_values(|v: Vec<u8>| v@) =~= old_names(step));
            }
        }
        i = i + 1;
    }
    proof {
        assert(hv.take(n as int) =~= hv);
    }
    names
}

} // verus!
