//! Alignment-record remapping.
//!
//! A record carries a reference index (`tid`), a mate reference index
//! (`mtid`), a read name and auxiliary tag values. Remapping rewrites both
//! indices through the index map built during header translation: a record
//! is kept when at least one of its indices is mapped, the unmapped side
//! becoming `-1`; a record with neither index mapped is dropped and counted
//! against its original contig. Independently, a configured auxiliary tag's
//! string value may be appended to the read name.

use vstd::prelude::*;

use crate::bytes::copy_bytes;
use crate::index_map::IndexMap;
use crate::stats::{count_in, DropStatistics};

verus! {

/// The byte `_`, put between the read name and an appended tag value.
pub const BYTE_UNDERSCORE: u8 = 95;

/// Mathematical model of one auxiliary value: a tagged union over the
/// variants the remapper can meet; only the string variant is ever consumed.
#[verifier::ext_equal]
pub enum AuxValueV {
    Str(Seq<u8>),
    Int(int),
    IntArray(Seq<int>),
}

/// One auxiliary value of a record.
pub enum AuxValue {
    Str(Vec<u8>),
    Int(i64),
    IntArray(Vec<i64>),
}

impl View for AuxValue {
    type V = AuxValueV;

    open spec fn view(&self) -> AuxValueV {
        match self {
            AuxValue::Str(v) => AuxValueV::Str(v@),
            AuxValue::Int(n) => AuxValueV::Int(*n as int),
            AuxValue::IntArray(v) => AuxValueV::IntArray(v@.map_values(|x: i64| x as int)),
        }
    }
}

/// Mathematical model of one auxiliary field: a two-byte tag code and its
/// value.
#[verifier::ext_equal]
pub struct AuxFieldV {
    pub code0: u8,
    pub code1: u8,
    pub value: AuxValueV,
}

/// One auxiliary field of a record.
pub struct AuxField {
    pub code0: u8,
    pub code1: u8,
    pub value: AuxValue,
}

impl View for AuxField {
    type V = AuxFieldV;

    open spec fn view(&self) -> AuxFieldV {
        AuxFieldV { code0: self.code0, code1: self.code1, value: self.value@ }
    }
}

/// The models of a record's auxiliary fields, in order.
pub open spec fn aux_view(s: Seq<AuxField>) -> Seq<AuxFieldV> {
    s.map_values(|f: AuxField| f@)
}

/// Mathematical model of one alignment record.
#[verifier::ext_equal]
pub struct RecordV {
    pub tid: int,
    pub mtid: int,
    pub qname: Seq<u8>,
    pub aux: Seq<AuxFieldV>,
}

/// One alignment record, as the remapper sees it: its reference indices
/// (`-1` meaning unmapped), its read name, and its auxiliary fields.
pub struct AlignmentRecord {
    pub tid: i32,
    pub mtid: i32,
    pub qname: Vec<u8>,
    pub aux: Vec<AuxField>,
}

impl View for AlignmentRecord {
    type V = RecordV;

    open spec fn view(&self) -> RecordV {
        RecordV {
            tid: self.tid as int,
            mtid: self.mtid as int,
            qname: self.qname@,
            aux: aux_view(self.aux@),
        }
    }
}

/// The value of the first auxiliary field carrying the given tag code.
pub open spec fn aux_lookup(aux: Seq<AuxFieldV>, c0: u8, c1: u8) -> Option<AuxValueV>
    decreases aux.len(),
{
    if aux.len() == 0 {
        None
    } else if aux[0].code0 == c0 && aux[0].code1 == c1 {
        Some(aux[0].value)
    } else {
        aux_lookup(aux.drop_first(), c0, c1)
    }
}

/// The read name after the optional tag append: when the looked-up tag is
/// present with a string value, an underscore and that value are appended;
/// otherwise the name is unchanged.
pub open spec fn appended_name(q: Seq<u8>, aux: Seq<AuxFieldV>, c0: u8, c1: u8) -> Seq<u8> {
    match aux_lookup(aux, c0, c1) {
        Some(AuxValueV::Str(v)) => q + seq![BYTE_UNDERSCORE] + v,
        _ => q,
    }
}

proof fn lemma_aux_at(aux: Seq<AuxFieldV>, c0: u8, c1: u8, k: int)
    requires
        0 <= k < aux.len(),
        aux[k].code0 == c0 && aux[k].code1 == c1,
        forall|j: int| 0 <= j < k ==> aux[j].code0 != c0 || aux[j].code1 != c1,
    ensures
        aux_lookup(aux, c0, c1) == Some(aux[k].value),
    decreases k,
{
    if k > 0 {
        let rest = aux.drop_first();
        assert(rest[k - 1] == aux[k]);
        assert(forall|j: int| 0 <= j < k - 1 ==> rest[j] == aux[j + 1]);
        lemma_aux_at(rest, c0, c1, k - 1);
    }
}

proof fn lemma_no_aux(aux: Seq<AuxFieldV>, c0: u8, c1: u8)
    requires
        forall|j: int| 0 <= j < aux.len() ==> aux[j].code0 != c0 || aux[j].code1 != c1,
    ensures
        aux_lookup(aux, c0, c1) is None,
    decreases aux.len(),
{
    if aux.len() > 0 {
        let rest = aux.drop_first();
        assert(forall|j: int| 0 <= j < rest.len() ==> rest[j] == aux[j + 1]);
        lemma_no_aux(rest, c0, c1);
    }
}

/// Position of the first auxiliary field carrying the given tag code.
fn find_aux(aux: &Vec<AuxField>, c0: u8, c1: u8) -> (r: Option<usize>)
    ensures
        match r {
            Some(k) => k < aux@.len() && aux_lookup(aux_view(aux@), c0, c1) == Some(
                aux_view(aux@)[k as int].value,
            ),
            None => aux_lookup(aux_view(aux@), c0, c1) is None,
        },
{
    let ghost av = aux_view(aux@);
    let n = aux.len();
    let mut i: usize = 0;
    while i < n
        invariant
            n == aux@.len(),
            av == aux_view(aux@),
            0 <= i <= n,
            forall|j: int| 0 <= j < i ==> av[j].code0 != c0 || av[j].code1 != c1,
        decreases n - i,
    {
        if aux[i].code0 == c0 && aux[i].code1 == c1 {
            proof {
                lemma_aux_at(av, c0, c1, i as int);
            }
            return Some(i);
        }
        i = i + 1;
    }
    proof {
        lemma_no_aux(av, c0, c1);
    }
    None
}

/// The bytes of a string-typed auxiliary value, copied out.
fn aux_value_bytes(value: &AuxValue) -> (r: Option<Vec<u8>>)
    ensures
        match r {
            Some(b) => value@ == AuxValueV::Str(b@),
            None => !(value@ is Str),
        },
{
    match value {
        AuxValue::Str(v) => Some(copy_bytes(v)),
        _ => None,
    }
}

/// Append the configured tag's string value to the read name.
///
/// When the record carries an auxiliary field with the given tag code and a
/// string value, the read name becomes `name`, `_`, value; a missing tag, or
/// one of another type, leaves the name unchanged — neither is an error.
pub fn append_tag_to_name(rec: &mut AlignmentRecord, c0: u8, c1: u8)
    requires
        match aux_lookup(old(rec)@.aux, c0, c1) {
            Some(AuxValueV::Str(v)) => old(rec)@.qname.len() + 1 + v.len() <= usize::MAX,
            _ => true,
        },
    ensures
        final(rec).tid == old(rec).tid,
        final(rec).mtid == old(rec).mtid,
        final(rec)@.aux == old(rec)@.aux,
        final(rec)@.qname == appended_name(old(rec)@.qname, old(rec)@.aux, c0, c1),
{
    let extra = match find_aux(&rec.aux, c0, c1) {
        Some(k) => aux_value_bytes(&rec.aux[k].value),
        None => None,
    };
    match extra {
        Some(v) => {
            proof {
                assert(aux_lookup(rec@.aux, c0, c1) == Some(AuxValueV::Str(v@)));
            }
            let ghost target = rec.qname@ + seq![BYTE_UNDERSCORE] + v@;
            rec.qname.push(BYTE_UNDERSCORE);
            let m = v.len();
            let mut i: usize = 0;
            proof {
                assert(rec.qname@ =~= target.take(old(rec)@.qname.len() as int + 1));
            }
            while i < m
                invariant
                    m == v@.len(),
                    0 <= i <= m,
                    target.len() == old(rec)@.qname.len() + 1 + m,
                    target == old(rec)@.qname + seq![BYTE_UNDERSCORE] + v@,
                    rec.qname@ == target.take(old(rec)@.qname.len() as int + 1 + i),
                    rec.tid == old(rec).tid,
                    rec.mtid == old(rec).mtid,
                    rec.aux == old(rec).aux,
                    old(rec)@.qname.len() + 1 + m <= usize::MAX,
                decreases m - i,
            {
                rec.qname.push(v[i]);
                proof {
                    assert(target.take(old(rec)@.qname.len() as int + 1 + i).push(v@[i as int])
                        =~= target.take(old(rec)@.qname.len() as int + 1 + (i + 1)));
                }
                i = i + 1;
            }
            proof {
                assert(target.take(old(rec)@.qname.len() as int + 1 + m) =~= target);
            }
        },
        None => {
            proof {
                assert(match aux_lookup(rec@.aux, c0, c1) {
                    Some(AuxValueV::Str(_)) => false,
                    _ => true,
                });
            }
        },
    }
}

/// Rewrite a record's reference indices through the index map.
///
/// A record is kept when its reference index or its mate's is mapped: each
/// mapped index is replaced by its new value, an unmapped one becomes `-1`.
/// When neither is mapped the record is left untouched and `false` says it
/// is to be dropped.
pub fn remap_indices(rec: &mut AlignmentRecord, map: &IndexMap) -> (kept: bool)
    ensures
        kept == (map@.dom().contains(old(rec).tid as int) || map@.dom().contains(
            old(rec).mtid as int,
        )),
        final(rec)@.qname == old(rec)@.qname,
        final(rec)@.aux == old(rec)@.aux,
        kept ==> final(rec).tid as int == (if map@.dom().contains(old(rec).tid as int) {
            map@[old(rec).tid as int]
        } else {
            -1
        }),
        kept ==> final(rec).mtid as int == (if map@.dom().contains(old(rec).mtid as int) {
            map@[old(rec).mtid as int]
        } else {
            -1
        }),
        !kept ==> final(rec).tid == old(rec).tid && final(rec).mtid == old(rec).mtid,
{
    let new_tid = map.get(rec.tid);
    let new_mtid = map.get(rec.mtid);
    match (new_tid, new_mtid) {
        (Some(a), Some(b)) => {
            rec.tid = a;
            rec.mtid = b;
            true
        },
        (Some(a), None) => {
            rec.tid = a;
            rec.mtid = -1;
            true
        },
        (None, Some(b)) => {
            rec.tid = -1;
            rec.mtid = b;
            true
        },
        (None, None) => false,
    }
}

/// Process one record against the index map: append the configured tag's
/// string value to the read name, then remap both reference indices, and on
/// a drop account the record to its original contig.
///
/// `original_names` are the original header's contig names by old reference
/// index. A kept record leaves the statistics untouched; a dropped record
/// bumps its original contig's counter and the total by exactly one.
pub fn process_record(
    rec: &mut AlignmentRecord,
    map: &IndexMap,
    original_names: &Vec<Vec<u8>>,
    stats: &mut DropStatistics,
    c0: u8,
    c1: u8,
) -> (kept: bool)
    requires
        old(stats).wf(),
        old(stats).total() < u64::MAX,
        match aux_lookup(old(rec)@.aux, c0, c1) {
            Some(AuxValueV::Str(v)) => old(rec)@.qname.len() + 1 + v.len() <= usize::MAX,
            _ => true,
        },
        !(map@.dom().contains(old(rec).tid as int) || map@.dom().contains(old(rec).mtid as int))
            ==> 0 <= old(rec).tid && (old(rec).tid as int) < original_names@.len(),
    ensures
        kept == (map@.dom().contains(old(rec).tid as int) || map@.dom().contains(
            old(rec).mtid as int,
        )),
        final(rec)@.qname == appended_name(old(rec)@.qname, old(rec)@.aux, c0, c1),
        final(rec)@.aux == old(rec)@.aux,
        final(stats).wf(),
        kept ==> final(rec).tid as int == (if map@.dom().contains(old(rec).tid as int) {
            map@[old(rec).tid as int]
        } else {
            -1
        }),
        kept ==> final(rec).mtid as int == (if map@.dom().contains(old(rec).mtid as int) {
            map@[old(rec).mtid as int]
        } else {
            -1
        }),
        kept ==> *final(stats) == *old(stats),
        !kept ==> final(rec).tid == old(rec).tid && final(rec).mtid == old(rec).mtid,
        !kept ==> final(stats)@ == old(stats)@.insert(
            original_names@[old(rec).tid as int]@,
            count_in(old(stats)@, original_names@[old(rec).tid as int]@) + 1,
        ),
        !kept ==> final(stats).total() == old(stats).total() + 1,
{
    append_tag_to_name(rec, c0, c1);
    let kept = remap_indices(rec, map);
    if !kept {
        let idx = rec.tid as usize;
        stats.record_drop(&original_names[idx]);
    }
    kept
}

} // verus!

