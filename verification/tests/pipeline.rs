use contig_rename::header::{sq_name_list, translate_header, HeaderEntry, HeaderTag};
use contig_rename::record::{
    append_tag_to_name, process_record, remap_indices, AlignmentRecord, AuxField, AuxValue,
};
use contig_rename::stats::DropStatistics;
use contig_rename::table::{TranslationPair, TranslationTable};

fn sq_entry(name: &[u8], length: &[u8]) -> HeaderEntry {
    HeaderEntry {
        rec_type: b"SQ".to_vec(),
        tags: vec![
            HeaderTag { name: b"SN".to_vec(), value: name.to_vec() },
            HeaderTag { name: b"LN".to_vec(), value: length.to_vec() },
        ],
    }
}

fn table(pairs: &[(&[u8], &[u8])]) -> TranslationTable {
    TranslationTable::new(
        pairs
            .iter()
            .map(|(k, v)| TranslationPair { key: k.to_vec(), value: v.to_vec() })
            .collect(),
    )
}

fn three_contig_header() -> Vec<HeaderEntry> {
    vec![
        sq_entry(b"chr1", b"1000"),
        sq_entry(b"chr2", b"2000"),
        sq_entry(b"chr3", b"3000"),
    ]
}

fn sn_value(e: &HeaderEntry) -> &[u8] {
    &e.tags[0].value
}

#[test]
fn header_translation_scenario() {
    let header = three_contig_header();
    let t = table(&[(b"chr1", b"1"), (b"chr3", b"3")]);
    let out = translate_header(&header, &t);

    assert_eq!(out.entries.len(), 2);
    assert_eq!(sn_value(&out.entries[0]), b"1");
    assert_eq!(sn_value(&out.entries[1]), b"3");
    assert_eq!(out.entries[0].rec_type, b"SQ".to_vec());
    assert_eq!(out.entries[0].tags[1].name, b"LN".to_vec());
    assert_eq!(out.entries[0].tags[1].value, b"1000".to_vec());

    assert_eq!(out.index_map.old_len(), 3);
    assert_eq!(out.index_map.kept_len(), 2);
    assert_eq!(out.index_map.get(0), Some(0));
    assert_eq!(out.index_map.get(1), None);
    assert_eq!(out.index_map.get(2), Some(1));
    assert_eq!(out.index_map.get(-1), None);
    assert_eq!(out.index_map.get(3), None);
}

#[test]
fn record_with_mapped_mate_is_kept() {
    let header = three_contig_header();
    let t = table(&[(b"chr1", b"1"), (b"chr3", b"3")]);
    let out = translate_header(&header, &t);
    let names = sq_name_list(&header);
    let mut stats = DropStatistics::new();

    // old tid 1 (chr2) has no mapping, old mtid 0 (chr1) has: the record is
    // kept with tid -1 and the mate remapped.
    let mut rec = AlignmentRecord {
        tid: 1,
        mtid: 0,
        qname: b"read1".to_vec(),
        aux: Vec::new(),
    };
    let kept = process_record(&mut rec, &out.index_map, &names, &mut stats, b'R', b'X');
    assert!(kept);
    assert_eq!(rec.tid, -1);
    assert_eq!(rec.mtid, 0);
    assert_eq!(stats.total_count(), 0);
    assert_eq!(stats.count_for(&b"chr2".to_vec()), 0);
}

#[test]
fn record_with_no_mapping_is_dropped_and_counted() {
    let header = three_contig_header();
    let t = table(&[(b"chr1", b"1"), (b"chr3", b"3")]);
    let out = translate_header(&header, &t);
    let names = sq_name_list(&header);
    let mut stats = DropStatistics::new();

    let mut rec = AlignmentRecord {
        tid: 1,
        mtid: 1,
        qname: b"read2".to_vec(),
        aux: Vec::new(),
    };
    let kept = process_record(&mut rec, &out.index_map, &names, &mut stats, b'R', b'X');
    assert!(!kept);
    assert_eq!(rec.tid, 1);
    assert_eq!(rec.mtid, 1);
    assert_eq!(stats.total_count(), 1);
    assert_eq!(stats.count_for(&b"chr2".to_vec()), 1);
    assert_eq!(stats.count_for(&b"chr1".to_vec()), 0);
}

#[test]
fn both_mapped_record_is_remapped() {
    let header = three_contig_header();
    let t = table(&[(b"chr1", b"1"), (b"chr3", b"3")]);
    let out = translate_header(&header, &t);
    let names = sq_name_list(&header);
    let mut stats = DropStatistics::new();

    let mut rec = AlignmentRecord {
        tid: 2,
        mtid: 0,
        qname: b"read3".to_vec(),
        aux: Vec::new(),
    };
    let kept = process_record(&mut rec, &out.index_map, &names, &mut stats, b'R', b'X');
    assert!(kept);
    assert_eq!(rec.tid, 1);
    assert_eq!(rec.mtid, 0);
    assert_eq!(stats.total_count(), 0);
}

#[test]
fn string_tag_is_appended_to_read_name() {
    let mut rec = AlignmentRecord {
        tid: 0,
        mtid: 0,
        qname: b"readA".to_vec(),
        aux: vec![AuxField { code0: b'R', code1: b'X', value: AuxValue::Str(b"ACGT".to_vec()) }],
    };
    append_tag_to_name(&mut rec, b'R', b'X');
    assert_eq!(rec.qname, b"readA_ACGT".to_vec());
}

#[test]
fn missing_tag_leaves_read_name_unchanged() {
    let mut rec = AlignmentRecord {
        tid: 0,
        mtid: 0,
        qname: b"readB".to_vec(),
        aux: vec![AuxField { code0: b'M', code1: b'D', value: AuxValue::Str(b"10A5".to_vec()) }],
    };
    append_tag_to_name(&mut rec, b'R', b'X');
    assert_eq!(rec.qname, b"readB".to_vec());
}

#[test]
fn non_string_tag_leaves_read_name_unchanged() {
    let mut rec = AlignmentRecord {
        tid: 0,
        mtid: 0,
        qname: b"readC".to_vec(),
        aux: vec![AuxField { code0: b'R', code1: b'X', value: AuxValue::Int(7) }],
    };
    append_tag_to_name(&mut rec, b'R', b'X');
    assert_eq!(rec.qname, b"readC".to_vec());
}

#[test]
fn first_matching_tag_wins() {
    let mut rec = AlignmentRecord {
        tid: 0,
        mtid: 0,
        qname: b"readD".to_vec(),
        aux: vec![
            AuxField { code0: b'R', code1: b'X', value: AuxValue::Str(b"AAA".to_vec()) },
            AuxField { code0: b'R', code1: b'X', value: AuxValue::Str(b"TTT".to_vec()) },
        ],
    };
    append_tag_to_name(&mut rec, b'R', b'X');
    assert_eq!(rec.qname, b"readD_AAA".to_vec());
}

#[test]
fn dropped_record_still_gets_its_name_appended() {
    let header = three_contig_header();
    let t = table(&[(b"chr1", b"1")]);
    let out = translate_header(&header, &t);
    let names = sq_name_list(&header);
    let mut stats = DropStatistics::new();

    let mut rec = AlignmentRecord {
        tid: 2,
        mtid: 2,
        qname: b"readE".to_vec(),
        aux: vec![AuxField { code0: b'R', code1: b'X', value: AuxValue::Str(b"GG".to_vec()) }],
    };
    let kept = process_record(&mut rec, &out.index_map, &names, &mut stats, b'R', b'X');
    assert!(!kept);
    assert_eq!(rec.qname, b"readE_GG".to_vec());
    assert_eq!(stats.count_for(&b"chr3".to_vec()), 1);
}

#[test]
fn both_unmapped_without_map_entries() {
    let header = three_contig_header();
    let t = table(&[]);
    let out = translate_header(&header, &t);
    assert_eq!(out.entries.len(), 0);
    assert_eq!(out.index_map.old_len(), 3);
    assert_eq!(out.index_map.kept_len(), 0);

    // A fully unmapped record pair is not kept; the record is untouched.
    let mut rec = AlignmentRecord {
        tid: -1,
        mtid: -1,
        qname: b"readF".to_vec(),
        aux: Vec::new(),
    };
    let kept = remap_indices(&mut rec, &out.index_map);
    assert!(!kept);
    assert_eq!(rec.tid, -1);
    assert_eq!(rec.mtid, -1);
}

#[test]
fn non_sq_entries_are_copied_verbatim() {
    let header = vec![
        HeaderEntry {
            rec_type: b"HD".to_vec(),
            tags: vec![HeaderTag { name: b"VN".to_vec(), value: b"1.6".to_vec() }],
        },
        sq_entry(b"chr1", b"1000"),
        HeaderEntry {
            rec_type: b"PG".to_vec(),
            tags: vec![HeaderTag { name: b"ID".to_vec(), value: b"aligner".to_vec() }],
        },
        sq_entry(b"chr2", b"2000"),
    ];
    let t = table(&[(b"chr2", b"2")]);
    let out = translate_header(&header, &t);

    assert_eq!(out.entries.len(), 3);
    assert_eq!(out.entries[0].rec_type, b"HD".to_vec());
    assert_eq!(out.entries[0].tags[0].value, b"1.6".to_vec());
    assert_eq!(out.entries[1].rec_type, b"PG".to_vec());
    assert_eq!(out.entries[2].rec_type, b"SQ".to_vec());
    assert_eq!(sn_value(&out.entries[2]), b"2");
    assert_eq!(out.index_map.get(0), None);
    assert_eq!(out.index_map.get(1), Some(0));
}

#[test]
fn duplicate_table_keys_overwrite() {
    let t = table(&[(b"chr1", b"old"), (b"chr1", b"new")]);
    assert_eq!(t.get(&b"chr1".to_vec()), Some(&b"new".to_vec()));
    assert_eq!(t.get(&b"chr9".to_vec()), None);
}

#[test]
fn translating_twice_changes_nothing_more() {
    let header = three_contig_header();
    let t = table(&[(b"chr1", b"one"), (b"chr3", b"three")]);
    let first = translate_header(&header, &t);

    // An identity table over the kept names.
    let t_id = table(&[(b"one", b"one"), (b"three", b"three")]);
    let second = translate_header(&first.entries, &t_id);

    assert_eq!(second.entries.len(), first.entries.len());
    for (a, b) in second.entries.iter().zip(first.entries.iter()) {
        assert_eq!(a.rec_type, b.rec_type);
        assert_eq!(a.tags.len(), b.tags.len());
        for (x, y) in a.tags.iter().zip(b.tags.iter()) {
            assert_eq!(x.name, y.name);
            assert_eq!(x.value, y.value);
        }
    }
    assert_eq!(second.index_map.old_len(), 2);
    assert_eq!(second.index_map.kept_len(), 2);
    assert_eq!(second.index_map.get(0), Some(0));
    assert_eq!(second.index_map.get(1), Some(1));
}

#[test]
fn empty_header_translates_to_empty() {
    let header: Vec<HeaderEntry> = Vec::new();
    let t = table(&[(b"chr1", b"1")]);
    let out = translate_header(&header, &t);
    assert_eq!(out.entries.len(), 0);
    assert_eq!(out.index_map.old_len(), 0);
    assert_eq!(out.index_map.kept_len(), 0);
}

#[test]
fn drop_statistics_accumulate_per_contig() {
    let mut stats = DropStatistics::new();
    stats.record_drop(&b"chr2".to_vec());
    stats.record_drop(&b"chr2".to_vec());
    stats.record_drop(&b"chr5".to_vec());
    assert_eq!(stats.total_count(), 3);
    assert_eq!(stats.count_for(&b"chr2".to_vec()), 2);
    assert_eq!(stats.count_for(&b"chr5".to_vec()), 1);
    assert_eq!(stats.count_for(&b"chr1".to_vec()), 0);

    let entries = stats.entries();
    assert_eq!(entries.len(), 2);
    assert_eq!(entries[0].name, b"chr2".to_vec());
    assert_eq!(entries[0].count, 2);
    assert_eq!(entries[1].name, b"chr5".to_vec());
    assert_eq!(entries[1].count, 1);
}

#[test]
fn sq_name_list_indexes_names_by_old_index() {
    let header = vec![
        HeaderEntry {
            rec_type: b"HD".to_vec(),
            tags: vec![HeaderTag { name: b"VN".to_vec(), value: b"1.6".to_vec() }],
        },
        sq_entry(b"chrA", b"10"),
        sq_entry(b"chrB", b"20"),
    ];
    let names = sq_name_list(&header);
    assert_eq!(names.len(), 2);
    assert_eq!(names[0], b"chrA".to_vec());
    assert_eq!(names[1], b"chrB".to_vec());
}

#[test]
fn name_tag_keeps_its_position_among_tags() {
    let header = vec![HeaderEntry {
        rec_type: b"SQ".to_vec(),
        tags: vec![
            HeaderTag { name: b"LN".to_vec(), value: b"42".to_vec() },
            HeaderTag { name: b"SN".to_vec(), value: b"chrM".to_vec() },
        ],
    }];
    let t = table(&[(b"chrM", b"MT")]);
    let out = translate_header(&header, &t);
    assert_eq!(out.entries.len(), 1);
    assert_eq!(out.entries[0].tags[0].name, b"LN".to_vec());
    assert_eq!(out.entries[0].tags[0].value, b"42".to_vec());
    assert_eq!(out.entries[0].tags[1].name, b"SN".to_vec());
    assert_eq!(out.entries[0].tags[1].value, b"MT".to_vec());

    let names = sq_name_list(&header);
    assert_eq!(names[0], b"chrM".to_vec());
}

#[test]
fn sq_entry_without_name_tag_is_dropped() {
    let header = vec![
        HeaderEntry {
            rec_type: b"SQ".to_vec(),
            tags: vec![HeaderTag { name: b"LN".to_vec(), value: b"42".to_vec() }],
        },
        sq_entry(b"chr1", b"1000"),
    ];
    let t = table(&[(b"chr1", b"1")]);
    let out = translate_header(&header, &t);
    // The nameless entry is dropped, but it still advances the old index.
    assert_eq!(out.entries.len(), 1);
    assert_eq!(sn_value(&out.entries[0]), b"1");
    assert_eq!(out.index_map.old_len(), 2);
    assert_eq!(out.index_map.get(0), None);
    assert_eq!(out.index_map.get(1), Some(0));
}
