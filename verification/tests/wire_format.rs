use bytes::Bytes;
use grafeo_compact::accounting::{default_schema_owner_budget, CompactMemoryAccounting};
use grafeo_compact::directory::{SegmentEntry, SegmentKind};
use grafeo_compact::emit_columns::{
    column_segment_kinds, write_directory_segments, EmittedColumn, TableColumns,
};
use grafeo_compact::emit_meta::CodecKind;
use grafeo_compact::generation::{CodecError, GenerationError};
use grafeo_compact::id_index::id_index_record_bytes;
use grafeo_compact::payload::align_up;
use grafeo_compact::staging::{
    fwd_csr_key, rev_csr_key, split_fwd_csr_key, split_idmap_payload, split_rev_csr_key,
};
use grafeo_compact::views::{read_u16_le, read_u32_le, read_u64_le, U32View};

#[test]
fn numbers_are_read_little_endian_and_advance() {
    let data = [1u8, 2, 3, 4, 5, 6, 7, 8, 9];
    let mut pos = 1;
    assert_eq!(read_u16_le(&data, &mut pos), Ok(0x0302));
    assert_eq!(pos, 3);
    assert_eq!(read_u32_le(&data, &mut pos), Ok(0x0706_0504));
    assert_eq!(pos, 7);
    assert_eq!(read_u32_le(&data, &mut pos), Err("truncated u32"));
    assert_eq!(read_u64_le(&data, &mut pos), Err("truncated u64"));
    assert_eq!(pos, 7);
    assert_eq!(read_u16_le(&data, &mut pos), Ok(0x0908));
    assert_eq!(read_u16_le(&data, &mut pos), Err("truncated u16"));
    pos = 0;
    assert_eq!(read_u64_le(&data, &mut pos), Ok(0x0807_0605_0403_0201));
    assert_eq!(pos, 8);
}

#[test]
fn ranges_of_a_view_are_copied() {
    let bytes: Vec<u8> = [7u32, 8, 9].iter().flat_map(|n| n.to_le_bytes()).collect();
    let view = U32View::new(Bytes::from(bytes)).expect("view");
    let mut scratch = vec![1, 2];
    assert!(!view.copy_range_into(2, 4, &mut scratch));
    assert!(!view.copy_range_into(2, 1, &mut scratch));
    assert_eq!(scratch, [1, 2]);
    assert!(view.copy_range_into(1, 3, &mut scratch));
    assert_eq!(scratch, [8, 9]);
    assert!(view.copy_range_into(3, 3, &mut scratch));
    assert!(scratch.is_empty());
}

#[test]
fn adjacency_keys_sort_by_their_parts() {
    let key = fwd_csr_key(1, 2, 3, 4);
    assert_eq!(key, [0, 1, 0, 0, 0, 2, 0, 0, 0, 3, 0, 0, 0, 0, 0, 0, 0, 4]);
    assert!(matches!(split_fwd_csr_key(&key), Ok((1, 2, 3, 4))));
    assert!(fwd_csr_key(1, 2, 3, u64::MAX) < fwd_csr_key(1, 2, 4, 0));
    assert!(fwd_csr_key(1, 255, 0, 0) < fwd_csr_key(1, 256, 0, 0));
    let back = rev_csr_key(1, 3, 2, 9);
    assert_eq!(back, [0, 1, 0, 0, 0, 3, 0, 0, 0, 2, 0, 0, 0, 9]);
    assert!(matches!(split_rev_csr_key(&back), Ok((1, 3, 2, 9))));
    assert!(matches!(
        split_fwd_csr_key(&key[..17]),
        Err(GenerationError::Codec(CodecError::Truncated))
    ));
    assert!(matches!(
        split_rev_csr_key(&back[..13]),
        Err(GenerationError::Codec(CodecError::Truncated))
    ));
}

#[test]
fn id_records_are_fixed_width() {
    let rec = id_index_record_bytes(0x0102, 3, 4);
    assert_eq!(rec, [2, 1, 0, 0, 0, 0, 0, 0, 3, 0, 4, 0, 0, 0, 0, 0, 0, 0]);
    assert!(matches!(split_idmap_payload(&rec[8..]), Ok((3, 4))));
    assert!(matches!(
        split_idmap_payload(&rec[9..]),
        Err(GenerationError::Codec(CodecError::Truncated))
    ));
}

#[test]
fn offsets_are_aligned_upwards() {
    assert_eq!(align_up(0, 64), 0);
    assert_eq!(align_up(1, 64), 64);
    assert_eq!(align_up(64, 64), 64);
    assert_eq!(align_up(65, 8), 72);
}

#[test]
fn entries_know_their_flag_and_end() {
    let mut entry = SegmentEntry {
        kind: SegmentKind::Metadata,
        encoding_version: 1,
        flags: 1,
        alignment: 8,
        offset: 64,
        length: 10,
        element_width: 0,
        element_count: 0,
        crc32: 0,
    };
    assert!(entry.is_required());
    assert_eq!(entry.end(), Some(74));
    entry.flags = 2;
    entry.length = u64::MAX;
    assert!(!entry.is_required());
    assert_eq!(entry.end(), None);
}

#[test]
fn settled_bytes_add_up_and_saturate() {
    assert_eq!(default_schema_owner_budget(), 16 * 1024 * 1024);
    let mut a = CompactMemoryAccounting::with_defaults();
    a.anonymous_owner_schema_bytes = 5;
    a.anonymous_proportional_structure_bytes = 7;
    a.read_cache_bytes = 11;
    a.mapped_payload_index_bytes = 1000;
    assert_eq!(a.settled_anonymous_bytes(), 23);
    a.read_cache_bytes = usize::MAX;
    assert_eq!(a.settled_anonymous_bytes(), usize::MAX);
}

#[test]
fn directories_number_the_columns_through() {
    assert_eq!(
        column_segment_kinds(),
        (SegmentKind::ColumnDirectory, SegmentKind::ColumnBlockIndex, SegmentKind::ColumnBodies)
    );
    let columns = [EmittedColumn {
        column_index: 0,
        table_id: 0,
        key: "k".to_string(),
        kind: CodecKind::BitPacked,
        body_len: 9,
        body_start: 4,
        codec_len: 3,
    }];
    let nodes = [TableColumns { table_id: 0, src: 0, dst: 0, rows: 3, columns: vec![0] }];
    let rels = [TableColumns { table_id: 2, src: 5, dst: 6, rows: 8, columns: vec![] }];
    let (mut nd, mut rd, mut cd, mut bi) = (vec![], vec![], vec![], vec![]);
    write_directory_segments(&columns, &nodes, &rels, &mut nd, &mut rd, &mut cd, &mut bi);
    assert_eq!(bi, [4, 0, 0, 0, 9, 0, 0, 0, 3, 0, 0, 0]);
    assert_eq!(cd[4..20], [0, 0, 0, 0, 1, 0, 0, 0, 3, 0, 0, 0, 0, 0, 0, 0]);
    assert_eq!(cd.len(), 24);
    assert_eq!(nd[..12], [0, 0, 0, 0, 0, 0, 0, 0, 1, 0, 0, 0]);
    assert_eq!(nd.len(), 24);
    // A table without columns starts where the last one's columns ended.
    assert_eq!(rd[..16], [2, 0, 5, 0, 6, 0, 0, 0, 1, 0, 0, 0, 0, 0, 0, 0]);
    assert_eq!(rd[16..], [8, 0, 0, 0, 0, 0, 0, 0]);
}
