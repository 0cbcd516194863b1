use bytes::Bytes;
use grafeo_compact::accounting::{CompactMemoryAccounting, SCHEMA_OWNER_BUDGET_BYTES};
use grafeo_compact::code_index::{build_dictionary_code_index, DictionaryCodeIndex};
use grafeo_compact::directory::{
    parse_v5_header, SegmentKind, DIRECTORY_ENTRY_LEN, FORMAT_VERSION_V5, HEADER_LEN,
};
use grafeo_compact::error::FormatError;
use grafeo_compact::generation::GenerationError;
use grafeo_compact::id_index::{write_id_index_record, MappedNodeIdIndex};
use grafeo_compact::id_lookup::{
    write_edge_id_record, write_node_id_record, MappedEdgeIdLookup, MappedNodeIdLookup,
};
use grafeo_compact::label_membership::{
    write_membership_segment, LabelMembership, LabelMembershipView,
};
use grafeo_compact::membership_index::MappedLabelMembershipIndex;
use grafeo_compact::presence::{pack_bits, unpack_bits, write_presence_segment, RowBitmapView};
use grafeo_compact::string_dict::{build_string_segments, MappedStringDictionary};
use grafeo_compact::text::TextMap;
use grafeo_compact::types::{EdgeId, NodeId};
use grafeo_compact::value::{clone_value, Value, ZoneMap};
use grafeo_compact::views::{U32View, U64View};
use grafeo_compact::zone_maps::write_zone_map_record;

#[test]
fn u32_view_rejects_misaligned_length() {
    let err = U32View::new(Bytes::from(vec![0u8; 3])).expect_err("misaligned");
    assert!(err.message().contains("multiple of 4"), "{err:?}");
}

#[test]
fn u64_view_rejects_misaligned_length() {
    let err = U64View::new(Bytes::from(vec![0u8; 12])).expect_err("misaligned");
    assert!(err.message().contains("multiple of 8"), "{err:?}");
    assert!(matches!(err, FormatError::ViewLength { width: 8 }));
}

#[test]
fn u32_view_get_and_range() {
    let mut raw = Vec::new();
    for v in [1u32, 2, 3, 4] {
        raw.extend_from_slice(&v.to_le_bytes());
    }
    let view = U32View::new(Bytes::from(raw)).unwrap();
    assert_eq!(view.len(), 4);
    assert_eq!(view.get(0), Some(1));
    assert_eq!(view.get(3), Some(4));
    assert_eq!(view.get(4), None);
    let slice = view.element_bytes(1, 3).unwrap();
    assert_eq!(slice.len(), 8);
}

#[test]
fn u32_view_ranges_outside_fail() {
    let view = U32View::new(Bytes::from(vec![0u8; 8])).unwrap();
    assert!(matches!(view.element_bytes(1, 3), Err(FormatError::ViewRange)));
    assert!(matches!(view.element_bytes(2, 1), Err(FormatError::ViewRange)));
    assert_eq!(view.byte_len(), 8);
}

#[test]
fn string_dict_round_trip_and_utf8_fail_closed() {
    let (off, bytes) = build_string_segments(&["alpha", "beta", "gamma"]);
    let dict = MappedStringDictionary::new(Bytes::from(off), Bytes::from(bytes)).unwrap();
    assert_eq!(dict.len(), 3);
    assert_eq!(dict.get(0), Some("alpha"));
    assert_eq!(dict.get(2), Some("gamma"));
    assert_eq!(dict.encode("beta"), Some(1));
    assert_eq!(dict.encode("missing"), None);

    // Invalid UTF-8 in string bytes.
    let mut off = Vec::new();
    off.extend_from_slice(&0u64.to_le_bytes());
    off.extend_from_slice(&1u64.to_le_bytes());
    let err = MappedStringDictionary::new(Bytes::from(off), Bytes::from(vec![0xFFu8]))
        .expect_err("bad utf8");
    assert!(err.message().contains("UTF-8"), "{err:?}");
}

#[test]
fn string_dict_rejects_bad_offsets() {
    let none = MappedStringDictionary::new(Bytes::new(), Bytes::new()).expect_err("sentinel");
    assert!(matches!(none, FormatError::DictSentinel));
    let mut off = Vec::new();
    off.extend_from_slice(&2u64.to_le_bytes());
    off.extend_from_slice(&1u64.to_le_bytes());
    let order = MappedStringDictionary::new(Bytes::from(off), Bytes::from_static(b"abc"))
        .expect_err("order");
    assert!(matches!(order, FormatError::DictOrder { index: 1, offset: 1, prev: 2 }));
    let far = MappedStringDictionary::new(
        Bytes::from(9u64.to_le_bytes().to_vec()),
        Bytes::from_static(b"abc"),
    )
    .expect_err("range");
    assert!(matches!(far, FormatError::DictRange { index: 0, offset: 9, blob: 3 }));
}

#[test]
fn code_index_finds_codes_by_text() {
    let texts = ["pear", "apple", "quince", "fig"];
    let (off, bytes) = build_string_segments(&texts);
    let dict = MappedStringDictionary::new(Bytes::from(off), Bytes::from(bytes)).unwrap();
    let body = build_dictionary_code_index(&texts);
    let index = DictionaryCodeIndex::new(Bytes::from(body), &dict).unwrap();
    for (i, t) in texts.iter().enumerate() {
        assert_eq!(index.lookup(&dict, t), Some(i as u32));
    }
    assert_eq!(index.lookup(&dict, "plum"), None);
}

#[test]
fn node_id_lookup_binary_search_and_sort_check() {
    let mut buf = Vec::new();
    write_node_id_record(&mut buf, 10, 0, 0);
    write_node_id_record(&mut buf, 20, 0, 1);
    write_node_id_record(&mut buf, 30, 1, 0);
    let lookup = MappedNodeIdLookup::new(Bytes::from(buf)).unwrap();
    assert_eq!(lookup.lookup(NodeId::new(20)), Some((0, 1)));
    assert_eq!(lookup.lookup(NodeId::new(99)), None);

    // Unsorted fails closed.
    let mut bad = Vec::new();
    write_node_id_record(&mut bad, 30, 0, 0);
    write_node_id_record(&mut bad, 10, 0, 1);
    let err = MappedNodeIdLookup::new(Bytes::from(bad)).expect_err("unsorted");
    assert!(err.message().contains("sorted"), "{err:?}");
}

#[test]
fn edge_id_lookup_rejects_nonzero_reserved() {
    let mut buf = Vec::new();
    write_edge_id_record(&mut buf, 1, 0, 0);
    // Corrupt reserved_a.
    buf[10] = 1;
    let err = MappedEdgeIdLookup::new(Bytes::from(buf)).expect_err("reserved");
    assert!(err.message().contains("reserved"), "{err:?}");
}

#[test]
fn edge_id_lookup_resolves() {
    let mut buf = Vec::new();
    write_edge_id_record(&mut buf, 7, 2, 5);
    write_edge_id_record(&mut buf, 9, 0, 1);
    let lookup = MappedEdgeIdLookup::new(Bytes::from(buf)).unwrap();
    assert_eq!(lookup.lookup(EdgeId::new(7)), Some((2, 5)));
    assert_eq!(lookup.lookup(EdgeId::new(8)), None);
    assert!(MappedEdgeIdLookup::new(Bytes::from(vec![0u8; 23])).is_err());
}

#[test]
fn directory_header_rejects_bad_version_and_reserved() {
    let mut hdr = vec![0u8; HEADER_LEN];
    hdr[0..4].copy_from_slice(b"GCST");
    hdr[4] = 4; // not v5
    let err = parse_v5_header(&hdr).expect_err("v4");
    assert!(err.message().contains("unsupported"), "{err:?}");

    hdr[4] = FORMAT_VERSION_V5;
    hdr[5] = 0; // flags
    // header_length at offset 6
    hdr[6..8].copy_from_slice(&(HEADER_LEN as u16).to_le_bytes());
    // segment_count = 0
    hdr[8..10].copy_from_slice(&0u16.to_le_bytes());
    // directory_entry_length
    hdr[10..12].copy_from_slice(&(DIRECTORY_ENTRY_LEN as u16).to_le_bytes());
    // layout_flags zero already
    // directory_offset
    hdr[16..24].copy_from_slice(&(HEADER_LEN as u64).to_le_bytes());
    // directory_length 0
    // data_offset 64
    hdr[32..40].copy_from_slice(&(HEADER_LEN as u64).to_le_bytes());
    // reserved non-zero at 60
    hdr[60..64].copy_from_slice(&1u32.to_le_bytes());
    let err = parse_v5_header(&hdr).expect_err("reserved");
    assert!(err.message().contains("reserved"), "{err:?}");
}

#[test]
fn accounting_disk_native_requires_zero_proportional() {
    let mut acc = CompactMemoryAccounting::with_defaults();
    acc.mapped_payload_index_bytes = 1_000_000;
    acc.anonymous_owner_schema_bytes = 4_096;
    assert!(acc.is_disk_native_graph());
    acc.anonymous_proportional_structure_bytes = 1;
    assert!(!acc.is_disk_native_graph());
    acc.anonymous_proportional_structure_bytes = 0;
    acc.anonymous_owner_schema_bytes = SCHEMA_OWNER_BUDGET_BYTES + 1;
    assert!(acc.schema_budget_exceeded());
    assert!(!acc.is_disk_native_graph());
}

#[test]
fn segment_kind_unknown_fails_closed() {
    let err = SegmentKind::from_u16(99).expect_err("unknown");
    assert!(err.message().contains("unknown"), "{err:?}");
}

#[test]
fn segment_kinds_keep_their_numbers() {
    let mut known = 0;
    for n in 0..64u16 {
        if let Ok(k) = SegmentKind::from_u16(n) {
            assert_eq!(k.as_u16(), n);
            known += 1;
        }
    }
    assert!(known >= 20);
}

fn build(entries: &[(u64, u16, u64)]) -> Bytes {
    let mut v = Vec::new();
    for &(id, tid, off) in entries {
        write_id_index_record(&mut v, id, tid, off);
    }
    Bytes::from(v)
}

#[test]
fn binary_search_resolves() {
    let data = build(&[(1, 0, 0), (5, 0, 1), (1 << 40, 1, 0), (u64::MAX, 1, 1)]);
    let idx = MappedNodeIdIndex::new(data).unwrap();
    assert_eq!(idx.lookup(1), Some((0, 0)));
    assert_eq!(idx.lookup(5), Some((0, 1)));
    assert_eq!(idx.lookup(1 << 40), Some((1, 0)));
    assert_eq!(idx.lookup(u64::MAX), Some((1, 1)));
    assert_eq!(idx.lookup(2), None);
}

#[test]
fn rejects_adjacent_duplicate() {
    let data = build(&[(1, 0, 0), (1, 0, 1)]);
    assert!(matches!(
        MappedNodeIdIndex::new(data),
        Err(GenerationError::DuplicateNodeId(1))
    ));
}

#[test]
fn rejects_unsorted_and_truncated() {
    let unsorted = build(&[(5, 0, 0), (1, 0, 1)]);
    assert!(MappedNodeIdIndex::new(unsorted).is_err());
    assert!(MappedNodeIdIndex::new(Bytes::from_static(&[0u8; 7])).is_err());
}

fn sorted() -> Vec<LabelMembership> {
    vec![
        LabelMembership { node_table_id: 0, node_offset: 0, label_code: 1 },
        LabelMembership { node_table_id: 0, node_offset: 0, label_code: 2 },
        LabelMembership { node_table_id: 0, node_offset: 1, label_code: 1 },
        LabelMembership { node_table_id: 1, node_offset: 0, label_code: 3 },
    ]
}

#[test]
fn write_parse_round_trip() {
    let ms = sorted();
    let mut body = Vec::new();
    write_membership_segment(&mut body, &ms).unwrap();
    let bytes = Bytes::from(body);
    let view = LabelMembershipView::parse(&bytes).unwrap();
    assert_eq!(view.labels_of(0, 0), vec![1, 2]);
    assert_eq!(view.labels_of(0, 1), vec![1]);
    assert_eq!(view.nodes_with(1), vec![(0, 0), (0, 1)]);
    assert_eq!(view.nodes_with(3), vec![(1, 0)]);
}

#[test]
fn label_membership_rejects_unsorted() {
    let mut ms = sorted();
    ms.swap(0, 1);
    let mut body = Vec::new();
    assert!(write_membership_segment(&mut body, &ms).is_err());
}

#[test]
fn pack_unpack_round_trip() {
    let bits = vec![true, false, true, true, false, false, false, true, true];
    let packed = pack_bits(&bits);
    assert_eq!(packed.len(), 2);
    let unpacked = unpack_bits(&packed, bits.len());
    assert_eq!(unpacked, bits);
}

#[test]
fn view_parse_and_lookup() {
    let records = vec![
        (0u32, 5u32, vec![true, true, false, true, true]),
        (3u32, 4u32, vec![false, true, false, true]),
    ];
    let mut body = Vec::new();
    write_presence_segment(&mut body, &records).unwrap();
    let bytes = Bytes::from(body);
    let view = RowBitmapView::parse(&bytes, SegmentKind::ColumnRowPresence).unwrap();
    assert_eq!(view.record_count(), 2);
    assert_eq!(view.get(&bytes, 0, 0), Some(true));
    assert_eq!(view.get(&bytes, 0, 2), Some(false));
    assert_eq!(view.get(&bytes, 3, 1), Some(true));
    assert_eq!(view.get(&bytes, 1, 0), None); // no companion record
}

#[test]
fn view_rejects_truncated() {
    let bytes = Bytes::from_static(&[1, 2, 3]);
    assert!(RowBitmapView::parse(&bytes, SegmentKind::ColumnRowPresence).is_err());
}

#[test]
fn presence_rejects_a_row_count_that_differs() {
    let mut body = Vec::new();
    let err = write_presence_segment(&mut body, &[(0, 3, vec![true])]).expect_err("rows");
    assert!(matches!(err, FormatError::BitmapRows { rows: 3, bits: 1 }));
}

#[test]
fn build_and_lookup() {
    let entries = vec![
        (1u64, vec!["Person".to_string(), "Worker".to_string()]),
        (5, vec!["Company".to_string()]),
        (10, vec!["City".to_string(), "Capital".to_string(), "Metro".to_string()]),
    ];
    let idx = MappedLabelMembershipIndex::from_sorted(&entries).unwrap();
    assert_eq!(idx.len(), 3);
    assert!(idx.has_label(1, "Person"));
    assert!(idx.has_label(1, "Worker"));
    assert!(!idx.has_label(1, "City"));
    assert!(idx.has_label(5, "Company"));
    assert!(!idx.has_label(5, "Person"));
    assert!(idx.has_label(10, "Capital"));
    assert!(idx.has_label(10, "Metro"));
    assert!(!idx.has_label(99, "Anything"));
}

#[test]
fn membership_index_rejects_unsorted() {
    let entries = vec![(5u64, vec!["A".to_string()]), (1, vec!["B".to_string()])];
    assert!(MappedLabelMembershipIndex::from_sorted(&entries).is_err());
}

#[test]
fn rejects_duplicate() {
    let entries = vec![(1u64, vec!["A".to_string()]), (1, vec!["B".to_string()])];
    assert!(matches!(
        MappedLabelMembershipIndex::from_sorted(&entries),
        Err(GenerationError::DuplicateNodeId(1))
    ));
}

#[test]
fn empty_index() {
    let idx = MappedLabelMembershipIndex::from_sorted(&[]).unwrap();
    assert!(idx.is_empty());
    assert!(!idx.has_label(1, "X"));
}

#[test]
fn a_zone_map_bound_is_a_scalar_or_a_known_text() {
    let mut codes: TextMap<u32> = TextMap::new();
    codes.insert("b", 9);
    let record = |min: Value| {
        let zone = ZoneMap { min: Some(min), max: None, null_count: 1, row_count: 3 };
        let mut buf = Vec::new();
        let r = write_zone_map_record(&mut buf, 2, 5, 7, &zone, &codes);
        (r, buf)
    };
    let (r, buf) = record(Value::Int64(-1));
    assert!(r.is_ok());
    let mut want = vec![2, 0, 0, 0, 5, 0, 0, 0, 7, 0, 0, 0];
    want.extend_from_slice(&1u32.to_le_bytes());
    want.extend_from_slice(&3u32.to_le_bytes());
    assert_eq!(&buf[..20], &want[..]);
    assert!(record(Value::String("b".to_string())).0.is_ok());
    let missing = record(Value::String("c".to_string())).0;
    assert!(matches!(missing, Err(FormatError::ZoneText)), "{missing:?}");
    for bad in [Value::Null, Value::Vector(vec![1]), Value::Date(1)] {
        let (r, buf) = record(bad);
        assert!(matches!(r, Err(FormatError::ZoneValue)), "{r:?}");
        assert_eq!(buf, want);
    }
}

#[test]
fn a_copied_value_is_the_value() {
    for v in [
        Value::Null,
        Value::Bool(true),
        Value::Int64(-4),
        Value::Float64(5),
        Value::String("x".to_string()),
        Value::Vector(vec![1, 2]),
        Value::Date(1),
    ] {
        assert_eq!(format!("{:?}", clone_value(&v)), format!("{v:?}"));
    }
}
