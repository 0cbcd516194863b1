use bytes::Bytes;
use grafeo_compact::builder::{infer_column_codec, StreamingGenerationBuilder};
use grafeo_compact::column_pass::{compute_column_geometries, Family};
use grafeo_compact::csr_pass::{
    make_edge_key, split_fwd_key, split_rev_key, stream_forward_csr, stream_reverse_csr,
    RelTableGeometry,
};
use grafeo_compact::dict_pass::{
    build_node_col_keys, build_rel_col_keys, collect_string_occurrences, consume_remap_run,
    use_code, DictChunk, StringUseKind,
};
use grafeo_compact::directory::{
    parse_segment_directory, slice_segment_checked, SegmentKind, FORMAT_VERSION_V5,
};
use grafeo_compact::edge_pass::{explode_occurrences_from_forward, RelTableKey};
use grafeo_compact::emit_columns::{place_columns, BodySize};
use grafeo_compact::emit_meta::CodecKind;
use grafeo_compact::emit_metadata::build_metadata;
use grafeo_compact::error::FormatError;
use grafeo_compact::id_lookup::MappedOriginalIds;
use grafeo_compact::freeze::{
    clone_properties, BaseRow, EmptyEdgeSource, EmptyNodeSource, FrozenOverlayEpoch, IdSet, MergedRow,
};
use grafeo_compact::generation::{
    BudgetCounter, CodecError, GenerationError, InputError, Mixture, WireCount,
};
use grafeo_compact::live_graph::{
    live_graph_sources_bounded, overlay_edge_row, overlay_node, overlay_row,
};
use grafeo_compact::node_pass::NodePass;
use grafeo_compact::orchestrator::{
    assemble_store, BoundedBuildConfig, BoundedGenerationBuilder, EncodedColumn, GenerationPlan,
};
use grafeo_compact::payload::{assemble_payload, make_segment};
use grafeo_compact::records::{GenerationEdge, GenerationNode, RelSchemaDecl};
use grafeo_compact::runs::{RunSink, SortRecord};
use grafeo_compact::source_view::{
    estimate_node_bytes, estimate_props_bytes, reverse_endpoints, reverse_id, GenerationSourceView,
    ReverseIds,
};
use grafeo_compact::staging::{
    decode_labels, decode_properties, decode_value, edge_row_payload, encode_labels,
    encode_properties, encode_value, node_row_key, split_edge_row_payload, split_node_row_key,
};
use grafeo_compact::intern::StringCodeOrder;
use grafeo_compact::tables::{ColumnCodec, ColumnType, DictColumn, FlatColumn, FlatKind};
use grafeo_compact::text::TextMap;
use grafeo_compact::types::{EdgeId, NodeId};
use grafeo_compact::v5_read::{deserialize_v5, MappedBody, MappedStore};
use grafeo_compact::v5_write::serialize_v5_with_string_order;
use grafeo_compact::value::{Value, ValueKind};

fn text(s: &str) -> Value {
    Value::String(s.to_string())
}

fn props(list: Vec<(&str, Value)>) -> TextMap<Value> {
    let mut m = TextMap::new();
    for (k, v) in list {
        m.insert(k, v);
    }
    m
}

fn node(id: u64, labels: &[&str], list: Vec<(&str, Value)>) -> GenerationNode {
    let mut labels: Vec<String> = labels.iter().map(|s| s.to_string()).collect();
    labels.sort();
    GenerationNode { id: NodeId::new(id), labels, properties: props(list) }
}

fn edge(id: u64, src: u64, dst: u64, kind: &str, list: Vec<(&str, Value)>) -> GenerationEdge {
    GenerationEdge {
        id: EdgeId::new(id),
        src: NodeId::new(src),
        dst: NodeId::new(dst),
        edge_type: kind.to_string(),
        properties: props(list),
    }
}

// A column in these tests is its encoding number and then one word or one
// vector per row, zero where there is none.
fn encode_column(kind: CodecKind, cells: &[Option<Value>]) -> ColumnCodec {
    if matches!(kind, CodecKind::Dict) {
        let mut entries: Vec<String> = vec![];
        let mut codes = vec![];
        for c in cells {
            let s = match c {
                Some(Value::String(s)) => s.clone(),
                _ => String::new(),
            };
            let at = entries.iter().position(|e| *e == s).unwrap_or_else(|| {
                entries.push(s);
                entries.len() - 1
            });
            codes.push(at as u32);
        }
        return ColumnCodec::Dict(DictColumn { entries, codes });
    }
    let (kind, code) = match kind {
        CodecKind::BitPacked => (FlatKind::BitPacked, 0u8),
        CodecKind::Bitmap => (FlatKind::Bitmap, 2),
        CodecKind::Float64 => (FlatKind::Float64, 4),
        CodecKind::Float32Vector => (FlatKind::Float32Vector, 5),
        _ => (FlatKind::RawI64, 6),
    };
    let mut body = vec![code];
    for c in cells {
        let word = match c {
            Some(Value::Int64(n)) => *n as u64,
            Some(Value::Bool(b)) => u64::from(*b),
            Some(Value::Float64(f)) => *f,
            Some(Value::Vector(v)) => v.iter().fold(0, |a, x| (a << 16) ^ u64::from(*x)),
            _ => 0,
        };
        body.extend_from_slice(&word.to_le_bytes());
    }
    ColumnCodec::Flat(FlatColumn { kind, rows: cells.len(), body })
}

fn encode_plan(plan: &GenerationPlan) -> Vec<EncodedColumn> {
    (0..plan.cells.len())
        .map(|i| EncodedColumn {
            codec: encode_column(plan.codec_kind(i), &plan.cells[i].cells),
            blocks: vec![],
        })
        .collect()
}

type Input = (Vec<GenerationNode>, Vec<GenerationEdge>);

fn bounded_builder() -> BoundedGenerationBuilder {
    BoundedGenerationBuilder::new(BoundedBuildConfig { rel_schemas: vec![], frozen_epoch: 0 })
}

fn bounded_payload(input: &Input) -> Vec<u8> {
    let b = bounded_builder();
    let plan = b.plan(&input.0, &input.1).expect("plan");
    let encoded = encode_plan(&plan);
    b.build(plan, encoded).expect("build")
}

fn streaming_payload(input: &Input) -> Vec<u8> {
    let b = StreamingGenerationBuilder::new();
    let plan = b.plan(&input.0, &input.1).expect("plan");
    let encoded = encode_plan(&plan);
    b.build(plan, encoded).expect("build").payload
}

fn node_place(s: &MappedStore, id: u64) -> Option<(u16, u64)> {
    s.ids.as_ref().unwrap().nodes.lookup(NodeId::new(id))
}

fn present(s: &MappedStore, table: u16, column: usize, row: u64) -> bool {
    let first: usize = s.node_tables[..table as usize].iter().map(|t| t.columns.len()).sum();
    match &s.companions.presence {
        Some((view, bytes)) => {
            view.get(bytes, (first + column) as u32, row as u32).unwrap_or(true)
        }
        None => true,
    }
}

fn node_word(s: &MappedStore, id: u64, key: &str) -> Option<u64> {
    let (table, row) = node_place(s, id)?;
    let t = &s.node_tables[table as usize];
    let at = t.columns.iter().position(|c| c.key == key)?;
    if !present(s, table, at, row) {
        return None;
    }
    match &t.columns[at].body {
        MappedBody::Encoded(b) => {
            let o = 1 + 8 * row as usize;
            let mut w = [0u8; 8];
            w.copy_from_slice(&b[o..o + 8]);
            Some(u64::from_le_bytes(w))
        }
        MappedBody::Codes(_) => None,
    }
}

fn node_text(s: &MappedStore, id: u64, key: &str) -> Option<String> {
    let (table, row) = node_place(s, id)?;
    let t = &s.node_tables[table as usize];
    let c = t.columns.iter().find(|c| c.key == key)?;
    match &c.body {
        MappedBody::Codes(v) => s.dict.get(v.get(row as usize)?).map(str::to_string),
        MappedBody::Encoded(_) => None,
    }
}

fn neighbors_of(s: &MappedStore, id: u64) -> Vec<u64> {
    let mut out = vec![];
    let Some((table, row)) = node_place(s, id) else {
        return out;
    };
    let ids = &s.ids.as_ref().unwrap().node_ids;
    for rel in s.rel_tables.iter().filter(|r| r.src_table_id == table) {
        let first: usize =
            s.node_tables[..rel.dst_table_id as usize].iter().map(|t| t.row_count).sum();
        let from = rel.fwd.offsets.get(row as usize).unwrap() as usize;
        let to = rel.fwd.offsets.get(row as usize + 1).unwrap() as usize;
        for k in from..to {
            out.push(ids.get(first + rel.fwd.targets.get(k).unwrap() as usize).unwrap());
        }
    }
    out
}

fn labels_of(s: &MappedStore, table: usize, row: usize) -> Vec<String> {
    if let Some(m) = &s.companions.membership {
        let codes = m.labels_of(table as u16, row as u32);
        if !codes.is_empty() {
            return codes.iter().map(|c| s.dict.get(*c).unwrap().to_string()).collect();
        }
    }
    vec![s.node_tables[table].label.clone()]
}

fn nodes_by_label(s: &MappedStore, label: &str) -> usize {
    let mut n = 0;
    for (t, table) in s.node_tables.iter().enumerate() {
        for row in 0..table.row_count {
            if labels_of(s, t, row).iter().any(|l| l == label) {
                n += 1;
            }
        }
    }
    n
}

fn u32s(bytes: &[u8]) -> Vec<u32> {
    bytes.chunks(4).map(|c| u32::from_le_bytes([c[0], c[1], c[2], c[3]])).collect()
}

#[test]
fn csr_streams_forward_reverse_and_positions() {
    // Forward records: rel 0, edges (src,dst): (0,0) self, (0,1), (0,1) dup,
    // (2,1). Sorted by (rel,src,dst,eid).
    let edges = [(0u64, 0u64, 0u64), (0, 1, 1), (0, 1, 2), (2, 1, 3)];
    let mut fwd_sink = RunSink::new();
    for (src, dst, eid) in edges {
        let mut key = Vec::new();
        key.extend_from_slice(&0u16.to_be_bytes());
        key.extend_from_slice(&src.to_be_bytes());
        key.extend_from_slice(&dst.to_be_bytes());
        key.extend_from_slice(&eid.to_be_bytes());
        fwd_sink.push(SortRecord::new(key, Vec::new()));
    }
    let fwd_lease = fwd_sink.finish();
    let geo = [RelTableGeometry { rel_id: 0, src_rows: 3, dst_rows: 3 }];

    let mut fwd_off = Vec::new();
    let mut fwd_tgt = Vec::new();
    let mut rev_sink = RunSink::new();
    stream_forward_csr(&fwd_lease, &geo, &mut fwd_off, &mut fwd_tgt, &mut rev_sink).unwrap();

    // 3 src rows + sentinel. Row0: edges 0,1,2 (positions 0-2). Row1: empty.
    // Row2: edge 3. Sentinel: 4.
    assert_eq!(u32s(&fwd_off), vec![0, 3, 3, 4], "forward offsets");
    assert_eq!(u32s(&fwd_tgt), vec![0, 1, 1, 1], "forward targets (dst offsets)");

    // Reverse pass.
    let rev_lease = rev_sink.finish();
    let mut rev_off = Vec::new();
    let mut rev_tgt = Vec::new();
    let mut pos = Vec::new();
    stream_reverse_csr(&rev_lease, &geo, &mut rev_off, &mut rev_tgt, &mut pos).unwrap();

    assert_eq!(u32s(&rev_off), vec![0, 1, 4, 4], "reverse offsets");
    assert_eq!(u32s(&rev_tgt), vec![0, 0, 0, 2], "reverse targets (src offsets)");
    assert_eq!(u32s(&pos), vec![0, 1, 2, 3], "real forward positions");
}

#[test]
fn edge_keys_split_as_they_were_made() {
    let key = make_edge_key(3, 1, 2, 9);
    assert_eq!(split_fwd_key(&key).unwrap(), (3, 1, 2, 9));
    assert_eq!(split_rev_key(&key).unwrap(), (3, 1, 2, 9));
    assert!(split_fwd_key(&key[1..]).is_err());
}

#[test]
fn bounded_node_pass_schema_and_geometry() {
    let input = vec![
        node(1, &["Person"], vec![("name", text("Ada")), ("age", Value::Int64(30))]),
        node(2, &["Person"], vec![("name", text("Bob"))]),
        node(100, &["Project"], vec![("title", text("Grafeo"))]),
    ];

    // Stage once.
    let mut out = NodePass::new().stage(&input).expect("stage");

    // Schema: Person=table 0, Project=table 1 (lexicographic).
    assert_eq!(out.schema.labels, vec!["Person", "Project"]);
    assert_eq!(out.schema.total_nodes, 3);

    // Duplicate-ID rejection passes (no dups here).
    NodePass::new().reject_duplicate_ids(&out).expect("no duplicates");

    // Explode occurrences.
    let mut occ_sink = RunSink::new();
    let mut id_sink = RunSink::new();
    let counts =
        NodePass::new().explode_occurrences(&mut out, &mut occ_sink, &mut id_sink).expect("explode");
    assert_eq!(counts, vec![2, 1], "Person has 2 rows, Project 1");
    let occ_lease = occ_sink.finish();

    // ID index: resolves original → (table, offset).
    let id_index =
        grafeo_compact::stages::materialize_mapped_id_index(&id_sink.finish()).expect("id index");
    assert_eq!(id_index.lookup(1), Some((0, 0)));
    assert_eq!(id_index.lookup(2), Some((0, 1)));
    assert_eq!(id_index.lookup(100), Some((1, 0)));

    // Column geometry from the occurrence run.
    let geometries = compute_column_geometries(&occ_lease, &counts, &[]).expect("geometries");
    let by_key = |t: u16, k: &str| {
        geometries.iter().find(|g| g.table_id == t && g.key == k).expect("column")
    };
    let name = by_key(0, "name");
    assert_eq!(name.present_count, 2);
    assert!(!name.needs_presence(), "name on every Person row");
    let age = by_key(0, "age");
    assert_eq!(age.present_count, 1);
    assert!(age.needs_presence(), "age absent on row 1 → presence bitmap");
    let title = by_key(1, "title");
    assert_eq!(title.present_count, 1);
}

#[test]
fn bounded_node_pass_rejects_duplicate_ids() {
    let input = vec![node(1, &["P"], vec![]), node(1, &["P"], vec![])];
    let out = NodePass::new().stage(&input).expect("stage");
    let err = NodePass::new().reject_duplicate_ids(&out).unwrap_err();
    assert!(matches!(err, GenerationError::DuplicateNodeId(1)));
}

fn complex_input() -> Input {
    (
        vec![
            node(
                100,
                &["Person"],
                vec![
                    ("name", text("Alice")),
                    ("age", Value::Int64(30)),
                    ("active", Value::Bool(true)),
                ],
            ),
            node(
                200,
                &["Person"],
                vec![
                    ("name", text("Bob")),
                    ("age", Value::Int64(25)),
                    ("active", Value::Bool(false)),
                ],
            ),
            node(
                300,
                &["Company"],
                vec![("name", text("Acme")), ("founded", Value::Int64(1990))],
            ),
        ],
        vec![
            edge(
                1000,
                100,
                200,
                "KNOWS",
                vec![("since", Value::Int64(2020)), ("weight", Value::Float64(0.8f64.to_bits()))],
            ),
            edge(1001, 100, 300, "WORKS_AT", vec![("role", text("Engineer"))]),
            edge(1002, 200, 300, "WORKS_AT", vec![("role", text("Designer"))]),
        ],
    )
}

#[test]
fn streaming_determinism() {
    let input = complex_input();
    let p1 = streaming_payload(&input);
    let p2 = streaming_payload(&input);
    assert_eq!(p1, p2, "two streaming builds must be byte-identical");
}

#[test]
fn streaming_payload_deserializes() {
    let payload = streaming_payload(&complex_input());
    let store = deserialize_v5(&Bytes::from(payload)).unwrap();
    assert_eq!(store.total_nodes, 3);
    assert_eq!(store.total_edges, 3);
    assert!(store.ids.is_some());
}

#[test]
fn the_order_of_the_records_does_not_matter() {
    let (mut nodes, mut edges) = complex_input();
    let one = bounded_payload(&complex_input());
    nodes.reverse();
    edges.reverse();
    assert_eq!(bounded_payload(&(nodes, edges)), one);
}

#[test]
fn orchestrator_produces_deserializable_payload() {
    let input = (
        vec![
            node(1, &["Person"], vec![("name", text("Ada")), ("age", Value::Int64(30))]),
            node(2, &["Person"], vec![("name", text("Bob")), ("age", Value::Int64(25))]),
            node(100, &["Project"], vec![("title", text("Grafeo"))]),
        ],
        vec![edge(10, 1, 2, "KNOWS", vec![]), edge(11, 1, 100, "WORKS_ON", vec![])],
    );
    let compact = deserialize_v5(&Bytes::from(bounded_payload(&input))).expect("deserialize_v5");
    assert_eq!(compact.total_nodes, 3);
    assert_eq!(compact.total_edges, 2);
    assert!(node_place(&compact, 1).is_some());
    assert!(node_place(&compact, 2).is_some());
    assert!(node_place(&compact, 100).is_some());
    assert!(node_place(&compact, 999).is_none());
}

#[test]
fn orchestrator_sparse_columns() {
    let input = (
        vec![
            node(1, &["Person"], vec![("name", text("Ada")), ("age", Value::Int64(30))]),
            node(2, &["Person"], vec![("name", text("Bob"))]), // no age
        ],
        vec![],
    );
    let compact = deserialize_v5(&Bytes::from(bounded_payload(&input))).expect("deserialize_v5");
    assert_eq!(compact.total_nodes, 2);
    assert_eq!(node_word(&compact, 1, "age"), Some(30));
    assert_eq!(node_word(&compact, 2, "age"), None); // sparse
}

#[test]
fn orchestrator_multi_label_membership_round_trip() {
    let input = (
        vec![node(1, &["Person", "Employee"], vec![]), node(2, &["Person"], vec![])],
        vec![],
    );
    let compact = deserialize_v5(&Bytes::from(bounded_payload(&input))).expect("deserialize_v5");

    // Node stored once per physical row (2 nodes total, not 3).
    assert_eq!(compact.total_nodes, 2);

    // Both labels resolve the correct node sets.
    assert_eq!(nodes_by_label(&compact, "Person"), 2, "Person must see both nodes");
    assert_eq!(nodes_by_label(&compact, "Employee"), 1, "Employee must see node 1 only");

    // The multi-label node has its complete logical label set.
    let (table, row) = node_place(&compact, 1).expect("node 1");
    let labels = labels_of(&compact, table as usize, row as usize);
    assert!(labels.contains(&"Person".to_string()), "labels: {labels:?}");
    assert!(labels.contains(&"Employee".to_string()), "labels: {labels:?}");
}

#[test]
fn orchestrator_three_label_membership_round_trip() {
    let input = (vec![node(7, &["A", "B", "C"], vec![])], vec![]);
    let compact = deserialize_v5(&Bytes::from(bounded_payload(&input))).expect("deserialize_v5");
    assert_eq!(compact.total_nodes, 1);
    for label in ["A", "B", "C"] {
        assert_eq!(nodes_by_label(&compact, label), 1, "label {label} must resolve the node");
    }
}

fn parity_input() -> Input {
    (
        vec![
            node(1, &["Person"], vec![("name", text("Alice")), ("age", Value::Int64(30))]),
            node(2, &["Person"], vec![("name", text("Bob")), ("age", Value::Int64(25))]),
            node(3, &["Person"], vec![("name", text("Carol")), ("age", Value::Int64(40))]),
        ],
        vec![edge(10, 1, 2, "KNOWS", vec![]), edge(11, 2, 3, "KNOWS", vec![])],
    )
}

#[test]
fn bounded_byte_parity_with_eager_lexicographic() {
    let input = parity_input();
    let bounded = bounded_payload(&input);
    let b = bounded_builder();
    let mut plan = b.plan(&input.0, &input.1).unwrap();
    let encoded = encode_plan(&plan);
    let store = assemble_store(&mut plan, encoded).unwrap();
    let eager = serialize_v5_with_string_order(&store, StringCodeOrder::Lexicographic).unwrap();
    assert_eq!(eager.len(), bounded.len());
    assert_eq!(eager, bounded);
    assert_eq!(eager, streaming_payload(&input));
}

#[test]
fn v5_round_trip_preserves_properties_and_csr_without_heap_id_maps() {
    let input = (
        vec![
            node(1, &["Person"], vec![("name", text("Alix")), ("rank", Value::Int64(1))]),
            node(2, &["Person"], vec![("name", text("Gus")), ("rank", Value::Int64(2))]),
        ],
        vec![edge(1, 1, 2, "KNOWS", vec![])],
    );
    let bytes = bounded_payload(&input);
    assert_eq!(bytes[4], FORMAT_VERSION_V5);
    let restored = deserialize_v5(&Bytes::from(bytes)).expect("v5 mapped deserialize");
    assert!(restored.ids.is_some());
    let acc = &restored.accounting;
    assert_eq!(acc.anonymous_proportional_structure_bytes, 0);
    assert!(acc.is_disk_native_graph());
    assert_eq!(node_text(&restored, 1, "name"), Some("Alix".to_string()));
    assert_eq!(node_word(&restored, 2, "rank"), Some(2));
    let rel = &restored.rel_tables[0];
    let (_, row) = node_place(&restored, 1).unwrap();
    let from = rel.fwd.offsets.get(row as usize).unwrap();
    assert_eq!(rel.fwd.offsets.get(row as usize + 1), Some(from + 1));
    let (_, other) = node_place(&restored, 2).unwrap();
    assert_eq!(
        rel.fwd.targets.get(from as usize),
        Some(other as u32),
        "CSR forward must survive v5 mapped open"
    );
}

#[test]
fn payloads_answer_by_original_id_alike() {
    let input = (
        vec![
            node(70, &["Person"], vec![("name", text("Alix"))]),
            node(5, &["Person"], vec![("name", text("Gus"))]),
            node(9, &["City"], vec![("name", text("Oslo"))]),
        ],
        vec![
            edge(1, 70, 5, "KNOWS", vec![]),
            edge(2, 70, 9, "LIVES", vec![]),
            edge(3, 5, 9, "LIVES", vec![]),
            edge(4, 70, 70, "KNOWS", vec![]),
        ],
    );
    let mut plan = bounded_builder().plan(&input.0, &input.1).unwrap();
    let encoded = encode_plan(&plan);
    let store = assemble_store(&mut plan, encoded).unwrap();
    let eager = serialize_v5_with_string_order(&store, StringCodeOrder::Insertion).unwrap();
    for payload in [eager, bounded_payload(&input), streaming_payload(&input)] {
        let s = deserialize_v5(&Bytes::from(payload)).unwrap();
        assert_eq!(node_text(&s, 70, "name"), Some("Alix".to_string()));
        assert_eq!(node_text(&s, 9, "name"), Some("Oslo".to_string()));
        assert_eq!(node_text(&s, 9, "age"), None);
        assert_eq!(node_text(&s, 8, "name"), None);
        assert_eq!(neighbors_of(&s, 70), [5, 70, 9]);
        assert_eq!(neighbors_of(&s, 5), [9]);
        assert_eq!(neighbors_of(&s, 9), [0u64; 0]);
    }
}

#[test]
fn streamed_metadata_goes_by_the_first_value_that_is_not_null() {
    let input = (
        vec![
            node(1, &["A"], vec![("n", Value::Null)]),
            node(2, &["A"], vec![("n", Value::Int64(4))]),
        ],
        vec![],
    );
    for payload in [streaming_payload(&input), bounded_payload(&input)] {
        let s = deserialize_v5(&Bytes::from(payload)).unwrap();
        assert_eq!(s.node_tables[0].columns[0].column_type, ColumnType::Int64);
        assert_eq!(node_word(&s, 2, "n"), Some(4));
    }
}

#[test]
fn graphs_without_edges_or_nodes_open() {
    for nodes in [vec![], vec![node(1, &["A"], vec![])]] {
        let n = nodes.len() as u64;
        let input = (nodes, vec![]);
        let bounded = bounded_payload(&input);
        let streamed = streaming_payload(&input);
        assert!(bounded.len() > streamed.len());
        for payload in [bounded, streamed] {
            let store = deserialize_v5(&Bytes::from(payload)).unwrap();
            assert_eq!((store.total_nodes, store.total_edges), (n, 0));
        }
    }
}

#[test]
fn bytes_behind_the_last_whole_id_are_not_read() {
    let payload = Bytes::from(streaming_payload(&parity_input()));
    let dir = parse_segment_directory(&payload, payload.len() - 4).unwrap();
    let with_tail = |tail: usize| {
        let mut segments = vec![];
        for e in &dir.entries {
            let mut body = slice_segment_checked(&payload, e).unwrap().to_vec();
            if matches!(e.kind, SegmentKind::NodeOriginalIds | SegmentKind::EdgeOriginalIds) {
                body.resize(body.len() + tail, 0xee);
            }
            segments.push(make_segment(e.kind, e.alignment, e.element_width, body));
        }
        let h = &dir.header;
        assemble_payload(&segments, h.flags, h.logical_node_count, h.logical_edge_count).unwrap()
    };
    let ids = |payload: Vec<u8>| {
        let store = deserialize_v5(&Bytes::from(payload)).unwrap();
        let ids = store.ids.unwrap();
        let list = |x: &MappedOriginalIds| (0..x.len()).map(|i| x.get(i)).collect::<Vec<_>>();
        (list(&ids.node_ids), list(&ids.edge_ids))
    };
    assert_eq!(with_tail(0), payload.to_vec());
    assert!(!ids(with_tail(0)).0.is_empty());
    assert_eq!(ids(with_tail(3)), ids(with_tail(0)));
    assert_eq!(ids(with_tail(7)), ids(with_tail(0)));
}

#[test]
fn a_damaged_payload_does_not_open() {
    let mut bytes = bounded_payload(&parity_input());
    let at = bytes.len() / 2;
    bytes[at] ^= 0x40;
    assert!(deserialize_v5(&Bytes::from(bytes)).is_err());
    assert!(deserialize_v5(&Bytes::from_static(b"GCST")).is_err());
}

#[test]
fn faults_of_the_records_are_reported() {
    let b = bounded_builder();
    let lone = vec![node(1, &["A"], vec![])];
    assert!(matches!(
        b.plan(&lone, &[edge(1, 1, 9, "X", vec![])]),
        Err(GenerationError::MissingEndpoint { .. })
    ));
    assert!(matches!(
        b.plan(&[node(1, &["A"], vec![]), node(1, &["A"], vec![])], &[]),
        Err(GenerationError::DuplicateNodeId(1))
    ));
    assert!(matches!(
        b.plan(&[node(4, &[], vec![])], &[]),
        Err(GenerationError::InvalidLabels { node_id: 4 })
    ));
    assert!(matches!(
        b.plan(&[node(1, &["A"], vec![("k", Value::Date(1))])], &[]),
        Err(GenerationError::Codec(CodecError::UnsupportedValue(ValueKind::Date)))
    ));
    let mixed = vec![
        node(1, &["A"], vec![("k", Value::Int64(1))]),
        node(2, &["A"], vec![("k", text("x"))]),
    ];
    assert!(matches!(
        b.plan(&mixed, &[]),
        Err(GenerationError::MixedColumnTypes {
            table_id: 0,
            kinds: Mixture::Families(Family::Int64, Family::Text),
        })
    ));
    let uneven = vec![
        node(1, &["A"], vec![("k", Value::Vector(vec![1]))]),
        node(2, &["A"], vec![("k", Value::Vector(vec![1, 2]))]),
    ];
    assert!(matches!(
        b.plan(&uneven, &[]),
        Err(GenerationError::MixedColumnTypes { table_id: 0, kinds: Mixture::VectorLengths })
    ));
    let twice = [edge(5, 1, 1, "X", vec![]), edge(5, 1, 1, "Y", vec![])];
    let s = StreamingGenerationBuilder::new();
    assert!(matches!(s.plan(&lone, &twice), Err(GenerationError::DuplicateEdgeId(5))));
}

#[test]
fn declared_endpoints_are_checked() {
    let b = BoundedGenerationBuilder::new(BoundedBuildConfig {
        rel_schemas: vec![RelSchemaDecl {
            edge_type: "OWNS".to_string(),
            src_label: "Person".to_string(),
            dst_label: "Dog".to_string(),
        }],
        frozen_epoch: 7,
    });
    assert_eq!(b.frozen_epoch(), 7);
    let nodes = vec![node(1, &["Person"], vec![]), node(2, &["Cat"], vec![])];
    assert!(matches!(
        b.plan(&nodes, &[edge(1, 1, 2, "OWNS", vec![])]),
        Err(GenerationError::WrongTableEndpoint {
            edge_id: 1,
            node_id: 2,
            expected_table: 0,
            actual_table: 0,
            is_source: false,
        })
    ));
}

#[test]
fn staged_records_read_back() {
    let mut out = Vec::new();
    let values = [
        Value::Null,
        Value::Bool(true),
        Value::Int64(-7),
        Value::Float64(1.5f64.to_bits()),
        text("stra\u{df}e"),
        Value::Vector(vec![1.0f32.to_bits(), 2.0f32.to_bits()]),
    ];
    for v in &values {
        encode_value(&mut out, v).unwrap();
    }
    let mut at = 0;
    for v in &values {
        let (got, next) = decode_value(&out, at).unwrap();
        assert_eq!(format!("{got:?}"), format!("{v:?}"));
        at = next;
    }
    assert_eq!(at, out.len());

    let p = props(vec![("b", Value::Int64(2)), ("a", text("x"))]);
    assert!(matches!(
        encode_properties(&props(vec![("a", Value::Int64(1)), ("d", Value::Date(1))])),
        Err(GenerationError::Codec(CodecError::UnsupportedValue(ValueKind::Date)))
    ));
    let bytes = encode_properties(&p).unwrap();
    let back = decode_properties(&bytes).unwrap();
    assert_eq!(format!("{back:?}"), format!("{p:?}"));

    let labels = vec!["A".to_string(), "B".to_string()];
    assert_eq!(decode_labels(&encode_labels(&labels).unwrap()).unwrap(), labels);

    let key = node_row_key("Person", 77);
    assert_eq!(split_node_row_key(&key).unwrap(), ("Person", 77));

    let payload = edge_row_payload(1, 2, &bytes);
    assert_eq!(split_edge_row_payload(&payload).unwrap(), (1, 2, &bytes[..]));
    assert!(decode_labels(&[1]).is_err());
    assert!(decode_value(&[9], 0).is_err());
}

#[test]
fn names_that_do_not_fit_a_row_key_are_refused() {
    let name = |n: usize| "x".repeat(n);
    let key = node_row_key(&name(65_535), 7);
    assert_eq!(&key[..2], &[0xff, 0xff]);
    assert_eq!(key.len(), 2 + 65_535 + 8);
    assert_eq!(&key[key.len() - 8..], &7u64.to_be_bytes());
    let lone = [node(1, &["A"], vec![])];
    for (len, fits) in [(65_535usize, true), (65_536, false), (70_000, false)] {
        let nodes = [node(1, &["xxx"], vec![]), node(2, &[name(len).as_str()], vec![])];
        let edges = [edge(1, 1, 1, &name(len), vec![])];
        for streaming in [true, false] {
            let plan = |nodes: &[GenerationNode], edges: &[GenerationEdge]| {
                if streaming {
                    StreamingGenerationBuilder::new().plan(nodes, edges)
                } else {
                    bounded_builder().plan(nodes, edges)
                }
            };
            let (by_label, by_type) = (plan(&nodes, &[]), plan(&lone, &edges));
            if fits {
                assert_eq!(by_label.unwrap().schema.table_row_counts, [1, 1]);
                assert_eq!(by_type.unwrap().keys.len(), 1);
            } else {
                assert!(matches!(
                    by_label,
                    Err(GenerationError::Codec(CodecError::LabelLength(n))) if n == len
                ));
                assert!(matches!(
                    by_type,
                    Err(GenerationError::Codec(CodecError::EdgeTypeLength(n))) if n == len
                ));
            }
        }
    }
}

#[test]
fn tables_are_numbered_in_the_order_of_their_labels() {
    let nodes = [node(1, &["B"], vec![]), node(2, &["A"], vec![]), node(3, &["B"], vec![])];
    let streamed = StreamingGenerationBuilder::new().plan(&nodes, &[]).expect("plan");
    let bounded = bounded_builder().plan(&nodes, &[]).expect("plan");
    for plan in [streamed, bounded] {
        assert_eq!(plan.schema.labels, ["A", "B"]);
        assert_eq!(plan.schema.label_to_table_id.get("A"), Some(&0));
        assert_eq!(plan.schema.label_to_table_id.get("B"), Some(&1));
        assert_eq!(plan.schema.label_to_table_id.len(), 2);
        assert_eq!(plan.schema.table_row_counts, [1, 2]);
    }
}

#[test]
fn a_streaming_build_counts_what_it_was_handed() {
    let input = complex_input();
    let builder = StreamingGenerationBuilder::new();
    let plan = builder.plan(&input.0, &input.1).expect("plan");
    let encoded = encode_plan(&plan);
    let out = builder.build(plan, encoded).expect("build");
    assert_eq!(out.total_nodes, input.0.len() as u64);
    assert_eq!(out.total_edges, input.1.len() as u64);
    assert!(out.preserves_ids);
    let store = deserialize_v5(&Bytes::from(out.payload.clone())).unwrap();
    assert_eq!((store.total_nodes, store.total_edges), (out.total_nodes, out.total_edges));
    assert_eq!(store.accounting.mapped_payload_index_bytes, out.payload.len());
    assert_eq!(store.accounting.anonymous_proportional_structure_bytes, 0);
    assert!(store.accounting.is_disk_native_graph());
}

#[test]
fn a_missing_endpoint_is_reported_type_by_type_or_in_run_order() {
    let nodes = [node(1, &["A"], vec![])];
    let edges = [edge(5, 1, 99, "B", vec![]), edge(6, 98, 1, "AA", vec![])];
    assert!(matches!(
        StreamingGenerationBuilder::new().plan(&nodes, &edges),
        Err(GenerationError::MissingEndpoint { edge_id: 6, node_id: 98, is_source: true })
    ));
    assert!(matches!(
        bounded_builder().plan(&nodes, &edges),
        Err(GenerationError::MissingEndpoint { edge_id: 5, node_id: 99, is_source: false })
    ));
}

#[test]
fn streaming_takes_further_labels_of_any_length() {
    let long = "z".repeat(65_536);
    let nodes = [node(1, &["A", long.as_str()], vec![])];
    let plan = StreamingGenerationBuilder::new().plan(&nodes, &[]).expect("plan");
    assert_eq!(plan.schema.table_row_counts, [1]);
    assert!(matches!(
        bounded_builder().plan(&nodes, &[]),
        Err(GenerationError::Codec(CodecError::LabelLength(65_536)))
    ));
}

#[test]
fn the_last_pair_of_a_key_wins() {
    let pairs = vec![
        ("b".to_string(), Value::Int64(1)),
        ("a".to_string(), Value::Int64(2)),
        ("b".to_string(), Value::Int64(3)),
    ];
    let m = clone_properties(pairs);
    assert_eq!(m.len(), 2);
    assert!(matches!(m.get("b"), Some(Value::Int64(3))));
    assert!(matches!(m.get("a"), Some(Value::Int64(2))));
}

#[test]
fn codec_inference_goes_by_the_first_value_that_is_not_null() {
    assert_eq!(infer_column_codec(&[Some(Value::Null), None, Some(Value::Bool(true))]), (2, 2));
    assert_eq!(infer_column_codec(&[Some(Value::Null), None]), (1, 1));
    assert_eq!(infer_column_codec(&[None, Some(Value::Int64(3))]), (0, 0));
    assert_eq!(infer_column_codec(&[Some(Value::Int64(-3))]), (6, 6));
    assert_eq!(infer_column_codec(&[Some(text("x"))]), (1, 1));
    assert_eq!(infer_column_codec(&[Some(Value::Float64(0))]), (4, 4));
}

fn occurrence_key(table: u16, key: &str, row: u64) -> Vec<u8> {
    let mut k = table.to_be_bytes().to_vec();
    k.extend_from_slice(key.as_bytes());
    k.extend_from_slice(&row.to_be_bytes());
    k
}

#[test]
fn text_occurrences_are_collected() {
    let mut occ = RunSink::new();
    let mut payload = Vec::new();
    encode_value(&mut payload, &text("Ada")).unwrap();
    occ.push(SortRecord::new(occurrence_key(1, "name", 0), payload));
    let mut number = Vec::new();
    encode_value(&mut number, &Value::Int64(3)).unwrap();
    occ.push(SortRecord::new(occurrence_key(0, "age", 0), number));
    let mut members = RunSink::new();
    let labels = vec!["A".to_string(), "B".to_string()];
    members.push(SortRecord::new(vec![0], encode_labels(&labels).unwrap()));
    let members = members.finish();
    let found = collect_string_occurrences(
        &vec!["A".to_string()],
        &[RelTableKey { edge_type: "T".to_string(), src_table_id: 0, dst_table_id: 0 }],
        Some(&members),
        &occ.finish(),
    )
    .unwrap();
    let list: Vec<(&[u8], StringUseKind)> =
        found.iter().map(|o| (o.text.as_slice(), o.kind)).collect();
    assert_eq!(
        list,
        vec![
            (&b"A"[..], StringUseKind::Label),
            (&b"T"[..], StringUseKind::EdgeType),
            (&b"A"[..], StringUseKind::Label),
            (&b"B"[..], StringUseKind::Label),
            (&b"age"[..], StringUseKind::PropertyKey),
            (&b"name"[..], StringUseKind::PropertyKey),
            (&b"Ada"[..], StringUseKind::DictValue),
        ]
    );
    assert_eq!(found[6].owner, [&[0u8, 1, 0, 4][..], b"name"].concat());
}

fn dict_key(table: u16, prop: &str, value: &str) -> Vec<u8> {
    let mut k = vec![use_code(StringUseKind::DictValue)];
    k.extend_from_slice(&table.to_be_bytes());
    k.extend_from_slice(&(prop.len() as u16).to_be_bytes());
    k.extend_from_slice(prop.as_bytes());
    k.extend_from_slice(value.as_bytes());
    k
}

#[test]
fn remap_records_give_codes_and_chunks() {
    let mut run = RunSink::new();
    let mut label = 1u32.to_le_bytes().to_vec();
    label.push(b'L');
    label.extend_from_slice(&4u32.to_le_bytes());
    run.push(SortRecord::new(vec![use_code(StringUseKind::Label)], label));
    for (v, c) in [("a", 0u32), ("a", 0), ("b", 1)] {
        run.push(SortRecord::new(dict_key(0, "k", v), c.to_le_bytes().to_vec()));
    }
    run.push(SortRecord::new(dict_key(1, "k", "z"), 9u32.to_le_bytes().to_vec()));
    let (schema, chunks) = consume_remap_run(&run.finish()).unwrap();
    assert_eq!(schema.get("L"), Some(&4));
    assert_eq!(chunks.len(), 2);
    assert_eq!(chunks[0].entries, vec![(b"a".to_vec(), 0), (b"b".to_vec(), 1)]);
    assert_eq!(chunks[1].entries, vec![(b"z".to_vec(), 9)]);

    let mut image = 2u32.to_le_bytes().to_vec();
    image.extend_from_slice(&0u64.to_le_bytes());
    image.extend_from_slice(&9u64.to_le_bytes());
    for (s, c) in [("a", 0u32), ("b", 1)] {
        image.extend_from_slice(&1u32.to_le_bytes());
        image.extend_from_slice(s.as_bytes());
        image.extend_from_slice(&c.to_le_bytes());
    }
    assert_eq!(chunks[0].image(), image);

    let mut entry = 1u16.to_le_bytes().to_vec();
    entry.extend_from_slice(&1u16.to_le_bytes());
    entry.push(b'k');
    entry.extend_from_slice(&6u16.to_le_bytes());
    entry.extend_from_slice(b"x.dict");
    assert_eq!(chunks[1].catalog_entry("x.dict").unwrap(), entry);
    assert!(matches!(
        chunks[1].catalog_entry(&"x".repeat(70_000)),
        Err(GenerationError::WireWidthOverflow { what: WireCount::DictName, .. })
    ));
}

#[test]
fn bad_remap_records_are_refused() {
    let refused = |key: Vec<u8>, payload: Vec<u8>| {
        let mut run = RunSink::new();
        run.push(SortRecord::new(key, payload));
        match consume_remap_run(&run.finish()) {
            Err(GenerationError::Codec(e)) => format!("{e:?}"),
            other => panic!("expected a codec error, got {other:?}"),
        }
    };
    assert_eq!(refused(vec![], vec![]), "KeyWidth(0)");
    assert_eq!(refused(vec![77], vec![]), "UnknownUse(77)");
    assert_eq!(refused(vec![0], vec![0; 3]), "PayloadWidth(3)");
    assert_eq!(refused(vec![0], vec![0; 9]), "TrailingBytes");
    assert_eq!(refused(vec![0], vec![9, 0, 0, 0, 0, 0, 0, 0]), "Truncated");
    assert_eq!(refused(dict_key(0, "k", "v"), vec![]), "PayloadWidth(0)");
    assert_eq!(refused(vec![4, 0, 0, 0, 9], vec![0; 4]), "Truncated");
    let mut bad = 1u32.to_le_bytes().to_vec();
    bad.push(0xff);
    bad.extend_from_slice(&[0; 4]);
    assert_eq!(refused(vec![1], bad), "InvalidText");
}

#[test]
fn a_chunk_skips_the_text_before() {
    let mut c = DictChunk::open(3, b"p");
    c.push_unique(b"x", 1).unwrap();
    c.push_unique(b"x", 1).unwrap();
    c.push_unique(b"y", 2).unwrap();
    c.push_unique(b"x", 1).unwrap();
    assert_eq!(c.entries.len(), 3);
    assert_eq!(c.body_bytes, 27);
}

#[test]
fn column_keys_are_listed_by_table() {
    let nodes = vec![
        node(1, &["A"], vec![("z", Value::Int64(1)), ("b", Value::Int64(1))]),
        node(2, &["B"], vec![("q", Value::Int64(1))]),
    ];
    let edges = [edge(1, 1, 2, "T", vec![("w", Value::Int64(5))])];
    let plan = bounded_builder().plan(&nodes, &edges).unwrap();
    assert_eq!(build_node_col_keys(&plan.geometries, 2), vec![vec!["b", "z"], vec!["q"]]);
    assert_eq!(build_rel_col_keys(&plan.geometries, 1), vec![vec!["w"]]);
}

fn source() -> GenerationSourceView {
    GenerationSourceView {
        node_labels: vec!["A".to_string(), "B".to_string()],
        node_lens: vec![2, 1],
        edge_types: vec!["T".to_string()],
        edge_lens: vec![2],
        node_ids: ReverseIds::Rows(vec![vec![10, 11], vec![20]]),
        edge_ids: ReverseIds::Rows(vec![vec![100, 101]]),
    }
}

fn id_set(ids: &[u64]) -> IdSet {
    let mut s = IdSet::new();
    for i in ids {
        s.insert(*i);
    }
    s
}

#[test]
fn the_overlay_wins_over_the_base() {
    let base = source();
    let freeze = FrozenOverlayEpoch {
        epoch: 3,
        overlay_node_ids: id_set(&[40, 11, 30, 11]),
        overlay_edge_ids: id_set(&[]),
        deleted_base_node_ids: id_set(&[20]),
        deleted_base_edge_ids: id_set(&[100]),
    };
    assert!(freeze.node_shadowed(11) && freeze.node_shadowed(20) && !freeze.node_shadowed(10));
    assert!(freeze.edge_shadowed(100) && !freeze.edge_shadowed(101));
    let mut live = live_graph_sources_bounded(true, true);
    let mut rows = Vec::new();
    while let Some(r) = live.nodes.next_node(&base, &freeze).unwrap() {
        rows.push(r);
    }
    assert_eq!(
        rows,
        vec![
            MergedRow::Base(BaseRow { table: 0, row: 0, id: 10 }),
            MergedRow::Overlay(11),
            MergedRow::Overlay(30),
            MergedRow::Overlay(40),
        ]
    );
    assert_eq!(
        live.edges.next_edge(&base, &freeze).unwrap(),
        Some(MergedRow::Base(BaseRow { table: 0, row: 1, id: 101 }))
    );
    assert_eq!(live.edges.next_edge(&base, &freeze).unwrap(), None);
}

#[test]
fn without_an_overlay_the_base_is_streamed_whole() {
    let base = source();
    let freeze = FrozenOverlayEpoch::base_only();
    let mut live = live_graph_sources_bounded(true, false);
    let mut n = 0;
    while live.nodes.next_node(&base, &freeze).unwrap().is_some() {
        n += 1;
    }
    assert_eq!(n, 3);
    let mut none = live_graph_sources_bounded(false, false);
    assert_eq!(none.nodes.next_node(&base, &freeze).unwrap(), None);
    assert_eq!(EmptyNodeSource.next_node(), None);
    assert_eq!(EmptyEdgeSource.next_edge(), None);
}

#[test]
fn a_base_row_without_an_id_is_an_error() {
    let mut base = source();
    base.node_ids = ReverseIds::Absent;
    let mut live = live_graph_sources_bounded(true, true);
    assert!(matches!(
        live.nodes.next_node(&base, &FrozenOverlayEpoch::base_only()),
        Err(GenerationError::Codec(CodecError::NoOriginalId { table: 0, row: 0 }))
    ));
}

#[test]
fn rows_become_records() {
    let v = source();
    assert_eq!((v.node_table_count(), v.edge_table_count()), (2, 1));
    assert_eq!((v.node_table_label(1), v.edge_table_type(0)), ("B", "T"));
    assert_eq!((v.node_table_len(0), v.edge_table_len(0)), (2, 2));
    let p = || props(vec![("k", text("abc"))]);
    let n = v.node_row(0, 1, p(), 100).unwrap().unwrap();
    assert_eq!((n.id, n.labels), (NodeId::new(11), vec!["A".to_string()]));
    assert!(v.node_row(0, 2, p(), 100).unwrap().is_none());
    assert!(matches!(
        v.node_row(5, 0, p(), 100),
        Err(GenerationError::InvalidInput(InputError::NoNodeTable(5)))
    ));
    assert!(matches!(
        v.edge_row(1, 0, None, None, p(), 100),
        Err(GenerationError::InvalidInput(InputError::NoRelTable(1)))
    ));
    // One byte of label, one of key, three of text and five of framing.
    assert!(matches!(
        v.node_row(0, 0, p(), 9),
        Err(GenerationError::BudgetExceeded {
            counter: BudgetCounter::MaxRecordBytes,
            requested: 10,
            limit: 9,
        })
    ));
    let e = v.edge_row(0, 0, Some((0, 0)), Some((1, 0)), p(), 100).unwrap().unwrap();
    assert_eq!((e.id, e.src, e.dst), (EdgeId::new(100), NodeId::new(10), NodeId::new(20)));
    assert!(matches!(
        v.edge_row(0, 0, None, Some((1, 0)), p(), 100),
        Err(GenerationError::Codec(CodecError::NoSource))
    ));
    assert!(matches!(
        reverse_endpoints(&v.node_ids, Some((0, 0)), None),
        Err(GenerationError::Codec(CodecError::NoDestination))
    ));
    assert!(matches!(
        reverse_endpoints(&v.node_ids, Some((9, 0)), Some((0, 0))),
        Err(GenerationError::Codec(CodecError::SourceWithoutId))
    ));
    assert!(matches!(
        reverse_endpoints(&v.node_ids, Some((0, 0)), Some((0, 9))),
        Err(GenerationError::Codec(CodecError::DestinationWithoutId))
    ));
    assert_eq!(estimate_props_bytes(&p()), 9);
    assert_eq!(estimate_node_bytes(&vec!["ab".to_string()], 9), 11);
}

#[test]
fn mapped_ids_are_found_by_table() {
    let mut raw = Vec::new();
    for id in [5u64, 6, 7] {
        raw.extend_from_slice(&id.to_le_bytes());
    }
    let ids = ReverseIds::Mapped { bytes: Bytes::from(raw), bases: vec![0, 2] };
    assert_eq!(reverse_id(&ids, 0, 1), Some(6));
    assert_eq!(reverse_id(&ids, 1, 0), Some(7));
    assert_eq!(reverse_id(&ids, 1, 1), None);
    assert_eq!(reverse_id(&ids, 2, 0), None);
}

#[test]
fn overlay_labels_are_sorted_and_distinct() {
    let labels = vec!["B".to_string(), "A".to_string(), "B".to_string()];
    let n = overlay_node(9, &labels, props(vec![]), 50).unwrap();
    assert_eq!(n.labels, vec!["A", "B"]);
    assert_eq!(n.physical_label(), "A");
    assert!(matches!(
        overlay_node(9, &vec![], props(vec![]), 50),
        Err(GenerationError::InvalidInput(InputError::OverlayNodeWithoutLabels(9)))
    ));
    assert!(matches!(
        overlay_node(9, &labels, props(vec![]), 1),
        Err(GenerationError::BudgetExceeded {
            counter: BudgetCounter::MaxRecordBytes,
            requested: 2,
            limit: 1,
        })
    ));
}

#[test]
fn edge_properties_are_staged_under_the_tagged_table() {
    let mut fwd = RunSink::new();
    for (dst, id) in [(0u64, 7u64), (1, 5)] {
        let mut key = vec![];
        key.extend_from_slice(&1u16.to_be_bytes());
        key.extend_from_slice(&0u64.to_be_bytes());
        key.extend_from_slice(&dst.to_be_bytes());
        key.extend_from_slice(&id.to_be_bytes());
        let payload = encode_properties(&props(vec![("w", Value::Int64(id as i64))])).unwrap();
        fwd.push(SortRecord::new(key, payload));
    }
    let mut occ = RunSink::new();
    explode_occurrences_from_forward(&fwd.finish(), &mut occ).unwrap();
    let staged = occ.finish();
    assert_eq!(staged.len(), 2);
    assert_eq!(staged.record_at(0).key, occurrence_key(0x8001, "w", 0));
    assert_eq!(staged.record_at(1).key, occurrence_key(0x8001, "w", 1));

    let mut short = RunSink::new();
    short.push(SortRecord::new(vec![0; 3], vec![]));
    assert!(matches!(
        explode_occurrences_from_forward(&short.finish(), &mut RunSink::new()),
        Err(GenerationError::Codec(CodecError::KeyWidth(3)))
    ));
}

#[test]
fn a_streaming_build_numbers_tables_of_both_kinds_apart() {
    let tables: u64 = 0x8002;
    let nodes: Vec<GenerationNode> = (0..tables)
        .map(|i| node(i, &[format!("L{i:05}").as_str()], vec![("k", Value::Int64(i as i64))]))
        .collect();
    let edges = vec![
        edge(1, 0, 0x8001, "R", vec![("w", Value::Int64(5))]),
        edge(2, 0x8001, 0, "R", vec![("w", Value::Int64(6))]),
    ];
    let b = StreamingGenerationBuilder::new();
    let plan = b.plan(&nodes, &edges).expect("plan");
    assert_eq!(plan.rel_base, 0x1_0000);
    assert_eq!(plan.cells.len(), 0x8004);
    let column = |at: usize| {
        let c = &plan.cells[at];
        let only = match &c.cells[..] {
            [Some(Value::Int64(n))] => Some(*n),
            _ => None,
        };
        (c.table_id, c.key.as_str(), only)
    };
    assert_eq!(column(0x7fff), (0x7fff, "k", Some(0x7fff)));
    assert_eq!(column(0x8000), (0x8000, "k", Some(0x8000)));
    assert_eq!(column(0x8001), (0x8001, "k", Some(0x8001)));
    assert_eq!(column(0x8002), (0x1_0000, "w", Some(5)));
    assert_eq!(column(0x8003), (0x1_0001, "w", Some(6)));
    let encoded = encode_plan(&plan);
    let out = b.build(plan, encoded).expect("build");
    assert_eq!((out.total_nodes, out.total_edges), (tables, 2));
}

#[test]
fn ids_that_the_overlay_no_longer_has_are_passed_over() {
    assert!(overlay_row(9, None, 50).unwrap().is_none());
    assert!(overlay_edge_row(9, None, 50).unwrap().is_none());
    let labels = vec!["B".to_string(), "A".to_string()];
    let n = overlay_row(9, Some((labels, props(vec![("k", Value::Int64(4))]))), 50);
    let n = n.unwrap().unwrap();
    assert_eq!((n.id, n.labels), (NodeId::new(9), vec!["A".to_string(), "B".to_string()]));
    assert_eq!(n.properties.len(), 1);
    assert!(matches!(
        overlay_row(9, Some((vec![], props(vec![]))), 50),
        Err(GenerationError::InvalidInput(InputError::OverlayNodeWithoutLabels(9)))
    ));
    let found = || Some((1, 2, "KNOWS".to_string(), props(vec![])));
    let e = overlay_edge_row(7, found(), 50).unwrap().unwrap();
    assert_eq!((e.id, e.src, e.dst), (EdgeId::new(7), NodeId::new(1), NodeId::new(2)));
    assert_eq!(e.edge_type, "KNOWS");
    assert!(matches!(
        overlay_edge_row(7, found(), 4),
        Err(GenerationError::BudgetExceeded {
            counter: BudgetCounter::MaxRecordBytes,
            requested: 5,
            limit: 4,
        })
    ));
}

#[test]
fn a_walk_gives_every_row_once() {
    let base = source();
    let mut freeze = FrozenOverlayEpoch::base_only();
    freeze.overlay_node_ids.insert(40);
    freeze.overlay_node_ids.insert(11);
    freeze.deleted_base_node_ids.insert(20);
    let mut live = live_graph_sources_bounded(true, true);
    let mut ids = vec![];
    while let Some(row) = live.nodes.next_node(&base, &freeze).unwrap() {
        ids.push(match row {
            MergedRow::Base(b) => b.id,
            MergedRow::Overlay(id) => id,
        });
    }
    assert_eq!(ids, [10, 11, 40]);
    assert_eq!(live.nodes.next_node(&base, &freeze).unwrap(), None);
}

#[test]
fn columns_that_are_not_the_plans_are_refused() {
    let input = parity_input();
    let encoded = |change: &dyn Fn(&mut FlatColumn)| {
        let mut plan = bounded_builder().plan(&input.0, &input.1).unwrap();
        let mut encoded = encode_plan(&plan);
        let mut at = None;
        for (i, e) in encoded.iter_mut().enumerate() {
            if let ColumnCodec::Flat(f) = &mut e.codec {
                change(f);
                at = Some(i);
                break;
            }
        }
        let stream = StreamingGenerationBuilder::new();
        let mut second = stream.plan(&input.0, &input.1).unwrap();
        std::mem::swap(&mut plan, &mut second);
        (at.expect("a flat column"), stream.build(plan, encoded).unwrap_err(), second)
    };
    let (at, err, plan) = encoded(&|f| f.rows += 1);
    assert!(
        matches!(err, GenerationError::Codec(CodecError::EncodedRows { column }) if column == at)
    );
    let mut columns = encode_plan(&plan);
    if let ColumnCodec::Flat(f) = &mut columns[at].codec {
        f.rows += 1;
    }
    assert!(matches!(
        bounded_builder().build(plan, columns),
        Err(GenerationError::Codec(CodecError::EncodedRows { column })) if column == at
    ));
    let (at, err, plan) = encoded(&|f| f.kind = FlatKind::Int8Vector);
    assert!(
        matches!(err, GenerationError::Codec(CodecError::EncodedKind { column }) if column == at)
    );
    let mut columns = encode_plan(&plan);
    if let ColumnCodec::Flat(f) = &mut columns[at].codec {
        f.kind = FlatKind::Int8Vector;
    }
    assert!(matches!(
        bounded_builder().build(plan, columns),
        Err(GenerationError::Codec(CodecError::EncodedKind { column })) if column == at
    ));
}

#[test]
fn texts_that_are_not_the_plans_are_refused() {
    let nodes = vec![
        node(1, &["A"], vec![("name", text("x"))]),
        node(2, &["A"], vec![]),
        node(3, &["A"], vec![("name", text("y"))]),
    ];
    let payload = |change: &dyn Fn(&mut EncodedColumn)| {
        let plan = bounded_builder().plan(&nodes, &[]).unwrap();
        let mut encoded = encode_plan(&plan);
        change(&mut encoded[0]);
        bounded_builder().build(plan, encoded)
    };
    let dict = |e: &mut EncodedColumn, change: &dyn Fn(&mut DictColumn)| {
        if let ColumnCodec::Dict(d) = &mut e.codec {
            change(d);
        }
    };
    assert!(payload(&|_| {}).is_ok());
    // A row without a text may have any.
    assert!(payload(&|e| dict(e, &|d| d.codes[1] = d.codes[0])).is_ok());
    let refused = |r: Result<Vec<u8>, GenerationError>| {
        matches!(r, Err(GenerationError::Codec(CodecError::EncodedTexts { column: 0 })))
    };
    assert!(refused(payload(&|e| dict(e, &|d| d.codes[2] = d.codes[0]))));
    assert!(refused(payload(&|e| dict(e, &|d| d.codes[2] = 9))));
    assert!(refused(payload(&|e| dict(e, &|d| d.entries[0].push('z')))));
}

#[test]
fn a_plan_holds_every_property_in_its_row() {
    let nodes = vec![
        node(9, &["B"], vec![("age", Value::Int64(1))]),
        node(3, &["A"], vec![("age", Value::Int64(2)), ("name", text("x"))]),
        node(5, &["A", "B"], vec![("age", Value::Int64(3))]),
    ];
    let edges = vec![
        edge(21, 9, 3, "R", vec![("w", Value::Int64(7))]),
        edge(20, 5, 3, "R", vec![("w", Value::Int64(8))]),
        edge(22, 3, 5, "R", vec![]),
        edge(23, 3, 3, "R", vec![("w", Value::Int64(9))]),
    ];
    let plan = bounded_builder().plan(&nodes, &edges).expect("plan");
    let cell = |table: u32, key: &str, row: usize| {
        let c = plan.cells.iter().find(|c| c.table_id == table && c.key == key).expect("column");
        match &c.cells[row] {
            Some(Value::Int64(n)) => Some(*n),
            _ => None,
        }
    };
    assert_eq!(plan.schema.labels, ["A", "B"]);
    assert_eq!(plan.id_index.lookup(3), Some((0, 0)));
    assert_eq!(plan.id_index.lookup(5), Some((0, 1)));
    assert_eq!(plan.id_index.lookup(9), Some((1, 0)));
    assert_eq!(plan.id_index.lookup(4), None);
    assert_eq!(cell(0, "age", 0), Some(2));
    assert_eq!(cell(0, "age", 1), Some(3));
    assert_eq!(cell(1, "age", 0), Some(1));
    // Edges of one table go by source row, destination row and id.
    assert_eq!(plan.keys.len(), 2);
    assert_eq!(cell(0x8000, "w", 0), Some(9));
    assert_eq!(cell(0x8000, "w", 1), None);
    assert_eq!(cell(0x8000, "w", 2), Some(8));
    assert_eq!(cell(0x8001, "w", 0), Some(7));
    let filled: usize = plan.cells.iter().flat_map(|c| &c.cells).filter(|c| c.is_some()).count();
    assert_eq!(filled, 7);
}

#[test]
fn a_plan_connects_its_edges_both_ways() {
    let nodes = vec![node(1, &["A"], vec![]), node(2, &["A"], vec![]), node(3, &["B"], vec![])];
    let edges = vec![
        edge(10, 2, 3, "R", vec![]),
        edge(11, 1, 3, "R", vec![]),
        edge(12, 1, 2, "R", vec![]),
        edge(13, 2, 1, "R", vec![]),
        edge(14, 1, 2, "R", vec![]),
    ];
    let plan = bounded_builder().plan(&nodes, &edges).expect("plan");
    assert_eq!(plan.adjacency.len(), 2);
    let own = &plan.adjacency[0];
    assert_eq!(own.fwd.offsets, [0, 2, 3]);
    assert_eq!(own.fwd.targets, [1, 1, 0]);
    assert_eq!(own.bwd.offsets, [0, 1, 3]);
    assert_eq!(own.bwd.targets, [1, 0, 0]);
    assert_eq!(own.bwd.edge_data, Some(vec![2, 0, 1]));
    let across = &plan.adjacency[1];
    assert_eq!(across.fwd.offsets, [0, 1, 2]);
    assert_eq!(across.fwd.targets, [0, 0]);
    assert_eq!(across.bwd.offsets, [0, 2]);
    assert_eq!(across.bwd.targets, [0, 1]);
    assert_eq!(across.bwd.edge_data, Some(vec![0, 1]));
}

#[test]
fn a_key_that_goes_on_with_a_zero_byte_has_a_column_of_its_own() {
    let columns = |key: &str| {
        let nodes = vec![
            node(1, &["A"], vec![("k", Value::Int64(1)), (key, Value::Int64(2))]),
            node(2, &["A"], vec![("k", Value::Int64(3))]),
        ];
        bounded_builder().plan(&nodes, &[]).expect("plan").cells.len()
    };
    assert_eq!(columns("kk"), 2);
    assert_eq!(columns("k\0"), 2);
    assert_eq!(columns("k\0\0\0\0\0\0\0\0"), 2);
}

#[test]
fn offsets_that_do_not_ascend_to_the_targets_are_refused() {
    let input = parity_input();
    let payload = |change: &dyn Fn(&mut Vec<u32>)| {
        let mut plan = bounded_builder().plan(&input.0, &input.1).unwrap();
        let encoded = encode_plan(&plan);
        let mut store = assemble_store(&mut plan, encoded).unwrap();
        change(&mut store.rel_tables[0].fwd.offsets);
        serialize_v5_with_string_order(&store, StringCodeOrder::Lexicographic).unwrap()
    };
    assert!(deserialize_v5(&Bytes::from(payload(&|_| {}))).is_ok());
    let ends: Vec<&dyn Fn(&mut Vec<u32>)> = vec![
        &|o| *o.last_mut().unwrap() += 1,
        &|o| o[0] = u32::MAX,
        &|o| o.iter_mut().for_each(|v| *v = 0),
    ];
    for change in ends {
        let r = deserialize_v5(&Bytes::from(payload(change)));
        assert!(matches!(r, Err(FormatError::CsrOffsets)));
    }
}

#[test]
fn metadata_lists_tables_columns_and_totals() {
    let nodes = vec![
        node(1, &["A"], vec![("k", Value::Int64(3))]),
        node(2, &["A"], vec![("k", Value::Int64(5))]),
    ];
    let plan = bounded_builder().plan(&nodes, &[edge(7, 1, 2, "T", vec![])]).unwrap();
    let mut codes: TextMap<u32> = TextMap::new();
    codes.insert("A", 0);
    codes.insert("T", 1);
    let meta = |codes: &TextMap<u32>| {
        build_metadata(
            &plan.schema.labels,
            &plan.schema.table_row_counts,
            &[vec!["k".to_string()]],
            &plan.keys,
            &plan.rel_counts,
            &[vec![]],
            codes,
            &plan.geometries,
            2,
            1,
        )
    };
    assert!(matches!(meta(&codes), Err(GenerationError::Codec(CodecError::NotInterned))));
    codes.insert("k", 2);
    let mut want = Vec::new();
    want.extend_from_slice(&1u32.to_le_bytes());
    want.extend_from_slice(&[0, 0, 0, 0, 0, 0, 2, 0, 0, 0, 1, 0, 0, 0]);
    want.extend_from_slice(&[2, 0, 0, 0, 0, 0, 0, 0]);
    want.extend_from_slice(&1u32.to_le_bytes());
    want.extend_from_slice(&[0, 0, 0, 0, 0, 0, 1, 0, 0, 0, 1, 0, 0, 0, 0, 0, 0, 0]);
    want.extend_from_slice(&2u64.to_le_bytes());
    want.extend_from_slice(&1u64.to_le_bytes());
    assert_eq!(meta(&codes).unwrap(), want);
}

#[test]
fn column_bodies_stand_one_behind_the_other() {
    let nodes = vec![
        node(1, &["A"], vec![("a", Value::Int64(3)), ("b", Value::Null)]),
        node(2, &["A"], vec![("a", Value::Int64(-5))]),
    ];
    let geometries = bounded_builder().plan(&nodes, &[]).unwrap().geometries;
    assert_eq!(geometries.len(), 2);
    let sizes = |a: u64, b: u64| [BodySize { bytes: a, rows: 2 }, BodySize { bytes: b, rows: 2 }];
    let placed = place_columns(&geometries, &sizes(7, 9)).unwrap();
    assert!(placed.emitted_presence && placed.emitted_null);
    let list: Vec<(u32, &str, u32, u32)> = placed
        .columns
        .iter()
        .map(|c| (c.column_index, c.key.as_str(), c.body_start, c.body_len))
        .collect();
    assert_eq!(list, vec![(0, "a", 0, 7), (1, "b", 7, 9)]);
    assert_eq!(placed.columns[0].kind, CodecKind::RawI64);
    let dense = place_columns(&geometries[..1], &sizes(7, 9)[..1]).unwrap();
    assert!(!dense.emitted_presence && !dense.emitted_null);
    let wide = 1u64 << 32;
    assert!(matches!(
        place_columns(&geometries, &sizes(wide, 9)),
        Err(GenerationError::WireWidthOverflow { what: WireCount::ColumnBodyLength, count, .. })
            if count == wide
    ));
    let three = |last: usize| {
        let g = bounded_builder()
            .plan(
                &[node(
                    1,
                    &["A"],
                    vec![("a", Value::Int64(1)), ("b", Value::Int64(1)), ("c", Value::Int64(1))],
                )],
                &[],
            )
            .unwrap()
            .geometries;
        let s: Vec<BodySize> =
            [wide - 1, wide - 1, 1].iter().map(|n| BodySize { bytes: *n, rows: 1 }).collect();
        place_columns(&g[..last], &s[..last]).map(|r| r.columns.len())
    };
    assert!(matches!(three(2), Ok(2)));
    assert!(matches!(
        three(3),
        Err(GenerationError::WireWidthOverflow { what: WireCount::ColumnBodyOffset, .. })
    ));
}
