//! The node pass.
//!
//! Staging turns every node into a row record, an id record and, where it
//! carries more than one label, a membership record. Replaying the sorted rows
//! assigns each node its dense offset and turns its properties into
//! occurrences, keyed `(table, property key, row)`.

use crate::faults;
use crate::generation::{CodecError, GenerationError, WireCount};
use crate::records::{GenerationNode, NodeRecord};
use crate::records;
use crate::runs::{RecordView, RunSetLease, RunSink, SortRecord};
use crate::runs;
use crate::sorting;
use crate::staging::{Property, check_label, decode_value, encode_labels, encode_properties, encode_value, idmap_key, idmap_payload, node_row_key, split_node_row_key};
use crate::staging;
use crate::text::{TextMap, decode_text, own};
use crate::text;
use crate::wire::{bytes_to_vec, load_u16, load_u16_be, load_u32, load_u64_be, push_bytes, push_u16_be, push_u64_be};
use crate::wire;
use vstd::prelude::*;
use vstd::slice::*;
use vstd::utf8::*;

verus! {

/// The node tables.
#[derive(Debug)]
pub struct NodeSchema {
    /// Table labels, ascending; a table's id is its position.
    pub labels: Vec<String>,
    /// Table id by label.
    pub label_to_table_id: TextMap<u16>,
    /// Rows per table.
    pub table_row_counts: Vec<u64>,
    /// Number of nodes.
    pub total_nodes: u64,
}

/// What the node pass stages.
#[derive(Debug)]
pub struct NodePassOutput {
    /// Node tables.
    pub schema: NodeSchema,
    /// Node rows.
    pub node_rows: RunSetLease,
    /// Original ids.
    pub id_runs: RunSetLease,
    /// Labels of the nodes with more than one, if there are such nodes.
    pub membership_runs: Option<RunSetLease>,
}

/// The tables of a schema are numbered in the order of their labels.
pub open spec fn labels_numbered(s: NodeSchema) -> bool {
    s.label_to_table_id@ == ids_of_labels(text::texts(s.labels@))
}

/// Drives the node pass.
#[derive(Debug)]
pub struct NodePass;

impl NodePass {
    /// The pass.
    pub fn new() -> (r: Self)
        ensures
            r == NodePass,
    {
        NodePass
    }
}

// --------------------------------------------------------------- staging

/// Why a node cannot be staged.
pub open spec fn node_fault(n: NodeRecord) -> Option<GenerationError> {
    if !records::labels_valid(n.labels) {
        Some(GenerationError::InvalidLabels { node_id: n.id })
    } else {
        match staging::properties_fault(n.properties) {
            Some(e) => Some(e),
            None => match staging::label_fault(n.labels[0]) {
                Some(e) => Some(e),
                None => if n.labels.len() > 1 {
                    staging::labels_fault(n.labels)
                } else {
                    None
                },
            },
        }
    }
}

/// The checks on the nodes, one by one.
pub open spec fn node_checks(v: Seq<NodeRecord>) -> spec_fn(int) -> Option<GenerationError> {
    |i: int| node_fault(v[i])
}

/// The row record of a node.
pub open spec fn node_row(n: NodeRecord) -> RecordView {
    RecordView { key: staging::row_key(n.labels[0], n.id), payload: staging::properties_record(n.properties) }
}

/// The id record of a node.
pub open spec fn node_id_row(n: NodeRecord) -> RecordView {
    RecordView { key: wire::put64_be(n.id), payload: Seq::empty() }
}

/// The membership record of a node.
pub open spec fn membership_row(n: NodeRecord) -> RecordView {
    RecordView { key: staging::row_key(n.labels[0], n.id), payload: staging::labels_record(n.labels) }
}

/// The row records of nodes.
pub open spec fn staged_node_rows(v: Seq<NodeRecord>) -> Seq<RecordView> {
    Seq::new(v.len(), |i: int| node_row(v[i]))
}

/// The id records of nodes.
pub open spec fn staged_id_rows(v: Seq<NodeRecord>) -> Seq<RecordView> {
    Seq::new(v.len(), |i: int| node_id_row(v[i]))
}

/// The membership records of the nodes with more than one label.
pub open spec fn staged_membership_rows(v: Seq<NodeRecord>) -> Seq<RecordView>
    decreases v.len(),
{
    if v.len() == 0 {
        Seq::empty()
    } else {
        let init = staged_membership_rows(v.drop_last());
        if v.last().labels.len() > 1 {
            init.push(membership_row(v.last()))
        } else {
            init
        }
    }
}

/// The labels that decide the tables.
pub open spec fn table_labels(v: Seq<NodeRecord>) -> Set<Seq<char>> {
    Set::new(|l: Seq<char>| exists|i: int| 0 <= i < v.len() && (#[trigger] v[i]).labels[0] == l)
}

/// The labels in ascending order are those of the set.
pub open spec fn lists_set(labels: Seq<Seq<char>>, set: Set<Seq<char>>) -> bool {
    &&& text::texts_ascend(labels)
    &&& forall|l: Seq<char>| labels.contains(l) == set.contains(l)
}

/// The table ids of labels: their positions.
pub open spec fn ids_of_labels(labels: Seq<Seq<char>>) -> Map<Seq<char>, u16> {
    Map::new(|l: Seq<char>| labels.contains(l), |l: Seq<char>| labels.index_of(l) as u16)
}

/// More tables than table ids.
pub open spec fn table_overflow() -> GenerationError {
    GenerationError::WireWidthOverflow { what: WireCount::NodeTableId, count: 0x1_0000, max: 0xffff }
}

proof fn lemma_listing_unique(a: Seq<Seq<char>>, b: Seq<Seq<char>>, set: Set<Seq<char>>)
    requires
        lists_set(a, set),
        lists_set(b, set),
    ensures
        a == b,
    decreases a.len() + b.len(),
{
    if a.len() == 0 || b.len() == 0 {
        if a.len() > 0 {
            assert(a.contains(a[0]));
            assert(b.contains(a[0]));
        }
        if b.len() > 0 {
            assert(b.contains(b[0]));
            assert(a.contains(b[0]));
        }
        assert(a =~= b);
    } else {
        let x = a.last();
        let y = b.last();
        assert(a.contains(x) && b.contains(y));
        assert(b.contains(x) && a.contains(y));
        let i = a.index_of(y);
        let j = b.index_of(x);
        assert(a[i] == y && b[j] == x);
        if i < a.len() - 1 && j < b.len() - 1 {
            assert(text::text_lt(a[i], a[a.len() - 1]));
            assert(text::text_lt(b[j], b[b.len() - 1]));
            wire::lemma_lex_total(text::utf8(x), text::utf8(y));
        }
        assert(x == y);
        let rest = set.remove(x);
        let a0 = a.drop_last();
        let b0 = b.drop_last();
        assert forall|l: Seq<char>| a0.contains(l) == rest.contains(l) by {
            if a0.contains(l) {
                let k = a0.index_of(l);
                assert(a0[k] == l && a[k] == l);
                assert(a.contains(l));
                if l == x {
                    text::lemma_ascending_distinct(a, k, a.len() - 1);
                }
            }
            if rest.contains(l) {
                assert(a.contains(l));
                let k = a.index_of(l);
                assert(a[k] == l);
                assert(a0[k] == l);
            }
        }
        assert forall|l: Seq<char>| b0.contains(l) == rest.contains(l) by {
            if b0.contains(l) {
                let k = b0.index_of(l);
                assert(b0[k] == l && b[k] == l);
                assert(b.contains(l));
                if l == x {
                    text::lemma_ascending_distinct(b, k, b.len() - 1);
                }
            }
            if rest.contains(l) {
                assert(b.contains(l));
                let k = b.index_of(l);
                assert(b[k] == l);
                assert(b0[k] == l);
            }
        }
        lemma_listing_unique(a0, b0, rest);
        assert(a =~= a0.push(x));
        assert(b =~= b0.push(y));
    }
}

/// A set of labels has one ascending listing.
pub proof fn lemma_lists_set_unique(a: Seq<Seq<char>>, b: Seq<Seq<char>>, set: Set<Seq<char>>)
    requires
        lists_set(a, set),
        lists_set(b, set),
    ensures
        a == b,
{
    lemma_listing_unique(a, b, set);
}

/// The table labels in ascending order.
pub open spec fn label_listing(v: Seq<NodeRecord>) -> Seq<Seq<char>> {
    choose|l: Seq<Seq<char>>| lists_set(l, table_labels(v))
}

/// What staging nodes yields.
pub open spec fn staged_nodes(v: Seq<NodeRecord>, out: NodePassOutput) -> bool {
    &&& text::texts(out.schema.labels@) == label_listing(v)
    &&& lists_set(label_listing(v), table_labels(v))
    &&& out.schema.labels@.len() <= 0x1_0000
    &&& out.schema.label_to_table_id@ == ids_of_labels(text::texts(out.schema.labels@))
    &&& out.schema.table_row_counts@.len() == 0
    &&& out.schema.total_nodes == v.len()
    &&& out.node_rows@ == runs::sorted_records(staged_node_rows(v))
    &&& out.id_runs@ == runs::sorted_records(staged_id_rows(v))
    &&& match out.membership_runs {
        Some(m) => staged_membership_rows(v).len() > 0 && m@ == runs::sorted_records(staged_membership_rows(v)),
        None => staged_membership_rows(v).len() == 0,
    }
}

/// The table ids of ascending labels.
pub(crate) fn number_labels(labels: &Vec<String>) -> (r: Result<TextMap<u16>, GenerationError>)
    requires
        text::texts_ascend(text::texts(labels@)),
    ensures
        match r {
            Ok(m) => labels@.len() <= 0x1_0000 && m@ == ids_of_labels(text::texts(labels@)),
            Err(e) => labels@.len() > 0x1_0000 && e == table_overflow(),
        },
{
    let n: usize = labels.len();
    let ghost l = text::texts(labels@);
    let mut map: TextMap<u16> = TextMap::new();
    let mut i: usize = 0;
    assert(map@ =~= ids_of_labels(l.take(0)));
    while i < n
        invariant
            i <= n,
            i <= 0x1_0000,
            n == labels@.len(),
            l == text::texts(labels@),
            text::texts_ascend(l),
            map@ == ids_of_labels(l.take(i as int)),
        decreases n - i,
    {
        if i > 0xffff {
            return Err(
                GenerationError::WireWidthOverflow {
                    what: WireCount::NodeTableId,
                    count: i as u64,
                    max: 0xffff,
                },
            );
        }
        let ghost before = map@;
        map.insert(labels[i].as_str(), i as u16);
        proof {
            let a = l.take(i as int);
            let b = l.take(i as int + 1);
            assert(b =~= a.push(l[i as int]));
            assert forall|k: Seq<char>| b.contains(k) implies if k == l[i as int] {
                b.index_of(k) == i
            } else {
                a.contains(k) && b.index_of(k) == a.index_of(k)
            } by {
                let x = b.index_of(k);
                assert(b[x] == k);
                assert(l[x] == k);
                if k == l[i as int] {
                    text::lemma_ascending_distinct(l, x, i as int);
                } else {
                    assert(a[x] == k);
                    assert(a.contains(k));
                    let y = a.index_of(k);
                    assert(a[y] == k);
                    assert(l[y] == k);
                    text::lemma_ascending_distinct(l, x, y);
                }
            }
            assert(b[i as int] == l[i as int]);
            assert(b.contains(l[i as int]));
            assert forall|k: Seq<char>| a.contains(k) implies b.contains(k) by {
                let y = a.index_of(k);
                assert(a[y] == k);
                assert(b[y] == k);
            }
            assert(map@ =~= ids_of_labels(b));
        }
        i = i + 1;
    }
    assert(l.take(n as int) =~= l);
    Ok(map)
}

/// The labels of a set of texts in ascending order.
pub(crate) fn listed(set: &TextMap<()>) -> (r: Vec<String>)
    ensures
        lists_set(text::texts(r@), set@.dom()),
{
    let n: usize = set.len();
    let mut out: Vec<String> = Vec::new();
    let mut i: usize = 0;
    while i < n
        invariant
            i <= n,
            n == set.key_seq().len(),
            text::texts(out@) == set.key_seq().take(i as int),
        decreases n - i,
    {
        let ghost before = text::texts(out@);
        let label: String = own(set.key_at(i));
        out.push(label);
        assert(text::texts(out@) =~= before.push(label@));
        i = i + 1;
        assert(text::texts(out@) =~= set.key_seq().take(i as int));
    }
    assert(set.key_seq().take(n as int) =~= set.key_seq());
    out
}

impl NodePass {
    /// Stages the nodes.
    pub fn stage(&self, nodes: &[GenerationNode]) -> (r: Result<NodePassOutput, GenerationError>)
        ensures
            match r {
                Ok(out) => faults::first_fault(
                    nodes@.len(),
                    node_checks(records::node_records(nodes@)),
                ) is None && staged_nodes(records::node_records(nodes@), out),
                Err(e) => match faults::first_fault(nodes@.len(), node_checks(records::node_records(nodes@))) {
                    Some(f) => e == f,
                    None => e == table_overflow() && label_listing(records::node_records(nodes@)).len()
                        > 0x1_0000,
                },
            },
    {
        let n: usize = nodes.len();
        let ghost v = records::node_records(nodes@);
        assert(n == v.len());
        let mut row_sink: RunSink = RunSink::new();
        let mut id_sink: RunSink = RunSink::new();
        let mut membership_sink: RunSink = RunSink::new();
        let mut labels: TextMap<()> = TextMap::new();
        let mut has_multi_label: bool = false;
        let mut i: usize = 0;
        assert(row_sink@ =~= staged_node_rows(v.take(0)));
        assert(id_sink@ =~= staged_id_rows(v.take(0)));
        assert(labels@.dom() =~= table_labels(v.take(0)));
        while i < n
            invariant
                i <= n,
                n == nodes@.len(),
                v == records::node_records(nodes@),
                row_sink@ == staged_node_rows(v.take(i as int)),
                id_sink@ == staged_id_rows(v.take(i as int)),
                membership_sink@ == staged_membership_rows(v.take(i as int)),
                labels@.dom() == table_labels(v.take(i as int)),
                has_multi_label == (staged_membership_rows(v.take(i as int)).len() > 0),
                faults::first_fault(i as nat, node_checks(v)) is None,
            decreases n - i,
        {
            let node: &GenerationNode = &nodes[i];
            let ghost x = v[i as int];
            let ghost a = v.take(i as int);
            let ghost b = v.take(i as int + 1);
            proof {
                assert(x == node@);
                assert(b =~= a.push(x));
                assert(b.drop_last() =~= a);
                assert(node_checks(v)(i as int) == node_fault(x));
                if node_fault(x) is Some {
                    faults::lemma_first_fault_stays((i + 1) as nat, n as nat, node_checks(v));
                }
            }
            match node.validate_labels() {
                Ok(_) => {},
                Err(e) => return Err(e),
            }
            let props: Vec<u8> = match encode_properties(&node.properties) {
                Ok(p) => p,
                Err(e) => return Err(e),
            };
            let physical: &str = node.physical_label();
            match check_label(physical) {
                Ok(_) => {},
                Err(e) => return Err(e),
            }
            let ghost dom = labels@.dom();
            labels.insert(physical, ());
            row_sink.push(SortRecord::new(node_row_key(physical, node.id.0), props));
            id_sink.push(SortRecord::new(idmap_key(node.id.0), Vec::new()));
            if node.labels.len() > 1 {
                has_multi_label = true;
                let payload: Vec<u8> = match encode_labels(node.labels.as_slice()) {
                    Ok(p) => p,
                    Err(e) => return Err(e),
                };
                membership_sink.push(SortRecord::new(node_row_key(physical, node.id.0), payload));
            }
            proof {
                assert(row_sink@ =~= staged_node_rows(b));
                assert(id_sink@ =~= staged_id_rows(b));
                assert(membership_sink@ =~= staged_membership_rows(b));
                assert forall|l: Seq<char>| table_labels(b).contains(l) == (table_labels(
                    a,
                ).contains(l) || l == x.labels[0]) by {
                    if table_labels(b).contains(l) && l != x.labels[0] {
                        let k = choose|k: int| 0 <= k < b.len() && (#[trigger] b[k]).labels[0] == l;
                        assert(a[k].labels[0] == l);
                    }
                    if table_labels(a).contains(l) {
                        let k = choose|k: int| 0 <= k < a.len() && (#[trigger] a[k]).labels[0] == l;
                        assert(b[k].labels[0] == l);
                    }
                    assert(b[i as int].labels[0] == x.labels[0]);
                }
                assert(labels@.dom() =~= table_labels(b));
            }
            i = i + 1;
        }
        assert(v.take(n as int) =~= v);
        let label_vec: Vec<String> = listed(&labels);
        proof {
            lemma_lists_set_unique(text::texts(label_vec@), label_listing(v), table_labels(v));
        }
        let label_to_table_id: TextMap<u16> = match number_labels(&label_vec) {
            Ok(m) => m,
            Err(e) => {
                return Err(e);
            },
        };
        let membership_runs: Option<RunSetLease> = if has_multi_label {
            Some(membership_sink.finish())
        } else {
            None
        };
        Ok(
            NodePassOutput {
                schema: NodeSchema {
                    labels: label_vec,
                    label_to_table_id,
                    table_row_counts: Vec::new(),
                    total_nodes: n as u64,
                },
                node_rows: row_sink.finish(),
                id_runs: id_sink.finish(),
                membership_runs,
            },
        )
    }

    /// Rejects duplicate original ids, which stand side by side in the id run.
    pub fn reject_duplicate_ids(&self, out: &NodePassOutput) -> (r: Result<(), GenerationError>)
        ensures
            match r {
                Ok(_) => faults::first_fault(out.id_runs@.len(), id_checks(out.id_runs@)) is None,
                Err(e) => faults::first_fault(out.id_runs@.len(), id_checks(out.id_runs@)) == Some(e),
            },
    {
        let n: usize = out.id_runs.len();
        let ghost recs = out.id_runs@;
        let mut prev: Option<u64> = None;
        let mut i: usize = 0;
        while i < n
            invariant
                i <= n,
                n == recs.len(),
                recs == out.id_runs@,
                faults::first_fault(i as nat, id_checks(recs)) is None,
                i == 0 ==> prev is None,
                i > 0 ==> recs[i - 1].key.len() == 8 && prev == Some(wire::u64_be_at(recs[i - 1].key, 0)),
            decreases n - i,
        {
            let rec: &SortRecord = out.id_runs.record_at(i);
            proof {
                assert(rec@ == recs[i as int]);
                if id_checks(recs)(i as int) is Some {
                    faults::lemma_first_fault_stays((i + 1) as nat, n as nat, id_checks(recs));
                }
            }
            if rec.key.len() != 8 {
                return Err(GenerationError::Codec(CodecError::KeyWidth(rec.key.len())));
            }
            let id: u64 = load_u64_be(rec.key.as_slice(), 0);
            match prev {
                Some(p) => {
                    if p == id {
                        return Err(GenerationError::DuplicateNodeId(id));
                    }
                },
                None => {},
            }
            prev = Some(id);
            i = i + 1;
        }
        Ok(())
    }

    /// Replays the node rows: assigns dense offsets, stages one ID-index
    /// record per node and one occurrence per property, and returns the rows
    /// per table.
    pub fn explode_occurrences(
        &self,
        out: &mut NodePassOutput,
        occ_sink: &mut RunSink,
        id_index_sink: &mut RunSink,
    ) -> (r: Result<Vec<u64>, GenerationError>)
        requires
            old(out).schema.label_to_table_id@ == ids_of_labels(text::texts(old(out).schema.labels@)),
            old(out).schema.labels@.len() <= 0x1_0000,
        ensures
            match r {
                Ok(counts) => {
                    let w = node_walk(
                        text::texts(old(out).schema.labels@),
                        old(out).node_rows@,
                        old(out).node_rows@.len(),
                    );
                    &&& w is Ok
                    &&& counts@ == w->Ok_0.counts
                    &&& final(occ_sink)@ == old(occ_sink)@ + w->Ok_0.occurrences
                    &&& final(id_index_sink)@ == old(id_index_sink)@ + w->Ok_0.ids
                    &&& final(out).schema.table_row_counts@ == counts@
                    &&& final(out).schema.labels == old(out).schema.labels
                    &&& final(out).schema.label_to_table_id == old(out).schema.label_to_table_id
                    &&& final(out).schema.total_nodes == old(out).schema.total_nodes
                    &&& final(out).node_rows == old(out).node_rows
                    &&& final(out).id_runs == old(out).id_runs
                    &&& final(out).membership_runs == old(out).membership_runs
                },
                Err(e) => node_walk(
                    text::texts(old(out).schema.labels@),
                    old(out).node_rows@,
                    old(out).node_rows@.len(),
                ) == Err::<NodeWalk, GenerationError>(e),
            },
    {
        let counts: Vec<u64> = match walk_rows(
            &out.schema,
            &out.node_rows,
            occ_sink,
            id_index_sink,
        ) {
            Ok(c) => c,
            Err(e) => return Err(e),
        };
        out.schema.table_row_counts = copy_counts(&counts);
        Ok(counts)
    }
}

/// The check on an id record: its width, then whether it repeats the last.
pub open spec fn id_checks(recs: Seq<RecordView>) -> spec_fn(int) -> Option<GenerationError> {
    |i: int|
        if recs[i].key.len() != 8 {
            Some(GenerationError::Codec(CodecError::KeyWidth(recs[i].key.len() as usize)))
        } else if i > 0 && wire::u64_be_at(recs[i - 1].key, 0) == wire::u64_be_at(recs[i].key, 0) {
            Some(GenerationError::DuplicateNodeId(wire::u64_be_at(recs[i].key, 0)))
        } else {
            None
        }
}

// ----------------------------------------------------------- occurrences

/// The sort key of an occurrence.
pub open spec fn occ_key(table_id: u16, key: Seq<char>, row: u64) -> Seq<u8> {
    wire::put16_be(table_id) + text::utf8(key) + wire::put64_be(row)
}

/// The occurrence of a property in a row.
pub open spec fn occurrence(table_id: u16, row: u64, p: Property) -> RecordView {
    RecordView { key: occ_key(table_id, p.0, row), payload: staging::value_record(p.1) }
}

/// The occurrences of a row's properties.
pub open spec fn row_occurrences(table_id: u16, row: u64, p: Seq<Property>) -> Seq<RecordView> {
    Seq::new(p.len(), |i: int| occurrence(table_id, row, p[i]))
}

/// The parts of an occurrence key.
pub open spec fn split_occ(d: Seq<u8>) -> Result<(u16, Seq<char>, u64), GenerationError> {
    if d.len() < 10 {
        Err(GenerationError::Codec(CodecError::KeyWidth(d.len() as usize)))
    } else {
        let b = d.subrange(2, d.len() - 8);
        if valid_utf8(b) {
            Ok((wire::u16_be_at(d, 0), text::text_of(b), wire::u64_be_at(d, d.len() - 8)))
        } else {
            Err(GenerationError::Codec(CodecError::InvalidText))
        }
    }
}

/// Splits an occurrence key into table, property key and row.
pub fn split_occ_key(key: &[u8]) -> (r: Result<(u16, &str, u64), GenerationError>)
    ensures
        match r {
            Ok(p) => split_occ(key@) == Ok::<(u16, Seq<char>, u64), GenerationError>(
                (p.0, p.1@, p.2),
            ) && text::utf8(p.1@).len() + 10 == key@.len(),
            Err(e) => split_occ(key@) == Err::<(u16, Seq<char>, u64), GenerationError>(e),
        },
{
    let n: usize = key.len();
    assert(n == key@.len());
    if n < 10 {
        return Err(GenerationError::Codec(CodecError::KeyWidth(n)));
    }
    let b: &[u8] = slice_subrange(key, 2, n - 8);
    match decode_text(b) {
        Some(s) => Ok((load_u16_be(key, 0), s, load_u64_be(key, n - 8))),
        None => Err(GenerationError::Codec(CodecError::InvalidText)),
    }
}

/// Splitting an occurrence key gives its parts back.
pub proof fn lemma_occ_key_round_trip(table_id: u16, key: Seq<char>, row: u64)
    ensures
        split_occ(occ_key(table_id, key, row)) == Ok::<(u16, Seq<char>, u64), GenerationError>(
            (table_id, key, row),
        ),
{
    broadcast use wire::group_wire;

    let d = occ_key(table_id, key, row);
    text::lemma_text_of_utf8(key);
    assert(d.subrange(0, 2) =~= wire::put16_be(table_id));
    assert(d.subrange(2, d.len() - 8) =~= text::utf8(key));
    assert(d.subrange(d.len() - 8, d.len() as int) =~= wire::put64_be(row));
}

/// Bytes behind ones and a zero at the end, so that they sort before whatever
/// goes on from them.
pub open spec fn marked(d: Seq<u8>) -> Seq<u8>
    decreases d.len(),
{
    if d.len() == 0 {
        seq![0u8]
    } else {
        seq![1u8, d[0]] + marked(d.skip(1))
    }
}

/// Marked bytes sort as the bytes do, and then by what follows.
pub proof fn lemma_marked_order(a: Seq<u8>, b: Seq<u8>, x: Seq<u8>, y: Seq<u8>)
    ensures
        wire::lex_lt(marked(a) + x, marked(b) + y) == (wire::lex_lt(a, b) || (a == b && wire::lex_lt(x, y))),
    decreases a.len(),
{
    let p = marked(a) + x;
    let q = marked(b) + y;
    if a.len() == 0 && b.len() == 0 {
        assert(a =~= b);
        assert(p.skip(1) =~= x);
        assert(q.skip(1) =~= y);
    } else if a.len() == 0 || b.len() == 0 {
        assert(p[0] != q[0]);
    } else {
        let ra = marked(a.skip(1)) + x;
        let rb = marked(b.skip(1)) + y;
        assert(p.skip(1) =~= seq![a[0]] + ra);
        assert(q.skip(1) =~= seq![b[0]] + rb);
        assert(p.skip(1).skip(1) =~= ra);
        assert(q.skip(1).skip(1) =~= rb);
        lemma_marked_order(a.skip(1), b.skip(1), x, y);
        assert(p[0] == 1 && q[0] == 1);
        assert(wire::lex_lt(p, q) == wire::lex_lt(p.skip(1), q.skip(1)));
        assert(p.skip(1)[0] == a[0] && q.skip(1)[0] == b[0]);
        if a[0] == b[0] {
            assert(wire::lex_lt(p.skip(1), q.skip(1)) == wire::lex_lt(ra, rb));
            if a.skip(1) == b.skip(1) {
                assert(a =~= seq![a[0]] + a.skip(1));
                assert(b =~= seq![b[0]] + b.skip(1));
            }
        }
    }
}

/// The rank of an occurrence key: by table, then property key, then row.
pub open spec fn occ_rank(d: Seq<u8>) -> Seq<u8> {
    if d.len() < 10 {
        d
    } else {
        d.subrange(0, 2) + (marked(d.subrange(2, d.len() - 8)) + d.subrange(
            d.len() - 8,
            d.len() as int,
        ))
    }
}

/// The ranks of occurrence records.
pub open spec fn occ_ranks(v: Seq<RecordView>) -> Seq<Seq<u8>> {
    Seq::new(v.len(), |i: int| occ_rank(v[i].key))
}

/// Occurrence records by table, property key and row.
pub open spec fn ranked_records(v: Seq<RecordView>) -> Seq<RecordView> {
    runs::arranged_by(v, occ_ranks(v))
}

fn push_marked(out: &mut Vec<u8>, d: &[u8], from: usize, end: usize)
    requires
        from <= end <= d@.len(),
    ensures
        final(out)@ == old(out)@ + marked(d@.subrange(from as int, end as int)),
{
    let ghost before = out@;
    let ghost all = marked(d@.subrange(from as int, end as int));
    let mut i: usize = from;
    assert(before + all =~= out@ + marked(d@.subrange(i as int, end as int)));
    while i < end
        invariant
            from <= i <= end <= d@.len(),
            before + all == out@ + marked(d@.subrange(i as int, end as int)),
        decreases end - i,
    {
        let ghost was = out@;
        let ghost rest = d@.subrange(i as int, end as int);
        out.push(1);
        out.push(d[i]);
        proof {
            assert(rest.skip(1) =~= d@.subrange(i + 1, end as int));
            assert(out@ =~= was + seq![1u8, rest[0]]);
            assert(was + (seq![1u8, rest[0]] + marked(rest.skip(1))) =~= out@ + marked(
                rest.skip(1),
            ));
        }
        i = i + 1;
    }
    out.push(0);
    assert(d@.subrange(end as int, end as int).len() == 0);
    assert(out@ =~= before + all);
}

fn rank_of(key: &[u8]) -> (r: Vec<u8>)
    ensures
        r@ == occ_rank(key@),
{
    let n: usize = key.len();
    assert(n == key@.len());
    if n < 10 {
        return bytes_to_vec(key);
    }
    let mut out: Vec<u8> = Vec::new();
    push_bytes(&mut out, slice_subrange(key, 0, 2));
    push_marked(&mut out, key, 2, n - 8);
    push_bytes(&mut out, slice_subrange(key, n - 8, n));
    assert(out@ =~= occ_rank(key@));
    out
}

/// Sorts occurrences by table, property key and row, so that those of a column
/// stand together.
pub fn rank_occurrences(occurrences: RunSink) -> (r: RunSetLease)
    ensures
        r@ == ranked_records(occurrences@),
{
    let n: usize = occurrences.len();
    let ghost v = occurrences@;
    let mut keys: Vec<Vec<u8>> = Vec::new();
    let mut i: usize = 0;
    while i < n
        invariant
            i <= n,
            n == v.len(),
            v == occurrences@,
            keys@.len() == i,
            forall|k: int| 0 <= k < i ==> (#[trigger] keys@[k])@ == occ_ranks(v)[k],
        decreases n - i,
    {
        keys.push(rank_of(occurrences.record_at(i).key.as_slice()));
        i = i + 1;
    }
    assert(sorting::key_bytes(keys@) =~= occ_ranks(v));
    occurrences.finish_by(keys)
}

/// Occurrences rank by table, then property key, then row.
pub proof fn lemma_occ_rank_order(a: (u16, Seq<char>, u64), b: (u16, Seq<char>, u64))
    ensures
        wire::lex_lt(occ_rank(occ_key(a.0, a.1, a.2)), occ_rank(occ_key(b.0, b.1, b.2))) == (a.0 < b.0
            || (a.0 == b.0 && (text::text_lt(a.1, b.1) || (a.1 == b.1 && a.2 < b.2)))),
{
    broadcast use wire::group_wire;

    let x = occ_key(a.0, a.1, a.2);
    let y = occ_key(b.0, b.1, b.2);
    let ra = marked(text::utf8(a.1)) + wire::put64_be(a.2);
    let rb = marked(text::utf8(b.1)) + wire::put64_be(b.2);
    assert(x.subrange(0, 2) =~= wire::put16_be(a.0));
    assert(y.subrange(0, 2) =~= wire::put16_be(b.0));
    assert(x.subrange(2, x.len() - 8) =~= text::utf8(a.1));
    assert(y.subrange(2, y.len() - 8) =~= text::utf8(b.1));
    assert(x.subrange(x.len() - 8, x.len() as int) =~= wire::put64_be(a.2));
    assert(y.subrange(y.len() - 8, y.len() as int) =~= wire::put64_be(b.2));
    wire::lemma_lex_heads(wire::put16_be(a.0), wire::put16_be(b.0), ra, rb);
    wire::lemma_be16_order(a.0, b.0);
    assert(wire::get16_be(wire::put16_be(a.0)) == a.0 && wire::get16_be(wire::put16_be(b.0)) == b.0);
    lemma_marked_order(text::utf8(a.1), text::utf8(b.1), wire::put64_be(a.2), wire::put64_be(b.2));
    wire::lemma_be64_order(a.2, b.2);
    if text::utf8(a.1) == text::utf8(b.1) {
        text::lemma_utf8_injective(a.1, b.1);
    }
}

/// A value that was read can be written.
pub proof fn lemma_read_value_writable(d: Seq<u8>, pos: int)
    requires
        0 <= pos,
        staging::value_at(d, pos) is Ok,
    ensures
        staging::value_fault(staging::value_at(d, pos)->Ok_0.0) is None,
{
    if d[pos] == 3 {
        let n = wire::u32_at(d, pos + 1) as int;
        text::lemma_utf8_text_of(d.subrange(pos + 5, pos + 5 + n));
    }
}

/// Stages one occurrence per property of an encoded row.
pub fn explode_row(table_id: u16, row: u64, bytes: &[u8], sink: &mut RunSink) -> (r: Result<
    (),
    GenerationError,
>)
    ensures
        match r {
            Ok(_) => row_properties(bytes@) is Ok && final(sink)@ == old(sink)@ + row_occurrences(
                table_id,
                row,
                row_properties(bytes@)->Ok_0,
            ),
            Err(e) => row_properties(bytes@) == Err::<Seq<Property>, GenerationError>(e),
        },
{
    let n: usize = bytes.len();
    assert(n == bytes@.len());
    if n < 4 {
        return Err(GenerationError::Codec(CodecError::Truncated));
    }
    let count: u32 = load_u32(bytes, 0);
    let ghost start = sink@;
    let mut pos: usize = 4;
    let mut i: u32 = 0;
    let ghost mut read: Seq<Property> = Seq::empty();
    assert(start + row_occurrences(table_id, row, read) =~= start);
    while i < count
        invariant
            i <= count,
            n == bytes@.len(),
            4 <= pos <= n,
            count == wire::u32_at(bytes@, 0),
            staging::properties_after(bytes@, i as nat) == Ok::<(Seq<Property>, int), GenerationError>(
                (read, pos as int),
            ),
            sink@ == start + row_occurrences(table_id, row, read),
        decreases count - i,
    {
        proof {
            if staging::properties_after(bytes@, (i + 1) as nat) is Err {
                staging::lemma_properties_fail(bytes@, (i + 1) as nat, count as nat);
            }
        }
        if n - pos < 2 {
            return Err(GenerationError::Codec(CodecError::Truncated));
        }
        let klen: usize = load_u16(bytes, pos) as usize;
        if n - pos - 2 < klen {
            return Err(GenerationError::Codec(CodecError::Truncated));
        }
        let kb: &[u8] = slice_subrange(bytes, pos + 2, pos + 2 + klen);
        let key: &str = match decode_text(kb) {
            Some(s) => s,
            None => return Err(GenerationError::Codec(CodecError::InvalidText)),
        };
        let (value, next) = match decode_value(bytes, pos + 2 + klen) {
            Ok(p) => p,
            Err(e) => return Err(e),
        };
        let mut occ: Vec<u8> = Vec::new();
        push_u16_be(&mut occ, table_id);
        push_bytes(&mut occ, kb);
        push_u64_be(&mut occ, row);
        let mut payload: Vec<u8> = Vec::new();
        proof {
            lemma_read_value_writable(bytes@, pos + 2 + klen);
        }
        match encode_value(&mut payload, &value) {
            Ok(_) => {},
            Err(e) => {
                assert(false);
            },
        }
        let ghost p = (key@, value@);
        proof {
            assert(occ@ =~= occ_key(table_id, key@, row));
            assert(payload@ =~= staging::value_record(value@));
        }
        sink.push(SortRecord::new(occ, payload));
        proof {
            read = read.push(p);
            assert(sink@ =~= start + row_occurrences(table_id, row, read));
        }
        pos = next;
        i = i + 1;
    }
    Ok(())
}

/// The properties of an encoded row in their order.
pub open spec fn row_properties(d: Seq<u8>) -> Result<Seq<Property>, GenerationError> {
    if d.len() < 4 {
        Err(GenerationError::Codec(CodecError::Truncated))
    } else {
        match staging::properties_after(d, wire::u32_at(d, 0) as nat) {
            Ok(s) => Ok(s.0),
            Err(e) => Err(e),
        }
    }
}

/// The properties of an encoded row are those that were encoded.
pub proof fn lemma_row_properties_round_trip(p: Seq<Property>)
    requires
        staging::properties_fault(p) is None,
    ensures
        row_properties(staging::properties_record(p)) == Ok::<Seq<Property>, GenerationError>(p),
{
    broadcast use wire::group_wire;

    let d = staging::properties_record(p);
    wire::lemma_holds_all(d);
    wire::lemma_holds_split(d, 0, wire::put32(p.len() as u32), wire::flat(p, staging::property_records()));
    staging::lemma_properties_read(d, p, p.len());
    assert(p.take(p.len() as int) =~= p);
}

// ------------------------------------------------------------------ walk

/// The walk over the node rows: rows per table, occurrences, ID-index records.
pub struct NodeWalk {
    /// Rows per table so far.
    pub counts: Seq<u64>,
    /// Occurrences staged.
    pub occurrences: Seq<RecordView>,
    /// ID-index records staged.
    pub ids: Seq<RecordView>,
}

/// The ID-index record of a node.
pub open spec fn id_index_row(id: u64, table_id: u16, offset: u64) -> RecordView {
    RecordView { key: wire::put64_be(id), payload: staging::id_payload(table_id, offset) }
}

/// The walk behind one more row.
pub open spec fn node_step(labels: Seq<Seq<char>>, w: NodeWalk, rec: RecordView) -> Result<
    NodeWalk,
    GenerationError,
> {
    match staging::split_row_key(rec.key) {
        Err(e) => Err(e),
        Ok(p) => if !labels.contains(p.0) {
            Err(GenerationError::Codec(CodecError::UnknownLabel))
        } else {
            let t = labels.index_of(p.0);
            let off = w.counts[t];
            match row_properties(rec.payload) {
                Err(e) => Err(e),
                Ok(props) => Ok(
                    NodeWalk {
                        counts: w.counts.update(t, (off + 1) as u64),
                        occurrences: w.occurrences + row_occurrences(t as u16, off, props),
                        ids: w.ids.push(id_index_row(p.1, t as u16, off)),
                    },
                ),
            }
        },
    }
}

/// The walk behind the first `k` rows.
pub open spec fn node_walk(labels: Seq<Seq<char>>, recs: Seq<RecordView>, k: nat) -> Result<
    NodeWalk,
    GenerationError,
>
    decreases k,
{
    if k == 0 {
        Ok(
            NodeWalk {
                counts: Seq::new(labels.len(), |i: int| 0u64),
                occurrences: Seq::empty(),
                ids: Seq::empty(),
            },
        )
    } else {
        match node_walk(labels, recs, (k - 1) as nat) {
            Err(e) => Err(e),
            Ok(w) => node_step(labels, w, recs[k - 1]),
        }
    }
}

proof fn lemma_node_walk_fail(labels: Seq<Seq<char>>, recs: Seq<RecordView>, i: nat, n: nat)
    requires
        i <= n,
        node_walk(labels, recs, i) is Err,
    ensures
        node_walk(labels, recs, n) == node_walk(labels, recs, i),
    decreases n,
{
    if i < n {
        lemma_node_walk_fail(labels, recs, i, (n - 1) as nat);
    }
}

/// A copy of row counts.
pub fn copy_counts(v: &Vec<u64>) -> (r: Vec<u64>)
    ensures
        r@ == v@,
{
    let mut out: Vec<u64> = Vec::with_capacity(v.len());
    let mut i: usize = 0;
    while i < v.len()
        invariant
            i <= v@.len(),
            out@ == v@.take(i as int),
        decreases v@.len() - i,
    {
        out.push(v[i]);
        i = i + 1;
        assert(out@ =~= v@.take(i as int));
    }
    assert(v@.take(i as int) =~= v@);
    out
}

fn zero_counts(n: usize) -> (r: Vec<u64>)
    ensures
        r@ == Seq::new(n as nat, |i: int| 0u64),
{
    let mut out: Vec<u64> = Vec::new();
    let mut i: usize = 0;
    while i < n
        invariant
            i <= n,
            out@ == Seq::new(i as nat, |k: int| 0u64),
        decreases n - i,
    {
        out.push(0);
        i = i + 1;
        assert(out@ =~= Seq::new(i as nat, |k: int| 0u64));
    }
    out
}

fn walk_rows(
    schema: &NodeSchema,
    rows: &RunSetLease,
    occ_sink: &mut RunSink,
    id_index_sink: &mut RunSink,
) -> (r: Result<Vec<u64>, GenerationError>)
    requires
        schema.label_to_table_id@ == ids_of_labels(text::texts(schema.labels@)),
        schema.labels@.len() <= 0x1_0000,
    ensures
        match r {
            Ok(counts) => {
                let w = node_walk(text::texts(schema.labels@), rows@, rows@.len());
                &&& w is Ok
                &&& counts@ == w->Ok_0.counts
                &&& final(occ_sink)@ == old(occ_sink)@ + w->Ok_0.occurrences
                &&& final(id_index_sink)@ == old(id_index_sink)@ + w->Ok_0.ids
            },
            Err(e) => node_walk(text::texts(schema.labels@), rows@, rows@.len()) == Err::<
                NodeWalk,
                GenerationError,
            >(e),
        },
{
    let n: usize = rows.len();
    let ghost labels = text::texts(schema.labels@);
    let ghost recs = rows@;
    let ghost occ0 = occ_sink@;
    let ghost ids0 = id_index_sink@;
    let mut counts: Vec<u64> = zero_counts(schema.labels.len());
    let ghost mut w = NodeWalk { counts: counts@, occurrences: Seq::empty(), ids: Seq::empty() };
    let mut i: usize = 0;
    proof {
        assert(occ0 + w.occurrences =~= occ0);
        assert(ids0 + w.ids =~= ids0);
        assert(counts@ =~= Seq::new(labels.len(), |k: int| 0u64));
    }
    while i < n
        invariant
            i <= n,
            n == recs.len(),
            recs == rows@,
            labels == text::texts(schema.labels@),
            labels.len() <= 0x1_0000,
            schema.label_to_table_id@ == ids_of_labels(labels),
            node_walk(labels, recs, i as nat) == Ok::<NodeWalk, GenerationError>(w),
            counts@ == w.counts,
            counts@.len() == labels.len(),
            forall|t: int| 0 <= t < counts@.len() ==> (#[trigger] counts@[t]) <= i,
            occ_sink@ == occ0 + w.occurrences,
            id_index_sink@ == ids0 + w.ids,
        decreases n - i,
    {
        proof {
            if node_walk(labels, recs, (i + 1) as nat) is Err {
                lemma_node_walk_fail(labels, recs, (i + 1) as nat, n as nat);
            }
        }
        let rec: &SortRecord = rows.record_at(i);
        let (label, id) = match split_node_row_key(rec.key.as_slice()) {
            Ok(p) => p,
            Err(e) => return Err(e),
        };
        let tid: u16 = match schema.label_to_table_id.get(label) {
            Some(t) => *t,
            None => return Err(GenerationError::Codec(CodecError::UnknownLabel)),
        };
        let ghost t = labels.index_of(label@);
        assert(labels[t] == label@);
        assert(tid == t);
        let off: u64 = counts[tid as usize];
        counts.set(tid as usize, off + 1);
        let ghost occ1 = occ_sink@;
        match explode_row(tid, off, rec.payload.as_slice(), occ_sink) {
            Ok(_) => {},
            Err(e) => return Err(e),
        }
        id_index_sink.push(SortRecord::new(idmap_key(id), idmap_payload(tid, off)));
        proof {
            let next = node_step(labels, w, recs[i as int])->Ok_0;
            assert(occ_sink@ =~= occ0 + next.occurrences);
            assert(id_index_sink@ =~= ids0 + next.ids);
            assert(counts@ =~= next.counts);
            w = next;
        }
        i = i + 1;
    }
    Ok(counts)
}

/// The walk counts the rows of every table.
pub proof fn lemma_walk_counts_tables(labels: Seq<Seq<char>>, recs: Seq<RecordView>, n: nat)
    requires
        node_walk(labels, recs, n) is Ok,
    ensures
        node_walk(labels, recs, n)->Ok_0.counts.len() == labels.len(),
    decreases n,
{
    if n > 0 {
        if node_walk(labels, recs, (n - 1) as nat) is Err {
            lemma_node_walk_fail(labels, recs, (n - 1) as nat, n);
        }
        lemma_walk_counts_tables(labels, recs, (n - 1) as nat);
    }
}

// ------------------------------------------------------------------ laws

/// Number of the first `k` rows with a label.
pub open spec fn rows_with_label(recs: Seq<RecordView>, label: Seq<char>, k: nat) -> nat
    decreases k,
{
    if k == 0 {
        0
    } else {
        rows_with_label(recs, label, (k - 1) as nat) + match staging::split_row_key(recs[k - 1].key) {
            Ok(p) => if p.0 == label {
                1nat
            } else {
                0nat
            },
            Err(_) => 0nat,
        }
    }
}

/// Dense offsets count the rows of a table: the row at position `k` of the
/// sorted run gets as its offset the number of earlier rows with its label,
/// and every table ends with as many rows as carry its label.
pub proof fn lemma_offsets_are_dense(labels: Seq<Seq<char>>, recs: Seq<RecordView>, n: nat)
    requires
        text::texts_ascend(labels),
        n <= recs.len(),
        n < 0x1_0000_0000_0000_0000,
        node_walk(labels, recs, n) is Ok,
    ensures
        ({
            let w = node_walk(labels, recs, n)->Ok_0;
            &&& w.counts.len() == labels.len()
            &&& w.ids.len() == n
            &&& forall|t: int|
                0 <= t < labels.len() ==> (#[trigger] w.counts[t]) == rows_with_label(
                    recs,
                    labels[t],
                    n,
                )
            &&& forall|t: int|
                0 <= t < labels.len() ==> rows_with_label(recs, #[trigger] labels[t], n) <= n
            &&& forall|k: int|
                0 <= k < n ==> staging::split_row_key((#[trigger] recs[k]).key) is Ok && ({
                    let p = staging::split_row_key(recs[k].key)->Ok_0;
                    w.ids[k] == id_index_row(
                        p.1,
                        labels.index_of(p.0) as u16,
                        rows_with_label(recs, p.0, k as nat) as u64,
                    )
                })
        }),
    decreases n,
{
    if n > 0 {
        let m = (n - 1) as nat;
        if node_walk(labels, recs, m) is Err {
            lemma_node_walk_fail(labels, recs, m, n);
        }
        lemma_offsets_are_dense(labels, recs, m);
        let v = node_walk(labels, recs, m)->Ok_0;
        let w = node_walk(labels, recs, n)->Ok_0;
        let p = staging::split_row_key(recs[n - 1].key)->Ok_0;
        let t0 = labels.index_of(p.0);
        assert(labels[t0] == p.0);
        assert(rows_with_label(recs, labels[t0], m) <= m);
        assert forall|t: int| 0 <= t < labels.len() implies (#[trigger] w.counts[t])
            == rows_with_label(recs, labels[t], n) && rows_with_label(recs, labels[t], n) <= n by {
            assert(v.counts[t] == rows_with_label(recs, labels[t], m));
            assert(rows_with_label(recs, labels[t], m) <= m);
            if labels[t] == p.0 {
                text::lemma_ascending_distinct(labels, t, t0);
            }
        }
        assert forall|t: int| 0 <= t < labels.len() implies rows_with_label(
            recs,
            #[trigger] labels[t],
            n,
        ) <= n by {
            assert(w.counts[t] == rows_with_label(recs, labels[t], n));
        }
        assert forall|k: int| 0 <= k < n implies staging::split_row_key((#[trigger] recs[k]).key) is Ok && ({
            let p = staging::split_row_key(recs[k].key)->Ok_0;
            w.ids[k] == id_index_row(
                p.1,
                labels.index_of(p.0) as u16,
                rows_with_label(recs, p.0, k as nat) as u64,
            )
        }) by {
            if k < m {
                assert(w.ids[k] == v.ids[k]);
            } else {
                assert(v.counts[t0] == rows_with_label(recs, labels[t0], m));
            }
        }
    }
}

} // verus!
