//! Rows of a base store as a generation takes them in: one row at a time, with
//! its original id, and no larger than a record may be.

use crate::generation::{BudgetCounter, CodecError, GenerationError, InputError};
use crate::outside::bytes_as_slice;
use crate::outside;
use crate::records::{EdgeRecord, GenerationEdge, GenerationNode, NodeRecord};
use crate::staging::Property;
use crate::staging;
use crate::text::{TextMap, own};
use crate::text;
use crate::types::{EdgeId, NodeId};
use crate::value::{Value, ValueView};
use crate::wire::load_u64;
use crate::wire;
use bytes::Bytes;
use vstd::prelude::*;

verus! {

/// The way from a row back to its original id.
#[derive(Debug)]
pub enum ReverseIds {
    /// Identifiers by table and row.
    Rows(Vec<Vec<u64>>),
    /// Identifiers one behind the other, and where each table's start.
    Mapped {
        /// Little-endian identifiers.
        bytes: Bytes,
        /// First identifier of each table.
        bases: Vec<usize>,
    },
    /// None are kept.
    Absent,
}

/// The original id of a row.
pub open spec fn id_of_row(ids: ReverseIds, table: int, row: int) -> Option<u64> {
    match ids {
        ReverseIds::Rows(v) => if 0 <= table < v@.len() && 0 <= row < v@[table]@.len() {
            Some(v@[table]@[row])
        } else {
            None
        },
        ReverseIds::Mapped { bytes, bases } => if 0 <= table < bases@.len() && 8 * (bases@[table]
            + row) + 8 <= outside::bytes_content(bytes).len() {
            Some(wire::u64_at(outside::bytes_content(bytes), 8 * (bases@[table] + row)))
        } else {
            None
        },
        ReverseIds::Absent => None,
    }
}

/// The original id of a row of a table.
pub fn reverse_id(ids: &ReverseIds, table: usize, row: u64) -> (r: Option<u64>)
    ensures
        r == id_of_row(*ids, table as int, row as int),
{
    match ids {
        ReverseIds::Rows(v) => {
            assert(v@.len() == v.len());
            if table < v.len() && row < v[table].len() as u64 {
                assert(v@[table as int]@.len() == v@[table as int].len());
                Some(v[table][row as usize])
            } else {
                None
            }
        },
        ReverseIds::Mapped { bytes, bases } => {
            assert(bases@.len() == bases.len());
            let d: &[u8] = bytes_as_slice(bytes);
            assert(d@.len() == d.len());
            if table >= bases.len() {
                return None;
            }
            let slots: usize = d.len() / 8;
            let base: usize = bases[table];
            if base >= slots || row >= (slots - base) as u64 {
                return None;
            }
            Some(load_u64(d, 8 * (base + row as usize)))
        },
        ReverseIds::Absent => None,
    }
}

/// Bytes of a property: its key, and its value with what a record adds.
pub open spec fn property_bytes(p: Property) -> int {
    text::utf8(p.0).len() as int + match p.1 {
        ValueView::Text(s) => text::utf8(s).len() as int + 5,
        ValueView::Vector(w) => w.len() as int * 4 + 3,
        _ => 9,
    }
}

/// Bytes of the first `n` properties.
pub open spec fn props_bytes(v: Seq<Property>, n: int) -> int
    decreases n,
{
    if n <= 0 {
        0
    } else {
        props_bytes(v, n - 1) + property_bytes(v[n - 1])
    }
}

/// Bytes of the first `n` texts.
pub open spec fn label_bytes(v: Seq<Seq<char>>, n: int) -> int
    decreases n,
{
    if n <= 0 {
        0
    } else {
        label_bytes(v, n - 1) + text::utf8(v[n - 1]).len()
    }
}

proof fn lemma_props_monotonic(v: Seq<Property>, k: int, n: int)
    requires
        0 <= k <= n,
    ensures
        0 <= props_bytes(v, k) <= props_bytes(v, n),
    decreases n,
{
    if k < n {
        lemma_props_monotonic(v, k, n - 1);
    } else if n > 0 {
        lemma_props_monotonic(v, k - 1, n - 1);
    }
}

proof fn lemma_labels_monotonic(v: Seq<Seq<char>>, k: int, n: int)
    requires
        0 <= k <= n,
    ensures
        0 <= label_bytes(v, k) <= label_bytes(v, n),
    decreases n,
{
    if k < n {
        lemma_labels_monotonic(v, k, n - 1);
    } else if n > 0 {
        lemma_labels_monotonic(v, k - 1, n - 1);
    }
}

/// Bytes of all properties of a row.
pub open spec fn all_props_bytes(m: TextMap<Value>) -> int {
    props_bytes(staging::properties_of(m), staging::properties_of(m).len() as int)
}

/// A count of bytes as a number, at most the greatest one.
pub open spec fn capped(n: int) -> u64 {
    if n > u64::MAX {
        u64::MAX
    } else {
        n as u64
    }
}

fn add_bytes(sum: u64, more: u128) -> (r: u64)
    requires
        more <= 0xffff_ffff_ffff_ffff_ffff,
    ensures
        r == capped(sum + more),
{
    let all: u128 = sum as u128 + more;
    if all > 0xffff_ffff_ffff_ffff {
        u64::MAX
    } else {
        all as u64
    }
}

/// Bytes of the properties of a row, as a record spells them at most.
pub fn estimate_props_bytes(props: &TextMap<Value>) -> (r: u64)
    ensures
        r == capped(all_props_bytes(*props)),
{
    let ghost v = staging::properties_of(*props);
    let n: usize = props.len();
    let mut sum: u64 = 0;
    let mut i: usize = 0;
    while i < n
        invariant
            i <= n,
            v == staging::properties_of(*props),
            n == props.key_seq().len(),
            n == v.len(),
            sum == capped(props_bytes(v, i as int)),
            props_bytes(v, i as int) >= 0,
        decreases n - i,
    {
        let k: &[u8] = props.key_at(i).as_bytes();
        assert(k@.len() == k.len());
        let x: &Value = props.val_at(i);
        assert(v[i as int].1 == x@);
        let width: u128 = match x {
            Value::String(s) => {
                let b: &[u8] = s.as_str().as_bytes();
                assert(b@.len() == b.len());
                b.len() as u128 + 5
            },
            Value::Vector(w) => {
                assert(w@.len() == w.len());
                w.len() as u128 * 4 + 3
            },
            _ => 9,
        };
        sum = add_bytes(sum, k.len() as u128 + width);
        i = i + 1;
    }
    sum
}

/// Bytes of a node record: its labels and its properties.
pub open spec fn node_bytes(labels: Seq<Seq<char>>, m: TextMap<Value>) -> int {
    label_bytes(labels, labels.len() as int) + all_props_bytes(m)
}

/// Bytes of a node record: its labels and `prop_bytes`.
pub fn estimate_node_bytes(labels: &Vec<String>, prop_bytes: u64) -> (r: u64)
    ensures
        r == capped(label_bytes(text::texts(labels@), labels@.len() as int) + prop_bytes),
{
    let ghost v = text::texts(labels@);
    let mut sum: u64 = prop_bytes;
    let mut i: usize = 0;
    while i < labels.len()
        invariant
            i <= labels@.len(),
            v == text::texts(labels@),
            label_bytes(v, i as int) >= 0,
            sum == capped(label_bytes(v, i as int) + prop_bytes),
        decreases labels@.len() - i,
    {
        assert(v[i as int] == labels@[i as int]@);
        let b: &[u8] = labels[i].as_str().as_bytes();
        assert(b@.len() == b.len());
        sum = add_bytes(sum, b.len() as u128);
        i = i + 1;
    }
    sum
}

/// Labels and properties as a node, unless they are larger than a record may
/// be.
pub open spec fn node_record_made(
    id: u64,
    labels: Seq<Seq<char>>,
    m: TextMap<Value>,
    max: u64,
) -> Result<NodeRecord, GenerationError> {
    if capped(node_bytes(labels, m)) > max {
        Err(
            GenerationError::BudgetExceeded {
                counter: BudgetCounter::MaxRecordBytes,
                requested: capped(node_bytes(labels, m)),
                limit: max,
            },
        )
    } else {
        Ok(NodeRecord { id, labels, properties: staging::properties_of(m) })
    }
}

/// A node of the given id, labels and properties, unless it is larger than a
/// record may be.
pub fn make_node(id: u64, labels: Vec<String>, properties: TextMap<Value>, max_record_bytes: u64)
    -> (r: Result<GenerationNode, GenerationError>)
    ensures
        match r {
            Ok(n) => node_record_made(id, text::texts(labels@), properties, max_record_bytes) == Ok::<
                NodeRecord,
                GenerationError,
            >(n@),
            Err(e) => node_record_made(id, text::texts(labels@), properties, max_record_bytes) == Err::<
                NodeRecord,
                GenerationError,
            >(e),
        },
{
    proof {
        lemma_labels_monotonic(text::texts(labels@), 0, labels@.len() as int);
        lemma_props_monotonic(
            staging::properties_of(properties),
            0,
            staging::properties_of(properties).len() as int,
        );
    }
    let prop_bytes: u64 = estimate_props_bytes(&properties);
    let estimated: u64 = estimate_node_bytes(&labels, prop_bytes);
    if estimated > max_record_bytes {
        return Err(
            GenerationError::BudgetExceeded {
                counter: BudgetCounter::MaxRecordBytes,
                requested: estimated,
                limit: max_record_bytes,
            },
        );
    }
    Ok(GenerationNode { id: NodeId(id), labels, properties })
}

/// Bytes of an edge record: its type and its properties.
pub open spec fn edge_bytes(edge_type: Seq<char>, m: TextMap<Value>) -> int {
    text::utf8(edge_type).len() + all_props_bytes(m)
}

/// Endpoints, type and properties as an edge, unless they are larger than a
/// record may be.
pub open spec fn edge_record_made(
    id: u64,
    src: u64,
    dst: u64,
    edge_type: Seq<char>,
    m: TextMap<Value>,
    max: u64,
) -> Result<EdgeRecord, GenerationError> {
    if capped(edge_bytes(edge_type, m)) > max {
        Err(
            GenerationError::BudgetExceeded {
                counter: BudgetCounter::MaxRecordBytes,
                requested: capped(edge_bytes(edge_type, m)),
                limit: max,
            },
        )
    } else {
        Ok(EdgeRecord { id, src, dst, edge_type, properties: staging::properties_of(m) })
    }
}

/// An edge of the given id, endpoints, type and properties, unless it is larger
/// than a record may be.
pub fn make_edge(
    id: u64,
    src: u64,
    dst: u64,
    edge_type: String,
    properties: TextMap<Value>,
    max_record_bytes: u64,
) -> (r: Result<GenerationEdge, GenerationError>)
    ensures
        match r {
            Ok(n) => edge_record_made(id, src, dst, edge_type@, properties, max_record_bytes)
                == Ok::<EdgeRecord, GenerationError>(n@),
            Err(e) => edge_record_made(id, src, dst, edge_type@, properties, max_record_bytes)
                == Err::<EdgeRecord, GenerationError>(e),
        },
{
    proof {
        lemma_props_monotonic(
            staging::properties_of(properties),
            0,
            staging::properties_of(properties).len() as int,
        );
    }
    let prop_bytes: u64 = estimate_props_bytes(&properties);
    let b: &[u8] = edge_type.as_str().as_bytes();
    assert(b@.len() == b.len());
    let estimated: u64 = add_bytes(prop_bytes, b.len() as u128);
    if estimated > max_record_bytes {
        return Err(
            GenerationError::BudgetExceeded {
                counter: BudgetCounter::MaxRecordBytes,
                requested: estimated,
                limit: max_record_bytes,
            },
        );
    }
    Ok(
        GenerationEdge { id: EdgeId(id), src: NodeId(src), dst: NodeId(dst), edge_type, properties },
    )
}

/// The tables of a base store, as far as a traversal needs them: labels and
/// types, lengths, and the ways back to original ids. The properties of a row
/// and the endpoints of an edge are handed in row by row.
#[derive(Debug)]
pub struct GenerationSourceView {
    /// Labels of the node tables.
    pub node_labels: Vec<String>,
    /// Lengths of the node tables, one per label.
    pub node_lens: Vec<usize>,
    /// Types of the relationship tables.
    pub edge_types: Vec<String>,
    /// Lengths of the relationship tables, one per type.
    pub edge_lens: Vec<usize>,
    /// Original ids of nodes.
    pub node_ids: ReverseIds,
    /// Original ids of edges.
    pub edge_ids: ReverseIds,
}

/// An endpoint's original id, or the first thing that is wrong with an edge's
/// endpoints.
pub open spec fn endpoints(
    ids: ReverseIds,
    src: Option<(u16, u64)>,
    dst: Option<(u16, u64)>,
) -> Result<(u64, u64), GenerationError> {
    match (src, dst) {
        (None, _) => Err(GenerationError::Codec(CodecError::NoSource)),
        (_, None) => Err(GenerationError::Codec(CodecError::NoDestination)),
        (Some(s), Some(d)) => match (
            id_of_row(ids, s.0 as int, s.1 as int),
            id_of_row(ids, d.0 as int, d.1 as int),
        ) {
            (None, _) => Err(GenerationError::Codec(CodecError::SourceWithoutId)),
            (_, None) => Err(GenerationError::Codec(CodecError::DestinationWithoutId)),
            (Some(a), Some(b)) => Ok((a, b)),
        },
    }
}

/// The original ids of the endpoints of an edge.
pub fn reverse_endpoints(ids: &ReverseIds, src: Option<(u16, u64)>, dst: Option<(u16, u64)>) -> (r:
    Result<(u64, u64), GenerationError>)
    ensures
        r == endpoints(*ids, src, dst),
{
    let s: (u16, u64) = match src {
        Some(x) => x,
        None => {
            return Err(GenerationError::Codec(CodecError::NoSource));
        },
    };
    let d: (u16, u64) = match dst {
        Some(x) => x,
        None => {
            return Err(GenerationError::Codec(CodecError::NoDestination));
        },
    };
    match reverse_id(ids, s.0 as usize, s.1) {
        None => Err(GenerationError::Codec(CodecError::SourceWithoutId)),
        Some(a) => match reverse_id(ids, d.0 as usize, d.1) {
            None => Err(GenerationError::Codec(CodecError::DestinationWithoutId)),
            Some(b) => Ok((a, b)),
        },
    }
}

impl GenerationSourceView {
    /// Every table has a length.
    pub open spec fn well_formed(&self) -> bool {
        &&& self.node_labels@.len() == self.node_lens@.len()
        &&& self.edge_types@.len() == self.edge_lens@.len()
    }

    /// Number of node tables.
    pub fn node_table_count(&self) -> (r: usize)
        ensures
            r == self.node_labels@.len(),
    {
        self.node_labels.len()
    }

    /// Label of a node table.
    pub fn node_table_label(&self, table_idx: usize) -> (r: &str)
        requires
            table_idx < self.node_labels@.len(),
        ensures
            r@ == self.node_labels@[table_idx as int]@,
    {
        self.node_labels[table_idx].as_str()
    }

    /// Rows of a node table.
    pub fn node_table_len(&self, table_idx: usize) -> (r: usize)
        requires
            table_idx < self.node_lens@.len(),
        ensures
            r == self.node_lens@[table_idx as int],
    {
        self.node_lens[table_idx]
    }

    /// Number of relationship tables.
    pub fn edge_table_count(&self) -> (r: usize)
        ensures
            r == self.edge_types@.len(),
    {
        self.edge_types.len()
    }

    /// Type of a relationship table.
    pub fn edge_table_type(&self, rel_idx: usize) -> (r: &str)
        requires
            rel_idx < self.edge_types@.len(),
        ensures
            r@ == self.edge_types@[rel_idx as int]@,
    {
        self.edge_types[rel_idx].as_str()
    }

    /// Edges of a relationship table.
    pub fn edge_table_len(&self, rel_idx: usize) -> (r: usize)
        requires
            rel_idx < self.edge_lens@.len(),
        ensures
            r == self.edge_lens@[rel_idx as int],
    {
        self.edge_lens[rel_idx]
    }

    /// A row of a node table with the given properties; `None` behind the last
    /// row.
    pub fn node_row(
        &self,
        table_idx: usize,
        offset: usize,
        properties: TextMap<Value>,
        max_record_bytes: u64,
    ) -> (r: Result<Option<GenerationNode>, GenerationError>)
        requires
            self.well_formed(),
        ensures
            if table_idx >= self.node_labels@.len() {
                r == Err::<Option<GenerationNode>, GenerationError>(
                    GenerationError::InvalidInput(InputError::NoNodeTable(table_idx)),
                )
            } else if offset >= self.node_lens@[table_idx as int] {
                r == Ok::<Option<GenerationNode>, GenerationError>(None)
            } else {
                match id_of_row(self.node_ids, table_idx as int, offset as int) {
                    None => r == Err::<Option<GenerationNode>, GenerationError>(
                        GenerationError::Codec(
                            CodecError::NoOriginalId { table: table_idx, row: offset },
                        ),
                    ),
                    Some(id) => {
                        let made = node_record_made(
                            id,
                            seq![self.node_labels@[table_idx as int]@],
                            properties,
                            max_record_bytes,
                        );
                        match r {
                            Ok(n) => n is Some && made == Ok::<NodeRecord, GenerationError>(n->0@),
                            Err(e) => made == Err::<NodeRecord, GenerationError>(e),
                        }
                    },
                }
            },
    {
        if table_idx >= self.node_labels.len() {
            return Err(GenerationError::InvalidInput(InputError::NoNodeTable(table_idx)));
        }
        if offset >= self.node_lens[table_idx] {
            return Ok(None);
        }
        match reverse_id(&self.node_ids, table_idx, offset as u64) {
            None => Err(
                GenerationError::Codec(CodecError::NoOriginalId { table: table_idx, row: offset }),
            ),
            Some(id) => {
                let mut labels: Vec<String> = Vec::new();
                labels.push(own(self.node_labels[table_idx].as_str()));
                assert(text::texts(labels@) =~= seq![self.node_labels@[table_idx as int]@]);
                match make_node(id, labels, properties, max_record_bytes) {
                    Ok(n) => Ok(Some(n)),
                    Err(e) => Err(e),
                }
            },
        }
    }

    /// An edge of a relationship table with the given endpoints and properties;
    /// `None` behind the last edge.
    pub fn edge_row(
        &self,
        rel_idx: usize,
        pos: usize,
        src: Option<(u16, u64)>,
        dst: Option<(u16, u64)>,
        properties: TextMap<Value>,
        max_record_bytes: u64,
    ) -> (r: Result<Option<GenerationEdge>, GenerationError>)
        requires
            self.well_formed(),
        ensures
            if rel_idx >= self.edge_types@.len() {
                r == Err::<Option<GenerationEdge>, GenerationError>(
                    GenerationError::InvalidInput(InputError::NoRelTable(rel_idx)),
                )
            } else if pos >= self.edge_lens@[rel_idx as int] {
                r == Ok::<Option<GenerationEdge>, GenerationError>(None)
            } else {
                match id_of_row(self.edge_ids, rel_idx as int, pos as int) {
                    None => r == Err::<Option<GenerationEdge>, GenerationError>(
                        GenerationError::Codec(
                            CodecError::NoOriginalId { table: rel_idx, row: pos },
                        ),
                    ),
                    Some(id) => match endpoints(self.node_ids, src, dst) {
                        Err(e) => r == Err::<Option<GenerationEdge>, GenerationError>(e),
                        Ok(ends) => {
                            let made = edge_record_made(
                                id,
                                ends.0,
                                ends.1,
                                self.edge_types@[rel_idx as int]@,
                                properties,
                                max_record_bytes,
                            );
                            match r {
                                Ok(n) => n is Some && made == Ok::<EdgeRecord, GenerationError>(
                                    n->0@,
                                ),
                                Err(e) => made == Err::<EdgeRecord, GenerationError>(e),
                            }
                        },
                    },
                }
            },
    {
        if rel_idx >= self.edge_types.len() {
            return Err(GenerationError::InvalidInput(InputError::NoRelTable(rel_idx)));
        }
        if pos >= self.edge_lens[rel_idx] {
            return Ok(None);
        }
        match reverse_id(&self.edge_ids, rel_idx, pos as u64) {
            None => Err(
                GenerationError::Codec(CodecError::NoOriginalId { table: rel_idx, row: pos }),
            ),
            Some(id) => {
                let ends: (u64, u64) = match reverse_endpoints(&self.node_ids, src, dst) {
                    Ok(x) => x,
                    Err(e) => {
                        return Err(e);
                    },
                };
                let edge_type: String = own(self.edge_types[rel_idx].as_str());
                match make_edge(id, ends.0, ends.1, edge_type, properties, max_record_bytes) {
                    Ok(n) => Ok(Some(n)),
                    Err(e) => Err(e),
                }
            },
        }
    }
}

} // verus!
