//! The edge pass.
//!
//! Staging turns every edge into a row record. A first replay of the sorted
//! rows finds the relationship tables, one per edge type and pair of node
//! tables; a second one resolves the endpoints to dense offsets and stages one
//! forward record per edge. Replaying the forward run turns the properties of
//! the edges into occurrences.

use crate::csr_pass::make_edge_key;
use crate::csr_pass;
use crate::faults;
use crate::generation::{CodecError, GenerationError, WireCount};
use crate::id_index::{IdEntry, MappedNodeIdIndex};
use crate::id_index;
use crate::live_graph::LogicalLabelLookup;
use crate::live_graph;
use crate::membership_index::LabelEntry;
use crate::node_pass::explode_row;
use crate::node_pass;
use crate::records::{DeclRecord, EdgeRecord, GenerationEdge, RelSchemaDecl};
use crate::records;
use crate::runs::{RecordView, RunSetLease, RunSink, SortRecord};
use crate::runs;
use crate::staging::{check_edge_type, edge_row_key, edge_row_payload, encode_properties, split_edge_row_key, split_edge_row_payload};
use crate::staging;
use crate::text::{own, text_eq, text_less};
use crate::text;
use crate::wire::{bytes_to_vec, load_u16_be};
use crate::wire;
use vstd::prelude::*;

verus! {

/// What a relationship table connects.
#[derive(Debug)]
pub struct RelTableKey {
    /// Edge type.
    pub edge_type: String,
    /// Source table.
    pub src_table_id: u16,
    /// Destination table.
    pub dst_table_id: u16,
}

/// Edge type, source table, destination table.
pub type RelKey = (Seq<char>, u16, u16);

impl View for RelTableKey {
    type V = RelKey;

    open spec fn view(&self) -> RelKey {
        (self.edge_type@, self.src_table_id, self.dst_table_id)
    }
}

/// The contents of a row of table keys.
pub open spec fn rel_keys(v: Seq<RelTableKey>) -> Seq<RelKey> {
    Seq::new(v.len(), |i: int| v[i]@)
}

/// Drives the edge pass.
#[derive(Debug)]
pub struct EdgePass;

impl EdgePass {
    /// The pass.
    pub fn new() -> (r: Self)
        ensures
            r == EdgePass,
    {
        EdgePass
    }
}

// --------------------------------------------------------------- staging

/// Why an edge cannot be staged.
pub open spec fn edge_fault(e: EdgeRecord) -> Option<GenerationError> {
    match staging::properties_fault(e.properties) {
        Some(f) => Some(f),
        None => staging::type_fault(e.edge_type),
    }
}

/// The checks on the edges, one by one.
pub open spec fn edge_checks(v: Seq<EdgeRecord>) -> spec_fn(int) -> Option<GenerationError> {
    |i: int| edge_fault(v[i])
}

/// The row record of an edge.
pub open spec fn edge_row(e: EdgeRecord) -> RecordView {
    RecordView {
        key: staging::row_key(e.edge_type, e.id),
        payload: staging::edge_payload(e.src, e.dst, staging::properties_record(e.properties)),
    }
}

/// The row records of edges.
pub open spec fn staged_edge_rows(v: Seq<EdgeRecord>) -> Seq<RecordView> {
    Seq::new(v.len(), |i: int| edge_row(v[i]))
}

// ------------------------------------------------------------- resolving

/// An edge row with its endpoints resolved.
pub struct ResolvedEdge {
    /// Edge type.
    pub edge_type: Seq<char>,
    /// Original id.
    pub id: u64,
    /// Original id of the source.
    pub src: u64,
    /// Original id of the destination.
    pub dst: u64,
    /// Table and offset of the source.
    pub from: (u16, u64),
    /// Table and offset of the destination.
    pub to: (u16, u64),
    /// Encoded properties.
    pub props: Seq<u8>,
}

/// An edge row with its endpoints resolved, or why they cannot be.
pub open spec fn resolved(index: Seq<IdEntry>, rec: RecordView) -> Result<
    ResolvedEdge,
    GenerationError,
> {
    match staging::split_row_key(rec.key) {
        Err(e) => Err(e),
        Ok(k) => match staging::split_edge_payload(rec.payload) {
            Err(e) => Err(e),
            Ok(p) => match id_index::id_entry_for(index, p.0) {
                None => Err(
                    GenerationError::MissingEndpoint {
                        edge_id: k.1,
                        node_id: p.0,
                        is_source: true,
                    },
                ),
                Some(from) => match id_index::id_entry_for(index, p.1) {
                    None => Err(
                        GenerationError::MissingEndpoint {
                            edge_id: k.1,
                            node_id: p.1,
                            is_source: false,
                        },
                    ),
                    Some(to) => Ok(
                        ResolvedEdge {
                            edge_type: k.0,
                            id: k.1,
                            src: p.0,
                            dst: p.1,
                            from,
                            to,
                            props: p.2,
                        },
                    ),
                },
            },
        },
    }
}

/// The table of a resolved edge.
pub open spec fn rel_key_of(e: ResolvedEdge) -> RelKey {
    (e.edge_type, e.from.0, e.to.0)
}

struct Resolved<'a> {
    edge_type: &'a str,
    id: u64,
    src: u64,
    dst: u64,
    from: (u16, u64),
    to: (u16, u64),
    props: &'a [u8],
}

impl<'a> Resolved<'a> {
    spec fn content(&self) -> ResolvedEdge {
        ResolvedEdge {
            edge_type: self.edge_type@,
            id: self.id,
            src: self.src,
            dst: self.dst,
            from: self.from,
            to: self.to,
            props: self.props@,
        }
    }
}

fn resolve<'a>(index: &MappedNodeIdIndex, rec: &'a SortRecord) -> (r: Result<
    Resolved<'a>,
    GenerationError,
>)
    ensures
        match r {
            Ok(x) => resolved(index@, rec@) == Ok::<ResolvedEdge, GenerationError>(x.content()),
            Err(e) => resolved(index@, rec@) == Err::<ResolvedEdge, GenerationError>(e),
        },
{
    let (edge_type, id) = match split_edge_row_key(rec.key.as_slice()) {
        Ok(p) => p,
        Err(e) => return Err(e),
    };
    let (src, dst, props) = match split_edge_row_payload(rec.payload.as_slice()) {
        Ok(p) => p,
        Err(e) => return Err(e),
    };
    let from: (u16, u64) = match index.lookup(src) {
        Some(x) => x,
        None => return Err(
            GenerationError::MissingEndpoint { edge_id: id, node_id: src, is_source: true },
        ),
    };
    let to: (u16, u64) = match index.lookup(dst) {
        Some(x) => x,
        None => return Err(
            GenerationError::MissingEndpoint { edge_id: id, node_id: dst, is_source: false },
        ),
    };
    Ok(Resolved { edge_type, id, src, dst, from, to, props })
}

// ---------------------------------------------------------------- tables

/// Table keys ascend by type, then source table, then destination table.
pub open spec fn rel_lt(a: RelKey, b: RelKey) -> bool {
    text::text_lt(a.0, b.0) || (a.0 == b.0 && (a.1 < b.1 || (a.1 == b.1 && a.2 < b.2)))
}

/// Table keys in strictly ascending order.
pub open spec fn rel_ascend(v: Seq<RelKey>) -> bool {
    forall|i: int, j: int| 0 <= i < j < v.len() ==> rel_lt(#[trigger] v[i], #[trigger] v[j])
}

/// The keys in ascending order are those of the set.
pub open spec fn lists_rel_keys(v: Seq<RelKey>, set: Set<RelKey>) -> bool {
    &&& rel_ascend(v)
    &&& forall|k: RelKey| v.contains(k) == set.contains(k)
}

/// Table keys in ascending order.
pub open spec fn rel_listing(set: Set<RelKey>) -> Seq<RelKey> {
    choose|v: Seq<RelKey>| lists_rel_keys(v, set)
}

/// The tables of the first `k` edge rows.
pub open spec fn rel_table_set(index: Seq<IdEntry>, recs: Seq<RecordView>, k: nat) -> Result<
    Set<RelKey>,
    GenerationError,
>
    decreases k,
{
    if k == 0 {
        Ok(Set::empty())
    } else {
        match rel_table_set(index, recs, (k - 1) as nat) {
            Err(e) => Err(e),
            Ok(s) => match resolved(index, recs[k - 1]) {
                Err(e) => Err(e),
                Ok(x) => Ok(s.insert(rel_key_of(x))),
            },
        }
    }
}

proof fn lemma_rel_tables_fail(index: Seq<IdEntry>, recs: Seq<RecordView>, i: nat, n: nat)
    requires
        i <= n,
        rel_table_set(index, recs, i) is Err,
    ensures
        rel_table_set(index, recs, n) == rel_table_set(index, recs, i),
    decreases n,
{
    if i < n {
        lemma_rel_tables_fail(index, recs, i, (n - 1) as nat);
    }
}

/// More relationship tables than table ids.
pub open spec fn rel_overflow() -> GenerationError {
    GenerationError::WireWidthOverflow { what: WireCount::RelTableId, count: 0x1_0000, max: 0xffff }
}

proof fn lemma_rel_order(a: RelKey, b: RelKey)
    ensures
        a == b || rel_lt(a, b) || rel_lt(b, a),
        !(rel_lt(a, b) && rel_lt(b, a)),
        rel_lt(a, b) ==> a != b,
{
    wire::lemma_lex_total(text::utf8(a.0), text::utf8(b.0));
    if text::utf8(a.0) == text::utf8(b.0) {
        text::lemma_utf8_injective(a.0, b.0);
        wire::lemma_lex_irreflexive(text::utf8(a.0));
    }
}

proof fn lemma_rel_transitive(a: RelKey, b: RelKey, c: RelKey)
    requires
        rel_lt(a, b),
        rel_lt(b, c),
    ensures
        rel_lt(a, c),
{
    if text::text_lt(a.0, b.0) && text::text_lt(b.0, c.0) {
        wire::lemma_lex_transitive(text::utf8(a.0), text::utf8(b.0), text::utf8(c.0));
    }
}

/// Ascending table keys are distinct.
pub proof fn lemma_rel_distinct(v: Seq<RelKey>, i: int, j: int)
    requires
        rel_ascend(v),
        0 <= i < v.len(),
        0 <= j < v.len(),
        i != j,
    ensures
        v[i] != v[j],
{
    lemma_rel_order(v[i], v[j]);
    if i < j {
        assert(rel_lt(v[i], v[j]));
    } else {
        assert(rel_lt(v[j], v[i]));
    }
}

/// A set of table keys has one ascending listing.
pub proof fn lemma_rel_listing_unique(a: Seq<RelKey>, b: Seq<RelKey>, set: Set<RelKey>)
    requires
        lists_rel_keys(a, set),
        lists_rel_keys(b, set),
    ensures
        a == b,
    decreases a.len() + b.len(),
{
    if a.len() == 0 || b.len() == 0 {
        if a.len() > 0 {
            assert(a.contains(a[0]));
            assert(b.contains(a[0]));
        }
        if b.len() > 0 {
            assert(b.contains(b[0]));
            assert(a.contains(b[0]));
        }
        assert(a =~= b);
    } else {
        let x = a.last();
        let y = b.last();
        assert(a.contains(x) && b.contains(y));
        assert(b.contains(x) && a.contains(y));
        let i = a.index_of(y);
        let j = b.index_of(x);
        assert(a[i] == y && b[j] == x);
        if i < a.len() - 1 && j < b.len() - 1 {
            assert(rel_lt(a[i], a[a.len() - 1]));
            assert(rel_lt(b[j], b[b.len() - 1]));
            lemma_rel_order(x, y);
        }
        assert(x == y);
        let rest = set.remove(x);
        let a0 = a.drop_last();
        let b0 = b.drop_last();
        lemma_rel_drop(a, set);
        lemma_rel_drop(b, set);
        lemma_rel_listing_unique(a0, b0, rest);
        assert(a =~= a0.push(x));
        assert(b =~= b0.push(y));
    }
}

/// A key put in its place among ascending keys.
spec fn with_key(v: Seq<RelKey>, x: RelKey) -> Seq<RelKey>
    decreases v.len(),
{
    if v.len() == 0 || rel_lt(v.last(), x) {
        v.push(x)
    } else {
        with_key(v.drop_last(), x).push(v.last())
    }
}

proof fn lemma_with_key(v: Seq<RelKey>, x: RelKey)
    requires
        rel_ascend(v),
        !v.contains(x),
    ensures
        rel_ascend(with_key(v, x)),
        forall|k: RelKey| #[trigger] with_key(v, x).contains(k) <==> v.contains(k) || k == x,
    decreases v.len(),
{
    let w = with_key(v, x);
    if v.len() == 0 || rel_lt(v.last(), x) {
        assert forall|i: int, j: int| 0 <= i < j < w.len() implies rel_lt(
            #[trigger] w[i],
            #[trigger] w[j],
        ) by {
            if j == v.len() && i < v.len() - 1 {
                lemma_rel_transitive(v[i], v.last(), x);
            }
        }
        assert forall|k: RelKey| #[trigger] w.contains(k) <==> v.contains(k) || k == x by {
            if v.contains(k) {
                let i = v.index_of(k);
                assert(w[i] == k);
            }
            assert(w[v.len() as int] == x);
        }
    } else {
        let u = v.drop_last();
        let last = v.last();
        assert(v.contains(last)) by {
            assert(v[v.len() - 1] == last);
        }
        assert(!u.contains(x)) by {
            if u.contains(x) {
                assert(v[u.index_of(x)] == x);
            }
        }
        lemma_with_key(u, x);
        let s = with_key(u, x);
        lemma_rel_order(x, last);
        assert forall|i: int, j: int| 0 <= i < j < w.len() implies rel_lt(
            #[trigger] w[i],
            #[trigger] w[j],
        ) by {
            if j == s.len() {
                assert(s.contains(s[i]));
                if s[i] != x {
                    let k = u.index_of(s[i]);
                    assert(v[k] == s[i]);
                }
            }
        }
        assert forall|k: RelKey| #[trigger] w.contains(k) <==> v.contains(k) || k == x by {
            if w.contains(k) {
                let i = w.index_of(k);
                if i < s.len() {
                    assert(s[i] == k);
                    assert(s.contains(k));
                    if u.contains(k) {
                        assert(v[u.index_of(k)] == k);
                    }
                }
            }
            if v.contains(k) || k == x {
                if k == last {
                    assert(w[s.len() as int] == k);
                } else {
                    if k != x {
                        let i = v.index_of(k);
                        assert(u[i] == k);
                    }
                    assert(s.contains(k));
                    assert(w[s.index_of(k)] == k);
                }
            }
        }
    }
}

/// The tables of edge rows have an ascending listing.
pub proof fn lemma_rel_listing(index: Seq<IdEntry>, recs: Seq<RecordView>, k: nat)
    requires
        rel_table_set(index, recs, k) is Ok,
    ensures
        lists_rel_keys(
            rel_listing(rel_table_set(index, recs, k)->Ok_0),
            rel_table_set(index, recs, k)->Ok_0,
        ),
    decreases k,
{
    let set = rel_table_set(index, recs, k)->Ok_0;
    if k == 0 {
        assert(lists_rel_keys(Seq::empty(), set));
    } else {
        assert(rel_table_set(index, recs, (k - 1) as nat) is Ok);
        lemma_rel_listing(index, recs, (k - 1) as nat);
        let old = rel_table_set(index, recs, (k - 1) as nat)->Ok_0;
        let v = rel_listing(old);
        let x = rel_key_of(resolved(index, recs[k - 1])->Ok_0);
        if v.contains(x) {
            assert(lists_rel_keys(v, set));
        } else {
            lemma_with_key(v, x);
            assert(lists_rel_keys(with_key(v, x), set));
        }
    }
}

/// Every table is that of an edge row.
pub proof fn lemma_table_has_a_row(index: Seq<IdEntry>, recs: Seq<RecordView>, k: nat, x: RelKey)
    requires
        rel_table_set(index, recs, k) is Ok,
        rel_table_set(index, recs, k)->Ok_0.contains(x),
    ensures
        exists|a: int|
            0 <= a < k && resolved(index, #[trigger] recs[a]) is Ok && rel_key_of(
                resolved(index, recs[a])->Ok_0,
            ) == x,
    decreases k,
{
    if k > 0 {
        assert(rel_table_set(index, recs, (k - 1) as nat) is Ok);
        let old = rel_table_set(index, recs, (k - 1) as nat)->Ok_0;
        if old.contains(x) {
            lemma_table_has_a_row(index, recs, (k - 1) as nat, x);
        } else {
            assert(resolved(index, recs[k - 1]) is Ok);
        }
    }
}

proof fn lemma_rel_drop(a: Seq<RelKey>, set: Set<RelKey>)
    requires
        lists_rel_keys(a, set),
        a.len() > 0,
    ensures
        lists_rel_keys(a.drop_last(), set.remove(a.last())),
{
    let x = a.last();
    let a0 = a.drop_last();
    let rest = set.remove(x);
    assert forall|l: RelKey| a0.contains(l) == rest.contains(l) by {
        if a0.contains(l) {
            let k = a0.index_of(l);
            assert(a0[k] == l && a[k] == l);
            assert(a.contains(l));
            assert(rel_lt(a[k], a[a.len() - 1]));
            lemma_rel_order(a[k], x);
        }
        if rest.contains(l) {
            assert(a.contains(l));
            let k = a.index_of(l);
            assert(a[k] == l);
            assert(a0[k] == l);
        }
    }
}

fn key_less(edge_type: &str, src: u16, dst: u16, k: &RelTableKey) -> (r: bool)
    ensures
        r == rel_lt((edge_type@, src, dst), k@),
{
    if text_less(edge_type, k.edge_type.as_str()) {
        true
    } else if text_eq(edge_type, k.edge_type.as_str()) {
        src < k.src_table_id || (src == k.src_table_id && dst < k.dst_table_id)
    } else {
        false
    }
}

fn key_same(edge_type: &str, src: u16, dst: u16, k: &RelTableKey) -> (r: bool)
    ensures
        r == ((edge_type@, src, dst) == k@),
{
    text_eq(edge_type, k.edge_type.as_str()) && src == k.src_table_id && dst == k.dst_table_id
}

/// Puts a key into its place among ascending ones.
fn place_key(keys: &mut Vec<RelTableKey>, edge_type: &str, src: u16, dst: u16)
    requires
        rel_ascend(rel_keys(old(keys)@)),
    ensures
        rel_ascend(rel_keys(final(keys)@)),
        forall|k: RelKey| #[trigger]
            rel_keys(final(keys)@).contains(k) == (rel_keys(old(keys)@).contains(k) || k == (
                edge_type@,
                src,
                dst,
            )),
{
    let ghost v = rel_keys(keys@);
    let ghost x = (edge_type@, src, dst);
    let mut at: usize = keys.len();
    while at > 0 && key_less(edge_type, src, dst, &keys[at - 1])
        invariant
            at <= keys@.len(),
            v == rel_keys(keys@),
            x == (edge_type@, src, dst),
            forall|k: int| at <= k < v.len() ==> rel_lt(x, #[trigger] v[k]),
        decreases at,
    {
        assert(keys@[at - 1]@ == v[at - 1]);
        at = at - 1;
    }
    if at > 0 && key_same(edge_type, src, dst, &keys[at - 1]) {
        assert(v[at - 1] == x);
        assert(v.contains(x));
        return;
    }
    proof {
        if at > 0 {
            lemma_rel_order(x, v[at - 1]);
        }
        assert forall|k: int| 0 <= k < at implies rel_lt(#[trigger] v[k], x) by {
            if k < at - 1 {
                assert(rel_lt(v[k], v[at - 1]));
                lemma_rel_transitive(v[k], v[at - 1], x);
            }
        }
    }
    keys.insert(at, RelTableKey { edge_type: own(edge_type), src_table_id: src, dst_table_id: dst });
    proof {
        let w = rel_keys(keys@);
        assert(w =~= v.insert(at as int, x));
        assert forall|k: RelKey| #[trigger] w.contains(k) == (v.contains(k) || k == x) by {
            if v.contains(k) {
                let j = v.index_of(k);
                assert(v[j] == k);
                if j < at {
                    assert(w[j] == k);
                } else {
                    assert(w[j + 1] == k);
                }
            }
            if w.contains(k) {
                let j = w.index_of(k);
                assert(w[j] == k);
                if j < at {
                    assert(v[j] == k);
                } else if j > at {
                    assert(v[j - 1] == k);
                }
            }
            assert(w[at as int] == x);
        }
        assert forall|i: int, j: int| 0 <= i < j < w.len() implies rel_lt(
            #[trigger] w[i],
            #[trigger] w[j],
        ) by {
            if i < at && j < at {
                assert(rel_lt(v[i], v[j]));
            } else if i < at && j == at {
            } else if i < at {
                assert(rel_lt(v[i], v[j - 1]));
            } else if i == at {
                assert(rel_lt(x, v[j - 1]));
            } else {
                assert(rel_lt(v[i - 1], v[j - 1]));
            }
        }
    }
}

/// Finds the relationship tables of the edge rows, ascending; a table's id is
/// its position.
pub fn discover_rel_tables(edge_rows: &RunSetLease, id_index: &MappedNodeIdIndex) -> (r: Result<
    Vec<RelTableKey>,
    GenerationError,
>)
    ensures
        match r {
            Ok(keys) => {
                let s = rel_table_set(id_index@, edge_rows@, edge_rows@.len());
                &&& s is Ok
                &&& rel_keys(keys@) == rel_listing(s->Ok_0)
                &&& lists_rel_keys(rel_keys(keys@), s->Ok_0)
                &&& keys@.len() <= 0x1_0000
            },
            Err(e) => match rel_table_set(id_index@, edge_rows@, edge_rows@.len()) {
                Err(f) => e == f,
                Ok(s) => e == rel_overflow() && rel_listing(s).len() > 0x1_0000,
            },
        },
{
    let n: usize = edge_rows.len();
    let ghost recs = edge_rows@;
    let ghost index = id_index@;
    let ghost mut set: Set<RelKey> = Set::empty();
    let mut keys: Vec<RelTableKey> = Vec::new();
    let mut i: usize = 0;
    while i < n
        invariant
            i <= n,
            n == recs.len(),
            recs == edge_rows@,
            index == id_index@,
            rel_table_set(index, recs, i as nat) == Ok::<Set<RelKey>, GenerationError>(set),
            lists_rel_keys(rel_keys(keys@), set),
        decreases n - i,
    {
        proof {
            if rel_table_set(index, recs, (i + 1) as nat) is Err {
                lemma_rel_tables_fail(index, recs, (i + 1) as nat, n as nat);
            }
        }
        let x: Resolved = match resolve(id_index, edge_rows.record_at(i)) {
            Ok(x) => x,
            Err(e) => return Err(e),
        };
        place_key(&mut keys, x.edge_type, x.from.0, x.to.0);
        proof {
            set = set.insert(rel_key_of(x.content()));
        }
        i = i + 1;
    }
    proof {
        lemma_rel_listing_unique(rel_keys(keys@), rel_listing(set), set);
    }
    if keys.len() > 0x1_0000 {
        return Err(
            GenerationError::WireWidthOverflow {
                what: WireCount::RelTableId,
                count: 0x1_0000,
                max: 0xffff,
            },
        );
    }
    Ok(keys)
}

/// The id of a relationship table.
pub fn rel_table_id(keys: &[RelTableKey], edge_type: &str, src: u16, dst: u16) -> (r: Option<u16>)
    requires
        keys@.len() <= 0x1_0000,
        rel_ascend(rel_keys(keys@)),
    ensures
        match r {
            Some(t) => rel_keys(keys@).contains((edge_type@, src, dst)) && t == rel_keys(
                keys@,
            ).index_of((edge_type@, src, dst)),
            None => !rel_keys(keys@).contains((edge_type@, src, dst)),
        },
{
    let n: usize = keys.len();
    let ghost v = rel_keys(keys@);
    let ghost x = (edge_type@, src, dst);
    assert(n == v.len());
    let mut lo: usize = 0;
    let mut hi: usize = n;
    while lo < hi
        invariant
            lo <= hi <= n,
            n == v.len(),
            n <= 0x1_0000,
            v == rel_keys(keys@),
            x == (edge_type@, src, dst),
            rel_ascend(v),
            forall|k: int| 0 <= k < lo ==> rel_lt(#[trigger] v[k], x),
            forall|k: int| hi <= k < n ==> rel_lt(x, #[trigger] v[k]),
        decreases hi - lo,
    {
        let mid: usize = lo + (hi - lo) / 2;
        assert(keys@[mid as int]@ == v[mid as int]);
        if key_same(edge_type, src, dst, &keys[mid]) {
            proof {
                assert(v[mid as int] == x);
                assert(v.contains(x));
                let j = v.index_of(x);
                assert(v[j] == x);
                if j < mid {
                    assert(rel_lt(v[j], v[mid as int]));
                    lemma_rel_order(x, x);
                } else if mid < j {
                    assert(rel_lt(v[mid as int], v[j]));
                    lemma_rel_order(x, x);
                }
            }
            return Some(mid as u16);
        }
        if key_less(edge_type, src, dst, &keys[mid]) {
            proof {
                assert forall|k: int| mid <= k < n implies rel_lt(x, #[trigger] v[k]) by {
                    if k > mid {
                        assert(rel_lt(v[mid as int], v[k]));
                        lemma_rel_transitive(x, v[mid as int], v[k]);
                    }
                }
            }
            hi = mid;
        } else {
            proof {
                lemma_rel_order(x, v[mid as int]);
                assert forall|k: int| 0 <= k < mid + 1 implies rel_lt(#[trigger] v[k], x) by {
                    if k < mid {
                        assert(rel_lt(v[k], v[mid as int]));
                        lemma_rel_transitive(v[k], v[mid as int], x);
                    }
                }
            }
            lo = mid + 1;
        }
    }
    proof {
        if v.contains(x) {
            let j = v.index_of(x);
            assert(v[j] == x);
            lemma_rel_order(x, x);
        }
    }
    None
}

// --------------------------------------------------------------- forward

/// The declaration of an edge type; of several the last counts.
pub open spec fn declared(decls: Seq<DeclRecord>, edge_type: Seq<char>) -> Option<DeclRecord>
    decreases decls.len(),
{
    if decls.len() == 0 {
        None
    } else if decls.last().edge_type == edge_type {
        Some(decls.last())
    } else {
        declared(decls.drop_last(), edge_type)
    }
}

fn find_decl<'a>(decls: &'a [RelSchemaDecl], edge_type: &str) -> (r: Option<&'a RelSchemaDecl>)
    ensures
        match r {
            Some(d) => declared(records::decl_records(decls@), edge_type@) == Some(d@),
            None => declared(records::decl_records(decls@), edge_type@) is None,
        },
{
    let ghost v = records::decl_records(decls@);
    let mut i: usize = decls.len();
    assert(v.take(i as int) =~= v);
    while i > 0
        invariant
            i <= decls@.len(),
            v == records::decl_records(decls@),
            declared(v.take(i as int), edge_type@) == declared(v, edge_type@),
        decreases i,
    {
        let d: &RelSchemaDecl = &decls[i - 1];
        proof {
            let t = v.take(i as int);
            assert(t.last() == d@);
            assert(t.drop_last() =~= v.take(i - 1));
        }
        if text_eq(d.edge_type.as_str(), edge_type) {
            return Some(d);
        }
        i = i - 1;
    }
    None
}

/// The forward record of an edge row, or why it has none.
pub open spec fn forward_record(
    index: Seq<IdEntry>,
    keys: Seq<RelKey>,
    physical: Seq<Seq<char>>,
    entries: Seq<LabelEntry>,
    decls: Seq<DeclRecord>,
    rec: RecordView,
) -> Result<RecordView, GenerationError> {
    match resolved(index, rec) {
        Err(e) => Err(e),
        Ok(x) => {
            let decl = declared(decls, x.edge_type);
            if decl is Some && !live_graph::carries_label(
                physical,
                entries,
                x.src,
                x.from.0,
                decl->0.src_label,
            ) {
                Err(
                    GenerationError::WrongTableEndpoint {
                        edge_id: x.id,
                        node_id: x.src,
                        expected_table: x.from.0,
                        actual_table: x.from.0,
                        is_source: true,
                    },
                )
            } else if decl is Some && !live_graph::carries_label(
                physical,
                entries,
                x.dst,
                x.to.0,
                decl->0.dst_label,
            ) {
                Err(
                    GenerationError::WrongTableEndpoint {
                        edge_id: x.id,
                        node_id: x.dst,
                        expected_table: x.to.0,
                        actual_table: x.to.0,
                        is_source: false,
                    },
                )
            } else if !keys.contains(rel_key_of(x)) {
                Err(GenerationError::Codec(CodecError::UnknownRelTable))
            } else {
                Ok(
                    RecordView {
                        key: csr_pass::edge_key(
                            keys.index_of(rel_key_of(x)) as u16,
                            x.from.1,
                            x.to.1,
                            x.id,
                        ),
                        payload: x.props,
                    },
                )
            }
        },
    }
}

/// The forward records of the first `k` edge rows.
pub open spec fn forward_records(
    index: Seq<IdEntry>,
    keys: Seq<RelKey>,
    physical: Seq<Seq<char>>,
    entries: Seq<LabelEntry>,
    decls: Seq<DeclRecord>,
    recs: Seq<RecordView>,
    k: nat,
) -> Result<Seq<RecordView>, GenerationError>
    decreases k,
{
    if k == 0 {
        Ok(Seq::empty())
    } else {
        match forward_records(index, keys, physical, entries, decls, recs, (k - 1) as nat) {
            Err(e) => Err(e),
            Ok(v) => match forward_record(index, keys, physical, entries, decls, recs[k - 1]) {
                Err(e) => Err(e),
                Ok(x) => Ok(v.push(x)),
            },
        }
    }
}

proof fn lemma_forward_records_fail(
    index: Seq<IdEntry>,
    keys: Seq<RelKey>,
    physical: Seq<Seq<char>>,
    entries: Seq<LabelEntry>,
    decls: Seq<DeclRecord>,
    recs: Seq<RecordView>,
    i: nat,
    n: nat,
)
    requires
        i <= n,
        forward_records(index, keys, physical, entries, decls, recs, i) is Err,
    ensures
        forward_records(index, keys, physical, entries, decls, recs, n) == forward_records(
            index,
            keys,
            physical,
            entries,
            decls,
            recs,
            i,
        ),
    decreases n,
{
    if i < n {
        lemma_forward_records_fail(
            index,
            keys,
            physical,
            entries,
            decls,
            recs,
            i,
            (n - 1) as nat,
        );
    }
}

fn forward_one(
    rec: &SortRecord,
    id_index: &MappedNodeIdIndex,
    keys: &[RelTableKey],
    label_lookup: &LogicalLabelLookup,
    rel_decls: &[RelSchemaDecl],
) -> (r: Result<SortRecord, GenerationError>)
    requires
        keys@.len() <= 0x1_0000,
        rel_ascend(rel_keys(keys@)),
    ensures
        ({
            let want = forward_record(
                id_index@,
                rel_keys(keys@),
                label_lookup.physical(),
                label_lookup.entries(),
                records::decl_records(rel_decls@),
                rec@,
            );
            match r {
                Ok(x) => want == Ok::<RecordView, GenerationError>(x@),
                Err(e) => want == Err::<RecordView, GenerationError>(e),
            }
        }),
{
    let x: Resolved = match resolve(id_index, rec) {
        Ok(x) => x,
        Err(e) => return Err(e),
    };
    match find_decl(rel_decls, x.edge_type) {
        Some(d) => {
            if !label_lookup.has_label(x.src, x.from.0, d.src_label.as_str()) {
                return Err(
                    GenerationError::WrongTableEndpoint {
                        edge_id: x.id,
                        node_id: x.src,
                        expected_table: x.from.0,
                        actual_table: x.from.0,
                        is_source: true,
                    },
                );
            }
            if !label_lookup.has_label(x.dst, x.to.0, d.dst_label.as_str()) {
                return Err(
                    GenerationError::WrongTableEndpoint {
                        edge_id: x.id,
                        node_id: x.dst,
                        expected_table: x.to.0,
                        actual_table: x.to.0,
                        is_source: false,
                    },
                );
            }
        },
        None => {},
    }
    let rel: u16 = match rel_table_id(keys, x.edge_type, x.from.0, x.to.0) {
        Some(t) => t,
        None => return Err(GenerationError::Codec(CodecError::UnknownRelTable)),
    };
    Ok(SortRecord::new(make_edge_key(rel, x.from.1, x.to.1, x.id), bytes_to_vec(x.props)))
}

impl EdgePass {
    /// Stages the edges; returns their rows and their number.
    pub fn stage(&self, edges: &[GenerationEdge]) -> (r: Result<(RunSetLease, u64), GenerationError>)
        ensures
            match r {
                Ok(out) => faults::first_fault(
                    edges@.len(),
                    edge_checks(records::edge_records(edges@)),
                ) is None && out.0@ == runs::sorted_records(staged_edge_rows(records::edge_records(edges@))) && out.1
                    == edges@.len(),
                Err(e) => faults::first_fault(edges@.len(), edge_checks(records::edge_records(edges@))) == Some(e),
            },
    {
        let n: usize = edges.len();
        let ghost v = records::edge_records(edges@);
        assert(n == v.len());
        let mut row_sink: RunSink = RunSink::new();
        let mut i: usize = 0;
        assert(row_sink@ =~= staged_edge_rows(v.take(0)));
        while i < n
            invariant
                i <= n,
                n == edges@.len(),
                v == records::edge_records(edges@),
                row_sink@ == staged_edge_rows(v.take(i as int)),
                faults::first_fault(i as nat, edge_checks(v)) is None,
            decreases n - i,
        {
            let edge: &GenerationEdge = &edges[i];
            proof {
                assert(v[i as int] == edge@);
                if edge_checks(v)(i as int) is Some {
                    faults::lemma_first_fault_stays((i + 1) as nat, n as nat, edge_checks(v));
                }
            }
            let props: Vec<u8> = match encode_properties(&edge.properties) {
                Ok(p) => p,
                Err(e) => return Err(e),
            };
            match check_edge_type(edge.edge_type.as_str()) {
                Ok(_) => {},
                Err(e) => return Err(e),
            }
            let key: Vec<u8> = edge_row_key(edge.edge_type.as_str(), edge.id.0);
            let payload: Vec<u8> = edge_row_payload(edge.src.0, edge.dst.0, props.as_slice());
            row_sink.push(SortRecord::new(key, payload));
            i = i + 1;
            assert(row_sink@ =~= staged_edge_rows(v.take(i as int)));
        }
        assert(v.take(n as int) =~= v);
        Ok((row_sink.finish(), n as u64))
    }

    /// Resolves the endpoints of the edge rows, checks them against the
    /// declarations, and stages one forward record per edge; returns their
    /// number.
    pub fn resolve_and_stage_forward(
        &self,
        edge_rows: &RunSetLease,
        id_index: &MappedNodeIdIndex,
        keys: &[RelTableKey],
        fwd_sink: &mut RunSink,
        label_lookup: &LogicalLabelLookup,
        rel_decls: &[RelSchemaDecl],
    ) -> (r: Result<u64, GenerationError>)
        requires
            keys@.len() <= 0x1_0000,
            rel_ascend(rel_keys(keys@)),
        ensures
            ({
                let want = forward_records(
                    id_index@,
                    rel_keys(keys@),
                    label_lookup.physical(),
                    label_lookup.entries(),
                    records::decl_records(rel_decls@),
                    edge_rows@,
                    edge_rows@.len(),
                );
                match r {
                    Ok(total) => want is Ok && final(fwd_sink)@ == old(fwd_sink)@ + want->Ok_0
                        && total == edge_rows@.len(),
                    Err(e) => want == Err::<Seq<RecordView>, GenerationError>(e),
                }
            }),
    {
        let n: usize = edge_rows.len();
        let ghost recs = edge_rows@;
        let ghost start = fwd_sink@;
        let ghost index = id_index@;
        let ghost rk = rel_keys(keys@);
        let ghost ph = label_lookup.physical();
        let ghost en = label_lookup.entries();
        let ghost de = records::decl_records(rel_decls@);
        let ghost mut out: Seq<RecordView> = Seq::empty();
        let mut i: usize = 0;
        assert(start + out =~= start);
        while i < n
            invariant
                i <= n,
                n == recs.len(),
                recs == edge_rows@,
                index == id_index@,
                rk == rel_keys(keys@),
                ph == label_lookup.physical(),
                en == label_lookup.entries(),
                de == records::decl_records(rel_decls@),
                keys@.len() <= 0x1_0000,
                rel_ascend(rk),
                forward_records(index, rk, ph, en, de, recs, i as nat) == Ok::<
                    Seq<RecordView>,
                    GenerationError,
                >(out),
                fwd_sink@ == start + out,
            decreases n - i,
        {
            proof {
                if forward_records(index, rk, ph, en, de, recs, (i + 1) as nat) is Err {
                    lemma_forward_records_fail(
                        index,
                        rk,
                        ph,
                        en,
                        de,
                        recs,
                        (i + 1) as nat,
                        n as nat,
                    );
                }
            }
            let rec: SortRecord = match forward_one(
                edge_rows.record_at(i),
                id_index,
                keys,
                label_lookup,
                rel_decls,
            ) {
                Ok(x) => x,
                Err(e) => return Err(e),
            };
            let ghost x = rec@;
            fwd_sink.push(rec);
            proof {
                out = out.push(x);
                assert(fwd_sink@ =~= start + out);
            }
            i = i + 1;
        }
        Ok(n as u64)
    }
}

// ----------------------------------------------------------- occurrences

/// The walk over the forward run: the current table, the edges of it so far,
/// and the occurrences staged.
pub struct ForwardOccurrences {
    /// Current table.
    pub rel: Option<u16>,
    /// Its edges so far.
    pub pos: int,
    /// Occurrences.
    pub out: Seq<RecordView>,
}

/// The table that an occurrence of an edge property names: that of the edge,
/// its high bit set where node tables are named beside it.
pub open spec fn column_table(rel: u16, tagged: bool) -> u16 {
    if tagged {
        0x8000u16 | rel
    } else {
        rel
    }
}

/// The walk behind one more forward record.
pub open spec fn occurrence_step(w: ForwardOccurrences, rec: RecordView, tagged: bool) -> Result<
    ForwardOccurrences,
    GenerationError,
> {
    if rec.key.len() != 26 {
        Err(GenerationError::Codec(CodecError::KeyWidth(rec.key.len() as usize)))
    } else {
        let rel = wire::u16_be_at(rec.key, 0);
        let pos = if w.rel == Some(rel) {
            w.pos
        } else {
            0
        };
        match node_pass::row_properties(rec.payload) {
            Err(e) => Err(e),
            Ok(p) => Ok(
                ForwardOccurrences {
                    rel: Some(rel),
                    pos: pos + 1,
                    out: w.out + node_pass::row_occurrences(column_table(rel, tagged), pos as u64, p),
                },
            ),
        }
    }
}

/// The walk behind the first `k` forward records.
pub open spec fn occurrences_after(recs: Seq<RecordView>, tagged: bool, k: nat) -> Result<
    ForwardOccurrences,
    GenerationError,
>
    decreases k,
{
    if k == 0 {
        Ok(ForwardOccurrences { rel: None, pos: 0, out: Seq::empty() })
    } else {
        match occurrences_after(recs, tagged, (k - 1) as nat) {
            Err(e) => Err(e),
            Ok(w) => occurrence_step(w, recs[k - 1], tagged),
        }
    }
}

proof fn lemma_occurrences_fail(recs: Seq<RecordView>, tagged: bool, i: nat, n: nat)
    requires
        i <= n,
        occurrences_after(recs, tagged, i) is Err,
    ensures
        occurrences_after(recs, tagged, n) == occurrences_after(recs, tagged, i),
    decreases n,
{
    if i < n {
        lemma_occurrences_fail(recs, tagged, i, (n - 1) as nat);
    }
}

/// Replays the forward run: stages one occurrence per edge property, keyed by
/// the edge's position in its table. The high bit of the table tells it from a
/// node table.
pub fn explode_occurrences_from_forward(fwd_lease: &RunSetLease, occ_sink: &mut RunSink) -> (r:
    Result<(), GenerationError>)
    ensures
        match r {
            Ok(_) => occurrences_after(fwd_lease@, true, fwd_lease@.len()) is Ok
                && final(occ_sink)@ == old(occ_sink)@ + occurrences_after(
                fwd_lease@,
                true,
                fwd_lease@.len(),
            )->Ok_0.out,
            Err(e) => occurrences_after(fwd_lease@, true, fwd_lease@.len()) == Err::<
                ForwardOccurrences,
                GenerationError,
            >(e),
        },
{
    explode_forward(fwd_lease, true, occ_sink)
}

/// Replays the forward run, the tables of the occurrences tagged or not.
pub fn explode_forward(fwd_lease: &RunSetLease, tagged: bool, occ_sink: &mut RunSink) -> (r: Result<
    (),
    GenerationError,
>)
    ensures
        match r {
            Ok(_) => occurrences_after(fwd_lease@, tagged, fwd_lease@.len()) is Ok && final(occ_sink)@
                == old(occ_sink)@ + occurrences_after(fwd_lease@, tagged, fwd_lease@.len())->Ok_0.out,
            Err(e) => occurrences_after(fwd_lease@, tagged, fwd_lease@.len()) == Err::<
                ForwardOccurrences,
                GenerationError,
            >(e),
        },
{
    let n: usize = fwd_lease.len();
    let ghost recs = fwd_lease@;
    let ghost start = occ_sink@;
    let ghost mut w = ForwardOccurrences { rel: None, pos: 0, out: Seq::empty() };
    let mut cur: Option<u16> = None;
    let mut pos: u64 = 0;
    let mut i: usize = 0;
    assert(start + w.out =~= start);
    while i < n
        invariant
            i <= n,
            n == recs.len(),
            recs == fwd_lease@,
            occurrences_after(recs, tagged, i as nat) == Ok::<ForwardOccurrences, GenerationError>(w),
            cur == w.rel,
            pos == w.pos,
            pos <= i,
            occ_sink@ == start + w.out,
        decreases n - i,
    {
        proof {
            if occurrences_after(recs, tagged, (i + 1) as nat) is Err {
                lemma_occurrences_fail(recs, tagged, (i + 1) as nat, n as nat);
            }
        }
        let rec: &SortRecord = fwd_lease.record_at(i);
        if rec.key.len() != 26 {
            return Err(GenerationError::Codec(CodecError::KeyWidth(rec.key.len())));
        }
        let rel: u16 = load_u16_be(rec.key.as_slice(), 0);
        let same: bool = match cur {
            Some(c) => c == rel,
            None => false,
        };
        if !same {
            cur = Some(rel);
            pos = 0;
        }
        let table: u16 = if tagged {
            0x8000u16 | rel
        } else {
            rel
        };
        match explode_row(table, pos, rec.payload.as_slice(), occ_sink) {
            Ok(_) => {},
            Err(e) => return Err(e),
        }
        proof {
            let next = occurrence_step(w, recs[i as int], tagged)->Ok_0;
            assert(occ_sink@ =~= start + next.out);
            w = next;
        }
        pos = pos + 1;
        i = i + 1;
    }
    Ok(())
}

} // verus!
