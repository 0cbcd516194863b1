//! The complete label sets of nodes, as endpoint checks need them.

use crate::faults;
use crate::freeze::{MergedEdgeSource, MergedNodeSource, MergedPlace};
use crate::generation::{GenerationError, InputError};
use crate::membership_index::{LabelEntry, MappedLabelMembershipIndex};
use crate::membership_index;
use crate::records::{EdgeRecord, GenerationEdge, GenerationNode, NodeRecord};
use crate::runs::{RecordView, RunSetLease, SortRecord};
use crate::sorting::sort_keys;
use crate::sorting;
use crate::source_view::{make_edge, make_node};
use crate::source_view;
use crate::staging::{decode_labels, idmap_key, split_node_row_key};
use crate::staging;
use crate::text::{TextMap, clone_all, own, text_eq};
use crate::text;
use crate::value::Value;
use crate::wire;
use vstd::prelude::*;

verus! {

/// The labels that the first `k` membership records list.
pub open spec fn listed_labels(recs: Seq<RecordView>, k: nat) -> Result<
    Seq<LabelEntry>,
    GenerationError,
>
    decreases k,
{
    if k == 0 {
        Ok(Seq::empty())
    } else {
        match listed_labels(recs, (k - 1) as nat) {
            Err(e) => Err(e),
            Ok(v) => match staging::split_row_key(recs[k - 1].key) {
                Err(e) => Err(e),
                Ok(p) => match staging::decoded_labels(recs[k - 1].payload) {
                    Err(e) => Err(e),
                    Ok(l) => Ok(v.push((p.1, l))),
                },
            },
        }
    }
}

/// What fails among the first records fails for all.
pub proof fn lemma_listed_fail(recs: Seq<RecordView>, i: nat, n: nat)
    requires
        i <= n,
        listed_labels(recs, i) is Err,
    ensures
        listed_labels(recs, n) == listed_labels(recs, i),
    decreases n,
{
    if i < n {
        lemma_listed_fail(recs, i, (n - 1) as nat);
    }
}

/// The sort keys of entries: their ids.
pub open spec fn entry_keys(v: Seq<LabelEntry>) -> Seq<Seq<u8>> {
    Seq::new(v.len(), |i: int| wire::put64_be(v[i].0))
}

/// Entries by ascending id.
pub open spec fn entries_by_id(v: Seq<LabelEntry>) -> Seq<LabelEntry> {
    Seq::new(v.len(), |i: int| v[sorting::stable_order(entry_keys(v))[i]])
}

/// The entries of the membership run by ascending id, or why they cannot be
/// indexed.
pub open spec fn membership_entries(run: Option<Seq<RecordView>>) -> Result<
    Seq<LabelEntry>,
    GenerationError,
> {
    match run {
        None => Ok(Seq::empty()),
        Some(recs) => match listed_labels(recs, recs.len()) {
            Err(e) => Err(e),
            Ok(v) => match faults::first_fault(v.len(), membership_index::entry_checks(entries_by_id(v))) {
                Some(e) => Err(e),
                None => Ok(entries_by_id(v)),
            },
        },
    }
}

/// A node carries a label: its entry lists it, or it has no entry and its
/// table is that of the label.
pub open spec fn carries_label(
    physical: Seq<Seq<char>>,
    entries: Seq<LabelEntry>,
    id: u64,
    table_id: u16,
    label: Seq<char>,
) -> bool {
    if membership_index::has_entry(entries, id) {
        membership_index::entry_has_label(entries, id, label)
    } else {
        table_id < physical.len() && physical[table_id as int] == label
    }
}

/// The labels of nodes: the table label, and an index of the nodes with more
/// than one.
pub struct LogicalLabelLookup {
    physical: Vec<String>,
    membership: Option<MappedLabelMembershipIndex>,
}

fn sort_entries(v: Vec<(u64, Vec<String>)>) -> (r: Vec<(u64, Vec<String>)>)
    ensures
        membership_index::label_entries(r@) == entries_by_id(membership_index::label_entries(v@)),
{
    let n: usize = v.len();
    let ghost e = membership_index::label_entries(v@);
    let mut keys: Vec<Vec<u8>> = Vec::new();
    let mut i: usize = 0;
    while i < n
        invariant
            i <= n,
            n == v@.len(),
            keys@.len() == i,
            forall|k: int| 0 <= k < i ==> (#[trigger] keys@[k])@ == wire::put64_be(v@[k].0),
        decreases n - i,
    {
        keys.push(idmap_key(v[i].0));
        i = i + 1;
    }
    let order: Vec<usize> = sort_keys(keys.as_slice());
    assert(sorting::key_bytes(keys@) =~= entry_keys(e));
    let mut out: Vec<(u64, Vec<String>)> = Vec::new();
    let mut j: usize = 0;
    while j < n
        invariant
            j <= n,
            n == v@.len(),
            e == membership_index::label_entries(v@),
            order@.len() == n,
            sorting::as_ints(order@) == sorting::stable_order(entry_keys(e)),
            forall|k: int| 0 <= k < n ==> (#[trigger] order@[k]) < n,
            out@.len() == j,
            forall|k: int|
                0 <= k < j ==> (#[trigger] membership_index::label_entries(out@)[k]) == entries_by_id(e)[k],
        decreases n - j,
    {
        let at: usize = order[j];
        let ghost before = membership_index::label_entries(out@);
        out.push((v[at].0, clone_all(&v[at].1)));
        proof {
            assert(sorting::as_ints(order@)[j as int] == at);
            assert(entries_by_id(e)[j as int] == e[at as int]);
            assert(membership_index::label_entries(out@) =~= before.push(e[at as int]));
        }
        j = j + 1;
    }
    assert(membership_index::label_entries(out@) =~= entries_by_id(e));
    out
}

impl LogicalLabelLookup {
    /// The labels of the tables.
    pub closed spec fn physical(&self) -> Seq<Seq<char>> {
        text::texts(self.physical@)
    }

    /// The entries of the index.
    pub closed spec fn entries(&self) -> Seq<LabelEntry> {
        match self.membership {
            Some(m) => m@,
            None => Seq::empty(),
        }
    }

    /// Builds the lookup from the table labels and the membership run.
    pub fn build(physical: &Vec<String>, membership: Option<&RunSetLease>) -> (r: Result<
        Self,
        GenerationError,
    >)
        ensures
            ({
                let run = match membership {
                    Some(m) => Some(m@),
                    None => None,
                };
                match r {
                    Ok(x) => x.physical() == text::texts(physical@) && membership_entries(run) == Ok::<
                        Seq<LabelEntry>,
                        GenerationError,
                    >(x.entries()),
                    Err(e) => membership_entries(run) == Err::<Seq<LabelEntry>, GenerationError>(e),
                }
            }),
    {
        let mut entries: Vec<(u64, Vec<String>)> = Vec::new();
        assert(membership_index::label_entries(entries@) =~= Seq::empty());
        match membership {
            None => {},
            Some(lease) => {
                let n: usize = lease.len();
                let ghost recs = lease@;
                let mut i: usize = 0;
                while i < n
                    invariant
                        i <= n,
                        n == recs.len(),
                        recs == lease@,
                        membership == Some(lease),
                        listed_labels(recs, i as nat) == Ok::<Seq<LabelEntry>, GenerationError>(
                            membership_index::label_entries(entries@),
                        ),
                    decreases n - i,
                {
                    let ghost before = membership_index::label_entries(entries@);
                    proof {
                        if listed_labels(recs, (i + 1) as nat) is Err {
                            lemma_listed_fail(recs, (i + 1) as nat, n as nat);
                        }
                    }
                    let rec: &SortRecord = lease.record_at(i);
                    let (_, id) = match split_node_row_key(rec.key.as_slice()) {
                        Ok(p) => p,
                        Err(e) => return Err(e),
                    };
                    let labels: Vec<String> = match decode_labels(rec.payload.as_slice()) {
                        Ok(l) => l,
                        Err(e) => return Err(e),
                    };
                    let ghost l = text::texts(labels@);
                    entries.push((id, labels));
                    assert(membership_index::label_entries(entries@) =~= before.push((id, l)));
                    i = i + 1;
                }
            },
        }
        let ghost listed = membership_index::label_entries(entries@);
        let sorted: Vec<(u64, Vec<String>)> = sort_entries(entries);
        proof {
            assert(membership_index::label_entries(sorted@).len() == sorted@.len());
            assert(entries_by_id(listed).len() == listed.len());
            if let Some(m) = membership {
                assert(listed_labels(m@, m@.len()) == Ok::<Seq<LabelEntry>, GenerationError>(
                    listed,
                ));
            }
        }
        let index: Option<MappedLabelMembershipIndex> = if sorted.len() == 0 {
            assert(entries_by_id(listed) =~= Seq::empty());
            None
        } else {
            match MappedLabelMembershipIndex::from_sorted(sorted.as_slice()) {
                Ok(x) => Some(x),
                Err(e) => return Err(e),
            }
        };
        Ok(LogicalLabelLookup { physical: clone_all(physical), membership: index })
    }

    /// Whether a node carries a label.
    pub fn has_label(&self, original_id: u64, table_id: u16, label: &str) -> (r: bool)
        ensures
            r == carries_label(
                self.physical(),
                self.entries(),
                original_id,
                table_id,
                label@,
            ),
    {
        match &self.membership {
            Some(m) => {
                if m.contains_node(original_id) {
                    return m.has_label(original_id, label);
                }
            },
            None => {},
        }
        if (table_id as usize) < self.physical.len() {
            text_eq(self.physical[table_id as usize].as_str(), label)
        } else {
            false
        }
    }
}

/// `r` lists the texts of `v` in ascending order, each once.
pub open spec fn lists_texts(r: Seq<Seq<char>>, v: Seq<Seq<char>>) -> bool {
    &&& text::texts_ascend(r)
    &&& forall|x: Seq<char>| #[trigger] r.contains(x) <==> v.contains(x)
}

/// The texts of a row in ascending order, each once.
pub fn sorted_distinct(v: &Vec<String>) -> (r: Vec<String>)
    ensures
        lists_texts(text::texts(r@), text::texts(v@)),
{
    let ghost all = text::texts(v@);
    let mut m: TextMap<bool> = TextMap::new();
    let mut i: usize = 0;
    while i < v.len()
        invariant
            i <= v@.len(),
            all == text::texts(v@),
            forall|x: Seq<char>| #[trigger] m@.dom().contains(x) <==> all.take(i as int).contains(x),
        decreases v@.len() - i,
    {
        let ghost before = m@;
        m.insert(v[i].as_str(), true);
        proof {
            let t = all.take(i + 1);
            assert(t =~= all.take(i as int).push(v@[i as int]@));
            assert forall|x: Seq<char>| #[trigger] m@.dom().contains(x) <==> t.contains(x) by {
                if t.contains(x) {
                    let k = choose|k: int| 0 <= k < t.len() && t[k] == x;
                    if k < i {
                        assert(all.take(i as int)[k] == x);
                    }
                }
                if all.take(i as int).contains(x) {
                    let k = choose|k: int| 0 <= k < i && all.take(i as int)[k] == x;
                    assert(t[k] == x);
                }
                assert(t[i as int] == v@[i as int]@);
                assert(m@.dom().contains(x) == (before.dom().contains(x) || x == v@[i as int]@));
            }
        }
        i = i + 1;
    }
    assert(all.take(i as int) =~= all);
    let n: usize = m.len();
    let ghost keys = m.key_seq();
    let mut out: Vec<String> = Vec::new();
    let mut k: usize = 0;
    while k < n
        invariant
            k <= n,
            n == keys.len(),
            keys == m.key_seq(),
            text::texts(out@) == keys.take(k as int),
        decreases n - k,
    {
        let ghost before = text::texts(out@);
        out.push(own(m.key_at(k)));
        assert(text::texts(out@) =~= before.push(keys[k as int]));
        assert(keys.take(k + 1) =~= keys.take(k as int).push(keys[k as int]));
        k = k + 1;
    }
    assert(keys.take(k as int) =~= keys);
    proof {
        assert forall|x: Seq<char>| #[trigger] keys.contains(x) <==> all.contains(x) by {
            assert(m@.dom().contains(x) == keys.contains(x));
        }
    }
    out
}

/// A node of the overlay as a generation takes it in: its labels ascending and
/// each once. One without labels, or larger than a record may be, is an error.
pub fn overlay_node(
    raw_id: u64,
    labels: &Vec<String>,
    properties: TextMap<Value>,
    max_record_bytes: u64,
) -> (r: Result<GenerationNode, GenerationError>)
    ensures
        exists|l: Seq<Seq<char>>| #[trigger]
            lists_texts(l, text::texts(labels@)) && if labels@.len() == 0 {
                r == Err::<GenerationNode, GenerationError>(
                    GenerationError::InvalidInput(InputError::OverlayNodeWithoutLabels(raw_id)),
                )
            } else {
                match r {
                    Ok(n) => source_view::node_record_made(raw_id, l, properties, max_record_bytes) == Ok::<
                        NodeRecord,
                        GenerationError,
                    >(n@),
                    Err(e) => source_view::node_record_made(raw_id, l, properties, max_record_bytes) == Err::<
                        NodeRecord,
                        GenerationError,
                    >(e),
                }
            },
{
    let sorted: Vec<String> = sorted_distinct(labels);
    let ghost l = text::texts(sorted@);
    assert(lists_texts(l, text::texts(labels@)));
    if labels.len() == 0 {
        return Err(GenerationError::InvalidInput(InputError::OverlayNodeWithoutLabels(raw_id)));
    }
    make_node(raw_id, sorted, properties, max_record_bytes)
}

/// The node that the overlay holds under an id, as [`overlay_node`] takes it in.
/// An id that the overlay no longer holds gives nothing, and a walk goes on
/// behind it.
pub fn overlay_row(
    raw_id: u64,
    found: Option<(Vec<String>, TextMap<Value>)>,
    max_record_bytes: u64,
) -> (r: Result<Option<GenerationNode>, GenerationError>)
    ensures
        found is None ==> r == Ok::<Option<GenerationNode>, GenerationError>(None),
        found matches Some(f) ==> exists|l: Seq<Seq<char>>| #[trigger]
            lists_texts(l, text::texts(f.0@)) && if f.0@.len() == 0 {
                r == Err::<Option<GenerationNode>, GenerationError>(
                    GenerationError::InvalidInput(InputError::OverlayNodeWithoutLabels(raw_id)),
                )
            } else {
                match r {
                    Ok(n) => n is Some && source_view::node_record_made(raw_id, l, f.1, max_record_bytes)
                        == Ok::<NodeRecord, GenerationError>(n->0@),
                    Err(e) => source_view::node_record_made(raw_id, l, f.1, max_record_bytes) == Err::<
                        NodeRecord,
                        GenerationError,
                    >(e),
                }
            },
{
    match found {
        None => Ok(None),
        Some((labels, properties)) => match overlay_node(
            raw_id,
            &labels,
            properties,
            max_record_bytes,
        ) {
            Ok(n) => Ok(Some(n)),
            Err(e) => Err(e),
        },
    }
}

/// The edge that the overlay holds under an id: source, destination, type and
/// properties. An id that the overlay no longer holds gives nothing, and a walk
/// goes on behind it; an edge larger than a record may be is an error.
pub fn overlay_edge_row(
    raw_id: u64,
    found: Option<(u64, u64, String, TextMap<Value>)>,
    max_record_bytes: u64,
) -> (r: Result<Option<GenerationEdge>, GenerationError>)
    ensures
        found is None ==> r == Ok::<Option<GenerationEdge>, GenerationError>(None),
        found matches Some(f) ==> {
            let made = source_view::edge_record_made(raw_id, f.0, f.1, f.2@, f.3, max_record_bytes);
            match r {
                Ok(n) => n is Some && made == Ok::<EdgeRecord, GenerationError>(n->0@),
                Err(e) => made == Err::<EdgeRecord, GenerationError>(e),
            }
        },
{
    match found {
        None => Ok(None),
        Some((src, dst, edge_type, properties)) => match make_edge(
            raw_id,
            src,
            dst,
            edge_type,
            properties,
            max_record_bytes,
        ) {
            Ok(n) => Ok(Some(n)),
            Err(e) => Err(e),
        },
    }
}

/// Texts are listed in ascending order in one way only.
pub proof fn lemma_listing_unique(a: Seq<Seq<char>>, b: Seq<Seq<char>>, v: Seq<Seq<char>>)
    requires
        lists_texts(a, v),
        lists_texts(b, v),
    ensures
        a == b,
    decreases a.len(),
{
    if a.len() == 0 {
        if b.len() > 0 {
            assert(b.contains(b[0]));
            assert(a.contains(b[0]));
        }
        assert(a =~= b);
    } else {
        assert(a.contains(a.last()));
        assert(b.contains(a.last()));
        assert(b.contains(b.last()));
        assert(a.contains(b.last()));
        let i = choose|i: int| 0 <= i < b.len() && b[i] == a.last();
        let j = choose|j: int| 0 <= j < a.len() && a[j] == b.last();
        if i < b.len() - 1 {
            assert(text::text_lt(b[i], b[b.len() - 1]));
            if j < a.len() - 1 {
                assert(text::text_lt(a[j], a[a.len() - 1]));
                wire::lemma_lex_transitive(text::utf8(a.last()), text::utf8(b.last()), text::utf8(a.last()));
            }
            wire::lemma_lex_irreflexive(text::utf8(a.last()));
        }
        assert(a.last() == b.last());
        let rest = a.drop_last();
        assert forall|x: Seq<char>| #[trigger] a.drop_last().contains(x) <==> rest.contains(x) by {}
        assert forall|x: Seq<char>| #[trigger] b.drop_last().contains(x) <==> rest.contains(x) by {
            lemma_shorter(a, x);
            lemma_shorter(b, x);
            assert(a.contains(x) == b.contains(x));
        }
        lemma_listing_unique(a.drop_last(), b.drop_last(), rest);
        assert(a =~= a.drop_last().push(a.last()));
        assert(b =~= b.drop_last().push(b.last()));
    }
}

proof fn lemma_shorter(a: Seq<Seq<char>>, x: Seq<char>)
    requires
        text::texts_ascend(a),
        a.len() > 0,
    ensures
        a.drop_last().contains(x) == (a.contains(x) && x != a.last()),
{
    if a.drop_last().contains(x) {
        let i = choose|i: int| 0 <= i < a.len() - 1 && a.drop_last()[i] == x;
        assert(a[i] == x);
        if x == a.last() {
            text::lemma_ascending_distinct(a, i, a.len() - 1);
        }
    }
    if a.contains(x) && x != a.last() {
        let i = choose|i: int| 0 <= i < a.len() && a[i] == x;
        assert(a.drop_last()[i] == x);
    }
}

/// The nodes and edges of a live graph, as streams.
#[derive(Debug)]
pub struct LiveGraphSources {
    /// Nodes.
    pub nodes: MergedNodeSource,
    /// Edges.
    pub edges: MergedEdgeSource,
}

/// The streams of a live graph with a base, an overlay, both or neither. The
/// base is walked row by row, the overlay by its ids.
pub fn live_graph_sources_bounded(has_base: bool, has_overlay: bool) -> (r: LiveGraphSources)
    ensures
        r.nodes.place() == (MergedPlace {
            base: (0int, 0int),
            base_done: !has_base,
            has_overlay,
            given: 0,
        }),
        r.edges.place() == r.nodes.place(),
{
    LiveGraphSources {
        nodes: MergedNodeSource::new(has_base, has_overlay),
        edges: MergedEdgeSource::new(has_base, has_overlay),
    }
}

} // verus!
