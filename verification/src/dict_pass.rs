//! The passes that turn the texts of a generation into dictionary codes: what
//! texts occur and where, and what the codes of the schema and of each column
//! are once the dictionary has been built.

use crate::column_pass::{ColumnGeometry, GeometryView};
use crate::column_pass;
use crate::edge_pass::RelTableKey;
use crate::generation::{CodecError, GenerationError, WireCount};
use crate::intern::sort_texts;
use crate::intern;
use crate::node_pass::split_occ_key;
use crate::node_pass;
use crate::runs::{RecordView, RunSetLease, SortRecord};
use crate::staging::decode_labels;
use crate::staging;
use crate::text::{TextMap, decode_text, own};
use crate::text;
use crate::wire::{bytes_eq, bytes_to_vec, load_u16_be, load_u32, push_bytes, push_u16, push_u16_be, push_u32, push_u64};
use crate::wire;
use vstd::prelude::*;
use vstd::utf8::*;

verus! {

broadcast use wire::group_wire;

/// What a text is used for.
#[derive(Debug, Clone, Copy, PartialEq, Eq, Structural)]
pub enum StringUseKind {
    /// A node label.
    Label,
    /// A property key.
    PropertyKey,
    /// An edge type.
    EdgeType,
    /// A bound of a zone map.
    ZoneString,
    /// A value of a text column.
    DictValue,
}

/// The number of a use, as the remap records of a build carry it.
pub open spec fn use_number(k: StringUseKind) -> u8 {
    match k {
        StringUseKind::Label => 0,
        StringUseKind::PropertyKey => 1,
        StringUseKind::EdgeType => 2,
        StringUseKind::ZoneString => 3,
        StringUseKind::DictValue => 4,
    }
}

/// The number of a use.
pub fn use_code(k: StringUseKind) -> (r: u8)
    ensures
        r == use_number(k),
{
    match k {
        StringUseKind::Label => 0,
        StringUseKind::PropertyKey => 1,
        StringUseKind::EdgeType => 2,
        StringUseKind::ZoneString => 3,
        StringUseKind::DictValue => 4,
    }
}

/// An occurrence of a text: its bytes, what it is used for, and what owns it.
#[derive(Debug)]
pub struct StringOccurrence {
    /// UTF-8 bytes.
    pub text: Vec<u8>,
    /// Use.
    pub kind: StringUseKind,
    /// Owner: the column of a value, nothing otherwise.
    pub owner: Vec<u8>,
}

/// An occurrence, as a value.
pub struct OccurrenceView {
    /// UTF-8 bytes.
    pub text: Seq<u8>,
    /// Use.
    pub kind: StringUseKind,
    /// Owner.
    pub owner: Seq<u8>,
}

impl View for StringOccurrence {
    type V = OccurrenceView;

    open spec fn view(&self) -> OccurrenceView {
        OccurrenceView { text: self.text@, kind: self.kind, owner: self.owner@ }
    }
}

/// Occurrences as values.
pub open spec fn occurrence_views(v: Seq<StringOccurrence>) -> Seq<OccurrenceView> {
    Seq::new(v.len(), |i: int| v[i]@)
}

/// An occurrence of a text without an owner.
pub open spec fn free_use(s: Seq<char>, kind: StringUseKind) -> OccurrenceView {
    OccurrenceView { text: text::utf8(s), kind, owner: Seq::empty() }
}

/// Occurrences of texts without an owner.
pub open spec fn free_uses(v: Seq<Seq<char>>, kind: StringUseKind) -> Seq<OccurrenceView> {
    Seq::new(v.len(), |i: int| free_use(v[i], kind))
}

/// The types of relationship tables.
pub open spec fn type_texts(v: Seq<RelTableKey>) -> Seq<Seq<char>> {
    Seq::new(v.len(), |i: int| v[i].edge_type@)
}

/// The labels in the first `k` membership records.
pub open spec fn membership_uses(recs: Seq<RecordView>, k: nat) -> Result<
    Seq<OccurrenceView>,
    GenerationError,
>
    decreases k,
{
    if k == 0 {
        Ok(Seq::empty())
    } else {
        match membership_uses(recs, (k - 1) as nat) {
            Err(e) => Err(e),
            Ok(v) => match staging::decoded_labels(recs[k - 1].payload) {
                Err(e) => Err(e),
                Ok(l) => Ok(v + free_uses(l, StringUseKind::Label)),
            },
        }
    }
}

proof fn lemma_membership_fail(recs: Seq<RecordView>, i: nat, n: nat)
    requires
        i <= n,
        membership_uses(recs, i) is Err,
    ensures
        membership_uses(recs, n) == membership_uses(recs, i),
    decreases n,
{
    if i < n {
        lemma_membership_fail(recs, i, (n - 1) as nat);
    }
}

/// The text that a staged value spells, if it is a whole text.
pub open spec fn staged_text(p: Seq<u8>) -> Option<Seq<u8>> {
    if p.len() >= 5 && p[0] == 3 && 5 + wire::u32_at(p, 1) <= p.len() {
        Some(p.subrange(5, 5 + wire::u32_at(p, 1)))
    } else {
        None
    }
}

/// The owner of the values of a column: table, key length and key.
pub open spec fn column_owner(table_id: u16, key: Seq<char>) -> Seq<u8> {
    wire::put16_be(table_id) + wire::put16_be(text::utf8(key).len() as u16) + text::utf8(key)
}

/// The occurrences of one property of one row: its key, and its value where it
/// is a text.
pub open spec fn property_uses(rec: RecordView) -> Result<Seq<OccurrenceView>, GenerationError> {
    match node_pass::split_occ(rec.key) {
        Err(e) => Err(e),
        Ok((table_id, key, _)) => match staged_text(rec.payload) {
            None => Ok(seq![free_use(key, StringUseKind::PropertyKey)]),
            Some(text) => if text::utf8(key).len() > 0xffff {
                Err(
                    GenerationError::WireWidthOverflow {
                        what: WireCount::KeyLength,
                        count: text::utf8(key).len() as u64,
                        max: 0xffff,
                    },
                )
            } else {
                Ok(
                    seq![
                        free_use(key, StringUseKind::PropertyKey),
                        OccurrenceView {
                            text,
                            kind: StringUseKind::DictValue,
                            owner: column_owner(table_id, key),
                        },
                    ],
                )
            },
        },
    }
}

/// The occurrences of the first `k` properties.
pub open spec fn all_property_uses(recs: Seq<RecordView>, k: nat) -> Result<
    Seq<OccurrenceView>,
    GenerationError,
>
    decreases k,
{
    if k == 0 {
        Ok(Seq::empty())
    } else {
        match all_property_uses(recs, (k - 1) as nat) {
            Err(e) => Err(e),
            Ok(v) => match property_uses(recs[k - 1]) {
                Err(e) => Err(e),
                Ok(u) => Ok(v + u),
            },
        }
    }
}

proof fn lemma_property_uses_fail(recs: Seq<RecordView>, i: nat, n: nat)
    requires
        i <= n,
        all_property_uses(recs, i) is Err,
    ensures
        all_property_uses(recs, n) == all_property_uses(recs, i),
    decreases n,
{
    if i < n {
        lemma_property_uses_fail(recs, i, (n - 1) as nat);
    }
}

/// The records of an optional run.
pub open spec fn optional_records(l: Option<&RunSetLease>) -> Seq<RecordView> {
    match l {
        Some(x) => x@,
        None => Seq::empty(),
    }
}

/// The occurrences of all texts of a generation: labels of the schema, edge
/// types, labels of nodes with several, then keys and text values by column
/// and row.
pub open spec fn string_uses(
    labels: Seq<Seq<char>>,
    types: Seq<Seq<char>>,
    membership: Seq<RecordView>,
    occ: Seq<RecordView>,
) -> Result<Seq<OccurrenceView>, GenerationError> {
    match membership_uses(membership, membership.len()) {
        Err(e) => Err(e),
        Ok(m) => match all_property_uses(occ, occ.len()) {
            Err(e) => Err(e),
            Ok(p) => Ok(
                free_uses(labels, StringUseKind::Label) + free_uses(types, StringUseKind::EdgeType)
                    + m + p,
            ),
        },
    }
}

fn push_free_use(out: &mut Vec<StringOccurrence>, s: &str, kind: StringUseKind)
    ensures
        occurrence_views(final(out)@) == occurrence_views(old(out)@).push(free_use(s@, kind)),
{
    let ghost before = occurrence_views(out@);
    out.push(StringOccurrence { text: bytes_to_vec(s.as_bytes()), kind, owner: Vec::new() });
    let ghost x = out@[out@.len() - 1]@;
    assert(x.owner =~= Seq::<u8>::empty());
    assert(occurrence_views(out@) =~= before.push(x));
}

fn push_free_uses(out: &mut Vec<StringOccurrence>, v: &Vec<String>, kind: StringUseKind)
    ensures
        occurrence_views(final(out)@) == occurrence_views(old(out)@) + free_uses(text::texts(v@), kind),
{
    let ghost before = occurrence_views(out@);
    let ghost all = free_uses(text::texts(v@), kind);
    let mut i: usize = 0;
    while i < v.len()
        invariant
            i <= v@.len(),
            all == free_uses(text::texts(v@), kind),
            occurrence_views(out@) == before + all.take(i as int),
        decreases v@.len() - i,
    {
        push_free_use(out, v[i].as_str(), kind);
        i = i + 1;
        assert(occurrence_views(out@) =~= before + all.take(i as int));
    }
    assert(all.take(i as int) =~= all);
}

fn push_property_uses(out: &mut Vec<StringOccurrence>, rec: &SortRecord) -> (r: Result<
    (),
    GenerationError,
>)
    ensures
        match r {
            Ok(_) => property_uses(rec@) is Ok && occurrence_views(final(out)@) == occurrence_views(
                old(out)@,
            ) + property_uses(rec@)->Ok_0,
            Err(e) => property_uses(rec@) == Err::<Seq<OccurrenceView>, GenerationError>(e),
        },
{
    let ghost before = occurrence_views(out@);
    let (table_id, key, _) = split_occ_key(rec.key.as_slice())?;
    push_free_use(out, key, StringUseKind::PropertyKey);
    let p: &[u8] = rec.payload.as_slice();
    assert(p@.len() == p.len());
    if p.len() >= 5 && p[0] == 3 {
        let n: usize = load_u32(p, 1) as usize;
        if n <= p.len() - 5 {
            let kb: &[u8] = key.as_bytes();
            assert(kb@.len() == kb.len());
            if kb.len() > 0xffff {
                return Err(
                    GenerationError::WireWidthOverflow {
                        what: WireCount::KeyLength,
                        count: kb.len() as u64,
                        max: 0xffff,
                    },
                );
            }
            let mut owner: Vec<u8> = Vec::new();
            push_u16_be(&mut owner, table_id);
            push_u16_be(&mut owner, kb.len() as u16);
            push_bytes(&mut owner, kb);
            assert(owner@ =~= column_owner(table_id, key@));
            let text: Vec<u8> = bytes_to_vec(vstd::slice::slice_subrange(p, 5, 5 + n));
            let ghost mid = occurrence_views(out@);
            out.push(StringOccurrence { text, kind: StringUseKind::DictValue, owner });
            let ghost x = out@[out@.len() - 1]@;
            assert(occurrence_views(out@) =~= mid.push(x));
            assert(occurrence_views(out@) =~= before + property_uses(rec@)->Ok_0);
            return Ok(());
        }
    }
    assert(occurrence_views(out@) =~= before + property_uses(rec@)->Ok_0);
    Ok(())
}

/// Collects the occurrences of all texts of a generation.
pub fn collect_string_occurrences(
    schema_labels: &Vec<String>,
    keys: &[RelTableKey],
    membership: Option<&RunSetLease>,
    occ_lease: &RunSetLease,
) -> (r: Result<Vec<StringOccurrence>, GenerationError>)
    ensures
        match r {
            Ok(v) => string_uses(
                text::texts(schema_labels@),
                type_texts(keys@),
                optional_records(membership),
                occ_lease@,
            ) == Ok::<Seq<OccurrenceView>, GenerationError>(occurrence_views(v@)),
            Err(e) => string_uses(
                text::texts(schema_labels@),
                type_texts(keys@),
                optional_records(membership),
                occ_lease@,
            ) == Err::<Seq<OccurrenceView>, GenerationError>(e),
        },
{
    let mut out: Vec<StringOccurrence> = Vec::new();
    assert(occurrence_views(out@) =~= Seq::<OccurrenceView>::empty());
    push_free_uses(&mut out, schema_labels, StringUseKind::Label);
    let ghost a = free_uses(text::texts(schema_labels@), StringUseKind::Label);
    let ghost b = free_uses(type_texts(keys@), StringUseKind::EdgeType);
    assert(occurrence_views(out@) =~= a);
    let mut i: usize = 0;
    while i < keys.len()
        invariant
            i <= keys@.len(),
            b == free_uses(type_texts(keys@), StringUseKind::EdgeType),
            occurrence_views(out@) == a + b.take(i as int),
        decreases keys@.len() - i,
    {
        push_free_use(&mut out, keys[i].edge_type.as_str(), StringUseKind::EdgeType);
        i = i + 1;
        assert(occurrence_views(out@) =~= a + b.take(i as int));
    }
    assert(b.take(i as int) =~= b);
    let ghost head = a + b;
    let ghost mrecs = optional_records(membership);
    let ghost orecs = occ_lease@;
    let ghost whole = string_uses(text::texts(schema_labels@), type_texts(keys@), mrecs, orecs);
    let n: usize = match membership {
        Some(l) => l.len(),
        None => 0,
    };
    let mut k: usize = 0;
    assert(occurrence_views(out@) =~= head + membership_uses(mrecs, 0)->Ok_0);
    while k < n
        invariant
            k <= n,
            n == mrecs.len(),
            mrecs == optional_records(membership),
            whole == string_uses(text::texts(schema_labels@), type_texts(keys@), mrecs, orecs),
            orecs == occ_lease@,
            membership_uses(mrecs, k as nat) is Ok,
            occurrence_views(out@) == head + membership_uses(mrecs, k as nat)->Ok_0,
        decreases n - k,
    {
        proof {
            if membership_uses(mrecs, (k + 1) as nat) is Err {
                lemma_membership_fail(mrecs, (k + 1) as nat, n as nat);
            }
        }
        match membership {
            Some(l) => {
                let labels: Vec<String> = decode_labels(l.record_at(k).payload.as_slice())?;
                push_free_uses(&mut out, &labels, StringUseKind::Label);
                assert(occurrence_views(out@) =~= head + membership_uses(
                    mrecs,
                    (k + 1) as nat,
                )->Ok_0);
            },
            None => {},
        }
        k = k + 1;
    }
    let ghost middle = head + membership_uses(mrecs, n as nat)->Ok_0;
    let m: usize = occ_lease.len();
    let mut j: usize = 0;
    assert(occurrence_views(out@) =~= middle + all_property_uses(orecs, 0)->Ok_0);
    while j < m
        invariant
            j <= m,
            n == mrecs.len(),
            m == orecs.len(),
            orecs == occ_lease@,
            mrecs == optional_records(membership),
            whole == string_uses(text::texts(schema_labels@), type_texts(keys@), mrecs, orecs),
            membership_uses(mrecs, n as nat) is Ok,
            all_property_uses(orecs, j as nat) is Ok,
            occurrence_views(out@) == middle + all_property_uses(orecs, j as nat)->Ok_0,
        decreases m - j,
    {
        proof {
            if all_property_uses(orecs, (j + 1) as nat) is Err {
                lemma_property_uses_fail(orecs, (j + 1) as nat, m as nat);
            }
        }
        push_property_uses(&mut out, occ_lease.record_at(j))?;
        assert(occurrence_views(out@) =~= middle + all_property_uses(orecs, (j + 1) as nat)->Ok_0);
        j = j + 1;
    }
    Ok(out)
}

/// The dictionary of one text column: its distinct texts with their codes.
#[derive(Debug)]
pub struct DictChunk {
    /// Table.
    pub table_id: u16,
    /// Property key.
    pub prop: Vec<u8>,
    /// Texts and codes.
    pub entries: Vec<(Vec<u8>, u32)>,
    /// Bytes of all entries.
    pub body_bytes: u64,
}

/// The dictionary of one text column, as a value.
pub struct ChunkView {
    /// Table.
    pub table_id: u16,
    /// Property key.
    pub prop: Seq<u8>,
    /// Texts and codes.
    pub entries: Seq<(Seq<u8>, u32)>,
    /// Bytes of all entries.
    pub body: u64,
}

/// Entries as values.
pub open spec fn entry_views(v: Seq<(Vec<u8>, u32)>) -> Seq<(Seq<u8>, u32)> {
    Seq::new(v.len(), |i: int| (v[i].0@, v[i].1))
}

impl View for DictChunk {
    type V = ChunkView;

    open spec fn view(&self) -> ChunkView {
        ChunkView {
            table_id: self.table_id,
            prop: self.prop@,
            entries: entry_views(self.entries@),
            body: self.body_bytes,
        }
    }
}

/// Chunks as values.
pub open spec fn chunk_views(v: Seq<DictChunk>) -> Seq<ChunkView> {
    Seq::new(v.len(), |i: int| v[i]@)
}

/// A chunk without entries.
pub open spec fn fresh_chunk(table_id: u16, prop: Seq<u8>) -> ChunkView {
    ChunkView { table_id, prop, entries: Seq::empty(), body: 0 }
}

/// A chunk with one more text, unless it is the text before it.
pub open spec fn with_entry(c: ChunkView, text: Seq<u8>, code: u32) -> Result<
    ChunkView,
    GenerationError,
> {
    if c.entries.len() > 0 && c.entries.last().0 == text {
        Ok(c)
    } else if text.len() > 0xffff_ffff {
        Err(
            GenerationError::WireWidthOverflow {
                what: WireCount::TextLength,
                count: text.len() as u64,
                max: 0xffff_ffff,
            },
        )
    } else if c.body + 8 + text.len() > u64::MAX {
        Err(
            GenerationError::WireWidthOverflow {
                what: WireCount::DictBytes,
                count: u64::MAX,
                max: u64::MAX,
            },
        )
    } else if c.entries.len() >= 0xffff_ffff {
        Err(
            GenerationError::WireWidthOverflow {
                what: WireCount::DictEntries,
                count: 0x1_0000_0000,
                max: 0xffff_ffff,
            },
        )
    } else {
        Ok(
            ChunkView {
                entries: c.entries.push((text, code)),
                body: (c.body + 8 + text.len()) as u64,
                ..c
            },
        )
    }
}

/// The bytes of an entry: the length of its text, the text, its code.
pub open spec fn entry_image(e: (Seq<u8>, u32)) -> Seq<u8> {
    wire::put32(e.0.len() as u32) + e.0 + wire::put32(e.1)
}

/// The encoder of entries.
pub open spec fn entry_encoder() -> spec_fn((Seq<u8>, u32)) -> Seq<u8> {
    |e: (Seq<u8>, u32)| entry_image(e)
}

/// Where an entry starts among the entries.
pub open spec fn entry_offset(v: Seq<(Seq<u8>, u32)>, i: int) -> int {
    wire::flat(v.take(i), entry_encoder()).len() as int
}

/// Where each entry starts.
pub open spec fn entry_offsets(v: Seq<(Seq<u8>, u32)>) -> Seq<u64> {
    Seq::new(v.len(), |i: int| entry_offset(v, i) as u64)
}

/// The encoder of offsets.
pub open spec fn offset_encoder() -> spec_fn(u64) -> Seq<u8> {
    |x: u64| wire::put64(x)
}

/// The bytes of a chunk: the number of entries, where each starts, the entries.
pub open spec fn chunk_image(c: ChunkView) -> Seq<u8> {
    wire::put32(c.entries.len() as u32) + wire::flat(entry_offsets(c.entries), offset_encoder()) + wire::flat(
        c.entries,
        entry_encoder(),
    )
}

/// What holds of every chunk: its counts fit, and its bytes are counted.
pub open spec fn chunk_ok(c: ChunkView) -> bool {
    &&& c.entries.len() <= 0xffff_ffff
    &&& c.body == wire::flat(c.entries, entry_encoder()).len()
    &&& forall|i: int|
        0 <= i < c.entries.len() ==> (#[trigger] c.entries[i]).0.len() <= 0xffff_ffff
    &&& forall|i: int|
        #![trigger c.entries[i]]
        0 < i < c.entries.len() ==> c.entries[i].0 != c.entries[i - 1].0
}

/// A text added to a chunk keeps it in order.
pub proof fn lemma_entry_keeps(c: ChunkView, text: Seq<u8>, code: u32)
    requires
        chunk_ok(c),
    ensures
        with_entry(c, text, code) matches Ok(n) ==> chunk_ok(n),
{
    if let Ok(n) = with_entry(c, text, code) {
        if n.entries.len() > c.entries.len() {
            wire::lemma_flat_push(c.entries, (text, code), entry_encoder());
            assert forall|i: int| 0 <= i < n.entries.len() implies (#[trigger] n.entries[i]).0.len()
                <= 0xffff_ffff by {
                if i < c.entries.len() {
                    assert(n.entries[i] == c.entries[i]);
                }
            }
            assert forall|i: int|
                #![trigger n.entries[i]]
                0 < i < n.entries.len() implies n.entries[i].0 != n.entries[i - 1].0 by {
                if i < c.entries.len() {
                    assert(n.entries[i] == c.entries[i]);
                    assert(n.entries[i - 1] == c.entries[i - 1]);
                }
            }
        }
    }
}

/// The offset of an entry leads to the entry.
#[verifier::rlimit(60)]
#[verifier::spinoff_prover]
pub proof fn lemma_chunk_offsets_lead(c: ChunkView, i: int)
    requires
        chunk_ok(c),
        0 <= i < c.entries.len(),
    ensures
        wire::u64_at(chunk_image(c), 4 + 8 * i) == entry_offset(c.entries, i),
        wire::holds_at(
            chunk_image(c),
            4 + 8 * c.entries.len() + entry_offset(c.entries, i),
            entry_image(c.entries[i]),
        ),
{
    let d = chunk_image(c);
    let n = c.entries.len() as int;
    let f = offset_encoder();
    let g = entry_encoder();
    let offs = entry_offsets(c.entries);
    let head = wire::put32(c.entries.len() as u32);
    let mid = wire::flat(offs, f);
    let body = wire::flat(c.entries, g);
    assert forall|k: int| 0 <= k < offs.len() implies f(#[trigger] offs[k]).len() == 8 by {}
    wire::lemma_flat_len(offs, f, 8);
    wire::lemma_flat_at(offs, f, 8, i);
    wire::lemma_holds_all(d);
    wire::lemma_holds_split(d, 0, head + mid, body);
    wire::lemma_holds_split(d, 0, head, mid);
    wire::lemma_holds_within(d, 4, mid, i * 8, i * 8 + 8);
    let a = c.entries.take(i);
    let b = c.entries.skip(i);
    assert(c.entries =~= a + b);
    wire::lemma_flat_add(a, b, g);
    assert(b =~= seq![c.entries[i]] + c.entries.skip(i + 1));
    wire::lemma_flat_add(seq![c.entries[i]], c.entries.skip(i + 1), g);
    wire::lemma_flat_push(Seq::empty(), c.entries[i], g);
    assert(Seq::<(Seq<u8>, u32)>::empty().push(c.entries[i]) =~= seq![c.entries[i]]);
    assert(wire::flat(Seq::<(Seq<u8>, u32)>::empty(), g) =~= Seq::<u8>::empty());
    assert(wire::flat(seq![c.entries[i]], g) =~= entry_image(c.entries[i]));
    assert(wire::flat(a, g).len() <= c.body);
    assert(offs[i] == entry_offset(c.entries, i));
    let start = 4 + mid.len() as int;
    wire::lemma_holds_split(d, start, wire::flat(a, g), wire::flat(b, g));
    wire::lemma_holds_split(
        d,
        start + wire::flat(a, g).len(),
        entry_image(c.entries[i]),
        wire::flat(c.entries.skip(i + 1), g),
    );
}

impl DictChunk {
    /// A chunk without entries.
    pub fn open(table_id: u16, prop: &[u8]) -> (r: Self)
        ensures
            r@ == fresh_chunk(table_id, prop@),
            chunk_ok(r@),
    {
        let r = DictChunk {
            table_id,
            prop: bytes_to_vec(prop),
            entries: Vec::new(),
            body_bytes: 0,
        };
        assert(r@.entries =~= Seq::<(Seq<u8>, u32)>::empty());
        r
    }

    /// Adds a text and its code, unless the text is the one before it.
    pub fn push_unique(&mut self, text: &[u8], code: u32) -> (r: Result<(), GenerationError>)
        requires
            chunk_ok(old(self)@),
        ensures
            match r {
                Ok(_) => with_entry(old(self)@, text@, code) == Ok::<ChunkView, GenerationError>(
                    final(self)@,
                ) && chunk_ok(final(self)@),
                Err(e) => with_entry(old(self)@, text@, code) == Err::<ChunkView, GenerationError>(
                    e,
                ) && final(self)@ == old(self)@,
            },
    {
        proof {
            lemma_entry_keeps(self@, text@, code);
        }
        assert(text@.len() == text.len());
        assert(self.entries@.len() == self.entries.len());
        let n: usize = self.entries.len();
        if n > 0 {
            assert(self@.entries.last() == (self.entries@[n - 1].0@, self.entries@[n - 1].1));
            if bytes_eq(self.entries[n - 1].0.as_slice(), text) {
                return Ok(());
            }
        }
        if text.len() as u64 > 0xffff_ffff {
            return Err(
                GenerationError::WireWidthOverflow {
                    what: WireCount::TextLength,
                    count: text.len() as u64,
                    max: 0xffff_ffff,
                },
            );
        }
        let more: u64 = 8 + text.len() as u64;
        if self.body_bytes > u64::MAX - more {
            return Err(
                GenerationError::WireWidthOverflow {
                    what: WireCount::DictBytes,
                    count: u64::MAX,
                    max: u64::MAX,
                },
            );
        }
        if n as u64 >= 0xffff_ffff {
            return Err(
                GenerationError::WireWidthOverflow {
                    what: WireCount::DictEntries,
                    count: 0x1_0000_0000,
                    max: 0xffff_ffff,
                },
            );
        }
        let ghost before = self@.entries;
        self.entries.push((bytes_to_vec(text), code));
        self.body_bytes = self.body_bytes + more;
        assert(self@.entries =~= before.push((text@, code)));
        Ok(())
    }

    /// The bytes of the chunk: the number of entries, where each starts, the
    /// entries.
    pub fn image(&self) -> (r: Vec<u8>)
        requires
            chunk_ok(self@),
        ensures
            r@ == chunk_image(self@),
    {
        let ghost v = self@.entries;
        let ghost f = offset_encoder();
        let ghost g = entry_encoder();
        let ghost offs = entry_offsets(v);
        assert(self.entries@.len() == self.entries.len());
        let mut out: Vec<u8> = Vec::new();
        let mut body: Vec<u8> = Vec::new();
        push_u32(&mut out, self.entries.len() as u32);
        let ghost head = out@;
        let mut i: usize = 0;
        let mut at: u64 = 0;
        assert(offs.take(0) =~= Seq::<u64>::empty());
        assert(v.take(0) =~= Seq::<(Seq<u8>, u32)>::empty());
        assert(out@ =~= head + wire::flat(offs.take(0), f));
        assert(body@ =~= wire::flat(v.take(0), g));
        while i < self.entries.len()
            invariant
                i <= self.entries@.len(),
                v == self@.entries,
                chunk_ok(self@),
                f == offset_encoder(),
                g == entry_encoder(),
                offs == entry_offsets(v),
                at == wire::flat(v.take(i as int), g).len(),
                out@ == head + wire::flat(offs.take(i as int), f),
                body@ == wire::flat(v.take(i as int), g),
            decreases self.entries@.len() - i,
        {
            let e: &(Vec<u8>, u32) = &self.entries[i];
            let ghost x = v[i as int];
            assert(x == (e.0@, e.1));
            assert(e.0@.len() == e.0.len());
            proof {
                assert(v.take(i + 1) =~= v.take(i as int).push(x));
                wire::lemma_flat_push(v.take(i as int), x, g);
                assert(v =~= v.take(i + 1) + v.skip(i + 1));
                wire::lemma_flat_add(v.take(i + 1), v.skip(i + 1), g);
                assert(offs[i as int] == at);
                assert(offs.take(i + 1) =~= offs.take(i as int).push(at));
                wire::lemma_flat_push(offs.take(i as int), at, f);
            }
            push_u64(&mut out, at);
            push_u32(&mut body, e.0.len() as u32);
            push_bytes(&mut body, e.0.as_slice());
            push_u32(&mut body, e.1);
            assert(out@ =~= head + wire::flat(offs.take(i + 1), f));
            assert(body@ =~= wire::flat(v.take(i + 1), g));
            assert(at + 8 + e.0@.len() == wire::flat(v.take(i + 1), g).len());
            at = at + 8 + e.0.len() as u64;
            i = i + 1;
        }
        assert(offs.take(i as int) =~= offs);
        assert(v.take(i as int) =~= v);
        push_bytes(&mut out, body.as_slice());
        out
    }

    /// The catalog entry of the chunk, whose bytes are kept under `name`:
    /// table, key and name.
    pub fn catalog_entry(&self, name: &str) -> (r: Result<Vec<u8>, GenerationError>)
        ensures
            match r {
                Ok(b) => catalog_fault(self@, name@) is None && b@ == catalog_record(self@, name@),
                Err(e) => catalog_fault(self@, name@) == Some(e),
            },
    {
        let rel: &[u8] = name.as_bytes();
        assert(rel@.len() == rel.len());
        assert(self.prop@.len() == self.prop.len());
        if self.prop.len() > 0xffff {
            return Err(
                GenerationError::WireWidthOverflow {
                    what: WireCount::KeyLength,
                    count: self.prop.len() as u64,
                    max: 0xffff,
                },
            );
        }
        if rel.len() > 0xffff {
            return Err(
                GenerationError::WireWidthOverflow {
                    what: WireCount::DictName,
                    count: rel.len() as u64,
                    max: 0xffff,
                },
            );
        }
        let mut out: Vec<u8> = Vec::new();
        push_u16(&mut out, self.table_id);
        push_u16(&mut out, self.prop.len() as u16);
        push_bytes(&mut out, self.prop.as_slice());
        push_u16(&mut out, rel.len() as u16);
        push_bytes(&mut out, rel);
        assert(out@ =~= catalog_record(self@, name@));
        Ok(out)
    }
}

/// The error, if any, of a catalog entry.
pub open spec fn catalog_fault(c: ChunkView, name: Seq<char>) -> Option<GenerationError> {
    if c.prop.len() > 0xffff {
        Some(
            GenerationError::WireWidthOverflow {
                what: WireCount::KeyLength,
                count: c.prop.len() as u64,
                max: 0xffff,
            },
        )
    } else if text::utf8(name).len() > 0xffff {
        Some(
            GenerationError::WireWidthOverflow {
                what: WireCount::DictName,
                count: text::utf8(name).len() as u64,
                max: 0xffff,
            },
        )
    } else {
        None
    }
}

/// The bytes of a catalog entry.
pub open spec fn catalog_record(c: ChunkView, name: Seq<char>) -> Seq<u8> {
    wire::put16(c.table_id) + wire::put16(c.prop.len() as u16) + c.prop + wire::put16(text::utf8(name).len() as u16) + text::utf8(
        name,
    )
}

/// What the first remap records give: codes of the schema's texts, and chunks.
pub struct RemapWalk {
    /// Codes by text.
    pub schema: Map<Seq<char>, u32>,
    /// Chunks, one per run of records of one column.
    pub chunks: Seq<ChunkView>,
}

/// The chunks with one more text of a column: of the last one, or of a new one.
pub open spec fn chunks_with(
    v: Seq<ChunkView>,
    table_id: u16,
    prop: Seq<u8>,
    text: Seq<u8>,
    code: u32,
) -> Result<Seq<ChunkView>, GenerationError> {
    let open = if v.len() > 0 && v.last().table_id == table_id && v.last().prop == prop {
        v
    } else {
        v.push(fresh_chunk(table_id, prop))
    };
    match with_entry(open.last(), text, code) {
        Err(e) => Err(e),
        Ok(c) => Ok(open.update(open.len() - 1, c)),
    }
}

/// What one remap record adds.
pub open spec fn remap_step(w: RemapWalk, rec: RecordView) -> Result<RemapWalk, GenerationError> {
    let k = rec.key;
    let p = rec.payload;
    if k.len() == 0 {
        Err(GenerationError::Codec(CodecError::KeyWidth(0)))
    } else if k[0] == use_number(StringUseKind::DictValue) {
        if k.len() < 5 {
            Err(GenerationError::Codec(CodecError::KeyWidth(k.len() as usize)))
        } else if p.len() != 4 {
            Err(GenerationError::Codec(CodecError::PayloadWidth(p.len() as usize)))
        } else if k.len() < 5 + wire::u16_be_at(k, 3) {
            Err(GenerationError::Codec(CodecError::Truncated))
        } else {
            let n = wire::u16_be_at(k, 3) as int;
            match chunks_with(
                w.chunks,
                wire::u16_be_at(k, 1),
                k.subrange(5, 5 + n),
                k.subrange(5 + n, k.len() as int),
                wire::u32_at(p, 0),
            ) {
                Err(e) => Err(e),
                Ok(chunks) => Ok(RemapWalk { chunks, ..w }),
            }
        }
    } else if k[0] < use_number(StringUseKind::DictValue) {
        if p.len() < 8 {
            Err(GenerationError::Codec(CodecError::PayloadWidth(p.len() as usize)))
        } else {
            let n = wire::u32_at(p, 0) as int;
            if 4 + n > p.len() {
                Err(GenerationError::Codec(CodecError::Truncated))
            } else if 4 + n + 4 != p.len() {
                Err(GenerationError::Codec(CodecError::TrailingBytes))
            } else if !valid_utf8(p.subrange(4, 4 + n)) {
                Err(GenerationError::Codec(CodecError::InvalidText))
            } else {
                Ok(
                    RemapWalk {
                        schema: w.schema.insert(text::text_of(p.subrange(4, 4 + n)), wire::u32_at(p, 4 + n)),
                        ..w
                    },
                )
            }
        }
    } else {
        Err(GenerationError::Codec(CodecError::UnknownUse(k[0])))
    }
}

/// What the first `n` remap records give.
pub open spec fn remap_walk(recs: Seq<RecordView>, n: nat) -> Result<RemapWalk, GenerationError>
    decreases n,
{
    if n == 0 {
        Ok(RemapWalk { schema: Map::empty(), chunks: Seq::empty() })
    } else {
        match remap_walk(recs, (n - 1) as nat) {
            Err(e) => Err(e),
            Ok(w) => remap_step(w, recs[n - 1]),
        }
    }
}

proof fn lemma_remap_fail(recs: Seq<RecordView>, i: nat, n: nat)
    requires
        i <= n,
        remap_walk(recs, i) is Err,
    ensures
        remap_walk(recs, n) == remap_walk(recs, i),
    decreases n,
{
    if i < n {
        lemma_remap_fail(recs, i, (n - 1) as nat);
    }
}

fn add_to_chunks(
    chunks: &mut Vec<DictChunk>,
    table_id: u16,
    prop: &[u8],
    text: &[u8],
    code: u32,
) -> (r: Result<(), GenerationError>)
    requires
        forall|i: int| 0 <= i < old(chunks)@.len() ==> chunk_ok((#[trigger] old(chunks)@[i])@),
    ensures
        match r {
            Ok(_) => chunks_with(chunk_views(old(chunks)@), table_id, prop@, text@, code) == Ok::<
                Seq<ChunkView>,
                GenerationError,
            >(chunk_views(final(chunks)@)) && forall|i: int|
                0 <= i < final(chunks)@.len() ==> chunk_ok((#[trigger] final(chunks)@[i])@),
            Err(e) => chunks_with(chunk_views(old(chunks)@), table_id, prop@, text@, code) == Err::<
                Seq<ChunkView>,
                GenerationError,
            >(e),
        },
{
    let ghost v = chunk_views(chunks@);
    assert(chunks@.len() == chunks.len());
    let fresh: bool = if chunks.len() == 0 {
        true
    } else {
        let last: &DictChunk = &chunks[chunks.len() - 1];
        assert(v.last() == last@);
        last.table_id != table_id || !bytes_eq(last.prop.as_slice(), prop)
    };
    if fresh {
        chunks.push(DictChunk::open(table_id, prop));
        assert(chunk_views(chunks@) =~= v.push(fresh_chunk(table_id, prop@)));
    }
    let ghost open = chunk_views(chunks@);
    let n: usize = chunks.len();
    let mut c: DictChunk = DictChunk::open(table_id, prop);
    chunks.set_and_swap(n - 1, &mut c);
    assert(c@ == open.last());
    c.push_unique(text, code)?;
    chunks.set(n - 1, c);
    assert(chunk_views(chunks@) =~= open.update(open.len() - 1, c@));
    Ok(())
}

/// Reads the remap records of a build: the codes of the schema's texts, and the
/// dictionaries of the text columns.
pub fn consume_remap_run(remap_lease: &RunSetLease) -> (r: Result<
    (TextMap<u32>, Vec<DictChunk>),
    GenerationError,
>)
    ensures
        match r {
            Ok(x) => remap_walk(remap_lease@, remap_lease@.len()) == Ok::<
                RemapWalk,
                GenerationError,
            >(RemapWalk { schema: x.0@, chunks: chunk_views(x.1@) }) && forall|i: int|
                0 <= i < x.1@.len() ==> chunk_ok((#[trigger] x.1@[i])@),
            Err(e) => remap_walk(remap_lease@, remap_lease@.len()) == Err::<
                RemapWalk,
                GenerationError,
            >(e),
        },
{
    let ghost recs = remap_lease@;
    let n: usize = remap_lease.len();
    let mut schema: TextMap<u32> = TextMap::new();
    let mut chunks: Vec<DictChunk> = Vec::new();
    assert(chunk_views(chunks@) =~= Seq::<ChunkView>::empty());
    let mut i: usize = 0;
    while i < n
        invariant
            i <= n,
            n == recs.len(),
            recs == remap_lease@,
            remap_walk(recs, i as nat) == Ok::<RemapWalk, GenerationError>(
                RemapWalk { schema: schema@, chunks: chunk_views(chunks@) },
            ),
            forall|k: int| 0 <= k < chunks@.len() ==> chunk_ok((#[trigger] chunks@[k])@),
        decreases n - i,
    {
        proof {
            if remap_walk(recs, (i + 1) as nat) is Err {
                lemma_remap_fail(recs, (i + 1) as nat, n as nat);
            }
        }
        let rec: &SortRecord = remap_lease.record_at(i);
        let k: &[u8] = rec.key.as_slice();
        let p: &[u8] = rec.payload.as_slice();
        assert(k@.len() == k.len() && p@.len() == p.len());
        if k.len() == 0 {
            return Err(GenerationError::Codec(CodecError::KeyWidth(0)));
        }
        if k[0] == use_code(StringUseKind::DictValue) {
            if k.len() < 5 {
                return Err(GenerationError::Codec(CodecError::KeyWidth(k.len())));
            }
            if p.len() != 4 {
                return Err(GenerationError::Codec(CodecError::PayloadWidth(p.len())));
            }
            let m: usize = load_u16_be(k, 3) as usize;
            if k.len() < 5 + m {
                return Err(GenerationError::Codec(CodecError::Truncated));
            }
            add_to_chunks(
                &mut chunks,
                load_u16_be(k, 1),
                vstd::slice::slice_subrange(k, 5, 5 + m),
                vstd::slice::slice_subrange(k, 5 + m, k.len()),
                load_u32(p, 0),
            )?;
        } else if k[0] < use_code(StringUseKind::DictValue) {
            if p.len() < 8 {
                return Err(GenerationError::Codec(CodecError::PayloadWidth(p.len())));
            }
            let m: usize = load_u32(p, 0) as usize;
            if m > p.len() - 4 {
                return Err(GenerationError::Codec(CodecError::Truncated));
            }
            if m != p.len() - 8 {
                return Err(GenerationError::Codec(CodecError::TrailingBytes));
            }
            match decode_text(vstd::slice::slice_subrange(p, 4, 4 + m)) {
                None => {
                    return Err(GenerationError::Codec(CodecError::InvalidText));
                },
                Some(s) => {
                    schema.insert(s, load_u32(p, 4 + m));
                },
            }
        } else {
            return Err(GenerationError::Codec(CodecError::UnknownUse(k[0])));
        }
        i = i + 1;
    }
    Ok((schema, chunks))
}

/// The keys of the columns of one table, in the order of the geometries.
pub open spec fn table_keys(v: Seq<GeometryView>, table_id: int, n: int) -> Seq<Seq<char>>
    decreases n,
{
    if n <= 0 {
        Seq::empty()
    } else if v[n - 1].table_id == table_id {
        table_keys(v, table_id, n - 1).push(v[n - 1].key)
    } else {
        table_keys(v, table_id, n - 1)
    }
}

/// Rows of texts.
pub open spec fn key_rows(v: Seq<Vec<String>>) -> Seq<Seq<Seq<char>>> {
    Seq::new(v.len(), |i: int| text::texts(v[i]@))
}

fn keys_of_table(geometries: &[ColumnGeometry], table_id: u64) -> (r: Vec<String>)
    ensures
        text::texts(r@) == intern::by_bytes(
            table_keys(column_pass::geometry_views(geometries@), table_id as int, geometries@.len() as int),
        ),
{
    let ghost v = column_pass::geometry_views(geometries@);
    let mut out: Vec<String> = Vec::new();
    assert(text::texts(out@) =~= Seq::<Seq<char>>::empty());
    let mut i: usize = 0;
    while i < geometries.len()
        invariant
            i <= geometries@.len(),
            v == column_pass::geometry_views(geometries@),
            text::texts(out@) == table_keys(v, table_id as int, i as int),
        decreases geometries@.len() - i,
    {
        assert(v[i as int] == geometries@[i as int]@);
        if geometries[i].table_id as u64 == table_id {
            let ghost before = text::texts(out@);
            out.push(own(geometries[i].key.as_str()));
            assert(text::texts(out@) =~= before.push(v[i as int].key));
        }
        i = i + 1;
    }
    sort_texts(&out)
}

/// The keys of the columns of each node table, by ascending key.
pub fn build_node_col_keys(geometries: &[ColumnGeometry], ntables: usize) -> (r: Vec<Vec<String>>)
    ensures
        r@.len() == ntables,
        forall|t: int|
            0 <= t < ntables ==> #[trigger] key_rows(r@)[t] == intern::by_bytes(
                table_keys(column_pass::geometry_views(geometries@), t, geometries@.len() as int),
            ),
{
    let mut out: Vec<Vec<String>> = Vec::new();
    let mut t: usize = 0;
    while t < ntables
        invariant
            t <= ntables,
            out@.len() == t,
            forall|k: int|
                0 <= k < t ==> #[trigger] key_rows(out@)[k] == intern::by_bytes(
                    table_keys(column_pass::geometry_views(geometries@), k, geometries@.len() as int),
                ),
        decreases ntables - t,
    {
        let ghost before = key_rows(out@);
        out.push(keys_of_table(geometries, t as u64));
        proof {
            assert forall|k: int| 0 <= k < t + 1 implies #[trigger] key_rows(out@)[k] == intern::by_bytes(
                table_keys(column_pass::geometry_views(geometries@), k, geometries@.len() as int),
            ) by {
                if k < t {
                    assert(key_rows(out@)[k] == before[k]);
                }
            }
        }
        t = t + 1;
    }
    out
}

/// The keys of the columns of each relationship table, by ascending key. The
/// columns of relationship tables are numbered from 0x8000 on.
pub fn build_rel_col_keys(geometries: &[ColumnGeometry], nrels: usize) -> (r: Vec<Vec<String>>)
    ensures
        r@.len() == nrels,
        forall|t: int|
            0 <= t < nrels ==> #[trigger] key_rows(r@)[t] == intern::by_bytes(
                table_keys(column_pass::geometry_views(geometries@), 0x8000 + t, geometries@.len() as int),
            ),
{
    let mut out: Vec<Vec<String>> = Vec::new();
    let mut t: usize = 0;
    while t < nrels
        invariant
            t <= nrels,
            out@.len() == t,
            forall|k: int|
                0 <= k < t ==> #[trigger] key_rows(out@)[k] == intern::by_bytes(
                    table_keys(column_pass::geometry_views(geometries@), 0x8000 + k, geometries@.len() as int),
                ),
        decreases nrels - t,
    {
        let ghost before = key_rows(out@);
        if t < 0x8000 {
            out.push(keys_of_table(geometries, 0x8000 + t as u64));
        } else {
            let none: Vec<String> = Vec::new();
            assert(text::texts(none@) =~= Seq::<Seq<char>>::empty());
            proof {
                lemma_no_such_table(
                    column_pass::geometry_views(geometries@),
                    0x8000 + t,
                    geometries@.len() as int,
                );
                intern::lemma_by_bytes(Seq::<Seq<char>>::empty());
                assert(intern::by_bytes(Seq::<Seq<char>>::empty()) =~= Seq::<Seq<char>>::empty());
            }
            out.push(none);
        }
        proof {
            assert forall|k: int| 0 <= k < t + 1 implies #[trigger] key_rows(out@)[k] == intern::by_bytes(
                table_keys(column_pass::geometry_views(geometries@), 0x8000 + k, geometries@.len() as int),
            ) by {
                if k < t {
                    assert(key_rows(out@)[k] == before[k]);
                }
            }
        }
        t = t + 1;
    }
    out
}

proof fn lemma_no_such_table(v: Seq<GeometryView>, table_id: int, n: int)
    requires
        table_id > 0xffff,
        n <= v.len(),
    ensures
        table_keys(v, table_id, n) == Seq::<Seq<char>>::empty(),
    decreases n,
{
    if n > 0 {
        lemma_no_such_table(v, table_id, n - 1);
    }
}

} // verus!
