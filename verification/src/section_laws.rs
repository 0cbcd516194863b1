//! What a section gives back of a frame that was written: the frame, with the
//! bounds of its zone maps that a section can hold.

use crate::id_lookup::LookupEntry;
use crate::outside;
use crate::section_codec::{SECTION_MAGIC, SectionError, SectionPart};
use crate::section_codec;
use crate::section_frame::{Image, SectionColumnView, SectionNodeView, SectionPropertyView, SectionRelView, SectionView};
use crate::section_frame;
use crate::section_read::{BlockExtent, Cursor, SectionStop};
use crate::section_read;
use crate::wire;
use vstd::prelude::*;

verus! {

broadcast use wire::group_wire;

/// What is left of a column that is written and read.
pub open spec fn kept_column(c: SectionColumnView) -> SectionColumnView {
    SectionColumnView {
        zone: match c.zone {
            Some(z) => Some(section_codec::kept_zone(z)),
            None => None,
        },
        ..c
    }
}

/// What is left of columns that are written and read.
pub open spec fn kept_columns(v: Seq<SectionColumnView>) -> Seq<SectionColumnView> {
    Seq::new(v.len(), |i: int| kept_column(v[i]))
}

/// What is left of a node table that is written and read.
pub open spec fn kept_node(t: SectionNodeView) -> SectionNodeView {
    SectionNodeView { columns: kept_columns(t.columns), ..t }
}

/// What is left of node tables that are written and read.
pub open spec fn kept_nodes(v: Seq<SectionNodeView>) -> Seq<SectionNodeView> {
    Seq::new(v.len(), |i: int| kept_node(v[i]))
}

/// What is left of a frame that is written and read.
pub open spec fn kept_section(s: SectionView) -> SectionView {
    SectionView { nodes: kept_nodes(s.nodes), ..s }
}

/// The bytes of an image that came out.
pub open spec fn image_len(r: Image) -> int {
    r->Ok_0.len() as int
}

/// The blocks of a node table whose image starts at `pos`.
pub open spec fn node_blocks(t: SectionNodeView, version: u8, table: usize, pos: int) -> Seq<
    BlockExtent,
> {
    Seq::new(
        t.columns.len(),
        |i: int|
            BlockExtent {
                end: (pos + section_frame::node_head(t, version).len() + image_len(
                    section_frame::joined(t.columns, section_frame::column_imager(version, table), i + 1),
                )) as usize,
                edges: 0,
            },
    )
}

/// The blocks of the first `n` node tables, whose images start at `pos`.
pub open spec fn all_node_blocks(v: Seq<SectionNodeView>, version: u8, pos: int, n: int) -> Seq<
    BlockExtent,
>
    decreases n,
{
    if n <= 0 {
        Seq::empty()
    } else {
        all_node_blocks(v, version, pos, n - 1) + node_blocks(
            v[n - 1],
            version,
            (n - 1) as usize,
            pos + image_len(section_frame::joined(v, section_frame::node_imager(version), n - 1)),
        )
    }
}

/// Where the adjacency by source of a relationship table starts.
pub open spec fn fwd_start(t: SectionRelView, version: u8, pos: int) -> int {
    pos + section_codec::section_text(t.edge_type, version).len() + 4
}

/// The adjacency blocks of a relationship table whose image starts at `pos`.
pub open spec fn csr_blocks(t: SectionRelView, version: u8, pos: int) -> Seq<BlockExtent> {
    let f = seq![
        BlockExtent {
            end: (fwd_start(t, version, pos) + t.fwd.len()) as usize,
            edges: t.edges,
        },
    ];
    match t.bwd {
        None => f,
        Some(b) => f + seq![
            BlockExtent {
                end: (fwd_start(t, version, pos) + t.fwd.len() + 1 + b.len()) as usize,
                edges: 0,
            },
        ],
    }
}

/// The property blocks of a relationship table whose image starts at `pos`.
pub open spec fn property_blocks(t: SectionRelView, version: u8, pos: int) -> Seq<BlockExtent> {
    Seq::new(
        t.properties.len(),
        |i: int|
            BlockExtent {
                end: (pos + section_frame::rel_head(t, version).len() + image_len(
                    section_frame::joined(t.properties, section_frame::property_imager(version), i + 1),
                )) as usize,
                edges: 0,
            },
    )
}

/// The blocks of the first `n` relationship tables, whose images start at
/// `pos`.
pub open spec fn all_rel_blocks(v: Seq<SectionRelView>, version: u8, pos: int, n: int) -> Seq<
    BlockExtent,
>
    decreases n,
{
    if n <= 0 {
        Seq::empty()
    } else {
        let p = pos + image_len(section_frame::joined(v, section_frame::rel_imager(version), n - 1));
        all_rel_blocks(v, version, pos, n - 1) + csr_blocks(v[n - 1], version, p) + property_blocks(
            v[n - 1],
            version,
            p,
        )
    }
}

/// Where the relationship tables of a section start.
pub open spec fn rels_start(s: SectionView, version: u8) -> int {
    10 + image_len(section_frame::joined(s.nodes, section_frame::node_imager(version), s.nodes.len() as int)) + 4
}

/// The blocks of a section, as a decoder finds them one after the other.
pub open spec fn section_blocks(s: SectionView, version: u8) -> Seq<BlockExtent> {
    all_node_blocks(s.nodes, version, 10, s.nodes.len() as int) + all_rel_blocks(
        s.rels,
        version,
        rels_start(s, version),
        s.rels.len() as int,
    )
}

/// A relationship table that a reader accepts: an encoded adjacency takes at
/// least nine bytes, an encoded column at least one.
pub open spec fn rel_blocks_real(t: SectionRelView) -> bool {
    &&& t.fwd.len() >= 9
    &&& forall|i: int|
        #![trigger t.properties[i]]
        0 <= i < t.properties.len() ==> t.properties[i].body.len() >= 1
}

/// The entries of an identifier map lie in tables of the given lengths.
pub open spec fn entries_inside(v: Seq<LookupEntry>, lens: Seq<usize>) -> bool {
    forall|i: int|
        #![trigger v[i]]
        0 <= i < v.len() ==> v[i].1 < lens.len() && v[i].2 < lens[v[i].1 as int]
}

/// A frame that a reader accepts: not more tables than table numbers, real
/// blocks, and identifiers of rows and edges that exist.
pub open spec fn section_readable(s: SectionView) -> bool {
    &&& section_frame::section_counts_fit(s)
    &&& s.nodes.len() <= 0xffff
    &&& s.rels.len() <= 0xffff
    &&& forall|i: int| #![trigger s.rels[i]] 0 <= i < s.rels.len() ==> rel_blocks_real(s.rels[i])
    &&& s.ids matches Some(x) ==> entries_inside(x.nodes, section_read::node_lens(s.nodes)) && entries_inside(
        x.edges,
        section_read::rel_lens(s.rels),
    )
}

/// The blocks `piece` are the next ones behind the first `k`.
pub open spec fn blocks_at(bl: Seq<BlockExtent>, k: int, piece: Seq<BlockExtent>) -> bool {
    &&& 0 <= k
    &&& k + piece.len() <= bl.len()
    &&& forall|i: int| #![trigger piece[i]] 0 <= i < piece.len() ==> bl[k + i] == piece[i]
}

proof fn lemma_blocks_split(bl: Seq<BlockExtent>, k: int, a: Seq<BlockExtent>, b: Seq<BlockExtent>)
    requires
        blocks_at(bl, k, a + b),
    ensures
        blocks_at(bl, k, a),
        blocks_at(bl, k + a.len(), b),
{
    assert forall|i: int| #![trigger a[i]] 0 <= i < a.len() implies bl[k + i] == a[i] by {
        assert((a + b)[i] == a[i]);
    }
    assert forall|i: int| #![trigger b[i]] 0 <= i < b.len() implies bl[k + a.len() + i] == b[i] by {
        assert((a + b)[a.len() + i] == b[i]);
    }
}

/// The parts of joined images stand one behind the other.
proof fn lemma_joined_part<T>(
    d: Seq<u8>,
    pos: int,
    items: Seq<T>,
    f: spec_fn(int, T) -> Image,
    n: int,
)
    requires
        n >= 1,
        section_frame::joined(items, f, n) is Ok,
        wire::holds_at(d, pos, section_frame::joined(items, f, n)->Ok_0),
    ensures
        section_frame::joined(items, f, n - 1) is Ok,
        f(n - 1, items[n - 1]) is Ok,
        wire::holds_at(d, pos, section_frame::joined(items, f, n - 1)->Ok_0),
        wire::holds_at(d, pos + image_len(section_frame::joined(items, f, n - 1)), f(n - 1, items[n - 1])->Ok_0),
        image_len(section_frame::joined(items, f, n)) == image_len(section_frame::joined(items, f, n - 1)) + image_len(
            f(n - 1, items[n - 1]),
        ),
{
    wire::lemma_holds_split(d, pos, section_frame::joined(items, f, n - 1)->Ok_0, f(n - 1, items[n - 1])->Ok_0);
}

/// Images of at least `w` bytes each join to at least `n * w` bytes.
proof fn lemma_joined_len<T>(items: Seq<T>, f: spec_fn(int, T) -> Image, n: int, w: int)
    requires
        0 <= n,
        section_frame::joined(items, f, n) is Ok,
        forall|i: int| #![trigger items[i]] 0 <= i < n && f(i, items[i]) is Ok ==> image_len(f(i, items[i])) >= w,
    ensures
        image_len(section_frame::joined(items, f, n)) >= n * w,
    decreases n,
{
    if n > 0 {
        lemma_joined_len(items, f, n - 1, w);
        assert(items[n - 1] == items[n - 1]);
        assert(n * w == (n - 1) * w + w) by (nonlinear_arith);
    } else {
        assert(n * w == 0) by (nonlinear_arith)
            requires
                n == 0,
        ;
    }
}

proof fn lemma_column_reads(
    d: Seq<u8>,
    version: u8,
    bl: Seq<BlockExtent>,
    c: Cursor,
    col: SectionColumnView,
    table: usize,
    column: usize,
)
    requires
        section_frame::column_image(col, version, table, column) is Ok,
        col.zone matches Some(z) ==> section_codec::zone_counts_fit(z),
        wire::holds_at(d, c.pos, section_frame::column_image(col, version, table, column)->Ok_0),
        0 <= c.used < bl.len(),
        bl[c.used].end == c.pos + image_len(section_frame::column_image(col, version, table, column)),
    ensures
        section_read::column_read(d, version, bl, c) == Ok::<(SectionColumnView, Cursor), SectionStop>(
            (
                kept_column(col),
                Cursor {
                    pos: c.pos + image_len(section_frame::column_image(col, version, table, column)),
                    used: c.used + 1,
                },
            ),
        ),
{
    let key = section_codec::section_text(col.key, version);
    let zone = section_frame::zone_image(col.zone, version, table, column)->Ok_0;
    wire::lemma_holds_split(d, c.pos, key + zone, col.body);
    wire::lemma_holds_split(d, c.pos, key, zone);
    section_codec::lemma_section_text_read(d, c.pos, col.key, version);
    let p = c.pos + key.len();
    assert(d.subrange(p, p + zone.len())[0] == d[p]);
    match col.zone {
        None => {},
        Some(z) => {
            wire::lemma_holds_split(d, p, seq![1u8], section_codec::zone_bytes(z, version));
            section_codec::lemma_section_zone_read(d, p + 1, z, version, table, column);
        },
    }
}

proof fn lemma_columns_read(
    d: Seq<u8>,
    version: u8,
    bl: Seq<BlockExtent>,
    c: Cursor,
    t: SectionNodeView,
    table: usize,
    n: int,
)
    requires
        section_frame::node_counts_fit(t),
        0 <= n <= t.columns.len(),
        t.columns.len() <= usize::MAX,
        section_frame::joined(t.columns, section_frame::column_imager(version, table), n) is Ok,
        wire::holds_at(d, c.pos, section_frame::joined(t.columns, section_frame::column_imager(version, table), n)->Ok_0),
        0 <= c.used,
        c.used + n <= bl.len(),
        forall|i: int|
            #![trigger bl[c.used + i]]
            0 <= i < n ==> bl[c.used + i].end == c.pos + image_len(
                section_frame::joined(t.columns, section_frame::column_imager(version, table), i + 1),
            ),
    ensures
        section_read::repeat(section_read::column_reader(d, version, bl), c, n) == Ok::<
            (Seq<SectionColumnView>, Cursor),
            SectionStop,
        >(
            (
                kept_columns(t.columns).take(n),
                Cursor {
                    pos: c.pos + image_len(
                        section_frame::joined(t.columns, section_frame::column_imager(version, table), n),
                    ),
                    used: c.used + n,
                },
            ),
        ),
    decreases n,
{
    let f = section_frame::column_imager(version, table);
    if n == 0 {
        assert(kept_columns(t.columns).take(0) =~= Seq::<SectionColumnView>::empty());
    } else {
        lemma_joined_part(d, c.pos, t.columns, f, n);
        assert forall|i: int| #![trigger bl[c.used + i]] 0 <= i < n - 1 implies bl[c.used + i].end
            == c.pos + image_len(section_frame::joined(t.columns, f, i + 1)) by {}
        lemma_columns_read(d, version, bl, c, t, table, n - 1);
        let c1 = Cursor {
            pos: c.pos + image_len(section_frame::joined(t.columns, f, n - 1)),
            used: c.used + (n - 1),
        };
        assert(bl[c.used + (n - 1)].end == c.pos + image_len(section_frame::joined(t.columns, f, n)));
        let col = t.columns[n - 1];
        lemma_column_reads(d, version, bl, c1, col, table, (n - 1) as usize);
        assert(kept_columns(t.columns).take(n) =~= kept_columns(t.columns).take(n - 1).push(
            kept_column(col),
        ));
    }
}

proof fn lemma_text_len(s: Seq<char>, version: u8)
    ensures
        section_codec::section_text(s, version).len() >= section_codec::prefix_width(version),
{
}

proof fn lemma_node_reads(
    d: Seq<u8>,
    version: u8,
    bl: Seq<BlockExtent>,
    c: Cursor,
    t: SectionNodeView,
    table: usize,
)
    requires
        section_frame::node_counts_fit(t),
        d.len() <= usize::MAX,
        section_frame::node_image(t, version, table) is Ok,
        wire::holds_at(d, c.pos, section_frame::node_image(t, version, table)->Ok_0),
        blocks_at(bl, c.used, node_blocks(t, version, table, c.pos)),
    ensures
        section_read::node_read(d, version, bl, c) == Ok::<(SectionNodeView, Cursor), SectionStop>(
            (
                kept_node(t),
                Cursor {
                    pos: c.pos + image_len(section_frame::node_image(t, version, table)),
                    used: c.used + t.columns.len(),
                },
            ),
        ),
{
    let f = section_frame::column_imager(version, table);
    let n = t.columns.len() as int;
    let head = section_frame::node_head(t, version);
    let cols = section_frame::joined(t.columns, f, n)->Ok_0;
    let label = section_codec::section_text(t.label, version);
    wire::lemma_holds_split(d, c.pos, head, cols);
    wire::lemma_holds_split(d, c.pos, label + wire::put32(t.rows), wire::put32(t.columns.len() as u32));
    wire::lemma_holds_split(d, c.pos, label, wire::put32(t.rows));
    section_codec::lemma_section_text_read(d, c.pos, t.label, version);
    let p1 = c.pos + label.len();
    assert(d.subrange(p1, p1 + 4) == wire::put32(t.rows));
    assert(d.subrange(p1 + 4, p1 + 8) == wire::put32(t.columns.len() as u32));
    let p3 = c.pos + head.len();
    assert(p3 == p1 + 8);
    assert forall|i: int| #![trigger t.columns[i]] 0 <= i < n && f(i, t.columns[i]) is Ok implies image_len(
        f(i, t.columns[i]),
    ) >= section_codec::prefix_width(version) + 1 by {
        lemma_text_len(t.columns[i].key, version);
    }
    lemma_joined_len(t.columns, f, n, section_codec::prefix_width(version) + 1);
    assert(n == n as u32);
    let c3 = Cursor { pos: p3, used: c.used };
    assert(n * (section_codec::prefix_width(version) + 1) >= n) by (nonlinear_arith)
        requires
            n >= 0,
            section_codec::prefix_width(version) + 1 >= 1,
    ;
    let blocks = node_blocks(t, version, table, c.pos);
    assert forall|i: int| #![trigger bl[c3.used + i]] 0 <= i < n implies bl[c3.used + i].end == c3.pos
        + image_len(section_frame::joined(t.columns, f, i + 1)) by {
        assert(bl[c.used + i] == blocks[i]);
        lemma_joined_monotonic(t.columns, f, i + 1, n);
    }
    lemma_columns_read(d, version, bl, c3, t, table, n);
    assert(kept_columns(t.columns).take(n) =~= kept_columns(t.columns));
}

proof fn lemma_joined_monotonic<T>(items: Seq<T>, f: spec_fn(int, T) -> Image, k: int, n: int)
    requires
        0 <= k <= n,
        section_frame::joined(items, f, n) is Ok,
    ensures
        section_frame::joined(items, f, k) is Ok,
        0 <= image_len(section_frame::joined(items, f, k)) <= image_len(section_frame::joined(items, f, n)),
    decreases n,
{
    if k < n {
        lemma_joined_monotonic(items, f, k, n - 1);
    }
}

#[verifier::rlimit(60)]
#[verifier::spinoff_prover]
proof fn lemma_nodes_read(
    d: Seq<u8>,
    version: u8,
    bl: Seq<BlockExtent>,
    c: Cursor,
    v: Seq<SectionNodeView>,
    n: int,
)
    requires
        0 <= n <= v.len() <= 0xffff,
        d.len() <= usize::MAX,
        forall|i: int| #![trigger v[i]] 0 <= i < v.len() ==> section_frame::node_counts_fit(v[i]),
        section_frame::joined(v, section_frame::node_imager(version), n) is Ok,
        wire::holds_at(d, c.pos, section_frame::joined(v, section_frame::node_imager(version), n)->Ok_0),
        blocks_at(bl, c.used, all_node_blocks(v, version, c.pos, n)),
    ensures
        section_read::repeat(section_read::node_reader(d, version, bl), c, n) == Ok::<
            (Seq<SectionNodeView>, Cursor),
            SectionStop,
        >(
            (
                kept_nodes(v).take(n),
                Cursor {
                    pos: c.pos + image_len(section_frame::joined(v, section_frame::node_imager(version), n)),
                    used: c.used + all_node_blocks(v, version, c.pos, n).len(),
                },
            ),
        ),
    decreases n,
{
    let f = section_frame::node_imager(version);
    if n == 0 {
        assert(kept_nodes(v).take(0) =~= Seq::<SectionNodeView>::empty());
    } else {
        lemma_joined_part(d, c.pos, v, f, n);
        let before = all_node_blocks(v, version, c.pos, n - 1);
        let p = c.pos + image_len(section_frame::joined(v, f, n - 1));
        let own_blocks = node_blocks(v[n - 1], version, (n - 1) as usize, p);
        lemma_blocks_split(bl, c.used, before, own_blocks);
        lemma_nodes_read(d, version, bl, c, v, n - 1);
        let c1 = Cursor { pos: p, used: c.used + before.len() };
        lemma_node_reads(d, version, bl, c1, v[n - 1], (n - 1) as usize);
        assert(kept_nodes(v).take(n) =~= kept_nodes(v).take(n - 1).push(kept_node(v[n - 1])));
    }
}

proof fn lemma_property_reads(
    d: Seq<u8>,
    version: u8,
    bl: Seq<BlockExtent>,
    c: Cursor,
    p: SectionPropertyView,
)
    requires
        section_frame::property_image(p, version) is Ok,
        wire::holds_at(d, c.pos, section_frame::property_image(p, version)->Ok_0),
        0 <= c.used < bl.len(),
        bl[c.used].end == c.pos + image_len(section_frame::property_image(p, version)),
    ensures
        section_read::property_read(d, version, bl, c) == Ok::<(SectionPropertyView, Cursor), SectionStop>(
            (p, Cursor { pos: c.pos + image_len(section_frame::property_image(p, version)), used: c.used + 1 }),
        ),
{
    let key = section_codec::section_text(p.key, version);
    wire::lemma_holds_split(d, c.pos, key, p.body);
    section_codec::lemma_section_text_read(d, c.pos, p.key, version);
}

proof fn lemma_properties_read(
    d: Seq<u8>,
    version: u8,
    bl: Seq<BlockExtent>,
    c: Cursor,
    v: Seq<SectionPropertyView>,
    n: int,
)
    requires
        0 <= n <= v.len(),
        section_frame::joined(v, section_frame::property_imager(version), n) is Ok,
        wire::holds_at(d, c.pos, section_frame::joined(v, section_frame::property_imager(version), n)->Ok_0),
        0 <= c.used,
        c.used + n <= bl.len(),
        forall|i: int|
            #![trigger bl[c.used + i]]
            0 <= i < n ==> bl[c.used + i].end == c.pos + image_len(
                section_frame::joined(v, section_frame::property_imager(version), i + 1),
            ),
    ensures
        section_read::repeat(section_read::property_reader(d, version, bl), c, n) == Ok::<
            (Seq<SectionPropertyView>, Cursor),
            SectionStop,
        >(
            (
                v.take(n),
                Cursor {
                    pos: c.pos + image_len(section_frame::joined(v, section_frame::property_imager(version), n)),
                    used: c.used + n,
                },
            ),
        ),
    decreases n,
{
    let f = section_frame::property_imager(version);
    if n == 0 {
        assert(v.take(0) =~= Seq::<SectionPropertyView>::empty());
    } else {
        lemma_joined_part(d, c.pos, v, f, n);
        assert forall|i: int| #![trigger bl[c.used + i]] 0 <= i < n - 1 implies bl[c.used + i].end
            == c.pos + image_len(section_frame::joined(v, f, i + 1)) by {}
        lemma_properties_read(d, version, bl, c, v, n - 1);
        let c1 = Cursor { pos: c.pos + image_len(section_frame::joined(v, f, n - 1)), used: c.used + (n - 1) };
        assert(bl[c.used + (n - 1)].end == c.pos + image_len(section_frame::joined(v, f, n)));
        lemma_property_reads(d, version, bl, c1, v[n - 1]);
        assert(v.take(n) =~= v.take(n - 1).push(v[n - 1]));
    }
}

proof fn lemma_rel_head_reads(
    d: Seq<u8>,
    version: u8,
    bl: Seq<BlockExtent>,
    c: Cursor,
    t: SectionRelView,
)
    requires
        d.len() <= usize::MAX,
        section_frame::text_image(t.edge_type, version) is Ok,
        wire::holds_at(d, c.pos, section_frame::rel_head(t, version)),
        blocks_at(bl, c.used, csr_blocks(t, version, c.pos)),
    ensures
        section_read::rel_head_read(d, version, bl, c) == Ok::<(SectionRelView, Cursor), SectionStop>(
            (
                SectionRelView { properties: Seq::empty(), ..t },
                Cursor {
                    pos: c.pos + section_frame::rel_head(t, version).len() - 4,
                    used: c.used + csr_blocks(t, version, c.pos).len(),
                },
            ),
        ),
        section_codec::u32_read(d, c.pos + section_frame::rel_head(t, version).len() - 4) == Ok::<(u32, int), SectionError>(
            (t.properties.len() as u32, c.pos + section_frame::rel_head(t, version).len()),
        ),
{
    let a = section_codec::section_text(t.edge_type, version);
    let s = wire::put16(t.src);
    let e = wire::put16(t.dst);
    let rev = section_frame::reverse_bytes(t.bwd);
    let n = wire::put32(t.properties.len() as u32);
    wire::lemma_holds_split(d, c.pos, a + s + e + t.fwd + rev, n);
    wire::lemma_holds_split(d, c.pos, a + s + e + t.fwd, rev);
    wire::lemma_holds_split(d, c.pos, a + s + e, t.fwd);
    wire::lemma_holds_split(d, c.pos, a + s, e);
    wire::lemma_holds_split(d, c.pos, a, s);
    section_codec::lemma_section_text_read(d, c.pos, t.edge_type, version);
    let p1 = c.pos + a.len();
    assert(d.subrange(p1, p1 + 2) == s);
    assert(d.subrange(p1 + 2, p1 + 4) == e);
    let p4 = p1 + 4;
    let p5 = p4 + t.fwd.len();
    let blocks = csr_blocks(t, version, c.pos);
    assert(bl[c.used + 0] == blocks[0]);
    assert(d.subrange(p4, p5) == t.fwd);
    assert(d.subrange(p5, p5 + rev.len())[0] == d[p5]);
    match t.bwd {
        None => {},
        Some(b) => {
            wire::lemma_holds_split(d, p5, seq![1u8], b);
            assert(bl[c.used + 1] == blocks[1]);
            assert(d.subrange(p5 + 1, p5 + 1 + b.len()) == b);
        },
    }
    let p6 = p5 + rev.len();
    assert(d.subrange(p6, p6 + 4) == n);
}

proof fn lemma_rel_reads(
    d: Seq<u8>,
    version: u8,
    bl: Seq<BlockExtent>,
    c: Cursor,
    t: SectionRelView,
)
    requires
        d.len() <= usize::MAX,
        t.properties.len() <= 0xffff_ffff,
        rel_blocks_real(t),
        section_frame::rel_image(t, version) is Ok,
        wire::holds_at(d, c.pos, section_frame::rel_image(t, version)->Ok_0),
        blocks_at(
            bl,
            c.used,
            csr_blocks(t, version, c.pos) + property_blocks(t, version, c.pos),
        ),
    ensures
        section_read::rel_read(d, version, bl, c) == Ok::<(SectionRelView, Cursor), SectionStop>(
            (
                t,
                Cursor {
                    pos: c.pos + image_len(section_frame::rel_image(t, version)),
                    used: c.used + csr_blocks(t, version, c.pos).len() + t.properties.len(),
                },
            ),
        ),
{
    let f = section_frame::property_imager(version);
    let n = t.properties.len() as int;
    let head = section_frame::rel_head(t, version);
    let props = section_frame::joined(t.properties, f, n)->Ok_0;
    let csrs = csr_blocks(t, version, c.pos);
    let blocks = property_blocks(t, version, c.pos);
    wire::lemma_holds_split(d, c.pos, head, props);
    lemma_blocks_split(bl, c.used, csrs, blocks);
    lemma_rel_head_reads(d, version, bl, c, t);
    let p = c.pos + head.len();
    assert forall|i: int| #![trigger t.properties[i]] 0 <= i < n && f(i, t.properties[i]) is Ok implies image_len(
        f(i, t.properties[i]),
    ) >= section_codec::prefix_width(version) + 1 by {
        lemma_text_len(t.properties[i].key, version);
    }
    lemma_joined_len(t.properties, f, n, section_codec::prefix_width(version) + 1);
    let c2 = Cursor { pos: p, used: c.used + csrs.len() };
    assert forall|i: int| #![trigger bl[c2.used + i]] 0 <= i < n implies bl[c2.used + i].end == c2.pos
        + image_len(section_frame::joined(t.properties, f, i + 1)) by {
        assert(bl[c2.used + i] == blocks[i]);
        lemma_joined_monotonic(t.properties, f, i + 1, n);
    }
    lemma_properties_read(d, version, bl, c2, t.properties, n);
    assert(t.properties.take(n) =~= t.properties);
}

proof fn lemma_rels_read(
    d: Seq<u8>,
    version: u8,
    bl: Seq<BlockExtent>,
    c: Cursor,
    v: Seq<SectionRelView>,
    n: int,
)
    requires
        0 <= n <= v.len(),
        d.len() <= usize::MAX,
        forall|i: int|
            #![trigger v[i]]
            0 <= i < v.len() ==> v[i].properties.len() <= 0xffff_ffff && rel_blocks_real(v[i]),
        section_frame::joined(v, section_frame::rel_imager(version), n) is Ok,
        wire::holds_at(d, c.pos, section_frame::joined(v, section_frame::rel_imager(version), n)->Ok_0),
        blocks_at(bl, c.used, all_rel_blocks(v, version, c.pos, n)),
    ensures
        section_read::repeat(section_read::rel_reader(d, version, bl), c, n) == Ok::<(Seq<SectionRelView>, Cursor), SectionStop>(
            (
                v.take(n),
                Cursor {
                    pos: c.pos + image_len(section_frame::joined(v, section_frame::rel_imager(version), n)),
                    used: c.used + all_rel_blocks(v, version, c.pos, n).len(),
                },
            ),
        ),
    decreases n,
{
    let f = section_frame::rel_imager(version);
    if n == 0 {
        assert(v.take(0) =~= Seq::<SectionRelView>::empty());
    } else {
        lemma_joined_part(d, c.pos, v, f, n);
        let before = all_rel_blocks(v, version, c.pos, n - 1);
        let p = c.pos + image_len(section_frame::joined(v, f, n - 1));
        let t = v[n - 1];
        let own_blocks = csr_blocks(t, version, p) + property_blocks(t, version, p);
        assert(all_rel_blocks(v, version, c.pos, n) =~= before + own_blocks);
        lemma_blocks_split(bl, c.used, before, own_blocks);
        lemma_rels_read(d, version, bl, c, v, n - 1);
        let c1 = Cursor { pos: p, used: c.used + before.len() };
        lemma_rel_reads(d, version, bl, c1, t);
        assert(v.take(n) =~= v.take(n - 1).push(t));
    }
}

proof fn lemma_id_entries_read(
    d: Seq<u8>,
    part: SectionPart,
    lens: Seq<usize>,
    c: Cursor,
    v: Seq<LookupEntry>,
    n: int,
)
    requires
        0 <= n <= v.len(),
        entries_inside(v, lens),
        wire::holds_at(d, c.pos, wire::flat(v, section_frame::id_entry_encoder())),
    ensures
        section_read::repeat(section_read::id_entry_reader(d, part, lens), c, n) == Ok::<
            (Seq<LookupEntry>, Cursor),
            SectionStop,
        >((v.take(n), Cursor { pos: c.pos + n * 18, used: c.used })),
    decreases n,
{
    let f = section_frame::id_entry_encoder();
    if n == 0 {
        assert(v.take(0) =~= Seq::<LookupEntry>::empty());
    } else {
        lemma_id_entries_read(d, part, lens, c, v, n - 1);
        let e = v[n - 1];
        assert forall|k: int| 0 <= k < v.len() implies f(#[trigger] v[k]).len() == 18 by {}
        wire::lemma_flat_at(v, f, 18, n - 1);
        let p = c.pos + (n - 1) * 18;
        wire::lemma_holds_within(d, c.pos, wire::flat(v, f), (n - 1) * 18, (n - 1) * 18 + 18);
        assert(wire::holds_at(d, p, wire::put64(e.0) + wire::put16(e.1) + wire::put64(e.2)));
        wire::lemma_holds_split(d, p, wire::put64(e.0) + wire::put16(e.1), wire::put64(e.2));
        wire::lemma_holds_split(d, p, wire::put64(e.0), wire::put16(e.1));
        assert(d.subrange(p, p + 8) == wire::put64(e.0));
        assert(d.subrange(p + 8, p + 10) == wire::put16(e.1));
        assert(d.subrange(p + 10, p + 18) == wire::put64(e.2));
        assert(v.take(n) =~= v.take(n - 1).push(e));
    }
}

proof fn lemma_id_map_reads(
    d: Seq<u8>,
    part: SectionPart,
    lens: Seq<usize>,
    c: Cursor,
    v: Seq<LookupEntry>,
)
    requires
        v.len() <= 0xffff_ffff,
        entries_inside(v, lens),
        wire::holds_at(d, c.pos, section_frame::id_map_bytes(v)),
    ensures
        section_read::id_map_read(d, part, lens, c) == Ok::<(Seq<LookupEntry>, Cursor), SectionStop>(
            (v, Cursor { pos: c.pos + section_frame::id_map_bytes(v).len(), used: c.used }),
        ),
{
    let f = section_frame::id_entry_encoder();
    wire::lemma_holds_split(d, c.pos, wire::put32(v.len() as u32), wire::flat(v, f));
    assert(d.subrange(c.pos, c.pos + 4) == wire::put32(v.len() as u32));
    assert forall|k: int| 0 <= k < v.len() implies f(#[trigger] v[k]).len() == 18 by {}
    wire::lemma_flat_len(v, f, 18);
    let c1 = Cursor { pos: c.pos + 4, used: c.used };
    lemma_id_entries_read(d, part, lens, c1, v, v.len() as int);
    assert(v.take(v.len() as int) =~= v);
}

proof fn lemma_header_opens(d: Seq<u8>, b: Seq<u8>, rest: Seq<u8>, version: u8, preserves: bool)
    requires
        section_codec::known_version(version),
        b == section_frame::section_header(version, preserves) + rest,
        d == b + wire::put32(outside::crc32_of(b)),
    ensures
        d.len() >= 10,
        section_read::section_opened(d) == Ok::<(u8, bool), SectionError>((version, preserves)),
{
    let h = section_frame::section_header(version, preserves);
    assert(d.subrange(0, d.len() - 4) =~= b);
    assert(d.subrange(d.len() - 4, d.len() as int) =~= wire::put32(outside::crc32_of(b)));
    assert(d.subrange(0, 4) =~= wire::put32(SECTION_MAGIC));
    assert(d[4] == h[4] && d[5] == h[5]);
}

proof fn lemma_all_nodes_read(d: Seq<u8>, version: u8, bl: Seq<BlockExtent>, s: SectionView)
    requires
        section_readable(s),
        d.len() <= usize::MAX,
        section_frame::joined(s.nodes, section_frame::node_imager(version), s.nodes.len() as int) is Ok,
        wire::holds_at(d, 6, wire::put32(s.nodes.len() as u32)),
        wire::holds_at(d, 10, section_frame::joined(s.nodes, section_frame::node_imager(version), s.nodes.len() as int)->Ok_0),
        blocks_at(bl, 0, all_node_blocks(s.nodes, version, 10, s.nodes.len() as int)),
    ensures
        section_read::nodes_read(d, version, bl) == Ok::<(Seq<SectionNodeView>, Cursor), SectionStop>(
            (
                kept_nodes(s.nodes),
                Cursor {
                    pos: 10 + image_len(
                        section_frame::joined(s.nodes, section_frame::node_imager(version), s.nodes.len() as int),
                    ),
                    used: all_node_blocks(s.nodes, version, 10, s.nodes.len() as int).len() as int,
                },
            ),
        ),
{
    let nn = s.nodes.len() as int;
    let f = section_frame::node_imager(version);
    assert forall|i: int| #![trigger s.nodes[i]] 0 <= i < nn && f(i, s.nodes[i]) is Ok implies image_len(
        f(i, s.nodes[i]),
    ) >= section_codec::prefix_width(version) + 8 by {
        lemma_text_len(s.nodes[i].label, version);
    }
    lemma_joined_len(s.nodes, f, nn, section_codec::prefix_width(version) + 8);
    let c1 = Cursor { pos: 10, used: 0 };
    lemma_nodes_read(d, version, bl, c1, s.nodes, nn);
    assert(kept_nodes(s.nodes).take(nn) =~= kept_nodes(s.nodes));
    assert(d.subrange(6, 10) == wire::put32(s.nodes.len() as u32));
}

proof fn lemma_all_rels_read(
    d: Seq<u8>,
    version: u8,
    bl: Seq<BlockExtent>,
    s: SectionView,
    c: Cursor,
)
    requires
        section_readable(s),
        d.len() <= usize::MAX,
        section_frame::joined(s.rels, section_frame::rel_imager(version), s.rels.len() as int) is Ok,
        wire::holds_at(d, c.pos, wire::put32(s.rels.len() as u32)),
        wire::holds_at(d, c.pos + 4, section_frame::joined(s.rels, section_frame::rel_imager(version), s.rels.len() as int)->Ok_0),
        blocks_at(bl, c.used, all_rel_blocks(s.rels, version, c.pos + 4, s.rels.len() as int)),
    ensures
        section_read::rels_read(d, version, bl, c) == Ok::<(Seq<SectionRelView>, Cursor), SectionStop>(
            (
                s.rels,
                Cursor {
                    pos: c.pos + 4 + image_len(
                        section_frame::joined(s.rels, section_frame::rel_imager(version), s.rels.len() as int),
                    ),
                    used: c.used + all_rel_blocks(
                        s.rels,
                        version,
                        c.pos + 4,
                        s.rels.len() as int,
                    ).len(),
                },
            ),
        ),
{
    let rn = s.rels.len() as int;
    let f = section_frame::rel_imager(version);
    assert forall|i: int| #![trigger s.rels[i]] 0 <= i < rn && f(i, s.rels[i]) is Ok implies image_len(
        f(i, s.rels[i]),
    ) >= section_codec::prefix_width(version) + 18 by {
        lemma_text_len(s.rels[i].edge_type, version);
        assert(rel_blocks_real(s.rels[i]));
    }
    lemma_joined_len(s.rels, f, rn, section_codec::prefix_width(version) + 18);
    let c3 = Cursor { pos: c.pos + 4, used: c.used };
    lemma_rels_read(d, version, bl, c3, s.rels, rn);
    assert(s.rels.take(rn) =~= s.rels);
    assert(d.subrange(c.pos, c.pos + 4) == wire::put32(s.rels.len() as u32));
}

/// Reading a written section against its blocks gives the frame that was
/// written, in every version: tables, keys, encoded bytes and identifier maps
/// unchanged, the zone maps with those bounds that are integers, truth values
/// or texts.
#[verifier::rlimit(60)]
pub proof fn lemma_section_round_trip(s: SectionView, version: u8)
    requires
        section_readable(s),
        section_frame::section_image(s, version) is Ok,
        section_frame::section_image(s, version)->Ok_0.len() <= usize::MAX,
    ensures
        section_read::section_read(section_frame::section_image(s, version)->Ok_0, section_blocks(s, version)) == Ok::<
            SectionView,
            SectionStop,
        >(kept_section(s)),
{
    let d = section_frame::section_image(s, version)->Ok_0;
    let b = section_frame::section_body(s, version)->Ok_0;
    let bl = section_blocks(s, version);
    let preserves = s.ids is Some;
    let head = section_frame::section_header(version, preserves);
    let nn = s.nodes.len() as int;
    let rn = s.rels.len() as int;
    let nodes = section_frame::joined(s.nodes, section_frame::node_imager(version), nn)->Ok_0;
    let rels = section_frame::joined(s.rels, section_frame::rel_imager(version), rn)->Ok_0;
    let n32 = wire::put32(s.nodes.len() as u32);
    let r32 = wire::put32(s.rels.len() as u32);
    let ids = section_frame::ids_bytes(s.ids);
    let rest = n32 + nodes + r32 + rels + ids;
    assert(b =~= head + rest);
    lemma_header_opens(d, b, rest, version, preserves);
    wire::lemma_holds_all(d);
    wire::lemma_holds_split(d, 0, b, wire::put32(outside::crc32_of(b)));
    wire::lemma_holds_split(d, 0, head, rest);
    wire::lemma_holds_split(d, 6, n32 + nodes + r32 + rels, ids);
    wire::lemma_holds_split(d, 6, n32 + nodes + r32, rels);
    wire::lemma_holds_split(d, 6, n32 + nodes, r32);
    wire::lemma_holds_split(d, 6, n32, nodes);
    assert(d.subrange(6, 10) == n32);
    assert forall|i: int| #![trigger bl[i]] 0 <= i < bl.len() implies bl[0 + i] == bl[i] by {}
    let nb = all_node_blocks(s.nodes, version, 10, nn);
    let rb = all_rel_blocks(s.rels, version, rels_start(s, version), rn);
    assert(blocks_at(bl, 0, nb + rb));
    lemma_blocks_split(bl, 0, nb, rb);
    let c2 = Cursor { pos: (10 + nodes.len()) as int, used: nb.len() as int };
    lemma_all_nodes_read(d, version, bl, s);
    lemma_all_rels_read(d, version, bl, s, c2);
    // Identifier maps.
    let c4 = Cursor { pos: (10 + nodes.len() + 4 + rels.len()) as int, used: (nb.len() + rb.len()) as int };
    match s.ids {
        None => {},
        Some(x) => {
            assert(section_read::node_lens(kept_nodes(s.nodes)) =~= section_read::node_lens(s.nodes));
            wire::lemma_holds_split(d, c4.pos, section_frame::id_map_bytes(x.nodes), section_frame::id_map_bytes(x.edges));
            lemma_id_map_reads(d, SectionPart::NodeIdMap, section_read::node_lens(s.nodes), c4, x.nodes);
            let c5 = Cursor { pos: c4.pos + section_frame::id_map_bytes(x.nodes).len(), used: c4.used };
            lemma_id_map_reads(d, SectionPart::EdgeIdMap, section_read::rel_lens(s.rels), c5, x.edges);
        },
    }
}

} // verus!
