//! The zone maps of node tables and of relationship tables come back together.

use crate::faults;
use crate::tables::StoreView;
use crate::text::own;
use crate::text;
use crate::value::ZoneView;
use crate::zone_laws;
use crate::zone_maps::{TABLE_ZONE_BLOCK_SENTINEL, ZoneRow};
use crate::zone_maps;
use vstd::prelude::*;

verus! {

/// A table as its zone maps are listed: under a number.
pub struct ZoneTable {
    /// Number.
    pub number: u16,
    /// Zone maps of its columns.
    pub zones: Seq<(Seq<char>, ZoneView)>,
    /// Zone maps of the blocks of its columns.
    pub blocks: Seq<(Seq<char>, Seq<ZoneView>)>,
}

/// The tables of a store under the numbers of their zone maps: node tables,
/// then relationship tables.
pub open spec fn numbered_tables(s: StoreView) -> Seq<ZoneTable> {
    let nn = s.nodes.len() as int;
    Seq::new(
        s.nodes.len() + s.rels.len(),
        |i: int|
            if i < nn {
                ZoneTable {
                    number: i as u16,
                    zones: s.nodes[i].zones,
                    blocks: s.nodes[i].blocks,
                }
            } else {
                ZoneTable {
                    number: zone_maps::rel_zone_table(i - nn),
                    zones: s.rels[i - nn].zones,
                    blocks: s.rels[i - nn].blocks,
                }
            },
    )
}

/// No two tables share a number.
pub open spec fn numbers_distinct(v: Seq<ZoneTable>) -> bool {
    forall|i: int, j: int|
        0 <= i < v.len() && 0 <= j < v.len() && i != j ==> (#[trigger] v[i]).number != (
        #[trigger] v[j]).number
}

/// One of the first `n` tables has a number.
pub open spec fn has_number(v: Seq<ZoneTable>, n: int, number: u16) -> bool {
    exists|k: int| 0 <= k < n && (#[trigger] v[k]).number == number
}

/// The zone map columns of a table ascend.
pub open spec fn numbered_ascend(t: ZoneTable) -> bool {
    text::texts_ascend(zone_laws::zone_keys(t.zones)) && text::texts_ascend(zone_laws::block_zone_keys(t.blocks))
}

/// The zone maps of a table can be written.
pub open spec fn table_writable(t: ZoneTable, index: Map<Seq<char>, u32>) -> bool {
    &&& faults::first_fault(t.zones.len(), zone_maps::zone_pair_checks(t.zones, index)) is None
    &&& faults::first_fault(t.blocks.len(), zone_maps::block_pair_checks(t.blocks, index)) is None
}

/// The rows of the zone maps of the first `n` tables.
pub open spec fn numbered_zone_rows(v: Seq<ZoneTable>, n: int) -> Seq<ZoneRow>
    decreases n,
{
    if n <= 0 {
        Seq::empty()
    } else {
        numbered_zone_rows(v, n - 1) + zone_maps::zone_rows_of_table(v[n - 1].number, v[n - 1].zones)
    }
}

/// The rows of the blocks of the first `n` tables.
pub open spec fn numbered_block_rows(v: Seq<ZoneTable>, n: int) -> Seq<ZoneRow>
    decreases n,
{
    if n <= 0 {
        Seq::empty()
    } else {
        numbered_block_rows(v, n - 1) + zone_maps::block_rows_of_table(
            v[n - 1].number,
            v[n - 1].blocks,
            v[n - 1].blocks.len() as int,
        )
    }
}

proof fn lemma_node_rows(s: StoreView, n: int)
    requires
        0 <= n <= s.nodes.len(),
    ensures
        numbered_zone_rows(numbered_tables(s), n) == zone_maps::table_zone_rows(s.nodes, n),
        numbered_block_rows(numbered_tables(s), n) == zone_maps::block_zone_rows(s.nodes, n),
    decreases n,
{
    if n > 0 {
        lemma_node_rows(s, n - 1);
    }
}

proof fn lemma_rel_rows(s: StoreView, n: int)
    requires
        0 <= n <= s.rels.len(),
    ensures
        numbered_zone_rows(numbered_tables(s), s.nodes.len() + n) == zone_maps::table_zone_rows(
            s.nodes,
            s.nodes.len() as int,
        ) + zone_maps::rel_zone_rows(s.rels, n),
        numbered_block_rows(numbered_tables(s), s.nodes.len() + n) == zone_maps::block_zone_rows(
            s.nodes,
            s.nodes.len() as int,
        ) + zone_maps::rel_block_rows(s.rels, n),
    decreases n,
{
    let nn = s.nodes.len() as int;
    if n == 0 {
        lemma_node_rows(s, nn);
        assert(zone_maps::table_zone_rows(s.nodes, nn) + zone_maps::rel_zone_rows(s.rels, 0) =~= zone_maps::table_zone_rows(
            s.nodes,
            nn,
        ));
        assert(zone_maps::block_zone_rows(s.nodes, nn) + zone_maps::rel_block_rows(s.rels, 0) =~= zone_maps::block_zone_rows(
            s.nodes,
            nn,
        ));
    } else {
        lemma_rel_rows(s, n - 1);
        let v = numbered_tables(s);
        let t = v[nn + n - 1];
        assert(t.number == zone_maps::rel_zone_table(n - 1));
        assert(numbered_zone_rows(v, nn + n) =~= zone_maps::table_zone_rows(s.nodes, nn) + zone_maps::rel_zone_rows(
            s.rels,
            n,
        ));
        assert(numbered_block_rows(v, nn + n) =~= zone_maps::block_zone_rows(s.nodes, nn) + zone_maps::rel_block_rows(
            s.rels,
            n,
        ));
    }
}

proof fn lemma_rel_number(n: int)
    requires
        0 <= n < 0x8000,
    ensures
        zone_maps::rel_zone_table(n) == 0x8000 + n,
{
    let k = n as u16;
    assert(k < 0x8000u16 ==> (0x8000u16 | k) == 0x8000u16 + k) by (bit_vector);
}

/// The numbers of the tables of a store are distinct, up to as many tables as
/// there are numbers.
proof fn lemma_numbers_distinct(s: StoreView)
    requires
        s.nodes.len() <= 0x8000,
        s.rels.len() <= 0x8000,
    ensures
        numbers_distinct(numbered_tables(s)),
{
    let v = numbered_tables(s);
    let nn = s.nodes.len() as int;
    assert forall|i: int, j: int| 0 <= i < v.len() && 0 <= j < v.len() && i != j implies (
    #[trigger] v[i]).number != (#[trigger] v[j]).number by {
        if i >= nn {
            lemma_rel_number(i - nn);
        }
        if j >= nn {
            lemma_rel_number(j - nn);
        }
    }
}

/// The records of the first `n` tables give each of them the zone maps that
/// were stored, and no other table any.
pub proof fn lemma_numbered_zones_read_back(v: Seq<ZoneTable>, n: int, k: int)
    requires
        0 <= n <= v.len(),
        numbers_distinct(v),
        0 <= k < v.len(),
        forall|t: int| 0 <= t < n ==> numbered_ascend(#[trigger] v[t]),
    ensures
        ({
            let rows = numbered_zone_rows(v, n);
            zone_maps::zones_for(rows, rows.len() as int, v[k].number as int) == (if k < n {
                zone_laws::stored_zone_map(v[k].zones)
            } else {
                Map::empty()
            })
        }),
    decreases n,
{
    let rows = numbered_zone_rows(v, n);
    if n > 0 {
        lemma_numbered_zones_read_back(v, n - 1, k);
        let id = v[k].number as int;
        let a = numbered_zone_rows(v, n - 1);
        let t = v[n - 1].number;
        let zones = v[n - 1].zones;
        let own = zone_maps::zone_rows_of_table(t, zones);
        assert(rows =~= a + own);
        zone_laws::lemma_zones_for_prefix(a, own, a.len() as int, id);
        let lo = a.len() as int;
        if k == n - 1 {
            assert(numbered_ascend(v[n - 1]));
            assert forall|i: int| 0 <= i < zones.len() implies #[trigger] rows[lo + i]
                == zone_maps::zone_rows_of_table(t, zones)[i] by {
                assert(own[i] == zone_maps::zone_rows_of_table(t, zones)[i]);
            }
            zone_laws::lemma_own_zones(rows, lo, t, zones, zones.len() as int);
            assert(zones.take(zones.len() as int) =~= zones);
        } else {
            assert forall|j: int| lo <= j < rows.len() implies (#[trigger] rows[j]).table
                != id by {
                assert(rows[j] == own[j - lo]);
                assert(v[n - 1].number != v[k].number);
            }
            zone_laws::lemma_zones_for_others(rows, lo, rows.len() as int, id);
        }
    }
}

/// The records of the first `n` tables give each of them the blocks that were
/// stored, and no other table any.
pub proof fn lemma_numbered_blocks_read_back(v: Seq<ZoneTable>, n: int, k: int)
    requires
        0 <= n <= v.len(),
        numbers_distinct(v),
        0 <= k < v.len(),
        forall|t: int| 0 <= t < n ==> numbered_ascend(#[trigger] v[t]),
    ensures
        ({
            let rows = numbered_block_rows(v, n);
            zone_maps::blocks_for(rows, rows.len() as int, v[k].number as int) == (if k < n {
                zone_laws::numbered_map(v[k].blocks, v[k].blocks.len() as int)
            } else {
                Map::empty()
            })
        }),
    decreases n,
{
    let rows = numbered_block_rows(v, n);
    if n > 0 {
        lemma_numbered_blocks_read_back(v, n - 1, k);
        let id = v[k].number as int;
        let a = numbered_block_rows(v, n - 1);
        let t = v[n - 1].number;
        let blocks = v[n - 1].blocks;
        let raw = zone_maps::block_rows_of_table(t, blocks, blocks.len() as int);
        let own = raw;
        assert(rows =~= a + own);
        zone_laws::lemma_zones_for_prefix(a, own, a.len() as int, id);
        let lo = a.len() as int;
        if k == n - 1 {
            assert(numbered_ascend(v[n - 1]));
            assert forall|i: int| 0 <= i < raw.len() implies #[trigger] rows[lo + i] == raw[i] by {
                assert(own[i] == raw[i]);
            }
            zone_laws::lemma_own_blocks(rows, lo, t, blocks, blocks.len() as int);
        } else {
            assert forall|j: int| lo <= j < rows.len() implies (#[trigger] rows[j]).table
                != id by {
                assert(rows[j] == own[j - lo]);
                zone_laws::lemma_block_rows_table(t, blocks, blocks.len() as int, j - lo);
                assert(v[n - 1].number != v[k].number);
            }
            zone_laws::lemma_zones_for_others(rows, lo, rows.len() as int, id);
        }
    }
}

proof fn lemma_numbered_rows_fit(v: Seq<ZoneTable>, n: int, index: Map<Seq<char>, u32>)
    requires
        0 <= n <= v.len(),
        forall|t: int|
            0 <= t < n ==> table_writable(#[trigger] v[t], index),
    ensures
        forall|i: int|
            0 <= i < numbered_zone_rows(v, n).len() ==> zone_maps::zone_row_fits(
                #[trigger] numbered_zone_rows(v, n)[i],
                index,
            ) && numbered_zone_rows(v, n)[i].block == TABLE_ZONE_BLOCK_SENTINEL
                && has_number(v, n, numbered_zone_rows(v, n)[i].table),
        forall|i: int|
            0 <= i < numbered_block_rows(v, n).len() ==> zone_maps::zone_row_fits(
                #[trigger] numbered_block_rows(v, n)[i],
                index,
            ) && has_number(v, n, numbered_block_rows(v, n)[i].table),
        forall|t: int, c: int|
            0 <= t < n && 0 <= c < v[t].blocks.len() ==> (#[trigger] v[t].blocks[c]).1.len()
                <= u32::MAX + 1,
        (forall|t: int, c: int|
            0 <= t < n && 0 <= c < v[t].blocks.len() ==> (#[trigger] v[t].blocks[c]).1.len()
                <= u32::MAX) ==> forall|i: int|
            0 <= i < numbered_block_rows(v, n).len() ==> (#[trigger] numbered_block_rows(v, n)[i]).block
                != TABLE_ZONE_BLOCK_SENTINEL,
    decreases n,
{
    if n > 0 {
        lemma_numbered_rows_fit(v, n - 1, index);
        let tv = v[n - 1];
        let t = tv.number;
        assert(table_writable(tv, index));
        faults::lemma_no_fault(tv.zones.len(), zone_maps::zone_pair_checks(tv.zones, index));
        faults::lemma_no_fault(tv.blocks.len(), zone_maps::block_pair_checks(tv.blocks, index));
        let own = zone_maps::zone_rows_of_table(t, tv.zones);
        let a = numbered_zone_rows(v, n - 1);
        assert forall|i: int| 0 <= i < numbered_zone_rows(v, n).len() implies zone_maps::zone_row_fits(
            #[trigger] numbered_zone_rows(v, n)[i],
            index,
        ) && numbered_zone_rows(v, n)[i].block == TABLE_ZONE_BLOCK_SENTINEL && has_number(
            v,
            n,
            numbered_zone_rows(v, n)[i].table,
        ) by {
            if i < a.len() {
                assert(numbered_zone_rows(v, n)[i] == a[i]);
                let k = choose|k: int| 0 <= k < n - 1 && (#[trigger] v[k]).number == a[i].table;
                assert(v[k].number == a[i].table);
            } else {
                let k = i - a.len();
                assert(numbered_zone_rows(v, n)[i] == own[k]);
                assert(zone_maps::zone_pair_checks(tv.zones, index)(k) is None);
                assert(v[n - 1].number == own[k].table);
            }
        }
        assert forall|c: int| 0 <= c < tv.blocks.len() implies (#[trigger] tv.blocks[c]).1.len()
            <= u32::MAX + 1 by {
            zone_laws::lemma_column_fits(tv.blocks, c, index);
        }
        assert forall|x: int, c: int| 0 <= x < n && 0 <= c < v[x].blocks.len() implies (
        #[trigger] v[x].blocks[c]).1.len() <= u32::MAX + 1 by {}
        let b = numbered_block_rows(v, n - 1);
        let raw = zone_maps::block_rows_of_table(t, tv.blocks, tv.blocks.len() as int);
        assert forall|i: int| 0 <= i < numbered_block_rows(v, n).len() implies zone_maps::zone_row_fits(
            #[trigger] numbered_block_rows(v, n)[i],
            index,
        ) && has_number(v, n, numbered_block_rows(v, n)[i].table) by {
            if i < b.len() {
                assert(numbered_block_rows(v, n)[i] == b[i]);
                let k = choose|k: int| 0 <= k < n - 1 && (#[trigger] v[k]).number == b[i].table;
                assert(v[k].number == b[i].table);
            } else {
                let x = i - b.len();
                assert(numbered_block_rows(v, n)[i] == raw[x]);
                zone_laws::lemma_block_rows_table(t, tv.blocks, tv.blocks.len() as int, x);
                assert(v[n - 1].number == raw[x].table);
                let (c, k) = choose|c: int, k: int|
                    #![trigger tv.blocks[c].1[k]]
                    0 <= c < tv.blocks.len() && 0 <= k < tv.blocks[c].1.len() && raw[x]
                        == (ZoneRow {
                        table: t,
                        key: tv.blocks[c].0,
                        block: k as u32,
                        zone: tv.blocks[c].1[k],
                    });
                zone_laws::lemma_column_fits(tv.blocks, c, index);
                assert(zone_maps::zone_fault(tv.blocks[c].1[k], index) is None);
            }
        }
        if forall|t: int, c: int|
            0 <= t < n && 0 <= c < v[t].blocks.len() ==> (#[trigger] v[t].blocks[c]).1.len()
                <= u32::MAX {
            assert forall|t: int, c: int|
                0 <= t < n - 1 && 0 <= c < v[t].blocks.len() implies (
            #[trigger] v[t].blocks[c]).1.len() <= u32::MAX by {}
            assert forall|i: int| 0 <= i < numbered_block_rows(v, n).len() implies (
            #[trigger] numbered_block_rows(v, n)[i]).block != TABLE_ZONE_BLOCK_SENTINEL by {
                if i < b.len() {
                    assert(numbered_block_rows(v, n)[i] == b[i]);
                } else {
                    let x = i - b.len();
                    assert(numbered_block_rows(v, n)[i] == raw[x]);
                    zone_laws::lemma_block_rows_table(t, tv.blocks, tv.blocks.len() as int, x);
                    let (c, k) = choose|c: int, k: int|
                        #![trigger tv.blocks[c].1[k]]
                        0 <= c < tv.blocks.len() && 0 <= k < tv.blocks[c].1.len() && raw[x]
                            == (ZoneRow {
                            table: t,
                            key: tv.blocks[c].0,
                            block: k as u32,
                            zone: tv.blocks[c].1[k],
                        });
                    assert(v[n - 1].blocks[c].1.len() <= u32::MAX);
                }
            }
        }
    }
}

/// No column of a relationship table has so many blocks that the last one would
/// bear the number of a table zone map.
pub open spec fn numbered_countable(v: Seq<ZoneTable>) -> bool {
    forall|t: int, c: int|
        0 <= t < v.len() && 0 <= c < v[t].blocks.len() ==> (#[trigger] v[t].blocks[c]).1.len()
            <= u32::MAX
}

/// The zone maps of all tables of a store that were written come back, table by
/// table and column by column.
pub proof fn lemma_all_zone_maps_round_trip(
    s: StoreView,
    index: Map<Seq<char>, u32>,
    dict: Seq<Seq<char>>,
)
    requires
        s.nodes.len() <= 0x8000,
        s.rels.len() <= 0x8000,
        forall|k: int|
            0 <= k < numbered_tables(s).len() ==> numbered_ascend(#[trigger] numbered_tables(s)[k]),
        numbered_countable(numbered_tables(s)),
        zone_maps::index_matches(index, dict),
        zone_maps::all_zones_write_fault(s, index) is None,
    ensures
        ({
            let nn = s.nodes.len();
            let nr = s.rels.len();
            let ts = zone_maps::zone_segment(zone_maps::all_zone_rows(s), index);
            let bs = zone_maps::zone_segment(zone_maps::all_block_rows(s), index);
            let tr = zone_maps::zone_rows_of(ts, dict);
            let br = zone_maps::zone_rows_of(bs, dict);
            &&& zone_maps::table_zones_fault(ts, dict, nn, nr) is None
            &&& zone_maps::block_zones_fault(bs, dict, nn, nr) is None
            &&& forall|t: int|
                0 <= t < nn ==> #[trigger] zone_maps::zones_for(tr, tr.len() as int, zone_maps::node_zone_id(t))
                    == zone_laws::stored_zone_map(s.nodes[t].zones)
            &&& forall|t: int|
                0 <= t < nn ==> zone_maps::all_block_zones(
                    #[trigger] zone_maps::blocks_for(br, br.len() as int, zone_maps::node_zone_id(t)),
                ) == zone_laws::stored_block_map(s.nodes[t].blocks)
            &&& forall|t: int|
                0 <= t < nr ==> #[trigger] zone_maps::zones_for(tr, tr.len() as int, zone_maps::rel_zone_id(t))
                    == zone_laws::stored_zone_map(s.rels[t].zones)
            &&& forall|t: int|
                0 <= t < nr ==> zone_maps::all_block_zones(
                    #[trigger] zone_maps::blocks_for(br, br.len() as int, zone_maps::rel_zone_id(t)),
                ) == zone_laws::stored_block_map(s.rels[t].blocks)
        }),
{
    let nn = s.nodes.len() as int;
    let nr = s.rels.len() as int;
    let v = numbered_tables(s);
    let n = v.len() as int;
    let ts = zone_maps::zone_segment(zone_maps::all_zone_rows(s), index);
    let bs = zone_maps::zone_segment(zone_maps::all_block_rows(s), index);
    let tr = zone_maps::zone_rows_of(ts, dict);
    let br = zone_maps::zone_rows_of(bs, dict);
    lemma_rel_rows(s, nr);
    lemma_numbers_distinct(s);
    faults::lemma_no_fault(s.nodes.len(), zone_maps::zones_write_checks(s.nodes, index));
    faults::lemma_no_fault(s.rels.len(), zone_maps::rel_zones_write_checks(s.rels, index));
    assert forall|k: int| 0 <= k < n implies table_writable(#[trigger] v[k], index) by {
        if k < nn {
            assert(zone_maps::zones_write_checks(s.nodes, index)(k) is None);
        } else {
            assert(zone_maps::rel_zones_write_checks(s.rels, index)(k - nn) is None);
        }
    }
    lemma_numbered_rows_fit(v, n, index);
    zone_maps::lemma_zone_segment_round_trip(zone_maps::all_zone_rows(s), index, dict);
    zone_maps::lemma_zone_segment_round_trip(zone_maps::all_block_rows(s), index, dict);
    assert(tr =~= numbered_zone_rows(v, n));
    assert(br =~= numbered_block_rows(v, n));
    let tc = zone_maps::table_zone_checks(tr, s.nodes.len(), s.rels.len());
    assert forall|i: int| 0 <= i < tr.len() implies (#[trigger] tc(i)) is None by {
        assert(tr[i] == numbered_zone_rows(v, n)[i]);
        lemma_number_in_range(s, tr[i].table);
    }
    faults::lemma_no_fault(tr.len(), tc);
    let bc = zone_maps::block_zone_checks(br, s.nodes.len(), s.rels.len());
    assert forall|i: int| 0 <= i < br.len() implies (#[trigger] bc(i)) is None by {
        assert(br[i] == numbered_block_rows(v, n)[i]);
        lemma_number_in_range(s, br[i].table);
    }
    faults::lemma_no_fault(br.len(), bc);
    assert forall|k: int| 0 <= k < n implies {
        &&& zone_maps::zones_for(tr, tr.len() as int, (#[trigger] v[k]).number as int) == zone_laws::stored_zone_map(
            v[k].zones,
        )
        &&& zone_maps::all_block_zones(zone_maps::blocks_for(br, br.len() as int, v[k].number as int))
            == zone_laws::stored_block_map(v[k].blocks)
        &&& zone_maps::blocks_numbered(zone_maps::blocks_for(br, br.len() as int, v[k].number as int))
    } by {
        lemma_numbered_zones_read_back(v, n, k);
        lemma_numbered_blocks_read_back(v, n, k);
        let blocks = v[k].blocks;
        assert(numbered_ascend(v[k]));
        assert forall|c: int| 0 <= c < blocks.len() implies (#[trigger] blocks[c]).1.len()
            <= u32::MAX + 1 by {
            assert(v[k].blocks[c].1.len() <= u32::MAX);
        }
        zone_laws::lemma_numbered_map_is_sound(blocks, blocks.len() as int);
        assert(blocks.take(blocks.len() as int) =~= blocks);
    }
    assert forall|t: int| 0 <= t < nn implies #[trigger] zone_maps::node_zone_id(t) == v[t].number by {}
    assert forall|t: int| 0 <= t < nr implies #[trigger] zone_maps::rel_zone_id(t) == v[nn + t].number by {
        lemma_rel_number(t);
    }
    let nc = zone_maps::staged_checks(zone_maps::node_blocks(br, s.nodes.len()));
    assert forall|t: int| 0 <= t < nn implies (#[trigger] nc(t)) is None by {
        assert(zone_maps::node_zone_id(t) == v[t].number);
    }
    faults::lemma_no_fault(s.nodes.len(), nc);
    let rc = zone_maps::staged_checks(zone_maps::rel_blocks(br, s.rels.len()));
    assert forall|t: int| 0 <= t < nr implies (#[trigger] rc(t)) is None by {
        assert(zone_maps::rel_zone_id(t) == v[nn + t].number);
    }
    faults::lemma_no_fault(s.rels.len(), rc);
    assert forall|t: int| 0 <= t < nn implies #[trigger] zone_maps::zones_for(
        tr,
        tr.len() as int,
        zone_maps::node_zone_id(t),
    ) == zone_laws::stored_zone_map(s.nodes[t].zones) by {
        assert(zone_maps::node_zone_id(t) == v[t].number);
    }
    assert forall|t: int| 0 <= t < nn implies zone_maps::all_block_zones(
        #[trigger] zone_maps::blocks_for(br, br.len() as int, zone_maps::node_zone_id(t)),
    ) == zone_laws::stored_block_map(s.nodes[t].blocks) by {
        assert(zone_maps::node_zone_id(t) == v[t].number);
    }
    assert forall|t: int| 0 <= t < nr implies #[trigger] zone_maps::zones_for(
        tr,
        tr.len() as int,
        zone_maps::rel_zone_id(t),
    ) == zone_laws::stored_zone_map(s.rels[t].zones) by {
        assert(zone_maps::rel_zone_id(t) == v[nn + t].number);
    }
    assert forall|t: int| 0 <= t < nr implies zone_maps::all_block_zones(
        #[trigger] zone_maps::blocks_for(br, br.len() as int, zone_maps::rel_zone_id(t)),
    ) == zone_laws::stored_block_map(s.rels[t].blocks) by {
        assert(zone_maps::rel_zone_id(t) == v[nn + t].number);
    }
}

proof fn lemma_number_in_range(s: StoreView, number: u16)
    requires
        s.nodes.len() <= 0x8000,
        s.rels.len() <= 0x8000,
        has_number(numbered_tables(s), numbered_tables(s).len() as int, number),
    ensures
        number < 0x8000 ==> number < s.nodes.len(),
        number >= 0x8000 ==> number - 0x8000 < s.rels.len(),
{
    let v = numbered_tables(s);
    let k = choose|k: int| 0 <= k < v.len() && (#[trigger] v[k]).number == number;
    if k >= s.nodes.len() {
        lemma_rel_number(k - s.nodes.len());
    }
}

} // verus!
