//! What zone map segments give back of what was written.

use crate::faults;
use crate::sorting;
use crate::tables::NodeTableView;
use crate::text::own;
use crate::text;
use crate::value::ZoneView;
use crate::wire;
use crate::zone_maps::{TABLE_ZONE_BLOCK_SENTINEL, ZoneRow};
use crate::zone_maps;
use crate::error::FormatError;
use vstd::prelude::*;

verus! {

broadcast use wire::group_wire;

/// The columns of some zone maps.
pub open spec fn zone_keys(zones: Seq<(Seq<char>, ZoneView)>) -> Seq<Seq<char>> {
    Seq::new(zones.len(), |i: int| zones[i].0)
}

/// The zone maps of a table by column.
pub open spec fn stored_zone_map(zones: Seq<(Seq<char>, ZoneView)>) -> Map<Seq<char>, ZoneView> {
    text::text_map_of(zone_keys(zones), Seq::new(zones.len(), |i: int| zones[i].1))
}

/// The columns of some block zone maps.
pub open spec fn block_zone_keys(blocks: Seq<(Seq<char>, Seq<ZoneView>)>) -> Seq<Seq<char>> {
    Seq::new(blocks.len(), |i: int| blocks[i].0)
}

/// The block zone maps of a table by column. A column without blocks leaves no trace.
pub open spec fn stored_block_map(blocks: Seq<(Seq<char>, Seq<ZoneView>)>) -> Map<
    Seq<char>,
    Seq<ZoneView>,
> {
    let keys = block_zone_keys(blocks);
    Map::new(
        |q: Seq<char>| keys.contains(q) && blocks[keys.index_of(q)].1.len() > 0,
        |q: Seq<char>| blocks[keys.index_of(q)].1,
    )
}

/// The zone maps of a table have ascending columns.
pub open spec fn zone_columns_ascend(t: NodeTableView) -> bool {
    text::texts_ascend(zone_keys(t.zones)) && text::texts_ascend(block_zone_keys(t.blocks))
}

/// What the first rows give does not depend on the rows behind them.
pub proof fn lemma_zones_for_prefix(a: Seq<ZoneRow>, b: Seq<ZoneRow>, n: int, id: int)
    requires
        0 <= n <= a.len(),
    ensures
        zone_maps::zones_for(a + b, n, id) == zone_maps::zones_for(a, n, id),
        zone_maps::blocks_for(a + b, n, id) == zone_maps::blocks_for(a, n, id),
    decreases n,
{
    if n > 0 {
        lemma_zones_for_prefix(a, b, n - 1, id);
        assert((a + b)[n - 1] == a[n - 1]);
    }
}

/// Rows of other tables give a table nothing.
pub proof fn lemma_zones_for_others(rows: Seq<ZoneRow>, lo: int, hi: int, id: int)
    requires
        0 <= lo <= hi <= rows.len(),
        forall|k: int| lo <= k < hi ==> (#[trigger] rows[k]).table != id,
    ensures
        zone_maps::zones_for(rows, hi, id) == zone_maps::zones_for(rows, lo, id),
        zone_maps::blocks_for(rows, hi, id) == zone_maps::blocks_for(rows, lo, id),
    decreases hi,
{
    if lo < hi {
        lemma_zones_for_others(rows, lo, hi - 1, id);
        assert(rows[hi - 1].table != id);
    }
}

proof fn lemma_text_map_push<V>(keys: Seq<Seq<char>>, vals: Seq<V>, key: Seq<char>, val: V)
    requires
        keys.len() == vals.len(),
        keys.push(key).no_duplicates(),
    ensures
        text::text_map_of(keys.push(key), vals.push(val)) == text::text_map_of(keys, vals).insert(key, val),
{
    let k2 = keys.push(key);
    let m = text::text_map_of(k2, vals.push(val));
    let w = text::text_map_of(keys, vals).insert(key, val);
    assert forall|q: Seq<char>| k2.contains(q) <==> keys.contains(q) || q == key by {
        if keys.contains(q) {
            let i = keys.index_of(q);
            assert(k2[i] == q);
        }
        assert(k2[keys.len() as int] == key);
        if k2.contains(q) {
            let i = k2.index_of(q);
            if i < keys.len() {
                assert(keys[i] == q);
            }
        }
    }
    assert forall|q: Seq<char>| k2.contains(q) implies #[trigger] m[q] == w[q] by {
        let i = k2.index_of(q);
        if q == key {
            assert(k2[keys.len() as int] == key);
        } else {
            let j = keys.index_of(q);
            assert(k2[j] == q);
            assert(i == j);
        }
    }
    assert(m =~= w);
}

proof fn lemma_ascend_no_duplicates(v: Seq<Seq<char>>)
    requires
        text::texts_ascend(v),
    ensures
        v.no_duplicates(),
{
    assert forall|i: int, j: int| 0 <= i < v.len() && 0 <= j < v.len() && i != j implies v[i]
        != v[j] by {
        if v[i] == v[j] {
            text::lemma_ascending_distinct(v, i, j);
        }
    }
}

/// The rows of a table give it its zone maps.
pub proof fn lemma_own_zones(
    rows: Seq<ZoneRow>,
    lo: int,
    t: u16,
    zones: Seq<(Seq<char>, ZoneView)>,
    k: int,
)
    requires
        text::texts_ascend(zone_keys(zones)),
        0 <= k <= zones.len(),
        lo >= 0,
        lo + zones.len() <= rows.len(),
        forall|i: int|
            0 <= i < zones.len() ==> #[trigger] rows[lo + i] == zone_maps::zone_rows_of_table(t, zones)[i],
        zone_maps::zones_for(rows, lo, t as int) == Map::<Seq<char>, ZoneView>::empty(),
    ensures
        zone_maps::zones_for(rows, lo + k, t as int) == stored_zone_map(zones.take(k)),
    decreases k,
{
    if k == 0 {
        assert(stored_zone_map(zones.take(0)) =~= Map::empty());
    } else {
        lemma_own_zones(rows, lo, t, zones, k - 1);
        assert(rows[lo + (k - 1)] == zone_maps::zone_rows_of_table(t, zones)[k - 1]);
        let p = zones.take(k - 1);
        let q = zones.take(k);
        let pv = Seq::new(p.len(), |i: int| p[i].1);
        let qv = Seq::new(q.len(), |i: int| q[i].1);
        let key = zones[k - 1].0;
        let val = zones[k - 1].1;
        assert(zone_keys(q) =~= zone_keys(p).push(key));
        assert(qv =~= pv.push(val));
        lemma_ascend_no_duplicates(zone_keys(zones));
        assert(zone_keys(q) =~= zone_keys(zones).take(k));
        lemma_text_map_push(zone_keys(p), pv, key, val);
    }
}

/// The records of the first `n` tables give each of them the zone maps that
/// were stored, and no other table any.
pub proof fn lemma_table_zones_read_back(v: Seq<NodeTableView>, n: int, id: int)
    requires
        0 <= n <= v.len(),
        n <= 0x8000,
        forall|t: int| 0 <= t < n ==> zone_columns_ascend(#[trigger] v[t]),
    ensures
        ({
            let rows = zone_maps::table_zone_rows(v, n);
            zone_maps::zones_for(rows, rows.len() as int, id) == (if 0 <= id < n {
                stored_zone_map(v[id].zones)
            } else {
                Map::empty()
            })
        }),
    decreases n,
{
    let rows = zone_maps::table_zone_rows(v, n);
    if n > 0 {
        lemma_table_zones_read_back(v, n - 1, id);
        let a = zone_maps::table_zone_rows(v, n - 1);
        let t = (n - 1) as u16;
        let zones = v[n - 1].zones;
        let own = zone_maps::zone_rows_of_table(t, zones);
        assert(rows =~= a + own);
        lemma_zones_for_prefix(a, own, a.len() as int, id);
        let lo = a.len() as int;
        if id == n - 1 {
            assert(zone_columns_ascend(v[n - 1]));
            assert forall|i: int| 0 <= i < zones.len() implies #[trigger] rows[lo + i]
                == zone_maps::zone_rows_of_table(t, zones)[i] by {
                assert(own[i] == zone_maps::zone_rows_of_table(t, zones)[i]);
            }
            lemma_own_zones(rows, lo, t, zones, zones.len() as int);
            assert(zones.take(zones.len() as int) =~= zones);
        } else {
            assert forall|k: int| lo <= k < rows.len() implies (#[trigger] rows[k]).table
                != id by {
                assert(rows[k] == own[k - lo]);
            }
            lemma_zones_for_others(rows, lo, rows.len() as int, id);
        }
    }
}

/// The numbered blocks of a column.
pub open spec fn numbered(zs: Seq<ZoneView>) -> Seq<(u32, ZoneView)> {
    Seq::new(zs.len(), |i: int| (i as u32, zs[i]))
}

/// The blocks of the first `n` columns by column.
pub open spec fn numbered_map(blocks: Seq<(Seq<char>, Seq<ZoneView>)>, n: int) -> Map<
    Seq<char>,
    Seq<(u32, ZoneView)>,
>
    decreases n,
{
    if n <= 0 {
        Map::empty()
    } else if blocks[n - 1].1.len() == 0 {
        numbered_map(blocks, n - 1)
    } else {
        numbered_map(blocks, n - 1).insert(blocks[n - 1].0, numbered(blocks[n - 1].1))
    }
}

proof fn lemma_numbered_map_keys(blocks: Seq<(Seq<char>, Seq<ZoneView>)>, n: int, q: Seq<char>)
    requires
        0 <= n <= blocks.len(),
        numbered_map(blocks, n).dom().contains(q),
    ensures
        exists|j: int| 0 <= j < n && (#[trigger] blocks[j]).0 == q,
    decreases n,
{
    if n > 0 {
        if q == blocks[n - 1].0 && blocks[n - 1].1.len() > 0 {
            assert(blocks[n - 1].0 == q);
        } else {
            lemma_numbered_map_keys(blocks, n - 1, q);
            let j = choose|j: int| 0 <= j < n - 1 && (#[trigger] blocks[j]).0 == q;
            assert(blocks[j].0 == q);
        }
    }
}

proof fn lemma_own_column(
    rows: Seq<ZoneRow>,
    lo: int,
    t: u16,
    key: Seq<char>,
    zs: Seq<ZoneView>,
    k: int,
    m: Map<Seq<char>, Seq<(u32, ZoneView)>>,
)
    requires
        0 <= k <= zs.len(),
        lo >= 0,
        lo + zs.len() <= rows.len(),
        forall|i: int|
            0 <= i < zs.len() ==> #[trigger] rows[lo + i] == zone_maps::block_rows_of_column(t, key, zs)[i],
        zone_maps::blocks_for(rows, lo, t as int) == m,
        !m.dom().contains(key),
    ensures
        zone_maps::blocks_for(rows, lo + k, t as int) == (if k == 0 {
            m
        } else {
            m.insert(key, numbered(zs).take(k))
        }),
    decreases k,
{
    if k > 0 {
        lemma_own_column(rows, lo, t, key, zs, k - 1, m);
        assert(rows[lo + (k - 1)] == zone_maps::block_rows_of_column(t, key, zs)[k - 1]);
        let nz = numbered(zs);
        assert(nz.take(k) =~= nz.take(k - 1).push(nz[k - 1]));
        if k == 1 {
            assert(nz.take(1) =~= Seq::<(u32, ZoneView)>::empty().push(nz[0]));
        } else {
            assert(m.insert(key, nz.take(k - 1)).insert(key, nz.take(k)) =~= m.insert(
                key,
                nz.take(k),
            ));
        }
    }
}

/// The rows of a table give it its blocks.
pub proof fn lemma_own_blocks(
    rows: Seq<ZoneRow>,
    lo: int,
    t: u16,
    blocks: Seq<(Seq<char>, Seq<ZoneView>)>,
    n: int,
)
    requires
        text::texts_ascend(block_zone_keys(blocks)),
        0 <= n <= blocks.len(),
        lo >= 0,
        lo + zone_maps::block_rows_of_table(t, blocks, n).len() <= rows.len(),
        forall|i: int|
            0 <= i < zone_maps::block_rows_of_table(t, blocks, n).len() ==> #[trigger] rows[lo + i]
                == zone_maps::block_rows_of_table(t, blocks, n)[i],
        zone_maps::blocks_for(rows, lo, t as int) == Map::<Seq<char>, Seq<(u32, ZoneView)>>::empty(),
    ensures
        zone_maps::blocks_for(rows, lo + zone_maps::block_rows_of_table(t, blocks, n).len(), t as int) == numbered_map(
            blocks,
            n,
        ),
    decreases n,
{
    if n > 0 {
        let a = zone_maps::block_rows_of_table(t, blocks, n - 1);
        let all = zone_maps::block_rows_of_table(t, blocks, n);
        let key = blocks[n - 1].0;
        let zs = blocks[n - 1].1;
        let own = zone_maps::block_rows_of_column(t, key, zs);
        assert forall|i: int| 0 <= i < a.len() implies #[trigger] rows[lo + i] == a[i] by {
            assert(all[i] == a[i]);
        }
        lemma_own_blocks(rows, lo, t, blocks, n - 1);
        let lo2 = lo + a.len();
        assert forall|i: int| 0 <= i < zs.len() implies #[trigger] rows[lo2 + i] == own[i] by {
            assert(all[a.len() + i] == own[i]);
            assert(rows[lo + (a.len() + i)] == all[a.len() + i]);
        }
        let m = numbered_map(blocks, n - 1);
        if m.dom().contains(key) {
            lemma_numbered_map_keys(blocks, n - 1, key);
            let j = choose|j: int| 0 <= j < n - 1 && (#[trigger] blocks[j]).0 == key;
            text::lemma_ascending_distinct(block_zone_keys(blocks), j, n - 1);
        }
        lemma_own_column(rows, lo2, t, key, zs, zs.len() as int, m);
        assert(numbered(zs).take(zs.len() as int) =~= numbered(zs));
    }
}

/// A row of a table bears its number and one of its blocks.
pub proof fn lemma_block_rows_table(t: u16, blocks: Seq<(Seq<char>, Seq<ZoneView>)>, n: int, i: int)
    requires
        0 <= n <= blocks.len(),
        0 <= i < zone_maps::block_rows_of_table(t, blocks, n).len(),
    ensures
        zone_maps::block_rows_of_table(t, blocks, n)[i].table == t,
        exists|c: int, k: int|
            #![trigger blocks[c].1[k]]
            0 <= c < n && 0 <= k < blocks[c].1.len() && zone_maps::block_rows_of_table(t, blocks, n)[i]
                == (ZoneRow { table: t, key: blocks[c].0, block: k as u32, zone: blocks[c].1[k] }),
    decreases n,
{
    let a = zone_maps::block_rows_of_table(t, blocks, n - 1);
    if i < a.len() {
        lemma_block_rows_table(t, blocks, n - 1, i);
        let (c, k) = choose|c: int, k: int|
            #![trigger blocks[c].1[k]]
            0 <= c < n - 1 && 0 <= k < blocks[c].1.len() && a[i] == (ZoneRow {
                table: t,
                key: blocks[c].0,
                block: k as u32,
                zone: blocks[c].1[k],
            });
        assert(blocks[c].1[k] == blocks[c].1[k]);
    } else {
        let k = i - a.len();
        assert(blocks[n - 1].1[k] == blocks[n - 1].1[k]);
    }
}

/// The records of the first `n` tables give each of them the blocks that were
/// stored, and no other table any.
pub proof fn lemma_block_zones_read_back(v: Seq<NodeTableView>, n: int, id: int)
    requires
        0 <= n <= v.len(),
        n <= 0x8000,
        forall|t: int| 0 <= t < n ==> zone_columns_ascend(#[trigger] v[t]),
    ensures
        ({
            let rows = zone_maps::block_zone_rows(v, n);
            zone_maps::blocks_for(rows, rows.len() as int, id) == (if 0 <= id < n {
                numbered_map(v[id].blocks, v[id].blocks.len() as int)
            } else {
                Map::empty()
            })
        }),
    decreases n,
{
    let rows = zone_maps::block_zone_rows(v, n);
    if n > 0 {
        lemma_block_zones_read_back(v, n - 1, id);
        let a = zone_maps::block_zone_rows(v, n - 1);
        let t = (n - 1) as u16;
        let blocks = v[n - 1].blocks;
        let raw = zone_maps::block_rows_of_table(t, blocks, blocks.len() as int);
        let own = raw;
        assert(rows =~= a + own);
        lemma_zones_for_prefix(a, own, a.len() as int, id);
        let lo = a.len() as int;
        if id == n - 1 {
            assert(zone_columns_ascend(v[n - 1]));
            assert forall|i: int| 0 <= i < raw.len() implies #[trigger] rows[lo + i] == raw[i] by {
                assert(own[i] == raw[i]);
            }
            lemma_own_blocks(rows, lo, t, blocks, blocks.len() as int);
        } else {
            assert forall|k: int| lo <= k < rows.len() implies (#[trigger] rows[k]).table
                != id by {
                assert(rows[k] == own[k - lo]);
                lemma_block_rows_table(t, blocks, blocks.len() as int, k - lo);
            }
            lemma_zones_for_others(rows, lo, rows.len() as int, id);
        }
    }
}

proof fn lemma_numbered_blocks(zs: Seq<ZoneView>, table: int)
    requires
        zs.len() <= u32::MAX + 1,
    ensures
        zone_maps::block_number_fault(numbered(zs), table) is None,
        zone_maps::block_zones(numbered(zs)) == zs,
{
    let p = numbered(zs);
    let keys = zone_maps::block_keys(p);
    assert forall|i: int, j: int| 0 <= i < j < keys.len() implies wire::lex_le(
        #[trigger] keys[i],
        #[trigger] keys[j],
    ) by {
        wire::lemma_be32_order(i as u32, j as u32);
    }
    sorting::lemma_sorted_stay(keys);
    assert(zone_maps::by_block(p) =~= p);
    assert forall|i: int| 0 <= i < p.len() implies (#[trigger] zone_maps::block_number_checks(p, table)(
        i,
    )) is None by {
        assert(zone_maps::by_block(p)[i].0 == i);
    }
    faults::lemma_no_fault(p.len(), zone_maps::block_number_checks(p, table));
    assert(zone_maps::block_zones(p) =~= zs);
}

/// Blocks numbered in order are those that were numbered.
pub proof fn lemma_numbered_map_is_sound(blocks: Seq<(Seq<char>, Seq<ZoneView>)>, n: int)
    requires
        0 <= n <= blocks.len(),
        text::texts_ascend(block_zone_keys(blocks)),
        forall|c: int| 0 <= c < n ==> (#[trigger] blocks[c]).1.len() <= u32::MAX + 1,
    ensures
        zone_maps::blocks_numbered(numbered_map(blocks, n)),
        zone_maps::all_block_zones(numbered_map(blocks, n)) == stored_block_map(blocks.take(n)),
    decreases n,
{
    let m = numbered_map(blocks, n);
    let keys = block_zone_keys(blocks.take(n));
    lemma_ascend_no_duplicates(block_zone_keys(blocks));
    assert(keys =~= block_zone_keys(blocks).take(n));
    if n == 0 {
        assert(zone_maps::all_block_zones(m) =~= stored_block_map(blocks.take(0)));
    } else {
        lemma_numbered_map_is_sound(blocks, n - 1);
        let m1 = numbered_map(blocks, n - 1);
        let key = blocks[n - 1].0;
        let zs = blocks[n - 1].1;
        lemma_numbered_blocks(zs, 0);
        let k1 = block_zone_keys(blocks.take(n - 1));
        assert(keys =~= k1.push(key));
        assert forall|q: Seq<char>| m.dom().contains(q) implies zone_maps::block_number_fault(
            #[trigger] m[q],
            0,
        ) is None by {
            if !(q == key && zs.len() > 0) {
                assert(m1.dom().contains(q));
                assert(zone_maps::block_number_fault(m1[q], 0) is None);
            }
        }
        let want = stored_block_map(blocks.take(n));
        let got = zone_maps::all_block_zones(m);
        let before = stored_block_map(blocks.take(n - 1));
        assert forall|q: Seq<char>| keys.contains(q) <==> k1.contains(q) || q == key by {
            if k1.contains(q) {
                assert(keys[k1.index_of(q)] == q);
            }
            assert(keys[n - 1] == key);
            if keys.contains(q) && q != key {
                assert(k1[keys.index_of(q)] == q);
            }
        }
        assert(keys.index_of(key) == n - 1) by {
            assert(keys[n - 1] == key);
            assert(keys.contains(key));
        }
        assert forall|q: Seq<char>| k1.contains(q) implies keys.index_of(q) == k1.index_of(q)
            && q != key by {
            assert(keys[k1.index_of(q)] == q);
            assert(keys.contains(q));
        }
        assert(!m1.dom().contains(key)) by {
            if m1.dom().contains(key) {
                lemma_numbered_map_keys(blocks, n - 1, key);
                let j = choose|j: int| 0 <= j < n - 1 && (#[trigger] blocks[j]).0 == key;
                assert(k1[j] == key);
                assert(k1.contains(key));
            }
        }
        assert(zone_maps::all_block_zones(m1) == before);
        assert forall|q: Seq<char>| got.dom().contains(q) <==> want.dom().contains(q) by {
            assert(m1.dom().contains(q) <==> before.dom().contains(q)) by {
                assert(zone_maps::all_block_zones(m1).dom().contains(q) <==> m1.dom().contains(q));
            }
        }
        assert forall|q: Seq<char>| got.dom().contains(q) implies #[trigger] got[q] == want[q] by {
            if q != key {
                assert(m1.dom().contains(q));
                assert(before.dom().contains(q));
                assert(zone_maps::all_block_zones(m1)[q] == before[q]);
            }
        }
        assert(got =~= want);
    }
}

proof fn lemma_rows_fit(v: Seq<NodeTableView>, n: int, index: Map<Seq<char>, u32>)
    requires
        0 <= n <= v.len(),
        n <= 0x8000,
        forall|t: int|
            0 <= t < n ==> zone_maps::table_zones_write_fault(#[trigger] v[t], index) is None,
    ensures
        forall|i: int|
            0 <= i < zone_maps::table_zone_rows(v, n).len() ==> zone_maps::zone_row_fits(
                #[trigger] zone_maps::table_zone_rows(v, n)[i],
                index,
            ) && zone_maps::table_zone_rows(v, n)[i].block == TABLE_ZONE_BLOCK_SENTINEL
                && zone_maps::table_zone_rows(v, n)[i].table < n,
        forall|i: int|
            0 <= i < zone_maps::block_zone_rows(v, n).len() ==> zone_maps::zone_row_fits(
                #[trigger] zone_maps::block_zone_rows(v, n)[i],
                index,
            ) && zone_maps::block_zone_rows(v, n)[i].table < n,
        forall|t: int, c: int|
            0 <= t < n && 0 <= c < v[t].blocks.len() ==> (#[trigger] v[t].blocks[c]).1.len()
                <= u32::MAX + 1,
        (forall|t: int, c: int|
            0 <= t < n && 0 <= c < v[t].blocks.len() ==> (#[trigger] v[t].blocks[c]).1.len()
                <= u32::MAX) ==> forall|i: int|
            0 <= i < zone_maps::block_zone_rows(v, n).len() ==> (#[trigger] zone_maps::block_zone_rows(v, n)[i]).block
                != TABLE_ZONE_BLOCK_SENTINEL,
    decreases n,
{
    if n > 0 {
        lemma_rows_fit(v, n - 1, index);
        let tv = v[n - 1];
        let t = (n - 1) as u16;
        assert(zone_maps::table_zones_write_fault(tv, index) is None);
        faults::lemma_no_fault(tv.zones.len(), zone_maps::zone_pair_checks(tv.zones, index));
        faults::lemma_no_fault(tv.blocks.len(), zone_maps::block_pair_checks(tv.blocks, index));
        let own = zone_maps::zone_rows_of_table(t, tv.zones);
        let a = zone_maps::table_zone_rows(v, n - 1);
        assert forall|i: int| 0 <= i < zone_maps::table_zone_rows(v, n).len() implies zone_maps::zone_row_fits(
            #[trigger] zone_maps::table_zone_rows(v, n)[i],
            index,
        ) && zone_maps::table_zone_rows(v, n)[i].block == TABLE_ZONE_BLOCK_SENTINEL && zone_maps::table_zone_rows(
            v,
            n,
        )[i].table < n by {
            if i < a.len() {
                assert(zone_maps::table_zone_rows(v, n)[i] == a[i]);
            } else {
                let k = i - a.len();
                assert(zone_maps::table_zone_rows(v, n)[i] == own[k]);
                assert(zone_maps::zone_pair_checks(tv.zones, index)(k) is None);
            }
        }
        assert forall|c: int| 0 <= c < tv.blocks.len() implies (#[trigger] tv.blocks[c]).1.len()
            <= u32::MAX + 1 by {
            lemma_column_fits(tv.blocks, c, index);
        }
        assert forall|x: int, c: int| 0 <= x < n && 0 <= c < v[x].blocks.len() implies (
        #[trigger] v[x].blocks[c]).1.len() <= u32::MAX + 1 by {}
        let b = zone_maps::block_zone_rows(v, n - 1);
        let raw = zone_maps::block_rows_of_table(t, tv.blocks, tv.blocks.len() as int);
        assert forall|i: int| 0 <= i < zone_maps::block_zone_rows(v, n).len() implies zone_maps::zone_row_fits(
            #[trigger] zone_maps::block_zone_rows(v, n)[i],
            index,
        ) && zone_maps::block_zone_rows(v, n)[i].table < n by {
            if i < b.len() {
                assert(zone_maps::block_zone_rows(v, n)[i] == b[i]);
            } else {
                let x = i - b.len();
                assert(zone_maps::block_zone_rows(v, n)[i] == raw[x]);
                lemma_block_rows_table(t, tv.blocks, tv.blocks.len() as int, x);
                let (c, k) = choose|c: int, k: int|
                    #![trigger tv.blocks[c].1[k]]
                    0 <= c < tv.blocks.len() && 0 <= k < tv.blocks[c].1.len() && raw[x]
                        == (ZoneRow {
                        table: t,
                        key: tv.blocks[c].0,
                        block: k as u32,
                        zone: tv.blocks[c].1[k],
                    });
                lemma_column_fits(tv.blocks, c, index);
                assert(zone_maps::zone_fault(tv.blocks[c].1[k], index) is None);
            }
        }
        if forall|t: int, c: int|
            0 <= t < n && 0 <= c < v[t].blocks.len() ==> (#[trigger] v[t].blocks[c]).1.len()
                <= u32::MAX {
            assert forall|t: int, c: int|
                0 <= t < n - 1 && 0 <= c < v[t].blocks.len() implies (
            #[trigger] v[t].blocks[c]).1.len() <= u32::MAX by {}
            assert forall|i: int| 0 <= i < zone_maps::block_zone_rows(v, n).len() implies (
            #[trigger] zone_maps::block_zone_rows(v, n)[i]).block != TABLE_ZONE_BLOCK_SENTINEL by {
                if i < b.len() {
                    assert(zone_maps::block_zone_rows(v, n)[i] == b[i]);
                } else {
                    let x = i - b.len();
                    assert(zone_maps::block_zone_rows(v, n)[i] == raw[x]);
                    lemma_block_rows_table(t, tv.blocks, tv.blocks.len() as int, x);
                    let (c, k) = choose|c: int, k: int|
                        #![trigger tv.blocks[c].1[k]]
                        0 <= c < tv.blocks.len() && 0 <= k < tv.blocks[c].1.len() && raw[x]
                            == (ZoneRow {
                            table: t,
                            key: tv.blocks[c].0,
                            block: k as u32,
                            zone: tv.blocks[c].1[k],
                        });
                    assert(v[n - 1].blocks[c].1.len() <= u32::MAX);
                }
            }
        }
    }
}

/// The blocks of a column that can be written fit their fields.
pub proof fn lemma_column_fits(
    blocks: Seq<(Seq<char>, Seq<ZoneView>)>,
    c: int,
    index: Map<Seq<char>, u32>,
)
    requires
        0 <= c < blocks.len(),
        faults::first_fault(blocks.len(), zone_maps::block_pair_checks(blocks, index)) is None,
    ensures
        index.dom().contains(blocks[c].0),
        blocks[c].1.len() <= u32::MAX + 1,
        forall|k: int|
            0 <= k < blocks[c].1.len() ==> zone_maps::zone_fault(#[trigger] blocks[c].1[k], index) is None,
{
    faults::lemma_no_fault(blocks.len(), zone_maps::block_pair_checks(blocks, index));
    assert(zone_maps::block_pair_checks(blocks, index)(c) is None);
    let zs = blocks[c].1;
    let checks = zone_maps::block_checks(zs, index);
    faults::lemma_no_fault(zs.len(), checks);
    if zs.len() > u32::MAX + 1 {
        assert(checks(u32::MAX + 1) is Some);
    }
    assert forall|k: int| 0 <= k < zs.len() implies zone_maps::zone_fault(#[trigger] zs[k], index) is None by {
        assert(checks(k) is None);
    }
}

/// No column has so many blocks that the last one would bear the number of a
/// table zone map.
pub open spec fn blocks_countable(v: Seq<NodeTableView>) -> bool {
    forall|t: int, c: int|
        0 <= t < v.len() && 0 <= c < v[t].blocks.len() ==> (#[trigger] v[t].blocks[c]).1.len()
            <= u32::MAX
}

/// Zone maps that were written come back, table by table and column by
/// column: bounds of a type that records do not hold come back as absent, and
/// columns without blocks are not mentioned.
pub proof fn lemma_zone_maps_round_trip(
    v: Seq<NodeTableView>,
    rels: nat,
    index: Map<Seq<char>, u32>,
    dict: Seq<Seq<char>>,
)
    requires
        v.len() <= 0x8000,
        forall|t: int| 0 <= t < v.len() ==> zone_columns_ascend(#[trigger] v[t]),
        blocks_countable(v),
        zone_maps::index_matches(index, dict),
        zone_maps::zones_write_fault(v, index) is None,
    ensures
        ({
            let n = v.len() as int;
            let ts = zone_maps::zone_segment(zone_maps::table_zone_rows(v, n), index);
            let bs = zone_maps::zone_segment(zone_maps::block_zone_rows(v, n), index);
            let tr = zone_maps::zone_rows_of(ts, dict);
            let br = zone_maps::zone_rows_of(bs, dict);
            &&& zone_maps::table_zones_fault(ts, dict, v.len(), rels) is None
            &&& zone_maps::block_zones_fault(bs, dict, v.len(), rels) is None
            &&& forall|t: int|
                0 <= t < n ==> #[trigger] zone_maps::zones_for(tr, tr.len() as int, zone_maps::node_zone_id(t))
                    == stored_zone_map(v[t].zones)
            &&& forall|t: int|
                0 <= t < n ==> zone_maps::all_block_zones(
                    #[trigger] zone_maps::blocks_for(br, br.len() as int, zone_maps::node_zone_id(t)),
                ) == stored_block_map(v[t].blocks)
            &&& forall|t: int|
                0 <= t < rels ==> #[trigger] zone_maps::zones_for(tr, tr.len() as int, zone_maps::rel_zone_id(t))
                    == Map::<Seq<char>, ZoneView>::empty()
            &&& forall|t: int|
                0 <= t < rels ==> #[trigger] zone_maps::blocks_for(br, br.len() as int, zone_maps::rel_zone_id(t))
                    == Map::<Seq<char>, Seq<(u32, ZoneView)>>::empty()
        }),
{
    let n = v.len() as int;
    let ts = zone_maps::zone_segment(zone_maps::table_zone_rows(v, n), index);
    let bs = zone_maps::zone_segment(zone_maps::block_zone_rows(v, n), index);
    let tr = zone_maps::zone_rows_of(ts, dict);
    let br = zone_maps::zone_rows_of(bs, dict);
    faults::lemma_no_fault(v.len(), zone_maps::zones_write_checks(v, index));
    assert forall|t: int| 0 <= t < n implies zone_maps::table_zones_write_fault(
        #[trigger] v[t],
        index,
    ) is None by {
        assert(zone_maps::zones_write_checks(v, index)(t) is None);
    }
    lemma_rows_fit(v, n, index);
    zone_maps::lemma_zone_segment_round_trip(zone_maps::table_zone_rows(v, n), index, dict);
    zone_maps::lemma_zone_segment_round_trip(zone_maps::block_zone_rows(v, n), index, dict);
    assert(tr =~= zone_maps::table_zone_rows(v, n));
    assert(br =~= zone_maps::block_zone_rows(v, n));
    let tc = zone_maps::table_zone_checks(tr, v.len(), rels);
    assert forall|i: int| 0 <= i < tr.len() implies (#[trigger] tc(i)) is None by {
        assert(tr[i] == zone_maps::table_zone_rows(v, n)[i]);
    }
    faults::lemma_no_fault(tr.len(), tc);
    let bc = zone_maps::block_zone_checks(br, v.len(), rels);
    assert forall|i: int| 0 <= i < br.len() implies (#[trigger] bc(i)) is None by {
        assert(br[i] == zone_maps::block_zone_rows(v, n)[i]);
    }
    faults::lemma_no_fault(br.len(), bc);
    assert forall|t: int| 0 <= t < n implies #[trigger] zone_maps::zones_for(
        tr,
        tr.len() as int,
        zone_maps::node_zone_id(t),
    ) == stored_zone_map(v[t].zones) by {
        lemma_table_zones_read_back(v, n, t);
    }
    assert forall|t: int| 0 <= t < n implies {
        &&& zone_maps::all_block_zones(#[trigger] zone_maps::blocks_for(br, br.len() as int, zone_maps::node_zone_id(t)))
            == stored_block_map(v[t].blocks)
        &&& zone_maps::blocks_numbered(zone_maps::blocks_for(br, br.len() as int, zone_maps::node_zone_id(t)))
    } by {
        lemma_block_zones_read_back(v, n, t);
        let blocks = v[t].blocks;
        assert(zone_columns_ascend(v[t]));
        assert forall|c: int| 0 <= c < blocks.len() implies (#[trigger] blocks[c]).1.len()
            <= u32::MAX + 1 by {
            assert(v[t].blocks[c].1.len() <= u32::MAX);
        }
        lemma_numbered_map_is_sound(blocks, blocks.len() as int);
        assert(blocks.take(blocks.len() as int) =~= blocks);
    }
    assert forall|t: int| 0 <= t < rels implies #[trigger] zone_maps::zones_for(
        tr,
        tr.len() as int,
        zone_maps::rel_zone_id(t),
    ) == Map::<Seq<char>, ZoneView>::empty() by {
        lemma_table_zones_read_back(v, n, zone_maps::rel_zone_id(t));
    }
    assert forall|t: int| 0 <= t < rels implies #[trigger] zone_maps::blocks_for(
        br,
        br.len() as int,
        zone_maps::rel_zone_id(t),
    ) == Map::<Seq<char>, Seq<(u32, ZoneView)>>::empty() by {
        lemma_block_zones_read_back(v, n, zone_maps::rel_zone_id(t));
    }
    let nc = zone_maps::staged_checks(zone_maps::node_blocks(br, v.len()));
    assert forall|t: int| 0 <= t < n implies (#[trigger] nc(t)) is None by {
        assert(zone_maps::blocks_numbered(zone_maps::blocks_for(br, br.len() as int, zone_maps::node_zone_id(t))));
    }
    faults::lemma_no_fault(v.len(), nc);
    let rc = zone_maps::staged_checks(zone_maps::rel_blocks(br, rels));
    assert forall|t: int| 0 <= t < rels implies (#[trigger] rc(t)) is None by {
        assert(zone_maps::blocks_for(br, br.len() as int, zone_maps::rel_zone_id(t)) == Map::<
            Seq<char>,
            Seq<(u32, ZoneView)>,
        >::empty());
    }
    faults::lemma_no_fault(rels, rc);
}

} // verus!
