//! The dictionary of a payload: every text once, in first-seen or in
//! byte-lexicographic order.

use crate::code_index;
use crate::sorting::sort_keys;
use crate::sorting;
use crate::tables::{ColumnCodec, ColumnView, CompactStore, NodeTable, NodeTableView, RelTable, RelTableView, StoreView};
use crate::tables;
use crate::text::{TextMap, own};
use crate::text;
use crate::value::{Value, ValueView, ZoneMap, ZoneView};
use crate::value;
use crate::zone_maps;
use vstd::prelude::*;
use vstd::relations::*;
use vstd::string::*;

verus! {

/// How codes are assigned to texts.
#[derive(Debug, Clone, Copy, PartialEq, Eq, Structural)]
pub enum StringCodeOrder {
    /// First seen, first numbered.
    Insertion,
    /// By UTF-8 bytes.
    Lexicographic,
}

impl Default for StringCodeOrder {
    fn default() -> (r: Self)
        ensures
            r == StringCodeOrder::Insertion,
    {
        StringCodeOrder::Insertion
    }
}

/// The texts `dict` and behind them the new ones of `list`, first seen first.
pub open spec fn gather(dict: Seq<Seq<char>>, list: Seq<Seq<char>>) -> Seq<Seq<char>>
    decreases list.len(),
{
    if list.len() == 0 {
        dict
    } else {
        let d = gather(dict, list.drop_last());
        if d.contains(list.last()) {
            d
        } else {
            d.push(list.last())
        }
    }
}

/// Gathering two lists one after the other gathers their concatenation.
pub proof fn lemma_gather_add(dict: Seq<Seq<char>>, a: Seq<Seq<char>>, b: Seq<Seq<char>>)
    ensures
        gather(gather(dict, a), b) == gather(dict, a + b),
    decreases b.len(),
{
    if b.len() == 0 {
        assert(a + b =~= a);
    } else {
        lemma_gather_add(dict, a, b.drop_last());
        assert((a + b).drop_last() =~= a + b.drop_last());
        assert((a + b).last() == b.last());
    }
}

/// What was gathered has no text twice, starts as before, and holds the old
/// texts and the listed ones, and no others.
pub proof fn lemma_gather(dict: Seq<Seq<char>>, list: Seq<Seq<char>>)
    requires
        dict.no_duplicates(),
    ensures
        gather(dict, list).no_duplicates(),
        dict.len() <= gather(dict, list).len() <= dict.len() + list.len(),
        gather(dict, list).take(dict.len() as int) == dict,
        forall|s: Seq<char>| #[trigger]
            gather(dict, list).contains(s) <==> dict.contains(s) || list.contains(s),
    decreases list.len(),
{
    let g = gather(dict, list);
    if list.len() == 0 {
        assert(dict.take(dict.len() as int) =~= dict);
    } else {
        let w = list.drop_last();
        let d = gather(dict, w);
        lemma_gather(dict, w);
        assert(list =~= w.push(list.last()));
        if d.contains(list.last()) {
        } else {
            assert(g.take(dict.len() as int) =~= d.take(dict.len() as int));
        }
        assert forall|s: Seq<char>| #[trigger] g.contains(s) <==> dict.contains(s)
            || list.contains(s) by {
            assert(list.contains(s) <==> w.contains(s) || s == list.last()) by {
                if list.contains(s) {
                    let i = list.index_of(s);
                    if i < w.len() {
                        assert(w[i] == s);
                    }
                }
                if w.contains(s) {
                    let i = w.index_of(s);
                    assert(list[i] == s);
                }
                if s == list.last() {
                    assert(list[list.len() - 1] == s);
                }
            }
            assert(d.contains(s) <==> dict.contains(s) || w.contains(s));
            if !d.contains(list.last()) {
                assert(g == d.push(list.last()));
                if d.contains(s) {
                    let i = d.index_of(s);
                    assert(g[i] == s);
                }
                if s == list.last() {
                    assert(g[d.len() as int] == s);
                }
                if g.contains(s) {
                    let i = g.index_of(s);
                    if i < d.len() {
                        assert(d[i] == s);
                    }
                }
            }
        }
    }
}

/// The texts of a zone map.
pub open spec fn zone_texts(z: ZoneView) -> Seq<Seq<char>> {
    (match z.min {
        Some(ValueView::Text(s)) => seq![s],
        _ => Seq::empty(),
    }) + (match z.max {
        Some(ValueView::Text(s)) => seq![s],
        _ => Seq::empty(),
    })
}

/// The keys of the first `n` columns.
pub open spec fn key_texts(columns: Seq<(Seq<char>, ColumnView)>) -> Seq<Seq<char>> {
    Seq::new(columns.len(), |i: int| columns[i].0)
}

/// The distinct texts of a column.
pub open spec fn column_texts(c: ColumnView) -> Seq<Seq<char>> {
    match c {
        ColumnView::Dict { entries, .. } => entries,
        ColumnView::Flat { .. } => Seq::empty(),
    }
}

/// The distinct texts of the first `n` columns.
pub open spec fn entry_texts(columns: Seq<(Seq<char>, ColumnView)>, n: int) -> Seq<Seq<char>>
    decreases n,
{
    if n <= 0 {
        Seq::empty()
    } else {
        entry_texts(columns, n - 1) + column_texts(columns[n - 1].1)
    }
}

/// The texts of the first `n` zone maps of a row.
pub open spec fn zone_row_texts(v: Seq<ZoneView>, n: int) -> Seq<Seq<char>>
    decreases n,
{
    if n <= 0 {
        Seq::empty()
    } else {
        zone_row_texts(v, n - 1) + zone_texts(v[n - 1])
    }
}

/// The texts of the first `n` table zone maps.
pub open spec fn table_zone_texts(v: Seq<(Seq<char>, ZoneView)>, n: int) -> Seq<Seq<char>>
    decreases n,
{
    if n <= 0 {
        Seq::empty()
    } else {
        table_zone_texts(v, n - 1) + zone_texts(v[n - 1].1)
    }
}

/// The texts of the block zone maps of the first `n` columns.
pub open spec fn block_zone_texts(v: Seq<(Seq<char>, Seq<ZoneView>)>, n: int) -> Seq<Seq<char>>
    decreases n,
{
    if n <= 0 {
        Seq::empty()
    } else {
        block_zone_texts(v, n - 1) + zone_row_texts(v[n - 1].1, v[n - 1].1.len() as int)
    }
}

/// The texts of a table: its name, its keys, the texts of its columns and
/// those of its zone maps.
pub open spec fn table_texts(
    name: Seq<char>,
    columns: Seq<(Seq<char>, ColumnView)>,
    zones: Seq<(Seq<char>, ZoneView)>,
    blocks: Seq<(Seq<char>, Seq<ZoneView>)>,
) -> Seq<Seq<char>> {
    seq![name] + key_texts(columns) + entry_texts(columns, columns.len() as int)
        + table_zone_texts(zones, zones.len() as int) + block_zone_texts(
        blocks,
        blocks.len() as int,
    )
}

/// The texts of a node table.
pub open spec fn node_table_texts(t: NodeTableView) -> Seq<Seq<char>> {
    table_texts(t.label, t.columns, t.zones, t.blocks)
}

/// The texts of a relationship table.
pub open spec fn rel_table_texts(t: RelTableView) -> Seq<Seq<char>> {
    table_texts(t.edge_type, t.columns, t.zones, t.blocks)
}

/// The texts of the first `n` node tables.
pub open spec fn node_texts(v: Seq<NodeTableView>, n: int) -> Seq<Seq<char>>
    decreases n,
{
    if n <= 0 {
        Seq::empty()
    } else {
        node_texts(v, n - 1) + node_table_texts(v[n - 1])
    }
}

/// The texts of the first `n` relationship tables.
pub open spec fn rel_texts(v: Seq<RelTableView>, n: int) -> Seq<Seq<char>>
    decreases n,
{
    if n <= 0 {
        Seq::empty()
    } else {
        rel_texts(v, n - 1) + rel_table_texts(v[n - 1])
    }
}

/// All texts of a store in the order in which they are met.
pub open spec fn store_texts(s: StoreView) -> Seq<Seq<char>> {
    node_texts(s.nodes, s.nodes.len() as int) + rel_texts(s.rels, s.rels.len() as int)
}

/// Some texts by their UTF-8 bytes.
pub open spec fn by_bytes(d: Seq<Seq<char>>) -> Seq<Seq<char>> {
    Seq::new(d.len(), |i: int| d[sorting::stable_order(code_index::text_keys(d))[i]])
}

/// The dictionary of some texts.
pub open spec fn dictionary(list: Seq<Seq<char>>, order: StringCodeOrder) -> Seq<Seq<char>> {
    let d = gather(Seq::empty(), list);
    match order {
        StringCodeOrder::Insertion => d,
        StringCodeOrder::Lexicographic => by_bytes(d),
    }
}

/// The code of every text of a dictionary.
pub open spec fn codes_of_texts(d: Seq<Seq<char>>) -> Map<Seq<char>, u32> {
    Map::new(|s: Seq<char>| d.contains(s), |s: Seq<char>| d.index_of(s) as u32)
}

/// Texts met so far, each once.
pub struct TextCollector {
    strings: Vec<String>,
    seen: TextMap<bool>,
}

impl View for TextCollector {
    type V = Seq<Seq<char>>;

    closed spec fn view(&self) -> Seq<Seq<char>> {
        text::texts(self.strings@)
    }
}

impl TextCollector {
    #[verifier::type_invariant]
    spec fn inv(&self) -> bool {
        forall|s: Seq<char>|
            text::texts(self.strings@).contains(s) <==> #[trigger] self.seen@.dom().contains(s)
    }

    /// No texts.
    pub fn new() -> (r: Self)
        ensures
            r@ == Seq::<Seq<char>>::empty(),
    {
        let r = TextCollector { strings: Vec::new(), seen: TextMap::new() };
        assert(r@ =~= Seq::<Seq<char>>::empty());
        r
    }

    /// Adds a text unless it is there.
    pub fn intern(&mut self, s: &str)
        ensures
            final(self)@ == gather(old(self)@, seq![s@]),
    {
        proof {
            use_type_invariant(&*self);
            let g = gather(self@, seq![s@]);
            assert(seq![s@].drop_last() =~= Seq::<Seq<char>>::empty());
            assert(gather(self@, Seq::<Seq<char>>::empty()) == self@);
        }
        if self.seen.get(s).is_some() {
            return;
        }
        let ghost before = self@;
        let mut taken = TextCollector { strings: Vec::new(), seen: TextMap::new() };
        std::mem::swap(&mut taken, self);
        let TextCollector { mut strings, mut seen } = taken;
        strings.push(own(s));
        seen.insert(s, true);
        proof {
            let now = text::texts(strings@);
            assert(now =~= before.push(s@));
            assert forall|q: Seq<char>| now.contains(q) <==> #[trigger] seen@.dom().contains(q) by {
                if before.contains(q) {
                    let i = before.index_of(q);
                    assert(now[i] == q);
                }
                if now.contains(q) {
                    let i = now.index_of(q);
                    if i < before.len() {
                        assert(before[i] == q);
                    }
                }
                assert(now[before.len() as int] == s@);
            }
        }
        *self = TextCollector { strings, seen };
    }

    /// The texts in first-seen order.
    pub fn finish(self) -> (r: Vec<String>)
        ensures
            text::texts(r@) == self@,
    {
        self.strings
    }

    /// Adds a row of texts.
    pub fn intern_all(&mut self, v: &Vec<String>)
        ensures
            final(self)@ == gather(old(self)@, text::texts(v@)),
    {
        let ghost tv = text::texts(v@);
        let mut i: usize = 0;
        assert(tv.take(0) =~= Seq::empty());
        while i < v.len()
            invariant
                i <= v@.len(),
                tv == text::texts(v@),
                self@ == gather(old(self)@, tv.take(i as int)),
            decreases v@.len() - i,
        {
            self.intern(v[i].as_str());
            proof {
                lemma_gather_add(old(self)@, tv.take(i as int), seq![tv[i as int]]);
                assert(tv.take(i as int) + seq![tv[i as int]] =~= tv.take(i + 1));
            }
            i = i + 1;
        }
        assert(tv.take(i as int) =~= tv);
    }

    fn intern_bound(&mut self, v: &Option<Value>)
        ensures
            final(self)@ == gather(
                old(self)@,
                match value::optional_view(*v) {
                    Some(ValueView::Text(s)) => seq![s],
                    _ => Seq::empty(),
                },
            ),
    {
        match v {
            Some(Value::String(s)) => {
                self.intern(s.as_str());
            },
            _ => {},
        }
    }

    /// Adds the texts of a zone map.
    pub fn intern_zone_strings(&mut self, zm: &ZoneMap)
        ensures
            final(self)@ == gather(old(self)@, zone_texts(zm@)),
    {
        self.intern_bound(&zm.min);
        self.intern_bound(&zm.max);
        proof {
            lemma_gather_add(
                old(self)@,
                match value::optional_view(zm.min) {
                    Some(ValueView::Text(s)) => seq![s],
                    _ => Seq::empty(),
                },
                match value::optional_view(zm.max) {
                    Some(ValueView::Text(s)) => seq![s],
                    _ => Seq::empty(),
                },
            );
        }
    }

    fn intern_zone_row(&mut self, v: &Vec<ZoneMap>)
        ensures
            final(self)@ == gather(old(self)@, zone_row_texts(zone_maps::zone_views(v@), v@.len() as int)),
    {
        let ghost zv = zone_maps::zone_views(v@);
        let mut i: usize = 0;
        while i < v.len()
            invariant
                i <= v@.len(),
                zv == zone_maps::zone_views(v@),
                self@ == gather(old(self)@, zone_row_texts(zv, i as int)),
            decreases v@.len() - i,
        {
            self.intern_zone_strings(&v[i]);
            proof {
                lemma_gather_add(old(self)@, zone_row_texts(zv, i as int), zone_texts(zv[i as int]));
            }
            i = i + 1;
        }
    }

    fn intern_columns(&mut self, m: &TextMap<ColumnCodec>)
        ensures
            final(self)@ == gather(
                old(self)@,
                key_texts(tables::columns_view(*m)) + entry_texts(
                    tables::columns_view(*m),
                    tables::columns_view(*m).len() as int,
                ),
            ),
    {
        let ghost cv = tables::columns_view(*m);
        let ghost kt = key_texts(cv);
        let n: usize = m.len();
        let mut i: usize = 0;
        assert(kt.take(0) =~= Seq::empty());
        while i < n
            invariant
                i <= n,
                n == m.key_seq().len(),
                cv == tables::columns_view(*m),
                kt == key_texts(cv),
                self@ == gather(old(self)@, kt.take(i as int)),
            decreases n - i,
        {
            self.intern(m.key_at(i));
            proof {
                lemma_gather_add(old(self)@, kt.take(i as int), seq![kt[i as int]]);
                assert(kt.take(i as int) + seq![kt[i as int]] =~= kt.take(i + 1));
            }
            i = i + 1;
        }
        assert(kt.take(n as int) =~= kt);
        let ghost mid = self@;
        let mut k: usize = 0;
        while k < n
            invariant
                k <= n,
                n == m.key_seq().len(),
                m.key_seq().len() == m.val_seq().len(),
                cv == tables::columns_view(*m),
                self@ == gather(mid, entry_texts(cv, k as int)),
            decreases n - k,
        {
            match m.val_at(k) {
                ColumnCodec::Dict(d) => {
                    self.intern_all(&d.entries);
                },
                ColumnCodec::Flat(_) => {},
            }
            proof {
                lemma_gather_add(mid, entry_texts(cv, k as int), column_texts(cv[k as int].1));
            }
            k = k + 1;
        }
        proof {
            lemma_gather_add(old(self)@, kt, entry_texts(cv, n as int));
        }
    }

    fn intern_zones(&mut self, zones: &TextMap<ZoneMap>, blocks: &TextMap<Vec<ZoneMap>>)
        ensures
            final(self)@ == gather(
                old(self)@,
                table_zone_texts(tables::zone_pairs(*zones), tables::zone_pairs(*zones).len() as int)
                    + block_zone_texts(tables::block_pairs(*blocks), tables::block_pairs(*blocks).len() as int),
            ),
    {
        let ghost zp = tables::zone_pairs(*zones);
        let ghost bp = tables::block_pairs(*blocks);
        let n: usize = zones.len();
        let mut i: usize = 0;
        while i < n
            invariant
                i <= n,
                n == zones.key_seq().len(),
                zp == tables::zone_pairs(*zones),
                self@ == gather(old(self)@, table_zone_texts(zp, i as int)),
            decreases n - i,
        {
            self.intern_zone_strings(zones.val_at(i));
            proof {
                lemma_gather_add(
                    old(self)@,
                    table_zone_texts(zp, i as int),
                    zone_texts(zp[i as int].1),
                );
            }
            i = i + 1;
        }
        let ghost mid = self@;
        let m: usize = blocks.len();
        let mut k: usize = 0;
        while k < m
            invariant
                k <= m,
                m == blocks.key_seq().len(),
                bp == tables::block_pairs(*blocks),
                self@ == gather(mid, block_zone_texts(bp, k as int)),
            decreases m - k,
        {
            self.intern_zone_row(blocks.val_at(k));
            proof {
                lemma_gather_add(
                    mid,
                    block_zone_texts(bp, k as int),
                    zone_row_texts(bp[k as int].1, bp[k as int].1.len() as int),
                );
            }
            k = k + 1;
        }
        proof {
            lemma_gather_add(
                old(self)@,
                table_zone_texts(zp, n as int),
                block_zone_texts(bp, m as int),
            );
        }
    }

    fn intern_table(
        &mut self,
        name: &str,
        columns: &TextMap<ColumnCodec>,
        zones: &TextMap<ZoneMap>,
        blocks: &TextMap<Vec<ZoneMap>>,
    )
        ensures
            final(self)@ == gather(
                old(self)@,
                table_texts(
                    name@,
                    tables::columns_view(*columns),
                    tables::zone_pairs(*zones),
                    tables::block_pairs(*blocks),
                ),
            ),
    {
        self.intern(name);
        self.intern_columns(columns);
        self.intern_zones(zones, blocks);
        proof {
            let cv = tables::columns_view(*columns);
            let a = seq![name@];
            let b = key_texts(cv) + entry_texts(cv, cv.len() as int);
            let c = table_zone_texts(tables::zone_pairs(*zones), tables::zone_pairs(*zones).len() as int)
                + block_zone_texts(tables::block_pairs(*blocks), tables::block_pairs(*blocks).len() as int);
            lemma_gather_add(old(self)@, a, b);
            lemma_gather_add(old(self)@, a + b, c);
            assert(a + b + c =~= table_texts(
                name@,
                cv,
                tables::zone_pairs(*zones),
                tables::block_pairs(*blocks),
            ));
        }
    }

    /// Adds all texts of a store.
    pub fn intern_store(&mut self, store: &CompactStore)
        ensures
            final(self)@ == gather(old(self)@, store_texts(store@)),
    {
        let ghost nv = tables::node_views(store.node_tables@);
        let ghost rv = tables::rel_views(store.rel_tables@);
        let mut i: usize = 0;
        while i < store.node_tables.len()
            invariant
                i <= store.node_tables@.len(),
                nv == tables::node_views(store.node_tables@),
                self@ == gather(old(self)@, node_texts(nv, i as int)),
            decreases store.node_tables@.len() - i,
        {
            let t: &NodeTable = &store.node_tables[i];
            assert(t@ == nv[i as int]);
            self.intern_table(t.label.as_str(), &t.columns, &t.zone_maps, &t.block_zone_maps);
            proof {
                lemma_gather_add(
                    old(self)@,
                    node_texts(nv, i as int),
                    node_table_texts(nv[i as int]),
                );
            }
            i = i + 1;
        }
        let ghost mid = self@;
        let mut k: usize = 0;
        while k < store.rel_tables.len()
            invariant
                k <= store.rel_tables@.len(),
                rv == tables::rel_views(store.rel_tables@),
                self@ == gather(mid, rel_texts(rv, k as int)),
            decreases store.rel_tables@.len() - k,
        {
            let t: &RelTable = &store.rel_tables[k];
            assert(t@ == rv[k as int]);
            self.intern_table(t.edge_type.as_str(), &t.properties, &t.zone_maps, &t.block_zone_maps);
            proof {
                lemma_gather_add(mid, rel_texts(rv, k as int), rel_table_texts(rv[k as int]));
            }
            k = k + 1;
        }
        proof {
            lemma_gather_add(
                old(self)@,
                node_texts(nv, nv.len() as int),
                rel_texts(rv, rv.len() as int),
            );
        }
    }
}

/// Sorting by bytes keeps the texts.
pub proof fn lemma_by_bytes(d: Seq<Seq<char>>)
    requires
        d.no_duplicates(),
    ensures
        by_bytes(d).len() == d.len(),
        by_bytes(d).no_duplicates(),
        forall|s: Seq<char>| #[trigger] by_bytes(d).contains(s) <==> d.contains(s),
        text::texts_ascend(by_bytes(d)),
{
    let so = sorting::stable_order(code_index::text_keys(d));
    let b = by_bytes(d);
    sorting::lemma_stable_order(code_index::text_keys(d));
    assert forall|i: int, j: int| 0 <= i < b.len() && 0 <= j < b.len() && i != j implies b[i]
        != b[j] by {
        assert(so[i] != so[j]);
    }
    assert forall|s: Seq<char>| #[trigger] b.contains(s) <==> d.contains(s) by {
        if b.contains(s) {
            let i = b.index_of(s);
            assert(d[so[i]] == s);
        }
        if d.contains(s) {
            let x = d.index_of(s);
            assert(so.contains(x));
            let i = so.index_of(x);
            assert(b[i] == s);
        }
    }
    assert forall|i: int, j: int| 0 <= i < j < b.len() implies text::text_lt(
        #[trigger] b[i],
        #[trigger] b[j],
    ) by {
        let leq = sorting::key_leq(code_index::text_keys(d));
        assert(leq(so[i], so[j]));
        if code_index::text_keys(d)[so[i]] == code_index::text_keys(d)[so[j]] {
            text::lemma_utf8_injective(d[so[i]], d[so[j]]);
        }
    }
}

/// A dictionary has every text of its list once, and no others.
pub proof fn lemma_dictionary(list: Seq<Seq<char>>, order: StringCodeOrder)
    ensures
        dictionary(list, order).no_duplicates(),
        dictionary(list, order).len() == gather(Seq::empty(), list).len(),
        forall|s: Seq<char>| #[trigger]
            dictionary(list, order).contains(s) <==> list.contains(s),
        order == StringCodeOrder::Lexicographic ==> text::texts_ascend(dictionary(list, order)),
{
    lemma_gather(Seq::empty(), list);
    lemma_by_bytes(gather(Seq::empty(), list));
}

/// Codes and texts of a dictionary match.
pub proof fn lemma_codes_match(d: Seq<Seq<char>>)
    requires
        d.no_duplicates(),
        d.len() <= u32::MAX,
    ensures
        zone_maps::index_matches(codes_of_texts(d), d),
        forall|i: int|
            0 <= i < d.len() ==> codes_of_texts(d).dom().contains(#[trigger] d[i])
                && codes_of_texts(d)[d[i]] == i,
{
    assert forall|i: int| 0 <= i < d.len() implies codes_of_texts(d).dom().contains(
        #[trigger] d[i],
    ) && codes_of_texts(d)[d[i]] == i by {
        assert(d.contains(d[i]));
        assert(d.index_of(d[i]) == i);
    }
}

fn text_key(s: &str) -> (r: Vec<u8>)
    ensures
        r@ == text::utf8(s@),
{
    crate::wire::bytes_to_vec(s.as_bytes())
}

/// Puts texts in the order of their UTF-8 bytes.
pub fn sort_texts(strings: &Vec<String>) -> (r: Vec<String>)
    ensures
        text::texts(r@) == by_bytes(text::texts(strings@)),
{
    let ghost d = text::texts(strings@);
    let mut keys: Vec<Vec<u8>> = Vec::new();
    let mut i: usize = 0;
    while i < strings.len()
        invariant
            i <= strings@.len(),
            d == text::texts(strings@),
            keys@.len() == i,
            forall|k: int| 0 <= k < i ==> (#[trigger] keys@[k])@ == text::utf8(d[k]),
        decreases strings@.len() - i,
    {
        keys.push(text_key(strings[i].as_str()));
        i = i + 1;
    }
    assert(sorting::key_bytes(keys@) =~= code_index::text_keys(d));
    let order: Vec<usize> = sort_keys(keys.as_slice());
    let ghost so = sorting::stable_order(code_index::text_keys(d));
    proof {
        sorting::lemma_stable_order(code_index::text_keys(d));
    }
    let mut out: Vec<String> = Vec::new();
    let mut k: usize = 0;
    assert(sorting::as_ints(order@).len() == d.len());
    while k < order.len()
        invariant
            k <= order@.len(),
            order@.len() == d.len(),
            d == text::texts(strings@),
            sorting::as_ints(order@) == so,
            so == sorting::stable_order(code_index::text_keys(d)),
            forall|j: int| 0 <= j < d.len() ==> 0 <= #[trigger] so[j] < d.len(),
            out@.len() == k,
            forall|j: int| 0 <= j < k ==> (#[trigger] out@[j])@ == d[so[j]],
        decreases order@.len() - k,
    {
        assert(sorting::as_ints(order@)[k as int] == so[k as int]);
        out.push(own(strings[order[k]].as_str()));
        k = k + 1;
    }
    assert(text::texts(out@) =~= by_bytes(d));
    out
}

/// The code of every text.
pub fn index_strings(strings: &Vec<String>) -> (r: TextMap<u32>)
    requires
        strings@.len() <= u32::MAX,
        text::texts(strings@).no_duplicates(),
    ensures
        r@ == codes_of_texts(text::texts(strings@)),
{
    let ghost d = text::texts(strings@);
    let mut index: TextMap<u32> = TextMap::new();
    let mut i: usize = 0;
    while i < strings.len()
        invariant
            i <= strings@.len(),
            strings@.len() <= u32::MAX,
            d == text::texts(strings@),
            d.no_duplicates(),
            forall|s: Seq<char>|
                #[trigger] index@.dom().contains(s) <==> d.contains(s) && d.index_of(s) < i,
            forall|s: Seq<char>|
                #[trigger] index@.dom().contains(s) ==> index@[s] == d.index_of(s),
        decreases strings@.len() - i,
    {
        let ghost before = index@;
        assert(d[i as int] == strings@[i as int]@);
        assert(d.contains(d[i as int]));
        assert(d.index_of(d[i as int]) == i);
        index.insert(strings[i].as_str(), i as u32);
        proof {
            assert forall|s: Seq<char>| #[trigger] index@.dom().contains(s) <==> d.contains(s)
                && d.index_of(s) < i + 1 by {
                if d.contains(s) && d.index_of(s) == i {
                    assert(d[d.index_of(s)] == s);
                }
            }
        }
        i = i + 1;
    }
    assert(index@ =~= codes_of_texts(d));
    index
}

proof fn lemma_add_contains(a: Seq<Seq<char>>, b: Seq<Seq<char>>, x: Seq<char>)
    ensures
        (a + b).contains(x) <==> a.contains(x) || b.contains(x),
{
    let s = a + b;
    if a.contains(x) {
        assert(s[a.index_of(x)] == x);
    }
    if b.contains(x) {
        assert(s[a.len() + b.index_of(x)] == x);
    }
    if s.contains(x) {
        let i = s.index_of(x);
        if i < a.len() {
            assert(a[i] == x);
        } else {
            assert(b[i - a.len()] == x);
        }
    }
}

/// The name and the keys of a table are among its texts.
pub proof fn lemma_table_texts(
    name: Seq<char>,
    columns: Seq<(Seq<char>, ColumnView)>,
    zones: Seq<(Seq<char>, ZoneView)>,
    blocks: Seq<(Seq<char>, Seq<ZoneView>)>,
)
    ensures
        table_texts(name, columns, zones, blocks).contains(name),
        forall|i: int|
            0 <= i < columns.len() ==> table_texts(name, columns, zones, blocks).contains(
                (#[trigger] columns[i]).0,
            ),
{
    let t = table_texts(name, columns, zones, blocks);
    assert(t[0] == name);
    assert forall|i: int| 0 <= i < columns.len() implies t.contains((#[trigger] columns[i]).0) by {
        assert(key_texts(columns)[i] == columns[i].0);
        assert(t[1 + i] == columns[i].0);
    }
}

proof fn lemma_node_texts(v: Seq<NodeTableView>, n: int, i: int, x: Seq<char>)
    requires
        0 <= i < n,
        node_table_texts(v[i]).contains(x),
    ensures
        node_texts(v, n).contains(x),
    decreases n,
{
    lemma_add_contains(node_texts(v, n - 1), node_table_texts(v[n - 1]), x);
    if i < n - 1 {
        lemma_node_texts(v, n - 1, i, x);
    }
}

proof fn lemma_rel_texts(v: Seq<RelTableView>, n: int, i: int, x: Seq<char>)
    requires
        0 <= i < n,
        rel_table_texts(v[i]).contains(x),
    ensures
        rel_texts(v, n).contains(x),
    decreases n,
{
    lemma_add_contains(rel_texts(v, n - 1), rel_table_texts(v[n - 1]), x);
    if i < n - 1 {
        lemma_rel_texts(v, n - 1, i, x);
    }
}

/// Every text of a node table is a text of its store.
pub proof fn lemma_store_has_node_text(s: StoreView, i: int, x: Seq<char>)
    requires
        0 <= i < s.nodes.len(),
        node_table_texts(s.nodes[i]).contains(x),
    ensures
        store_texts(s).contains(x),
{
    lemma_node_texts(s.nodes, s.nodes.len() as int, i, x);
    lemma_add_contains(
        node_texts(s.nodes, s.nodes.len() as int),
        rel_texts(s.rels, s.rels.len() as int),
        x,
    );
}

/// Every text of a relationship table is a text of its store.
pub proof fn lemma_store_has_rel_text(s: StoreView, i: int, x: Seq<char>)
    requires
        0 <= i < s.rels.len(),
        rel_table_texts(s.rels[i]).contains(x),
    ensures
        store_texts(s).contains(x),
{
    lemma_rel_texts(s.rels, s.rels.len() as int, i, x);
    lemma_add_contains(
        node_texts(s.nodes, s.nodes.len() as int),
        rel_texts(s.rels, s.rels.len() as int),
        x,
    );
}

} // verus!
