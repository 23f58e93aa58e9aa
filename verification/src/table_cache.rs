//! Tables and the table cache the version core consults: a table is a sorted
//! run of (internal key, value) entries, the cache maps file numbers to
//! tables, and a table iterator walks one table in key order.

use vstd::prelude::*;
use vstd::slice::slice_to_vec;
use core::cmp::Ordering;
use crate::cmp::{icmp, icmp_key, icmp_ord, lemma_icmp_key, InternalKeyCmp};
use crate::error::Status;
use crate::key_types::{ikey_tag, ikey_typ, ikey_ukey, is_ikey};

verus! {

/// One stored entry: an internal key and its value.
pub struct TableEntry {
    /// Internal key of the entry.
    pub key: Vec<u8>,
    /// Stored value.
    pub value: Vec<u8>,
}

/// Spec-level value of a table entry.
#[verifier::ext_equal]
pub struct EntryV {
    /// Internal key of the entry.
    pub key: Seq<u8>,
    /// Stored value.
    pub value: Seq<u8>,
}

impl View for TableEntry {
    type V = EntryV;

    open spec fn view(&self) -> EntryV {
        EntryV { key: self.key@, value: self.value@ }
    }
}

/// The spec values of a sequence of entries.
pub open spec fn eseq(es: Seq<TableEntry>) -> Seq<EntryV> {
    es.map_values(|e: TableEntry| e@)
}

/// An entry the core can reason about: its key carries a tag whose value
/// type is an ordinary value or a deletion.
pub open spec fn entry_wf(e: EntryV) -> bool {
    &&& is_ikey(e.key)
    &&& ikey_typ(e.key) <= 1
}

/// Entries in strictly ascending internal-key order.
pub open spec fn entries_sorted(es: Seq<EntryV>) -> bool {
    forall|i: int, j: int| 0 <= i < j < es.len() ==> icmp(#[trigger] es[i].key, #[trigger] es[j].key) < 0
}

/// Index of the first entry whose key is at least `ik`, or the length when
/// every entry is below `ik`.
pub open spec fn lower_bound(es: Seq<EntryV>, ik: Seq<u8>) -> int
    decreases es.len(),
{
    if es.len() == 0 {
        0
    } else if icmp(es[0].key, ik) >= 0 {
        0
    } else {
        1 + lower_bound(es.skip(1), ik)
    }
}

/// Index of the first entry at or above the query key given by its
/// user-key and tag projections, or the length.
pub open spec fn lb_key(es: Seq<EntryV>, uk: Seq<u8>, tag: nat) -> int
    decreases es.len(),
{
    if es.len() == 0 {
        0
    } else if icmp_key(es[0].key, uk, tag) >= 0 {
        0
    } else {
        1 + lb_key(es.skip(1), uk, tag)
    }
}

/// The two lower bounds agree when the query key is given in full.
pub proof fn lemma_lb_key_agrees(es: Seq<EntryV>, ik: Seq<u8>)
    ensures
        lower_bound(es, ik) == lb_key(es, ikey_ukey(ik), ikey_tag(ik)),
    decreases es.len(),
{
    if es.len() > 0 {
        lemma_icmp_key(es[0].key, ik);
        lemma_lb_key_agrees(es.skip(1), ik);
    }
}

/// What `lb_key` returns: the least index at or above the query.
pub proof fn lemma_lb_key_props(es: Seq<EntryV>, uk: Seq<u8>, tag: nat)
    ensures
        0 <= lb_key(es, uk, tag) <= es.len(),
        forall|j: int| 0 <= j < lb_key(es, uk, tag) ==> icmp_key(
            (#[trigger] es[j]).key,
            uk,
            tag,
        ) < 0,
        lb_key(es, uk, tag) < es.len() ==> icmp_key(es[lb_key(es, uk, tag)].key, uk, tag) >= 0,
    decreases es.len(),
{
    if es.len() > 0 && icmp_key(es[0].key, uk, tag) < 0 {
        lemma_lb_key_props(es.skip(1), uk, tag);
        assert forall|j: int| 0 <= j < lb_key(es, uk, tag) implies icmp_key(
            (#[trigger] es[j]).key,
            uk,
            tag,
        ) < 0 by {
            if j > 0 {
                assert(es.skip(1)[j - 1] == es[j]);
            }
        }
        if lb_key(es, uk, tag) < es.len() {
            assert(es.skip(1)[lb_key(es, uk, tag) - 1] == es[lb_key(es, uk, tag)]);
        }
    }
}

/// What `lower_bound` returns: the least index at or above `ik`.
pub proof fn lemma_lower_bound_props(es: Seq<EntryV>, ik: Seq<u8>)
    ensures
        0 <= lower_bound(es, ik) <= es.len(),
        forall|j: int| 0 <= j < lower_bound(es, ik) ==> icmp(#[trigger] es[j].key, ik) < 0,
        lower_bound(es, ik) < es.len() ==> icmp(es[lower_bound(es, ik)].key, ik) >= 0,
    decreases es.len(),
{
    if es.len() > 0 && icmp(es[0].key, ik) < 0 {
        lemma_lower_bound_props(es.skip(1), ik);
        assert forall|j: int| 0 <= j < lower_bound(es, ik) implies icmp(
            #[trigger] es[j].key,
            ik,
        ) < 0 by {
            if j > 0 {
                assert(es.skip(1)[j - 1] == es[j]);
            }
        }
        if lower_bound(es, ik) < es.len() {
            assert(es.skip(1)[lower_bound(es, ik) - 1] == es[lower_bound(es, ik)]);
        }
    }
}

/// One sorted run of entries, identified by its file number.
pub struct Table {
    /// File number the table was opened from.
    pub num: u64,
    /// The entries, in ascending internal-key order.
    pub entries: Vec<TableEntry>,
}

impl Table {
    /// The spec values of the entries.
    pub open spec fn v(self) -> Seq<EntryV> {
        eseq(self.entries@)
    }

    /// A well-formed table: entries strictly sorted, each with a sound tag.
    pub open spec fn wf(self) -> bool {
        &&& entries_sorted(self.v())
        &&& forall|i: int| 0 <= i < self.v().len() ==> entry_wf(#[trigger] self.v()[i])
    }

    /// Builds a table from its number and entries.
    pub fn new(num: u64, entries: Vec<TableEntry>) -> (r: Table)
        ensures
            r.num == num,
            r.v() == eseq(entries@),
    {
        Table { num, entries }
    }

    /// A copy of this table whose equality of contents is known to the
    /// verifier.
    pub fn duplicate(&self) -> (r: Table)
        ensures
            r.num == self.num,
            r.v() == self.v(),
    {
        let mut es: Vec<TableEntry> = Vec::new();
        let mut i: usize = 0;
        while i < self.entries.len()
            invariant
                i <= self.entries@.len(),
                es@.len() == i,
                forall|j: int| 0 <= j < i ==> (#[trigger] es@[j])@ == self.entries@[j]@,
            decreases self.entries@.len() - i,
        {
            let e = &self.entries[i];
            let k2 = slice_to_vec(e.key.as_slice());
            let v2 = slice_to_vec(e.value.as_slice());
            es.push(TableEntry { key: k2, value: v2 });
            proof {
                assert(es@[i as int]@ =~= self.entries@[i as int]@);
            }
            i = i + 1;
        }
        proof {
            assert forall|j: int| 0 <= j < es@.len() implies eseq(es@)[j] == eseq(
                self.entries@,
            )[j] by {
                assert(es@[j]@ == self.entries@[j]@);
            }
            assert(eseq(es@) =~= eseq(self.entries@));
        }
        Table { num: self.num, entries: es }
    }

    /// Returns the first entry whose key is at least `ik`, or nothing when
    /// the table ends below `ik`.
    pub fn get_ge(&self, ik: &[u8]) -> (r: Option<(Vec<u8>, Vec<u8>)>)
        ensures
            ({
                let lb = lower_bound(self.v(), ik@);
                if lb < self.v().len() {
                    r matches Some(kv) && kv.0@ == self.v()[lb].key && kv.1@ == self.v()[lb].value
                } else {
                    r is None
                }
            }),
    {
        proof {
            lemma_lower_bound_props(self.v(), ik@);
        }
        let icmp_x = InternalKeyCmp;
        let mut i: usize = 0;
        while i < self.entries.len()
            invariant
                i <= self.v().len(),
                self.v().len() == self.entries@.len(),
                forall|j: int| 0 <= j < i ==> icmp(#[trigger] self.v()[j].key, ik@) < 0,
                0 <= lower_bound(self.v(), ik@) <= self.v().len(),
                forall|j: int| 0 <= j < lower_bound(self.v(), ik@) ==> icmp(
                    #[trigger] self.v()[j].key,
                    ik@,
                ) < 0,
                lower_bound(self.v(), ik@) < self.v().len() ==> icmp(
                    self.v()[lower_bound(self.v(), ik@)].key,
                    ik@,
                ) >= 0,
            decreases self.entries@.len() - i,
        {
            let e = &self.entries[i];
            let c = icmp_x.cmp(e.key.as_slice(), ik);
            let hit = match c {
                Ordering::Less => false,
                _ => true,
            };
            if hit {
                proof {
                    let lb = lower_bound(self.v(), ik@);
                    if i < lb {
                        assert(icmp(self.v()[i as int].key, ik@) < 0);
                    }
                    if lb < i {
                        assert(icmp(self.v()[lb].key, ik@) < 0);
                    }
                    assert(i == lb);
                }
                return Some((slice_to_vec(e.key.as_slice()), slice_to_vec(e.value.as_slice())));
            }
            i = i + 1;
        }
        proof {
            let lb = lower_bound(self.v(), ik@);
            if lb < self.v().len() {
                assert(icmp(self.v()[lb].key, ik@) < 0);
            }
        }
        None
    }
}

/// Index of the table with the given number, or the length when absent.
pub open spec fn table_idx(ts: Seq<Table>, num: u64) -> int
    decreases ts.len(),
{
    if ts.len() == 0 {
        0
    } else if ts[0].num == num {
        0
    } else {
        1 + table_idx(ts.skip(1), num)
    }
}

/// What `table_idx` returns: the first table carrying `num`.
pub proof fn lemma_table_idx_props(ts: Seq<Table>, num: u64)
    ensures
        0 <= table_idx(ts, num) <= ts.len(),
        forall|j: int| 0 <= j < table_idx(ts, num) ==> (#[trigger] ts[j]).num != num,
        table_idx(ts, num) < ts.len() ==> ts[table_idx(ts, num)].num == num,
    decreases ts.len(),
{
    if ts.len() > 0 && ts[0].num != num {
        lemma_table_idx_props(ts.skip(1), num);
        assert forall|j: int| 0 <= j < table_idx(ts, num) implies (#[trigger] ts[j]).num != num by {
            if j > 0 {
                assert(ts.skip(1)[j - 1] == ts[j]);
            }
        }
        if table_idx(ts, num) < ts.len() {
            assert(ts.skip(1)[table_idx(ts, num) - 1] == ts[table_idx(ts, num)]);
        }
    }
}

/// Maps file numbers to opened tables. The on-disk store this stands before
/// is external; the cache holds the decoded runs the core reads.
pub struct TableCache {
    tables: Vec<Table>,
}

impl TableCache {
    /// The tables held, in insertion order.
    pub closed spec fn tables_v(self) -> Seq<Table> {
        self.tables@
    }

    /// Whether a table with the given number is held.
    pub open spec fn has(self, num: u64) -> bool {
        table_idx(self.tables_v(), num) < self.tables_v().len()
    }

    /// The entries of the table with the given number.
    pub open spec fn entries_of(self, num: u64) -> Seq<EntryV> {
        self.tables_v()[table_idx(self.tables_v(), num)].v()
    }

    /// A usable cache: numbers are unique and every table is well formed.
    pub open spec fn wf(self) -> bool {
        &&& forall|i: int, j: int|
            0 <= i < j < self.tables_v().len() ==> (#[trigger] self.tables_v()[i]).num != (
            #[trigger] self.tables_v()[j]).num
        &&& forall|i: int| 0 <= i < self.tables_v().len() ==> (#[trigger] self.tables_v()[i]).wf()
    }

    /// An empty cache.
    pub fn new() -> (r: TableCache)
        ensures
            r.wf(),
            r.tables_v().len() == 0,
    {
        TableCache { tables: Vec::new() }
    }

    /// Adds a table for a number not yet held.
    pub fn insert(&mut self, t: Table)
        requires
            !old(self).has(t.num),
        ensures
            final(self).tables_v() == old(self).tables_v().push(t),
            old(self).wf() && t.wf() ==> final(self).wf(),
            forall|n: u64| old(self).has(n) ==> final(self).has(n) && final(self).entries_of(n)
                == old(self).entries_of(n),
            final(self).has(t.num),
            final(self).entries_of(t.num) == t.v(),
    {
        proof {
            lemma_table_idx_props(self.tables@, t.num);
            lemma_table_idx_snoc(self.tables@, t, t.num);
            assert forall|n: u64| table_idx(self.tables@, n) < self.tables@.len() implies table_idx(
                self.tables@.push(t),
                n,
            ) == table_idx(self.tables@, n) by {
                lemma_table_idx_snoc(self.tables@, t, n);
            }
        }
        self.tables.push(t);
        proof {
            let ts = old(self).tables@;
            assert forall|n: u64| table_idx(ts, n) < ts.len() implies self.has(n)
                && self.entries_of(n) == old(self).entries_of(n) by {
                lemma_table_idx_props(ts, n);
                assert(table_idx(self.tables@, n) == table_idx(ts, n));
                assert(self.tables@[table_idx(ts, n)] == ts[table_idx(ts, n)]);
            }
            if old(self).wf() && t.wf() {
                assert forall|i: int, j: int| 0 <= i < j < self.tables@.len() implies (
                #[trigger] self.tables@[i]).num != (#[trigger] self.tables@[j]).num by {
                    assert(self.tables@[i] == ts[i]);
                    if j < ts.len() {
                        assert(self.tables@[j] == ts[j]);
                    } else {
                        assert(self.tables@[j] == t);
                        assert(ts[i].num != t.num);
                    }
                }
                assert forall|i: int| 0 <= i < self.tables@.len() implies (
                #[trigger] self.tables@[i]).wf() by {
                    if i < ts.len() {
                        assert(self.tables@[i] == ts[i]);
                    } else {
                        assert(self.tables@[i] == t);
                    }
                }
            }
        }
    }

    /// Looks the number up and returns the first entry at or above `ikey`
    /// from its table, or nothing when the table ends below `ikey`; a number
    /// not held fails with `NotFound`.
    pub fn get(&self, num: u64, ikey: &[u8]) -> (r: Result<Option<(Vec<u8>, Vec<u8>)>, Status>)
        ensures
            !self.has(num) ==> r == Err::<Option<(Vec<u8>, Vec<u8>)>, Status>(Status::NotFound),
            self.has(num) ==> ({
                let es = self.entries_of(num);
                let lb = lower_bound(es, ikey@);
                if lb < es.len() {
                    r matches Ok(Some(kv)) && kv.0@ == es[lb].key && kv.1@ == es[lb].value
                } else {
                    r matches Ok(None)
                }
            }),
    {
        proof {
            lemma_table_idx_props(self.tables@, num);
        }
        let mut i: usize = 0;
        while i < self.tables.len()
            invariant
                i <= self.tables@.len(),
                forall|j: int| 0 <= j < i ==> (#[trigger] self.tables@[j]).num != num,
                0 <= table_idx(self.tables@, num) <= self.tables@.len(),
                forall|j: int| 0 <= j < table_idx(self.tables@, num) ==> (
                #[trigger] self.tables@[j]).num != num,
                table_idx(self.tables@, num) < self.tables@.len() ==> self.tables@[table_idx(
                    self.tables@,
                    num,
                )].num == num,
            decreases self.tables@.len() - i,
        {
            if self.tables[i].num == num {
                proof {
                    let ti = table_idx(self.tables@, num);
                    if i < ti {
                        assert(self.tables@[i as int].num != num);
                    }
                    if ti < i {
                        assert(self.tables@[ti].num != num);
                    }
                    assert(i == ti);
                }
                return Ok(self.tables[i].get_ge(ikey));
            }
            i = i + 1;
        }
        proof {
            let ti = table_idx(self.tables@, num);
            if ti < self.tables@.len() {
                assert(self.tables@[ti].num != num);
            }
        }
        Err(Status::NotFound)
    }

    /// Returns a copy of the table with the given number, or `NotFound`.
    pub fn get_table(&self, num: u64) -> (r: Result<Table, Status>)
        ensures
            !self.has(num) ==> r == Err::<Table, Status>(Status::NotFound),
            self.has(num) ==> (r matches Ok(t) && t.num == num && t.v() == self.entries_of(num)),
    {
        proof {
            lemma_table_idx_props(self.tables@, num);
        }
        let mut i: usize = 0;
        while i < self.tables.len()
            invariant
                i <= self.tables@.len(),
                forall|j: int| 0 <= j < i ==> (#[trigger] self.tables@[j]).num != num,
                0 <= table_idx(self.tables@, num) <= self.tables@.len(),
                forall|j: int| 0 <= j < table_idx(self.tables@, num) ==> (
                #[trigger] self.tables@[j]).num != num,
                table_idx(self.tables@, num) < self.tables@.len() ==> self.tables@[table_idx(
                    self.tables@,
                    num,
                )].num == num,
            decreases self.tables@.len() - i,
        {
            if self.tables[i].num == num {
                proof {
                    let ti = table_idx(self.tables@, num);
                    if i < ti {
                        assert(self.tables@[i as int].num != num);
                    }
                    if ti < i {
                        assert(self.tables@[ti].num != num);
                    }
                    assert(i == ti);
                }
                return Ok(self.tables[i].duplicate());
            }
            i = i + 1;
        }
        proof {
            let ti = table_idx(self.tables@, num);
            if ti < self.tables@.len() {
                assert(self.tables@[ti].num != num);
            }
        }
        Err(Status::NotFound)
    }

    /// A copy of this cache with the same contents.
    pub fn duplicate(&self) -> (r: TableCache)
        ensures
            r.tables_v().len() == self.tables_v().len(),
            forall|i: int| 0 <= i < self.tables_v().len() ==> (#[trigger] r.tables_v()[i]).num
                == self.tables_v()[i].num && r.tables_v()[i].v() == self.tables_v()[i].v(),
            self.wf() ==> r.wf(),
            forall|n: u64| self.has(n) ==> r.has(n) && r.entries_of(n) == self.entries_of(n),
    {
        let mut ts: Vec<Table> = Vec::new();
        let mut i: usize = 0;
        while i < self.tables.len()
            invariant
                i <= self.tables@.len(),
                ts@.len() == i,
                forall|j: int| 0 <= j < i ==> (#[trigger] ts@[j]).num == self.tables@[j].num
                    && ts@[j].v() == self.tables@[j].v(),
            decreases self.tables@.len() - i,
        {
            let t = self.tables[i].duplicate();
            ts.push(t);
            i = i + 1;
        }
        let r = TableCache { tables: ts };
        proof {
            if self.wf() {
                assert forall|i: int, j: int| 0 <= i < j < r.tables@.len() implies (
                #[trigger] r.tables@[i]).num != (#[trigger] r.tables@[j]).num by {
                    assert(r.tables@[i].num == self.tables@[i].num);
                    assert(r.tables@[j].num == self.tables@[j].num);
                    assert(self.tables_v()[i].num != self.tables_v()[j].num);
                }
                assert forall|i: int| 0 <= i < r.tables@.len() implies (
                #[trigger] r.tables@[i]).wf() by {
                    assert(r.tables@[i].v() == self.tables@[i].v());
                    assert(self.tables_v()[i].wf());
                }
            }
            assert forall|n: u64| self.has(n) implies r.has(n) && r.entries_of(n)
                == self.entries_of(n) by {
                lemma_table_idx_same(self.tables@, r.tables@, n);
            }
        }
        r
    }
}

/// Pushing a new table leaves an earlier number's index unchanged, and the
/// new number lands at the end.
proof fn lemma_table_idx_snoc(ts: Seq<Table>, t: Table, n: u64)
    ensures
        table_idx(ts, n) < ts.len() ==> table_idx(ts.push(t), n) == table_idx(ts, n),
        table_idx(ts, n) == ts.len() && t.num == n ==> table_idx(ts.push(t), n) == ts.len(),
    decreases ts.len(),
{
    lemma_table_idx_props(ts, n);
    lemma_table_idx_props(ts.push(t), n);
    if ts.len() == 0 {
        assert(ts.push(t)[0] == t);
    } else {
        lemma_table_idx_snoc(ts.skip(1), t, n);
        assert(ts.push(t).skip(1) =~= ts.skip(1).push(t));
        assert(ts.push(t)[0] == ts[0]);
    }
}

/// Two table sequences that agree on numbers position every number alike.
proof fn lemma_table_idx_same(a: Seq<Table>, b: Seq<Table>, n: u64)
    requires
        a.len() == b.len(),
        forall|i: int| 0 <= i < a.len() ==> (#[trigger] a[i]).num == b[i].num && a[i].v() == b[i].v(),
    ensures
        table_idx(a, n) == table_idx(b, n),
        table_idx(a, n) < a.len() ==> a[table_idx(a, n)].v() == b[table_idx(b, n)].v(),
    decreases a.len(),
{
    lemma_table_idx_props(a, n);
    lemma_table_idx_props(b, n);
    if a.len() > 0 {
        assert(a[0].num == b[0].num);
        if a[0].num != n {
            assert forall|i: int| 0 <= i < a.skip(1).len() implies (#[trigger] a.skip(1)[i]).num
                == b.skip(1)[i].num && a.skip(1)[i].v() == b.skip(1)[i].v() by {
                assert(a.skip(1)[i] == a[i + 1]);
                assert(b.skip(1)[i] == b[i + 1]);
            }
            lemma_table_idx_same(a.skip(1), b.skip(1), n);
            assert(table_idx(a, n) == 1 + table_idx(a.skip(1), n));
            assert(table_idx(b, n) == 1 + table_idx(b.skip(1), n));
            if table_idx(a, n) < a.len() {
                assert(a.skip(1)[table_idx(a, n) - 1] == a[table_idx(a, n)]);
                assert(b.skip(1)[table_idx(b, n) - 1] == b[table_idx(b, n)]);
            }
        }
    }
}


/// Copies bytes into a buffer, replacing its contents.
pub fn place_bytes(dst: &mut Vec<u8>, src: &[u8])
    ensures
        final(dst)@ == src@,
{
    dst.clear();
    let mut i: usize = 0;
    while i < src.len()
        invariant
            i <= src@.len(),
            dst@ =~= src@.take(i as int),
        decreases src@.len() - i,
    {
        dst.push(src[i]);
        proof {
            assert(dst@ =~= src@.take(i + 1));
        }
        i = i + 1;
    }
    proof {
        assert(dst@ =~= src@);
    }
}

/// Walks one table in internal-key order. Freshly built it is unpositioned;
/// `advance` moves to the first entry.
pub struct TableIterator {
    table: Table,
    pos: usize,
    started: bool,
}

impl TableIterator {
    /// The entries walked, in order.
    pub closed spec fn entries(self) -> Seq<EntryV> {
        self.table.v()
    }

    /// Position soundness: the walked run is sorted and well formed, the
    /// cursor never runs past the end by more than one, and an unpositioned
    /// iterator rests at the start.
    pub open spec fn wf(self) -> bool {
        &&& entries_sorted(self.entries())
        &&& (forall|i: int| 0 <= i < self.entries().len() ==> entry_wf(#[trigger] self.entries()[i]))
        &&& 0 <= self.cursor() <= self.entries().len()
        &&& (!self.started_at() ==> self.cursor() == 0)
    }

    /// Whether `current` would yield an entry.
    pub open spec fn at(self) -> bool {
        self.started_at() && self.cursor() < self.entries().len()
    }

    /// The cursor index.
    pub closed spec fn cursor(self) -> int {
        self.pos as int
    }

    /// Whether the iterator has been positioned at all.
    pub closed spec fn started_at(self) -> bool {
        self.started
    }

    /// A fresh, unpositioned iterator over the table.
    pub fn new(t: Table) -> (r: TableIterator)
        ensures
            r.entries() == t.v(),
            !r.started_at(),
            r.cursor() == 0,
            t.wf() ==> r.wf(),
    {
        TableIterator { table: t, pos: 0, started: false }
    }

    /// Moves one entry forward (or to the first entry when unpositioned)
    /// and reports whether the new position holds an entry.
    pub fn advance(&mut self) -> (r: bool)
        requires
            old(self).wf(),
        ensures
            final(self).wf(),
            final(self).entries() == old(self).entries(),
            final(self).started_at(),
            final(self).cursor() == (if !old(self).started_at() {
                0int
            } else if old(self).cursor() < old(self).entries().len() {
                old(self).cursor() + 1
            } else {
                old(self).cursor()
            }),
            r == final(self).at(),
    {
        if !self.started {
            self.started = true;
        } else if self.pos < self.table.entries.len() {
            self.pos = self.pos + 1;
        }
        self.pos < self.table.entries.len()
    }

    /// Fills the buffers with the current entry, when there is one; returns
    /// whether there was. On failure the buffers are untouched.
    pub fn current(&self, key: &mut Vec<u8>, val: &mut Vec<u8>) -> (r: bool)
        requires
            self.wf(),
        ensures
            r == self.at(),
            r ==> final(key)@ == self.entries()[self.cursor()].key && final(val)@ == self.entries()[
                self.cursor()
            ].value,
            !r ==> final(key)@ == old(key)@ && final(val)@ == old(val)@,
    {
        if self.started && self.pos < self.table.entries.len() {
            let e = &self.table.entries[self.pos];
            place_bytes(key, e.key.as_slice());
            place_bytes(val, e.value.as_slice());
            true
        } else {
            false
        }
    }

    /// Positions at the first entry whose key is at least `ik`; past the
    /// last entry when the table ends below `ik`.
    pub fn seek(&mut self, ik: &[u8])
        requires
            old(self).wf(),
        ensures
            final(self).wf(),
            final(self).entries() == old(self).entries(),
            final(self).started_at(),
            final(self).cursor() == lower_bound(old(self).entries(), ik@),
            final(self).at() <==> lower_bound(old(self).entries(), ik@) < old(
                self,
            ).entries().len(),
    {
        proof {
            lemma_lower_bound_props(self.entries(), ik@);
        }
        let icmp_x = InternalKeyCmp;
        let mut i: usize = 0;
        let n = self.table.entries.len();
        while i < n
            invariant
                *self == *old(self),
                i <= n,
                n == self.entries().len(),
                self.wf(),
                forall|j: int| 0 <= j < i ==> icmp((#[trigger] self.entries()[j]).key, ik@) < 0,
                0 <= lower_bound(self.entries(), ik@) <= n,
                forall|j: int| 0 <= j < lower_bound(self.entries(), ik@) ==> icmp(
                    (#[trigger] self.entries()[j]).key,
                    ik@,
                ) < 0,
                lower_bound(self.entries(), ik@) < n ==> icmp(
                    self.entries()[lower_bound(self.entries(), ik@)].key,
                    ik@,
                ) >= 0,
            decreases n - i,
        {
            let e = &self.table.entries[i];
            let c = icmp_x.cmp(e.key.as_slice(), ik);
            let hit = match c {
                Ordering::Less => false,
                _ => true,
            };
            if hit {
                proof {
                    let lb = lower_bound(self.entries(), ik@);
                    if i < lb {
                        assert(icmp(self.entries()[i as int].key, ik@) < 0);
                    }
                    if lb < i {
                        assert(icmp(self.entries()[lb].key, ik@) < 0);
                    }
                }
                self.pos = i;
                self.started = true;
                return;
            }
            i = i + 1;
        }
        proof {
            let lb = lower_bound(self.entries(), ik@);
            if lb < n {
                assert(icmp(self.entries()[lb].key, ik@) < 0);
            }
        }
        self.pos = n;
        self.started = true;
    }

    /// Steps one entry back; from past the end it returns to the last
    /// entry, from the first entry it becomes unpositioned.
    pub fn prev(&mut self) -> (r: bool)
        requires
            old(self).wf(),
        ensures
            final(self).wf(),
            final(self).entries() == old(self).entries(),
            !old(self).started_at() || old(self).cursor() == 0 ==> !final(self).started_at()
                && final(self).cursor() == 0 && r == false,
            old(self).started_at() && old(self).cursor() > 0 ==> final(self).started_at()
                && final(self).cursor() == old(self).cursor() - 1 && r == true,
    {
        if !self.started || self.pos == 0 {
            self.started = false;
            self.pos = 0;
            false
        } else {
            self.pos = self.pos - 1;
            true
        }
    }

    /// Returns to the unpositioned state.
    pub fn reset(&mut self)
        ensures
            final(self).entries() == old(self).entries(),
            !final(self).started_at(),
            final(self).cursor() == 0,
            old(self).wf() ==> final(self).wf(),
    {
        self.started = false;
        self.pos = 0;
    }

    /// Whether the iterator rests on an entry.
    pub fn valid(&self) -> (r: bool)
        ensures
            r == self.at(),
    {
        self.started && self.pos < self.table.entries.len()
    }
}


/// A run fetched from a well-formed cache is itself well formed.
pub proof fn lemma_cached_run_wf(cache: TableCache, num: u64)
    requires
        cache.wf(),
        cache.has(num),
    ensures
        entries_sorted(cache.entries_of(num)),
        forall|i: int| 0 <= i < cache.entries_of(num).len() ==> entry_wf(
            #[trigger] cache.entries_of(num)[i],
        ),
{
    lemma_table_idx_props(cache.tables_v(), num);
    assert(cache.tables_v()[table_idx(cache.tables_v(), num)].wf());
}

} // verus!
