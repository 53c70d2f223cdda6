//! Storage engine: orchestrates pages, the buffer pool, the WAL and the
//! catalog to implement `create_table`, `insert` and `select`.
//!
//! Every statement is validated before anything is mutated, so a failed
//! statement leaves the engine exactly as it was.  For a mutation, the WAL
//! record is appended and flushed before the data page changes, so a crash
//! after the flush can always be replayed forward.

use vstd::prelude::*;
use crate::buffer::BufferPool;
use crate::codec::{
    PAGE_SIZE, PAGE_HEADER, ROW_CAPACITY, MAX_COLUMNS, spec_encode_row, spec_decode_row,
    valid_row, fixed_len, encode_row, decode_row, lemma_decode_embedded, lemma_fixed_region_len,
    dec_cells, null_bytes, fixed_region, var_region, type_ok, type_matches,
};
use crate::error::GSQLError;
use crate::page::{
    page_num_rows, page_free, page_wf, page_rows, dec_rows, spec_page_append, page_append_row,
    read_num_rows, read_free,
};
use crate::parser::{ColumnDef, CreateTableStmt, InsertStmt, SelectStmt, DeleteStmt, Expression,
    TableRef, Constraint, DataType};
use crate::value::{Value, ValueModel};
use crate::wal::{WriteAheadLog, WalRecord, WalRecordModel, WalOp, clone_values};

verus! {

/// Pages each table's buffer pool may keep resident at once.
pub const POOL_CAPACITY: usize = 100;

/// Catalog entry for one table.
pub struct TableMetadata {
    pub name: String,
    pub columns: Vec<ColumnDef>,
    pub page_count: u64,
    pub primary_key: Option<usize>,
}

/// A table: its metadata and the buffer pool over its data file.
pub struct Table {
    pub meta: TableMetadata,
    pub pool: BufferPool,
}

/// The engine: the catalog and its tables, and the shared write-ahead log.
pub struct StorageEngine {
    pub tables: Vec<Table>,
    pub wal: WriteAheadLog,
    pub path: String,
}

/// Rows of the pages from index `i` on, page by page, slot by slot.
pub open spec fn pages_rows(cols: Seq<ColumnDef>, pages: Seq<Seq<u8>>, i: int) -> Seq<
    Seq<ValueModel>,
>
    decreases pages.len() - i,
{
    if i < 0 || i >= pages.len() {
        Seq::empty()
    } else {
        page_rows(cols, pages[i]) + pages_rows(cols, pages, i + 1)
    }
}

/// All rows a table holds, in physical order.
pub open spec fn table_rows(t: Table) -> Seq<Seq<ValueModel>> {
    pages_rows(t.meta.columns@, t.pool.logical(), 0)
}

/// Well-formedness of one table.
pub open spec fn table_wf(t: Table) -> bool {
    &&& t.pool.wf()
    &&& t.meta.page_count as int == t.pool.logical().len()
    &&& 1 <= t.meta.columns@.len() <= MAX_COLUMNS
    &&& (t.meta.primary_key matches Some(i) ==> i < t.meta.columns@.len())
    &&& forall|p: int| 0 <= p < t.pool.logical().len() ==> page_wf(
        t.meta.columns@,
        #[trigger] t.pool.logical()[p],
    )
    &&& t.pool.no_pins()
}

/// First table with the given name.
pub open spec fn find_table(tables: Seq<Table>, name: Seq<char>) -> Option<int>
    decreases tables.len(),
{
    if tables.len() == 0 {
        None
    } else if tables[0].meta.name@ == name {
        Some(0)
    } else {
        match find_table(tables.drop_first(), name) {
            Some(j) => Some(j + 1),
            None => None,
        }
    }
}

/// How many records of the list target table `name`, page `p`.
pub open spec fn wal_count(recs: Seq<WalRecordModel>, name: Seq<char>, p: u64) -> int
    decreases recs.len(),
{
    if recs.len() == 0 {
        0
    } else {
        wal_count(recs.drop_last(), name, p) + (if recs.last().table == name
            && recs.last().page_no == p {
            1int
        } else {
            0int
        })
    }
}

pub proof fn lemma_wal_count_nonneg(recs: Seq<WalRecordModel>, name: Seq<char>, p: u64)
    ensures
        wal_count(recs, name, p) >= 0,
    decreases recs.len(),
{
    if recs.len() > 0 {
        lemma_wal_count_nonneg(recs.drop_last(), name, p);
    }
}

pub proof fn lemma_wal_count_push(
    recs: Seq<WalRecordModel>,
    r: WalRecordModel,
    name: Seq<char>,
    p: u64,
)
    ensures
        wal_count(recs.push(r), name, p) == wal_count(recs, name, p) + (if r.table == name
            && r.page_no == p {
            1int
        } else {
            0int
        }),
{
    assert(recs.push(r).drop_last() =~= recs);
}

pub proof fn lemma_wal_count_prefix(recs: Seq<WalRecordModel>, m: int, name: Seq<char>, p: u64)
    requires
        0 <= m <= recs.len(),
    ensures
        wal_count(recs.take(m), name, p) <= wal_count(recs, name, p),
    decreases recs.len(),
{
    if m == recs.len() {
        assert(recs.take(m) =~= recs);
    } else {
        assert(recs.drop_last().take(m) =~= recs.take(m));
        lemma_wal_count_prefix(recs.drop_last(), m, name, p);
    }
}

/// Every row a page of the observable file holds is covered by a durable
/// WAL record targeting that page: the explicit WAL-before-data contract.
pub open spec fn pages_covered(
    pages: Seq<Seq<u8>>,
    recs: Seq<WalRecordModel>,
    name: Seq<char>,
) -> bool {
    forall|p: int| 0 <= p < pages.len() ==> page_num_rows(#[trigger] pages[p]) <= wal_count(
        recs,
        name,
        p as u64,
    )
}

/// The same for the backing file, which may also hold freshly allocated,
/// still-zero pages (they hold no row).
pub open spec fn durable_pages_covered(
    pages: Seq<Seq<u8>>,
    recs: Seq<WalRecordModel>,
    name: Seq<char>,
) -> bool {
    forall|p: int| 0 <= p < pages.len() ==> (#[trigger] pages[p] == crate::codec::zero_seq(
        PAGE_SIZE as nat,
    ) || page_num_rows(pages[p]) <= wal_count(recs, name, p as u64))
}

/// Every log record targets a table of the catalog, and its values are a
/// valid, page-sized row for that table's schema: what replay needs.
pub open spec fn log_ok(tables: Seq<Table>, recs: Seq<WalRecordModel>) -> bool {
    forall|k: int| 0 <= k < recs.len() ==> {
        let rec = #[trigger] recs[k];
        find_table(tables, rec.table) matches Some(ti) && valid_row(
            tables[ti].meta.columns@,
            rec.values,
        ) && spec_encode_row(tables[ti].meta.columns@, rec.values).len() <= ROW_CAPACITY
    }
}

/// What recovery needs of a crashed engine: a sane log and catalog.  The
/// pools' contents are immaterial: replay re-derives them from the log.
pub open spec fn recover_ready(e: StorageEngine) -> bool {
    &&& e.wal.wf()
    &&& e.wal.durable_records() == e.wal.view()
    &&& forall|i: int, j: int| 0 <= i < j < e.tables@.len() ==> e.tables@[i].meta.name@
        != e.tables@[j].meta.name@
    &&& forall|i: int| 0 <= i < e.tables@.len() ==> 1 <= (
    #[trigger] e.tables@[i]).meta.columns@.len() <= MAX_COLUMNS && (
    e.tables@[i].meta.primary_key matches Some(pi) ==> pi < e.tables@[i].meta.columns@.len())
    &&& log_ok(e.tables@, e.wal.view())
}

/// Every well-formed engine is ready for recovery.
pub proof fn lemma_wf_recover_ready(e: StorageEngine)
    requires
        e.wf(),
    ensures
        recover_ready(e),
{
}

/// The values of the records that target one table, in log order: the rows
/// the log says the table holds.
pub open spec fn wal_rows(recs: Seq<WalRecordModel>, name: Seq<char>) -> Seq<Seq<ValueModel>>
    decreases recs.len(),
{
    if recs.len() == 0 {
        Seq::empty()
    } else {
        wal_rows(recs.drop_last(), name) + (if recs.last().table == name {
            seq![recs.last().values]
        } else {
            Seq::empty()
        })
    }
}

/// A log in which no record targets the name says the table is empty.
pub proof fn lemma_wal_rows_absent(recs: Seq<WalRecordModel>, name: Seq<char>)
    requires
        forall|k: int| 0 <= k < recs.len() ==> (#[trigger] recs[k]).table != name,
    ensures
        wal_rows(recs, name) == Seq::<Seq<ValueModel>>::empty(),
    decreases recs.len(),
{
    if recs.len() > 0 {
        lemma_wal_rows_absent(recs.drop_last(), name);
        assert(recs.last().table != name);
        assert(wal_rows(recs.drop_last(), name) + Seq::<Seq<ValueModel>>::empty()
            =~= Seq::<Seq<ValueModel>>::empty());
    }
}

/// Appending records that all target the name appends exactly their values.
pub proof fn lemma_wal_rows_append(
    recs2: Seq<WalRecordModel>,
    recs1: Seq<WalRecordModel>,
    name: Seq<char>,
    vals: Seq<Seq<ValueModel>>,
)
    requires
        recs2.len() == recs1.len() + vals.len(),
        recs2.take(recs1.len() as int) == recs1,
        forall|k: int| 0 <= k < vals.len() ==> (#[trigger] recs2[recs1.len() + k]).table == name
            && recs2[recs1.len() + k].values == vals[k],
    ensures
        wal_rows(recs2, name) == wal_rows(recs1, name) + vals,
    decreases vals.len(),
{
    if vals.len() == 0 {
        assert(recs2 =~= recs1);
        assert(wal_rows(recs1, name) + vals =~= wal_rows(recs1, name));
    } else {
        let r2 = recs2.drop_last();
        assert(r2.take(recs1.len() as int) =~= recs2.take(recs1.len() as int));
        assert(forall|k: int| 0 <= k < vals.len() - 1 ==> #[trigger] r2[recs1.len() + k]
            == recs2[recs1.len() + k]);
        lemma_wal_rows_append(r2, recs1, name, vals.drop_last());
        assert(recs2.last() == recs2[recs1.len() + (vals.len() - 1)]);
        assert(recs2.last().table == name && recs2.last().values == vals.last());
        assert((wal_rows(recs1, name) + vals.drop_last()) + seq![vals.last()] =~= wal_rows(
            recs1,
            name,
        ) + vals);
    }
}

/// Appending records that all target other names changes nothing here.
pub proof fn lemma_wal_rows_append_other(
    recs2: Seq<WalRecordModel>,
    recs1: Seq<WalRecordModel>,
    name: Seq<char>,
)
    requires
        recs2.len() >= recs1.len(),
        recs2.take(recs1.len() as int) == recs1,
        forall|k: int| recs1.len() <= k < recs2.len() ==> (#[trigger] recs2[k]).table != name,
    ensures
        wal_rows(recs2, name) == wal_rows(recs1, name),
    decreases recs2.len() - recs1.len(),
{
    if recs2.len() > recs1.len() {
        let r2 = recs2.drop_last();
        assert(r2.take(recs1.len() as int) =~= recs2.take(recs1.len() as int));
        assert(forall|k: int| recs1.len() <= k < r2.len() ==> #[trigger] r2[k] == recs2[k]);
        lemma_wal_rows_append_other(r2, recs1, name);
        assert(recs2.last() == recs2[recs2.len() - 1]);
        assert(wal_rows(r2, name) + Seq::<Seq<ValueModel>>::empty() =~= wal_rows(r2, name));
    } else {
        assert(recs2 =~= recs1);
    }
}

/// Log consistency carries over to a catalog with the same names and
/// schemas.
pub proof fn lemma_log_ok_like(t1: Seq<Table>, t2: Seq<Table>, recs: Seq<WalRecordModel>)
    requires
        log_ok(t1, recs),
        t1.len() == t2.len(),
        forall|i: int| 0 <= i < t1.len() ==> (#[trigger] t2[i]).meta.name@ == t1[i].meta.name@
            && t2[i].meta.columns == t1[i].meta.columns,
    ensures
        log_ok(t2, recs),
{
    assert forall|k: int| 0 <= k < recs.len() implies {
        let rec = #[trigger] recs[k];
        find_table(t2, rec.table) matches Some(ti) && valid_row(
            t2[ti].meta.columns@,
            rec.values,
        ) && spec_encode_row(t2[ti].meta.columns@, rec.values).len() <= ROW_CAPACITY
    } by {
        let rec = recs[k];
        lemma_find_table_same_names(t1, t2, rec.table);
        lemma_find_table_present(t1, rec.table);
        assert(find_table(t1, rec.table) is Some);
        let ti = find_table(t1, rec.table)->0;
        assert(0 <= ti < t1.len());
        assert(t2[ti].meta.columns == t1[ti].meta.columns);
        assert(valid_row(t1[ti].meta.columns@, rec.values));
    }
}

/// A found table stays found, at the same index, when a table is appended.
pub proof fn lemma_find_table_push(tables: Seq<Table>, t: Table, name: Seq<char>)
    requires
        find_table(tables, name) is Some,
    ensures
        find_table(tables.push(t), name) == find_table(tables, name),
    decreases tables.len(),
{
    if tables.len() > 0 {
        assert(tables.push(t)[0] == tables[0]);
        if tables[0].meta.name@ != name {
            assert(tables.push(t).drop_first() =~= tables.drop_first().push(t));
            lemma_find_table_push(tables.drop_first(), t, name);
        }
    }
}

/// With pairwise-distinct names, the table holding a name is where the
/// search finds it.
pub proof fn lemma_find_table_from_unique(tables: Seq<Table>, name: Seq<char>, i: int)
    requires
        0 <= i < tables.len(),
        tables[i].meta.name@ == name,
        forall|a: int, b: int| 0 <= a < b < tables.len() ==> tables[a].meta.name@
            != tables[b].meta.name@,
    ensures
        find_table(tables, name) == Some(i),
{
    assert forall|x: int| 0 <= x < i implies (#[trigger] tables[x]).meta.name@ != name by {
        assert(tables[x].meta.name@ != tables[i].meta.name@);
    }
    lemma_find_table_from(tables, name, i);
}

/// Every row the log assigns to a table is a valid, page-sized row for that
/// table's schema.
pub proof fn lemma_wal_rows_valid(
    tables: Seq<Table>,
    recs: Seq<WalRecordModel>,
    name: Seq<char>,
    ti: int,
)
    requires
        log_ok(tables, recs),
        find_table(tables, name) == Some(ti),
        0 <= ti < tables.len(),
    ensures
        forall|x: int| 0 <= x < wal_rows(recs, name).len() ==> valid_row(
            tables[ti].meta.columns@,
            #[trigger] wal_rows(recs, name)[x],
        ) && spec_encode_row(tables[ti].meta.columns@, wal_rows(recs, name)[x]).len()
            <= ROW_CAPACITY,
    decreases recs.len(),
{
    if recs.len() > 0 {
        let r2 = recs.drop_last();
        assert(forall|k: int| 0 <= k < r2.len() ==> #[trigger] r2[k] == recs[k]);
        lemma_wal_rows_valid(tables, r2, name, ti);
        let pre = wal_rows(r2, name);
        let full = wal_rows(recs, name);
        if recs.last().table == name {
            assert(recs[recs.len() - 1] == recs.last());
            assert(full == pre + seq![recs.last().values]);
            assert forall|x: int| 0 <= x < full.len() implies valid_row(
                tables[ti].meta.columns@,
                #[trigger] full[x],
            ) && spec_encode_row(tables[ti].meta.columns@, full[x]).len() <= ROW_CAPACITY by {
                if x < pre.len() {
                    assert(full[x] == pre[x]);
                } else {
                    assert(full[x] == recs.last().values);
                }
            }
        } else {
            assert(full =~= pre + Seq::<Seq<ValueModel>>::empty());
            assert(pre + Seq::<Seq<ValueModel>>::empty() =~= pre);
        }
    }
}

/// A backing file that only moved toward the observable file stays covered.
pub proof fn lemma_durable_step(
    d_old: Seq<Seq<u8>>,
    l_old: Seq<Seq<u8>>,
    d_new: Seq<Seq<u8>>,
    recs: Seq<WalRecordModel>,
    name: Seq<char>,
)
    requires
        durable_pages_covered(d_old, recs, name),
        pages_covered(l_old, recs, name),
        d_new == d_old || d_new == l_old,
    ensures
        durable_pages_covered(d_new, recs, name),
{
    if d_new == l_old {
        assert forall|p: int| 0 <= p < d_new.len() implies (#[trigger] d_new[p]
            == crate::codec::zero_seq(PAGE_SIZE as nat) || page_num_rows(d_new[p]) <= wal_count(
            recs,
            name,
            p as u64,
        )) by {
            assert(page_num_rows(l_old[p]) <= wal_count(recs, name, p as u64));
        }
    }
}

/// Allocation appends a zero page to the backing file; it holds no row.
pub proof fn lemma_durable_alloc(
    d_old: Seq<Seq<u8>>,
    l_old: Seq<Seq<u8>>,
    d_new: Seq<Seq<u8>>,
    recs: Seq<WalRecordModel>,
    name: Seq<char>,
)
    requires
        durable_pages_covered(d_old, recs, name),
        pages_covered(l_old, recs, name),
        d_new == d_old.push(crate::codec::zero_seq(PAGE_SIZE as nat)) || d_new == l_old.push(
            crate::codec::zero_seq(PAGE_SIZE as nat),
        ),
    ensures
        durable_pages_covered(d_new, recs, name),
{
    assert forall|p: int| 0 <= p < d_new.len() implies (#[trigger] d_new[p]
        == crate::codec::zero_seq(PAGE_SIZE as nat) || page_num_rows(d_new[p]) <= wal_count(
        recs,
        name,
        p as u64,
    )) by {
        if p < d_new.len() - 1 {
            if d_new == l_old.push(crate::codec::zero_seq(PAGE_SIZE as nat)) {
                assert(d_new[p] == l_old[p]);
                assert(page_num_rows(l_old[p]) <= wal_count(recs, name, p as u64));
            } else {
                assert(d_new[p] == d_old[p]);
            }
        }
    }
}

/// A freshly formatted page holds no row, so appending it keeps coverage.
pub proof fn lemma_covered_push_empty(
    l_old: Seq<Seq<u8>>,
    l_new: Seq<Seq<u8>>,
    recs: Seq<WalRecordModel>,
    name: Seq<char>,
)
    requires
        pages_covered(l_old, recs, name),
        l_new == l_old.push(spec_empty_page()),
    ensures
        pages_covered(l_new, recs, name),
{
    assert forall|p: int| 0 <= p < l_new.len() implies page_num_rows(#[trigger] l_new[p])
        <= wal_count(recs, name, p as u64) by {
        if p < l_new.len() - 1 {
            assert(l_new[p] == l_old[p]);
        } else {
            lemma_empty_page_wf(Seq::<ColumnDef>::empty());
            lemma_wal_count_nonneg(recs, name, p as u64);
        }
    }
}

/// Coverage is stable when every record count only grows.
pub proof fn lemma_covered_grow(
    pages: Seq<Seq<u8>>,
    recs1: Seq<WalRecordModel>,
    recs2: Seq<WalRecordModel>,
    name: Seq<char>,
)
    requires
        pages_covered(pages, recs1, name),
        forall|p: u64| #[trigger] wal_count(recs2, name, p) >= wal_count(recs1, name, p),
    ensures
        pages_covered(pages, recs2, name),
{
}

/// The same for the backing file.
pub proof fn lemma_durable_covered_grow(
    pages: Seq<Seq<u8>>,
    recs1: Seq<WalRecordModel>,
    recs2: Seq<WalRecordModel>,
    name: Seq<char>,
)
    requires
        durable_pages_covered(pages, recs1, name),
        forall|p: u64| #[trigger] wal_count(recs2, name, p) >= wal_count(recs1, name, p),
    ensures
        durable_pages_covered(pages, recs2, name),
{
    assert forall|p: int| 0 <= p < pages.len() implies (#[trigger] pages[p]
        == crate::codec::zero_seq(PAGE_SIZE as nat) || page_num_rows(pages[p]) <= wal_count(
        recs2,
        name,
        p as u64,
    )) by {
        assert(pages[p] == crate::codec::zero_seq(PAGE_SIZE as nat) || page_num_rows(pages[p])
            <= wal_count(recs1, name, p as u64));
        assert(wal_count(recs2, name, p as u64) >= wal_count(recs1, name, p as u64));
    }
}

impl StorageEngine {
    pub open spec fn wf(&self) -> bool {
        &&& forall|i: int| 0 <= i < self.tables@.len() ==> table_wf(#[trigger] self.tables@[i])
        &&& forall|i: int, j: int| 0 <= i < j < self.tables@.len()
            ==> self.tables@[i].meta.name@ != self.tables@[j].meta.name@
        &&& self.wal.wf()
        &&& forall|i: int| 0 <= i < self.tables@.len() ==> pages_covered(
            (#[trigger] self.tables@[i]).pool.logical(),
            self.wal.durable_records(),
            self.tables@[i].meta.name@,
        )
        &&& forall|i: int| 0 <= i < self.tables@.len() ==> durable_pages_covered(
            (#[trigger] self.tables@[i]).pool.durable(),
            self.wal.durable_records(),
            self.tables@[i].meta.name@,
        )
        &&& self.wal.durable_records() == self.wal.view()
        &&& forall|i: int| 0 <= i < self.tables@.len() ==> table_rows(#[trigger] self.tables@[i])
            == wal_rows(self.wal.view(), self.tables@[i].meta.name@)
        &&& log_ok(self.tables@, self.wal.view())
    }

    pub open spec fn has_table(&self, name: Seq<char>) -> bool {
        find_table(self.tables@, name) is Some
    }
}

pub proof fn lemma_find_table_present(tables: Seq<Table>, name: Seq<char>)
    ensures
        match find_table(tables, name) {
            Some(j) => 0 <= j < tables.len() && tables[j].meta.name@ == name,
            None => forall|i: int| 0 <= i < tables.len() ==> (#[trigger] tables[i]).meta.name@
                != name,
        },
    decreases tables.len(),
{
    if tables.len() > 0 {
        lemma_find_table_present(tables.drop_first(), name);
        assert(forall|i: int| 1 <= i < tables.len() ==> #[trigger] tables[i]
            == tables.drop_first()[i - 1]);
    }
}

/// `find_table` only looks at names, so it is stable under any change that
/// keeps every table's name.
pub proof fn lemma_find_table_same_names(t1: Seq<Table>, t2: Seq<Table>, name: Seq<char>)
    requires
        t1.len() == t2.len(),
        forall|i: int| 0 <= i < t1.len() ==> (#[trigger] t1[i]).meta.name@ == t2[i].meta.name@,
    ensures
        find_table(t1, name) == find_table(t2, name),
    decreases t1.len(),
{
    if t1.len() > 0 {
        assert(t1[0].meta.name@ == t2[0].meta.name@);
        assert(forall|i: int| 0 <= i < t1.len() - 1 ==> (#[trigger] t1.drop_first()[i]).meta.name@
            == t2.drop_first()[i].meta.name@);
        lemma_find_table_same_names(t1.drop_first(), t2.drop_first(), name);
    }
}

/// Decoding `k` rows then one more equals decoding `k + 1` rows.
pub proof fn lemma_dec_rows_snoc(cols: Seq<ColumnDef>, p: Seq<u8>, off: int, k: nat)
    requires
        dec_rows(cols, p, off, k) is Some,
    ensures
        dec_rows(cols, p, off, k + 1) == (match spec_decode_row(
            cols,
            p,
            (dec_rows(cols, p, off, k)->0).1,
        ) {
            Some(rv) => Some(
                ((dec_rows(cols, p, off, k)->0).0.push(rv.0), rv.1),
            ),
            None => None::<(Seq<Seq<ValueModel>>, int)>,
        }),
    decreases k,
{
    let re = dec_rows(cols, p, off, k)->0;
    if k == 0 {
        assert(re.1 == off);
        match spec_decode_row(cols, p, off) {
            Some(rv) => {
                assert(dec_rows(cols, p, rv.1, 0) == Some((Seq::<Seq<ValueModel>>::empty(), rv.1)));
                assert(dec_rows(cols, p, off, 1) == Some(
                    (seq![rv.0] + Seq::<Seq<ValueModel>>::empty(), rv.1),
                ));
                assert(seq![rv.0] + Seq::<Seq<ValueModel>>::empty() =~= re.0.push(rv.0));
            },
            None => {
                assert(dec_rows(cols, p, off, 1) is None);
            },
        }
    } else {
        let first = spec_decode_row(cols, p, off)->0;
        lemma_dec_rows_snoc(cols, p, first.1, (k - 1) as nat);
        let rest = dec_rows(cols, p, first.1, (k - 1) as nat)->0;
        assert(re.0 == seq![first.0] + rest.0);
        assert(re.1 == rest.1);
        assert((k + 1 - 1) as nat == k);
        assert(dec_rows(cols, p, off, k + 1) == (match dec_rows(cols, p, first.1, k) {
            Some(r2) => Some((seq![first.0] + r2.0, r2.1)),
            None => None::<(Seq<Seq<ValueModel>>, int)>,
        }));
        match spec_decode_row(cols, p, re.1) {
            Some(rv) => {
                assert(dec_rows(cols, p, first.1, k) == Some((rest.0.push(rv.0), rv.1)));
                assert(seq![first.0] + rest.0.push(rv.0) =~= (seq![first.0] + rest.0).push(rv.0));
            },
            None => {
                assert(dec_rows(cols, p, first.1, k) is None);
            },
        }
    }
}

/// Decoding depends only on the bytes between `lo` and `hi` as long as all
/// positions read stay inside that window.
pub proof fn lemma_dec_cells_stable(
    cols: Seq<ColumnDef>,
    b1: Seq<u8>,
    b2: Seq<u8>,
    npos: int,
    fpos: int,
    vpos: int,
    lo: int,
    hi: int,
)
    requires
        b1.len() == b2.len(),
        forall|k: int| lo <= k < hi ==> b1[k] == b2[k],
        lo <= npos,
        npos + cols.len() <= hi,
        lo <= fpos,
        fpos + fixed_len(cols) <= hi,
        lo <= vpos,
        hi <= b1.len(),
        dec_cells(cols, b1, npos, fpos, vpos) matches Some(re) && re.1 <= hi,
    ensures
        dec_cells(cols, b2, npos, fpos, vpos) == dec_cells(cols, b1, npos, fpos, vpos),
    decreases cols.len(),
{
    if cols.len() == 0 {
    } else {
        let w = crate::codec::width_of(cols[0].data_type) as int;
        assert(fixed_len(cols) == w + fixed_len(cols.drop_first()));
        assert(b2[npos] == b1[npos]);
        let re = dec_cells(cols, b1, npos, fpos, vpos)->0;
        if b1[npos] != 0 {
            lemma_dec_cells_stable(
                cols.drop_first(), b1, b2, npos + 1, fpos + w, vpos, lo, hi,
            );
        } else {
            match cols[0].data_type {
                DataType::Int | DataType::BigInt | DataType::Float | DataType::Double => {
                    assert(b2.subrange(fpos, fpos + 8) =~= b1.subrange(fpos, fpos + 8));
                    lemma_dec_cells_stable(
                        cols.drop_first(), b1, b2, npos + 1, fpos + 8, vpos, lo, hi,
                    );
                },
                DataType::Boolean => {
                    assert(b2[fpos] == b1[fpos]);
                    lemma_dec_cells_stable(
                        cols.drop_first(), b1, b2, npos + 1, fpos + 1, vpos, lo, hi,
                    );
                },
                DataType::Text | DataType::Varchar(_) => {
                    let l = vstd::bytes::spec_u64_from_le_bytes(b1.subrange(
                        vpos,
                        vpos + 8,
                    )) as int;
                    let sub = dec_cells(cols.drop_first(), b1, npos + 1, fpos, vpos + 8 + l);
                    assert(sub matches Some(s2) && s2.1 == re.1);
                    lemma_dec_cells_end_ge(cols.drop_first(), b1, npos + 1, fpos, vpos + 8 + l);
                    assert(vpos + 8 + l <= re.1);
                    assert(b2.subrange(vpos, vpos + 8) =~= b1.subrange(vpos, vpos + 8));
                    assert(b2.subrange(vpos + 8, vpos + 8 + l) =~= b1.subrange(
                        vpos + 8,
                        vpos + 8 + l,
                    ));
                    lemma_dec_cells_stable(
                        cols.drop_first(), b1, b2, npos + 1, fpos, vpos + 8 + l, lo, hi,
                    );
                },
            }
        }
    }
}

/// Row decoding depends only on the bytes between the data-area start and
/// the end of the last row.
pub proof fn lemma_dec_rows_stable(
    cols: Seq<ColumnDef>,
    b1: Seq<u8>,
    b2: Seq<u8>,
    off: int,
    k: nat,
    hi: int,
)
    requires
        b1.len() == b2.len(),
        forall|x: int| PAGE_HEADER <= x < hi ==> b1[x] == b2[x],
        off >= PAGE_HEADER,
        hi <= b1.len(),
        dec_rows(cols, b1, off, k) matches Some(re) && re.1 <= hi && off <= re.1,
    ensures
        dec_rows(cols, b2, off, k) == dec_rows(cols, b1, off, k),
    decreases k,
{
    if k > 0 {
        let n = cols.len() as int;
        let first = spec_decode_row(cols, b1, off)->0;
        lemma_dec_cells_end_ge(cols, b1, off, off + n, off + n + fixed_len(cols));
        let rest = dec_rows(cols, b1, first.1, (k - 1) as nat)->0;
        lemma_dec_rows_end_ge(cols, b1, first.1, (k - 1) as nat);
        lemma_dec_cells_stable(
            cols,
            b1,
            b2,
            off,
            off + n,
            off + n + fixed_len(cols),
            PAGE_HEADER as int,
            first.1,
        );
        lemma_dec_rows_stable(cols, b1, b2, first.1, (k - 1) as nat, hi);
    }
}

/// Decoding `k` rows never moves the cursor backwards.
pub proof fn lemma_dec_rows_end_ge(cols: Seq<ColumnDef>, b: Seq<u8>, off: int, k: nat)
    requires
        dec_rows(cols, b, off, k) is Some,
        off >= PAGE_HEADER,
    ensures
        (dec_rows(cols, b, off, k)->0).1 >= off,
        forall|x: nat| x <= k ==> dec_rows(cols, b, off, x) is Some
            && (#[trigger] dec_rows(cols, b, off, x)->0).1 <= (dec_rows(cols, b, off, k)->0).1,
    decreases k,
{
    if k > 0 {
        let n = cols.len() as int;
        let first = spec_decode_row(cols, b, off)->0;
        lemma_dec_cells_end_ge(cols, b, off, off + n, off + n + fixed_len(cols));
        lemma_dec_rows_end_ge(cols, b, first.1, (k - 1) as nat);
        assert forall|x: nat| x <= k implies dec_rows(cols, b, off, x) is Some
            && (#[trigger] dec_rows(cols, b, off, x)->0).1 <= (dec_rows(cols, b, off, k)->0).1 by {
            if x > 0 {
                assert(dec_rows(cols, b, first.1, (x - 1) as nat) is Some);
            }
        }
    }
}

/// A freshly formatted page: zero rows, the free offset at the data-area
/// start, zeroes elsewhere.
pub open spec fn spec_empty_page() -> Seq<u8> {
    vstd::bytes::spec_u16_to_le_bytes(0) + vstd::bytes::spec_u16_to_le_bytes(PAGE_HEADER as u16)
        + crate::codec::zero_seq((PAGE_SIZE - PAGE_HEADER) as nat)
}

pub proof fn lemma_empty_page_wf(cols: Seq<ColumnDef>)
    ensures
        page_wf(cols, spec_empty_page()),
        page_rows(cols, spec_empty_page()) == Seq::<Seq<ValueModel>>::empty(),
        page_num_rows(spec_empty_page()) == 0,
        page_free(spec_empty_page()) == PAGE_HEADER,
        spec_empty_page().len() == PAGE_SIZE,
{
    vstd::bytes::lemma_auto_spec_u16_to_from_le_bytes();
    let p = spec_empty_page();
    assert(p.subrange(0, 2) =~= vstd::bytes::spec_u16_to_le_bytes(0));
    assert(p.subrange(2, 4) =~= vstd::bytes::spec_u16_to_le_bytes(PAGE_HEADER as u16));
}

/// Builds the byte image of a freshly formatted page.
pub fn empty_page_image() -> (v: Vec<u8>)
    ensures
        v@ == spec_empty_page(),
{
    proof {
        vstd::bytes::lemma_auto_spec_u16_to_from_le_bytes();
    }
    let mut v = vstd::bytes::u16_to_le_bytes(0);
    let mut fo = vstd::bytes::u16_to_le_bytes(PAGE_HEADER as u16);
    v.append(&mut fo);
    let mut i: usize = 0;
    while i < PAGE_SIZE - PAGE_HEADER
        invariant
            i <= PAGE_SIZE - PAGE_HEADER,
            v@ == vstd::bytes::spec_u16_to_le_bytes(0) + vstd::bytes::spec_u16_to_le_bytes(
                PAGE_HEADER as u16,
            ) + crate::codec::zero_seq(i as nat),
        decreases PAGE_SIZE - PAGE_HEADER - i,
    {
        v.push(0);
        proof {
            assert(crate::codec::zero_seq((i + 1) as nat) =~= crate::codec::zero_seq(
                i as nat,
            ).push(0u8));
            assert(v@ =~= vstd::bytes::spec_u16_to_le_bytes(0)
                + vstd::bytes::spec_u16_to_le_bytes(PAGE_HEADER as u16)
                + crate::codec::zero_seq((i + 1) as nat));
        }
        i += 1;
    }
    v
}

/// Appending an encoded row to a well-formed page appends its values to the
/// page's rows and preserves well-formedness.
pub proof fn lemma_page_append_rows(cols: Seq<ColumnDef>, p: Seq<u8>, vs: Seq<ValueModel>)
    requires
        page_wf(cols, p),
        valid_row(cols, vs),
        spec_encode_row(cols, vs).len() <= ROW_CAPACITY,
        page_free(p) + spec_encode_row(cols, vs).len() <= PAGE_SIZE,
        page_num_rows(p) < 0xffff,
        page_num_rows(p) >= 0,
    ensures
        page_wf(cols, spec_page_append(p, spec_encode_row(cols, vs))),
        page_rows(cols, spec_page_append(p, spec_encode_row(cols, vs))) == page_rows(
            cols,
            p,
        ).push(vs),
        page_num_rows(spec_page_append(p, spec_encode_row(cols, vs))) == page_num_rows(p) + 1,
        page_free(spec_page_append(p, spec_encode_row(cols, vs))) == page_free(p)
            + spec_encode_row(cols, vs).len(),
    decreases 0int,
{
    vstd::bytes::lemma_auto_spec_u16_to_from_le_bytes();
    let enc = spec_encode_row(cols, vs);
    let p2 = spec_page_append(p, enc);
    let nr = page_num_rows(p);
    let fo = page_free(p);
    assert(p2.subrange(0, 2) =~= vstd::bytes::spec_u16_to_le_bytes((nr + 1) as u16));
    assert(p2.subrange(2, 4) =~= vstd::bytes::spec_u16_to_le_bytes((fo + enc.len()) as u16));
    assert(page_num_rows(p2) == nr + 1);
    assert(page_free(p2) == fo + enc.len());
    let re = dec_rows(cols, p, PAGE_HEADER as int, nr as nat)->0;
    lemma_dec_rows_end_ge(cols, p, PAGE_HEADER as int, nr as nat);
    assert(forall|x: int| PAGE_HEADER <= x < fo ==> p2[x] == p[x]);
    lemma_dec_rows_stable(cols, p, p2, PAGE_HEADER as int, nr as nat, fo);
    assert(p2.subrange(fo, fo + enc.len() as int) =~= enc);
    lemma_decode_embedded(cols, vs, p2, fo);
    lemma_dec_rows_snoc(cols, p2, PAGE_HEADER as int, nr as nat);
    assert(dec_rows(cols, p2, PAGE_HEADER as int, (nr + 1) as nat) == Some(
        (page_rows(cols, p).push(vs), fo + enc.len() as int),
    ));
}

/// Pages before/from an index contribute their rows independently.
pub proof fn lemma_pages_rows_agree(
    cols: Seq<ColumnDef>,
    g1: Seq<Seq<u8>>,
    g2: Seq<Seq<u8>>,
    i: int,
)
    requires
        g1.len() == g2.len(),
        forall|x: int| i <= x < g1.len() ==> g1[x] == g2[x],
    ensures
        pages_rows(cols, g1, i) == pages_rows(cols, g2, i),
    decreases g1.len() - i,
{
    if 0 <= i < g1.len() {
        lemma_pages_rows_agree(cols, g1, g2, i + 1);
    }
}

/// Appending a page appends its rows.
pub proof fn lemma_pages_rows_push(cols: Seq<ColumnDef>, pages: Seq<Seq<u8>>, q: Seq<u8>, i: int)
    requires
        0 <= i <= pages.len(),
    ensures
        pages_rows(cols, pages.push(q), i) == pages_rows(cols, pages, i) + page_rows(cols, q),
    decreases pages.len() - i,
{
    let g2 = pages.push(q);
    if i == pages.len() {
        assert(pages_rows(cols, g2, i + 1) =~= Seq::<Seq<ValueModel>>::empty());
        assert(pages_rows(cols, g2, i) =~= page_rows(cols, q) + Seq::<Seq<ValueModel>>::empty());
        assert(page_rows(cols, q) + Seq::<Seq<ValueModel>>::empty() =~= page_rows(cols, q));
        assert(pages_rows(cols, pages, i) =~= Seq::<Seq<ValueModel>>::empty());
        assert(Seq::<Seq<ValueModel>>::empty() + page_rows(cols, q) =~= page_rows(cols, q));
    } else {
        lemma_pages_rows_push(cols, pages, q, i + 1);
        assert(pages_rows(cols, g2, i) == page_rows(cols, pages[i]) + pages_rows(cols, g2, i + 1));
        assert(page_rows(cols, pages[i]) + (pages_rows(cols, pages, i + 1) + page_rows(cols, q))
            =~= (page_rows(cols, pages[i]) + pages_rows(cols, pages, i + 1)) + page_rows(cols, q));
    }
}

/// Replacing the last page replaces its contribution to the rows.
pub proof fn lemma_pages_rows_update_last(
    cols: Seq<ColumnDef>,
    pages: Seq<Seq<u8>>,
    q: Seq<u8>,
    i: int,
)
    requires
        pages.len() >= 1,
        0 <= i <= pages.len() - 1,
    ensures
        pages_rows(cols, pages.update(pages.len() - 1, q), i) == pages_rows(
            cols,
            pages.take(pages.len() - 1),
            i,
        ) + page_rows(cols, q),
        pages_rows(cols, pages, i) == pages_rows(cols, pages.take(pages.len() - 1), i)
            + page_rows(cols, pages[pages.len() - 1]),
    decreases pages.len() - i,
{
    let last = pages.len() - 1;
    let g2 = pages.update(last, q);
    let gt = pages.take(last);
    if i == last {
        assert(pages_rows(cols, g2, i + 1) =~= Seq::<Seq<ValueModel>>::empty());
        assert(pages_rows(cols, pages, i + 1) =~= Seq::<Seq<ValueModel>>::empty());
        assert(pages_rows(cols, g2, i) =~= page_rows(cols, q) + Seq::<Seq<ValueModel>>::empty());
        assert(page_rows(cols, q) + Seq::<Seq<ValueModel>>::empty() =~= page_rows(cols, q));
        assert(pages_rows(cols, gt, i) =~= Seq::<Seq<ValueModel>>::empty());
        assert(Seq::<Seq<ValueModel>>::empty() + page_rows(cols, q) =~= page_rows(cols, q));
        assert(pages_rows(cols, pages, i) =~= page_rows(cols, pages[last])
            + Seq::<Seq<ValueModel>>::empty());
        assert(page_rows(cols, pages[last]) + Seq::<Seq<ValueModel>>::empty() =~= page_rows(
            cols,
            pages[last],
        ));
        assert(Seq::<Seq<ValueModel>>::empty() + page_rows(cols, pages[last]) =~= page_rows(
            cols,
            pages[last],
        ));
    } else {
        lemma_pages_rows_update_last(cols, pages, q, i + 1);
        assert(g2[i] == pages[i]);
        assert(gt[i] == pages[i]);
        assert(page_rows(cols, pages[i]) + (pages_rows(cols, gt, i + 1) + page_rows(cols, q))
            =~= (page_rows(cols, pages[i]) + pages_rows(cols, gt, i + 1)) + page_rows(cols, q));
        assert(page_rows(cols, pages[i]) + (pages_rows(cols, gt, i + 1) + page_rows(
            cols,
            pages[last],
        )) =~= (page_rows(cols, pages[i]) + pages_rows(cols, gt, i + 1)) + page_rows(
            cols,
            pages[last],
        ));
    }
}

/// Equality of two stored values: Null compares equal to nothing (not even
/// Null), values of different types compare unequal, Float compares by bit
/// pattern.
pub open spec fn vm_eq(a: ValueModel, b: ValueModel) -> bool {
    match (a, b) {
        (ValueModel::Int(x), ValueModel::Int(y)) => x == y,
        (ValueModel::Float(x), ValueModel::Float(y)) => x == y,
        (ValueModel::Text(x), ValueModel::Text(y)) => x == y,
        (ValueModel::Bool(x), ValueModel::Bool(y)) => x == y,
        _ => false,
    }
}

/// Exec counterpart of [`vm_eq`].
pub fn value_eq(a: &Value, b: &Value) -> (r: bool)
    ensures
        r == vm_eq(a@, b@),
{
    match (a, b) {
        (Value::Int(x), Value::Int(y)) => *x == *y,
        (Value::Float(x), Value::Float(y)) => *x == *y,
        (Value::Text(x), Value::Text(y)) => x.eq(y),
        (Value::Bool(x), Value::Bool(y)) => *x == *y,
        _ => false,
    }
}

/// The literal values of one inserted row, if every expression is a literal.
pub open spec fn row_literals(es: Seq<Expression>) -> Option<Seq<ValueModel>>
    decreases es.len(),
{
    if es.len() == 0 {
        Some(Seq::empty())
    } else {
        match es[0] {
            Expression::Literal(v) => match row_literals(es.drop_first()) {
                Some(rest) => Some(seq![v@] + rest),
                None => None,
            },
            _ => None,
        }
    }
}

/// The literal rows of an insert statement.
pub open spec fn stmt_rows(vss: Seq<Vec<Expression>>) -> Option<Seq<Seq<ValueModel>>>
    decreases vss.len(),
{
    if vss.len() == 0 {
        Some(Seq::empty())
    } else {
        match row_literals(vss[0]@) {
            Some(r) => match stmt_rows(vss.drop_first()) {
                Some(rest) => Some(seq![r] + rest),
                None => None,
            },
            None => None,
        }
    }
}

/// No value of column `pki` occurs twice in the batch nor already in the
/// table.  Null never compares equal, so Null values are exempt.
pub open spec fn no_dup(
    existing: Seq<Seq<ValueModel>>,
    rows: Seq<Seq<ValueModel>>,
    pki: int,
) -> bool {
    &&& forall|a: int, b: int| 0 <= a < b < rows.len() ==> !vm_eq(
        #[trigger] rows[a][pki],
        #[trigger] rows[b][pki],
    )
    &&& forall|a: int, e: int| 0 <= a < rows.len() && 0 <= e < existing.len() && pki < (
    existing[e]).len() ==> !vm_eq(#[trigger] existing[e][pki], #[trigger] rows[a][pki])
}

/// Whether a column may not hold Null: declared `NotNull`, or the primary
/// key (a primary key implies `NotNull`).
pub open spec fn notnull_col(c: ColumnDef) -> bool {
    has_notnull_constraint(c) || has_pk_constraint(c)
}

/// Whether a column's values must be pairwise distinct: declared `Unique`
/// or `PrimaryKey`.
pub open spec fn key_col(c: ColumnDef) -> bool {
    has_unique_constraint(c) || has_pk_constraint(c)
}

/// Every row has the declared arity and types, and no required column
/// holds Null.  A violation is a type mismatch.
pub open spec fn rows_typed(cols: Seq<ColumnDef>, rows: Seq<Seq<ValueModel>>) -> bool {
    &&& forall|k: int| 0 <= k < rows.len() ==> valid_row(cols, #[trigger] rows[k])
    &&& forall|k: int, c: int| 0 <= k < rows.len() && 0 <= c < cols.len() && notnull_col(cols[c])
        ==> !(#[trigger] rows[k][c] is Null)
}

/// Every encoded row fits the data area of one page.
pub open spec fn rows_fit(cols: Seq<ColumnDef>, rows: Seq<Seq<ValueModel>>) -> bool {
    forall|k: int| 0 <= k < rows.len() ==> spec_encode_row(cols, #[trigger] rows[k]).len()
        <= ROW_CAPACITY
}

/// Every `PrimaryKey` or `Unique` column receives only fresh values.
/// A violation is a duplicate key.
pub open spec fn keys_fresh(t: Table, rows: Seq<Seq<ValueModel>>) -> bool {
    forall|u: int| 0 <= u < t.meta.columns@.len() && key_col(#[trigger] t.meta.columns@[u])
        ==> no_dup(table_rows(t), rows, u)
}

/// The encoded size of each row, in statement order.
pub open spec fn row_sizes(cols: Seq<ColumnDef>, rows: Seq<Seq<ValueModel>>) -> Seq<int> {
    Seq::new(rows.len(), |k: int| spec_encode_row(cols, rows[k]).len() as int)
}

/// Page placement of one row: a fresh page when the table is empty, the row
/// does not fit the last page's free space, or the page's slots are
/// exhausted; the last page otherwise.  The state is (page count, free
/// offset of the last page, rows in the last page).
pub open spec fn place_step(st: (int, int, int), s: int) -> (int, int, int) {
    if st.0 == 0 || st.1 + s > PAGE_SIZE || st.2 == 0xffff {
        (st.0 + 1, PAGE_HEADER + s, 1)
    } else {
        (st.0, st.1 + s, st.2 + 1)
    }
}

/// Placement of a whole batch, row by row.
pub open spec fn place_rows(st: (int, int, int), sizes: Seq<int>) -> (int, int, int)
    decreases sizes.len(),
{
    if sizes.len() == 0 {
        st
    } else {
        place_rows(place_step(st, sizes[0]), sizes.drop_first())
    }
}

pub proof fn lemma_place_rows_snoc(st: (int, int, int), sizes: Seq<int>, k: int)
    requires
        0 <= k < sizes.len(),
    ensures
        place_rows(st, sizes.take(k + 1)) == place_step(place_rows(st, sizes.take(k)), sizes[k]),
    decreases k,
{
    if k == 0 {
        assert(sizes.take(1).drop_first() =~= sizes.take(0));
        assert(sizes.take(0) =~= Seq::<int>::empty());
        assert(sizes.take(1)[0] == sizes[0]);
        assert(place_rows(place_step(st, sizes[0]), sizes.take(1).drop_first()) == place_step(
            st,
            sizes[0],
        ));
    } else {
        let s2 = sizes.drop_first();
        assert(sizes.take(k + 1).drop_first() =~= s2.take(k));
        assert(sizes.take(k).drop_first() =~= s2.take(k - 1));
        assert(sizes.take(k + 1)[0] == sizes[0]);
        assert(sizes.take(k)[0] == sizes[0]);
        assert(s2[k - 1] == sizes[k]);
        lemma_place_rows_snoc(place_step(st, sizes[0]), s2, k - 1);
    }
}

/// The placement state a table is in: its page count and the fill of its
/// last page.
pub open spec fn table_place_state(t: Table) -> (int, int, int) {
    if t.meta.page_count == 0 {
        (0, 0, 0)
    } else {
        (
            t.meta.page_count as int,
            page_free(t.pool.logical().last()),
            page_num_rows(t.pool.logical().last()),
        )
    }
}

/// The page budget is a machine limit on the file size.
pub open spec fn budget_ok(t: Table, rows: Seq<Seq<ValueModel>>) -> bool {
    t.meta.page_count as int + rows.len() < u64::MAX
}

/// Whether an insert statement is accepted against a table: no column list,
/// literal rows of the declared arity and types, no Null in a `NotNull` or
/// primary-key column, each row page-sized, only fresh values in key
/// columns, and the file's page budget respected.
pub open spec fn insert_ok(t: Table, stmt: InsertStmt) -> bool {
    &&& stmt.columns@.len() == 0
    &&& stmt_rows(stmt.values@) matches Some(rows) && {
        &&& rows_typed(t.meta.columns@, rows)
        &&& rows_fit(t.meta.columns@, rows)
        &&& keys_fresh(t, rows)
        &&& budget_ok(t, rows)
    }
}

/// Decodes every row of a well-formed page.
pub fn decode_page(cols: &Vec<ColumnDef>, b: &Vec<u8>) -> (r: Vec<Vec<Value>>)
    requires
        page_wf(cols@, b@),
        cols@.len() <= MAX_COLUMNS,
    ensures
        r.deep_view() == page_rows(cols@, b@),
{
    let nr = read_num_rows(b);
    proof {
        lemma_dec_rows_end_ge(cols@, b@, PAGE_HEADER as int, page_num_rows(b@) as nat);
    }
    let mut acc: Vec<Vec<Value>> = Vec::new();
    let mut off: usize = PAGE_HEADER;
    let mut j: u16 = 0;
    assert(acc.deep_view() =~= Seq::<Seq<ValueModel>>::empty());
    while j < nr
        invariant
            0 <= j <= nr,
            nr as int == page_num_rows(b@),
            page_wf(cols@, b@),
            cols@.len() <= MAX_COLUMNS,
            acc@.len() == j as int,
            dec_rows(cols@, b@, PAGE_HEADER as int, j as nat) == Some(
                (acc.deep_view(), off as int),
            ),
        decreases nr - j,
    {
        proof {
            lemma_dec_rows_end_ge(cols@, b@, PAGE_HEADER as int, page_num_rows(b@) as nat);
            assert(dec_rows(cols@, b@, PAGE_HEADER as int, (j + 1) as nat) is Some);
            lemma_dec_rows_snoc(cols@, b@, PAGE_HEADER as int, j as nat);
            assert(spec_decode_row(cols@, b@, off as int) is Some);
        }
        let ghost prevd = acc.deep_view();
        match decode_row(cols, b, off) {
            Ok(rv) => {
                let (vals, end) = rv;
                acc.push(vals);
                off = end;
                proof {
                    assert(acc@.len() == j + 1);
                    assert forall|x: int| 0 <= x < j + 1 implies acc.deep_view()[x] == prevd.push(
                        vals.deep_view(),
                    )[x] by {
                        if x < j {
                            assert(prevd[x] == acc@[x].deep_view());
                        }
                    }
                    assert(acc.deep_view() =~= prevd.push(vals.deep_view()));
                }
            },
            Err(_) => {
                proof {
                    assert(false);
                }
            },
        }
        j += 1;
    }
    proof {
        assert(page_rows(cols@, b@) == acc.deep_view());
    }
    acc
}

/// Reads every row of a table, page by page through the buffer pool: each
/// page is pinned while it is decoded and released afterwards.
pub fn read_all_rows(t: &mut Table) -> (r: Result<Vec<Vec<Value>>, GSQLError>)
    requires
        table_wf(*old(t)),
    ensures
        table_wf(*final(t)),
        final(t).meta == old(t).meta,
        final(t).pool.logical() == old(t).pool.logical(),
        final(t).pool.cap() == old(t).pool.cap(),
        final(t).pool.durable() == old(t).pool.durable() || final(t).pool.durable() == old(
            t,
        ).pool.logical(),
        table_rows(*final(t)) == table_rows(*old(t)),
        r matches Ok(rows) && rows.deep_view() == table_rows(*old(t)),
    decreases 0int,
{
    let n = t.pool.num_pages();
    let mut acc: Vec<Vec<Value>> = Vec::new();
    let mut p: usize = 0;
    assert(acc.deep_view() =~= Seq::<Seq<ValueModel>>::empty());
    assert(pages_rows(t.meta.columns@, t.pool.logical(), 0).take(0)
        =~= Seq::<Seq<ValueModel>>::empty());
    while p < n
        invariant
            0 <= p <= n,
            table_wf(*t),
            t.meta == old(t).meta,
            n == t.pool.logical().len(),
            t.pool.logical() == old(t).pool.logical(),
            t.pool.cap() == old(t).pool.cap(),
            t.pool.durable() == old(t).pool.durable() || t.pool.durable() == old(
                t,
            ).pool.logical(),
            acc.deep_view() == prefix_rows(t.meta.columns@, t.pool.logical(), p as int),
        decreases n - p,
    {
        let pb = match t.pool.get(p as u64) {
            Ok(d) => d,
            Err(_) => {
                t.pool.flush_all();
                proof {
                    t.pool.lemma_can_admit(p as int);
                }
                match t.pool.get(p as u64) {
                    Ok(d) => d,
                    Err(e) => {
                        proof {
                            assert(false);
                        }
                        return Err(e);
                    },
                }
            },
        };
        t.pool.release(p as u64);
        let rows = decode_page(&t.meta.columns, &pb);
        append_rows(&mut acc, &rows);
        proof {
            lemma_prefix_rows_snoc(t.meta.columns@, t.pool.logical(), p as int);
        }
        p += 1;
    }
    proof {
        lemma_prefix_rows_all(t.meta.columns@, t.pool.logical());
    }
    Ok(acc)
}

/// Rows of the first `p` pages.
pub open spec fn prefix_rows(cols: Seq<ColumnDef>, pages: Seq<Seq<u8>>, p: int) -> Seq<
    Seq<ValueModel>,
>
    decreases p,
{
    if p <= 0 {
        Seq::empty()
    } else {
        prefix_rows(cols, pages, p - 1) + page_rows(cols, pages[p - 1])
    }
}

pub proof fn lemma_prefix_rows_snoc(cols: Seq<ColumnDef>, pages: Seq<Seq<u8>>, p: int)
    requires
        0 <= p < pages.len(),
    ensures
        prefix_rows(cols, pages, p + 1) == prefix_rows(cols, pages, p) + page_rows(
            cols,
            pages[p],
        ),
{
}

/// The first `len` pages are all of them.
pub proof fn lemma_prefix_rows_all(cols: Seq<ColumnDef>, pages: Seq<Seq<u8>>)
    ensures
        prefix_rows(cols, pages, pages.len() as int) == pages_rows(cols, pages, 0),
{
    lemma_prefix_suffix(cols, pages, pages.len() as int);
    assert(pages_rows(cols, pages, pages.len() as int) =~= Seq::<Seq<ValueModel>>::empty());
    assert(prefix_rows(cols, pages, pages.len() as int) + Seq::<Seq<ValueModel>>::empty()
        =~= prefix_rows(cols, pages, pages.len() as int));
}

proof fn lemma_prefix_suffix(cols: Seq<ColumnDef>, pages: Seq<Seq<u8>>, i: int)
    requires
        0 <= i <= pages.len(),
    ensures
        prefix_rows(cols, pages, i) + pages_rows(cols, pages, i) == pages_rows(cols, pages, 0),
    decreases i,
{
    if i == 0 {
        assert(prefix_rows(cols, pages, 0) + pages_rows(cols, pages, 0) =~= pages_rows(
            cols,
            pages,
            0,
        ));
    } else {
        lemma_prefix_suffix(cols, pages, i - 1);
        assert(prefix_rows(cols, pages, i) == prefix_rows(cols, pages, i - 1) + page_rows(
            cols,
            pages[i - 1],
        ));
        assert(pages_rows(cols, pages, i - 1) == page_rows(cols, pages[i - 1]) + pages_rows(
            cols,
            pages,
            i,
        ));
        assert((prefix_rows(cols, pages, i - 1) + page_rows(cols, pages[i - 1])) + pages_rows(
            cols,
            pages,
            i,
        ) =~= prefix_rows(cols, pages, i - 1) + (page_rows(cols, pages[i - 1]) + pages_rows(
            cols,
            pages,
            i,
        )));
    }
}

/// Copies rows onto the end of `acc`, preserving both models.
pub fn append_rows(acc: &mut Vec<Vec<Value>>, rows: &Vec<Vec<Value>>)
    ensures
        final(acc).deep_view() == old(acc).deep_view() + rows.deep_view(),
{
    let n = rows.len();
    let mut i: usize = 0;
    while i < n
        invariant
            i <= n,
            n == rows@.len(),
            acc@.len() == old(acc)@.len() + i,
            acc.deep_view() == old(acc).deep_view() + rows.deep_view().take(i as int),
        decreases n - i,
    {
        let ghost prevv = acc@;
        let ghost prevd = acc.deep_view();
        let c = clone_values(&rows[i]);
        acc.push(c);
        proof {
            assert(prevv.len() == old(acc)@.len() + i);
            assert(prevd.len() == prevv.len());
            assert(acc@ == prevv.push(acc@[prevv.len() as int]));
            assert(acc@[prevv.len() as int].deep_view() == rows.deep_view()[i as int]);
            assert forall|x: int| 0 <= x < prevv.len() + 1 implies acc.deep_view()[x]
                == (old(acc).deep_view() + rows.deep_view().take(i + 1))[x] by {
                if x < prevv.len() {
                    assert(acc@[x] == prevv[x]);
                    assert(prevd[x] == prevv[x].deep_view());
                }
            }
            assert(acc.deep_view() =~= old(acc).deep_view() + rows.deep_view().take(i + 1));
        }
        i += 1;
    }
    proof {
        assert(rows.deep_view().take(n as int) =~= rows.deep_view());
    }
}

/// Whether a column is declared as the primary key.
pub open spec fn has_pk_constraint(c: ColumnDef) -> bool {
    exists|k: int| 0 <= k < c.constraints@.len() && #[trigger] c.constraints@[k] is PrimaryKey
}

/// Whether a column is declared `NotNull`.
pub open spec fn has_notnull_constraint(c: ColumnDef) -> bool {
    exists|k: int| 0 <= k < c.constraints@.len() && #[trigger] c.constraints@[k] is NotNull
}

/// Whether a column is declared `Unique`.
pub open spec fn has_unique_constraint(c: ColumnDef) -> bool {
    exists|k: int| 0 <= k < c.constraints@.len() && #[trigger] c.constraints@[k] is Unique
}

fn col_has_notnull(c: &ColumnDef) -> (r: bool)
    ensures
        r == has_notnull_constraint(*c),
{
    let mut k: usize = 0;
    let n = c.constraints.len();
    while k < n
        invariant
            k <= n,
            n == c.constraints@.len(),
            forall|x: int| 0 <= x < k ==> !(#[trigger] c.constraints@[x] is NotNull),
        decreases n - k,
    {
        if matches!(c.constraints[k], Constraint::NotNull) {
            return true;
        }
        k += 1;
    }
    false
}

fn col_has_unique(c: &ColumnDef) -> (r: bool)
    ensures
        r == has_unique_constraint(*c),
{
    let mut k: usize = 0;
    let n = c.constraints.len();
    while k < n
        invariant
            k <= n,
            n == c.constraints@.len(),
            forall|x: int| 0 <= x < k ==> !(#[trigger] c.constraints@[x] is Unique),
        decreases n - k,
    {
        if matches!(c.constraints[k], Constraint::Unique) {
            return true;
        }
        k += 1;
    }
    false
}

/// Index of the first primary-key column, if any.
pub open spec fn pk_index(cols: Seq<ColumnDef>) -> Option<int>
    decreases cols.len(),
{
    if cols.len() == 0 {
        None
    } else if has_pk_constraint(cols[0]) {
        Some(0)
    } else {
        match pk_index(cols.drop_first()) {
            Some(j) => Some(j + 1),
            None => None,
        }
    }
}

pub proof fn lemma_pk_index_bounds(cols: Seq<ColumnDef>)
    ensures
        pk_index(cols) matches Some(j) ==> 0 <= j < cols.len(),
    decreases cols.len(),
{
    if cols.len() > 0 {
        lemma_pk_index_bounds(cols.drop_first());
    }
}

fn col_has_pk(c: &ColumnDef) -> (r: bool)
    ensures
        r == has_pk_constraint(*c),
{
    let mut k: usize = 0;
    let n = c.constraints.len();
    while k < n
        invariant
            k <= n,
            n == c.constraints@.len(),
            forall|x: int| 0 <= x < k ==> !(#[trigger] c.constraints@[x] is PrimaryKey),
        decreases n - k,
    {
        if matches!(c.constraints[k], Constraint::PrimaryKey) {
            return true;
        }
        k += 1;
    }
    false
}

fn find_pk(cols: &Vec<ColumnDef>) -> (r: Option<usize>)
    ensures
        match r {
            Some(i) => pk_index(cols@) == Some(i as int),
            None => pk_index(cols@) is None,
        },
{
    let n = cols.len();
    let mut i: usize = 0;
    while i < n
        invariant
            i <= n,
            n == cols@.len(),
            forall|x: int| 0 <= x < i ==> !has_pk_constraint(#[trigger] cols@[x]),
        decreases n - i,
    {
        if col_has_pk(&cols[i]) {
            proof {
                lemma_pk_index_from(cols@, i as int);
            }
            return Some(i);
        }
        i += 1;
    }
    proof {
        lemma_pk_index_from(cols@, n as int);
    }
    None
}

/// If no column before `i` is a primary key, the search outcome is decided
/// at `i`.
pub proof fn lemma_pk_index_from(cols: Seq<ColumnDef>, i: int)
    requires
        0 <= i <= cols.len(),
        forall|x: int| 0 <= x < i ==> !has_pk_constraint(#[trigger] cols[x]),
    ensures
        i == cols.len() ==> pk_index(cols) is None,
        i < cols.len() && has_pk_constraint(cols[i]) ==> pk_index(cols) == Some(i),
    decreases cols.len(),
{
    if cols.len() > 0 && i > 0 {
        assert(forall|x: int| 0 <= x < i - 1 ==> cols.drop_first()[x] == cols[x + 1]);
        lemma_pk_index_from(cols.drop_first(), i - 1);
    }
}

/// Same first-match argument for table names.
pub proof fn lemma_find_table_from(tables: Seq<Table>, name: Seq<char>, i: int)
    requires
        0 <= i <= tables.len(),
        forall|x: int| 0 <= x < i ==> (#[trigger] tables[x]).meta.name@ != name,
    ensures
        i == tables.len() ==> find_table(tables, name) is None,
        i < tables.len() && tables[i].meta.name@ == name ==> find_table(tables, name) == Some(i),
    decreases tables.len(),
{
    if tables.len() > 0 && i > 0 {
        assert(forall|x: int| 0 <= x < i - 1 ==> tables.drop_first()[x] == tables[x + 1]);
        lemma_find_table_from(tables.drop_first(), name, i - 1);
    }
}

/// Index of the first column with the given name.
pub open spec fn col_index(cols: Seq<ColumnDef>, name: Seq<char>) -> Option<int>
    decreases cols.len(),
{
    if cols.len() == 0 {
        None
    } else if cols[0].name@ == name {
        Some(0)
    } else {
        match col_index(cols.drop_first(), name) {
            Some(j) => Some(j + 1),
            None => None,
        }
    }
}

pub proof fn lemma_col_index_from(cols: Seq<ColumnDef>, name: Seq<char>, i: int)
    requires
        0 <= i <= cols.len(),
        forall|x: int| 0 <= x < i ==> (#[trigger] cols[x]).name@ != name,
    ensures
        i == cols.len() ==> col_index(cols, name) is None,
        i < cols.len() && cols[i].name@ == name ==> col_index(cols, name) == Some(i),
    decreases cols.len(),
{
    if cols.len() > 0 && i > 0 {
        assert(forall|x: int| 0 <= x < i - 1 ==> cols.drop_first()[x] == cols[x + 1]);
        lemma_col_index_from(cols.drop_first(), name, i - 1);
    }
}

fn find_col(cols: &Vec<ColumnDef>, name: &String) -> (r: Option<usize>)
    ensures
        match r {
            Some(i) => col_index(cols@, name@) == Some(i as int) && i < cols@.len(),
            None => col_index(cols@, name@) is None,
        },
{
    let n = cols.len();
    let mut i: usize = 0;
    while i < n
        invariant
            i <= n,
            n == cols@.len(),
            forall|x: int| 0 <= x < i ==> (#[trigger] cols@[x]).name@ != name@,
        decreases n - i,
    {
        if cols[i].name.eq(name) {
            proof {
                lemma_col_index_from(cols@, name@, i as int);
            }
            return Some(i);
        }
        i += 1;
    }
    proof {
        lemma_col_index_from(cols@, name@, n as int);
    }
    None
}

/// The supported filter shapes: no filter, or equality between one column
/// and one literal, the column being declared in the schema.
pub open spec fn where_ok(cols: Seq<ColumnDef>, w: Option<Expression>) -> bool {
    match w {
        None => true,
        Some(e) => match e {
            Expression::Eq(a, b) => match (*a, *b) {
                (Expression::Column(c), Expression::Literal(_)) => col_index(cols, c@) is Some,
                (Expression::Literal(_), Expression::Column(c)) => col_index(cols, c@) is Some,
                _ => false,
            },
            _ => false,
        },
    }
}

/// Whether a filter names a column that the schema does not have.
pub open spec fn where_unknown_col(cols: Seq<ColumnDef>, w: Option<Expression>) -> bool {
    match w {
        None => false,
        Some(e) => match e {
            Expression::Eq(a, b) => match (*a, *b) {
                (Expression::Column(c), Expression::Literal(_)) => col_index(cols, c@) is None,
                (Expression::Literal(_), Expression::Column(c)) => col_index(cols, c@) is None,
                _ => false,
            },
            _ => false,
        },
    }
}

/// Whether one row passes the filter.  A comparison with Null is false, as
/// is a comparison of differently typed values.
pub open spec fn row_matches(cols: Seq<ColumnDef>, row: Seq<ValueModel>, w: Option<Expression>)
    -> bool {
    match w {
        None => true,
        Some(e) => match e {
            Expression::Eq(a, b) => match (*a, *b) {
                (Expression::Column(c), Expression::Literal(v)) => {
                    let i = col_index(cols, c@)->0;
                    i < row.len() && vm_eq(row[i], v@)
                },
                (Expression::Literal(v), Expression::Column(c)) => {
                    let i = col_index(cols, c@)->0;
                    i < row.len() && vm_eq(row[i], v@)
                },
                _ => false,
            },
            _ => false,
        },
    }
}

/// The rows that pass the filter, in order.
pub open spec fn keep_rows(
    cols: Seq<ColumnDef>,
    rows: Seq<Seq<ValueModel>>,
    w: Option<Expression>,
) -> Seq<Seq<ValueModel>>
    decreases rows.len(),
{
    if rows.len() == 0 {
        Seq::empty()
    } else {
        (if row_matches(cols, rows[0], w) {
            seq![rows[0]]
        } else {
            Seq::empty()
        }) + keep_rows(cols, rows.drop_first(), w)
    }
}

pub proof fn lemma_keep_rows_snoc(
    cols: Seq<ColumnDef>,
    rows: Seq<Seq<ValueModel>>,
    w: Option<Expression>,
    i: int,
)
    requires
        0 <= i < rows.len(),
    ensures
        keep_rows(cols, rows.take(i + 1), w) == keep_rows(cols, rows.take(i), w) + (if row_matches(
            cols,
            rows[i],
            w,
        ) {
            seq![rows[i]]
        } else {
            Seq::<Seq<ValueModel>>::empty()
        }),
    decreases i,
{
    if i == 0 {
        assert(rows.take(1).drop_first() =~= rows.take(0));
        assert(keep_rows(cols, rows.take(1), w) =~= keep_rows(cols, rows.take(0), w) + (
        if row_matches(cols, rows[0], w) {
            seq![rows[0]]
        } else {
            Seq::<Seq<ValueModel>>::empty()
        }));
    } else {
        let r2 = rows.drop_first();
        lemma_keep_rows_snoc(cols, r2, w, i - 1);
        assert(rows.take(i + 1).drop_first() =~= r2.take(i));
        assert(rows.take(i).drop_first() =~= r2.take(i - 1));
        assert(keep_rows(cols, rows.take(i + 1), w) =~= keep_rows(cols, rows.take(i), w) + (
        if row_matches(cols, rows[i], w) {
            seq![rows[i]]
        } else {
            Seq::<Seq<ValueModel>>::empty()
        }));
    }
}

/// Exec counterpart of [`row_matches`] for a supported filter.
fn eval_where(cols: &Vec<ColumnDef>, row: &Vec<Value>, w: &Option<Expression>) -> (b: bool)
    requires
        where_ok(cols@, *w),
    ensures
        b == row_matches(cols@, row.deep_view(), *w),
{
    match w {
        Option::None => true,
        Option::Some(e) => match e {
            Expression::Eq(a, b) => {
                let (cname, lit): (&String, &Value) = match (&**a, &**b) {
                    (Expression::Column(c), Expression::Literal(v)) => (c, v),
                    (Expression::Literal(v), Expression::Column(c)) => (c, v),
                    _ => {
                        proof {
                            assert(false);
                        }
                        return false;
                    },
                };
                match find_col(cols, cname) {
                    Some(i) => {
                        if i < row.len() {
                            assert(row.deep_view()[i as int] == row@[i as int].deep_view());
                            value_eq(&row[i], lit)
                        } else {
                            false
                        }
                    },
                    None => {
                        proof {
                            assert(false);
                        }
                        false
                    },
                }
            },
            _ => {
                proof {
                    assert(false);
                }
                false
            },
        },
    }
}

/// Same column declaration: same name, type and constraints.
pub open spec fn col_like(a: ColumnDef, b: ColumnDef) -> bool {
    a.name@ == b.name@ && a.data_type == b.data_type && a.constraints@ == b.constraints@
}

pub open spec fn cols_like(a: Seq<ColumnDef>, b: Seq<ColumnDef>) -> bool {
    a.len() == b.len() && forall|i: int| 0 <= i < a.len() ==> col_like(#[trigger] a[i], b[i])
}

pub proof fn lemma_pk_index_like(a: Seq<ColumnDef>, b: Seq<ColumnDef>)
    requires
        cols_like(a, b),
    ensures
        pk_index(a) == pk_index(b),
    decreases a.len(),
{
    if a.len() > 0 {
        assert(col_like(a[0], b[0]));
        assert(has_pk_constraint(a[0]) == has_pk_constraint(b[0]));
        assert(forall|i: int| 0 <= i < a.len() - 1 ==> col_like(
            #[trigger] a.drop_first()[i],
            b.drop_first()[i],
        ));
        lemma_pk_index_like(a.drop_first(), b.drop_first());
    }
}

/// Copies a schema, preserving every column's name, type and constraints.
pub fn clone_cols(cols: &Vec<ColumnDef>) -> (r: Vec<ColumnDef>)
    ensures
        cols_like(r@, cols@),
{
    let mut out: Vec<ColumnDef> = Vec::new();
    let mut i: usize = 0;
    while i < cols.len()
        invariant
            i <= cols@.len(),
            out@.len() == i,
            forall|x: int| 0 <= x < i ==> col_like(#[trigger] out@[x], cols@[x]),
        decreases cols@.len() - i,
    {
        let c = &cols[i];
        let nc = ColumnDef {
            name: c.name.clone(),
            data_type: c.data_type,
            constraints: vstd::slice::slice_to_vec(c.constraints.as_slice()),
        };
        out.push(nc);
        i += 1;
    }
    out
}

fn find_table_exec(tables: &Vec<Table>, name: &String) -> (r: Option<usize>)
    ensures
        match r {
            Some(i) => find_table(tables@, name@) == Some(i as int) && i < tables@.len(),
            None => find_table(tables@, name@) is None,
        },
{
    let n = tables.len();
    let mut i: usize = 0;
    while i < n
        invariant
            i <= n,
            n == tables@.len(),
            forall|x: int| 0 <= x < i ==> (#[trigger] tables@[x]).meta.name@ != name@,
        decreases n - i,
    {
        if tables[i].meta.name.eq(name) {
            proof {
                lemma_find_table_from(tables@, name@, i as int);
            }
            return Some(i);
        }
        i += 1;
    }
    proof {
        lemma_find_table_from(tables@, name@, n as int);
    }
    None
}

/// Catalog views preserved: same length, names, schemas and rows.
pub open spec fn tables_like(a: Seq<Table>, b: Seq<Table>) -> bool {
    &&& a.len() == b.len()
    &&& forall|i: int| 0 <= i < a.len() ==> (#[trigger] a[i]).meta == b[i].meta
        && a[i].pool.logical() == b[i].pool.logical()
}

impl StorageEngine {
    /// A fresh engine with an empty catalog and an empty log.  The path
    /// names the engine's primary file for the I/O layer; this core keeps
    /// no state in it yet.
    pub fn new(path: Option<&str>) -> (r: Result<Self, GSQLError>)
        ensures
            r matches Ok(e) ==> {
                &&& e.wf()
                &&& e.tables@.len() == 0
                &&& e.wal.view() == Seq::<WalRecordModel>::empty()
            },
            r is Ok,
    {
        let p: String = match path {
            Some(s) => s.to_owned(),
            None => "gsql.db".to_owned(),
        };
        let e = StorageEngine { tables: Vec::new(), wal: WriteAheadLog::new(), path: p };
        proof {
            assert(e.wal.durable_records() =~= e.wal.view());
        }
        Ok(e)
    }

    /// Registers a new table: fails with `TableExists` exactly when the name
    /// is taken; the new table starts empty.  A primary key must be an
    /// integer column; a schema must have one to `MAX_COLUMNS` columns.
    pub fn create_table(&mut self, stmt: &CreateTableStmt) -> (r: Result<(), GSQLError>)
        requires
            old(self).wf(),
        ensures
            final(self).wf(),
            final(self).wal == old(self).wal,
            r is Ok <==> {
                &&& !old(self).has_table(stmt.table_name@)
                &&& 1 <= stmt.columns@.len() <= MAX_COLUMNS
            },
            match r {
                Ok(_) => {
                    &&& final(self).tables@.len() == old(self).tables@.len() + 1
                    &&& final(self).tables@.take(old(self).tables@.len() as int)
                        == old(self).tables@
                    &&& final(self).tables@.last().meta.name@ == stmt.table_name@
                    &&& cols_like(final(self).tables@.last().meta.columns@, stmt.columns@)
                    &&& final(self).tables@.last().meta.page_count == 0
                    &&& table_rows(final(self).tables@.last())
                        == Seq::<Seq<ValueModel>>::empty()
                    &&& (final(self).tables@.last().meta.primary_key matches Some(pi)
                        ==> pk_index(stmt.columns@) == Some(pi as int))
                    &&& (final(self).tables@.last().meta.primary_key is None ==> pk_index(
                        stmt.columns@,
                    ) is None)
                    &&& final(self).tables@.last().pool.cap() == POOL_CAPACITY as int
                },
                Err(e) => {
                    &&& *final(self) == *old(self)
                    &&& (e is TableExists <==> old(self).has_table(stmt.table_name@))
                },
            },
    {
        if find_table_exec(&self.tables, &stmt.table_name).is_some() {
            return Err(GSQLError::TableExists(stmt.table_name.clone()));
        }
        if stmt.columns.len() == 0 || stmt.columns.len() > MAX_COLUMNS {
            return Err(GSQLError::NotImplemented(
                "a table needs between one and 1024 columns".to_owned(),
            ));
        }
        let pk = find_pk(&stmt.columns);
        let cols = clone_cols(&stmt.columns);
        let meta = TableMetadata {
            name: stmt.table_name.clone(),
            columns: cols,
            page_count: 0,
            primary_key: pk,
        };
        let t = Table { meta, pool: BufferPool::new(POOL_CAPACITY) };
        let ghost oldtabs = self.tables@;
        self.tables.push(t);
        proof {
            lemma_find_table_present(oldtabs, stmt.table_name@);
            lemma_pk_index_bounds(stmt.columns@);
            lemma_pk_index_like(self.tables@.last().meta.columns@, stmt.columns@);
            assert(self.tables@.take(oldtabs.len() as int) =~= oldtabs);
            let nt = self.tables@.last();
            assert(nt.pool.logical().len() == 0);
            assert(table_rows(nt) =~= Seq::<Seq<ValueModel>>::empty());
            assert(table_wf(nt));
            assert forall|i: int, j: int| 0 <= i < j < self.tables@.len() implies self.tables@[
                i
            ].meta.name@ != self.tables@[j].meta.name@ by {
                if j == self.tables@.len() - 1 {
                    assert(oldtabs[i].meta.name@ != stmt.table_name@);
                }
            }
            // no record targets the fresh name, so the new table is logged
            // as empty; old records still find their tables
            assert forall|k: int| 0 <= k < self.wal.view().len() implies (
            #[trigger] self.wal.view()[k]).table != stmt.table_name@ by {
                let rec = self.wal.view()[k];
                assert(old(self).wal.view()[k] == rec);
                assert(find_table(old(self).tables@, rec.table) is Some);
                if rec.table == stmt.table_name@ {
                    assert(find_table(old(self).tables@, stmt.table_name@) is Some);
                }
            }
            lemma_wal_rows_absent(self.wal.view(), stmt.table_name@);
            assert forall|k: int| 0 <= k < self.wal.view().len() implies {
                let rec = #[trigger] self.wal.view()[k];
                find_table(self.tables@, rec.table) matches Some(ti) && valid_row(
                    self.tables@[ti].meta.columns@,
                    rec.values,
                ) && spec_encode_row(self.tables@[ti].meta.columns@, rec.values).len()
                    <= ROW_CAPACITY
            } by {
                let rec = self.wal.view()[k];
                assert(old(self).wal.view()[k] == rec);
                assert(find_table(oldtabs, rec.table) is Some);
                lemma_find_table_present(oldtabs, rec.table);
                let tj = find_table(oldtabs, rec.table)->0;
                lemma_find_table_push(oldtabs, nt, rec.table);
                assert(self.tables@[tj] == oldtabs[tj]);
                assert(valid_row(oldtabs[tj].meta.columns@, rec.values));
            }
        }
        Ok(())
    }

    /// Executes a select: a full sequential scan of the named table through
    /// the buffer pool, keeping exactly the rows the filter accepts.
    pub fn select(&mut self, stmt: &SelectStmt) -> (r: Result<Vec<Vec<Value>>, GSQLError>)
        requires
            old(self).wf(),
        ensures
            final(self).wf(),
            tables_like(final(self).tables@, old(self).tables@),
            final(self).wal == old(self).wal,
            forall|j: int| 0 <= j < old(self).tables@.len()
                ==> ((#[trigger] final(self).tables@[j]).pool.durable()
                == old(self).tables@[j].pool.durable() || final(self).tables@[j].pool.durable()
                == old(self).tables@[j].pool.logical()),
            match r {
                Ok(rows) => {
                    &&& stmt.from matches TableRef::Table(name)
                    &&& find_table(old(self).tables@, name@) matches Some(ti)
                    &&& where_ok(old(self).tables@[ti].meta.columns@, stmt.where_clause)
                    &&& rows.deep_view() == keep_rows(
                        old(self).tables@[ti].meta.columns@,
                        table_rows(old(self).tables@[ti]),
                        stmt.where_clause,
                    )
                },
                Err(e) => {
                    &&& (e is TableNotFound <==> (stmt.from matches TableRef::Table(name)
                        && !old(self).has_table(name@)))
                    &&& (stmt.from matches TableRef::Join(_, _) ==> e is NotImplemented)
                },
            },
            r is Ok <==> (stmt.from matches TableRef::Table(name) && find_table(
                old(self).tables@,
                name@,
            ) matches Some(ti) && where_ok(old(self).tables@[ti].meta.columns@, stmt.where_clause)),
    {
        let name = match &stmt.from {
            TableRef::Table(n) => n,
            TableRef::Join(_, _) => {
                return Err(GSQLError::NotImplemented("joins".to_owned()));
            },
        };
        let ti = match find_table_exec(&self.tables, name) {
            Some(i) => i,
            None => {
                return Err(GSQLError::TableNotFound(name.clone()));
            },
        };
        // check the filter against the schema before touching any page
        match &stmt.where_clause {
            Option::None => {},
            Option::Some(e) => match e {
                Expression::Eq(a, b) => {
                    let cname: &String = match (&**a, &**b) {
                        (Expression::Column(c), Expression::Literal(_)) => c,
                        (Expression::Literal(_), Expression::Column(c)) => c,
                        _ => {
                            return Err(GSQLError::NotImplemented(
                                "only equality of a column and a literal".to_owned(),
                            ));
                        },
                    };
                    let cols = &self.tables[ti].meta.columns;
                    if find_col(cols, cname).is_none() {
                        return Err(GSQLError::ColumnNotFound(cname.clone()));
                    }
                },
                _ => {
                    return Err(GSQLError::NotImplemented(
                        "only equality filters".to_owned(),
                    ));
                },
            },
        }
        // scan
        let mut t = dummy_table();
        let ghost mid0 = self.tables@;
        self.tables.set_and_swap(ti, &mut t);
        let ghost torig = t;
        let all = match read_all_rows(&mut t) {
            Ok(a) => a,
            Err(e) => {
                proof {
                    assert(false);
                }
                return Err(e);
            },
        };
        let ghost cols_g = t.meta.columns@;
        let mut out: Vec<Vec<Value>> = Vec::new();
        let mut k: usize = 0;
        let n = all.len();
        assert(out.deep_view() =~= Seq::<Seq<ValueModel>>::empty());
        assert(all.deep_view().take(0) =~= Seq::<Seq<ValueModel>>::empty());
        assert(keep_rows(cols_g, all.deep_view().take(0), stmt.where_clause)
            =~= Seq::<Seq<ValueModel>>::empty());
        while k < n
            invariant
                k <= n,
                n == all@.len(),
                cols_g == t.meta.columns@,
                where_ok(cols_g, stmt.where_clause),
                out.deep_view() == keep_rows(cols_g, all.deep_view().take(k as int),
                    stmt.where_clause),
            decreases n - k,
        {
            assert(all.deep_view()[k as int] == all@[k as int].deep_view());
            if eval_where(&t.meta.columns, &all[k], &stmt.where_clause) {
                let c = clone_values(&all[k]);
                let ghost prevv = out@;
                let ghost prevd = out.deep_view();
                out.push(c);
                proof {
                    assert forall|x: int| 0 <= x < prevv.len() + 1 implies out.deep_view()[x]
                        == prevd.push(all.deep_view()[k as int])[x] by {
                        if x < prevv.len() {
                            assert(out@[x] == prevv[x]);
                            assert(prevd[x] == prevv[x].deep_view());
                        }
                    }
                    assert(out.deep_view() =~= prevd.push(all.deep_view()[k as int]));
                }
            }
            proof {
                lemma_keep_rows_snoc(cols_g, all.deep_view(), stmt.where_clause, k as int);
                assert(out.deep_view() =~= keep_rows(cols_g, all.deep_view().take(k + 1),
                    stmt.where_clause));
            }
            k += 1;
        }
        self.tables.set_and_swap(ti, &mut t);
        proof {
            assert(all.deep_view().take(n as int) =~= all.deep_view());
            assert(self.tables@ =~= old(self).tables@.update(ti as int, self.tables@[ti as int]));
            assert forall|i: int, j: int| 0 <= i < j < self.tables@.len() implies self.tables@[
                i
            ].meta.name@ != self.tables@[j].meta.name@ by {
                assert(old(self).tables@[i].meta.name@ != old(self).tables@[j].meta.name@);
            }
            assert forall|i: int| 0 <= i < self.tables@.len() implies table_rows(
                #[trigger] self.tables@[i],
            ) == wal_rows(self.wal.view(), self.tables@[i].meta.name@) by {
                assert(self.tables@[i].meta == old(self).tables@[i].meta);
                assert(self.tables@[i].pool.logical() == old(self).tables@[i].pool.logical());
            }
            lemma_log_ok_like(old(self).tables@, self.tables@, self.wal.view());
        }
        Ok(out)
    }

    /// Inserts the statement's rows.  Nothing is mutated until the whole
    /// statement validates: literal rows matching the schema, each row
    /// fitting one page, and under a primary key only fresh integer keys.
    /// Then, row by row, a WAL record is appended and flushed before the
    /// data page is written through the buffer pool.
    pub fn insert(&mut self, stmt: &InsertStmt) -> (r: Result<u64, GSQLError>)
        requires
            old(self).wf(),
        ensures
            final(self).wf(),
            final(self).tables@.len() == old(self).tables@.len(),
            r is Ok <==> (find_table(old(self).tables@, stmt.table_name@) matches Some(ti)
                && stmt.columns@.len() == 0 && insert_ok(old(self).tables@[ti], *stmt)),
            match r {
                Ok(n) => {
                    &&& find_table(old(self).tables@, stmt.table_name@) matches Some(ti) && {
                        let rows = stmt_rows(stmt.values@)->0;
                        &&& stmt_rows(stmt.values@) is Some
                        &&& n as int == rows.len()
                        &&& table_rows(final(self).tables@[ti]) == table_rows(
                            old(self).tables@[ti],
                        ) + rows
                        &&& final(self).tables@[ti].meta.name@
                            == old(self).tables@[ti].meta.name@
                        &&& final(self).tables@[ti].meta.columns
                            == old(self).tables@[ti].meta.columns
                        &&& final(self).tables@[ti].meta.primary_key
                            == old(self).tables@[ti].meta.primary_key
                        &&& old(self).tables@[ti].meta.page_count
                            <= final(self).tables@[ti].meta.page_count
                        &&& final(self).tables@[ti].meta.page_count as int
                            <= old(self).tables@[ti].meta.page_count as int + rows.len()
                        &&& table_place_state(final(self).tables@[ti]) == place_rows(
                            table_place_state(old(self).tables@[ti]),
                            row_sizes(old(self).tables@[ti].meta.columns@, rows),
                        )
                        &&& (forall|j: int| 0 <= j < old(self).tables@.len() && j != ti
                            ==> final(self).tables@[j] == old(self).tables@[j])
                        &&& final(self).wal.view().len() == old(self).wal.view().len()
                            + rows.len()
                        &&& final(self).wal.view().take(old(self).wal.view().len() as int)
                            == old(self).wal.view()
                        &&& (forall|k: int| 0 <= k < rows.len() ==> {
                            let rec = #[trigger] final(self).wal.view()[old(
                                self,
                            ).wal.view().len() + k];
                            &&& rec.table == stmt.table_name@
                            &&& rec.op == WalOp::Insert
                            &&& rec.values == rows[k]
                        })
                        &&& final(self).wal.durable_records() == final(self).wal.view()
                    }
                },
                Err(e) => {
                    &&& tables_like(final(self).tables@, old(self).tables@)
                    &&& final(self).wal.view() == old(self).wal.view()
                    &&& (e is TableNotFound <==> !old(self).has_table(stmt.table_name@))
                    &&& (find_table(old(self).tables@, stmt.table_name@) matches Some(ti) ==> {
                        let t = old(self).tables@[ti];
                        &&& (e is TypeMismatch <==> (stmt.columns@.len() == 0 && (stmt_rows(
                            stmt.values@,
                        ) matches Some(rows) && !rows_typed(t.meta.columns@, rows))))
                        &&& (e is DuplicateKey <==> (stmt.columns@.len() == 0 && (stmt_rows(
                            stmt.values@,
                        ) matches Some(rows) && rows_typed(t.meta.columns@, rows) && rows_fit(
                            t.meta.columns@,
                            rows,
                        ) && !keys_fresh(t, rows))))
                        &&& (e is NotImplemented <==> (stmt.columns@.len() != 0 || (
                        stmt.columns@.len() == 0 && (stmt_rows(stmt.values@) is None || (
                        stmt_rows(stmt.values@) matches Some(rows) && rows_typed(
                            t.meta.columns@,
                            rows,
                        ) && ((!rows_fit(t.meta.columns@, rows)) || (rows_fit(
                            t.meta.columns@,
                            rows,
                        ) && keys_fresh(t, rows) && !budget_ok(t, rows))))))))
                    })
                },
            },
    {
        let ti = match find_table_exec(&self.tables, &stmt.table_name) {
            Some(i) => i,
            None => {
                return Err(GSQLError::TableNotFound(stmt.table_name.clone()));
            },
        };
        if stmt.columns.len() > 0 {
            return Err(GSQLError::NotImplemented(
                "explicit insert column lists".to_owned(),
            ));
        }
        let mut t = dummy_table();
        self.tables.set_and_swap(ti, &mut t);
        let ghost t0 = t;
        let existing = match read_all_rows(&mut t) {
            Ok(a) => a,
            Err(e) => {
                proof {
                    assert(false);
                }
                return Err(e);
            },
        };
        proof {
            assert(table_rows(t) == table_rows(t0));
            assert(insert_ok(t, *stmt) == insert_ok(t0, *stmt));
        }
        let (lits, encs) = match validate_insert(&t, &existing, stmt) {
            Ok(le) => le,
            Err(e) => {
                self.tables.set_and_swap(ti, &mut t);
                proof {
                    assert(self.tables@ =~= old(self).tables@.update(
                        ti as int,
                        self.tables@[ti as int],
                    ));
                    assert forall|i: int, j: int| 0 <= i < j < self.tables@.len() implies self
                        .tables@[i].meta.name@ != self.tables@[j].meta.name@ by {
                        assert(old(self).tables@[i].meta.name@ != old(
                            self,
                        ).tables@[j].meta.name@);
                    }
                    assert forall|i: int| 0 <= i < self.tables@.len() implies table_rows(
                        #[trigger] self.tables@[i],
                    ) == wal_rows(self.wal.view(), self.tables@[i].meta.name@) by {
                        assert(self.tables@[i].meta == old(self).tables@[i].meta);
                        assert(self.tables@[i].pool.logical() == old(
                            self,
                        ).tables@[i].pool.logical());
                    }
                    lemma_log_ok_like(old(self).tables@, self.tables@, self.wal.view());
                }
                return Err(e);
            },
        };
        let n = lits.len();
        proof {
            lemma_find_table_present(old(self).tables@, stmt.table_name@);
        }
        let ghost oldwal = self.wal.view();
        apply_rows(&mut t, &mut self.wal, &stmt.table_name, &lits, &encs);
        self.tables.set_and_swap(ti, &mut t);
        proof {
            lemma_stmt_rows_len(stmt.values@);
            assert(self.tables@ =~= old(self).tables@.update(
                ti as int,
                self.tables@[ti as int],
            ));
            assert forall|i: int, j: int| 0 <= i < j < self.tables@.len() implies self.tables@[
                i
            ].meta.name@ != self.tables@[j].meta.name@ by {
                assert(old(self).tables@[i].meta.name@ != old(self).tables@[j].meta.name@);
            }
            // every appended record targets this table with the row it holds
            assert(self.wal.view().len() == oldwal.len() + lits.deep_view().len());
            assert(self.wal.view().take(oldwal.len() as int) == oldwal);
            assert forall|k: int| 0 <= k < lits.deep_view().len() implies (
            #[trigger] self.wal.view()[oldwal.len() + k]).table == stmt.table_name@
                && self.wal.view()[oldwal.len() + k].values == lits.deep_view()[k] by {
                assert(0 <= k < lits@.len());
            }
            lemma_wal_rows_append(
                self.wal.view(),
                oldwal,
                stmt.table_name@,
                lits.deep_view(),
            );
            assert forall|i: int| 0 <= i < self.tables@.len() implies table_rows(
                #[trigger] self.tables@[i],
            ) == wal_rows(self.wal.view(), self.tables@[i].meta.name@) by {
                if i == ti as int {
                    assert(self.tables@[i].meta.name@ == stmt.table_name@);
                } else {
                    assert(self.tables@[i] == old(self).tables@[i]);
                    assert(self.tables@[i].meta.name@ != stmt.table_name@);
                    assert forall|k2: int| oldwal.len() <= k2 < self.wal.view().len() implies (
                    #[trigger] self.wal.view()[k2]).table != self.tables@[i].meta.name@ by {
                        assert(self.wal.view()[oldwal.len() + (k2 - oldwal.len())].table
                            == stmt.table_name@);
                    }
                    lemma_wal_rows_append_other(
                        self.wal.view(),
                        oldwal,
                        self.tables@[i].meta.name@,
                    );
                }
            }
            assert forall|k: int| 0 <= k < self.wal.view().len() implies {
                let rec = #[trigger] self.wal.view()[k];
                find_table(self.tables@, rec.table) matches Some(tj) && valid_row(
                    self.tables@[tj].meta.columns@,
                    rec.values,
                ) && spec_encode_row(self.tables@[tj].meta.columns@, rec.values).len()
                    <= ROW_CAPACITY
            } by {
                let rec = self.wal.view()[k];
                assert(self.wal.view().take(oldwal.len() as int) == oldwal);
                if k < oldwal.len() {
                    assert(self.wal.view().take(oldwal.len() as int)[k] == self.wal.view()[k]);
                    assert(rec == oldwal[k]);
                    lemma_find_table_same_names(old(self).tables@, self.tables@, rec.table);
                    lemma_find_table_present(old(self).tables@, rec.table);
                } else {
                    assert(self.wal.view()[oldwal.len() + (k - oldwal.len())].table
                        == stmt.table_name@);
                    assert(self.wal.view()[oldwal.len() + (k - oldwal.len())].values
                        == lits.deep_view()[k - oldwal.len()]);
                    assert(rec.table == stmt.table_name@);
                    lemma_find_table_same_names(old(self).tables@, self.tables@, rec.table);
                    assert(find_table(old(self).tables@, rec.table) == Some(ti as int));
                    assert(rec.values == lits.deep_view()[k - oldwal.len()]);
                }
            }
        }
        Ok(n as u64)
    }

    /// Models a crash: only durable state survives.  Every cached page is
    /// lost, and only the flushed prefix of the log remains.  The catalog is
    /// this model's stand-in for the persisted engine file.  The result is
    /// ready for [`StorageEngine::recover`].
    pub fn simulate_crash(self) -> (r: StorageEngine)
        requires
            self.wf(),
        ensures
            recover_ready(r),
            r.tables@.len() == self.tables@.len(),
            forall|i: int| 0 <= i < self.tables@.len() ==> {
                &&& (#[trigger] r.tables@[i]).meta.name@ == self.tables@[i].meta.name@
                &&& r.tables@[i].meta.columns == self.tables@[i].meta.columns
                &&& r.tables@[i].meta.primary_key == self.tables@[i].meta.primary_key
                &&& r.tables@[i].pool.logical() == self.tables@[i].pool.durable()
            },
            r.wal.view() == self.wal.view(),
    {
        let StorageEngine { tables, wal, path } = self;
        let ghost otab = tables@;
        let ghost ow = wal;
        let w2 = wal.crashed_copy();
        proof {
            assert(w2.view() == ow.durable_records());
        }
        let mut ts = tables;
        let mut out: Vec<Table> = Vec::new();
        let mut i: usize = 0;
        let n = ts.len();
        while i < n
            invariant
                i <= n,
                n == otab.len(),
                ts@.len() == n - i,
                out@.len() == i,
                forall|x: int| 0 <= x < n ==> table_wf(#[trigger] otab[x]),
                forall|x: int| 0 <= x < n - i ==> #[trigger] ts@[x] == otab[x + i],
                forall|x: int| 0 <= x < i ==> {
                    &&& (#[trigger] out@[x]).meta == otab[x].meta
                    &&& out@[x].pool.logical() == otab[x].pool.durable()
                },
            decreases n - i,
        {
            let ghost prets = ts@;
            let t = ts.remove(0);
            proof {
                assert(t == otab[i as int]);
                assert(table_wf(otab[i as int]));
                assert forall|x: int| 0 <= x < n - i - 1 implies #[trigger] ts@[x] == otab[x + i
                    + 1] by {
                    assert(ts@[x] == prets[x + 1]);
                }
            }
            let Table { meta, pool } = t;
            let p2 = pool.crashed_copy();
            out.push(Table { meta, pool: p2 });
            i += 1;
        }
        let r = StorageEngine { tables: out, wal: w2, path };
        proof {
            lemma_log_ok_like(otab, r.tables@, r.wal.view());
        }
        r
    }

    /// Restart recovery: re-derives every table's pages by replaying the
    /// log from its start, table by table, through the same write path
    /// inserts use, and rotates the log (one fresh record per surviving
    /// row).  Replay is idempotent: on an engine whose rows already agree
    /// with its log — every well-formed engine — it changes no row.
    pub fn recover(&mut self)
        requires
            recover_ready(*old(self)),
            old(self).wal.view().len() < u64::MAX,
        ensures
            final(self).wf(),
            final(self).tables@.len() == old(self).tables@.len(),
            forall|i: int| 0 <= i < old(self).tables@.len() ==> {
                &&& (#[trigger] final(self).tables@[i]).meta.name@
                    == old(self).tables@[i].meta.name@
                &&& final(self).tables@[i].meta.columns == old(self).tables@[i].meta.columns
                &&& final(self).tables@[i].meta.primary_key
                    == old(self).tables@[i].meta.primary_key
            },
            forall|i: int| 0 <= i < old(self).tables@.len() ==> table_rows(
                #[trigger] final(self).tables@[i],
            ) == wal_rows(old(self).wal.view(), old(self).tables@[i].meta.name@),
            old(self).wf() ==> forall|i: int| 0 <= i < old(self).tables@.len() ==> table_rows(
                #[trigger] final(self).tables@[i],
            ) == table_rows(old(self).tables@[i]),
    {
        let ghost otab = old(self).tables@;
        let ghost oldlog = old(self).wal.view();
        let logw = self.wal.crashed_copy();
        self.wal = WriteAheadLog::new();
        proof {
            assert(self.wal.durable_records() =~= self.wal.view());
        }
        let nt = self.tables.len();
        let mut ti: usize = 0;
        while ti < nt
            invariant
                ti <= nt,
                nt == self.tables@.len(),
                nt == otab.len(),
                logw.view() == oldlog,
                oldlog.len() < u64::MAX,
                log_ok(otab, oldlog),
                forall|i: int, j: int| 0 <= i < j < otab.len() ==> otab[i].meta.name@
                    != otab[j].meta.name@,
                forall|i: int| 0 <= i < otab.len() ==> 1 <= (
                #[trigger] otab[i]).meta.columns@.len() <= MAX_COLUMNS && (
                otab[i].meta.primary_key matches Some(pi) ==> pi < otab[i].meta.columns@.len()),
                forall|i: int| ti <= i < nt ==> (#[trigger] self.tables@[i]).meta == otab[i].meta,
                forall|i: int| 0 <= i < ti ==> {
                    let t = #[trigger] self.tables@[i];
                    &&& table_wf(t)
                    &&& t.meta.name@ == otab[i].meta.name@
                    &&& t.meta.columns == otab[i].meta.columns
                    &&& t.meta.primary_key == otab[i].meta.primary_key
                    &&& table_rows(t) == wal_rows(oldlog, otab[i].meta.name@)
                    &&& table_rows(t) == wal_rows(self.wal.view(), otab[i].meta.name@)
                    &&& pages_covered(t.pool.logical(), self.wal.durable_records(),
                        t.meta.name@)
                    &&& durable_pages_covered(t.pool.durable(), self.wal.durable_records(),
                        t.meta.name@)
                },
                self.wal.wf(),
                self.wal.durable_records() == self.wal.view(),
                forall|k: int| 0 <= k < self.wal.view().len() ==> exists|i: int| 0 <= i < ti
                    && (#[trigger] self.wal.view()[k]).table == otab[i].meta.name@
                    && valid_row(otab[i].meta.columns@, self.wal.view()[k].values)
                    && spec_encode_row(otab[i].meta.columns@, self.wal.view()[k].values).len()
                    <= ROW_CAPACITY,
            decreases nt - ti,
        {
            let mut t = dummy_table();
            self.tables.set_and_swap(ti, &mut t);
            let ghost name = otab[ti as int].meta.name@;
            // fresh storage for this table; the log is its source of truth
            t.pool = BufferPool::new(POOL_CAPACITY);
            t.meta.page_count = 0;
            // collect this table's rows from the surviving log, in order
            let nrec = logw.len();
            let mut lits: Vec<Vec<Value>> = Vec::new();
            let mut k: usize = 0;
            proof {
                assert(oldlog.take(0) =~= Seq::<WalRecordModel>::empty());
            }
            while k < nrec
                invariant
                    k <= nrec,
                    nrec == logw.view().len(),
                    logw.view() == oldlog,
                    log_ok(otab, oldlog),
                    t.meta.name@ == name,
                    lits@.len() <= k,
                    lits.deep_view() == wal_rows(oldlog.take(k as int), name),
                decreases nrec - k,
            {
                let ghost prevd = lits.deep_view();
                let rec = logw.record_at(k);
                if rec.table.eq(&t.meta.name) {
                    let vs = clone_values(&rec.values);
                    let ghost prevv = lits@;
                    lits.push(vs);
                    proof {
                        assert(lits@ == prevv.push(lits@[prevv.len() as int]));
                        assert forall|x: int| 0 <= x < prevv.len() + 1 implies lits.deep_view()[x]
                            == prevd.push(rec@.values)[x] by {
                            if x < prevv.len() {
                                assert(lits@[x] == prevv[x]);
                                assert(prevd[x] == prevv[x].deep_view());
                            }
                        }
                        assert(lits.deep_view() =~= prevd.push(rec@.values));
                    }
                }
                proof {
                    assert(oldlog.take(k + 1).drop_last() =~= oldlog.take(k as int));
                    assert(oldlog.take(k + 1).last() == oldlog[k as int]);
                    if rec@.table == name {
                        assert(prevd + seq![rec@.values] =~= prevd.push(rec@.values));
                        assert(wal_rows(oldlog.take(k + 1), name) == wal_rows(
                            oldlog.take(k as int),
                            name,
                        ) + seq![rec@.values]);
                    } else {
                        assert(wal_rows(oldlog.take(k as int), name)
                            + Seq::<Seq<ValueModel>>::empty() =~= wal_rows(
                            oldlog.take(k as int),
                            name,
                        ));
                    }
                }
                k += 1;
            }
            proof {
                assert(oldlog.take(nrec as int) =~= oldlog);
            }
            // every collected row is a valid, page-sized row for this schema
            proof {
                lemma_find_table_from_unique(otab, name, ti as int);
                lemma_wal_rows_valid(otab, oldlog, name, ti as int);
            }
            let mut encs: Vec<Vec<u8>> = Vec::new();
            let mut j: usize = 0;
            while j < lits.len()
                invariant
                    j <= lits@.len(),
                    encs@.len() == j,
                    t.meta.columns == otab[ti as int].meta.columns,
                    forall|x: int| 0 <= x < lits@.len() ==> valid_row(
                        t.meta.columns@,
                        #[trigger] lits.deep_view()[x],
                    ) && spec_encode_row(t.meta.columns@, lits.deep_view()[x]).len()
                        <= ROW_CAPACITY,
                    forall|x: int| 0 <= x < j ==> (#[trigger] encs@[x])@ == spec_encode_row(
                        t.meta.columns@,
                        lits.deep_view()[x],
                    ) && encs@[x]@.len() <= ROW_CAPACITY,
                decreases lits@.len() - j,
            {
                assert(lits.deep_view()[j as int] == lits@[j as int].deep_view());
                match encode_row(&t.meta.columns, &lits[j]) {
                    Ok(b) => {
                        encs.push(b);
                    },
                    Err(_) => {
                        proof {
                            assert(false);
                        }
                    },
                }
                j += 1;
            }
            // replay through the ordinary write path, logging each row anew
            let nm = t.meta.name.clone();
            let ghost prewal = self.wal.view();
            let ghost pretabs = self.tables@;
            // no earlier record targets this table: its rotated block starts
            // empty
            proof {
                assert forall|k: int| 0 <= k < prewal.len() implies (
                #[trigger] prewal[k]).table != name by {
                    let i0 = choose|i0: int| 0 <= i0 < ti && prewal[k].table
                        == otab[i0].meta.name@ && valid_row(
                        otab[i0].meta.columns@,
                        prewal[k].values,
                    ) && spec_encode_row(otab[i0].meta.columns@, prewal[k].values).len()
                        <= ROW_CAPACITY;
                    assert(otab[i0].meta.name@ != otab[ti as int].meta.name@);
                }
                lemma_wal_rows_absent(prewal, name);
            }
            apply_rows(&mut t, &mut self.wal, &nm, &lits, &encs);
            self.tables.set_and_swap(ti, &mut t);
            proof {
                assert(self.tables@ =~= pretabs.update(ti as int, self.tables@[ti as int]));
                assert(self.wal.view().len() == prewal.len() + lits.deep_view().len());
                assert(self.wal.view().take(prewal.len() as int) == prewal);
                assert forall|x: int| 0 <= x < lits.deep_view().len() implies (
                #[trigger] self.wal.view()[prewal.len() + x]).table == name
                    && self.wal.view()[prewal.len() + x].values == lits.deep_view()[x] by {
                    assert(0 <= x < lits@.len());
                }
                lemma_wal_rows_append(self.wal.view(), prewal, name, lits.deep_view());
                assert(Seq::<Seq<ValueModel>>::empty() + lits.deep_view() =~= lits.deep_view());
                assert(table_rows(self.tables@[ti as int]) == lits.deep_view());
                assert(wal_rows(self.wal.view(), name) =~= lits.deep_view());
                // earlier tables: their rotated blocks are untouched, their
                // record counts only grow
                assert forall|i: int| 0 <= i < ti implies {
                    let t2 = #[trigger] self.tables@[i];
                    &&& table_rows(t2) == wal_rows(self.wal.view(), otab[i].meta.name@)
                    &&& pages_covered(t2.pool.logical(), self.wal.durable_records(),
                        t2.meta.name@)
                    &&& durable_pages_covered(t2.pool.durable(), self.wal.durable_records(),
                        t2.meta.name@)
                } by {
                    assert(self.tables@[i] == pretabs[i]);
                    assert(otab[i].meta.name@ != name);
                    assert forall|k2: int| prewal.len() <= k2 < self.wal.view().len() implies (
                    #[trigger] self.wal.view()[k2]).table != otab[i].meta.name@ by {
                        assert(self.wal.view()[prewal.len() + (k2 - prewal.len())].table
                            == name);
                    }
                    lemma_wal_rows_append_other(self.wal.view(), prewal, otab[i].meta.name@);
                    lemma_covered_grow(
                        pretabs[i].pool.logical(),
                        prewal,
                        self.wal.view(),
                        pretabs[i].meta.name@,
                    );
                    lemma_durable_covered_grow(
                        pretabs[i].pool.durable(),
                        prewal,
                        self.wal.view(),
                        pretabs[i].meta.name@,
                    );
                }
                // every record of the rotated log still has its table
                assert forall|k: int| 0 <= k < self.wal.view().len() implies exists|i: int| 0
                    <= i < ti + 1 && (#[trigger] self.wal.view()[k]).table == otab[i].meta.name@
                    && valid_row(otab[i].meta.columns@, self.wal.view()[k].values)
                    && spec_encode_row(otab[i].meta.columns@, self.wal.view()[k].values).len()
                    <= ROW_CAPACITY by {
                    if k < prewal.len() {
                        assert(self.wal.view().take(prewal.len() as int)[k]
                            == self.wal.view()[k]);
                        assert(self.wal.view()[k] == prewal[k]);
                    } else {
                        assert(self.wal.view()[prewal.len() + (k - prewal.len())].table == name);
                        assert(self.wal.view()[prewal.len() + (k - prewal.len())].values
                            == lits.deep_view()[k - prewal.len()]);
                        assert(self.wal.view()[k].table == otab[ti as int].meta.name@
                            && valid_row(
                            otab[ti as int].meta.columns@,
                            self.wal.view()[k].values,
                        ) && spec_encode_row(
                            otab[ti as int].meta.columns@,
                            self.wal.view()[k].values,
                        ).len() <= ROW_CAPACITY);
                    }
                }
            }
            ti += 1;
        }
        proof {
            assert forall|i: int, j: int| 0 <= i < j < self.tables@.len() implies self.tables@[
                i
            ].meta.name@ != self.tables@[j].meta.name@ by {
                assert(otab[i].meta.name@ != otab[j].meta.name@);
            }
            assert forall|k: int| 0 <= k < self.wal.view().len() implies {
                let rec = #[trigger] self.wal.view()[k];
                find_table(self.tables@, rec.table) matches Some(tj) && valid_row(
                    self.tables@[tj].meta.columns@,
                    rec.values,
                ) && spec_encode_row(self.tables@[tj].meta.columns@, rec.values).len()
                    <= ROW_CAPACITY
            } by {
                let rec = self.wal.view()[k];
                let i0 = choose|i0: int| 0 <= i0 < nt && rec.table == otab[i0].meta.name@
                    && valid_row(otab[i0].meta.columns@, rec.values) && spec_encode_row(
                    otab[i0].meta.columns@,
                    rec.values,
                ).len() <= ROW_CAPACITY;
                lemma_find_table_from_unique(self.tables@, otab[i0].meta.name@, i0);
            }
        }
    }

    /// Deletion follows the same WAL-first discipline as insert once it is
    /// implemented; it is declared but out of scope for this engine.
    pub fn delete(&mut self, _stmt: &DeleteStmt) -> (r: Result<u64, GSQLError>)
        requires
            old(self).wf(),
        ensures
            final(self).wf(),
            *final(self) == *old(self),
            r matches Err(e) && e is NotImplemented,
    {
        Err(GSQLError::NotImplemented("DELETE".to_owned()))
    }
}

pub proof fn lemma_row_literals_none(es: Seq<Expression>, i: int)
    requires
        0 <= i < es.len(),
        !(es[i] is Literal),
    ensures
        row_literals(es) is None,
    decreases i,
{
    if i > 0 && es[0] is Literal {
        lemma_row_literals_none(es.drop_first(), i - 1);
    }
}

pub proof fn lemma_row_literals_snoc(es: Seq<Expression>, i: int)
    requires
        0 <= i < es.len(),
        row_literals(es.take(i)) is Some,
        es[i] matches Expression::Literal(_),
    ensures
        es[i] matches Expression::Literal(v) ==> row_literals(es.take(i + 1)) == Some(
            (row_literals(es.take(i))->0).push(v@),
        ),
    decreases i,
{
    if i == 0 {
        assert(es.take(1).drop_first() =~= es.take(0));
        match es[0] {
            Expression::Literal(v) => {
                assert(row_literals(es.take(1)) == Some(seq![v@] + Seq::<ValueModel>::empty()));
                assert(seq![v@] + Seq::<ValueModel>::empty()
                    =~= Seq::<ValueModel>::empty().push(v@));
            },
            _ => {},
        }
    } else {
        let e2 = es.drop_first();
        assert(es.take(i + 1).drop_first() =~= e2.take(i));
        assert(es.take(i).drop_first() =~= e2.take(i - 1));
        lemma_row_literals_snoc(e2, i - 1);
        match es[0] {
            Expression::Literal(v0) => {
                match es[i] {
                    Expression::Literal(v) => {
                        let pre = row_literals(e2.take(i - 1))->0;
                        assert(seq![v0@] + pre.push(v@) =~= (seq![v0@] + pre).push(v@));
                    },
                    _ => {},
                }
            },
            _ => {},
        }
    }
}

/// Extracts the literal values of one row of insert expressions.
pub fn literals_of(es: &Vec<Expression>) -> (r: Result<Vec<Value>, GSQLError>)
    ensures
        match r {
            Ok(vs) => row_literals(es@) == Some(vs.deep_view()),
            Err(e) => row_literals(es@) is None && e is NotImplemented,
        },
{
    let n = es.len();
    let mut out: Vec<Value> = Vec::new();
    let mut i: usize = 0;
    assert(es@.take(0) =~= Seq::<Expression>::empty());
    while i < n
        invariant
            i <= n,
            n == es@.len(),
            out@.len() == i,
            row_literals(es@.take(i as int)) == Some(out.deep_view()),
        decreases n - i,
    {
        match &es[i] {
            Expression::Literal(v) => {
                let ghost prevv = out@;
                let ghost prevd = out.deep_view();
                let c = v.clone();
                out.push(c);
                proof {
                    lemma_row_literals_snoc(es@, i as int);
                    assert forall|x: int| 0 <= x < i + 1 implies out.deep_view()[x] == prevd.push(
                        es@[i as int]->Literal_0@,
                    )[x] by {
                        if x < i {
                            assert(out@[x] == prevv[x]);
                            assert(prevd[x] == prevv[x].deep_view());
                        }
                    }
                    assert(out.deep_view() =~= prevd.push(es@[i as int]->Literal_0@));
                }
            },
            _ => {
                proof {
                    lemma_row_literals_none(es@, i as int);
                }
                return Err(GSQLError::NotImplemented(
                    "insert values must be literals".to_owned(),
                ));
            },
        }
        i += 1;
    }
    proof {
        assert(es@.take(n as int) =~= es@);
    }
    Ok(out)
}

/// Every row of an accepted statement is its literal values.
pub proof fn lemma_stmt_rows_index(vss: Seq<Vec<Expression>>, i: int)
    requires
        stmt_rows(vss) is Some,
        0 <= i < vss.len(),
    ensures
        (stmt_rows(vss)->0).len() == vss.len(),
        row_literals(vss[i]@) == Some((stmt_rows(vss)->0)[i]),
    decreases vss.len(),
{
    if i > 0 {
        lemma_stmt_rows_index(vss.drop_first(), i - 1);
    } else {
        lemma_stmt_rows_len(vss.drop_first());
    }
}

pub proof fn lemma_stmt_rows_len(vss: Seq<Vec<Expression>>)
    requires
        stmt_rows(vss) is Some,
    ensures
        (stmt_rows(vss)->0).len() == vss.len(),
    decreases vss.len(),
{
    if vss.len() > 0 {
        lemma_stmt_rows_len(vss.drop_first());
    }
}

pub proof fn lemma_stmt_rows_none(vss: Seq<Vec<Expression>>, i: int)
    requires
        0 <= i < vss.len(),
        row_literals(vss[i]@) is None,
    ensures
        stmt_rows(vss) is None,
    decreases i,
{
    if i > 0 && row_literals(vss[0]@) is Some {
        lemma_stmt_rows_none(vss.drop_first(), i - 1);
    }
}

pub proof fn lemma_stmt_rows_snoc(vss: Seq<Vec<Expression>>, i: int)
    requires
        0 <= i < vss.len(),
        stmt_rows(vss.take(i)) is Some,
        row_literals(vss[i]@) is Some,
    ensures
        stmt_rows(vss.take(i + 1)) == Some(
            (stmt_rows(vss.take(i))->0).push(row_literals(vss[i]@)->0),
        ),
    decreases i,
{
    if i == 0 {
        assert(vss.take(1).drop_first() =~= vss.take(0));
        let v = row_literals(vss[0]@)->0;
        assert(stmt_rows(vss.take(1)) == Some(seq![v] + Seq::<Seq<ValueModel>>::empty()));
        assert(seq![v] + Seq::<Seq<ValueModel>>::empty()
            =~= Seq::<Seq<ValueModel>>::empty().push(v));
    } else {
        let v2 = vss.drop_first();
        assert(vss.take(i + 1).drop_first() =~= v2.take(i));
        assert(vss.take(i).drop_first() =~= v2.take(i - 1));
        lemma_stmt_rows_snoc(v2, i - 1);
        let v0 = row_literals(vss[0]@)->0;
        let pre = stmt_rows(v2.take(i - 1))->0;
        let v = row_literals(vss[i]@)->0;
        assert(seq![v0] + pre.push(v) =~= (seq![v0] + pre).push(v));
    }
}

/// Whether any of the first `upto` rows holds the key in column `pi`.
fn key_in_rows(rows: &Vec<Vec<Value>>, pi: usize, key: &Value, upto: usize) -> (b: bool)
    requires
        upto <= rows@.len(),
    ensures
        b == exists|x: int| 0 <= x < upto && (pi as int) < (#[trigger] rows.deep_view()[x]).len()
            && vm_eq(rows.deep_view()[x][pi as int], key@),
{
    let mut x: usize = 0;
    while x < upto
        invariant
            x <= upto,
            upto <= rows@.len(),
            forall|y: int| 0 <= y < x ==> !((pi as int) < (#[trigger] rows.deep_view()[y]).len()
                && vm_eq(rows.deep_view()[y][pi as int], key@)),
        decreases upto - x,
    {
        assert(rows.deep_view()[x as int] == rows@[x as int].deep_view());
        if pi < rows[x].len() {
            assert(rows@[x as int].deep_view()[pi as int] == rows@[x as int]@[
                pi as int
            ].deep_view());
            if value_eq(&rows[x][pi], key) {
                return true;
            }
        }
        x += 1;
    }
    false
}

/// Validates an insert statement against a table, in phases: every row a
/// literal row; declared arity, types and nullability; page-sized encodings;
/// fresh values in key columns; the page budget.  The phase that fails
/// decides the error kind.  Returns the rows and their encodings; mutates
/// nothing.
fn validate_insert(t: &Table, existing: &Vec<Vec<Value>>, stmt: &InsertStmt) -> (r: Result<
    (Vec<Vec<Value>>, Vec<Vec<u8>>),
    GSQLError,
>)
    requires
        table_wf(*t),
        existing.deep_view() == table_rows(*t),
        stmt.columns@.len() == 0,
    ensures
        match r {
            Ok(le) => {
                &&& insert_ok(*t, *stmt)
                &&& stmt_rows(stmt.values@) == Some(le.0.deep_view())
                &&& le.0@.len() == stmt.values@.len()
                &&& le.1@.len() == stmt.values@.len()
                &&& forall|k: int| 0 <= k < le.0@.len() ==> valid_row(
                    t.meta.columns@,
                    #[trigger] le.0.deep_view()[k],
                )
                &&& forall|k: int| 0 <= k < le.1@.len() ==> (#[trigger] le.1@[k])@
                    == spec_encode_row(t.meta.columns@, le.0.deep_view()[k])
                &&& forall|k: int| 0 <= k < le.1@.len() ==> (#[trigger] le.1@[k])@.len()
                    <= ROW_CAPACITY
            },
            Err(e) => {
                &&& !insert_ok(*t, *stmt)
                &&& (e is TypeMismatch <==> (stmt_rows(stmt.values@) matches Some(rows)
                    && !rows_typed(t.meta.columns@, rows)))
                &&& (e is DuplicateKey <==> (stmt_rows(stmt.values@) matches Some(rows)
                    && rows_typed(t.meta.columns@, rows) && rows_fit(t.meta.columns@, rows)
                    && !keys_fresh(*t, rows)))
                &&& (e is NotImplemented <==> (stmt_rows(stmt.values@) is None || (stmt_rows(
                    stmt.values@,
                ) matches Some(rows) && rows_typed(t.meta.columns@, rows) && ((!rows_fit(
                    t.meta.columns@,
                    rows,
                )) || (rows_fit(t.meta.columns@, rows) && keys_fresh(*t, rows) && !budget_ok(
                    *t,
                    rows,
                ))))))
            },
        },
{
    let cols = &t.meta.columns;
    let ncols = cols.len();
    let n = stmt.values.len();

    // every row must consist of literal values
    let mut lits: Vec<Vec<Value>> = Vec::new();
    let mut i: usize = 0;
    assert(stmt.values@.take(0) =~= Seq::<Vec<Expression>>::empty());
    while i < n
        invariant
            i <= n,
            n == stmt.values@.len(),
            lits@.len() == i,
            stmt_rows(stmt.values@.take(i as int)) == Some(lits.deep_view()),
        decreases n - i,
    {
        let vals = match literals_of(&stmt.values[i]) {
            Ok(v) => v,
            Err(e) => {
                proof {
                    lemma_stmt_rows_none(stmt.values@, i as int);
                }
                return Err(e);
            },
        };
        let ghost prevld = lits.deep_view();
        proof {
            lemma_stmt_rows_snoc(stmt.values@, i as int);
        }
        lits.push(vals);
        proof {
            assert forall|x: int| 0 <= x < i + 1 implies lits.deep_view()[x] == prevld.push(
                lits@[i as int].deep_view(),
            )[x] by {
                if x < i {
                    assert(prevld[x] == lits@[x].deep_view());
                }
            }
            assert(lits.deep_view() =~= prevld.push(lits@[i as int].deep_view()));
        }
        i += 1;
    }
    proof {
        assert(stmt.values@.take(n as int) =~= stmt.values@);
    }
    let ghost rows = lits.deep_view();

    // arity, declared types, and no Null in a NotNull or primary-key column
    let mut k: usize = 0;
    while k < n
        invariant
            k <= n,
            n == lits@.len(),
            rows == lits.deep_view(),
            stmt_rows(stmt.values@) == Some(rows),
            ncols == cols@.len(),
            cols == t.meta.columns,
            forall|x: int| 0 <= x < k ==> valid_row(t.meta.columns@, #[trigger] rows[x]),
            forall|x: int, c: int| 0 <= x < k && 0 <= c < ncols && notnull_col(
                t.meta.columns@[c],
            ) ==> !(#[trigger] rows[x][c] is Null),
        decreases n - k,
    {
        let vals = &lits[k];
        assert(rows[k as int] == lits@[k as int].deep_view());
        if vals.len() != ncols {
            proof {
                assert(!valid_row(t.meta.columns@, rows[k as int]));
                assert(!rows_typed(t.meta.columns@, rows));
            }
            return Err(GSQLError::TypeMismatch("row arity differs from schema".to_owned()));
        }
        let mut c: usize = 0;
        while c < ncols
            invariant
                c <= ncols,
                ncols == cols@.len(),
                cols == t.meta.columns,
                k < lits@.len(),
                rows == lits.deep_view(),
                stmt_rows(stmt.values@) == Some(rows),
                vals == &lits@[k as int],
                vals@.len() == ncols,
                rows[k as int] == lits@[k as int].deep_view(),
                forall|x: int| 0 <= x < c ==> type_ok(
                    t.meta.columns@[x].data_type,
                    #[trigger] rows[k as int][x],
                ),
                forall|x: int| 0 <= x < c && notnull_col(t.meta.columns@[x])
                    ==> !(#[trigger] rows[k as int][x] is Null),
            decreases ncols - c,
        {
            assert(rows[k as int][c as int] == vals@[c as int].deep_view());
            if !type_matches(cols[c].data_type, &vals[c]) {
                proof {
                    assert(!type_ok(t.meta.columns@[c as int].data_type, rows[k as int][c as int]));
                    assert(!valid_row(t.meta.columns@, rows[k as int]));
                    assert(!rows_typed(t.meta.columns@, rows));
                }
                return Err(GSQLError::TypeMismatch(
                    "value does not match column type".to_owned(),
                ));
            }
            if col_has_notnull(&cols[c]) || col_has_pk(&cols[c]) {
                if matches!(vals[c], Value::Null) {
                    proof {
                        assert(notnull_col(t.meta.columns@[c as int]));
                        assert(rows[k as int][c as int] is Null);
                        assert(!rows_typed(t.meta.columns@, rows));
                    }
                    return Err(GSQLError::TypeMismatch(
                        "Null in a NotNull or primary-key column".to_owned(),
                    ));
                }
            }
            c += 1;
        }
        assert(valid_row(t.meta.columns@, rows[k as int]));
        k += 1;
    }
    assert(rows_typed(t.meta.columns@, rows));

    // every encoded row must fit the data area of one page
    let mut encs: Vec<Vec<u8>> = Vec::new();
    let mut k: usize = 0;
    while k < n
        invariant
            k <= n,
            n == lits@.len(),
            encs@.len() == k,
            rows == lits.deep_view(),
            stmt_rows(stmt.values@) == Some(rows),
            cols == t.meta.columns,
            rows_typed(t.meta.columns@, rows),
            forall|x: int| 0 <= x < k ==> (#[trigger] encs@[x])@ == spec_encode_row(
                t.meta.columns@,
                rows[x],
            ),
            forall|x: int| 0 <= x < k ==> (#[trigger] encs@[x])@.len() <= ROW_CAPACITY,
        decreases n - k,
    {
        assert(rows[k as int] == lits@[k as int].deep_view());
        let enc = match encode_row(cols, &lits[k]) {
            Ok(b) => b,
            Err(e) => {
                proof {
                    assert(valid_row(t.meta.columns@, rows[k as int]));
                    assert(e is NotImplemented);
                    assert(!rows_fit(t.meta.columns@, rows));
                }
                return Err(e);
            },
        };
        encs.push(enc);
        k += 1;
    }
    assert(rows_fit(t.meta.columns@, rows)) by {
        assert forall|x: int| 0 <= x < rows.len() implies spec_encode_row(
            t.meta.columns@,
            #[trigger] rows[x],
        ).len() <= ROW_CAPACITY by {
            assert(encs@[x]@ == spec_encode_row(t.meta.columns@, rows[x]));
        }
    }

    // every PrimaryKey or Unique column receives only fresh values
    let mut u: usize = 0;
    while u < ncols
        invariant
            u <= ncols,
            ncols == cols@.len(),
            cols == t.meta.columns,
            n == lits@.len(),
            rows == lits.deep_view(),
            stmt_rows(stmt.values@) == Some(rows),
            existing.deep_view() == table_rows(*t),
            rows_typed(t.meta.columns@, rows),
            rows_fit(t.meta.columns@, rows),
            forall|x: int| 0 <= x < u && key_col(#[trigger] t.meta.columns@[x]) ==> no_dup(
                table_rows(*t),
                rows,
                x,
            ),
        decreases ncols - u,
    {
        if col_has_pk(&cols[u]) || col_has_unique(&cols[u]) {
            let mut k: usize = 0;
            while k < n
                invariant
                    k <= n,
                    n == lits@.len(),
                    u < cols@.len(),
                    ncols == cols@.len(),
                    cols == t.meta.columns,
                    rows == lits.deep_view(),
                    stmt_rows(stmt.values@) == Some(rows),
                    existing.deep_view() == table_rows(*t),
                    rows_typed(t.meta.columns@, rows),
                    rows_fit(t.meta.columns@, rows),
                    key_col(t.meta.columns@[u as int]),
                    forall|a: int, b: int| 0 <= a < b < k ==> !vm_eq(
                        #[trigger] rows[a][u as int],
                        #[trigger] rows[b][u as int],
                    ),
                    forall|a: int, e: int| 0 <= a < k && 0 <= e < table_rows(*t).len()
                        && (u as int) < table_rows(*t)[e].len() ==> !vm_eq(
                        #[trigger] table_rows(*t)[e][u as int],
                        #[trigger] rows[a][u as int],
                    ),
                decreases n - k,
            {
                assert(rows[k as int] == lits@[k as int].deep_view());
                assert(rows[k as int].len() == ncols);
                assert(rows[k as int][u as int] == lits@[k as int]@[u as int].deep_view());
                let dup_old = key_in_rows(existing, u, &lits[k][u], existing.len());
                let dup_new = key_in_rows(&lits, u, &lits[k][u], k);
                if dup_old || dup_new {
                    proof {
                        if dup_new {
                            let x = choose|x: int| 0 <= x < k && (u as int) < (
                            #[trigger] lits.deep_view()[x]).len() && vm_eq(
                                lits.deep_view()[x][u as int],
                                rows[k as int][u as int],
                            );
                            assert(vm_eq(rows[x][u as int], rows[k as int][u as int]));
                        } else {
                            let x = choose|x: int| 0 <= x < existing@.len() && (u as int) < (
                            #[trigger] existing.deep_view()[x]).len() && vm_eq(
                                existing.deep_view()[x][u as int],
                                rows[k as int][u as int],
                            );
                            assert(vm_eq(table_rows(*t)[x][u as int], rows[k as int][u as int]));
                        }
                        assert(!no_dup(table_rows(*t), rows, u as int));
                        assert(key_col(t.meta.columns@[u as int]));
                        assert(!keys_fresh(*t, rows));
                    }
                    return Err(GSQLError::DuplicateKey(stmt.table_name.clone()));
                }
                k += 1;
            }
        } else {
            proof {
                assert(!key_col(t.meta.columns@[u as int]));
            }
        }
        u += 1;
    }
    assert(keys_fresh(*t, rows));

    // the file's page budget is a machine limit
    if n as u64 >= u64::MAX - t.meta.page_count {
        return Err(GSQLError::NotImplemented("page budget exhausted".to_owned()));
    }
    assert(budget_ok(*t, rows));
    Ok((lits, encs))
}

/// If a prefix of the statement's rows decodes, it is the prefix of the
/// statement's rows.
pub proof fn lemma_stmt_rows_prefix(vss: Seq<Vec<Expression>>, i: int)
    requires
        stmt_rows(vss) is Some,
        0 <= i <= vss.len(),
    ensures
        stmt_rows(vss.take(i)) is Some,
        stmt_rows(vss.take(i))->0 == (stmt_rows(vss)->0).take(i),
    decreases i,
{
    lemma_stmt_rows_len(vss);
    if i == 0 {
        assert(vss.take(0) =~= Seq::<Vec<Expression>>::empty());
        assert((stmt_rows(vss)->0).take(0) =~= Seq::<Seq<ValueModel>>::empty());
    } else {
        let rows = stmt_rows(vss)->0;
        lemma_stmt_rows_prefix(vss, i - 1);
        lemma_stmt_rows_index(vss, i - 1);
        assert(vss.take(i)[i - 1] == vss[i - 1]);
        assert(vss.take(i - 1) =~= vss.take(i).take(i - 1));
        lemma_stmt_rows_snoc(vss.take(i), i - 1);
        assert(rows.take(i) =~= rows.take(i - 1).push(rows[i - 1]));
        assert(vss.take(i).take(i - 1 + 1) =~= vss.take(i));
    }
}

/// Fetches a page through the pool, flushing once if the cache is full of
/// dirty pages; the page comes back pinned.
fn pool_fetch(pool: &mut BufferPool, pno: u64) -> (d: Vec<u8>)
    requires
        old(pool).wf(),
        (pno as int) < old(pool).logical().len(),
        old(pool).no_pins(),
    ensures
        final(pool).wf(),
        final(pool).logical() == old(pool).logical(),
        final(pool).cap() == old(pool).cap(),
        final(pool).durable() == old(pool).durable() || final(pool).durable() == old(
            pool,
        ).logical(),
        d@ == old(pool).logical()[pno as int],
        final(pool).is_pinned(pno as int),
        forall|p: int| p != pno as int ==> !final(pool).is_pinned(p),
{
    match pool.get(pno) {
        Ok(d) => d,
        Err(_) => {
            pool.flush_all();
            proof {
                pool.lemma_can_admit(pno as int);
            }
            match pool.get(pno) {
                Ok(d) => d,
                Err(_) => {
                    proof {
                        assert(false);
                    }
                    Vec::new()
                },
            }
        },
    }
}

/// Extends a table's file by one freshly formatted page.
fn alloc_format(t: &mut Table) -> (pno: u64)
    requires
        table_wf(*old(t)),
        old(t).meta.page_count < u64::MAX,
    ensures
        table_wf(*final(t)),
        final(t).meta.name == old(t).meta.name,
        final(t).meta.columns == old(t).meta.columns,
        final(t).meta.primary_key == old(t).meta.primary_key,
        final(t).meta.page_count == old(t).meta.page_count + 1,
        pno == old(t).meta.page_count,
        table_rows(*final(t)) == table_rows(*old(t)),
        final(t).pool.logical() == old(t).pool.logical().push(spec_empty_page()),
        final(t).pool.durable() == old(t).pool.durable().push(crate::codec::zero_seq(
            PAGE_SIZE as nat,
        )) || final(t).pool.durable() == old(t).pool.logical().push(crate::codec::zero_seq(
            PAGE_SIZE as nat,
        )),
{
    let ghost cols = t.meta.columns@;
    let id = t.pool.allocate_page();
    let img = empty_page_image();
    let _pb = pool_fetch(&mut t.pool, id);
    proof {
        t.pool.lemma_pinned_resident(id as int);
        lemma_empty_page_wf(cols);
    }
    let ghost mid = t.pool.logical();
    match t.pool.write_page(id, &img) {
        Ok(_) => {},
        Err(_) => {
            proof {
                assert(false);
            }
        },
    }
    t.pool.release(id);
    t.meta.page_count = t.meta.page_count + 1;
    proof {
        let oldpages = old(t).pool.logical();
        let pages = t.pool.logical();
        assert(pages =~= oldpages.push(spec_empty_page()));
        lemma_pages_rows_update_last(cols, oldpages.push(crate::codec::zero_seq(
            PAGE_SIZE as nat,
        )), spec_empty_page(), 0);
        assert(oldpages.push(crate::codec::zero_seq(PAGE_SIZE as nat)).update(
            oldpages.len() as int,
            spec_empty_page(),
        ) =~= pages);
        assert(oldpages.push(crate::codec::zero_seq(PAGE_SIZE as nat)).take(
            oldpages.len() as int,
        ) =~= oldpages);
        assert(pages_rows(cols, pages, 0) == pages_rows(cols, oldpages, 0) + page_rows(
            cols,
            spec_empty_page(),
        ));
        assert(pages_rows(cols, oldpages, 0) + Seq::<Seq<ValueModel>>::empty() =~= pages_rows(
            cols,
            oldpages,
            0,
        ));
        assert forall|p: int| 0 <= p < pages.len() implies page_wf(cols, #[trigger] pages[p]) by {
            if p < oldpages.len() {
                assert(pages[p] == oldpages[p]);
            }
        }
    }
    id
}

/// Applies validated rows to a table: for each row, the WAL record is
/// appended and flushed, then the row is written into the last page through
/// the buffer pool, allocating a new page when the row does not fit.
fn apply_rows(
    t: &mut Table,
    wal: &mut WriteAheadLog,
    tname: &String,
    lits: &Vec<Vec<Value>>,
    encs: &Vec<Vec<u8>>,
)
    requires
        table_wf(*old(t)),
        old(wal).wf(),
        lits@.len() == encs@.len(),
        forall|k: int| 0 <= k < lits@.len() ==> valid_row(
            old(t).meta.columns@,
            #[trigger] lits.deep_view()[k],
        ),
        forall|k: int| 0 <= k < encs@.len() ==> (#[trigger] encs@[k])@ == spec_encode_row(
            old(t).meta.columns@,
            lits.deep_view()[k],
        ),
        forall|k: int| 0 <= k < encs@.len() ==> (#[trigger] encs@[k])@.len() <= ROW_CAPACITY,
        old(t).meta.page_count as int + lits@.len() < u64::MAX,
        tname@ == old(t).meta.name@,
        pages_covered(old(t).pool.logical(), old(wal).durable_records(), old(t).meta.name@),
        durable_pages_covered(
            old(t).pool.durable(),
            old(wal).durable_records(),
            old(t).meta.name@,
        ),
    ensures
        table_wf(*final(t)),
        final(wal).wf(),
        final(t).meta.name == old(t).meta.name,
        final(t).meta.columns == old(t).meta.columns,
        final(t).meta.primary_key == old(t).meta.primary_key,
        old(t).meta.page_count <= final(t).meta.page_count,
        final(t).meta.page_count as int <= old(t).meta.page_count as int + lits@.len(),
        table_rows(*final(t)) == table_rows(*old(t)) + lits.deep_view(),
        final(wal).view().len() == old(wal).view().len() + lits@.len(),
        final(wal).view().take(old(wal).view().len() as int) == old(wal).view(),
        forall|k: int| 0 <= k < lits@.len() ==> {
            let rec = #[trigger] final(wal).view()[old(wal).view().len() + k];
            &&& rec.table == tname@
            &&& rec.op == WalOp::Insert
            &&& rec.values == lits.deep_view()[k]
        },
        final(wal).durable_records() == final(wal).view(),
        pages_covered(final(t).pool.logical(), final(wal).durable_records(), old(t).meta.name@),
        durable_pages_covered(
            final(t).pool.durable(),
            final(wal).durable_records(),
            old(t).meta.name@,
        ),
        table_place_state(*final(t)) == place_rows(
            table_place_state(*old(t)),
            row_sizes(old(t).meta.columns@, lits.deep_view()),
        ),
        forall|nm: Seq<char>, p: u64| #[trigger] wal_count(final(wal).durable_records(), nm, p)
            >= wal_count(old(wal).durable_records(), nm, p),
{
    let ghost cols = old(t).meta.columns@;
    let ghost base = old(wal).view().len() as int;
    let ghost oldrows = table_rows(*old(t));
    let n = lits.len();
    let mut k: usize = 0;
    wal.flush();
    proof {
        assert forall|nm: Seq<char>, p: u64| #[trigger] wal_count(wal.durable_records(), nm, p)
            >= wal_count(old(wal).durable_records(), nm, p) by {
            lemma_wal_count_prefix(old(wal).view(), old(wal).durable_count(), nm, p);
        }
        assert forall|p: int| 0 <= p < t.pool.logical().len() implies page_num_rows(
            #[trigger] t.pool.logical()[p],
        ) <= wal_count(wal.durable_records(), old(t).meta.name@, p as u64) by {
            assert(page_num_rows(t.pool.logical()[p]) <= wal_count(
                old(wal).durable_records(),
                old(t).meta.name@,
                p as u64,
            ));
        }
        assert forall|p: int| 0 <= p < t.pool.durable().len() implies (
        #[trigger] t.pool.durable()[p] == crate::codec::zero_seq(PAGE_SIZE as nat)
            || page_num_rows(t.pool.durable()[p]) <= wal_count(
            wal.durable_records(),
            old(t).meta.name@,
            p as u64,
        )) by {
            assert(t.pool.durable()[p] == crate::codec::zero_seq(PAGE_SIZE as nat)
                || page_num_rows(t.pool.durable()[p]) <= wal_count(
                old(wal).durable_records(),
                old(t).meta.name@,
                p as u64,
            ));
        }
    }
    assert(lits.deep_view().take(0) =~= Seq::<Seq<ValueModel>>::empty());
    assert(oldrows + Seq::<Seq<ValueModel>>::empty() =~= oldrows);
    let ghost sizes = row_sizes(old(t).meta.columns@, lits.deep_view());
    let ghost pinit = table_place_state(*old(t));
    proof {
        assert(sizes.take(0) =~= Seq::<int>::empty());
        assert(place_rows(pinit, sizes.take(0)) == pinit);
    }
    while k < n
        invariant
            k <= n,
            n == lits@.len(),
            n == encs@.len(),
            table_wf(*t),
            wal.wf(),
            cols == t.meta.columns@,
            t.meta.name == old(t).meta.name,
            t.meta.columns == old(t).meta.columns,
            t.meta.primary_key == old(t).meta.primary_key,
            old(t).meta.page_count <= t.meta.page_count,
            t.meta.page_count as int <= old(t).meta.page_count as int + k,
            old(t).meta.page_count as int + n < u64::MAX,
            forall|x: int| 0 <= x < n ==> valid_row(cols, #[trigger] lits.deep_view()[x]),
            forall|x: int| 0 <= x < n ==> (#[trigger] encs@[x])@ == spec_encode_row(
                cols,
                lits.deep_view()[x],
            ),
            forall|x: int| 0 <= x < n ==> (#[trigger] encs@[x])@.len() <= ROW_CAPACITY,
            table_rows(*t) == oldrows + lits.deep_view().take(k as int),
            oldrows == table_rows(*old(t)),
            wal.view().len() == base + k,
            wal.view().take(base) == old(wal).view(),
            base == old(wal).view().len(),
            forall|j: int| 0 <= j < k ==> {
                let rec = #[trigger] wal.view()[base + j];
                &&& rec.table == tname@
                &&& rec.op == WalOp::Insert
                &&& rec.values == lits.deep_view()[j]
            },
            wal.durable_records() == wal.view(),
            tname@ == old(t).meta.name@,
            t.meta.name@ == old(t).meta.name@,
            pages_covered(t.pool.logical(), wal.durable_records(), old(t).meta.name@),
            durable_pages_covered(t.pool.durable(), wal.durable_records(), old(t).meta.name@),
            forall|nm: Seq<char>, p: u64| #[trigger] wal_count(wal.durable_records(), nm, p)
                >= wal_count(old(wal).durable_records(), nm, p),
            sizes == row_sizes(old(t).meta.columns@, lits.deep_view()),
            pinit == table_place_state(*old(t)),
            table_place_state(*t) == place_rows(pinit, sizes.take(k as int)),
        decreases n - k,
    {
        let enc = &encs[k];
        assert(enc@ == spec_encode_row(cols, lits.deep_view()[k as int]));
        let ghost gname = old(t).meta.name@;
        let ghost recs0 = wal.durable_records();
        let ghost d0 = t.pool.durable();
        let ghost l0 = t.pool.logical();
        // choose the target page
        let mut pno: u64;
        if t.meta.page_count == 0 {
            pno = alloc_format(t);
            proof {
                lemma_empty_page_wf(cols);
                assert(t.pool.logical()[pno as int] == spec_empty_page());
                lemma_covered_push_empty(l0, t.pool.logical(), recs0, gname);
                lemma_durable_alloc(d0, l0, t.pool.durable(), recs0, gname);
            }
        } else {
            let last = t.meta.page_count - 1;
            let pb = pool_fetch(&mut t.pool, last);
            t.pool.release(last);
            proof {
                lemma_durable_step(d0, l0, t.pool.durable(), recs0, gname);
            }
            let nr = read_num_rows(&pb);
            let fo = read_free(&pb);
            if fo as usize + enc.len() > PAGE_SIZE || nr == 0xffff {
                let ghost d1 = t.pool.durable();
                pno = alloc_format(t);
                proof {
                    lemma_empty_page_wf(cols);
                    assert(t.pool.logical()[pno as int] == spec_empty_page());
                    lemma_covered_push_empty(l0, t.pool.logical(), recs0, gname);
                    lemma_durable_alloc(d1, l0, t.pool.durable(), recs0, gname);
                }
            } else {
                pno = last;
                proof {
                    assert(page_free(t.pool.logical()[pno as int]) + enc@.len() <= PAGE_SIZE);
                    assert(page_num_rows(t.pool.logical()[pno as int]) < 0xffff);
                }
            }
        }
        let ghost pages = t.pool.logical();
        assert(pno as int == pages.len() - 1);
        assert(page_wf(cols, pages[pno as int]));
        // the row's slot is the page's current row count
        let ghost d2 = t.pool.durable();
        let mut pb = pool_fetch(&mut t.pool, pno);
        proof {
            lemma_durable_step(d2, pages, t.pool.durable(), recs0, gname);
            assert(page_num_rows(pages[pno as int]) <= wal_count(recs0, gname, pno));
        }
        let nr = read_num_rows(&pb);
        assert(page_free(pages[pno as int]) + enc@.len() <= PAGE_SIZE);
        assert(nr < 0xffff);
        // WAL first: the record is durable before the page changes
        let rec = WalRecord {
            table: tname.clone(),
            op: WalOp::Insert,
            page_no: pno,
            slot: nr as u64,
            values: clone_values(&lits[k]),
        };
        let ghost prevwal = wal.view();
        let ghost recm = rec@;
        wal.log_insert(rec);
        wal.flush();
        proof {
            assert(wal.view().take(base) =~= prevwal.take(base));
            assert(lits@[k as int].deep_view() == lits.deep_view()[k as int]);
            assert(recs0 == prevwal);
            assert(wal.durable_records() == recs0.push(recm));
            assert forall|nm: Seq<char>, p2: u64| #[trigger] wal_count(
                wal.durable_records(),
                nm,
                p2,
            ) >= wal_count(recs0, nm, p2) by {
                lemma_wal_count_push(recs0, recm, nm, p2);
            }
            lemma_covered_grow(t.pool.logical(), recs0, wal.durable_records(), gname);
            lemma_durable_covered_grow(t.pool.durable(), recs0, wal.durable_records(), gname);
        }
        // now the data page
        page_append_row(&mut pb, enc);
        proof {
            t.pool.lemma_pinned_resident(pno as int);
        }
        match t.pool.write_page(pno, &pb) {
            Ok(_) => {},
            Err(_) => {
                proof {
                    assert(false);
                }
            },
        }
        t.pool.release(pno);
        proof {
            let vs = lits.deep_view()[k as int];
            lemma_page_append_rows(cols, pages[pno as int], vs);
            let appended = spec_page_append(pages[pno as int], spec_encode_row(cols, vs));
            assert(t.pool.logical() =~= pages.update(pno as int, appended));
            lemma_pages_rows_update_last(cols, pages, appended, 0);
            assert(pages_rows(cols, t.pool.logical(), 0) == pages_rows(
                cols,
                pages.take(pages.len() - 1),
                0,
            ) + page_rows(cols, appended));
            assert(pages_rows(cols, pages, 0) == pages_rows(cols, pages.take(pages.len() - 1), 0)
                + page_rows(cols, pages[pno as int]));
            assert(pages_rows(cols, pages.take(pages.len() - 1), 0) + page_rows(
                cols,
                pages[pno as int],
            ).push(vs) =~= (pages_rows(cols, pages.take(pages.len() - 1), 0) + page_rows(
                cols,
                pages[pno as int],
            )).push(vs));
            assert(table_rows(*t) == pages_rows(cols, pages, 0).push(vs));
            assert(lits.deep_view().take(k + 1) =~= lits.deep_view().take(k as int).push(vs));
            assert(oldrows + lits.deep_view().take(k as int).push(vs) =~= (oldrows
                + lits.deep_view().take(k as int)).push(vs));
            assert forall|p: int| 0 <= p < t.pool.logical().len() implies page_wf(
                cols,
                #[trigger] t.pool.logical()[p],
            ) by {
                if p != pno as int {
                    assert(t.pool.logical()[p] == pages[p]);
                }
            }
            // placement: the loop step matches the placement specification
            lemma_place_rows_snoc(pinit, sizes, k as int);
            assert(sizes[k as int] == enc@.len());
            assert(t.pool.logical().last() == appended);
            assert(t.meta.page_count as int == pages.len());
            assert(table_place_state(*t) == place_rows(pinit, sizes.take(k + 1)));
            // the new row is covered: its record is already durable
            assert(recm.table == gname && recm.page_no == pno);
            assert forall|p: int| 0 <= p < t.pool.logical().len() implies page_num_rows(
                #[trigger] t.pool.logical()[p],
            ) <= wal_count(wal.durable_records(), gname, p as u64) by {
                if p == pno as int {
                    lemma_wal_count_push(recs0, recm, gname, pno);
                    assert(page_num_rows(appended) == page_num_rows(pages[pno as int]) + 1);
                } else {
                    assert(t.pool.logical()[p] == pages[p]);
                    assert(page_num_rows(pages[p]) <= wal_count(wal.durable_records(), gname,
                        p as u64));
                }
            }
        }
        k += 1;
    }
    proof {
        assert(lits.deep_view().take(n as int) =~= lits.deep_view());
        assert(sizes.take(n as int) =~= sizes);
    }
}

/// A placeholder table swapped into the catalog while one table is worked
/// on; never observed by callers.
fn dummy_table() -> (t: Table)
    ensures
        table_wf(t),
        t.meta.columns@.len() == 1,
{
    let mut cols: Vec<ColumnDef> = Vec::new();
    cols.push(ColumnDef {
        name: String::new(),
        data_type: DataType::Int,
        constraints: Vec::new(),
    });
    Table {
        meta: TableMetadata {
            name: String::new(),
            columns: cols,
            page_count: 0,
            primary_key: None,
        },
        pool: BufferPool::new(1),
    }
}

/// A successful decode never moves the variable cursor backwards.
pub proof fn lemma_dec_cells_end_ge(
    cols: Seq<ColumnDef>,
    b: Seq<u8>,
    npos: int,
    fpos: int,
    vpos: int,
)
    requires
        dec_cells(cols, b, npos, fpos, vpos) is Some,
    ensures
        (dec_cells(cols, b, npos, fpos, vpos)->0).1 >= vpos,
    decreases cols.len(),
{
    if cols.len() > 0 {
        let w = crate::codec::width_of(cols[0].data_type) as int;
        if b[npos] != 0 {
            lemma_dec_cells_end_ge(cols.drop_first(), b, npos + 1, fpos + w, vpos);
        } else {
            match cols[0].data_type {
                DataType::Int | DataType::BigInt | DataType::Float | DataType::Double => {
                    lemma_dec_cells_end_ge(cols.drop_first(), b, npos + 1, fpos + 8, vpos);
                },
                DataType::Boolean => {
                    lemma_dec_cells_end_ge(cols.drop_first(), b, npos + 1, fpos + 1, vpos);
                },
                DataType::Text | DataType::Varchar(_) => {
                    let l = vstd::bytes::spec_u64_from_le_bytes(b.subrange(
                        vpos,
                        vpos + 8,
                    )) as int;
                    lemma_dec_cells_end_ge(cols.drop_first(), b, npos + 1, fpos, vpos + 8 + l);
                },
            }
        }
    }
}

} // verus!
