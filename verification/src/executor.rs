//! Query executor: dispatches typed statements to the storage engine and
//! shapes the outcome as a [`QueryResult`].

use vstd::prelude::*;
use crate::error::GSQLError;
use crate::parser::{Statement, SelectStmt, SelectItem, TableRef, Expression};
use crate::storage::{StorageEngine, find_table, insert_ok, stmt_rows, table_rows, keep_rows,
    where_ok, tables_like, rows_typed, rows_fit, keys_fresh, cols_like, pk_index};
use crate::value::ValueModel;
use crate::value::Value;
use crate::QueryResult;

verus! {

/// The column-name label a select result carries for one select item:
/// the column's name, or a star for `All`.
pub open spec fn col_name_of(it: SelectItem) -> Seq<char> {
    match it {
        SelectItem::Column(nm) => nm@,
        SelectItem::All => "*"@,
    }
}

/// Plans a select; the current planner always chooses a sequential scan.
pub struct QueryPlanner {}

impl QueryPlanner {
    pub fn new() -> (p: Self) {
        QueryPlanner {  }
    }

    /// Chooses the access path for a select: a full sequential scan.
    pub fn plan_select(&self, stmt: &SelectStmt, _storage: &mut StorageEngine) -> (r: Result<
        ExecutionPlan,
        GSQLError,
    >)
        ensures
            *final(_storage) == *old(_storage),
            match r {
                Ok(p) => {
                    &&& stmt.from matches TableRef::Table(name)
                    &&& p matches ExecutionPlan::SeqScan(sp) && stmt.from matches TableRef::Table(
                        name,
                    ) && sp.table_name@ == name@ && sp.filter == stmt.where_clause
                },
                Err(e) => stmt.from matches TableRef::Join(_, _) && e is NotImplemented,
            },
            r is Ok <==> stmt.from matches TableRef::Table(_),
    {
        let name = match &stmt.from {
            TableRef::Table(n) => n.clone(),
            TableRef::Join(_, _) => {
                return Err(GSQLError::NotImplemented("joins".to_owned()));
            },
        };
        let filter = match &stmt.where_clause {
            Option::Some(e) => Option::Some(e.clone()),
            Option::None => Option::None,
        };
        Ok(ExecutionPlan::SeqScan(SeqScanPlan { table_name: name, filter }))
    }
}

/// An access path chosen by the planner.
pub enum ExecutionPlan {
    SeqScan(SeqScanPlan),
    IndexScan(IndexScanPlan),
}

/// A full sequential scan of one table under an optional filter.
pub struct SeqScanPlan {
    pub table_name: String,
    pub filter: Option<Expression>,
}

/// A point lookup through a primary-key index; not produced by the current
/// planner.
pub struct IndexScanPlan {
    pub table_name: String,
    pub key: i64,
}

/// Executes statements against a storage engine.
pub struct QueryExecutor {
    planner: QueryPlanner,
}

impl QueryExecutor {
    pub fn new() -> (e: Self) {
        QueryExecutor { planner: QueryPlanner::new() }
    }

    /// Dispatches one statement: create, insert and select reach the engine,
    /// delete is declared but unsupported.
    pub fn execute(&self, stmt: &Statement, storage: &mut StorageEngine) -> (r: Result<
        QueryResult,
        GSQLError,
    >)
        requires
            old(storage).wf(),
        ensures
            final(storage).wf(),
            match stmt {
                Statement::CreateTable(cs) => {
                    &&& (r matches Ok(qr) ==> qr matches QueryResult::Create { table }
                        && table@ == cs.table_name@ && final(storage).has_table(cs.table_name@))
                    &&& (r is Ok <==> {
                        &&& !old(storage).has_table(cs.table_name@)
                        &&& 1 <= cs.columns@.len() <= crate::codec::MAX_COLUMNS
                    })
                    &&& (r matches Err(e) ==> (e is TableExists <==> old(storage).has_table(
                        cs.table_name@,
                    )) && *final(storage) == *old(storage))
                    &&& (r is Ok ==> {
                        &&& final(storage).tables@.len() == old(storage).tables@.len() + 1
                        &&& final(storage).tables@.take(old(storage).tables@.len() as int) == old(storage).tables@
                        &&& final(storage).tables@.last().meta.name@ == cs.table_name@
                        &&& cols_like(final(storage).tables@.last().meta.columns@, cs.columns@)
                        &&& final(storage).tables@.last().meta.page_count == 0
                        &&& table_rows(final(storage).tables@.last()) == Seq::<Seq<ValueModel>>::empty()
                        &&& (final(storage).tables@.last().meta.primary_key matches Some(pi)
                            ==> pk_index(cs.columns@) == Some(pi as int))
                        &&& (final(storage).tables@.last().meta.primary_key is None ==> pk_index(
                            cs.columns@,
                        ) is None)
                    })
                },
                Statement::Insert(is0) => {
                    &&& (r matches Ok(qr) ==> {
                        &&& qr matches QueryResult::Insert { rows_affected }
                        &&& stmt_rows(is0.values@) is Some
                        &&& rows_affected as int == (stmt_rows(is0.values@)->0).len()
                        &&& find_table(old(storage).tables@, is0.table_name@) matches Some(ti)
                            && table_rows(final(storage).tables@[ti]) == table_rows(
                            old(storage).tables@[ti],
                        ) + (stmt_rows(is0.values@)->0) && {
                        &&& final(storage).tables@.len() == old(storage).tables@.len()
                        &&& final(storage).tables@[ti].meta.name@ == old(storage).tables@[ti].meta.name@
                        &&& final(storage).tables@[ti].meta.columns
                            == old(storage).tables@[ti].meta.columns
                        &&& final(storage).tables@[ti].meta.primary_key
                            == old(storage).tables@[ti].meta.primary_key
                        &&& (forall|j: int| 0 <= j < old(storage).tables@.len() && j != ti
                            ==> final(storage).tables@[j] == old(storage).tables@[j])
                        }
                    })
                    &&& (r is Ok <==> (find_table(old(storage).tables@, is0.table_name@)
                        matches Some(ti) && is0.columns@.len() == 0 && insert_ok(
                        old(storage).tables@[ti],
                        *is0,
                    )))
                    &&& (r matches Err(e) ==> {
                        &&& (e is TableNotFound <==> !old(storage).has_table(is0.table_name@))
                        &&& (find_table(old(storage).tables@, is0.table_name@) matches Some(ti) ==> {
                            let t = old(storage).tables@[ti];
                            &&& (e is TypeMismatch <==> (is0.columns@.len() == 0 && (stmt_rows(
                                is0.values@,
                            ) matches Some(rows) && !rows_typed(t.meta.columns@, rows))))
                            &&& (e is DuplicateKey <==> (is0.columns@.len() == 0 && (stmt_rows(
                                is0.values@,
                            ) matches Some(rows) && rows_typed(t.meta.columns@, rows)
                                && rows_fit(t.meta.columns@, rows) && !keys_fresh(t, rows))))
                        })
                    })
                },
                Statement::Select(ss) => {
                    &&& (r matches Ok(qr) ==> {
                        &&& qr matches QueryResult::Select { columns, rows }
                        &&& ss.from matches TableRef::Table(name) && find_table(
                            old(storage).tables@,
                            name@,
                        ) matches Some(ti) && rows.deep_view() == keep_rows(
                            old(storage).tables@[ti].meta.columns@,
                            table_rows(old(storage).tables@[ti]),
                            ss.where_clause,
                        )
                        &&& columns@.len() == ss.columns@.len()
                        &&& forall|i: int| 0 <= i < ss.columns@.len()
                            ==> (#[trigger] columns@[i])@ == col_name_of(ss.columns@[i])
                    })
                    &&& (r is Ok <==> (ss.from matches TableRef::Table(name) && find_table(
                        old(storage).tables@,
                        name@,
                    ) matches Some(ti) && where_ok(
                        old(storage).tables@[ti].meta.columns@,
                        ss.where_clause,
                    )))
                    &&& tables_like(final(storage).tables@, old(storage).tables@)
                },
                Statement::Delete(_) => r matches Err(e) && e is NotImplemented
                    && *final(storage) == *old(storage),
            },
    {
        match stmt {
            Statement::CreateTable(cs) => {
                storage.create_table(cs)?;
                proof {
                    assert forall|x: int| 0 <= x < storage.tables@.len() - 1 implies (
                    #[trigger] storage.tables@[x]).meta.name@ != cs.table_name@ by {
                        crate::storage::lemma_find_table_present(
                            old(storage).tables@,
                            cs.table_name@,
                        );
                        assert(storage.tables@[x] == storage.tables@.take(
                            storage.tables@.len() - 1,
                        )[x]);
                    }
                    crate::storage::lemma_find_table_from(
                        storage.tables@,
                        cs.table_name@,
                        storage.tables@.len() - 1,
                    );
                }
                Ok(QueryResult::Create { table: cs.table_name.clone() })
            },
            Statement::Insert(is0) => {
                let n = storage.insert(is0)?;
                Ok(QueryResult::Insert { rows_affected: n })
            },
            Statement::Select(ss) => {
                let _plan = self.planner.plan_select(ss, storage)?;
                let rows = storage.select(ss)?;
                let mut columns: Vec<String> = Vec::new();
                let mut i: usize = 0;
                let n = ss.columns.len();
                while i < n
                    invariant
                        i <= n,
                        n == ss.columns@.len(),
                        columns@.len() == i,
                        forall|x: int| 0 <= x < i ==> (#[trigger] columns@[x])@ == col_name_of(
                            ss.columns@[x],
                        ),
                    decreases n - i,
                {
                    let c: String = match &ss.columns[i] {
                        SelectItem::Column(nm) => nm.clone(),
                        SelectItem::All => "*".to_owned(),
                    };
                    columns.push(c);
                    i += 1;
                }
                Ok(QueryResult::Select { columns, rows })
            },
            Statement::Delete(_) => Err(GSQLError::NotImplemented("DELETE".to_owned())),
        }
    }
}

} // verus!
