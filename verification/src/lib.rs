//! Persistence core of a single-node relational data store.
//!
//! Typed rows are encoded into fixed-size pages, every mutation is recorded
//! in a write-ahead log before it becomes durable, pages are cached in a
//! bounded buffer pool, and statements reach the storage engine through a
//! small executor.  SQL text handling is left to the surrounding
//! application; the engine consumes typed statements.

pub mod error;
pub mod value;
pub mod parser;
pub mod codec;
pub mod page;
pub mod wal;
pub mod buffer;
pub mod storage;
pub mod executor;

use vstd::prelude::*;
use crate::error::GSQLError;
use crate::executor::{QueryExecutor, col_name_of};
use crate::parser::{Statement, TableRef};
use crate::storage::{StorageEngine, find_table, insert_ok, stmt_rows, table_rows, keep_rows,
    where_ok, tables_like, rows_typed, rows_fit, keys_fresh, cols_like, pk_index};
use crate::value::ValueModel;
use crate::value::Value;

verus! {

/// The result of one executed statement.
#[derive(Debug)]
pub enum QueryResult {
    Select { columns: Vec<String>, rows: Vec<Vec<Value>> },
    Insert { rows_affected: u64 },
    Create { table: String },
    Delete { rows_affected: u64 },
    Empty,
}

/// The data store: a storage engine plus the executor in front of it.
/// Statements come from the parsing collaborator outside this core.
#[derive()]
pub struct GSQL {
    pub storage: StorageEngine,
    pub executor: QueryExecutor,
}

impl GSQL {
    pub open spec fn wf(&self) -> bool {
        self.storage.wf()
    }

    /// Opens a data store over the given primary file path
    /// (default `gsql.db`).
    pub fn new(path: Option<&str>) -> (r: Result<Self, GSQLError>)
        ensures
            r matches Ok(g) ==> g.wf() && g.storage.tables@.len() == 0,
            r is Ok,
    {
        let storage = StorageEngine::new(path)?;
        let executor = QueryExecutor::new();
        Ok(GSQL { storage, executor })
    }

    /// Runs one statement against the store.  The contract restates, per
    /// statement kind, exactly what the executor and engine promise.
    pub fn query(&mut self, stmt: &Statement) -> (r: Result<QueryResult, GSQLError>)
        requires
            old(self).wf(),
        ensures
            final(self).wf(),
            match stmt {
                Statement::CreateTable(cs) => {
                    &&& (r matches Ok(qr) ==> qr matches QueryResult::Create { table }
                        && table@ == cs.table_name@ && final(self).storage.has_table(
                        cs.table_name@,
                    ))
                    &&& (r is Ok <==> {
                        &&& !old(self).storage.has_table(cs.table_name@)
                        &&& 1 <= cs.columns@.len() <= crate::codec::MAX_COLUMNS
                    })
                    &&& (r matches Err(e) ==> (e is TableExists <==> old(
                        self,
                    ).storage.has_table(cs.table_name@)) && final(self).storage == old(
                        self,
                    ).storage)
                    &&& (r is Ok ==> {
                        &&& final(self).storage.tables@.len() == old(self).storage.tables@.len() + 1
                        &&& final(self).storage.tables@.take(old(self).storage.tables@.len() as int) == old(self).storage.tables@
                        &&& final(self).storage.tables@.last().meta.name@ == cs.table_name@
                        &&& cols_like(final(self).storage.tables@.last().meta.columns@, cs.columns@)
                        &&& final(self).storage.tables@.last().meta.page_count == 0
                        &&& table_rows(final(self).storage.tables@.last()) == Seq::<Seq<ValueModel>>::empty()
                        &&& (final(self).storage.tables@.last().meta.primary_key matches Some(pi)
                            ==> pk_index(cs.columns@) == Some(pi as int))
                        &&& (final(self).storage.tables@.last().meta.primary_key is None ==> pk_index(
                            cs.columns@,
                        ) is None)
                    })
                },
                Statement::Insert(is0) => {
                    &&& (r matches Ok(qr) ==> {
                        &&& qr matches QueryResult::Insert { rows_affected }
                        &&& stmt_rows(is0.values@) is Some
                        &&& rows_affected as int == (stmt_rows(is0.values@)->0).len()
                        &&& find_table(old(self).storage.tables@, is0.table_name@)
                            matches Some(ti) && table_rows(final(self).storage.tables@[ti])
                            == table_rows(old(self).storage.tables@[ti]) + (stmt_rows(
                            is0.values@,
                        )->0) && {
                        &&& final(self).storage.tables@.len() == old(self).storage.tables@.len()
                        &&& final(self).storage.tables@[ti].meta.name@ == old(self).storage.tables@[ti].meta.name@
                        &&& final(self).storage.tables@[ti].meta.columns
                            == old(self).storage.tables@[ti].meta.columns
                        &&& final(self).storage.tables@[ti].meta.primary_key
                            == old(self).storage.tables@[ti].meta.primary_key
                        &&& (forall|j: int| 0 <= j < old(self).storage.tables@.len() && j != ti
                            ==> final(self).storage.tables@[j] == old(self).storage.tables@[j])
                        }
                    })
                    &&& (r is Ok <==> (find_table(old(self).storage.tables@, is0.table_name@)
                        matches Some(ti) && is0.columns@.len() == 0 && insert_ok(
                        old(self).storage.tables@[ti],
                        *is0,
                    )))
                    &&& (r matches Err(e) ==> {
                        &&& (e is TableNotFound <==> !old(self).storage.has_table(is0.table_name@))
                        &&& (find_table(old(self).storage.tables@, is0.table_name@) matches Some(ti) ==> {
                            let t = old(self).storage.tables@[ti];
                            &&& (e is TypeMismatch <==> (is0.columns@.len() == 0 && (stmt_rows(
                                is0.values@,
                            ) matches Some(rows) && !rows_typed(t.meta.columns@, rows))))
                            &&& (e is DuplicateKey <==> (is0.columns@.len() == 0 && (stmt_rows(
                                is0.values@,
                            ) matches Some(rows) && rows_typed(t.meta.columns@, rows)
                                && rows_fit(t.meta.columns@, rows) && !keys_fresh(t, rows))))
                        })
                    })
                },
                Statement::Select(ss) => {
                    &&& (r matches Ok(qr) ==> {
                        &&& qr matches QueryResult::Select { columns, rows }
                        &&& ss.from matches TableRef::Table(name) && find_table(
                            old(self).storage.tables@,
                            name@,
                        ) matches Some(ti) && rows.deep_view() == keep_rows(
                            old(self).storage.tables@[ti].meta.columns@,
                            table_rows(old(self).storage.tables@[ti]),
                            ss.where_clause,
                        )
                        &&& columns@.len() == ss.columns@.len()
                        &&& forall|i: int| 0 <= i < ss.columns@.len()
                            ==> (#[trigger] columns@[i])@ == col_name_of(ss.columns@[i])
                    })
                    &&& (r is Ok <==> (ss.from matches TableRef::Table(name) && find_table(
                        old(self).storage.tables@,
                        name@,
                    ) matches Some(ti) && where_ok(
                        old(self).storage.tables@[ti].meta.columns@,
                        ss.where_clause,
                    )))
                    &&& tables_like(final(self).storage.tables@, old(self).storage.tables@)
                },
                Statement::Delete(_) => r matches Err(e) && e is NotImplemented
                    && final(self).storage == old(self).storage,
            },
    {
        self.executor.execute(stmt, &mut self.storage)
    }
}

} // verus!
