//! The typed statement contract consumed from the parsing collaborator.
//!
//! SQL tokenizing and grammar live outside this core; the engine accepts
//! only this closed set of statement variants, pre-evaluated to literal
//! values.

use vstd::prelude::*;
use crate::value::Value;

verus! {

/// A parsed statement, as handed over by the parsing collaborator.
#[derive(Clone, Debug)]
pub enum Statement {
    CreateTable(CreateTableStmt),
    Insert(InsertStmt),
    Select(SelectStmt),
    Delete(DeleteStmt),
}

#[derive(Clone, Debug)]
pub struct CreateTableStmt {
    pub table_name: String,
    pub columns: Vec<ColumnDef>,
}

#[derive(Clone, Debug)]
pub struct ColumnDef {
    pub name: String,
    pub data_type: DataType,
    pub constraints: Vec<Constraint>,
}

#[derive(Clone, Copy, Debug)]
pub enum DataType {
    Int,
    BigInt,
    Float,
    Double,
    Text,
    Boolean,
    Varchar(usize),
}

#[derive(Clone, Copy, Debug, PartialEq, Eq, Structural)]
pub enum Constraint {
    PrimaryKey,
    NotNull,
    Unique,
}

#[derive(Clone, Debug)]
pub struct SelectStmt {
    pub columns: Vec<SelectItem>,
    pub from: TableRef,
    pub where_clause: Option<Expression>,
}

#[derive(Clone, Debug)]
pub enum SelectItem {
    Column(String),
    All,
}

#[derive(Clone, Debug)]
pub enum TableRef {
    Table(String),
    /// Joins are declared but out of scope for this core.
    Join(String, String),
}

#[derive(Clone, Debug)]
pub struct InsertStmt {
    pub table_name: String,
    pub columns: Vec<String>,
    /// Rows of expressions pre-evaluated to literal values.
    pub values: Vec<Vec<Expression>>,
}

#[derive(Clone, Debug)]
pub struct DeleteStmt {
    pub table_name: String,
    pub where_clause: Option<Expression>,
}

/// A boolean expression over column references and literals.
#[derive(Debug)]
pub enum Expression {
    Literal(Value),
    Column(String),
    Eq(Box<Expression>, Box<Expression>),
}

impl Clone for Expression {
    fn clone(&self) -> (r: Self)
        ensures
            r == self,
        decreases self,
    {
        match self {
            Expression::Literal(v) => Expression::Literal(v.clone()),
            Expression::Column(c) => Expression::Column(c.clone()),
            Expression::Eq(a, b) => Expression::Eq(
                Box::new((**a).clone()),
                Box::new((**b).clone()),
            ),
        }
    }
}

} // verus!
