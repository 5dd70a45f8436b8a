//! Additive migrations: columns that older databases lack and that are
//! added, with a default, when a database is opened.

use vstd::prelude::*;
use crate::tags::{strings_view, contains_string};

verus! {

/// A column that a migration adds.
#[derive(Debug, PartialEq, Eq, Structural, Clone, Copy)]
pub enum Migration {
    /// `collections.parent_id`, text, empty by default.
    CollectionParentId,
    /// `icons.file_size`, integer, 0 by default.
    IconFileSize,
}

/// The migrations to run on tables that have the given columns: each
/// column that is missing, in a fixed order, and nothing else.
pub open spec fn plan_spec(collection_columns: Seq<Seq<char>>, icon_columns: Seq<Seq<char>>) -> Seq<Migration> {
    let first = if collection_columns.contains("parent_id"@) {
        Seq::empty()
    } else {
        seq![Migration::CollectionParentId]
    };
    let second = if icon_columns.contains("file_size"@) {
        Seq::empty()
    } else {
        seq![Migration::IconFileSize]
    };
    first + second
}

/// The columns of `collections` after the plan ran.
pub open spec fn collection_columns_after(cols: Seq<Seq<char>>, plan: Seq<Migration>) -> Seq<Seq<char>> {
    if plan.contains(Migration::CollectionParentId) {
        cols.push("parent_id"@)
    } else {
        cols
    }
}

/// The columns of `icons` after the plan ran.
pub open spec fn icon_columns_after(cols: Seq<Seq<char>>, plan: Seq<Migration>) -> Seq<Seq<char>> {
    if plan.contains(Migration::IconFileSize) {
        cols.push("file_size"@)
    } else {
        cols
    }
}

/// Decides which columns to add, from the column names that each table
/// reports. A table that reports no columns lacks them all.
pub fn migration_plan(collection_columns: &Vec<String>, icon_columns: &Vec<String>) -> (r: Vec<Migration>)
    ensures
        r@ == plan_spec(strings_view(collection_columns@), strings_view(icon_columns@)),
{
    let mut plan: Vec<Migration> = Vec::new();
    if !contains_string(collection_columns, &String::from_str("parent_id")) {
        plan.push(Migration::CollectionParentId);
    }
    if !contains_string(icon_columns, &String::from_str("file_size")) {
        plan.push(Migration::IconFileSize);
    }
    proof {
        assert(plan@ =~= plan_spec(strings_view(collection_columns@), strings_view(icon_columns@)));
    }
    plan
}

impl Migration {
    /// The statement that adds the column.
    pub fn statement(&self) -> (r: String)
        ensures
            *self == Migration::CollectionParentId ==> r@ == "ALTER TABLE collections ADD COLUMN parent_id TEXT"@,
            *self == Migration::IconFileSize ==> r@ == "ALTER TABLE icons ADD COLUMN file_size INTEGER DEFAULT 0"@,
    {
        match self {
            Migration::CollectionParentId => String::from_str("ALTER TABLE collections ADD COLUMN parent_id TEXT"),
            Migration::IconFileSize => String::from_str("ALTER TABLE icons ADD COLUMN file_size INTEGER DEFAULT 0"),
        }
    }
}

proof fn lemma_push_has(s: Seq<Seq<char>>, x: Seq<char>)
    ensures
        s.push(x).contains(x),
{
    assert(s.push(x)[s.len() as int] == x);
}

/// Opening a database twice migrates nothing the second time: after the
/// plan ran, every column it adds is present, so the next plan is empty.
/// A column is added only where it was missing, so none is added twice.
pub proof fn lemma_migration_idempotent(collection_columns: Seq<Seq<char>>, icon_columns: Seq<Seq<char>>)
    ensures
        ({
            let plan = plan_spec(collection_columns, icon_columns);
            &&& plan_spec(
                collection_columns_after(collection_columns, plan),
                icon_columns_after(icon_columns, plan),
            ).len() == 0
            &&& plan.contains(Migration::CollectionParentId) ==> !collection_columns.contains("parent_id"@)
            &&& plan.contains(Migration::IconFileSize) ==> !icon_columns.contains("file_size"@)
        }),
{
    let plan = plan_spec(collection_columns, icon_columns);
    lemma_push_has(collection_columns, "parent_id"@);
    lemma_push_has(icon_columns, "file_size"@);
    if !collection_columns.contains("parent_id"@) {
        assert(plan[0] == Migration::CollectionParentId);
    }
    if !icon_columns.contains("file_size"@) {
        assert(plan[plan.len() - 1] == Migration::IconFileSize);
    }
}

} // verus!
