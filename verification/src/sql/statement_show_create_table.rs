//! `SHOW CREATE TABLE`: which table the statement names, and the shape of
//! its answer.

use crate::datavalues::data_type::{fields_model, DataField, DataType, FieldModel, TypeModel};
use crate::exception::{ErrorCode, ErrorKind, ErrorModel};
use vstd::prelude::*;

verus! {

/// One word of a name, as the statement wrote it, and the quote around it.
#[derive(Debug)]
pub struct Ident {
    pub value: String,
    pub quote_style: Option<char>,
}

/// The name of a table or another object: its words, the outermost first.
#[derive(Debug)]
pub struct ObjectName(pub Vec<Ident>);

/// The statement `SHOW CREATE TABLE name`.
#[derive(Debug)]
pub struct DfShowCreateTable {
    pub name: ObjectName,
}

/// The plan for showing how a table was created.
#[derive(Debug)]
pub struct ShowCreateTablePlan {
    pub db: String,
    pub table: String,
    pub schema: Vec<DataField>,
}

/// The message for a statement that names no table.
pub open spec fn spec_empty_name_message() -> Seq<char> {
    "Show create table name is empty"@
}

/// The message for a name of more than two words.
pub open spec fn spec_long_name_message() -> Seq<char> {
    "Show create table name must be [`db`].`table`"@
}

/// The columns of the answer: the table's name and the statement that
/// creates it, both strings that are never null.
pub open spec fn spec_schema() -> Seq<FieldModel> {
    seq![
        FieldModel { name: "Table"@, data_type: TypeModel::String, nullable: false },
        FieldModel { name: "Create Table"@, data_type: TypeModel::String, nullable: false },
    ]
}

/// The words of a name, each by its characters.
pub open spec fn spec_words(name: ObjectName) -> Seq<Seq<char>> {
    Seq::new(name.0@.len(), |i: int| name.0@[i].value@)
}

/// The database and the table that a name of one or two words stands for:
/// one word is a table of the current database, two are a database and a
/// table. `None` for any other number of words.
pub open spec fn spec_resolve_table(words: Seq<Seq<char>>, current_database: Seq<char>) -> Option<
    (Seq<char>, Seq<char>),
> {
    if words.len() == 1 {
        Some((current_database, words[0]))
    } else if words.len() == 2 {
        Some((words[0], words[1]))
    } else {
        None
    }
}

/// The error for a name that `spec_resolve_table` does not resolve.
pub open spec fn spec_resolve_error(words: Seq<Seq<char>>) -> ErrorModel {
    ErrorModel {
        kind: ErrorKind::SyntaxException,
        message: if words.len() == 0 {
            spec_empty_name_message()
        } else {
            spec_long_name_message()
        },
    }
}

impl Ident {
    /// A word without quotes.
    pub fn new(value: &str) -> (i: Ident)
        ensures
            i.value@ == value@,
            i.quote_style is None,
    {
        Ident { value: String::from_str(value), quote_style: None }
    }
}

impl DfShowCreateTable {
    /// The columns of the statement's answer.
    pub fn schema() -> (s: Vec<DataField>)
        ensures
            fields_model(s@) == spec_schema(),
    {
        let mut s: Vec<DataField> = Vec::new();
        s.push(DataField::new("Table", DataType::String, false));
        s.push(DataField::new("Create Table", DataType::String, false));
        proof {
            assert(fields_model(s@) =~= spec_schema());
        }
        s
    }

    /// The database and the table that the statement names, given the
    /// database that the session is in.
    pub fn resolve_table(&self, current_database: String) -> (r: Result<(String, String), ErrorCode>)
        ensures
            match r {
                Ok((db, table)) => spec_resolve_table(spec_words(self.name), current_database@)
                    == Some((db@, table@)),
                Err(e) => spec_resolve_table(spec_words(self.name), current_database@) is None
                    && e@ == spec_resolve_error(spec_words(self.name)),
            },
    {
        let idents = &self.name.0;
        let n = idents.len();
        if n == 0 {
            Err(ErrorCode::syntax_exception(String::from_str("Show create table name is empty")))
        } else if n == 1 {
            Ok((current_database, idents[0].value.clone()))
        } else if n == 2 {
            Ok((idents[0].value.clone(), idents[1].value.clone()))
        } else {
            Err(
                ErrorCode::syntax_exception(
                    String::from_str("Show create table name must be [`db`].`table`"),
                ),
            )
        }
    }

    /// The plan of the statement, given the database that the session is in.
    pub fn analyze(&self, current_database: String) -> (r: Result<ShowCreateTablePlan, ErrorCode>)
        ensures
            match r {
                Ok(plan) => spec_resolve_table(spec_words(self.name), current_database@) == Some(
                    (plan.db@, plan.table@),
                ) && fields_model(plan.schema@) == spec_schema(),
                Err(e) => spec_resolve_table(spec_words(self.name), current_database@) is None
                    && e@ == spec_resolve_error(spec_words(self.name)),
            },
    {
        let schema = Self::schema();
        match self.resolve_table(current_database) {
            Ok((db, table)) => Ok(ShowCreateTablePlan { db, table, schema }),
            Err(e) => Err(e),
        }
    }
}

} // verus!
