use metastore::datavalues::data_type::{DataField, DataType};
use metastore::exception::ErrorKind;
use metastore::sql::statement_show_create_table::{DfShowCreateTable, Ident, ObjectName};

fn statement(words: &[&str]) -> DfShowCreateTable {
    DfShowCreateTable { name: ObjectName(words.iter().map(|w| Ident::new(w)).collect()) }
}

#[test]
fn resolve_table_with_one_word_uses_current_database() {
    let r = statement(&["t"]).resolve_table("default".to_string()).unwrap();
    assert_eq!(r, ("default".to_string(), "t".to_string()));
}

#[test]
fn resolve_table_with_two_words() {
    let r = statement(&["db", "t"]).resolve_table("default".to_string()).unwrap();
    assert_eq!(r, ("db".to_string(), "t".to_string()));
}

#[test]
fn resolve_table_rejects_other_names() {
    let e = statement(&[]).resolve_table("default".to_string()).unwrap_err();
    assert_eq!(e.kind(), ErrorKind::SyntaxException);
    assert_eq!(e.message().as_str(), "Show create table name is empty");
    let e = statement(&["a", "b", "c"]).resolve_table("default".to_string()).unwrap_err();
    assert_eq!(e.kind(), ErrorKind::SyntaxException);
    assert_eq!(e.message().as_str(), "Show create table name must be [`db`].`table`");
}

#[test]
fn schema_has_two_string_columns() {
    assert_eq!(
        DfShowCreateTable::schema(),
        vec![
            DataField::new("Table", DataType::String, false),
            DataField::new("Create Table", DataType::String, false),
        ]
    );
}

#[test]
fn analyze_gives_the_plan() {
    let plan = statement(&["db", "t"]).analyze("default".to_string()).unwrap();
    assert_eq!(plan.db, "db");
    assert_eq!(plan.table, "t");
    assert_eq!(plan.schema, DfShowCreateTable::schema());
    assert!(statement(&[]).analyze("default".to_string()).is_err());
}
