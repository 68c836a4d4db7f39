//! Statements and what their analysis gives.

pub mod statement_show_create_table;
