//! Data types of column values and the coercion rules between them.

pub mod data_type;
pub mod data_type_coercion;
pub mod data_value_operator;
