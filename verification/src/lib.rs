//! A replicated metadata store: a consensus core that agrees on an ordered log
//! of key-value mutations, the state machine the log is applied to, and the
//! catalog-side helpers (type coercion, sessions, statement analysis) that sit
//! on top of it.

pub mod datavalues;
pub mod exception;
pub mod sessions;
pub mod sql;
pub mod str_map;
pub mod text;
pub mod metasrv;
