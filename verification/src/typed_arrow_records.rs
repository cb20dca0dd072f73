//! Records that stand for rows of tables.
use vstd::prelude::*;

verus! {

/// A user.
#[derive(Debug, Clone)]
pub struct UserRecord {
    pub id: i64,
    pub name: String,
    pub age: Option<i32>,
}

/// A line of a log.
#[derive(Debug, Clone)]
pub struct LogRecord {
    pub timestamp: i64,
    pub level: i32,
    pub message: String,
}

} // verus!
