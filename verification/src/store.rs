//! What is read from the sample store, and how its schema is kept up to date.

use crate::number::Number;
use crate::text;
use vstd::prelude::*;

verus! {

/// One row of the store.
#[derive(Debug)]
pub struct SignalRow {
    pub id: i64,
    /// When it was read, in milliseconds since the epoch.
    pub ts_ms: i64,
    pub can_id: u32,
    pub message_name: String,
    pub signal_name: String,
    pub value: Number,
}

/// The latest value of a signal at a position of a recording.
#[derive(Debug)]
pub struct SignalSnapshot {
    pub can_id: u32,
    pub message_name: String,
    pub signal_name: String,
    pub value: Number,
    /// When it was read, in milliseconds since the epoch.
    pub ts_ms: i64,
    /// How often the signal was read up to the position.
    pub reads: u64,
}

/// Whether a name is among columns.
pub open spec fn has_column(cols: Seq<String>, name: Seq<char>) -> bool {
    exists|i: int| 0 <= i < cols.len() && (#[trigger] cols[i])@ == name
}

/// Whether a name is among columns.
fn contains_column(cols: &[String], name: &str) -> (yes: bool)
    ensures
        yes == has_column(cols@, name@),
{
    let mut i: usize = 0;
    while i < cols.len()
        invariant
            i <= cols.len(),
            forall|k: int| 0 <= k < i ==> (#[trigger] cols@[k])@ != name@,
        decreases cols.len() - i,
    {
        if text::same_text(cols[i].as_str(), name) {
            assert(cols@[i as int]@ == name@);
            return true;
        }
        i += 1;
    }
    false
}

/// Whether a sample table with the given columns still holds times as text and is to be
/// migrated. A fresh or migrated table is not.
pub fn needs_migration(cols: &[String]) -> (yes: bool)
    ensures
        yes == (!has_column(cols@, "ts_ms"@) && has_column(cols@, "timestamp"@)),
{
    !contains_column(cols, "ts_ms") && contains_column(cols, "timestamp")
}

} // verus!
