//! The records of the manifest, the log of changes to the set of tables.
use vstd::prelude::*;

use crate::compact::CompactionTask;

verus! {

/// A change recorded in the manifest.
#[derive(Debug)]
pub enum ManifestRecord {
    /// A memtable was flushed into the table with this id.
    Flush(usize),
    /// A memtable with this id was created.
    NewMemtable(usize),
    /// A compaction ran, producing the tables with these ids.
    Compaction(CompactionTask, Vec<usize>),
}

} // verus!
