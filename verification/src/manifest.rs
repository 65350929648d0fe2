//! The record of changes from which the layout of the tables is rebuilt.
use crate::compact::{CompactionTask, TaskView};
use vstd::prelude::*;

verus! {

/// One change of the layout.
#[derive(Debug)]
pub enum ManifestRecord {
    /// A memtable was flushed to the table with this id.
    Flush(usize),
    /// A memtable with this id was put into use.
    NewMemtable(usize),
    /// A task was carried out, and tables with these ids came of it.
    Compaction(CompactionTask, Vec<usize>),
}

/// One change of the layout, as a mathematical value.
#[verifier::ext_equal]
pub enum RecordView {
    Flush(usize),
    NewMemtable(usize),
    Compaction(TaskView, Seq<usize>),
}

impl View for ManifestRecord {
    type V = RecordView;

    open spec fn view(&self) -> RecordView {
        match self {
            ManifestRecord::Flush(id) => RecordView::Flush(*id),
            ManifestRecord::NewMemtable(id) => RecordView::NewMemtable(*id),
            ManifestRecord::Compaction(task, output) => RecordView::Compaction(task@, output@),
        }
    }
}

} // verus!
