//! What the in-memory table holds against a key.
use vstd::prelude::*;

verus! {

/// A live value or a deletion marker, each tagged with the sequence number
/// of the write that produced it.
#[derive(Debug, Clone, PartialEq, Eq)]
pub enum Entry {
    Value { seq_no: u64, val: Vec<u8> },
    Tombstone { seq_no: u64 },
}

/// The mathematical form of an [`Entry`]: the value bytes as a sequence.
pub enum EntryModel {
    Value { seq_no: u64, val: Seq<u8> },
    Tombstone { seq_no: u64 },
}

impl EntryModel {
    pub open spec fn seq_no(self) -> u64 {
        match self {
            EntryModel::Value { seq_no, .. } => seq_no,
            EntryModel::Tombstone { seq_no } => seq_no,
        }
    }
}

impl View for Entry {
    type V = EntryModel;

    open spec fn view(&self) -> EntryModel {
        match self {
            Entry::Value { seq_no, val } => EntryModel::Value { seq_no: *seq_no, val: val@ },
            Entry::Tombstone { seq_no } => EntryModel::Tombstone { seq_no: *seq_no },
        }
    }
}

impl Entry {
    /// The sequence number of the write that produced this entry.
    pub fn seq_no(&self) -> (r: u64)
        ensures
            r == self@.seq_no(),
    {
        match self {
            Entry::Value { seq_no, .. } => *seq_no,
            Entry::Tombstone { seq_no } => *seq_no,
        }
    }
}

} // verus!
