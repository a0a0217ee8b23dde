//! Plain data carried between the pipeline's stages.
use vstd::prelude::*;

verus! {

/// The location of an object in storage.
#[derive(Clone, Debug)]
pub struct DataFile {
    pub bucket: String,
    pub key: String,
}

/// An input record: a stable identifier and its text.
#[derive(Clone, Debug)]
pub struct Record {
    pub id: String,
    pub text: String,
}

/// An output row: a record's identifier and the identifier of its cluster.
#[derive(Clone, Debug)]
pub struct RecordResult {
    pub id: String,
    pub cluster_id: String,
}

} // verus!
