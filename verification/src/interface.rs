//! Messages about the progress of an ingestion.
use vstd::prelude::*;

verus! {

/// A status update sent while a data set is ingested.
#[derive(Clone, Debug, PartialEq, Eq, Hash)]
pub enum StatusMessage {
    IngestionProgress { name: String, completed: u64, total: u64 },
    IngestionComplete { name: String },
}

impl StatusMessage {
    /// The progress message for data set `name`.
    pub fn progress(name: &String, completed: u64, total: u64) -> (r: StatusMessage)
        ensures
            r matches StatusMessage::IngestionProgress { name: n, completed: c, total: t } && n@
                == name@ && c == completed && t == total,
    {
        StatusMessage::IngestionProgress { name: name.clone(), completed, total }
    }

    /// The completion message for data set `name`.
    pub fn complete(name: &String) -> (r: StatusMessage)
        ensures
            r matches StatusMessage::IngestionComplete { name: n } && n@ == name@,
    {
        StatusMessage::IngestionComplete { name: name.clone() }
    }
}

} // verus!
