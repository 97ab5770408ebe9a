//! The file record: one piece of file content and every filesystem location
//! known to hold it.

use vstd::prelude::*;
use crate::model::RecordModel;

verus! {

/// Output format selector for the reporting layer.
#[derive(Debug, Copy, Clone)]
pub enum PrintFmt {
    Standard,
    Json,
}

/// How much detail the reporting layer prints.
pub enum Verbosity {
    Quiet,
    Duplicates,
    All,
}

/// One piece of file content and all locations that hold it.
#[derive(Debug, Clone)]
pub struct Fileinfo {
    /// Best-known content hash: zero until a hash is computed, then the
    /// partial hash, later replaced by the full hash if one is computed.
    pub file_hash: u64,
    /// Exact byte length of the content; immutable once set.
    pub file_len: u64,
    /// Every location known to hold this content; never empty for a live
    /// record.
    pub file_paths: Vec<String>,
    /// Whether a full-content hash has been computed for this record.
    pub second_hash: bool,
}

impl View for Fileinfo {
    type V = RecordModel;

    open spec fn view(&self) -> RecordModel {
        RecordModel {
            hash: self.file_hash,
            len: self.file_len,
            paths: self.file_paths@.map_values(|p: String| p@),
            confirmed: self.second_hash,
        }
    }
}

impl Fileinfo {
    /// A fresh record for one discovered file: the given hash and length,
    /// a single path, and no full hash computed yet.
    pub fn new(hash: u64, length: u64, path: String) -> (r: Self)
        ensures
            r@.hash == hash,
            r@.len == length,
            r@.paths =~= seq![path@],
            !r@.confirmed,
    {
        let mut set = Vec::<String>::new();
        set.push(path);
        Fileinfo { file_hash: hash, file_len: length, file_paths: set, second_hash: false }
    }
}

impl PartialEq for Fileinfo {
    /// Records compare equal exactly when hash and length both match: the
    /// operative content-equality criterion.
    fn eq(&self, other: &Fileinfo) -> (r: bool) {
        (self.file_hash == other.file_hash) && (self.file_len == other.file_len)
    }
}

impl vstd::std_specs::cmp::PartialEqSpecImpl for Fileinfo {
    open spec fn obeys_eq_spec() -> bool {
        true
    }

    open spec fn eq_spec(&self, other: &Fileinfo) -> bool {
        self.file_hash == other.file_hash && self.file_len == other.file_len
    }
}

impl Eq for Fileinfo {

}

impl PartialOrd for Fileinfo {
    /// Records are ordered by length alone, for display by size.
    fn partial_cmp(&self, other: &Fileinfo) -> (r: Option<core::cmp::Ordering>) {
        if self.file_len < other.file_len {
            Some(core::cmp::Ordering::Less)
        } else if self.file_len == other.file_len {
            Some(core::cmp::Ordering::Equal)
        } else {
            Some(core::cmp::Ordering::Greater)
        }
    }
}

impl vstd::std_specs::cmp::PartialOrdSpecImpl for Fileinfo {
    open spec fn obeys_partial_cmp_spec() -> bool {
        true
    }

    open spec fn partial_cmp_spec(&self, other: &Fileinfo) -> Option<core::cmp::Ordering> {
        if self.file_len < other.file_len {
            Some(core::cmp::Ordering::Less)
        } else if self.file_len == other.file_len {
            Some(core::cmp::Ordering::Equal)
        } else {
            Some(core::cmp::Ordering::Greater)
        }
    }
}

} // verus!
