//! Shared data model: per-file metadata with its seek budget, the fixed
//! number of levels, and the statistics record a lookup hands back.

use vstd::prelude::*;
use vstd::slice::slice_to_vec;
use crate::cmp::icmp;
use crate::key_types::is_ikey;

verus! {

/// Number of levels a version holds; level 0 may overlap, higher levels are
/// pairwise disjoint.
pub const NUM_LEVELS: usize = 7;

/// Floor of the initial seek budget of a file.
pub const SEEK_BUDGET_FLOOR: i64 = 100;

/// Bytes of file size that amortise one seek charge.
pub const SEEK_BUDGET_UNIT: u64 = 16384;

/// Spec-level value of a file's metadata.
#[verifier::ext_equal]
pub struct FileMetaV {
    /// Remaining seek budget.
    pub allowed_seeks: int,
    /// Encoded file size in bytes.
    pub size: u64,
    /// Unique file identifier.
    pub num: u64,
    /// Smallest internal key present in the file.
    pub smallest: Seq<u8>,
    /// Largest internal key present in the file.
    pub largest: Seq<u8>,
}

impl FileMetaV {
    /// Well-formed metadata: both endpoints carry a tag and the smallest key
    /// does not exceed the largest.
    pub open spec fn wf(self) -> bool {
        &&& is_ikey(self.smallest)
        &&& is_ikey(self.largest)
        &&& icmp(self.smallest, self.largest) <= 0
    }
}

/// The spec values of a sequence of file metadata records.
pub open spec fn vseq(files: Seq<FileMetaData>) -> Seq<FileMetaV> {
    files.map_values(|f: FileMetaData| f@)
}

/// Metadata of one on-disk sorted run.
#[derive(Clone, Debug)]
pub struct FileMetaData {
    /// Remaining seek budget; decremented by read sampling, and the file is
    /// nominated for compaction when it drops below one.
    pub allowed_seeks: i64,
    /// Encoded file size in bytes.
    pub size: u64,
    /// Unique file identifier.
    pub num: u64,
    /// Smallest internal key present in the file.
    pub smallest: Vec<u8>,
    /// Largest internal key present in the file.
    pub largest: Vec<u8>,
}

/// The initial seek budget of a file: one charge per `SEEK_BUDGET_UNIT`
/// bytes, with a floor of `SEEK_BUDGET_FLOOR`.
pub open spec fn spec_initial_allowed_seeks(size: u64) -> int {
    if size / (SEEK_BUDGET_UNIT as u64) > (SEEK_BUDGET_FLOOR as u64) {
        (size / (SEEK_BUDGET_UNIT as u64)) as int
    } else {
        SEEK_BUDGET_FLOOR as int
    }
}

/// Computes the initial seek budget from the file size.
pub fn initial_allowed_seeks(size: u64) -> (r: i64)
    ensures
        r as int == spec_initial_allowed_seeks(size),
{
    let per_unit: u64 = size / SEEK_BUDGET_UNIT;
    if per_unit > (SEEK_BUDGET_FLOOR as u64) {
        proof {
            assert(size / (SEEK_BUDGET_UNIT as u64) <= u64::MAX / (SEEK_BUDGET_UNIT as u64))
                by (nonlinear_arith)
                requires
                    size <= u64::MAX,
            ;
        }
        per_unit as i64
    } else {
        SEEK_BUDGET_FLOOR
    }
}

impl View for FileMetaData {
    type V = FileMetaV;

    open spec fn view(&self) -> FileMetaV {
        FileMetaV {
            allowed_seeks: self.allowed_seeks as int,
            size: self.size,
            num: self.num,
            smallest: self.smallest@,
            largest: self.largest@,
        }
    }
}

impl FileMetaData {
    /// Builds the metadata of a new file, with the size-derived seek budget.
    pub fn new(num: u64, size: u64, smallest: Vec<u8>, largest: Vec<u8>) -> (r: FileMetaData)
        ensures
            r@.num == num,
            r@.size == size,
            r@.smallest == smallest@,
            r@.largest == largest@,
            r@.allowed_seeks == spec_initial_allowed_seeks(size),
    {
        FileMetaData { allowed_seeks: initial_allowed_seeks(size), size, num, smallest, largest }
    }

    /// A field-for-field copy whose equality to the original is known to the
    /// verifier.
    pub fn duplicate(&self) -> (r: FileMetaData)
        ensures
            r@ == self@,
    {
        let r = FileMetaData {
            allowed_seeks: self.allowed_seeks,
            size: self.size,
            num: self.num,
            smallest: slice_to_vec(self.smallest.as_slice()),
            largest: slice_to_vec(self.largest.as_slice()),
        };
        proof {
            assert(r@ =~= self@);
        }
        r
    }
}

/// Which file a lookup probed fruitlessly first, if any: the candidate that
/// is charged a seek.
pub struct GetStats {
    /// Number of the charged file.
    pub file: Option<u64>,
    /// Level the charged file was found in.
    pub level: usize,
}

} // verus!
