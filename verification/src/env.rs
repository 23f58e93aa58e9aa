//! The environment the store runs on: host services for file access,
//! directory maintenance, locking, logging and a clock. The core consumes
//! these interfaces; implementations live with the host program.

use vstd::prelude::*;
use vstd::string::StringSliceAdditionalSpecFns;
use crate::error::Status;

verus! {

/// Read-at-offset access to a stored file.
pub trait RandomAccess {
    /// Reads up to `len` bytes starting at byte offset `off`.
    fn read_at(&self, off: usize, len: usize) -> Result<Vec<u8>, Status>;
}

/// A held file lock, identified by the path it was taken on.
pub struct FileLock {
    /// Path the lock was taken on.
    pub id: String,
}

/// Collects log lines in a buffer; the host hands the buffer to its sink.
pub struct Logger {
    dst: Vec<u8>,
}

impl Logger {
    /// The bytes logged so far.
    pub closed spec fn buffered(self) -> Seq<u8> {
        self.dst@
    }

    /// Wraps a sink buffer, keeping whatever it already holds.
    pub fn new(w: Vec<u8>) -> (r: Logger)
        ensures
            r.buffered() == w@,
    {
        Logger { dst: w }
    }

    /// Appends the message and a line break to the buffer.
    pub fn log(&mut self, message: &str)
        ensures
            final(self).buffered() == old(self).buffered() + message.spec_bytes() + seq![10u8],
    {
        let bytes = message.as_bytes();
        let mut i: usize = 0;
        while i < bytes.len()
            invariant
                i <= bytes@.len(),
                self.dst@ =~= old(self).dst@ + bytes@.take(i as int),
                bytes@ == message.spec_bytes(),
            decreases bytes@.len() - i,
        {
            self.dst.push(bytes[i]);
            proof {
                assert(self.dst@ =~= old(self).dst@ + bytes@.take(i + 1));
            }
            i = i + 1;
        }
        self.dst.push(10u8);
        proof {
            assert(bytes@.take(bytes@.len() as int) =~= bytes@);
            assert(self.dst@ =~= old(self).dst@ + message.spec_bytes() + seq![10u8]);
        }
    }

    /// Hands the buffered bytes to the caller, emptying the logger.
    pub fn take_buffer(&mut self) -> (r: Vec<u8>)
        ensures
            r@ == old(self).buffered(),
            final(self).buffered() == Seq::<u8>::empty(),
    {
        let mut out: Vec<u8> = Vec::new();
        core::mem::swap(&mut out, &mut self.dst);
        out
    }
}

/// Host services the store consumes. The associated types carry whatever
/// reader and writer handles the host provides; the core never opens files
/// itself.
pub trait Env {
    /// Sequential reader handle.
    type SeqFile;

    /// Random-access reader handle.
    type RandFile;

    /// Writer handle.
    type WriteFile;

    /// Opens a file for sequential reading.
    fn open_sequential_file(&self, name: &str) -> Result<Self::SeqFile, Status>;

    /// Opens a file for reading at arbitrary offsets.
    fn open_random_access_file(&self, name: &str) -> Result<Self::RandFile, Status>;

    /// Creates or truncates a file for writing.
    fn open_writable_file(&self, name: &str) -> Result<Self::WriteFile, Status>;

    /// Opens a file for appending.
    fn open_appendable_file(&self, name: &str) -> Result<Self::WriteFile, Status>;

    /// Whether the path exists.
    fn path_exists(&self, name: &str) -> Result<bool, Status>;

    /// The names of the directory's children.
    fn children(&self, name: &str) -> Result<Vec<String>, Status>;

    /// Size of the file in bytes.
    fn size_of(&self, name: &str) -> Result<usize, Status>;

    /// Deletes a file.
    fn delete(&self, name: &str) -> Result<(), Status>;

    /// Creates a directory and its parents.
    fn mkdir(&self, name: &str) -> Result<(), Status>;

    /// Removes a directory tree.
    fn rmdir(&self, name: &str) -> Result<(), Status>;

    /// Renames a file.
    fn rename(&self, from: &str, to: &str) -> Result<(), Status>;

    /// Takes the lock on a path; fails when it is already held.
    fn lock(&self, name: &str) -> Result<FileLock, Status>;

    /// Releases a held lock; fails when it is not held.
    fn unlock(&self, l: FileLock) -> Result<(), Status>;

    /// Opens a logger writing to the path.
    fn new_logger(&self, name: &str) -> Result<Logger, Status>;

    /// A monotonic microsecond clock.
    fn micros(&self) -> u64;

    /// Sleeps for the given number of microseconds.
    fn sleep_for(&self, micros: u32);
}

} // verus!
