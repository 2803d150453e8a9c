//! Region-bounded storage for tags embedded in binary files, together with
//! the unsynchronisation codec used by such tags.
//!
//! The `storage` module keeps a writable `[start, end)` region of a file and
//! relocates the bytes that follow the region whenever its size changes, so
//! that a commit behaves as a pure "replace the region, keep everything else"
//! splice.  The `unsynch` module holds the synchsafe integer transform and the
//! byte-stuffing stream filter that defend tag data against false sync
//! markers.

mod private;
pub mod storage;
pub mod unsynch;
