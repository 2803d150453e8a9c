//! Region-bounded reading and rewriting of a byte file.
//!
//! A [`PlainStorage`] owns a backing store together with a writable
//! `[start, end)` region of it.  Readers stay inside the region; a writer
//! buffers a full replacement for the region and, on commit, relocates the
//! bytes that follow the region so that the file ends up as the bytes before
//! the region, then the buffer, then the bytes that followed the region.

use vstd::prelude::*;

verus! {

/// Why a storage operation was refused.
#[derive(Clone, Copy, Debug, PartialEq, Eq, Structural)]
pub enum Error {
    /// The requested position lies outside the permitted range.
    InvalidInput,
    /// The backing store could not carry out a read, write, seek or resize.
    Io,
}

/// A seek target: relative to the start, to the end, or to the current
/// position of the object being seeked.
#[derive(Clone, Copy, Debug, PartialEq, Eq, Structural)]
pub enum SeekFrom {
    Start(u64),
    End(i64),
    Current(i64),
}

/// The half-open byte interval `[start, end)` of a file that may be written
/// to, including any padding.  Both bounds are absolute file offsets.
#[derive(Clone, Copy, Debug, PartialEq, Eq, Structural)]
pub struct Region {
    pub start: u64,
    pub end: u64,
}

impl Region {
    /// The number of bytes the region spans.
    pub open spec fn spec_len(&self) -> int {
        self.end - self.start
    }

    /// A region never ends before it starts.
    pub open spec fn wf(&self) -> bool {
        self.start <= self.end
    }
}

/// `c` with the bytes from `at` on overwritten by `d`; the bytes before `at`
/// and after `at + d.len()` keep their values.  Meaningful when the write
/// stays inside `c`.
pub open spec fn splice(c: Seq<u8>, at: int, d: Seq<u8>) -> Seq<u8> {
    c.take(at) + d + c.skip(at + d.len())
}

/// `c` resized to `new_len` bytes: truncated, or grown with zero fill.
pub open spec fn resized(c: Seq<u8>, new_len: int) -> Seq<u8> {
    if new_len <= c.len() {
        c.take(new_len)
    } else {
        c + Seq::new((new_len - c.len()) as nat, |i: int| 0u8)
    }
}

/// `c` with the region `r` replaced by `b`: the bytes before `r.start`, then
/// `b`, then the bytes that followed `r.end`, whatever the two lengths.
pub open spec fn replace_region(c: Seq<u8>, r: Region, b: Seq<u8>) -> Seq<u8> {
    c.take(r.start as int) + b + c.skip(r.end as int)
}

/// What a commit leaves behind, spelled out byte by byte: the bytes before
/// the region keep their places, the replacement sits where the region
/// started, and every byte that followed the region survives, shifted by
/// exactly the difference between the replacement's and the region's length.
pub proof fn lemma_replace_region_preserves_surroundings(c: Seq<u8>, r: Region, b: Seq<u8>)
    requires
        r.wf(),
        r.end as int <= c.len(),
    ensures
        replace_region(c, r, b).len() == c.len() - r.spec_len() + b.len(),
        forall|j: int| 0 <= j < r.start ==> replace_region(c, r, b)[j] == c[j],
        forall|j: int| 0 <= j < b.len() ==> replace_region(c, r, b)[r.start + j] == b[j],
        forall|j: int|
            r.end <= j < c.len() ==> replace_region(c, r, b)[j - r.spec_len() + b.len()] == c[j],
{
}

/// A random-access backing store: the only extension point of the storage
/// layer.  It models an on-disk file as its byte contents plus a current
/// position, and it is the combination of reading, writing, seeking and
/// explicit resizing that the region logic needs.
///
/// Every operation may fail (a disk may), and nothing is promised about the
/// store after a failure.  A store whose `infallible()` holds (an in-memory
/// buffer) instead promises success whenever the resolved request fits the
/// machine.  Implementations must serve reads in full: `read_exact` never
/// returns short.
pub trait StorageFile: crate::private::Sealed + Sized {
    /// The bytes the store holds.
    spec fn contents(&self) -> Seq<u8>;

    /// The current position; it may point past the end of the contents.
    spec fn pos(&self) -> int;

    /// The store's own well-formedness.
    spec fn inv(&self) -> bool;

    /// Whether operations on this store are promised to succeed.
    spec fn infallible(&self) -> bool;

    /// Reports the total length of the store in bytes.
    fn len(&mut self) -> (r: Result<u64, Error>)
        requires
            old(self).inv(),
        ensures
            *final(self) == *old(self),
            r matches Ok(l) ==> l as int == old(self).contents().len(),
            old(self).infallible() && old(self).contents().len() <= u64::MAX as int ==> r is Ok,
    ;

    /// Moves the current position to the absolute offset `to`; seeking past
    /// the end of the contents is allowed.
    fn seek_to(&mut self, to: u64) -> (r: Result<(), Error>)
        requires
            old(self).inv(),
        ensures
            r is Ok ==> final(self).inv() && final(self).infallible() == old(self).infallible()
                && final(self).contents() == old(self).contents() && final(self).pos() == to as int,
            old(self).infallible() ==> r is Ok,
    ;

    /// Reads exactly `n` bytes at the current position and advances it.
    fn read_exact(&mut self, n: usize) -> (r: Result<Vec<u8>, Error>)
        requires
            old(self).inv(),
            0 <= old(self).pos(),
            old(self).pos() + n <= old(self).contents().len(),
        ensures
            r matches Ok(v) ==> final(self).inv() && final(self).infallible() == old(
                self,
            ).infallible() && v@ == old(self).contents().subrange(
                old(self).pos(),
                old(self).pos() + n,
            ) && final(self).contents() == old(self).contents() && final(self).pos() == old(
                self,
            ).pos() + n,
            old(self).infallible() ==> r is Ok,
    ;

    /// Writes all of `data` at the current position and advances it; the
    /// write must stay inside the current contents.
    fn write_all(&mut self, data: &[u8]) -> (r: Result<(), Error>)
        requires
            old(self).inv(),
            0 <= old(self).pos(),
            old(self).pos() + data@.len() <= old(self).contents().len(),
        ensures
            r is Ok ==> final(self).inv() && final(self).infallible() == old(self).infallible()
                && final(self).contents() == splice(old(self).contents(), old(self).pos(), data@)
                && final(self).pos() == old(self).pos() + data@.len(),
            old(self).infallible() ==> r is Ok,
    ;

    /// Resizes the store to `new_len` bytes, truncating or zero-filling,
    /// without moving the current position.
    fn set_len(&mut self, new_len: u64) -> (r: Result<(), Error>)
        requires
            old(self).inv(),
        ensures
            r is Ok ==> final(self).inv() && final(self).infallible() == old(self).infallible()
                && final(self).contents() == resized(old(self).contents(), new_len as int)
                && final(self).pos() == old(self).pos(),
            old(self).infallible() && new_len as int <= usize::MAX as int ==> r is Ok,
    ;

    /// Forces buffered bytes down to the store.
    fn flush(&mut self) -> (r: Result<(), Error>)
        requires
            old(self).inv(),
        ensures
            r is Ok ==> *final(self) == *old(self),
            old(self).infallible() ==> r is Ok,
    ;
}

/// An in-memory backing store: a growable byte buffer with a position.  It
/// stands in for a real file under test, and it never fails.
pub struct MemoryFile {
    pub data: Vec<u8>,
    pub pos: u64,
}

impl MemoryFile {
    /// A store holding `data`, positioned at its start.
    pub fn new(data: Vec<u8>) -> (r: MemoryFile)
        ensures
            r.data == data,
            r.pos == 0,
    {
        MemoryFile { data, pos: 0 }
    }

    /// Gives the held bytes back.
    pub fn into_inner(self) -> (r: Vec<u8>)
        ensures
            r == self.data,
    {
        self.data
    }
}

impl crate::private::Sealed for MemoryFile {

}

impl StorageFile for MemoryFile {
    open spec fn contents(&self) -> Seq<u8> {
        self.data@
    }

    open spec fn pos(&self) -> int {
        self.pos as int
    }

    open spec fn inv(&self) -> bool {
        true
    }

    open spec fn infallible(&self) -> bool {
        true
    }

    fn len(&mut self) -> (r: Result<u64, Error>) {
        Ok(self.data.len() as u64)
    }

    fn seek_to(&mut self, to: u64) -> (r: Result<(), Error>) {
        self.pos = to;
        Ok(())
    }

    fn read_exact(&mut self, n: usize) -> (r: Result<Vec<u8>, Error>) {
        // A `Vec` holds at most `usize::MAX` bytes; asking for its length
        // makes that bound available, so the position's cast below is exact.
        let total: usize = self.data.len();
        proof {
            assert(self.pos + n <= total);
        }
        let p = self.pos as usize;
        let mut v: Vec<u8> = Vec::new();
        let mut i: usize = 0;
        proof {
            assert(v@ =~= self.data@.subrange(p as int, p as int));
        }
        while i < n
            invariant
                i <= n,
                p + n <= self.data@.len() <= usize::MAX,
                v@ == self.data@.subrange(p as int, p + i),
                *self == *old(self),
                p as int == old(self).pos as int,
            decreases n - i,
        {
            v.push(self.data[p + i]);
            proof {
                assert(v@ =~= self.data@.subrange(p as int, p + i + 1));
            }
            i = i + 1;
        }
        self.pos = self.pos + n as u64;
        Ok(v)
    }

    fn write_all(&mut self, data: &[u8]) -> (r: Result<(), Error>) {
        // As in `read_exact`: the length pins the bound the cast needs.
        let total: usize = self.data.len();
        proof {
            assert(self.pos + data@.len() <= total);
        }
        let p = self.pos as usize;
        let mut i: usize = 0;
        proof {
            assert(self.data@ =~= splice(old(self).data@, p as int, data@.subrange(0, 0)));
        }
        while i < data.len()
            invariant
                i <= data@.len(),
                p + data@.len() <= self.data@.len() <= usize::MAX,
                self.data@ == splice(old(self).data@, p as int, data@.subrange(0, i as int)),
                self.data@.len() == old(self).data@.len(),
                self.pos == old(self).pos,
                p as int == old(self).pos as int,
            decreases data@.len() - i,
        {
            let b = data[i];
            self.data[p + i] = b;
            proof {
                assert(self.data@ =~= splice(old(self).data@, p as int, data@.subrange(0, i + 1)));
            }
            i = i + 1;
        }
        proof {
            assert(data@.subrange(0, data@.len() as int) =~= data@);
        }
        self.pos = self.pos + data.len() as u64;
        Ok(())
    }

    fn set_len(&mut self, new_len: u64) -> (r: Result<(), Error>) {
        if new_len > usize::MAX as u64 {
            return Err(Error::Io);
        }
        let nl = new_len as usize;
        if nl <= self.data.len() {
            self.data.truncate(nl);
            proof {
                assert(self.data@ =~= resized(old(self).data@, new_len as int));
            }
        } else {
            while self.data.len() < nl
                invariant
                    old(self).data@.len() <= self.data@.len() <= nl,
                    self.data@ == resized(old(self).data@, self.data@.len() as int),
                    self.pos == old(self).pos,
                decreases nl - self.data@.len(),
            {
                self.data.push(0u8);
                proof {
                    assert(self.data@ =~= resized(old(self).data@, self.data@.len() as int));
                }
            }
            proof {
                assert(self.data@ =~= resized(old(self).data@, new_len as int));
            }
        }
        Ok(())
    }

    fn flush(&mut self) -> (r: Result<(), Error>) {
        Ok(())
    }
}

/// A store of tag bytes that hands out one reader or one writer at a time.
/// Opening takes the storage, and the reader or writer gives it back when it
/// is done, so no two of them can touch the same store at once.
///
/// What the handed-out value guarantees is up to the implementation: it
/// states the promise in `reader_ok` and `writer_ok`.
pub trait Storage: Sized {
    type Reader;

    type Writer;

    /// What the implementation promises of a fresh reader.
    spec fn reader_ok(&self, r: Self::Reader) -> bool;

    /// What the implementation promises of a fresh writer.
    spec fn writer_ok(&self, w: Self::Writer) -> bool;

    /// Opens the storage for reading.
    fn reader(self) -> (r: Self::Reader)
        ensures
            self.reader_ok(r),
    ;

    /// Opens the storage for writing.  The written data reaches persistent
    /// storage when the writer commits it.
    fn writer(self) -> (w: Self::Writer)
        ensures
            self.writer_ok(w),
    ;
}

/// `PlainStorage` keeps track of a writeable region in a file and prevents
/// accidental overwrites of unrelated data.  Any data following the region
/// is moved left and right as needed.
///
/// Padding is included from the reader.
pub struct PlainStorage<F> where F: StorageFile {
    /// The backing storage.
    pub file: F,
    /// The region that may be written to, including any padding.
    pub region: Region,
}

impl<F> PlainStorage<F> where F: StorageFile {
    /// The storage is well formed when its file is and the region lies
    /// inside the file.
    pub open spec fn wf(&self) -> bool {
        &&& self.file.inv()
        &&& self.region.wf()
        &&& self.region.end as int <= self.file.contents().len()
    }

    /// The bytes the region currently holds.
    pub open spec fn region_bytes(&self) -> Seq<u8> {
        self.file.contents().subrange(self.region.start as int, self.region.end as int)
    }

    /// Creates a new storage over `file`, granting write access to `region`.
    pub fn new(file: F, region: Region) -> (s: PlainStorage<F>)
        requires
            file.inv(),
            region.wf(),
            region.end as int <= file.contents().len(),
        ensures
            s.file == file,
            s.region == region,
            s.wf(),
    {
        PlainStorage { file, region }
    }

    /// Opens the storage for reading; the reader starts at the beginning of
    /// the region.  Only one reader or writer can exist at a time: each
    /// takes the storage and gives it back when it is done.
    pub fn reader(self) -> (r: PlainReader<F>)
        ensures
            r.storage == self,
            r.pos == self.region.start,
    {
        let pos = self.region.start;
        PlainReader { storage: self, pos }
    }
}

impl<F> Storage for PlainStorage<F> where F: StorageFile {
    type Reader = PlainReader<F>;

    type Writer = PlainWriter<F>;

    open spec fn reader_ok(&self, r: PlainReader<F>) -> bool {
        r.storage == *self && r.pos == self.region.start
    }

    open spec fn writer_ok(&self, w: PlainWriter<F>) -> bool {
        &&& w.storage == *self
        &&& w.buffer@ == Seq::<u8>::empty()
        &&& w.buf_pos == 0
        &&& w.buffer_changed == true
    }

    fn reader(self) -> (r: PlainReader<F>) {
        let pos = self.region.start;
        PlainReader { storage: self, pos }
    }

    fn writer(self) -> (w: PlainWriter<F>) {
        PlainWriter { storage: self, buffer: Vec::new(), buf_pos: 0, buffer_changed: true }
    }
}

/// Reads the bytes of the region, and nothing outside it.  The reader keeps
/// its own cursor; positions handed out are relative to the region's start.
pub struct PlainReader<F> where F: StorageFile {
    pub storage: PlainStorage<F>,
    /// The absolute file offset the next read starts at.
    pub pos: u64,
}

impl<F> PlainReader<F> where F: StorageFile {
    /// The reader's cursor never sits before the region.
    pub open spec fn wf(&self) -> bool {
        &&& self.storage.wf()
        &&& self.storage.region.start <= self.pos
    }

    /// How many bytes a read of `n` serves: `n`, clipped to what is left of
    /// the region at the cursor.
    pub open spec fn read_len(&self, n: int) -> int {
        if self.pos >= self.storage.region.end {
            0
        } else if n <= self.storage.region.end - self.pos {
            n
        } else {
            self.storage.region.end - self.pos
        }
    }

    /// Reads up to `n` bytes at the cursor, never past the region's end;
    /// a read at the end of the region serves no bytes.
    pub fn read(&mut self, n: usize) -> (r: Result<Vec<u8>, Error>)
        requires
            old(self).wf(),
        ensures
            final(self).storage.region == old(self).storage.region,
            r matches Ok(v) ==> {
                &&& final(self).wf()
                &&& final(self).storage.file.contents() == old(self).storage.file.contents()
                &&& final(self).storage.file.infallible() == old(self).storage.file.infallible()
                &&& v@.len() == old(self).read_len(n as int)
                &&& old(self).pos < old(self).storage.region.end ==> v@ == old(
                    self,
                ).storage.file.contents().subrange(old(self).pos as int, old(self).pos + v@.len())
                &&& final(self).pos == old(self).pos + v@.len()
            },
            old(self).storage.file.infallible() ==> r is Ok,
    {
        if self.pos >= self.storage.region.end {
            return Ok(Vec::new());
        }
        let avail = self.storage.region.end - self.pos;
        let cnt: u64 = if (n as u64) < avail {
            n as u64
        } else {
            avail
        };
        match self.storage.file.seek_to(self.pos) {
            Ok(()) => (),
            Err(e) => {
                return Err(e);
            },
        }
        match self.storage.file.read_exact(cnt as usize) {
            Ok(v) => {
                self.pos = self.pos + cnt;
                Ok(v)
            },
            Err(e) => Err(e),
        }
    }

    /// Where a seek request lands, as an absolute file offset.
    pub open spec fn resolve(&self, from: SeekFrom) -> int {
        match from {
            SeekFrom::Start(i) => self.storage.region.start + i,
            SeekFrom::End(i) => self.storage.region.end + i,
            SeekFrom::Current(i) => self.pos + i,
        }
    }

    /// Moves the cursor.  Offsets in `from` are relative to the region:
    /// `Start` counts from `region.start`, `End` from `region.end` and
    /// `Current` from the cursor.  Seeking before the region is refused;
    /// seeking past its end is allowed.  Returns the new cursor position
    /// relative to the region's start.
    pub fn seek(&mut self, from: SeekFrom) -> (r: Result<u64, Error>)
        requires
            old(self).wf(),
        ensures
            final(self).storage == old(self).storage,
            r is Ok <==> old(self).storage.region.start <= old(self).resolve(from) <= u64::MAX,
            r matches Ok(p) ==> {
                &&& final(self).pos == old(self).resolve(from)
                &&& p == old(self).resolve(from) - old(self).storage.region.start
                &&& final(self).wf()
            },
            r is Err ==> *final(self) == *old(self) && r == Err::<u64, Error>(Error::InvalidInput),
    {
        let target: i128 = match from {
            SeekFrom::Start(i) => self.storage.region.start as i128 + i as i128,
            SeekFrom::End(i) => self.storage.region.end as i128 + i as i128,
            SeekFrom::Current(i) => self.pos as i128 + i as i128,
        };
        if target < self.storage.region.start as i128 || target > u64::MAX as i128 {
            return Err(Error::InvalidInput);
        }
        self.pos = target as u64;
        Ok(self.pos - self.storage.region.start)
    }

    /// Gives the storage back.
    pub fn into_storage(self) -> (s: PlainStorage<F>)
        ensures
            s == self.storage,
    {
        self.storage
    }
}

/// The size of the scratch buffer used to relocate trailing file content,
/// chunk by chunk, so that memory use stays bounded whatever the file size.
pub const COPY_BUF_SIZE: u64 = 65536;

/// `b` with `d` written at offset `at` of the buffer's own address space:
/// existing bytes are overwritten, the buffer grows as needed, and a gap
/// left by a cursor past the end is zero-filled.
pub open spec fn cursor_write(b: Seq<u8>, at: int, d: Seq<u8>) -> Seq<u8> {
    let padded = if at <= b.len() {
        b
    } else {
        b + Seq::new((at - b.len()) as nat, |i: int| 0u8)
    };
    if at + d.len() <= padded.len() {
        splice(padded, at, d)
    } else {
        padded.take(at) + d
    }
}

/// Buffers a full replacement for the region and, on an explicit commit,
/// writes it out, relocating the file content that follows the region when
/// the replacement's size differs from the region's.
///
/// Commit errors are only visible through [`PlainWriter::flush`]: call it
/// before [`PlainWriter::into_storage`] releases the writer.
pub struct PlainWriter<F> where F: StorageFile {
    pub storage: PlainStorage<F>,
    /// Data is written to this buffer before it is committed to the
    /// underlying storage.
    pub buffer: Vec<u8>,
    /// The buffer's own cursor, independent of the file's position.
    pub buf_pos: usize,
    /// A flag indicating that the buffer has been written to.
    pub buffer_changed: bool,
}

impl<F> PlainStorage<F> where F: StorageFile {
    /// Opens the storage for writing.  The written data replaces the whole
    /// region once [`PlainWriter::flush`] commits it; a writer released
    /// without a flush has committed nothing.
    pub fn writer(self) -> (w: PlainWriter<F>)
        ensures
            w.storage == self,
            w.buffer@ == Seq::<u8>::empty(),
            w.buf_pos == 0,
            w.buffer_changed == true,
    {
        PlainWriter { storage: self, buffer: Vec::new(), buf_pos: 0, buffer_changed: true }
    }
}

impl<F> PlainWriter<F> where F: StorageFile {
    /// The writer is well formed when its storage is.
    pub open spec fn wf(&self) -> bool {
        self.storage.wf()
    }

    /// Appends `data` to the pending buffer at the buffer's cursor.  The
    /// file itself is not touched.
    pub fn write(&mut self, data: &[u8]) -> (r: Result<usize, Error>)
        requires
            old(self).buf_pos + data@.len() <= usize::MAX,
        ensures
            final(self).storage == old(self).storage,
            final(self).buffer@ == cursor_write(
                old(self).buffer@,
                old(self).buf_pos as int,
                data@,
            ),
            final(self).buf_pos == old(self).buf_pos + data@.len(),
            final(self).buffer_changed == true,
            r == Ok::<usize, Error>(data@.len() as usize),
    {
        let ghost b0 = self.buffer@;
        let p = self.buf_pos;
        while self.buffer.len() < p
            invariant
                b0.len() <= self.buffer@.len() <= vstd::math::max(p as int, b0.len() as int),
                self.buffer@ == b0 + Seq::new((self.buffer@.len() - b0.len()) as nat, |i: int| 0u8),
                self.storage == old(self).storage,
                self.buf_pos == old(self).buf_pos,
                self.buffer_changed == old(self).buffer_changed,
            decreases p - self.buffer@.len(),
        {
            self.buffer.push(0u8);
            proof {
                assert(self.buffer@ =~= b0 + Seq::new(
                    (self.buffer@.len() - b0.len()) as nat,
                    |i: int| 0u8,
                ));
            }
        }
        let ghost pd = self.buffer@;
        proof {
            if p <= b0.len() {
                assert(pd =~= b0);
            }
        }
        let mut i: usize = 0;
        while i < data.len()
            invariant
                i <= data@.len(),
                p + data@.len() <= usize::MAX,
                p <= pd.len(),
                self.buffer@.len() == vstd::math::max(pd.len() as int, p + i),
                self.buffer@ == cursor_write(b0, p as int, data@.subrange(0, i as int)),
                self.storage == old(self).storage,
                self.buf_pos == old(self).buf_pos,
                self.buffer_changed == old(self).buffer_changed,
            decreases data@.len() - i,
        {
            let b = data[i];
            proof {
                assert(data@.subrange(0, i + 1) =~= data@.subrange(0, i as int).push(b));
            }
            if p + i < self.buffer.len() {
                self.buffer[p + i] = b;
            } else {
                self.buffer.push(b);
            }
            proof {
                assert(self.buffer@ =~= cursor_write(b0, p as int, data@.subrange(0, i + 1)));
            }
            i = i + 1;
        }
        proof {
            assert(data@.subrange(0, data@.len() as int) =~= data@);
        }
        self.buf_pos = p + data.len();
        self.buffer_changed = true;
        Ok(data.len())
    }

    /// Where a seek request lands in the buffer's address space.
    pub open spec fn buf_resolve(&self, from: SeekFrom) -> int {
        match from {
            SeekFrom::Start(i) => i as int,
            SeekFrom::End(i) => self.buffer@.len() + i,
            SeekFrom::Current(i) => self.buf_pos + i,
        }
    }

    /// Repositions the buffer's cursor; the file is not touched.  A cursor
    /// past the buffer's end is allowed: a later write zero-fills the gap.
    pub fn seek(&mut self, from: SeekFrom) -> (r: Result<u64, Error>)
        ensures
            final(self).storage == old(self).storage,
            final(self).buffer == old(self).buffer,
            final(self).buffer_changed == old(self).buffer_changed,
            r is Ok <==> 0 <= old(self).buf_resolve(from) <= usize::MAX,
            r matches Ok(p) ==> final(self).buf_pos == old(self).buf_resolve(from) && p == old(
                self,
            ).buf_resolve(from),
            r is Err ==> *final(self) == *old(self) && r == Err::<u64, Error>(Error::InvalidInput),
    {
        let target: i128 = match from {
            SeekFrom::Start(i) => i as i128,
            SeekFrom::End(i) => self.buffer.len() as i128 + i as i128,
            SeekFrom::Current(i) => self.buf_pos as i128 + i as i128,
        };
        if target < 0 || target > usize::MAX as i128 {
            return Err(Error::InvalidInput);
        }
        self.buf_pos = target as usize;
        Ok(self.buf_pos as u64)
    }

    /// Gives the storage back.  This does not commit: flush first when the
    /// buffer's content is meant to reach the file.
    pub fn into_storage(self) -> (s: PlainStorage<F>)
        ensures
            s == self.storage,
    {
        self.storage
    }

    /// Commits the pending buffer: a no-op when nothing changed since the
    /// last commit, and otherwise a splice that replaces the region with the
    /// buffer, moving the file content that follows the region out of or
    /// into the gap and resizing the file by the difference.  On success the
    /// region covers exactly the committed bytes and its start is unchanged.
    ///
    /// A mid-commit failure can leave the file partially shifted: nothing is
    /// promised of the storage then, and the buffer still counts as changed.
    #[verifier::loop_isolation(false)]
    #[verifier::rlimit(100)]
    #[verifier::spinoff_prover]
    pub fn flush(&mut self) -> (r: Result<(), Error>)
        requires
            old(self).wf(),
            old(self).storage.file.contents().len() + old(self).buffer@.len() <= u64::MAX,
        ensures
            final(self).buffer == old(self).buffer,
            final(self).buf_pos == old(self).buf_pos,
            !old(self).buffer_changed ==> *final(self) == *old(self) && r is Ok,
            r is Ok ==> {
                &&& final(self).wf()
                &&& final(self).buffer_changed == false
                &&& final(self).storage.file.infallible() == old(self).storage.file.infallible()
                &&& old(self).buffer_changed ==> {
                    &&& final(self).storage.file.contents() == replace_region(
                        old(self).storage.file.contents(),
                        old(self).storage.region,
                        old(self).buffer@,
                    )
                    &&& final(self).storage.region.start == old(self).storage.region.start
                    &&& final(self).storage.region.end == old(self).storage.region.start + old(
                        self,
                    ).buffer@.len()
                }
            },
            old(self).storage.file.infallible() && old(self).storage.file.contents().len() + old(
                self,
            ).buffer@.len() <= usize::MAX ==> r is Ok,
    {
        if !self.buffer_changed {
            return Ok(());
        }
        let ghost c0 = self.storage.file.contents();
        let ghost r0 = self.storage.region;
        let s = self.storage.region.start;
        let e = self.storage.region.end;
        let buf_len: u64 = self.buffer.len() as u64;
        let region_len: u64 = e - s;
        if buf_len > region_len {
            // Grow: extend the file, then move the trailing content towards
            // the new end, chunk by chunk from the file's tail towards its
            // head so that a chunk never overwrites bytes still to be moved.
            let d = buf_len - region_len;
            let old_file_end = match self.storage.file.len() {
                Ok(l) => l,
                Err(er) => {
                    return Err(er);
                },
            };
            let new_file_end = old_file_end + d;
            match self.storage.file.set_len(new_file_end) {
                Ok(()) => (),
                Err(er) => {
                    return Err(er);
                },
            }
            let ghost c1 = resized(c0, new_file_end as int);
            let tail_len = old_file_end - e;
            let mut remaining: u64 = tail_len;
            while remaining > 0
                invariant
                    remaining <= tail_len,
                    self.storage.region == r0,
                    self.buffer == old(self).buffer,
                    self.buf_pos == old(self).buf_pos,
                    self.buffer_changed == old(self).buffer_changed,
                    self.storage.file.inv(),
                    self.storage.file.infallible() == old(self).storage.file.infallible(),
                    self.storage.file.contents().len() == new_file_end,
                    forall|j: int|
                        0 <= j < e + remaining ==> #[trigger] self.storage.file.contents()[j]
                            == c1[j],
                    forall|j: int|
                        e + d + remaining <= j < new_file_end ==> #[trigger] self.storage.file.contents()[j] == c0[j - d],
                decreases remaining,
            {
                let chunk: u64 = if remaining < COPY_BUF_SIZE {
                    remaining
                } else {
                    COPY_BUF_SIZE
                };
                let src = e + (remaining - chunk);
                let dst = src + d;
                match self.storage.file.seek_to(src) {
                    Ok(()) => (),
                    Err(er) => {
                        return Err(er);
                    },
                }
                let part = match self.storage.file.read_exact(chunk as usize) {
                    Ok(v) => v,
                    Err(er) => {
                        return Err(er);
                    },
                };
                proof {
                    assert(forall|j: int|
                        0 <= j < chunk ==> part@[j] == #[trigger] c1[src + j] && c1[src + j] == c0[
                            src + j
                        ]);
                }
                match self.storage.file.seek_to(dst) {
                    Ok(()) => (),
                    Err(er) => {
                        return Err(er);
                    },
                }
                match self.storage.file.write_all(part.as_slice()) {
                    Ok(()) => (),
                    Err(er) => {
                        return Err(er);
                    },
                }
                remaining = remaining - chunk;
            }
        } else if buf_len < region_len {
            // Shrink: move the trailing content towards the start, chunk by
            // chunk from the head towards the tail, then cut the file.
            let d = region_len - buf_len;
            let old_file_end = match self.storage.file.len() {
                Ok(l) => l,
                Err(er) => {
                    return Err(er);
                },
            };
            let new_file_end = old_file_end - d;
            let tail_len = old_file_end - e;
            let mut off: u64 = 0;
            while off < tail_len
                invariant
                    off <= tail_len,
                    self.storage.region == r0,
                    self.buffer == old(self).buffer,
                    self.buf_pos == old(self).buf_pos,
                    self.buffer_changed == old(self).buffer_changed,
                    self.storage.file.inv(),
                    self.storage.file.infallible() == old(self).storage.file.infallible(),
                    self.storage.file.contents().len() == old_file_end,
                    forall|j: int|
                        0 <= j < e - d + off ==> #[trigger] self.storage.file.contents()[j] == (
                        if j < e - d {
                            c0[j]
                        } else {
                            c0[j + d]
                        }),
                    forall|j: int|
                        e + off <= j < old_file_end ==> #[trigger] self.storage.file.contents()[j]
                            == c0[j],
                decreases tail_len - off,
            {
                let rem = tail_len - off;
                let chunk: u64 = if rem < COPY_BUF_SIZE {
                    rem
                } else {
                    COPY_BUF_SIZE
                };
                let src = e + off;
                let dst = (e - d) + off;
                match self.storage.file.seek_to(src) {
                    Ok(()) => (),
                    Err(er) => {
                        return Err(er);
                    },
                }
                let part = match self.storage.file.read_exact(chunk as usize) {
                    Ok(v) => v,
                    Err(er) => {
                        return Err(er);
                    },
                };
                proof {
                    assert(forall|j: int| 0 <= j < chunk ==> part@[j] == #[trigger] c0[src + j]);
                }
                match self.storage.file.seek_to(dst) {
                    Ok(()) => (),
                    Err(er) => {
                        return Err(er);
                    },
                }
                match self.storage.file.write_all(part.as_slice()) {
                    Ok(()) => (),
                    Err(er) => {
                        return Err(er);
                    },
                }
                off = off + chunk;
            }
            match self.storage.file.set_len(new_file_end) {
                Ok(()) => (),
                Err(er) => {
                    return Err(er);
                },
            }
        }
        // The trailing content now sits right after where the buffer will
        // go; record the region's new bounds and write the buffer out.
        self.storage.region.end = s + buf_len;
        proof {
            assert(self.storage.file.contents().len() == c0.len() + buf_len - (e - s));
            assert(forall|j: int|
                0 <= j < s ==> #[trigger] self.storage.file.contents()[j] == c0[j]);
            assert(forall|j: int|
                s + buf_len <= j < self.storage.file.contents().len()
                    ==> #[trigger] self.storage.file.contents()[j] == c0[j - buf_len + (e - s)]);
        }
        match self.storage.file.seek_to(s) {
            Ok(()) => (),
            Err(er) => {
                return Err(er);
            },
        }
        match self.storage.file.write_all(self.buffer.as_slice()) {
            Ok(()) => (),
            Err(er) => {
                return Err(er);
            },
        }
        match self.storage.file.flush() {
            Ok(()) => (),
            Err(er) => {
                return Err(er);
            },
        }
        self.buffer_changed = false;
        proof {
            assert(self.storage.file.contents() =~= replace_region(c0, r0, self.buffer@));
        }
        Ok(())
    }
}

} // verus!
