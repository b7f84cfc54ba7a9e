use vstd::prelude::*;

use crate::errors::{LockedFileError, StorageError};
use crate::seqs::{bytes_eq, index_of_first, lemma_index_of_first_bounds, lemma_index_of_first_match, to_vec_bytes};

verus! {

/// Length metadata reported for a file.
pub struct Metadata {
    pub len: u64,
}

/// Contents of a file after it is truncated or zero-extended to `n` bytes.
pub open spec fn resize_bytes(s: Seq<u8>, n: nat) -> Seq<u8> {
    if n <= s.len() {
        s.take(n as int)
    } else {
        s + Seq::new((n - s.len()) as nat, |i: int| 0u8)
    }
}

/// Contents of a file after a positional write of `data` at `offset`.
///
/// The gap between the old end and `offset`, if any, reads as zeroes, and the
/// file grows exactly as far as the write reaches.
pub open spec fn write_at(s: Seq<u8>, offset: nat, data: Seq<u8>) -> Seq<u8> {
    let n = if offset + data.len() > s.len() {
        offset + data.len()
    } else {
        s.len()
    };
    Seq::new(
        n,
        |i: int|
            if offset <= i < offset + data.len() {
                data[i - offset]
            } else if i < s.len() {
                s[i]
            } else {
                0u8
            },
    )
}

/// The file capability the store consumes: a byte sequence with length
/// queries, truncation or zero-extension, and two durability fences.
///
/// `sync_data` pushes buffered writes toward the device; `fsync` is the
/// stronger ordering barrier used at the commit point. Neither changes the
/// logical contents. Implementations over a real device may fail with `Io`;
/// the in-memory implementation never does.
pub trait File: Sized {
    spec fn bytes(&self) -> Seq<u8>;

    fn metadata(&self) -> (r: Result<Metadata, StorageError>)
        ensures
            r matches Ok(m) ==> m.len == self.bytes().len(),
    ;

    fn set_len(&mut self, len: u64) -> (r: Result<(), StorageError>)
        ensures
            r is Ok ==> final(self).bytes() == resize_bytes(old(self).bytes(), len as nat),
            r is Err ==> final(self).bytes() == old(self).bytes(),
    ;

    fn sync_data(&mut self) -> (r: Result<(), StorageError>)
        ensures
            final(self).bytes() == old(self).bytes(),
    ;

    fn fsync(&mut self) -> (r: Result<(), StorageError>)
        ensures
            final(self).bytes() == old(self).bytes(),
    ;
}

/// A file held entirely in memory: a growable byte buffer.
pub struct MemoryFile {
    data: Vec<u8>,
}

impl View for MemoryFile {
    type V = Seq<u8>;

    closed spec fn view(&self) -> Seq<u8> {
        self.data@
    }
}

impl MemoryFile {
    /// An empty file.
    pub fn new() -> (r: MemoryFile)
        ensures
            r@ == Seq::<u8>::empty(),
    {
        MemoryFile { data: Vec::new() }
    }

    /// Current length in bytes.
    pub fn len(&self) -> (r: usize)
        ensures
            r == self@.len(),
    {
        self.data.len()
    }

    /// The byte at `i`.
    pub fn byte_at(&self, i: usize) -> (r: u8)
        requires
            i < self@.len(),
        ensures
            r == self@[i as int],
    {
        self.data[i]
    }
}

impl File for MemoryFile {
    closed spec fn bytes(&self) -> Seq<u8> {
        self.data@
    }

    fn metadata(&self) -> (r: Result<Metadata, StorageError>)
        ensures
            r is Ok,
    {
        Ok(Metadata { len: self.data.len() as u64 })
    }

    fn set_len(&mut self, len: u64) -> (r: Result<(), StorageError>)
        ensures
            len <= usize::MAX ==> r is Ok,
    {
        if len > usize::MAX as u64 {
            return Err(StorageError::Io);
        }
        let n = len as usize;
        let ghost old_data = self.data@;
        self.data.resize(n, 0u8);
        proof {
            assert(self.data@ =~= resize_bytes(old_data, n as nat));
        }
        Ok(())
    }

    fn sync_data(&mut self) -> (r: Result<(), StorageError>)
        ensures
            r is Ok,
    {
        Ok(())
    }

    fn fsync(&mut self) -> (r: Result<(), StorageError>)
        ensures
            r is Ok,
    {
        Ok(())
    }
}

/// A purely in-memory filesystem: a set of named byte files. It backs the
/// store in tests and wherever no host filesystem is wanted; the engine sees
/// the same capability either way.
///
/// Files are addressed by handle after `create` or `open`; reopening a path
/// yields the same underlying buffer, so contents written through one handle
/// are observed through another.
pub struct MemoryFs {
    names: Vec<Vec<u8>>,
    files: Vec<MemoryFile>,
}

impl MemoryFs {
    /// One entry per created file; handles index into this sequence.
    pub closed spec fn paths(&self) -> Seq<Seq<u8>> {
        Seq::new(self.names@.len(), |i: int| self.names@[i]@)
    }

    /// Contents of the file at handle `i`.
    pub closed spec fn file_at(&self, i: int) -> Seq<u8> {
        self.files@[i]@
    }

    pub closed spec fn wf(&self) -> bool {
        self.names@.len() == self.files@.len()
    }

    pub open spec fn count(&self) -> nat {
        self.paths().len()
    }

    pub open spec fn contains_path(&self, p: Seq<u8>) -> bool {
        index_of_first(self.paths(), p) >= 0
    }

    /// Contents currently stored under path `p`.
    pub open spec fn contents_of(&self, p: Seq<u8>) -> Seq<u8> {
        self.file_at(index_of_first(self.paths(), p))
    }

    /// An empty filesystem.
    pub fn new() -> (r: MemoryFs)
        ensures
            r.wf(),
            r.count() == 0,
            forall|p: Seq<u8>| !r.contains_path(p),
    {
        let r = MemoryFs { names: Vec::new(), files: Vec::new() };
        proof {
            assert forall|p: Seq<u8>| !r.contains_path(p) by {
                assert(r.paths().len() == 0);
            }
        }
        r
    }

    /// Handle of the first file stored under `path`, if one is.
    fn lookup(&self, path: &[u8]) -> (r: Option<usize>)
        requires
            self.wf(),
        ensures
            r matches Some(h) ==> index_of_first(self.paths(), path@) == h && h < self.count(),
            r is None ==> !self.contains_path(path@),
    {
        let mut i: usize = 0;
        while i < self.names.len()
            invariant
                self.wf(),
                0 <= i <= self.names@.len(),
                forall|j: int| 0 <= j < i ==> self.paths()[j] != path@,
            decreases self.names@.len() - i,
        {
            if bytes_eq(self.names[i].as_slice(), path) {
                proof {
                    lemma_index_of_first_match(self.paths(), path@, i as int);
                }
                return Some(i);
            }
            i += 1;
        }
        proof {
            lemma_index_of_first_bounds(self.paths(), path@);
            if self.contains_path(path@) {
                assert(self.paths()[index_of_first(self.paths(), path@)] == path@);
            }
        }
        None
    }

    /// Whether a file exists under `path`.
    pub fn path_exists(&self, path: &[u8]) -> (r: bool)
        requires
            self.wf(),
        ensures
            r == self.contains_path(path@),
    {
        proof {
            lemma_index_of_first_bounds(self.paths(), path@);
        }
        self.lookup(path).is_some()
    }

    /// Opens the file under `path`, creating an empty one if absent.
    /// Truncates nothing. Returns the file's handle.
    pub fn create(&mut self, path: &[u8]) -> (h: usize)
        requires
            old(self).wf(),
        ensures
            final(self).wf(),
            h < final(self).count(),
            index_of_first(final(self).paths(), path@) == h,
            final(self).contains_path(path@),
            old(self).contains_path(path@) ==> *final(self) == *old(self) && h == index_of_first(
                old(self).paths(),
                path@,
            ),
            !old(self).contains_path(path@) ==> {
                &&& final(self).count() == old(self).count() + 1
                &&& final(self).paths() == old(self).paths().push(path@)
                &&& final(self).contents_of(path@) == Seq::<u8>::empty()
                &&& forall|i: int|
                    0 <= i < old(self).count() ==> final(self).file_at(i) == old(self).file_at(i)
            },
    {
        match self.lookup(path) {
            Some(h) => h,
            None => {
                let h = self.names.len();
                let ghost pre = *self;
                self.names.push(to_vec_bytes(path));
                self.files.push(MemoryFile::new());
                proof {
                    assert(self.paths() =~= pre.paths().push(path@));
                    lemma_index_of_first_bounds(pre.paths(), path@);
                    assert forall|j: int| 0 <= j < h implies self.paths()[j] != path@ by {
                        assert(self.paths()[j] == pre.paths()[j]);
                    }
                    lemma_index_of_first_match(self.paths(), path@, h as int);
                }
                h
            },
        }
    }

    /// Opens the file under `path`; fails if it does not exist.
    pub fn open(&self, path: &[u8]) -> (r: Result<usize, StorageError>)
        requires
            self.wf(),
        ensures
            r matches Ok(h) ==> self.contains_path(path@) && h < self.count() && index_of_first(
                self.paths(),
                path@,
            ) == h,
            r is Err ==> !self.contains_path(path@) && r == Err::<usize, StorageError>(
                StorageError::Io,
            ),
    {
        match self.lookup(path) {
            Some(h) => Ok(h),
            None => Err(StorageError::Io),
        }
    }

    /// Length of the file at handle `h`.
    pub fn file_len(&self, h: usize) -> (r: usize)
        requires
            self.wf(),
            h < self.count(),
        ensures
            r == self.file_at(h as int).len(),
    {
        self.files[h].len()
    }
}

/// An exclusively held file over the in-memory filesystem, offering positional
/// exact reads and positional total writes.
///
/// Construction models acquiring the advisory lock; in a single process over
/// memory it always succeeds. The filesystem is owned while the lock is held
/// and handed back by `unlock`, which models releasing the lock on drop.
pub struct MemoryLockFile {
    fs: MemoryFs,
    handle: usize,
}

impl View for MemoryLockFile {
    type V = Seq<u8>;

    closed spec fn view(&self) -> Seq<u8> {
        self.fs.file_at(self.handle as int)
    }
}

impl MemoryLockFile {
    pub closed spec fn wf(&self) -> bool {
        self.fs.wf() && self.handle < self.fs.count()
    }

    pub closed spec fn fs_view(&self) -> MemoryFs {
        self.fs
    }

    pub closed spec fn path_handle(&self) -> int {
        self.handle as int
    }

    /// Takes the lock on the file at `handle`.
    pub fn new(fs: MemoryFs, handle: usize) -> (r: Result<MemoryLockFile, LockedFileError>)
        requires
            fs.wf(),
            handle < fs.count(),
        ensures
            r matches Ok(l) ==> l.wf() && l@ == fs.file_at(handle as int) && l.fs_view() == fs
                && l.path_handle() == handle,
            r is Ok,
    {
        Ok(MemoryLockFile { fs, handle })
    }

    /// Releases the lock, handing the filesystem back.
    pub fn unlock(self) -> (r: MemoryFs)
        requires
            self.wf(),
        ensures
            r == self.fs_view(),
            r.wf(),
            0 <= self.path_handle() < r.count(),
            r.file_at(self.path_handle()) == self@,
    {
        self.fs
    }

    /// Current file length.
    pub fn len(&self) -> (r: usize)
        requires
            self.wf(),
        ensures
            r == self@.len(),
    {
        self.fs.file_len(self.handle)
    }

    /// Exact positional read: returns `len` bytes starting at `offset`, or
    /// fails without filling anything when the range runs past the end of
    /// the file.
    pub fn read(&self, offset: u64, len: usize) -> (r: Result<Vec<u8>, LockedFileError>)
        requires
            self.wf(),
        ensures
            offset + len <= self@.len() ==> (r matches Ok(v) && v@ == self@.subrange(
                offset as int,
                offset + len,
            )),
            offset + len > self@.len() ==> r == Err::<Vec<u8>, LockedFileError>(
                LockedFileError::Io,
            ),
    {
        let f = &self.fs.files[self.handle];
        let flen = f.len();
        if offset > flen as u64 {
            return Err(LockedFileError::Io);
        }
        let o = offset as usize;
        if len > flen - o {
            return Err(LockedFileError::Io);
        }
        let s: &[u8] = f.data.as_slice();
        let sub: &[u8] = &s[o..o + len];
        Ok(vstd::slice::slice_to_vec(sub))
    }

    /// Total positional write of `data` at `offset`, zero-extending any gap.
    pub fn write(&mut self, offset: u64, data: &[u8]) -> (r: Result<(), LockedFileError>)
        requires
            old(self).wf(),
            offset + data@.len() <= usize::MAX,
        ensures
            final(self).wf(),
            final(self)@ == write_at(old(self)@, offset as nat, data@),
            final(self).path_handle() == old(self).path_handle(),
            final(self).fs_view().paths() == old(self).fs_view().paths(),
            forall|i: int|
                0 <= i < old(self).fs_view().count() && i != old(self).path_handle()
                    ==> final(self).fs_view().file_at(i) == old(self).fs_view().file_at(i),
            r is Ok,
    {
        let o = offset as usize;
        let end = o + data.len();
        let ghost pre = *self;
        let f = &mut self.fs.files[self.handle];
        let ghost old_bytes = f.data@;
        if end > f.data.len() {
            f.data.resize(end, 0u8);
        }
        let mut i: usize = 0;
        while i < data.len()
            invariant
                0 <= i <= data@.len(),
                o + data@.len() == end,
                f.data@.len() == if end > old_bytes.len() {
                    end as int
                } else {
                    old_bytes.len() as int
                },
                forall|j: int| 0 <= j < i ==> f.data@[o + j] == data@[j],
                forall|j: int|
                    0 <= j < f.data@.len() && !(o <= j < end) ==> f.data@[j] == (if j
                        < old_bytes.len() {
                        old_bytes[j]
                    } else {
                        0u8
                    }),
            decreases data@.len() - i,
        {
            f.data[o + i] = data[i];
            i += 1;
        }
        proof {
            assert(f.data@ =~= write_at(old_bytes, offset as nat, data@));
        }
        Ok(())
    }

    /// Length metadata, as the file capability reports it.
    pub fn metadata(&self) -> (r: Result<Metadata, StorageError>)
        requires
            self.wf(),
        ensures
            r matches Ok(m) ==> m.len == self@.len(),
            r is Ok,
    {
        self.fs.files[self.handle].metadata()
    }

    /// Truncates or zero-extends the file to `len` bytes.
    pub fn set_len(&mut self, len: u64) -> (r: Result<(), StorageError>)
        requires
            old(self).wf(),
            len <= usize::MAX,
        ensures
            final(self).wf(),
            final(self)@ == resize_bytes(old(self)@, len as nat),
            final(self).path_handle() == old(self).path_handle(),
            final(self).fs_view().paths() == old(self).fs_view().paths(),
            r is Ok,
    {
        let f = &mut self.fs.files[self.handle];
        f.set_len(len)
    }

    /// Pushes buffered writes toward the device: a no-op in memory.
    pub fn sync_data(&mut self) -> (r: Result<(), StorageError>)
        requires
            old(self).wf(),
        ensures
            *final(self) == *old(self),
            r is Ok,
    {
        Ok(())
    }

    /// Durability barrier: a no-op in memory.
    pub fn fsync(&mut self) -> (r: Result<(), StorageError>)
        requires
            old(self).wf(),
        ensures
            *final(self) == *old(self),
            r is Ok,
    {
        Ok(())
    }
}

} // verus!
