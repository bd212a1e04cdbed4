//! Storage access abstractions.
//!
//! All reads from the underlying CASC storage go through [`ReadAt`] and
//! [`StorageProvider`], so the core library never touches the filesystem
//! directly. Native users get a `std::fs` implementation from the
//! application; WASM users can implement these traits over whatever byte
//! source they have (OPFS sync access handles, in-memory buffers, ...).

use vstd::prelude::*;

use crate::error::CascError;
use crate::error::ErrorView;
use crate::error::IoError;
use crate::error::IoErrorKind;
use crate::text;

verus! {

/// Positioned reads from an immutable byte source.
///
/// Implementations must be usable through `&self` (concurrent readers may
/// share one handle), which is why this is not `std::io::Read`.
///
/// An implementation says what its methods can give by the relations
/// [`reads`](Self::reads), [`measures`](Self::measures),
/// [`read_fails`](Self::read_fails) and [`len_fails`](Self::len_fails); one
/// that leaves a relation out may give anything there.
pub trait ReadAt {
    /// Reading at `offset` can give these bytes.
    open spec fn reads(&self, offset: nat, bytes: Seq<u8>) -> bool {
        true
    }

    /// The length can be `n`.
    open spec fn measures(&self, n: nat) -> bool {
        true
    }

    /// Reading `len` bytes at `offset` can fail with this error.
    open spec fn read_fails(&self, offset: nat, len: nat, e: ErrorView) -> bool {
        true
    }

    /// Asking for the length can fail with this error.
    open spec fn len_fails(&self, e: ErrorView) -> bool {
        true
    }

    /// Reads exactly `buf.len()` bytes starting at `offset`, failing if the
    /// source ends first.
    fn read_exact_at(&self, offset: u64, buf: &mut [u8]) -> (r: Result<(), CascError>)
        ensures
            final(buf)@.len() == old(buf)@.len(),
            match r {
                Ok(_) => self.reads(offset as nat, final(buf)@),
                Err(e) => self.read_fails(offset as nat, old(buf)@.len(), e@),
            },
    ;

    /// Total length of the source in bytes.
    fn len(&self) -> (r: Result<u64, CascError>)
        ensures
            match r {
                Ok(n) => self.measures(n as nat),
                Err(e) => self.len_fails(e@),
            },
    ;

    fn is_empty(&self) -> (r: Result<bool, CascError>)
        ensures
            match r {
                Ok(b) => exists|n: nat| #[trigger] self.measures(n) && b == (n == 0),
                Err(e) => self.len_fails(e@),
            },
    {
        match self.len() {
            Ok(n) => Ok(n == 0),
            Err(e) => Err(e),
        }
    }

    /// Reads `len` bytes at `offset` into a new `Vec`.
    fn read_vec_at(&self, offset: u64, len: usize) -> (r: Result<Vec<u8>, CascError>)
        ensures
            match r {
                Ok(v) => v@.len() == len && self.reads(offset as nat, v@),
                Err(e) => self.read_fails(offset as nat, len as nat, e@),
            },
    {
        let mut buf: Vec<u8> = vec![0u8; len];
        match self.read_exact_at(offset, buf.as_mut_slice()) {
            Ok(_) => Ok(buf),
            Err(e) => Err(e),
        }
    }
}

/// `bytes` stand in `data` at `offset`.
pub open spec fn is_part(data: Seq<u8>, offset: nat, bytes: Seq<u8>) -> bool {
    &&& offset + bytes.len() <= data.len()
    &&& bytes == data.subrange(offset as int, (offset + bytes.len()) as int)
}

/// The error for a source that ends before the requested bytes.
pub open spec fn eof_view() -> ErrorView {
    ErrorView::Io { kind: IoErrorKind::UnexpectedEof, message: "unexpected end of file"@ }
}

fn eof_error() -> (e: CascError)
    ensures
        e@ == eof_view(),
{
    CascError::Io(
        IoError {
            kind: IoErrorKind::UnexpectedEof,
            message: "unexpected end of file".to_owned(),
        },
    )
}

/// Copies bytes of `data` at `offset` into `buf`.
fn read_slice(data: &[u8], offset: u64, buf: &mut [u8]) -> (r: Result<(), CascError>)
    ensures
        final(buf)@.len() == old(buf)@.len(),
        match r {
            Ok(_) => offset + old(buf)@.len() <= data@.len() && final(buf)@ == data@.subrange(
                offset as int,
                offset + old(buf)@.len(),
            ),
            Err(e) => offset + old(buf)@.len() > data@.len() && e@ == eof_view() && final(buf)@
                == old(buf)@,
        },
{
    let n: usize = buf.len();
    if offset > data.len() as u64 {
        return Err(eof_error());
    }
    let start: usize = offset as usize;
    if n > data.len() - start {
        return Err(eof_error());
    }
    let mut i: usize = 0;
    while i < n
        invariant
            0 <= i <= n == buf@.len() == old(buf)@.len(),
            start + n <= data@.len() <= usize::MAX,
            forall|j: int| 0 <= j < i ==> buf@[j] == data@[start + j],
        decreases n - i,
    {
        buf[i] = data[start + i];
        i += 1;
    }
    assert(buf@ =~= data@.subrange(offset as int, offset + n));
    Ok(())
}

impl ReadAt for [u8] {
    open spec fn reads(&self, offset: nat, bytes: Seq<u8>) -> bool {
        is_part(self@, offset, bytes)
    }

    open spec fn measures(&self, n: nat) -> bool {
        n == self@.len()
    }

    open spec fn read_fails(&self, offset: nat, len: nat, e: ErrorView) -> bool {
        offset + len > self@.len() && e == eof_view()
    }

    open spec fn len_fails(&self, e: ErrorView) -> bool {
        false
    }

    fn read_exact_at(&self, offset: u64, buf: &mut [u8]) -> (r: Result<(), CascError>)
        ensures
            r is Ok <==> offset + old(buf)@.len() <= self@.len(),
            r is Err ==> final(buf)@ == old(buf)@,
    {
        read_slice(self, offset, buf)
    }

    fn len(&self) -> (r: Result<u64, CascError>) {
        Ok(<[u8]>::len(self) as u64)
    }
}

impl ReadAt for Vec<u8> {
    open spec fn reads(&self, offset: nat, bytes: Seq<u8>) -> bool {
        is_part(self@, offset, bytes)
    }

    open spec fn measures(&self, n: nat) -> bool {
        n == self@.len()
    }

    open spec fn read_fails(&self, offset: nat, len: nat, e: ErrorView) -> bool {
        offset + len > self@.len() && e == eof_view()
    }

    open spec fn len_fails(&self, e: ErrorView) -> bool {
        false
    }

    fn read_exact_at(&self, offset: u64, buf: &mut [u8]) -> (r: Result<(), CascError>)
        ensures
            r is Ok <==> offset + old(buf)@.len() <= self@.len(),
            r is Err ==> final(buf)@ == old(buf)@,
    {
        read_slice(self.as_slice(), offset, buf)
    }

    fn len(&self) -> (r: Result<u64, CascError>) {
        Ok(self.as_slice().len() as u64)
    }
}

impl<T: ReadAt + ?Sized> ReadAt for &T {
    open spec fn reads(&self, offset: nat, bytes: Seq<u8>) -> bool {
        (**self).reads(offset, bytes)
    }

    open spec fn measures(&self, n: nat) -> bool {
        (**self).measures(n)
    }

    open spec fn read_fails(&self, offset: nat, len: nat, e: ErrorView) -> bool {
        (**self).read_fails(offset, len, e)
    }

    open spec fn len_fails(&self, e: ErrorView) -> bool {
        (**self).len_fails(e)
    }

    fn read_exact_at(&self, offset: u64, buf: &mut [u8]) -> (r: Result<(), CascError>) {
        (**self).read_exact_at(offset, buf)
    }

    fn len(&self) -> (r: Result<u64, CascError>) {
        (**self).len()
    }
}

/// Reading the whole of a file into memory can fail with this error.
pub open spec fn whole_fails<F: ReadAt>(f: F, e: ErrorView) -> bool {
    ||| f.len_fails(e)
    ||| exists|n: nat| #[trigger] f.measures(n) && f.read_fails(0, n, e)
    ||| exists|n: nat| #[trigger]
        f.measures(n) && n > usize::MAX && e == crate::error::limit_view(
            "file in memory"@,
            usize::MAX as nat,
        )
}

/// Provides access to the files that make up a CASC storage.
///
/// Paths are relative to the install directory and always use `/` as the
/// separator (e.g. `"Data/data/000000001b.idx"`,
/// `"Data/config/86/47/864772b9..."`).
///
/// An implementation says what it may hand out by the relations
/// [`gives`](Self::gives), [`refuses`](Self::refuses) and
/// [`lists`](Self::lists); one that leaves a relation out may give anything.
pub trait StorageProvider {
    type File: ReadAt;

    /// Opening `path` can give `file`.
    open spec fn gives(&self, path: Seq<char>, file: Self::File) -> bool {
        true
    }

    /// Opening `path` can fail with this error.
    open spec fn refuses(&self, path: Seq<char>, e: ErrorView) -> bool {
        true
    }

    /// Listing the directory `path` can give these outcomes.
    open spec fn lists(&self, path: Seq<char>, r: Result<Seq<Seq<char>>, ErrorView>) -> bool {
        true
    }

    /// Opens a file for positioned reads (used for the large `data.###`
    /// archives).
    fn open(&self, path: &str) -> (r: Result<Self::File, CascError>)
        ensures
            match r {
                Ok(f) => self.gives(path@, f),
                Err(e) => self.refuses(path@, e@),
            },
    ;

    /// Reads an entire file into memory (used for configs and indices, which
    /// are small).
    fn read(&self, path: &str) -> (r: Result<Vec<u8>, CascError>)
        ensures
            match r {
                Ok(v) => exists|f: Self::File| #[trigger]
                    self.gives(path@, f) && f.measures(v@.len()) && f.reads(0, v@),
                Err(e) => self.refuses(path@, e@) || exists|f: Self::File| #[trigger]
                    self.gives(path@, f) && whole_fails(f, e@),
            },
    {
        let file = match self.open(path) {
            Ok(f) => f,
            Err(e) => {
                return Err(e);
            },
        };
        let len = match file.len() {
            Ok(n) => n,
            Err(e) => {
                return Err(e);
            },
        };
        if len > usize::MAX as u64 {
            return Err(CascError::limit("file in memory", usize::MAX));
        }
        match file.read_vec_at(0, len as usize) {
            Ok(v) => Ok(v),
            Err(e) => {
                assert(file.measures(len as nat));
                Err(e)
            },
        }
    }

    /// Lists the file names (not full paths) in a directory. Returns an empty
    /// list if the directory doesn't exist.
    fn list_dir(&self, path: &str) -> (r: Result<Vec<String>, CascError>)
        ensures
            match r {
                Ok(v) => self.lists(path@, Ok(text::texts(v@))),
                Err(e) => self.lists(path@, Err(e@)),
            },
    ;
}

/// What is read at an offset is the bytes of the source from there on, one by
/// one, and lies in the source as a whole; a source in memory has the length
/// of its bytes, and nothing but a read past its end fails, as an unexpected
/// end.
pub proof fn law_memory_reads(data: Vec<u8>, offset: nat, bytes: Seq<u8>, n: nat, e: ErrorView)
    ensures
        data.reads(offset, bytes) <==> offset + bytes.len() <= data@.len() && forall|i: int|
            0 <= i < bytes.len() ==> #[trigger] bytes[i] == data@[offset + i],
        data.measures(n) <==> n == data@.len(),
        !data.len_fails(e),
        data.read_fails(offset, n, e) ==> offset + n > data@.len() && (e matches ErrorView::Io {
            kind,
            ..
        } && kind is UnexpectedEof),
{
    if offset + bytes.len() <= data@.len() {
        let part = data@.subrange(offset as int, (offset + bytes.len()) as int);
        if bytes == part {
            assert forall|i: int| 0 <= i < bytes.len() implies #[trigger] bytes[i] == data@[offset
                + i] by {
                assert(part[i] == data@[offset + i]);
            }
        }
        if forall|i: int| 0 <= i < bytes.len() ==> #[trigger] bytes[i] == data@[offset + i] {
            assert(bytes =~= part);
        }
    }
}

} // verus!
