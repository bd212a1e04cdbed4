//! The archives of a storage, opened when they are first read.

use std::sync::Arc;
use std::sync::OnceLock;

use vstd::prelude::*;

use crate::error::CascError;
use crate::idx::LocalIndex;
use crate::io::StorageProvider;
use crate::text;

verus! {

/// Where the archive with the given number lies.
pub open spec fn archive_path(archive: u16) -> Seq<char> {
    "Data/data/data."@ + text::dec3(archive as nat)
}

// ---------------------------------------------------------------------
// What is taken from the standard library

/// `std::sync::OnceLock`, a place that is filled at most once.
#[verifier::external_type_specification]
#[verifier::external_body]
#[verifier::reject_recursive_types(T)]
pub struct ExOnceLock<T>(std::sync::OnceLock<T>);

/// `OnceLock::new` makes a place. What it holds is no part of the value that
/// Verus sees, so nothing is said of the result.
pub assume_specification<T>[ OnceLock::<T>::new ]() -> (lock: OnceLock<T>);

/// `OnceLock::get` hands out what the place holds, where it has been filled.
/// Another thread may have filled it, so nothing is said of the result.
#[verifier::external_body]
fn filled<T>(lock: &OnceLock<T>) -> (r: Option<&T>) {
    lock.get()
}

/// `OnceLock::set` fills the place, and hands the value back where it is
/// filled already.
pub assume_specification<T>[ OnceLock::<T>::set ](lock: &OnceLock<T>, value: T) -> (r: Result<
    (),
    T,
>)
    ensures
        r matches Err(v) ==> v == value,
;

/// `Arc::ptr_eq` tells whether two pointers point to one allocation; where
/// they do, what they point to is the same.
#[verifier::external_body]
fn same_allocation<T>(a: &Arc<T>, b: &Arc<T>) -> (r: bool)
    ensures
        r ==> *a == *b,
{
    Arc::ptr_eq(a, b)
}

/// An archive as a provider has opened it. It names its provider, so that an
/// archive found in a slot can be told to come from the provider at hand.
pub struct OpenArchive<P: StorageProvider> {
    provider: Arc<P>,
    number: u16,
    file: P::File,
}

impl<P: StorageProvider> OpenArchive<P> {
    /// The provider gives this file for the archive.
    #[verifier::type_invariant]
    spec fn is_given(&self) -> bool {
        self.provider.gives(archive_path(self.number), self.file)
    }

    /// The file of the archive.
    pub closed spec fn content(&self) -> P::File {
        self.file
    }

    /// The file of the archive.
    pub fn file(&self) -> (f: &P::File)
        ensures
            *f == self.content(),
    {
        &self.file
    }
}

/// A provider, with the archives that it has opened.
///
/// What the slots hold changes behind `&self`, so it is no part of the
/// contracts: they say what a file that is handed out can be, not how often
/// the provider is asked for it.
#[verifier::reject_recursive_types(P)]
pub struct Archives<P: StorageProvider> {
    provider: Arc<P>,
    /// The open archive of each number that the index names.
    slots: Vec<OnceLock<Arc<OpenArchive<P>>>>,
}

impl<P: StorageProvider> Archives<P> {
    /// The provider of the archives.
    pub closed spec fn source(&self) -> P {
        *self.provider
    }

    /// The archive with the given number, where it is open.
    fn kept(&self, number: u16) -> (r: Option<Arc<OpenArchive<P>>>)
        ensures
            r matches Some(a) ==> self.source().gives(archive_path(number), a.content()),
    {
        if number as usize >= self.slots.len() {
            return None;
        }
        match filled(&self.slots[number as usize]) {
            Some(a) => {
                let archive: &OpenArchive<P> = &**a;
                proof {
                    use_type_invariant(archive);
                }
                if archive.number == number && same_allocation(&archive.provider, &self.provider) {
                    Some(Arc::clone(a))
                } else {
                    None
                }
            },
            None => None,
        }
    }

    /// Keeps an archive open, unless one with its number is open already.
    fn keep(&self, archive: Arc<OpenArchive<P>>) {
        let at = archive.number as usize;
        if at < self.slots.len() {
            let _ = self.slots[at].set(archive);
        }
    }

    /// The archive with the given number, which is opened where it is not
    /// open yet. Concurrent misses may open it more than once; only one of
    /// the files is kept.
    pub fn open(&self, number: u16) -> (r: Result<Arc<OpenArchive<P>>, CascError>)
        ensures
            match r {
                Ok(a) => self.source().gives(archive_path(number), a.content()),
                Err(e) => self.source().refuses(archive_path(number), e@),
            },
    {
        if let Some(a) = self.kept(number) {
            return Ok(a);
        }
        let digits = text::dec3_text(number as u64);
        let path = text::cat2("Data/data/data.", digits.as_str());
        let file = match self.provider.open(path.as_str()) {
            Ok(f) => f,
            Err(e) => {
                return Err(e);
            },
        };
        let archive = Arc::new(OpenArchive { provider: Arc::clone(&self.provider), number, file });
        self.keep(Arc::clone(&archive));
        match self.kept(number) {
            Some(a) => Ok(a),
            None => Ok(archive),
        }
    }

    /// No archive is open yet; those that the index names will be kept open.
    pub fn new(provider: P, index: &LocalIndex) -> (a: Archives<P>)
        requires
            index.wf(),
        ensures
            a.source() == provider,
    {
        let entries = index.entries();
        let mut count: usize = 0;
        let mut i: usize = 0;
        while i < entries.len()
            invariant
                0 <= i <= entries@.len(),
                count <= 0x10000,
            decreases entries@.len() - i,
        {
            let number = entries[i].1.archive as usize;
            if number >= count {
                count = number + 1;
            }
            i += 1;
        }
        let mut slots: Vec<OnceLock<Arc<OpenArchive<P>>>> = Vec::new();
        let mut n: usize = 0;
        while n < count
            decreases count - n,
        {
            slots.push(OnceLock::new());
            n += 1;
        }
        Archives { provider: Arc::new(provider), slots }
    }
}

} // verus!
