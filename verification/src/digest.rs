//! MD5 digests of byte strings.

use md5::Digest;
use md5::Md5;
use vstd::prelude::*;

use crate::error::CascError;
use crate::error::ErrorView;
use crate::keys::ContentKey;
use crate::text;

verus! {

/// The MD5 digest of `data`.
pub uninterp spec fn md5(data: Seq<u8>) -> Seq<u8>;

/// The 16 bytes of the MD5 digest of `data`.
pub open spec fn digest(data: Seq<u8>) -> Seq<u8> {
    Seq::new(16, |i: int| md5(data)[i])
}

/// `Md5::digest` of the md-5 crate hashes the whole of `data`; its 16 bytes
/// depend on `data` alone.
#[verifier::external_body]
fn md5_bytes(data: &[u8]) -> (d: [u8; 16])
    ensures
        d@ == md5(data@),
{
    Md5::digest(data).into()
}

/// Computes the MD5 digest of `data`.
pub fn md5_of(data: &[u8]) -> (d: [u8; 16])
    ensures
        d@ == digest(data@),
{
    let d = md5_bytes(data);
    assert(d@ =~= digest(data@));
    d
}

/// What the check of raw bytes against a content key returns.
pub open spec fn raw_ckey_status(bytes: Seq<u8>, key: Seq<u8>, what: Seq<char>) -> Result<
    (),
    ErrorView,
> {
    if digest(bytes) == key {
        Ok(())
    } else {
        Err(ErrorView::ChecksumMismatch(what))
    }
}

/// Checks that `bytes` are the content that `expected` names.
pub fn verify_raw_ckey(bytes: &[u8], expected: &ContentKey, what: &'static str) -> (r: Result<
    (),
    CascError,
>)
    ensures
        crate::error::status(r) == raw_ckey_status(bytes@, expected@, what@),
{
    let actual = md5_of(bytes);
    if text::same_bytes(actual.as_slice(), expected.0.as_slice()) {
        Ok(())
    } else {
        Err(CascError::ChecksumMismatch(what))
    }
}

/// Bytes are taken for what a key names exactly where their digest is the
/// key.
pub proof fn law_raw_content(bytes: Seq<u8>, key: Seq<u8>, what: Seq<char>)
    ensures
        raw_ckey_status(bytes, digest(bytes), what) is Ok,
        key != digest(bytes) ==> raw_ckey_status(bytes, key, what) == Err::<(), ErrorView>(
            ErrorView::ChecksumMismatch(what),
        ),
        digest(bytes).len() == 16,
{
}

/// A digest is the sixteen bytes of the MD5, in their order.
pub proof fn law_digest_bytes(data: Seq<u8>, i: int)
    requires
        0 <= i < 16,
    ensures
        digest(data).len() == 16,
        digest(data)[i] == md5(data)[i],
{
}

} // verus!
