//! Verification boundary for complete encoded CASC objects.
//!
//! Byte acquisition remains owned by local spans and CDN transports. This
//! module owns the invariant shared by both: no decoded bytes leave the
//! boundary until their BLTE framing, optional decoded length, and optional
//! CKey have all been verified. EKeys select encoded representations, but are
//! not the MD5 of the stored bare BLTE bytes in SC:R and therefore cannot be
//! recomputed at this boundary.

use vstd::prelude::*;
use vstd::string::StringExecFns;

use crate::blte;
use crate::blte::ReadLimits;
use crate::bytes;
use crate::digest;
use crate::error;
use crate::error::CascError;
use crate::error::ErrorView;
use crate::keys::ContentKey;
use crate::text;

verus! {

/// What is known of an object before it is read.
#[derive(Debug, Clone, Copy)]
pub struct ExpectedObject<'a> {
    pub ckey: Option<&'a ContentKey>,
    pub decoded_size: Option<u64>,
}

/// The content of an [`ExpectedObject`].
pub struct ExpectedView {
    pub ckey: Option<Seq<u8>>,
    pub size: Option<nat>,
}

impl<'a> View for ExpectedObject<'a> {
    type V = ExpectedView;

    open spec fn view(&self) -> ExpectedView {
        ExpectedView {
            ckey: match self.ckey {
                Some(k) => Some(k@),
                None => None,
            },
            size: match self.decoded_size {
                Some(n) => Some(n as nat),
                None => None,
            },
        }
    }
}

/// Whether an object of the expected size may be read at all.
pub open spec fn size_status(expected: ExpectedView, limits: ReadLimits) -> Result<(), ErrorView> {
    if expected.size is Some && expected.size->0 > limits.max_decoded_bytes {
        Err(error::limit_view("decoded object"@, limits.max_decoded_bytes as nat))
    } else {
        Ok(())
    }
}

/// Whether decoded bytes are what was expected.
pub open spec fn checked(content: Seq<u8>, expected: ExpectedView) -> Result<Seq<u8>, ErrorView> {
    if expected.size is Some && content.len() != expected.size->0 {
        Err(
            error::malformed_view(
                "decoded content"@,
                "length "@ + text::dec(content.len()) + " does not match expected size "@
                    + text::dec(expected.size->0),
            ),
        )
    } else if expected.ckey is Some && digest::digest(content) != expected.ckey->0 {
        Err(ErrorView::ChecksumMismatch("decoded content (CKey)"@))
    } else {
        Ok(content)
    }
}

/// What acquired bytes give, where a framing prefix of `prefix` bytes stands
/// before the encoded object.
pub open spec fn verified(
    acquired: Seq<u8>,
    expected: ExpectedView,
    limits: ReadLimits,
    prefix: nat,
) -> Result<Seq<u8>, ErrorView> {
    let encoded = acquired.subrange(prefix as int, acquired.len() as int);
    if prefix > acquired.len() {
        Err(error::malformed_view("encoded object"@, "framing prefix exceeds acquired bytes"@))
    } else if encoded.len() > limits.max_encoded_bytes {
        Err(error::limit_view("encoded object"@, limits.max_encoded_bytes as nat))
    } else {
        match blte::decoded(encoded, 0, limits, limits.max_decoded_bytes as nat) {
            Err(e) => Err(e),
            Ok(content) => checked(content, expected),
        }
    }
}

/// Verifies and decodes acquired bytes.
pub fn verify_acquired(
    acquired: &[u8],
    expected: ExpectedObject<'_>,
    limits: ReadLimits,
    prefix_len: usize,
) -> (r: Result<Vec<u8>, CascError>)
    ensures
        error::outcome(r) == verified(acquired@, expected@, limits, prefix_len as nat),
{
    if prefix_len > acquired.len() {
        return Err(
            CascError::malformed("encoded object", "framing prefix exceeds acquired bytes"),
        );
    }
    let encoded = bytes::cut(acquired, prefix_len, acquired.len());
    if encoded.len() > limits.max_encoded_bytes {
        return Err(CascError::limit("encoded object", limits.max_encoded_bytes));
    }
    let decoded = match blte::decode_with_limits(encoded, limits) {
        Ok(v) => v,
        Err(e) => {
            return Err(e);
        },
    };
    if let Some(expected_size) = expected.decoded_size {
        if decoded.len() as u64 != expected_size {
            let mut reason = "length ".to_owned();
            reason.append(text::dec_text(decoded.len() as u64).as_str());
            reason.append(" does not match expected size ");
            reason.append(text::dec_text(expected_size).as_str());
            return Err(CascError::malformed("decoded content", reason.as_str()));
        }
    }
    if let Some(ckey) = expected.ckey {
        let actual_ckey = digest::md5_of(decoded.as_slice());
        if !text::same_bytes(actual_ckey.as_slice(), ckey.0.as_slice()) {
            return Err(CascError::ChecksumMismatch("decoded content (CKey)"));
        }
    }
    Ok(decoded)
}

/// Checks that an object of the expected size may be read at all.
pub fn check_size(expected: ExpectedObject<'_>, limits: ReadLimits) -> (r: Result<(), CascError>)
    ensures
        error::status(r) == size_status(expected@, limits),
{
    if let Some(size) = expected.decoded_size {
        if size > limits.max_decoded_bytes as u64 {
            return Err(CascError::limit("decoded object", limits.max_decoded_bytes));
        }
    }
    Ok(())
}

/// Acquires and verifies one encoded CASC object.
///
/// The acquisition callback receives the maximum accepted encoded byte count
/// and must enforce it before allocating. The returned length is checked a
/// second time defensively.
pub fn read_verified<F: FnOnce(usize) -> Result<Vec<u8>, CascError>>(
    expected: ExpectedObject<'_>,
    limits: ReadLimits,
    acquire: F,
) -> (r: Result<Vec<u8>, CascError>)
    requires
        call_requires(acquire, (limits.max_encoded_bytes,)),
    ensures
        read_outcome(acquire, expected@, limits, 0, error::outcome(r)),
{
    read_verified_prefixed(expected, limits, 0, acquire)
}

/// `out` is what reading an object gives, where its bytes come from
/// `acquire`: an object known to be too large is refused, and otherwise the
/// result is the verdict on whatever `acquire` returns under the limit.
pub open spec fn read_outcome<F: FnOnce(usize) -> Result<Vec<u8>, CascError>>(
    acquire: F,
    expected: ExpectedView,
    limits: ReadLimits,
    prefix: nat,
    out: Result<Seq<u8>, ErrorView>,
) -> bool {
    match size_status(expected, limits) {
        Err(e) => out == Err::<Seq<u8>, ErrorView>(e),
        Ok(_) => exists|a: Result<Vec<u8>, CascError>|
            {
                &&& #[trigger] call_ensures(acquire, (limits.max_encoded_bytes,), a)
                &&& out == (match a {
                    Err(e) => Err(e@),
                    Ok(v) => verified(v@, expected, limits, prefix),
                })
            },
    }
}

/// Variant for containers such as local CASC spans where a small framing
/// prefix is acquired together with the BLTE bytes. Keeping the prefix in the
/// same allocation avoids a second positioned read without shifting the
/// entire encoded object in memory.
pub fn read_verified_prefixed<F: FnOnce(usize) -> Result<Vec<u8>, CascError>>(
    expected: ExpectedObject<'_>,
    limits: ReadLimits,
    prefix_len: usize,
    acquire: F,
) -> (r: Result<Vec<u8>, CascError>)
    requires
        call_requires(acquire, (limits.max_encoded_bytes,)),
    ensures
        read_outcome(acquire, expected@, limits, prefix_len as nat, error::outcome(r)),
{
    match check_size(expected, limits) {
        Ok(_) => {},
        Err(e) => {
            return Err(e);
        },
    }
    let acquired = acquire(limits.max_encoded_bytes);
    match acquired {
        Ok(v) => verify_acquired(v.as_slice(), expected, limits, prefix_len),
        Err(e) => Err(e),
    }
}

// ---------------------------------------------------------------------
// Laws

/// No bytes leave the boundary unverified: what is returned has the expected
/// content key and length, and is within the limits.
pub proof fn law_verified(
    acquired: Seq<u8>,
    expected: ExpectedView,
    limits: ReadLimits,
    prefix: nat,
)
    ensures
        verified(acquired, expected, limits, prefix) matches Ok(content) ==> {
            &&& expected.ckey is Some ==> digest::digest(content) == expected.ckey->0
            &&& expected.size is Some ==> content.len() == expected.size->0
            &&& content.len() <= limits.max_decoded_bytes
            &&& acquired.len() - prefix <= limits.max_encoded_bytes
        },
{
    let encoded = acquired.subrange(prefix as int, acquired.len() as int);
    blte::law_output_within_limit(encoded, 0, limits, limits.max_decoded_bytes as nat);
}

/// Bytes behind a framing prefix that decode to content of the expected
/// length and key are accepted, and that content is the result; any other
/// length is malformed, and any other key a mismatch.
pub proof fn law_verdicts(
    frame: Seq<u8>,
    encoded: Seq<u8>,
    expected: ExpectedView,
    limits: ReadLimits,
    content: Seq<u8>,
)
    requires
        encoded.len() <= limits.max_encoded_bytes,
        blte::decoded(encoded, 0, limits, limits.max_decoded_bytes as nat) == Ok::<
            Seq<u8>,
            ErrorView,
        >(content),
    ensures
        ({
            let v = verified(frame + encoded, expected, limits, frame.len());
            let long = expected.size matches Some(n) && n != content.len();
            let other = expected.ckey matches Some(k) && k != digest::digest(content);
            &&& !long && !other ==> v == Ok::<Seq<u8>, ErrorView>(content)
            &&& long ==> (v matches Err(e) && e is Malformed)
            &&& !long && other ==> (v matches Err(e) && e is ChecksumMismatch)
        }),
{
    let acquired = frame + encoded;
    assert(acquired.subrange(frame.len() as int, acquired.len() as int) =~= encoded);
}

/// Bytes shorter than their framing prefix are malformed, encoded bytes
/// beyond their limit exceed it, and an object that is known to be larger
/// than may be decoded is not read at all.
pub proof fn law_object_limits(
    acquired: Seq<u8>,
    expected: ExpectedView,
    limits: ReadLimits,
    prefix: nat,
)
    ensures
        prefix > acquired.len() ==> (verified(acquired, expected, limits, prefix) matches Err(e)
            && e is Malformed),
        prefix <= acquired.len() && acquired.len() - prefix > limits.max_encoded_bytes ==> (
        verified(acquired, expected, limits, prefix) matches Err(
            ErrorView::LimitExceeded { limit, .. },
        ) && limit == limits.max_encoded_bytes),
        size_status(expected, limits) is Err <==> (expected.size matches Some(n) && n
            > limits.max_decoded_bytes),
        size_status(expected, limits) matches Err(e) ==> (e matches ErrorView::LimitExceeded {
            limit,
            ..
        } && limit == limits.max_decoded_bytes),
{
}

} // verus!
