//! Key types used throughout CASC storage.
//!
//! A [`ContentKey`] (CKey) is the MD5 of a file's decoded contents; it's what
//! the root file maps names to. An [`EncodingKey`] (EKey) is the MD5 of the
//! encoded (BLTE) representation; it's what indices and archives are addressed
//! by. The encoding file maps CKeys to EKeys. Local `.idx` indices store only
//! the first 9 bytes of an EKey ([`TruncatedKey`]).

use vstd::prelude::*;
use vstd::std_specs::convert::FromSpecImpl;

use crate::bytes;
use crate::error::CascError;
use crate::error::ErrorView;
use crate::text;

verus! {

/// MD5 of a file's decoded contents ("CKey").
#[derive(Debug, Copy, Clone, PartialEq, Eq, Hash, PartialOrd, Ord)]
pub struct ContentKey(pub [u8; 16]);

/// MD5 of a file's encoded (BLTE) representation ("EKey").
#[derive(Debug, Copy, Clone, PartialEq, Eq, Hash, PartialOrd, Ord)]
pub struct EncodingKey(pub [u8; 16]);

/// The 9-byte EKey prefix stored in local `.idx` indices.
#[derive(Debug, Copy, Clone, PartialEq, Eq, Hash, PartialOrd, Ord)]
pub struct TruncatedKey(pub [u8; 9]);

impl View for ContentKey {
    type V = Seq<u8>;

    open spec fn view(&self) -> Seq<u8> {
        self.0@
    }
}

impl View for EncodingKey {
    type V = Seq<u8>;

    open spec fn view(&self) -> Seq<u8> {
        self.0@
    }
}

impl View for TruncatedKey {
    type V = Seq<u8>;

    open spec fn view(&self) -> Seq<u8> {
        self.0@
    }
}

// ---------------------------------------------------------------------
// Hexadecimal

/// The value of a hexadecimal digit in either case, given as an ASCII byte.
pub open spec fn hex_value(c: u8) -> Option<u8> {
    if 0x30 <= c <= 0x39 {
        Some((c - 0x30) as u8)
    } else if 0x61 <= c <= 0x66 {
        Some((c - 0x61 + 10) as u8)
    } else if 0x41 <= c <= 0x46 {
        Some((c - 0x41 + 10) as u8)
    } else {
        None
    }
}

/// Every byte of `s` is a hexadecimal digit.
pub open spec fn all_hex(s: Seq<u8>) -> bool {
    forall|i: int| 0 <= i < s.len() ==> hex_value(#[trigger] s[i]) is Some
}

/// The bytes that pairs of hexadecimal digits spell.
pub open spec fn hex_bytes(s: Seq<u8>) -> Seq<u8> {
    Seq::new(
        s.len() / 2,
        |i: int| (hex_value(s[2 * i])->0 * 16 + hex_value(s[2 * i + 1])->0) as u8,
    )
}

/// What parsing `s` as the hexadecimal form of a key of `n` bytes gives.
pub open spec fn key_from_hex(s: Seq<char>, n: nat, what: Seq<char>) -> Result<
    Seq<u8>,
    ErrorView,
> {
    let b = vstd::utf8::encode_utf8(s);
    if b.len() != 2 * n {
        Err(ErrorView::Malformed { what, reason: "wrong hex length"@ })
    } else if !all_hex(b) {
        Err(ErrorView::Malformed { what, reason: "invalid hex"@ })
    } else {
        Ok(hex_bytes(b))
    }
}

/// The lowercase hexadecimal form of a key.
pub open spec fn key_hex(key: Seq<u8>) -> Seq<char> {
    Seq::new(
        2 * key.len(),
        |i: int| text::digit(if i % 2 == 0 { key[i / 2] as int / 16 } else { key[i / 2] as int % 16 }),
    )
}

/// What reading a key of `n` bytes from a byte string gives.
pub open spec fn key_from_bytes(b: Seq<u8>, n: nat, what: Seq<char>) -> Result<
    Seq<u8>,
    ErrorView,
> {
    if b.len() != n {
        Err(ErrorView::Malformed { what, reason: "wrong key length"@ })
    } else {
        Ok(b)
    }
}

pub fn hex_val(c: u8) -> (v: Option<u8>)
    ensures
        v == hex_value(c),
        v matches Some(d) ==> d < 16,
{
    if 0x30 <= c && c <= 0x39 {
        Some(c - 0x30)
    } else if 0x61 <= c && c <= 0x66 {
        Some(c - 0x61 + 10)
    } else if 0x41 <= c && c <= 0x46 {
        Some(c - 0x41 + 10)
    } else {
        None
    }
}

/// Parses the `2 * n` hexadecimal digits of a key.
fn parse_hex(s: &str, n: usize, what: &'static str) -> (r: Result<Vec<u8>, CascError>)
    requires
        n <= 16,
    ensures
        crate::error::outcome(r) == key_from_hex(s@, n as nat, what@),
        r matches Ok(v) ==> v@.len() == n,
{
    let b = s.as_bytes();
    if b.len() != 2 * n {
        return Err(CascError::malformed(what, "wrong hex length"));
    }
    let mut out: Vec<u8> = Vec::new();
    let mut i: usize = 0;
    while i < n
        invariant
            0 <= i <= n <= 16,
            b@ == vstd::utf8::encode_utf8(s@),
            b@.len() == 2 * n,
            out@.len() == i,
            forall|j: int| 0 <= j < 2 * i ==> hex_value(#[trigger] b@[j]) is Some,
            forall|j: int| 0 <= j < i ==> out@[j] == hex_bytes(b@)[j],
        decreases n - i,
    {
        let hi = match hex_val(b[2 * i]) {
            Some(d) => d,
            None => {
                return Err(CascError::malformed(what, "invalid hex"));
            },
        };
        let lo = match hex_val(b[2 * i + 1]) {
            Some(d) => d,
            None => {
                return Err(CascError::malformed(what, "invalid hex"));
            },
        };
        out.push(hi * 16 + lo);
        i += 1;
    }
    assert(all_hex(b@));
    assert(out@ =~= hex_bytes(b@));
    Ok(out)
}

/// The lowercase hexadecimal form of `key`.
fn hex_string(key: &[u8]) -> (s: String)
    ensures
        s@ == key_hex(key@),
{
    let mut s = String::new();
    let mut i: usize = 0;
    while i < key.len()
        invariant
            0 <= i <= key@.len(),
            s@ == key_hex(key@.subrange(0, i as int)),
        decreases key@.len() - i,
    {
        s.push(text::digit_char(key[i] / 16));
        s.push(text::digit_char(key[i] % 16));
        i += 1;
        assert(s@ =~= key_hex(key@.subrange(0, i as int)));
    }
    assert(key@.subrange(0, i as int) =~= key@);
    s
}

/// The 16 bytes of `s` as an array.
pub fn array16(s: &[u8]) -> (a: [u8; 16])
    requires
        s@.len() == 16,
    ensures
        a@ == s@,
{
    let a: [u8; 16] = [
        s[0],
        s[1],
        s[2],
        s[3],
        s[4],
        s[5],
        s[6],
        s[7],
        s[8],
        s[9],
        s[10],
        s[11],
        s[12],
        s[13],
        s[14],
        s[15],
    ];
    assert(a@ =~= s@);
    a
}

/// The 9 bytes of `s` as an array.
pub fn array9(s: &[u8]) -> (a: [u8; 9])
    requires
        s@.len() == 9,
    ensures
        a@ == s@,
{
    let a: [u8; 9] = [s[0], s[1], s[2], s[3], s[4], s[5], s[6], s[7], s[8]];
    assert(a@ =~= s@);
    a
}

impl ContentKey {
    pub const LENGTH: usize = 16;

    pub fn as_bytes(&self) -> (b: &[u8; 16])
        ensures
            b@ == self@,
    {
        &self.0
    }

    pub fn from_slice(bytes: &[u8]) -> (r: Result<Self, CascError>)
        ensures
            crate::error::outcome(r) == key_from_bytes(bytes@, 16, "content key"@),
    {
        if bytes.len() != 16 {
            return Err(CascError::malformed("content key", "wrong key length"));
        }
        Ok(ContentKey(array16(bytes)))
    }

    /// Parses a lowercase or uppercase hex string of exactly `2 * LENGTH`
    /// characters.
    pub fn from_hex(s: &str) -> (r: Result<Self, CascError>)
        ensures
            crate::error::outcome(r) == key_from_hex(s@, 16, "content key"@),
    {
        match parse_hex(s, 16, "content key") {
            Ok(v) => Ok(ContentKey(array16(v.as_slice()))),
            Err(e) => Err(e),
        }
    }

    /// The lowercase hexadecimal form of the key.
    pub fn to_string(&self) -> (s: String)
        ensures
            s@ == key_hex(self@),
    {
        hex_string(self.0.as_slice())
    }
}

impl EncodingKey {
    pub const LENGTH: usize = 16;

    pub fn as_bytes(&self) -> (b: &[u8; 16])
        ensures
            b@ == self@,
    {
        &self.0
    }

    pub fn from_slice(bytes: &[u8]) -> (r: Result<Self, CascError>)
        ensures
            crate::error::outcome(r) == key_from_bytes(bytes@, 16, "encoding key"@),
    {
        if bytes.len() != 16 {
            return Err(CascError::malformed("encoding key", "wrong key length"));
        }
        Ok(EncodingKey(array16(bytes)))
    }

    /// Parses a lowercase or uppercase hex string of exactly `2 * LENGTH`
    /// characters.
    pub fn from_hex(s: &str) -> (r: Result<Self, CascError>)
        ensures
            crate::error::outcome(r) == key_from_hex(s@, 16, "encoding key"@),
    {
        match parse_hex(s, 16, "encoding key") {
            Ok(v) => Ok(EncodingKey(array16(v.as_slice()))),
            Err(e) => Err(e),
        }
    }

    /// The lowercase hexadecimal form of the key.
    pub fn to_string(&self) -> (s: String)
        ensures
            s@ == key_hex(self@),
    {
        hex_string(self.0.as_slice())
    }

    /// The truncated form of this key, as used by local indices.
    pub fn truncated(&self) -> (t: TruncatedKey)
        ensures
            t@ == self@.subrange(0, 9),
    {
        TruncatedKey(array9(bytes::cut(self.0.as_slice(), 0, 9)))
    }
}

impl TruncatedKey {
    pub const LENGTH: usize = 9;

    pub fn as_bytes(&self) -> (b: &[u8; 9])
        ensures
            b@ == self@,
    {
        &self.0
    }

    pub fn from_slice(bytes: &[u8]) -> (r: Result<Self, CascError>)
        ensures
            crate::error::outcome(r) == key_from_bytes(bytes@, 9, "truncated key"@),
    {
        if bytes.len() != 9 {
            return Err(CascError::malformed("truncated key", "wrong key length"));
        }
        Ok(TruncatedKey(array9(bytes)))
    }

    /// Parses a lowercase or uppercase hex string of exactly `2 * LENGTH`
    /// characters.
    pub fn from_hex(s: &str) -> (r: Result<Self, CascError>)
        ensures
            crate::error::outcome(r) == key_from_hex(s@, 9, "truncated key"@),
    {
        match parse_hex(s, 9, "truncated key") {
            Ok(v) => Ok(TruncatedKey(array9(v.as_slice()))),
            Err(e) => Err(e),
        }
    }

    /// The lowercase hexadecimal form of the key.
    pub fn to_string(&self) -> (s: String)
        ensures
            s@ == key_hex(self@),
    {
        hex_string(self.0.as_slice())
    }
}

impl FromSpecImpl<[u8; 16]> for ContentKey {
    open spec fn obeys_from_spec() -> bool {
        true
    }

    open spec fn from_spec(bytes: [u8; 16]) -> ContentKey {
        ContentKey(bytes)
    }
}

impl From<[u8; 16]> for ContentKey {
    fn from(bytes: [u8; 16]) -> (k: ContentKey) {
        ContentKey(bytes)
    }
}

impl FromSpecImpl<[u8; 16]> for EncodingKey {
    open spec fn obeys_from_spec() -> bool {
        true
    }

    open spec fn from_spec(bytes: [u8; 16]) -> EncodingKey {
        EncodingKey(bytes)
    }
}

impl From<[u8; 16]> for EncodingKey {
    fn from(bytes: [u8; 16]) -> (k: EncodingKey) {
        EncodingKey(bytes)
    }
}

impl FromSpecImpl<[u8; 9]> for TruncatedKey {
    open spec fn obeys_from_spec() -> bool {
        true
    }

    open spec fn from_spec(bytes: [u8; 9]) -> TruncatedKey {
        TruncatedKey(bytes)
    }
}

impl From<[u8; 9]> for TruncatedKey {
    fn from(bytes: [u8; 9]) -> (k: TruncatedKey) {
        TruncatedKey(bytes)
    }
}

// ---------------------------------------------------------------------
// Laws

proof fn lemma_digit(d: int)
    requires
        0 <= d < 16,
    ensures
        (text::digit(d) as u32) < 128,
        hex_value(text::digit(d) as u8) == Some(d as u8),
{
}

/// The hexadecimal form of a key reads back as the key.
pub proof fn law_hex_round_trip(key: Seq<u8>, what: Seq<char>)
    ensures
        key_from_hex(key_hex(key), key.len(), what) == Ok::<Seq<u8>, ErrorView>(key),
{
    let s = key_hex(key);
    assert forall|i: int| 0 <= i < s.len() implies 0 <= #[trigger] (s[i] as u32) < 128 by {
        lemma_digit(if i % 2 == 0 { key[i / 2] as int / 16 } else { key[i / 2] as int % 16 });
    }
    assert(vstd::utf8::is_ascii_chars(s));
    vstd::utf8::is_ascii_chars_encode_utf8(s);
    let b = vstd::utf8::encode_utf8(s);
    assert forall|i: int| 0 <= i < b.len() implies hex_value(#[trigger] b[i]) is Some by {
        lemma_digit(if i % 2 == 0 { key[i / 2] as int / 16 } else { key[i / 2] as int % 16 });
    }
    assert forall|i: int| 0 <= i < key.len() implies hex_bytes(b)[i] == key[i] by {
        lemma_digit(key[i] as int / 16);
        lemma_digit(key[i] as int % 16);
        assert(b[2 * i] == s[2 * i] as u8);
        assert(b[2 * i + 1] == s[2 * i + 1] as u8);
        assert((2 * i) % 2 == 0 && (2 * i) / 2 == i);
        assert((2 * i + 1) % 2 == 1 && (2 * i + 1) / 2 == i);
    }
    assert(hex_bytes(b) =~= key);
}

/// A key's hexadecimal form is ASCII.
pub proof fn lemma_hex_ascii(key: Seq<u8>)
    ensures
        vstd::utf8::is_ascii_chars(key_hex(key)),
        key_hex(key).len() == 2 * key.len(),
{
    let s = key_hex(key);
    assert forall|i: int| 0 <= i < s.len() implies 0 <= #[trigger] (s[i] as u32) < 128 by {
        lemma_digit(if i % 2 == 0 { key[i / 2] as int / 16 } else { key[i / 2] as int % 16 });
    }
}

/// A key's hexadecimal form has two characters for each byte, all of them
/// lowercase hexadecimal digits.
pub proof fn law_hex_form(key: Seq<u8>)
    ensures
        key_hex(key).len() == 2 * key.len(),
        forall|i: int|
            0 <= i < key_hex(key).len() ==> ('0' <= #[trigger] key_hex(key)[i] <= '9' || 'a'
                <= key_hex(key)[i] <= 'f'),
{
}

/// Two hexadecimal digits for each byte, of either case, are read as the
/// bytes that they spell, the first digit of a pair weighing sixteen times
/// the second.
pub proof fn law_hex_is_read(s: Seq<char>, d: Seq<int>, n: nat, what: Seq<char>)
    requires
        s.len() == 2 * n,
        d.len() == 2 * n,
        forall|i: int|
            0 <= i < s.len() ==> {
                ||| 0 <= d[i] <= 9 && #[trigger] s[i] as int == 0x30 + d[i]
                ||| 10 <= d[i] <= 15 && s[i] as int == 0x61 + d[i] - 10
                ||| 10 <= d[i] <= 15 && s[i] as int == 0x41 + d[i] - 10
            },
    ensures
        key_from_hex(s, n, what) == Ok::<Seq<u8>, ErrorView>(
            Seq::new(n, |i: int| (16 * d[2 * i] + d[2 * i + 1]) as u8),
        ),
{
    assert forall|i: int| 0 <= i < s.len() implies 0 <= #[trigger] (s[i] as u32) < 128 by {
        assert(s[i] as int == s[i] as int);
    }
    assert(vstd::utf8::is_ascii_chars(s));
    vstd::utf8::is_ascii_chars_encode_utf8(s);
    let b = vstd::utf8::encode_utf8(s);
    assert forall|i: int| 0 <= i < b.len() implies hex_value(#[trigger] b[i]) == Some(
        d[i] as u8,
    ) by {
        assert(b[i] == s[i] as u8);
        assert(s[i] as int == s[i] as int);
    }
    assert forall|i: int| 0 <= i < n implies #[trigger] hex_bytes(b)[i] == (16 * d[2 * i] + d[2 * i
        + 1]) as u8 by {
        assert(hex_value(b[2 * i]) == Some(d[2 * i] as u8));
        assert(hex_value(b[2 * i + 1]) == Some(d[2 * i + 1] as u8));
    }
    assert(hex_bytes(b) =~= Seq::new(n, |i: int| (16 * d[2 * i] + d[2 * i + 1]) as u8));
}

/// A text of another length than two digits for each byte is no key, and
/// neither is one that holds anything but hexadecimal digits.
pub proof fn law_other_text_is_no_key(s: Seq<char>, n: nat, what: Seq<char>, i: int)
    requires
        vstd::utf8::is_ascii_chars(s),
        s.len() != 2 * n || (0 <= i < s.len() && !(0x30 <= s[i] as int <= 0x39) && !(0x61
            <= s[i] as int <= 0x66) && !(0x41 <= s[i] as int <= 0x46)),
    ensures
        key_from_hex(s, n, what) is Err,
{
    vstd::utf8::is_ascii_chars_encode_utf8(s);
    let b = vstd::utf8::encode_utf8(s);
    if s.len() == 2 * n {
        assert(b[i] == s[i] as u8);
        assert(hex_value(b[i]) is None);
    }
}

/// The hexadecimal form of a key is that of its bytes, one after the other.
pub proof fn law_hex_byte_by_byte(key: Seq<u8>, i: int)
    requires
        0 <= i < key.len(),
    ensures
        text::spells(seq![key_hex(key)[2 * i], key_hex(key)[2 * i + 1]], key[i] as nat, 16),
{
    text::law_hex_byte(key[i]);
    assert((2 * i) % 2 == 0 && (2 * i) / 2 == i);
    assert((2 * i + 1) % 2 == 1 && (2 * i + 1) / 2 == i);
    assert(seq![key_hex(key)[2 * i], key_hex(key)[2 * i + 1]] =~= text::hex2(key[i]));
}

/// Bytes are a key exactly where they are as many as a key has, and then they
/// are the key.
pub proof fn law_key_bytes(b: Seq<u8>, n: nat, what: Seq<char>)
    ensures
        b.len() == n ==> key_from_bytes(b, n, what) == Ok::<Seq<u8>, ErrorView>(b),
        b.len() != n ==> (key_from_bytes(b, n, what) matches Err(ErrorView::Malformed {
            what: w,
            ..
        }) && w == what),
{
}

} // verus!
