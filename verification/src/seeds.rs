//! Synthetic seed files for fuzzing the parsers, and the builders that they
//! are made with.
//!
//! Every byte here is constructed from the formats themselves, never copied
//! or derived from a real game install. The builders come with laws: what
//! they build, the parsers read back.

pub mod blte;
pub mod encoding;
pub mod idx;
pub mod tables;
pub mod targets;

use vstd::prelude::*;

verus! {

/// Seeds, taken by their views.
pub open spec fn seed_views(v: Seq<(&'static str, Vec<u8>)>) -> Seq<(Seq<char>, Seq<u8>)> {
    Seq::new(v.len(), |i: int| (v[i].0@, v[i].1@))
}

/// The bytes of a text.
pub open spec fn utf8(s: Seq<char>) -> Seq<u8> {
    vstd::utf8::encode_utf8(s)
}

pub proof fn lemma_utf8_len(s: Seq<char>)
    ensures
        utf8(s).len() <= 4 * s.len(),
    decreases s.len(),
{
    if s.len() > 0 {
        lemma_utf8_len(s.drop_first());
    }
}

} // verus!
