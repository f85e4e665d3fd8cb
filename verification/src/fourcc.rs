//! Four-character type tags.
//!
//! A tag is stored as its four raw bytes, in the same order under either
//! byte order.  The string table stores each tag byte-swapped; `swap`
//! converts between the two.

use vstd::prelude::*;

verus! {

broadcast use vstd::slice::group_slice_axioms;

/// A four-character type tag, held as its four raw bytes.
#[derive(Clone, Copy, PartialEq, Eq, Structural, Debug, Hash)]
pub struct FourCC(pub u8, pub u8, pub u8, pub u8);

/// The four bytes a tag is stored as (no byte-order conversion).
pub open spec fn cc_bytes(f: FourCC) -> Seq<u8> {
    seq![f.0, f.1, f.2, f.3]
}

/// The tag held by the four bytes at position `i`.
pub open spec fn cc_at(s: Seq<u8>, i: int) -> FourCC {
    FourCC(s[i], s[i + 1], s[i + 2], s[i + 3])
}

/// The tag with its bytes reversed.
pub open spec fn spec_swap(f: FourCC) -> FourCC {
    FourCC(f.3, f.2, f.1, f.0)
}

impl FourCC {
    /// The byte-order-swapped tag, as string table entries store theirs.
    pub fn swap(self) -> (r: FourCC)
        ensures
            r == spec_swap(self),
    {
        FourCC(self.3, self.2, self.1, self.0)
    }
}

// ---------------------------------------------------------------------------
// The tags the package format knows.
// ---------------------------------------------------------------------------

/// Outer package form.
pub open spec fn pack_tag() -> FourCC {
    FourCC(0x50, 0x41, 0x43, 0x4B)
}

/// Table-of-contents form.
pub open spec fn tocc_tag() -> FourCC {
    FourCC(0x54, 0x4F, 0x43, 0x43)
}

/// Asset directory chunk.
pub open spec fn adir_tag() -> FourCC {
    FourCC(0x41, 0x44, 0x49, 0x52)
}

/// Metadata table chunk.
pub open spec fn meta_tag() -> FourCC {
    FourCC(0x4D, 0x45, 0x54, 0x41)
}

/// String (name) table chunk.
pub open spec fn strg_tag() -> FourCC {
    FourCC(0x53, 0x54, 0x52, 0x47)
}

/// Magic opening every form header.
pub open spec fn rfrm_tag() -> FourCC {
    FourCC(0x52, 0x46, 0x52, 0x4D)
}

pub fn form_pack() -> (r: FourCC)
    ensures
        r == pack_tag(),
{
    FourCC(0x50, 0x41, 0x43, 0x4B)
}

pub fn form_tocc() -> (r: FourCC)
    ensures
        r == tocc_tag(),
{
    FourCC(0x54, 0x4F, 0x43, 0x43)
}

pub fn chunk_adir() -> (r: FourCC)
    ensures
        r == adir_tag(),
{
    FourCC(0x41, 0x44, 0x49, 0x52)
}

pub fn chunk_meta() -> (r: FourCC)
    ensures
        r == meta_tag(),
{
    FourCC(0x4D, 0x45, 0x54, 0x41)
}

pub fn chunk_strg() -> (r: FourCC)
    ensures
        r == strg_tag(),
{
    FourCC(0x53, 0x54, 0x52, 0x47)
}

pub fn rfrm_magic() -> (r: FourCC)
    ensures
        r == rfrm_tag(),
{
    FourCC(0x52, 0x46, 0x52, 0x4D)
}

// ---------------------------------------------------------------------------
// Executable codec.
// ---------------------------------------------------------------------------

pub fn read_cc(data: &[u8], pos: usize) -> (r: FourCC)
    requires
        pos + 4 <= data@.len(),
    ensures
        r == cc_at(data@, pos as int),
{
    FourCC(data[pos], data[pos + 1], data[pos + 2], data[pos + 3])
}

pub fn push_cc(out: &mut Vec<u8>, f: FourCC)
    ensures
        final(out)@ == old(out)@ + cc_bytes(f),
{
    out.push(f.0);
    out.push(f.1);
    out.push(f.2);
    out.push(f.3);
    proof {
        assert(out@ =~= old(out)@ + cc_bytes(f));
    }
}

pub broadcast proof fn lemma_cc_len(f: FourCC)
    ensures
        (#[trigger] cc_bytes(f)).len() == 4,
{
}

} // verus!
