//! Byte-level integer codec shared by every structure of the container.
//!
//! Every multi-byte field is stored under a caller-chosen byte order.  The
//! spec functions `enc_*` / `dec_*` define the on-disk bytes of each integer
//! width; the executable readers and writers are proved against them.

use vstd::prelude::*;

verus! {

broadcast use vstd::slice::group_slice_axioms;

/// Byte order applied uniformly to every multi-byte integer field.
#[derive(Clone, Copy, PartialEq, Eq, Structural, Debug)]
pub enum Endian {
    Little,
    Big,
}

// ---------------------------------------------------------------------------
// Decoding: the integer held by four / eight / sixteen bytes at position `i`.
// ---------------------------------------------------------------------------

pub open spec fn dec_u32_le(s: Seq<u8>, i: int) -> u32 {
    (s[i] as u32) | ((s[i + 1] as u32) << 8) | ((s[i + 2] as u32) << 16) | ((s[i + 3] as u32)
        << 24)
}

pub open spec fn dec_u32_be(s: Seq<u8>, i: int) -> u32 {
    ((s[i] as u32) << 24) | ((s[i + 1] as u32) << 16) | ((s[i + 2] as u32) << 8) | (s[i + 3]
        as u32)
}

pub open spec fn dec_u32(e: Endian, s: Seq<u8>, i: int) -> u32 {
    match e {
        Endian::Little => dec_u32_le(s, i),
        Endian::Big => dec_u32_be(s, i),
    }
}

pub open spec fn dec_u64(e: Endian, s: Seq<u8>, i: int) -> u64 {
    match e {
        Endian::Little => (dec_u32(e, s, i) as u64) | ((dec_u32(e, s, i + 4) as u64) << 32),
        Endian::Big => ((dec_u32(e, s, i) as u64) << 32) | (dec_u32(e, s, i + 4) as u64),
    }
}

pub open spec fn dec_u128(e: Endian, s: Seq<u8>, i: int) -> u128 {
    match e {
        Endian::Little => (dec_u64(e, s, i) as u128) | ((dec_u64(e, s, i + 8) as u128) << 64),
        Endian::Big => ((dec_u64(e, s, i) as u128) << 64) | (dec_u64(e, s, i + 8) as u128),
    }
}

// ---------------------------------------------------------------------------
// Encoding: the bytes an integer is stored as.
// ---------------------------------------------------------------------------

pub open spec fn enc_u32(e: Endian, v: u32) -> Seq<u8> {
    match e {
        Endian::Little => seq![
            (v & 0xFF) as u8,
            ((v >> 8) & 0xFF) as u8,
            ((v >> 16) & 0xFF) as u8,
            ((v >> 24) & 0xFF) as u8,
        ],
        Endian::Big => seq![
            ((v >> 24) & 0xFF) as u8,
            ((v >> 16) & 0xFF) as u8,
            ((v >> 8) & 0xFF) as u8,
            (v & 0xFF) as u8,
        ],
    }
}

pub open spec fn enc_u64(e: Endian, v: u64) -> Seq<u8> {
    match e {
        Endian::Little => enc_u32(e, (v & 0xFFFF_FFFF) as u32) + enc_u32(
            e,
            ((v >> 32) & 0xFFFF_FFFF) as u32,
        ),
        Endian::Big => enc_u32(e, ((v >> 32) & 0xFFFF_FFFF) as u32) + enc_u32(
            e,
            (v & 0xFFFF_FFFF) as u32,
        ),
    }
}

pub open spec fn enc_u128(e: Endian, v: u128) -> Seq<u8> {
    match e {
        Endian::Little => enc_u64(e, (v & 0xFFFF_FFFF_FFFF_FFFF) as u64) + enc_u64(
            e,
            ((v >> 64) & 0xFFFF_FFFF_FFFF_FFFF) as u64,
        ),
        Endian::Big => enc_u64(e, ((v >> 64) & 0xFFFF_FFFF_FFFF_FFFF) as u64) + enc_u64(
            e,
            (v & 0xFFFF_FFFF_FFFF_FFFF) as u64,
        ),
    }
}

/// `n` zero bytes, the padding written after the outer form.
pub open spec fn zeros(n: int) -> Seq<u8> {
    Seq::new(n as nat, |i: int| 0u8)
}

// ---------------------------------------------------------------------------
// Executable readers.
// ---------------------------------------------------------------------------

pub fn read_u32(data: &[u8], pos: usize, e: Endian) -> (r: u32)
    requires
        pos + 4 <= data@.len(),
    ensures
        r == dec_u32(e, data@, pos as int),
{
    let b0 = data[pos];
    let b1 = data[pos + 1];
    let b2 = data[pos + 2];
    let b3 = data[pos + 3];
    match e {
        Endian::Little => (b0 as u32) | ((b1 as u32) << 8) | ((b2 as u32) << 16) | ((b3 as u32)
            << 24),
        Endian::Big => ((b0 as u32) << 24) | ((b1 as u32) << 16) | ((b2 as u32) << 8) | (b3
            as u32),
    }
}

pub fn read_u64(data: &[u8], pos: usize, e: Endian) -> (r: u64)
    requires
        pos + 8 <= data@.len(),
    ensures
        r == dec_u64(e, data@, pos as int),
{
    proof {
        assert(vstd::slice::spec_slice_len(data) == data@.len());
    }
    let lo_first = read_u32(data, pos, e);
    let hi_second = read_u32(data, pos + 4, e);
    match e {
        Endian::Little => (lo_first as u64) | ((hi_second as u64) << 32),
        Endian::Big => ((lo_first as u64) << 32) | (hi_second as u64),
    }
}

pub fn read_u128(data: &[u8], pos: usize, e: Endian) -> (r: u128)
    requires
        pos + 16 <= data@.len(),
    ensures
        r == dec_u128(e, data@, pos as int),
{
    proof {
        assert(vstd::slice::spec_slice_len(data) == data@.len());
    }
    let first = read_u64(data, pos, e);
    let second = read_u64(data, pos + 8, e);
    match e {
        Endian::Little => (first as u128) | ((second as u128) << 64),
        Endian::Big => ((first as u128) << 64) | (second as u128),
    }
}

// ---------------------------------------------------------------------------
// Executable writers: append the encoding of a value to an output buffer.
// ---------------------------------------------------------------------------

pub fn push_u32(out: &mut Vec<u8>, v: u32, e: Endian)
    ensures
        final(out)@ == old(out)@ + enc_u32(e, v),
{
    match e {
        Endian::Little => {
            out.push((v & 0xFF) as u8);
            out.push(((v >> 8) & 0xFF) as u8);
            out.push(((v >> 16) & 0xFF) as u8);
            out.push(((v >> 24) & 0xFF) as u8);
        },
        Endian::Big => {
            out.push(((v >> 24) & 0xFF) as u8);
            out.push(((v >> 16) & 0xFF) as u8);
            out.push(((v >> 8) & 0xFF) as u8);
            out.push((v & 0xFF) as u8);
        },
    }
    proof {
        assert(out@ =~= old(out)@ + enc_u32(e, v));
    }
}

pub fn push_u64(out: &mut Vec<u8>, v: u64, e: Endian)
    ensures
        final(out)@ == old(out)@ + enc_u64(e, v),
{
    match e {
        Endian::Little => {
            push_u32(out, (v & 0xFFFF_FFFF) as u32, e);
            push_u32(out, ((v >> 32) & 0xFFFF_FFFF) as u32, e);
        },
        Endian::Big => {
            push_u32(out, ((v >> 32) & 0xFFFF_FFFF) as u32, e);
            push_u32(out, (v & 0xFFFF_FFFF) as u32, e);
        },
    }
    proof {
        assert(out@ =~= old(out)@ + enc_u64(e, v));
    }
}

pub fn push_u128(out: &mut Vec<u8>, v: u128, e: Endian)
    ensures
        final(out)@ == old(out)@ + enc_u128(e, v),
{
    match e {
        Endian::Little => {
            push_u64(out, (v & 0xFFFF_FFFF_FFFF_FFFF) as u64, e);
            push_u64(out, ((v >> 64) & 0xFFFF_FFFF_FFFF_FFFF) as u64, e);
        },
        Endian::Big => {
            push_u64(out, ((v >> 64) & 0xFFFF_FFFF_FFFF_FFFF) as u64, e);
            push_u64(out, (v & 0xFFFF_FFFF_FFFF_FFFF) as u64, e);
        },
    }
    proof {
        assert(out@ =~= old(out)@ + enc_u128(e, v));
    }
}

/// Copies `data[start..end]` into a fresh owned buffer.
pub fn copy_range(data: &[u8], start: usize, end: usize) -> (r: Vec<u8>)
    requires
        start <= end <= data@.len(),
    ensures
        r@ == data@.subrange(start as int, end as int),
{
    let mut r: Vec<u8> = Vec::new();
    let mut i: usize = start;
    while i < end
        invariant
            start <= i <= end <= data@.len(),
            r@ == data@.subrange(start as int, i as int),
        decreases end - i,
    {
        r.push(data[i]);
        proof {
            assert(data@.subrange(start as int, i + 1) =~= data@.subrange(
                start as int,
                i as int,
            ).push(data@[i as int]));
        }
        i = i + 1;
    }
    r
}

/// Appends every byte of `v`.
pub fn push_slice(out: &mut Vec<u8>, v: &Vec<u8>)
    ensures
        final(out)@ == old(out)@ + v@,
{
    let mut k: usize = 0;
    while k < v.len()
        invariant
            k <= v@.len(),
            out@ == old(out)@ + v@.take(k as int),
        decreases v@.len() - k,
    {
        out.push(v[k]);
        proof {
            assert(old(out)@ + v@.take(k + 1) =~= (old(out)@ + v@.take(k as int)).push(
                v@[k as int],
            ));
        }
        k = k + 1;
    }
    proof {
        assert(v@.take(v@.len() as int) =~= v@);
    }
}

/// Appends `n` zero bytes.
pub fn push_zeros(out: &mut Vec<u8>, n: usize)
    ensures
        final(out)@ == old(out)@ + zeros(n as int),
{
    let mut i: usize = 0;
    while i < n
        invariant
            i <= n,
            out@ == old(out)@ + zeros(i as int),
        decreases n - i,
    {
        out.push(0u8);
        proof {
            assert(out@ =~= old(out)@ + zeros(i + 1));
        }
        i = i + 1;
    }
}

pub broadcast proof fn lemma_enc_u32_len(e: Endian, v: u32)
    ensures
        (#[trigger] enc_u32(e, v)).len() == 4,
{
}

pub broadcast proof fn lemma_enc_u64_len(e: Endian, v: u64)
    ensures
        (#[trigger] enc_u64(e, v)).len() == 8,
{
    lemma_enc_u32_len(e, (v & 0xFFFF_FFFF) as u32);
    lemma_enc_u32_len(e, ((v >> 32) & 0xFFFF_FFFF) as u32);
}

pub broadcast proof fn lemma_enc_u128_len(e: Endian, v: u128)
    ensures
        (#[trigger] enc_u128(e, v)).len() == 16,
{
    lemma_enc_u64_len(e, (v & 0xFFFF_FFFF_FFFF_FFFF) as u64);
    lemma_enc_u64_len(e, ((v >> 64) & 0xFFFF_FFFF_FFFF_FFFF) as u64);
}

} // verus!
