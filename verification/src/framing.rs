//! Nested container framing: forms and chunks.
//!
//! A *form* is a 32-byte header (magic, body size, an unused word, type tag,
//! version pair) followed by its body.  A *chunk* is a 24-byte header (type
//! tag, body size, two bookkeeping words) followed by its body.  Parsing is
//! bounded by an explicit `limit` so that a nested body cannot claim bytes
//! beyond its enclosing container.

use vstd::prelude::*;

use crate::bytes::{dec_u32, dec_u64, enc_u32, enc_u64, push_u32, push_u64, read_u32, read_u64,
    Endian};
use crate::fourcc::{cc_at, cc_bytes, push_cc, read_cc, rfrm_magic, rfrm_tag, FourCC};

verus! {

broadcast use vstd::slice::group_slice_axioms;

/// Bytes a form header takes in front of its body.
pub const FORM_HEADER_LEN: usize = 32;

/// Bytes a chunk header takes in front of its body.
pub const CHUNK_HEADER_LEN: usize = 24;

/// Self-describing container header.  `size` is the body length in bytes,
/// known only after the body is produced on the write path.
#[derive(Clone, Copy, PartialEq, Eq, Structural, Debug)]
pub struct FormDescriptor {
    pub size: u64,
    pub unk1: u64,
    pub id: FourCC,
    pub version: u32,
    pub other_version: u32,
}

/// Header of a type-tagged sub-section inside a form body.
#[derive(Clone, Copy, PartialEq, Eq, Structural, Debug)]
pub struct ChunkDescriptor {
    pub id: FourCC,
    pub size: u64,
    pub unk: u32,
    pub skip: u64,
}

/// The 32 header bytes of a form.
pub open spec fn form_header_bytes(h: FormDescriptor, e: Endian) -> Seq<u8> {
    cc_bytes(rfrm_tag()) + enc_u64(e, h.size) + enc_u64(e, h.unk1) + cc_bytes(h.id) + enc_u32(
        e,
        h.version,
    ) + enc_u32(e, h.other_version)
}

/// The 24 header bytes of a chunk.
pub open spec fn chunk_header_bytes(c: ChunkDescriptor, e: Endian) -> Seq<u8> {
    cc_bytes(c.id) + enc_u64(e, c.size) + enc_u32(e, c.unk) + enc_u64(e, c.skip)
}

/// Parses a form at `pos`, bounded by `limit`: the header, and the body as
/// the range `[pos + 32, pos + 32 + size)`, which must end by `limit`.
pub open spec fn spec_form_parse(s: Seq<u8>, pos: int, limit: int, e: Endian) -> Option<
    (FormDescriptor, int, int),
> {
    if pos + 32 <= limit && limit <= s.len() && cc_at(s, pos) == rfrm_tag() {
        let h = FormDescriptor {
            size: dec_u64(e, s, pos + 4),
            unk1: dec_u64(e, s, pos + 12),
            id: cc_at(s, pos + 20),
            version: dec_u32(e, s, pos + 24),
            other_version: dec_u32(e, s, pos + 28),
        };
        if pos + 32 + h.size <= limit {
            Some((h, pos + 32, pos + 32 + h.size))
        } else {
            None
        }
    } else {
        None
    }
}

/// Parses a chunk at `pos`, bounded by `limit`.
pub open spec fn spec_chunk_parse(s: Seq<u8>, pos: int, limit: int, e: Endian) -> Option<
    (ChunkDescriptor, int, int),
> {
    if pos + 24 <= limit && limit <= s.len() {
        let c = ChunkDescriptor {
            id: cc_at(s, pos),
            size: dec_u64(e, s, pos + 4),
            unk: dec_u32(e, s, pos + 12),
            skip: dec_u64(e, s, pos + 16),
        };
        if pos + 24 + c.size <= limit {
            Some((c, pos + 24, pos + 24 + c.size))
        } else {
            None
        }
    } else {
        None
    }
}

pub fn form_parse(data: &[u8], pos: usize, limit: usize, e: Endian) -> (r: Option<
    (FormDescriptor, usize, usize),
>)
    requires
        pos <= limit <= data@.len(),
    ensures
        match r {
            Some(t) => {
                &&& spec_form_parse(data@, pos as int, limit as int, e) == Some(
                    (t.0, t.1 as int, t.2 as int),
                )
                &&& t.1 == pos + 32
                &&& t.1 <= t.2 <= limit
            },
            None => spec_form_parse(data@, pos as int, limit as int, e) is None,
        },
{
    proof {
        assert(vstd::slice::spec_slice_len(data) == data@.len());
    }
    if limit - pos < 32 {
        return None;
    }
    let magic = read_cc(data, pos);
    if magic != rfrm_magic() {
        return None;
    }
    let h = FormDescriptor {
        size: read_u64(data, pos + 4, e),
        unk1: read_u64(data, pos + 12, e),
        id: read_cc(data, pos + 20),
        version: read_u32(data, pos + 24, e),
        other_version: read_u32(data, pos + 28, e),
    };
    let avail: u64 = (limit - pos - 32) as u64;
    if h.size > avail {
        return None;
    }
    Some((h, pos + 32, pos + 32 + (h.size as usize)))
}

pub fn chunk_parse(data: &[u8], pos: usize, limit: usize, e: Endian) -> (r: Option<
    (ChunkDescriptor, usize, usize),
>)
    requires
        pos <= limit <= data@.len(),
    ensures
        match r {
            Some(t) => {
                &&& spec_chunk_parse(data@, pos as int, limit as int, e) == Some(
                    (t.0, t.1 as int, t.2 as int),
                )
                &&& t.1 == pos + 24
                &&& t.1 <= t.2 <= limit
            },
            None => spec_chunk_parse(data@, pos as int, limit as int, e) is None,
        },
{
    proof {
        assert(vstd::slice::spec_slice_len(data) == data@.len());
    }
    if limit - pos < 24 {
        return None;
    }
    let c = ChunkDescriptor {
        id: read_cc(data, pos),
        size: read_u64(data, pos + 4, e),
        unk: read_u32(data, pos + 12, e),
        skip: read_u64(data, pos + 16, e),
    };
    let avail: u64 = (limit - pos - 24) as u64;
    if c.size > avail {
        return None;
    }
    Some((c, pos + 24, pos + 24 + (c.size as usize)))
}

pub fn push_form_header(out: &mut Vec<u8>, h: FormDescriptor, e: Endian)
    ensures
        final(out)@ == old(out)@ + form_header_bytes(h, e),
{
    let magic = rfrm_magic();
    push_cc(out, magic);
    push_u64(out, h.size, e);
    push_u64(out, h.unk1, e);
    push_cc(out, h.id);
    push_u32(out, h.version, e);
    push_u32(out, h.other_version, e);
    proof {
        assert(out@ =~= old(out)@ + form_header_bytes(h, e));
    }
}

pub fn push_chunk_header(out: &mut Vec<u8>, c: ChunkDescriptor, e: Endian)
    ensures
        final(out)@ == old(out)@ + chunk_header_bytes(c, e),
{
    push_cc(out, c.id);
    push_u64(out, c.size, e);
    push_u32(out, c.unk, e);
    push_u64(out, c.skip, e);
    proof {
        assert(out@ =~= old(out)@ + chunk_header_bytes(c, e));
    }
}

pub broadcast proof fn lemma_form_header_len(h: FormDescriptor, e: Endian)
    ensures
        (#[trigger] form_header_bytes(h, e)).len() == 32,
{
    broadcast use crate::bytes::lemma_enc_u32_len, crate::bytes::lemma_enc_u64_len,
        crate::fourcc::lemma_cc_len;

}

pub broadcast proof fn lemma_chunk_header_len(c: ChunkDescriptor, e: Endian)
    ensures
        (#[trigger] chunk_header_bytes(c, e)).len() == 24,
{
    broadcast use crate::bytes::lemma_enc_u32_len, crate::bytes::lemma_enc_u64_len,
        crate::fourcc::lemma_cc_len;

}

} // verus!
