//! Sliding-window decompression for compressed asset payloads.
//!
//! A compressed payload names one of three modes; the mode fixes the unit
//! width (1, 2 or 4 bytes) that commands count in.  The stream is a run of
//! commands: a byte below `0x80` copies `(cmd + 1)` units verbatim from the
//! stream; a byte at or above `0x80` is followed by a distance byte and
//! repeats `(cmd - 0x7F)` units from `distance + 1` bytes behind the output
//! end, byte by byte, so references may overlap the bytes they produce.
//! Decoding stops exactly when the output reaches the expected length and
//! fails if it overshoots or the stream runs out first.

use vstd::prelude::*;

verus! {

broadcast use vstd::slice::group_slice_axioms;

/// Bytes one command unit covers under each mode.
pub open spec fn unit_size(mode: u32) -> int {
    if mode == 1 {
        1
    } else if mode == 2 {
        2
    } else {
        4
    }
}

/// `out` extended by `n` bytes copied one at a time from `dist` bytes
/// behind its end; overlapping references re-read bytes just produced.
pub open spec fn back_copy(out: Seq<u8>, dist: int, n: int) -> Seq<u8>
    decreases n,
{
    if n <= 0 || dist <= 0 || dist > out.len() {
        out
    } else {
        back_copy(out.push(out[out.len() - dist]), dist, n - 1)
    }
}

/// The decompressed bytes produced by running the command stream `inp`
/// after `out`, until the output holds exactly `out_len` bytes; `None`
/// when the stream ends early, overshoots, or a reference reaches back
/// past the start of the output.
pub open spec fn lzss_run(mode: u32, inp: Seq<u8>, out: Seq<u8>, out_len: int) -> Option<Seq<u8>>
    decreases inp.len(),
{
    if out.len() >= out_len {
        if out.len() == out_len {
            Some(out)
        } else {
            None
        }
    } else if inp.len() == 0 {
        None
    } else {
        let cmd = inp[0];
        if cmd < 0x80 {
            let n = (cmd + 1) * unit_size(mode);
            if 1 + n <= inp.len() {
                lzss_run(mode, inp.skip(1 + n), out + inp.subrange(1, 1 + n), out_len)
            } else {
                None
            }
        } else {
            if inp.len() >= 2 {
                let dist = inp[1] + 1;
                let n = (cmd - 0x7F) * unit_size(mode);
                if dist <= out.len() {
                    lzss_run(mode, inp.skip(2), back_copy(out, dist, n), out_len)
                } else {
                    None
                }
            } else {
                None
            }
        }
    }
}

/// Fills a buffer of exactly `out_len` bytes from the command stream `inp`.
pub fn decompress(mode: u32, inp: &[u8], out_len: usize) -> (r: Option<Vec<u8>>)
    requires
        1 <= mode <= 3,
    ensures
        match r {
            Some(v) => lzss_run(mode, inp@, Seq::empty(), out_len as int) == Some(v@)
                && v@.len() == out_len,
            None => lzss_run(mode, inp@, Seq::empty(), out_len as int) is None,
        },
{
    proof {
        assert(vstd::slice::spec_slice_len(inp) == inp@.len());
    }
    let unit: usize = if mode == 1 {
        1
    } else if mode == 2 {
        2
    } else {
        4
    };
    let mut out: Vec<u8> = Vec::new();
    let mut i: usize = 0;
    proof {
        assert(inp@.skip(0) =~= inp@);
    }
    while out.len() < out_len
        invariant
            1 <= mode <= 3,
            unit == unit_size(mode),
            i <= inp@.len(),
            out@.len() <= out_len,
            lzss_run(mode, inp@.skip(i as int), out@, out_len as int) == lzss_run(
                mode,
                inp@,
                Seq::empty(),
                out_len as int,
            ),
        decreases inp@.len() - i,
    {
        if i >= inp.len() {
            return None;
        }
        let cmd = inp[i];
        if cmd < 0x80 {
            let n = (cmd as usize + 1) * unit;
            if n > inp.len() - i - 1 {
                return None;
            }
            let ghost pre = out@;
            let mut k: usize = 0;
            while k < n
                invariant
                    k <= n,
                    i + 1 + n <= inp@.len() <= usize::MAX,
                    out@ == pre + inp@.subrange(i + 1, i + 1 + k),
                decreases n - k,
            {
                out.push(inp[i + 1 + k]);
                proof {
                    assert(pre + inp@.subrange(i + 1, i + 1 + (k + 1)) =~= (pre + inp@.subrange(
                        i + 1,
                        i + 1 + k,
                    )).push(inp@[i + 1 + k]));
                }
                k = k + 1;
            }
            proof {
                assert(inp@.skip(i as int).skip(1 + n) =~= inp@.skip(i + 1 + n));
                assert(inp@.skip(i as int).subrange(1, 1 + n) =~= inp@.subrange(i + 1, i + 1 + n));
                assert(lzss_run(mode, inp@.skip(i as int), pre, out_len as int) == lzss_run(
                    mode,
                    inp@.skip(i + 1 + n),
                    out@,
                    out_len as int,
                ));
            }
            i = i + 1 + n;
            if out.len() > out_len {
                return None;
            }
        } else {
            if inp.len() - i < 2 {
                return None;
            }
            let dist = inp[i + 1] as usize + 1;
            if dist > out.len() {
                return None;
            }
            let n = (cmd as usize - 0x7F) * unit;
            let ghost pre = out@;
            let mut k: usize = 0;
            while k < n
                invariant
                    k <= n,
                    1 <= dist <= out@.len(),
                    out@.len() == pre.len() + k,
                    back_copy(out@, dist as int, n - k) == back_copy(pre, dist as int, n as int),
                decreases n - k,
            {
                let b = out[out.len() - dist];
                out.push(b);
                k = k + 1;
            }
            proof {
                assert(inp@.skip(i as int).skip(2) =~= inp@.skip(i + 2));
                assert(inp@.skip(i as int)[0] == inp@[i as int]);
                assert(inp@.skip(i as int)[1] == inp@[i + 1]);
                assert(lzss_run(mode, inp@.skip(i as int), pre, out_len as int) == lzss_run(
                    mode,
                    inp@.skip(i + 2),
                    out@,
                    out_len as int,
                ));
            }
            i = i + 2;
            if out.len() > out_len {
                return None;
            }
        }
    }
    Some(out)
}

/// A successful run yields exactly the expected number of bytes.
pub proof fn lemma_lzss_run_len(mode: u32, inp: Seq<u8>, out: Seq<u8>, out_len: int)
    requires
        lzss_run(mode, inp, out, out_len) is Some,
    ensures
        lzss_run(mode, inp, out, out_len).unwrap().len() == out_len,
    decreases inp.len(),
{
    if out.len() >= out_len {
    } else {
        let cmd = inp[0];
        if cmd < 0x80 {
            let n = (cmd + 1) * unit_size(mode);
            lemma_lzss_run_len(mode, inp.skip(1 + n), out + inp.subrange(1, 1 + n), out_len);
        } else {
            let dist = inp[1] + 1;
            let n = (cmd - 0x7F) * unit_size(mode);
            lemma_lzss_run_len(mode, inp.skip(2), back_copy(out, dist, n), out_len);
        }
    }
}

} // verus!
