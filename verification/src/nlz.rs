//! The bitstream decoder: given a compressed stream it reconstructs the
//! original buffer, interpreting flag bits and the variable-length match
//! codes of both on-disk formats, including self-overlapping copies.

use vstd::prelude::*;

verus! {

/// The header's tag byte named neither of the two known formats.
#[derive(Clone, Copy, Debug, PartialEq, Eq, Structural)]
pub struct InvalidMagicNumberError;

/// Why a compressed stream was rejected.
#[derive(Clone, Copy, Debug, PartialEq, Eq, Structural)]
pub enum DecodeError {
    /// The header tag is neither known format.
    InvalidMagic,
    /// The input ran out before the announced output length was reached.
    TruncatedStream,
    /// A match's displacement points before the start of the output.
    InvalidBackReference,
}

/// The copy a back-reference performs: append `len` bytes read sequentially
/// from `start` onward through the growing output, so a copy may read bytes
/// it has itself just appended.
pub open spec fn lz_copy(out: Seq<u8>, start: int, len: nat) -> Seq<u8>
    decreases len,
{
    if len == 0 {
        out
    } else if !(0 <= start < out.len()) {
        out
    } else {
        lz_copy(out.push(out[start]), start + 1, (len - 1) as nat)
    }
}

pub proof fn lemma_lz_copy_len(out: Seq<u8>, start: int, len: nat)
    requires
        0 <= start < out.len() || len == 0,
    ensures
        lz_copy(out, start, len).len() == out.len() + len,
        forall|i: int| 0 <= i < out.len() ==> (#[trigger] lz_copy(out, start, len)[i]) == out[i],
    decreases len,
{
    if len > 0 {
        let out1 = out.push(out[start]);
        lemma_lz_copy_len(out1, start + 1, (len - 1) as nat);
        assert forall|i: int| 0 <= i < out.len() implies (#[trigger] lz_copy(out, start, len)[i])
            == out[i] by {
            assert(lz_copy(out1, start + 1, (len - 1) as nat)[i] == out1[i]);
        }
    }
}

/// Self-overlap: every byte the copy appends equals the byte of the result
/// `out.len() - start` positions earlier — with displacement `d` (so
/// `start == out.len() - d - 1`) the appended run repeats the output with
/// period `d + 1`, which is what reproduces a periodic run whenever the
/// copied length exceeds the displacement.
pub proof fn lemma_lz_copy_self_overlap(out: Seq<u8>, start: int, len: nat)
    requires
        0 <= start < out.len() || len == 0,
    ensures
        forall|i: int|
            out.len() <= i < out.len() + len ==> (#[trigger] lz_copy(out, start, len)[i])
                == lz_copy(out, start, len)[i - (out.len() - start)],
    decreases len,
{
    if len > 0 {
        let out1 = out.push(out[start]);
        lemma_lz_copy_self_overlap(out1, start + 1, (len - 1) as nat);
        lemma_lz_copy_len(out1, start + 1, (len - 1) as nat);
        assert forall|i: int| out.len() <= i < out.len() + len implies (#[trigger] lz_copy(
            out,
            start,
            len,
        )[i]) == lz_copy(out, start, len)[i - (out.len() - start)] by {
            if i == out.len() {
                assert(lz_copy(out1, start + 1, (len - 1) as nat)[i] == out1[i]);
                assert(lz_copy(out1, start + 1, (len - 1) as nat)[start] == out1[start]);
            } else {
                assert(lz_copy(out1, start + 1, (len - 1) as nat)[i] == lz_copy(
                    out1,
                    start + 1,
                    (len - 1) as nat,
                )[i - (out1.len() - (start + 1))]);
            }
        }
    }
}

/// `x` clipped below at zero; the termination measures here and in the
/// compressor count down through it.
pub open spec fn clip0(x: int) -> int {
    if x >= 0 {
        x
    } else {
        0
    }
}

/// The decoder's state machine from an arbitrary mid-stream state: `pos` is
/// the next input byte, `out` the output built so far, `flag` the current
/// flag byte of which the low `bits` bits are still unread (most significant
/// first).  Decoding stops as soon as `out` has reached `expected` bytes; a
/// match that overshoots is copied in full first, exactly as the on-disk
/// formats demand.
pub open spec fn decode_from(
    inp: Seq<u8>,
    pos: int,
    out: Seq<u8>,
    expected: int,
    tiered: bool,
    flag: u8,
    bits: nat,
) -> Result<Seq<u8>, DecodeError>
    decreases clip0(expected - out.len()), clip0(inp.len() - pos), bits,
{
    if out.len() >= expected {
        Ok(out)
    } else if bits == 0 {
        if pos >= inp.len() {
            Err(DecodeError::TruncatedStream)
        } else {
            decode_from(inp, pos + 1, out, expected, tiered, inp[pos], 8)
        }
    } else if (flag >> ((bits - 1) as u8)) & 1 == 0 {
        if pos >= inp.len() {
            Err(DecodeError::TruncatedStream)
        } else {
            decode_from(inp, pos + 1, out.push(inp[pos]), expected, tiered, flag, (bits - 1) as nat)
        }
    } else if pos >= inp.len() {
        Err(DecodeError::TruncatedStream)
    } else {
        let b0 = inp[pos];
        let nib = b0 >> 4;
        let width: int = if !tiered || nib > 1 {
            2
        } else if nib == 0 {
            3
        } else {
            4
        };
        if pos + width > inp.len() {
            Err(DecodeError::TruncatedStream)
        } else {
            let len: int = if !tiered {
                nib + 3
            } else if nib > 1 {
                nib + 1
            } else if nib == 0 {
                (b0 & 15) * 16 + (inp[pos + 1] >> 4) + 0x11
            } else {
                (b0 & 15) * 4096 + inp[pos + 1] * 16 + (inp[pos + 2] >> 4) + 0x111
            };
            let disp: int = if !tiered || nib > 1 {
                (b0 & 15) * 256 + inp[pos + 1]
            } else if nib == 0 {
                (inp[pos + 1] & 15) * 256 + inp[pos + 2]
            } else {
                (inp[pos + 2] & 15) * 256 + inp[pos + 3]
            };
            if disp >= out.len() {
                Err(DecodeError::InvalidBackReference)
            } else {
                proof {
                    lemma_lz_copy_len(out, out.len() - disp - 1, len as nat);
                }
                decode_from(
                    inp,
                    pos + width,
                    lz_copy(out, out.len() - disp - 1, len as nat),
                    expected,
                    tiered,
                    flag,
                    (bits - 1) as nat,
                )
            }
        }
    }
}

/// The embedded 24-bit size field of the 4-byte little-endian header.
pub open spec fn hdr_size(inp: Seq<u8>) -> int {
    inp[1] + inp[2] * 0x100 + inp[3] * 0x10000
}

/// The extended 4-byte little-endian size that follows a tiered header whose
/// embedded size field is zero.
pub open spec fn ext_size(inp: Seq<u8>) -> int {
    inp[4] + inp[5] * 0x100 + inp[6] * 0x10000 + inp[7] * 0x1000000
}

/// What decompression returns on any stream: header tag 0x10 selects the
/// fixed-code format, 0x11 the tiered one (whose zero size field pulls in an
/// extended length), anything else is rejected.
pub open spec fn spec_decompress(inp: Seq<u8>) -> Result<Seq<u8>, DecodeError> {
    if inp.len() < 4 {
        Err(DecodeError::TruncatedStream)
    } else if inp[0] == 0x10 {
        decode_from(inp, 4, Seq::empty(), hdr_size(inp), false, 0, 0)
    } else if inp[0] == 0x11 {
        if hdr_size(inp) == 0 {
            if inp.len() < 8 {
                Err(DecodeError::TruncatedStream)
            } else {
                decode_from(inp, 8, Seq::empty(), ext_size(inp), true, 0, 0)
            }
        } else {
            decode_from(inp, 4, Seq::empty(), hdr_size(inp), true, 0, 0)
        }
    } else {
        Err(DecodeError::InvalidMagic)
    }
}

/// Reads the header's tag byte: says whether the tiered format was
/// selected, or reports the magic-number error when the tag names neither
/// known format.
pub fn check_magic(tag: u8) -> (r: Result<bool, InvalidMagicNumberError>)
    ensures
        tag == 0x10 ==> r == Ok::<bool, InvalidMagicNumberError>(false),
        tag == 0x11 ==> r == Ok::<bool, InvalidMagicNumberError>(true),
        tag != 0x10 && tag != 0x11 ==> r == Err::<bool, InvalidMagicNumberError>(
            InvalidMagicNumberError,
        ),
{
    if tag == 0x10 {
        Ok(false)
    } else if tag == 0x11 {
        Ok(true)
    } else {
        Err(InvalidMagicNumberError)
    }
}

/// Decompresses a stream of either on-disk format, reproducing exactly the
/// state machine of `spec_decompress`: it returns the original buffer, or
/// says which way the stream is malformed.
pub fn decompress(inp: &[u8]) -> (r: Result<Vec<u8>, DecodeError>)
    ensures
        (match r {
            Ok(v) => spec_decompress(inp@) == Ok::<Seq<u8>, DecodeError>(v@),
            Err(e) => spec_decompress(inp@) == Err::<Seq<u8>, DecodeError>(e),
        }),
{
    if inp.len() < 4 {
        return Err(DecodeError::TruncatedStream);
    }
    let tiered = match check_magic(inp[0]) {
        Ok(t) => t,
        Err(_) => {
            return Err(DecodeError::InvalidMagic);
        },
    };
    let mut expected: u64 = inp[1] as u64 + (inp[2] as u64) * 0x100 + (inp[3] as u64) * 0x10000;
    let mut pos: usize = 4;
    if tiered && expected == 0 {
        if inp.len() < 8 {
            return Err(DecodeError::TruncatedStream);
        }
        expected = inp[4] as u64 + (inp[5] as u64) * 0x100 + (inp[6] as u64) * 0x10000 + (inp[7]
            as u64) * 0x1000000;
        pos = 8;
    }
    let ghost target = spec_decompress(inp@);
    let mut out: Vec<u8> = Vec::new();
    let mut flag: u8 = 0;
    let mut bits: u8 = 0;
    proof {
        assert(target == decode_from(
            inp@,
            pos as int,
            out@,
            expected as int,
            tiered,
            flag,
            bits as nat,
        ));
    }
    loop
        invariant
            pos <= inp.len(),
            bits <= 8,
            target == spec_decompress(inp@),
            decode_from(inp@, pos as int, out@, expected as int, tiered, flag, bits as nat)
                == target,
        decreases
                clip0(expected - out@.len()),
                clip0(inp@.len() - pos),
                bits as int,
    {
        if out.len() as u64 >= expected {
            return Ok(out);
        }
        if bits == 0 {
            if pos >= inp.len() {
                return Err(DecodeError::TruncatedStream);
            }
            flag = inp[pos];
            pos = pos + 1;
            bits = 8;
        } else if (flag >> (bits - 1)) & 1 == 0 {
            if pos >= inp.len() {
                return Err(DecodeError::TruncatedStream);
            }
            let b = inp[pos];
            out.push(b);
            pos = pos + 1;
            bits = bits - 1;
        } else {
            if pos >= inp.len() {
                return Err(DecodeError::TruncatedStream);
            }
            let b0 = inp[pos];
            let nib = b0 >> 4;
            let width: usize = if !tiered || nib > 1 {
                2
            } else if nib == 0 {
                3
            } else {
                4
            };
            if width > inp.len() - pos {
                return Err(DecodeError::TruncatedStream);
            }
            let len: usize = if !tiered {
                nib as usize + 3
            } else if nib > 1 {
                nib as usize + 1
            } else if nib == 0 {
                ((b0 & 15) as usize) * 16 + (inp[pos + 1] >> 4) as usize + 0x11
            } else {
                ((b0 & 15) as usize) * 4096 + (inp[pos + 1] as usize) * 16 + (inp[pos + 2]
                    >> 4) as usize + 0x111
            };
            let disp: usize = if !tiered || nib > 1 {
                ((b0 & 15) as usize) * 256 + inp[pos + 1] as usize
            } else if nib == 0 {
                ((inp[pos + 1] & 15) as usize) * 256 + inp[pos + 2] as usize
            } else {
                ((inp[pos + 2] & 15) as usize) * 256 + inp[pos + 3] as usize
            };
            pos = pos + width;
            if disp >= out.len() {
                return Err(DecodeError::InvalidBackReference);
            }
            let start = out.len() - disp - 1;
            let ghost out0 = out@;
            proof {
                lemma_lz_copy_len(out0, start as int, len as nat);
            }
            let mut i: usize = 0;
            while i < len
                invariant
                    i <= len,
                    disp < out0.len(),
                    start == out0.len() - (disp + 1),
                    out@.len() == out0.len() + i,
                    lz_copy(out@, start + i, (len - i) as nat) == lz_copy(
                        out0,
                        start as int,
                        len as nat,
                    ),
                decreases len - i,
            {
                let cur = out.len();
                let v = out[cur - (disp + 1)];
                proof {
                    assert(cur - (disp + 1) == start + i);
                }
                out.push(v);
                i = i + 1;
            }
            bits = bits - 1;
        }
    }
}

} // verus!
