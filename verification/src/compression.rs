//! The LZ-variant decompressor.
//!
//! The stream is a sequence of commands.  A control byte selects one of eight
//! operations and a length; the operations emit literal bytes, fills, or
//! back-references into the output produced so far.  A control byte of 0xFF
//! ends the stream.  `spec_decompress` is the mathematical model of the
//! format; `decompress` is proved to return exactly its value, and to report
//! an error exactly when the model rejects the stream.

use crate::model::SmError;
use vstd::prelude::*;

verus! {

/// The byte `b` emitted `n` times.
pub open spec fn rep_byte(b: u8, n: nat) -> Seq<u8> {
    Seq::new(n, |i: int| b)
}

/// The bytes `a` and `b` alternating, for `n` bytes, starting with `a`.
pub open spec fn alt_bytes(a: u8, b: u8, n: nat) -> Seq<u8> {
    Seq::new(n, |i: int| if i % 2 == 0 { a } else { b })
}

/// The byte `b` incremented by one (wrapping at 256) on every emit.
pub open spec fn sigma_bytes(b: u8, n: nat) -> Seq<u8> {
    Seq::new(n, |i: int| ((b + i) % 256) as u8)
}

/// `n` bytes appended one at a time, each copied from position `addr` onward
/// of the growing buffer, inverted when `invert` is set.  A copy source may
/// run into the bytes the same command has just appended.
pub open spec fn extend_copy(out: Seq<u8>, addr: int, n: nat, invert: bool) -> Seq<u8>
    decreases n,
{
    if n == 0 {
        out
    } else {
        let b = if invert {
            out[addr] ^ 0xff
        } else {
            out[addr]
        };
        extend_copy(out.push(b), addr + 1, (n - 1) as nat, invert)
    }
}

/// The completed output of the decompressor run from input position `pos`
/// with the bytes `out` already emitted, or `None` when the stream is
/// malformed: the input ends before the stream does, or a back-reference
/// points outside the output produced so far.
pub open spec fn spec_decomp_from(input: Seq<u8>, pos: int, out: Seq<u8>) -> Option<Seq<u8>>
    decreases input.len() - pos, 1int,
{
    if pos < 0 || pos >= input.len() {
        None
    } else {
        let b = input[pos];
        if b == 0xff {
            Some(out)
        } else if b >> 5 == 0x7 {
            // extended control: the op moves to bits 4..=2 and the length
            // gains two high bits and a second byte
            if pos + 1 >= input.len() {
                None
            } else {
                spec_decomp_op(
                    input,
                    pos + 2,
                    out,
                    ((b >> 2) & 0x7) as int,
                    ((b & 0x3) * 0x100 + input[pos + 1] + 1) as nat,
                )
            }
        } else {
            spec_decomp_op(input, pos + 1, out, (b >> 5) as int, ((b & 0x1f) + 1) as nat)
        }
    }
}

/// One operation applied at input position `pos` (the first operand byte),
/// then the rest of the stream.
pub open spec fn spec_decomp_op(input: Seq<u8>, pos: int, out: Seq<u8>, op: int, n: nat) -> Option<
    Seq<u8>,
>
    decreases input.len() - pos, 0int,
{
    if n == 0 {
        None
    } else if op == 0 {
        // direct copy of n literal bytes
        if pos + n > input.len() {
            None
        } else {
            spec_decomp_from(input, pos + n, out + input.subrange(pos, pos + n))
        }
    } else if op == 1 {
        // byte fill
        if pos + 1 > input.len() {
            None
        } else {
            spec_decomp_from(input, pos + 1, out + rep_byte(input[pos], n))
        }
    } else if op == 2 {
        // word fill; an odd length ends on the low byte
        if pos + 2 > input.len() {
            None
        } else {
            spec_decomp_from(input, pos + 2, out + alt_bytes(input[pos], input[pos + 1], n))
        }
    } else if op == 3 {
        // sigma fill: an incrementing byte
        if pos + 1 > input.len() {
            None
        } else {
            spec_decomp_from(input, pos + 1, out + sigma_bytes(input[pos], n))
        }
    } else if op == 4 || op == 5 {
        // copy from an absolute position of the output, op 5 inverting
        if pos + 2 > input.len() {
            None
        } else {
            let addr = input[pos] + 0x100 * input[pos + 1];
            if addr >= out.len() {
                None
            } else {
                spec_decomp_from(input, pos + 2, extend_copy(out, addr, n, op == 5))
            }
        }
    } else {
        // ops 6 and 7: copy from an offset back from the end of the output,
        // op 7 inverting
        if pos + 1 > input.len() {
            None
        } else {
            let d = input[pos] as int;
            if d == 0 || d > out.len() {
                None
            } else {
                spec_decomp_from(input, pos + 1, extend_copy(out, out.len() - d, n, op == 7))
            }
        }
    }
}

/// The output of the decompressor on `input`, or `None` when the stream is
/// malformed.
pub open spec fn spec_decompress(input: Seq<u8>) -> Option<Seq<u8>> {
    spec_decomp_from(input, 0, Seq::empty())
}

/// Decode one compressed stream, reading `data` from its start.  Returns
/// exactly the model's output, and an error exactly when the model rejects
/// the stream.
pub fn decompress(data: &[u8]) -> (r: Result<Vec<u8>, SmError>)
    ensures
        match r {
            Ok(v) => spec_decompress(data@) == Some(v@),
            Err(e) => spec_decompress(data@) is None && (e is ShortRead
                || e is MalformedCompression),
        },
{
    let mut pos: usize = 0;
    let mut out: Vec<u8> = Vec::new();
    loop
        invariant
            pos <= data@.len(),
            spec_decompress(data@) == spec_decomp_from(data@, pos as int, out@),
        decreases data@.len() - pos,
    {
        if pos >= data.len() {
            return Err(SmError::ShortRead { needed: 1, got: 0 });
        }
        let b = data[pos];
        if b == 0xff {
            return Ok(out);
        }
        let op: u8;
        let n: usize;
        let opos: usize;
        if b >> 5u8 == 0x7 {
            if pos + 1 >= data.len() {
                return Err(SmError::ShortRead { needed: 2, got: 1 });
            }
            op = (b >> 2u8) & 0x7;
            proof {
                assert(b & 0x3 <= 3) by (bit_vector);
            }
            n = (b & 0x3) as usize * 0x100 + data[pos + 1] as usize + 1;
            opos = pos + 2;
        } else {
            op = b >> 5u8;
            proof {
                assert(b & 0x1f <= 0x1f) by (bit_vector);
            }
            n = (b & 0x1f) as usize + 1;
            opos = pos + 1;
        }
        proof {
            assert(n <= 0x400);
        }
        proof {
            assert(n >= 1);
            assert(op < 8) by (bit_vector)
                requires
                    op == (b >> 2u8) & 0x7 || op == b >> 5u8,
            ;
            assert(spec_decomp_from(data@, pos as int, out@) == spec_decomp_op(
                data@,
                opos as int,
                out@,
                op as int,
                n as nat,
            ));
        }
        let ghost out0 = out@;
        if op == 0 {
            if n > data.len() - opos {
                return Err(SmError::ShortRead { needed: n, got: data.len() - opos });
            }
            proof {
                assert(data.len() == data@.len());
            }
            let mut i: usize = 0;
            while i < n
                invariant
                    opos + n <= data@.len(),
                    data@.len() <= usize::MAX,
                    i <= n,
                    out@ == out0 + data@.subrange(opos as int, opos + i),
                decreases n - i,
            {
                out.push(data[opos + i]);
                i = i + 1;
                proof {
                    assert(out@ =~= out0 + data@.subrange(opos as int, opos + i));
                }
            }
            pos = opos + n;
        } else if op == 1 {
            if opos >= data.len() {
                return Err(SmError::ShortRead { needed: 1, got: 0 });
            }
            let x = data[opos];
            let mut i: usize = 0;
            while i < n
                invariant
                    i <= n,
                    out@ == out0 + rep_byte(x, i as nat),
                decreases n - i,
            {
                out.push(x);
                i = i + 1;
                proof {
                    assert(out@ =~= out0 + rep_byte(x, i as nat));
                }
            }
            pos = opos + 1;
        } else if op == 2 {
            if 2 > data.len() - opos {
                return Err(SmError::ShortRead { needed: 2, got: data.len() - opos });
            }
            let a = data[opos];
            let c = data[opos + 1];
            let mut i: usize = 0;
            while i < n
                invariant
                    i <= n,
                    out@ == out0 + alt_bytes(a, c, i as nat),
                decreases n - i,
            {
                if i % 2 == 0 {
                    out.push(a);
                } else {
                    out.push(c);
                }
                i = i + 1;
                proof {
                    assert(out@ =~= out0 + alt_bytes(a, c, i as nat));
                }
            }
            pos = opos + 2;
        } else if op == 3 {
            if opos >= data.len() {
                return Err(SmError::ShortRead { needed: 1, got: 0 });
            }
            let x = data[opos];
            let mut i: usize = 0;
            while i < n
                invariant
                    i <= n,
                    n <= 0x400,
                    out@ == out0 + sigma_bytes(x, i as nat),
                decreases n - i,
            {
                out.push(((x as usize + i) % 256) as u8);
                i = i + 1;
                proof {
                    assert(out@ =~= out0 + sigma_bytes(x, i as nat));
                }
            }
            pos = opos + 1;
        } else if op == 4 || op == 5 {
            if 2 > data.len() - opos {
                return Err(SmError::ShortRead { needed: 2, got: data.len() - opos });
            }
            let addr = data[opos] as usize + 0x100 * data[opos + 1] as usize;
            if addr >= out.len() {
                return Err(SmError::MalformedCompression { pos });
            }
            let invert = op == 5;
            let mut i: usize = 0;
            while i < n
                invariant
                    i <= n,
                    addr + i < out@.len(),
                    extend_copy(out0, addr as int, n as nat, invert) == extend_copy(
                        out@,
                        addr + i,
                        (n - i) as nat,
                        invert,
                    ),
                decreases n - i,
            {
                proof {
                    assert(out.len() == out@.len());
                }
                let v = out[addr + i];
                if invert {
                    out.push(v ^ 0xff);
                } else {
                    out.push(v);
                }
                i = i + 1;
            }
            pos = opos + 2;
            proof {
                assert(out@ == extend_copy(out0, addr as int, n as nat, invert));
            }
        } else if op == 6 || op == 7 {
            if opos >= data.len() {
                return Err(SmError::ShortRead { needed: 1, got: 0 });
            }
            let d = data[opos] as usize;
            if d == 0 || d > out.len() {
                return Err(SmError::MalformedCompression { pos });
            }
            let addr = out.len() - d;
            let invert = op == 7;
            let mut i: usize = 0;
            while i < n
                invariant
                    i <= n,
                    addr + i < out@.len(),
                    extend_copy(out0, addr as int, n as nat, invert) == extend_copy(
                        out@,
                        addr + i,
                        (n - i) as nat,
                        invert,
                    ),
                decreases n - i,
            {
                proof {
                    assert(out.len() == out@.len());
                }
                let v = out[addr + i];
                if invert {
                    out.push(v ^ 0xff);
                } else {
                    out.push(v);
                }
                i = i + 1;
            }
            pos = opos + 1;
            proof {
                assert(out@ == extend_copy(out0, addr as int, n as nat, invert));
            }
        } else {
            proof {
                assert(false);
            }
            return Err(SmError::MalformedCompression { pos });
        }
    }
}

} // verus!
