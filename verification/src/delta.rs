//! The delta instruction stream: reconstructing an object from a base
//! payload and a patch, as the pack format defines it.
//!
//! A delta opens with two varints — the expected base size and the target
//! size, seven bits per byte, least significant group first — followed by
//! instructions: a byte with the high bit set copies a masked-out range of
//! the base; a nonzero byte below 0x80 appends that many literal bytes; a
//! zero byte is reserved and corrupt.

use vstd::prelude::*;
use crate::GitError;
use crate::bytes::{extend_bytes, sub_bytes};

verus! {

/// The little-endian base-128 varint at `pos`, scaled by `mul`
/// (the weight `2^(7k)` of the group being read). Varints wider than
/// 64 bits of weight are malformed.
pub open spec fn parse_size_varint(d: Seq<u8>, pos: int, mul: nat) -> Option<(nat, int)>
    decreases d.len() - pos,
{
    if pos < 0 || pos >= d.len() || mul > 0x8000_0000_0000_0000 {
        None
    } else {
        let low = ((d[pos] & 0x7f) * mul) as nat;
        if d[pos] < 128 {
            Some((low, pos + 1))
        } else {
            match parse_size_varint(d, pos + 1, (mul * 128) as nat) {
                None => None,
                Some((v, p)) => Some(((low + v) as nat, p)),
            }
        }
    }
}

/// A parsed varint moves forward, stays in bounds, and its value is
/// bounded by the weights it may still use.
pub proof fn lemma_varint_bounds(d: Seq<u8>, pos: int, mul: nat)
    requires
        1 <= mul,
    ensures
        parse_size_varint(d, pos, mul) matches Some(vp) ==> {
            &&& pos < vp.1 <= d.len()
            &&& vp.0 + mul <= 0x8000_0000_0000_0000_00
        },
    decreases d.len() - pos,
{
    if pos >= 0 && pos < d.len() && mul <= 0x8000_0000_0000_0000 {
        let b = d[pos];
        assert(b & 0x7f < 128) by (bit_vector);
        let low = ((b & 0x7f) * mul) as nat;
        assert(low + mul <= 128 * mul) by (nonlinear_arith)
            requires
                (b & 0x7f) < 128,
                low == (b & 0x7f) * mul,
                1 <= mul,
        ;
        if b < 128 {
            assert(128 * mul <= 0x8000_0000_0000_0000_00);
        } else {
            lemma_varint_bounds(d, pos + 1, (mul * 128) as nat);
        }
    }
}

/// Reads the varint at `pos`; `mul` is the weight of the next group.
/// Fails with `CorruptDelta` exactly when the varint is malformed.
pub fn parse_varint(d: &Vec<u8>, pos: usize, mul: u64) -> (r: Result<(u128, usize), GitError>)
    requires
        pos <= d@.len(),
        1 <= mul <= 0x8000_0000_0000_0000,
    ensures
        match r {
            Ok((v, p)) => parse_size_varint(d@, pos as int, mul as nat) == Some((v as nat, p as int))
                && pos < p <= d@.len(),
            Err(e) => e == GitError::CorruptDelta && parse_size_varint(
                d@,
                pos as int,
                mul as nat,
            ) is None,
        },
    decreases d@.len() - pos,
{
    if pos >= d.len() {
        return Err(GitError::CorruptDelta);
    }
    let b = d[pos];
    let bl: u8 = b & 0x7f;
    proof {
        assert(b & 0x7f < 128) by (bit_vector);
        assert((bl as u128) * (mul as u128) <= 128 * 0x8000_0000_0000_0000) by (nonlinear_arith)
            requires
                bl < 128,
                mul <= 0x8000_0000_0000_0000,
        ;
    }
    let low: u128 = (bl as u128) * (mul as u128);
    if b < 128 {
        Ok((low, pos + 1))
    } else {
        if mul > 0x100_0000_0000_0000 {
            // the next group's weight would pass 2^63
            return Err(GitError::CorruptDelta);
        }
        match parse_varint(d, pos + 1, mul * 128) {
            Ok((v, p)) => {
                proof {
                    lemma_varint_bounds(d@, pos + 1 as int, (mul * 128) as nat);
                }
                Ok((low + v, p))
            },
            Err(e) => Err(e),
        }
    }
}

/// The value and end position of `count` little-endian bytes selected by
/// the low bits of `mask`, each present byte weighted by the running
/// `mul`; absent bytes contribute zero.
pub open spec fn read_masked(d: Seq<u8>, pos: int, mask: u8, count: nat, mul: nat) -> Option<
    (nat, int),
>
    decreases count,
{
    if count == 0 {
        Some((0, pos))
    } else if mask % 2 == 1 {
        if pos < 0 || pos >= d.len() {
            None
        } else {
            match read_masked(d, pos + 1, mask / 2, (count - 1) as nat, mul * 256) {
                None => None,
                Some((v, p)) => Some(((v + d[pos] * mul) as nat, p)),
            }
        }
    } else {
        read_masked(d, pos, mask / 2, (count - 1) as nat, mul * 256)
    }
}

/// A masked read moves forward at most `count` bytes and stays in bounds.
pub proof fn lemma_read_masked_bounds(d: Seq<u8>, pos: int, mask: u8, count: nat, mul: nat)
    requires
        0 <= pos <= d.len(),
    ensures
        read_masked(d, pos, mask, count, mul) matches Some(vp) ==> pos <= vp.1 <= d.len(),
    decreases count,
{
    if count > 0 {
        if mask % 2 == 1 {
            if 0 <= pos < d.len() {
                lemma_read_masked_bounds(d, pos + 1, mask / 2, (count - 1) as nat, mul * 256);
            }
        } else {
            lemma_read_masked_bounds(d, pos, mask / 2, (count - 1) as nat, mul * 256);
        }
    }
}

/// Reads the up-to-four offset bytes of a copy instruction, selected by
/// the low four bits of its first byte.
#[verifier::rlimit(60)]
fn read_offset_field(d: &Vec<u8>, pos: usize, omask: u8) -> (r: Result<(u64, usize), GitError>)
    requires
        pos <= d@.len(),
        omask < 16,
    ensures
        match r {
            Ok((off, p)) => read_masked(d@, pos as int, omask, 4, 1) == Some((off as nat, p as int))
                && pos <= p <= d@.len(),
            Err(e) => e == GitError::CorruptDelta && read_masked(d@, pos as int, omask, 4, 1) is None,
        },
{
    let ghost s = d@;
    let mut q: usize = pos;
    let mut off: u64 = 0;
    if omask % 2 == 1 {
        if q >= d.len() {
            return Err(GitError::CorruptDelta);
        }
        off = off + (d[q] as u64);
        q = q + 1;
    }
    let ghost q1 = q as int;
    let ghost off1 = off;
    if (omask / 2) % 2 == 1 {
        if q >= d.len() {
            proof {
                assert(read_masked(s, q1, (omask / 2) as u8, 3, 256) is None);
            }
            return Err(GitError::CorruptDelta);
        }
        off = off + (d[q] as u64) * 256;
        q = q + 1;
    }
    let ghost q2 = q as int;
    let ghost off2 = off;
    if (omask / 4) % 2 == 1 {
        if q >= d.len() {
            proof {
                assert(read_masked(s, q2, (omask / 4) as u8, 2, 0x10000) is None);
                assert(read_masked(s, q1, (omask / 2) as u8, 3, 256) is None);
            }
            return Err(GitError::CorruptDelta);
        }
        off = off + (d[q] as u64) * 0x10000;
        q = q + 1;
    }
    let ghost q3 = q as int;
    let ghost off3 = off;
    if (omask / 8) % 2 == 1 {
        if q >= d.len() {
            proof {
                assert(read_masked(s, q3, (omask / 8) as u8, 1, 0x1000000) is None);
                assert(read_masked(s, q2, (omask / 4) as u8, 2, 0x10000) is None);
                assert(read_masked(s, q1, (omask / 2) as u8, 3, 256) is None);
            }
            return Err(GitError::CorruptDelta);
        }
        off = off + (d[q] as u64) * 0x1000000;
        q = q + 1;
    }
    let ghost q4 = q as int;
    proof {
        assert(read_masked(s, q4, (omask / 16) as u8, 0, 0x100000000) == Some((0nat, q4)));
        assert(read_masked(s, q3, (omask / 8) as u8, 1, 0x1000000) == Some(
            ((off - off3) as nat, q4),
        ));
        assert(read_masked(s, q2, (omask / 4) as u8, 2, 0x10000) == Some(
            ((off - off2) as nat, q4),
        ));
        assert(read_masked(s, q1, (omask / 2) as u8, 3, 256) == Some(((off - off1) as nat, q4)));
        assert(read_masked(s, pos as int, omask, 4, 1) == Some((off as nat, q4)));
    }
    Ok((off, q))
}

/// Reads the up-to-three size bytes of a copy instruction, selected by
/// bits four to six of its first byte.
#[verifier::rlimit(60)]
fn read_size_field(d: &Vec<u8>, pos: usize, smask: u8) -> (r: Result<(u64, usize), GitError>)
    requires
        pos <= d@.len(),
        smask < 8,
    ensures
        match r {
            Ok((size, p)) => read_masked(d@, pos as int, smask, 3, 1) == Some(
                (size as nat, p as int),
            ) && pos <= p <= d@.len(),
            Err(e) => e == GitError::CorruptDelta && read_masked(d@, pos as int, smask, 3, 1) is None,
        },
{
    let ghost s = d@;
    let mut q: usize = pos;
    let mut size: u64 = 0;
    if smask % 2 == 1 {
        if q >= d.len() {
            return Err(GitError::CorruptDelta);
        }
        size = size + (d[q] as u64);
        q = q + 1;
    }
    let ghost q1 = q as int;
    let ghost size1 = size;
    if (smask / 2) % 2 == 1 {
        if q >= d.len() {
            proof {
                assert(read_masked(s, q1, (smask / 2) as u8, 2, 256) is None);
            }
            return Err(GitError::CorruptDelta);
        }
        size = size + (d[q] as u64) * 256;
        q = q + 1;
    }
    let ghost q2 = q as int;
    let ghost size2 = size;
    if (smask / 4) % 2 == 1 {
        if q >= d.len() {
            proof {
                assert(read_masked(s, q2, (smask / 4) as u8, 1, 0x10000) is None);
                assert(read_masked(s, q1, (smask / 2) as u8, 2, 256) is None);
            }
            return Err(GitError::CorruptDelta);
        }
        size = size + (d[q] as u64) * 0x10000;
        q = q + 1;
    }
    let ghost q3 = q as int;
    proof {
        assert(read_masked(s, q3, (smask / 8) as u8, 0, 0x1000000) == Some((0nat, q3)));
        assert(read_masked(s, q2, (smask / 4) as u8, 1, 0x10000) == Some(
            ((size - size2) as nat, q3),
        ));
        assert(read_masked(s, q1, (smask / 2) as u8, 2, 256) == Some(
            ((size - size1) as nat, q3),
        ));
        assert(read_masked(s, pos as int, smask, 3, 1) == Some((size as nat, q3)));
    }
    Ok((size, q))
}

/// Reads the offset and size fields of a copy instruction whose first
/// byte is `c`, starting just past `c`.
fn read_copy_fields(d: &Vec<u8>, pos: usize, c: u8) -> (r: Result<(u64, u64, usize), GitError>)
    requires
        pos <= d@.len(),
    ensures
        match r {
            Ok((off, size, p)) => {
                &&& read_masked(d@, pos as int, (c % 16) as u8, 4, 1) matches Some(ovp)
                    && ovp.0 == off && read_masked(d@, ovp.1, ((c / 16) % 8) as u8, 3, 1)
                    == Some((size as nat, p as int))
                &&& pos <= p <= d@.len()
            },
            Err(e) => e == GitError::CorruptDelta && {
                ||| read_masked(d@, pos as int, (c % 16) as u8, 4, 1) is None
                ||| {
                    &&& read_masked(d@, pos as int, (c % 16) as u8, 4, 1) matches Some(ovp)
                    &&& read_masked(d@, ovp.1, ((c / 16) % 8) as u8, 3, 1) is None
                }
            },
        },
{
    let (off, p1) = match read_offset_field(d, pos, c % 16) {
        Ok(vp) => vp,
        Err(e) => {
            return Err(e);
        },
    };
    let (size, p2) = match read_size_field(d, p1, (c / 16) % 8) {
        Ok(vp) => vp,
        Err(e) => {
            return Err(e);
        },
    };
    Ok((off, size, p2))
}

/// Runs the instruction stream of `d` from `pos` onward against `base`,
/// with `acc` the output built so far.
pub open spec fn run_delta(base: Seq<u8>, d: Seq<u8>, pos: int, acc: Seq<u8>) -> Option<Seq<u8>>
    decreases d.len() - pos,
    via run_delta_dec
{
    if pos == d.len() {
        Some(acc)
    } else if pos < 0 || pos > d.len() {
        None
    } else {
        let c = d[pos];
        if c == 0 {
            None
        } else if c < 128 {
            if pos + 1 + c > d.len() {
                None
            } else {
                run_delta(base, d, pos + 1 + c, acc + d.subrange(pos + 1, pos + 1 + c))
            }
        } else {
            match read_masked(d, pos + 1, (c % 16) as u8, 4, 1) {
                None => None,
                Some((off, p1)) => match read_masked(d, p1, ((c / 16) % 8) as u8, 3, 1) {
                    None => None,
                    Some((size0, p2)) => {
                        let size = if size0 == 0 {
                            0x10000nat
                        } else {
                            size0
                        };
                        if off + size > base.len() || p2 > d.len() {
                            None
                        } else {
                            run_delta(base, d, p2, acc + base.subrange(off as int, (off + size) as int))
                        }
                    },
                },
            }
        }
    }
}

#[via_fn]
proof fn run_delta_dec(base: Seq<u8>, d: Seq<u8>, pos: int, acc: Seq<u8>) {
    if 0 <= pos < d.len() {
        let c = d[pos];
        if c >= 128 {
            lemma_read_masked_bounds(d, pos + 1, (c % 16) as u8, 4, 1);
            match read_masked(d, pos + 1, (c % 16) as u8, 4, 1) {
                Some((off, p1)) => {
                    lemma_read_masked_bounds(d, p1, ((c / 16) % 8) as u8, 3, 1);
                },
                None => {},
            }
        }
    }
}

/// What applying delta `d` to `base` produces: the base size must match,
/// the instructions must be well formed, and the output must have the
/// declared target size.
pub open spec fn apply_delta_spec(base: Seq<u8>, d: Seq<u8>) -> Option<Seq<u8>> {
    match parse_size_varint(d, 0, 1) {
        None => None,
        Some((bsize, p1)) => if bsize != base.len() {
            None
        } else {
            match parse_size_varint(d, p1, 1) {
                None => None,
                Some((tsize, p2)) => match run_delta(base, d, p2, Seq::empty()) {
                    None => None,
                    Some(t) => if t.len() == tsize {
                        Some(t)
                    } else {
                        None
                    },
                },
            }
        },
    }
}

/// Applies a delta instruction stream to a base payload, byte-exactly as
/// the pack format defines it; fails with `CorruptDelta` exactly when the
/// stream is malformed or a declared size disagrees.
#[verifier::loop_isolation(false)]
pub fn apply_delta(base: &Vec<u8>, d: &Vec<u8>) -> (r: Result<Vec<u8>, GitError>)
    ensures
        match r {
            Ok(t) => apply_delta_spec(base@, d@) == Some(t@),
            Err(e) => e == GitError::CorruptDelta && apply_delta_spec(base@, d@) is None,
        },
{
    let ghost bs = base@;
    let ghost ds = d@;
    let (bsize, p1) = match parse_varint(d, 0, 1) {
        Ok(vp) => vp,
        Err(e) => {
            return Err(e);
        },
    };
    if bsize != base.len() as u128 {
        return Err(GitError::CorruptDelta);
    }
    let (tsize, p2) = match parse_varint(d, p1, 1) {
        Ok(vp) => vp,
        Err(e) => {
            return Err(e);
        },
    };
    let mut out: Vec<u8> = Vec::new();
    let mut pos: usize = p2;
    while pos < d.len()
        invariant
            pos <= ds.len(),
            d@ == ds,
            base@ == bs,
            run_delta(bs, ds, p2 as int, Seq::empty()) == run_delta(bs, ds, pos as int, out@),
        decreases ds.len() - pos,
    {
        let c = d[pos];
        if c == 0 {
            proof {
                assert(run_delta(bs, ds, pos as int, out@) is None);
            }
            return Err(GitError::CorruptDelta);
        } else if c < 128 {
            let n = c as usize;
            if n > d.len() - pos - 1 {
                proof {
                    assert(pos + 1 + c > ds.len());
                    assert(run_delta(bs, ds, pos as int, out@) is None);
                }
                return Err(GitError::CorruptDelta);
            }
            let lit = sub_bytes(d, pos + 1, pos + 1 + n);
            extend_bytes(&mut out, &lit);
            pos = pos + 1 + n;
        } else {
            let (off, size0, p3) = match read_copy_fields(d, pos + 1, c) {
                Ok(f) => f,
                Err(e) => {
                    return Err(e);
                },
            };
            let size: u64 = if size0 == 0 {
                0x10000
            } else {
                size0
            };
            if off > base.len() as u64 || size > base.len() as u64 - off {
                return Err(GitError::CorruptDelta);
            }
            let piece = sub_bytes(base, off as usize, (off + size) as usize);
            extend_bytes(&mut out, &piece);
            pos = p3;
        }
    }
    if (out.len() as u128) == tsize {
        Ok(out)
    } else {
        Err(GitError::CorruptDelta)
    }
}

} // verus!
