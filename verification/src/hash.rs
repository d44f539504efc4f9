//! Object identity: the SHA-1 digest over the wrapped form, and the
//! hexadecimal rendering used for file names and on the wire.

use vstd::prelude::*;

#[allow(unused_imports)]
use sha1::Digest;

verus! {

/// The 20-byte SHA-1 digest of `data`. The digest depends on the bytes alone.
pub uninterp spec fn sha1_of(data: Seq<u8>) -> Seq<u8>;

/// Relies on sha1's `Digest::digest`: the SHA-1 digest of the input bytes,
/// always 20 bytes long, a function of the input alone.
#[verifier::external_body]
pub fn sha1_digest(data: &Vec<u8>) -> (r: Vec<u8>)
    ensures
        r@ == sha1_of(data@),
        r@.len() == 20,
{
    let mut hasher = sha1::Sha1::new();
    hasher.update(data.as_slice());
    hasher.finalize().to_vec()
}

/// The lowercase hexadecimal character for a nibble value below 16.
pub open spec fn hex_digit(n: u8) -> char {
    if n < 10 {
        (48 + n) as char
    } else {
        (87 + n) as char
    }
}

/// The lowercase hexadecimal rendering of `data`, two characters per byte,
/// high nibble first.
pub open spec fn hex_of(data: Seq<u8>) -> Seq<char>
    decreases data.len(),
{
    if data.len() == 0 {
        Seq::empty()
    } else {
        seq![hex_digit(data.first() / 16), hex_digit(data.first() % 16)] + hex_of(
            data.drop_first(),
        )
    }
}

/// Relies on hex::encode: the lowercase hexadecimal string of the bytes,
/// high nibble of each byte first.
#[verifier::external_body]
pub fn hex_encode(data: &Vec<u8>) -> (r: String)
    ensures
        r@ == hex_of(data@),
{
    hex::encode(data.as_slice())
}

/// The bytes a lowercase hex rendering decodes to: two digits per byte,
/// high nibble first; odd lengths and other bytes decode to nothing.
pub open spec fn parse_hex_bytes(h: Seq<u8>) -> Option<Seq<u8>>
    decreases h.len(),
{
    if h.len() == 0 {
        Some(Seq::empty())
    } else if h.len() == 1 {
        None
    } else if crate::pkt::is_hex_byte(h[0]) && crate::pkt::is_hex_byte(h[1]) {
        match parse_hex_bytes(h.subrange(2, h.len() as int)) {
            None => None,
            Some(rest) => Some(
                seq![(crate::pkt::hex_byte_val(h[0]) * 16 + crate::pkt::hex_byte_val(h[1])) as u8]
                    + rest,
            ),
        }
    } else {
        None
    }
}

/// Decodes a lowercase hex rendering into its bytes; `None` exactly when
/// it is not one.
#[verifier::loop_isolation(false)]
pub fn hex_to_bin(h: &Vec<u8>) -> (r: Option<Vec<u8>>)
    ensures
        match r {
            Some(v) => parse_hex_bytes(h@) == Some(v@),
            None => parse_hex_bytes(h@) is None,
        },
{
    let ghost hs = h@;
    let mut out: Vec<u8> = Vec::new();
    let mut pos: usize = 0;
    proof {
        assert(hs.subrange(0, hs.len() as int) =~= hs);
        match parse_hex_bytes(hs) {
            Some(rest) => {
                assert(out@ + rest =~= rest);
            },
            None => {},
        }
    }
    while pos < h.len()
        invariant
            pos <= hs.len(),
            match parse_hex_bytes(hs.subrange(pos as int, hs.len() as int)) {
                Some(rest) => parse_hex_bytes(hs) == Some(out@ + rest),
                None => parse_hex_bytes(hs) is None,
            },
        decreases hs.len() - pos,
    {
        let ghost rem = hs.subrange(pos as int, hs.len() as int);
        if h.len() - pos == 1 {
            return None;
        }
        let hi = h[pos];
        let lo = h[pos + 1];
        let hv: u8 = if 48 <= hi && hi <= 57 {
            hi - 48
        } else if 97 <= hi && hi <= 102 {
            hi - 87
        } else {
            return None;
        };
        let lv: u8 = if 48 <= lo && lo <= 57 {
            lo - 48
        } else if 97 <= lo && lo <= 102 {
            lo - 87
        } else {
            return None;
        };
        let ghost prev = out@;
        out.push(hv * 16 + lv);
        pos = pos + 2;
        proof {
            assert(rem[0] == hi && rem[1] == lo);
            assert(rem.subrange(2, rem.len() as int) =~= hs.subrange(pos as int, hs.len() as int));
            match parse_hex_bytes(hs.subrange(pos as int, hs.len() as int)) {
                Some(rest) => {
                    assert(prev + (seq![(crate::pkt::hex_byte_val(rem[0]) * 16
                        + crate::pkt::hex_byte_val(rem[1])) as u8] + rest) =~= out@ + rest);
                },
                None => {},
            }
        }
    }
    proof {
        assert(hs.subrange(hs.len() as int, hs.len() as int) =~= Seq::<u8>::empty());
        assert(out@ + Seq::<u8>::empty() =~= out@);
    }
    Some(out)
}

} // verus!
