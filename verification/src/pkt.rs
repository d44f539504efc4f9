//! pkt-line framing: each record opens with four lowercase hex digits
//! giving its total length, `0000` is a flush; and the upload-pack
//! request body built from `want` lines.

use vstd::prelude::*;
use crate::GitError;
use crate::bytes::{extend_bytes, sub_bytes};

verus! {

/// Is `b` a lowercase hexadecimal digit byte?
pub open spec fn is_hex_byte(b: u8) -> bool {
    48 <= b <= 57 || 97 <= b <= 102
}

/// The value of a lowercase hexadecimal digit byte.
pub open spec fn hex_byte_val(b: u8) -> nat {
    if 48 <= b <= 57 {
        (b - 48) as nat
    } else {
        (b - 87) as nat
    }
}

/// The value of the four-digit length prefix at `pos`.
pub open spec fn pkt_len_at(d: Seq<u8>, pos: int) -> nat {
    (hex_byte_val(d[pos]) * 4096 + hex_byte_val(d[pos + 1]) * 256 + hex_byte_val(d[pos + 2]) * 16
        + hex_byte_val(d[pos + 3])) as nat
}

/// The payloads of the pkt-line records of `d` from `pos` on: flush
/// packets are skipped, every record must be framed exactly, and the
/// stream must end on a record boundary.
pub open spec fn parse_pkt_lines(d: Seq<u8>, pos: int) -> Option<Seq<Seq<u8>>>
    decreases d.len() - pos,
{
    if pos == d.len() {
        Some(Seq::empty())
    } else if pos < 0 || pos + 4 > d.len() {
        None
    } else if !(is_hex_byte(d[pos]) && is_hex_byte(d[pos + 1]) && is_hex_byte(d[pos + 2])
        && is_hex_byte(d[pos + 3])) {
        None
    } else {
        let n = pkt_len_at(d, pos);
        if n == 0 {
            parse_pkt_lines(d, pos + 4)
        } else if n < 4 || pos + n > d.len() {
            None
        } else {
            match parse_pkt_lines(d, pos + n) {
                None => None,
                Some(rest) => Some(seq![d.subrange(pos + 4, pos + n)] + rest),
            }
        }
    }
}

/// Reads the four-digit length prefix at `pos`.
fn read_pkt_len(d: &Vec<u8>, pos: usize) -> (r: Option<u32>)
    requires
        pos + 4 <= d@.len(),
    ensures
        match r {
            Some(n) => {
                &&& is_hex_byte(d@[pos as int]) && is_hex_byte(d@[pos + 1]) && is_hex_byte(
                    d@[pos + 2],
                ) && is_hex_byte(d@[pos + 3])
                &&& n == pkt_len_at(d@, pos as int)
            },
            None => !(is_hex_byte(d@[pos as int]) && is_hex_byte(d@[pos + 1]) && is_hex_byte(
                d@[pos + 2],
            ) && is_hex_byte(d@[pos + 3])),
        },
{
    let dl = d.len();
    let v0 = match hex_byte_value(d[pos]) {
        Some(v) => v,
        None => {
            return None;
        },
    };
    let v1 = match hex_byte_value(d[pos + 1]) {
        Some(v) => v,
        None => {
            return None;
        },
    };
    let v2 = match hex_byte_value(d[pos + 2]) {
        Some(v) => v,
        None => {
            return None;
        },
    };
    let v3 = match hex_byte_value(d[pos + 3]) {
        Some(v) => v,
        None => {
            return None;
        },
    };
    Some((v0 as u32) * 4096 + (v1 as u32) * 256 + (v2 as u32) * 16 + (v3 as u32))
}

/// The value of one lowercase hexadecimal digit byte, if it is one.
fn hex_byte_value(b: u8) -> (r: Option<u8>)
    ensures
        match r {
            Some(v) => is_hex_byte(b) && v == hex_byte_val(b) && v <= 15,
            None => !is_hex_byte(b),
        },
{
    if 48 <= b && b <= 57 {
        Some(b - 48)
    } else if 97 <= b && b <= 102 {
        Some(b - 87)
    } else {
        None
    }
}

/// Splits a response body into its pkt-line payloads; fails with
/// `BadPack` exactly when the framing is broken.
#[verifier::loop_isolation(false)]
pub fn scan_pkt_lines(d: &Vec<u8>) -> (r: Result<Vec<Vec<u8>>, GitError>)
    ensures
        match r {
            Ok(ls) => parse_pkt_lines(d@, 0) == Some(ls@.map_values(|l: Vec<u8>| l@)),
            Err(e) => e == GitError::BadPack && parse_pkt_lines(d@, 0) is None,
        },
{
    let ghost ds = d@;
    let mut out: Vec<Vec<u8>> = Vec::new();
    let mut pos: usize = 0;
    proof {
        assert(out@.map_values(|l: Vec<u8>| l@) =~= Seq::<Seq<u8>>::empty());
        match parse_pkt_lines(ds, 0) {
            Some(rest) => {
                assert(Seq::<Seq<u8>>::empty() + rest =~= rest);
            },
            None => {},
        }
    }
    while pos < d.len()
        invariant
            pos <= ds.len(),
            match parse_pkt_lines(ds, pos as int) {
                Some(rest) => parse_pkt_lines(ds, 0) == Some(
                    out@.map_values(|l: Vec<u8>| l@) + rest,
                ),
                None => parse_pkt_lines(ds, 0) is None,
            },
        decreases ds.len() - pos,
    {
        if d.len() - pos < 4 {
            return Err(GitError::BadPack);
        }
        let n = match read_pkt_len(d, pos) {
            Some(n) => n,
            None => {
                return Err(GitError::BadPack);
            },
        };
        if n == 0 {
            pos = pos + 4;
            continue;
        }
        if n < 4 || (n as usize) > d.len() - pos {
            return Err(GitError::BadPack);
        }
        let line = sub_bytes(d, pos + 4, pos + n as usize);
        let ghost prev = out@;
        out.push(line);
        pos = pos + n as usize;
        proof {
            assert(out@.map_values(|l: Vec<u8>| l@) =~= prev.map_values(|l: Vec<u8>| l@).push(
                ds.subrange(pos - n + 4, pos as int),
            ));
            match parse_pkt_lines(ds, pos as int) {
                Some(rest) => {
                    assert(prev.map_values(|l: Vec<u8>| l@) + (seq![
                        ds.subrange(pos - n + 4, pos as int),
                    ] + rest) =~= out@.map_values(|l: Vec<u8>| l@) + rest);
                },
                None => {},
            }
        }
    }
    proof {
        match parse_pkt_lines(ds, ds.len() as int) {
            Some(rest) => {
                assert(out@.map_values(|l: Vec<u8>| l@) + rest =~= out@.map_values(
                    |l: Vec<u8>| l@,
                ));
            },
            None => {},
        }
    }
    Ok(out)
}

/// Where the raw pack begins in an upload-pack response: the
/// acknowledgement region is pkt-line framed, and the pack stream starts
/// at its `PACK` signature.
pub open spec fn pack_start(d: Seq<u8>, pos: int) -> Option<int>
    decreases d.len() - pos,
{
    if pos < 0 || pos + 4 > d.len() {
        None
    } else if d[pos] == 80 && d[pos + 1] == 65 && d[pos + 2] == 67 && d[pos + 3] == 75 {
        Some(pos)
    } else if is_hex_byte(d[pos]) && is_hex_byte(d[pos + 1]) && is_hex_byte(d[pos + 2])
        && is_hex_byte(d[pos + 3]) {
        let nv = pkt_len_at(d, pos);
        if nv == 0 {
            pack_start(d, pos + 4)
        } else if nv < 4 || pos + nv > d.len() {
            None
        } else {
            pack_start(d, pos + nv)
        }
    } else {
        None
    }
}

/// Slices the raw pack out of an upload-pack response body; fails with
/// `BadPack` exactly when no pkt-line framed prefix leads to the
/// signature.
#[verifier::loop_isolation(false)]
pub fn upload_pack_response_pack(d: &Vec<u8>) -> (r: Result<Vec<u8>, GitError>)
    ensures
        match r {
            Ok(p) => {
                &&& pack_start(d@, 0) matches Some(s)
                &&& p@ == d@.subrange(pack_start(d@, 0)->0, d@.len() as int)
            },
            Err(e) => e == GitError::BadPack && pack_start(d@, 0) is None,
        },
{
    let ghost ds = d@;
    let mut pos: usize = 0;
    loop
        invariant
            pos <= ds.len(),
            pack_start(ds, 0) == pack_start(ds, pos as int),
        decreases ds.len() - pos,
    {
        if d.len() - pos < 4 {
            return Err(GitError::BadPack);
        }
        if d[pos] == 80 && d[pos + 1] == 65 && d[pos + 2] == 67 && d[pos + 3] == 75 {
            return Ok(sub_bytes(d, pos, d.len()));
        }
        let n = match read_pkt_len(d, pos) {
            Some(n) => n,
            None => {
                return Err(GitError::BadPack);
            },
        };
        if n == 0 {
            pos = pos + 4;
        } else if n < 4 || (n as usize) > d.len() - pos {
            return Err(GitError::BadPack);
        } else {
            pos = pos + n as usize;
        }
    }
}

/// One `want` line for a 40-character identifier, framed as a pkt-line
/// of length `0x32`.
pub open spec fn want_line(h: Seq<u8>) -> Seq<u8> {
    seq![48u8, 48u8, 51u8, 50u8, 119u8, 97u8, 110u8, 116u8, 32u8] + h + seq![10u8]
}

/// The upload-pack request body: one `want` per identifier, a flush,
/// then `done`.
pub open spec fn upload_pack_request(hs: Seq<Seq<u8>>) -> Seq<u8>
    decreases hs.len(),
{
    if hs.len() == 0 {
        seq![48u8, 48u8, 48u8, 48u8, 48u8, 48u8, 48u8, 57u8, 100u8, 111u8, 110u8, 101u8, 10u8]
    } else {
        want_line(hs.first()) + upload_pack_request(hs.drop_first())
    }
}

/// The identifiers with later repeats dropped, first occurrences kept in
/// order.
pub open spec fn dedup_first(hs: Seq<Seq<u8>>) -> Seq<Seq<u8>>
    decreases hs.len(),
{
    if hs.len() == 0 {
        Seq::empty()
    } else if dedup_first(hs.drop_last()).contains(hs.last()) {
        dedup_first(hs.drop_last())
    } else {
        dedup_first(hs.drop_last()).push(hs.last())
    }
}

/// Is `x` held by some element of `hs`?
fn vec_contains_bytes(hs: &Vec<Vec<u8>>, x: &Vec<u8>) -> (r: bool)
    ensures
        r == hs@.map_values(|l: Vec<u8>| l@).contains(x@),
{
    let ghost views = hs@.map_values(|l: Vec<u8>| l@);
    let mut i: usize = 0;
    while i < hs.len()
        invariant
            i <= hs@.len(),
            views == hs@.map_values(|l: Vec<u8>| l@),
            forall|j: int| 0 <= j < i ==> views[j] != x@,
        decreases hs@.len() - i,
    {
        if crate::bytes::bytes_eq(&hs[i], x) {
            assert(views[i as int] == x@);
            return true;
        }
        i += 1;
    }
    false
}

/// Builds the upload-pack request for the wanted identifiers, repeats
/// sent once. The `0x32` frame length is right only for 40-character
/// ids, so only those are accepted.
#[verifier::loop_isolation(false)]
pub fn build_upload_pack_request(hashes: &Vec<Vec<u8>>) -> (r: Vec<u8>)
    requires
        forall|i: int| 0 <= i < hashes@.len() ==> (#[trigger] hashes@[i])@.len() == 40,
    ensures
        r@ == upload_pack_request(dedup_first(hashes@.map_values(|l: Vec<u8>| l@))),
{
    let ghost views = hashes@.map_values(|l: Vec<u8>| l@);
    let mut uniq: Vec<Vec<u8>> = Vec::new();
    let mut i: usize = 0;
    proof {
        assert(views.subrange(0, 0) =~= Seq::<Seq<u8>>::empty());
        assert(dedup_first(views.subrange(0, 0)) =~= Seq::<Seq<u8>>::empty());
        assert(uniq@.map_values(|l: Vec<u8>| l@) =~= Seq::<Seq<u8>>::empty());
    }
    while i < hashes.len()
        invariant
            i <= views.len(),
            uniq@.map_values(|l: Vec<u8>| l@) == dedup_first(views.subrange(0, i as int)),
        decreases views.len() - i,
    {
        let h = sub_bytes(&hashes[i], 0, hashes[i].len());
        proof {
            assert(h@ =~= views[i as int]);
            assert(views.subrange(0, i + 1).drop_last() =~= views.subrange(0, i as int));
            assert(views.subrange(0, i + 1).last() == views[i as int]);
        }
        if !vec_contains_bytes(&uniq, &h) {
            let ghost prev = uniq@;
            uniq.push(h);
            proof {
                assert(uniq@.map_values(|l: Vec<u8>| l@) =~= prev.map_values(
                    |l: Vec<u8>| l@,
                ).push(views[i as int]));
            }
        }
        i += 1;
    }
    proof {
        assert(views.subrange(0, views.len() as int) =~= views);
    }
    // one pkt-line per unique identifier, then flush and done
    let ghost uv = uniq@.map_values(|l: Vec<u8>| l@);
    let mut out: Vec<u8> = Vec::new();
    let mut k: usize = 0;
    proof {
        assert(uv.skip(0) =~= uv);
    }
    while k < uniq.len()
        invariant
            k <= uv.len(),
            upload_pack_request(uv) =~= out@ + upload_pack_request(uv.skip(k as int)),
        decreases uv.len() - k,
    {
        // "0032want "
        out.push(48);
        out.push(48);
        out.push(51);
        out.push(50);
        out.push(119);
        out.push(97);
        out.push(110);
        out.push(116);
        out.push(32);
        extend_bytes(&mut out, &uniq[k]);
        out.push(10);
        proof {
            assert(uv.skip(k as int).first() == uv[k as int]);
            assert(uv.skip(k as int).drop_first() =~= uv.skip(k + 1));
            assert(upload_pack_request(uv) =~= out@ + upload_pack_request(uv.skip(k + 1)));
        }
        k += 1;
    }
    // flush "0000", then "0009done\n"
    out.push(48);
    out.push(48);
    out.push(48);
    out.push(48);
    out.push(48);
    out.push(48);
    out.push(48);
    out.push(57);
    out.push(100);
    out.push(111);
    out.push(110);
    out.push(101);
    out.push(10);
    proof {
        assert(uv.skip(uv.len() as int) =~= Seq::<Seq<u8>>::empty());
        assert(out@ =~= upload_pack_request(uv));
    }
    out
}

} // verus!
