//! The four object kinds and their canonical byte form:
//! `type_name " " decimal_length 0x00 payload`, stored zlib-deflated.

use vstd::prelude::*;
use crate::GitError;
use crate::bytes::{
    bytes_eq, dec_of, extend_bytes, find_byte, find_first, is_digit, lemma_dec_of_digits,
    lemma_find_byte_at, sub_bytes, u64_to_dec,
};
use crate::hash::{hex_encode, hex_of, sha1_digest, sha1_of};
use crate::zlib::{inflate_prefix_of, zlib_deflate, zlib_inflate_prefix};

verus! {

/// The kind tag of an object; the serialization discriminator and the
/// dispatch key for consumers.
#[derive(Clone, Copy, PartialEq, Eq, Structural, Debug)]
pub enum GitObjectType {
    Blob,
    Commit,
    Tag,
    Tree,
}

/// The ASCII name of an object kind.
pub open spec fn kind_name(t: GitObjectType) -> Seq<u8> {
    match t {
        GitObjectType::Blob => seq![98u8, 108u8, 111u8, 98u8],
        GitObjectType::Commit => seq![99u8, 111u8, 109u8, 109u8, 105u8, 116u8],
        GitObjectType::Tag => seq![116u8, 97u8, 103u8],
        GitObjectType::Tree => seq![116u8, 114u8, 101u8, 101u8],
    }
}

/// The kind whose ASCII name is `s`, if any.
pub open spec fn kind_of_name(s: Seq<u8>) -> Option<GitObjectType> {
    if s == kind_name(GitObjectType::Blob) {
        Some(GitObjectType::Blob)
    } else if s == kind_name(GitObjectType::Commit) {
        Some(GitObjectType::Commit)
    } else if s == kind_name(GitObjectType::Tag) {
        Some(GitObjectType::Tag)
    } else if s == kind_name(GitObjectType::Tree) {
        Some(GitObjectType::Tree)
    } else {
        None
    }
}

/// The canonical wrapped form hashed and stored for an object:
/// `type_name " " decimal_length 0x00 payload`.
pub open spec fn encode_obj_spec(t: GitObjectType, p: Seq<u8>) -> Seq<u8> {
    kind_name(t) + seq![32u8] + dec_of(p.len()) + seq![0u8] + p
}

/// The object identifier of `(t, p)`: the SHA-1 digest of the wrapped form.
pub open spec fn oid_of(t: GitObjectType, p: Seq<u8>) -> Seq<u8> {
    sha1_of(encode_obj_spec(t, p))
}

/// Reads a wrapped form back into its kind and payload. The header must
/// end at the first 0x00, name a known kind, and carry the payload length
/// in canonical decimal (no leading zero).
pub open spec fn parse_obj_spec(c: Seq<u8>) -> Option<(GitObjectType, Seq<u8>)> {
    let i = find_byte(c, 0);
    if i < 0 {
        None
    } else {
        let header = c.subrange(0, i);
        let payload = c.subrange(i + 1, c.len() as int);
        let j = find_byte(header, 32);
        if j < 0 {
            None
        } else {
            let name = header.subrange(0, j);
            let digits = header.subrange(j + 1, header.len() as int);
            match kind_of_name(name) {
                Some(t) => if digits == dec_of(payload.len()) {
                    Some((t, payload))
                } else {
                    None
                },
                None => None,
            }
        }
    }
}

/// A kind's name holds neither 0x00 nor the space separator.
pub proof fn lemma_kind_name_bytes(t: GitObjectType)
    ensures
        1 <= kind_name(t).len() <= 6,
        forall|i: int|
            0 <= i < kind_name(t).len() ==> kind_name(t)[i] != 0 && kind_name(t)[i] != 32
                && !is_digit(kind_name(t)[i]),
{
    let s = kind_name(t);
    match t {
        GitObjectType::Blob => {
            assert forall|i: int| 0 <= i < s.len() implies s[i] != 0 && s[i] != 32 && !is_digit(
                s[i],
            ) by {
                assert(s[0] == 98 && s[1] == 108 && s[2] == 111 && s[3] == 98);
            }
        },
        GitObjectType::Commit => {
            assert forall|i: int| 0 <= i < s.len() implies s[i] != 0 && s[i] != 32 && !is_digit(
                s[i],
            ) by {
                assert(s[0] == 99 && s[1] == 111 && s[2] == 109 && s[3] == 109 && s[4] == 105
                    && s[5] == 116);
            }
        },
        GitObjectType::Tag => {
            assert forall|i: int| 0 <= i < s.len() implies s[i] != 0 && s[i] != 32 && !is_digit(
                s[i],
            ) by {
                assert(s[0] == 116 && s[1] == 97 && s[2] == 103);
            }
        },
        GitObjectType::Tree => {
            assert forall|i: int| 0 <= i < s.len() implies s[i] != 0 && s[i] != 32 && !is_digit(
                s[i],
            ) by {
                assert(s[0] == 116 && s[1] == 114 && s[2] == 101 && s[3] == 101);
            }
        },
    }
}

/// Each kind is recovered from its own name.
pub proof fn lemma_kind_of_name(t: GitObjectType)
    ensures
        kind_of_name(kind_name(t)) == Some(t),
{
    match t {
        GitObjectType::Blob => {},
        GitObjectType::Commit => {
            assert(kind_name(GitObjectType::Commit) != kind_name(GitObjectType::Blob));
        },
        GitObjectType::Tag => {
            assert(kind_name(GitObjectType::Tag) != kind_name(GitObjectType::Blob));
            assert(kind_name(GitObjectType::Tag) != kind_name(GitObjectType::Commit));
        },
        GitObjectType::Tree => {
            assert(kind_name(GitObjectType::Tree) != kind_name(GitObjectType::Blob));
            assert(kind_name(GitObjectType::Tree) != kind_name(GitObjectType::Commit));
            assert(kind_name(GitObjectType::Tree) != kind_name(GitObjectType::Tag));
        },
    }
}

/// Reading a wrapped form back yields the kind and payload it was made
/// from, for every kind and every payload.
pub proof fn lemma_object_round_trip(t: GitObjectType, p: Seq<u8>)
    ensures
        parse_obj_spec(encode_obj_spec(t, p)) == Some((t, p)),
{
    let c = encode_obj_spec(t, p);
    let name = kind_name(t);
    let digits = dec_of(p.len());
    let hlen = name.len() + 1 + digits.len();
    lemma_kind_name_bytes(t);
    lemma_dec_of_digits(p.len());
    assert(c.len() == hlen + 1 + p.len());
    assert(c[hlen as int] == 0);
    assert forall|j: int| 0 <= j < hlen implies c[j] != 0 by {
        if j < name.len() {
            assert(c[j] == name[j]);
        } else if j == name.len() {
            assert(c[j] == 32);
        } else {
            assert(c[j] == digits[j - name.len() - 1]);
            assert(is_digit(digits[j - name.len() - 1]));
        }
    }
    lemma_find_byte_at(c, 0, hlen as int);
    let header = c.subrange(0, hlen as int);
    assert(header =~= name + seq![32u8] + digits);
    assert(header[name.len() as int] == 32);
    assert forall|j: int| 0 <= j < name.len() implies header[j] != 32 by {
        assert(header[j] == name[j]);
    }
    lemma_find_byte_at(header, 32, name.len() as int);
    assert(header.subrange(0, name.len() as int) =~= name);
    lemma_kind_of_name(t);
    assert(header.subrange(name.len() + 1 as int, header.len() as int) =~= digits);
    assert(c.subrange(hlen + 1 as int, c.len() as int) =~= p);
}

/// The name of a kind as fresh bytes.
pub fn kind_name_bytes(t: GitObjectType) -> (r: Vec<u8>)
    ensures
        r@ == kind_name(t),
{
    let mut v: Vec<u8> = Vec::new();
    match t {
        GitObjectType::Blob => {
            v.push(98);
            v.push(108);
            v.push(111);
            v.push(98);
        },
        GitObjectType::Commit => {
            v.push(99);
            v.push(111);
            v.push(109);
            v.push(109);
            v.push(105);
            v.push(116);
        },
        GitObjectType::Tag => {
            v.push(116);
            v.push(97);
            v.push(103);
        },
        GitObjectType::Tree => {
            v.push(116);
            v.push(114);
            v.push(101);
            v.push(101);
        },
    }
    assert(v@ =~= kind_name(t));
    v
}

/// Builds the canonical wrapped form of `(t, p)`.
pub fn encode_obj(t: GitObjectType, p: &Vec<u8>) -> (r: Vec<u8>)
    ensures
        r@ == encode_obj_spec(t, p@),
{
    let mut out = kind_name_bytes(t);
    out.push(32);
    let mut digits = u64_to_dec(p.len() as u64);
    extend_bytes(&mut out, &digits);
    out.push(0);
    extend_bytes(&mut out, p);
    assert(out@ =~= encode_obj_spec(t, p@));
    out
}

/// Reads a wrapped form back into its kind and payload; fails with
/// `CorruptObject` exactly when the form is not canonical.
pub fn parse_obj(c: &Vec<u8>) -> (r: Result<(GitObjectType, Vec<u8>), GitError>)
    ensures
        match r {
            Ok(tp) => parse_obj_spec(c@) == Some((tp.0, tp.1@)),
            Err(e) => e == GitError::CorruptObject && parse_obj_spec(c@) is None,
        },
{
    let ghost cs = c@;
    let i = match find_first(c, 0, 0) {
        Some(i) => i,
        None => {
            proof {
                crate::bytes::lemma_find_byte_none(cs, 0);
            }
            return Err(GitError::CorruptObject);
        },
    };
    proof {
        lemma_find_byte_at(cs, 0, i as int);
    }
    let n = c.len();
    assert(i < n);
    let header = sub_bytes(c, 0, i);
    let payload = sub_bytes(c, i + 1, n);
    let j = match find_first(&header, 0, 32) {
        Some(j) => j,
        None => {
            proof {
                crate::bytes::lemma_find_byte_none(header@, 32);
            }
            return Err(GitError::CorruptObject);
        },
    };
    proof {
        lemma_find_byte_at(header@, 32, j as int);
    }
    let name = sub_bytes(&header, 0, j);
    let digits = sub_bytes(&header, j + 1, header.len());
    let t = match kind_from_bytes(&name) {
        Some(t) => t,
        None => {
            return Err(GitError::CorruptObject);
        },
    };
    let expected = u64_to_dec(payload.len() as u64);
    if bytes_eq(&digits, &expected) {
        Ok((t, payload))
    } else {
        Err(GitError::CorruptObject)
    }
}

/// The kind named by `name`, if any.
pub fn kind_from_bytes(name: &Vec<u8>) -> (r: Option<GitObjectType>)
    ensures
        r == kind_of_name(name@),
{
    if name.len() == 4 && name[0] == 98 && name[1] == 108 && name[2] == 111 && name[3] == 98 {
        proof {
            assert(name@ =~= kind_name(GitObjectType::Blob));
        }
        Some(GitObjectType::Blob)
    } else if name.len() == 6 && name[0] == 99 && name[1] == 111 && name[2] == 109 && name[3]
        == 109 && name[4] == 105 && name[5] == 116 {
        proof {
            assert(name@ =~= kind_name(GitObjectType::Commit));
        }
        Some(GitObjectType::Commit)
    } else if name.len() == 3 && name[0] == 116 && name[1] == 97 && name[2] == 103 {
        proof {
            assert(name@ =~= kind_name(GitObjectType::Tag));
        }
        Some(GitObjectType::Tag)
    } else if name.len() == 4 && name[0] == 116 && name[1] == 114 && name[2] == 101 && name[3]
        == 101 {
        proof {
            assert(name@ =~= kind_name(GitObjectType::Tree));
        }
        Some(GitObjectType::Tree)
    } else {
        proof {
            if name@ == kind_name(GitObjectType::Blob) {
                assert(name@.len() == 4 && name@[0] == 98 && name@[1] == 108 && name@[2] == 111
                    && name@[3] == 98);
            }
            if name@ == kind_name(GitObjectType::Commit) {
                assert(name@.len() == 6 && name@[0] == 99 && name@[1] == 111 && name@[2] == 109
                    && name@[3] == 109 && name@[4] == 105 && name@[5] == 116);
            }
            if name@ == kind_name(GitObjectType::Tag) {
                assert(name@.len() == 3 && name@[0] == 116 && name@[1] == 97 && name@[2] == 103);
            }
            if name@ == kind_name(GitObjectType::Tree) {
                assert(name@.len() == 4 && name@[0] == 116 && name@[1] == 114 && name@[2] == 101
                    && name@[3] == 101);
            }
        }
        None
    }
}

/// Deflates the wrapped form of `(t, p)`: the bytes stored for a loose
/// object.
pub fn wrap_obj(t: GitObjectType, p: &Vec<u8>) -> (r: Vec<u8>)
    ensures
        inflate_prefix_of(r@, 0) == Some((encode_obj_spec(t, p@), r@.len() as int)),
{
    let c = encode_obj(t, p);
    zlib_deflate(&c)
}

/// What stored bytes unwrap to: the whole input must be one zlib stream
/// whose content is a canonical wrapped form.
pub open spec fn unwrap_spec(d: Seq<u8>) -> Option<(GitObjectType, Seq<u8>)> {
    match inflate_prefix_of(d, 0) {
        None => None,
        Some((content, end)) => if end != d.len() {
            None
        } else {
            parse_obj_spec(content)
        },
    }
}

/// Inflates stored bytes and reads the wrapped form back; fails with
/// `CorruptObject` exactly when the bytes do not unwrap.
pub fn unwrap_obj(d: &Vec<u8>) -> (r: Result<(GitObjectType, Vec<u8>), GitError>)
    ensures
        match r {
            Ok(tp) => unwrap_spec(d@) == Some((tp.0, tp.1@)),
            Err(e) => e == GitError::CorruptObject && unwrap_spec(d@) is None,
        },
{
    match zlib_inflate_prefix(d, 0) {
        Ok((content, used)) => {
            if used == d.len() {
                match parse_obj(&content) {
                    Ok(tp) => Ok(tp),
                    Err(e) => Err(e),
                }
            } else {
                Err(GitError::CorruptObject)
            }
        },
        Err(e) => Err(e),
    }
}

/// An object held in memory: its hex identifier, payload, payload length
/// and kind, with the identifier derived from kind and payload.
pub struct GitObject {
    pub id: String,
    pub content: Vec<u8>,
    pub size: u128,
    pub object_type: GitObjectType,
}

impl GitObject {
    /// A well-formed object records its payload length and the hex form of
    /// its own identifier.
    pub open spec fn wf(self) -> bool {
        &&& self.size == self.content@.len()
        &&& self.id@ == hex_of(oid_of(self.object_type, self.content@))
    }

    /// The raw 20-byte identifier this object's hex id renders.
    pub open spec fn oid(self) -> Seq<u8> {
        oid_of(self.object_type, self.content@)
    }

    /// Assembles an object from its payload and kind, computing its
    /// identifier over the wrapped form.
    pub fn new(content: Vec<u8>, object_type: GitObjectType) -> (r: GitObject)
        ensures
            r.wf(),
            r.content@ == content@,
            r.object_type == object_type,
    {
        let wrapped = encode_obj(object_type, &content);
        let bin_hash = sha1_digest(&wrapped);
        let id = hex_encode(&bin_hash);
        let size = content.len() as u128;
        GitObject { id, content, size, object_type }
    }

    /// The bytes stored for this object in the loose object store.
    pub fn stored_bytes(&self) -> (r: Vec<u8>)
        ensures
            inflate_prefix_of(r@, 0) == Some(
                (encode_obj_spec(self.object_type, self.content@), r@.len() as int),
            ),
    {
        wrap_obj(self.object_type, &self.content)
    }
}

} // verus!
