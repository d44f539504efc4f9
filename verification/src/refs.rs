//! The ref advertisement: pkt-line payloads of `<oid> <refname>`, the
//! first data line carrying the capability list after a `0x00`.

use vstd::prelude::*;
use crate::GitError;
use crate::bytes::{find_first, lemma_find_byte_at, lemma_find_byte_none, sub_bytes};
use crate::pkt::{is_hex_byte, parse_pkt_lines, scan_pkt_lines};

verus! {

/// One advertised reference: a symbolic name and a 40-character hex id.
#[derive(Debug)]
pub struct Ref {
    pub name: String,
    pub hash: String,
}

/// Everything the ref discovery call returns: the name-to-id map as a
/// list, the server's capabilities, and the id the capability line
/// carried.
#[derive(Debug)]
pub struct Refs {
    pub refs: Vec<Ref>,
    pub services: Vec<String>,
    pub head: String,
}

/// The mathematical shape of a parsed advertisement.
pub ghost struct RefsView {
    pub refs: Seq<(Seq<u8>, Seq<u8>)>,
    pub services: Seq<Seq<u8>>,
    pub head: Seq<u8>,
}

impl RefsView {
    /// The state before any line is read.
    pub open spec fn init() -> RefsView {
        RefsView { refs: Seq::empty(), services: Seq::empty(), head: Seq::empty() }
    }
}

/// The pieces of `s` between occurrences of `b`, in order; empty pieces
/// kept.
pub open spec fn split_bytes(s: Seq<u8>, b: u8) -> Seq<Seq<u8>>
    decreases s.len(),
    via split_bytes_dec
{
    let i = crate::bytes::find_byte(s, b);
    if i < 0 {
        seq![s]
    } else {
        seq![s.subrange(0, i)] + split_bytes(s.subrange(i + 1, s.len() as int), b)
    }
}

#[via_fn]
proof fn split_bytes_dec(s: Seq<u8>, b: u8) {
    crate::bytes::lemma_find_byte_props(s, b);
}

/// Splits `v` at every occurrence of `b`.
#[verifier::loop_isolation(false)]
pub fn split_bytes_exec(v: &Vec<u8>, b: u8) -> (r: Vec<Vec<u8>>)
    ensures
        r@.map_values(|p: Vec<u8>| p@) == split_bytes(v@, b),
{
    let ghost s = v@;
    let n = v.len();
    let mut out: Vec<Vec<u8>> = Vec::new();
    let mut pos: usize = 0;
    proof {
        assert(s.subrange(0, s.len() as int) =~= s);
        assert(out@.map_values(|p: Vec<u8>| p@) =~= Seq::<Seq<u8>>::empty());
    }
    loop
        invariant
            pos <= s.len(),
            split_bytes(s, b) =~= out@.map_values(|p: Vec<u8>| p@) + split_bytes(
                s.subrange(pos as int, s.len() as int),
                b,
            ),
        decreases s.len() - pos,
    {
        let ghost rem = s.subrange(pos as int, s.len() as int);
        match find_first(v, pos, b) {
            Some(i) => {
                proof {
                    lemma_find_byte_at(rem, b, i - pos);
                }
                let piece = sub_bytes(v, pos, i);
                let ghost prev = out@;
                out.push(piece);
                proof {
                    assert(piece@ =~= rem.subrange(0, i - pos));
                    assert(rem.subrange(i - pos + 1, rem.len() as int) =~= s.subrange(
                        i + 1 as int,
                        s.len() as int,
                    ));
                    assert(out@.map_values(|p: Vec<u8>| p@) =~= prev.map_values(
                        |p: Vec<u8>| p@,
                    ).push(piece@));
                    assert(prev.map_values(|p: Vec<u8>| p@) + (seq![rem.subrange(0, i - pos)]
                        + split_bytes(rem.subrange(i - pos + 1, rem.len() as int), b)) =~= out@
                        .map_values(|p: Vec<u8>| p@) + split_bytes(
                        s.subrange(i + 1 as int, s.len() as int),
                        b,
                    ));
                }
                pos = i + 1;
            },
            None => {
                proof {
                    lemma_find_byte_none(rem, b);
                }
                let piece = sub_bytes(v, pos, v.len());
                let ghost prev = out@;
                out.push(piece);
                proof {
                    assert(piece@ =~= rem);
                    assert(out@.map_values(|p: Vec<u8>| p@) =~= prev.map_values(
                        |p: Vec<u8>| p@,
                    ).push(rem));
                    assert(split_bytes(rem, b) =~= seq![rem]);
                    assert(prev.map_values(|p: Vec<u8>| p@) + seq![rem] =~= out@.map_values(
                        |p: Vec<u8>| p@,
                    ));
                }
                return out;
            },
        }
    }
}

/// Every piece of an ASCII string is ASCII.
proof fn lemma_split_ascii(s: Seq<u8>, b: u8)
    requires
        forall|i: int| 0 <= i < s.len() ==> (#[trigger] s[i]) < 128,
    ensures
        forall|k: int, i: int|
            0 <= k < split_bytes(s, b).len() && 0 <= i < split_bytes(s, b)[k].len() ==> (
            #[trigger] split_bytes(s, b)[k][i]) < 128,
    decreases s.len(),
{
    crate::bytes::lemma_find_byte_props(s, b);
    let z = crate::bytes::find_byte(s, b);
    if z >= 0 {
        let tail = s.subrange(z + 1, s.len() as int);
        lemma_split_ascii(tail, b);
        assert forall|k: int, i: int|
            0 <= k < split_bytes(s, b).len() && 0 <= i < split_bytes(s, b)[k].len() implies (
        #[trigger] split_bytes(s, b)[k][i]) < 128 by {
            if k == 0 {
                assert(split_bytes(s, b)[0] == s.subrange(0, z));
                assert(s.subrange(0, z)[i] == s[i]);
            } else {
                assert(split_bytes(s, b)[k] == split_bytes(tail, b)[k - 1]);
            }
        }
    }
}

/// Is this pkt payload the service announcement or empty?
pub open spec fn is_comment_line(line: Seq<u8>) -> bool {
    line.len() == 0 || line[0] == 35
}

/// The id, name and optional capability list of one data line:
/// forty lowercase hex digits, a space, the name to the first `0x00` or
/// the end, capabilities after the `0x00`; a trailing line break is
/// stripped; every byte must be ASCII.
pub open spec fn parse_ref_line(line: Seq<u8>) -> Option<(Seq<u8>, Seq<u8>, Option<Seq<u8>>)> {
    if line.len() < 42 {
        None
    } else if !(forall|i: int| 0 <= i < 40 ==> is_hex_byte(#[trigger] line[i])) {
        None
    } else if line[40] != 32 {
        None
    } else if !(forall|i: int| 0 <= i < line.len() ==> (#[trigger] line[i]) < 128) {
        None
    } else {
        let body = if line.last() == 10 {
            line.drop_last()
        } else {
            line
        };
        if body.len() < 42 {
            None
        } else {
            let z = crate::bytes::find_byte(body, 0);
            if z < 0 {
                Some((body.subrange(0, 40), body.subrange(41, body.len() as int), None))
            } else if z < 42 {
                None
            } else {
                Some(
                    (
                        body.subrange(0, 40),
                        body.subrange(41, z),
                        Some(body.subrange(z + 1, body.len() as int)),
                    ),
                )
            }
        }
    }
}

/// The advertisement read line by line from `i` on: comment lines are
/// skipped, every other line must be a data line; the first capability
/// list and its id are remembered.
pub open spec fn refs_fold(lines: Seq<Seq<u8>>, i: int, acc: RefsView) -> Option<RefsView>
    decreases lines.len() - i,
{
    if i == lines.len() {
        Some(acc)
    } else if i < 0 || i > lines.len() {
        None
    } else if is_comment_line(lines[i]) {
        refs_fold(lines, i + 1, acc)
    } else {
        match parse_ref_line(lines[i]) {
            None => None,
            Some((h, n, caps)) => refs_fold(
                lines,
                i + 1,
                RefsView {
                    refs: acc.refs.push((n, h)),
                    services: match caps {
                        Some(c) => split_bytes(c, 32),
                        None => acc.services,
                    },
                    head: match caps {
                        Some(_) => h,
                        None => acc.head,
                    },
                },
            ),
        }
    }
}

/// The bytes an ASCII string renders, one per character.
pub open spec fn string_bytes(s: Seq<char>) -> Seq<u8> {
    s.map_values(|c: char| c as u8)
}

/// Relies on `String::from_utf8_lossy`: ASCII bytes decode to the
/// characters of the same values, one character per byte, and back.
#[verifier::external_body]
fn ascii_to_string(v: &Vec<u8>) -> (r: String)
    requires
        forall|i: int| 0 <= i < v@.len() ==> v@[i] < 128,
    ensures
        r@.len() == v@.len(),
        forall|i: int| 0 <= i < v@.len() ==> r@[i] == v@[i] as char && v@[i] == r@[i] as u8,
{
    String::from_utf8_lossy(v.as_slice()).into_owned()
}

/// Does the ref list carry exactly the names and ids of `rv`, rendered
/// as strings?
pub open spec fn ref_list_matches(refs: Seq<Ref>, rv: Seq<(Seq<u8>, Seq<u8>)>) -> bool {
    &&& refs.len() == rv.len()
    &&& forall|i: int|
        0 <= i < rv.len() ==> string_bytes((#[trigger] refs[i]).name@) == rv[i].0 && string_bytes(
            refs[i].hash@,
        ) == rv[i].1
}

/// Does `r` carry exactly the names, ids, services and head of `rv`,
/// rendered as strings?
pub open spec fn refs_matches(r: Refs, rv: RefsView) -> bool {
    &&& ref_list_matches(r.refs@, rv.refs)
    &&& r.services@.len() == rv.services.len()
    &&& forall|i: int|
        0 <= i < rv.services.len() ==> string_bytes((#[trigger] r.services@[i])@) == rv.services[i]
    &&& string_bytes(r.head@) == rv.head
}

/// Checks that the first forty bytes are lowercase hex and the whole
/// line is ASCII.
fn check_ref_line_shape(line: &Vec<u8>) -> (r: bool)
    requires
        line@.len() >= 42,
    ensures
        r == ((forall|i: int| 0 <= i < 40 ==> is_hex_byte(#[trigger] line@[i])) && (forall|i: int|
            0 <= i < line@.len() ==> (#[trigger] line@[i]) < 128)),
{
    let mut i: usize = 0;
    while i < 40
        invariant
            i <= 40,
            line@.len() >= 42,
            forall|j: int| 0 <= j < i ==> is_hex_byte(#[trigger] line@[j]),
        decreases 40 - i,
    {
        let b = line[i];
        if !((48 <= b && b <= 57) || (97 <= b && b <= 102)) {
            return false;
        }
        i += 1;
    }
    let mut k: usize = 0;
    while k < line.len()
        invariant
            k <= line@.len(),
            forall|j: int| 0 <= j < k ==> (#[trigger] line@[j]) < 128,
        decreases line@.len() - k,
    {
        if line[k] >= 128 {
            return false;
        }
        k += 1;
    }
    true
}

/// Reads one data line; mirrors `parse_ref_line` exactly.
#[verifier::loop_isolation(false)]
fn read_ref_line(line: &Vec<u8>) -> (r: Option<(Vec<u8>, Vec<u8>, Option<Vec<u8>>)>)
    ensures
        match r {
            Some((h, n, caps)) => {
                &&& parse_ref_line(line@) == Some(
                    (
                        h@,
                        n@,
                        match caps {
                            Some(c) => Some(c@),
                            None => None,
                        },
                    ),
                )
                &&& forall|i: int| 0 <= i < h@.len() ==> (#[trigger] h@[i]) < 128
                &&& forall|i: int| 0 <= i < n@.len() ==> (#[trigger] n@[i]) < 128
                &&& match caps {
                    Some(c) => forall|i: int| 0 <= i < c@.len() ==> (#[trigger] c@[i]) < 128,
                    None => true,
                }
            },
            None => parse_ref_line(line@) is None,
        },
{
    if line.len() < 42 {
        return None;
    }
    if !check_ref_line_shape(line) {
        return None;
    }
    if line[40] != 32 {
        return None;
    }
    let body_len = if line[line.len() - 1] == 10 {
        line.len() - 1
    } else {
        line.len()
    };
    proof {
        if line@.last() == 10 {
            assert(line@.drop_last() =~= line@.subrange(0, line@.len() - 1));
        }
    }
    if body_len < 42 {
        return None;
    }
    let ghost body = if line@.last() == 10 {
        line@.drop_last()
    } else {
        line@
    };
    proof {
        assert(body =~= line@.subrange(0, body_len as int));
    }
    let z = match find_first(line, 0, 0) {
        Some(z) if z < body_len => {
            proof {
                lemma_find_byte_at(body, 0, z as int);
            }
            Some(z)
        },
        _ => {
            proof {
                assert forall|j: int| 0 <= j < body.len() implies body[j] != 0 by {
                    assert(body[j] == line@[j]);
                }
                lemma_find_byte_none(body, 0);
            }
            None
        },
    };
    match z {
        None => {
            let h = sub_bytes(line, 0, 40);
            let n = sub_bytes(line, 41, body_len);
            proof {
                assert(h@ =~= body.subrange(0, 40));
                assert(n@ =~= body.subrange(41, body.len() as int));
            }
            Some((h, n, None))
        },
        Some(z) => {
            if z < 42 {
                return None;
            }
            let h = sub_bytes(line, 0, 40);
            let n = sub_bytes(line, 41, z);
            let c = sub_bytes(line, z + 1, body_len);
            proof {
                assert(h@ =~= body.subrange(0, 40));
                assert(n@ =~= body.subrange(41, z as int));
                assert(c@ =~= body.subrange(z + 1, body.len() as int));
            }
            Some((h, n, Some(c)))
        },
    }
}

/// Parses a whole ref advertisement; fails with `BadPack` exactly when
/// the framing or a data line is malformed.
#[verifier::loop_isolation(false)]
#[verifier::rlimit(60)]
pub fn parse_refs(body: &Vec<u8>) -> (r: Result<Refs, GitError>)
    ensures
        match r {
            Ok(refs) => {
                &&& parse_pkt_lines(body@, 0) matches Some(lines)
                &&& refs_fold(lines, 0, RefsView::init()) matches Some(rv)
                &&& refs_matches(refs, rv)
            },
            Err(e) => {
                &&& e == GitError::BadPack
                &&& (parse_pkt_lines(body@, 0) is None || refs_fold(
                    parse_pkt_lines(body@, 0)->0,
                    0,
                    RefsView::init(),
                ) is None)
            },
        },
{
    let lines = match scan_pkt_lines(body) {
        Ok(ls) => ls,
        Err(e) => {
            return Err(e);
        },
    };
    let ghost lviews = lines@.map_values(|l: Vec<u8>| l@);
    let mut refs: Vec<Ref> = Vec::new();
    let mut services: Vec<String> = Vec::new();
    let mut head = String::new();
    let mut i: usize = 0;
    proof {
        assert(refs@.map_values(|r: Ref| (string_bytes(r.name@), string_bytes(r.hash@))) =~= Seq::<
            (Seq<u8>, Seq<u8>),
        >::empty());
        assert(services@.map_values(|s: String| string_bytes(s@)) =~= Seq::<Seq<u8>>::empty());
        assert(string_bytes(head@) =~= Seq::<u8>::empty());
    }
    while i < lines.len()
        invariant
            i <= lviews.len(),
            refs_fold(lviews, 0, RefsView::init()) == refs_fold(
                lviews,
                i as int,
                RefsView {
                    refs: refs@.map_values(
                        |r: Ref| (string_bytes(r.name@), string_bytes(r.hash@)),
                    ),
                    services: services@.map_values(|s: String| string_bytes(s@)),
                    head: string_bytes(head@),
                },
            ),
        decreases lviews.len() - i,
    {
        let line = &lines[i];
        let skip = line.len() == 0 || line[0] == 35;
        if !skip {
            match read_ref_line(line) {
                None => {
                    return Err(GitError::BadPack);
                },
                Some((h, n, caps)) => {
                    let ghost prev_refs = refs@;
                    let ghost prev_sv = services@;
                    let ghost prev_head = head@;
                    let hash = ascii_to_string(&h);
                    let name = ascii_to_string(&n);
                    proof {
                        assert(string_bytes(hash@) =~= h@);
                        assert(string_bytes(name@) =~= n@);
                    }
                    match caps {
                        Some(c) => {
                            let pieces = split_bytes_exec(&c, 32);
                            proof {
                                lemma_split_ascii(c@, 32);
                            }
                            let mut sv: Vec<String> = Vec::new();
                            let mut k: usize = 0;
                            proof {
                                assert(sv@.map_values(|s: String| string_bytes(s@)) =~= Seq::<
                                    Seq<u8>,
                                >::empty());
                            }
                            while k < pieces.len()
                                invariant
                                    k <= pieces@.len(),
                                    pieces@.map_values(|p: Vec<u8>| p@) == split_bytes(c@, 32),
                                    forall|x: int|
                                        0 <= x < c@.len() ==> (#[trigger] c@[x]) < 128,
                                    sv@.map_values(|s: String| string_bytes(s@)) =~= split_bytes(
                                        c@,
                                        32,
                                    ).subrange(0, k as int),
                                decreases pieces@.len() - k,
                            {
                                proof {
                                    lemma_split_ascii(c@, 32);
                                    assert(pieces@[k as int]@ == split_bytes(c@, 32)[k as int]);
                                }
                                let piece = ascii_to_string(&pieces[k]);
                                let ghost prev_pieces = sv@;
                                sv.push(piece);
                                proof {
                                    assert(string_bytes(piece@) =~= pieces@[k as int]@);
                                    assert(sv@.map_values(|s: String| string_bytes(s@))
                                        =~= prev_pieces.map_values(
                                        |s: String| string_bytes(s@),
                                    ).push(pieces@[k as int]@));
                                    assert(sv@.map_values(|s: String| string_bytes(s@))
                                        =~= split_bytes(c@, 32).subrange(0, k + 1));
                                }
                                k += 1;
                            }
                            proof {
                                assert(split_bytes(c@, 32).subrange(
                                    0,
                                    split_bytes(c@, 32).len() as int,
                                ) =~= split_bytes(c@, 32));
                            }
                            services = sv;
                            head = ascii_to_string(&h);
                            proof {
                                assert(string_bytes(head@) =~= h@);
                            }
                            refs.push(Ref { name, hash });
                        },
                        None => {
                            refs.push(Ref { name, hash });
                        },
                    }
                    proof {
                        assert(refs@.map_values(
                            |r: Ref| (string_bytes(r.name@), string_bytes(r.hash@)),
                        ) =~= prev_refs.map_values(
                            |r: Ref| (string_bytes(r.name@), string_bytes(r.hash@)),
                        ).push((n@, h@)));
                    }
                },
            }
        }
        i += 1;
    }
    Ok(Refs { refs, services, head })
}

} // verus!
