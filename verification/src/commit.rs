//! Commit objects: the payload is `tree <hex>`, zero or one `parent
//! <hex>`, the author and committer lines with timestamp and offset,
//! a blank line, and the message.

use vstd::prelude::*;
use crate::bytes::{dec_of, extend_bytes, u64_to_dec};
use crate::object::{oid_of, GitObjectType};
use crate::store::{store_after_put, ObjectStore};

verus! {

/// The decimal rendering of a possibly negative number.
pub open spec fn dec_signed_of(n: int) -> Seq<u8> {
    if n < 0 {
        seq![45u8] + dec_of((-n) as nat)
    } else {
        dec_of(n as nat)
    }
}

/// Renders a signed number in decimal.
pub fn i64_to_dec(n: i64) -> (r: Vec<u8>)
    ensures
        r@ == dec_signed_of(n as int),
{
    if n >= 0 {
        u64_to_dec(n as u64)
    } else {
        // the magnitude, computed without overflowing at the minimum
        let m: u64 = ((-(n + 1)) as u64) + 1;
        let mut v: Vec<u8> = Vec::new();
        v.push(45);
        let digits = u64_to_dec(m);
        extend_bytes(&mut v, &digits);
        assert(v@ =~= dec_signed_of(n as int));
        v
    }
}

/// Two ASCII digits for a value below one hundred.
pub open spec fn two_digits(n: nat) -> Seq<u8> {
    seq![(48 + n / 10) as u8, (48 + n % 10) as u8]
}

/// The rendered timezone `±HHMM` of a UTC offset in seconds.
pub open spec fn tz_bytes(off: int) -> Seq<u8> {
    let a = if off < 0 {
        (-off) as nat
    } else {
        off as nat
    };
    let sign = if off < 0 {
        seq![45u8]
    } else {
        seq![43u8]
    };
    sign + two_digits(a / 3600) + two_digits((a % 3600) / 60)
}

/// Renders a UTC offset, strictly within a day, as `±HHMM`.
pub fn tz_to_bytes(off: i32) -> (r: Vec<u8>)
    requires
        -86400 < off < 86400,
    ensures
        r@ == tz_bytes(off as int),
{
    let a: u32 = if off < 0 {
        (-off) as u32
    } else {
        off as u32
    };
    let h = a / 3600;
    let m = (a % 3600) / 60;
    let mut v: Vec<u8> = Vec::new();
    if off < 0 {
        v.push(45);
    } else {
        v.push(43);
    }
    v.push(48 + (h / 10) as u8);
    v.push(48 + (h % 10) as u8);
    v.push(48 + (m / 10) as u8);
    v.push(48 + (m % 10) as u8);
    assert(v@ =~= tz_bytes(off as int));
    v
}

/// One identity line, `label name <email> seconds offset`.
pub open spec fn ident_line(
    label: Seq<u8>,
    name: Seq<u8>,
    email: Seq<u8>,
    ts: int,
    off: int,
) -> Seq<u8> {
    label + name + seq![32u8, 60u8] + email + seq![62u8, 32u8] + dec_signed_of(ts) + seq![32u8]
        + tz_bytes(off) + seq![10u8]
}

/// The view of an optional parent id.
pub open spec fn parent_view(p: &Option<Vec<u8>>) -> Option<Seq<u8>> {
    match p {
        Some(v) => Some(v@),
        None => None,
    }
}

/// The canonical payload of a commit object.
pub open spec fn commit_payload(
    tree_hex: Seq<u8>,
    parent_hex: Option<Seq<u8>>,
    name: Seq<u8>,
    email: Seq<u8>,
    message: Seq<u8>,
    ts: int,
    off: int,
) -> Seq<u8> {
    seq![116u8, 114u8, 101u8, 101u8, 32u8] + tree_hex + seq![10u8] + (match parent_hex {
        Some(p) => seq![112u8, 97u8, 114u8, 101u8, 110u8, 116u8, 32u8] + p + seq![10u8],
        None => Seq::empty(),
    }) + ident_line(seq![97u8, 117u8, 116u8, 104u8, 111u8, 114u8, 32u8], name, email, ts, off)
        + ident_line(
        seq![99u8, 111u8, 109u8, 109u8, 105u8, 116u8, 116u8, 101u8, 114u8, 32u8],
        name,
        email,
        ts,
        off,
    ) + seq![10u8] + message + seq![10u8]
}

/// Builds the canonical commit payload.
#[verifier::rlimit(100)]
#[verifier::spinoff_prover]
pub fn encode_commit(
    tree_hex: &Vec<u8>,
    parent_hex: &Option<Vec<u8>>,
    name: &Vec<u8>,
    email: &Vec<u8>,
    message: &Vec<u8>,
    ts: i64,
    off: i32,
) -> (r: Vec<u8>)
    requires
        -86400 < off < 86400,
    ensures
        r@ == commit_payload(
            tree_hex@,
            parent_view(parent_hex),
            name@,
            email@,
            message@,
            ts as int,
            off as int,
        ),
{
    let mut out: Vec<u8> = Vec::new();
    // "tree "
    out.push(116);
    out.push(114);
    out.push(101);
    out.push(101);
    out.push(32);
    extend_bytes(&mut out, tree_hex);
    out.push(10);
    match parent_hex {
        Some(p) => {
            // "parent "
            out.push(112);
            out.push(97);
            out.push(114);
            out.push(101);
            out.push(110);
            out.push(116);
            out.push(32);
            extend_bytes(&mut out, p);
            out.push(10);
        },
        None => {},
    }
    // "author "
    out.push(97);
    out.push(117);
    out.push(116);
    out.push(104);
    out.push(111);
    out.push(114);
    out.push(32);
    append_ident_tail(&mut out, name, email, ts, off);
    // "committer "
    out.push(99);
    out.push(111);
    out.push(109);
    out.push(109);
    out.push(105);
    out.push(116);
    out.push(116);
    out.push(101);
    out.push(114);
    out.push(32);
    append_ident_tail(&mut out, name, email, ts, off);
    out.push(10);
    extend_bytes(&mut out, message);
    out.push(10);
    proof {
        assert(out@ =~= commit_payload(
            tree_hex@,
            parent_view(parent_hex),
            name@,
            email@,
            message@,
            ts as int,
            off as int,
        ));
    }
    out
}

/// Appends `name <email> seconds offset` and the line break.
fn append_ident_tail(out: &mut Vec<u8>, name: &Vec<u8>, email: &Vec<u8>, ts: i64, off: i32)
    requires
        -86400 < off < 86400,
    ensures
        final(out)@ == old(out)@ + name@ + seq![32u8, 60u8] + email@ + seq![62u8, 32u8]
            + dec_signed_of(ts as int) + seq![32u8] + tz_bytes(off as int) + seq![10u8],
{
    extend_bytes(out, name);
    out.push(32);
    out.push(60);
    extend_bytes(out, email);
    out.push(62);
    out.push(32);
    let ds = i64_to_dec(ts);
    extend_bytes(out, &ds);
    out.push(32);
    let tz = tz_to_bytes(off);
    extend_bytes(out, &tz);
    out.push(10);
    assert(out@ =~= old(out)@ + name@ + seq![32u8, 60u8] + email@ + seq![62u8, 32u8]
        + dec_signed_of(ts as int) + seq![32u8] + tz_bytes(off as int) + seq![10u8]);
}

/// Relies on chrono's `Local::now`: the clock's seconds since the epoch
/// and the local UTC offset, which chrono keeps strictly within one day.
#[verifier::external_body]
fn local_now_parts() -> (r: (i64, i32))
    ensures
        -86400 < r.1 < 86400,
{
    let now = chrono::Local::now();
    (now.timestamp(), now.offset().local_minus_utc())
}

/// Assembles a commit object for the wall-clock instant of the call and
/// writes it to the store; returns its identifier. The payload is the
/// canonical commit form for the given fields and the clock's reading.
pub fn make_commit_object(
    store: &mut ObjectStore,
    tree_hex: &Vec<u8>,
    parent_hex: &Option<Vec<u8>>,
    name: &Vec<u8>,
    email: &Vec<u8>,
    message: &Vec<u8>,
) -> (r: Vec<u8>)
    requires
        old(store).wf(),
    ensures
        final(store).wf(),
        r@.len() == 20,
        exists|ts: int, off: int|
            {
                &&& -86400 < off < 86400
                &&& r@ == oid_of(
                    GitObjectType::Commit,
                    #[trigger] commit_payload(
                        tree_hex@,
                        parent_view(parent_hex),
                        name@,
                        email@,
                        message@,
                        ts,
                        off,
                    ),
                )
                &&& final(store).contents() == store_after_put(
                    old(store).contents(),
                    GitObjectType::Commit,
                    commit_payload(
                        tree_hex@,
                        parent_view(parent_hex),
                        name@,
                        email@,
                        message@,
                        ts,
                        off,
                    ),
                )
            },
{
    let (ts, off) = local_now_parts();
    let payload = encode_commit(tree_hex, parent_hex, name, email, message, ts, off);
    let oid = store.put(GitObjectType::Commit, payload);
    proof {
        assert((-86400) < (off as int) < 86400);
    }
    oid
}

} // verus!
