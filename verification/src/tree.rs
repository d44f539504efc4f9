//! Tree objects: an ordered list of `(mode, name, child id)` entries in
//! the canonical byte form `mode_octal " " name 0x00 raw_oid_20`, entries
//! strictly sorted by name; and the ignore filter of the tree builder.

use vstd::prelude::*;
use crate::GitError;
use crate::object::{oid_of, GitObjectType};
use crate::store::{store_after_put, ObjectStore};
use crate::bytes::{extend_bytes, find_byte, find_first, lemma_find_byte_at, lemma_find_byte_none, sub_bytes};

verus! {

/// The file mode of a tree entry, as the octal rendering distinguishes
/// them.
#[derive(Clone, Copy, PartialEq, Eq, Structural, Debug)]
pub enum TreeMode {
    /// `40000`: a subtree.
    Subtree,
    /// `100644`: a regular file.
    Regular,
    /// `100755`: an executable file.
    Executable,
    /// `120000`: a symbolic link.
    Symlink,
}

/// The ASCII octal rendering of a mode, without a leading zero.
pub open spec fn mode_bytes(m: TreeMode) -> Seq<u8> {
    match m {
        TreeMode::Subtree => seq![52u8, 48u8, 48u8, 48u8, 48u8],
        TreeMode::Regular => seq![49u8, 48u8, 48u8, 54u8, 52u8, 52u8],
        TreeMode::Executable => seq![49u8, 48u8, 48u8, 55u8, 53u8, 53u8],
        TreeMode::Symlink => seq![49u8, 50u8, 48u8, 48u8, 48u8, 48u8],
    }
}

/// The mode named by an octal rendering, if it is recognized.
pub open spec fn mode_of_bytes(s: Seq<u8>) -> Option<TreeMode> {
    if s == mode_bytes(TreeMode::Subtree) {
        Some(TreeMode::Subtree)
    } else if s == mode_bytes(TreeMode::Regular) {
        Some(TreeMode::Regular)
    } else if s == mode_bytes(TreeMode::Executable) {
        Some(TreeMode::Executable)
    } else if s == mode_bytes(TreeMode::Symlink) {
        Some(TreeMode::Symlink)
    } else {
        None
    }
}

/// The mathematical shape of a tree entry.
pub ghost struct TreeEntryView {
    pub mode: TreeMode,
    pub name: Seq<u8>,
    pub oid: Seq<u8>,
}

/// One directory entry of a tree object.
#[derive(Debug)]
pub struct TreeEntry {
    pub mode: TreeMode,
    pub name: Vec<u8>,
    pub oid: Vec<u8>,
}

impl View for TreeEntry {
    type V = TreeEntryView;

    open spec fn view(&self) -> TreeEntryView {
        TreeEntryView { mode: self.mode, name: self.name@, oid: self.oid@ }
    }
}

impl TreeEntryView {
    /// A valid entry has a nonempty name free of `0x00`, space and `/`,
    /// and a 20-byte identifier.
    pub open spec fn wf(self) -> bool {
        &&& self.name.len() > 0
        &&& forall|i: int|
            0 <= i < self.name.len() ==> self.name[i] != 0 && self.name[i] != 47
        &&& self.oid.len() == 20
    }
}

/// The views of a list of entries.
pub open spec fn entries_view(s: Seq<TreeEntry>) -> Seq<TreeEntryView> {
    s.map_values(|e: TreeEntry| e@)
}

/// The canonical byte form of one entry.
pub open spec fn encode_entry(e: TreeEntryView) -> Seq<u8> {
    mode_bytes(e.mode) + seq![32u8] + e.name + seq![0u8] + e.oid
}

/// The canonical byte form of a list of entries, in the given order.
pub open spec fn encode_tree_entries(es: Seq<TreeEntryView>) -> Seq<u8>
    decreases es.len(),
{
    if es.len() == 0 {
        Seq::empty()
    } else {
        encode_entry(es.first()) + encode_tree_entries(es.drop_first())
    }
}

/// Reads a tree payload back into its entries: for each entry the mode
/// runs to the first space, the name to the first `0x00`, and exactly
/// twenty identifier bytes follow. Fails on unknown modes, entries whose
/// name is empty or holds `/`, or trailing garbage.
pub open spec fn parse_tree_spec(c: Seq<u8>) -> Option<Seq<TreeEntryView>>
    decreases c.len(),
    via parse_tree_spec_dec
{
    if c.len() == 0 {
        Some(Seq::empty())
    } else {
        let j = find_byte(c, 32);
        if j < 1 {
            None
        } else {
            match mode_of_bytes(c.subrange(0, j)) {
                None => None,
                Some(m) => {
                    let rest = c.subrange(j + 1, c.len() as int);
                    let k = find_byte(rest, 0);
                    if k < 1 || rest.len() < k + 1 + 20 {
                        None
                    } else {
                        let name = rest.subrange(0, k);
                        if exists|i: int| 0 <= i < name.len() && name[i] == 47 {
                            None
                        } else {
                            let e = TreeEntryView {
                                mode: m,
                                name: name,
                                oid: rest.subrange(k + 1, k + 21),
                            };
                            match parse_tree_spec(rest.subrange(k + 21, rest.len() as int)) {
                                None => None,
                                Some(es) => Some(seq![e] + es),
                            }
                        }
                    }
                },
            }
        }
    }
}

#[via_fn]
proof fn parse_tree_spec_dec(c: Seq<u8>) {
    if c.len() > 0 {
        crate::bytes::lemma_find_byte_props(c, 32);
        let j = find_byte(c, 32);
        if j >= 1 && mode_of_bytes(c.subrange(0, j)) is Some {
            let rest = c.subrange(j + 1, c.len() as int);
            crate::bytes::lemma_find_byte_props(rest, 0);
        }
    }
}

/// A mode's rendering holds neither `0x00` nor a space, and is recovered
/// from its own bytes.
pub proof fn lemma_mode_bytes(m: TreeMode)
    ensures
        1 <= mode_bytes(m).len() <= 6,
        forall|i: int|
            0 <= i < mode_bytes(m).len() ==> mode_bytes(m)[i] != 0 && mode_bytes(m)[i] != 32,
        mode_of_bytes(mode_bytes(m)) == Some(m),
{
    let s = mode_bytes(m);
    match m {
        TreeMode::Subtree => {
            assert forall|i: int| 0 <= i < s.len() implies s[i] != 0 && s[i] != 32 by {
                assert(s[0] == 52 && s[1] == 48 && s[2] == 48 && s[3] == 48 && s[4] == 48);
            }
        },
        TreeMode::Regular => {
            assert forall|i: int| 0 <= i < s.len() implies s[i] != 0 && s[i] != 32 by {
                assert(s[0] == 49 && s[1] == 48 && s[2] == 48 && s[3] == 54 && s[4] == 52 && s[5]
                    == 52);
            }
            assert(mode_bytes(TreeMode::Regular) != mode_bytes(TreeMode::Subtree));
        },
        TreeMode::Executable => {
            assert forall|i: int| 0 <= i < s.len() implies s[i] != 0 && s[i] != 32 by {
                assert(s[0] == 49 && s[1] == 48 && s[2] == 48 && s[3] == 55 && s[4] == 53 && s[5]
                    == 53);
            }
            assert(mode_bytes(TreeMode::Executable) != mode_bytes(TreeMode::Subtree));
            assert(mode_bytes(TreeMode::Executable) != mode_bytes(TreeMode::Regular));
        },
        TreeMode::Symlink => {
            assert forall|i: int| 0 <= i < s.len() implies s[i] != 0 && s[i] != 32 by {
                assert(s[0] == 49 && s[1] == 50 && s[2] == 48 && s[3] == 48 && s[4] == 48 && s[5]
                    == 48);
            }
            assert(mode_bytes(TreeMode::Symlink) != mode_bytes(TreeMode::Subtree));
            assert(mode_bytes(TreeMode::Symlink) != mode_bytes(TreeMode::Regular));
            assert(mode_bytes(TreeMode::Symlink) != mode_bytes(TreeMode::Executable));
        },
    }
}

/// Reading an encoded tree back yields the entries it was made from, for
/// every list of valid entries, in order.
pub proof fn lemma_tree_round_trip(es: Seq<TreeEntryView>)
    requires
        forall|i: int| 0 <= i < es.len() ==> (#[trigger] es[i]).wf(),
    ensures
        parse_tree_spec(encode_tree_entries(es)) == Some(es),
    decreases es.len(),
{
    if es.len() == 0 {
        assert(encode_tree_entries(es).len() == 0);
    } else {
        let e = es.first();
        assert(e.wf());
        let c = encode_tree_entries(es);
        let tail = encode_tree_entries(es.drop_first());
        let md = mode_bytes(e.mode);
        lemma_mode_bytes(e.mode);
        lemma_tree_round_trip(es.drop_first());
        assert(c =~= md + seq![32u8] + e.name + seq![0u8] + e.oid + tail);
        // the first space ends the mode
        assert(c[md.len() as int] == 32);
        assert forall|i: int| 0 <= i < md.len() implies c[i] != 32 by {
            assert(c[i] == md[i]);
        }
        lemma_find_byte_at(c, 32, md.len() as int);
        assert(c.subrange(0, md.len() as int) =~= md);
        let rest = c.subrange(md.len() + 1 as int, c.len() as int);
        assert(rest =~= e.name + seq![0u8] + e.oid + tail);
        // the first 0x00 ends the name
        assert(rest[e.name.len() as int] == 0);
        assert forall|i: int| 0 <= i < e.name.len() implies rest[i] != 0 by {
            assert(rest[i] == e.name[i]);
        }
        lemma_find_byte_at(rest, 0, e.name.len() as int);
        let k = e.name.len() as int;
        assert(rest.len() == k + 1 + 20 + tail.len());
        assert(rest.subrange(0, k) =~= e.name);
        assert(rest.subrange(k + 1, k + 21) =~= e.oid);
        assert(rest.subrange(k + 21, rest.len() as int) =~= tail);
        assert(parse_tree_spec(c) == Some(seq![e] + es.drop_first()));
        assert(seq![e] + es.drop_first() =~= es);
    }
}

/// The recognized mode at the start of `v[from..to]`, if any.
fn mode_from_bytes(v: &Vec<u8>, from: usize, to: usize) -> (r: Option<TreeMode>)
    requires
        from <= to <= v@.len(),
    ensures
        r == mode_of_bytes(v@.subrange(from as int, to as int)),
{
    let ghost s = v@.subrange(from as int, to as int);
    let n = to - from;
    if n == 5 && v[from] == 52 && v[from + 1] == 48 && v[from + 2] == 48 && v[from + 3] == 48 && v[
        from + 4] == 48 {
        proof {
            assert(s =~= mode_bytes(TreeMode::Subtree));
        }
        Some(TreeMode::Subtree)
    } else if n == 6 && v[from] == 49 && v[from + 1] == 48 && v[from + 2] == 48 && v[from + 3]
        == 54 && v[from + 4] == 52 && v[from + 5] == 52 {
        proof {
            assert(s =~= mode_bytes(TreeMode::Regular));
        }
        Some(TreeMode::Regular)
    } else if n == 6 && v[from] == 49 && v[from + 1] == 48 && v[from + 2] == 48 && v[from + 3]
        == 55 && v[from + 4] == 53 && v[from + 5] == 53 {
        proof {
            assert(s =~= mode_bytes(TreeMode::Executable));
        }
        Some(TreeMode::Executable)
    } else if n == 6 && v[from] == 49 && v[from + 1] == 50 && v[from + 2] == 48 && v[from + 3]
        == 48 && v[from + 4] == 48 && v[from + 5] == 48 {
        proof {
            assert(s =~= mode_bytes(TreeMode::Symlink));
        }
        Some(TreeMode::Symlink)
    } else {
        proof {
            if s == mode_bytes(TreeMode::Subtree) {
                assert(s.len() == 5 && s[0] == 52 && s[1] == 48 && s[2] == 48 && s[3] == 48 && s[4]
                    == 48);
            }
            if s == mode_bytes(TreeMode::Regular) {
                assert(s.len() == 6 && s[0] == 49 && s[1] == 48 && s[2] == 48 && s[3] == 54 && s[4]
                    == 52 && s[5] == 52);
            }
            if s == mode_bytes(TreeMode::Executable) {
                assert(s.len() == 6 && s[0] == 49 && s[1] == 48 && s[2] == 48 && s[3] == 55 && s[4]
                    == 53 && s[5] == 53);
            }
            if s == mode_bytes(TreeMode::Symlink) {
                assert(s.len() == 6 && s[0] == 49 && s[1] == 50 && s[2] == 48 && s[3] == 48 && s[4]
                    == 48 && s[5] == 48);
            }
        }
        None
    }
}

/// The bytes a mode is rendered as.
pub fn mode_to_bytes(m: TreeMode) -> (r: Vec<u8>)
    ensures
        r@ == mode_bytes(m),
{
    let mut v: Vec<u8> = Vec::new();
    match m {
        TreeMode::Subtree => {
            v.push(52);
            v.push(48);
            v.push(48);
            v.push(48);
            v.push(48);
        },
        TreeMode::Regular => {
            v.push(49);
            v.push(48);
            v.push(48);
            v.push(54);
            v.push(52);
            v.push(52);
        },
        TreeMode::Executable => {
            v.push(49);
            v.push(48);
            v.push(48);
            v.push(55);
            v.push(53);
            v.push(53);
        },
        TreeMode::Symlink => {
            v.push(49);
            v.push(50);
            v.push(48);
            v.push(48);
            v.push(48);
            v.push(48);
        },
    }
    assert(v@ =~= mode_bytes(m));
    v
}

/// Encodes a list of entries in the order given.
pub fn encode_tree(es: &Vec<TreeEntry>) -> (r: Vec<u8>)
    ensures
        r@ == encode_tree_entries(entries_view(es@)),
{
    let mut out: Vec<u8> = Vec::new();
    let mut i: usize = 0;
    proof {
        assert(entries_view(es@).skip(0) =~= entries_view(es@));
    }
    while i < es.len()
        invariant
            i <= es@.len(),
            encode_tree_entries(entries_view(es@)) =~= out@ + encode_tree_entries(
                entries_view(es@).skip(i as int),
            ),
        decreases es@.len() - i,
    {
        let mut piece = mode_to_bytes(es[i].mode);
        piece.push(32);
        extend_bytes(&mut piece, &es[i].name);
        piece.push(0);
        extend_bytes(&mut piece, &es[i].oid);
        proof {
            assert(piece@ =~= encode_entry(entries_view(es@)[i as int]));
            let v = entries_view(es@);
            assert(v.skip(i as int).first() == v[i as int]);
            assert(v.skip(i as int).drop_first() =~= v.skip(i + 1));
        }
        extend_bytes(&mut out, &piece);
        i += 1;
    }
    proof {
        assert(entries_view(es@).skip(es@.len() as int) =~= Seq::<TreeEntryView>::empty());
        assert(encode_tree_entries(entries_view(es@)) =~= out@);
    }
    out
}

/// Reads a tree payload into its entries; fails with `CorruptObject`
/// exactly when the payload is not a canonical tree encoding.
#[verifier::loop_isolation(false)]
#[verifier::rlimit(60)]
pub fn decode_tree(c: &Vec<u8>) -> (r: Result<Vec<TreeEntry>, GitError>)
    ensures
        match r {
            Ok(es) => parse_tree_spec(c@) == Some(entries_view(es@)),
            Err(e) => e == GitError::CorruptObject && parse_tree_spec(c@) is None,
        },
{
    let ghost cs = c@;
    let mut out: Vec<TreeEntry> = Vec::new();
    let mut pos: usize = 0;
    proof {
        assert(cs.subrange(0, cs.len() as int) =~= cs);
        match parse_tree_spec(cs) {
            Some(rest) => {
                assert(entries_view(out@) + rest =~= rest);
            },
            None => {},
        }
    }
    while pos < c.len()
        invariant
            pos <= cs.len(),
            match parse_tree_spec(cs.subrange(pos as int, cs.len() as int)) {
                Some(rest) => parse_tree_spec(cs) == Some(entries_view(out@) + rest),
                None => parse_tree_spec(cs) is None,
            },
        decreases cs.len() - pos,
    {
        let ghost rem = cs.subrange(pos as int, cs.len() as int);
        // mode: to the first space
        let j = match find_first(c, pos, 32) {
            Some(j) => j,
            None => {
                proof {
                    lemma_find_byte_none(rem, 32);
                }
                return Err(GitError::CorruptObject);
            },
        };
        proof {
            lemma_find_byte_at(rem, 32, j - pos);
        }
        if j == pos {
            return Err(GitError::CorruptObject);
        }
        let m = match mode_from_bytes(c, pos, j) {
            Some(m) => m,
            None => {
                proof {
                    assert(cs.subrange(pos as int, j as int) =~= rem.subrange(0, j - pos));
                }
                return Err(GitError::CorruptObject);
            },
        };
        proof {
            assert(cs.subrange(pos as int, j as int) =~= rem.subrange(0, j - pos));
        }
        let ghost rest = rem.subrange(j - pos + 1, rem.len() as int);
        // name: to the first 0x00
        let k = match find_first(c, j + 1, 0) {
            Some(k) => k,
            None => {
                proof {
                    assert forall|x: int| 0 <= x < rest.len() implies rest[x] != 0 by {
                        assert(rest[x] == cs[j + 1 + x]);
                    }
                    lemma_find_byte_none(rest, 0);
                }
                return Err(GitError::CorruptObject);
            },
        };
        proof {
            assert forall|x: int| 0 <= x < k - j - 1 implies rest[x] != 0 by {
                assert(rest[x] == cs[j + 1 + x]);
            }
            assert(rest[k - j - 1] == cs[k as int]);
            lemma_find_byte_at(rest, 0, k - j - 1);
        }
        if k == j + 1 {
            return Err(GitError::CorruptObject);
        }
        if c.len() - k - 1 < 20 {
            proof {
                assert(rest.len() < (k - j - 1) + 1 + 20);
            }
            return Err(GitError::CorruptObject);
        }
        let name = sub_bytes(c, j + 1, k);
        proof {
            assert(name@ =~= rest.subrange(0, k - j - 1));
        }
        // a name holding a slash is rejected
        match find_first(&name, 0, 47) {
            Some(_) => {
                return Err(GitError::CorruptObject);
            },
            None => {},
        }
        let oid = sub_bytes(c, k + 1, k + 21);
        proof {
            assert(oid@ =~= rest.subrange(k - j - 1 + 1, k - j - 1 + 21));
        }
        let e = TreeEntry { mode: m, name: name, oid: oid };
        proof {
            let kk = k - j - 1;
            let e_spec = TreeEntryView {
                mode: m,
                name: rest.subrange(0, kk),
                oid: rest.subrange(kk + 1, kk + 21),
            };
            assert(e@ == e_spec);
            assert(rest.subrange(kk + 21, rest.len() as int) =~= cs.subrange(
                k + 21 as int,
                cs.len() as int,
            ));
            assert(parse_tree_spec(rem) == match parse_tree_spec(
                cs.subrange(k + 21 as int, cs.len() as int),
            ) {
                None => None::<Seq<TreeEntryView>>,
                Some(es) => Some(seq![e_spec] + es),
            });
        }
        let ghost prev = out@;
        out.push(e);
        pos = k + 21;
        proof {
            assert(entries_view(out@) =~= entries_view(prev).push(e@));
            match parse_tree_spec(cs.subrange(pos as int, cs.len() as int)) {
                Some(es) => {
                    assert(entries_view(prev) + (seq![e@] + es) =~= entries_view(out@) + es);
                },
                None => {},
            }
        }
    }
    proof {
        assert(cs.subrange(cs.len() as int, cs.len() as int) =~= Seq::<u8>::empty());
        assert(entries_view(out@) + Seq::<TreeEntryView>::empty() =~= entries_view(out@));
    }
    Ok(out)
}

/// Byte-lexicographic order on names: a prefix comes first, else the
/// first differing byte decides.
pub open spec fn bytes_le(a: Seq<u8>, b: Seq<u8>) -> bool
    decreases a.len(),
{
    if a.len() == 0 {
        true
    } else if b.len() == 0 {
        false
    } else if a[0] < b[0] {
        true
    } else if a[0] > b[0] {
        false
    } else {
        bytes_le(a.drop_first(), b.drop_first())
    }
}

/// The order holds of every name and itself.
pub proof fn lemma_bytes_le_refl(a: Seq<u8>)
    ensures
        bytes_le(a, a),
    decreases a.len(),
{
    if a.len() > 0 {
        lemma_bytes_le_refl(a.drop_first());
    }
}

/// The order is total.
pub proof fn lemma_bytes_le_total(a: Seq<u8>, b: Seq<u8>)
    ensures
        bytes_le(a, b) || bytes_le(b, a),
    decreases a.len(),
{
    if a.len() > 0 && b.len() > 0 && a[0] == b[0] {
        lemma_bytes_le_total(a.drop_first(), b.drop_first());
    }
}

/// The order is antisymmetric: mutual order means equality.
pub proof fn lemma_bytes_le_antisym(a: Seq<u8>, b: Seq<u8>)
    requires
        bytes_le(a, b),
        bytes_le(b, a),
    ensures
        a == b,
    decreases a.len(),
{
    if a.len() > 0 && b.len() > 0 && a[0] == b[0] {
        lemma_bytes_le_antisym(a.drop_first(), b.drop_first());
        assert(a =~= seq![a[0]] + a.drop_first());
        assert(b =~= seq![b[0]] + b.drop_first());
    } else {
        assert(a.len() == 0 && b.len() == 0);
        assert(a =~= b);
    }
}

/// The order is transitive.
pub proof fn lemma_bytes_le_trans(a: Seq<u8>, b: Seq<u8>, c: Seq<u8>)
    requires
        bytes_le(a, b),
        bytes_le(b, c),
    ensures
        bytes_le(a, c),
    decreases a.len(),
{
    if a.len() > 0 && b.len() > 0 && c.len() > 0 && a[0] == b[0] && b[0] == c[0] {
        lemma_bytes_le_trans(a.drop_first(), b.drop_first(), c.drop_first());
    }
}

/// Equal prefixes do not affect the order of what follows.
proof fn lemma_bytes_le_skip(a: Seq<u8>, b: Seq<u8>, i: int)
    requires
        0 <= i <= a.len(),
        i <= b.len(),
        forall|j: int| 0 <= j < i ==> a[j] == b[j],
    ensures
        bytes_le(a, b) == bytes_le(a.skip(i), b.skip(i)),
    decreases i,
{
    if i > 0 {
        lemma_bytes_le_skip(a.drop_first(), b.drop_first(), i - 1);
        assert(a.drop_first().skip(i - 1) =~= a.skip(i));
        assert(b.drop_first().skip(i - 1) =~= b.skip(i));
    } else {
        assert(a.skip(0) =~= a);
        assert(b.skip(0) =~= b);
    }
}

/// Compares two names in byte-lexicographic order.
pub fn bytes_le_exec(a: &Vec<u8>, b: &Vec<u8>) -> (r: bool)
    ensures
        r == bytes_le(a@, b@),
{
    let n = if a.len() < b.len() {
        a.len()
    } else {
        b.len()
    };
    let mut i: usize = 0;
    while i < n
        invariant
            i <= n,
            n == if a@.len() < b@.len() { a@.len() } else { b@.len() },
            forall|j: int| 0 <= j < i ==> a@[j] == b@[j],
        decreases n - i,
    {
        if a[i] < b[i] {
            proof {
                lemma_bytes_le_skip(a@, b@, i as int);
                assert(bytes_le(a@.skip(i as int), b@.skip(i as int)));
            }
            return true;
        }
        if a[i] > b[i] {
            proof {
                lemma_bytes_le_skip(a@, b@, i as int);
                assert(!bytes_le(a@.skip(i as int), b@.skip(i as int)));
            }
            return false;
        }
        i += 1;
    }
    proof {
        lemma_bytes_le_skip(a@, b@, n as int);
        if a@.len() <= b@.len() {
            assert(a@.skip(n as int).len() == 0);
        } else {
            assert(b@.skip(n as int).len() == 0);
            assert(a@.skip(n as int).len() > 0);
        }
    }
    a.len() <= b.len()
}

/// Are the entries in non-strict name order?
pub open spec fn sorted_names(es: Seq<TreeEntryView>) -> bool {
    forall|i: int, j: int|
        0 <= i < j < es.len() ==> bytes_le((#[trigger] es[i]).name, (#[trigger] es[j]).name)
}

/// Does no name appear twice?
pub open spec fn distinct_names(es: Seq<TreeEntryView>) -> bool {
    forall|i: int, j: int|
        0 <= i < j < es.len() ==> (#[trigger] es[i]).name != (#[trigger] es[j]).name
}

/// Removing an entry commutes with taking views.
proof fn lemma_entries_view_remove(s: Seq<TreeEntry>, i: int)
    requires
        0 <= i < s.len(),
    ensures
        entries_view(s.remove(i)) =~= entries_view(s).remove(i),
{
}

/// Sorts entries by name, keeping exactly the same entries.
#[verifier::loop_isolation(false)]
pub fn sort_tree_entries(es: Vec<TreeEntry>) -> (r: Vec<TreeEntry>)
    ensures
        sorted_names(entries_view(r@)),
        entries_view(r@).to_multiset() == entries_view(es@).to_multiset(),
{
    broadcast use vstd::seq_lib::group_to_multiset_ensures;

    let ghost goal = entries_view(es@).to_multiset();
    let mut src = es;
    let mut out: Vec<TreeEntry> = Vec::new();
    while src.len() > 0
        invariant
            sorted_names(entries_view(out@)),
            forall|i: int, j: int|
                0 <= i < out@.len() && 0 <= j < src@.len() ==> bytes_le(
                    (#[trigger] entries_view(out@)[i]).name,
                    (#[trigger] entries_view(src@)[j]).name,
                ),
            entries_view(out@).to_multiset().add(entries_view(src@).to_multiset()) == goal,
        decreases src@.len(),
    {
        // pick the least remaining name
        let mut m: usize = 0;
        let mut t: usize = 1;
        proof {
            lemma_bytes_le_refl(entries_view(src@)[0].name);
        }
        while t < src.len()
            invariant
                m < t <= src@.len() || (t <= src@.len() && m == 0),
                m < src@.len(),
                forall|j: int|
                    0 <= j < t ==> bytes_le(
                        entries_view(src@)[m as int].name,
                        (#[trigger] entries_view(src@)[j]).name,
                    ),
            decreases src@.len() - t,
        {
            if bytes_le_exec(&src[t].name, &src[m].name) {
                proof {
                    assert forall|j: int|
                        0 <= j < t + 1 implies bytes_le(
                        entries_view(src@)[t as int].name,
                        (#[trigger] entries_view(src@)[j]).name,
                    ) by {
                        if j == t {
                            lemma_bytes_le_refl(entries_view(src@)[t as int].name);
                        }
                        if j < t {
                            lemma_bytes_le_trans(
                                entries_view(src@)[t as int].name,
                                entries_view(src@)[m as int].name,
                                entries_view(src@)[j].name,
                            );
                        }
                    }
                }
                m = t;
            } else {
                proof {
                    lemma_bytes_le_total(
                        entries_view(src@)[t as int].name,
                        entries_view(src@)[m as int].name,
                    );
                }
            }
            t += 1;
        }
        let ghost src_before = src@;
        let e = src.remove(m);
        let ghost out_before = out@;
        out.push(e);
        proof {
            lemma_entries_view_remove(src_before, m as int);
            assert(entries_view(out@) =~= entries_view(out_before).push(e@));
            assert(entries_view(src@).to_multiset() =~= entries_view(src_before).to_multiset()
                .remove(e@));
            assert(entries_view(src_before).to_multiset().contains(e@));
            assert(entries_view(out@).to_multiset().add(entries_view(src@).to_multiset())
                =~= goal);
            // the chosen entry keeps the output sorted
            assert forall|i: int, j: int|
                0 <= i < j < entries_view(out@).len() implies bytes_le(
                (#[trigger] entries_view(out@)[i]).name,
                (#[trigger] entries_view(out@)[j]).name,
            ) by {
                if j == entries_view(out@).len() - 1 {
                    assert(entries_view(out@)[i] == entries_view(out_before)[i]);
                }
            }
            // everything still unsorted is at or above the chosen name
            assert forall|i: int, j: int|
                0 <= i < out@.len() && 0 <= j < src@.len() implies bytes_le(
                (#[trigger] entries_view(out@)[i]).name,
                (#[trigger] entries_view(src@)[j]).name,
            ) by {
                let jj = if j < m { j } else { j + 1 };
                assert(entries_view(src@)[j] == entries_view(src_before)[jj]);
                if i < out_before.len() {
                    assert(entries_view(out@)[i] == entries_view(out_before)[i]);
                } else {
                    assert(entries_view(out@)[i] == e@);
                }
            }
        }
    }
    proof {
        assert(entries_view(src@).to_multiset().len() == 0);
        assert(entries_view(out@).to_multiset() =~= goal);
    }
    out
}

/// Tree canonicality: two sorted entry lists with no duplicate names that
/// hold the same entries are the same list — so entries given in any
/// order have one canonical encoding and one identifier.
pub proof fn lemma_sorted_unique(a: Seq<TreeEntryView>, b: Seq<TreeEntryView>)
    requires
        sorted_names(a),
        sorted_names(b),
        distinct_names(a),
        distinct_names(b),
        a.to_multiset() == b.to_multiset(),
    ensures
        a == b,
    decreases a.len(),
{
    broadcast use vstd::seq_lib::group_to_multiset_ensures;

    if a.len() == 0 {
        assert(b.to_multiset().len() == 0);
        assert(a =~= b);
    } else {
        assert(a.to_multiset().contains(a[0])) by {
            assert(a.contains(a[0]));
        }
        assert(b.contains(a[0]));
        let j = choose|j: int| 0 <= j < b.len() && b[j] == a[0];
        assert(b.to_multiset().contains(b[0])) by {
            assert(b.contains(b[0]));
        }
        assert(a.contains(b[0]));
        let i = choose|i: int| 0 <= i < a.len() && a[i] == b[0];
        if j != 0 && i != 0 {
            assert(bytes_le(b[0].name, b[j].name));
            assert(bytes_le(a[0].name, a[i].name));
            assert(b[0].name != b[j].name);
            assert(a[0].name != a[i].name);
            lemma_bytes_le_trans(a[0].name, a[i].name, a[0].name);
            lemma_bytes_le_antisym(a[0].name, a[i].name);
            assert(false);
        }
        assert(a[0] == b[0]);
        let at = a.drop_first();
        let bt = b.drop_first();
        assert(a.remove(0) =~= at);
        assert(b.remove(0) =~= bt);
        assert(at.to_multiset() =~= a.to_multiset().remove(a[0]));
        assert(bt.to_multiset() =~= b.to_multiset().remove(b[0]));
        assert forall|x: int, y: int|
            0 <= x < y < at.len() implies bytes_le((#[trigger] at[x]).name, (#[trigger] at[y]).name)
            && at[x].name != at[y].name by {
            assert(at[x] == a[x + 1] && at[y] == a[y + 1]);
        }
        assert forall|x: int, y: int|
            0 <= x < y < bt.len() implies bytes_le((#[trigger] bt[x]).name, (#[trigger] bt[y]).name)
            && bt[x].name != bt[y].name by {
            assert(bt[x] == b[x + 1] && bt[y] == b[y + 1]);
        }
        lemma_sorted_unique(at, bt);
        assert(a =~= seq![a[0]] + at);
        assert(b =~= seq![b[0]] + bt);
    }
}

/// Does `n` occur as a contiguous run inside `h`?
pub open spec fn contains_sub(h: Seq<u8>, n: Seq<u8>) -> bool {
    exists|i: int| 0 <= i <= h.len() - n.len() && #[trigger] h.subrange(i, i + n.len()) == n
}

/// Scans `h` for an occurrence of `n`.
#[verifier::loop_isolation(false)]
pub fn contains_subslice(h: &Vec<u8>, n: &Vec<u8>) -> (r: bool)
    ensures
        r == contains_sub(h@, n@),
{
    if n.len() > h.len() {
        return false;
    }
    if n.len() == 0 {
        proof {
            assert(h@.subrange(0, 0 + n@.len() as int) =~= n@);
        }
        return true;
    }
    let last = h.len() - n.len();
    let mut i: usize = 0;
    while i <= last
        invariant
            i <= last + 1,
            forall|x: int| 0 <= x < i ==> #[trigger] h@.subrange(x, x + n@.len()) != n@,
        decreases last - i + 1,
    {
        let mut j: usize = 0;
        let mut hit = true;
        while j < n.len() && hit
            invariant
                j <= n@.len(),
                i + n@.len() <= h@.len(),
                hit ==> forall|y: int| 0 <= y < j ==> h@[i + y] == n@[y],
                !hit ==> h@.subrange(i as int, i + n@.len()) != n@,
            decreases n@.len() - j + (if hit { 1int } else { 0int }),
        {
            if h[i + j] != n[j] {
                proof {
                    assert(h@.subrange(i as int, i + n@.len())[j as int] != n@[j as int]);
                }
                hit = false;
            } else {
                j += 1;
            }
        }
        if hit {
            proof {
                assert(h@.subrange(i as int, i + n@.len()) =~= n@);
            }
            return true;
        }
        i += 1;
    }
    false
}

/// The ignore rule of the tree builder: an entry is kept unless its name
/// is `.git` or occurs anywhere inside the ignore file's bytes. The
/// substring test is deliberately naive; it is not the full ignore
/// pattern grammar.
pub fn keep_tree_entry(gitignore: &Vec<u8>, name: &Vec<u8>) -> (r: bool)
    ensures
        r == (name@ != seq![46u8, 103u8, 105u8, 116u8] && !contains_sub(gitignore@, name@)),
{
    let mut dotgit: Vec<u8> = Vec::new();
    dotgit.push(46);
    dotgit.push(103);
    dotgit.push(105);
    dotgit.push(116);
    proof {
        assert(dotgit@ =~= seq![46u8, 103u8, 105u8, 116u8]);
    }
    if crate::bytes::bytes_eq(name, &dotgit) {
        return false;
    }
    !contains_subslice(gitignore, name)
}

/// Sorts the entries, encodes them canonically, and writes the tree
/// object; returns its identifier. With no duplicate names the sorted
/// form is unique, so the identifier does not depend on the input order.
pub fn make_tree_object(store: &mut ObjectStore, entries: Vec<TreeEntry>) -> (r: Vec<u8>)
    requires
        old(store).wf(),
    ensures
        final(store).wf(),
        r@.len() == 20,
        exists|sv: Seq<TreeEntryView>|
            {
                &&& sorted_names(sv)
                &&& sv.to_multiset() == entries_view(entries@).to_multiset()
                &&& r@ == oid_of(GitObjectType::Tree, #[trigger] encode_tree_entries(sv))
                &&& final(store).contents() == store_after_put(
                    old(store).contents(),
                    GitObjectType::Tree,
                    encode_tree_entries(sv),
                )
            },
{
    let sorted = sort_tree_entries(entries);
    let payload = encode_tree(&sorted);
    let ghost sv = entries_view(sorted@);
    let oid = store.put(GitObjectType::Tree, payload);
    oid
}

/// The entry names of a tree, in name order.
pub fn tree_entry_names(entries: Vec<TreeEntry>) -> (r: Vec<Vec<u8>>)
    ensures
        exists|sv: Seq<TreeEntryView>|
            {
                &&& #[trigger] sorted_names(sv)
                &&& sv.to_multiset() == entries_view(entries@).to_multiset()
                &&& r@.map_values(|n: Vec<u8>| n@) == sv.map_values(|e: TreeEntryView| e.name)
            },
{
    let sorted = sort_tree_entries(entries);
    let ghost sv = entries_view(sorted@);
    let mut out: Vec<Vec<u8>> = Vec::new();
    let mut i: usize = 0;
    while i < sorted.len()
        invariant
            i <= sorted@.len(),
            sv == entries_view(sorted@),
            out@.map_values(|n: Vec<u8>| n@) =~= sv.map_values(
                |e: TreeEntryView| e.name,
            ).subrange(0, i as int),
        decreases sorted@.len() - i,
    {
        let name = crate::bytes::sub_bytes(&sorted[i].name, 0, sorted[i].name.len());
        proof {
            assert(name@ =~= sv[i as int].name);
        }
        let ghost prev = out@;
        out.push(name);
        proof {
            assert(out@.map_values(|n: Vec<u8>| n@) =~= prev.map_values(|n: Vec<u8>| n@).push(
                sv[i as int].name,
            ));
            assert(out@.map_values(|n: Vec<u8>| n@) =~= sv.map_values(
                |e: TreeEntryView| e.name,
            ).subrange(0, i + 1));
        }
        i += 1;
    }
    proof {
        assert(sv.map_values(|e: TreeEntryView| e.name).subrange(
            0,
            sv.len() as int,
        ) =~= sv.map_values(|e: TreeEntryView| e.name));
    }
    out
}

} // verus!
