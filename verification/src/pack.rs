//! The pack stream: signature and version checks, entry headers with the
//! size encoding, inflated payloads, and REF-delta resolution to fixpoint.

use vstd::prelude::*;
use crate::GitError;
use crate::bytes::sub_bytes;
use crate::delta::{apply_delta, parse_size_varint, parse_varint};
use crate::object::{GitObject, GitObjectType};
use crate::store::{store_after_put, ObjectStore};
use crate::zlib::{inflate_prefix_of, zlib_inflate_prefix};

verus! {

/// Does `d` open with a well-formed pack header: the `PACK` signature and
/// version 2 or 3?
pub open spec fn pack_header_ok(d: Seq<u8>) -> bool {
    &&& d.len() >= 12
    &&& d[0] == 80 && d[1] == 65 && d[2] == 67 && d[3] == 75
    &&& d[4] == 0 && d[5] == 0 && d[6] == 0 && (d[7] == 2 || d[7] == 3)
}

/// The big-endian object count in a pack header.
pub open spec fn pack_count(d: Seq<u8>) -> nat {
    (d[8] * 0x1000000 + d[9] * 0x10000 + d[10] * 0x100 + d[11]) as nat
}

/// The type tag and uncompressed size declared by the entry header at
/// `pos`: bits six to four of the first byte are the tag, its low four
/// bits seed the size, and while the high bit is set further bytes add
/// seven size bits each at growing weight.
pub open spec fn parse_object_header_spec(d: Seq<u8>, pos: int) -> Option<((u8, nat), int)> {
    if pos < 0 || pos >= d.len() {
        None
    } else {
        let b = d[pos];
        let tag = ((b / 16) % 8) as u8;
        let low = (b % 16) as nat;
        if b < 128 {
            Some(((tag, low), pos + 1))
        } else {
            match parse_size_varint(d, pos + 1, 16) {
                None => None,
                Some((v, p)) => Some(((tag, (low + v) as nat), p)),
            }
        }
    }
}

/// Reads the continuation bytes of an entry-header size, each giving
/// seven bits at weight sixteen and up, and adds them to `base_size`.
pub fn parse_size_encoding(d: &Vec<u8>, pos: usize, base_size: u32) -> (r: Result<
    (u128, usize),
    GitError,
>)
    requires
        pos <= d@.len(),
    ensures
        match r {
            Ok((v, p)) => {
                &&& parse_size_varint(d@, pos as int, 16) matches Some(vp)
                &&& v == base_size + vp.0
                &&& vp.1 == p as int
                &&& pos < p <= d@.len()
            },
            Err(e) => e == GitError::CorruptDelta && parse_size_varint(d@, pos as int, 16) is None,
        },
{
    match parse_varint(d, pos, 16) {
        Ok((v, p)) => {
            proof {
                crate::delta::lemma_varint_bounds(d@, pos as int, 16);
            }
            Ok((base_size as u128 + v, p))
        },
        Err(e) => Err(e),
    }
}

/// Reads the entry header at `pos`: the type tag and the declared
/// uncompressed size, exactly as the pack format lays them out.
pub fn parse_object_header(d: &Vec<u8>, pos: usize) -> (r: Result<(u8, u128, usize), GitError>)
    requires
        pos <= d@.len(),
    ensures
        match r {
            Ok((tag, size, p)) => parse_object_header_spec(d@, pos as int) == Some(
                ((tag, size as nat), p as int),
            ) && pos < p <= d@.len(),
            Err(e) => e == GitError::BadPack && parse_object_header_spec(d@, pos as int) is None,
        },
{
    if pos >= d.len() {
        return Err(GitError::BadPack);
    }
    let b = d[pos];
    let tag: u8 = (b / 16) % 8;
    let low: u32 = (b % 16) as u32;
    if b < 128 {
        Ok((tag, low as u128, pos + 1))
    } else {
        match parse_size_encoding(d, pos + 1, low) {
            Ok((v, p)) => Ok((tag, v, p)),
            Err(_) => Err(GitError::BadPack),
        }
    }
}

/// One store only ever grows under pack ingestion: everything the old
/// store held, the new store holds unchanged.
pub open spec fn store_extends(
    new: Map<Seq<u8>, (GitObjectType, Seq<u8>)>,
    old_m: Map<Seq<u8>, (GitObjectType, Seq<u8>)>,
) -> bool {
    forall|k: Seq<u8>|
        old_m.contains_key(k) ==> #[trigger] new.contains_key(k) && new[k] == old_m[k]
}

/// A store extends itself after any single write.
proof fn lemma_put_extends(
    m: Map<Seq<u8>, (GitObjectType, Seq<u8>)>,
    t: GitObjectType,
    p: Seq<u8>,
)
    ensures
        store_extends(store_after_put(m, t, p), m),
{
}

/// Extension is transitive.
proof fn lemma_extends_trans(
    a: Map<Seq<u8>, (GitObjectType, Seq<u8>)>,
    b: Map<Seq<u8>, (GitObjectType, Seq<u8>)>,
    c: Map<Seq<u8>, (GitObjectType, Seq<u8>)>,
)
    requires
        store_extends(a, b),
        store_extends(b, c),
    ensures
        store_extends(a, c),
{
}

/// The object kind a pack type tag names, if it is an undeltified tag.
pub fn kind_of_tag(tag: u8) -> (r: Option<GitObjectType>)
    ensures
        r == Some(GitObjectType::Commit) <==> tag == 1,
        r == Some(GitObjectType::Tree) <==> tag == 2,
        r == Some(GitObjectType::Blob) <==> tag == 3,
        r == Some(GitObjectType::Tag) <==> tag == 4,
        r is None <==> (tag != 1 && tag != 2 && tag != 3 && tag != 4),
{
    if tag == 1 {
        Some(GitObjectType::Commit)
    } else if tag == 2 {
        Some(GitObjectType::Tree)
    } else if tag == 3 {
        Some(GitObjectType::Blob)
    } else if tag == 4 {
        Some(GitObjectType::Tag)
    } else {
        None
    }
}

/// One parsed pack entry: an undeltified object, or a REF-delta naming
/// its base.
pub ghost enum PackItemView {
    Full { t: GitObjectType, payload: Seq<u8> },
    Delta { base: Seq<u8>, data: Seq<u8> },
}

/// The object kind a pack type tag names, at the spec level.
pub open spec fn kind_of_tag_spec(tag: u8) -> Option<GitObjectType> {
    if tag == 1 {
        Some(GitObjectType::Commit)
    } else if tag == 2 {
        Some(GitObjectType::Tree)
    } else if tag == 3 {
        Some(GitObjectType::Blob)
    } else if tag == 4 {
        Some(GitObjectType::Tag)
    } else {
        None
    }
}

/// The next `n` entries of the pack from `pos` on: each header is read,
/// an offset delta is `Unsupported`, a REF-delta carries twenty raw base
/// bytes before its stream, every stream must decode and match its
/// declared size, and anything else is `BadPack`.
pub open spec fn pack_items(d: Seq<u8>, pos: int, n: nat) -> Result<Seq<PackItemView>, GitError>
    decreases n,
{
    if n == 0 {
        Ok(Seq::empty())
    } else {
        match parse_object_header_spec(d, pos) {
            None => Err(GitError::BadPack),
            Some(((tag, size), p)) => {
                if tag == 6 {
                    Err(GitError::Unsupported)
                } else if tag == 7 {
                    if d.len() - p < 20 {
                        Err(GitError::BadPack)
                    } else {
                        match inflate_prefix_of(d, p + 20) {
                            None => Err(GitError::BadPack),
                            Some((data, e)) => if data.len() != size {
                                Err(GitError::BadPack)
                            } else {
                                match pack_items(d, e, (n - 1) as nat) {
                                    Err(er) => Err(er),
                                    Ok(rest) => Ok(
                                        seq![
                                            PackItemView::Delta {
                                                base: d.subrange(p, p + 20),
                                                data: data,
                                            },
                                        ] + rest,
                                    ),
                                }
                            },
                        }
                    }
                } else {
                    match kind_of_tag_spec(tag) {
                        None => Err(GitError::BadPack),
                        Some(t) => match inflate_prefix_of(d, p) {
                            None => Err(GitError::BadPack),
                            Some((payload, e)) => if payload.len() != size {
                                Err(GitError::BadPack)
                            } else {
                                match pack_items(d, e, (n - 1) as nat) {
                                    Err(er) => Err(er),
                                    Ok(rest) => Ok(
                                        seq![PackItemView::Full { t: t, payload: payload }] + rest,
                                    ),
                                }
                            },
                        },
                    }
                }
            },
        }
    }
}

/// The store after writing every undeltified entry, in order.
pub open spec fn store_fulls(
    items: Seq<PackItemView>,
    m: Map<Seq<u8>, (GitObjectType, Seq<u8>)>,
) -> Map<Seq<u8>, (GitObjectType, Seq<u8>)>
    decreases items.len(),
{
    if items.len() == 0 {
        m
    } else {
        let m2 = match items.first() {
            PackItemView::Full { t, payload } => store_after_put(m, t, payload),
            PackItemView::Delta { .. } => m,
        };
        store_fulls(items.drop_first(), m2)
    }
}

/// The REF-delta entries, in order, as `(base, data)` pairs.
pub open spec fn pending_of(items: Seq<PackItemView>) -> Seq<(Seq<u8>, Seq<u8>)>
    decreases items.len(),
{
    if items.len() == 0 {
        Seq::empty()
    } else {
        match items.first() {
            PackItemView::Delta { base, data } => seq![(base, data)] + pending_of(
                items.drop_first(),
            ),
            PackItemView::Full { .. } => pending_of(items.drop_first()),
        }
    }
}

/// Appending one entry extends the stored map by its object, if any.
proof fn lemma_store_fulls_push(
    items: Seq<PackItemView>,
    x: PackItemView,
    m: Map<Seq<u8>, (GitObjectType, Seq<u8>)>,
)
    ensures
        store_fulls(items.push(x), m) == match x {
            PackItemView::Full { t, payload } => store_after_put(store_fulls(items, m), t, payload),
            PackItemView::Delta { .. } => store_fulls(items, m),
        },
    decreases items.len(),
{
    let pushed = items.push(x);
    if items.len() == 0 {
        assert(pushed.first() == x);
        assert(pushed.drop_first() =~= Seq::<PackItemView>::empty());
        let m2 = match x {
            PackItemView::Full { t, payload } => store_after_put(m, t, payload),
            PackItemView::Delta { .. } => m,
        };
        assert(store_fulls(Seq::<PackItemView>::empty(), m2) == m2);
        assert(store_fulls(pushed, m) == m2);
        assert(store_fulls(items, m) == m);
    } else {
        assert(pushed.first() == items.first());
        assert(pushed.drop_first() =~= items.drop_first().push(x));
        let m2 = match items.first() {
            PackItemView::Full { t, payload } => store_after_put(m, t, payload),
            PackItemView::Delta { .. } => m,
        };
        assert(store_fulls(pushed, m) == store_fulls(items.drop_first().push(x), m2));
        assert(store_fulls(items, m) == store_fulls(items.drop_first(), m2));
        lemma_store_fulls_push(items.drop_first(), x, m2);
    }
}

/// Appending one entry extends the pending list by its delta, if any.
proof fn lemma_pending_of_push(items: Seq<PackItemView>, x: PackItemView)
    ensures
        pending_of(items.push(x)) == match x {
            PackItemView::Delta { base, data } => pending_of(items).push((base, data)),
            PackItemView::Full { .. } => pending_of(items),
        },
    decreases items.len(),
{
    let pushed = items.push(x);
    if items.len() == 0 {
        assert(pushed.first() == x);
        assert(pushed.drop_first() =~= Seq::<PackItemView>::empty());
        assert(pending_of(Seq::<PackItemView>::empty()) =~= Seq::<(Seq<u8>, Seq<u8>)>::empty());
        assert(pending_of(items) =~= Seq::<(Seq<u8>, Seq<u8>)>::empty());
        match x {
            PackItemView::Delta { base, data } => {
                assert(pending_of(pushed) =~= seq![(base, data)]);
                assert(pending_of(items).push((base, data)) =~= seq![(base, data)]);
            },
            PackItemView::Full { .. } => {
                assert(pending_of(pushed) =~= Seq::<(Seq<u8>, Seq<u8>)>::empty());
            },
        }
    } else {
        assert(pushed.first() == items.first());
        assert(pushed.drop_first() =~= items.drop_first().push(x));
        lemma_pending_of_push(items.drop_first(), x);
        match items.first() {
            PackItemView::Delta { base, data } => {
                match x {
                    PackItemView::Delta { base: b2, data: d2 } => {
                        assert(pending_of(pushed) =~= seq![(base, data)] + pending_of(
                            items.drop_first(),
                        ).push((b2, d2)));
                        assert(seq![(base, data)] + pending_of(items.drop_first()).push(
                            (b2, d2),
                        ) =~= (seq![(base, data)] + pending_of(items.drop_first())).push((b2, d2)));
                    },
                    PackItemView::Full { .. } => {
                        assert(pending_of(pushed) =~= seq![(base, data)] + pending_of(
                            items.drop_first(),
                        ));
                    },
                }
            },
            PackItemView::Full { .. } => {},
        }
    }
}

/// One resolution pass over the pending deltas, left to right: a delta
/// whose base is present is applied against it and stored under the
/// base's kind; the rest stay pending. A malformed delta is
/// `CorruptDelta`.
pub open spec fn resolve_pass(
    pend: Seq<(Seq<u8>, Seq<u8>)>,
    m: Map<Seq<u8>, (GitObjectType, Seq<u8>)>,
) -> Result<(Map<Seq<u8>, (GitObjectType, Seq<u8>)>, Seq<(Seq<u8>, Seq<u8>)>), GitError>
    decreases pend.len(),
{
    if pend.len() == 0 {
        Ok((m, Seq::empty()))
    } else {
        let (base, data) = pend.first();
        if m.contains_key(base) {
            match crate::delta::apply_delta_spec(m[base].1, data) {
                None => Err(GitError::CorruptDelta),
                Some(target) => resolve_pass(
                    pend.drop_first(),
                    store_after_put(m, m[base].0, target),
                ),
            }
        } else {
            match resolve_pass(pend.drop_first(), m) {
                Err(e) => Err(e),
                Ok((m2, rest)) => Ok((m2, seq![(base, data)] + rest)),
            }
        }
    }
}

/// Resolution to fixpoint: passes repeat while they make progress; a
/// pass that resolves nothing leaves missing bases, which is
/// `MissingBase` — deltas are never dropped silently.
pub open spec fn resolve_fix(
    pend: Seq<(Seq<u8>, Seq<u8>)>,
    m: Map<Seq<u8>, (GitObjectType, Seq<u8>)>,
) -> Result<Map<Seq<u8>, (GitObjectType, Seq<u8>)>, GitError>
    decreases pend.len(),
{
    if pend.len() == 0 {
        Ok(m)
    } else {
        match resolve_pass(pend, m) {
            Err(e) => Err(e),
            Ok((m2, rest)) => if rest.len() >= pend.len() {
                Err(GitError::MissingBase)
            } else {
                resolve_fix(rest, m2)
            },
        }
    }
}

/// What ingesting a pack does to a store: the header is validated, every
/// entry parsed, undeltified objects stored in order, and the deltas
/// resolved to fixpoint.
pub open spec fn ingest_spec(d: Seq<u8>, m0: Map<Seq<u8>, (GitObjectType, Seq<u8>)>) -> Result<
    Map<Seq<u8>, (GitObjectType, Seq<u8>)>,
    GitError,
> {
    if !pack_header_ok(d) {
        Err(GitError::BadPack)
    } else {
        match pack_items(d, 12, pack_count(d)) {
            Err(e) => Err(e),
            Ok(items) => resolve_fix(pending_of(items), store_fulls(items, m0)),
        }
    }
}


/// Storing the undeltified entries only grows the map.
proof fn lemma_store_fulls_extends(
    items: Seq<PackItemView>,
    m: Map<Seq<u8>, (GitObjectType, Seq<u8>)>,
)
    ensures
        store_extends(store_fulls(items, m), m),
    decreases items.len(),
{
    if items.len() > 0 {
        let m2 = match items.first() {
            PackItemView::Full { t, payload } => store_after_put(m, t, payload),
            PackItemView::Delta { .. } => m,
        };
        match items.first() {
            PackItemView::Full { t, payload } => {
                lemma_put_extends(m, t, payload);
            },
            PackItemView::Delta { .. } => {},
        }
        lemma_store_fulls_extends(items.drop_first(), m2);
        lemma_extends_trans(store_fulls(items, m), m2, m);
    }
}

/// Each undeltified entry ends up under its own identifier.
proof fn lemma_store_fulls_has(
    items: Seq<PackItemView>,
    m: Map<Seq<u8>, (GitObjectType, Seq<u8>)>,
    i: int,
)
    requires
        0 <= i < items.len(),
        items[i] is Full,
    ensures
        store_fulls(items, m).contains_key(
            crate::object::oid_of(items[i]->Full_t, items[i]->Full_payload),
        ),
    decreases items.len(),
{
    let m2 = match items.first() {
        PackItemView::Full { t, payload } => store_after_put(m, t, payload),
        PackItemView::Delta { .. } => m,
    };
    if i == 0 {
        lemma_store_fulls_extends(items.drop_first(), m2);
    } else {
        assert(items.drop_first()[i - 1] == items[i]);
        lemma_store_fulls_has(items.drop_first(), m2, i - 1);
    }
}

/// One resolution pass only grows the map.
proof fn lemma_resolve_pass_extends(
    pend: Seq<(Seq<u8>, Seq<u8>)>,
    m: Map<Seq<u8>, (GitObjectType, Seq<u8>)>,
)
    ensures
        resolve_pass(pend, m) matches Ok(mr) ==> store_extends(mr.0, m),
    decreases pend.len(),
{
    if pend.len() > 0 {
        let (base, data) = pend.first();
        if m.contains_key(base) {
            match crate::delta::apply_delta_spec(m[base].1, data) {
                None => {},
                Some(target) => {
                    let m2 = store_after_put(m, m[base].0, target);
                    lemma_put_extends(m, m[base].0, target);
                    lemma_resolve_pass_extends(pend.drop_first(), m2);
                    match resolve_pass(pend.drop_first(), m2) {
                        Ok(mr) => {
                            lemma_extends_trans(mr.0, m2, m);
                        },
                        Err(_) => {},
                    }
                },
            }
        } else {
            lemma_resolve_pass_extends(pend.drop_first(), m);
        }
    }
}

/// Resolution to fixpoint only grows the map.
proof fn lemma_resolve_fix_extends(
    pend: Seq<(Seq<u8>, Seq<u8>)>,
    m: Map<Seq<u8>, (GitObjectType, Seq<u8>)>,
)
    ensures
        resolve_fix(pend, m) matches Ok(mf) ==> store_extends(mf, m),
    decreases pend.len(),
{
    if pend.len() > 0 {
        lemma_resolve_pass_extends(pend, m);
        match resolve_pass(pend, m) {
            Err(_) => {},
            Ok((m2, rest)) => {
                if rest.len() < pend.len() {
                    lemma_resolve_fix_extends(rest, m2);
                    match resolve_fix(rest, m2) {
                        Ok(mf) => {
                            lemma_extends_trans(mf, m2, m);
                        },
                        Err(_) => {},
                    }
                }
            },
        }
    }
}

/// The store half of pack closure: after a successful ingestion every
/// undeltified entry of the pack is present in the final store under its
/// own identifier, and nothing already stored is lost.
pub proof fn lemma_ingest_stores_full_entries(
    d: Seq<u8>,
    m0: Map<Seq<u8>, (GitObjectType, Seq<u8>)>,
    i: int,
)
    requires
        ingest_spec(d, m0) is Ok,
        0 <= i < (pack_items(d, 12, pack_count(d))->Ok_0).len(),
        pack_items(d, 12, pack_count(d))->Ok_0[i] is Full,
    ensures
        store_extends(ingest_spec(d, m0)->Ok_0, m0),
        (ingest_spec(d, m0)->Ok_0).contains_key(
            crate::object::oid_of(
                pack_items(d, 12, pack_count(d))->Ok_0[i]->Full_t,
                pack_items(d, 12, pack_count(d))->Ok_0[i]->Full_payload,
            ),
        ),
{
    let items = pack_items(d, 12, pack_count(d))->Ok_0;
    let m1 = store_fulls(items, m0);
    let mf = ingest_spec(d, m0)->Ok_0;
    lemma_store_fulls_extends(items, m0);
    lemma_store_fulls_has(items, m0, i);
    lemma_resolve_fix_extends(pending_of(items), m1);
    lemma_extends_trans(mf, m1, m0);
}

/// The pair views of a pending list.
pub open spec fn pair_views(s: Seq<(Vec<u8>, Vec<u8>)>) -> Seq<(Seq<u8>, Seq<u8>)> {
    s.map_values(|p: (Vec<u8>, Vec<u8>)| (p.0@, p.1@))
}

/// Consumes a whole pack stream and records its objects in the store,
/// exactly as `ingest_spec` says: the signature and version are
/// validated; each entry's payload is inflated and must match its
/// declared size; undeltified entries are stored at once; REF-delta
/// entries are queued and resolved to fixpoint as their bases appear, in
/// as many rounds as needed. On success the count of entries is
/// returned. A delta whose base is still absent when no round makes
/// progress is `MissingBase`; an offset delta is `Unsupported`.
#[verifier::loop_isolation(false)]
#[verifier::rlimit(100)]
#[verifier::spinoff_prover]
pub fn ingest_pack(store: &mut ObjectStore, pack: &Vec<u8>) -> (r: Result<usize, GitError>)
    requires
        old(store).wf(),
    ensures
        final(store).wf(),
        store_extends(final(store).contents(), old(store).contents()),
        match r {
            Ok(n) => ingest_spec(pack@, old(store).contents()) == Ok::<
                Map<Seq<u8>, (GitObjectType, Seq<u8>)>,
                GitError,
            >(final(store).contents()) && n == pack_count(pack@),
            Err(e) => ingest_spec(pack@, old(store).contents()) == Err::<
                Map<Seq<u8>, (GitObjectType, Seq<u8>)>,
                GitError,
            >(e),
        },
{
    let ghost ds = pack@;
    let ghost m0 = old(store).contents();
    if pack.len() < 12 {
        return Err(GitError::BadPack);
    }
    if !(pack[0] == 80 && pack[1] == 65 && pack[2] == 67 && pack[3] == 75) {
        return Err(GitError::BadPack);
    }
    if !(pack[4] == 0 && pack[5] == 0 && pack[6] == 0 && (pack[7] == 2 || pack[7] == 3)) {
        return Err(GitError::BadPack);
    }
    let count: u32 = (pack[8] as u32) * 0x1000000 + (pack[9] as u32) * 0x10000 + (pack[10] as u32)
        * 0x100 + (pack[11] as u32);
    proof {
        assert(pack_header_ok(ds));
        assert(count as nat == pack_count(ds));
    }

    let mut pos: usize = 12;
    let mut pending: Vec<(Vec<u8>, Vec<u8>)> = Vec::new();
    let mut i: u32 = 0;
    let ghost mut items_g: Seq<PackItemView> = Seq::empty();
    proof {
        assert(pair_views(pending@) =~= Seq::<(Seq<u8>, Seq<u8>)>::empty());
        match pack_items(ds, 12, count as nat) {
            Ok(rest) => {
                assert(items_g + rest =~= rest);
            },
            Err(_) => {},
        }
    }
    while i < count
        invariant
            store.wf(),
            store_extends(store.contents(), old(store).contents()),
            i <= count,
            pos <= ds.len(),
            store.contents() == store_fulls(items_g, m0),
            pair_views(pending@) == pending_of(items_g),
            match pack_items(ds, pos as int, (count - i) as nat) {
                Ok(rest) => pack_items(ds, 12, count as nat) == Ok::<
                    Seq<PackItemView>,
                    GitError,
                >(items_g + rest),
                Err(e) => pack_items(ds, 12, count as nat) == Err::<Seq<PackItemView>, GitError>(
                    e,
                ),
            },
        decreases count - i,
    {
        let ghost k = (count - i) as nat;
        let (tag, declared, p) = match parse_object_header(pack, pos) {
            Ok(h) => h,
            Err(e) => {
                proof {
                    assert(pack_items(ds, pos as int, k) == Err::<Seq<PackItemView>, GitError>(
                        GitError::BadPack,
                    ));
                }
                return Err(e);
            },
        };
        pos = p;
        if tag == 6 {
            return Err(GitError::Unsupported);
        }
        if tag == 7 {
            // a REF-delta names its base by 20 raw bytes before the stream
            if pack.len() - pos < 20 {
                return Err(GitError::BadPack);
            }
            let base_oid = sub_bytes(pack, pos, pos + 20);
            pos = pos + 20;
            let (delta, used) = match zlib_inflate_prefix(pack, pos) {
                Ok(du) => du,
                Err(_) => {
                    return Err(GitError::BadPack);
                },
            };
            pos = pos + used;
            if (delta.len() as u128) != declared {
                return Err(GitError::BadPack);
            }
            let ghost item = PackItemView::Delta { base: base_oid@, data: delta@ };
            let ghost prev_pending = pending@;
            pending.push((base_oid, delta));
            proof {
                lemma_store_fulls_push(items_g, item, m0);
                lemma_pending_of_push(items_g, item);
                assert(pair_views(pending@) =~= pair_views(prev_pending).push(
                    (pending@.last().0@, pending@.last().1@),
                ));
                match pack_items(ds, pos as int, (k - 1) as nat) {
                    Ok(rest) => {
                        assert(items_g + (seq![item] + rest) =~= items_g.push(item) + rest);
                    },
                    Err(_) => {},
                }
                items_g = items_g.push(item);
            }
        } else {
            let t = match kind_of_tag(tag) {
                Some(t) => t,
                None => {
                    return Err(GitError::BadPack);
                },
            };
            let (payload, used) = match zlib_inflate_prefix(pack, pos) {
                Ok(pu) => pu,
                Err(_) => {
                    return Err(GitError::BadPack);
                },
            };
            pos = pos + used;
            if (payload.len() as u128) != declared {
                return Err(GitError::BadPack);
            }
            let ghost item = PackItemView::Full { t: t, payload: payload@ };
            store.put_object(GitObject::new(payload, t));
            proof {
                lemma_store_fulls_push(items_g, item, m0);
                lemma_pending_of_push(items_g, item);
                match pack_items(ds, pos as int, (k - 1) as nat) {
                    Ok(rest) => {
                        assert(items_g + (seq![item] + rest) =~= items_g.push(item) + rest);
                    },
                    Err(_) => {},
                }
                items_g = items_g.push(item);
            }
        }
        i = i + 1;
    }
    proof {
        assert(pack_items(ds, pos as int, 0) == Ok::<Seq<PackItemView>, GitError>(Seq::empty()));
        assert(items_g + Seq::<PackItemView>::empty() =~= items_g);
    }
    let ghost target = resolve_fix(pending_of(items_g), store_fulls(items_g, m0));

    // resolve queued deltas to fixpoint: each round stores every delta
    // whose base is now present and keeps the rest for the next round
    while pending.len() > 0
        invariant
            store.wf(),
            store_extends(store.contents(), old(store).contents()),
            resolve_fix(pair_views(pending@), store.contents()) == target,
        decreases pending@.len(),
    {
        let ghost pv = pair_views(pending@);
        let ghost m_start = store.contents();
        let mut next: Vec<(Vec<u8>, Vec<u8>)> = Vec::new();
        let mut j: usize = 0;
        let n = pending.len();
        proof {
            assert(pv.skip(0) =~= pv);
            match resolve_pass(pv, store.contents()) {
                Ok((m2, rest)) => {
                    assert(pair_views(next@) + rest =~= rest);
                },
                Err(_) => {},
            }
        }
        while j < n
            invariant
                n == pending@.len(),
                j <= n,
                pv == pair_views(pending@),
                store.wf(),
                store_extends(store.contents(), old(store).contents()),
                resolve_fix(pv, m_start) == target,
                match resolve_pass(pv.skip(j as int), store.contents()) {
                    Ok((m2, rest)) => resolve_pass(pv, m_start) == Ok::<
                        (Map<Seq<u8>, (GitObjectType, Seq<u8>)>, Seq<(Seq<u8>, Seq<u8>)>),
                        GitError,
                    >((m2, pair_views(next@) + rest)),
                    Err(e) => resolve_pass(pv, m_start) == Err::<
                        (Map<Seq<u8>, (GitObjectType, Seq<u8>)>, Seq<(Seq<u8>, Seq<u8>)>),
                        GitError,
                    >(e),
                },
            decreases n - j,
        {
            proof {
                assert(pv.skip(j as int).first() == pv[j as int]);
                assert(pv.skip(j as int).drop_first() =~= pv.skip(j + 1));
            }
            let base_oid = &pending[j].0;
            if store.has(base_oid) {
                let (base_type, base_payload) = match store.get(base_oid) {
                    Ok(tp) => tp,
                    Err(_) => {
                        proof {
                            assert(false);
                        }
                        return Err(GitError::MissingBase);
                    },
                };
                let target_payload = match apply_delta(&base_payload, &pending[j].1) {
                    Ok(t) => t,
                    Err(e) => {
                        return Err(e);
                    },
                };
                let ghost m_mid = store.contents();
                let ghost tv = target_payload@;
                store.put_object(GitObject::new(target_payload, base_type));
                proof {
                    lemma_put_extends(m_mid, base_type, tv);
                    lemma_extends_trans(store.contents(), m_mid, old(store).contents());
                }
            } else {
                let oid_copy = sub_bytes(&pending[j].0, 0, pending[j].0.len());
                let delta_copy = sub_bytes(&pending[j].1, 0, pending[j].1.len());
                proof {
                    assert(oid_copy@ =~= pending@[j as int].0@);
                    assert(delta_copy@ =~= pending@[j as int].1@);
                }
                let ghost prev_next = next@;
                next.push((oid_copy, delta_copy));
                proof {
                    assert(pair_views(next@) =~~= pair_views(prev_next).push(pv[j as int]));
                    match resolve_pass(pv.skip(j + 1), store.contents()) {
                        Ok((m2, rest)) => {
                            assert(pair_views(prev_next) + (seq![pv[j as int]] + rest)
                                =~~= pair_views(next@) + rest);
                        },
                        Err(_) => {},
                    }
                }
            }
            j = j + 1;
        }
        proof {
            assert(pv.skip(n as int).len() == 0);
            assert(pair_views(next@) + Seq::<(Seq<u8>, Seq<u8>)>::empty() =~= pair_views(next@));
        }
        if next.len() >= pending.len() {
            // no round can shrink below its input unless a base was found
            return Err(GitError::MissingBase);
        }
        pending = next;
    }
    proof {
        assert(pair_views(pending@).len() == 0);
    }
    Ok(count as usize)
}

} // verus!
