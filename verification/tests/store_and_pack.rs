use std::io::Write;

use mini_git::delta::apply_delta;
use mini_git::object::{GitObject, GitObjectType};
use mini_git::pack::{parse_object_header, parse_size_encoding};
use mini_git::commit::encode_commit;
use mini_git::repo::Repo;
use mini_git::tree::{encode_tree, sort_tree_entries, TreeEntry, TreeMode};
use mini_git::store::ObjectStore;
use mini_git::GitError;

fn deflate(data: &[u8]) -> Vec<u8> {
    let mut enc = flate2::write::ZlibEncoder::new(Vec::new(), flate2::Compression::fast());
    enc.write_all(data).unwrap();
    enc.finish().unwrap()
}

fn raw_oid(obj: &GitObject) -> Vec<u8> {
    hex::decode(&obj.id).unwrap()
}

#[test]
fn store_put_is_idempotent() {
    let mut store = ObjectStore::new();
    let oid1 = store.put(GitObjectType::Blob, b"hello\n".to_vec());
    assert_eq!(store.count(), 1);
    let oid2 = store.put(GitObjectType::Blob, b"hello\n".to_vec());
    assert_eq!(store.count(), 1);
    assert_eq!(oid1, oid2);
    let (t, p) = store.get(&oid1).unwrap();
    assert!(matches!(t, GitObjectType::Blob));
    assert_eq!(p, b"hello\n".to_vec());
}

#[test]
fn store_get_of_absent_oid_is_not_found() {
    let store = ObjectStore::new();
    let missing = vec![0u8; 20];
    assert_eq!(store.get(&missing).unwrap_err(), GitError::NotFound);
    let mut store2 = ObjectStore::new();
    let oid = store2.put(GitObjectType::Blob, b"x".to_vec());
    assert!(store2.has(&oid));
    assert!(!store2.has(&missing));
}

#[test]
fn entry_header_reads_tag_and_size() {
    // 0x93 = continuation bit, tag 1, low size 3; next byte 5 adds 5 << 4
    let bytes = vec![0x93u8, 0x05];
    let (tag, size, next) = parse_object_header(&bytes, 0).unwrap();
    assert_eq!(tag, 1);
    assert_eq!(size, 3 + (5 << 4));
    assert_eq!(next, 2);
    // a small entry fits in one byte: tag 3, size 6
    let one = vec![0x36u8];
    let (tag2, size2, next2) = parse_object_header(&one, 0).unwrap();
    assert_eq!(tag2, 3);
    assert_eq!(size2, 6);
    assert_eq!(next2, 1);
    assert_eq!(parse_object_header(&Vec::new(), 0).unwrap_err(), GitError::BadPack);
}

#[test]
fn size_encoding_accumulates_seven_bit_groups() {
    let bytes = vec![0x85u8, 0x03];
    // groups: 5 at weight 16, 3 at weight 2048
    let (v, next) = parse_size_encoding(&bytes, 0, 7).unwrap();
    assert_eq!(v, 7 + 5 * 16 + 3 * 2048);
    assert_eq!(next, 2);
}

#[test]
fn delta_copies_and_appends() {
    let base = b"AAAA".to_vec();
    // base size 4, target size 5, copy offset 0 size 4, literal 'X'
    let delta = vec![0x04u8, 0x05, 0x90, 0x04, 0x01, b'X'];
    let target = apply_delta(&base, &delta).unwrap();
    assert_eq!(target, b"AAAAX".to_vec());
}

#[test]
fn delta_errors_are_exact() {
    let base = b"AAAA".to_vec();
    // a zero instruction byte is reserved
    let delta = vec![0x04u8, 0x05, 0x00];
    assert_eq!(apply_delta(&base, &delta).unwrap_err(), GitError::CorruptDelta);
    // declared base size disagrees
    let delta2 = vec![0x03u8, 0x05, 0x90, 0x04, 0x01, b'X'];
    assert_eq!(apply_delta(&base, &delta2).unwrap_err(), GitError::CorruptDelta);
    // declared target size disagrees
    let delta3 = vec![0x04u8, 0x06, 0x90, 0x04, 0x01, b'X'];
    assert_eq!(apply_delta(&base, &delta3).unwrap_err(), GitError::CorruptDelta);
    // copy past the end of the base
    let delta4 = vec![0x04u8, 0x06, 0x90, 0x06];
    assert_eq!(apply_delta(&base, &delta4).unwrap_err(), GitError::CorruptDelta);
}

fn pack_of(entries: &[Vec<u8>]) -> Vec<u8> {
    let mut pack = b"PACK".to_vec();
    pack.extend_from_slice(&[0, 0, 0, 2]);
    pack.extend_from_slice(&(entries.len() as u32).to_be_bytes());
    for e in entries {
        pack.extend_from_slice(e);
    }
    pack
}

fn entry_header(tag: u8, len: usize) -> Vec<u8> {
    if len < 16 {
        vec![(tag << 4) | (len as u8)]
    } else {
        // low four bits first, then seven-bit groups at growing weight
        let mut header = vec![0x80u8 | (tag << 4) | ((len & 0xf) as u8)];
        let mut rest = len >> 4;
        while rest >= 0x80 {
            header.push(0x80 | (rest & 0x7f) as u8);
            rest >>= 7;
        }
        header.push(rest as u8);
        header
    }
}

fn undeltified_entry(tag: u8, payload: &[u8]) -> Vec<u8> {
    let mut e = entry_header(tag, payload.len());
    e.extend_from_slice(&deflate(payload));
    e
}

#[test]
fn synthetic_pack_with_ref_delta_yields_the_patched_object() {
    let base_obj = GitObject::new(b"AAAA".to_vec(), GitObjectType::Blob);
    let expected = GitObject::new(b"AAAAX".to_vec(), GitObjectType::Blob);

    let blob_entry = undeltified_entry(3, b"AAAA");
    let delta = vec![0x04u8, 0x05, 0x90, 0x04, 0x01, b'X'];
    let mut delta_entry = vec![(7u8 << 4) | (delta.len() as u8)];
    delta_entry.extend_from_slice(&raw_oid(&base_obj));
    delta_entry.extend_from_slice(&deflate(&delta));

    let pack = pack_of(&[blob_entry, delta_entry]);
    let mut store = ObjectStore::new();
    let stored = mini_git::pack::ingest_pack(&mut store, &pack).unwrap();
    assert_eq!(stored, 2);
    let (t, p) = store.get(&raw_oid(&expected)).unwrap();
    assert!(matches!(t, GitObjectType::Blob));
    assert_eq!(p, b"AAAAX".to_vec());
}

#[test]
fn delta_before_its_base_still_resolves() {
    let base_obj = GitObject::new(b"AAAA".to_vec(), GitObjectType::Blob);
    let expected = GitObject::new(b"AAAAX".to_vec(), GitObjectType::Blob);

    let delta = vec![0x04u8, 0x05, 0x90, 0x04, 0x01, b'X'];
    let mut delta_entry = vec![(7u8 << 4) | (delta.len() as u8)];
    delta_entry.extend_from_slice(&raw_oid(&base_obj));
    delta_entry.extend_from_slice(&deflate(&delta));
    let blob_entry = undeltified_entry(3, b"AAAA");

    // the delta arrives first; resolution must defer and iterate
    let pack = pack_of(&[delta_entry, blob_entry]);
    let mut store = ObjectStore::new();
    mini_git::pack::ingest_pack(&mut store, &pack).unwrap();
    assert!(store.has(&raw_oid(&expected)));
}

#[test]
fn pack_errors_are_classified() {
    let mut store = ObjectStore::new();
    assert_eq!(
        mini_git::pack::ingest_pack(&mut store, &b"JUNK".to_vec()).unwrap_err(),
        GitError::BadPack
    );
    // an offset delta entry is outside this core
    let ofs_entry = vec![0x63u8];
    let pack = pack_of(&[ofs_entry]);
    assert_eq!(mini_git::pack::ingest_pack(&mut store, &pack).unwrap_err(), GitError::Unsupported);
    // a delta whose base never arrives is a missing base
    let delta = vec![0x04u8, 0x05, 0x90, 0x04, 0x01, b'X'];
    let mut delta_entry = vec![(7u8 << 4) | (delta.len() as u8)];
    delta_entry.extend_from_slice(&[0u8; 20]);
    delta_entry.extend_from_slice(&deflate(&delta));
    let pack2 = pack_of(&[delta_entry]);
    assert_eq!(
        mini_git::pack::ingest_pack(&mut store, &pack2).unwrap_err(),
        GitError::MissingBase
    );
}

#[test]
fn pack_closure_reaches_every_object_of_a_commit() {

    let blob = GitObject::new(b"A\n".to_vec(), GitObjectType::Blob);
    let entries = vec![TreeEntry {
        mode: TreeMode::Regular,
        name: b"a".to_vec(),
        oid: raw_oid(&blob),
    }];
    let tree_payload = encode_tree(&sort_tree_entries(entries));
    let tree = GitObject::new(tree_payload.clone(), GitObjectType::Tree);
    let commit_payload = encode_commit(
        &tree.id.clone().into_bytes(),
        &None,
        &b"A Name".to_vec(),
        &b"a@example.com".to_vec(),
        &b"init".to_vec(),
        1700000000,
        0,
    );
    let commit = GitObject::new(commit_payload.clone(), GitObjectType::Commit);

    let mut entries_bytes = Vec::new();
    entries_bytes.push(undeltified_entry(3, b"A\n"));
    entries_bytes.push(undeltified_entry(2, &tree_payload));
    entries_bytes.push(undeltified_entry(1, &commit_payload));

    let pack = pack_of(&entries_bytes);
    let mut repo = Repo::new("https://example.invalid/repo.git", "dst");
    repo.ingest_pack(&pack).unwrap();

    // the transitive closure of the commit is present
    assert!(repo.objects.has(&raw_oid(&commit)));
    assert!(repo.objects.has(&raw_oid(&tree)));
    assert!(repo.objects.has(&raw_oid(&blob)));

    // and checkout finds the file the tree names, with its payload
    let actions = repo
        .checkout_plan(&commit.id.clone().into_bytes(), 64)
        .unwrap();
    assert_eq!(actions.len(), 1);
    match &actions[0] {
        mini_git::repo::CheckoutAction::WriteFile { path, data, .. } => {
            assert_eq!(path, &b"a".to_vec());
            assert_eq!(data, &b"A\n".to_vec());
        }
        _ => panic!("expected a file write"),
    }
}

#[test]
fn ack_region_is_skipped_up_to_the_signature() {
    let mut response = b"0008NAK\n".to_vec();
    response.extend_from_slice(b"0000");
    let pack = pack_of(&[undeltified_entry(3, b"A")]);
    response.extend_from_slice(&pack);
    let sliced = mini_git::pkt::upload_pack_response_pack(&response).unwrap();
    assert_eq!(sliced, pack);
    assert_eq!(
        mini_git::pkt::upload_pack_response_pack(&b"garbage".to_vec()).unwrap_err(),
        GitError::BadPack
    );
    assert_eq!(
        mini_git::pkt::upload_pack_response_pack(&b"0008NAK\n".to_vec()).unwrap_err(),
        GitError::BadPack
    );
}

#[test]
fn ingest_count_equals_the_header_count() {
    let pack = pack_of(&[undeltified_entry(3, b"A"), undeltified_entry(3, b"B")]);
    let mut store = ObjectStore::new();
    assert_eq!(mini_git::pack::ingest_pack(&mut store, &pack).unwrap(), 2);
    assert_eq!(store.count(), 2);
}
