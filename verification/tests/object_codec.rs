use mini_git::commit::{encode_commit, i64_to_dec, tz_to_bytes};
use mini_git::hash::{hex_encode, hex_to_bin, sha1_digest};
use mini_git::object::{parse_obj, unwrap_obj, wrap_obj, GitObject, GitObjectType};

#[test]
fn blob_oid_of_hello_is_the_known_digest() {
    let obj = GitObject::new(b"hello\n".to_vec(), GitObjectType::Blob);
    assert_eq!(obj.id, "ce013625030ba8dba906f756967f9e9ca394464a");
    assert_eq!(obj.size, 6);
}

#[test]
fn oid_is_deterministic_across_calls() {
    let a = GitObject::new(b"same payload".to_vec(), GitObjectType::Blob);
    let b = GitObject::new(b"same payload".to_vec(), GitObjectType::Blob);
    assert_eq!(a.id, b.id);
    let c = GitObject::new(b"same payload".to_vec(), GitObjectType::Tree);
    assert_ne!(a.id, c.id);
}

#[test]
fn sha1_digest_is_twenty_bytes() {
    let d = sha1_digest(&b"abc".to_vec());
    assert_eq!(d.len(), 20);
    assert_eq!(hex_encode(&d), "a9993e364706816aba3e25717850c26c9cd0d89d");
}

#[test]
fn hex_encode_renders_low_and_high_nibbles() {
    assert_eq!(hex_encode(&vec![0xde, 0xad, 0x00, 0x0f]), "dead000f");
}

#[test]
fn hex_decode_inverts_encode() {
    let bytes = vec![0xce, 0x01, 0x36, 0x25];
    let rendered = hex_encode(&bytes);
    let back = hex_to_bin(&rendered.into_bytes()).unwrap();
    assert_eq!(back, bytes);
    assert!(hex_to_bin(&b"abc".to_vec()).is_none());
    assert!(hex_to_bin(&b"zz".to_vec()).is_none());
}

#[test]
fn wrap_then_unwrap_returns_kind_and_payload() {
    let (t, p) = unwrap_obj(&wrap_obj(GitObjectType::Blob, &b"hello\n".to_vec())).unwrap();
    assert!(matches!(t, GitObjectType::Blob));
    assert_eq!(p, b"hello\n".to_vec());

    let (t2, p2) = unwrap_obj(&wrap_obj(GitObjectType::Commit, &vec![0u8, 1, 2, 0, 3])).unwrap();
    assert!(matches!(t2, GitObjectType::Commit));
    assert_eq!(p2, vec![0u8, 1, 2, 0, 3]);
}

#[test]
fn unwrap_rejects_garbage() {
    assert_eq!(
        unwrap_obj(&b"not zlib at all".to_vec()).unwrap_err(),
        mini_git::GitError::CorruptObject
    );
}

#[test]
fn parse_obj_rejects_bad_headers() {
    assert!(parse_obj(&b"blob 3\x00abc".to_vec()).is_ok());
    assert!(parse_obj(&b"blob 4\x00abc".to_vec()).is_err());
    assert!(parse_obj(&b"sock 3\x00abc".to_vec()).is_err());
    assert!(parse_obj(&b"blob3\x00abc".to_vec()).is_err());
    assert!(parse_obj(&b"blob 3abc".to_vec()).is_err());
}

#[test]
fn signed_decimal_rendering() {
    assert_eq!(i64_to_dec(0), b"0".to_vec());
    assert_eq!(i64_to_dec(1700000000), b"1700000000".to_vec());
    assert_eq!(i64_to_dec(-5), b"-5".to_vec());
    assert_eq!(i64_to_dec(i64::MIN), b"-9223372036854775808".to_vec());
}

#[test]
fn timezone_rendering() {
    assert_eq!(tz_to_bytes(0), b"+0000".to_vec());
    assert_eq!(tz_to_bytes(3600), b"+0100".to_vec());
    assert_eq!(tz_to_bytes(19800), b"+0530".to_vec());
    assert_eq!(tz_to_bytes(-28800), b"-0800".to_vec());
}

#[test]
fn commit_payload_has_one_author_and_one_committer() {
    let tree = b"1111111111111111111111111111111111111111".to_vec();
    let payload = encode_commit(
        &tree,
        &None,
        &b"A Name".to_vec(),
        &b"a@example.com".to_vec(),
        &b"msg".to_vec(),
        1700000000,
        0,
    );
    let text = String::from_utf8(payload.clone()).unwrap();
    assert!(text.starts_with("tree 1111111111111111111111111111111111111111\nauthor "));
    assert_eq!(text.matches("author ").count(), 1);
    assert_eq!(text.matches("committer ").count(), 1);
    assert!(text.ends_with("\n\nmsg\n"));
}

#[test]
fn commit_payload_with_parent_names_it_once() {
    let tree = b"1111111111111111111111111111111111111111".to_vec();
    let parent = b"2222222222222222222222222222222222222222".to_vec();
    let payload = encode_commit(
        &tree,
        &Some(parent),
        &b"A Name".to_vec(),
        &b"a@example.com".to_vec(),
        &b"m".to_vec(),
        10,
        -3600,
    );
    let text = String::from_utf8(payload).unwrap();
    assert!(text.contains("\nparent 2222222222222222222222222222222222222222\n"));
    assert!(text.contains(" 10 -0100\n"));
}

#[test]
fn make_commit_object_stores_a_canonical_commit() {
    let mut store = mini_git::store::ObjectStore::new();
    let tree = b"1111111111111111111111111111111111111111".to_vec();
    let oid = mini_git::commit::make_commit_object(
        &mut store,
        &tree,
        &None,
        &b"A Name".to_vec(),
        &b"a@example.com".to_vec(),
        &b"msg".to_vec(),
    );
    let (kind, payload) = store.get(&oid).unwrap();
    assert!(matches!(kind, GitObjectType::Commit));
    let text = String::from_utf8(payload).unwrap();
    assert!(text.starts_with("tree 1111111111111111111111111111111111111111\nauthor A Name <a@example.com> "));
    assert_eq!(text.matches("committer ").count(), 1);
    // the clock's offset renders as a sign and four digits
    let after_author = text.split("author ").nth(1).unwrap();
    let line = after_author.split('\n').next().unwrap();
    let tz = line.rsplit(' ').next().unwrap();
    assert_eq!(tz.len(), 5);
    assert!(tz.starts_with('+') || tz.starts_with('-'));
}
