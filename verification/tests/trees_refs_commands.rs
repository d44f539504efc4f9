use mini_git::object::{GitObject, GitObjectType};
use mini_git::pkt::build_upload_pack_request;
use mini_git::refs::parse_refs;
use mini_git::repo::{plan_ref_files, App, Command, Repo};
use mini_git::store::ObjectStore;
use mini_git::tree::{
    decode_tree, encode_tree, keep_tree_entry, make_tree_object, sort_tree_entries,
    tree_entry_names, TreeEntry, TreeMode,
};
use mini_git::GitError;
use std::io::Read;

fn entry(mode: TreeMode, name: &[u8], fill: u8) -> TreeEntry {
    TreeEntry { mode, name: name.to_vec(), oid: vec![fill; 20] }
}

#[test]
fn tree_codec_round_trips_sorted_entries() {
    let entries = vec![
        entry(TreeMode::Regular, b"a", 1),
        entry(TreeMode::Subtree, b"lib", 2),
        entry(TreeMode::Executable, b"run.sh", 3),
    ];
    let encoded = encode_tree(&sort_tree_entries(entries));
    let decoded = decode_tree(&encoded).unwrap();
    assert_eq!(decoded.len(), 3);
    assert_eq!(decoded[0].name, b"a".to_vec());
    assert!(matches!(decoded[0].mode, TreeMode::Regular));
    assert_eq!(decoded[1].name, b"lib".to_vec());
    assert!(matches!(decoded[1].mode, TreeMode::Subtree));
    assert_eq!(decoded[2].name, b"run.sh".to_vec());
    assert_eq!(decoded[2].oid, vec![3u8; 20]);
}

#[test]
fn decode_tolerates_zero_bytes_inside_the_oid() {
    let entries = vec![entry(TreeMode::Regular, b"f", 0)];
    let encoded = encode_tree(&sort_tree_entries(entries));
    let decoded = decode_tree(&encoded).unwrap();
    assert_eq!(decoded[0].oid, vec![0u8; 20]);
}

#[test]
fn decode_rejects_malformed_trees() {
    assert_eq!(decode_tree(&b"777 x\x00".to_vec()).unwrap_err(), GitError::CorruptObject);
    assert_eq!(
        decode_tree(&b"100644 x\x00short".to_vec()).unwrap_err(),
        GitError::CorruptObject
    );
    let mut with_slash = b"100644 a/b\x00".to_vec();
    with_slash.extend_from_slice(&[7u8; 20]);
    assert_eq!(decode_tree(&with_slash).unwrap_err(), GitError::CorruptObject);
}

#[test]
fn tree_oid_does_not_depend_on_entry_order() {
    let forward = vec![
        entry(TreeMode::Regular, b"a", 1),
        entry(TreeMode::Regular, b"b", 2),
        entry(TreeMode::Subtree, b"c", 3),
    ];
    let backward = vec![
        entry(TreeMode::Subtree, b"c", 3),
        entry(TreeMode::Regular, b"b", 2),
        entry(TreeMode::Regular, b"a", 1),
    ];
    let mut s1 = ObjectStore::new();
    let mut s2 = ObjectStore::new();
    let o1 = make_tree_object(&mut s1, forward);
    let o2 = make_tree_object(&mut s2, backward);
    assert_eq!(o1, o2);
    assert_eq!(o1.len(), 20);
}

#[test]
fn write_tree_names_come_back_in_order() {
    // two files named `a` and `b` list as `a` then `b`
    let names = tree_entry_names(vec![
        entry(TreeMode::Regular, b"b", 2),
        entry(TreeMode::Regular, b"a", 1),
    ]);
    assert_eq!(names, vec![b"a".to_vec(), b"b".to_vec()]);
}

#[test]
fn ignore_filter_is_a_naive_substring_test() {
    let gitignore = b"target\n*.tmp\n".to_vec();
    assert!(!keep_tree_entry(&gitignore, &b".git".to_vec()));
    assert!(!keep_tree_entry(&gitignore, &b"target".to_vec()));
    // a name inside another ignored word is dropped too: the filter is
    // substring containment, not the ignore-pattern grammar
    assert!(!keep_tree_entry(&gitignore, &b"arg".to_vec()));
    assert!(keep_tree_entry(&gitignore, &b"src".to_vec()));
}

fn pkt_line(payload: &[u8]) -> Vec<u8> {
    let mut v = format!("{:04x}", payload.len() + 4).into_bytes();
    v.extend_from_slice(payload);
    v
}

#[test]
fn advertisement_parses_refs_and_capabilities() {
    let h1 = "aaaaaaaaaaaaaaaaaaaaaaaaaaaaaaaaaaaaaaaa";
    let h2 = "bbbbbbbbbbbbbbbbbbbbbbbbbbbbbbbbbbbbbbbb";
    let mut body = pkt_line(b"# service=git-upload-pack\n");
    body.extend_from_slice(b"0000");
    let mut first = format!("{} HEAD", h1).into_bytes();
    first.push(0);
    first.extend_from_slice(b"multi_ack side-band\n");
    body.extend_from_slice(&pkt_line(&first));
    body.extend_from_slice(&pkt_line(format!("{} refs/heads/master\n", h2).as_bytes()));
    body.extend_from_slice(b"0000");

    let refs = parse_refs(&body).unwrap();
    assert_eq!(refs.refs.len(), 2);
    assert_eq!(refs.refs[0].name, "HEAD");
    assert_eq!(refs.refs[0].hash, h1);
    assert_eq!(refs.refs[1].name, "refs/heads/master");
    assert_eq!(refs.refs[1].hash, h2);
    assert_eq!(refs.head, h1);
    assert_eq!(refs.services, vec!["multi_ack".to_string(), "side-band".to_string()]);
}

#[test]
fn advertisement_with_broken_framing_is_rejected() {
    assert_eq!(parse_refs(&b"00".to_vec()).unwrap_err(), GitError::BadPack);
    assert_eq!(parse_refs(&b"zzzz".to_vec()).unwrap_err(), GitError::BadPack);
}

#[test]
fn upload_pack_request_frames_and_dedups_wants() {
    let h1 = b"aaaaaaaaaaaaaaaaaaaaaaaaaaaaaaaaaaaaaaaa".to_vec();
    let h2 = b"bbbbbbbbbbbbbbbbbbbbbbbbbbbbbbbbbbbbbbbb".to_vec();
    let body = build_upload_pack_request(&vec![h1.clone(), h2.clone(), h1.clone()]);
    let text = String::from_utf8(body).unwrap();
    assert_eq!(
        text,
        format!(
            "0032want {}\n0032want {}\n00000009done\n",
            "aaaaaaaaaaaaaaaaaaaaaaaaaaaaaaaaaaaaaaaa", "bbbbbbbbbbbbbbbbbbbbbbbbbbbbbbbbbbbbbbbb"
        )
    );
}

#[test]
fn ref_files_mirror_the_advertisement() {
    let h = b"aaaaaaaaaaaaaaaaaaaaaaaaaaaaaaaaaaaaaaaa".to_vec();
    let refs = vec![
        (b"HEAD".to_vec(), h.clone()),
        (b"refs/heads/master".to_vec(), h.clone()),
        (b"refs/tags/v1".to_vec(), h.clone()),
        (b"refs/pull/1/head".to_vec(), h.clone()),
        (b"refs/remotes/origin/main".to_vec(), vec![b'b'; 40]),
    ];
    let writes = plan_ref_files(&refs).unwrap();
    assert_eq!(writes.len(), 3);
    assert_eq!(writes[0].0, b"HEAD".to_vec());
    assert_eq!(writes[0].1, b"ref: refs/heads/master\n".to_vec());
    assert_eq!(writes[1].0, b"refs/heads/master".to_vec());
    let mut expected = h.clone();
    expected.push(b'\n');
    assert_eq!(writes[1].1, expected);
    assert_eq!(writes[2].0, b"refs/remotes/origin/HEAD".to_vec());
    assert_eq!(writes[2].1, b"ref: refs/remotes/origin/main\n".to_vec());
}

#[test]
fn ref_files_without_head_is_not_found() {
    let refs = vec![(b"refs/heads/master".to_vec(), vec![b'a'; 40])];
    assert_eq!(plan_ref_files(&refs).unwrap_err(), GitError::NotFound);
}

fn args(list: &[&str]) -> Vec<String> {
    list.iter().map(|s| s.to_string()).collect()
}

#[test]
fn commands_parse_to_their_shapes() {
    let app = App::new();
    assert!(matches!(app.run(args(&["prog", "init"])).unwrap(), Command::Init));
    match app.run(args(&["prog", "cat-file", "-p", "abc"])).unwrap() {
        Command::CatFile { oid } => assert_eq!(oid, "abc"),
        _ => panic!("wrong command"),
    }
    match app.run(args(&["prog", "hash-object", "-w", "f.txt"])).unwrap() {
        Command::HashObject { path } => assert_eq!(path, "f.txt"),
        _ => panic!("wrong command"),
    }
    match app.run(args(&["prog", "ls-tree", "--name-only", "abc"])).unwrap() {
        Command::LsTree { oid } => assert_eq!(oid, "abc"),
        _ => panic!("wrong command"),
    }
    assert!(matches!(app.run(args(&["prog", "write-tree"])).unwrap(), Command::WriteTree));
    match app.run(args(&["prog", "commit-tree", "t", "-m", "msg"])).unwrap() {
        Command::CommitTree { tree, parent, message } => {
            assert_eq!(tree, "t");
            assert!(parent.is_none());
            assert_eq!(message, "msg");
        }
        _ => panic!("wrong command"),
    }
    match app.run(args(&["prog", "commit-tree", "t", "-p", "p", "-m", "msg"])).unwrap() {
        Command::CommitTree { tree, parent, message } => {
            assert_eq!(tree, "t");
            assert_eq!(parent.unwrap(), "p");
            assert_eq!(message, "msg");
        }
        _ => panic!("wrong command"),
    }
    match app.run(args(&["prog", "clone", "https://example.com/r.git/", "dst"])).unwrap() {
        Command::CloneRepo { url, dir } => {
            assert_eq!(url, "https://example.com/r.git");
            assert_eq!(dir, "dst");
        }
        _ => panic!("wrong command"),
    }
}

#[test]
fn misused_commands_are_bad_args() {
    let app = App::new();
    assert_eq!(app.run(args(&["prog"])).unwrap_err(), GitError::BadArgs);
    assert_eq!(app.run(args(&["prog", "unknown"])).unwrap_err(), GitError::BadArgs);
    assert_eq!(app.run(args(&["prog", "cat-file", "-x", "abc"])).unwrap_err(), GitError::BadArgs);
    assert_eq!(app.run(args(&["prog", "commit-tree", "t"])).unwrap_err(), GitError::BadArgs);
    // the error taxonomy also names a plain I/O failure, raised by callers
    assert_eq!(GitError::IoError, GitError::IoError);
}

#[test]
fn checkout_plan_walks_nested_trees() {
    let mut repo = Repo::new("https://example.invalid/r.git", "dst");
    let blob = GitObject::new(b"hi\n".to_vec(), GitObjectType::Blob);
    let blob_oid = repo.objects.put(GitObjectType::Blob, b"hi\n".to_vec());
    assert_eq!(hex::encode(&blob_oid), blob.id);

    let inner = make_tree_object(
        &mut repo.objects,
        vec![TreeEntry { mode: TreeMode::Regular, name: b"f".to_vec(), oid: blob_oid.clone() }],
    );
    let outer = make_tree_object(
        &mut repo.objects,
        vec![TreeEntry { mode: TreeMode::Subtree, name: b"d".to_vec(), oid: inner.clone() }],
    );
    let commit_payload = mini_git::commit::encode_commit(
        &hex::encode(&outer).into_bytes(),
        &None,
        &b"A".to_vec(),
        &b"a@b".to_vec(),
        &b"m".to_vec(),
        0,
        0,
    );
    let commit_oid = repo.objects.put(GitObjectType::Commit, commit_payload);
    let actions = repo
        .checkout_plan(&hex::encode(&commit_oid).into_bytes(), 8)
        .unwrap();
    assert_eq!(actions.len(), 2);
    match &actions[0] {
        mini_git::repo::CheckoutAction::MakeDir { path } => assert_eq!(path, &b"d".to_vec()),
        _ => panic!("expected a directory"),
    }
    match &actions[1] {
        mini_git::repo::CheckoutAction::WriteFile { path, data, .. } => {
            assert_eq!(path, &b"d/f".to_vec());
            assert_eq!(data, &b"hi\n".to_vec());
        }
        _ => panic!("expected a file"),
    }
}

#[test]
fn checkout_plan_of_missing_commit_is_not_found() {
    let repo = Repo::new("https://example.invalid/r.git", "dst");
    let head = b"aaaaaaaaaaaaaaaaaaaaaaaaaaaaaaaaaaaaaaaa".to_vec();
    assert_eq!(repo.checkout_plan(&head, 8).unwrap_err(), GitError::NotFound);
    assert_eq!(
        repo.checkout_plan(&b"zz".to_vec(), 8).unwrap_err(),
        GitError::CorruptObject
    );
}

#[test]
fn repo_load_refs_records_names_and_head() {
    let h = "cccccccccccccccccccccccccccccccccccccccc";
    let mut body = pkt_line(b"# service=git-upload-pack\n");
    body.extend_from_slice(b"0000");
    let mut first = format!("{} HEAD", h).into_bytes();
    first.push(0);
    first.extend_from_slice(b"side-band\n");
    body.extend_from_slice(&pkt_line(&first));
    body.extend_from_slice(b"0000");
    let mut repo = Repo::new("https://example.invalid/r.git", "dst");
    repo.load_refs(&body).unwrap();
    assert_eq!(repo.refs.len(), 1);
    assert_eq!(repo.refs[0].name, "HEAD");
    assert_eq!(repo.head, h);
}

#[test]
fn stored_files_carry_the_object_ids() {
    let mut repo = Repo::new("https://example.invalid/r.git", "dst");
    repo.objects.put(GitObjectType::Blob, b"hello\n".to_vec());
    let files = repo.stored_files();
    assert_eq!(files.len(), 1);
    assert_eq!(files[0].0, "ce013625030ba8dba906f756967f9e9ca394464a");
    // the stored bytes inflate back to the wrapped form
    let mut inflated = Vec::new();
    flate2::read::ZlibDecoder::new(&files[0].1[..])
        .read_to_end(&mut inflated)
        .unwrap();
    assert_eq!(inflated, b"blob 6\x00hello\n".to_vec());
}

#[test]
fn initial_head_names_the_master_branch() {
    assert_eq!(
        mini_git::repo::initial_head_content(),
        b"ref: refs/heads/master\n".to_vec()
    );
}
