use minvcs::commands::snap;
use minvcs::decode::parse_object;
use minvcs::digest::{digest_of, to_hex};
use minvcs::error::{CorruptReason, StoreError};
use minvcs::exclude::is_listed;
use minvcs::object::{create_dir_body, encode_object, snapshot_body_of, DirectoryNode, SnapshotMetadata, StoredObject};
use minvcs::snapshot::is_within;
use minvcs::store::{verify_and_decode, ObjectManager, ObjectRecord};
use minvcs::system::{get_managed_directory, parent_path};
use minvcs::tree::{skip_child, FsChild, FsNode, FsTree};
use std::io::Read;

fn inflate(data: &[u8]) -> Vec<u8> {
    let mut out = Vec::new();
    flate2::read::ZlibDecoder::new(data).read_to_end(&mut out).unwrap();
    out
}

fn sha_hex(data: &[u8]) -> String {
    <sha2::Sha256 as sha2::Digest>::digest(data).iter().map(|b| format!("{:02x}", b)).collect()
}

fn child(name: &str, index: usize) -> FsChild {
    FsChild { name: name.to_string(), index }
}

fn file(content: &str) -> FsNode {
    FsNode::File { content: content.as_bytes().to_vec() }
}

fn dir(excludes: &str, children: Vec<FsChild>) -> FsNode {
    FsNode::Dir { excludes: excludes.to_string(), children }
}

fn tree(nodes: Vec<FsNode>, paths: &[&str]) -> FsTree {
    FsTree { nodes, paths: paths.iter().map(|p| p.to_string()).collect() }
}

fn manager() -> ObjectManager {
    ObjectManager::new("/repo".to_string())
}

fn record_for<'a>(out: &'a [ObjectRecord], digest: &str) -> &'a ObjectRecord {
    out.iter()
        .find(|r| format!("{}{}", &digest[..2], r.file_name) == digest && r.dir.ends_with(&digest[..2]))
        .expect("no record for digest")
}

#[test]
fn digest_of_known_values() {
    assert_eq!(digest_of(b""), "e3b0c44298fc1c149afbf4c8996fb92427ae41e4649b934ca495991b7852b855");
    assert_eq!(digest_of(b"abc"), "ba7816bf8f01cfea414140de5dae2223b00361a396177a9cb410ff61f20015ad");
}

#[test]
fn hex_rendering() {
    assert_eq!(to_hex(&[0x00, 0x0f, 0xa0, 0xff]), "000fa0ff");
    assert_eq!(to_hex(&[]), "");
}

#[test]
fn encode_blob_header() {
    assert_eq!(encode_object(b"file", b"hello"), b"file 5\0hello".to_vec());
    assert_eq!(encode_object(b"file", b""), b"file 0\0".to_vec());
    let long = vec![7u8; 1234];
    let enc = encode_object(b"file", &long);
    assert_eq!(&enc[..10], b"file 1234\0");
}

#[test]
fn encoding_is_deterministic() {
    assert_eq!(encode_object(b"file", b"same"), encode_object(b"file", b"same"));
    assert_eq!(digest_of(&encode_object(b"file", b"same")), digest_of(&encode_object(b"file", b"same")));
}

#[test]
fn different_blobs_have_different_digests() {
    let a = digest_of(&encode_object(b"file", b"a"));
    let b = digest_of(&encode_object(b"file", b"b"));
    assert_ne!(a, b);
    assert_eq!(a.len(), 64);
}

#[test]
fn dir_body_is_sorted_by_digest_then_name() {
    let mut children = vec![
        DirectoryNode::new("z".to_string(), "bb".to_string()),
        DirectoryNode::new("b".to_string(), "aa".to_string()),
        DirectoryNode::new("a".to_string(), "aa".to_string()),
    ];
    let body = create_dir_body(&mut children);
    assert_eq!(body, b"aa a\naa b\nbb z\n".to_vec());
    assert_eq!(children[0].name, "a");
    assert_eq!(children[2].hash, "bb");
}

#[test]
fn snapshot_body_layout() {
    let meta = SnapshotMetadata {
        author: "ann".to_string(),
        comment: "first".to_string(),
        parents: vec!["pa".to_string(), "pb".to_string()],
    };
    assert_eq!(snapshot_body_of("t0", &meta), b"t0\nauthor:ann\nparent:pa\nparent:pb\n\nfirst".to_vec());
    let orphan = SnapshotMetadata { author: "a".to_string(), comment: String::new(), parents: vec![] };
    assert_eq!(snapshot_body_of("t", &orphan), b"t\nauthor:a\n\n".to_vec());
}

#[test]
fn exclusion_lists() {
    assert!(is_listed("build\n  target \n\n", "target"));
    assert!(is_listed("a\r\nb", "b"));
    assert!(is_listed("a\r\nb", "a"));
    assert!(is_listed("a\u{000C}\n", "a"));
    assert!(is_listed("\u{00A0}\u{3000}b\u{2009}", "b"));
    assert!(!is_listed("build\n", "buil"));
    assert!(!is_listed("\n\n", ""));
    assert!(!is_listed("", "x"));
}

#[test]
fn skipped_children() {
    assert!(skip_child("", ".minvcs", true));
    assert!(!skip_child("", ".minvcs", false));
    assert!(skip_child("", "bad\nname", false));
    assert!(skip_child("x\n", "x", false));
    assert!(!skip_child("x\n", "y", false));
}

#[test]
fn object_paths() {
    let m = manager();
    assert_eq!(m.get_object_dir(), "/repo/.minvcs/objects");
    assert_eq!(m.get_head_file_path(), "/repo/.minvcs/head");
    let (d, f) = m.get_object_file_path("abcdef");
    assert_eq!(d, "/repo/.minvcs/objects/ab");
    assert_eq!(f, "cdef");
}

#[test]
fn scope_check() {
    assert!(is_within("/repo", "/repo"));
    assert!(is_within("/repo", "/repo/a/b"));
    assert!(!is_within("/repo", "/repository"));
    assert!(!is_within("/repo", "/other"));
}

#[test]
fn single_file_tree() {
    let t = tree(vec![dir("", vec![child("a.txt", 1)]), file("hello")], &["/repo", "/repo/a.txt"]);
    let mut out = Vec::new();
    let d = manager().store_path(&t, &mut out).unwrap();
    assert_eq!(out.len(), 2);
    let blob_digest = sha_hex(b"file 5\0hello");
    let blob = record_for(&out, &blob_digest);
    assert_eq!(inflate(&blob.compressed), b"file 5\0hello".to_vec());
    let body = format!("{} a.txt\n", blob_digest);
    let tree_enc = [format!("directory {}\0", body.len()).into_bytes(), body.into_bytes()].concat();
    assert_eq!(d, sha_hex(&tree_enc));
    let rec = record_for(&out, &d);
    assert_eq!(inflate(&rec.compressed), tree_enc);
    match manager().retrieve_object(&d, Some(rec.compressed.as_slice())).unwrap() {
        StoredObject::Directory { children, hash } => {
            assert_eq!(hash, d);
            assert_eq!(children.len(), 1);
            assert_eq!(children[0].name, "a.txt");
            assert_eq!(children[0].hash, blob_digest);
        }
        _ => panic!("expected a directory"),
    }
}

#[test]
fn empty_root_snapshot() {
    let t = tree(vec![dir("", vec![])], &["/repo"]);
    let mut out = Vec::new();
    let mut head = None;
    let d = manager().take_snapshot(&mut head, &t, "me".to_string(), "c".to_string(), &mut out).unwrap();
    assert_eq!(head, Some(d.clone()));
    assert_eq!(out.len(), 2);
    let tree_digest = sha_hex(b"directory 0\0");
    assert_eq!(inflate(&out[0].compressed), b"directory 0\0".to_vec());
    let body = format!("{}\nauthor:me\n\nc", tree_digest);
    let snap_enc = [format!("snapshot {}\0", body.len()).into_bytes(), body.into_bytes()].concat();
    assert_eq!(inflate(&out[1].compressed), snap_enc);
    assert_eq!(d, sha_hex(&snap_enc));
    match manager().retrieve_object(&tree_digest, Some(out[0].compressed.as_slice())).unwrap() {
        StoredObject::Directory { children, .. } => assert!(children.is_empty()),
        _ => panic!("expected a directory"),
    }
}

#[test]
fn snapshots_chain_to_previous_head() {
    let t = tree(vec![dir("", vec![child("f", 1)]), file("x")], &["/repo", "/repo/f"]);
    let m = manager();
    let mut head = None;
    let mut out = Vec::new();
    let first = snap::run(&m, &mut head, &t, &mut out).unwrap();
    let mut out2 = Vec::new();
    let second = snap::run(&m, &mut head, &t, &mut out2).unwrap();
    assert_eq!(head, Some(second.clone()));
    assert_ne!(first, second);
    let raw = inflate(&out2.last().unwrap().compressed);
    let text = String::from_utf8(raw).unwrap();
    let body = &text[text.find('\0').unwrap() + 1..];
    let parents: Vec<&str> = body.lines().filter_map(|l| l.strip_prefix("parent:")).collect();
    assert_eq!(parents, vec![first.as_str()]);
    assert!(body.contains("author:author\n"));
    assert!(body.ends_with("\n\ntest comment"));
}

#[test]
fn missing_digest_is_not_found() {
    let r = manager().retrieve_object("00ff", None);
    assert_eq!(r.err(), Some(StoreError::NotFound("00ff".to_string())));
}

#[test]
fn corrupted_payload_is_integrity_error() {
    let mut out = Vec::new();
    let enc = encode_object(b"file", b"some content to protect");
    let d = manager().store_binary_compressed(&enc, &mut out);
    for i in 0..out[0].compressed.len() {
        let mut bad = out[0].compressed.clone();
        bad[i] ^= 0x01;
        let r = manager().retrieve_object(&d, Some(bad.as_slice()));
        assert_eq!(r.err(), Some(StoreError::Integrity(d.clone())));
    }
}

#[test]
fn wrong_digest_is_integrity_error() {
    let mut out = Vec::new();
    let enc = encode_object(b"file", b"abc");
    manager().store_binary_compressed(&enc, &mut out);
    let other = digest_of(b"other");
    let r = manager().retrieve_object(&other, Some(out[0].compressed.as_slice()));
    assert_eq!(r.err(), Some(StoreError::Integrity(other)));
}

#[test]
fn put_then_get_round_trip() {
    let mut out = Vec::new();
    let enc = encode_object(b"file", b"payload\0with nul");
    let d = manager().store_binary_compressed(&enc, &mut out);
    assert_eq!(d, sha_hex(&enc));
    assert_eq!(out[0].dir, format!("/repo/.minvcs/objects/{}", &d[..2]));
    assert_eq!(out[0].file_name, d[2..].to_string());
    assert_ne!(out[0].compressed, enc);
    match manager().retrieve_object(&d, Some(out[0].compressed.as_slice())).unwrap() {
        StoredObject::File { body, hash } => {
            assert_eq!(body, b"payload\0with nul".to_vec());
            assert_eq!(hash, d);
        }
        _ => panic!("expected a file"),
    }
}

#[test]
fn children_order_does_not_matter() {
    let t1 = tree(
        vec![dir("", vec![child("a", 1), child("b", 2)]), file("1"), file("2")],
        &["/repo", "/repo/a", "/repo/b"],
    );
    let t2 = tree(
        vec![dir("", vec![child("b", 1), child("a", 2)]), file("2"), file("1")],
        &["/repo", "/repo/b", "/repo/a"],
    );
    let d1 = manager().store_path(&t1, &mut Vec::new()).unwrap();
    let d2 = manager().store_path(&t2, &mut Vec::new()).unwrap();
    assert_eq!(d1, d2);
}

#[test]
fn excluded_children_are_left_out() {
    let t = tree(
        vec![
            dir("secret\n", vec![child("keep", 1), child("secret", 2), child(".minvcs", 3)]),
            file("k"),
            file("s"),
            dir("", vec![]),
        ],
        &["/repo", "/repo/keep", "/repo/secret", "/repo/.minvcs"],
    );
    let mut out = Vec::new();
    let d = manager().store_path(&t, &mut out).unwrap();
    assert_eq!(out.len(), 2);
    let text = String::from_utf8(inflate(&record_for(&out, &d).compressed)).unwrap();
    assert!(text.contains(" keep\n"));
    assert!(!text.contains("secret"));
    assert!(!text.contains(".minvcs"));
    assert!(out.iter().all(|r| inflate(&r.compressed) != b"file 1\0s".to_vec()));
}

#[test]
fn exclusions_apply_to_their_own_directory_only() {
    let t = tree(
        vec![
            dir("x\n", vec![child("sub", 1)]),
            dir("", vec![child("x", 2), child(".minvcs", 3)]),
            file("x"),
            file("m"),
        ],
        &["/repo", "/repo/sub", "/repo/sub/x", "/repo/sub/.minvcs"],
    );
    let mut out = Vec::new();
    manager().store_path(&t, &mut out).unwrap();
    assert_eq!(out.len(), 4);
}

#[test]
fn subdirectory_is_not_the_root() {
    let t = tree(vec![dir("", vec![child(".minvcs", 1)]), file("m")], &["/repo/sub", "/repo/sub/.minvcs"]);
    let mut out = Vec::new();
    manager().store_path(&t, &mut out).unwrap();
    assert_eq!(out.len(), 2);
}

#[test]
fn path_errors() {
    let missing = tree(vec![FsNode::Missing], &["/repo/nope"]);
    assert_eq!(
        manager().store_path(&missing, &mut Vec::new()).err(),
        Some(StoreError::PathNotFound("/repo/nope".to_string()))
    );
    let outside = tree(vec![file("x")], &["/elsewhere/f"]);
    assert_eq!(
        manager().store_path(&outside, &mut Vec::new()).err(),
        Some(StoreError::OutOfScope("/elsewhere/f".to_string()))
    );
    let special = tree(vec![dir("", vec![child("fifo", 1)]), FsNode::Special], &["/repo", "/repo/fifo"]);
    assert_eq!(
        manager().store_path(&special, &mut Vec::new()).err(),
        Some(StoreError::UnsupportedPathType("/repo/fifo".to_string()))
    );
}

#[test]
fn failed_snapshot_keeps_head() {
    let t = tree(vec![dir("", vec![child("fifo", 1)]), FsNode::Special], &["/repo", "/repo/fifo"]);
    let mut head = Some("abc".to_string());
    assert!(manager().take_snapshot(&mut head, &t, "a".to_string(), "c".to_string(), &mut Vec::new()).is_err());
    assert_eq!(head, Some("abc".to_string()));
}

#[test]
fn corrupt_reasons() {
    let h = "h".to_string();
    assert_eq!(verify_and_decode("h", b"file 3abc", h.clone()).err(), Some(StoreError::Corrupt(CorruptReason::MissingSeparator)));
    assert_eq!(verify_and_decode("h", b"blob 3\0abc", h.clone()).err(), Some(StoreError::Corrupt(CorruptReason::UnknownKind)));
    assert_eq!(verify_and_decode("h", b"file 4\0abc", h.clone()).err(), Some(StoreError::Corrupt(CorruptReason::BadLength)));
    assert_eq!(verify_and_decode("h", b"file\0abc", h.clone()).err(), Some(StoreError::Corrupt(CorruptReason::BadLength)));
    assert_eq!(
        verify_and_decode("h", b"directory 6\0nospa\n", h.clone()).err(),
        Some(StoreError::Corrupt(CorruptReason::MalformedTreeLine))
    );
    assert_eq!(
        verify_and_decode("h", b"directory 3\0a b", h.clone()).err(),
        Some(StoreError::Corrupt(CorruptReason::MalformedTreeLine))
    );
    assert_eq!(verify_and_decode("h", b"file 3\0abc", "g".to_string()).err(), Some(StoreError::Integrity("h".to_string())));
}

#[test]
fn parse_tree_and_snapshot() {
    match parse_object(b"directory 12\0d1 a b\nd2 c\n", "x".to_string()).unwrap() {
        StoredObject::Directory { children, hash } => {
            assert_eq!(hash, "x");
            assert_eq!(children.len(), 2);
            assert_eq!(children[0].hash, "d1");
            assert_eq!(children[0].name, "a b");
            assert_eq!(children[1].name, "c");
        }
        _ => panic!("expected a directory"),
    }
    match parse_object(b"snapshot 2\0t\n", "y".to_string()).unwrap() {
        StoredObject::Snapshot { body, .. } => assert_eq!(body, b"t\n".to_vec()),
        _ => panic!("expected a snapshot"),
    }
}

#[test]
fn parents_of_paths() {
    assert_eq!(parent_path("/a/b"), Some("/a".to_string()));
    assert_eq!(parent_path("/a"), Some("/".to_string()));
    assert_eq!(parent_path("/"), None);
    assert_eq!(parent_path("a"), Some(String::new()));
    assert_eq!(parent_path(""), None);
}

#[test]
fn managed_directory_search() {
    assert_eq!(get_managed_directory("/a/b/c", &vec![false, true, true]), Some("/a/b".to_string()));
    assert_eq!(get_managed_directory("/a/b/c", &vec![true]), Some("/a/b/c".to_string()));
    assert_eq!(get_managed_directory("/a", &vec![false, false, true]), None);
    assert_eq!(get_managed_directory("/a", &vec![false, false]), None);
}

#[test]
fn capture_well_formedness() {
    let good = tree(vec![dir("", vec![child("a", 1)]), file("x")], &["/repo", "/repo/a"]);
    assert!(good.is_wf());
    let backwards = tree(vec![file("x"), dir("", vec![child("a", 0)])], &["/repo/a", "/repo"]);
    assert!(!backwards.is_wf());
    let dangling = tree(vec![dir("", vec![child("a", 5)])], &["/repo"]);
    assert!(!dangling.is_wf());
    let no_paths = FsTree { nodes: vec![file("x")], paths: vec![] };
    assert!(!no_paths.is_wf());
}

#[test]
fn undecodable_payload_is_integrity_error() {
    let r = manager().retrieve_object("abcd", Some(b"not a zlib stream".as_slice()));
    assert_eq!(r.err(), Some(StoreError::Integrity("abcd".to_string())));
}

#[test]
fn snapshot_moves_head_and_names_parents() {
    let t = tree(vec![dir("", vec![])], &["/repo"]);
    let meta = SnapshotMetadata { author: "a".to_string(), comment: "c".to_string(), parents: vec!["pa".to_string()] };
    let mut head = None;
    let mut out = Vec::new();
    let d = manager().snapshot(&mut head, &t, &meta, &mut out).unwrap();
    assert_eq!(head, Some(d.clone()));
    let tree_digest = sha_hex(b"directory 0\0");
    let body = format!("{}\nauthor:a\nparent:pa\n\nc", tree_digest);
    let enc = [format!("snapshot {}\0", body.len()).into_bytes(), body.into_bytes()].concat();
    assert_eq!(d, sha_hex(&enc));
    assert_eq!(inflate(&out[1].compressed), enc);
}

#[test]
fn records_already_present_are_kept() {
    let mut out = Vec::new();
    let first = manager().store_binary_compressed(b"file 1\0x", &mut out);
    let t = tree(vec![file("hello")], &["/repo/a.txt"]);
    let d = manager().store_path(&t, &mut out).unwrap();
    assert_eq!(out.len(), 2);
    assert_eq!(format!("{}{}", &first[..2], out[0].file_name), first);
    assert_eq!(d, sha_hex(b"file 5\0hello"));
    let again = manager().store_binary_compressed(b"file 1\0x", &mut out);
    assert_eq!(again, first);
}
