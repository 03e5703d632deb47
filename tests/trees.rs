use minigit::command::{LsTree, WriteTree};
use minigit::commit::{commit_payload, compose_commit, Signature};
use minigit::object::{Kind, Object, ObjectError};
use minigit::order::{name_le_exec, sort_entries};
use minigit::snapshot::{build_tree, is_ignored, select_entries, DirEntry};
use minigit::tree::{decode_tree, encode_tree, parse_entry, Mode, TreeEntry};

fn entry(mode: Mode, name: &str, fill: u8) -> TreeEntry {
    TreeEntry { mode, name: name.as_bytes().to_vec(), hash: vec![fill; 20] }
}

fn listed(name: &str, mode: Mode, hash: Option<u8>) -> DirEntry {
    DirEntry { name: name.as_bytes().to_vec(), mode, hash: hash.map(|b| vec![b; 20]) }
}

fn names(es: &[TreeEntry]) -> Vec<String> {
    es.iter().map(|e| String::from_utf8(e.name.clone()).unwrap()).collect()
}

#[test]
fn tree_entry_encoding_is_exact() {
    let es = vec![entry(Mode::Regular, "a.txt", 0xab), entry(Mode::Directory, "src", 1)];
    let p = encode_tree(&es);
    let mut want = b"100644 a.txt\0".to_vec();
    want.extend([0xabu8; 20]);
    want.extend(b"40000 src\0");
    want.extend([1u8; 20]);
    assert_eq!(p, want);
}

#[test]
fn tree_round_trip_with_nul_in_hashes() {
    let mut h = vec![0u8; 20];
    h[3] = 7;
    let es = vec![
        TreeEntry { mode: Mode::Executable, name: b"run.sh".to_vec(), hash: h.clone() },
        TreeEntry { mode: Mode::Symlink, name: b"link name".to_vec(), hash: vec![0; 20] },
        entry(Mode::Regular, "z", 32),
    ];
    let back = decode_tree(&encode_tree(&es)).unwrap();
    assert_eq!(back.len(), 3);
    for (a, b) in es.iter().zip(back.iter()) {
        assert_eq!(a.mode, b.mode);
        assert_eq!(a.name, b.name);
        assert_eq!(a.hash, b.hash);
    }
}

#[test]
fn empty_tree_payload_decodes_to_nothing() {
    assert_eq!(decode_tree(&[]).unwrap().len(), 0);
}

#[test]
fn malformed_tree_payloads_are_format_errors() {
    let mut p = encode_tree(&vec![entry(Mode::Regular, "f", 9)]);
    p.pop();
    assert_eq!(decode_tree(&p).unwrap_err(), ObjectError::Format);
    assert_eq!(decode_tree(b"100644 f").unwrap_err(), ObjectError::Format);
    let mut unknown = b"100600 f\0".to_vec();
    unknown.extend([0u8; 20]);
    assert_eq!(decode_tree(&unknown).unwrap_err(), ObjectError::Format);
    let mut slash = b"100644 a/b\0".to_vec();
    slash.extend([0u8; 20]);
    assert_eq!(decode_tree(&slash).unwrap_err(), ObjectError::Format);
    let mut empty_name = b"100644 \0".to_vec();
    empty_name.extend([0u8; 20]);
    assert_eq!(decode_tree(&empty_name).unwrap_err(), ObjectError::Format);
}

#[test]
fn parse_entry_reports_next_position() {
    let p = encode_tree(&vec![entry(Mode::Directory, "d", 2), entry(Mode::Regular, "e", 3)]);
    let (e, next) = parse_entry(&p, 0).unwrap();
    assert_eq!(e.name, b"d".to_vec());
    assert_eq!(next, 5 + 1 + 1 + 1 + 20);
    let (e2, end) = parse_entry(&p, next).unwrap();
    assert_eq!(e2.mode, Mode::Regular);
    assert_eq!(end, p.len());
}

#[test]
fn names_order_bytewise() {
    assert!(name_le_exec(b"a", b"ab"));
    assert!(!name_le_exec(b"ab", b"a"));
    assert!(name_le_exec(b"B", b"a"));
    assert!(name_le_exec(b"", b""));
    assert!(name_le_exec(b"x.rs", b"x.rs"));
    assert!(!name_le_exec(b"x_", b"x."));
}

#[test]
fn sort_orders_by_name() {
    let es = vec![
        entry(Mode::Regular, "zeta", 1),
        entry(Mode::Regular, "Alpha", 2),
        entry(Mode::Directory, "alpha", 3),
        entry(Mode::Regular, "al", 4),
    ];
    let s = sort_entries(es);
    assert_eq!(names(&s), vec!["Alpha", "al", "alpha", "zeta"]);
}

#[test]
fn any_permutation_gives_same_tree() {
    let a = vec![
        listed("b.txt", Mode::Regular, Some(1)),
        listed("a", Mode::Directory, Some(2)),
        listed("c", Mode::Executable, Some(3)),
    ];
    let b = vec![
        listed("c", Mode::Executable, Some(3)),
        listed("b.txt", Mode::Regular, Some(1)),
        listed("a", Mode::Directory, Some(2)),
    ];
    let ta = build_tree(&a, &vec![]).unwrap();
    let tb = build_tree(&b, &vec![]).unwrap();
    assert_eq!(ta.data(), tb.data());
    assert_eq!(ta.compress_and_hash().unwrap().0, tb.compress_and_hash().unwrap().0);
    let decoded = decode_tree(ta.data()).unwrap();
    assert_eq!(names(&decoded), vec!["a", "b.txt", "c"]);
}

#[test]
fn empty_subdirectories_yield_no_tree() {
    let only_empty = vec![listed("x", Mode::Directory, None), listed("y", Mode::Directory, None)];
    assert!(build_tree(&only_empty, &vec![]).is_none());
    assert!(build_tree(&vec![], &vec![]).is_none());
}

#[test]
fn empty_subdirectory_is_absent_from_parent() {
    let l = vec![
        listed("empty", Mode::Directory, None),
        listed("file", Mode::Regular, Some(5)),
    ];
    let t = build_tree(&l, &vec![]).unwrap();
    assert_eq!(*t.kind(), Kind::Tree);
    let decoded = decode_tree(t.data()).unwrap();
    assert_eq!(names(&decoded), vec!["file"]);
}

#[test]
fn ignored_names_are_left_out() {
    let ignore = WriteTree::ignored_names();
    assert!(is_ignored(&b".git".to_vec(), &ignore));
    assert!(is_ignored(&b"target".to_vec(), &ignore));
    assert!(!is_ignored(&b"src".to_vec(), &ignore));
    let l = vec![
        listed(".git", Mode::Directory, Some(1)),
        listed("target", Mode::Directory, Some(2)),
        listed("src", Mode::Directory, Some(3)),
    ];
    let kept = select_entries(&l, &ignore);
    assert_eq!(names(&kept), vec!["src"]);
    let only_ignored = vec![listed(".git", Mode::Directory, Some(1))];
    assert!(build_tree(&only_ignored, &ignore).is_none());
}

#[test]
fn mode_from_metadata() {
    assert_eq!(Mode::from_metadata(true, false, 0o755), Mode::Directory);
    assert_eq!(Mode::from_metadata(false, true, 0o777), Mode::Symlink);
    assert_eq!(Mode::from_metadata(false, false, 0o100), Mode::Executable);
    assert_eq!(Mode::from_metadata(false, false, 0o644), Mode::Regular);
    assert_eq!(Mode::Directory.digits(), b"40000".to_vec());
    assert_eq!(Mode::Symlink.digits(), b"120000".to_vec());
}

fn author() -> Signature {
    Signature {
        name: b"Ada".to_vec(),
        email: b"ada@example.com".to_vec(),
        time: 1700000000,
        timezone: b"+0200".to_vec(),
    }
}

#[test]
fn commit_text_is_exact() {
    let tree = [0x11u8; 20];
    let parents = vec![[0x22u8; 20], [0xabu8; 20]];
    let p = commit_payload(&tree, &parents, b"first", &author());
    let want = format!(
        "tree {}\nparent {}\nparent {}\nauthor Ada <ada@example.com> 1700000000 +0200\ncommitter Ada <ada@example.com> 1700000000 +0200\n\nfirst\n",
        "11".repeat(20),
        "22".repeat(20),
        "ab".repeat(20)
    );
    assert_eq!(String::from_utf8(p).unwrap(), want);
}

#[test]
fn commit_over_blob_is_precondition_error() {
    let blob = Object::from_bytes(Kind::Blob, b"not a tree");
    let r = compose_commit(&blob, &[0u8; 20], &vec![], b"msg", &author());
    assert_eq!(r.unwrap_err(), ObjectError::Precondition);
}

#[test]
fn commit_over_tree_is_commit_object() {
    let tree = Object::from_bytes(Kind::Tree, &[]);
    let (id, _) = tree.compress_and_hash().unwrap();
    let c = compose_commit(&tree, &id, &vec![], b"msg", &author()).unwrap();
    assert_eq!(*c.kind(), Kind::Commit);
    assert!(c.data().starts_with(b"tree 4b825dc642cb6eb9a060e54bf8d69288fbee4904\nauthor Ada"));
    assert!(c.data().ends_with(b"\n\nmsg\n"));
}

#[test]
fn ls_tree_lines() {
    let full = LsTree { object_hash: String::new(), name_only: false };
    let e = entry(Mode::Directory, "src", 0xab);
    let line = String::from_utf8(full.line(&e, Kind::Tree)).unwrap();
    assert_eq!(line, format!("040000 tree {}     src\n", "ab".repeat(20)));
    let f = entry(Mode::Regular, "a.txt", 0);
    let line2 = String::from_utf8(full.line(&f, Kind::Blob)).unwrap();
    assert_eq!(line2, format!("100644 blob {}     a.txt\n", "00".repeat(20)));
    let short = LsTree { object_hash: String::new(), name_only: true };
    assert_eq!(short.line(&e, Kind::Tree), b"src\n".to_vec());
}
