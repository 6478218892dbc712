use gitobj::error::ObjectError;
use gitobj::mode::Mode;
use gitobj::repo::Repo;
use gitobj::tree::{Tree, TreeEntry, serialize_entries};

fn repo() -> Repo {
    Repo { git_dir: String::from(".git") }
}

fn sample_payload() -> Vec<u8> {
    let mut p = Vec::new();
    p.extend_from_slice(b"100644 a.txt\0");
    p.extend_from_slice(&[0u8; 20]);
    p
}

#[test]
fn entry_round_trips() {
    let payload = sample_payload();
    let t = Tree::new(repo(), &payload).unwrap();
    assert_eq!(t.entries().len(), 1);
    let e = &t.entries()[0];
    assert_eq!(e.mode, Mode::RegularFile);
    assert_eq!(e.path, "a.txt");
    assert_eq!(e.hash, "0".repeat(40));
    assert_eq!(e.len, payload.len());
    let back = serialize_entries(t.entries()).unwrap();
    assert_eq!(back, payload);
}

#[test]
fn hash_bytes_are_hex_encoded() {
    let mut p = Vec::new();
    p.extend_from_slice(b"40000 dir\0");
    p.extend_from_slice(&[0xde, 0xad, 0xbe, 0xef, 0, 1, 2, 3, 4, 5, 6, 7, 8, 9, 10, 11, 12, 13, 14, 255]);
    let e = TreeEntry::from_bytes(&p, 0).unwrap();
    assert_eq!(e.mode, Mode::Directory);
    assert_eq!(e.hash, "deadbeef000102030405060708090a0b0c0d0eff");
}

#[test]
fn truncated_record_is_corrupt() {
    let payload = sample_payload();
    let cut = &payload[..payload.len() - 1];
    assert!(matches!(Tree::new(repo(), cut), Err(ObjectError::Corrupt)));
}

#[test]
fn unknown_mode_is_rejected() {
    let mut p = Vec::new();
    p.extend_from_slice(b"999999 a\0");
    p.extend_from_slice(&[0u8; 20]);
    assert!(matches!(Tree::new(repo(), &p), Err(ObjectError::UnknownMode)));
}

#[test]
fn non_utf8_path_is_rejected() {
    let mut p = Vec::new();
    p.extend_from_slice(b"100644 \xff\0");
    p.extend_from_slice(&[0u8; 20]);
    assert!(matches!(Tree::new(repo(), &p), Err(ObjectError::InvalidEncoding)));
}

#[test]
fn misplaced_space_is_corrupt() {
    let mut p = Vec::new();
    p.extend_from_slice(b"1006 a.txt\0");
    p.extend_from_slice(&[0u8; 20]);
    assert!(matches!(Tree::new(repo(), &p), Err(ObjectError::Corrupt)));
}

#[test]
fn multiple_entries_keep_order() {
    let mut p = sample_payload();
    p.extend_from_slice(b"100755 b.sh\0");
    p.extend_from_slice(&[1u8; 20]);
    let t = Tree::new(repo(), &p).unwrap();
    assert_eq!(t.entries().len(), 2);
    assert_eq!(t.entries()[0].path, "a.txt");
    assert_eq!(t.entries()[1].path, "b.sh");
    assert_eq!(t.entries()[1].mode, Mode::ExecutableFile);
    assert_eq!(serialize_entries(t.entries()).unwrap(), p);
    assert_eq!(t.serialize(), p.as_slice());
    assert_eq!(t.format(), "tree");
}

#[test]
fn serializing_a_nul_path_fails() {
    let entries = vec![TreeEntry {
        mode: Mode::RegularFile,
        path: String::from("bad\0name"),
        hash: "0".repeat(40),
        len: 0,
    }];
    assert_eq!(serialize_entries(&entries), Err(ObjectError::Corrupt));
}
