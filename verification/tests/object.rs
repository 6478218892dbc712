use gitobj::error::ObjectError;
use gitobj::object::{read, find_object, object_rel_path, Object};
use gitobj::repo::Repo;

fn repo() -> Repo {
    Repo { git_dir: String::from(".git") }
}

#[test]
fn blob_write_then_read() {
    let blob = Object::Blob { repo: repo(), bytes: b"hello".to_vec() };
    let frame = gitobj::object::write(&blob);
    assert_eq!(frame.as_slice(), b"blob 5\0hello" as &[u8]);
    let back = read(repo(), &frame, None).unwrap();
    assert_eq!(back.serialize(), b"hello" as &[u8]);
}

#[test]
fn commit_write_then_read() {
    let payload = b"tree abc\nauthor A <a@x> 1 +0000\n\nhello\n";
    let obj = read(repo(), b"commit 39\0tree abc\nauthor A <a@x> 1 +0000\n\nhello\n", None).unwrap();
    assert_eq!(obj.serialize(), payload as &[u8]);
    let frame = gitobj::object::write(&obj);
    let again = read(repo(), &frame, Some("commit")).unwrap();
    assert_eq!(again.serialize(), payload as &[u8]);
}

#[test]
fn writing_twice_frames_identically() {
    let blob = Object::Blob { repo: repo(), bytes: b"same".to_vec() };
    assert_eq!(gitobj::object::write(&blob), gitobj::object::write(&blob));
}

#[test]
fn type_mismatch_beats_other_checks() {
    let frame = b"blob 5\0hello";
    let r = read(repo(), frame, Some("commit"));
    assert!(matches!(r, Err(ObjectError::TypeMismatch)));
    assert!(read(repo(), frame, Some("blob")).is_ok());
}

#[test]
fn declared_length_off_by_one_is_corrupt() {
    let r = read(repo(), b"blob 6\0hello", None);
    assert!(matches!(r, Err(ObjectError::Corrupt)));
    let r2 = read(repo(), b"blob 4\0hello", None);
    assert!(matches!(r2, Err(ObjectError::Corrupt)));
}

#[test]
fn unsupported_type_name() {
    let r = read(repo(), b"foo 3\0abc", None);
    assert!(matches!(r, Err(ObjectError::UnsupportedType)));
}

#[test]
fn missing_delimiters_are_corrupt() {
    assert!(matches!(read(repo(), b"blobnospace", None), Err(ObjectError::Corrupt)));
    assert!(matches!(read(repo(), b"blob 5 hello", None), Err(ObjectError::Corrupt)));
}

#[test]
fn tree_frame_dispatches() {
    let mut frame = b"tree 33\0100644 a.txt\0".to_vec();
    frame.extend_from_slice(&[0u8; 20]);
    let obj = read(repo(), &frame, Some("tree")).unwrap();
    match obj {
        Object::Tree(t) => assert_eq!(t.entries()[0].path, "a.txt"),
        _ => panic!("expected a tree"),
    }
}

#[test]
fn hash_splits_into_directory_and_file() {
    let h = "e673d1b7eaa0aa01b5bc2442d570a765bdaae751";
    let (d, f) = object_rel_path(h).unwrap();
    assert_eq!(d, "e6");
    assert_eq!(f, "73d1b7eaa0aa01b5bc2442d570a765bdaae751");
    assert_eq!(object_rel_path("short"), Err(ObjectError::NotFound));
}

#[test]
fn find_object_returns_the_name() {
    assert_eq!(find_object(repo(), "HEAD", None, true), "HEAD");
}
