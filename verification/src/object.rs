use vstd::prelude::*;
use crate::error::ObjectError;
use crate::repo::Repo;
use crate::mail_map::{MailMap, MailPair, mail_scan, insert_all, ser_mail};
use crate::index_map::has_key;
use crate::tree::{Tree, EntryModel, tree_parse};
use crate::scan::{find_at, all_dec_digits, digits_val, dec_digits, find_byte, parse_dec, push_dec,
    lemma_find_at_props, lemma_find_at_is_first, lemma_dec_digits_shape, lemma_dec_digits_val};
use crate::text::{is_utf8, utf8_of, bytes_of, encode_utf8};
use vstd::slice::{slice_subrange, slice_to_vec};

verus! {

/// The type-name bytes of a blob: ASCII `"blob"`.
pub open spec fn blob_bytes() -> Seq<u8> {
    seq![98u8, 108u8, 111u8, 98u8]
}

/// The type-name bytes of a commit: ASCII `"commit"`.
pub open spec fn commit_bytes() -> Seq<u8> {
    seq![99u8, 111u8, 109u8, 109u8, 105u8, 116u8]
}

/// The type-name bytes of a tag: ASCII `"tag"`.
pub open spec fn tag_bytes() -> Seq<u8> {
    seq![116u8, 97u8, 103u8]
}

/// The type-name bytes of a tree: ASCII `"tree"`.
pub open spec fn tree_bytes() -> Seq<u8> {
    seq![116u8, 114u8, 101u8, 101u8]
}

/// What a stored object says, as plain values.
pub enum ObjModel {
    Blob(Seq<u8>),
    Commit(Seq<MailPair>),
    Tag(Seq<MailPair>),
    Tree(Seq<EntryModel>),
}

/// Splits a frame `type ' ' decimal-length NUL payload` into its type
/// bytes and payload, validating the declared length exactly.
pub open spec fn frame_parse(s: Seq<u8>) -> Result<(Seq<u8>, Seq<u8>), ObjectError> {
    match find_at(s, 32u8, 0) {
        None => Err(ObjectError::Corrupt),
        Some(sp) => match find_at(s, 0u8, 0) {
            None => Err(ObjectError::Corrupt),
            Some(nul) => if nul < sp + 1 {
                Err(ObjectError::Corrupt)
            } else {
                let digits = s.subrange(sp + 1, nul);
                if digits.len() == 0 || !all_dec_digits(digits) {
                    Err(ObjectError::Corrupt)
                } else if digits_val(digits) != s.len() - nul - 1 {
                    Err(ObjectError::Corrupt)
                } else {
                    Ok((s.subrange(0, sp), s.skip(nul + 1)))
                }
            },
        },
    }
}

/// Decodes a commit or tag payload into its mail-map entries.
pub open spec fn kv_payload(payload: Seq<u8>) -> Result<Seq<MailPair>, ObjectError> {
    if !is_utf8(payload) {
        Err(ObjectError::InvalidEncoding)
    } else {
        match mail_scan(utf8_of(payload)) {
            None => Err(ObjectError::Corrupt),
            Some(list) => {
                let es = insert_all(Seq::empty(), list);
                if has_key(es, Seq::<char>::empty()) {
                    Ok(es)
                } else {
                    Err(ObjectError::MissingMessage)
                }
            },
        }
    }
}

/// What reading the raw (decompressed) bytes of a stored object yields:
/// the checks and the dispatch on the type name, in the order the store
/// performs them. `expected` is the caller's type filter, as bytes.
pub open spec fn read_spec(s: Seq<u8>, expected: Option<Seq<u8>>) -> Result<ObjModel, ObjectError> {
    match find_at(s, 32u8, 0) {
        None => Err(ObjectError::Corrupt),
        Some(sp) => {
            let tb = s.subrange(0, sp);
            if expected is Some && expected.unwrap() != tb {
                Err(ObjectError::TypeMismatch)
            } else {
                match frame_parse(s) {
                    Err(e) => Err(e),
                    Ok((tb2, payload)) => {
                        if tb == blob_bytes() {
                            Ok(ObjModel::Blob(payload))
                        } else if tb == commit_bytes() {
                            match kv_payload(payload) {
                                Ok(es) => Ok(ObjModel::Commit(es)),
                                Err(e) => Err(e),
                            }
                        } else if tb == tag_bytes() {
                            match kv_payload(payload) {
                                Ok(es) => Ok(ObjModel::Tag(es)),
                                Err(e) => Err(e),
                            }
                        } else if tb == tree_bytes() {
                            match tree_parse(payload) {
                                Ok(ms) => Ok(ObjModel::Tree(ms)),
                                Err(e) => Err(e),
                            }
                        } else {
                            Err(ObjectError::UnsupportedType)
                        }
                    },
                }
            }
        },
    }
}

/// A stored object: its kind, its decoded content, and the repository
/// it belongs to.
pub enum Object {
    Blob { repo: Repo, bytes: Vec<u8> },
    Commit { repo: Repo, map: MailMap },
    Tag { repo: Repo, map: MailMap },
    Tree(Tree),
}

impl Object {
    /// What this object says, as plain values.
    pub open spec fn model(self) -> ObjModel {
        match self {
            Object::Blob { repo, bytes } => ObjModel::Blob(bytes@),
            Object::Commit { repo, map } => ObjModel::Commit(map.entries_spec()),
            Object::Tag { repo, map } => ObjModel::Tag(map.entries_spec()),
            Object::Tree(t) => ObjModel::Tree(t.models()),
        }
    }

    /// The serialized payload this object carries.
    pub open spec fn payload_spec(self) -> Seq<u8> {
        match self {
            Object::Blob { repo, bytes } => bytes@,
            Object::Commit { repo, map } => map.data_spec(),
            Object::Tag { repo, map } => map.data_spec(),
            Object::Tree(t) => t.serialize_spec(),
        }
    }

    /// The bytes of this object's type name.
    pub open spec fn type_bytes_spec(self) -> Seq<u8> {
        match self {
            Object::Blob { repo, bytes } => blob_bytes(),
            Object::Commit { repo, map } => commit_bytes(),
            Object::Tag { repo, map } => tag_bytes(),
            Object::Tree(t) => tree_bytes(),
        }
    }

    /// A well-formed object: its payload agrees with its model.
    pub open spec fn wf(self) -> bool {
        match self {
            Object::Blob { repo, bytes } => true,
            Object::Commit { repo, map } => has_key(map.entries_spec(), Seq::<char>::empty())
                && map.data_spec() == bytes_of(ser_mail(map.entries_spec()))
                && is_utf8(map.data_spec())
                && utf8_of(map.data_spec()) == ser_mail(map.entries_spec()),
            Object::Tag { repo, map } => has_key(map.entries_spec(), Seq::<char>::empty())
                && map.data_spec() == bytes_of(ser_mail(map.entries_spec()))
                && is_utf8(map.data_spec())
                && utf8_of(map.data_spec()) == ser_mail(map.entries_spec()),
            Object::Tree(t) => t.wf(),
        }
    }

    /// The repository this object belongs to.
    pub open spec fn repo_spec(self) -> Repo {
        match self {
            Object::Blob { repo, bytes } => repo,
            Object::Commit { repo, map } => repo,
            Object::Tag { repo, map } => repo,
            Object::Tree(t) => t.repo_spec(),
        }
    }

    /// Returns the serialized payload bytes.
    pub fn serialize(&self) -> (r: &[u8])
        ensures
            r@ == self.payload_spec(),
    {
        match self {
            Object::Blob { repo, bytes } => bytes.as_slice(),
            Object::Commit { repo, map } => map.to_bytes(),
            Object::Tag { repo, map } => map.to_bytes(),
            Object::Tree(t) => t.serialize(),
        }
    }
}

/// Whether two byte strings are equal, executably.
fn bytes_eq(a: &[u8], b: &[u8]) -> (r: bool)
    ensures
        r == (a@ == b@),
{
    if a.len() != b.len() {
        return false;
    }
    let mut i: usize = 0;
    while i < a.len()
        invariant
            i <= a@.len() == b@.len(),
            forall|j: int| 0 <= j < i ==> a@[j] == b@[j],
        decreases a@.len() - i,
    {
        if a[i] != b[i] {
            return false;
        }
        i = i + 1;
    }
    proof {
        assert(a@ =~= b@);
    }
    true
}

/// Reads an object from its raw, already decompressed frame bytes.
///
/// Scans for the first space to isolate the type name, rejects a caller
/// type filter that differs, then isolates and validates the declared
/// decimal length against the payload, and dispatches on the type name
/// to the matching decoder.
pub fn read(repo: Repo, raw: &[u8], expected: Option<&str>) -> (r: Result<Object, ObjectError>)
    ensures
        ({
            let e_bytes = match expected {
                Some(e) => Some(bytes_of(e@)),
                None => None::<Seq<u8>>,
            };
            match read_spec(raw@, e_bytes) {
                Ok(m) => r matches Ok(o) && o.wf() && o.model() == m && o.repo_spec() == repo,
                Err(er) => r matches Err(e2) && e2 == er,
            }
        }),
{
    let total = raw.len();
    let sp = match find_byte(raw, 32u8, 0) {
        Some(i) => i,
        None => {
            return Err(ObjectError::Corrupt);
        },
    };
    let tb = slice_subrange(raw, 0, sp);
    proof {
        assert(tb@ =~= raw@.subrange(0, sp as int));
    }
    match expected {
        Some(e) => {
            let eb = encode_utf8(e);
            if !bytes_eq(eb.as_slice(), tb) {
                return Err(ObjectError::TypeMismatch);
            }
        },
        None => {},
    }
    let nul = match find_byte(raw, 0u8, 0) {
        Some(i) => i,
        None => {
            return Err(ObjectError::Corrupt);
        },
    };
    if nul <= sp {
        return Err(ObjectError::Corrupt);
    }
    let declared = match parse_dec(raw, sp + 1, nul) {
        Some(v) => v,
        None => {
            proof {
                let digits = raw@.subrange(sp as int + 1, nul as int);
                assert(raw@.len() == total);
                if digits.len() > 0 && all_dec_digits(digits) {
                    crate::scan::lemma_digits_value_nonneg(digits);
                    assert(digits_val(digits) > usize::MAX);
                    assert(digits_val(digits) != raw@.len() - nul - 1);
                }
            }
            return Err(ObjectError::Corrupt);
        },
    };
    if declared != raw.len() - nul - 1 {
        return Err(ObjectError::Corrupt);
    }
    let payload = slice_subrange(raw, nul + 1, raw.len());
    proof {
        assert(payload@ =~= raw@.skip(nul as int + 1));
    }
    let blob_name: Vec<u8> = vec![98u8, 108u8, 111u8, 98u8];
    let commit_name: Vec<u8> = vec![99u8, 111u8, 109u8, 109u8, 105u8, 116u8];
    let tag_name: Vec<u8> = vec![116u8, 97u8, 103u8];
    let tree_name: Vec<u8> = vec![116u8, 114u8, 101u8, 101u8];
    proof {
        assert(blob_name@ =~= blob_bytes());
        assert(commit_name@ =~= commit_bytes());
        assert(tag_name@ =~= tag_bytes());
        assert(tree_name@ =~= tree_bytes());
    }
    if bytes_eq(tb, blob_name.as_slice()) {
        Ok(Object::Blob { repo, bytes: slice_to_vec(payload) })
    } else if bytes_eq(tb, commit_name.as_slice()) {
        let mut map = MailMap::new();
        match map.parse_bytes(payload, 0) {
            Ok(()) => {
                proof {
                    assert(utf8_of(payload@).skip(0) =~= utf8_of(payload@));
                }
                Ok(Object::Commit { repo, map })
            },
            Err(e) => {
                proof {
                    assert(utf8_of(payload@).skip(0) =~= utf8_of(payload@));
                }
                Err(e)
            },
        }
    } else if bytes_eq(tb, tag_name.as_slice()) {
        let mut map = MailMap::new();
        match map.parse_bytes(payload, 0) {
            Ok(()) => {
                proof {
                    assert(utf8_of(payload@).skip(0) =~= utf8_of(payload@));
                }
                Ok(Object::Tag { repo, map })
            },
            Err(e) => {
                proof {
                    assert(utf8_of(payload@).skip(0) =~= utf8_of(payload@));
                }
                Err(e)
            },
        }
    } else if bytes_eq(tb, tree_name.as_slice()) {
        match Tree::new(repo, payload) {
            Ok(t) => Ok(Object::Tree(t)),
            Err(e) => Err(e),
        }
    } else {
        Err(ObjectError::UnsupportedType)
    }
}

/// The frame `type ' ' decimal-length NUL payload` of an object.
pub open spec fn frame_of(tb: Seq<u8>, payload: Seq<u8>) -> Seq<u8> {
    tb + seq![32u8] + dec_digits(payload.len() as nat) + seq![0u8] + payload
}

/// Builds the frame that is hashed, compressed and persisted when the
/// object is written. Writing is a pure function of the object's type
/// name and payload, so writing the same object twice frames, and
/// therefore hashes, identically.
pub fn write(obj: &Object) -> (r: Vec<u8>)
    ensures
        r@ == frame_of(obj.type_bytes_spec(), obj.payload_spec()),
{
    let payload = obj.serialize();
    let mut out: Vec<u8> = match obj {
        Object::Blob { repo, bytes } => vec![98u8, 108u8, 111u8, 98u8],
        Object::Commit { repo, map } => vec![99u8, 111u8, 109u8, 109u8, 105u8, 116u8],
        Object::Tag { repo, map } => vec![116u8, 97u8, 103u8],
        Object::Tree(t) => vec![116u8, 114u8, 101u8, 101u8],
    };
    proof {
        assert(out@ =~= obj.type_bytes_spec());
    }
    out.push(32u8);
    push_dec(payload.len(), &mut out);
    out.push(0u8);
    let mut pv = slice_to_vec(payload);
    out.append(&mut pv);
    proof {
        assert(out@ =~= frame_of(obj.type_bytes_spec(), obj.payload_spec()));
    }
    out
}

/// Finds the object a name refers to. Name resolution beyond the
/// identity mapping is not implemented: the name is returned unchanged.
pub fn find_object<'a>(_repo: Repo, name: &'a str, _type: Option<&str>, _follow: bool) -> (r: &'a str)
    ensures
        r@ == name@,
{
    name
}

} // verus!

verus! {

/// The frame-integrity law: for any payload and any type name free of
/// space and NUL bytes, reading the frame that `write` builds recovers
/// the type name and the payload exactly, and the declared length it
/// validates equals the payload's length.
pub proof fn lemma_frame_integrity(tb: Seq<u8>, payload: Seq<u8>)
    requires
        tb.len() > 0,
        !tb.contains(32u8),
        !tb.contains(0u8),
    ensures
        frame_parse(frame_of(tb, payload)) == Ok::<(Seq<u8>, Seq<u8>), ObjectError>((tb, payload)),
{
    let f = frame_of(tb, payload);
    let dd = dec_digits(payload.len() as nat);
    lemma_dec_digits_shape(payload.len() as nat);
    lemma_dec_digits_val(payload.len() as nat);
    let tl = tb.len() as int;
    let np = tl + 1 + dd.len();
    assert(f.len() == np + 1 + payload.len());
    assert forall|j: int| 0 <= j < tl implies f[j] == tb[j] && f[j] != 32u8 && f[j] != 0u8 by {
        if tb[j] == 32u8 {
            assert(tb.contains(32u8));
        }
        if tb[j] == 0u8 {
            assert(tb.contains(0u8));
        }
    }
    assert(f[tl] == 32u8);
    lemma_find_at_is_first(f, 32u8, 0, tl);
    assert(forall|j: int| 0 <= j < dd.len() ==> f[tl + 1 + j] == dd[j]);
    assert(f[np] == 0u8);
    assert forall|j: int| 0 <= j < np implies f[j] != 0u8 by {
        if j < tl {
        } else if j == tl {
            assert(f[j] == 32u8);
        } else {
            assert(f[j] == dd[j - tl - 1]);
            assert(48 <= dd[j - tl - 1] <= 57);
        }
    }
    lemma_find_at_is_first(f, 0u8, 0, np);
    assert(np >= tl + 1);
    assert(f.subrange(tl + 1, np) =~= dd);
    assert(digits_val(dd) == payload.len());
    assert(f.len() - np - 1 == payload.len());
    assert(f.subrange(0, tl) =~= tb);
    assert(f.skip(np + 1) =~= payload);
}

/// The content-addressing law: the frame, and so the hash and the
/// storage path derived from it, is a pure function of the object's
/// type name and payload. Two objects carrying the same payload frame
/// identically, so writing the same object twice yields the same hash
/// and rewrites the same bytes.
pub proof fn lemma_content_addressing(a: Object, b: Object)
    requires
        a.type_bytes_spec() == b.type_bytes_spec(),
        a.payload_spec() == b.payload_spec(),
    ensures
        frame_of(a.type_bytes_spec(), a.payload_spec())
            == frame_of(b.type_bytes_spec(), b.payload_spec()),
{
}

/// Splits a 40-character hash into the 2-character directory segment
/// and 38-character file name under which the store keeps the object.
/// A hash of any other length has no backing file: `NotFound`.
pub fn object_rel_path(hash: &str) -> (r: Result<(String, String), ObjectError>)
    ensures
        match r {
            Ok(p) => hash@.len() == 40 && p.0@ == hash@.subrange(0, 2)
                && p.1@ == hash@.subrange(2, 40),
            Err(e) => e == ObjectError::NotFound && hash@.len() != 40,
        },
{
    let hc = crate::text::str_chars(hash);
    if hc.len() != 40 {
        return Err(ObjectError::NotFound);
    }
    let dir = crate::text::chars_to_string(slice_subrange(hc.as_slice(), 0, 2));
    let file = crate::text::chars_to_string(slice_subrange(hc.as_slice(), 2, 40));
    proof {
        assert(dir@ =~= hash@.subrange(0, 2));
        assert(file@ =~= hash@.subrange(2, 40));
    }
    Ok((dir, file))
}

} // verus!
