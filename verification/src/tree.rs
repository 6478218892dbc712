use vstd::prelude::*;
use crate::error::ObjectError;
use crate::mode::{Mode, mode_of_code};
use crate::repo::Repo;
use crate::scan::{find_at, all_dec_digits, digits_val, dec_digits, find_byte, parse_dec, push_dec,
    lemma_find_at_props, lemma_find_at_is_first, lemma_find_at_shift, lemma_dec_digits_shape,
    lemma_dec_digits_val};
use crate::text::{is_utf8, utf8_of, bytes_of, decode_utf8, encode_utf8, str_chars};
use vstd::slice::{slice_subrange};

verus! {

/// What a tree entry says: its mode, its path and its 40-character hash.
pub type EntryModel = (Mode, Seq<char>, Seq<char>);

/// Whether `c` is a lowercase hexadecimal digit.
pub open spec fn is_hex_char(c: char) -> bool {
    ('0' <= c && c <= '9') || ('a' <= c && c <= 'f')
}

/// The value of a lowercase hexadecimal digit.
pub open spec fn hex_val(c: char) -> int {
    if '0' <= c && c <= '9' {
        c as int - 48
    } else {
        c as int - 87
    }
}

/// The lowercase hexadecimal digit with value `n`.
pub open spec fn hex_digit(n: int) -> char {
    if n < 10 {
        ((48 + n) as u8) as char
    } else {
        ((87 + n) as u8) as char
    }
}

/// The lowercase hexadecimal rendering of the bytes `b`, two digits each.
pub open spec fn hex_of(b: Seq<u8>) -> Seq<char>
    decreases b.len(),
{
    if b.len() == 0 {
        Seq::empty()
    } else {
        hex_of(b.drop_last()) + seq![hex_digit(b.last() as int / 16), hex_digit(b.last() as int % 16)]
    }
}

/// The bytes that the hexadecimal digits `s` spell, pairwise.
pub open spec fn hex_bytes(s: Seq<char>) -> Seq<u8>
    decreases s.len(),
{
    if s.len() < 2 {
        Seq::empty()
    } else {
        hex_bytes(s.take(s.len() - 2))
            + seq![(16 * hex_val(s[s.len() - 2]) + hex_val(s[s.len() - 1])) as u8]
    }
}

/// A hexadecimal rendering has two digits per byte, all lowercase hex.
pub proof fn lemma_hex_of_shape(b: Seq<u8>)
    ensures
        hex_of(b).len() == 2 * b.len(),
        forall|i: int| 0 <= i < hex_of(b).len() ==> is_hex_char(#[trigger] hex_of(b)[i]),
    decreases b.len(),
{
    if b.len() > 0 {
        lemma_hex_of_shape(b.drop_last());
        assert(0 <= b.last() as int / 16 < 16);
        assert(0 <= b.last() as int % 16 < 16);
    }
}

/// Rendering the bytes that even-length lowercase hex digits spell yields
/// those digits again.
pub proof fn lemma_hex_of_inverse(s: Seq<char>)
    requires
        s.len() % 2 == 0,
        forall|i: int| 0 <= i < s.len() ==> is_hex_char(#[trigger] s[i]),
    ensures
        hex_bytes(s).len() == s.len() / 2,
        hex_of(hex_bytes(s)) == s,
    decreases s.len(),
{
    if s.len() == 0 {
        assert(hex_of(hex_bytes(s)) =~= s);
    } else {
        let t = s.take(s.len() - 2);
        lemma_hex_of_inverse(t);
        let a = hex_val(s[s.len() - 2]);
        let c = hex_val(s[s.len() - 1]);
        assert(0 <= a < 16 && 0 <= c < 16);
        let byte = (16 * a + c) as u8;
        assert(byte as int / 16 == a && byte as int % 16 == c);
        assert(hex_bytes(s).last() == byte);
        assert(hex_bytes(s).drop_last() =~= hex_bytes(t));
        assert(hex_digit(a) == s[s.len() - 2] && hex_digit(c) == s[s.len() - 1]) by {
            assert(is_hex_char(s[s.len() - 2]) && is_hex_char(s[s.len() - 1]));
            assert(hex_val(s[s.len() - 2]) == a);
        }
        assert(hex_of(hex_bytes(s)) =~= s);
    }
}

/// Relies on `hex::encode`: it renders each byte as two lowercase
/// hexadecimal digits, in order.
#[verifier::external_body]
fn to_hex(b: &[u8]) -> (r: String)
    ensures
        r@ == hex_of(b@),
{
    hex::encode(b)
}

/// Reads the bytes that the lowercase hexadecimal digits `s` spell.
/// Fails when the length is odd or a character is not lowercase hex.
pub fn hex_to_bytes(s: &[char]) -> (r: Option<Vec<u8>>)
    ensures
        match r {
            Some(v) => s@.len() % 2 == 0
                && (forall|i: int| 0 <= i < s@.len() ==> is_hex_char(#[trigger] s@[i]))
                && v@ == hex_bytes(s@) && v@.len() == s@.len() / 2,
            None => s@.len() % 2 != 0
                || exists|i: int| 0 <= i < s@.len() && !is_hex_char(#[trigger] s@[i]),
        },
{
    if s.len() % 2 != 0 {
        return None;
    }
    let mut out: Vec<u8> = Vec::new();
    let mut i: usize = 0;
    while i < s.len()
        invariant
            i % 2 == 0,
            i <= s@.len(),
            s@.len() % 2 == 0,
            forall|j: int| 0 <= j < i ==> is_hex_char(#[trigger] s@[j]),
            out@ == hex_bytes(s@.take(i as int)),
            out@.len() == i / 2,
        decreases s@.len() - i,
    {
        let c1 = s[i];
        let c2 = s[i + 1];
        let v1: u8 = if '0' <= c1 && c1 <= '9' {
            (c1 as u8) - 48
        } else if 'a' <= c1 && c1 <= 'f' {
            (c1 as u8) - 87
        } else {
            return None;
        };
        let v2: u8 = if '0' <= c2 && c2 <= '9' {
            (c2 as u8) - 48
        } else if 'a' <= c2 && c2 <= 'f' {
            (c2 as u8) - 87
        } else {
            return None;
        };
        proof {
            assert(v1 == hex_val(s@[i as int]) && v2 == hex_val(s@[i as int + 1]));
            assert(0 <= v1 < 16 && 0 <= v2 < 16);
            let t = s@.take(i as int + 2);
            assert(t.take(t.len() - 2) =~= s@.take(i as int));
            assert(t[t.len() - 2] == s@[i as int] && t[t.len() - 1] == s@[i as int + 1]);
        }
        out.push(16 * v1 + v2);
        i = i + 2;
    }
    proof {
        assert(s@.take(i as int) =~= s@);
    }
    Some(out)
}

/// A single record of a tree object: mode, path, hash, and the number of
/// payload bytes the record occupied.
#[derive(Debug)]
pub struct TreeEntry {
    pub mode: Mode,
    pub path: String,
    pub hash: String,
    pub len: usize,
}

/// The checkable part of a well-formed entry: the path carries no NUL
/// character and the hash is 40 lowercase hexadecimal digits.
pub open spec fn entry_ok(m: EntryModel) -> bool {
    !m.1.contains('\0')
    && m.2.len() == 40
    && (forall|i: int| 0 <= i < m.2.len() ==> is_hex_char(#[trigger] m.2[i]))
}

/// The encoding facts a well-formed entry's path satisfies: its UTF-8
/// bytes decode back to it and hold a zero byte only for a NUL character.
pub open spec fn entry_enc(m: EntryModel) -> bool {
    is_utf8(bytes_of(m.1))
    && utf8_of(bytes_of(m.1)) == m.1
    && (bytes_of(m.1).contains(0) <==> m.1.contains('\0'))
}

impl TreeEntry {
    /// What this entry says, as plain values.
    pub open spec fn model(self) -> EntryModel {
        (self.mode, self.path@, self.hash@)
    }

    /// A well-formed entry: checkable shape plus encoding facts.
    pub open spec fn wf(self) -> bool {
        entry_ok(self.model()) && entry_enc(self.model())
    }
}

/// The record `"{mode-decimal} {path}\0{20 raw hash bytes}"`.
pub open spec fn ser_entry(m: EntryModel) -> Seq<u8> {
    dec_digits(m.0.code() as nat) + seq![32u8] + bytes_of(m.1) + seq![0u8] + hex_bytes(m.2)
}

/// The concatenation of all records, with no separator.
pub open spec fn ser_tree(ms: Seq<EntryModel>) -> Seq<u8>
    decreases ms.len(),
{
    if ms.len() == 0 {
        Seq::empty()
    } else {
        ser_entry(ms[0]) + ser_tree(ms.skip(1))
    }
}

/// Decodes the first record of `s`: `Ok` carries the entry and the number
/// of bytes it occupies.
pub open spec fn tree_parse_entry(s: Seq<u8>) -> Result<(EntryModel, int), ObjectError> {
    let sp = find_at(s, 32u8, 0);
    if sp != Some(5int) && sp != Some(6int) {
        Err(ObjectError::Corrupt)
    } else {
        let spi = sp.unwrap();
        let digits = s.subrange(0, spi);
        if !all_dec_digits(digits) {
            Err(ObjectError::Corrupt)
        } else {
            match mode_of_code(digits_val(digits)) {
                None => Err(ObjectError::UnknownMode),
                Some(mode) => match find_at(s, 0u8, spi) {
                    None => Err(ObjectError::Corrupt),
                    Some(nul) => {
                        let pb = s.subrange(spi + 1, nul);
                        if !is_utf8(pb) {
                            Err(ObjectError::InvalidEncoding)
                        } else if nul + 21 > s.len() {
                            Err(ObjectError::Corrupt)
                        } else {
                            Ok(((mode, utf8_of(pb), hex_of(s.subrange(nul + 1, nul + 21))), nul + 21))
                        }
                    },
                },
            }
        }
    }
}

/// Decodes a whole tree payload into its ordered records; the only
/// termination signal is the end of the buffer, so a leftover partial
/// record fails.
pub open spec fn tree_parse(s: Seq<u8>) -> Result<Seq<EntryModel>, ObjectError>
    decreases s.len(),
{
    if s.len() == 0 {
        Ok(Seq::empty())
    } else {
        match tree_parse_entry(s) {
            Err(e) => Err(e),
            Ok((m, l)) => if 1 <= l <= s.len() {
                match tree_parse(s.skip(l)) {
                    Err(e) => Err(e),
                    Ok(rest) => Ok(seq![m] + rest),
                }
            } else {
                Err(ObjectError::Corrupt)
            },
        }
    }
}

impl TreeEntry {
    /// Reads one record out of `raw` starting at `offset`.
    ///
    /// The record is `[mode] 0x20 [path] 0x00 [20 hash bytes]`; the mode
    /// is five or six decimal digits, the hash is re-encoded as lowercase
    /// hexadecimal, and `len` is the number of bytes consumed.
    pub fn from_bytes(raw: &[u8], offset: usize) -> (r: Result<TreeEntry, ObjectError>)
        requires
            offset <= raw@.len(),
        ensures
            match tree_parse_entry(raw@.skip(offset as int)) {
                Ok((m, l)) => r matches Ok(e) && e.wf() && e.model() == m && e.len == l
                    && offset + l <= raw@.len() && l >= 27,
                Err(er) => r matches Err(e2) && e2 == er,
            },
    {
        let ghost suf = raw@.skip(offset as int);
        proof {
            lemma_find_at_shift(raw@, 32u8, offset as int, 0);
        }
        let sp = find_byte(raw, 32u8, offset);
        let space: usize = match sp {
            Some(i) if i - offset == 5 || i - offset == 6 => i,
            _ => {
                return Err(ObjectError::Corrupt);
            },
        };
        let ghost spi = space - offset;
        let ghost digits = suf.subrange(0, spi as int);
        proof {
            assert(digits =~= raw@.subrange(offset as int, space as int));
        }
        let mode_num = match parse_dec(raw, offset, space) {
            Some(v) => v,
            None => {
                proof {
                    assert(space > offset);
                    if all_dec_digits(digits) {
                        lemma_digits_bound(digits);
                    }
                }
                return Err(ObjectError::Corrupt);
            },
        };
        let mode = match Mode::from_number(mode_num) {
            Ok(m) => m,
            Err(e) => {
                return Err(e);
            },
        };
        proof {
            lemma_find_at_shift(raw@, 0u8, offset as int, spi as int);
        }
        let nul = match find_byte(raw, 0u8, space) {
            Some(i) => i,
            None => {
                return Err(ObjectError::Corrupt);
            },
        };
        let ghost nulr = nul - offset;
        proof {
            lemma_find_at_props(raw@, 32u8, offset as int);
            lemma_find_at_props(raw@, 0u8, space as int);
            assert(raw@[space as int] == 32u8);
            assert(raw@[nul as int] == 0u8);
            assert(nul > space);
        }
        let pb = slice_subrange(raw, space + 1, nul);
        proof {
            assert(pb@ =~= suf.subrange(spi + 1, nulr as int));
        }
        let path = match decode_utf8(pb) {
            Some(p) => p,
            None => {
                return Err(ObjectError::InvalidEncoding);
            },
        };
        if raw.len() < 21 || nul > raw.len() - 21 {
            proof {
                assert(nulr + 21 > suf.len());
            }
            return Err(ObjectError::Corrupt);
        }
        let hash_bytes = slice_subrange(raw, nul + 1, nul + 21);
        proof {
            assert(hash_bytes@ =~= suf.subrange(nulr + 1, nulr + 21));
        }
        let hash = to_hex(hash_bytes);
        let len = nul + 21 - offset;
        let entry = TreeEntry { mode, path, hash, len };
        proof {
            lemma_hex_of_shape(hash_bytes@);
            lemma_find_at_props(suf, 0u8, spi as int);
            assert forall|j: int| 0 <= j < pb@.len() implies pb@[j] != 0 by {
                assert(suf[spi + 1 + j] != 0);
            }
            assert(!pb@.contains(0));
            assert(entry.wf());
        }
        Ok(entry)
    }
}

/// Ten to the power `n`.
spec fn tenpow(n: nat) -> int
    decreases n,
{
    if n == 0 {
        1
    } else {
        10 * tenpow((n - 1) as nat)
    }
}

/// A digit string's value is below ten to the power of its length.
proof fn lemma_digits_pow_bound(s: Seq<u8>)
    requires
        all_dec_digits(s),
    ensures
        0 <= digits_val(s) < tenpow(s.len()),
    decreases s.len(),
{
    if s.len() > 0 {
        assert(all_dec_digits(s.drop_last())) by {
            assert(forall|i: int| 0 <= i < s.len() - 1 ==> s.drop_last()[i] == s[i]);
        }
        lemma_digits_pow_bound(s.drop_last());
        assert(digits_val(s) == 10 * digits_val(s.drop_last()) + s.last() - 48);
    }
}

/// A digit string of at most six digits spells a value under a million.
proof fn lemma_digits_bound(s: Seq<u8>)
    requires
        all_dec_digits(s),
        s.len() <= 6,
    ensures
        0 <= digits_val(s) < 1000000,
{
    lemma_digits_pow_bound(s);
    assert(tenpow(0) == 1);
    assert(tenpow(1) == 10);
    assert(tenpow(2) == 100);
    assert(tenpow(3) == 1000);
    assert(tenpow(4) == 10000);
    assert(tenpow(5) == 100000);
    assert(tenpow(6) == 1000000);
    assert(s.len() <= 6 ==> tenpow(s.len()) <= 1000000) by {
        if s.len() == 0 {
        } else if s.len() == 1 {
        } else if s.len() == 2 {
        } else if s.len() == 3 {
        } else if s.len() == 4 {
        } else if s.len() == 5 {
        } else {
            assert(s.len() == 6);
        }
    }
}

} // verus!

verus! {

/// The characters of the tree type name.
pub open spec fn tree_name() -> Seq<char> {
    seq!['t', 'r', 'e', 'e']
}

/// A tree object: the raw payload it was read from and the records the
/// payload decodes to, in encounter order.
pub struct Tree {
    bytes: Vec<u8>,
    entries: Vec<TreeEntry>,
    format: String,
    repo: Repo,
}

impl Tree {
    /// The entries as plain values, in order.
    pub closed spec fn models(self) -> Seq<EntryModel> {
        self.entries@.map(|i: int, e: TreeEntry| e.model())
    }

    /// A well-formed tree: its stored payload decodes to exactly its
    /// stored entries, all well-formed, and it knows its type name.
    pub closed spec fn wf(self) -> bool {
        tree_parse(self.bytes@) == Ok::<Seq<EntryModel>, ObjectError>(self.models())
        && (forall|i: int| 0 <= i < self.entries@.len() ==> (#[trigger] self.entries@[i]).wf())
        && self.format@ == tree_name()
    }

    /// Decodes a tree payload. The records are delimited only by their
    /// own structure, so the loop walks an explicit cursor and any
    /// leftover partial record fails.
    pub fn new(repo: Repo, data: &[u8]) -> (r: Result<Tree, ObjectError>)
        ensures
            match tree_parse(data@) {
                Ok(ms) => r matches Ok(t) && t.wf() && t.models() == ms
                    && t.serialize_spec() == data@ && t.repo_spec() == repo,
                Err(e) => r matches Err(e2) && e2 == e,
            },
    {
        let mut entries: Vec<TreeEntry> = Vec::new();
        let mut offset: usize = 0;
        proof {
            assert(data@.skip(0) =~= data@);
            assert(entries@.map(|i: int, e: TreeEntry| e.model()) =~= Seq::<EntryModel>::empty());
            match tree_parse(data@) {
                Ok(rest) => {
                    assert(Seq::<EntryModel>::empty() + rest =~= rest);
                },
                Err(e) => {},
            }
        }
        while offset < data.len()
            invariant
                offset <= data@.len(),
                forall|i: int| 0 <= i < entries@.len() ==> (#[trigger] entries@[i]).wf(),
                ({
                    let ms = entries@.map(|i: int, e: TreeEntry| e.model());
                    match tree_parse(data@.skip(offset as int)) {
                        Ok(rest) => tree_parse(data@) == Ok::<Seq<EntryModel>, ObjectError>(ms + rest),
                        Err(e) => tree_parse(data@) == Err::<Seq<EntryModel>, ObjectError>(e),
                    }
                }),
            decreases data@.len() - offset,
        {
            let ghost old_entries = entries@;
            let ghost suf = data@.skip(offset as int);
            let entry = match TreeEntry::from_bytes(data, offset) {
                Ok(e) => e,
                Err(e) => {
                    return Err(e);
                },
            };
            let l = entry.len;
            proof {
                let ms = old_entries.map(|i: int, e: TreeEntry| e.model());
                let ms2 = old_entries.push(entry).map(|i: int, e: TreeEntry| e.model());
                assert(ms2 =~= ms.push(entry.model()));
                assert(data@.skip(offset as int).skip(l as int) =~= data@.skip(offset as int + l as int));
                match tree_parse(suf.skip(l as int)) {
                    Ok(rest) => {
                        assert(tree_parse(suf) == Ok::<Seq<EntryModel>, ObjectError>(seq![entry.model()] + rest));
                        assert(ms + (seq![entry.model()] + rest) =~= ms.push(entry.model()) + rest);
                    },
                    Err(e) => {},
                }
            }
            entries.push(entry);
            offset = offset + l;
        }
        proof {
            assert(data@.skip(offset as int) =~= Seq::<u8>::empty());
            assert(tree_parse(data@.skip(offset as int)) == Ok::<Seq<EntryModel>, ObjectError>(Seq::empty()));
            let ms = entries@.map(|i: int, e: TreeEntry| e.model());
            assert(ms + Seq::<EntryModel>::empty() =~= ms);
        }
        let chars: Vec<char> = vec!['t', 'r', 'e', 'e'];
        let format = crate::text::chars_to_string(chars.as_slice());
        let bytes = vstd::slice::slice_to_vec(data);
        let t = Tree { bytes, entries, format, repo };
        Ok(t)
    }

    /// The decoded records.
    pub fn entries(&self) -> (r: &Vec<TreeEntry>)
        ensures
            r@.map(|i: int, e: TreeEntry| e.model()) == self.models(),
            self.wf() ==> forall|i: int| 0 <= i < r@.len() ==> (#[trigger] r@[i]).wf(),
    {
        &self.entries
    }

    /// The payload this tree was decoded from.
    pub closed spec fn serialize_spec(self) -> Seq<u8> {
        self.bytes@
    }

    /// Returns the stored payload bytes verbatim.
    pub fn serialize(&self) -> (r: &[u8])
        ensures
            r@ == self.serialize_spec(),
    {
        self.bytes.as_slice()
    }

    /// The type name of a tree object.
    pub fn format(&self) -> (r: &String)
        ensures
            self.wf() ==> r@ == tree_name(),
    {
        &self.format
    }

    /// The repository this tree belongs to.
    pub closed spec fn repo_spec(self) -> Repo {
        self.repo
    }

    /// The owning repository context.
    pub fn repo(&self) -> (r: &Repo)
        ensures
            *r == self.repo_spec(),
    {
        &self.repo
    }
}

/// What well-formedness of a tree gives its callers: the stored payload
/// parses back to the stored entries, and every entry is well-formed.
pub proof fn lemma_tree_wf(t: Tree)
    requires
        t.wf(),
    ensures
        tree_parse(t.serialize_spec()) == Ok::<Seq<EntryModel>, ObjectError>(t.models()),
        forall|i: int| 0 <= i < t.models().len()
            ==> entry_ok(#[trigger] t.models()[i]) && entry_enc(t.models()[i]),
{
    assert forall|i: int| 0 <= i < t.models().len()
        implies entry_ok(#[trigger] t.models()[i]) && entry_enc(t.models()[i]) by {
        assert(t.models()[i] == t.entries@[i].model());
        assert(t.entries@[i].wf());
    }
}

/// Appending a record to a sequence appends its encoding.
proof fn lemma_ser_tree_push(ms: Seq<EntryModel>, m: EntryModel)
    ensures
        ser_tree(ms.push(m)) == ser_tree(ms) + ser_entry(m),
    decreases ms.len(),
{
    if ms.len() == 0 {
        assert(ms.push(m)[0] == m);
        assert(ms.push(m).skip(1) =~= Seq::<EntryModel>::empty());
        assert(ser_tree(ms.push(m)) == ser_entry(m) + ser_tree(Seq::<EntryModel>::empty()));
        assert(ser_entry(m) + Seq::<u8>::empty() =~= ser_entry(m));
        assert(ser_tree(ms) + ser_entry(m) =~= ser_entry(m));
    } else {
        assert(ms.push(m).skip(1) =~= ms.skip(1).push(m));
        lemma_ser_tree_push(ms.skip(1), m);
        assert(ms.push(m)[0] == ms[0]);
        assert(ser_tree(ms.push(m)) == ser_entry(ms[0]) + (ser_tree(ms.skip(1)) + ser_entry(m)));
        assert(ser_entry(ms[0]) + (ser_tree(ms.skip(1)) + ser_entry(m))
            =~= (ser_entry(ms[0]) + ser_tree(ms.skip(1))) + ser_entry(m));
    }
}

/// The decimal rendering of each mode integer is five or six digits.
proof fn lemma_mode_digits(mo: Mode)
    ensures
        dec_digits(mo.code() as nat).len() == (if mo == Mode::Directory { 5int } else { 6int }),
{
    reveal_with_fuel(dec_digits, 8);
}

/// Parsing the serialization of well-formed entries yields the entries.
///
/// This is the tree codec's round-trip law: for any ordered sequence of
/// records whose paths hold no NUL and whose hashes are 40 lowercase hex
/// digits, `parse` inverts `serialize`.
#[verifier::rlimit(60)]
pub proof fn lemma_tree_round_trip(ms: Seq<EntryModel>)
    requires
        forall|i: int| 0 <= i < ms.len() ==> entry_ok(#[trigger] ms[i]) && entry_enc(ms[i]),
    ensures
        tree_parse(ser_tree(ms)) == Ok::<Seq<EntryModel>, ObjectError>(ms),
    decreases ms.len(),
{
    if ms.len() == 0 {
        assert(ms =~= Seq::<EntryModel>::empty());
        assert(ser_tree(ms) == Seq::<u8>::empty());
        assert(tree_parse(ser_tree(ms)) == Ok::<Seq<EntryModel>, ObjectError>(Seq::empty()));
    } else {
        let m = ms[0];
        assert(entry_ok(m) && entry_enc(m));
        let s = ser_tree(ms);
        let e = ser_entry(m);
        let rest = ser_tree(ms.skip(1));
        assert(s == e + rest);
        let dd = dec_digits(m.0.code() as nat);
        lemma_dec_digits_shape(m.0.code() as nat);
        lemma_dec_digits_val(m.0.code() as nat);
        lemma_mode_digits(m.0);
        let dl = dd.len() as int;
        let pb = bytes_of(m.1);
        lemma_hex_of_inverse(m.2);
        let hb = hex_bytes(m.2);
        assert(hb.len() == 20);
        let np = dl + 1 + pb.len();
        assert(e.len() == np + 21);
        assert(s.len() == e.len() + rest.len());
        // the space after the mode digits is the first space
        assert(forall|j: int| 0 <= j < dl ==> s[j] == dd[j]);
        assert(s[dl] == 32u8);
        assert(forall|j: int| 0 <= j < dl ==> 48 <= s[j] <= 57 && s[j] != 32u8);
        lemma_find_at_is_first(s, 32u8, 0, dl);
        assert(dl == 5 || dl == 6);
        assert(s.subrange(0, dl) =~= dd);
        assert(mode_of_code(digits_val(dd)) == Some(m.0)) by {
            crate::mode::lemma_mode_code_round_trip(m.0);
        }
        // the NUL after the path is the first NUL at or after the space
        assert(forall|j: int| 0 <= j < pb.len() ==> s[dl + 1 + j] == pb[j]);
        assert forall|j: int| 0 <= j < pb.len() implies s[dl + 1 + #[trigger] (j + 0)] != 0u8 by {
            assert(!pb.contains(0));
            assert(pb[j] != 0);
            assert(s[dl + 1 + j] == pb[j]);
        }
        assert(s[np] == 0u8);
        assert forall|j: int| dl <= j < np implies s[j] != 0u8 by {
            if j == dl {
            } else {
                assert(s[j] == pb[j - dl - 1]);
                assert(!pb.contains(0));
                assert(pb[j - dl - 1] != 0);
            }
        }
        lemma_find_at_is_first(s, 0u8, dl, np);
        assert(s.subrange(dl + 1, np) =~= pb);
        assert(np + 21 <= s.len());
        assert(s.subrange(np + 1, np + 21) =~= hb);
        assert(hex_of(hb) == m.2);
        assert(tree_parse_entry(s) == Ok::<(EntryModel, int), ObjectError>(((m.0, m.1, m.2), np + 21)));
        assert((m.0, m.1, m.2) == m);
        assert(s.skip(np + 21) =~= rest);
        assert(forall|i: int| 0 <= i < ms.skip(1).len()
            ==> entry_ok(#[trigger] ms.skip(1)[i]) && entry_enc(ms.skip(1)[i]));
        lemma_tree_round_trip(ms.skip(1));
        assert(seq![m] + ms.skip(1) =~= ms);
        assert(s.len() > 0);
        assert(tree_parse(s) == Ok::<Seq<EntryModel>, ObjectError>(seq![m] + ms.skip(1)));
    }
}

/// Encodes the records as `"{mode-decimal} {path}\0{20 raw hash bytes}"`,
/// concatenated in order with no separator.
///
/// Fails with `Corrupt` when an entry cannot be encoded: its path holds a
/// NUL character, or its hash is not 40 lowercase hexadecimal digits. On
/// success the result decodes back to exactly the given entries.
pub fn serialize_entries(entries: &Vec<TreeEntry>) -> (r: Result<Vec<u8>, ObjectError>)
    ensures
        ({
            let ms = entries@.map(|i: int, e: TreeEntry| e.model());
            match r {
                Ok(v) => (forall|i: int| 0 <= i < ms.len()
                        ==> entry_ok(#[trigger] ms[i]) && entry_enc(ms[i]))
                    && v@ == ser_tree(ms)
                    && tree_parse(v@) == Ok::<Seq<EntryModel>, ObjectError>(ms),
                Err(e) => e == ObjectError::Corrupt
                    && exists|i: int| 0 <= i < ms.len() && !entry_ok(#[trigger] ms[i]),
            }
        }),
{
    let ghost ms = entries@.map(|i: int, e: TreeEntry| e.model());
    let mut out: Vec<u8> = Vec::new();
    let mut k: usize = 0;
    while k < entries.len()
        invariant
            k <= entries@.len(),
            ms == entries@.map(|i: int, e: TreeEntry| e.model()),
            forall|i: int| 0 <= i < k ==> entry_ok(#[trigger] ms[i]) && entry_enc(ms[i]),
            out@ == ser_tree(ms.take(k as int)),
        decreases entries@.len() - k,
    {
        let entry = &entries[k];
        let ghost m = ms[k as int];
        proof {
            assert(m == entry.model());
        }
        push_dec(entry.mode.to_number(), &mut out);
        out.push(32u8);
        let mut pb = encode_utf8(entry.path.as_str());
        if find_byte(pb.as_slice(), 0u8, 0).is_some() {
            proof {
                lemma_find_at_props(pb@, 0u8, 0);
                assert(pb@.contains(0));
                assert(!entry_ok(ms[k as int]));
            }
            return Err(ObjectError::Corrupt);
        }
        out.append(&mut pb);
        out.push(0u8);
        let hchars = str_chars(entry.hash.as_str());
        if hchars.len() != 40 {
            proof {
                assert(!entry_ok(ms[k as int]));
            }
            return Err(ObjectError::Corrupt);
        }
        let mut hb = match hex_to_bytes(hchars.as_slice()) {
            Some(v) => v,
            None => {
                proof {
                    assert(!entry_ok(ms[k as int]));
                }
                return Err(ObjectError::Corrupt);
            },
        };
        let ghost pbv = bytes_of(entry.path@);
        out.append(&mut hb);
        proof {
            assert(!pbv.contains(0)) by {
                lemma_find_at_props(pbv, 0u8, 0);
            }
            assert(!entry.path@.contains('\0'));
            assert(entry.hash@.len() == 40);
            assert(entry_ok(m) && entry_enc(m));
            assert(ms.take(k as int + 1) =~= ms.take(k as int).push(m));
            lemma_ser_tree_push(ms.take(k as int), m);
            assert(out@ =~= ser_tree(ms.take(k as int)) + ser_entry(m));
        }
        k = k + 1;
    }
    proof {
        assert(ms.take(k as int) =~= ms);
        lemma_tree_round_trip(ms);
    }
    Ok(out)
}

} // verus!
