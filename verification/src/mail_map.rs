use vstd::prelude::*;
use indexmap::IndexMap;
use crate::error::ObjectError;
use crate::index_map::{entries_of, has_key, im_new, im_len, im_contains_key, im_insert_absent,
    im_get_index};
use crate::scan::{find_at, find_char, lemma_find_at_props, lemma_find_at_is_first,
    lemma_find_at_shift};
use crate::text::{is_utf8, utf8_of, bytes_of, decode_utf8, encode_utf8, str_chars,
    chars_to_string};
use vstd::slice::{slice_subrange, slice_to_vec};

verus! {

/// One header entry: a key and its logical (un-indented) value.
pub type MailPair = (Seq<char>, Seq<char>);

/// Removes the continuation framing: every `"\n "` becomes `"\n"`.
pub open spec fn collapse(v: Seq<char>) -> Seq<char>
    decreases v.len(),
{
    if v.len() == 0 {
        Seq::empty()
    } else if v.len() >= 2 && v[0] == '\n' && v[1] == ' ' {
        seq!['\n'] + collapse(v.skip(2))
    } else {
        seq![v[0]] + collapse(v.skip(1))
    }
}

/// Adds the continuation framing: every `"\n"` becomes `"\n "`.
pub open spec fn expand(v: Seq<char>) -> Seq<char>
    decreases v.len(),
{
    if v.len() == 0 {
        Seq::empty()
    } else if v[0] == '\n' {
        seq!['\n', ' '] + expand(v.skip(1))
    } else {
        seq![v[0]] + expand(v.skip(1))
    }
}

/// Collapsing the expansion of a value yields the value back.
pub proof fn lemma_collapse_expand(v: Seq<char>)
    ensures
        collapse(expand(v)) == v,
    decreases v.len(),
{
    if v.len() == 0 {
        assert(collapse(expand(v)) =~= v);
    } else {
        lemma_collapse_expand(v.skip(1));
        if v[0] == '\n' {
            let e = expand(v);
            assert(e == seq!['\n', ' '] + expand(v.skip(1)));
            assert(e.len() >= 2 && e[0] == '\n' && e[1] == ' ');
            assert(e.skip(2) =~= expand(v.skip(1)));
            assert(collapse(e) == seq!['\n'] + v.skip(1));
            assert(seq!['\n'] + v.skip(1) =~= v);
        } else {
            let e = expand(v);
            assert(e == seq![v[0]] + expand(v.skip(1)));
            assert(e[0] == v[0] && e[0] != '\n');
            assert(e.skip(1) =~= expand(v.skip(1)));
            assert(collapse(e) == seq![v[0]] + v.skip(1));
            assert(seq![v[0]] + v.skip(1) =~= v);
        }
    }
}

/// Expansion distributes over concatenation.
pub proof fn lemma_expand_concat(a: Seq<char>, b: Seq<char>)
    ensures
        expand(a + b) == expand(a) + expand(b),
    decreases a.len(),
{
    if a.len() == 0 {
        assert(a + b =~= b);
        assert(expand(a) + expand(b) =~= expand(b));
    } else {
        assert((a + b).skip(1) =~= a.skip(1) + b);
        lemma_expand_concat(a.skip(1), b);
        assert((a + b)[0] == a[0]);
        if a[0] == '\n' {
            assert(expand(a + b) == seq!['\n', ' '] + (expand(a.skip(1)) + expand(b)));
            assert(seq!['\n', ' '] + (expand(a.skip(1)) + expand(b))
                =~= (seq!['\n', ' '] + expand(a.skip(1))) + expand(b));
        } else {
            assert(expand(a + b) == seq![a[0]] + (expand(a.skip(1)) + expand(b)));
            assert(seq![a[0]] + (expand(a.skip(1)) + expand(b))
                =~= (seq![a[0]] + expand(a.skip(1))) + expand(b));
        }
    }
}

/// Inside an expanded value, every newline is followed by a space.
pub proof fn lemma_expand_cont(v: Seq<char>)
    ensures
        forall|j: int| 0 <= j < expand(v).len() && #[trigger] expand(v)[j] == '\n'
            ==> j + 1 < expand(v).len() && expand(v)[j + 1] == ' ',
    decreases v.len(),
{
    if v.len() > 0 {
        lemma_expand_cont(v.skip(1));
        let e = expand(v);
        let rest = expand(v.skip(1));
        if v[0] == '\n' {
            assert forall|j: int| 0 <= j < e.len() && #[trigger] e[j] == '\n'
                implies j + 1 < e.len() && e[j + 1] == ' ' by {
                if j == 0 {
                    assert(e[1] == ' ');
                } else if j == 1 {
                    assert(e[j] == ' ');
                } else {
                    assert(e[j] == rest[j - 2]);
                    assert(rest[j - 2] == '\n');
                    assert(e[j + 1] == rest[j - 1]);
                }
            }
        } else {
            assert forall|j: int| 0 <= j < e.len() && #[trigger] e[j] == '\n'
                implies j + 1 < e.len() && e[j + 1] == ' ' by {
                if j == 0 {
                    assert(e[0] == v[0]);
                } else {
                    assert(e[j] == rest[j - 1]);
                    assert(e[j + 1] == rest[j]);
                }
            }
        }
    }
}

/// The first newline at or after `from` that is not immediately followed
/// by a space: the true terminator of a logical header line.
pub open spec fn is_term(s: Seq<char>, j: int) -> bool {
    s[j] == '\n' && (j + 1 >= s.len() || s[j + 1] != ' ')
}

pub open spec fn find_term(s: Seq<char>, from: int) -> Option<int>
    decreases s.len() - from,
{
    if from < 0 || from >= s.len() {
        None
    } else if is_term(s, from) {
        Some(from)
    } else {
        find_term(s, from + 1)
    }
}

/// Characterizes `find_term`: the found index is a terminator and every
/// earlier newline continues; `None` means every remaining newline does.
pub proof fn lemma_find_term_props(s: Seq<char>, from: int)
    requires
        0 <= from,
    ensures
        match find_term(s, from) {
            Some(k) => from <= k < s.len() && s[k] == '\n'
                && (k + 1 >= s.len() || s[k + 1] != ' ')
                && (forall|j: int| from <= j < k && #[trigger] s[j] == '\n'
                    ==> j + 1 < s.len() && s[j + 1] == ' '),
            None => forall|j: int| from <= j < s.len() && #[trigger] s[j] == '\n'
                ==> j + 1 < s.len() && s[j + 1] == ' ',
        },
    decreases s.len() - from,
{
    if from < s.len() && !is_term(s, from) {
        lemma_find_term_props(s, from + 1);
    }
}

/// If `k` is a terminator and every earlier newline continues, the
/// terminator search finds `k`.
pub proof fn lemma_find_term_first(s: Seq<char>, from: int, k: int)
    requires
        0 <= from <= k < s.len(),
        s[k] == '\n',
        k + 1 >= s.len() || s[k + 1] != ' ',
        forall|j: int| from <= j < k && #[trigger] s[j] == '\n'
            ==> j + 1 < s.len() && s[j + 1] == ' ',
    ensures
        find_term(s, from) == Some(k),
{
    lemma_find_term_props(s, from);
    match find_term(s, from) {
        Some(i) => {
            if i < k {
            } else if k < i {
            }
        },
        None => {},
    }
}

/// Searching a suffix for a terminator is searching the whole sequence
/// at a shifted start.
pub proof fn lemma_find_term_shift(s: Seq<char>, c: int, d: int)
    requires
        0 <= c <= s.len(),
        0 <= d,
    ensures
        match find_term(s.skip(c), d) {
            Some(i) => find_term(s, c + d) == Some(i + c),
            None => find_term(s, c + d) == None::<int>,
        },
{
    let t = s.skip(c);
    lemma_find_term_props(t, d);
    lemma_find_term_props(s, c + d);
    match find_term(t, d) {
        Some(i) => {
            assert(s[c + i] == t[i]);
            assert(c + i + 1 >= s.len() || s[c + i + 1] != ' ') by {
                if c + i + 1 < s.len() {
                    assert(s[c + i + 1] == t[i + 1]);
                }
            }
            assert forall|j: int| c + d <= j < c + i && #[trigger] s[j] == '\n'
                implies j + 1 < s.len() && s[j + 1] == ' ' by {
                assert(t[j - c] == s[j]);
                assert(j - c + 1 < t.len() && t[j - c + 1] == ' ');
                assert(s[j + 1] == t[j - c + 1]);
            }
            lemma_find_term_first(s, c + d, c + i);
        },
        None => {
            match find_term(s, c + d) {
                Some(k) => {
                    assert(t[k - c] == s[k]);
                    assert(k - c + 1 < t.len() && t[k - c + 1] == ' ');
                    assert(s[k + 1] == t[k - c + 1]);
                },
                None => {},
            }
        },
    }
}

/// Finds the true terminator in `s` at or after `from`, executably.
pub fn find_term_exec(s: &[char], from: usize) -> (r: Option<usize>)
    ensures
        match r {
            Some(i) => from <= i < s@.len() && find_term(s@, from as int) == Some(i as int),
            None => find_term(s@, from as int) == None::<int>,
        },
{
    let mut i: usize = from;
    if from >= s.len() {
        return None;
    }
    while i < s.len()
        invariant
            from <= i <= s@.len(),
            find_term(s@, from as int) == find_term(s@, i as int),
        decreases s@.len() - i,
    {
        let c = s[i];
        if c == '\n' {
            if i + 1 >= s.len() {
                return Some(i);
            }
            let c2 = s[i + 1];
            if c2 != ' ' {
                return Some(i);
            }
        }
        proof {
            assert(!is_term(s@, i as int));
        }
        i = i + 1;
    }
    None
}

} // verus!

verus! {

/// The entries that one pass over the text encounters, in order:
/// key/value pairs for each logical header line, then a final pair with
/// the empty key carrying the free-text message after the blank line.
///
/// `None` is a malformed buffer: a newline before any space that does not
/// sit at the cursor, or a header line whose continuation scan runs off
/// the end without a terminator.
pub open spec fn mail_scan(s: Seq<char>) -> Option<Seq<MailPair>>
    decreases s.len(),
{
    let sp = find_at(s, ' ', 0);
    let nl = find_at(s, '\n', 0);
    if nl is Some && (sp is None || nl.unwrap() <= sp.unwrap()) {
        if nl.unwrap() == 0 {
            Some(seq![(Seq::<char>::empty(), s.skip(1))])
        } else {
            None
        }
    } else if sp is None {
        Some(Seq::empty())
    } else {
        let spi = sp.unwrap();
        match find_term(s, 1) {
            None => None,
            Some(end) => if 1 <= end < s.len() {
                match mail_scan(s.skip(end + 1)) {
                    None => None,
                    Some(rest) => Some(
                        seq![(s.subrange(0, spi), collapse(s.subrange(spi + 1, end)))] + rest,
                    ),
                }
            } else {
                None
            },
        }
    }
}

/// Appends the pair unless its key is already present: first write wins.
pub open spec fn insert_absent(acc: Seq<MailPair>, p: MailPair) -> Seq<MailPair> {
    if has_key(acc, p.0) {
        acc
    } else {
        acc.push(p)
    }
}

/// Folds a list of encountered pairs into a map model, first write wins.
pub open spec fn insert_all(acc: Seq<MailPair>, l: Seq<MailPair>) -> Seq<MailPair>
    decreases l.len(),
{
    if l.len() == 0 {
        acc
    } else {
        insert_all(insert_absent(acc, l[0]), l.skip(1))
    }
}

/// A key is present after the fold exactly when it was present before or
/// some folded pair carries it.
pub proof fn lemma_insert_all_has_key(acc: Seq<MailPair>, l: Seq<MailPair>, k: Seq<char>)
    ensures
        has_key(insert_all(acc, l), k) <==> (has_key(acc, k) || has_key(l, k)),
    decreases l.len(),
{
    if l.len() == 0 {
    } else {
        let acc2 = insert_absent(acc, l[0]);
        lemma_insert_all_has_key(acc2, l.skip(1), k);
        assert(has_key(acc2, k) <==> (has_key(acc, k) || l[0].0 == k)) by {
            if !has_key(acc, l[0].0) {
                assert(acc.push(l[0])[acc.len() as int] == l[0]);
                assert(forall|i: int| 0 <= i < acc.len() ==> acc.push(l[0])[i] == acc[i]);
                if has_key(acc.push(l[0]), k) {
                    let i = choose|i: int| 0 <= i < acc.push(l[0]).len()
                        && (#[trigger] acc.push(l[0])[i]).0 == k;
                    if i < acc.len() {
                        assert(acc[i].0 == k);
                    }
                }
                if has_key(acc, k) {
                    let i = choose|i: int| 0 <= i < acc.len() && (#[trigger] acc[i]).0 == k;
                    assert(acc.push(l[0])[i].0 == k);
                }
            }
        }
        assert(has_key(l, k) <==> (l[0].0 == k || has_key(l.skip(1), k))) by {
            if has_key(l, k) {
                let i = choose|i: int| 0 <= i < l.len() && (#[trigger] l[i]).0 == k;
                if i > 0 {
                    assert(l.skip(1)[i - 1].0 == k);
                }
            }
            if has_key(l.skip(1), k) {
                let i = choose|i: int| 0 <= i < l.skip(1).len() && (#[trigger] l.skip(1)[i]).0 == k;
                assert(l[i + 1].0 == k);
            }
            if l[0].0 == k {
                assert(l[0].0 == k && 0 < l.len());
            }
        }
    }
}

/// The models of a vector of owned pairs.
pub open spec fn pair_models(ps: Seq<(String, String)>) -> Seq<MailPair> {
    ps.map(|i: int, p: (String, String)| (p.0@, p.1@))
}

/// Removes continuation framing, executably.
fn collapse_exec(v: &[char]) -> (r: Vec<char>)
    ensures
        r@ == collapse(v@),
{
    let mut out: Vec<char> = Vec::new();
    let mut i: usize = 0;
    proof {
        assert(v@.skip(0) =~= v@);
        assert(out@ + collapse(v@) =~= collapse(v@));
    }
    while i < v.len()
        invariant
            i <= v@.len(),
            collapse(v@) == out@ + collapse(v@.skip(i as int)),
        decreases v@.len() - i,
    {
        let ghost pre = out@;
        if v[i] == '\n' && i + 1 < v.len() && v[i + 1] == ' ' {
            out.push('\n');
            proof {
                let t = v@.skip(i as int);
                assert(t.len() >= 2 && t[0] == '\n' && t[1] == ' ');
                assert(t.skip(2) =~= v@.skip(i as int + 2));
                assert(collapse(t) == seq!['\n'] + collapse(v@.skip(i as int + 2)));
                assert(pre + (seq!['\n'] + collapse(v@.skip(i as int + 2)))
                    =~= out@ + collapse(v@.skip(i as int + 2)));
            }
            i = i + 2;
        } else {
            out.push(v[i]);
            proof {
                let t = v@.skip(i as int);
                assert(t[0] == v@[i as int]);
                assert(t.skip(1) =~= v@.skip(i as int + 1));
                assert(!(t.len() >= 2 && t[0] == '\n' && t[1] == ' '));
                assert(collapse(t) == seq![t[0]] + collapse(v@.skip(i as int + 1)));
                assert(pre + (seq![t[0]] + collapse(v@.skip(i as int + 1)))
                    =~= out@ + collapse(v@.skip(i as int + 1)));
            }
            i = i + 1;
        }
    }
    proof {
        assert(v@.skip(i as int) =~= Seq::<char>::empty());
        assert(out@ + Seq::<char>::empty() =~= out@);
    }
    out
}

/// Adds continuation framing, executably, appending onto `out`.
fn expand_push(v: &[char], out: &mut Vec<char>)
    ensures
        final(out)@ == old(out)@ + expand(v@),
{
    let mut i: usize = 0;
    while i < v.len()
        invariant
            i <= v@.len(),
            out@ == old(out)@ + expand(v@.take(i as int)),
        decreases v@.len() - i,
    {
        let ghost single = seq![v@[i as int]];
        proof {
            assert(v@.take(i as int + 1) =~= v@.take(i as int) + single);
            lemma_expand_concat(v@.take(i as int), single);
            assert(single.len() == 1 && single[0] == v@[i as int]);
            assert(single.skip(1) =~= Seq::<char>::empty());
            assert(expand(Seq::<char>::empty()) == Seq::<char>::empty());
        }
        if v[i] == '\n' {
            out.push('\n');
            out.push(' ');
            proof {
                assert(expand(single) == seq!['\n', ' '] + expand(single.skip(1)));
                assert(expand(single) =~= seq!['\n', ' ']);
                assert(out@ =~= old(out)@ + expand(v@.take(i as int + 1)));
            }
        } else {
            out.push(v[i]);
            proof {
                assert(expand(single) == seq![single[0]] + expand(single.skip(1)));
                assert(expand(single) =~= single);
                assert(out@ =~= old(out)@ + expand(v@.take(i as int + 1)));
            }
        }
        i = i + 1;
    }
    proof {
        assert(v@.take(i as int) =~= v@);
    }
}

} // verus!

verus! {

/// One emitted header line: `"{key} {value-expanded}\n"`.
pub open spec fn ser_field(k: Seq<char>, v: Seq<char>) -> Seq<char> {
    k + seq![' '] + expand(v) + seq!['\n']
}

/// All header lines of the non-empty keys, in map order.
pub open spec fn ser_fields(es: Seq<MailPair>) -> Seq<char>
    decreases es.len(),
{
    if es.len() == 0 {
        Seq::empty()
    } else if es[0].0.len() == 0 {
        ser_fields(es.skip(1))
    } else {
        ser_field(es[0].0, es[0].1) + ser_fields(es.skip(1))
    }
}

/// The message: the value of the first empty-key entry.
pub open spec fn msg_of(es: Seq<MailPair>) -> Seq<char>
    decreases es.len(),
{
    if es.len() == 0 {
        Seq::empty()
    } else if es[0].0.len() == 0 {
        es[0].1
    } else {
        msg_of(es.skip(1))
    }
}

/// The whole serialized text: header lines, one blank line, the message.
pub open spec fn ser_mail(es: Seq<MailPair>) -> Seq<char> {
    ser_fields(es) + seq!['\n'] + msg_of(es)
}

/// A key is in a pushed sequence exactly when it was there or is pushed.
pub proof fn lemma_has_key_push(es: Seq<MailPair>, p: MailPair, k: Seq<char>)
    ensures
        has_key(es.push(p), k) <==> (has_key(es, k) || p.0 == k),
{
    if has_key(es.push(p), k) {
        let i = choose|i: int| 0 <= i < es.push(p).len() && (#[trigger] es.push(p)[i]).0 == k;
        if i < es.len() {
            assert(es[i].0 == k);
        }
    }
    if has_key(es, k) {
        let i = choose|i: int| 0 <= i < es.len() && (#[trigger] es[i]).0 == k;
        assert(es.push(p)[i].0 == k);
    }
    if p.0 == k {
        assert(es.push(p)[es.len() as int].0 == k);
    }
}

/// Appending an entry appends its header line, or nothing for the
/// empty key.
proof fn lemma_ser_fields_push(es: Seq<MailPair>, p: MailPair)
    ensures
        ser_fields(es.push(p)) == ser_fields(es)
            + (if p.0.len() == 0 { Seq::<char>::empty() } else { ser_field(p.0, p.1) }),
    decreases es.len(),
{
    if es.len() == 0 {
        assert(es.push(p)[0] == p);
        assert(es.push(p).skip(1) =~= Seq::<MailPair>::empty());
        assert(ser_fields(Seq::<MailPair>::empty()) == Seq::<char>::empty());
        assert(ser_fields(es) == Seq::<char>::empty());
        if p.0.len() == 0 {
            assert(es.push(p)[0].0.len() == 0);
            assert(ser_fields(es.push(p)) == ser_fields(es.push(p).skip(1)));
            assert(ser_fields(es.push(p)) =~= ser_fields(es) + Seq::<char>::empty());
        } else {
            assert(ser_fields(es.push(p)) == ser_field(p.0, p.1) + ser_fields(Seq::<MailPair>::empty()));
            assert(ser_field(p.0, p.1) + Seq::<char>::empty() =~= ser_field(p.0, p.1));
            assert(ser_fields(es) + ser_field(p.0, p.1) =~= ser_field(p.0, p.1));
        }
    } else {
        assert(es.push(p)[0] == es[0]);
        assert(es.push(p).skip(1) =~= es.skip(1).push(p));
        lemma_ser_fields_push(es.skip(1), p);
        let tailadd = if p.0.len() == 0 { Seq::<char>::empty() } else { ser_field(p.0, p.1) };
        if es[0].0.len() == 0 {
        } else {
            assert(ser_fields(es.push(p)) == ser_field(es[0].0, es[0].1) + (ser_fields(es.skip(1)) + tailadd));
            assert(ser_field(es[0].0, es[0].1) + (ser_fields(es.skip(1)) + tailadd)
                =~= (ser_field(es[0].0, es[0].1) + ser_fields(es.skip(1))) + tailadd);
        }
    }
}

/// Appending an entry leaves the message unless none was present and the
/// entry carries the empty key.
proof fn lemma_msg_of_push(es: Seq<MailPair>, p: MailPair)
    ensures
        msg_of(es.push(p)) == if has_key(es, Seq::<char>::empty()) {
            msg_of(es)
        } else if p.0.len() == 0 {
            p.1
        } else {
            Seq::<char>::empty()
        },
    decreases es.len(),
{
    if es.len() == 0 {
        assert(es.push(p)[0] == p);
        assert(es.push(p).skip(1) =~= Seq::<MailPair>::empty());
        assert(!has_key(es, Seq::<char>::empty()));
        assert(msg_of(Seq::<MailPair>::empty()) == Seq::<char>::empty());
        if p.0.len() == 0 {
            assert(msg_of(es.push(p)) == p.1);
        } else {
            assert(msg_of(es.push(p)) == msg_of(es.push(p).skip(1)));
        }
    } else {
        assert(es.push(p)[0] == es[0]);
        assert(es.push(p).skip(1) =~= es.skip(1).push(p));
        lemma_msg_of_push(es.skip(1), p);
        if es[0].0.len() == 0 {
            assert(es[0].0 =~= Seq::<char>::empty());
            assert(has_key(es, Seq::<char>::empty()));
        } else {
            assert(has_key(es, Seq::<char>::empty()) <==> has_key(es.skip(1), Seq::<char>::empty())) by {
                if has_key(es, Seq::<char>::empty()) {
                    let i = choose|i: int| 0 <= i < es.len() && (#[trigger] es[i]).0 == Seq::<char>::empty();
                    assert(i > 0);
                    assert(es.skip(1)[i - 1].0 == Seq::<char>::empty());
                }
                if has_key(es.skip(1), Seq::<char>::empty()) {
                    let i = choose|i: int| 0 <= i < es.skip(1).len()
                        && (#[trigger] es.skip(1)[i]).0 == Seq::<char>::empty();
                    assert(es[i + 1].0 == Seq::<char>::empty());
                }
            }
        }
    }
}

/// Serializes a map: every non-empty key in order as `"{key} {value}\n"`
/// with embedded newlines re-indented, then one blank line, then the
/// message stored under the empty key, verbatim.
///
/// Fails with `MissingMessage` when the empty key is absent.
pub fn map_to_bytes(map: &IndexMap<String, String>) -> (r: Result<Vec<u8>, ObjectError>)
    ensures
        ({
            let es = entries_of(*map);
            match r {
                Ok(v) => has_key(es, Seq::<char>::empty()) && v@ == bytes_of(ser_mail(es))
                    && is_utf8(v@) && utf8_of(v@) == ser_mail(es),
                Err(e) => e == ObjectError::MissingMessage && !has_key(es, Seq::<char>::empty()),
            }
        }),
{
    let ghost es = entries_of(*map);
    let n = im_len(map);
    let mut out: Vec<char> = Vec::new();
    let mut msg: Option<String> = None;
    let mut i: usize = 0;
    proof {
        assert(es.take(0) =~= Seq::<MailPair>::empty());
    }
    while i < n
        invariant
            i <= n == es.len(),
            es == entries_of(*map),
            out@ == ser_fields(es.take(i as int)),
            match msg {
                Some(m) => has_key(es.take(i as int), Seq::<char>::empty())
                    && m@ == msg_of(es.take(i as int)),
                None => !has_key(es.take(i as int), Seq::<char>::empty()),
            },
        decreases n - i,
    {
        let ghost pre = es.take(i as int);
        let (k, v) = match im_get_index(map, i) {
            Some(p) => p,
            None => {
                proof {
                    assert(false);
                }
                return Err(ObjectError::MissingMessage);
            },
        };
        proof {
            assert(es.take(i as int + 1) =~= pre.push(es[i as int]));
            lemma_ser_fields_push(pre, es[i as int]);
            lemma_msg_of_push(pre, es[i as int]);
            lemma_has_key_push(pre, es[i as int], Seq::<char>::empty());
        }
        let mut kc = str_chars(k.as_str());
        if kc.len() == 0 {
            proof {
                assert(es[i as int].0 =~= Seq::<char>::empty());
            }
            if msg.is_none() {
                let owned = chars_to_string(str_chars(v.as_str()).as_slice());
                msg = Some(owned);
            }
        } else {
            out.append(&mut kc);
            out.push(' ');
            let vc = str_chars(v.as_str());
            expand_push(vc.as_slice(), &mut out);
            out.push('\n');
            proof {
                assert(es[i as int].0.len() != 0);
                assert(out@ =~= ser_fields(pre) + ser_field(es[i as int].0, es[i as int].1));
            }
        }
        i = i + 1;
    }
    proof {
        assert(es.take(n as int) =~= es);
    }
    let m = match msg {
        Some(m) => m,
        None => {
            return Err(ObjectError::MissingMessage);
        },
    };
    out.push('\n');
    let mut mc = str_chars(m.as_str());
    out.append(&mut mc);
    proof {
        assert(out@ =~= ser_mail(es));
    }
    let s = chars_to_string(out.as_slice());
    let bytes = encode_utf8(s.as_str());
    Ok(bytes)
}

} // verus!

verus! {

/// Walks the text with an explicit cursor and collects every entry the
/// mail-map grammar encounters, key lines first, the message last.
fn scan_text(cv: &[char], start: usize) -> (r: Result<Vec<(String, String)>, ObjectError>)
    requires
        start <= cv@.len(),
    ensures
        match r {
            Ok(ps) => mail_scan(cv@.skip(start as int)) == Some(pair_models(ps@)),
            Err(e) => e == ObjectError::Corrupt
                && mail_scan(cv@.skip(start as int)) == None::<Seq<MailPair>>,
        },
{
    let mut pairs: Vec<(String, String)> = Vec::new();
    let mut c: usize = start;
    proof {
        assert(pair_models(pairs@) =~= Seq::<MailPair>::empty());
    }
    loop
        invariant
            start <= c <= cv@.len(),
            match mail_scan(cv@.skip(c as int)) {
                Some(rest) => mail_scan(cv@.skip(start as int))
                    == Some(pair_models(pairs@) + rest),
                None => mail_scan(cv@.skip(start as int)) == None::<Seq<MailPair>>,
            },
        decreases cv@.len() - c,
    {
        let ghost suf = cv@.skip(c as int);
        let ghost models = pair_models(pairs@);
        let total = cv.len();
        proof {
            lemma_find_at_shift(cv@, ' ', c as int, 0);
            lemma_find_at_shift(cv@, '\n', c as int, 0);
        }
        let sp = find_char(cv, ' ', c);
        let nl = find_char(cv, '\n', c);
        let take_msg: bool = match (nl, sp) {
            (Some(n), Some(s)) => n <= s,
            (Some(n), None) => true,
            _ => false,
        };
        if take_msg {
            proof {
                assert(nl is Some);
                lemma_find_at_props(cv@, '\n', c as int);
                lemma_find_at_props(cv@, ' ', c as int);
            }
            let n = nl.unwrap();
            proof {
                assert(n < cv@.len());
                assert(cv@[n as int] == '\n');
            }
            if n == c {
                proof {
                    assert(c < total);
                }
                let msg_slice = slice_subrange(cv, c + 1, cv.len());
                let msg = chars_to_string(msg_slice);
                let empty_chars: Vec<char> = Vec::new();
                let key = chars_to_string(empty_chars.as_slice());
                let ghost pm = (key@, msg@);
                pairs.push((key, msg));
                proof {
                    assert(suf[0] == '\n');
                    assert(find_at(suf, '\n', 0) == Some(0int));
                    assert(suf.skip(1) =~= cv@.skip(c as int + 1));
                    assert(cv@.skip(c as int + 1) =~= cv@.subrange(c as int + 1, cv@.len() as int));
                    assert(mail_scan(suf) == Some(seq![(Seq::<char>::empty(), suf.skip(1))]));
                    assert(pm.0 =~= Seq::<char>::empty());
                    assert(pair_models(pairs@) =~= models.push(pm));
                    assert(models + seq![(Seq::<char>::empty(), suf.skip(1))]
                        =~= pair_models(pairs@));
                }
                return Ok(pairs);
            } else {
                proof {
                    assert(find_at(suf, '\n', 0) == Some(n - c));
                    assert(n - c != 0);
                    assert(mail_scan(suf) == None::<Seq<MailPair>>);
                }
                return Err(ObjectError::Corrupt);
            }
        }
        let s_abs = match sp {
            Some(s) => s,
            None => {
                proof {
                    assert(find_at(suf, ' ', 0) == None::<int>);
                    assert(find_at(suf, '\n', 0) == None::<int>);
                    assert(mail_scan(suf) == Some(Seq::<MailPair>::empty()));
                    assert(models + Seq::<MailPair>::empty() =~= models);
                }
                return Ok(pairs);
            },
        };
        proof {
            lemma_find_term_shift(cv@, c as int, 1);
            assert(c <= s_abs < cv@.len());
            assert(c < total);
        }
        let end = match find_term_exec(cv, c + 1) {
            Some(e) => e,
            None => {
                proof {
                    assert(find_term(suf, 1) == None::<int>);
                    assert(mail_scan(suf) == None::<Seq<MailPair>>);
                }
                return Err(ObjectError::Corrupt);
            },
        };
        proof {
            assert(find_term(suf, 1) == Some(end - c));
            lemma_find_term_props(cv@, c as int + 1);
            assert(cv@[end as int] == '\n');
            lemma_find_at_props(cv@, '\n', c as int);
            match find_at(cv@, '\n', c as int) {
                Some(n) => {
                    assert(n > s_abs);
                    assert(n <= end);
                },
                None => {
                    assert(cv@[end as int] != '\n');
                },
            }
            assert(end > s_abs);
        }
        let key_slice = slice_subrange(cv, c, s_abs);
        let key = chars_to_string(key_slice);
        let raw_val = slice_subrange(cv, s_abs + 1, end);
        let collapsed = collapse_exec(raw_val);
        let value = chars_to_string(collapsed.as_slice());
        let ghost pm = (key@, value@);
        pairs.push((key, value));
        proof {
            let spi = s_abs - c;
            let endr = end - c;
            assert(suf.subrange(0, spi as int) =~= cv@.subrange(c as int, s_abs as int));
            assert(suf.subrange(spi + 1, endr as int)
                =~= cv@.subrange(s_abs as int + 1, end as int));
            assert(suf.skip(endr + 1) =~= cv@.skip(end as int + 1));
            assert(1 <= endr < suf.len());
            assert(pair_models(pairs@) =~= models.push(pm));
            match mail_scan(cv@.skip(end as int + 1)) {
                Some(rest) => {
                    assert(mail_scan(suf) == Some(seq![pm] + rest));
                    assert(models + (seq![pm] + rest) =~= models.push(pm) + rest);
                },
                None => {
                    assert(mail_scan(suf) == None::<Seq<MailPair>>);
                },
            }
        }
        proof {
            assert(end < total);
        }
        c = end + 1;
    }
}

} // verus!

verus! {

/// A text key-value store in the style of mail messages: header lines of
/// `"key value"`, values continued over further lines by a leading
/// space, then a blank line and a free-text message.
///
/// The message lives under the empty-string key. Keys are unique;
/// insertion order is kept and decides re-serialization order.
pub struct MailMap {
    data: Vec<u8>,
    pub map: IndexMap<String, String>,
}

impl MailMap {
    /// The serialized bytes this map last produced.
    pub closed spec fn data_spec(self) -> Seq<u8> {
        self.data@
    }

    /// The entries of the held map, in insertion order.
    pub closed spec fn entries_spec(self) -> Seq<MailPair> {
        entries_of(self.map)
    }

    /// An empty map with no serialized bytes.
    pub fn new() -> (r: MailMap)
        ensures
            r.entries_spec() == Seq::<MailPair>::empty(),
            r.data_spec() == Seq::<u8>::empty(),
    {
        MailMap { map: im_new(), data: Vec::new() }
    }

    /// The serialization computed by the last successful `parse_bytes`.
    pub fn to_bytes(&self) -> (r: &[u8])
        ensures
            r@ == self.data_spec(),
    {
        self.data.as_slice()
    }

    /// Parses the mail-map text in `raw` from the character offset
    /// `offset` into the map, first occurrence of a key winning, then
    /// re-serializes the map into the stored bytes.
    ///
    /// Fails with `InvalidEncoding` on bytes that are not text, with
    /// `Corrupt` on a malformed header structure, and with
    /// `MissingMessage` when no message entry results; on any failure
    /// the map is left untouched.
    pub fn parse_bytes(&mut self, raw: &[u8], offset: usize) -> (r: Result<(), ObjectError>)
        ensures
            ({
                let s = utf8_of(raw@);
                let start = if offset > s.len() { s.len() as int } else { offset as int };
                if !is_utf8(raw@) {
                    r == Err::<(), ObjectError>(ObjectError::InvalidEncoding)
                        && *final(self) == *old(self)
                } else {
                    match mail_scan(s.skip(start)) {
                        None => r == Err::<(), ObjectError>(ObjectError::Corrupt)
                            && *final(self) == *old(self),
                        Some(list) => {
                            let es = insert_all(old(self).entries_spec(), list);
                            if has_key(es, Seq::<char>::empty()) {
                                r == Ok::<(), ObjectError>(())
                                    && final(self).entries_spec() == es
                                    && final(self).data_spec() == bytes_of(ser_mail(es))
                                    && is_utf8(final(self).data_spec())
                                    && utf8_of(final(self).data_spec()) == ser_mail(es)
                            } else {
                                r == Err::<(), ObjectError>(ObjectError::MissingMessage)
                                    && *final(self) == *old(self)
                            }
                        },
                    }
                }
            }),
    {
        let text = match decode_utf8(raw) {
            Some(t) => t,
            None => {
                return Err(ObjectError::InvalidEncoding);
            },
        };
        let cv = str_chars(text.as_str());
        let start = if offset > cv.len() { cv.len() } else { offset };
        let mut pairs = match scan_text(cv.as_slice(), start) {
            Ok(p) => p,
            Err(e) => {
                return Err(e);
            },
        };
        let ghost list = pair_models(pairs@);
        let ghost acc0 = entries_of(self.map);
        let ghost es = insert_all(acc0, list);
        // the message must be present before anything is inserted,
        // so that a failure leaves the map untouched
        let mut has_msg = im_contains_key(&self.map, "");
        proof {
            reveal_strlit("");
            assert(""@ =~= Seq::<char>::empty());
        }
        let mut i: usize = 0;
        while i < pairs.len()
            invariant
                i <= pairs@.len(),
                list == pair_models(pairs@),
                has_msg == (has_key(acc0, Seq::<char>::empty())
                    || has_key(list.take(i as int), Seq::<char>::empty())),
            decreases pairs@.len() - i,
        {
            let ghost pre = list.take(i as int);
            proof {
                assert(list.take(i as int + 1) =~= pre.push(list[i as int]));
                lemma_has_key_push(pre, list[i as int], Seq::<char>::empty());
            }
            let kc = str_chars(pairs[i].0.as_str());
            if kc.len() == 0 {
                proof {
                    assert(list[i as int].0 =~= Seq::<char>::empty());
                }
                has_msg = true;
            }
            i = i + 1;
        }
        proof {
            assert(list.take(pairs@.len() as int) =~= list);
            lemma_insert_all_has_key(acc0, list, Seq::<char>::empty());
        }
        if !has_msg {
            return Err(ObjectError::MissingMessage);
        }
        while pairs.len() > 0
            invariant
                insert_all(entries_of(self.map), pair_models(pairs@)) == es,
            decreases pairs@.len(),
        {
            let ghost rem = pair_models(pairs@);
            let ghost acc_now = entries_of(self.map);
            let (k, v) = pairs.remove(0);
            proof {
                assert(pair_models(pairs@) =~= rem.skip(1));
                assert(rem[0] == (k@, v@));
            }
            if im_contains_key(&self.map, k.as_str()) {
                proof {
                    assert(insert_absent(acc_now, rem[0]) == acc_now);
                }
            } else {
                im_insert_absent(&mut self.map, k, v);
                proof {
                    assert(entries_of(self.map) == insert_absent(acc_now, rem[0]));
                }
            }
        }
        proof {
            assert(pair_models(pairs@) =~= Seq::<MailPair>::empty());
            assert(entries_of(self.map) == es);
        }
        let data = match map_to_bytes(&self.map) {
            Ok(v) => v,
            Err(e) => {
                proof {
                    assert(false);
                }
                return Err(e);
            },
        };
        self.data = data;
        Ok(())
    }
}

} // verus!

verus! {

/// A map in canonical round-trip shape: at least the message entry,
/// which sits last under the empty key; every other key is non-empty
/// and free of spaces and newlines; keys are pairwise distinct.
pub open spec fn mail_rt_wf(es: Seq<MailPair>) -> bool {
    es.len() >= 1
    && es.last().0 == Seq::<char>::empty()
    && (forall|i: int| 0 <= i < es.len() - 1 ==> (#[trigger] es[i]).0.len() > 0
        && !es[i].0.contains(' ') && !es[i].0.contains('\n'))
    && (forall|i: int, j: int| 0 <= i < j < es.len() ==> (#[trigger] es[i]).0 != (#[trigger] es[j]).0)
}

/// Scanning the serialization of well-formed fields and a message finds
/// exactly those fields, and the message last.
#[verifier::rlimit(80)]
proof fn lemma_scan_ser_fields(fs: Seq<MailPair>, msg: Seq<char>)
    requires
        forall|i: int| 0 <= i < fs.len() ==> (#[trigger] fs[i]).0.len() > 0
            && !fs[i].0.contains(' ') && !fs[i].0.contains('\n'),
    ensures
        mail_scan(ser_fields(fs) + seq!['\n'] + msg)
            == Some(fs.push((Seq::<char>::empty(), msg))),
    decreases fs.len(),
{
    if fs.len() == 0 {
        let s = ser_fields(fs) + seq!['\n'] + msg;
        assert(s =~= seq!['\n'] + msg);
        assert(s[0] == '\n');
        lemma_find_at_is_first(s, '\n', 0, 0);
        lemma_find_at_props(s, ' ', 0);
        assert(s.skip(1) =~= msg);
        assert(mail_scan(s) == Some(seq![(Seq::<char>::empty(), msg)]));
        assert(fs.push((Seq::<char>::empty(), msg)) =~= seq![(Seq::<char>::empty(), msg)]);
    } else {
        let k = fs[0].0;
        let v = fs[0].1;
        let kl = k.len() as int;
        let ev = expand(v);
        let line = ser_field(k, v);
        let rest = ser_fields(fs.skip(1)) + seq!['\n'] + msg;
        let s = ser_fields(fs) + seq!['\n'] + msg;
        let ll = kl + 1 + ev.len();
        assert(line.len() == ll + 1);
        assert(ser_fields(fs) == line + ser_fields(fs.skip(1)));
        assert(s =~= line + rest);
        assert(rest.len() >= 1);
        assert forall|j: int| 0 <= j < kl implies s[j] == k[j] && s[j] != ' ' && s[j] != '\n' by {
            assert(s[j] == line[j] && line[j] == k[j]);
            if k[j] == ' ' {
                assert(k.contains(' '));
            }
            if k[j] == '\n' {
                assert(k.contains('\n'));
            }
        }
        assert(s[kl] == line[kl] && line[kl] == ' ');
        lemma_find_at_is_first(s, ' ', 0, kl);
        assert forall|j: int| 0 <= j < ev.len() implies s[kl + 1 + j] == ev[j] by {
            assert(s[kl + 1 + j] == line[kl + 1 + j]);
        }
        assert(s[ll] == line[ll] && line[ll] == '\n');
        lemma_find_at_props(s, '\n', 0);
        let nl = find_at(s, '\n', 0);
        assert(nl is Some && nl.unwrap() > kl) by {
            match nl {
                None => {
                    assert(s[ll] != '\n');
                },
                Some(n) => {
                    if n < kl {
                        assert(s[n] != '\n');
                    } else if n == kl {
                        assert(s[n] == ' ');
                    }
                },
            }
        }
        // the line's final newline is the first true terminator
        assert(ll + 1 >= s.len() || s[ll + 1] != ' ') by {
            assert(s[ll + 1] == rest[0]);
            if fs.skip(1).len() == 0 {
                assert(ser_fields(fs.skip(1)) == Seq::<char>::empty());
                assert(rest =~= seq!['\n'] + msg);
                assert(rest[0] == '\n');
            } else {
                let g = fs.skip(1);
                assert(g[0].0.len() > 0);
                assert(ser_fields(g) == ser_field(g[0].0, g[0].1) + ser_fields(g.skip(1)));
                assert(ser_fields(g)[0] == g[0].0[0]);
                assert(rest[0] == g[0].0[0]);
                if g[0].0[0] == ' ' {
                    assert(g[0].0.contains(' '));
                }
            }
        }
        lemma_expand_cont(v);
        assert forall|j: int| 1 <= j < ll && #[trigger] s[j] == '\n'
            implies j + 1 < s.len() && s[j + 1] == ' ' by {
            if j < kl {
                assert(s[j] != '\n');
            } else if j == kl {
                assert(s[j] == ' ');
            } else {
                assert(s[j] == ev[j - kl - 1]);
                assert(ev[j - kl - 1] == '\n');
                assert(j - kl < ev.len() && ev[j - kl] == ' ');
                assert(s[j + 1] == ev[j - kl]);
            }
        }
        lemma_find_term_first(s, 1, ll);
        assert(1 <= ll < s.len());
        assert(s.subrange(0, kl) =~= k);
        assert(s.subrange(kl + 1, ll) =~= ev);
        lemma_collapse_expand(v);
        assert(s.skip(ll + 1) =~= rest);
        assert(forall|i: int| 0 <= i < fs.skip(1).len() ==> (#[trigger] fs.skip(1)[i]).0.len() > 0
            && !fs.skip(1)[i].0.contains(' ') && !fs.skip(1)[i].0.contains('\n'));
        lemma_scan_ser_fields(fs.skip(1), msg);
        assert(mail_scan(rest) == Some(fs.skip(1).push((Seq::<char>::empty(), msg))));
        assert(mail_scan(s) == Some(
            seq![(k, v)] + fs.skip(1).push((Seq::<char>::empty(), msg))));
        assert(seq![(k, v)] + fs.skip(1).push((Seq::<char>::empty(), msg))
            =~= fs.push((Seq::<char>::empty(), msg)));
    }
}

/// Folding pairs whose keys are fresh and pairwise distinct appends
/// them all.
proof fn lemma_insert_all_fresh(acc: Seq<MailPair>, l: Seq<MailPair>)
    requires
        forall|i: int| 0 <= i < l.len() ==> !has_key(acc, (#[trigger] l[i]).0),
        forall|i: int, j: int| 0 <= i < j < l.len() ==> (#[trigger] l[i]).0 != (#[trigger] l[j]).0,
    ensures
        insert_all(acc, l) == acc + l,
    decreases l.len(),
{
    if l.len() == 0 {
        assert(acc + l =~= acc);
    } else {
        assert(!has_key(acc, l[0].0));
        assert(insert_absent(acc, l[0]) == acc.push(l[0]));
        assert forall|i: int| 0 <= i < l.skip(1).len()
            implies !has_key(acc.push(l[0]), (#[trigger] l.skip(1)[i]).0) by {
            lemma_has_key_push(acc, l[0], l.skip(1)[i].0);
            assert(l.skip(1)[i] == l[i + 1]);
            assert(!has_key(acc, l[i + 1].0));
            assert(l[0].0 != l[i + 1].0);
        }
        lemma_insert_all_fresh(acc.push(l[0]), l.skip(1));
        assert(acc.push(l[0]) + l.skip(1) =~= acc + l);
    }
}

/// The mail-map round-trip law: parsing the serialization of any
/// canonically shaped map yields exactly that map, entries in order,
/// the message last.
pub proof fn lemma_mail_round_trip(es: Seq<MailPair>)
    requires
        mail_rt_wf(es),
    ensures
        mail_scan(ser_mail(es)) == Some(es),
        insert_all(Seq::empty(), es) == es,
{
    let n = es.len() as int;
    let fs = es.take(n - 1);
    let em = (Seq::<char>::empty(), es.last().1);
    let msg = es.last().1;
    assert(es.last() == es[n - 1]);
    assert(es[n - 1].0 == Seq::<char>::empty());
    assert(es[n - 1] == em);
    assert(es =~= fs.push(em));
    assert(forall|i: int| 0 <= i < fs.len() ==> (#[trigger] fs[i]).0.len() > 0
        && !fs[i].0.contains(' ') && !fs[i].0.contains('\n')) by {
        assert(forall|i: int| 0 <= i < fs.len() ==> fs[i] == es[i]);
    }
    assert(!has_key(fs, Seq::<char>::empty())) by {
        if has_key(fs, Seq::<char>::empty()) {
            let i = choose|i: int| 0 <= i < fs.len() && (#[trigger] fs[i]).0 == Seq::<char>::empty();
            assert(fs[i].0.len() > 0);
        }
    }
    lemma_ser_fields_push(fs, em);
    assert(ser_fields(es) == ser_fields(fs) + Seq::<char>::empty());
    assert(ser_fields(fs) + Seq::<char>::empty() =~= ser_fields(fs));
    lemma_msg_of_push(fs, em);
    assert(msg_of(es) == msg);
    assert(ser_mail(es) == ser_fields(fs) + seq!['\n'] + msg);
    lemma_scan_ser_fields(fs, msg);
    assert(mail_scan(ser_mail(es)) == Some(fs.push(em)));
    assert forall|i: int| 0 <= i < es.len()
        implies !has_key(Seq::<MailPair>::empty(), (#[trigger] es[i]).0) by {
    }
    lemma_insert_all_fresh(Seq::empty(), es);
    assert(Seq::<MailPair>::empty() + es =~= es);
}

} // verus!
