use vstd::prelude::*;

verus! {

/// The index of the first occurrence of `x` in `s` at or after `from`.
pub open spec fn find_at<T>(s: Seq<T>, x: T, from: int) -> Option<int>
    decreases s.len() - from,
{
    if from < 0 || from >= s.len() {
        None
    } else if s[from] == x {
        Some(from)
    } else {
        find_at(s, x, from + 1)
    }
}

/// Characterizes `find_at`: a found index carries the element and nothing
/// before it matches; `None` means no occurrence remains.
pub proof fn lemma_find_at_props<T>(s: Seq<T>, x: T, from: int)
    requires
        0 <= from,
    ensures
        match find_at(s, x, from) {
            Some(i) => from <= i < s.len() && s[i] == x
                && (forall|j: int| from <= j < i ==> s[j] != x),
            None => forall|j: int| from <= j < s.len() ==> s[j] != x,
        },
    decreases s.len() - from,
{
    if from < s.len() && s[from] != x {
        lemma_find_at_props(s, x, from + 1);
    }
}

/// If `k` holds `x` and nothing in `[from, k)` does, the search finds `k`.
pub proof fn lemma_find_at_is_first<T>(s: Seq<T>, x: T, from: int, k: int)
    requires
        0 <= from <= k < s.len(),
        s[k] == x,
        forall|j: int| from <= j < k ==> s[j] != x,
    ensures
        find_at(s, x, from) == Some(k),
{
    lemma_find_at_props(s, x, from);
    match find_at(s, x, from) {
        Some(i) => {
            if i < k {
                assert(s[i] != x);
            } else if k < i {
                assert(s[k] != x);
            }
        },
        None => {
            assert(s[k] != x);
        },
    }
}

/// If nothing at or after `from` holds `x`, the search fails.
pub proof fn lemma_find_at_none<T>(s: Seq<T>, x: T, from: int)
    requires
        0 <= from,
        forall|j: int| from <= j < s.len() ==> s[j] != x,
    ensures
        find_at(s, x, from) == None::<int>,
    decreases s.len() - from,
{
    if from < s.len() {
        lemma_find_at_none(s, x, from + 1);
    }
}

/// Searching a suffix is searching the whole sequence at a shifted start.
pub proof fn lemma_find_at_shift<T>(s: Seq<T>, x: T, c: int, d: int)
    requires
        0 <= c <= s.len(),
        0 <= d,
    ensures
        match find_at(s.skip(c), x, d) {
            Some(i) => find_at(s, x, c + d) == Some(i + c),
            None => find_at(s, x, c + d) == None::<int>,
        },
    decreases s.len() - c - d,
{
    lemma_find_at_props(s.skip(c), x, d);
    lemma_find_at_props(s, x, c + d);
    match find_at(s.skip(c), x, d) {
        Some(i) => {
            assert(s.skip(c)[i] == s[c + i]);
            assert forall|j: int| c + d <= j < c + i implies s[j] != x by {
                assert(s.skip(c)[j - c] == s[j]);
                assert(s.skip(c)[j - c] != x);
            }
            lemma_find_at_is_first(s, x, c + d, c + i);
        },
        None => {
            assert forall|j: int| c + d <= j < s.len() implies s[j] != x by {
                assert(s.skip(c)[j - c] == s[j]);
                assert(s.skip(c)[j - c] != x);
            }
            lemma_find_at_none(s, x, c + d);
        },
    }
}

/// Finds the first occurrence of the byte `x` at or after `from`.
pub fn find_byte(s: &[u8], x: u8, from: usize) -> (r: Option<usize>)
    ensures
        match r {
            Some(i) => from <= i < s@.len() && find_at(s@, x, from as int) == Some(i as int),
            None => find_at(s@, x, from as int) == None::<int>,
        },
{
    let mut i: usize = from;
    if from > s.len() {
        proof {
            lemma_find_at_none(s@, x, from as int);
        }
        return None;
    }
    while i < s.len()
        invariant
            from <= i <= s@.len(),
            forall|j: int| from <= j < i ==> s@[j] != x,
        decreases s@.len() - i,
    {
        if s[i] == x {
            proof {
                lemma_find_at_is_first(s@, x, from as int, i as int);
            }
            return Some(i);
        }
        i = i + 1;
    }
    proof {
        lemma_find_at_none(s@, x, from as int);
    }
    None
}

/// Finds the first occurrence of the character `x` at or after `from`.
pub fn find_char(s: &[char], x: char, from: usize) -> (r: Option<usize>)
    ensures
        match r {
            Some(i) => from <= i < s@.len() && find_at(s@, x, from as int) == Some(i as int),
            None => find_at(s@, x, from as int) == None::<int>,
        },
{
    let mut i: usize = from;
    if from > s.len() {
        proof {
            lemma_find_at_none(s@, x, from as int);
        }
        return None;
    }
    while i < s.len()
        invariant
            from <= i <= s@.len(),
            forall|j: int| from <= j < i ==> s@[j] != x,
        decreases s@.len() - i,
    {
        if s[i] == x {
            proof {
                lemma_find_at_is_first(s@, x, from as int, i as int);
            }
            return Some(i);
        }
        i = i + 1;
    }
    proof {
        lemma_find_at_none(s@, x, from as int);
    }
    None
}

/// The ASCII decimal rendering of `n`, without leading zeros.
pub open spec fn dec_digits(n: nat) -> Seq<u8>
    decreases n,
{
    if n < 10 {
        seq![(48 + n) as u8]
    } else {
        dec_digits(n / 10).push((48 + n % 10) as u8)
    }
}

/// Whether every byte of `s` is an ASCII decimal digit.
pub open spec fn all_dec_digits(s: Seq<u8>) -> bool {
    forall|i: int| 0 <= i < s.len() ==> 48 <= #[trigger] s[i] <= 57
}

/// The integer that the digit bytes `s` spell out.
pub open spec fn digits_val(s: Seq<u8>) -> int
    decreases s.len(),
{
    if s.len() == 0 {
        0
    } else {
        10 * digits_val(s.drop_last()) + s.last() - 48
    }
}

/// A decimal rendering is non-empty and made of digits only.
pub proof fn lemma_dec_digits_shape(n: nat)
    ensures
        dec_digits(n).len() >= 1,
        all_dec_digits(dec_digits(n)),
    decreases n,
{
    if n >= 10 {
        lemma_dec_digits_shape(n / 10);
    }
}

/// Reading back the decimal rendering of `n` yields `n`.
pub proof fn lemma_dec_digits_val(n: nat)
    ensures
        digits_val(dec_digits(n)) == n,
    decreases n,
{
    if n < 10 {
        assert(dec_digits(n) == seq![(48 + n) as u8]);
        assert(dec_digits(n).drop_last() =~= Seq::<u8>::empty());
        assert(digits_val(dec_digits(n)) == 10 * digits_val(Seq::<u8>::empty()) + (48 + n) - 48);
    } else {
        lemma_dec_digits_val(n / 10);
        assert(dec_digits(n).drop_last() =~= dec_digits(n / 10));
        assert(dec_digits(n).last() == (48 + n % 10) as u8);
        assert(digits_val(dec_digits(n)) == 10 * (n / 10) + (48 + n % 10) - 48);
    }
}

/// Appends the decimal rendering of `n` to `out`.
pub fn push_dec(n: usize, out: &mut Vec<u8>)
    ensures
        final(out)@ == old(out)@ + dec_digits(n as nat),
    decreases n,
{
    if n < 10 {
        out.push((48 + n) as u8);
        assert(out@ =~= old(out)@ + dec_digits(n as nat));
    } else {
        push_dec(n / 10, out);
        out.push((48 + n % 10) as u8);
        assert(out@ =~= old(out)@ + dec_digits(n as nat));
    }
}

/// A digit string spells a non-negative value.
pub proof fn lemma_digits_value_nonneg(s: Seq<u8>)
    requires
        all_dec_digits(s),
    ensures
        digits_val(s) >= 0,
{
    lemma_digits_val_nonneg(s);
}

/// Extending a digit string can only increase its value.
proof fn lemma_digits_val_prefix(s: Seq<u8>, k: int)
    requires
        all_dec_digits(s),
        0 <= k <= s.len(),
    ensures
        digits_val(s.take(k)) <= digits_val(s),
        digits_val(s) >= 0,
    decreases s.len() - k,
{
    if k == s.len() {
        assert(s.take(k) =~= s);
        lemma_digits_val_nonneg(s);
    } else {
        lemma_digits_val_prefix(s, k + 1);
        assert(s.take(k + 1).drop_last() =~= s.take(k));
        assert(digits_val(s.take(k + 1)) == 10 * digits_val(s.take(k)) + s[k] - 48);
        lemma_digits_val_nonneg(s.take(k));
    }
}

/// A digit string's value is never negative.
proof fn lemma_digits_val_nonneg(s: Seq<u8>)
    requires
        all_dec_digits(s),
    ensures
        digits_val(s) >= 0,
    decreases s.len(),
{
    if s.len() > 0 {
        assert(all_dec_digits(s.drop_last())) by {
            assert(forall|i: int| 0 <= i < s.len() - 1 ==> s.drop_last()[i] == s[i]);
        }
        lemma_digits_val_nonneg(s.drop_last());
    }
}

/// Reads the decimal integer spelled by `s[from..to]`.
///
/// Returns `None` when the range is empty, holds a non-digit byte, or
/// spells a value that does not fit in `usize`.
pub fn parse_dec(s: &[u8], from: usize, to: usize) -> (r: Option<usize>)
    requires
        from <= to <= s@.len(),
    ensures
        ({
            let d = s@.subrange(from as int, to as int);
            match r {
                Some(v) => from < to && all_dec_digits(d) && digits_val(d) == v,
                None => from == to || !all_dec_digits(d) || digits_val(d) > usize::MAX,
            }
        }),
{
    let ghost d = s@.subrange(from as int, to as int);
    if from == to {
        return None;
    }
    let mut acc: usize = 0;
    let mut i: usize = from;
    while i < to
        invariant
            from <= i <= to <= s@.len(),
            d == s@.subrange(from as int, to as int),
            all_dec_digits(d.take(i - from)),
            acc == digits_val(d.take(i - from)),
        decreases to - i,
    {
        let b = s[i];
        if b < 48 || b > 57 {
            assert(d[i - from] == b);
            return None;
        }
        let dig = (b - 48) as usize;
        if acc > (usize::MAX - dig) / 10 {
            proof {
                assert(d.take(i - from + 1).drop_last() =~= d.take(i - from));
                assert(digits_val(d.take(i - from + 1)) == 10 * acc + dig);
                assert(10 * acc + dig > usize::MAX) by (nonlinear_arith)
                    requires
                        acc > (usize::MAX - dig) / 10,
                        dig < 10,
                        acc >= 0,
                {}
                if all_dec_digits(d) {
                    lemma_digits_val_prefix(d, i - from + 1);
                    assert(all_dec_digits(d.take(i - from + 1))) by {
                        assert(forall|j: int| 0 <= j < i - from + 1 ==> d.take(i - from + 1)[j] == d[j]);
                    }
                }
            }
            return None;
        }
        proof {
            assert(10 * acc + dig <= usize::MAX) by (nonlinear_arith)
                requires
                    acc <= (usize::MAX - dig) / 10,
                    0 <= dig < 10,
                    acc >= 0,
            {}
            assert(d.take(i - from + 1).drop_last() =~= d.take(i - from));
            assert(d.take(i - from + 1).last() == b);
        }
        acc = acc * 10 + dig;
        i = i + 1;
    }
    proof {
        assert(d.take(to - from) =~= d);
    }
    Some(acc)
}

} // verus!
