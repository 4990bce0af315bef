//! Byte-level text primitives shared by the day solvers.
//!
//! Inputs are modelled as byte sequences (`Seq<u8>`).  Splitting into
//! lines follows the usual text convention: lines end at a line feed,
//! an optional carriage return before the line feed is dropped, and a
//! final line without a terminator is kept as it stands.

use vstd::prelude::*;

verus! {

/// The index of the first occurrence of `b` in `s`, or `s.len()` if absent.
pub open spec fn find_byte(s: Seq<u8>, b: u8) -> nat
    decreases s.len(),
{
    if s.len() == 0 {
        0
    } else if s[0] == b {
        0
    } else {
        1 + find_byte(s.skip(1), b)
    }
}

pub proof fn lemma_find_byte_bounds(s: Seq<u8>, b: u8)
    ensures
        find_byte(s, b) <= s.len(),
        find_byte(s, b) < s.len() ==> s[find_byte(s, b) as int] == b,
        forall|i: int| 0 <= i < find_byte(s, b) ==> s[i] != b,
    decreases s.len(),
{
    if s.len() > 0 && s[0] != b {
        lemma_find_byte_bounds(s.skip(1), b);
        assert forall|i: int| 0 <= i < find_byte(s, b) implies s[i] != b by {
            if i > 0 {
                assert(s.skip(1)[i - 1] != b);
            }
        }
    }
}

/// A scan that saw no `b` before `k`, and `b` (or the end) at `k`,
/// has found exactly `find_byte`.
pub proof fn lemma_find_byte_exact(s: Seq<u8>, b: u8, k: int)
    requires
        0 <= k <= s.len(),
        forall|i: int| 0 <= i < k ==> s[i] != b,
        k == s.len() || s[k] == b,
    ensures
        find_byte(s, b) == k,
    decreases s.len(),
{
    if s.len() > 0 && s[0] != b {
        assert forall|i: int| 0 <= i < k - 1 implies s.skip(1)[i] != b by {
            assert(s[i + 1] != b);
        }
        assert(k - 1 == s.skip(1).len() || s.skip(1)[k - 1] == b);
        lemma_find_byte_exact(s.skip(1), b, k - 1);
    }
}

/// Drops one trailing carriage return, if present.
pub open spec fn strip_cr(s: Seq<u8>) -> Seq<u8> {
    if s.len() > 0 && s.last() == 13 {
        s.drop_last()
    } else {
        s
    }
}

/// The lines of `s`: split at line feeds, a carriage return directly
/// before a line feed is dropped, and a trailing line without a
/// terminator is kept; a trailing terminator adds no empty line.
pub open spec fn spec_lines(s: Seq<u8>) -> Seq<Seq<u8>>
    decreases s.len(),
{
    if s.len() == 0 {
        Seq::empty()
    } else {
        let k = find_byte(s, 10);
        if k >= s.len() {
            seq![s]
        } else {
            seq![strip_cr(s.take(k as int))] + spec_lines(s.skip(k as int + 1))
        }
    }
}

/// Splits `input` into its lines.
pub fn split_lines(input: &Vec<u8>) -> (r: Vec<Vec<u8>>)
    ensures
        r@.len() == spec_lines(input@).len(),
        forall|i: int| 0 <= i < r@.len() ==> r@[i]@ == spec_lines(input@)[i],
{
    let ghost s = input@;
    let mut r: Vec<Vec<u8>> = Vec::new();
    let ghost done: Seq<Seq<u8>> = Seq::empty();
    let mut p: usize = 0;
    proof {
        assert(s.skip(0) =~= s);
    }
    while p < input.len()
        invariant
            p <= s.len(),
            done.len() == r@.len(),
            forall|i: int| 0 <= i < r@.len() ==> r@[i]@ == done[i],
            spec_lines(s) == done + spec_lines(s.skip(p as int)),
        decreases s.len() - p,
    {
        let ghost rem = s.skip(p as int);
        // Find the end of the current line.
        let mut q: usize = p;
        while q < input.len() && input[q] != 10
            invariant
                p <= q <= s.len(),
                forall|i: int| p <= i < q ==> s[i] != 10,
            decreases s.len() - q,
        {
            q = q + 1;
        }
        proof {
            assert forall|i: int| 0 <= i < q - p implies rem[i] != 10 by {
                assert(s[p + i] != 10);
            }
            lemma_find_byte_exact(rem, 10, q - p);
        }
        // Copy the line, dropping a carriage return before a line feed.
        let end: usize = if q < input.len() && q > p && input[q - 1] == 13 {
            q - 1
        } else {
            q
        };
        let mut line: Vec<u8> = Vec::new();
        let mut t: usize = p;
        while t < end
            invariant
                p <= t <= end <= s.len(),
                line@ == s.subrange(p as int, t as int),
            decreases end - t,
        {
            line.push(input[t]);
            assert(line@ =~= s.subrange(p as int, t + 1));
            t = t + 1;
        }
        let next: usize = if q < input.len() {
            q + 1
        } else {
            q
        };
        proof {
            let k = (q - p) as int;
            assert(rem.len() > 0);
            if q == s.len() {
                assert(line@ =~= rem);
                assert(spec_lines(rem) =~= seq![line@]);
                assert(s.skip(next as int) =~= Seq::<u8>::empty());
                assert(spec_lines(s.skip(next as int)) =~= Seq::<Seq<u8>>::empty());
            } else {
                assert(rem.take(k) =~= s.subrange(p as int, q as int));
                if q > p && s[q - 1] == 13 {
                    assert(rem.take(k).last() == 13);
                    assert(line@ =~= rem.take(k).drop_last());
                } else {
                    assert(line@ =~= rem.take(k));
                }
                assert(line@ =~= strip_cr(rem.take(k)));
                assert(rem.skip(k + 1) =~= s.skip(q + 1));
                assert(spec_lines(rem) =~= seq![line@] + spec_lines(s.skip(q + 1)));
            }
            assert(done + spec_lines(rem) =~= done.push(line@) + spec_lines(s.skip(next as int)));
        }
        r.push(line);
        proof {
            done = done.push(line@);
        }
        p = next;
    }
    proof {
        assert(s.skip(p as int) =~= Seq::<u8>::empty());
        assert(spec_lines(s.skip(p as int)) =~= Seq::<Seq<u8>>::empty());
        assert(spec_lines(s) =~= done);
    }
    r
}

/// The byte sequences a vector of byte vectors holds.
pub open spec fn views(ls: Seq<Vec<u8>>) -> Seq<Seq<u8>> {
    ls.map_values(|l: Vec<u8>| l@)
}

/// Whether `b` is one of the blank characters that trimming removes.
pub open spec fn is_space(b: u8) -> bool {
    b == 32 || (9 <= b <= 13)
}

pub open spec fn trim_front(s: Seq<u8>) -> Seq<u8>
    decreases s.len(),
{
    if s.len() > 0 && is_space(s[0]) {
        trim_front(s.skip(1))
    } else {
        s
    }
}

pub open spec fn trim_back(s: Seq<u8>) -> Seq<u8>
    decreases s.len(),
{
    if s.len() > 0 && is_space(s.last()) {
        trim_back(s.drop_last())
    } else {
        s
    }
}

/// `s` with blank characters removed from both ends.
pub open spec fn spec_trim(s: Seq<u8>) -> Seq<u8> {
    trim_back(trim_front(s))
}

/// Copies `v` with blank characters removed from both ends.
pub fn trim(v: &Vec<u8>) -> (r: Vec<u8>)
    ensures
        r@ == spec_trim(v@),
{
    let ghost s = v@;
    let mut i: usize = 0;
    proof {
        assert(s.skip(0) =~= s);
    }
    while i < v.len() && is_space_exec(v[i])
        invariant
            i <= s.len(),
            trim_front(s) == trim_front(s.skip(i as int)),
        decreases s.len() - i,
    {
        proof {
            assert(s.skip(i as int).skip(1) =~= s.skip(i + 1));
        }
        i = i + 1;
    }
    let ghost t = s.skip(i as int);
    proof {
        assert(trim_front(s) == t);
    }
    let mut j: usize = v.len() - i;
    proof {
        assert(t.take(t.len() as int) =~= t);
    }
    while j > 0 && is_space_exec(v[i + j - 1])
        invariant
            0 <= j <= t.len(),
            i + t.len() == s.len(),
            trim_back(t) == trim_back(t.take(j as int)),
        decreases j,
    {
        proof {
            assert(t.take(j as int).last() == t[j - 1]);
            assert(t.take(j as int).drop_last() =~= t.take(j - 1));
        }
        j = j - 1;
    }
    proof {
        if j > 0 {
            assert(t.take(j as int).last() == t[j - 1]);
        }
        assert(trim_back(t.take(j as int)) == t.take(j as int));
    }
    let mut r: Vec<u8> = Vec::new();
    let mut k: usize = 0;
    while k < j
        invariant
            k <= j,
            i + j <= v@.len(),
            t == v@.skip(i as int),
            r@ == t.take(j as int).take(k as int),
        decreases j - k,
    {
        r.push(v[i + k]);
        assert(r@ =~= t.take(j as int).take(k + 1));
        k = k + 1;
    }
    proof {
        assert(t.take(j as int).take(j as int) =~= t.take(j as int));
    }
    r
}

/// Executable test for [`is_space`].
pub fn is_space_exec(b: u8) -> (r: bool)
    ensures
        r == is_space(b),
{
    b == 32 || (9 <= b && b <= 13)
}

/// Whether `b` is a decimal digit.
pub open spec fn is_digit(b: u8) -> bool {
    48 <= b <= 57
}

pub open spec fn all_digits(s: Seq<u8>) -> bool {
    forall|i: int| 0 <= i < s.len() ==> is_digit(s[i])
}

/// The value of a string of decimal digits.
pub open spec fn digits_val(s: Seq<u8>) -> int
    decreases s.len(),
{
    if s.len() == 0 {
        0
    } else {
        digits_val(s.drop_last()) * 10 + (s.last() - 48)
    }
}

pub proof fn lemma_digits_val_nonneg(s: Seq<u8>)
    requires
        all_digits(s),
    ensures
        digits_val(s) >= 0,
    decreases s.len(),
{
    if s.len() > 0 {
        assert(all_digits(s.drop_last()));
        lemma_digits_val_nonneg(s.drop_last());
    }
}

/// The number a decimal-digit string denotes, with an optional leading
/// plus sign; `None` when the string is empty, has another character,
/// or denotes more than `u32::MAX`.
pub open spec fn spec_parse_u32(s: Seq<u8>) -> Option<u32> {
    let t = if s.len() > 0 && s[0] == 43 {
        s.skip(1)
    } else {
        s
    };
    if t.len() > 0 && all_digits(t) && digits_val(t) <= u32::MAX {
        Some(digits_val(t) as u32)
    } else {
        None
    }
}

pub proof fn lemma_digits_val_prefix_le(s: Seq<u8>, i: int)
    requires
        all_digits(s),
        0 <= i <= s.len(),
    ensures
        digits_val(s.take(i)) <= digits_val(s),
    decreases s.len() - i,
{
    if i < s.len() {
        lemma_digits_val_prefix_le(s, i + 1);
        assert(s.take(i + 1).drop_last() =~= s.take(i));
        assert(all_digits(s.take(i)));
        lemma_digits_val_nonneg(s.take(i));
        assert(digits_val(s.take(i + 1)) == digits_val(s.take(i)) * 10 + (s[i] - 48));
    } else {
        assert(s.take(i) =~= s);
    }
}

/// Parses `v` as a `u32`, accepting an optional leading plus sign.
pub fn parse_u32(v: &Vec<u8>) -> (r: Option<u32>)
    ensures
        r == spec_parse_u32(v@),
{
    let start: usize = if v.len() > 0 && v[0] == 43 {
        1
    } else {
        0
    };
    let ghost t = if v@.len() > 0 && v@[0] == 43 {
        v@.skip(1)
    } else {
        v@
    };
    proof {
        assert(t =~= v@.skip(start as int));
    }
    if v.len() == start {
        return None;
    }
    let mut acc: u64 = 0;
    let mut i: usize = start;
    while i < v.len()
        invariant
            start <= i <= v@.len(),
            t == v@.skip(start as int),
            all_digits(t.take(i - start)),
            acc == digits_val(t.take(i - start)),
            acc <= u32::MAX,
        decreases v@.len() - i,
    {
        let b = v[i];
        if b < 48 || b > 57 {
            proof {
                assert(t[i - start] == b);
                assert(!all_digits(t));
            }
            return None;
        }
        proof {
            assert(t.take(i - start + 1).drop_last() =~= t.take(i - start));
            assert(t.take(i - start + 1).last() == b);
        }
        acc = acc * 10 + ((b - 48) as u64);
        if acc > 0xffff_ffff {
            proof {
                assert(all_digits(t.take(i - start + 1)));
                assert(digits_val(t.take(i - start + 1)) > u32::MAX);
                if all_digits(t) {
                    lemma_digits_val_prefix_le(t, i - start + 1);
                }
            }
            return None;
        }
        i = i + 1;
    }
    proof {
        assert(t.take(t.len() as int) =~= t);
    }
    Some(acc as u32)
}

/// The two halves of `s` around a single separator byte, or `None`
/// unless `sep` occurs exactly once.
pub open spec fn spec_split2(s: Seq<u8>, sep: u8) -> Option<(Seq<u8>, Seq<u8>)> {
    let k = find_byte(s, sep);
    if k >= s.len() {
        None
    } else {
        let a = s.take(k as int);
        let b = s.skip(k as int + 1);
        if find_byte(b, sep) < b.len() {
            None
        } else {
            Some((a, b))
        }
    }
}

/// Splits `v` at its only occurrence of `sep`; `None` unless `sep`
/// occurs exactly once.
pub fn split2(v: &Vec<u8>, sep: u8) -> (r: Option<(Vec<u8>, Vec<u8>)>)
    ensures
        match r {
            Some(p) => spec_split2(v@, sep) == Some((p.0@, p.1@)),
            None => spec_split2(v@, sep) is None,
        },
{
    let ghost s = v@;
    let mut k: usize = 0;
    while k < v.len() && v[k] != sep
        invariant
            k <= s.len(),
            forall|i: int| 0 <= i < k ==> s[i] != sep,
        decreases s.len() - k,
    {
        k = k + 1;
    }
    proof {
        lemma_find_byte_exact(s, sep, k as int);
    }
    if k == v.len() {
        return None;
    }
    let ghost b = s.skip(k + 1);
    let mut m: usize = k + 1;
    while m < v.len() && v[m] != sep
        invariant
            k + 1 <= m <= s.len(),
            forall|i: int| k + 1 <= i < m ==> s[i] != sep,
        decreases s.len() - m,
    {
        m = m + 1;
    }
    proof {
        assert forall|i: int| 0 <= i < m - (k + 1) implies b[i] != sep by {
            assert(s[k + 1 + i] != sep);
        }
        if m < s.len() {
            assert(b[m - (k + 1)] == sep);
        }
        lemma_find_byte_exact(b, sep, m - (k + 1));
    }
    if m < v.len() {
        return None;
    }
    let mut left: Vec<u8> = Vec::new();
    let mut i: usize = 0;
    while i < k
        invariant
            i <= k <= s.len(),
            left@ == s.take(k as int).take(i as int),
        decreases k - i,
    {
        left.push(v[i]);
        assert(left@ =~= s.take(k as int).take(i + 1));
        i = i + 1;
    }
    let mut right: Vec<u8> = Vec::new();
    let mut j: usize = k + 1;
    while j < v.len()
        invariant
            k + 1 <= j <= s.len(),
            right@ == b.take(j - (k + 1)),
        decreases s.len() - j,
    {
        right.push(v[j]);
        assert(right@ =~= b.take(j + 1 - (k + 1)));
        j = j + 1;
    }
    proof {
        assert(s.take(k as int).take(k as int) =~= s.take(k as int));
        assert(b.take(b.len() as int) =~= b);
    }
    Some((left, right))
}

/// Whether `p` is a prefix of `s`.
pub open spec fn has_prefix(s: Seq<u8>, p: Seq<u8>) -> bool {
    p.len() <= s.len() && s.take(p.len() as int) == p
}

/// Executable prefix test.
pub fn starts_with(v: &Vec<u8>, p: &Vec<u8>) -> (r: bool)
    ensures
        r == has_prefix(v@, p@),
{
    if p.len() > v.len() {
        return false;
    }
    let mut i: usize = 0;
    while i < p.len()
        invariant
            i <= p@.len() <= v@.len(),
            forall|j: int| 0 <= j < i ==> v@[j] == p@[j],
        decreases p@.len() - i,
    {
        if v[i] != p[i] {
            assert(v@.take(p@.len() as int)[i as int] != p@[i as int]);
            return false;
        }
        i = i + 1;
    }
    proof {
        assert(v@.take(p@.len() as int) =~= p@);
    }
    true
}

/// Copies `v` from index `k` on.
pub fn skip_bytes(v: &Vec<u8>, k: usize) -> (r: Vec<u8>)
    requires
        k <= v@.len(),
    ensures
        r@ == v@.skip(k as int),
{
    let mut r: Vec<u8> = Vec::new();
    let mut i: usize = k;
    while i < v.len()
        invariant
            k <= i <= v@.len(),
            r@ == v@.subrange(k as int, i as int),
        decreases v@.len() - i,
    {
        r.push(v[i]);
        assert(r@ =~= v@.subrange(k as int, i + 1));
        i = i + 1;
    }
    r
}

/// Executable byte-string equality.
pub fn bytes_eq(a: &Vec<u8>, b: &Vec<u8>) -> (r: bool)
    ensures
        r == (a@ == b@),
{
    if a.len() != b.len() {
        return false;
    }
    let mut i: usize = 0;
    while i < a.len()
        invariant
            i <= a@.len() == b@.len(),
            forall|j: int| 0 <= j < i ==> a@[j] == b@[j],
        decreases a@.len() - i,
    {
        if a[i] != b[i] {
            return false;
        }
        i = i + 1;
    }
    proof {
        assert(a@ =~= b@);
    }
    true
}

/// Executable membership test.
pub fn contains_byte(v: &Vec<u8>, b: u8) -> (r: bool)
    ensures
        r == v@.contains(b),
{
    let mut i: usize = 0;
    while i < v.len()
        invariant
            i <= v@.len(),
            forall|j: int| 0 <= j < i ==> v@[j] != b,
        decreases v@.len() - i,
    {
        if v[i] == b {
            return true;
        }
        i = i + 1;
    }
    false
}

} // verus!
