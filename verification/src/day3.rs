//! Rucksack item priorities.
//!
//! Each line is a bag whose two halves are its compartments.  The
//! first solver scores, per line, the first item of the front half
//! that also appears in the back half.  The second groups the lines
//! in threes and scores, per group, the single item common to all
//! three lines; a group with no unique common item is rejected.
//! Item priorities: `a`..`z` score 1..26, `A`..`Z` score 27..52.

use vstd::prelude::*;
use vstd::string::StrSliceExecFns;
use vstd::string::StringSliceAdditionalSpecFns;

use crate::errors::SolveError;
use crate::text::spec_lines;
use crate::text::split_lines;
use crate::text::views;

verus! {

/// Whether `b` is an ASCII letter.
pub open spec fn is_letter(b: u8) -> bool {
    (97 <= b <= 122) || (65 <= b <= 90)
}

/// The priority of an item: 1..26 for `a`..`z`, 27..52 for `A`..`Z`.
pub open spec fn letter_value(b: u8) -> int {
    if 97 <= b <= 122 {
        b - 96
    } else {
        b - 38
    }
}

/// The priority of an item letter.
pub fn value_for(byte: u8) -> (r: u32)
    requires
        is_letter(byte),
    ensures
        r == letter_value(byte),
{
    if byte >= 97 {
        (byte - 96) as u32
    } else {
        (byte - 38) as u32
    }
}

/// The first index of `c1` whose byte occurs in `c2`, or `c1.len()`.
pub open spec fn first_in(c1: Seq<u8>, c2: Seq<u8>) -> nat
    decreases c1.len(),
{
    if c1.len() == 0 {
        0
    } else if c2.contains(c1[0]) {
        0
    } else {
        1 + first_in(c1.skip(1), c2)
    }
}

pub proof fn lemma_first_in_exact(c1: Seq<u8>, c2: Seq<u8>, k: int)
    requires
        0 <= k <= c1.len(),
        forall|i: int| 0 <= i < k ==> !c2.contains(c1[i]),
        k == c1.len() || c2.contains(c1[k]),
    ensures
        first_in(c1, c2) == k,
    decreases c1.len(),
{
    if c1.len() > 0 && !c2.contains(c1[0]) {
        assert forall|i: int| 0 <= i < k - 1 implies !c2.contains(c1.skip(1)[i]) by {
            assert(c1.skip(1)[i] == c1[i + 1]);
        }
        assert(k - 1 == c1.skip(1).len() || c2.contains(c1.skip(1)[k - 1]));
        lemma_first_in_exact(c1.skip(1), c2, k - 1);
    }
}

/// The score of one line: the priority of the first front-half item
/// that also occurs in the back half; `None` when no item is shared
/// or the shared item is not a letter.
pub open spec fn spec_item_points(l: Seq<u8>) -> Option<u32> {
    let n = (l.len() / 2) as int;
    let c1 = l.take(n);
    let c2 = l.skip(n);
    let fi = first_in(c1, c2);
    if fi >= c1.len() {
        None
    } else if is_letter(c1[fi as int]) {
        Some(letter_value(c1[fi as int]) as u32)
    } else {
        None
    }
}

/// Folds the lines from `i` on, adding each line's item priority.
pub open spec fn spec_sum_items(lines: Seq<Seq<u8>>, i: int, acc: u32) -> Result<u32, SolveError>
    decreases lines.len() - i,
    when 0 <= i <= lines.len()
{
    if i >= lines.len() {
        Ok(acc)
    } else {
        match spec_item_points(lines[i]) {
            None => Err(SolveError::Malformed),
            Some(p) => if acc + p > u32::MAX {
                Err(SolveError::Overflow)
            } else {
                spec_sum_items(lines, i + 1, (acc + p) as u32)
            },
        }
    }
}

/// The total priority of the per-line shared items.
pub open spec fn spec_solve(input: Seq<u8>) -> Result<u32, SolveError> {
    spec_sum_items(spec_lines(input), 0, 0)
}

/// Index `j` of `l1` holds a badge candidate: its first occurrence in
/// `l1`, present in `l2` and `l3` as well.
pub open spec fn badge_at(l1: Seq<u8>, l2: Seq<u8>, l3: Seq<u8>, j: int) -> bool {
    &&& 0 <= j < l1.len()
    &&& l2.contains(l1[j])
    &&& l3.contains(l1[j])
    &&& !l1.take(j).contains(l1[j])
}

/// How many distinct values occur in all three lines, counted from
/// index `j` of `l1` on.
pub open spec fn common_count(l1: Seq<u8>, l2: Seq<u8>, l3: Seq<u8>, j: int) -> nat
    decreases l1.len() - j,
    when 0 <= j <= l1.len()
{
    if j >= l1.len() {
        0
    } else {
        (if badge_at(l1, l2, l3, j) {
            1nat
        } else {
            0nat
        }) + common_count(l1, l2, l3, j + 1)
    }
}

/// The first badge-candidate index of `l1` at or after `j`, or
/// `l1.len()` when there is none.
pub open spec fn first_common(l1: Seq<u8>, l2: Seq<u8>, l3: Seq<u8>, j: int) -> int
    decreases l1.len() - j,
    when 0 <= j <= l1.len()
{
    if j >= l1.len() {
        l1.len() as int
    } else if badge_at(l1, l2, l3, j) {
        j
    } else {
        first_common(l1, l2, l3, j + 1)
    }
}

/// The badge priority of a group of three lines: the single item
/// common to all three; `None` unless exactly one such item exists
/// and it is a letter.
pub open spec fn spec_badge_points(l1: Seq<u8>, l2: Seq<u8>, l3: Seq<u8>) -> Option<u32> {
    if common_count(l1, l2, l3, 0) != 1 {
        None
    } else {
        let b = l1[first_common(l1, l2, l3, 0)];
        if is_letter(b) {
            Some(letter_value(b) as u32)
        } else {
            None
        }
    }
}

/// Folds the lines from `i` on in groups of three, adding each
/// group's badge priority; a trailing partial group is ignored.
pub open spec fn spec_sum_badges(lines: Seq<Seq<u8>>, i: int, acc: u32) -> Result<u32, SolveError>
    decreases lines.len() - i,
    when 0 <= i <= lines.len()
{
    if i + 3 > lines.len() {
        Ok(acc)
    } else {
        match spec_badge_points(lines[i], lines[i + 1], lines[i + 2]) {
            None => Err(SolveError::Malformed),
            Some(p) => if acc + p > u32::MAX {
                Err(SolveError::Overflow)
            } else {
                spec_sum_badges(lines, i + 3, (acc + p) as u32)
            },
        }
    }
}

/// The total badge priority over all complete groups of three lines.
pub open spec fn spec_solve2(input: Seq<u8>) -> Result<u32, SolveError> {
    spec_sum_badges(spec_lines(input), 0, 0)
}

/// Scores one line of the first solver.
fn item_points_exec(l: &Vec<u8>) -> (r: Option<u32>)
    ensures
        r == spec_item_points(l@),
{
    let n = l.len() / 2;
    let ghost c1 = l@.take(n as int);
    let ghost c2 = l@.skip(n as int);
    let mut i: usize = 0;
    while i < n
        invariant
            i <= n == l@.len() / 2,
            c1 == l@.take(n as int),
            c2 == l@.skip(n as int),
            forall|k: int| 0 <= k < i ==> !c2.contains(c1[k]),
        decreases n - i,
    {
        let mut j: usize = n;
        let mut found: bool = false;
        while j < l.len() && !found
            invariant
                n <= j <= l@.len(),
                i < n,
                found ==> j < l@.len() && l@[j as int] == l@[i as int],
                !found ==> forall|k: int| n <= k < j ==> l@[k] != l@[i as int],
            decreases l@.len() - j, (if found {
                0int
            } else {
                1int
            }),
        {
            if l[j] == l[i] {
                found = true;
            } else {
                j = j + 1;
            }
        }
        if found {
            proof {
                assert(c2[j - n] == l@[j as int]);
                assert(c2.contains(c1[i as int]));
                lemma_first_in_exact(c1, c2, i as int);
            }
            let b = l[i];
            if (97 <= b && b <= 122) || (65 <= b && b <= 90) {
                return Some(value_for(b));
            } else {
                return None;
            }
        }
        proof {
            assert forall|m: int| 0 <= m < c2.len() implies c2[m] != c1[i as int] by {
                assert(c2[m] == l@[n + m]);
            }
            assert(!c2.contains(c1[i as int]));
        }
        i = i + 1;
    }
    proof {
        lemma_first_in_exact(c1, c2, c1.len() as int);
    }
    None
}

/// Scores one group of three lines of the second solver.
fn badge_points_exec(l1: &Vec<u8>, l2: &Vec<u8>, l3: &Vec<u8>) -> (r: Option<u32>)
    ensures
        r == spec_badge_points(l1@, l2@, l3@),
{
    let mut count: usize = 0;
    let mut first: usize = l1.len();
    let mut j: usize = 0;
    while j < l1.len()
        invariant
            j <= l1@.len(),
            count <= j,
            common_count(l1@, l2@, l3@, 0) == count + common_count(l1@, l2@, l3@, j as int),
            count == 0 ==> first == l1@.len() && first_common(l1@, l2@, l3@, 0) == first_common(
                l1@,
                l2@,
                l3@,
                j as int,
            ),
            count > 0 ==> first < j && first == first_common(l1@, l2@, l3@, 0) && badge_at(
                l1@,
                l2@,
                l3@,
                first as int,
            ),
        decreases l1@.len() - j,
    {
        let b = l1[j];
        let in2 = contains_vec(l2, b);
        let in3 = contains_vec(l3, b);
        let seen = prefix_contains(l1, j);
        proof {
            assert(badge_at(l1@, l2@, l3@, j as int) == (in2 && in3 && !seen));
        }
        if in2 && in3 && !seen {
            if count == 0 {
                first = j;
            }
            count = count + 1;
        }
        j = j + 1;
    }
    if count != 1 {
        return None;
    }
    let b = l1[first];
    if (97 <= b && b <= 122) || (65 <= b && b <= 90) {
        Some(value_for(b))
    } else {
        None
    }
}

/// Executable membership test.
fn contains_vec(v: &Vec<u8>, b: u8) -> (r: bool)
    ensures
        r == v@.contains(b),
{
    let mut i: usize = 0;
    while i < v.len()
        invariant
            i <= v@.len(),
            forall|k: int| 0 <= k < i ==> v@[k] != b,
        decreases v@.len() - i,
    {
        if v[i] == b {
            return true;
        }
        i = i + 1;
    }
    false
}

/// Whether `v[j]` already occurs among the first `j` bytes.
fn prefix_contains(v: &Vec<u8>, j: usize) -> (r: bool)
    requires
        j < v@.len(),
    ensures
        r == v@.take(j as int).contains(v@[j as int]),
{
    let b = v[j];
    let mut i: usize = 0;
    while i < j
        invariant
            i <= j < v@.len(),
            b == v@[j as int],
            forall|k: int| 0 <= k < i ==> v@[k] != b,
        decreases j - i,
    {
        if v[i] == b {
            proof {
                assert(v@.take(j as int)[i as int] == b);
            }
            return true;
        }
        i = i + 1;
    }
    proof {
        assert forall|k: int| 0 <= k < v@.take(j as int).len() implies v@.take(j as int)[k]
            != b by {
            assert(v@.take(j as int)[k] == v@[k]);
        }
    }
    false
}

/// The total priority of the items shared by each line's two halves.
pub fn solve(input: &str) -> (r: Result<u32, SolveError>)
    ensures
        r == spec_solve(input.spec_bytes()),
{
    let bytes = input.as_bytes_vec();
    let lines = split_lines(&bytes);
    let ghost lv = views(lines@);
    proof {
        assert(lv =~= spec_lines(bytes@));
    }
    let mut acc: u32 = 0;
    let mut i: usize = 0;
    while i < lines.len()
        invariant
            i <= lines@.len(),
            lv == views(lines@),
            spec_sum_items(lv, 0, 0) == spec_sum_items(lv, i as int, acc),
        decreases lines@.len() - i,
    {
        match item_points_exec(&lines[i]) {
            None => {
                return Err(SolveError::Malformed);
            },
            Some(p) => {
                if acc > u32::MAX - p {
                    return Err(SolveError::Overflow);
                }
                acc = acc + p;
            },
        }
        i = i + 1;
    }
    Ok(acc)
}

/// The total badge priority over the groups of three lines.
pub fn solve2(input: &str) -> (r: Result<u32, SolveError>)
    ensures
        r == spec_solve2(input.spec_bytes()),
{
    let bytes = input.as_bytes_vec();
    let lines = split_lines(&bytes);
    let ghost lv = views(lines@);
    proof {
        assert(lv =~= spec_lines(bytes@));
    }
    let mut acc: u32 = 0;
    let mut i: usize = 0;
    while lines.len() >= 3 && i <= lines.len() - 3
        invariant
            i <= lines@.len(),
            lv == views(lines@),
            spec_sum_badges(lv, 0, 0) == spec_sum_badges(lv, i as int, acc),
        decreases lines@.len() - i,
    {
        match badge_points_exec(&lines[i], &lines[i + 1], &lines[i + 2]) {
            None => {
                return Err(SolveError::Malformed);
            },
            Some(p) => {
                if acc > u32::MAX - p {
                    return Err(SolveError::Overflow);
                }
                acc = acc + p;
            },
        }
        i = i + 3;
    }
    Ok(acc)
}

} // verus!
