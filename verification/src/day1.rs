//! Grouped number totals: the largest group, and the top three.
//!
//! The input is a list of numbers, one per line, with blank lines
//! separating groups.  One solver reports the largest group total,
//! the other the combined total of the three largest groups.

use vstd::prelude::*;
use vstd::string::StrSliceExecFns;
use vstd::string::StringSliceAdditionalSpecFns;

use crate::errors::SolveError;
use crate::text::spec_lines;
use crate::text::spec_parse_u32;
use crate::text::spec_trim;
use crate::text::parse_u32;
use crate::text::split_lines;
use crate::text::trim;
use crate::text::views;

verus! {

/// Folds the lines from `i` on: `cur` is the running total of the open
/// group and `best` the largest closed group so far.  The group still
/// open at the end counts as a group.
pub open spec fn spec_max_group(lines: Seq<Seq<u8>>, i: int, cur: u32, best: u32) -> Result<
    u32,
    SolveError,
>
    decreases lines.len() - i,
    when 0 <= i <= lines.len()
{
    if i >= lines.len() {
        Ok(
            if cur > best {
                cur
            } else {
                best
            },
        )
    } else {
        let t = spec_trim(lines[i]);
        if t.len() == 0 {
            spec_max_group(
                lines,
                i + 1,
                0,
                if cur > best {
                    cur
                } else {
                    best
                },
            )
        } else {
            match spec_parse_u32(t) {
                None => Err(SolveError::Malformed),
                Some(v) => if cur + v > u32::MAX {
                    Err(SolveError::Overflow)
                } else {
                    spec_max_group(lines, i + 1, (cur + v) as u32, best)
                },
            }
        }
    }
}

/// The largest group total of `input`.
pub open spec fn spec_solve(input: Seq<u8>) -> Result<u32, SolveError> {
    spec_max_group(spec_lines(input), 0, 0, 0)
}

/// Inserts `v` into a descending top-three triple.
pub open spec fn insert_top3(t: (u32, u32, u32), v: u32) -> (u32, u32, u32) {
    if v >= t.0 {
        (v, t.0, t.1)
    } else if v >= t.1 {
        (t.0, v, t.1)
    } else if v >= t.2 {
        (t.0, t.1, v)
    } else {
        t
    }
}

/// Folds the lines from `i` on: `cur` is the open group's total, `t`
/// the three largest closed groups so far (descending), and `groups`
/// how many groups have closed.  Fewer than three groups in all is an
/// error; so is a combined total beyond `u32`.
pub open spec fn spec_top3(
    lines: Seq<Seq<u8>>,
    i: int,
    cur: u32,
    t: (u32, u32, u32),
    groups: int,
) -> Result<u32, SolveError>
    decreases lines.len() - i,
    when 0 <= i <= lines.len()
{
    if i >= lines.len() {
        let t2 = insert_top3(t, cur);
        if groups + 1 < 3 {
            Err(SolveError::TooFewGroups)
        } else if t2.0 + t2.1 + t2.2 > u32::MAX {
            Err(SolveError::Overflow)
        } else {
            Ok((t2.0 + t2.1 + t2.2) as u32)
        }
    } else {
        let tl = spec_trim(lines[i]);
        if tl.len() == 0 {
            spec_top3(lines, i + 1, 0, insert_top3(t, cur), groups + 1)
        } else {
            match spec_parse_u32(tl) {
                None => Err(SolveError::Malformed),
                Some(v) => if cur + v > u32::MAX {
                    Err(SolveError::Overflow)
                } else {
                    spec_top3(lines, i + 1, (cur + v) as u32, t, groups)
                },
            }
        }
    }
}

/// The combined total of the three largest groups of `input`.
pub open spec fn spec_solve2(input: Seq<u8>) -> Result<u32, SolveError> {
    spec_top3(spec_lines(input), 0, 0, (0, 0, 0), 0)
}

/// The largest group total: groups of numbers are separated by blank
/// lines, and the group open at the end of the input counts.
pub fn solve(input: &str) -> (r: Result<u32, SolveError>)
    ensures
        r == spec_solve(input.spec_bytes()),
{
    let bytes = input.as_bytes_vec();
    let lines = split_lines(&bytes);
    let ghost lv = views(lines@);
    proof {
        assert(lv =~= spec_lines(bytes@));
    }
    let mut cur: u32 = 0;
    let mut best: u32 = 0;
    let mut i: usize = 0;
    while i < lines.len()
        invariant
            i <= lines@.len(),
            lv == views(lines@),
            spec_max_group(lv, 0, 0, 0) == spec_max_group(lv, i as int, cur, best),
        decreases lines@.len() - i,
    {
        let t = trim(&lines[i]);
        if t.len() == 0 {
            if cur > best {
                best = cur;
            }
            cur = 0;
        } else {
            match parse_u32(&t) {
                None => {
                    return Err(SolveError::Malformed);
                },
                Some(v) => {
                    if cur > u32::MAX - v {
                        return Err(SolveError::Overflow);
                    }
                    cur = cur + v;
                },
            }
        }
        i = i + 1;
    }
    if cur > best {
        best = cur;
    }
    Ok(best)
}

/// The combined total of the three largest groups; rejects an input
/// with fewer than three groups.
pub fn solve2(input: &str) -> (r: Result<u32, SolveError>)
    ensures
        r == spec_solve2(input.spec_bytes()),
{
    let bytes = input.as_bytes_vec();
    let lines = split_lines(&bytes);
    let ghost lv = views(lines@);
    proof {
        assert(lv =~= spec_lines(bytes@));
    }
    let mut cur: u32 = 0;
    let mut t0: u32 = 0;
    let mut t1: u32 = 0;
    let mut t2: u32 = 0;
    let mut groups: usize = 0;
    let mut i: usize = 0;
    while i < lines.len()
        invariant
            i <= lines@.len(),
            lv == views(lines@),
            groups <= i,
            spec_top3(lv, 0, 0, (0, 0, 0), 0) == spec_top3(
                lv,
                i as int,
                cur,
                (t0, t1, t2),
                groups as int,
            ),
        decreases lines@.len() - i,
    {
        let t = trim(&lines[i]);
        if t.len() == 0 {
            if cur >= t0 {
                t2 = t1;
                t1 = t0;
                t0 = cur;
            } else if cur >= t1 {
                t2 = t1;
                t1 = cur;
            } else if cur >= t2 {
                t2 = cur;
            }
            cur = 0;
            groups = groups + 1;
        } else {
            match parse_u32(&t) {
                None => {
                    return Err(SolveError::Malformed);
                },
                Some(v) => {
                    if cur > u32::MAX - v {
                        return Err(SolveError::Overflow);
                    }
                    cur = cur + v;
                },
            }
        }
        i = i + 1;
    }
    if cur >= t0 {
        t2 = t1;
        t1 = t0;
        t0 = cur;
    } else if cur >= t1 {
        t2 = t1;
        t1 = cur;
    } else if cur >= t2 {
        t2 = cur;
    }
    if groups < 2 {
        return Err(SolveError::TooFewGroups);
    }
    if t0 > u32::MAX - t1 {
        return Err(SolveError::Overflow);
    }
    let s01 = t0 + t1;
    if s01 > u32::MAX - t2 {
        return Err(SolveError::Overflow);
    }
    Ok(s01 + t2)
}

} // verus!
