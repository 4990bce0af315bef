//! Counting paired number ranges that contain or overlap each other.
//!
//! Each input line holds two inclusive ranges, `a-b,c-d`.  One solver
//! counts the lines where the smaller range lies entirely inside the
//! larger (measured as: the overlap is as large as the smaller range),
//! the other the lines where the ranges overlap at all.

use vstd::prelude::*;
use vstd::string::StrSliceExecFns;
use vstd::string::StringSliceAdditionalSpecFns;

use crate::errors::SolveError;
use crate::text::spec_lines;
use crate::text::spec_parse_u32;
use crate::text::spec_split2;
use crate::text::split2;
use crate::text::split_lines;
use crate::text::parse_u32;
use crate::text::views;

verus! {

/// An inclusive range parsed from `lo-hi`.
pub open spec fn spec_parse_range(s: Seq<u8>) -> Option<(u32, u32)> {
    match spec_split2(s, 45) {
        None => None,
        Some(p) => match (spec_parse_u32(p.0), spec_parse_u32(p.1)) {
            (Some(a), Some(b)) => Some((a, b)),
            _ => None,
        },
    }
}

/// The two ranges of a line, `a-b,c-d`.
pub open spec fn spec_parse_pair(s: Seq<u8>) -> Option<((u32, u32), (u32, u32))> {
    match spec_split2(s, 44) {
        None => None,
        Some(p) => match (spec_parse_range(p.0), spec_parse_range(p.1)) {
            (Some(a), Some(b)) => Some((a, b)),
            _ => None,
        },
    }
}

/// How many integers an inclusive range holds (empty when reversed).
pub open spec fn range_size(r: (u32, u32)) -> int {
    if r.0 <= r.1 {
        r.1 - r.0 + 1
    } else {
        0
    }
}

/// How many integers lie in both ranges.
pub open spec fn overlap_size(a: (u32, u32), b: (u32, u32)) -> int {
    let lo = if a.0 >= b.0 {
        a.0
    } else {
        b.0
    };
    let hi = if a.1 <= b.1 {
        a.1
    } else {
        b.1
    };
    if lo <= hi {
        hi - lo + 1
    } else {
        0
    }
}

/// The smaller range lies entirely inside the larger one.
pub open spec fn fully_contained(a: (u32, u32), b: (u32, u32)) -> bool {
    overlap_size(a, b) == if range_size(a) <= range_size(b) {
        range_size(a)
    } else {
        range_size(b)
    }
}

/// The ranges share at least one integer.
pub open spec fn overlaps(a: (u32, u32), b: (u32, u32)) -> bool {
    overlap_size(a, b) > 0
}

/// Folds the lines from `i` on, counting those whose range pair
/// satisfies the selected test, on top of `acc` hits so far.
pub open spec fn spec_count_lines(
    lines: Seq<Seq<u8>>,
    i: int,
    acc: u32,
    full_only: bool,
) -> Result<u32, SolveError>
    decreases lines.len() - i,
    when 0 <= i <= lines.len()
{
    if i >= lines.len() {
        Ok(acc)
    } else {
        match spec_parse_pair(lines[i]) {
            None => Err(SolveError::Malformed),
            Some(pr) => {
                let hit = if full_only {
                    fully_contained(pr.0, pr.1)
                } else {
                    overlaps(pr.0, pr.1)
                };
                if hit {
                    if acc == u32::MAX {
                        Err(SolveError::Overflow)
                    } else {
                        spec_count_lines(lines, i + 1, (acc + 1) as u32, full_only)
                    }
                } else {
                    spec_count_lines(lines, i + 1, acc, full_only)
                }
            },
        }
    }
}

/// The number of lines whose smaller range lies inside the larger.
pub open spec fn spec_solve(input: Seq<u8>) -> Result<u32, SolveError> {
    spec_count_lines(spec_lines(input), 0, 0, true)
}

/// The number of lines whose ranges overlap.
pub open spec fn spec_solve2(input: Seq<u8>) -> Result<u32, SolveError> {
    spec_count_lines(spec_lines(input), 0, 0, false)
}

/// Parses `lo-hi`.
pub fn parse_range_str(range_str: &Vec<u8>) -> (r: Option<(u32, u32)>)
    ensures
        r == spec_parse_range(range_str@),
{
    match split2(range_str, 45) {
        None => None,
        Some(p) => match (parse_u32(&p.0), parse_u32(&p.1)) {
            (Some(a), Some(b)) => Some((a, b)),
            _ => None,
        },
    }
}

/// Parses `a-b,c-d`.
pub fn parse_line(line: &Vec<u8>) -> (r: Option<((u32, u32), (u32, u32))>)
    ensures
        r == spec_parse_pair(line@),
{
    match split2(line, 44) {
        None => None,
        Some(p) => match (parse_range_str(&p.0), parse_range_str(&p.1)) {
            (Some(a), Some(b)) => Some((a, b)),
            _ => None,
        },
    }
}

fn count_matching(lines: &Vec<Vec<u8>>, full_only: bool) -> (r: Result<u32, SolveError>)
    ensures
        r == spec_count_lines(views(lines@), 0, 0, full_only),
{
    let ghost lv = views(lines@);
    let mut count: u32 = 0;
    let mut i: usize = 0;
    while i < lines.len()
        invariant
            i <= lines@.len(),
            spec_count_lines(lv, 0, 0, full_only) == spec_count_lines(
                lv,
                i as int,
                count,
                full_only,
            ),
        decreases lines@.len() - i,
    {
        match parse_line(&lines[i]) {
            None => {
                return Err(SolveError::Malformed);
            },
            Some(pr) => {
                let hit = if full_only {
                    is_fully_contained(pr.0, pr.1)
                } else {
                    is_overlapping(pr.0, pr.1)
                };
                if hit {
                    if count == u32::MAX {
                        return Err(SolveError::Overflow);
                    }
                    count = count + 1;
                }
            },
        }
        i = i + 1;
    }
    Ok(count)
}

/// Whether the smaller of the two ranges lies entirely in the larger.
pub fn is_fully_contained(a: (u32, u32), b: (u32, u32)) -> (r: bool)
    ensures
        r == fully_contained(a, b),
{
    let sa: u64 = if a.0 <= a.1 {
        (a.1 - a.0) as u64 + 1
    } else {
        0
    };
    let sb: u64 = if b.0 <= b.1 {
        (b.1 - b.0) as u64 + 1
    } else {
        0
    };
    let lo: u32 = if a.0 >= b.0 {
        a.0
    } else {
        b.0
    };
    let hi: u32 = if a.1 <= b.1 {
        a.1
    } else {
        b.1
    };
    let ov: u64 = if lo <= hi {
        (hi - lo) as u64 + 1
    } else {
        0
    };
    ov == if sa <= sb {
        sa
    } else {
        sb
    }
}

/// Whether the two ranges share at least one integer.
pub fn is_overlapping(a: (u32, u32), b: (u32, u32)) -> (r: bool)
    ensures
        r == overlaps(a, b),
{
    let lo: u32 = if a.0 >= b.0 {
        a.0
    } else {
        b.0
    };
    let hi: u32 = if a.1 <= b.1 {
        a.1
    } else {
        b.1
    };
    lo <= hi
}

/// Counts the lines of `input` where one range contains the other.
pub fn solve(input: &str) -> (r: Result<u32, SolveError>)
    ensures
        r == spec_solve(input.spec_bytes()),
{
    let bytes = input.as_bytes_vec();
    let lines = split_lines(&bytes);
    proof {
        assert(views(lines@) =~= spec_lines(bytes@));
    }
    count_matching(&lines, true)
}

/// Counts the lines of `input` where the ranges overlap.
pub fn solve2(input: &str) -> (r: Result<u32, SolveError>)
    ensures
        r == spec_solve2(input.spec_bytes()),
{
    let bytes = input.as_bytes_vec();
    let lines = split_lines(&bytes);
    proof {
        assert(views(lines@) =~= spec_lines(bytes@));
    }
    count_matching(&lines, false)
}

} // verus!
