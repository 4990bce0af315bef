//! Scoring a rock-paper-scissors strategy guide.
//!
//! Each line is an opponent letter (`A`..`C`), a space, and a second
//! letter (`X`..`Z`).  In the first reading the second letter is the
//! player's shape; in the second it is the demanded outcome, and the
//! shape to play is looked up.  Either way a round scores shape points
//! (rock 1, paper 2, scissors 3) plus outcome points (loss 0, draw 3,
//! win 6), and the answer is the total over all rounds.

use vstd::prelude::*;
use vstd::string::StrSliceExecFns;
use vstd::string::StringSliceAdditionalSpecFns;

use crate::errors::SolveError;
use crate::text::spec_lines;
use crate::text::split_lines;
use crate::text::views;

verus! {

/// Outcome points when the opponent plays `opp` (`A`..`C`) and the
/// player plays `me` (`X`..`Z` standing for rock, paper, scissors).
pub open spec fn outcome_points(opp: u8, me: u8) -> u32 {
    if opp == 65 {  // rock
        if me == 88 {
            3
        } else if me == 89 {
            6
        } else {
            0
        }
    } else if opp == 66 {  // paper
        if me == 88 {
            0
        } else if me == 89 {
            3
        } else {
            6
        }
    } else {  // scissors
        if me == 88 {
            6
        } else if me == 89 {
            0
        } else {
            3
        }
    }
}

/// Points for one line read as opponent play and own play, or `None`
/// when the line is not one of the nine three-byte table entries.
pub open spec fn round_points(l: Seq<u8>) -> Option<u32> {
    if l.len() == 3 && l[1] == 32 && 65 <= l[0] <= 67 && 88 <= l[2] <= 90 {
        Some((((l[2] - 87) as u32 + outcome_points(l[0], l[2])) as u32))
    } else {
        None
    }
}

/// The shape (`A`..`C`) the player must pick so that the round against
/// `opp` ends as `me` demands (`X` lose, `Y` draw, `Z` win).
pub open spec fn response_play(opp: u8, me: u8) -> u8 {
    if me == 89 {  // draw: mirror the opponent
        opp
    } else if me == 88 {  // lose
        if opp == 65 {
            67
        } else if opp == 66 {
            65
        } else {
            66
        }
    } else {  // win
        if opp == 65 {
            66
        } else if opp == 66 {
            67
        } else {
            65
        }
    }
}

/// Points for one line read as opponent play and demanded outcome.
pub open spec fn round2_points(l: Seq<u8>) -> Option<u32> {
    if l.len() == 3 && l[1] == 32 && 65 <= l[0] <= 67 && 88 <= l[2] <= 90 {
        let outcome: u32 = if l[2] == 88 {
            0
        } else if l[2] == 89 {
            3
        } else {
            6
        };
        Some(((outcome + (response_play(l[0], l[2]) - 64) as u32) as u32))
    } else {
        None
    }
}

/// Folds the lines from `i` on, adding each round's points to `acc`.
pub open spec fn spec_total(lines: Seq<Seq<u8>>, i: int, acc: u32, part2: bool) -> Result<
    u32,
    SolveError,
>
    decreases lines.len() - i,
    when 0 <= i <= lines.len()
{
    if i >= lines.len() {
        Ok(acc)
    } else {
        let pts = if part2 {
            round2_points(lines[i])
        } else {
            round_points(lines[i])
        };
        match pts {
            None => Err(SolveError::Malformed),
            Some(p) => if acc + p > u32::MAX {
                Err(SolveError::Overflow)
            } else {
                spec_total(lines, i + 1, (acc + p) as u32, part2)
            },
        }
    }
}

/// The total score with the second letter read as the player's shape.
pub open spec fn spec_solve(input: Seq<u8>) -> Result<u32, SolveError> {
    spec_total(spec_lines(input), 0, 0, false)
}

/// The total score with the second letter read as the round's outcome.
pub open spec fn spec_solve2(input: Seq<u8>) -> Result<u32, SolveError> {
    spec_total(spec_lines(input), 0, 0, true)
}

/// Executable score for one line in the first reading.
pub fn round_points_exec(l: &Vec<u8>) -> (r: Option<u32>)
    ensures
        r == round_points(l@),
{
    if l.len() == 3 && l[1] == 32 && 65 <= l[0] && l[0] <= 67 && 88 <= l[2] && l[2] <= 90 {
        let shape: u32 = (l[2] - 87) as u32;
        let outcome: u32 = if l[0] == 65 {
            if l[2] == 88 {
                3
            } else if l[2] == 89 {
                6
            } else {
                0
            }
        } else if l[0] == 66 {
            if l[2] == 88 {
                0
            } else if l[2] == 89 {
                3
            } else {
                6
            }
        } else {
            if l[2] == 88 {
                6
            } else if l[2] == 89 {
                0
            } else {
                3
            }
        };
        Some(shape + outcome)
    } else {
        None
    }
}

/// Executable score for one line in the second reading.
pub fn round2_points_exec(l: &Vec<u8>) -> (r: Option<u32>)
    ensures
        r == round2_points(l@),
{
    if l.len() == 3 && l[1] == 32 && 65 <= l[0] && l[0] <= 67 && 88 <= l[2] && l[2] <= 90 {
        let outcome: u32 = if l[2] == 88 {
            0
        } else if l[2] == 89 {
            3
        } else {
            6
        };
        let play: u8 = if l[2] == 89 {
            l[0]
        } else if l[2] == 88 {
            if l[0] == 65 {
                67
            } else if l[0] == 66 {
                65
            } else {
                66
            }
        } else {
            if l[0] == 65 {
                66
            } else if l[0] == 66 {
                67
            } else {
                65
            }
        };
        Some(outcome + ((play - 64) as u32))
    } else {
        None
    }
}

fn total_score(lines: &Vec<Vec<u8>>, part2: bool) -> (r: Result<u32, SolveError>)
    ensures
        r == spec_total(views(lines@), 0, 0, part2),
{
    let ghost lv = views(lines@);
    let mut acc: u32 = 0;
    let mut i: usize = 0;
    while i < lines.len()
        invariant
            i <= lines@.len(),
            lv == views(lines@),
            spec_total(lv, 0, 0, part2) == spec_total(lv, i as int, acc, part2),
        decreases lines@.len() - i,
    {
        let pts = if part2 {
            round2_points_exec(&lines[i])
        } else {
            round_points_exec(&lines[i])
        };
        match pts {
            None => {
                return Err(SolveError::Malformed);
            },
            Some(p) => {
                if acc > u32::MAX - p {
                    return Err(SolveError::Overflow);
                }
                acc = acc + p;
            },
        }
        i = i + 1;
    }
    Ok(acc)
}

/// The guide's total score, second letter read as the player's shape.
pub fn solve(input: &str) -> (r: Result<u32, SolveError>)
    ensures
        r == spec_solve(input.spec_bytes()),
{
    let bytes = input.as_bytes_vec();
    let lines = split_lines(&bytes);
    proof {
        assert(views(lines@) =~= spec_lines(bytes@));
    }
    total_score(&lines, false)
}

/// The guide's total score, second letter read as the demanded outcome.
pub fn solve2(input: &str) -> (r: Result<u32, SolveError>)
    ensures
        r == spec_solve2(input.spec_bytes()),
{
    let bytes = input.as_bytes_vec();
    let lines = split_lines(&bytes);
    proof {
        assert(views(lines@) =~= spec_lines(bytes@));
    }
    total_score(&lines, true)
}

} // verus!
