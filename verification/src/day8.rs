//! Tree-height grid: visibility from outside and scenic scores.
//!
//! The input is a rectangle of single digits.  A cell is visible from
//! a side when every cell strictly between it and that edge is
//! strictly lower.  A cell's scenic score is the product over the
//! four directions of how many cells it sees: the view runs to the
//! first cell at least as tall (that cell included) or to the edge.

use vstd::prelude::*;
use vstd::string::StrSliceExecFns;
use vstd::string::StringSliceAdditionalSpecFns;

use crate::errors::SolveError;
use crate::text::all_digits;
use crate::text::spec_lines;
use crate::text::split_lines;
use crate::text::views;

verus! {

/// The largest height or width a grid may have here.
pub open spec fn grid_limit() -> int {
    65535
}

/// A well-formed grid: rectangular, within the size limit.
pub open spec fn grid_wf(g: Seq<Seq<u8>>) -> bool {
    &&& g.len() <= grid_limit()
    &&& forall|i: int| 0 <= i < g.len() ==> (#[trigger] g[i]).len() == g[0].len()
    &&& (g.len() > 0 ==> g[0].len() <= grid_limit())
}

/// The common row width (zero for an empty grid).
pub open spec fn grid_width(g: Seq<Seq<u8>>) -> int {
    if g.len() == 0 {
        0
    } else {
        g[0].len() as int
    }
}

/// The height at `(i, j)`, if the cell exists.
pub open spec fn cell(g: Seq<Seq<u8>>, i: int, j: int) -> Option<u8> {
    if 0 <= i < g.len() && 0 <= j < g[i].len() {
        Some(g[i][j])
    } else {
        None
    }
}

/// Cell `(i, j)` is visible from the top edge.
pub open spec fn spec_visible_up(g: Seq<Seq<u8>>, i: int, j: int) -> bool {
    forall|k: int| 0 <= k < i ==> (#[trigger] g[k])[j] < g[i][j]
}

/// Cell `(i, j)` is visible from the bottom edge.
pub open spec fn spec_visible_down(g: Seq<Seq<u8>>, i: int, j: int) -> bool {
    forall|k: int| i < k < g.len() ==> (#[trigger] g[k])[j] < g[i][j]
}

/// Cell `(i, j)` is visible from the left edge.
pub open spec fn spec_visible_left(g: Seq<Seq<u8>>, i: int, j: int) -> bool {
    forall|k: int| 0 <= k < j ==> (#[trigger] g[i][k]) < g[i][j]
}

/// Cell `(i, j)` is visible from the right edge.
pub open spec fn spec_visible_right(g: Seq<Seq<u8>>, i: int, j: int) -> bool {
    forall|k: int| j < k < g[i].len() ==> (#[trigger] g[i][k]) < g[i][j]
}

/// Visible from at least one edge.
pub open spec fn spec_visible_any(g: Seq<Seq<u8>>, i: int, j: int) -> bool {
    spec_visible_up(g, i, j) || spec_visible_down(g, i, j) || spec_visible_left(g, i, j)
        || spec_visible_right(g, i, j)
}

/// Cells seen looking up from row `i` (exclusive) with height `v`:
/// the walk stops at, and counts, the first cell at least `v` tall.
pub open spec fn ray_up(g: Seq<Seq<u8>>, v: u8, i: int, j: int) -> int
    decreases i + 1,
    when -1 <= i
{
    if i < 0 || cell(g, i, j) is None {
        0
    } else if g[i][j] >= v {
        1
    } else {
        1 + ray_up(g, v, i - 1, j)
    }
}

/// Cells seen looking down from row `i` (exclusive).
pub open spec fn ray_down(g: Seq<Seq<u8>>, v: u8, i: int, j: int) -> int
    decreases g.len() - i,
    when 0 <= i <= g.len()
{
    if i >= g.len() || cell(g, i, j) is None {
        0
    } else if g[i][j] >= v {
        1
    } else {
        1 + ray_down(g, v, i + 1, j)
    }
}

/// Cells seen looking left from column `j` (exclusive).
pub open spec fn ray_left(g: Seq<Seq<u8>>, v: u8, i: int, j: int) -> int
    decreases j + 1,
    when -1 <= j
{
    if j < 0 || cell(g, i, j) is None {
        0
    } else if g[i][j] >= v {
        1
    } else {
        1 + ray_left(g, v, i, j - 1)
    }
}

/// Cells seen looking right from column `j` (exclusive).
pub open spec fn ray_right(g: Seq<Seq<u8>>, v: u8, i: int, j: int) -> int
    decreases grid_width(g) - j,
    when 0 <= j <= grid_width(g)
{
    if j >= grid_width(g) || cell(g, i, j) is None {
        0
    } else if g[i][j] >= v {
        1
    } else {
        1 + ray_right(g, v, i, j + 1)
    }
}

/// The viewing distances of cell `(i, j)` in the four directions.
pub open spec fn spec_scenic_up(g: Seq<Seq<u8>>, i: int, j: int) -> int {
    ray_up(g, g[i][j], i - 1, j)
}

pub open spec fn spec_scenic_down(g: Seq<Seq<u8>>, i: int, j: int) -> int {
    ray_down(g, g[i][j], i + 1, j)
}

pub open spec fn spec_scenic_left(g: Seq<Seq<u8>>, i: int, j: int) -> int {
    ray_left(g, g[i][j], i, j - 1)
}

pub open spec fn spec_scenic_right(g: Seq<Seq<u8>>, i: int, j: int) -> int {
    ray_right(g, g[i][j], i, j + 1)
}

/// The scenic score: the product of the four viewing distances.
pub open spec fn spec_scenic_score(g: Seq<Seq<u8>>, i: int, j: int) -> int {
    spec_scenic_up(g, i, j) * spec_scenic_down(g, i, j) * spec_scenic_left(g, i, j)
        * spec_scenic_right(g, i, j)
}

/// How many cells from `(i, j)` on (row-major) are visible from some
/// edge.
pub open spec fn count_from(g: Seq<Seq<u8>>, i: int, j: int) -> int
    decreases g.len() - i, grid_width(g) - j,
    when 0 <= i && 0 <= j <= grid_width(g)
{
    if i >= g.len() {
        0
    } else if j >= grid_width(g) {
        count_from(g, i + 1, 0)
    } else {
        (if spec_visible_any(g, i, j) {
            1int
        } else {
            0int
        }) + count_from(g, i, j + 1)
    }
}

/// The running maximum scenic score from `(i, j)` on (row-major);
/// a score beyond `u32` at any cell is an overflow error, reported
/// at the first such cell.
pub open spec fn best_from(g: Seq<Seq<u8>>, i: int, j: int, best: u32) -> Result<u32, SolveError>
    decreases g.len() - i, grid_width(g) - j,
    when 0 <= i && 0 <= j <= grid_width(g)
{
    if i >= g.len() {
        Ok(best)
    } else if j >= grid_width(g) {
        best_from(g, i + 1, 0, best)
    } else {
        let s = spec_scenic_score(g, i, j);
        if s > u32::MAX {
            Err(SolveError::Overflow)
        } else if s > best {
            best_from(g, i, j + 1, s as u32)
        } else {
            best_from(g, i, j + 1, best)
        }
    }
}

/// The grid parsed from the lines from `i` on, on top of the rows in
/// `acc`: every line must be digits, as wide as the first, and the
/// grid must stay within the size limit.
pub open spec fn spec_build(lines: Seq<Seq<u8>>, i: int, acc: Seq<Seq<u8>>) -> Result<
    Seq<Seq<u8>>,
    SolveError,
>
    decreases lines.len() - i,
    when 0 <= i <= lines.len()
{
    if i >= lines.len() {
        Ok(acc)
    } else if !all_digits(lines[i]) {
        Err(SolveError::Malformed)
    } else if acc.len() > 0 && lines[i].len() != acc[0].len() {
        Err(SolveError::Malformed)
    } else if acc.len() == 0 && lines[i].len() > grid_limit() {
        Err(SolveError::TooLarge)
    } else if acc.len() >= grid_limit() {
        Err(SolveError::TooLarge)
    } else {
        spec_build(lines, i + 1, acc.push(lines[i].map_values(|b: u8| (b - 48) as u8)))
    }
}

/// The visible-cell count of the parsed grid.
pub open spec fn spec_solve(input: Seq<u8>) -> Result<u32, SolveError> {
    match spec_build(spec_lines(input), 0, Seq::empty()) {
        Err(e) => Err(e),
        Ok(g) => Ok(count_from(g, 0, 0) as u32),
    }
}

/// The maximum scenic score of the parsed grid.
pub open spec fn spec_solve2(input: Seq<u8>) -> Result<u32, SolveError> {
    match spec_build(spec_lines(input), 0, Seq::empty()) {
        Err(e) => Err(e),
        Ok(g) => best_from(g, 0, 0, 0),
    }
}

/// A rectangular grid of single-digit heights.
pub struct Grid {
    cells: Vec<Vec<u8>>,
}

impl View for Grid {
    type V = Seq<Seq<u8>>;

    closed spec fn view(&self) -> Seq<Seq<u8>> {
        views(self.cells@)
    }
}

impl Grid {
    /// Rectangular and within the size limit.
    pub open spec fn wf(&self) -> bool {
        grid_wf(self@)
    }

    /// Wraps a rectangular block of rows.
    pub fn new(cells: Vec<Vec<u8>>) -> (r: Grid)
        requires
            grid_wf(views(cells@)),
        ensures
            r@ == views(cells@),
    {
        Grid { cells }
    }

    /// The number of rows.
    pub fn height(&self) -> (r: i32)
        requires
            self.wf(),
        ensures
            r == self@.len(),
    {
        self.cells.len() as i32
    }

    /// The number of columns; asks for at least one row.
    pub fn width(&self) -> (r: i32)
        requires
            self.wf(),
            self@.len() > 0,
        ensures
            r == grid_width(self@),
    {
        proof {
            assert(self@[0] == self.cells@[0]@);
        }
        self.cells[0].len() as i32
    }

    /// The height at `(i, j)`, or `None` outside the grid.
    pub fn get(&self, row_num: i32, col_num: i32) -> (r: Option<u8>)
        requires
            self.wf(),
        ensures
            r == cell(self@, row_num as int, col_num as int),
    {
        if row_num < 0 || col_num < 0 {
            return None;
        }
        let i = row_num as usize;
        let j = col_num as usize;
        if i < self.cells.len() && j < self.cells[i].len() {
            proof {
                assert(self@[i as int] == self.cells@[i as int]@);
            }
            Some(self.cells[i][j])
        } else {
            proof {
                if i < self.cells.len() {
                    assert(self@[i as int] == self.cells@[i as int]@);
                }
            }
            None
        }
    }

    /// Reads cell `(i, j)`, which must exist.
    fn at(&self, i: usize, j: usize) -> (r: u8)
        requires
            i < self@.len(),
            j < self@[i as int].len(),
        ensures
            r == self@[i as int][j as int],
    {
        proof {
            assert(self@[i as int] == self.cells@[i as int]@);
        }
        self.cells[i][j]
    }

    /// Visible from the top edge.
    pub fn visible_up(&self, row_num: i32, col_num: i32) -> (r: bool)
        requires
            self.wf(),
            0 <= row_num < self@.len(),
            0 <= col_num < grid_width(self@),
        ensures
            r == spec_visible_up(self@, row_num as int, col_num as int),
    {
        let i = row_num as usize;
        let j = col_num as usize;
        let v = self.at(i, j);
        let mut k: usize = 0;
        while k < i
            invariant
                k <= i,
                forall|m: int| 0 <= m < k ==> (#[trigger] self@[m])[j as int] < v,
            decreases i - k,
        {
            if self.at(k, j) >= v {
                return false;
            }
            k = k + 1;
        }
        true
    }

    /// Visible from the bottom edge.
    pub fn visible_down(&self, row_num: i32, col_num: i32) -> (r: bool)
        requires
            self.wf(),
            0 <= row_num < self@.len(),
            0 <= col_num < grid_width(self@),
        ensures
            r == spec_visible_down(self@, row_num as int, col_num as int),
    {
        let i = row_num as usize;
        let j = col_num as usize;
        let v = self.at(i, j);
        let mut k: usize = i + 1;
        while k < self.cells.len()
            invariant
                i < k <= self@.len(),
                forall|m: int| i < m < k ==> (#[trigger] self@[m])[j as int] < v,
            decreases self@.len() - k,
        {
            if self.at(k, j) >= v {
                return false;
            }
            k = k + 1;
        }
        true
    }

    /// Visible from the left edge.
    pub fn visible_left(&self, row_num: i32, col_num: i32) -> (r: bool)
        requires
            self.wf(),
            0 <= row_num < self@.len(),
            0 <= col_num < grid_width(self@),
        ensures
            r == spec_visible_left(self@, row_num as int, col_num as int),
    {
        let i = row_num as usize;
        let j = col_num as usize;
        let v = self.at(i, j);
        let mut k: usize = 0;
        while k < j
            invariant
                k <= j,
                forall|m: int| 0 <= m < k ==> (#[trigger] self@[i as int][m]) < v,
            decreases j - k,
        {
            if self.at(i, k) >= v {
                return false;
            }
            k = k + 1;
        }
        true
    }

    /// Visible from the right edge.
    pub fn visible_right(&self, row_num: i32, col_num: i32) -> (r: bool)
        requires
            self.wf(),
            0 <= row_num < self@.len(),
            0 <= col_num < grid_width(self@),
        ensures
            r == spec_visible_right(self@, row_num as int, col_num as int),
    {
        let i = row_num as usize;
        let j = col_num as usize;
        let v = self.at(i, j);
        let mut k: usize = j + 1;
        let w = self.cells[i].len();
        proof {
            assert(self@[i as int] == self.cells@[i as int]@);
        }
        while k < w
            invariant
                j < k <= w == self@[i as int].len(),
                forall|m: int| j < m < k ==> (#[trigger] self@[i as int][m]) < v,
            decreases w - k,
        {
            if self.at(i, k) >= v {
                return false;
            }
            k = k + 1;
        }
        true
    }

    /// The viewing distance looking up.
    pub fn scenic_up(&self, row_num: i32, col_num: i32) -> (r: u32)
        requires
            self.wf(),
            0 <= row_num < self@.len(),
            0 <= col_num < grid_width(self@),
        ensures
            r == spec_scenic_up(self@, row_num as int, col_num as int),
            r <= row_num,
    {
        let i = row_num as usize;
        let j = col_num as usize;
        let v = self.at(i, j);
        let mut count: u32 = 0;
        let mut k: i32 = row_num - 1;
        let mut blocked = false;
        while k >= 0 && !blocked
            invariant
                -1 <= k <= row_num - 1,
                !blocked ==> count == row_num - 1 - k,
                blocked ==> count == row_num - k && k >= 0,
                !blocked ==> ray_up(self@, v, row_num - 1, j as int) == count + ray_up(
                    self@,
                    v,
                    k as int,
                    j as int,
                ),
                blocked ==> ray_up(self@, v, row_num - 1, j as int) == count,
            decreases (if blocked {
                -1int
            } else {
                k as int
            }) + 1,
        {
            let val = self.at(k as usize, j);
            count = count + 1;
            if val >= v {
                blocked = true;
            } else {
                k = k - 1;
            }
        }
        count
    }

    /// The viewing distance looking down.
    pub fn scenic_down(&self, row_num: i32, col_num: i32) -> (r: u32)
        requires
            self.wf(),
            0 <= row_num < self@.len(),
            0 <= col_num < grid_width(self@),
        ensures
            r == spec_scenic_down(self@, row_num as int, col_num as int),
            r <= self@.len() - 1 - row_num,
    {
        let i = row_num as usize;
        let j = col_num as usize;
        let v = self.at(i, j);
        let h = self.cells.len();
        let mut count: u32 = 0;
        let mut k: usize = i + 1;
        let mut blocked = false;
        while k < h && !blocked
            invariant
                i + 1 <= k <= h == self@.len(),
                !blocked ==> count == k - i - 1,
                blocked ==> count == k - i && k < self@.len(),
                !blocked ==> ray_down(self@, v, i + 1, j as int) == count + ray_down(
                    self@,
                    v,
                    k as int,
                    j as int,
                ),
                blocked ==> ray_down(self@, v, i + 1, j as int) == count,
            decreases (if blocked {
                0int
            } else {
                self@.len() - k + 1
            }),
        {
            let val = self.at(k, j);
            count = count + 1;
            if val >= v {
                blocked = true;
            } else {
                k = k + 1;
            }
        }
        count
    }

    /// The viewing distance looking left.
    pub fn scenic_left(&self, row_num: i32, col_num: i32) -> (r: u32)
        requires
            self.wf(),
            0 <= row_num < self@.len(),
            0 <= col_num < grid_width(self@),
        ensures
            r == spec_scenic_left(self@, row_num as int, col_num as int),
            r <= col_num,
    {
        let i = row_num as usize;
        let j = col_num as usize;
        let v = self.at(i, j);
        let mut count: u32 = 0;
        let mut k: i32 = col_num - 1;
        let mut blocked = false;
        while k >= 0 && !blocked
            invariant
                -1 <= k <= col_num - 1,
                !blocked ==> count == col_num - 1 - k,
                blocked ==> count == col_num - k && k >= 0,
                !blocked ==> ray_left(self@, v, i as int, col_num - 1) == count + ray_left(
                    self@,
                    v,
                    i as int,
                    k as int,
                ),
                blocked ==> ray_left(self@, v, i as int, col_num - 1) == count,
            decreases (if blocked {
                -1int
            } else {
                k as int
            }) + 1,
        {
            let val = self.at(i, k as usize);
            count = count + 1;
            if val >= v {
                blocked = true;
            } else {
                k = k - 1;
            }
        }
        count
    }

    /// The viewing distance looking right.
    pub fn scenic_right(&self, row_num: i32, col_num: i32) -> (r: u32)
        requires
            self.wf(),
            0 <= row_num < self@.len(),
            0 <= col_num < grid_width(self@),
        ensures
            r == spec_scenic_right(self@, row_num as int, col_num as int),
            r <= grid_width(self@) - 1 - col_num,
    {
        let i = row_num as usize;
        let j = col_num as usize;
        let v = self.at(i, j);
        let w = self.cells[0].len();
        proof {
            assert(self@[0] == self.cells@[0]@);
        }
        let mut count: u32 = 0;
        let mut k: usize = j + 1;
        let mut blocked = false;
        while k < w && !blocked
            invariant
                j + 1 <= k <= w == grid_width(self@),
                !blocked ==> count == k - j - 1,
                blocked ==> count == k - j && k < grid_width(self@),
                !blocked ==> ray_right(self@, v, i as int, j + 1) == count + ray_right(
                    self@,
                    v,
                    i as int,
                    k as int,
                ),
                blocked ==> ray_right(self@, v, i as int, j + 1) == count,
            decreases (if blocked {
                0int
            } else {
                grid_width(self@) - k + 1
            }),
        {
            let val = self.at(i, k);
            count = count + 1;
            if val >= v {
                blocked = true;
            } else {
                k = k + 1;
            }
        }
        count
    }

    /// The scenic score of a cell; an overflow error when the product
    /// leaves `u32`.
    pub fn scenic_score(&self, row_num: i32, col_num: i32) -> (r: Result<u32, SolveError>)
        requires
            self.wf(),
            0 <= row_num < self@.len(),
            0 <= col_num < grid_width(self@),
        ensures
            r == (if spec_scenic_score(self@, row_num as int, col_num as int) > u32::MAX {
                Err::<u32, SolveError>(SolveError::Overflow)
            } else {
                Ok::<u32, SolveError>(
                    spec_scenic_score(self@, row_num as int, col_num as int) as u32,
                )
            }),
            spec_scenic_score(self@, row_num as int, col_num as int) >= 0,
    {
        let a = self.scenic_up(row_num, col_num) as u64;
        let b = self.scenic_down(row_num, col_num) as u64;
        let c = self.scenic_left(row_num, col_num) as u64;
        let d = self.scenic_right(row_num, col_num) as u64;
        proof {
            assert(a * b < 0x100000000u64) by (nonlinear_arith)
                requires
                    a < 0x10000u64 && b < 0x10000u64,
            ;
            assert(a * b * c < 0x1000000000000u64) by (nonlinear_arith)
                requires
                    a * b < 0x100000000u64 && c < 0x10000u64,
            ;
            assert(a * b * c * d < 0x10000000000000000) by (nonlinear_arith)
                requires
                    a * b * c < 0x1000000000000u64 && d < 0x10000u64,
            ;
        }
        let p = a * b * c * d;
        if p > 0xffff_ffff {
            Err(SolveError::Overflow)
        } else {
            Ok(p as u32)
        }
    }
}

/// Parses the digit rectangle into a grid.
pub fn build_map(input: &str) -> (r: Result<Grid, SolveError>)
    ensures
        match (r, spec_build(spec_lines(input.spec_bytes()), 0, Seq::empty())) {
            (Ok(g), Ok(s)) => g@ == s && g.wf(),
            (Err(e), Err(e2)) => e == e2,
            _ => false,
        },
{
    let bytes = input.as_bytes_vec();
    let lines = split_lines(&bytes);
    let ghost lv = views(lines@);
    proof {
        assert(lv =~= spec_lines(bytes@));
    }
    let mut rows: Vec<Vec<u8>> = Vec::new();
    let mut i: usize = 0;
    proof {
        assert(views(rows@) =~= Seq::<Seq<u8>>::empty());
    }
    while i < lines.len()
        invariant
            i <= lines@.len(),
            lv == views(lines@),
            spec_build(lv, 0, Seq::empty()) == spec_build(lv, i as int, views(rows@)),
            grid_wf(views(rows@)),
        decreases lines@.len() - i,
    {
        let line = &lines[i];
        let mut row: Vec<u8> = Vec::new();
        let mut k: usize = 0;
        while k < line.len()
            invariant
                k <= line@.len(),
                all_digits(line@.take(k as int)),
                row@ == line@.take(k as int).map_values(|b: u8| (b - 48) as u8),
            decreases line@.len() - k,
        {
            let b = line[k];
            if b < 48 || b > 57 {
                proof {
                    assert(!all_digits(line@));
                }
                return Err(SolveError::Malformed);
            }
            row.push(b - 48);
            proof {
                assert(all_digits(line@.take(k + 1)));
                assert(row@ =~= line@.take(k + 1).map_values(|b: u8| (b - 48) as u8));
            }
            k = k + 1;
        }
        proof {
            assert(line@.take(line@.len() as int) =~= line@);
        }
        if rows.len() > 0 {
            proof {
                assert(views(rows@)[0] == rows@[0]@);
            }
            if line.len() != rows[0].len() {
                return Err(SolveError::Malformed);
            }
        } else {
            if line.len() > 65535 {
                return Err(SolveError::TooLarge);
            }
        }
        if rows.len() >= 65535 {
            return Err(SolveError::TooLarge);
        }
        let ghost prev = views(rows@);
        let ghost rv = row@;
        rows.push(row);
        proof {
            assert(views(rows@) =~= prev.push(rv));
            assert(rv =~= lv[i as int].map_values(|b: u8| (b - 48) as u8));
            let g = views(rows@);
            assert forall|m: int| 0 <= m < g.len() implies (#[trigger] g[m]).len()
                == g[0].len() by {
                if m < prev.len() {
                    assert(g[m] == prev[m]);
                }
                if prev.len() > 0 {
                    assert(g[0] == prev[0]);
                }
            }
            assert(grid_wf(views(rows@)));
        }
        i = i + 1;
    }
    Ok(Grid::new(rows))
}

/// How many cells of the grid are visible from at least one edge.
pub fn solve(input: &str) -> (r: Result<u32, SolveError>)
    ensures
        r == spec_solve(input.spec_bytes()),
{
    let map = match build_map(input) {
        Ok(m) => m,
        Err(e) => {
            return Err(e);
        },
    };
    let ghost g = map@;
    let h = map.height();
    let mut count: u32 = 0;
    let mut i: i32 = 0;
    while i < h
        invariant
            0 <= i <= h == g.len(),
            map.wf(),
            g == map@,
            count + count_from(g, i as int, 0) == count_from(g, 0, 0),
            count <= 65535 * (i as int),
        decreases h - i,
    {
        let w = map.width();
        let mut j: i32 = 0;
        while j < w
            invariant
                0 <= i < g.len(),
                0 <= j <= w == grid_width(g),
                h == g.len(),
                map.wf(),
                g == map@,
                count + count_from(g, i as int, j as int) == count_from(g, 0, 0),
                count <= 65535 * (i as int) + j,
            decreases w - j,
        {
            let vis = map.visible_up(i, j) || map.visible_down(i, j) || map.visible_left(i, j)
                || map.visible_right(i, j);
            if vis {
                count = count + 1;
            }
            j = j + 1;
        }
        i = i + 1;
    }
    Ok(count)
}

/// The maximum scenic score over all cells of the grid.
pub fn solve2(input: &str) -> (r: Result<u32, SolveError>)
    ensures
        r == spec_solve2(input.spec_bytes()),
{
    let map = match build_map(input) {
        Ok(m) => m,
        Err(e) => {
            return Err(e);
        },
    };
    let ghost g = map@;
    let h = map.height();
    let mut best: u32 = 0;
    let mut i: i32 = 0;
    while i < h
        invariant
            0 <= i <= h == g.len(),
            map.wf(),
            g == map@,
            best_from(g, 0, 0, 0) == best_from(g, i as int, 0, best),
        decreases h - i,
    {
        let w = map.width();
        let mut j: i32 = 0;
        while j < w
            invariant
                0 <= i < g.len(),
                0 <= j <= w == grid_width(g),
                h == g.len(),
                map.wf(),
                g == map@,
                best_from(g, 0, 0, 0) == best_from(g, i as int, j as int, best),
            decreases w - j,
        {
            match map.scenic_score(i, j) {
                Err(e) => {
                    return Err(e);
                },
                Ok(s) => {
                    if s > best {
                        best = s;
                    }
                },
            }
            j = j + 1;
        }
        i = i + 1;
    }
    Ok(best)
}

} // verus!
