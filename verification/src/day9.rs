//! Rope-knot chain simulation.
//!
//! A chain of knots starts collapsed at the origin.  Each input line
//! moves the head one of four ways a number of unit steps; after each
//! unit step every trailing knot is reconciled in order: a knot more
//! than one unit from its leader moves one unit toward it along each
//! axis that differs.  After each step the last knot's position is
//! recorded, and the answer is how many distinct positions it visited.

use vstd::prelude::*;
use vstd::string::StrSliceExecFns;
use vstd::string::StringSliceAdditionalSpecFns;

use crate::errors::SolveError;
use crate::text::parse_u32;
use crate::text::spec_lines;
use crate::text::spec_parse_u32;
use crate::text::spec_split2;
use crate::text::split2;
use crate::text::split_lines;
use crate::text::views;

verus! {

/// The largest coordinate magnitude, and so the largest total number
/// of unit steps, a run may use.
pub open spec fn coord_limit() -> int {
    0x3fffffff
}

/// The sign of `d`.
pub open spec fn sign(d: int) -> int {
    if d > 0 {
        1
    } else if d < 0 {
        -1
    } else {
        0
    }
}

/// The magnitude of `d`.
pub open spec fn iabs(d: int) -> int {
    if d < 0 {
        -d
    } else {
        d
    }
}

/// A knot position as a pair of mathematical integers.
pub open spec fn view2(p: (i32, i32)) -> (int, int) {
    (p.0 as int, p.1 as int)
}

/// The integer views of a vector of positions.
pub open spec fn pts(s: Seq<(i32, i32)>) -> Seq<(int, int)> {
    s.map_values(|p: (i32, i32)| view2(p))
}

/// Every coordinate is within `b` of the origin.
pub open spec fn bounded(s: Seq<(int, int)>, b: int) -> bool {
    forall|k: int| 0 <= k < s.len() ==> iabs((#[trigger] s[k]).0) <= b && iabs(s[k].1) <= b
}

/// Where a trailing knot at `t` ends up under a leader at `h`: if it
/// is more than one unit away on some axis, it moves one unit toward
/// the leader along each axis that differs.
pub open spec fn spec_reconcile(h: (int, int), t: (int, int)) -> (int, int) {
    let dx = h.0 - t.0;
    let dy = h.1 - t.1;
    if iabs(dx) > 1 {
        (
            t.0 + sign(dx),
            if dy != 0 {
                t.1 + sign(dy)
            } else {
                t.1
            },
        )
    } else if iabs(dy) > 1 {
        (
            if dx != 0 {
                t.0 + sign(dx)
            } else {
                t.0
            },
            t.1 + sign(dy),
        )
    } else {
        t
    }
}

/// The chain after one reconciliation pass: each knot, in order,
/// settles against its already-settled leader.
pub open spec fn settle(s: Seq<(int, int)>) -> Seq<(int, int)>
    decreases s.len(),
{
    if s.len() <= 1 {
        s
    } else {
        let front = settle(s.drop_last());
        front.push(spec_reconcile(front.last(), s.last()))
    }
}

pub proof fn lemma_settle_len(s: Seq<(int, int)>)
    ensures
        settle(s).len() == s.len(),
    decreases s.len(),
{
    if s.len() > 1 {
        lemma_settle_len(s.drop_last());
    }
}

/// Settling never drives a coordinate outside a bound that held of
/// the whole chain: a knot only moves toward its leader.
pub proof fn lemma_settle_bounded(s: Seq<(int, int)>, b: int)
    requires
        bounded(s, b),
    ensures
        settle(s).len() == s.len(),
        bounded(settle(s), b),
    decreases s.len(),
{
    lemma_settle_len(s);
    if s.len() > 1 {
        assert(bounded(s.drop_last(), b));
        lemma_settle_bounded(s.drop_last(), b);
        let front = settle(s.drop_last());
        let h = front.last();
        let t = s.last();
        assert(iabs(h.0) <= b && iabs(h.1) <= b);
        assert(iabs(t.0) <= b && iabs(t.1) <= b);
        let r = spec_reconcile(h, t);
        assert(iabs(r.0) <= b && iabs(r.1) <= b);
        assert forall|k: int|
            0 <= k < settle(s).len() implies iabs((#[trigger] settle(s)[k]).0) <= b && iabs(
            settle(s)[k].1,
        ) <= b by {
            if k < s.len() - 1 {
                assert(settle(s)[k] == front[k]);
            }
        }
    }
}

/// What one unit step records: the settled tail for a chain of at
/// least two knots, the origin otherwise.
pub open spec fn recorded(knots: Seq<(int, int)>) -> (int, int) {
    if knots.len() >= 2 {
        knots.last()
    } else {
        (0int, 0int)
    }
}

/// The chain and visited set after `n` unit steps of `(dx, dy)`.
pub open spec fn spec_steps(
    knots: Seq<(int, int)>,
    visited: Set<(int, int)>,
    dx: int,
    dy: int,
    n: nat,
) -> (Seq<(int, int)>, Set<(int, int)>)
    decreases n,
{
    if n == 0 {
        (knots, visited)
    } else {
        let moved = settle(knots.update(0, (knots[0].0 + dx, knots[0].1 + dy)));
        spec_steps(moved, visited.insert(recorded(moved)), dx, dy, (n - 1) as nat)
    }
}

/// Stepping keeps the chain's length, and grows its coordinate bound
/// by at most one per step.
pub proof fn lemma_spec_steps_bounded(
    knots: Seq<(int, int)>,
    visited: Set<(int, int)>,
    dx: int,
    dy: int,
    n: nat,
    b: int,
)
    requires
        knots.len() >= 1,
        bounded(knots, b),
        iabs(dx) <= 1,
        iabs(dy) <= 1,
    ensures
        spec_steps(knots, visited, dx, dy, n).0.len() == knots.len(),
        bounded(spec_steps(knots, visited, dx, dy, n).0, b + n),
    decreases n,
{
    if n > 0 {
        let up = knots.update(0, (knots[0].0 + dx, knots[0].1 + dy));
        assert(bounded(up, b + 1)) by {
            assert forall|k: int|
                0 <= k < up.len() implies iabs((#[trigger] up[k]).0) <= b + 1 && iabs(up[k].1) <= b
                + 1 by {
                if k != 0 {
                    assert(up[k] == knots[k]);
                }
            }
        }
        lemma_settle_bounded(up, b + 1);
        let moved = settle(up);
        lemma_spec_steps_bounded(moved, visited.insert(recorded(moved)), dx, dy, (n - 1) as nat, b + 1);
        assert(bounded(spec_steps(knots, visited, dx, dy, n).0, b + 1 + (n - 1)));
    }
}

/// Where a trailing knot ends up under its leader.
pub fn reconcile(head_pos: &(i32, i32), tail_pos: &(i32, i32)) -> (r: (i32, i32))
    requires
        iabs(head_pos.0 as int) <= coord_limit(),
        iabs(head_pos.1 as int) <= coord_limit(),
        iabs(tail_pos.0 as int) <= coord_limit(),
        iabs(tail_pos.1 as int) <= coord_limit(),
    ensures
        view2(r) == spec_reconcile(view2(*head_pos), view2(*tail_pos)),
{
    let delta_x = head_pos.0 - tail_pos.0;
    let delta_y = head_pos.1 - tail_pos.1;
    let mut nx = tail_pos.0;
    let mut ny = tail_pos.1;
    if delta_x > 1 || delta_x < -1 {
        nx = nx + (if delta_x > 0 {
            1
        } else {
            -1
        });
        if delta_y != 0 {
            ny = ny + (if delta_y > 0 {
                1
            } else {
                -1
            });
        }
    } else if delta_y > 1 || delta_y < -1 {
        ny = ny + (if delta_y > 0 {
            1
        } else {
            -1
        });
        if delta_x != 0 {
            nx = nx + (if delta_x > 0 {
                1
            } else {
                -1
            });
        }
    }
    (nx, ny)
}

/// The chain of knot positions.
pub struct Rope {
    knot_pos: Vec<(i32, i32)>,
}

impl View for Rope {
    type V = Seq<(int, int)>;

    closed spec fn view(&self) -> Seq<(int, int)> {
        pts(self.knot_pos@)
    }
}

impl Rope {
    /// A chain of `knot_count` knots collapsed at the origin.
    pub fn new(knot_count: u32) -> (r: Rope)
        requires
            knot_count >= 1,
        ensures
            r@ == Seq::new(knot_count as nat, |i: int| (0int, 0int)),
    {
        let mut knot_pos: Vec<(i32, i32)> = Vec::new();
        let mut k: u32 = 0;
        while k < knot_count
            invariant
                k <= knot_count,
                knot_pos@.len() == k,
                forall|m: int| 0 <= m < k ==> knot_pos@[m] == (0i32, 0i32),
            decreases knot_count - k,
        {
            knot_pos.push((0, 0));
            k = k + 1;
        }
        proof {
            assert(pts(knot_pos@) =~= Seq::new(knot_count as nat, |i: int| (0int, 0int)));
        }
        Rope { knot_pos }
    }

    /// One reconciliation pass down the chain; returns the position
    /// the pass last wrote (the origin for a single-knot chain).
    pub fn reconcile(&mut self) -> (r: (i32, i32))
        requires
            old(self)@.len() >= 1,
            bounded(old(self)@, coord_limit()),
        ensures
            final(self)@ == settle(old(self)@),
            view2(r) == recorded(settle(old(self)@)),
    {
        let ghost s0 = self@;
        proof {
            assert(s0.len() == self.knot_pos@.len());
            lemma_settle_len(s0);
        }
        let mut new_tail_pos: (i32, i32) = (0, 0);
        let n = self.knot_pos.len();
        let mut i: usize = 0;
        proof {
            assert(s0.take(1) =~= settle(s0.take(1)));
        }
        while i < n - 1
            invariant
                0 <= i <= n - 1,
                n == self.knot_pos@.len() == s0.len(),
                forall|k: int| 0 <= k <= i ==> view2(#[trigger] self.knot_pos@[k]) == settle(
                    s0.take(i + 1),
                )[k],
                forall|k: int| i < k < n ==> view2(#[trigger] self.knot_pos@[k]) == s0[k],
                bounded(settle(s0.take(i + 1)), coord_limit()),
                i == 0 ==> new_tail_pos == (0i32, 0i32),
                i > 0 ==> view2(new_tail_pos) == settle(s0.take(i + 1)).last(),
            decreases n - 1 - i,
    {
            proof {
                lemma_settle_len(s0.take(i + 1));
                assert(bounded(s0.take(i + 2), coord_limit()));
            }
            let head_pos = self.knot_pos[i];
            let tail_pos = self.knot_pos[i + 1];
            proof {
                assert(view2(head_pos) == settle(s0.take(i + 1))[i as int]);
                assert(view2(head_pos) == settle(s0.take(i + 1)).last());
                assert(view2(tail_pos) == s0[i + 1]);
            }
            let nt = reconcile(&head_pos, &tail_pos);
            self.knot_pos[i + 1] = nt;
            new_tail_pos = nt;
            proof {
                let front = settle(s0.take(i + 1));
                assert(s0.take(i + 2).drop_last() =~= s0.take(i + 1));
                assert(s0.take(i + 2).last() == s0[i + 1]);
                assert(settle(s0.take(i + 2)) == front.push(
                    spec_reconcile(front.last(), s0[i + 1]),
                ));
                lemma_settle_len(s0.take(i + 2));
                assert forall|k: int|
                    0 <= k <= i + 1 implies view2(#[trigger] self.knot_pos@[k]) == settle(
                    s0.take(i + 2),
                )[k] by {
                    if k <= i {
                        assert(settle(s0.take(i + 2))[k] == front[k]);
                    } else {
                        assert(settle(s0.take(i + 2))[k] == spec_reconcile(
                            front.last(),
                            s0[i + 1],
                        ));
                    }
                }
                lemma_settle_bounded(s0.take(i + 2), coord_limit());
            }
            i = i + 1;
        }
        proof {
            assert(s0.take(n as int) =~= s0);
            assert forall|k: int|
                0 <= k < self.knot_pos@.len() implies self@[k] == view2(
                #[trigger] self.knot_pos@[k],
            ) by {}
            assert(self@ =~= settle(s0));
            if n >= 2 {
                assert(view2(new_tail_pos) == settle(s0).last());
                assert(recorded(settle(s0)) == settle(s0).last());
            } else {
                assert(n == 1);
                assert(s0.len() == 1);
                assert(settle(s0) == s0);
                assert(recorded(settle(s0)) == (0int, 0int));
                assert(view2(new_tail_pos) == (0int, 0int));
            }
            assert(view2(new_tail_pos) == recorded(settle(s0)));
        }
        new_tail_pos
    }

    /// Moves the head one unit and reconciles; returns the recorded
    /// position.
    fn step(&mut self, dx: i32, dy: i32) -> (r: (i32, i32))
        requires
            old(self)@.len() >= 1,
            bounded(old(self)@, coord_limit() - 1),
            -1 <= dx <= 1,
            -1 <= dy <= 1,
        ensures
            final(self)@ == settle(
                old(self)@.update(0, (old(self)@[0].0 + dx, old(self)@[0].1 + dy)),
            ),
            view2(r) == recorded(final(self)@),
    {
        let ghost s0 = self@;
        let head_pos = self.knot_pos[0];
        proof {
            assert(view2(head_pos) == s0[0]);
            assert(iabs(s0[0].0) <= coord_limit() - 1 && iabs(s0[0].1) <= coord_limit() - 1);
        }
        let new_head: (i32, i32) = (head_pos.0 + dx, head_pos.1 + dy);
        self.knot_pos[0] = new_head;
        proof {
            let up = s0.update(0, (s0[0].0 + dx, s0[0].1 + dy));
            assert(self@ =~= up);
            assert forall|k: int|
                0 <= k < up.len() implies iabs((#[trigger] up[k]).0) <= coord_limit() && iabs(
                up[k].1,
            ) <= coord_limit() by {
                if k != 0 {
                    assert(up[k] == s0[k]);
                }
            }
        }
        self.reconcile()
    }

    /// One unit step in each cardinal direction.
    pub fn move_up(&mut self) -> (r: (i32, i32))
        requires
            old(self)@.len() >= 1,
            bounded(old(self)@, coord_limit() - 1),
        ensures
            final(self)@ == settle(old(self)@.update(0, (old(self)@[0].0, old(self)@[0].1 + 1))),
            view2(r) == recorded(final(self)@),
    {
        self.step(0, 1)
    }

    pub fn move_down(&mut self) -> (r: (i32, i32))
        requires
            old(self)@.len() >= 1,
            bounded(old(self)@, coord_limit() - 1),
        ensures
            final(self)@ == settle(old(self)@.update(0, (old(self)@[0].0, old(self)@[0].1 - 1))),
            view2(r) == recorded(final(self)@),
    {
        self.step(0, -1)
    }

    pub fn move_left(&mut self) -> (r: (i32, i32))
        requires
            old(self)@.len() >= 1,
            bounded(old(self)@, coord_limit() - 1),
        ensures
            final(self)@ == settle(old(self)@.update(0, (old(self)@[0].0 - 1, old(self)@[0].1))),
            view2(r) == recorded(final(self)@),
    {
        self.step(-1, 0)
    }

    pub fn move_right(&mut self) -> (r: (i32, i32))
        requires
            old(self)@.len() >= 1,
            bounded(old(self)@, coord_limit() - 1),
        ensures
            final(self)@ == settle(old(self)@.update(0, (old(self)@[0].0 + 1, old(self)@[0].1))),
            view2(r) == recorded(final(self)@),
    {
        self.step(1, 0)
    }
}

/// The chain together with the set of positions its tail has visited.
pub struct MapTracker {
    map: Rope,
    tail_pos_set: Vec<(i32, i32)>,
}

impl MapTracker {
    /// The chain's knot positions.
    pub closed spec fn knots(&self) -> Seq<(int, int)> {
        self.map@
    }

    /// The set of visited tail positions.
    pub closed spec fn visited(&self) -> Set<(int, int)> {
        pts(self.tail_pos_set@).to_set()
    }

    /// How many distinct positions have been recorded.
    pub closed spec fn visited_count(&self) -> nat {
        self.tail_pos_set@.len()
    }

    /// The record list never repeats a position.
    pub closed spec fn wf(&self) -> bool {
        pts(self.tail_pos_set@).no_duplicates()
    }

    /// A fresh tracker: a collapsed chain, the origin already visited.
    pub fn new(knot_count: u32) -> (r: MapTracker)
        requires
            knot_count >= 1,
        ensures
            r.wf(),
            r.knots() == Seq::new(knot_count as nat, |i: int| (0int, 0int)),
            r.visited() == Set::empty().insert((0int, 0int)),
            r.visited_count() == 1,
    {
        let mut tail_pos_set: Vec<(i32, i32)> = Vec::new();
        tail_pos_set.push((0, 0));
        let r = MapTracker { map: Rope::new(knot_count), tail_pos_set };
        proof {
            assert(r.tail_pos_set@.len() == 1);
            assert(r.tail_pos_set@[0] == (0i32, 0i32));
            assert forall|k: int|
                0 <= k < r.tail_pos_set@.len() implies pts(r.tail_pos_set@)[k] == view2(
                #[trigger] r.tail_pos_set@[k],
            ) by {}
            assert(pts(r.tail_pos_set@) =~= seq![(0int, 0int)]);
            assert(r.visited() =~= Set::empty().insert((0int, 0int)));
        }
        r
    }

    /// Records a visited position, once.
    fn record(&mut self, p: (i32, i32))
        requires
            old(self).wf(),
        ensures
            final(self).wf(),
            final(self).map == old(self).map,
            final(self).visited() == old(self).visited().insert(view2(p)),
            final(self).visited_count() <= old(self).visited_count() + 1,
    {
        let ghost ts0 = self.tail_pos_set@;
        let mut i: usize = 0;
        while i < self.tail_pos_set.len()
            invariant
                i <= ts0.len(),
                ts0 == self.tail_pos_set@,
                forall|k: int| 0 <= k < i ==> (#[trigger] ts0[k]) != p,
            decreases ts0.len() - i,
        {
            let q = self.tail_pos_set[i];
            if q.0 == p.0 && q.1 == p.1 {
                proof {
                    assert(pts(ts0)[i as int] == view2(p));
                    assert(pts(ts0).to_set().contains(view2(p)));
                    assert(self.visited() =~= self.visited().insert(view2(p)));
                }
                return ;
            }
            i = i + 1;
        }
        self.tail_pos_set.push(p);
        proof {
            assert(pts(self.tail_pos_set@) =~= pts(ts0).push(view2(p)));
            assert forall|k: int| 0 <= k < ts0.len() implies (#[trigger] pts(ts0)[k]) != view2(
                p,
            ) by {
                assert(ts0[k] != p);
            }
            assert(pts(ts0).push(view2(p)).no_duplicates());
            assert forall|q: (int, int)|
                pts(ts0).push(view2(p)).to_set().contains(q) <==> pts(ts0).to_set().insert(
                view2(p),
            ).contains(q) by {
                if pts(ts0).push(view2(p)).contains(q) {
                    let w = choose|w: int|
                        0 <= w < pts(ts0).push(view2(p)).len() && pts(ts0).push(view2(p))[w] == q;
                    if w < ts0.len() {
                        assert(pts(ts0)[w] == q);
                    }
                }
                if pts(ts0).contains(q) {
                    let w = choose|w: int| 0 <= w < pts(ts0).len() && pts(ts0)[w] == q;
                    assert(pts(ts0).push(view2(p))[w] == q);
                }
                if q == view2(p) {
                    assert(pts(ts0).push(view2(p)).last() == q);
                }
            }
            assert(pts(self.tail_pos_set@).to_set() =~= pts(ts0).to_set().insert(view2(p)));
        }
    }

    /// `num` unit steps of `(dx, dy)`, recording the tail after each.
    fn advance(&mut self, dx: i32, dy: i32, num: u32)
        requires
            old(self).wf(),
            old(self).knots().len() >= 1,
            -1 <= dx <= 1,
            -1 <= dy <= 1,
            bounded(old(self).knots(), coord_limit() - num),
        ensures
            final(self).wf(),
            (final(self).knots(), final(self).visited()) == spec_steps(
                old(self).knots(),
                old(self).visited(),
                dx as int,
                dy as int,
                num as nat,
            ),
            final(self).visited_count() <= old(self).visited_count() + num,
    {
        let mut k: u32 = 0;
        let ghost k0 = self.knots();
        let ghost v0 = self.visited();
        while k < num
            invariant
                k <= num,
                self.wf(),
                self.knots().len() == k0.len() >= 1,
                bounded(self.knots(), coord_limit() - num + k),
                spec_steps(k0, v0, dx as int, dy as int, num as nat) == spec_steps(
                    self.knots(),
                    self.visited(),
                    dx as int,
                    dy as int,
                    (num - k) as nat,
                ),
                self.visited_count() <= old(self).visited_count() + k,
                -1 <= dx <= 1,
                -1 <= dy <= 1,
            decreases num - k,
        {
            let ghost cur = self.knots();
            let t = self.map.step(dx, dy);
            proof {
                let up = cur.update(0, (cur[0].0 + dx, cur[0].1 + dy));
                assert(bounded(up, coord_limit() - num + k + 1)) by {
                    assert forall|m: int|
                        0 <= m < up.len() implies iabs((#[trigger] up[m]).0) <= coord_limit() - num
                        + k + 1 && iabs(up[m].1) <= coord_limit() - num + k + 1 by {
                        if m != 0 {
                            assert(up[m] == cur[m]);
                        }
                    }
                }
                lemma_settle_bounded(up, coord_limit() - num + k + 1);
            }
            self.record(t);
            k = k + 1;
        }
    }

    /// `num` unit steps in each cardinal direction.
    pub fn move_up(&mut self, num: u32)
        requires
            old(self).wf(),
            old(self).knots().len() >= 1,
            bounded(old(self).knots(), coord_limit() - num),
        ensures
            final(self).wf(),
            (final(self).knots(), final(self).visited()) == spec_steps(
                old(self).knots(),
                old(self).visited(),
                0,
                1,
                num as nat,
            ),
            final(self).visited_count() <= old(self).visited_count() + num,
    {
        self.advance(0, 1, num)
    }

    pub fn move_down(&mut self, num: u32)
        requires
            old(self).wf(),
            old(self).knots().len() >= 1,
            bounded(old(self).knots(), coord_limit() - num),
        ensures
            final(self).wf(),
            (final(self).knots(), final(self).visited()) == spec_steps(
                old(self).knots(),
                old(self).visited(),
                0,
                -1,
                num as nat,
            ),
            final(self).visited_count() <= old(self).visited_count() + num,
    {
        self.advance(0, -1, num)
    }

    pub fn move_left(&mut self, num: u32)
        requires
            old(self).wf(),
            old(self).knots().len() >= 1,
            bounded(old(self).knots(), coord_limit() - num),
        ensures
            final(self).wf(),
            (final(self).knots(), final(self).visited()) == spec_steps(
                old(self).knots(),
                old(self).visited(),
                -1,
                0,
                num as nat,
            ),
            final(self).visited_count() <= old(self).visited_count() + num,
    {
        self.advance(-1, 0, num)
    }

    pub fn move_right(&mut self, num: u32)
        requires
            old(self).wf(),
            old(self).knots().len() >= 1,
            bounded(old(self).knots(), coord_limit() - num),
        ensures
            final(self).wf(),
            (final(self).knots(), final(self).visited()) == spec_steps(
                old(self).knots(),
                old(self).visited(),
                1,
                0,
                num as nat,
            ),
            final(self).visited_count() <= old(self).visited_count() + num,
    {
        self.advance(1, 0, num)
    }

    /// How many distinct positions the tail has visited.
    pub fn count_visited(&self) -> (r: usize)
        requires
            self.wf(),
        ensures
            r == self.visited().len(),
            r == self.visited_count(),
    {
        proof {
            pts(self.tail_pos_set@).unique_seq_to_set();
        }
        self.tail_pos_set.len()
    }
}

/// The direction vector of a one-letter move token, if it is one.
pub open spec fn spec_dir(t: Seq<u8>) -> Option<(int, int)> {
    if t.len() != 1 {
        None
    } else if t[0] == 85 {  // U
        Some((0int, 1int))
    } else if t[0] == 68 {  // D
        Some((0int, -1int))
    } else if t[0] == 76 {  // L
        Some((-1int, 0int))
    } else if t[0] == 82 {  // R
        Some((1int, 0int))
    } else {
        None
    }
}

/// The visited set after replaying the move lines from `i` on, with
/// `steps` unit steps already spent against the budget.
pub open spec fn spec_run(
    lines: Seq<Seq<u8>>,
    i: int,
    knots: Seq<(int, int)>,
    visited: Set<(int, int)>,
    steps: int,
) -> Result<Set<(int, int)>, SolveError>
    decreases lines.len() - i,
    when 0 <= i <= lines.len()
{
    if i >= lines.len() {
        Ok(visited)
    } else {
        match spec_split2(lines[i], 32) {
            None => Err(SolveError::Malformed),
            Some(p) => match (spec_dir(p.0), spec_parse_u32(p.1)) {
                (Some(d), Some(num)) => if steps + num > coord_limit() {
                    Err(SolveError::TooManyMoves)
                } else {
                    let st = spec_steps(knots, visited, d.0, d.1, num as nat);
                    spec_run(lines, i + 1, st.0, st.1, steps + num)
                },
                _ => Err(SolveError::Malformed),
            },
        }
    }
}

/// The initial chain of `n` knots, all at the origin.
pub open spec fn origin_chain(n: nat) -> Seq<(int, int)> {
    Seq::new(n, |i: int| (0int, 0int))
}

/// The number of distinct tail positions for a chain of `n` knots.
pub open spec fn spec_count(input: Seq<u8>, n: nat) -> Result<u32, SolveError> {
    match spec_run(
        spec_lines(input),
        0,
        origin_chain(n),
        Set::empty().insert((0int, 0int)),
        0,
    ) {
        Err(e) => Err(e),
        Ok(v) => Ok(v.len() as u32),
    }
}

/// The distinct tail positions of a two-knot chain.
pub open spec fn spec_solve(input: Seq<u8>) -> Result<u32, SolveError> {
    spec_count(input, 2)
}

/// The distinct tail positions of a ten-knot chain.
pub open spec fn spec_solve2(input: Seq<u8>) -> Result<u32, SolveError> {
    spec_count(input, 10)
}

fn run_chain(lines: &Vec<Vec<u8>>, knot_count: u32) -> (r: Result<u32, SolveError>)
    requires
        knot_count >= 1,
    ensures
        match spec_run(
            views(lines@),
            0,
            origin_chain(knot_count as nat),
            Set::empty().insert((0int, 0int)),
            0,
        ) {
            Err(e) => r == Err::<u32, SolveError>(e),
            Ok(v) => r == Ok::<u32, SolveError>(v.len() as u32),
        },
{
    let ghost lv = views(lines@);
    let mut tracker = MapTracker::new(knot_count);
    let mut steps: u32 = 0;
    let mut i: usize = 0;
    proof {
        assert(tracker.knots() == origin_chain(knot_count as nat));
        assert(bounded(tracker.knots(), 0));
    }
    while i < lines.len()
        invariant
            i <= lines@.len(),
            lv == views(lines@),
            tracker.wf(),
            tracker.knots().len() == knot_count,
            knot_count >= 1,
            0 <= steps <= coord_limit(),
            bounded(tracker.knots(), steps as int),
            tracker.visited_count() <= 1 + steps,
            spec_run(
                lv,
                0,
                origin_chain(knot_count as nat),
                Set::empty().insert((0int, 0int)),
                0,
            ) == spec_run(lv, i as int, tracker.knots(), tracker.visited(), steps as int),
        decreases lines@.len() - i,
    {
        let parts = match split2(&lines[i], 32) {
            None => {
                return Err(SolveError::Malformed);
            },
            Some(p) => p,
        };
        let num = match parse_u32(&parts.1) {
            None => {
                return Err(SolveError::Malformed);
            },
            Some(v) => v,
        };
        if parts.0.len() != 1 {
            return Err(SolveError::Malformed);
        }
        let d = parts.0[0];
        if d != 85 && d != 68 && d != 76 && d != 82 {
            return Err(SolveError::Malformed);
        }
        let ghost dv: (int, int) = if d == 85 {
            (0int, 1int)
        } else if d == 68 {
            (0int, -1int)
        } else if d == 76 {
            (-1int, 0int)
        } else {
            (1int, 0int)
        };
        proof {
            assert(spec_dir(parts.0@) == Some(dv));
        }
        if num > 0x3fffffff - steps {
            return Err(SolveError::TooManyMoves);
        }
        let ghost cur_k = tracker.knots();
        let ghost cur_v = tracker.visited();
        proof {
            assert(bounded(cur_k, coord_limit() - num));
        }
        if d == 85 {
            tracker.move_up(num);
        } else if d == 68 {
            tracker.move_down(num);
        } else if d == 76 {
            tracker.move_left(num);
        } else {
            tracker.move_right(num);
        }
        proof {
            assert((tracker.knots(), tracker.visited()) == spec_steps(
                cur_k,
                cur_v,
                dv.0,
                dv.1,
                num as nat,
            ));
            lemma_spec_steps_bounded(cur_k, cur_v, dv.0, dv.1, num as nat, steps as int);
        }
        steps = steps + num;
        i = i + 1;
    }
    let n = tracker.count_visited();
    proof {
        assert(n <= 1 + steps);
    }
    Ok(n as u32)
}

/// Distinct positions visited by the tail of a two-knot chain.
pub fn solve(input: &str) -> (r: Result<u32, SolveError>)
    ensures
        r == spec_solve(input.spec_bytes()),
{
    let bytes = input.as_bytes_vec();
    let lines = split_lines(&bytes);
    proof {
        assert(views(lines@) =~= spec_lines(bytes@));
    }
    run_chain(&lines, 2)
}

/// Distinct positions visited by the tail of a ten-knot chain.
pub fn solve2(input: &str) -> (r: Result<u32, SolveError>)
    ensures
        r == spec_solve2(input.spec_bytes()),
{
    let bytes = input.as_bytes_vec();
    let lines = split_lines(&bytes);
    proof {
        assert(views(lines@) =~= spec_lines(bytes@));
    }
    run_chain(&lines, 10)
}

} // verus!
