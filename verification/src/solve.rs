//! The task solver: a per-turn coverage simulation with multi-robot
//! scheduling, booster pickup, and a breadth-first planner over the grid.
//!
//! The central invariants, kept by every step and visible in the
//! contracts: `remaining_pass` always equals the number of floor cells not
//! yet covered, every robot stands on a floor cell, manipulator offset
//! (0,0) is always present, and the number of robots is one more than the
//! number of Cloning commands carried out.

use vstd::prelude::*;

use crate::geom::{Direction, Move, Place, Point};
use crate::map::{cell_inside, col_odd};
use crate::models::{Booster, BoosterType, Command, Commands, Task};
use crate::rng::{random_usize, shuffle_vec};
use crate::utils::Matrix;

verus! {

/// The largest grid dimension the solver accepts; keeps every coordinate
/// computation comfortably inside `i32` and every cell count inside
/// `usize`.
pub const MAX_DIM: usize = 30000;

/// The turn budget; a task not covered within it is treated as unsolvable.
pub const MAX_TURNS: usize = 1000000000;

/// Number of cells among the first `n` that are floor and not yet covered.
pub open spec fn ucount(v: Seq<bool>, p: Seq<bool>, n: int) -> int
    decreases n,
{
    if n <= 0 {
        0
    } else {
        ucount(v, p, n - 1) + if v[n - 1] && !p[n - 1] {
            1int
        } else {
            0int
        }
    }
}

/// The uncovered count lies between 0 and `n`.
pub proof fn lemma_ucount_bounds(v: Seq<bool>, p: Seq<bool>, n: int)
    ensures
        0 <= ucount(v, p, n) <= if n >= 0 {
            n
        } else {
            0
        },
    decreases n,
{
    if n > 0 {
        lemma_ucount_bounds(v, p, n - 1);
    }
}

/// Marking one uncovered floor cell as covered lowers the count by one;
/// marking any other cell leaves it unchanged.
pub proof fn lemma_ucount_update(v: Seq<bool>, p: Seq<bool>, i: int, n: int)
    requires
        0 <= i < p.len(),
        n <= p.len(),
    ensures
        ucount(v, p.update(i, true), n) == ucount(v, p, n) - if i < n && v[i] && !p[i] {
            1int
        } else {
            0int
        },
    decreases n,
{
    if n > 0 {
        lemma_ucount_update(v, p, i, n - 1);
    }
}

/// A zero uncovered count means every floor cell is covered.
pub proof fn lemma_ucount_zero(v: Seq<bool>, p: Seq<bool>, n: int)
    requires
        ucount(v, p, n) == 0,
    ensures
        forall|i: int| 0 <= i < n && v[i] ==> p[i],
    decreases n,
{
    if n > 0 {
        lemma_ucount_bounds(v, p, n - 1);
        lemma_ucount_zero(v, p, n - 1);
    }
}

/// A manipulator offset the solver works with: small, and on one of the
/// eight rays from the origin, so that line-of-sight stepping is exact.
pub open spec fn offset_ok(p: Point) -> bool {
    &&& -100 <= p.x <= 100
    &&& -100 <= p.y <= 100
    &&& (p.x == 0 || p.y == 0 || p.x == p.y || p.x == -p.y)
}

/// Every move of the sequence, applied in order from `place`, lands on a
/// floor cell of `valid`.
pub open spec fn moves_ok(place: Place, ms: Seq<Move>, valid: Matrix<bool>) -> bool
    decreases ms.len(),
{
    if ms.len() == 0 {
        true
    } else {
        let np = place.spec_move_with(ms[0]);
        valid.spec_get(np.point) == Some(true) && moves_ok(np, ms.skip(1), valid)
    }
}

/// The command sequence consists of basic moves only, and they stay on
/// floor cells; this is the shape of a robot's planned buffer.
pub open spec fn cmds_moves_ok(place: Place, cmds: Seq<Command>, valid: Matrix<bool>) -> bool
    decreases cmds.len(),
{
    if cmds.len() == 0 {
        true
    } else {
        match cmds[0] {
            Command::Move(m) => {
                let np = place.spec_move_with(m);
                valid.spec_get(np.point) == Some(true) && cmds_moves_ok(np, cmds.skip(1), valid)
            },
            _ => false,
        }
    }
}

/// A valid move sequence wrapped into commands is a valid buffer.
pub proof fn lemma_moves_to_cmds(place: Place, ms: Seq<Move>, valid: Matrix<bool>)
    requires
        moves_ok(place, ms, valid),
    ensures
        cmds_moves_ok(place, ms.map_values(|m: Move| Command::Move(m)), valid),
    decreases ms.len(),
{
    let cs = ms.map_values(|m: Move| Command::Move(m));
    if ms.len() > 0 {
        let np = place.spec_move_with(ms[0]);
        lemma_moves_to_cmds(np, ms.skip(1), valid);
        assert(cs[0] == Command::Move(ms[0]));
        assert(cs.skip(1) =~= ms.skip(1).map_values(|m: Move| Command::Move(m)));
    }
}

/// The placement after applying a move sequence in order.
pub open spec fn moves_end(place: Place, ms: Seq<Move>) -> Place
    decreases ms.len(),
{
    if ms.len() == 0 {
        place
    } else {
        moves_end(place.spec_move_with(ms[0]), ms.skip(1))
    }
}

/// A floor-preserving move sequence splits at its last move: the prefix
/// is floor-preserving, its end steps to the full end, and the full end
/// is a floor cell.
pub proof fn lemma_moves_snoc(place: Place, ms: Seq<Move>, valid: Matrix<bool>)
    requires
        moves_ok(place, ms, valid),
        ms.len() > 0,
    ensures
        moves_ok(place, ms.drop_last(), valid),
        moves_end(place, ms) == moves_end(place, ms.drop_last()).spec_move_with(ms.last()),
        valid.spec_get(moves_end(place, ms).point) == Some(true),
    decreases ms.len(),
{
    let np = place.spec_move_with(ms[0]);
    if ms.len() == 1 {
        assert(ms.drop_last() =~= Seq::<Move>::empty());
        assert(ms.skip(1) =~= Seq::<Move>::empty());
        assert(moves_end(start_of(place), ms.drop_last()) == place);
        assert(moves_end(place, ms) == np);
    } else {
        lemma_moves_snoc(np, ms.skip(1), valid);
        assert(ms.skip(1).drop_last() =~= ms.drop_last().skip(1));
        assert(ms.drop_last()[0] == ms[0]);
        assert(ms.skip(1).last() == ms.last());
        assert(moves_end(place, ms) == moves_end(np, ms.skip(1)));
        assert(moves_end(place, ms.drop_last()) == moves_end(np, ms.drop_last().skip(1)));
    }
}

/// Identity helper keeping `place` nameable in the base case above.
pub open spec fn start_of(place: Place) -> Place {
    place
}

/// Every place the search visited is recorded in its queue, and the
/// queue's entries are closed under floor-preserving moves; then every
/// place reachable from the start by floor-preserving moves was visited.
proof fn lemma_reachable_visited(
    t: VisitTable,
    valid: Matrix<bool>,
    start: Place,
    q: Seq<Place>,
    ms: Seq<Move>,
)
    requires
        moves_ok(start, ms, valid),
        t.spec_entry(start) is Some,
        forall|p: Place| #[trigger] t.spec_entry(p) is Some ==> q.contains(p),
        forall|i: int, m: Move|
            0 <= i < q.len() && !(m is Noop) && valid.spec_get(
                (#[trigger] q[i].spec_move_with(m)).point,
            ) == Some(true) ==> t.spec_entry(q[i].spec_move_with(m)) is Some,
    ensures
        t.spec_entry(moves_end(start, ms)) is Some,
    decreases ms.len(),
{
    if ms.len() == 0 {
        assert(moves_end(start, ms) == start);
    } else {
        lemma_moves_snoc(start, ms, valid);
        lemma_reachable_visited(t, valid, start, q, ms.drop_last());
        let prev = moves_end(start, ms.drop_last());
        let m = ms.last();
        assert(q.contains(prev));
        let i = choose|i: int| 0 <= i < q.len() && q[i] == prev;
        if m is Noop {
            assert(prev.spec_move_with(Move::Noop) == prev);
        } else {
            assert(moves_end(start, ms) == q[i].spec_move_with(m));
        }
    }
}

/// One sweeping robot.
pub struct Robot {
    pub current_place: Place,
    pub bodies_diff: Vec<Point>,
    pub new_bodies: Vec<Point>,
    pub commands: Vec<Command>,
    pub executed: Vec<Command>,
    pub birth: Ghost<usize>,
}

/// The robot's positional and buffer well-formedness against the floor
/// grid, with the buffer read from index `cursor` on: it stands on a
/// floor cell, offset (0,0) leads its manipulator, all offsets are
/// ray-aligned and small, and the buffered commands are floor-preserving
/// moves.
pub open spec fn robot_core(r: Robot, valid: Matrix<bool>, cursor: int) -> bool {
    &&& valid.spec_get(r.current_place.point) == Some(true)
    &&& r.bodies_diff@.len() >= 1
    &&& r.bodies_diff@[0] == (Point { x: 0, y: 0 })
    &&& forall|i: int| 0 <= i < r.bodies_diff@.len() ==> offset_ok(#[trigger] r.bodies_diff@[i])
    &&& forall|i: int| 0 <= i < r.new_bodies@.len() ==> offset_ok(#[trigger] r.new_bodies@[i])
    &&& r.commands@.len() >= cursor >= 0
    &&& cmds_moves_ok(r.current_place, r.commands@.skip(cursor), valid)
}

/// Full robot well-formedness at turn `turn`: core shape, and the robot
/// has carried out exactly one command per turn since its birth.
pub open spec fn robot_ok(r: Robot, valid: Matrix<bool>, turn: int) -> bool {
    &&& robot_core(r, valid, turn)
    &&& r.birth@ <= turn
    &&& r.executed@.len() + r.birth@ == turn
}

/// Number of Cloning commands in a sequence.
pub open spec fn count_cloning(s: Seq<Command>) -> int
    decreases s.len(),
{
    if s.len() == 0 {
        0
    } else {
        count_cloning(s.drop_last()) + if s.last() is Cloning {
            1int
        } else {
            0int
        }
    }
}

/// Total Cloning commands carried out by the first `n` robots.
pub open spec fn total_cloning(rs: Seq<Robot>, n: int) -> int
    decreases n,
{
    if n <= 0 {
        0
    } else {
        total_cloning(rs, n - 1) + count_cloning(rs[n - 1].executed@)
    }
}

/// `total_cloning` reads only the first `n` robots.
proof fn lemma_total_cloning_prefix(rs: Seq<Robot>, rs2: Seq<Robot>, n: int)
    requires
        0 <= n <= rs.len(),
        n <= rs2.len(),
        forall|i: int| 0 <= i < n ==> rs[i].executed@ == (#[trigger] rs2[i]).executed@,
    ensures
        total_cloning(rs, n) == total_cloning(rs2, n),
    decreases n,
{
    if n > 0 {
        lemma_total_cloning_prefix(rs, rs2, n - 1);
    }
}

/// Robots beyond `n` with no executed commands add nothing to the total.
proof fn lemma_total_cloning_extend(rs: Seq<Robot>, n: int, m: int)
    requires
        0 <= n <= m <= rs.len(),
        forall|i: int| n <= i < m ==> (#[trigger] rs[i]).executed@.len() == 0,
    ensures
        total_cloning(rs, m) == total_cloning(rs, n),
    decreases m - n,
{
    if n < m {
        lemma_total_cloning_extend(rs, n, m - 1);
    }
}

/// The cell covered by manipulator offset `diff` at `place`: the current
/// point plus the offset rotated into the current frame.
pub open spec fn spec_hand_point(place: Place, diff: Point) -> Point {
    let (cx, cy) = place.dir.spec_convert(diff.x as int, diff.y as int);
    Point { x: (place.point.x + cx) as i32, y: (place.point.y + cy) as i32 }
}

/// The larger coordinate magnitude of an offset.
pub open spec fn spec_max_abs(diff: Point) -> int {
    let ax = if diff.x < 0 {
        -diff.x as int
    } else {
        diff.x as int
    };
    let ay = if diff.y < 0 {
        -diff.y as int
    } else {
        diff.y as int
    };
    if ax > ay {
        ax
    } else {
        ay
    }
}

/// An extended offset: it reaches further than the neighbouring cells.
pub open spec fn spec_extended(diff: Point) -> bool {
    spec_max_abs(diff) > 1
}

/// The `i`-th unit step along the ray of an extended offset.
pub open spec fn spec_ray_step(diff: Point, i: int) -> Point {
    Point {
        x: (if diff.x > 0 {
            i
        } else if diff.x < 0 {
            -i
        } else {
            0
        }) as i32,
        y: (if diff.y > 0 {
            i
        } else if diff.y < 0 {
            -i
        } else {
            0
        }) as i32,
    }
}

/// Every intermediate cell along the ray to the offset's tip is floor.
pub open spec fn spec_ray_clear(valid: Matrix<bool>, place: Place, diff: Point) -> bool {
    forall|i: int|
        1 <= i <= spec_max_abs(diff) ==> valid.spec_get(
            #[trigger] spec_hand_point(place, spec_ray_step(diff, i)),
        ) == Some(true)
}

/// What `hand_reach` reports: the covered cell of the offset, or None for
/// an extended offset whose line of sight is blocked.
pub open spec fn spec_hand_reach(valid: Matrix<bool>, place: Place, diff: Point) -> Option<Point> {
    if spec_extended(diff) && !spec_ray_clear(valid, place, diff) {
        None
    } else {
        Some(spec_hand_point(place, diff))
    }
}

/// True when offset `diff` reaches an uncovered floor cell from `place`.
pub open spec fn spec_reaches_unpassed(
    valid: Matrix<bool>,
    passed: Matrix<bool>,
    place: Place,
    diff: Point,
) -> bool {
    match spec_hand_reach(valid, place, diff) {
        Some(p) => passed.spec_get(p) == Some(false),
        None => false,
    }
}

/// True when one of the first `n` offsets reaches an uncovered floor cell.
pub open spec fn spec_any_unpassed(
    valid: Matrix<bool>,
    passed: Matrix<bool>,
    place: Place,
    bodies: Seq<Point>,
    n: int,
) -> bool
    decreases n,
{
    if n <= 0 {
        false
    } else {
        spec_any_unpassed(valid, passed, place, bodies, n - 1) || spec_reaches_unpassed(
            valid,
            passed,
            place,
            bodies[n - 1],
        )
    }
}

/// Number of the first `n` offsets that reach an uncovered floor cell.
pub open spec fn spec_count_pass(
    valid: Matrix<bool>,
    passed: Matrix<bool>,
    place: Place,
    bodies: Seq<Point>,
    n: int,
) -> int
    decreases n,
{
    if n <= 0 {
        0
    } else {
        spec_count_pass(valid, passed, place, bodies, n - 1) + if spec_reaches_unpassed(
            valid,
            passed,
            place,
            bodies[n - 1],
        ) {
            1int
        } else {
            0int
        }
    }
}

/// The lowest robot index whose queue of pre-chosen offsets is non-empty,
/// scanning from `i`; the robot count when there is none.
pub open spec fn spec_first_with_queue(rs: Seq<Robot>, i: int) -> int
    decreases rs.len() - i,
{
    if i < 0 || i >= rs.len() {
        rs.len() as int
    } else if rs[i].new_bodies@.len() > 0 {
        i
    } else {
        spec_first_with_queue(rs, i + 1)
    }
}

/// The planner's goal rules, first match wins: an uncollected Cloning
/// booster while any remain; a Spawn cell while a Cloning is held; a
/// NewHand booster for the first robot with queued offsets; else any
/// floor cell from which the robot covers an uncovered cell, or a NewHand
/// cell.
pub open spec fn spec_is_goal(s: State, robot_idx: int, goal: Place) -> bool {
    if s.remaining_clone > 0 {
        s.booster_map.spec_get(goal.point) == Some(Some(BoosterType::Cloning))
    } else if s.clone_count > 0 {
        s.booster_map.spec_get(goal.point) == Some(Some(BoosterType::Spawn))
    } else if s.remaining_hand > 0 && spec_first_with_queue(s.robots@, 0) < s.robots@.len()
        && robot_idx == spec_first_with_queue(s.robots@, 0) {
        s.booster_map.spec_get(goal.point) == Some(Some(BoosterType::NewHand))
    } else {
        &&& s.valid.spec_get(goal.point) == Some(true)
        &&& (spec_any_unpassed(
            s.valid,
            s.passed,
            goal,
            s.robots@[robot_idx].bodies_diff@,
            s.robots@[robot_idx].bodies_diff@.len() as int,
        ) || s.booster_map.spec_get(goal.point) == Some(Some(BoosterType::NewHand)))
    }
}

/// One solver run over one task attempt.
pub struct State {
    pub turn: usize,
    pub valid: Matrix<bool>,
    pub passed: Matrix<bool>,
    pub booster_map: Matrix<Option<BoosterType>>,
    pub remaining_hand: usize,
    pub remaining_clone: usize,
    pub remaining_pass: usize,
    pub hand_count: usize,
    pub tele_count: usize,
    pub clone_count: usize,
    pub robots: Vec<Robot>,
}

impl State {
    /// The three grids agree in size and the size is positive and small
    /// enough for all coordinate arithmetic.
    pub open spec fn grids_wf(self) -> bool {
        &&& self.valid.wf()
        &&& self.passed.wf()
        &&& self.booster_map.wf()
        &&& self.passed.spec_width() == self.valid.spec_width()
        &&& self.passed.spec_height() == self.valid.spec_height()
        &&& self.booster_map.spec_width() == self.valid.spec_width()
        &&& self.booster_map.spec_height() == self.valid.spec_height()
        &&& 1 <= self.valid.spec_width() <= MAX_DIM
        &&& 1 <= self.valid.spec_height() <= MAX_DIM
        &&& forall|i: int|
            0 <= i < self.valid.spec_width() * self.valid.spec_height() ==> (!(
            #[trigger] self.passed.spec_inner()[i]) ==> self.valid.spec_inner()[i])
    }

    /// Full state well-formedness: `remaining_pass` counts exactly the
    /// uncovered floor cells; there is at least one robot; every robot is
    /// well-formed at the current turn; robot 0 has been there from the
    /// start; and the robots number one more than the Cloning commands
    /// carried out.
    pub open spec fn wf(self) -> bool {
        &&& self.grids_wf()
        &&& self.turn <= MAX_TURNS
        &&& self.remaining_pass == ucount(
            self.valid.spec_inner(),
            self.passed.spec_inner(),
            self.valid.spec_width() * self.valid.spec_height(),
        )
        &&& self.robots@.len() >= 1
        &&& forall|i: int|
            0 <= i < self.robots@.len() ==> robot_ok(
                #[trigger] self.robots@[i],
                self.valid,
                self.turn as int,
            )
        &&& self.robots@[0].birth@ == 0
        &&& self.robots@.len() == 1 + total_cloning(self.robots@, self.robots@.len() as int)
    }

    /// The cell covered by manipulator offset `diff` at `place`, after
    /// checking line of sight: for an extended offset, every intermediate
    /// cell along the ray must be floor, else the tip is blocked.
    fn hand_reach(&self, place: Place, diff: Point) -> (r: Option<Point>)
        requires
            self.grids_wf(),
            self.valid.spec_get(place.point) == Some(true),
            offset_ok(diff),
        ensures
            r == spec_hand_reach(self.valid, place, diff),
    {
        let ax = if diff.x < 0 {
            -diff.x
        } else {
            diff.x
        };
        let ay = if diff.y < 0 {
            -diff.y
        } else {
            diff.y
        };
        proof {
            assert(spec_max_abs(diff) == if ax > ay {
                ax as int
            } else {
                ay as int
            });
        }
        if ax > 1 || ay > 1 {
            let d = if ax > ay {
                ax
            } else {
                ay
            };
            let ux: i32 = if diff.x > 0 {
                1
            } else if diff.x < 0 {
                -1
            } else {
                0
            };
            let uy: i32 = if diff.y > 0 {
                1
            } else if diff.y < 0 {
                -1
            } else {
                0
            };
            let mut i: i32 = 1;
            while i <= d
                invariant
                    1 <= i <= d + 1,
                    2 <= d <= 100,
                    d == spec_max_abs(diff),
                    offset_ok(diff),
                    ux == (if diff.x > 0 {
                        1int
                    } else if diff.x < 0 {
                        -1int
                    } else {
                        0int
                    }),
                    uy == (if diff.y > 0 {
                        1int
                    } else if diff.y < 0 {
                        -1int
                    } else {
                        0int
                    }),
                    self.grids_wf(),
                    self.valid.spec_get(place.point) == Some(true),
                    forall|k: int|
                        1 <= k < i ==> self.valid.spec_get(
                            #[trigger] spec_hand_point(place, spec_ray_step(diff, k)),
                        ) == Some(true),
                decreases d + 1 - i,
            {
                let sx: i32 = if ux > 0 {
                    i
                } else if ux < 0 {
                    -i
                } else {
                    0
                };
                let sy: i32 = if uy > 0 {
                    i
                } else if uy < 0 {
                    -i
                } else {
                    0
                };
                let step = Point { x: sx, y: sy };
                proof {
                    assert(self.valid.spec_in(place.point.x as int, place.point.y as int));
                    assert(step == spec_ray_step(diff, i as int));
                }
                let hand = place.hand(step);
                proof {
                    assert(hand == spec_hand_point(place, step));
                }
                let got = self.valid.get(hand);
                match got {
                    Some(true) => (),
                    _ => {
                        proof {
                            assert(got != Some(true));
                            assert(got == self.valid.spec_get(hand));
                            assert(hand == spec_hand_point(place, spec_ray_step(diff, i as int)));
                            assert(self.valid.spec_get(
                                spec_hand_point(place, spec_ray_step(diff, i as int)),
                            ) != Some(true));
                            assert(!spec_ray_clear(self.valid, place, diff));
                            assert(spec_extended(diff));
                        }
                        return None;
                    },
                }
                i += 1;
            }
            proof {
                assert(spec_ray_clear(self.valid, place, diff));
            }
        } else {
            proof {
                assert(!spec_extended(diff));
            }
        }
        let h = place.hand(diff);
        proof {
            assert(self.valid.spec_in(place.point.x as int, place.point.y as int));
            assert(h == spec_hand_point(place, diff));
        }
        Some(h)
    }

    /// Cover every floor cell the robot's manipulator reaches from its
    /// current place, and pick up a booster lying on its cell: exactly
    /// the line-of-sight manipulator endpoints turn covered, and the
    /// booster's cell is cleared with its counters moved, kind by kind.
    /// Keeps the uncovered count exact and leaves the floor grid and the
    /// robots themselves unchanged.
    #[verifier::loop_isolation(false)]
    pub fn pass_current_point(&mut self, robot_idx: usize)
        requires
            old(self).grids_wf(),
            old(self).remaining_pass == ucount(
                old(self).valid.spec_inner(),
                old(self).passed.spec_inner(),
                old(self).valid.spec_width() * old(self).valid.spec_height(),
            ),
            robot_idx < old(self).robots@.len(),
            robot_core(
                old(self).robots@[robot_idx as int],
                old(self).valid,
                old(self).turn as int,
            ),
        ensures
            final(self).grids_wf(),
            final(self).valid == old(self).valid,
            final(self).remaining_pass == ucount(
                final(self).valid.spec_inner(),
                final(self).passed.spec_inner(),
                final(self).valid.spec_width() * final(self).valid.spec_height(),
            ),
            final(self).robots == old(self).robots,
            final(self).turn == old(self).turn,
            ({
                let r0 = old(self).robots@[robot_idx as int];
                let pl = r0.current_place;
                forall|x: int, y: int|
                    final(self).passed.spec_in(x, y) ==> (#[trigger] final(self).passed.spec_at(
                        x,
                        y,
                    )) == (old(self).passed.spec_at(x, y) || exists|b: int|
                        0 <= b < r0.bodies_diff@.len() && #[trigger] spec_hand_reach(
                            old(self).valid,
                            pl,
                            r0.bodies_diff@[b],
                        ) == Some(Point { x: x as i32, y: y as i32 }))
            }),
            ({
                let pl = old(self).robots@[robot_idx as int].current_place;
                match old(self).booster_map.spec_get(pl.point) {
                    Some(Some(k)) => {
                        &&& (k == BoosterType::Spawn ==> final(self).booster_map == old(
                            self,
                        ).booster_map)
                        &&& (k != BoosterType::Spawn ==> final(self).booster_map.spec_get(pl.point)
                            == Some(None::<BoosterType>) && forall|x: int, y: int|
                            (final(self).booster_map.spec_in(x, y) && (x != pl.point.x as int || y
                                != pl.point.y as int)) ==> final(self).booster_map.spec_at(x, y)
                                == old(self).booster_map.spec_at(x, y))
                        &&& final(self).hand_count == (if k == BoosterType::NewHand && old(
                            self,
                        ).hand_count < usize::MAX {
                            old(self).hand_count + 1
                        } else {
                            old(self).hand_count as int
                        })
                        &&& final(self).remaining_hand == (if k == BoosterType::NewHand && old(
                            self,
                        ).remaining_hand > 0 {
                            old(self).remaining_hand - 1
                        } else {
                            old(self).remaining_hand as int
                        })
                        &&& final(self).tele_count == (if k == BoosterType::Teleports && old(
                            self,
                        ).tele_count < usize::MAX {
                            old(self).tele_count + 1
                        } else {
                            old(self).tele_count as int
                        })
                        &&& final(self).clone_count == (if k == BoosterType::Cloning && old(
                            self,
                        ).clone_count < usize::MAX {
                            old(self).clone_count + 1
                        } else {
                            old(self).clone_count as int
                        })
                        &&& final(self).remaining_clone == (if k == BoosterType::Cloning && old(
                            self,
                        ).remaining_clone > 0 {
                            old(self).remaining_clone - 1
                        } else {
                            old(self).remaining_clone as int
                        })
                    },
                    _ => {
                        &&& final(self).booster_map == old(self).booster_map
                        &&& final(self).hand_count == old(self).hand_count
                        &&& final(self).remaining_hand == old(self).remaining_hand
                        &&& final(self).tele_count == old(self).tele_count
                        &&& final(self).clone_count == old(self).clone_count
                        &&& final(self).remaining_clone == old(self).remaining_clone
                    },
                }
            }),
    {
        let ghost w = self.valid.spec_width();
        let ghost h = self.valid.spec_height();
        let ghost bodies = self.robots@[robot_idx as int].bodies_diff@;
        let ghost pl = self.robots@[robot_idx as int].current_place;
        let nb = self.robots[robot_idx].bodies_diff.len();
        let mut bi: usize = 0;
        while bi < nb
            invariant
                bi <= nb,
                nb == bodies.len(),
                bodies == self.robots@[robot_idx as int].bodies_diff@,
                pl == self.robots@[robot_idx as int].current_place,
                self.grids_wf(),
                self.valid == old(self).valid,
                self.passed.spec_width() == w,
                self.passed.spec_height() == h,
                self.remaining_pass == ucount(
                    self.valid.spec_inner(),
                    self.passed.spec_inner(),
                    w * h,
                ),
                forall|x: int, y: int|
                    self.passed.spec_in(x, y) ==> (#[trigger] self.passed.spec_at(x, y)) == (old(
                        self,
                    ).passed.spec_at(x, y) || exists|b: int|
                        0 <= b < bi && #[trigger] spec_hand_reach(old(self).valid, pl, bodies[b])
                            == Some(Point { x: x as i32, y: y as i32 })),
                self.robots == old(self).robots,
                self.turn == old(self).turn,
                self.booster_map == old(self).booster_map,
                self.clone_count == old(self).clone_count,
                self.hand_count == old(self).hand_count,
                self.tele_count == old(self).tele_count,
                self.remaining_hand == old(self).remaining_hand,
                self.remaining_clone == old(self).remaining_clone,
            decreases nb - bi,
        {
            let diff = self.robots[robot_idx].bodies_diff[bi];
            let place = self.robots[robot_idx].current_place;
            let ghost pre_passed = self.passed;
            let reach = self.hand_reach(place, diff);
            match reach {
                None => (),
                Some(b) => {
                    match self.passed.get(b) {
                        Some(false) => {
                            let ghost oldp = self.passed.spec_inner();
                            let ghost idx = (b.y as int) * w + (b.x as int);
                            proof {
                                self.passed.lemma_index(b.x as int, b.y as int);
                                lemma_ucount_update(self.valid.spec_inner(), oldp, idx, w * h);
                                lemma_ucount_bounds(
                                    self.valid.spec_inner(),
                                    oldp.update(idx, true),
                                    w * h,
                                );
                                assert(self.valid.spec_inner()[idx] && !oldp[idx]);
                                assert(self.remaining_pass >= 1);
                            }
                            self.passed.set(b, true);
                            self.remaining_pass = self.remaining_pass - 1;
                        },
                        _ => (),
                    }
                },
            }
            proof {
                assert forall|x: int, y: int|
                    self.passed.spec_in(x, y) implies (#[trigger] self.passed.spec_at(x, y)) == (
                old(self).passed.spec_at(x, y) || exists|b: int|
                    0 <= b < bi + 1 && #[trigger] spec_hand_reach(old(self).valid, pl, bodies[b])
                        == Some(Point { x: x as i32, y: y as i32 })) by {
                    let pt = Point { x: x as i32, y: y as i32 };
                    if spec_hand_reach(old(self).valid, pl, bodies[bi as int]) == Some(pt) {
                        match reach {
                            Some(b) => {
                                assert(b == pt);
                                assert(self.passed.spec_at(x, y) == true);
                            },
                            None => {
                                assert(false);
                            },
                        }
                    } else {
                        assert(self.passed.spec_at(x, y) == pre_passed.spec_at(x, y)) by {
                            match reach {
                                Some(b) => {
                                    if b.x == x && b.y == y {
                                        assert(spec_hand_reach(
                                            old(self).valid,
                                            pl,
                                            bodies[bi as int],
                                        ) == Some(pt));
                                    }
                                },
                                None => (),
                            }
                        }
                        assert forall|b: int|
                            0 <= b < bi + 1 && #[trigger] spec_hand_reach(
                                old(self).valid,
                                pl,
                                bodies[b],
                            ) == Some(pt) implies b < bi by {}
                    }
                }
            }
            bi += 1;
        }
        proof {
            assert forall|x: int, y: int|
                self.passed.spec_in(x, y) implies (#[trigger] self.passed.spec_at(x, y)) == (old(
                self,
            ).passed.spec_at(x, y) || exists|b: int|
                0 <= b < bodies.len() && #[trigger] spec_hand_reach(old(self).valid, pl, bodies[b])
                    == Some(Point { x: x as i32, y: y as i32 })) by {}
        }
        let current_point = self.robots[robot_idx].current_place.point();
        match self.booster_map.get(current_point) {
            Some(Some(kind)) => {
                match kind {
                    BoosterType::NewHand => {
                        if self.remaining_hand > 0 {
                            self.remaining_hand = self.remaining_hand - 1;
                        }
                        if self.hand_count < usize::MAX {
                            self.hand_count = self.hand_count + 1;
                        }
                        self.booster_map.set(current_point, None);
                    },
                    BoosterType::Teleports => {
                        if self.tele_count < usize::MAX {
                            self.tele_count = self.tele_count + 1;
                        }
                        self.booster_map.set(current_point, None);
                    },
                    BoosterType::Drill => {
                        self.booster_map.set(current_point, None);
                    },
                    BoosterType::Cloning => {
                        if self.remaining_clone > 0 {
                            self.remaining_clone = self.remaining_clone - 1;
                        }
                        if self.clone_count < usize::MAX {
                            self.clone_count = self.clone_count + 1;
                        }
                        self.booster_map.set(current_point, None);
                    },
                    BoosterType::Spawn => (),
                    BoosterType::FastMove => {
                        self.booster_map.set(current_point, None);
                    },
                }
            },
            _ => (),
        }
    }
}



/// The facing a move was made from: undoes the turn of `m`.
pub open spec fn spec_dir_unmove(d: Direction, m: Move) -> Direction {
    match m {
        Move::TurnLeft => d.spec_turn_right(),
        Move::TurnRight => d.spec_turn_left(),
        _ => d,
    }
}

/// The placement a move was made from.
pub open spec fn spec_unmove(p: Place, m: Move) -> Place {
    Place {
        point: Point {
            x: (p.point.x - Point::spec_move_delta(m).0) as i32,
            y: (p.point.y - Point::spec_move_delta(m).1) as i32,
        },
        dir: spec_dir_unmove(p.dir, m),
    }
}

/// Number of filled entries among the first `n`.
pub open spec fn count_some(s: Seq<Option<(Move, usize)>>, n: int) -> int
    decreases n,
{
    if n <= 0 {
        0
    } else {
        count_some(s, n - 1) + if s[n - 1] is Some {
            1int
        } else {
            0int
        }
    }
}

/// The filled count lies between 0 and `n`.
proof fn lemma_count_some_bounds(s: Seq<Option<(Move, usize)>>, n: int)
    ensures
        0 <= count_some(s, n) <= if n >= 0 {
            n
        } else {
            0
        },
    decreases n,
{
    if n > 0 {
        lemma_count_some_bounds(s, n - 1);
    }
}

/// Filling an empty entry raises the filled count by one.
proof fn lemma_count_some_update(s: Seq<Option<(Move, usize)>>, i: int, v: (Move, usize), n: int)
    requires
        0 <= i < s.len(),
        n <= s.len(),
        s[i] is None,
    ensures
        count_some(s.update(i, Some(v)), n) == count_some(s, n) + if i < n {
            1int
        } else {
            0int
        },
    decreases n,
{
    if n > 0 {
        lemma_count_some_update(s, i, v, n - 1);
    }
}

/// The planner's visit table: one grid of parent entries per facing. An
/// entry (m, c) at a place means the search reached it by move `m` at
/// breadth-first cost `c`.
pub struct VisitTable {
    pub right: Matrix<Option<(Move, usize)>>,
    pub up: Matrix<Option<(Move, usize)>>,
    pub left: Matrix<Option<(Move, usize)>>,
    pub down: Matrix<Option<(Move, usize)>>,
}

impl VisitTable {
    /// The grid holding entries for facing `d`.
    pub open spec fn spec_grid(self, d: Direction) -> Matrix<Option<(Move, usize)>> {
        match d {
            Direction::Right => self.right,
            Direction::Up => self.up,
            Direction::Left => self.left,
            Direction::Down => self.down,
        }
    }

    /// All four grids are of the floor grid's size.
    pub open spec fn wf(self, valid: Matrix<bool>) -> bool {
        &&& self.right.wf() && self.right.spec_width() == valid.spec_width()
            && self.right.spec_height() == valid.spec_height()
        &&& self.up.wf() && self.up.spec_width() == valid.spec_width()
            && self.up.spec_height() == valid.spec_height()
        &&& self.left.wf() && self.left.spec_width() == valid.spec_width()
            && self.left.spec_height() == valid.spec_height()
        &&& self.down.wf() && self.down.spec_width() == valid.spec_width()
            && self.down.spec_height() == valid.spec_height()
    }

    /// The entry stored for a place, None outside the grid.
    pub open spec fn spec_entry(self, p: Place) -> Option<(Move, usize)> {
        match self.spec_grid(p.dir).spec_get(p.point) {
            Some(e) => e,
            None => None,
        }
    }

    /// Total number of filled entries.
    pub open spec fn spec_filled(self, valid: Matrix<bool>) -> int {
        let n = valid.spec_width() * valid.spec_height();
        count_some(self.right.spec_inner(), n) + count_some(self.up.spec_inner(), n) + count_some(
            self.left.spec_inner(),
            n,
        ) + count_some(self.down.spec_inner(), n)
    }

    fn new(valid: &Matrix<bool>) -> (r: VisitTable)
        requires
            valid.wf(),
            valid.spec_width() * valid.spec_height() <= usize::MAX,
        ensures
            r.wf(*valid),
            forall|p: Place| #[trigger] r.spec_entry(p) is None,
            r.spec_filled(*valid) == 0,
    {
        let w = valid.width();
        let h = valid.height();
        let r = VisitTable {
            right: Matrix::new(w, h, None),
            up: Matrix::new(w, h, None),
            left: Matrix::new(w, h, None),
            down: Matrix::new(w, h, None),
        };
        proof {
            let n = valid.spec_width() * valid.spec_height();
            lemma_count_all_none(r.right.spec_inner(), n);
            lemma_count_all_none(r.up.spec_inner(), n);
            lemma_count_all_none(r.left.spec_inner(), n);
            lemma_count_all_none(r.down.spec_inner(), n);
            assert forall|p: Place| #[trigger] r.spec_entry(p) is None by {
                let g = r.spec_grid(p.dir);
                if g.spec_in(p.point.x as int, p.point.y as int) {
                    g.lemma_index(p.point.x as int, p.point.y as int);
                    assert(g.spec_at(p.point.x as int, p.point.y as int) is None);
                }
            }
        }
        r
    }

    /// Look up the entry for `p`; None for a never-visited place.
    fn get(&self, valid: &Matrix<bool>, p: Place) -> (r: Option<(Move, usize)>)
        requires
            self.wf(*valid),
        ensures
            r == self.spec_entry(p),
    {
        let g = match p.dir() {
            Direction::Right => &self.right,
            Direction::Up => &self.up,
            Direction::Left => &self.left,
            Direction::Down => &self.down,
        };
        match g.get(p.point()) {
            Some(e) => e,
            None => None,
        }
    }

    /// Fill the empty entry of an in-grid place.
    fn set(&mut self, valid: &Matrix<bool>, p: Place, v: (Move, usize))
        requires
            old(self).wf(*valid),
            old(self).spec_entry(p) is None,
            valid.spec_in(p.point.x as int, p.point.y as int),
        ensures
            final(self).wf(*valid),
            final(self).spec_entry(p) == Some(v),
            forall|q: Place| q != p ==> final(self).spec_entry(q) == old(self).spec_entry(q),
            final(self).spec_filled(*valid) == old(self).spec_filled(*valid) + 1,
    {
        let ghost n = valid.spec_width() * valid.spec_height();
        let ghost idx = (p.point.y as int) * valid.spec_width() + (p.point.x as int);
        proof {
            old(self).spec_grid(p.dir).lemma_index(p.point.x as int, p.point.y as int);
            lemma_count_some_update(old(self).spec_grid(p.dir).spec_inner(), idx, v, n);
        }
        match p.dir() {
            Direction::Right => self.right.set(p.point(), Some(v)),
            Direction::Up => self.up.set(p.point(), Some(v)),
            Direction::Left => self.left.set(p.point(), Some(v)),
            Direction::Down => self.down.set(p.point(), Some(v)),
        }
        proof {
            assert forall|q: Place| q != p implies final(self).spec_entry(q) == old(
                self,
            ).spec_entry(q) by {
                let g0 = old(self).spec_grid(q.dir);
                let g1 = self.spec_grid(q.dir);
                if q.dir == p.dir {
                    if g1.spec_in(q.point.x as int, q.point.y as int) {
                        g0.lemma_index(q.point.x as int, q.point.y as int);
                        g0.lemma_index(p.point.x as int, p.point.y as int);
                    }
                }
            }
        }
    }
}

/// An all-empty grid counts zero filled entries.
proof fn lemma_count_all_none(s: Seq<Option<(Move, usize)>>, n: int)
    requires
        forall|i: int| 0 <= i < s.len() ==> (#[trigger] s[i]) is None,
        n <= s.len(),
    ensures
        count_some(s, n) == 0,
    decreases n,
{
    if n > 0 {
        lemma_count_all_none(s, n - 1);
    }
}

/// A filled entry of the visit table points back along a floor-preserving
/// move to a filled entry one cost lower; the start costs zero.
pub open spec fn entry_ok(t: VisitTable, valid: Matrix<bool>, start: Place, p: Place) -> bool {
    match t.spec_entry(p) {
        None => true,
        Some((m, c)) => {
            &&& valid.spec_get(p.point) == Some(true)
            &&& (p == start ==> c == 0)
            &&& (p != start ==> {
                let q = spec_unmove(p, m);
                &&& c >= 1
                &&& valid.spec_get(q.point) == Some(true)
                &&& q.point.can_move(m)
                &&& q.spec_move_with(m) == p
                &&& (match t.spec_entry(q) {
                    Some((m2, c2)) => c2 == c - 1,
                    None => false,
                })
            })
        },
    }
}

/// All entries are well-linked.
pub open spec fn entries_ok(t: VisitTable, valid: Matrix<bool>, start: Place) -> bool {
    forall|p: Place| #[trigger] entry_ok(t, valid, start, p)
}

/// All filled entries cost at most `b`.
pub open spec fn costs_le(t: VisitTable, b: int) -> bool {
    forall|p: Place|
        match #[trigger] t.spec_entry(p) {
            Some((m, c)) => c <= b,
            None => true,
        }
}

/// The cost of a filled entry, for termination of path reconstruction.
pub open spec fn entry_cost(t: VisitTable, p: Place) -> int {
    match t.spec_entry(p) {
        Some((m, c)) => c as int,
        None => 0,
    }
}

/// Queue entries are recorded in non-decreasing cost order, and while the
/// queue is not drained no entry costs more than one above the frontier.
pub open spec fn costs_sorted(t: VisitTable, q: Seq<Place>, head: int) -> bool {
    &&& forall|i: int, j: int|
        0 <= i <= j < q.len() ==> entry_cost(t, #[trigger] q[i]) <= entry_cost(t, #[trigger] q[j])
    &&& (head < q.len() ==> entry_cost(t, q[q.len() - 1]) <= entry_cost(t, q[head]) + 1)
}

/// The first `h0` queue entries were popped without finding a goal, and
/// each of their floor neighbours is recorded at most one cost above them.
pub open spec fn closed_prefix(
    s: State,
    robot_idx: int,
    t: VisitTable,
    q: Seq<Place>,
    h0: int,
) -> bool {
    &&& forall|i: int| 0 <= i < h0 ==> !spec_is_goal(s, robot_idx, #[trigger] q[i])
    &&& forall|i: int, m: Move|
        0 <= i < h0 && !(m is Noop) && s.valid.spec_get(
            (#[trigger] q[i].spec_move_with(m)).point,
        ) == Some(true) ==> (t.spec_entry(q[i].spec_move_with(m)) is Some && entry_cost(
            t,
            q[i].spec_move_with(m),
        ) <= entry_cost(t, q[i]) + 1)
}

/// Any floor-preserving path shorter than the search's frontier cost ends
/// at a visited place whose recorded cost is at most the path's length:
/// entries below the frontier are fully expanded.
proof fn lemma_short_paths_visited(
    t: VisitTable,
    valid: Matrix<bool>,
    start: Place,
    q: Seq<Place>,
    h0: int,
    c: int,
    ms: Seq<Move>,
)
    requires
        moves_ok(start, ms, valid),
        ms.len() < c,
        t.spec_entry(start) is Some,
        entry_cost(t, start) == 0,
        forall|p: Place| #[trigger] t.spec_entry(p) is Some ==> q.contains(p),
        forall|i: int, j: int|
            0 <= i <= j < q.len() ==> entry_cost(t, #[trigger] q[i]) <= entry_cost(
                t,
                #[trigger] q[j],
            ),
        0 <= h0 < q.len(),
        entry_cost(t, q[h0]) == c,
        forall|i: int, m: Move|
            0 <= i < h0 && !(m is Noop) && valid.spec_get(
                (#[trigger] q[i].spec_move_with(m)).point,
            ) == Some(true) ==> (t.spec_entry(q[i].spec_move_with(m)) is Some && entry_cost(
                t,
                q[i].spec_move_with(m),
            ) <= entry_cost(t, q[i]) + 1),
    ensures
        t.spec_entry(moves_end(start, ms)) is Some,
        entry_cost(t, moves_end(start, ms)) <= ms.len(),
    decreases ms.len(),
{
    if ms.len() == 0 {
        assert(moves_end(start, ms) == start);
    } else {
        lemma_moves_snoc(start, ms, valid);
        lemma_short_paths_visited(t, valid, start, q, h0, c, ms.drop_last());
        let prev = moves_end(start, ms.drop_last());
        let m = ms.last();
        assert(q.contains(prev));
        let j = choose|j: int| 0 <= j < q.len() && q[j] == prev;
        assert(j < h0) by {
            if j >= h0 {
                assert(entry_cost(t, q[h0]) <= entry_cost(t, q[j]));
            }
        }
        if m is Noop {
            assert(prev.spec_move_with(Move::Noop) == prev);
        } else {
            assert(moves_end(start, ms) == q[j].spec_move_with(m));
        }
    }
}

/// When the search drained its queue without ever popping a goal, no
/// floor-preserving path reaches one: every reachable place was visited
/// and inspected.
proof fn lemma_no_goal_anywhere(
    s: State,
    robot_idx: int,
    t: VisitTable,
    start: Place,
    q: Seq<Place>,
)
    requires
        t.spec_entry(start) is Some,
        forall|p: Place| #[trigger] t.spec_entry(p) is Some ==> q.contains(p),
        closed_prefix(s, robot_idx, t, q, q.len() as int),
    ensures
        forall|ms: Seq<Move>|
            moves_ok(start, ms, s.valid) ==> !spec_is_goal(
                s,
                robot_idx,
                #[trigger] moves_end(start, ms),
            ),
{
    assert forall|ms: Seq<Move>|
        moves_ok(start, ms, s.valid) implies !spec_is_goal(
        s,
        robot_idx,
        #[trigger] moves_end(start, ms),
    ) by {
        lemma_reachable_visited(t, s.valid, start, q, ms);
        let e = moves_end(start, ms);
        assert(q.contains(e));
        let i = choose|i: int| 0 <= i < q.len() && q[i] == e;
        assert(!spec_is_goal(s, robot_idx, q[i]));
    }
}

/// When the search has drained its queue with a chosen goal of cost
/// `gcost`, no floor-preserving path of fewer moves reaches any goal: a
/// shorter path would end below the frontier, at a place popped and found
/// not to be a goal.
proof fn lemma_goal_minimal(
    s: State,
    robot_idx: int,
    t: VisitTable,
    start: Place,
    q: Seq<Place>,
    h0: int,
    gcost: int,
)
    requires
        t.spec_entry(start) is Some,
        entry_cost(t, start) == 0,
        forall|p: Place| #[trigger] t.spec_entry(p) is Some ==> q.contains(p),
        costs_sorted(t, q, q.len() as int),
        0 <= h0 < q.len(),
        entry_cost(t, q[h0]) == gcost,
        closed_prefix(s, robot_idx, t, q, h0),
    ensures
        forall|ms2: Seq<Move>|
            moves_ok(start, ms2, s.valid) && spec_is_goal(
                s,
                robot_idx,
                #[trigger] moves_end(start, ms2),
            ) ==> ms2.len() >= gcost,
{
    assert forall|ms2: Seq<Move>|
        moves_ok(start, ms2, s.valid) && spec_is_goal(
            s,
            robot_idx,
            #[trigger] moves_end(start, ms2),
        ) implies ms2.len() >= gcost by {
        if ms2.len() < gcost {
            lemma_short_paths_visited(t, s.valid, start, q, h0, gcost, ms2);
            let e = moves_end(start, ms2);
            assert(q.contains(e));
            let j = choose|j: int| 0 <= j < q.len() && q[j] == e;
            assert(entry_cost(t, q[j]) <= ms2.len());
            assert(j < h0) by {
                if j >= h0 {
                    assert(entry_cost(t, q[h0]) <= entry_cost(t, q[j]));
                }
            }
            assert(!spec_is_goal(s, robot_idx, q[j]));
        }
    }
}

impl State {
    /// Whether `goal` is a target for the robot, by the first matching
    /// rule: an uncollected Cloning booster while any remain; a Spawn cell
    /// while a Cloning is held; a NewHand booster for the first robot that
    /// still has queued offsets; else any floor cell from which the robot
    /// covers an uncovered cell, or a NewHand cell.
    fn is_goal(&self, robot_idx: usize, goal: Place) -> (r: bool)
        requires
            self.grids_wf(),
            robot_idx < self.robots@.len(),
            forall|i: int|
                0 <= i < self.robots@[robot_idx as int].bodies_diff@.len() ==> offset_ok(
                    #[trigger] self.robots@[robot_idx as int].bodies_diff@[i],
                ),
        ensures
            r == spec_is_goal(*self, robot_idx as int, goal),
    {
        if self.remaining_clone > 0 {
            return match self.booster_map.get(goal.point()) {
                Some(Some(BoosterType::Cloning)) => true,
                _ => false,
            };
        }
        if self.clone_count > 0 {
            return match self.booster_map.get(goal.point()) {
                Some(Some(BoosterType::Spawn)) => true,
                _ => false,
            };
        }
        if self.remaining_hand > 0 {
            let mut first: usize = 0;
            let nrob = self.robots.len();
            while first < nrob && self.robots[first].new_bodies.len() == 0
                invariant
                    first <= nrob,
                    nrob == self.robots@.len(),
                    spec_first_with_queue(self.robots@, 0) == spec_first_with_queue(
                        self.robots@,
                        first as int,
                    ),
                decreases nrob - first,
            {
                first += 1;
            }
            proof {
                assert(spec_first_with_queue(self.robots@, 0) == first as int);
            }
            if first < nrob && robot_idx == first {
                return match self.booster_map.get(goal.point()) {
                    Some(Some(BoosterType::NewHand)) => true,
                    _ => false,
                };
            }
        }
        let is_valid = match self.valid.get(goal.point()) {
            Some(true) => true,
            _ => false,
        };
        if !is_valid {
            return false;
        }
        let is_booster = match self.booster_map.get(goal.point()) {
            Some(Some(BoosterType::NewHand)) => true,
            _ => false,
        };
        let ghost bodies = self.robots@[robot_idx as int].bodies_diff@;
        let nb = self.robots[robot_idx].bodies_diff.len();
        let mut bi: usize = 0;
        let mut not_passed = false;
        while bi < nb
            invariant
                bi <= nb,
                nb == bodies.len(),
                bodies == self.robots@[robot_idx as int].bodies_diff@,
                self.grids_wf(),
                robot_idx < self.robots@.len(),
                self.valid.spec_get(goal.point) == Some(true),
                not_passed == spec_any_unpassed(self.valid, self.passed, goal, bodies, bi as int),
                forall|i: int|
                    0 <= i < self.robots@[robot_idx as int].bodies_diff@.len() ==> offset_ok(
                        #[trigger] self.robots@[robot_idx as int].bodies_diff@[i],
                    ),
            decreases nb - bi,
        {
            let diff = self.robots[robot_idx].bodies_diff[bi];
            match self.hand_reach(goal, diff) {
                Some(p) => {
                    match self.passed.get(p) {
                        Some(false) => {
                            not_passed = true;
                        },
                        _ => (),
                    }
                },
                None => (),
            }
            bi += 1;
        }
        not_passed || is_booster
    }

    /// How many uncovered floor cells the robot's manipulator would cover
    /// from `place`; the planner's tie-break score.
    fn count_pass(&self, robot_idx: usize, place: Place) -> (r: usize)
        requires
            self.grids_wf(),
            robot_idx < self.robots@.len(),
            self.valid.spec_get(place.point) == Some(true),
            forall|i: int|
                0 <= i < self.robots@[robot_idx as int].bodies_diff@.len() ==> offset_ok(
                    #[trigger] self.robots@[robot_idx as int].bodies_diff@[i],
                ),
        ensures
            r == spec_count_pass(
                self.valid,
                self.passed,
                place,
                self.robots@[robot_idx as int].bodies_diff@,
                self.robots@[robot_idx as int].bodies_diff@.len() as int,
            ),
    {
        let ghost bodies = self.robots@[robot_idx as int].bodies_diff@;
        let nb = self.robots[robot_idx].bodies_diff.len();
        let mut bi: usize = 0;
        let mut cnt: usize = 0;
        while bi < nb
            invariant
                bi <= nb,
                cnt <= bi,
                nb == bodies.len(),
                bodies == self.robots@[robot_idx as int].bodies_diff@,
                cnt == spec_count_pass(self.valid, self.passed, place, bodies, bi as int),
                nb == self.robots@[robot_idx as int].bodies_diff@.len(),
                self.grids_wf(),
                robot_idx < self.robots@.len(),
                self.valid.spec_get(place.point) == Some(true),
                forall|i: int|
                    0 <= i < self.robots@[robot_idx as int].bodies_diff@.len() ==> offset_ok(
                        #[trigger] self.robots@[robot_idx as int].bodies_diff@[i],
                    ),
            decreases nb - bi,
        {
            let diff = self.robots[robot_idx].bodies_diff[bi];
            match self.hand_reach(place, diff) {
                Some(p) => {
                    match self.passed.get(p) {
                        Some(false) => {
                            cnt += 1;
                        },
                        _ => (),
                    }
                },
                None => (),
            }
            bi += 1;
        }
        cnt
    }

    /// Breadth-first search from `start` over floor-preserving moves for
    /// the most rewarding goal place; ties are broken by covered-cell
    /// count and at random. A returned move sequence stays on floor
    /// cells, ends at a goal, and is as short as any floor-preserving
    /// route to any goal; None comes back only when no reachable place is
    /// a goal.
    #[verifier::rlimit(100)]
    fn find_shortest_path(&self, robot_idx: usize, start: Place) -> (r: Option<Vec<Move>>)
        requires
            self.grids_wf(),
            robot_idx < self.robots@.len(),
            self.valid.spec_get(start.point) == Some(true),
            forall|i: int|
                0 <= i < self.robots@[robot_idx as int].bodies_diff@.len() ==> offset_ok(
                    #[trigger] self.robots@[robot_idx as int].bodies_diff@[i],
                ),
        ensures
            match r {
                Some(ms) => {
                    &&& moves_ok(start, ms@, self.valid)
                    &&& spec_is_goal(*self, robot_idx as int, moves_end(start, ms@))
                    &&& forall|ms2: Seq<Move>|
                        moves_ok(start, ms2, self.valid) && spec_is_goal(
                            *self,
                            robot_idx as int,
                            #[trigger] moves_end(start, ms2),
                        ) ==> ms2.len() >= ms@.len()
                },
                None => forall|ms: Seq<Move>|
                    moves_ok(start, ms, self.valid) ==> !spec_is_goal(
                        *self,
                        robot_idx as int,
                        #[trigger] moves_end(start, ms),
                    ),
            },
    {
        let ghost w = self.valid.spec_width();
        let ghost h = self.valid.spec_height();
        proof {
            assert(w * h <= 900000000) by (nonlinear_arith)
                requires
                    1 <= w && w <= 30000 && 1 <= h && h <= 30000,
            ;
        }
        let mut table = VisitTable::new(&self.valid);
        let ghost table0 = table;
        let mut queue: Vec<Place> = Vec::new();
        let mut head: usize = 0;
        proof {
            assert(self.valid.spec_in(start.point.x as int, start.point.y as int));
        }
        table.set(&self.valid, start, (Move::Noop, 0));
        queue.push(start);
        proof {
            assert forall|p: Place| #[trigger] table.spec_entry(p) is Some implies queue@.contains(
                p,
            ) by {
                if p == start {
                    assert(queue@[0] == start);
                } else {
                    assert(table.spec_entry(p) == table0.spec_entry(p));
                }
            }
        }
        let mut goal: Option<(Place, usize, usize, usize)> = None;
        let ghost mut h0: int = 0;
        while head < queue.len()
            invariant
                self.grids_wf(),
                robot_idx < self.robots@.len(),
                forall|i2: int|
                    0 <= i2 < self.robots@[robot_idx as int].bodies_diff@.len() ==> offset_ok(
                        #[trigger] self.robots@[robot_idx as int].bodies_diff@[i2],
                    ),
                w == self.valid.spec_width(),
                h == self.valid.spec_height(),
                1 <= w <= 30000,
                1 <= h <= 30000,
                self.valid.spec_get(start.point) == Some(true),
                table.wf(self.valid),
                entries_ok(table, self.valid, start),
                costs_le(table, queue@.len() as int),
                queue@.len() == table.spec_filled(self.valid),
                table.spec_entry(start) is Some,
                forall|i: int| 0 <= i < queue@.len() ==> table.spec_entry(#[trigger] queue@[i]) is Some,
                forall|p: Place| #[trigger] table.spec_entry(p) is Some ==> queue@.contains(p),
                head <= queue@.len(),
                0 <= h0 <= head as int,
                goal is None ==> h0 == head as int,
                costs_sorted(table, queue@, head as int),
                entry_cost(table, start) == 0,
                closed_prefix(*self, robot_idx as int, table, queue@, h0),
                match goal {
                    Some(g) => table.spec_entry(g.0) is Some && spec_is_goal(
                        *self,
                        robot_idx as int,
                        g.0,
                    ) && h0 < queue@.len() && entry_cost(table, queue@[h0]) == g.1 as int
                        && g.1 == entry_cost(table, g.0),
                    None => true,
                },
            decreases 4 * (w * h) - head,
        {
            proof {
                lemma_count_some_bounds(table.right.spec_inner(), w * h);
                lemma_count_some_bounds(table.up.spec_inner(), w * h);
                lemma_count_some_bounds(table.left.spec_inner(), w * h);
                lemma_count_some_bounds(table.down.spec_inner(), w * h);
            }
            let place = queue[head];
            let (_m0, cost) = match table.get(&self.valid, place) {
                Some(e) => e,
                None => {
                    proof {
                        assert(false);
                    }
                    (Move::Noop, 0)
                },
            };
            proof {
                assert(entry_ok(table, self.valid, start, place));
            }
            let ghost old_goal = goal;
            if self.is_goal(robot_idx, place) {
                let cnt = self.count_pass(robot_idx, place);
                let rnd = random_usize();
                let better: bool = match goal {
                    None => true,
                    Some(g) => {
                        cost < g.1 || (cost == g.1 && (cnt > g.2 || (cnt == g.2 && rnd >= g.3)))
                    },
                };
                if better {
                    goal = Some((place, cost, cnt, rnd));
                    proof {
                        assert(queue@[head as int] == place);
                        assert(entry_cost(table, place) == cost as int);
                        match old_goal {
                            None => {
                                assert(h0 == head as int);
                            },
                            Some(og) => {
                                assert(entry_cost(table, queue@[h0]) == og.1 as int);
                                assert(entry_cost(table, queue@[h0]) <= entry_cost(
                                    table,
                                    queue@[head as int],
                                ));
                                assert(og.1 <= cost);
                                assert(cost == og.1);
                            },
                        }
                    }
                }
            }
            if goal.is_none() {
                let mut moves: Vec<Move> = Vec::new();
                moves.push(Move::MoveUp);
                moves.push(Move::MoveDown);
                moves.push(Move::MoveLeft);
                moves.push(Move::MoveRight);
                moves.push(Move::TurnLeft);
                moves.push(Move::TurnRight);
                proof {
                    assert(moves@[0] == Move::MoveUp && moves@[1] == Move::MoveDown && moves@[2]
                        == Move::MoveLeft && moves@[3] == Move::MoveRight && moves@[4]
                        == Move::TurnLeft && moves@[5] == Move::TurnRight);
                    assert(moves@.contains(Move::MoveUp) && moves@.contains(Move::MoveDown)
                        && moves@.contains(Move::MoveLeft) && moves@.contains(Move::MoveRight)
                        && moves@.contains(Move::TurnLeft) && moves@.contains(Move::TurnRight));
                }
                shuffle_vec(&mut moves);
                let nm = moves.len();
                let mut mi: usize = 0;
                while mi < nm
                    invariant
                        self.grids_wf(),
                        robot_idx < self.robots@.len(),
                        w == self.valid.spec_width(),
                        h == self.valid.spec_height(),
                        1 <= w <= 30000,
                        1 <= h <= 30000,
                        mi <= nm,
                        nm == moves@.len(),
                        moves@.contains(Move::MoveUp) && moves@.contains(Move::MoveDown)
                            && moves@.contains(Move::MoveLeft) && moves@.contains(
                            Move::MoveRight,
                        ) && moves@.contains(Move::TurnLeft) && moves@.contains(Move::TurnRight),
                        table.wf(self.valid),
                        entries_ok(table, self.valid, start),
                        costs_le(table, queue@.len() as int),
                        queue@.len() == table.spec_filled(self.valid),
                        table.spec_entry(start) is Some,
                        forall|i: int|
                            0 <= i < queue@.len() ==> table.spec_entry(
                                #[trigger] queue@[i],
                            ) is Some,
                        forall|p: Place| #[trigger] table.spec_entry(p) is Some ==> queue@.contains(
                            p,
                        ),
                        goal is None,
                        h0 == head as int,
                        costs_sorted(table, queue@, head as int),
                        entry_cost(table, start) == 0,
                        closed_prefix(*self, robot_idx as int, table, queue@, h0),
                        forall|k: int|
                            0 <= k < mi ==> (!((#[trigger] moves@[k]) is Noop)
                                && self.valid.spec_get(place.spec_move_with(moves@[k]).point)
                                == Some(true) ==> (table.spec_entry(
                                place.spec_move_with(moves@[k]),
                            ) is Some && entry_cost(table, place.spec_move_with(moves@[k]))
                                <= cost + 1)),
                        queue@[head as int] == place,
                        head < queue@.len(),
                        table.spec_entry(place) == Some((_m0, cost)),
                        self.valid.spec_get(place.point) == Some(true),
                        cost <= queue@.len(),
                    decreases nm - mi,
                {
                    let m = moves[mi];
                    if match m {
                        Move::Noop => false,
                        _ => true,
                    } {
                        proof {
                            assert(self.valid.spec_in(place.point.x as int, place.point.y as int));
                            assert(w * h <= 900000000) by (nonlinear_arith)
                                requires
                                    1 <= w && w <= 30000 && 1 <= h && h <= 30000,
                            ;
                            lemma_count_some_bounds(table.right.spec_inner(), w * h);
                            lemma_count_some_bounds(table.up.spec_inner(), w * h);
                            lemma_count_some_bounds(table.left.spec_inner(), w * h);
                            lemma_count_some_bounds(table.down.spec_inner(), w * h);
                        }
                        let nplace = place.move_with(&m);
                        let on_floor = match self.valid.get(nplace.point()) {
                            Some(true) => true,
                            _ => false,
                        };
                        if on_floor {
                            match table.get(&self.valid, nplace) {
                                Some(_) => {
                                    proof {
                                        assert(queue@.contains(nplace));
                                        let jj = choose|jj: int|
                                            0 <= jj < queue@.len() && queue@[jj] == nplace;
                                        assert(entry_cost(table, queue@[jj]) <= entry_cost(
                                            table,
                                            queue@[queue@.len() - 1],
                                        ) || jj == queue@.len() - 1);
                                        assert(entry_cost(table, nplace) <= cost + 1);
                                    }
                                },
                                None => {
                                    proof {
                                        assert(self.valid.spec_in(
                                            nplace.point.x as int,
                                            nplace.point.y as int,
                                        ));
                                    }
                                    let ghost pre = table;
                                    let ghost pre_queue = queue@;
                                    table.set(&self.valid, nplace, (m, cost + 1));
                                    queue.push(nplace);
                                    proof {
                                        assert forall|p2: Place|
                                            #[trigger] table.spec_entry(p2) is Some implies queue@
                                            .contains(p2) by {
                                            if p2 == nplace {
                                                assert(queue@[queue@.len() - 1] == nplace);
                                            } else {
                                                assert(table.spec_entry(p2) == pre.spec_entry(p2));
                                                assert(pre_queue.contains(p2));
                                                let ii = choose|ii: int|
                                                    0 <= ii < pre_queue.len() && pre_queue[ii]
                                                        == p2;
                                                assert(queue@[ii] == p2);
                                            }
                                        }
                                        assert forall|i: int|
                                            0 <= i < pre_queue.len() implies entry_cost(
                                            table,
                                            #[trigger] queue@[i],
                                        ) == entry_cost(pre, pre_queue[i]) by {
                                            assert(queue@[i] == pre_queue[i]);
                                            assert(pre.spec_entry(pre_queue[i]) is Some);
                                            assert(pre_queue[i] != nplace);
                                        }
                                        assert(entry_cost(table, nplace) == cost + 1);
                                        assert(entry_cost(table, place) == cost as int);
                                        assert(spec_unmove(nplace, m) == place);
                                        assert(nplace != start);
                                        assert(entry_ok(pre, self.valid, start, place));
                                        assert forall|p2: Place|
                                            #[trigger] entry_ok(table, self.valid, start, p2) by {
                                            assert(entry_ok(pre, self.valid, start, p2));
                                            if p2 == nplace {
                                                assert(table.spec_entry(place) == pre.spec_entry(
                                                    place,
                                                ));
                                            } else {
                                                assert(table.spec_entry(p2) == pre.spec_entry(p2));
                                                let e = pre.spec_entry(p2);
                                                if e is Some && p2 != start {
                                                    let mm = e.unwrap().0;
                                                    let q2 = spec_unmove(p2, mm);
                                                    assert(pre.spec_entry(q2) is Some);
                                                    assert(q2 != nplace);
                                                    assert(table.spec_entry(q2) == pre.spec_entry(
                                                        q2,
                                                    ));
                                                }
                                            }
                                        }
                                    }
                                },
                            }
                        }
                    }
                    mi += 1;
                }
                proof {
                    assert forall|m2: Move|
                        !(m2 is Noop) && self.valid.spec_get(
                            (#[trigger] place.spec_move_with(m2)).point,
                        ) == Some(true) implies table.spec_entry(place.spec_move_with(m2)) is Some by {
                        let k = choose|k: int| 0 <= k < moves@.len() && moves@[k] == m2;
                        assert(match m2 {
                            Move::MoveUp => moves@.contains(Move::MoveUp),
                            Move::MoveDown => moves@.contains(Move::MoveDown),
                            Move::MoveLeft => moves@.contains(Move::MoveLeft),
                            Move::MoveRight => moves@.contains(Move::MoveRight),
                            Move::TurnLeft => moves@.contains(Move::TurnLeft),
                            Move::TurnRight => moves@.contains(Move::TurnRight),
                            Move::Noop => true,
                        });
                        let k2 = choose|k2: int| 0 <= k2 < moves@.len() && moves@[k2] == m2;
                        assert(!(moves@[k2] is Noop) && self.valid.spec_get(
                            place.spec_move_with(moves@[k2]).point,
                        ) == Some(true) ==> table.spec_entry(
                            place.spec_move_with(moves@[k2]),
                        ) is Some);
                    }
                }
            }
            proof {
                if goal is None {
                    h0 = head + 1;
                }
            }
            head += 1;
        }
        match goal {
            None => {
                proof {
                    lemma_no_goal_anywhere(*self, robot_idx as int, table, start, queue@);
                }
                None
            },
            Some(g) => {
                proof {
                    assert(entry_ok(table, self.valid, start, g.0));
                    assert(entry_ok(table, self.valid, start, start));
                }
                let out = self.rebuild_path(&table, start, g.0, Ghost(g.1 as int));
                proof {
                    lemma_goal_minimal(
                        *self,
                        robot_idx as int,
                        table,
                        start,
                        queue@,
                        h0,
                        g.1 as int,
                    );
                }
                Some(out)
            },
        }
    }

    /// Walk the visit table's parent links back from the chosen goal and
    /// return the forward move sequence: floor-preserving, ending at the
    /// goal, one move per unit of its recorded cost.
    #[verifier::loop_isolation(false)]
    fn rebuild_path(
        &self,
        table: &VisitTable,
        start: Place,
        gplace: Place,
        ghost_gcost: Ghost<int>,
    ) -> (r: Vec<Move>)
        requires
            self.grids_wf(),
            table.wf(self.valid),
            entries_ok(*table, self.valid, start),
            table.spec_entry(gplace) is Some,
            entry_cost(*table, gplace) == ghost_gcost@,
            valid_here(self.valid, gplace),
            entry_cost(*table, start) == 0,
        ensures
            moves_ok(start, r@, self.valid),
            moves_end(start, r@) == gplace,
            r@.len() == ghost_gcost@,
    {
        let mut res: Vec<Move> = Vec::new();
        let mut iter: Place = gplace;
        while iter != start
            invariant
                table.spec_entry(iter) is Some,
                moves_ok(iter, res@.reverse(), self.valid),
                moves_end(iter, res@.reverse()) == gplace,
                res@.len() + entry_cost(*table, iter) == ghost_gcost@,
                valid_here(self.valid, iter),
            decreases entry_cost(*table, iter),
        {
            let (m, c) = match table.get(&self.valid, iter) {
                Some(e) => e,
                None => {
                    proof {
                        assert(false);
                    }
                    (Move::Noop, 0)
                },
            };
            let ghost old_res = res@;
            let ghost old_iter = iter;
            proof {
                assert(entry_ok(*table, self.valid, start, iter));
            }
            let q = iter.revert_with(&m);
            res.push(m);
            iter = q;
            proof {
                assert(entry_ok(*table, self.valid, start, q));
                assert(q == spec_unmove(old_iter, m));
                assert(res@.reverse() =~= seq![m] + old_res.reverse());
                assert(q.spec_move_with(m) == old_iter);
                assert(moves_ok(q, res@.reverse(), self.valid)) by {
                    assert(res@.reverse()[0] == m);
                    assert(res@.reverse().skip(1) =~= old_res.reverse());
                }
                assert(moves_end(q, res@.reverse()) == gplace) by {
                    assert(res@.reverse()[0] == m);
                    assert(res@.reverse().skip(1) =~= old_res.reverse());
                    assert(moves_end(q, res@.reverse()) == moves_end(
                        q.spec_move_with(m),
                        old_res.reverse(),
                    ));
                }
            }
        }
        proof {
            assert(entry_ok(*table, self.valid, start, start));
        }
        let nr = res.len();
        let mut out: Vec<Move> = Vec::new();
        let mut k: usize = nr;
        while k > 0
            invariant
                k <= nr,
                nr == res@.len(),
                out@.len() == nr - k,
                forall|i: int| 0 <= i < out@.len() ==> out@[i] == res@[nr - 1 - i],
            decreases k,
        {
            k -= 1;
            out.push(res[k]);
        }
        proof {
            assert(out@ =~= res@.reverse());
        }
        out
    }
}

/// A place standing on a floor cell.
pub open spec fn valid_here(valid: Matrix<bool>, p: Place) -> bool {
    valid.spec_get(p.point) == Some(true)
}


/// Appending a command adjusts the Cloning count by its own indicator.
proof fn lemma_count_cloning_push(s: Seq<Command>, c: Command)
    ensures
        count_cloning(s.push(c)) == count_cloning(s) + if c is Cloning {
            1int
        } else {
            0int
        },
{
    assert(s.push(c).drop_last() =~= s);
}

/// The Cloning count also unfolds from the front.
proof fn lemma_count_cloning_front(s: Seq<Command>)
    requires
        s.len() > 0,
    ensures
        count_cloning(s) == (if s[0] is Cloning {
            1int
        } else {
            0int
        }) + count_cloning(s.skip(1)),
    decreases s.len(),
{
    if s.len() == 1 {
        assert(s.skip(1) =~= Seq::<Command>::empty());
        assert(s.drop_last() =~= Seq::<Command>::empty());
    } else {
        lemma_count_cloning_front(s.drop_last());
        assert(s.drop_last().skip(1) =~= s.skip(1).drop_last());
        assert(s.drop_last()[0] == s[0]);
        assert(s.skip(1).last() == s.last());
    }
}

/// Replacing one robot adjusts the total by the difference of its counts.
proof fn lemma_total_cloning_update(rs: Seq<Robot>, k: int, r2: Robot, n: int)
    requires
        0 <= k < rs.len(),
        n <= rs.len(),
    ensures
        total_cloning(rs.update(k, r2), n) == total_cloning(rs, n) + if k < n {
            count_cloning(r2.executed@) - count_cloning(rs[k].executed@)
        } else {
            0int
        },
    decreases n,
{
    if n > 0 {
        lemma_total_cloning_update(rs, k, r2, n - 1);
    }
}

/// The four initial manipulator offsets: the robot's own cell and the
/// three cells of the column one step ahead.
fn initial_bodies() -> (r: Vec<Point>)
    ensures
        r@ == seq![
            Point { x: 0, y: 0 },
            Point { x: 1, y: 1 },
            Point { x: 1, y: 0 },
            Point { x: 1, y: -1i32 },
        ],
        r@.len() == 4,
        r@[0] == (Point { x: 0, y: 0 }),
        forall|i: int| 0 <= i < r@.len() ==> offset_ok(#[trigger] r@[i]),
{
    let mut v: Vec<Point> = Vec::new();
    v.push(Point { x: 0, y: 0 });
    v.push(Point { x: 1, y: 1 });
    v.push(Point { x: 1, y: 0 });
    v.push(Point { x: 1, y: -1 });
    proof {
        assert(v@ =~= seq![
            Point { x: 0, y: 0 },
            Point { x: 1, y: 1 },
            Point { x: 1, y: 0 },
            Point { x: 1, y: -1i32 },
        ]);
    }
    v
}

/// The pre-chosen extension offsets of the primary robot: it extends its
/// row rightwards as NewHand boosters come in.
fn primary_new_bodies() -> (r: Vec<Point>)
    ensures
        r@.len() == 12,
        forall|i: int| 0 <= i < r@.len() ==> (#[trigger] r@[i]) == (Point {
            x: (i + 2) as i32,
            y: 0,
        }),
        forall|i: int| 0 <= i < r@.len() ==> offset_ok(#[trigger] r@[i]),
{
    let mut v: Vec<Point> = Vec::new();
    let mut x: i32 = 2;
    while x <= 13
        invariant
            2 <= x <= 14,
            v@.len() == x - 2,
            forall|i: int| 0 <= i < v@.len() ==> (#[trigger] v@[i]) == (Point {
                x: (i + 2) as i32,
                y: 0,
            }),
            forall|i: int| 0 <= i < v@.len() ==> offset_ok(#[trigger] v@[i]),
        decreases 14 - x,
    {
        v.push(Point { x, y: 0 });
        x += 1;
    }
    v
}

/// The shorter pre-chosen extension offsets a clone starts with.
fn clone_new_bodies() -> (r: Vec<Point>)
    ensures
        r@.len() == 7,
        forall|i: int| 0 <= i < r@.len() ==> (#[trigger] r@[i]) == (Point {
            x: (i + 2) as i32,
            y: 0,
        }),
        forall|i: int| 0 <= i < r@.len() ==> offset_ok(#[trigger] r@[i]),
{
    let mut v: Vec<Point> = Vec::new();
    let mut x: i32 = 2;
    while x <= 8
        invariant
            2 <= x <= 9,
            v@.len() == x - 2,
            forall|i: int| 0 <= i < v@.len() ==> (#[trigger] v@[i]) == (Point {
                x: (i + 2) as i32,
                y: 0,
            }),
            forall|i: int| 0 <= i < v@.len() ==> offset_ok(#[trigger] v@[i]),
        decreases 9 - x,
    {
        v.push(Point { x, y: 0 });
        x += 1;
    }
    v
}

/// A buffer holding a single Noop is a floor-preserving plan from any
/// floor cell.
proof fn lemma_single_noop(place: Place, valid: Matrix<bool>)
    requires
        valid.spec_get(place.point) == Some(true),
    ensures
        cmds_moves_ok(place, seq![Command::Move(Move::Noop)], valid),
{
    let s = seq![Command::Move(Move::Noop)];
    assert(s[0] == Command::Move(Move::Noop));
    assert(s.skip(1) =~= Seq::<Command>::empty());
    assert(place.spec_move_with(Move::Noop) == place);
    assert(cmds_moves_ok(place, s.skip(1), valid));
}

impl State {
    /// Choose the robot's command for this turn. In priority order: spend
    /// a held NewHand on the next queued offset; clone while standing on a
    /// Spawn cell with a Cloning held; keep an already buffered move; else
    /// plan with the breadth-first search, falling back to a Noop. A
    /// Cloning command is chosen only on a Spawn cell with a Cloning held.
    #[verifier::loop_isolation(false)]
    #[verifier::rlimit(100)]
    pub fn fill_next_command(&mut self, robot_idx: usize)
        requires
            old(self).grids_wf(),
            robot_idx < old(self).robots@.len(),
            robot_core(
                old(self).robots@[robot_idx as int],
                old(self).valid,
                old(self).turn as int,
            ),
            old(self).turn < usize::MAX,
        ensures
            final(self).valid == old(self).valid,
            final(self).passed == old(self).passed,
            final(self).booster_map == old(self).booster_map,
            final(self).remaining_pass == old(self).remaining_pass,
            final(self).remaining_hand == old(self).remaining_hand,
            final(self).remaining_clone == old(self).remaining_clone,
            final(self).tele_count == old(self).tele_count,
            final(self).turn == old(self).turn,
            final(self).robots@.len() == old(self).robots@.len(),
            forall|j: int|
                0 <= j < old(self).robots@.len() && j != robot_idx ==> final(self).robots@[j]
                    == old(self).robots@[j],
            ({
                let r0 = old(self).robots@[robot_idx as int];
                let r1 = final(self).robots@[robot_idx as int];
                let turn = old(self).turn as int;
                &&& r1.current_place == r0.current_place
                &&& r1.bodies_diff == r0.bodies_diff
                &&& r1.executed == r0.executed
                &&& r1.birth == r0.birth
                &&& r1.commands@.len() > turn
                &&& (old(self).hand_count > 0 && r0.new_bodies@.len() > 0
                    ==> r1.commands@[turn] is NewHand)
                &&& ((old(self).hand_count == 0 || r0.new_bodies@.len() == 0) && old(
                    self,
                ).clone_count > 0 && old(self).booster_map.spec_get(r0.current_place.point)
                    == Some(Some(BoosterType::Spawn)) ==> r1.commands@[turn] is Cloning)
                &&& ((old(self).hand_count == 0 || r0.new_bodies@.len() == 0) && !(old(
                    self,
                ).clone_count > 0 && old(self).booster_map.spec_get(r0.current_place.point)
                    == Some(Some(BoosterType::Spawn))) ==> r1.commands@[turn] is Move)
                &&& match r1.commands@[turn] {
                    Command::Move(mv) => {
                        &&& cmds_moves_ok(
                            r1.current_place,
                            r1.commands@.skip(turn),
                            old(self).valid,
                        )
                        &&& (r0.commands@.len() > turn ==> r1.commands == r0.commands)
                        &&& (r0.commands@.len() == turn ==> r1.commands@.take(turn)
                            == r0.commands@)
                        &&& r1.new_bodies == r0.new_bodies
                        &&& final(self).hand_count == old(self).hand_count
                        &&& final(self).clone_count == old(self).clone_count
                    },
                    Command::NewHand(p) => {
                        &&& offset_ok(p)
                        &&& r1.commands@.len() == turn + 1
                        &&& r1.commands@.take(turn) == r0.commands@.take(turn)
                        &&& r0.new_bodies@.len() > 0
                        &&& p == r0.new_bodies@[0]
                        &&& r1.new_bodies@ == r0.new_bodies@.skip(1)
                        &&& old(self).hand_count > 0
                        &&& final(self).hand_count == old(self).hand_count - 1
                        &&& final(self).clone_count == old(self).clone_count
                    },
                    Command::Cloning => {
                        &&& r1.commands@.len() == turn + 1
                        &&& r1.commands@.take(turn) == r0.commands@.take(turn)
                        &&& old(self).booster_map.spec_get(r0.current_place.point) == Some(
                            Some(BoosterType::Spawn),
                        )
                        &&& old(self).clone_count > 0
                        &&& final(self).clone_count == old(self).clone_count - 1
                        &&& final(self).hand_count == old(self).hand_count
                        &&& r1.new_bodies == r0.new_bodies
                    },
                    _ => false,
                }
            }),
    {
        let turn = self.turn;
        if self.hand_count > 0 && self.robots[robot_idx].new_bodies.len() > 0 {
            let mut r = self.robots.remove(robot_idx);
            let new_hand = r.new_bodies.remove(0);
            self.hand_count = self.hand_count - 1;
            r.commands.insert(turn, Command::NewHand(new_hand));
            r.commands.truncate(turn + 1);
            proof {
                assert(r.commands@.len() == turn + 1);
                assert(r.commands@[turn as int] == Command::NewHand(new_hand));
                assert(r.new_bodies@ =~= old(self).robots@[robot_idx as int].new_bodies@.skip(1));
            }
            self.robots.insert(robot_idx, r);
            proof {
                assert(self.robots@ =~= old(self).robots@.update(robot_idx as int, r));
            }
            return ;
        }
        if self.clone_count > 0 {
            let on_spawn = match self.booster_map.get(self.robots[robot_idx].current_place.point())
            {
                Some(Some(BoosterType::Spawn)) => true,
                _ => false,
            };
            if on_spawn {
                let mut r = self.robots.remove(robot_idx);
                self.clone_count = self.clone_count - 1;
                r.commands.insert(turn, Command::Cloning);
                r.commands.truncate(turn + 1);
                proof {
                    assert(r.commands@.len() == turn + 1);
                    assert(r.commands@[turn as int] == Command::Cloning);
                }
                self.robots.insert(robot_idx, r);
                proof {
                    assert(self.robots@ =~= old(self).robots@.update(robot_idx as int, r));
                }
                return ;
            }
        }
        if turn < self.robots[robot_idx].commands.len() {
            proof {
                let r0 = self.robots@[robot_idx as int];
                assert(r0.commands@.skip(turn as int).len() > 0);
                assert(r0.commands@[turn as int] == r0.commands@.skip(turn as int)[0]);
            }
            return ;
        }
        let place = self.robots[robot_idx].current_place;
        let base_moves = self.find_shortest_path(robot_idx, place);
        let mut r = self.robots.remove(robot_idx);
        let ghost old_cmds = r.commands@;
        match base_moves {
            Some(ms) => {
                if ms.len() > 0 {
                    let nm = ms.len();
                    let mut k: usize = 0;
                    while k < nm
                        invariant
                            k <= nm,
                            nm == ms@.len(),
                            r.commands@ == old_cmds + ms@.take(k as int).map_values(
                                |m: Move| Command::Move(m),
                            ),
                            r.current_place == place,
                            r.bodies_diff == old(self).robots@[robot_idx as int].bodies_diff,
                            r.new_bodies == old(self).robots@[robot_idx as int].new_bodies,
                            r.executed == old(self).robots@[robot_idx as int].executed,
                            r.birth == old(self).robots@[robot_idx as int].birth,
                        decreases nm - k,
                    {
                        r.commands.push(Command::Move(ms[k]));
                        proof {
                            assert(ms@.take(k + 1).map_values(|m: Move| Command::Move(m)) =~= ms@
                                .take(k as int).map_values(|m: Move| Command::Move(m)).push(
                                Command::Move(ms@[k as int]),
                            ));
                            assert(r.commands@ =~= old_cmds + ms@.take(k + 1).map_values(
                                |m: Move| Command::Move(m),
                            ));
                        }
                        k += 1;
                    }
                    proof {
                        lemma_moves_to_cmds(place, ms@, old(self).valid);
                        assert(ms@.take(nm as int) =~= ms@);
                        assert(r.commands@.skip(turn as int) =~= ms@.map_values(
                            |m: Move| Command::Move(m),
                        ));
                        assert(r.commands@[turn as int] == ms@.map_values(
                            |m: Move| Command::Move(m),
                        )[0]);
                    }
                } else {
                    r.commands.push(Command::Move(Move::Noop));
                    proof {
                        assert(r.commands@.skip(turn as int) =~= seq![
                            Command::Move(Move::Noop),
                        ]);
                        assert(place.spec_move_with(Move::Noop) == place);
                        assert(place == old(self).robots@[robot_idx as int].current_place);
                        assert(old(self).valid.spec_get(place.point) == Some(true));
                        lemma_single_noop(place, old(self).valid);
                        assert(cmds_moves_ok(
                            place,
                            r.commands@.skip(turn as int),
                            old(self).valid,
                        ));
                    }
                }
            },
            None => {
                r.commands.push(Command::Move(Move::Noop));
                proof {
                    assert(r.commands@.skip(turn as int) =~= seq![Command::Move(Move::Noop)]);
                    assert(place.spec_move_with(Move::Noop) == place);
                    assert(place == old(self).robots@[robot_idx as int].current_place);
                    assert(old(self).valid.spec_get(place.point) == Some(true));
                    lemma_single_noop(place, old(self).valid);
                    assert(cmds_moves_ok(
                        place,
                        r.commands@.skip(turn as int),
                        old(self).valid,
                    ));
                }
            },
        }
        self.robots.insert(robot_idx, r);
        proof {
            assert(self.robots@ =~= old(self).robots@.update(robot_idx as int, r));
        }
    }

    /// Carry out a buffered basic move: the robot steps to the next
    /// place of its plan, which is a floor cell.
    fn apply_move(&mut self, idx: usize, turn: usize)
        requires
            idx < old(self).robots@.len(),
            ({
                let r = old(self).robots@[idx as int];
                &&& r.commands@.len() > turn
                &&& r.commands@[turn as int] is Move
                &&& cmds_moves_ok(
                    r.current_place,
                    r.commands@.skip(turn as int),
                    old(self).valid,
                )
                &&& old(self).valid.spec_get(r.current_place.point) == Some(true)
            }),
            old(self).grids_wf(),
        ensures
            *final(self) == (State { robots: final(self).robots, ..*old(self) }),
            final(self).robots@.len() == old(self).robots@.len(),
            forall|j: int|
                0 <= j < old(self).robots@.len() && j != idx ==> final(self).robots@[j] == old(
                    self,
                ).robots@[j],
            ({
                let r0 = old(self).robots@[idx as int];
                let r1 = final(self).robots@[idx as int];
                &&& r1.commands == r0.commands
                &&& r1.bodies_diff == r0.bodies_diff
                &&& r1.new_bodies == r0.new_bodies
                &&& r1.executed == r0.executed
                &&& r1.birth == r0.birth
                &&& old(self).valid.spec_get(r1.current_place.point) == Some(true)
                &&& cmds_moves_ok(r1.current_place, r1.commands@.skip(turn + 1), old(self).valid)
            }),
    {
        let ghost pre = self.robots@;
        let mut r = self.robots.remove(idx);
        let cmd = r.commands[turn];
        let mv = match cmd {
            Command::Move(mv) => mv,
            _ => {
                proof {
                    assert(false);
                }
                Move::Noop
            },
        };
        proof {
            assert(r.commands@.skip(turn as int)[0] == cmd);
            assert(r.commands@.skip(turn as int).len() > 0);
        }
        r.current_place = r.current_place.move_with(&mv);
        proof {
            assert(r.commands@.skip(turn as int).skip(1) =~= r.commands@.skip(turn + 1));
        }
        self.robots.insert(idx, r);
        proof {
            assert(self.robots@ =~= pre.update(idx as int, r));
        }
    }

    /// Carry out a NewHand activation: the chosen offset joins the
    /// robot's manipulator.
    fn apply_new_hand(&mut self, idx: usize, turn: usize)
        requires
            idx < old(self).robots@.len(),
            ({
                let r = old(self).robots@[idx as int];
                &&& r.commands@.len() == turn + 1
                &&& (match r.commands@[turn as int] {
                    Command::NewHand(p) => offset_ok(p),
                    _ => false,
                })
                &&& r.bodies_diff@.len() >= 1
            }),
        ensures
            *final(self) == (State { robots: final(self).robots, ..*old(self) }),
            final(self).robots@.len() == old(self).robots@.len(),
            forall|j: int|
                0 <= j < old(self).robots@.len() && j != idx ==> final(self).robots@[j] == old(
                    self,
                ).robots@[j],
            ({
                let r0 = old(self).robots@[idx as int];
                let r1 = final(self).robots@[idx as int];
                &&& r1.commands == r0.commands
                &&& r1.current_place == r0.current_place
                &&& r1.new_bodies == r0.new_bodies
                &&& r1.executed == r0.executed
                &&& r1.birth == r0.birth
                &&& r1.bodies_diff@.len() == r0.bodies_diff@.len() + 1
                &&& r1.bodies_diff@[0] == r0.bodies_diff@[0]
                &&& (forall|i: int|
                    0 <= i < r0.bodies_diff@.len() ==> r1.bodies_diff@[i] == (
                    #[trigger] r0.bodies_diff@[i]))
                &&& (match r0.commands@[turn as int] {
                    Command::NewHand(p) => r1.bodies_diff@.last() == p,
                    _ => false,
                })
            }),
    {
        let ghost pre = self.robots@;
        let mut r = self.robots.remove(idx);
        let cmd = r.commands[turn];
        let p = match cmd {
            Command::NewHand(p) => p,
            _ => {
                proof {
                    assert(false);
                }
                Point { x: 0, y: 0 }
            },
        };
        r.bodies_diff.push(p);
        self.robots.insert(idx, r);
        proof {
            assert(self.robots@ =~= pre.update(idx as int, r));
        }
    }

    /// Carry out a Cloning activation: a new robot appears at the same
    /// place with the initial manipulator, a short queue of pre-chosen
    /// offsets, an empty record, and the parent's buffer up to this turn.
    fn apply_clone(&mut self, idx: usize, turn: usize)
        requires
            idx < old(self).robots@.len(),
            old(self).robots@[idx as int].commands@.len() == turn + 1,
            turn < usize::MAX,
        ensures
            *final(self) == (State { robots: final(self).robots, ..*old(self) }),
            final(self).robots@.len() == old(self).robots@.len() + 1,
            forall|j: int|
                0 <= j < old(self).robots@.len() ==> final(self).robots@[j] == old(
                    self,
                ).robots@[j],
            ({
                let nr = final(self).robots@.last();
                &&& nr.current_place == old(self).robots@[idx as int].current_place
                &&& nr.bodies_diff@ == seq![
                    Point { x: 0, y: 0 },
                    Point { x: 1, y: 1 },
                    Point { x: 1, y: 0 },
                    Point { x: 1, y: -1i32 },
                ]
                &&& nr.bodies_diff@.len() >= 1
                &&& nr.bodies_diff@[0] == (Point { x: 0, y: 0 })
                &&& (forall|i: int|
                    0 <= i < nr.bodies_diff@.len() ==> offset_ok(#[trigger] nr.bodies_diff@[i]))
                &&& nr.new_bodies@.len() == 7
                &&& (forall|i: int|
                    0 <= i < nr.new_bodies@.len() ==> (#[trigger] nr.new_bodies@[i]) == (Point {
                        x: (i + 2) as i32,
                        y: 0,
                    }))
                &&& (forall|i: int|
                    0 <= i < nr.new_bodies@.len() ==> offset_ok(#[trigger] nr.new_bodies@[i]))
                &&& nr.commands@ == old(self).robots@[idx as int].commands@
                &&& nr.commands@.len() == turn + 1
                &&& nr.executed@.len() == 0
                &&& nr.birth@ == turn + 1
            }),
    {
        let ghost pre = self.robots@;
        let parent_place = self.robots[idx].current_place;
        let parent_len = self.robots[idx].commands.len();
        let mut buf: Vec<Command> = Vec::new();
        let mut bi: usize = 0;
        while bi < parent_len
            invariant
                bi <= parent_len,
                idx < self.robots@.len(),
                self.robots@ == pre,
                parent_len == self.robots@[idx as int].commands@.len(),
                buf@ =~= self.robots@[idx as int].commands@.take(bi as int),
            decreases parent_len - bi,
        {
            let c = self.robots[idx].commands[bi];
            buf.push(c);
            proof {
                assert(buf@ =~= self.robots@[idx as int].commands@.take(bi + 1));
            }
            bi += 1;
        }
        let new_robot = Robot {
            current_place: parent_place,
            bodies_diff: initial_bodies(),
            new_bodies: clone_new_bodies(),
            commands: buf,
            executed: Vec::new(),
            birth: Ghost((turn + 1) as usize),
        };
        self.robots.push(new_robot);
    }

    /// Play one full turn: each robot of the turn's snapshot covers what
    /// it reaches, chooses its command, and carries it out; clones created
    /// this turn act from the next turn on. Stops, reporting false, as
    /// soon as no floor cell is left uncovered; the commands of a partial
    /// final turn are discarded, so every robot's record stays one command
    /// per turn.
    #[verifier::rlimit(100)]
    pub fn next_state(&mut self) -> (r: bool)
        requires
            old(self).wf(),
            old(self).turn < MAX_TURNS,
        ensures
            final(self).wf(),
            final(self).valid == old(self).valid,
            r == (final(self).remaining_pass > 0),
            old(self).turn <= final(self).turn <= old(self).turn + 1,
            r ==> final(self).turn == old(self).turn + 1,
            !r ==> final(self).turn == old(self).turn,
            final(self).robots@.len() >= old(self).robots@.len(),
            old(self).remaining_pass > 0 ==> ({
                let r0 = old(self).robots@[0];
                forall|x: int, y: int|
                    (final(self).passed.spec_in(x, y) && (old(self).passed.spec_at(x, y) || exists|
                        b: int,
                    |
                        0 <= b < r0.bodies_diff@.len() && #[trigger] spec_hand_reach(
                            old(self).valid,
                            r0.current_place,
                            r0.bodies_diff@[b],
                        ) == Some(Point { x: x as i32, y: y as i32 }))) ==> (
                    #[trigger] final(self).passed.spec_at(x, y))
            }),
    {
        if self.remaining_pass == 0 {
            return false;
        }
        let turn = self.turn;
        let robots_len = self.robots.len();
        let ghost w = self.valid.spec_width();
        let ghost h = self.valid.spec_height();
        let mut emitted: Vec<Command> = Vec::new();
        let mut idx: usize = 0;
        while idx < robots_len
            invariant
                idx <= robots_len,
                emitted@.len() == idx,
                robots_len == old(self).robots@.len(),
                self.robots@.len() >= robots_len,
                old(self).wf(),
                self.turn == turn,
                turn == old(self).turn,
                turn < MAX_TURNS,
                w == self.valid.spec_width(),
                h == self.valid.spec_height(),
                self.grids_wf(),
                self.valid == old(self).valid,
                self.remaining_pass == ucount(
                    self.valid.spec_inner(),
                    self.passed.spec_inner(),
                    w * h,
                ),
                self.remaining_pass > 0,
                idx == 0 ==> self.passed == old(self).passed && self.robots@[0] == old(
                    self,
                ).robots@[0],
                idx >= 1 ==> ({
                    let r0 = old(self).robots@[0];
                    forall|x: int, y: int|
                        (self.passed.spec_in(x, y) && (old(self).passed.spec_at(x, y) || exists|
                            b: int,
                        |
                            0 <= b < r0.bodies_diff@.len() && #[trigger] spec_hand_reach(
                                old(self).valid,
                                r0.current_place,
                                r0.bodies_diff@[b],
                            ) == Some(Point { x: x as i32, y: y as i32 }))) ==> (
                        #[trigger] self.passed.spec_at(x, y))
                }),
                forall|i: int|
                    0 <= i < idx ==> robot_core(
                        #[trigger] self.robots@[i],
                        self.valid,
                        turn + 1,
                    ) && self.robots@[i].birth@ <= turn && self.robots@[i].executed@.len()
                        + self.robots@[i].birth@ == turn,
                forall|i: int|
                    idx <= i < robots_len ==> robot_ok(
                        #[trigger] self.robots@[i],
                        self.valid,
                        turn as int,
                    ),
                forall|i: int|
                    robots_len <= i < self.robots@.len() ==> robot_core(
                        #[trigger] self.robots@[i],
                        self.valid,
                        turn + 1,
                    ) && self.robots@[i].executed@.len() == 0 && self.robots@[i].birth@ == turn
                        + 1,
                self.robots@[0].birth@ == 0,
                forall|i: int|
                    0 <= i < robots_len ==> (#[trigger] self.robots@[i]).executed@ == old(
                        self,
                    ).robots@[i].executed@,
                self.robots@.len() == 1 + total_cloning(old(self).robots@, robots_len as int)
                    + count_cloning(emitted@),
            decreases robots_len - idx,
        {
            self.pass_current_point(idx);
            if self.remaining_pass == 0 {
                proof {
                    lemma_total_cloning_prefix(
                        self.robots@,
                        old(self).robots@,
                        robots_len as int,
                    );
                }
                self.abort_turn(idx, robots_len, Ghost(w), Ghost(h));
                return false;
            }
            self.fill_next_command(idx);
            let cmd = self.robots[idx].commands[turn];
            let ghost pre_robots = self.robots@;
            match cmd {
                Command::Move(_mv) => {
                    self.apply_move(idx, turn);
                    proof {
                        assert(self.robots@ =~= pre_robots.update(
                            idx as int,
                            self.robots@[idx as int],
                        ));
                        lemma_total_cloning_update(
                            pre_robots,
                            idx as int,
                            self.robots@[idx as int],
                            robots_len as int,
                        );
                    }
                },
                Command::NewHand(_p) => {
                    self.apply_new_hand(idx, turn);
                    proof {
                        assert(self.robots@ =~= pre_robots.update(
                            idx as int,
                            self.robots@[idx as int],
                        ));
                        lemma_total_cloning_update(
                            pre_robots,
                            idx as int,
                            self.robots@[idx as int],
                            robots_len as int,
                        );
                        let r1 = self.robots@[idx as int];
                        assert(cmds_moves_ok(
                            r1.current_place,
                            r1.commands@.skip(turn + 1),
                            self.valid,
                        )) by {
                            assert(r1.commands@.skip(turn + 1) =~= Seq::<Command>::empty());
                        }
                        assert forall|i2: int|
                            0 <= i2 < r1.bodies_diff@.len() implies offset_ok(
                            #[trigger] r1.bodies_diff@[i2],
                        ) by {
                            if i2 < r1.bodies_diff@.len() - 1 {
                                assert(r1.bodies_diff@[i2] == pre_robots[idx as int]
                                    .bodies_diff@[i2]);
                            } else {
                                assert(r1.bodies_diff@[i2] == r1.bodies_diff@.last());
                            }
                        }
                    }
                },
                Command::Cloning => {
                    self.apply_clone(idx, turn);
                    proof {
                        let nr = self.robots@.last();
                        assert(cmds_moves_ok(
                            nr.current_place,
                            nr.commands@.skip(turn + 1),
                            self.valid,
                        )) by {
                            assert(nr.commands@.skip(turn + 1) =~= Seq::<Command>::empty());
                        }
                        lemma_total_cloning_prefix(
                            self.robots@,
                            pre_robots,
                            robots_len as int,
                        );
                    }
                },
                _ => {
                    proof {
                        assert(false);
                    }
                },
            }
            let ghost pre_emitted = emitted@;
            emitted.push(cmd);
            proof {
                lemma_count_cloning_push(pre_emitted, cmd);
            }
            idx += 1;
        }
        let ghost before_append = self.robots@;
        proof {
            lemma_total_cloning_prefix(self.robots@, old(self).robots@, robots_len as int);
            assert(emitted@.skip(0) =~= emitted@);
        }
        let mut k: usize = 0;
        while k < robots_len
            invariant
                k <= robots_len,
                robots_len <= self.robots@.len(),
                robots_len >= 1,
                old(self).wf(),
                self.robots@.len() == before_append.len(),
                emitted@.len() == robots_len,
                self.turn == turn,
                turn == old(self).turn,
                turn < MAX_TURNS,
                w == self.valid.spec_width(),
                h == self.valid.spec_height(),
                self.grids_wf(),
                self.valid == old(self).valid,
                self.remaining_pass == ucount(
                    self.valid.spec_inner(),
                    self.passed.spec_inner(),
                    w * h,
                ),
                self.remaining_pass > 0,
                ({
                    let r0 = old(self).robots@[0];
                    forall|x: int, y: int|
                        (self.passed.spec_in(x, y) && (old(self).passed.spec_at(x, y) || exists|
                            b: int,
                        |
                            0 <= b < r0.bodies_diff@.len() && #[trigger] spec_hand_reach(
                                old(self).valid,
                                r0.current_place,
                                r0.bodies_diff@[b],
                            ) == Some(Point { x: x as i32, y: y as i32 }))) ==> (
                        #[trigger] self.passed.spec_at(x, y))
                }),
                forall|i: int|
                    0 <= i < k ==> robot_ok(#[trigger] self.robots@[i], self.valid, turn + 1),
                forall|i: int|
                    k <= i < robots_len ==> (#[trigger] self.robots@[i]) == before_append[i],
                forall|i: int|
                    k <= i < robots_len ==> robot_core(
                        #[trigger] self.robots@[i],
                        self.valid,
                        turn + 1,
                    ) && self.robots@[i].birth@ <= turn && self.robots@[i].executed@.len()
                        + self.robots@[i].birth@ == turn,
                forall|i: int|
                    robots_len <= i < self.robots@.len() ==> (#[trigger] self.robots@[i])
                        == before_append[i],
                forall|i: int|
                    robots_len <= i < self.robots@.len() ==> robot_core(
                        #[trigger] self.robots@[i],
                        self.valid,
                        turn + 1,
                    ) && self.robots@[i].executed@.len() == 0 && self.robots@[i].birth@ == turn
                        + 1,
                self.robots@[0].birth@ == 0,
                self.robots@.len() == 1 + total_cloning(self.robots@, robots_len as int)
                    + count_cloning(emitted@.skip(k as int)),
            decreases robots_len - k,
        {
            let ghost pre_robots = self.robots@;
            let mut r = self.robots.remove(k);
            let c = emitted[k];
            r.executed.push(c);
            self.robots.insert(k, r);
            proof {
                assert(self.robots@ =~= pre_robots.update(k as int, r));
                lemma_total_cloning_update(pre_robots, k as int, r, robots_len as int);
                lemma_count_cloning_push(pre_robots[k as int].executed@, c);
                lemma_count_cloning_front(emitted@.skip(k as int));
                assert(emitted@.skip(k as int)[0] == emitted@[k as int]);
                assert(emitted@.skip(k as int).skip(1) =~= emitted@.skip(k + 1));
            }
            k += 1;
        }
        self.turn = turn + 1;
        proof {
            assert(count_cloning(emitted@.skip(robots_len as int)) == 0) by {
                assert(emitted@.skip(robots_len as int) =~= Seq::<Command>::empty());
            }
            lemma_total_cloning_extend(
                self.robots@,
                robots_len as int,
                self.robots@.len() as int,
            );
        }
        self.remaining_pass > 0
    }

    /// Discard the partial turn after coverage completed mid-turn: trim
    /// the processed robots' buffers back to the turn boundary and drop
    /// the robots cloned this turn.
    #[verifier::loop_isolation(false)]
    fn abort_turn(&mut self, idx: usize, robots_len: usize, ghost_w: Ghost<int>, ghost_h: Ghost<int>)
        requires
            idx <= robots_len <= old(self).robots@.len(),
            robots_len >= 1,
            old(self).grids_wf(),
            ghost_w@ == old(self).valid.spec_width(),
            ghost_h@ == old(self).valid.spec_height(),
            old(self).remaining_pass == ucount(
                old(self).valid.spec_inner(),
                old(self).passed.spec_inner(),
                ghost_w@ * ghost_h@,
            ),
            old(self).turn <= MAX_TURNS,
            forall|i: int|
                0 <= i < idx ==> robot_core(
                    #[trigger] old(self).robots@[i],
                    old(self).valid,
                    old(self).turn + 1,
                ) && old(self).robots@[i].birth@ <= old(self).turn && old(
                    self,
                ).robots@[i].executed@.len() + old(self).robots@[i].birth@ == old(self).turn,
            forall|i: int|
                idx <= i < robots_len ==> robot_ok(
                    #[trigger] old(self).robots@[i],
                    old(self).valid,
                    old(self).turn as int,
                ),
            old(self).robots@[0].birth@ == 0,
            robots_len == 1 + total_cloning(old(self).robots@, robots_len as int),
        ensures
            final(self).wf(),
            final(self).valid == old(self).valid,
            final(self).passed == old(self).passed,
            final(self).turn == old(self).turn,
            final(self).remaining_pass == old(self).remaining_pass,
            final(self).robots@.len() == robots_len,
    {
        let turn = self.turn;
        let mut ci: usize = 0;
        while ci < idx
            invariant
                ci <= idx,
                idx <= robots_len <= self.robots@.len(),
                self.robots@.len() == old(self).robots@.len(),
                self.turn == turn,
                turn == old(self).turn,
                *self == (State { robots: self.robots, ..*old(self) }),
                forall|i: int|
                    0 <= i < ci ==> robot_ok(
                        #[trigger] self.robots@[i],
                        self.valid,
                        turn as int,
                    ) && self.robots@[i].birth@ <= turn,
                forall|i: int| ci <= i < self.robots@.len() ==> (#[trigger] self.robots@[i]) == old(
                    self,
                ).robots@[i],
                forall|i: int|
                    0 <= i < robots_len ==> (#[trigger] self.robots@[i]).executed@ == old(
                        self,
                    ).robots@[i].executed@,
                forall|i: int|
                    0 <= i < robots_len ==> (#[trigger] self.robots@[i]).birth@ == old(
                        self,
                    ).robots@[i].birth@,
            decreases idx - ci,
        {
            let ghost pre_robots = self.robots@;
            let mut r = self.robots.remove(ci);
            r.commands.truncate(turn);
            proof {
                assert(r.commands@.skip(turn as int) =~= Seq::<Command>::empty());
            }
            self.robots.insert(ci, r);
            proof {
                assert(self.robots@ =~= pre_robots.update(ci as int, r));
            }
            ci += 1;
        }
        self.robots.truncate(robots_len);
        proof {
            lemma_total_cloning_prefix(self.robots@, old(self).robots@, robots_len as int);
        }
    }
}


/// A floor cell of a task: inside the room polygon and inside no obstacle.
pub open spec fn is_floor(map: Seq<Point>, obstacles: Seq<Seq<Point>>, x: int, y: int) -> bool {
    cell_inside(map, x, y) && !(exists|k: int|
        0 <= k < obstacles.len() && cell_inside(#[trigger] obstacles[k], x, y))
}

/// The booster lying on cell (x, y) after placing the list in order: the
/// last booster at that cell wins, as with repeated grid stores.
pub open spec fn spec_booster_at(bs: Seq<Booster>, x: int, y: int) -> Option<BoosterType>
    decreases bs.len(),
{
    if bs.len() == 0 {
        None
    } else if bs.last().point.x == x && bs.last().point.y == y {
        Some(bs.last().kind)
    } else {
        spec_booster_at(bs.drop_last(), x, y)
    }
}

/// Number of boosters of kind `k` among the first `n`.
pub open spec fn spec_count_kind(bs: Seq<Booster>, k: BoosterType, n: int) -> int
    decreases n,
{
    if n <= 0 {
        0
    } else {
        spec_count_kind(bs, k, n - 1) + if bs[n - 1].kind == k {
            1int
        } else {
            0int
        }
    }
}

/// The conditions under which a task cannot be set up: a degenerate or
/// oversized grid, an empty or open room outline, a room cell or booster
/// off the grid, an open obstacle outline, or a starting point that is
/// not a floor cell. The solver refuses exactly these tasks.
pub open spec fn setup_fails(task: Task) -> bool {
    ||| task.width < 1
    ||| task.height < 1
    ||| task.width > MAX_DIM
    ||| task.height > MAX_DIM
    ||| task.map.vertices().len() == 0
    ||| exists|x: int| col_odd(task.map.vertices(), x)
    ||| exists|x: int, y: int|
        i32::MIN <= x <= i32::MAX && i32::MIN <= y <= i32::MAX && cell_inside(
            task.map.vertices(),
            x,
            y,
        ) && !(0 <= x < task.width && 0 <= y < task.height)
    ||| exists|i: int|
        0 <= i < task.boosters@.len() && !(0 <= (#[trigger] task.boosters@[i]).point.x
            < task.width && 0 <= task.boosters@[i].point.y < task.height)
    ||| exists|k: int|
        0 <= k < task.obstacles@.len() && (#[trigger] task.obstacles@[k]).0@.len() >= 1 && (
        exists|x: int| col_odd(task.obstacles@[k].0@, x))
    ||| !(0 <= task.initial.x < task.width && 0 <= task.initial.y < task.height && is_floor(
        task.map.vertices(),
        task.obstacles@.map_values(|m: crate::map::Polygon| m.0@),
        task.initial.x as int,
        task.initial.y as int,
    ))
}

/// Updating one cell of both grids adjusts the uncovered count by the
/// difference of the cell's indicators.
pub proof fn lemma_ucount_set(v: Seq<bool>, p: Seq<bool>, i: int, nv: bool, np: bool, n: int)
    requires
        0 <= i < v.len(),
        0 <= i < p.len(),
        n <= v.len(),
        n <= p.len(),
    ensures
        ucount(v.update(i, nv), p.update(i, np), n) == ucount(v, p, n) + if i < n {
            (if nv && !np {
                1int
            } else {
                0int
            }) - (if v[i] && !p[i] {
                1int
            } else {
                0int
            })
        } else {
            0int
        },
    decreases n,
{
    if n > 0 {
        lemma_ucount_set(v, p, i, nv, np, n - 1);
    }
}

/// With no floor cells at all the uncovered count is zero.
proof fn lemma_ucount_all_invalid(v: Seq<bool>, p: Seq<bool>, n: int)
    requires
        forall|j: int| 0 <= j < v.len() ==> !(#[trigger] v[j]),
        n <= v.len(),
    ensures
        ucount(v, p, n) == 0,
    decreases n,
{
    if n > 0 {
        lemma_ucount_all_invalid(v, p, n - 1);
    }
}

/// Relies on std::time::SystemTime: the wall clock as milliseconds since
/// the Unix epoch; nothing is promised of its value.
#[verifier::external_body]
fn now_millis() -> u64 {
    match std::time::SystemTime::now().duration_since(std::time::UNIX_EPOCH) {
        Ok(d) => d.as_millis() as u64,
        Err(_) => 0,
    }
}

/// Copy a command sequence.
fn copy_cmds(v: &Vec<Command>) -> (r: Vec<Command>)
    ensures
        r@ == v@,
{
    let n = v.len();
    let mut out: Vec<Command> = Vec::new();
    let mut i: usize = 0;
    while i < n
        invariant
            i <= n,
            n == v@.len(),
            out@ =~= v@.take(i as int),
        decreases n - i,
    {
        out.push(v[i]);
        proof {
            assert(out@ =~= v@.take(i + 1));
        }
        i += 1;
    }
    proof {
        assert(v@.take(n as int) =~= v@);
    }
    out
}

impl State {
    /// Build the starting state of one attempt: grids sized to the task,
    /// floor cells from the room polygon minus the obstacle interiors, the
    /// boosters placed, and the single initial robot facing right at the
    /// task's starting point. None when the polygons cannot be enumerated,
    /// the grid is degenerate or oversized, a point lies off the grid, or
    /// the starting point is not a floor cell; the original treats these
    /// as fatal.
    #[verifier::loop_isolation(false)]
    #[verifier::rlimit(100)]
    pub fn initialize(task: &Task) -> (r: Option<State>)
        ensures
            r is Some <==> !setup_fails(*task),
            match r {
                Some(st) => {
                    &&& st.wf()
                    &&& st.turn == 0
                    &&& st.robots@.len() == 1
                    &&& st.robots@[0].executed@.len() == 0
                    &&& st.robots@[0].commands@.len() == 0
                    &&& st.robots@[0].current_place == (Place {
                        point: task.initial,
                        dir: Direction::Right,
                    })
                    &&& st.robots@[0].bodies_diff@ == seq![
                        Point { x: 0, y: 0 },
                        Point { x: 1, y: 1 },
                        Point { x: 1, y: 0 },
                        Point { x: 1, y: -1i32 },
                    ]
                    &&& st.robots@[0].new_bodies@.len() == 12
                    &&& st.hand_count == 0
                    &&& st.tele_count == 0
                    &&& st.clone_count == 0
                    &&& st.remaining_hand == spec_count_kind(
                        task.boosters@,
                        BoosterType::NewHand,
                        task.boosters@.len() as int,
                    )
                    &&& st.remaining_clone == (if exists|i: int|
                        0 <= i < task.boosters@.len() && (#[trigger] task.boosters@[i]).kind
                            == BoosterType::Spawn {
                        spec_count_kind(
                            task.boosters@,
                            BoosterType::Cloning,
                            task.boosters@.len() as int,
                        )
                    } else {
                        0int
                    })
                    &&& st.valid.spec_width() == task.width
                    &&& st.valid.spec_height() == task.height
                    &&& forall|x: int, y: int|
                        st.valid.spec_in(x, y) ==> (#[trigger] st.valid.spec_at(x, y)) == is_floor(
                            task.map.vertices(),
                            task.obstacles@.map_values(|m: crate::map::Polygon| m.0@),
                            x,
                            y,
                        )
                    &&& forall|x: int, y: int|
                        st.valid.spec_in(x, y) ==> (#[trigger] st.passed.spec_at(x, y))
                            == !st.valid.spec_at(x, y)
                    &&& forall|x: int, y: int|
                        st.booster_map.spec_in(x, y) ==> (#[trigger] st.booster_map.spec_at(x, y))
                            == spec_booster_at(task.boosters@, x, y)
                },
                None => true,
            },
    {
        let width = task.width;
        let height = task.height;
        if width < 1 || height < 1 || width > MAX_DIM || height > MAX_DIM {
            proof {
                assert(setup_fails(*task));
            }
            return None;
        }
        let ghost w = width as int;
        let ghost h = height as int;
        proof {
            assert(w * h <= 900000000) by (nonlinear_arith)
                requires
                    1 <= w && w <= 30000 && 1 <= h && h <= 30000,
            ;
        }
        if task.map.len() == 0 {
            proof {
                assert(setup_fails(*task));
            }
            return None;
        }
        let map_points = match task.map.enumerate_points() {
            None => {
                proof {
                    assert(setup_fails(*task));
                }
                return None;
            },
            Some(ps) => ps,
        };
        let mut valid: Matrix<bool> = Matrix::new(width, height, false);
        let mut passed: Matrix<bool> = Matrix::new(width, height, true);
        let mut booster_map: Matrix<Option<BoosterType>> = Matrix::new(width, height, None);
        let mut remaining_pass: usize = 0;
        proof {
            lemma_ucount_all_invalid(valid.spec_inner(), passed.spec_inner(), w * h);
        }
        let ghost vs = task.map.vertices();
        let np = map_points.len();
        let mut i: usize = 0;
        while i < np
            invariant
                i <= np,
                np == map_points@.len(),
                valid.wf() && valid.spec_width() == w && valid.spec_height() == h,
                passed.wf() && passed.spec_width() == w && passed.spec_height() == h,
                remaining_pass == ucount(valid.spec_inner(), passed.spec_inner(), w * h),
                forall|j: int|
                    0 <= j < w * h ==> (!(#[trigger] passed.spec_inner()[j])
                        ==> valid.spec_inner()[j]),
                forall|x: int, y: int|
                    valid.spec_in(x, y) ==> ((#[trigger] valid.spec_at(x, y)) ==> cell_inside(
                        vs,
                        x,
                        y,
                    )),
                forall|x: int, y: int|
                    valid.spec_in(x, y) && cell_inside(vs, x, y) && (exists|j: int|
                        0 <= j < i && map_points@[j] == (Point { x: x as i32, y: y as i32 }))
                        ==> (#[trigger] valid.spec_at(x, y)),
                forall|j: int|
                    0 <= j < i ==> 0 <= (#[trigger] map_points@[j]).x < width && 0
                        <= map_points@[j].y < height,
                forall|x: int, y: int|
                    valid.spec_in(x, y) ==> (#[trigger] passed.spec_at(x, y)) == !valid.spec_at(
                        x,
                        y,
                    ),
            decreases np - i,
        {
            let p = map_points[i];
            match valid.get(p) {
                None => {
                    proof {
                        assert(map_points@.contains(p));
                        assert(cell_inside(vs, p.x as int, p.y as int));
                        assert(!(0 <= p.x < width && 0 <= p.y < height));
                        assert(setup_fails(*task));
                    }
                    return None;
                },
                Some(true) => (),
                Some(false) => {
                    let ghost ov = valid.spec_inner();
                    let ghost op = passed.spec_inner();
                    let ghost idxp = (p.y as int) * w + (p.x as int);
                    proof {
                        valid.lemma_index(p.x as int, p.y as int);
                        lemma_ucount_set(ov, op, idxp, true, false, w * h);
                        lemma_ucount_bounds(ov, op, w * h);
                        lemma_ucount_bounds(ov.update(idxp, true), op.update(idxp, false), w * h);
                    }
                    valid.set(p, true);
                    passed.set(p, false);
                    remaining_pass = remaining_pass + 1;
                    proof {
                        assert(map_points@.contains(p));
                        assert(cell_inside(vs, p.x as int, p.y as int));
                    }
                },
            }
            i += 1;
        }
        proof {
            assert forall|x: int, y: int|
                valid.spec_in(x, y) implies (#[trigger] valid.spec_at(x, y)) == cell_inside(
                vs,
                x,
                y,
            ) by {
                if cell_inside(vs, x, y) {
                    let pt = Point { x: x as i32, y: y as i32 };
                    assert(map_points@.contains(pt));
                    let j = choose|j: int| 0 <= j < map_points@.len() && map_points@[j] == pt;
                    assert(0 <= j < np && map_points@[j] == pt);
                }
            }
        }
        let mut remaining_hand: usize = 0;
        let mut remaining_clone: usize = 0;
        let ghost bs = task.boosters@;
        let nb = task.boosters.len();
        let mut bi: usize = 0;
        while bi < nb
            invariant
                bi <= nb,
                nb == bs.len(),
                bs == task.boosters@,
                remaining_hand <= bi,
                remaining_clone <= bi,
                remaining_hand == spec_count_kind(bs, BoosterType::NewHand, bi as int),
                remaining_clone == spec_count_kind(bs, BoosterType::Cloning, bi as int),
                forall|j: int|
                    0 <= j < bi ==> 0 <= (#[trigger] bs[j]).point.x < width && 0 <= bs[j].point.y
                        < height,
                booster_map.wf() && booster_map.spec_width() == w && booster_map.spec_height()
                    == h,
                forall|x: int, y: int|
                    booster_map.spec_in(x, y) ==> (#[trigger] booster_map.spec_at(x, y))
                        == spec_booster_at(bs.take(bi as int), x, y),
            decreases nb - bi,
        {
            let b = task.boosters[bi];
            let ghost pre_map = booster_map;
            match booster_map.try_set(b.point, Some(b.kind)) {
                None => {
                    proof {
                        assert(!(0 <= b.point.x < width && 0 <= b.point.y < height));
                        assert(setup_fails(*task));
                    }
                    return None;
                },
                Some(_) => (),
            }
            proof {
                assert(bs.take(bi + 1).drop_last() =~= bs.take(bi as int));
                assert(bs.take(bi + 1).last() == bs[bi as int]);
                assert forall|x: int, y: int|
                    booster_map.spec_in(x, y) implies (#[trigger] booster_map.spec_at(x, y))
                    == spec_booster_at(bs.take(bi + 1), x, y) by {
                    if x == b.point.x as int && y == b.point.y as int {
                    } else {
                        assert(booster_map.spec_at(x, y) == pre_map.spec_at(x, y));
                    }
                }
            }
            match b.kind {
                BoosterType::Cloning => {
                    remaining_clone = remaining_clone + 1;
                },
                BoosterType::NewHand => {
                    remaining_hand = remaining_hand + 1;
                },
                _ => (),
            }
            bi += 1;
        }
        proof {
            assert(bs.take(nb as int) =~= bs);
        }
        let mut has_spawn = false;
        let mut si: usize = 0;
        while si < nb
            invariant
                si <= nb,
                nb == bs.len(),
                bs == task.boosters@,
                has_spawn == exists|j: int|
                    0 <= j < si && (#[trigger] bs[j]).kind == BoosterType::Spawn,
            decreases nb - si,
        {
            match task.boosters[si].kind {
                BoosterType::Spawn => {
                    has_spawn = true;
                    proof {
                        assert(0 <= si < si + 1 && bs[si as int].kind == BoosterType::Spawn);
                    }
                },
                _ => (),
            }
            si += 1;
        }
        if !has_spawn {
            remaining_clone = 0;
        }
        let ghost obs = task.obstacles@.map_values(|m: crate::map::Polygon| m.0@);
        let no = task.obstacles.len();
        let mut oi: usize = 0;
        while oi < no
            invariant
                oi <= no,
                no == task.obstacles@.len(),
                obs == task.obstacles@.map_values(|m: crate::map::Polygon| m.0@),
                valid.wf() && valid.spec_width() == w && valid.spec_height() == h,
                passed.wf() && passed.spec_width() == w && passed.spec_height() == h,
                remaining_pass == ucount(valid.spec_inner(), passed.spec_inner(), w * h),
                forall|j: int|
                    0 <= j < w * h ==> (!(#[trigger] passed.spec_inner()[j])
                        ==> valid.spec_inner()[j]),
                forall|x: int, y: int|
                    valid.spec_in(x, y) ==> (#[trigger] valid.spec_at(x, y)) == (cell_inside(
                        vs,
                        x,
                        y,
                    ) && !(exists|k: int|
                        0 <= k < oi && cell_inside(#[trigger] obs[k], x, y))),
                forall|x: int, y: int|
                    valid.spec_in(x, y) ==> (#[trigger] passed.spec_at(x, y)) == !valid.spec_at(
                        x,
                        y,
                    ),
                forall|k: int|
                    0 <= k < oi ==> ((#[trigger] task.obstacles@[k]).0@.len() >= 1 ==> !(exists|
                        x2: int,
                    |
                        col_odd(task.obstacles@[k].0@, x2))),
            decreases no - oi,
        {
            let ob = &task.obstacles[oi];
            if ob.len() > 0 {
                let ghost ovs = ob.vertices();
                let o_points = match ob.enumerate_points() {
                    None => {
                        proof {
                            assert(task.obstacles@[oi as int].0@.len() >= 1);
                            assert(exists|x2: int| col_odd(task.obstacles@[oi as int].0@, x2));
                            assert(setup_fails(*task));
                        }
                        return None;
                    },
                    Some(ps) => ps,
                };
                let nop = o_points.len();
                let mut pi: usize = 0;
                while pi < nop
                    invariant
                        pi <= nop,
                        nop == o_points@.len(),
                        oi < no,
                        ovs == obs[oi as int],
                        forall|q: Point|
                            #[trigger] o_points@.contains(q) <==> cell_inside(
                                ovs,
                                q.x as int,
                                q.y as int,
                            ),
                        valid.wf() && valid.spec_width() == w && valid.spec_height() == h,
                        passed.wf() && passed.spec_width() == w && passed.spec_height() == h,
                        remaining_pass == ucount(valid.spec_inner(), passed.spec_inner(), w * h),
                        forall|j: int|
                            0 <= j < w * h ==> (!(#[trigger] passed.spec_inner()[j])
                                ==> valid.spec_inner()[j]),
                        forall|x: int, y: int|
                            valid.spec_in(x, y) ==> ((#[trigger] valid.spec_at(x, y)) ==> (
                            cell_inside(vs, x, y) && !(exists|k: int|
                                0 <= k < oi && cell_inside(#[trigger] obs[k], x, y)))),
                        forall|x: int, y: int|
                            valid.spec_in(x, y) && (cell_inside(vs, x, y) && !(exists|k: int|
                                0 <= k < oi && cell_inside(#[trigger] obs[k], x, y)))
                                && !cell_inside(ovs, x, y) ==> (#[trigger] valid.spec_at(x, y)),
                        forall|x: int, y: int|
                            valid.spec_in(x, y) && (#[trigger] valid.spec_at(x, y)) && (exists|
                                j: int,
                            |
                                0 <= j < pi && o_points@[j] == (Point { x: x as i32, y: y as i32 }))
                                ==> false,
                        forall|x: int, y: int|
                            valid.spec_in(x, y) ==> (#[trigger] passed.spec_at(x, y))
                                == !valid.spec_at(x, y),
                    decreases nop - pi,
                {
                    let q = o_points[pi];
                    match valid.get(q) {
                        Some(true) => {
                            let ghost ov = valid.spec_inner();
                            let ghost op = passed.spec_inner();
                            let ghost idxp = (q.y as int) * w + (q.x as int);
                            proof {
                                valid.lemma_index(q.x as int, q.y as int);
                                assert(valid.spec_at(q.x as int, q.y as int) == true);
                                assert(passed.spec_at(q.x as int, q.y as int) == false);
                                assert(ov[idxp] == true && op[idxp] == false);
                                lemma_ucount_set(ov, op, idxp, false, true, w * h);
                                lemma_ucount_bounds(ov, op, w * h);
                                lemma_ucount_bounds(
                                    ov.update(idxp, false),
                                    op.update(idxp, true),
                                    w * h,
                                );
                            }
                            valid.set(q, false);
                            passed.set(q, true);
                            remaining_pass = remaining_pass - 1;
                            proof {
                                assert(o_points@.contains(q));
                                assert(cell_inside(ovs, q.x as int, q.y as int));
                            }
                        },
                        _ => (),
                    }
                    pi += 1;
                }
                proof {
                    assert forall|x: int, y: int|
                        valid.spec_in(x, y) implies (#[trigger] valid.spec_at(x, y)) == (
                    cell_inside(vs, x, y) && !(exists|k: int|
                        0 <= k < oi + 1 && cell_inside(#[trigger] obs[k], x, y))) by {
                        if valid.spec_at(x, y) {
                            let pt = Point { x: x as i32, y: y as i32 };
                            if cell_inside(ovs, x, y) {
                                assert(o_points@.contains(pt));
                                let j = choose|j: int|
                                    0 <= j < o_points@.len() && o_points@[j] == pt;
                                assert(false);
                            }
                            assert forall|k: int| 0 <= k < oi + 1 implies !cell_inside(
                                #[trigger] obs[k],
                                x,
                                y,
                            ) by {
                                if k == oi {
                                    assert(!cell_inside(ovs, x, y));
                                }
                            }
                        } else {
                            if cell_inside(vs, x, y) && !(exists|k: int|
                                0 <= k < oi && cell_inside(#[trigger] obs[k], x, y)) {
                                assert(cell_inside(ovs, x, y));
                                assert(0 <= oi < oi + 1 && cell_inside(obs[oi as int], x, y));
                            }
                        }
                    }
                }
            } else {
                proof {
                    assert forall|x: int, y: int|
                        valid.spec_in(x, y) implies (#[trigger] valid.spec_at(x, y)) == (
                    cell_inside(vs, x, y) && !(exists|k: int|
                        0 <= k < oi + 1 && cell_inside(#[trigger] obs[k], x, y))) by {
                        assert(obs[oi as int].len() == 0);
                        assert(!cell_inside(obs[oi as int], x, y));
                        assert forall|k: int|
                            0 <= k < oi + 1 && cell_inside(#[trigger] obs[k], x, y) implies 0 <= k
                            < oi && cell_inside(obs[k], x, y) by {}
                    }
                }
            }
            oi += 1;
        }
        let initial_place = Place::new(task.initial, Direction::Right);
        let at_initial = valid.get(task.initial);
        match at_initial {
            Some(true) => (),
            _ => {
                proof {
                    assert(at_initial != Some(true));
                    assert(setup_fails(*task));
                }
                return None;
            },
        }
        proof {
            assert(valid.spec_get(task.initial) == Some(true));
            assert(valid.spec_in(task.initial.x as int, task.initial.y as int));
            assert(valid.spec_at(task.initial.x as int, task.initial.y as int));
            assert(is_floor(vs, obs, task.initial.x as int, task.initial.y as int));
        }
        let robot = Robot {
            current_place: initial_place,
            bodies_diff: initial_bodies(),
            new_bodies: primary_new_bodies(),
            commands: Vec::new(),
            executed: Vec::new(),
            birth: Ghost(0usize),
        };
        let mut robots: Vec<Robot> = Vec::new();
        robots.push(robot);
        let st = State {
            turn: 0,
            valid,
            passed,
            booster_map,
            remaining_hand,
            remaining_clone,
            remaining_pass,
            hand_count: 0,
            tele_count: 0,
            clone_count: 0,
            robots,
        };
        proof {
            assert(st.robots@[0].commands@.skip(0) =~= Seq::<Command>::empty());
            assert(st.robots@[0].executed@ =~= Seq::<Command>::empty());
            assert(count_cloning(st.robots@[0].executed@) == 0);
            assert(total_cloning(st.robots@, 0) == 0);
            assert(total_cloning(st.robots@, 1) == 0);
            assert(!setup_fails(*task)) by {
                assert forall|x: int, y: int|
                    i32::MIN <= x <= i32::MAX && i32::MIN <= y <= i32::MAX && cell_inside(
                        vs,
                        x,
                        y,
                    ) implies (0 <= x < task.width && 0 <= y < task.height) by {
                    let pt = Point { x: x as i32, y: y as i32 };
                    assert(pt.x as int == x && pt.y as int == y);
                    assert(map_points@.contains(pt));
                    let j = choose|j: int| 0 <= j < map_points@.len() && map_points@[j] == pt;
                }
                assert(0 <= task.initial.x < task.width && 0 <= task.initial.y < task.height
                    && is_floor(vs, obs, task.initial.x as int, task.initial.y as int));
            }
        }
        Some(st)
    }

    /// The executed command sequences of all robots, robot 0 first.
    pub fn commands(&self) -> (r: Commands)
        requires
            self.robots@.len() >= 1,
        ensures
            r.wf(),
            r.seqs() == self.robots@.map_values(|rb: Robot| rb.executed@),
    {
        let n = self.robots.len();
        let mut out: Vec<Vec<Command>> = Vec::new();
        let mut i: usize = 0;
        while i < n
            invariant
                i <= n,
                n == self.robots@.len(),
                out@.len() == i,
                forall|j: int| 0 <= j < i ==> (#[trigger] out@[j])@ == self.robots@[j].executed@,
            decreases n - i,
        {
            let c = copy_cmds(&self.robots[i].executed);
            out.push(c);
            i += 1;
        }
        let r = Commands::new(out);
        proof {
            assert(r.seqs() =~= self.robots@.map_values(|rb: Robot| rb.executed@));
        }
        r
    }
}

/// A fully covered state leaves no floor cell uncovered: with
/// `remaining_pass` zero, every floor cell of the grid is passed.
pub proof fn lemma_covered(st: State)
    requires
        st.wf(),
        st.remaining_pass == 0,
    ensures
        forall|x: int, y: int|
            st.valid.spec_in(x, y) && st.valid.spec_at(x, y) ==> (#[trigger] st.passed.spec_at(
                x,
                y,
            )),
{
    let w = st.valid.spec_width();
    let h = st.valid.spec_height();
    lemma_ucount_zero(st.valid.spec_inner(), st.passed.spec_inner(), w * h);
    assert forall|x: int, y: int|
        st.valid.spec_in(x, y) && st.valid.spec_at(x, y) implies (#[trigger] st.passed.spec_at(
        x,
        y,
    )) by {
        st.valid.lemma_index(x, y);
    }
}

/// Robot 0's record is one command per turn from the start, every other
/// robot's record is at most as long, and the robots number exactly one
/// more than the Cloning commands carried out.
pub proof fn lemma_robot_records(st: State)
    requires
        st.wf(),
    ensures
        st.robots@.len() >= 1,
        st.robots@[0].executed@.len() == st.turn,
        forall|i: int|
            0 <= i < st.robots@.len() ==> (#[trigger] st.robots@[i]).executed@.len() <= st.turn,
        st.robots@.len() == 1 + total_cloning(st.robots@, st.robots@.len() as int),
        forall|i: int|
            0 <= i < st.robots@.len() ==> st.valid.spec_get(
                (#[trigger] st.robots@[i]).current_place.point,
            ) == Some(true),
        forall|i: int|
            0 <= i < st.robots@.len() ==> (#[trigger] st.robots@[i]).bodies_diff@.len() >= 1
                && st.robots@[i].bodies_diff@[0] == (Point { x: 0, y: 0 }),
{
}

/// The vertex lists of a task's obstacles.
pub open spec fn task_obstacle_views(task: Task) -> Seq<Seq<Point>> {
    task.obstacles@.map_values(|m: crate::map::Polygon| m.0@)
}

/// The robot's starting placement for a task: the initial point, facing
/// right.
pub open spec fn initial_place_of(task: Task) -> Place {
    Place { point: task.initial, dir: Direction::Right }
}

/// The four initial manipulator offsets in the canonical frame.
pub open spec fn initial_offsets() -> Seq<Point> {
    seq![
        Point { x: 0, y: 0 },
        Point { x: 1, y: 1 },
        Point { x: 1, y: 0 },
        Point { x: 1, y: -1i32 },
    ]
}

/// Every floor cell of the task lies under the initial manipulator, so
/// the first turn's sweep covers the whole room; on such tasks the solver
/// is obliged to succeed.
pub open spec fn covered_at_start(task: Task) -> bool {
    forall|x: int, y: int|
        (0 <= x < task.width && 0 <= y < task.height && #[trigger] is_floor(
            task.map.vertices(),
            task_obstacle_views(task),
            x,
            y,
        )) ==> exists|b: int|
            0 <= b < 4 && (Point { x: x as i32, y: y as i32 }) == #[trigger] spec_hand_point(
                initial_place_of(task),
                initial_offsets()[b],
            )
}

/// A grid whose floor cells are all covered has a zero uncovered count.
pub proof fn lemma_ucount_covered(v: Seq<bool>, p: Seq<bool>, n: int)
    requires
        forall|i: int| 0 <= i < n ==> ((#[trigger] v[i]) ==> p[i]),
    ensures
        ucount(v, p, n) == 0,
    decreases n,
{
    if n > 0 {
        lemma_ucount_covered(v, p, n - 1);
    }
}

/// Run one full attempt on a task: simulate turns until every floor cell
/// is covered. A returned state has covered everything: its uncovered
/// count is zero over a floor grid that is exactly the task's room
/// interior minus its obstacle interiors. None means the task could not
/// be set up or the turn budget ran out.
pub fn solve_small_state(task: &Task) -> (r: Option<State>)
    ensures
        setup_fails(*task) ==> r is None,
        !setup_fails(*task) && covered_at_start(*task) ==> r is Some,
        match r {
            Some(st) => covered_at_start(*task) ==> st.turn == 0,
            None => true,
        },
        match r {
            Some(st) => {
                &&& !setup_fails(*task)
                &&& st.wf()
                &&& st.remaining_pass == 0
                &&& st.robots@.len() >= 1
                &&& st.valid.spec_width() == task.width
                &&& st.valid.spec_height() == task.height
                &&& forall|x: int, y: int|
                    st.valid.spec_in(x, y) ==> (#[trigger] st.valid.spec_at(x, y)) == is_floor(
                        task.map.vertices(),
                        task.obstacles@.map_values(|m: crate::map::Polygon| m.0@),
                        x,
                        y,
                    )
            },
            None => true,
        },
{
    let mut st = match State::initialize(task) {
        None => {
            return None;
        },
        Some(s) => s,
    };
    let ghost st0 = st;
    let ghost valid0 = st.valid;
    let mut go = st.next_state();
    proof {
        if covered_at_start(*task) {
            let w = st.valid.spec_width();
            let h = st.valid.spec_height();
            let obs = task.obstacles@.map_values(|m: crate::map::Polygon| m.0@);
            assert(st0.robots@[0].bodies_diff@ =~= initial_offsets());
            assert(st0.robots@[0].current_place == initial_place_of(*task));
            assert forall|x: int, y: int|
                st.valid.spec_in(x, y) && st.valid.spec_at(x, y) implies (
            #[trigger] st.passed.spec_at(x, y)) by {
                assert(st0.valid.spec_at(x, y) == is_floor(task.map.vertices(), obs, x, y));
                assert(st.valid == st0.valid);
                assert(is_floor(task.map.vertices(), task_obstacle_views(*task), x, y));
                assert(0 <= x < task.width && 0 <= y < task.height);
                let b = choose|b: int|
                    0 <= b < 4 && (Point { x: x as i32, y: y as i32 })
                        == #[trigger] spec_hand_point(initial_place_of(*task), initial_offsets()[b]);
                assert(!spec_extended(initial_offsets()[b])) by {
                    if b == 0 {
                        assert(initial_offsets()[0] == (Point { x: 0, y: 0 }));
                    } else if b == 1 {
                        assert(initial_offsets()[1] == (Point { x: 1, y: 1 }));
                    } else if b == 2 {
                        assert(initial_offsets()[2] == (Point { x: 1, y: 0 }));
                    } else {
                        assert(initial_offsets()[3] == (Point { x: 1, y: -1i32 }));
                    }
                }
                assert(spec_hand_reach(
                    st0.valid,
                    st0.robots@[0].current_place,
                    st0.robots@[0].bodies_diff@[b],
                ) == Some(Point { x: x as i32, y: y as i32 }));
                if st0.remaining_pass > 0 {
                    assert(st.passed.spec_at(x, y));
                } else {
                    lemma_ucount_zero(st0.valid.spec_inner(), st0.passed.spec_inner(), w * h);
                    st0.valid.lemma_index(x, y);
                    assert(st0.passed.spec_at(x, y));
                    assert(st.passed.spec_at(x, y));
                }
            }
            assert forall|i: int|
                0 <= i < w * h implies ((#[trigger] st.valid.spec_inner()[i])
                ==> st.passed.spec_inner()[i]) by {
                vstd::arithmetic::div_mod::lemma_fundamental_div_mod(i, w);
                assert(0 <= i % w < w && 0 <= i / w < h) by (nonlinear_arith)
                    requires
                        0 <= i < w * h && 1 <= w,
                ;
                assert(st.valid.spec_in(i % w, i / w));
                assert(st.valid.spec_at(i % w, i / w) == st.valid.spec_inner()[(i / w) * w + (i
                    % w)]);
                assert(st.passed.spec_at(i % w, i / w) == st.passed.spec_inner()[(i / w) * w + (i
                    % w)]);
                assert((i / w) * w + (i % w) == i);
            }
            lemma_ucount_covered(st.valid.spec_inner(), st.passed.spec_inner(), w * h);
            assert(st.remaining_pass == 0);
            assert(!go);
        }
    }
    while go
        invariant
            st.wf(),
            st.valid == valid0,
            go ==> !(!setup_fails(*task) && covered_at_start(*task)),
            !setup_fails(*task) && covered_at_start(*task) ==> st.turn == 0,
            !go ==> st.remaining_pass == 0,
        decreases MAX_TURNS - st.turn, (if go {
            1int
        } else {
            0int
        }),
    {
        if st.turn >= MAX_TURNS {
            return None;
        }
        go = st.next_state();
    }
    Some(st)
}

/// Solve a task once, returning the emitted solution: the command record
/// of an attempt that covered every floor cell of the task.
pub fn solve_small(task: &Task) -> (r: Option<Commands>)
    ensures
        setup_fails(*task) ==> r is None,
        !setup_fails(*task) && covered_at_start(*task) ==> r is Some,
        match r {
            Some(c) => {
                &&& c.wf()
                &&& c.seqs()[0].len() <= MAX_TURNS
                &&& (covered_at_start(*task) ==> c.seqs()[0].len() == 0)
                &&& exists|st: State|
                    {
                        &&& #[trigger] st.wf()
                        &&& st.remaining_pass == 0
                        &&& st.valid.spec_width() == task.width
                        &&& st.valid.spec_height() == task.height
                        &&& (forall|x: int, y: int|
                            st.valid.spec_in(x, y) ==> (#[trigger] st.valid.spec_at(x, y))
                                == is_floor(
                                task.map.vertices(),
                                task_obstacle_views(*task),
                                x,
                                y,
                            ))
                        &&& c.seqs() == st.robots@.map_values(|rb: Robot| rb.executed@)
                    }
            },
            None => true,
        },
{
    match solve_small_state(task) {
        None => None,
        Some(st) => {
            proof {
                lemma_robot_records(st);
            }
            let c = st.commands();
            proof {
                assert(st.wf() && st.remaining_pass == 0 && st.valid.spec_width() == task.width
                    && st.valid.spec_height() == task.height && (forall|x: int, y: int|
                    st.valid.spec_in(x, y) ==> (#[trigger] st.valid.spec_at(x, y)) == is_floor(
                        task.map.vertices(),
                        task_obstacle_views(*task),
                        x,
                        y,
                    )) && c.seqs() == st.robots@.map_values(|rb: Robot| rb.executed@));
            }
            Some(c)
        },
    }
}

/// Solve a task repeatedly until the time budget runs out, keeping the
/// shortest solution found.
pub fn solve_small_while(task: &Task, duration_ms: u64) -> (r: Option<Commands>)
    ensures
        setup_fails(*task) ==> r is None,
        !setup_fails(*task) && covered_at_start(*task) ==> r is Some,
        match r {
            Some(c) => c.wf(),
            None => true,
        },
{
    let start_t = now_millis();
    let mut best = solve_small(task);
    let mut attempt: usize = 0;
    while attempt < MAX_TURNS
        invariant
            setup_fails(*task) ==> best is None,
            !setup_fails(*task) && covered_at_start(*task) ==> best is Some,
            match best {
                Some(c) => c.wf(),
                None => true,
            },
        decreases MAX_TURNS - attempt,
    {
        let now = now_millis();
        if now >= start_t && now - start_t >= duration_ms {
            return best;
        }
        match solve_small(task) {
            None => (),
            Some(c) => {
                let l = c.len();
                best = match best {
                    None => Some(c),
                    Some(b) => {
                        if l < b.len() {
                            Some(c)
                        } else {
                            Some(b)
                        }
                    },
                };
            },
        }
        attempt += 1;
    }
    best
}

} // verus!
