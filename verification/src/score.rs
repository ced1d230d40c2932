//! Scoring of a solution against a task: the integer quantities of the
//! score formula. The final score multiplies these with a logarithm and
//! so lives with the callers that may use floating point; here the
//! estimate is pinned exactly: best_estimated = remaining * 24 / 100,
//! where remaining counts the floor cells of the task.

use vstd::prelude::*;

use crate::geom::Point;
use crate::map::{cell_inside, col_odd};
use crate::models::{Commands, Task};
use crate::solve::is_floor;
use crate::utils::Matrix;

verus! {

/// The task's floor cells laid out row-major on a w x h grid: cell i is
/// floor when (i % w, i / w) is inside the room and inside no obstacle.
pub open spec fn floor_grid(map: Seq<Point>, obs: Seq<Seq<Point>>, w: int, h: int) -> Seq<bool> {
    Seq::new((w * h) as nat, |i: int| is_floor(map, obs, i % w, i / w))
}

/// Number of true cells among the first `n`.
pub open spec fn count_true(s: Seq<bool>, n: int) -> int
    decreases n,
{
    if n <= 0 {
        0
    } else {
        count_true(s, n - 1) + if s[n - 1] {
            1int
        } else {
            0int
        }
    }
}

/// The true count lies between 0 and `n`.
proof fn lemma_count_true_bounds(s: Seq<bool>, n: int)
    ensures
        0 <= count_true(s, n) <= if n >= 0 {
            n
        } else {
            0
        },
    decreases n,
{
    if n > 0 {
        lemma_count_true_bounds(s, n - 1);
    }
}

/// Updating one cell adjusts the true count by the indicator difference.
proof fn lemma_count_true_update(s: Seq<bool>, i: int, v: bool, n: int)
    requires
        0 <= i < s.len(),
        n <= s.len(),
    ensures
        count_true(s.update(i, v), n) == count_true(s, n) + if i < n {
            (if v {
                1int
            } else {
                0int
            }) - (if s[i] {
                1int
            } else {
                0int
            })
        } else {
            0int
        },
    decreases n,
{
    if n > 0 {
        lemma_count_true_update(s, i, v, n - 1);
    }
}

/// An all-false grid counts zero.
proof fn lemma_count_true_zero(s: Seq<bool>, n: int)
    requires
        forall|j: int| 0 <= j < s.len() ==> !(#[trigger] s[j]),
        n <= s.len(),
    ensures
        count_true(s, n) == 0,
    decreases n,
{
    if n > 0 {
        lemma_count_true_zero(s, n - 1);
    }
}

/// The integer quantities of a task's score.
pub struct ScoreInfo {
    pub width: usize,
    pub height: usize,
    pub remaining: usize,
    pub best_estimated: usize,
    pub team_time: usize,
}

/// Measure a task and a solution: the grid extent of the room's interior,
/// the floor cell count after obstacle subtraction, the estimated best
/// step count remaining * 24 / 100, and the solution's length. None when
/// a polygon cannot be enumerated, the room has no interior, or the grid
/// is oversized.
#[verifier::loop_isolation(false)]
#[verifier::rlimit(60)]
pub fn score_small(task: &Task, commands: &Commands) -> (r: Option<ScoreInfo>)
    requires
        commands.wf(),
    ensures
        match r {
            Some(s) => {
                &&& s.best_estimated == s.remaining * 24 / 100
                &&& s.team_time == commands.seqs()[0].len()
                &&& s.width >= 1
                &&& s.height >= 1
                &&& s.remaining <= s.width * s.height
                &&& s.remaining == count_true(
                    floor_grid(
                        task.map.vertices(),
                        task.obstacles@.map_values(|m: crate::map::Polygon| m.0@),
                        s.width as int,
                        s.height as int,
                    ),
                    s.width * s.height,
                )
                &&& forall|x: int, y: int|
                    i32::MIN <= x <= i32::MAX && i32::MIN <= y <= i32::MAX && cell_inside(
                        task.map.vertices(),
                        x,
                        y,
                    ) ==> x < s.width && y < s.height
                &&& exists|x: int, y: int|
                    cell_inside(task.map.vertices(), x, y) && x == s.width - 1
                &&& exists|x: int, y: int|
                    cell_inside(task.map.vertices(), x, y) && y == s.height - 1
            },
            None => true,
        },
        r is None ==> ({
            ||| task.map.vertices().len() == 0
            ||| exists|x: int| col_odd(task.map.vertices(), x)
            ||| (forall|x: int, y: int|
                i32::MIN <= x <= i32::MAX && i32::MIN <= y <= i32::MAX ==> !cell_inside(
                    task.map.vertices(),
                    x,
                    y,
                ))
            ||| exists|x: int, y: int|
                cell_inside(task.map.vertices(), x, y) && (x < 0 || y < 0 || x >= 30000 || y
                    >= 30000)
            ||| exists|k: int|
                0 <= k < task.obstacles@.len() && (#[trigger] task.obstacles@[k]).0@.len() >= 1
                    && (exists|x: int| col_odd(task.obstacles@[k].0@, x))
        }),
{
    if task.map.len() == 0 {
        return None;
    }
    let pts = match task.map.enumerate_points() {
        None => {
            return None;
        },
        Some(ps) => ps,
    };
    let npts = pts.len();
    if npts == 0 {
        proof {
            assert forall|x: int, y: int|
                i32::MIN <= x <= i32::MAX && i32::MIN <= y <= i32::MAX implies !cell_inside(
                task.map.vertices(),
                x,
                y,
            ) by {
                let pt = Point { x: x as i32, y: y as i32 };
                assert(!pts@.contains(pt));
            }
        }
        return None;
    }
    let mut max_x: i32 = pts[0].x;
    let mut max_y: i32 = pts[0].y;
    let mut i: usize = 1;
    while i < npts
        invariant
            1 <= i <= npts,
            npts == pts@.len(),
            forall|j: int| 0 <= j < i ==> (#[trigger] pts@[j]).x <= max_x && pts@[j].y <= max_y,
            exists|j: int| 0 <= j < npts && (#[trigger] pts@[j]).x == max_x,
            exists|j: int| 0 <= j < npts && (#[trigger] pts@[j]).y == max_y,
        decreases npts - i,
    {
        if pts[i].x > max_x {
            max_x = pts[i].x;
        }
        if pts[i].y > max_y {
            max_y = pts[i].y;
        }
        i += 1;
    }
    if max_x < 0 || max_y < 0 {
        proof {
            if max_x < 0 {
                let jx = choose|j: int| 0 <= j < pts@.len() && (#[trigger] pts@[j]).x == max_x;
                assert(pts@.contains(pts@[jx]));
            } else {
                let jy = choose|j: int| 0 <= j < pts@.len() && (#[trigger] pts@[j]).y == max_y;
                assert(pts@.contains(pts@[jy]));
            }
        }
        return None;
    }
    let width = (max_x as usize) + 1;
    let height = (max_y as usize) + 1;
    if width > 30000 || height > 30000 {
        proof {
            if width > 30000 {
                let jx = choose|j: int| 0 <= j < pts@.len() && (#[trigger] pts@[j]).x == max_x;
                assert(pts@.contains(pts@[jx]));
            } else {
                let jy = choose|j: int| 0 <= j < pts@.len() && (#[trigger] pts@[j]).y == max_y;
                assert(pts@.contains(pts@[jy]));
            }
        }
        return None;
    }
    let ghost w = width as int;
    let ghost h = height as int;
    proof {
        assert(w * h <= 900000000) by (nonlinear_arith)
            requires
                1 <= w && w <= 30000 && 1 <= h && h <= 30000,
        ;
    }
    let mut floor: Matrix<bool> = Matrix::new(width, height, false);
    let mut remaining: usize = 0;
    proof {
        lemma_count_true_zero(floor.spec_inner(), w * h);
    }
    let ghost vs = task.map.vertices();
    let mut pi: usize = 0;
    while pi < npts
        invariant
            pi <= npts,
            npts == pts@.len(),
            floor.wf() && floor.spec_width() == w && floor.spec_height() == h,
            remaining == count_true(floor.spec_inner(), w * h),
            forall|x: int, y: int|
                floor.spec_in(x, y) ==> ((#[trigger] floor.spec_at(x, y)) ==> cell_inside(
                    vs,
                    x,
                    y,
                )),
            forall|x: int, y: int|
                floor.spec_in(x, y) && cell_inside(vs, x, y) && (exists|j: int|
                    0 <= j < pi && pts@[j] == (Point { x: x as i32, y: y as i32 })) ==> (
                #[trigger] floor.spec_at(x, y)),
        decreases npts - pi,
    {
        let p = pts[pi];
        match floor.get(p) {
            Some(false) => {
                let ghost ov = floor.spec_inner();
                let ghost idxp = (p.y as int) * w + (p.x as int);
                proof {
                    floor.lemma_index(p.x as int, p.y as int);
                    lemma_count_true_update(ov, idxp, true, w * h);
                    lemma_count_true_bounds(ov, w * h);
                }
                floor.set(p, true);
                remaining = remaining + 1;
                proof {
                    assert(pts@.contains(p));
                    assert(cell_inside(vs, p.x as int, p.y as int));
                }
            },
            _ => (),
        }
        pi += 1;
    }
    proof {
        assert forall|x: int, y: int|
            floor.spec_in(x, y) implies (#[trigger] floor.spec_at(x, y)) == cell_inside(
            vs,
            x,
            y,
        ) by {
            if cell_inside(vs, x, y) {
                let pt = Point { x: x as i32, y: y as i32 };
                assert(pts@.contains(pt));
                let j = choose|j: int| 0 <= j < pts@.len() && pts@[j] == pt;
            }
        }
    }
    let ghost obs = task.obstacles@.map_values(|m: crate::map::Polygon| m.0@);
    let no = task.obstacles.len();
    let mut oi: usize = 0;
    while oi < no
        invariant
            oi <= no,
            no == task.obstacles@.len(),
            obs == task.obstacles@.map_values(|m: crate::map::Polygon| m.0@),
            floor.wf() && floor.spec_width() == w && floor.spec_height() == h,
            remaining == count_true(floor.spec_inner(), w * h),
            forall|x: int, y: int|
                floor.spec_in(x, y) ==> (#[trigger] floor.spec_at(x, y)) == (cell_inside(vs, x, y)
                    && !(exists|k: int| 0 <= k < oi && cell_inside(#[trigger] obs[k], x, y))),
        decreases no - oi,
    {
        let ob = &task.obstacles[oi];
        if ob.len() > 0 {
            let ghost ovs = ob.vertices();
            let opts = match ob.enumerate_points() {
                None => {
                    proof {
                        assert(task.obstacles@[oi as int].0@.len() >= 1);
                        assert(exists|x2: int| col_odd(task.obstacles@[oi as int].0@, x2));
                    }
                    return None;
                },
                Some(ps) => ps,
            };
            let nop = opts.len();
            let mut qi: usize = 0;
            while qi < nop
                invariant
                    qi <= nop,
                    nop == opts@.len(),
                    oi < no,
                    ovs == obs[oi as int],
                    forall|q2: Point|
                        #[trigger] opts@.contains(q2) <==> cell_inside(
                            ovs,
                            q2.x as int,
                            q2.y as int,
                        ),
                    floor.wf() && floor.spec_width() == w && floor.spec_height() == h,
                    remaining == count_true(floor.spec_inner(), w * h),
                    forall|x: int, y: int|
                        floor.spec_in(x, y) ==> ((#[trigger] floor.spec_at(x, y)) ==> (cell_inside(
                            vs,
                            x,
                            y,
                        ) && !(exists|k: int|
                            0 <= k < oi && cell_inside(#[trigger] obs[k], x, y)))),
                    forall|x: int, y: int|
                        floor.spec_in(x, y) && (cell_inside(vs, x, y) && !(exists|k: int|
                            0 <= k < oi && cell_inside(#[trigger] obs[k], x, y)))
                            && !cell_inside(ovs, x, y) ==> (#[trigger] floor.spec_at(x, y)),
                    forall|x: int, y: int|
                        floor.spec_in(x, y) && (#[trigger] floor.spec_at(x, y)) && (exists|j: int|
                            0 <= j < qi && opts@[j] == (Point { x: x as i32, y: y as i32 }))
                            ==> false,
                decreases nop - qi,
            {
                let q = opts[qi];
                match floor.get(q) {
                    Some(true) => {
                        let ghost ov = floor.spec_inner();
                        let ghost idxq = (q.y as int) * w + (q.x as int);
                        proof {
                            floor.lemma_index(q.x as int, q.y as int);
                            lemma_count_true_update(ov, idxq, false, w * h);
                            lemma_count_true_bounds(ov.update(idxq, false), w * h);
                        }
                        floor.set(q, false);
                        remaining = remaining - 1;
                        proof {
                            assert(opts@.contains(q));
                            assert(cell_inside(ovs, q.x as int, q.y as int));
                        }
                    },
                    _ => (),
                }
                qi += 1;
            }
            proof {
                assert forall|x: int, y: int|
                    floor.spec_in(x, y) implies (#[trigger] floor.spec_at(x, y)) == (cell_inside(
                    vs,
                    x,
                    y,
                ) && !(exists|k: int|
                    0 <= k < oi + 1 && cell_inside(#[trigger] obs[k], x, y))) by {
                    if floor.spec_at(x, y) {
                        let pt = Point { x: x as i32, y: y as i32 };
                        if cell_inside(ovs, x, y) {
                            assert(opts@.contains(pt));
                            let j = choose|j: int| 0 <= j < opts@.len() && opts@[j] == pt;
                            assert(false);
                        }
                        assert forall|k: int| 0 <= k < oi + 1 implies !cell_inside(
                            #[trigger] obs[k],
                            x,
                            y,
                        ) by {
                            if k == oi {
                                assert(!cell_inside(ovs, x, y));
                            }
                        }
                    } else {
                        if cell_inside(vs, x, y) && !(exists|k: int|
                            0 <= k < oi && cell_inside(#[trigger] obs[k], x, y)) {
                            assert(cell_inside(ovs, x, y));
                            assert(0 <= oi < oi + 1 && cell_inside(obs[oi as int], x, y));
                        }
                    }
                }
            }
        } else {
            proof {
                assert forall|x: int, y: int|
                    floor.spec_in(x, y) implies (#[trigger] floor.spec_at(x, y)) == (cell_inside(
                    vs,
                    x,
                    y,
                ) && !(exists|k: int|
                    0 <= k < oi + 1 && cell_inside(#[trigger] obs[k], x, y))) by {
                    assert(obs[oi as int].len() == 0);
                    assert(!cell_inside(obs[oi as int], x, y));
                    assert forall|k: int|
                        0 <= k < oi + 1 && cell_inside(#[trigger] obs[k], x, y) implies 0 <= k < oi
                        && cell_inside(obs[k], x, y) by {}
                }
            }
        }
        oi += 1;
    }
    proof {
        lemma_count_true_bounds(floor.spec_inner(), w * h);
        assert(remaining * 24 <= 21600000000) by (nonlinear_arith)
            requires
                0 <= remaining && remaining <= 900000000,
        ;
        let fg = floor_grid(vs, obs, w, h);
        assert forall|i: int| 0 <= i < w * h implies floor.spec_inner()[i] == fg[i] by {
            vstd::arithmetic::div_mod::lemma_fundamental_div_mod(i, w);
            assert(0 <= i % w < w && 0 <= i / w < h) by (nonlinear_arith)
                requires
                    0 <= i < w * h && 1 <= w,
            ;
            assert(floor.spec_in(i % w, i / w));
            assert(floor.spec_at(i % w, i / w) == floor.spec_inner()[(i / w) * w + (i % w)]);
            assert((i / w) * w + (i % w) == i);
            assert(fg[i] == is_floor(vs, obs, i % w, i / w));
        }
        assert(floor.spec_inner() =~= fg);
        assert forall|x: int, y: int|
            i32::MIN <= x <= i32::MAX && i32::MIN <= y <= i32::MAX && cell_inside(
                vs,
                x,
                y,
            ) implies x < width && y < height by {
            let pt = Point { x: x as i32, y: y as i32 };
            assert(pts@.contains(pt));
            let j = choose|j: int| 0 <= j < pts@.len() && pts@[j] == pt;
        }
        let jx = choose|j: int| 0 <= j < pts@.len() && (#[trigger] pts@[j]).x == max_x;
        assert(pts@.contains(pts@[jx]));
        assert(cell_inside(vs, pts@[jx].x as int, pts@[jx].y as int));
        let jy = choose|j: int| 0 <= j < pts@.len() && (#[trigger] pts@[j]).y == max_y;
        assert(pts@.contains(pts@[jy]));
        assert(cell_inside(vs, pts@[jy].x as int, pts@[jy].y as int));
    }
    let best_estimated = ((remaining as u64) * 24 / 100) as usize;
    let team_time = commands.len();
    Some(ScoreInfo { width, height, remaining, best_estimated, team_time })
}

} // verus!
