//! The puzzle constructor: synthesizes an orthogonal-polygon task from an
//! inclusion/exclusion point set and vertex-count constraints, by per-row
//! candidate ranges, a row-to-row reachability search, vertex inflation,
//! and polygon emission. A returned task is checked against the puzzle's
//! constraints before it is handed out: every include point lies inside
//! the emitted polygon, every exclude point lies outside, and the vertex
//! count is within bounds.

use vstd::prelude::*;

use crate::geom::Point;
use crate::map::{cell_inside, Polygon};
use crate::models::{Booster, BoosterType, Puzzle, Task};
use crate::rng::shuffle_vec;
use crate::utils::Range;

verus! {

/// A row range within a puzzle of edge length `len`.
pub open spec fn range_ok(r: Range, len: int) -> bool {
    r.start <= r.end <= len
}

/// The set of interior cells of a polygon.
pub open spec fn interior_set(vs: Seq<Point>) -> Set<Point> {
    Set::new(|p: Point| cell_inside(vs, p.x as int, p.y as int))
}

/// Seat `count` boosters of one kind on the cells at `points[cursor..]`,
/// appending to `boosters` and returning the advanced cursor; None when
/// fewer than `count` cells remain.
fn seat_boosters(
    points: &Vec<Point>,
    cursor: usize,
    count: usize,
    kind: BoosterType,
    boosters: &mut Vec<Booster>,
) -> (r: Option<usize>)
    requires
        1 <= cursor <= points@.len(),
    ensures
        r is Some <==> cursor + count <= points@.len(),
        match r {
            Some(nc) => {
                &&& nc == cursor + count
                &&& 1 <= nc <= points@.len()
                &&& final(boosters)@.len() == old(boosters)@.len() + count
                &&& forall|i: int|
                    0 <= i < old(boosters)@.len()
                        ==> (#[trigger] final(boosters)@[i]) == old(boosters)@[i]
                &&& forall|i: int|
                    old(boosters)@.len() <= i < final(boosters)@.len()
                        ==> (#[trigger] final(boosters)@[i]).kind == kind
                        && final(boosters)@[i].point
                        == points@[cursor + (i - old(boosters)@.len())]
            },
            None => *final(boosters) == *old(boosters),
        },
{
    if count > points.len() - cursor {
        return None;
    }
    let mut placed: usize = 0;
    while placed < count
        invariant
            placed <= count,
            cursor + count <= points@.len(),
            boosters@.len() == old(boosters)@.len() + placed,
            forall|i: int|
                0 <= i < old(boosters)@.len() ==> (#[trigger] boosters@[i]) == old(boosters)@[i],
            forall|i: int|
                old(boosters)@.len() <= i < boosters@.len() ==> (#[trigger] boosters@[i]).kind
                    == kind && boosters@[i].point == points@[cursor + (i - old(boosters)@.len())],
        decreases count - placed,
    {
        let n = points.len();
        proof {
            assert(cursor + placed < cursor + count <= n);
        }
        boosters.push(Booster { kind, point: points[cursor + placed] });
        placed += 1;
    }
    Some(cursor + count)
}

/// Scan a point list for an exact member.
fn contains_point(pts: &Vec<Point>, p: Point) -> (r: bool)
    ensures
        r == pts@.contains(p),
{
    let n = pts.len();
    let mut i: usize = 0;
    while i < n
        invariant
            i <= n,
            n == pts@.len(),
            forall|k: int| 0 <= k < i ==> pts@[k] != p,
        decreases n - i,
    {
        if pts[i] == p {
            proof {
                assert(pts@[i as int] == p);
            }
            return true;
        }
        i += 1;
    }
    false
}

/// Sort a list of column indices; the result is non-decreasing and holds
/// only elements of the input.
fn sort_usize(v: &Vec<usize>) -> (r: Vec<usize>)
    ensures
        r@.len() == v@.len(),
        forall|i: int, j: int| 0 <= i <= j < r@.len() ==> r@[i] <= r@[j],
        forall|i: int| 0 <= i < r@.len() ==> v@.contains(#[trigger] r@[i]),
{
    let n = v.len();
    let mut out: Vec<usize> = Vec::new();
    let mut i: usize = 0;
    while i < n
        invariant
            i <= n,
            n == v@.len(),
            out@.len() == i,
            forall|a: int, b: int| 0 <= a <= b < out@.len() ==> out@[a] <= out@[b],
            forall|a: int| 0 <= a < out@.len() ==> v@.contains(#[trigger] out@[a]),
        decreases n - i,
    {
        let e = v[i];
        proof {
            assert(v@.contains(v@[i as int]));
        }
        let m = out.len();
        let mut k: usize = 0;
        while k < m && out[k] <= e
            invariant
                k <= m,
                m == out@.len(),
                forall|a: int| 0 <= a < k ==> (#[trigger] out@[a]) <= e,
            decreases m - k,
        {
            k += 1;
        }
        let ghost pre = out@;
        out.insert(k, e);
        proof {
            assert(out@ == pre.insert(k as int, e));
            assert forall|a: int, b: int| 0 <= a <= b < out@.len() implies out@[a] <= out@[b] by {
                if b < k {
                } else if a > k {
                } else if a == k && b == k {
                } else if a < k && b == k {
                    assert(out@[a] == pre[a]);
                } else if a == k {
                    assert(out@[b] == pre[b - 1]);
                    assert(pre[k as int] <= pre[b - 1]);
                } else {
                    assert(out@[a] == pre[a] && out@[b] == pre[b - 1]);
                }
            }
            assert forall|a: int| 0 <= a < out@.len() implies v@.contains(#[trigger] out@[a]) by {
                if a < k {
                    assert(out@[a] == pre[a]);
                } else if a > k {
                    assert(out@[a] == pre[a - 1]);
                }
            }
        }
        i += 1;
    }
    out
}

/// The vertex pairs added walking up the right side: for each row below
/// `y` whose range ends at a different column than the next row's, the
/// two corners of that step.
pub open spec fn right_step_verts(rs: Seq<Range>, y: int) -> Seq<Point>
    decreases y,
{
    if y <= 0 {
        Seq::empty()
    } else {
        right_step_verts(rs, y - 1) + (if rs[y - 1].end != rs[y].end {
            seq![
                Point { x: rs[y - 1].end as i32, y: y as i32 },
                Point { x: rs[y].end as i32, y: y as i32 },
            ]
        } else {
            Seq::empty()
        })
    }
}

/// The vertex pairs added walking down the left side, top row first.
pub open spec fn left_step_verts(rs: Seq<Range>, k: int) -> Seq<Point>
    decreases rs.len() - k,
{
    if k < 0 || k >= rs.len() - 1 {
        Seq::empty()
    } else {
        left_step_verts(rs, k + 1) + (if rs[k].start != rs[k + 1].start {
            seq![
                Point { x: rs[k + 1].start as i32, y: (k + 1) as i32 },
                Point { x: rs[k].start as i32, y: (k + 1) as i32 },
            ]
        } else {
            Seq::empty()
        })
    }
}

/// The exact vertex list the constructor emits for a stack of row ranges:
/// the bottom edge of row 0, the right-side steps bottom-up, the top edge
/// of the last row, and the left-side steps top-down.
pub open spec fn spec_construct_vertices(rs: Seq<Range>) -> Seq<Point> {
    let n = rs.len() as int;
    seq![
        Point { x: rs[0].start as i32, y: 0 },
        Point { x: rs[0].end as i32, y: 0 },
    ] + right_step_verts(rs, n - 1) + seq![
        Point { x: rs[n - 1].end as i32, y: n as i32 },
        Point { x: rs[n - 1].start as i32, y: n as i32 },
    ] + left_step_verts(rs, 0)
}

/// Walk the row ranges clockwise into a polygon: bottom edge, right-edge
/// discontinuities, top edge, left-edge discontinuities. The emitted
/// vertex list is pinned exactly.
pub fn construct_map_from_ranges(ranges: &Vec<Range>) -> (r: Polygon)
    requires
        1 <= ranges@.len() <= 30000,
        forall|i: int| 0 <= i < ranges@.len() ==> range_ok(#[trigger] ranges@[i], 30000),
    ensures
        r.vertices() == spec_construct_vertices(ranges@),
        4 <= r.vertices().len() <= 4 * ranges@.len() + 4,
{
    let len = ranges.len();
    let ghost rs = ranges@;
    let ghost bottom = seq![
        Point { x: rs[0].start as i32, y: 0 },
        Point { x: rs[0].end as i32, y: 0 },
    ];
    let mut vertexes: Vec<Point> = Vec::new();
    vertexes.push(Point { x: ranges[0].start as i32, y: 0 });
    vertexes.push(Point { x: ranges[0].end as i32, y: 0 });
    proof {
        assert(vertexes@ =~= bottom + right_step_verts(rs, 0));
    }
    let mut y: usize = 0;
    while y < len - 1
        invariant
            y <= len - 1,
            len == ranges@.len(),
            rs == ranges@,
            1 <= len <= 30000,
            forall|i: int| 0 <= i < ranges@.len() ==> range_ok(#[trigger] ranges@[i], 30000),
            vertexes@ == bottom + right_step_verts(rs, y as int),
            2 <= vertexes@.len() <= 2 + 2 * y,
        decreases len - 1 - y,
    {
        if ranges[y].end != ranges[y + 1].end {
            vertexes.push(Point { x: ranges[y].end as i32, y: (y + 1) as i32 });
            vertexes.push(Point { x: ranges[y + 1].end as i32, y: (y + 1) as i32 });
        }
        proof {
            assert(vertexes@ =~= bottom + right_step_verts(rs, y + 1));
        }
        y += 1;
    }
    vertexes.push(Point { x: ranges[len - 1].end as i32, y: len as i32 });
    vertexes.push(Point { x: ranges[len - 1].start as i32, y: len as i32 });
    let ghost mid = vertexes@;
    let ghost mid_len = vertexes@.len();
    let mut yd: usize = len - 1;
    while yd > 0
        invariant
            yd <= len - 1,
            len == ranges@.len(),
            rs == ranges@,
            1 <= len <= 30000,
            forall|i: int| 0 <= i < ranges@.len() ==> range_ok(#[trigger] ranges@[i], 30000),
            vertexes@ == mid + left_step_verts(rs, yd as int),
            mid_len <= vertexes@.len() <= mid_len + 2 * (len - 1 - yd),
            mid_len <= 2 + 2 * (len - 1) + 2,
        decreases yd,
    {
        let yy = yd - 1;
        if ranges[yy].start != ranges[yy + 1].start {
            vertexes.push(Point { x: ranges[yy + 1].start as i32, y: (yy + 1) as i32 });
            vertexes.push(Point { x: ranges[yy].start as i32, y: (yy + 1) as i32 });
        }
        proof {
            assert(vertexes@ =~= mid + left_step_verts(rs, yy as int));
        }
        yd = yy;
    }
    proof {
        assert(left_step_verts(rs, len - 1) =~= Seq::<Point>::empty());
        assert(mid =~= bottom + right_step_verts(rs, len - 1) + seq![
            Point { x: rs[len - 1].end as i32, y: len as i32 },
            Point { x: rs[len - 1].start as i32, y: len as i32 },
        ]);
        assert(vertexes@ =~= spec_construct_vertices(rs));
    }
    Polygon(vertexes)
}

/// The vertex count of the polygon the current ranges would produce.
pub fn compute_vertex_number(ranges: &Vec<Range>) -> (r: usize)
    requires
        1 <= ranges@.len() <= 30000,
        forall|i: int| 0 <= i < ranges@.len() ==> range_ok(#[trigger] ranges@[i], 30000),
    ensures
        r == spec_construct_vertices(ranges@).len(),
        4 <= r <= 4 * ranges@.len() + 4,
{
    construct_map_from_ranges(ranges).len()
}

/// Vertex inflation: walk the middle rows once and notch a row's edge
/// wherever that adds corners, stopping once the running estimate sits
/// comfortably above the minimum; then recount the corners of the final
/// ranges and report whether the count reached the minimum. Rows only
/// shrink, never lose an include point they held, and never stop
/// overlapping a neighbour they overlapped.
pub fn increase_vertex_number(ranges: &mut Vec<Range>, includes: &Vec<Point>, min_vertex: usize) -> (ok:
    bool)
    requires
        1 <= old(ranges)@.len() <= 30000,
        forall|i: int| 0 <= i < old(ranges)@.len() ==> range_ok(#[trigger] old(ranges)@[i], 30000),
    ensures
        ok == (spec_construct_vertices(final(ranges)@).len() >= min_vertex),
        final(ranges)@.len() == old(ranges)@.len(),
        forall|i: int| 0 <= i < final(ranges)@.len() ==> range_ok(#[trigger] final(ranges)@[i], 30000),
        forall|i: int|
            0 <= i < final(ranges)@.len()
                ==> (#[trigger] final(ranges)@[i]).start >= old(ranges)@[i].start
                && final(ranges)@[i].end <= old(ranges)@[i].end,
        forall|i: int, k: int|
            #![trigger final(ranges)@[i], includes@[k]]
            (0 <= i < final(ranges)@.len() && 0 <= k < includes@.len() && includes@[k].y == i
                && old(ranges)@[i].spec_contains(includes@[k].x as int))
                ==> final(ranges)@[i].spec_contains(includes@[k].x as int),
        forall|i: int|
            (0 <= i && i + 1 < final(ranges)@.len() && (#[trigger] old(ranges)@[i]).spec_intersect(
                old(ranges)@[i + 1],
            )) ==> final(ranges)@[i].spec_intersect(final(ranges)@[i + 1]),
{
    let len = ranges.len();
    let mut vertex_num = compute_vertex_number(ranges);
    let target: usize = if min_vertex > usize::MAX - 10 {
        usize::MAX
    } else {
        min_vertex + 10
    };
    if len < 2 {
        return vertex_num >= min_vertex;
    }
    let mut i: usize = 1;
    while i < len - 1
        invariant
            1 <= i <= len - 1,
            len == ranges@.len(),
            len == old(ranges)@.len(),
            2 <= len <= 30000,
            forall|k: int| 0 <= k < ranges@.len() ==> range_ok(#[trigger] ranges@[k], 30000),
            forall|j: int|
                0 <= j < ranges@.len() ==> (#[trigger] ranges@[j]).start >= old(ranges)@[j].start
                    && ranges@[j].end <= old(ranges)@[j].end,
            forall|j: int, k: int|
                #![trigger ranges@[j], includes@[k]]
                (0 <= j < ranges@.len() && 0 <= k < includes@.len() && includes@[k].y == j
                    && old(ranges)@[j].spec_contains(includes@[k].x as int))
                    ==> ranges@[j].spec_contains(includes@[k].x as int),
            forall|j: int|
                (0 <= j && j + 1 < ranges@.len() && (#[trigger] old(ranges)@[j]).spec_intersect(
                    old(ranges)@[j + 1],
                )) ==> ranges@[j].spec_intersect(ranges@[j + 1]),
            vertex_num <= 4 * len + 4 + 8 * i,
        decreases len - 1 - i,
    {
        if vertex_num < target {
            let ri = ranges[i];
            let rp = ranges[i - 1];
            let rn = ranges[i + 1];
            if ri.end == rp.end && ri.end > ri.start + 1 && !contains_point(
                includes,
                Point { x: (ri.end - 1) as i32, y: i as i32 },
            ) {
                let new_range = ri.remove_end();
                if new_range.intersect(rp) && new_range.intersect(rn) {
                    let ghost pre = ranges@;
                    let mut row = ranges.remove(i);
                    row = new_range;
                    ranges.insert(i, row);
                    proof {
                        assert(ranges@ =~= pre.update(i as int, new_range));
                        assert forall|j: int, k: int|
                            #![trigger ranges@[j], includes@[k]]
                            (0 <= j < ranges@.len() && 0 <= k < includes@.len() && includes@[k].y
                                == j && old(ranges)@[j].spec_contains(includes@[k].x as int))
                                implies ranges@[j].spec_contains(includes@[k].x as int) by {
                            if j == i {
                                assert(pre[j].spec_contains(includes@[k].x as int));
                                assert(includes@[k] != (Point {
                                    x: (ri.end - 1) as i32,
                                    y: i as i32,
                                }));
                                assert(includes@[k].x as int != ri.end - 1);
                            }
                        }
                    }
                    vertex_num = vertex_num + 2;
                    if rp.end == rn.end {
                        vertex_num = vertex_num + 2;
                    }
                    if new_range.end == rn.end {
                        vertex_num = vertex_num - 2;
                    }
                }
            }
            let ri2 = ranges[i];
            let rp2 = ranges[i - 1];
            let rn2 = ranges[i + 1];
            if ri2.start == rp2.start && ri2.end > ri2.start + 1 && !contains_point(
                includes,
                Point { x: ri2.start as i32, y: i as i32 },
            ) {
                let new_range = ri2.remove_begin();
                if new_range.intersect(rp2) && new_range.intersect(rn2) {
                    let ghost pre = ranges@;
                    let mut row = ranges.remove(i);
                    row = new_range;
                    ranges.insert(i, row);
                    proof {
                        assert(ranges@ =~= pre.update(i as int, new_range));
                        assert forall|j: int, k: int|
                            #![trigger ranges@[j], includes@[k]]
                            (0 <= j < ranges@.len() && 0 <= k < includes@.len() && includes@[k].y
                                == j && old(ranges)@[j].spec_contains(includes@[k].x as int))
                                implies ranges@[j].spec_contains(includes@[k].x as int) by {
                            if j == i {
                                assert(pre[j].spec_contains(includes@[k].x as int));
                                assert(includes@[k] != (Point {
                                    x: ri2.start as i32,
                                    y: i as i32,
                                }));
                                assert(includes@[k].x as int != ri2.start);
                            }
                        }
                    }
                    vertex_num = vertex_num + 2;
                    if rp2.start == rn2.start {
                        vertex_num = vertex_num + 2;
                    }
                    if new_range.start == rn2.start {
                        vertex_num = vertex_num - 2;
                    }
                }
            }
        }
        i += 1;
    }
    // Stage: recount the corners of the final ranges; the walk's running
    // estimate only steered the early exit.
    let final_count = compute_vertex_number(ranges);
    final_count >= min_vertex
}

/// Synthesize a task from a puzzle. A returned task has its vertex count
/// within the puzzle's bounds, contains every include point strictly
/// inside its polygon and every exclude point strictly outside, and has
/// no obstacles; its grid is the (max_length - 1) square. None when the
/// rows cannot be chained, the inflation or the final constraint checks
/// fail, or the interior is too small to seat the initial point and the
/// requested boosters.
#[verifier::loop_isolation(false)]
#[verifier::rlimit(60)]
pub fn solve_puzzle(puzzle: &Puzzle) -> (r: Option<Task>)
    requires
        forall|i: int|
            0 <= i < puzzle.includes@.len() ==> 0 <= (#[trigger] puzzle.includes@[i]).x
                < puzzle.max_length - 1 && 0 <= puzzle.includes@[i].y < puzzle.max_length - 1,
        forall|i: int|
            0 <= i < puzzle.excludes@.len() ==> 0 <= (#[trigger] puzzle.excludes@[i]).x
                < puzzle.max_length - 1 && 0 <= puzzle.excludes@[i].y < puzzle.max_length - 1,
    ensures
        match r {
            Some(t) => {
                &&& puzzle.vertex_min <= t.map.vertices().len() <= puzzle.vertex_max
                &&& forall|i: int|
                    0 <= i < puzzle.includes@.len() ==> cell_inside(
                        t.map.vertices(),
                        (#[trigger] puzzle.includes@[i]).x as int,
                        puzzle.includes@[i].y as int,
                    )
                &&& forall|i: int|
                    0 <= i < puzzle.excludes@.len() ==> !cell_inside(
                        t.map.vertices(),
                        (#[trigger] puzzle.excludes@[i]).x as int,
                        puzzle.excludes@[i].y as int,
                    )
                &&& t.obstacles@.len() == 0
                &&& t.width == puzzle.max_length - 1
                &&& t.height == puzzle.max_length - 1
                &&& interior_set(t.map.vertices()).finite()
                &&& interior_set(t.map.vertices()).len() >= (puzzle.max_length - 1) * (
                puzzle.max_length - 1) / 5
                &&& cell_inside(t.map.vertices(), t.initial.x as int, t.initial.y as int)
                &&& t.boosters@.len() == puzzle.hand_count + puzzle.fast_count + puzzle.drill_count
                    + puzzle.tele_count + puzzle.clone_count + puzzle.spawn_count
                &&& forall|i: int|
                    0 <= i < puzzle.hand_count ==> (#[trigger] t.boosters@[i]).kind
                        == BoosterType::NewHand
                &&& forall|i: int|
                    puzzle.hand_count <= i < puzzle.hand_count + puzzle.fast_count ==> (
                    #[trigger] t.boosters@[i]).kind == BoosterType::FastMove
                &&& forall|i: int|
                    puzzle.hand_count + puzzle.fast_count <= i < puzzle.hand_count
                        + puzzle.fast_count + puzzle.drill_count ==> (
                    #[trigger] t.boosters@[i]).kind == BoosterType::Drill
                &&& forall|i: int|
                    puzzle.hand_count + puzzle.fast_count + puzzle.drill_count <= i
                        < puzzle.hand_count + puzzle.fast_count + puzzle.drill_count
                        + puzzle.tele_count ==> (#[trigger] t.boosters@[i]).kind
                        == BoosterType::Teleports
                &&& forall|i: int|
                    puzzle.hand_count + puzzle.fast_count + puzzle.drill_count + puzzle.tele_count
                        <= i < puzzle.hand_count + puzzle.fast_count + puzzle.drill_count
                        + puzzle.tele_count + puzzle.clone_count ==> (
                    #[trigger] t.boosters@[i]).kind == BoosterType::Cloning
                &&& forall|i: int|
                    puzzle.hand_count + puzzle.fast_count + puzzle.drill_count + puzzle.tele_count
                        + puzzle.clone_count <= i < t.boosters@.len() ==> (
                    #[trigger] t.boosters@[i]).kind == BoosterType::Spawn
                &&& forall|i: int|
                    0 <= i < t.boosters@.len() ==> cell_inside(
                        t.map.vertices(),
                        (#[trigger] t.boosters@[i]).point.x as int,
                        t.boosters@[i].point.y as int,
                    )
                &&& forall|i: int, j: int|
                    0 <= i < j < t.boosters@.len() ==> (#[trigger] t.boosters@[i]).point != (
                    #[trigger] t.boosters@[j]).point
                &&& forall|i: int|
                    0 <= i < t.boosters@.len() ==> (#[trigger] t.boosters@[i]).point != t.initial
            },
            None => true,
        },
        (puzzle.max_length < 2 || puzzle.max_length > 30000) ==> r is None,
{
    if puzzle.max_length < 2 || puzzle.max_length > 30000 {
        return None;
    }
    let len = puzzle.max_length - 1;
    let ni = puzzle.includes.len();
    let ne = puzzle.excludes.len();
    // Bucket the include and exclude columns by row.
    let mut include_xs: Vec<Vec<usize>> = Vec::new();
    let mut exclude_xs: Vec<Vec<usize>> = Vec::new();
    let mut ri: usize = 0;
    while ri < len
        invariant
            ri <= len,
            include_xs@.len() == ri,
            exclude_xs@.len() == ri,
            forall|rr: int| 0 <= rr < ri ==> (#[trigger] exclude_xs@[rr])@.len() == 0,
        decreases len - ri,
    {
        include_xs.push(Vec::new());
        exclude_xs.push(Vec::new());
        ri += 1;
    }
    let mut ei2: usize = 0;
    while ei2 < ne
        invariant
            ei2 <= ne,
            ne == puzzle.excludes@.len(),
            exclude_xs@.len() == len,
            forall|k: int|
                0 <= k < puzzle.excludes@.len() ==> 0 <= (#[trigger] puzzle.excludes@[k]).x < len
                    && 0 <= puzzle.excludes@[k].y < len,
            forall|rr: int, k: int|
                (0 <= rr < len && 0 <= k < exclude_xs@[rr]@.len())
                    ==> (#[trigger] exclude_xs@[rr]@[k]) < len,
        decreases ne - ei2,
    {
        let p = puzzle.excludes[ei2];
        let y = p.y as usize;
        let mut row = exclude_xs.remove(y);
        row.push(p.x as usize);
        exclude_xs.insert(y, row);
        ei2 += 1;
    }
    let mut ii2: usize = 0;
    while ii2 < ni
        invariant
            ii2 <= ni,
            ni == puzzle.includes@.len(),
            include_xs@.len() == len,
            forall|k: int|
                0 <= k < puzzle.includes@.len() ==> 0 <= (#[trigger] puzzle.includes@[k]).x < len
                    && 0 <= puzzle.includes@[k].y < len,
        decreases ni - ii2,
    {
        let p = puzzle.includes[ii2];
        let y = p.y as usize;
        let mut row = include_xs.remove(y);
        row.push(p.x as usize);
        include_xs.insert(y, row);
        ii2 += 1;
    }
    // Per-row candidate ranges: split [0, len) at each excluded column.
    let global_range = Range::new(0, len);
    let mut x_ranges: Vec<Vec<Range>> = Vec::new();
    let mut y2: usize = 0;
    while y2 < len
        invariant
            y2 <= len,
            1 <= len <= 30000,
            exclude_xs@.len() == len,
            x_ranges@.len() == y2,
            forall|rr: int, k: int|
                (0 <= rr < len && 0 <= k < exclude_xs@[rr]@.len())
                    ==> (#[trigger] exclude_xs@[rr]@[k]) < len,
            forall|rr: int, k: int|
                (0 <= rr < y2 && 0 <= k < x_ranges@[rr]@.len()) ==> range_ok(
                    #[trigger] x_ranges@[rr]@[k],
                    30000,
                ),
        decreases len - y2,
    {
        let mut cands: Vec<Range> = Vec::new();
        let exs0 = &exclude_xs[y2];
        if exs0.len() == 0 {
            cands.push(global_range);
        } else {
            let exs = sort_usize(exs0);
            proof {
                assert forall|k: int| 0 <= k < exs@.len() implies exs@[k] < len by {
                    assert(exs0@.contains(exs@[k]));
                    let j = choose|j: int| 0 <= j < exs0@.len() && exs0@[j] == exs@[k];
                    assert(exs0@[j] < len);
                }
            }
            let m = exs.len();
            cands.push(global_range.split(exs[0]).0);
            cands.push(global_range.split(exs[m - 1]).1);
            let mut q: usize = 0;
            while q < m - 1
                invariant
                    q <= m - 1,
                    m == exs@.len(),
                    m >= 1,
                    1 <= len <= 30000,
                    forall|k: int| 0 <= k < exs@.len() ==> (#[trigger] exs@[k]) < len,
                    forall|a: int, b: int| 0 <= a <= b < exs@.len() ==> exs@[a] <= exs@[b],
                    forall|k: int|
                        0 <= k < cands@.len() ==> range_ok(#[trigger] cands@[k], 30000),
                decreases m - 1 - q,
            {
                let right = global_range.split(exs[q]).1;
                if right.contains(exs[q + 1]) {
                    cands.push(right.split(exs[q + 1]).0);
                }
                q += 1;
            }
        }
        x_ranges.push(cands);
        y2 += 1;
    }
    // Row-to-row reachability: keep each candidate that holds all of its
    // row's include columns and touches some survivor of the row below.
    let mut reachables: Vec<Vec<(Range, Range)>> = Vec::new();
    let mut first_row: Vec<(Range, Range)> = Vec::new();
    let nr0 = x_ranges[0].len();
    let mut c0: usize = 0;
    while c0 < nr0
        invariant
            c0 <= nr0,
            x_ranges@.len() == len,
            include_xs@.len() == len,
            1 <= len,
            nr0 == x_ranges@[0]@.len(),
            forall|rr: int, k: int|
                (0 <= rr < len && 0 <= k < x_ranges@[rr]@.len()) ==> range_ok(
                    #[trigger] x_ranges@[rr]@[k],
                    30000,
                ),
            forall|k: int|
                0 <= k < first_row@.len() ==> range_ok((#[trigger] first_row@[k]).0, 30000)
                    && range_ok(first_row@[k].1, 30000),
        decreases nr0 - c0,
    {
        let r0 = x_ranges[0][c0];
        if r0.contains_all(include_xs[0].as_slice()) {
            first_row.push((r0, r0));
        }
        c0 += 1;
    }
    reachables.push(first_row);
    let mut yy: usize = 1;
    while yy < len
        invariant
            1 <= yy <= len,
            x_ranges@.len() == len,
            include_xs@.len() == len,
            reachables@.len() == yy,
            forall|rr: int, k: int|
                (0 <= rr < len && 0 <= k < x_ranges@[rr]@.len()) ==> range_ok(
                    #[trigger] x_ranges@[rr]@[k],
                    30000,
                ),
            forall|rr: int, k: int|
                (0 <= rr < yy && 0 <= k < reachables@[rr]@.len()) ==> range_ok(
                    (#[trigger] reachables@[rr]@[k]).0,
                    30000,
                ) && range_ok(reachables@[rr]@[k].1, 30000),
        decreases len - yy,
    {
        let mut next: Vec<(Range, Range)> = Vec::new();
        let nc = x_ranges[yy].len();
        let mut ci: usize = 0;
        while ci < nc
            invariant
                ci <= nc,
                1 <= yy < len,
                x_ranges@.len() == len,
                include_xs@.len() == len,
                reachables@.len() == yy,
                nc == x_ranges@[yy as int]@.len(),
                forall|rr: int, k: int|
                    (0 <= rr < len && 0 <= k < x_ranges@[rr]@.len()) ==> range_ok(
                        #[trigger] x_ranges@[rr]@[k],
                        30000,
                    ),
                forall|rr: int, k: int|
                    (0 <= rr < yy && 0 <= k < reachables@[rr]@.len()) ==> range_ok(
                        (#[trigger] reachables@[rr]@[k]).0,
                        30000,
                    ) && range_ok(reachables@[rr]@[k].1, 30000),
                forall|k: int|
                    0 <= k < next@.len() ==> range_ok((#[trigger] next@[k]).0, 30000) && range_ok(
                        next@[k].1,
                        30000,
                    ),
            decreases nc - ci,
        {
            let to = x_ranges[yy][ci];
            if to.contains_all(include_xs[yy].as_slice()) {
                let np = reachables[yy - 1].len();
                let mut pi: usize = 0;
                let mut matched = false;
                while pi < np && !matched
                    invariant
                        pi <= np,
                        yy - 1 < reachables@.len(),
                        np == reachables@[yy - 1]@.len(),
                        forall|rr: int, k: int|
                            (0 <= rr < yy && 0 <= k < reachables@[rr]@.len()) ==> range_ok(
                                (#[trigger] reachables@[rr]@[k]).0,
                                30000,
                            ) && range_ok(reachables@[rr]@[k].1, 30000),
                        forall|k: int|
                            0 <= k < next@.len() ==> range_ok((#[trigger] next@[k]).0, 30000)
                                && range_ok(next@[k].1, 30000),
                        range_ok(to, 30000),
                    decreases np - pi, (if matched {
                        0int
                    } else {
                        1int
                    }),
                {
                    let from = reachables[yy - 1][pi].0;
                    if to.intersect(from) {
                        next.push((to, from));
                        matched = true;
                    } else {
                        pi += 1;
                    }
                }
            }
            ci += 1;
        }
        reachables.push(next);
        yy += 1;
    }
    if reachables[len - 1].len() == 0 {
        return None;
    }
    // Backtrack one chain of ranges, bottom row first.
    let mut rev_ranges: Vec<Range> = Vec::new();
    let first = reachables[len - 1][0];
    let mut cur_r = first.0;
    let mut next_r = first.1;
    rev_ranges.push(cur_r);
    let mut by: usize = len - 1;
    while by > 0
        invariant
            by <= len - 1,
            reachables@.len() == len,
            rev_ranges@.len() == len - by,
            range_ok(next_r, 30000),
            forall|k: int| 0 <= k < rev_ranges@.len() ==> range_ok(#[trigger] rev_ranges@[k], 30000),
            forall|rr: int, k: int|
                (0 <= rr < len && 0 <= k < reachables@[rr]@.len()) ==> range_ok(
                    (#[trigger] reachables@[rr]@[k]).0,
                    30000,
                ) && range_ok(reachables@[rr]@[k].1, 30000),
        decreases by,
    {
        let y = by - 1;
        let nrow = reachables[y].len();
        let mut fi: usize = 0;
        let mut found = false;
        let mut found_entry: (Range, Range) = (next_r, next_r);
        while fi < nrow && !found
            invariant
                fi <= nrow,
                y < reachables@.len(),
                nrow == reachables@[y as int]@.len(),
                range_ok(next_r, 30000),
                found ==> range_ok(found_entry.0, 30000) && range_ok(found_entry.1, 30000),
                forall|rr: int, k: int|
                    (0 <= rr < len && 0 <= k < reachables@[rr]@.len()) ==> range_ok(
                        (#[trigger] reachables@[rr]@[k]).0,
                        30000,
                    ) && range_ok(reachables@[rr]@[k].1, 30000),
            decreases nrow - fi, (if found {
                0int
            } else {
                1int
            }),
        {
            let e = reachables[y][fi];
            if e.0 == next_r {
                found = true;
                found_entry = e;
            } else {
                fi += 1;
            }
        }
        if !found {
            return None;
        }
        cur_r = found_entry.0;
        next_r = found_entry.1;
        rev_ranges.push(cur_r);
        by = y;
    }
    // rev_ranges holds rows from top to bottom; reverse them.
    let mut ranges: Vec<Range> = Vec::new();
    let nrv = rev_ranges.len();
    let mut k: usize = nrv;
    while k > 0
        invariant
            k <= nrv,
            nrv == rev_ranges@.len(),
            ranges@.len() == nrv - k,
            forall|t: int| 0 <= t < rev_ranges@.len() ==> range_ok(#[trigger] rev_ranges@[t], 30000),
            forall|t: int| 0 <= t < ranges@.len() ==> range_ok(#[trigger] ranges@[t], 30000),
        decreases k,
    {
        k -= 1;
        ranges.push(rev_ranges[k]);
    }
    if !increase_vertex_number(&mut ranges, &puzzle.includes, puzzle.vertex_min) {
        return None;
    }
    let map = construct_map_from_ranges(&ranges);
    if map.len() < puzzle.vertex_min {
        return None;
    }
    if map.len() > puzzle.vertex_max {
        return None;
    }
    let mut points = match map.enumerate_points() {
        None => {
            return None;
        },
        Some(ps) => ps,
    };
    proof {
        assert(len * len <= 900000000) by (nonlinear_arith)
            requires
                1 <= len && len <= 30000,
        ;
    }
    if points.len() < len * len / 5 {
        return None;
    }
    // Check the puzzle's own constraints against the emitted polygon.
    let mut ci2: usize = 0;
    while ci2 < ni
        invariant
            ci2 <= ni,
            ni == puzzle.includes@.len(),
            forall|q: Point|
                #[trigger] points@.contains(q) <==> cell_inside(
                    map.vertices(),
                    q.x as int,
                    q.y as int,
                ),
            forall|t: int|
                0 <= t < ci2 ==> cell_inside(
                    map.vertices(),
                    (#[trigger] puzzle.includes@[t]).x as int,
                    puzzle.includes@[t].y as int,
                ),
        decreases ni - ci2,
    {
        if !contains_point(&points, puzzle.includes[ci2]) {
            return None;
        }
        ci2 += 1;
    }
    let mut ce2: usize = 0;
    while ce2 < ne
        invariant
            ce2 <= ne,
            ne == puzzle.excludes@.len(),
            forall|q: Point|
                #[trigger] points@.contains(q) <==> cell_inside(
                    map.vertices(),
                    q.x as int,
                    q.y as int,
                ),
            forall|t: int|
                0 <= t < ce2 ==> !cell_inside(
                    map.vertices(),
                    (#[trigger] puzzle.excludes@[t]).x as int,
                    puzzle.excludes@[t].y as int,
                ),
        decreases ne - ce2,
    {
        if contains_point(&points, puzzle.excludes[ce2]) {
            return None;
        }
        ce2 += 1;
    }
    // Seat the initial point and the requested boosters on distinct cells.
    let ghost pre_points = points@;
    proof {
        points@.lemma_multiset_has_no_duplicates();
    }
    shuffle_vec(&mut points);
    proof {
        points@.lemma_multiset_has_no_duplicates_conv();
        assert forall|q: Point|
            #[trigger] points@.contains(q) <==> cell_inside(
            map.vertices(),
            q.x as int,
            q.y as int,
        ) by {
            assert(points@.contains(q) == pre_points.contains(q));
        }
    }
    if points.len() < 1 {
        return None;
    }
    let initial = points[0];
    let mut boosters: Vec<Booster> = Vec::new();
    let c1 = match seat_boosters(&points, 1, puzzle.hand_count, BoosterType::NewHand, &mut boosters)
    {
        None => {
            return None;
        },
        Some(c) => c,
    };
    let c2 = match seat_boosters(
        &points,
        c1,
        puzzle.fast_count,
        BoosterType::FastMove,
        &mut boosters,
    ) {
        None => {
            return None;
        },
        Some(c) => c,
    };
    let c3 = match seat_boosters(
        &points,
        c2,
        puzzle.drill_count,
        BoosterType::Drill,
        &mut boosters,
    ) {
        None => {
            return None;
        },
        Some(c) => c,
    };
    let c4 = match seat_boosters(
        &points,
        c3,
        puzzle.tele_count,
        BoosterType::Teleports,
        &mut boosters,
    ) {
        None => {
            return None;
        },
        Some(c) => c,
    };
    let c5 = match seat_boosters(
        &points,
        c4,
        puzzle.clone_count,
        BoosterType::Cloning,
        &mut boosters,
    ) {
        None => {
            return None;
        },
        Some(c) => c,
    };
    let _c6 = match seat_boosters(
        &points,
        c5,
        puzzle.spawn_count,
        BoosterType::Spawn,
        &mut boosters,
    ) {
        None => {
            return None;
        },
        Some(c) => c,
    };
    proof {
        assert forall|i: int|
            0 <= i < boosters@.len() implies (#[trigger] boosters@[i]).point == points@[1 + i] by {}
        assert forall|i: int, j: int|
            0 <= i < j < boosters@.len() implies (#[trigger] boosters@[i]).point != (
        #[trigger] boosters@[j]).point by {
            assert(boosters@[i].point == points@[1 + i]);
            assert(boosters@[j].point == points@[1 + j]);
        }
        assert forall|i: int|
            0 <= i < boosters@.len() implies (#[trigger] boosters@[i]).point != initial by {
            assert(boosters@[i].point == points@[1 + i]);
            assert(initial == points@[0]);
        }
        assert forall|i: int|
            0 <= i < boosters@.len() implies cell_inside(
            map.vertices(),
            (#[trigger] boosters@[i]).point.x as int,
            boosters@[i].point.y as int,
        ) by {
            assert(boosters@[i].point == points@[1 + i]);
            assert(points@.contains(points@[1 + i]));
        }
        assert(points@.contains(points@[0]));
        pre_points.unique_seq_to_set();
        vstd::seq_lib::seq_to_set_is_finite(pre_points);
        assert(pre_points.to_set() =~= interior_set(map.vertices()));
    }
    Some(
        Task {
            id: String::new(),
            width: len,
            height: len,
            map,
            initial,
            obstacles: Vec::new(),
            boosters,
        },
    )
}

} // verus!
