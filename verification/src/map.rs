//! Orthogonal polygons given as vertex lists, and enumeration of their
//! interior cells by a scanline over horizontal edges.
//!
//! The specification of the interior is a ray-casting parity count: a unit
//! cell (x, y) is inside the polygon exactly when an upward ray from the
//! centre of the cell crosses an odd number of horizontal edges. The
//! enumeration is proved to return exactly that set of cells, which also
//! makes it independent of where the vertex list starts and of its
//! orientation.

use vstd::prelude::*;

use crate::geom::Point;

verus! {

/// Axis class of a polygon edge.
pub enum LineDirection {
    Verticle,
    Horizontal,
}

/// An orthogonal polygon: the ordered cycle of its vertices.
#[derive(Clone, PartialEq, Eq, Debug)]
pub struct Polygon(pub Vec<Point>);

/// First endpoint of edge `i` of the vertex cycle `vs`.
pub open spec fn edge_a(vs: Seq<Point>, i: int) -> Point {
    vs[i]
}

/// Second endpoint of edge `i`: the cyclically next vertex.
pub open spec fn edge_b(vs: Seq<Point>, i: int) -> Point {
    if i + 1 == vs.len() {
        vs[0]
    } else {
        vs[i + 1]
    }
}

/// True when the segment from `a` to `b` is horizontal and spans column `x`,
/// i.e. it crosses the vertical line X = x + 1/2. Symmetric in `a` and `b`.
pub open spec fn crosses(a: Point, b: Point, x: int) -> bool {
    a.y == b.y && ((a.x <= x < b.x) || (b.x <= x < a.x))
}

/// 1 when edge `i` spans column `x` and lies strictly above row `y`.
pub open spec fn above_term(vs: Seq<Point>, x: int, y: int, i: int) -> int {
    if crosses(edge_a(vs, i), edge_b(vs, i), x) && edge_a(vs, i).y > y {
        1
    } else {
        0
    }
}

/// 1 when edge `i` spans column `x` (at any height).
pub open spec fn cross_term(vs: Seq<Point>, x: int, i: int) -> int {
    if crosses(edge_a(vs, i), edge_b(vs, i), x) {
        1
    } else {
        0
    }
}

/// Number of edges with index in [lo, hi) that span column `x` strictly
/// above row `y`.
pub open spec fn cnt_above(vs: Seq<Point>, x: int, y: int, lo: int, hi: int) -> int
    decreases hi - lo,
{
    if lo >= hi {
        0
    } else {
        cnt_above(vs, x, y, lo, hi - 1) + above_term(vs, x, y, hi - 1)
    }
}

/// Number of edges with index in [lo, hi) that span column `x`.
pub open spec fn cnt_cross(vs: Seq<Point>, x: int, lo: int, hi: int) -> int
    decreases hi - lo,
{
    if lo >= hi {
        0
    } else {
        cnt_cross(vs, x, lo, hi - 1) + cross_term(vs, x, hi - 1)
    }
}

/// The interior characterization: cell (x, y) is inside the polygon when an
/// upward ray from the cell centre crosses an odd number of horizontal edges.
pub open spec fn cell_inside(vs: Seq<Point>, x: int, y: int) -> bool {
    cnt_above(vs, x, y, 0, vs.len() as int) % 2 == 1
}

/// Column `x` is degenerate when an odd number of horizontal edges span it;
/// a closed orthogonal polygon never has such a column.
pub open spec fn col_odd(vs: Seq<Point>, x: int) -> bool {
    cnt_cross(vs, x, 0, vs.len() as int) % 2 == 1
}

/// `cnt_above` also unfolds from the front.
pub proof fn lemma_cnt_above_front(vs: Seq<Point>, x: int, y: int, lo: int, hi: int)
    requires
        lo < hi,
    ensures
        cnt_above(vs, x, y, lo, hi) == above_term(vs, x, y, lo) + cnt_above(vs, x, y, lo + 1, hi),
    decreases hi - lo,
{
    if lo + 1 < hi {
        lemma_cnt_above_front(vs, x, y, lo, hi - 1);
        assert(cnt_above(vs, x, y, lo, hi) == cnt_above(vs, x, y, lo, hi - 1) + above_term(
            vs,
            x,
            y,
            hi - 1,
        ));
        assert(cnt_above(vs, x, y, lo + 1, hi) == cnt_above(vs, x, y, lo + 1, hi - 1) + above_term(
            vs,
            x,
            y,
            hi - 1,
        ));
    } else {
        assert(cnt_above(vs, x, y, lo, hi) == cnt_above(vs, x, y, lo, lo) + above_term(
            vs,
            x,
            y,
            lo,
        ));
        assert(cnt_above(vs, x, y, lo + 1, hi) == 0);
    }
}

/// `cnt_cross` also unfolds from the front.
pub proof fn lemma_cnt_cross_front(vs: Seq<Point>, x: int, lo: int, hi: int)
    requires
        lo < hi,
    ensures
        cnt_cross(vs, x, lo, hi) == cross_term(vs, x, lo) + cnt_cross(vs, x, lo + 1, hi),
    decreases hi - lo,
{
    if lo + 1 < hi {
        lemma_cnt_cross_front(vs, x, lo, hi - 1);
        assert(cnt_cross(vs, x, lo, hi) == cnt_cross(vs, x, lo, hi - 1) + cross_term(vs, x, hi - 1));
        assert(cnt_cross(vs, x, lo + 1, hi) == cnt_cross(vs, x, lo + 1, hi - 1) + cross_term(
            vs,
            x,
            hi - 1,
        ));
    } else {
        assert(cnt_cross(vs, x, lo, hi) == cnt_cross(vs, x, lo, lo) + cross_term(vs, x, lo));
        assert(cnt_cross(vs, x, lo + 1, hi) == 0);
    }
}

/// Outside the x-extent of the vertices no edge spans the column, so the
/// parity count is zero there.
pub proof fn lemma_outside_columns(vs: Seq<Point>, x: int, y: int, lo: int, hi: int, n: int)
    requires
        0 <= n <= vs.len(),
        forall|i: int| 0 <= i < vs.len() ==> lo <= (#[trigger] vs[i]).x <= hi,
        x < lo || x >= hi,
    ensures
        cnt_above(vs, x, y, 0, n) == 0,
        cnt_cross(vs, x, 0, n) == 0,
    decreases n,
{
    if n > 0 {
        lemma_outside_columns(vs, x, y, lo, hi, n - 1);
        assert(above_term(vs, x, y, n - 1) == 0);
        assert(cross_term(vs, x, n - 1) == 0);
    }
}

/// Number of elements of `s` strictly greater than `y`.
pub open spec fn cnt_gt(s: Seq<i32>, y: int) -> int
    decreases s.len(),
{
    if s.len() == 0 {
        0
    } else {
        cnt_gt(s.drop_last(), y) + if s.last() > y {
            1int
        } else {
            0int
        }
    }
}

/// Pushing an element adjusts the greater-than count by its own indicator.
pub proof fn lemma_cnt_gt_push(s: Seq<i32>, e: i32, y: int)
    ensures
        cnt_gt(s.push(e), y) == cnt_gt(s, y) + if e > y {
            1int
        } else {
            0int
        },
{
    assert(s.push(e).drop_last() =~= s);
}

/// Inserting an element anywhere adjusts the greater-than count by its own
/// indicator.
pub proof fn lemma_cnt_gt_insert(s: Seq<i32>, k: int, e: i32, y: int)
    requires
        0 <= k <= s.len(),
    ensures
        cnt_gt(s.insert(k, e), y) == cnt_gt(s, y) + if e > y {
            1int
        } else {
            0int
        },
    decreases s.len() - k,
{
    if k == s.len() {
        assert(s.insert(k, e) =~= s.push(e));
        lemma_cnt_gt_push(s, e, y);
    } else {
        let t = s.insert(k, e);
        assert(t.drop_last() =~= s.drop_last().insert(k, e));
        assert(t.last() == s.last());
        lemma_cnt_gt_insert(s.drop_last(), k, e, y);
    }
}

/// In a sequence whose elements are all strictly greater than `y`, the
/// greater-than count is the whole length.
pub proof fn lemma_cnt_gt_all(s: Seq<i32>, y: int)
    requires
        forall|i: int| 0 <= i < s.len() ==> (#[trigger] s[i]) > y,
    ensures
        cnt_gt(s, y) == s.len(),
    decreases s.len(),
{
    if s.len() > 0 {
        lemma_cnt_gt_all(s.drop_last(), y);
    }
}

/// Non-decreasing order.
pub open spec fn sorted(s: Seq<i32>) -> bool {
    forall|i: int, j: int| 0 <= i <= j < s.len() ==> s[i] <= s[j]
}

/// Membership of `y` in the union of the half-open intervals formed by
/// consecutive pairs of `v`: [v[0], v[1]), [v[2], v[3]), ...
pub open spec fn in_pairs(v: Seq<i32>, y: int) -> bool {
    exists|k: int| 0 <= k && 2 * k + 1 < v.len() && (#[trigger] v[2 * k]) <= y < v[2 * k + 1]
}

/// For a sorted even-length sequence, `y` lies in the union of the
/// consecutive-pair intervals exactly when an odd number of elements are
/// strictly greater than `y`.
pub proof fn lemma_pairs(v: Seq<i32>, y: int)
    requires
        sorted(v),
        v.len() % 2 == 0,
    ensures
        in_pairs(v, y) <==> cnt_gt(v, y) % 2 == 1,
    decreases v.len(),
{
    if v.len() == 0 {
        assert(!in_pairs(v, y));
    } else {
        let a = v[0];
        let b = v[1];
        let rest = v.skip(2);
        assert(sorted(rest));
        assert(v.drop_last() =~= Seq::new((v.len() - 1) as nat, |i: int| v[i]));
        lemma_cnt_gt_skip2(v, y);
        lemma_pairs(rest, y);
        if y < a {
            assert forall|i: int| 0 <= i < rest.len() implies (#[trigger] rest[i]) > y by {
                assert(rest[i] == v[i + 2]);
            }
            lemma_cnt_gt_all(rest, y);
            assert(cnt_gt(v, y) == 2 + rest.len());
            assert(cnt_gt(v, y) % 2 == 0) by {
                assert(rest.len() % 2 == 0);
            }
            assert(!in_pairs(v, y)) by {
                if in_pairs(v, y) {
                    let k = choose|k: int|
                        0 <= k && 2 * k + 1 < v.len() && (#[trigger] v[2 * k]) <= y < v[2 * k + 1];
                    assert(v[2 * k] >= v[0]);
                }
            }
        } else if y < b {
            assert forall|i: int| 0 <= i < rest.len() implies (#[trigger] rest[i]) > y by {
                assert(rest[i] == v[i + 2] >= v[1]);
            }
            lemma_cnt_gt_all(rest, y);
            assert(cnt_gt(v, y) == 1 + rest.len());
            assert(cnt_gt(v, y) % 2 == 1) by {
                assert(rest.len() % 2 == 0);
            }
            assert(in_pairs(v, y)) by {
                let k0: int = 0;
                assert(0 <= k0 && 2 * k0 + 1 < v.len() && v[2 * k0] <= y < v[2 * k0 + 1]);
            }
        } else {
            assert(cnt_gt(v, y) == cnt_gt(rest, y));
            if in_pairs(rest, y) {
                let k = choose|k: int|
                    0 <= k && 2 * k + 1 < rest.len() && (#[trigger] rest[2 * k]) <= y < rest[2 * k
                        + 1];
                assert(v[2 * (k + 1)] == rest[2 * k]);
                assert(v[2 * (k + 1) + 1] == rest[2 * k + 1]);
                assert(in_pairs(v, y));
            }
            if in_pairs(v, y) {
                let k = choose|k: int|
                    0 <= k && 2 * k + 1 < v.len() && (#[trigger] v[2 * k]) <= y < v[2 * k + 1];
                assert(k != 0);
                assert(rest[2 * (k - 1)] == v[2 * k]);
                assert(rest[2 * (k - 1) + 1] == v[2 * k + 1]);
                assert(in_pairs(rest, y));
            }
        }
    }
}

/// The greater-than count splits off the first two elements.
proof fn lemma_cnt_gt_skip2(v: Seq<i32>, y: int)
    requires
        v.len() >= 2,
    ensures
        cnt_gt(v, y) == cnt_gt(v.skip(2), y) + (if v[0] > y {
            1int
        } else {
            0int
        }) + (if v[1] > y {
            1int
        } else {
            0int
        }),
    decreases v.len(),
{
    if v.len() == 2 {
        assert(v.skip(2) =~= Seq::<i32>::empty());
        assert(v.drop_last().drop_last() =~= Seq::<i32>::empty());
        assert(v.drop_last().last() == v[0]);
        assert(v.last() == v[1]);
        assert(cnt_gt(v, y) == cnt_gt(v.drop_last(), y) + if v[1] > y {
            1int
        } else {
            0int
        });
        assert(cnt_gt(v.drop_last(), y) == cnt_gt(v.drop_last().drop_last(), y) + if v[0] > y {
            1int
        } else {
            0int
        });
        assert(cnt_gt(Seq::<i32>::empty(), y) == 0);
    } else {
        lemma_cnt_gt_skip2(v.drop_last(), y);
        assert(v.drop_last().skip(2) =~= v.skip(2).drop_last());
        assert(v.drop_last()[0] == v[0]);
        assert(v.drop_last()[1] == v[1]);
        assert(v.skip(2).last() == v.last());
        assert(cnt_gt(v, y) == cnt_gt(v.drop_last(), y) + if v.last() > y {
            1int
        } else {
            0int
        });
        assert(cnt_gt(v.skip(2), y) == cnt_gt(v.skip(2).drop_last(), y) + if v.skip(2).last() > y {
            1int
        } else {
            0int
        });
    }
}


/// Pushing an element extends sequence membership by exactly that element.
proof fn lemma_contains_push<A>(s: Seq<A>, e: A, p: A)
    ensures
        s.push(e).contains(p) <==> (s.contains(p) || p == e),
{
    if s.contains(p) {
        let i = choose|i: int| 0 <= i < s.len() && s[i] == p;
        assert(s.push(e)[i] == p);
    }
    if p == e {
        assert(s.push(e)[s.len() as int] == p);
    }
    if s.push(e).contains(p) {
        let i = choose|i: int| 0 <= i < s.push(e).len() && s.push(e)[i] == p;
        if i < s.len() {
            assert(s[i] == p);
        }
    }
}

/// Concatenating duplicate-free sequences with no common element stays
/// duplicate-free.
proof fn lemma_no_dup_concat<A>(a: Seq<A>, b: Seq<A>)
    requires
        a.no_duplicates(),
        b.no_duplicates(),
        forall|i: int, j: int| 0 <= i < a.len() && 0 <= j < b.len() ==> a[i] != b[j],
    ensures
        (a + b).no_duplicates(),
{
    assert forall|i: int, j: int| 0 <= i < (a + b).len() && 0 <= j < (a + b).len() && i != j
        implies (a + b)[i] != (a + b)[j] by {
        if i < a.len() && j < a.len() {
            assert((a + b)[i] == a[i] && (a + b)[j] == a[j]);
        } else if i < a.len() {
            assert((a + b)[i] == a[i] && (a + b)[j] == b[j - a.len()]);
        } else if j < a.len() {
            assert((a + b)[i] == b[i - a.len()] && (a + b)[j] == a[j]);
        } else {
            assert((a + b)[i] == b[i - a.len()] && (a + b)[j] == b[j - a.len()]);
        }
    }
}

/// Concatenation membership is membership in either part.
proof fn lemma_contains_concat<A>(s: Seq<A>, t: Seq<A>, p: A)
    ensures
        (s + t).contains(p) <==> (s.contains(p) || t.contains(p)),
{
    if s.contains(p) {
        let i = choose|i: int| 0 <= i < s.len() && s[i] == p;
        assert((s + t)[i] == p);
    }
    if t.contains(p) {
        let i = choose|i: int| 0 <= i < t.len() && t[i] == p;
        assert((s + t)[i + s.len()] == p);
    }
    if (s + t).contains(p) {
        let i = choose|i: int| 0 <= i < (s + t).len() && (s + t)[i] == p;
        if i < s.len() {
            assert(s[i] == p);
        } else {
            assert(t[i - s.len()] == p);
        }
    }
}

/// Insert `e` into an already sorted vector, keeping it sorted; for every
/// threshold the greater-than count grows by the indicator of `e`.
fn insert_sorted(v: &mut Vec<i32>, e: i32)
    requires
        sorted(old(v)@),
        old(v)@.len() < usize::MAX,
    ensures
        sorted(final(v)@),
        final(v)@.len() == old(v)@.len() + 1,
        forall|y: int|
            #[trigger] cnt_gt(final(v)@, y) == cnt_gt(old(v)@, y) + if e > y {
                1int
            } else {
                0int
            },
{
    let n = v.len();
    let mut k: usize = 0;
    while k < n && v[k] <= e
        invariant
            k <= n,
            n == v@.len(),
            forall|j: int| 0 <= j < k ==> (#[trigger] v@[j]) <= e,
            v@ == old(v)@,
        decreases n - k,
    {
        k += 1;
    }
    v.insert(k, e);
    proof {
        assert(v@ == old(v)@.insert(k as int, e));
        assert forall|i: int, j: int| 0 <= i <= j < v@.len() implies v@[i] <= v@[j] by {
            if j < k {
            } else if i > k {
            } else if i == k && j == k {
            } else if i < k && j == k {
                assert(v@[i] == old(v)@[i]);
            } else if i == k {
                assert(v@[j] == old(v)@[j - 1]);
                assert(old(v)@[k as int] <= old(v)@[j - 1]);
            } else {
                assert(v@[i] == old(v)@[i] && v@[j] == old(v)@[j - 1]);
            }
        }
        assert forall|y: int|
            #[trigger] cnt_gt(v@, y) == cnt_gt(old(v)@, y) + (if e > y {
                1int
            } else {
                0int
            }) by {
            lemma_cnt_gt_insert(old(v)@, k as int, e, y);
        }
    }
}

/// Sort a vector of scanline heights; sorting preserves every greater-than
/// count, which is all the pairing step depends on.
fn sort_heights(v: &Vec<i32>) -> (r: Vec<i32>)
    ensures
        sorted(r@),
        r@.len() == v@.len(),
        forall|y: int| #[trigger] cnt_gt(r@, y) == cnt_gt(v@, y),
{
    let n = v.len();
    let mut out: Vec<i32> = Vec::new();
    let mut i: usize = 0;
    while i < n
        invariant
            i <= n,
            n == v@.len(),
            sorted(out@),
            out@.len() == i,
            forall|y: int| #[trigger] cnt_gt(out@, y) == cnt_gt(v@.take(i as int), y),
        decreases n - i,
    {
        let e = v[i];
        insert_sorted(&mut out, e);
        proof {
            assert(v@.take(i + 1).drop_last() =~= v@.take(i as int));
            assert(v@.take(i + 1).last() == v@[i as int]);
            assert forall|y: int| #[trigger] cnt_gt(out@, y) == cnt_gt(v@.take(i + 1), y) by {
                assert(cnt_gt(v@.take(i + 1), y) == cnt_gt(v@.take(i as int), y) + if v@[i as int]
                    > y {
                    1int
                } else {
                    0int
                });
            }
        }
        i += 1;
    }
    proof {
        assert(v@.take(n as int) =~= v@);
    }
    out
}


/// Membership of `y` in the pair intervals among the first `j` entries only.
pub open spec fn in_pairs_upto(v: Seq<i32>, y: int, j: int) -> bool {
    exists|k: int|
        0 <= k && 2 * k + 1 < j && 2 * k + 1 < v.len() && (#[trigger] v[2 * k]) <= y < v[2 * k + 1]
}

/// Extending the pair prefix by one pair adds exactly that pair's interval.
proof fn lemma_in_pairs_step(v: Seq<i32>, y: int, j: int)
    requires
        0 <= j,
        j % 2 == 0,
        j + 1 < v.len(),
    ensures
        in_pairs_upto(v, y, j + 2) <==> (in_pairs_upto(v, y, j) || (v[j] <= y < v[j + 1])),
{
    if in_pairs_upto(v, y, j + 2) {
        let k = choose|k: int|
            0 <= k && 2 * k + 1 < j + 2 && 2 * k + 1 < v.len() && (#[trigger] v[2 * k]) <= y < v[2
                * k + 1];
        if 2 * k + 1 < j {
            assert(in_pairs_upto(v, y, j));
        } else {
            assert(2 * k == j);
        }
    }
    if in_pairs_upto(v, y, j) {
        let k = choose|k: int|
            0 <= k && 2 * k + 1 < j && 2 * k + 1 < v.len() && (#[trigger] v[2 * k]) <= y < v[2 * k
                + 1];
        assert(0 <= k && 2 * k + 1 < j + 2 && 2 * k + 1 < v.len() && v[2 * k] <= y < v[2 * k + 1]);
    }
    if v[j] <= y < v[j + 1] {
        let k = j / 2;
        assert(2 * k == j);
        assert(0 <= k && 2 * k + 1 < j + 2 && 2 * k + 1 < v.len() && v[2 * k] <= y < v[2 * k + 1]);
    }
}

/// The full pair prefix is exactly `in_pairs`.
proof fn lemma_in_pairs_full(v: Seq<i32>, y: int)
    ensures
        in_pairs_upto(v, y, v.len() as int) <==> in_pairs(v, y),
{
    if in_pairs_upto(v, y, v.len() as int) {
        let k = choose|k: int|
            0 <= k && 2 * k + 1 < v.len() && 2 * k + 1 < v.len() && (#[trigger] v[2 * k]) <= y < v[
                2 * k + 1];
        assert(0 <= k && 2 * k + 1 < v.len() && v[2 * k] <= y < v[2 * k + 1]);
    }
    if in_pairs(v, y) {
        let k = choose|k: int|
            0 <= k && 2 * k + 1 < v.len() && (#[trigger] v[2 * k]) <= y < v[2 * k + 1];
        assert(0 <= k && 2 * k + 1 < v.len() as int && 2 * k + 1 < v.len() && v[2 * k] <= y < v[2
            * k + 1]);
    }
}

impl Polygon {
    /// The vertex cycle of the polygon.
    pub open spec fn vertices(self) -> Seq<Point> {
        self.0@
    }

    pub fn new(ps: Vec<Point>) -> (r: Polygon)
        ensures
            r.vertices() == ps@,
    {
        Polygon(ps)
    }

    pub fn len(&self) -> (r: usize)
        ensures
            r == self.vertices().len(),
    {
        self.0.len()
    }

    pub fn is_empty(&self) -> (r: bool)
        ensures
            r == (self.vertices().len() == 0),
    {
        self.0.len() == 0
    }

    /// One more than the largest vertex x coordinate.
    pub fn compute_width(&self) -> (r: usize)
        requires
            self.vertices().len() > 0,
            forall|i: int|
                0 <= i < self.vertices().len() ==> 0 <= (#[trigger] self.vertices()[i]).x,
        ensures
            exists|i: int|
                0 <= i < self.vertices().len() && r == (#[trigger] self.vertices()[i]).x + 1,
            forall|i: int| 0 <= i < self.vertices().len() ==> (#[trigger] self.vertices()[i]).x < r,
    {
        let n = self.0.len();
        let mut best: i32 = self.0[0].x;
        let mut i: usize = 1;
        while i < n
            invariant
                1 <= i <= n,
                n == self.vertices().len(),
                forall|i: int|
                    0 <= i < self.vertices().len() ==> 0 <= (#[trigger] self.vertices()[i]).x,
                exists|j: int| 0 <= j < n && best == (#[trigger] self.vertices()[j]).x,
                forall|j: int| 0 <= j < i ==> (#[trigger] self.vertices()[j]).x <= best,
            decreases n - i,
        {
            if self.0[i].x > best {
                best = self.0[i].x;
            }
            i += 1;
        }
        (best as usize) + 1
    }

    /// One more than the largest vertex y coordinate.
    pub fn compute_height(&self) -> (r: usize)
        requires
            self.vertices().len() > 0,
            forall|i: int|
                0 <= i < self.vertices().len() ==> 0 <= (#[trigger] self.vertices()[i]).y,
        ensures
            exists|i: int|
                0 <= i < self.vertices().len() && r == (#[trigger] self.vertices()[i]).y + 1,
            forall|i: int| 0 <= i < self.vertices().len() ==> (#[trigger] self.vertices()[i]).y < r,
    {
        let n = self.0.len();
        let mut best: i32 = self.0[0].y;
        let mut i: usize = 1;
        while i < n
            invariant
                1 <= i <= n,
                n == self.vertices().len(),
                forall|i: int|
                    0 <= i < self.vertices().len() ==> 0 <= (#[trigger] self.vertices()[i]).y,
                exists|j: int| 0 <= j < n && best == (#[trigger] self.vertices()[j]).y,
                forall|j: int| 0 <= j < i ==> (#[trigger] self.vertices()[j]).y <= best,
            decreases n - i,
        {
            if self.0[i].y > best {
                best = self.0[i].y;
            }
            i += 1;
        }
        (best as usize) + 1
    }

    /// The edges of the polygon as (axis class, endpoint, endpoint) triples,
    /// one per vertex, each paired with its cyclic successor.
    pub fn iter_lines(&self) -> (r: Vec<(LineDirection, Point, Point)>)
        requires
            forall|i: int|
                0 <= i < self.vertices().len() ==> (edge_a(self.vertices(), i).x == edge_b(
                    self.vertices(),
                    i,
                ).x || edge_a(self.vertices(), i).y == edge_b(self.vertices(), i).y),
        ensures
            r@.len() == self.vertices().len(),
            forall|i: int|
                0 <= i < r@.len() ==> {
                    let t = #[trigger] r@[i];
                    t.1 == edge_a(self.vertices(), i) && t.2 == edge_b(self.vertices(), i) && (t.1.x
                        == t.2.x <==> t.0 is Verticle)
                },
    {
        let n = self.0.len();
        let mut res: Vec<(LineDirection, Point, Point)> = Vec::new();
        let mut i: usize = 0;
        while i < n
            invariant
                i <= n,
                n == self.vertices().len(),
                res@.len() == i,
                forall|j: int|
                    0 <= j < i ==> {
                        let t = #[trigger] res@[j];
                        t.1 == edge_a(self.vertices(), j) && t.2 == edge_b(self.vertices(), j) && (
                        t.1.x == t.2.x <==> t.0 is Verticle)
                    },
            decreases n - i,
        {
            let cur = self.0[i];
            let next = if i + 1 == n {
                self.0[0]
            } else {
                self.0[i + 1]
            };
            if cur.x == next.x {
                res.push((LineDirection::Verticle, cur, next));
            } else {
                res.push((LineDirection::Horizontal, cur, next));
            }
            i += 1;
        }
        res
    }

    /// Enumerate the interior cells of the polygon: exactly the cells whose
    /// parity characterization `cell_inside` holds. Returns None exactly
    /// when some column is spanned by an odd number of horizontal edges,
    /// which cannot happen for the outline of a closed orthogonal polygon.
    pub fn enumerate_points(&self) -> (r: Option<Vec<Point>>)
        requires
            self.vertices().len() > 0,
        ensures
            match r {
                Some(pts) => {
                    &&& forall|p: Point|
                        #[trigger] pts@.contains(p) <==> cell_inside(
                            self.vertices(),
                            p.x as int,
                            p.y as int,
                        )
                    &&& pts@.no_duplicates()
                    &&& forall|x: int| !col_odd(self.vertices(), x)
                },
                None => exists|x: int| col_odd(self.vertices(), x),
            },
    {
        let ghost vs = self.vertices();
        let n = self.0.len();
        let mut minx: i32 = self.0[0].x;
        let mut maxx: i32 = self.0[0].x;
        let mut i: usize = 1;
        while i < n
            invariant
                1 <= i <= n,
                n == vs.len(),
                vs == self.vertices(),
                minx <= maxx,
                forall|j: int| 0 <= j < i ==> minx <= (#[trigger] vs[j]).x <= maxx,
            decreases n - i,
        {
            if self.0[i].x < minx {
                minx = self.0[i].x;
            }
            if self.0[i].x > maxx {
                maxx = self.0[i].x;
            }
            i += 1;
        }
        let mut res: Vec<Point> = Vec::new();
        let mut x: i32 = minx;
        while x < maxx
            invariant
                n == vs.len(),
                n >= 1,
                vs == self.vertices(),
                minx <= x <= maxx,
                forall|j: int| 0 <= j < n ==> minx <= (#[trigger] vs[j]).x <= maxx,
                forall|x2: int| minx <= x2 < x ==> !col_odd(vs, x2),
                res@.no_duplicates(),
                forall|i: int| 0 <= i < res@.len() ==> (#[trigger] res@[i]).x < x,
                forall|p: Point|
                    #[trigger] res@.contains(p) <==> (minx <= p.x < x && cell_inside(
                        vs,
                        p.x as int,
                        p.y as int,
                    )),
            decreases maxx - x,
        {
            let mut ys: Vec<i32> = Vec::new();
            let mut i: usize = 0;
            while i < n
                invariant
                    i <= n,
                    n == vs.len(),
                    vs == self.vertices(),
                    ys@.len() == cnt_cross(vs, x as int, 0, i as int),
                    forall|y: int|
                        #[trigger] cnt_gt(ys@, y) == cnt_above(vs, x as int, y, 0, i as int),
                decreases n - i,
            {
                let a = self.0[i];
                let b = if i + 1 == n {
                    self.0[0]
                } else {
                    self.0[i + 1]
                };
                let ghost old_ys = ys@;
                if a.y == b.y && ((a.x <= x && x < b.x) || (b.x <= x && x < a.x)) {
                    ys.push(a.y);
                }
                proof {
                    assert(a == edge_a(vs, i as int));
                    assert(b == edge_b(vs, i as int));
                    if crosses(a, b, x as int) {
                        assert(ys@ == old_ys.push(a.y));
                        assert forall|y: int|
                            #[trigger] cnt_gt(ys@, y) == cnt_above(vs, x as int, y, 0, i + 1) by {
                            lemma_cnt_gt_push(old_ys, a.y, y);
                        }
                    } else {
                        assert(ys@ == old_ys);
                    }
                }
                i += 1;
            }
            if ys.len() % 2 == 1 {
                proof {
                    assert(col_odd(vs, x as int));
                }
                return None;
            }
            let yss = sort_heights(&ys);
            let ghost v = yss@;
            proof {
                assert(v.len() as int == cnt_cross(vs, x as int, 0, n as int));
                assert(v.len() % 2 == 0);
            }
            let m = yss.len();
            let mut col: Vec<Point> = Vec::new();
            let mut j: usize = 0;
            while j + 1 < m
                invariant
                    j <= m,
                    j % 2 == 0,
                    m == v.len(),
                    v == yss@,
                    sorted(v),
                    m % 2 == 0,
                    col@.no_duplicates(),
                    forall|i: int| 0 <= i < col@.len() ==> (#[trigger] col@[i]).x == x,
                    j == m || (forall|i: int|
                        0 <= i < col@.len() ==> (#[trigger] col@[i]).y < v[j as int]),
                    forall|p: Point|
                        #[trigger] col@.contains(p) <==> (p.x == x && in_pairs_upto(
                            v,
                            p.y as int,
                            j as int,
                        )),
                decreases m - j,
            {
                let lo = yss[j];
                let hi = yss[j + 1];
                let mut y: i32 = lo;
                while y < hi
                    invariant
                        lo <= y <= hi,
                        v == yss@,
                        j + 1 < m,
                        m == v.len(),
                        sorted(v),
                        lo == v[j as int],
                        hi == v[j as int + 1],
                        col@.no_duplicates(),
                        forall|i: int| 0 <= i < col@.len() ==> (#[trigger] col@[i]).x == x,
                        forall|i: int| 0 <= i < col@.len() ==> (#[trigger] col@[i]).y < y,
                        forall|p: Point|
                            #[trigger] col@.contains(p) <==> (p.x == x && (in_pairs_upto(
                                v,
                                p.y as int,
                                j as int,
                            ) || (lo <= p.y < y))),
                    decreases hi - y,
                {
                    let pt = Point { x, y };
                    let ghost old_col = col@;
                    col.push(pt);
                    proof {
                        assert(!old_col.contains(pt)) by {
                            if old_col.contains(pt) {
                                let i = choose|i: int|
                                    0 <= i < old_col.len() && old_col[i] == pt;
                                assert(old_col[i].y < y);
                            }
                        }
                        assert(col@.no_duplicates()) by {
                            assert forall|a: int, b: int|
                                0 <= a < col@.len() && 0 <= b < col@.len() && a != b implies col@[a]
                                != col@[b] by {
                                if a < old_col.len() && b < old_col.len() {
                                    assert(col@[a] == old_col[a] && col@[b] == old_col[b]);
                                } else if a < old_col.len() {
                                    assert(col@[b] == pt && col@[a] == old_col[a]);
                                    assert(old_col.contains(old_col[a]));
                                } else {
                                    assert(col@[a] == pt && col@[b] == old_col[b]);
                                    assert(old_col.contains(old_col[b]));
                                }
                            }
                        }
                        assert forall|p: Point|
                            #[trigger] col@.contains(p) <==> (p.x == x && (in_pairs_upto(
                                v,
                                p.y as int,
                                j as int,
                            ) || (lo <= p.y < y + 1))) by {
                            lemma_contains_push(old_col, pt, p);
                        }
                    }
                    y += 1;
                }
                proof {
                    assert forall|p: Point|
                        #[trigger] col@.contains(p) <==> (p.x == x && in_pairs_upto(
                            v,
                            p.y as int,
                            j + 2,
                        )) by {
                        lemma_in_pairs_step(v, p.y as int, j as int);
                    }
                    if j + 2 < m {
                        assert(v[j as int + 1] <= v[j + 2]);
                        assert forall|i: int| 0 <= i < col@.len() implies (#[trigger] col@[i]).y
                            < v[j + 2] by {}
                    }
                }
                j += 2;
            }
            proof {
                assert(j == m);
                assert forall|p: Point|
                    (#[trigger] col@.contains(p)) <==> (p.x == x && cell_inside(
                        vs,
                        p.x as int,
                        p.y as int,
                    )) by {
                    lemma_in_pairs_full(v, p.y as int);
                    lemma_pairs(v, p.y as int);
                }
            }
            let ghost old_res = res@;
            let ghost old_col = col@;
            res.append(&mut col);
            proof {
                assert(res@ == old_res + old_col);
                lemma_no_dup_concat(old_res, old_col);
                assert forall|p: Point|
                    #[trigger] res@.contains(p) <==> (minx <= p.x < x + 1 && cell_inside(
                        vs,
                        p.x as int,
                        p.y as int,
                    )) by {
                    lemma_contains_concat(old_res, old_col, p);
                }
                assert(!col_odd(vs, x as int));
            }
            x += 1;
        }
        proof {
            assert forall|p: Point|
                #[trigger] res@.contains(p) <==> cell_inside(vs, p.x as int, p.y as int) by {
                if !(minx <= p.x < maxx) {
                    lemma_outside_columns(
                        vs,
                        p.x as int,
                        p.y as int,
                        minx as int,
                        maxx as int,
                        n as int,
                    );
                }
            }
            assert forall|x2: int| !col_odd(vs, x2) by {
                if !(minx <= x2 < maxx) {
                    lemma_outside_columns(vs, x2, 0, minx as int, maxx as int, n as int);
                }
            }
        }
        Some(res)
    }
}


/// The vertex cycle rotated to start `k` vertices later.
pub open spec fn rotated(vs: Seq<Point>, k: int) -> Seq<Point> {
    vs.skip(k) + vs.take(k)
}

/// Edge terms of a cycle rotated by one are the original terms shifted.
proof fn lemma_cnt_above_rotate1_prefix(vs: Seq<Point>, x: int, y: int, k: int)
    requires
        vs.len() >= 1,
        0 <= k <= vs.len() - 1,
    ensures
        cnt_above(rotated(vs, 1), x, y, 0, k) == cnt_above(vs, x, y, 1, k + 1),
    decreases k,
{
    let r = rotated(vs, 1);
    assert(r.len() == vs.len());
    if k > 0 {
        lemma_cnt_above_rotate1_prefix(vs, x, y, k - 1);
        assert(edge_a(r, k - 1) == edge_a(vs, k));
        assert(edge_b(r, k - 1) == edge_b(vs, k)) by {
            if k == vs.len() - 1 {
                assert(r[k] == vs[0]);
            } else {
                assert(r[k] == vs[k + 1]);
            }
        }
        assert(above_term(r, x, y, k - 1) == above_term(vs, x, y, k));
    }
}

/// Rotating the vertex cycle by one vertex keeps the parity count.
proof fn lemma_cell_inside_rotate1(vs: Seq<Point>, x: int, y: int)
    requires
        vs.len() >= 1,
    ensures
        cell_inside(rotated(vs, 1), x, y) == cell_inside(vs, x, y),
{
    let r = rotated(vs, 1);
    let n = vs.len() as int;
    assert(r.len() == n);
    lemma_cnt_above_rotate1_prefix(vs, x, y, n - 1);
    assert(edge_a(r, n - 1) == vs[0]);
    assert(edge_b(r, n - 1) == r[0]);
    if n >= 2 {
        assert(r[0] == vs[1]);
        assert(edge_b(vs, 0) == vs[1]);
    } else {
        assert(r[0] == vs[0]);
    }
    assert(above_term(r, x, y, n - 1) == above_term(vs, x, y, 0));
    assert(cnt_above(r, x, y, 0, n) == cnt_above(r, x, y, 0, n - 1) + above_term(r, x, y, n - 1));
    if n >= 2 {
        lemma_cnt_above_front(vs, x, y, 0, n);
    } else {
        assert(cnt_above(vs, x, y, 0, n) == cnt_above(vs, x, y, 0, 0) + above_term(vs, x, y, 0));
    }
}

/// The interior characterization is the same under any cyclic rotation of
/// the vertex list: it does not matter at which vertex the outline starts.
pub proof fn lemma_interior_rotation_invariant(vs: Seq<Point>, k: int, x: int, y: int)
    requires
        0 <= k <= vs.len(),
    ensures
        cell_inside(rotated(vs, k), x, y) == cell_inside(vs, x, y),
    decreases k,
{
    if k == 0 {
        assert(rotated(vs, 0) =~= vs);
    } else {
        lemma_interior_rotation_invariant(vs, k - 1, x, y);
        let prev = rotated(vs, k - 1);
        assert(prev.len() == vs.len());
        assert(rotated(prev, 1) =~= rotated(vs, k));
        lemma_cell_inside_rotate1(prev, x, y);
    }
}

/// Prefixes of the reversed cycle count the same edges as the matching
/// suffix of the original cycle: each edge reappears with its endpoints
/// swapped, and the crossing indicator is symmetric in the endpoints.
proof fn lemma_cnt_above_reverse_prefix(vs: Seq<Point>, x: int, y: int, k: int)
    requires
        vs.len() >= 1,
        0 <= k <= vs.len() - 1,
    ensures
        cnt_above(vs.reverse(), x, y, 0, k) == cnt_above(vs, x, y, vs.len() - 1 - k, vs.len() - 1),
    decreases k,
{
    let r = vs.reverse();
    let n = vs.len() as int;
    if k > 0 {
        lemma_cnt_above_reverse_prefix(vs, x, y, k - 1);
        assert(edge_a(r, k - 1) == vs[n - k]);
        assert(edge_b(r, k - 1) == vs[n - 1 - k]);
        assert(edge_a(vs, n - 1 - k) == vs[n - 1 - k]);
        assert(edge_b(vs, n - 1 - k) == vs[n - k]);
        assert(above_term(r, x, y, k - 1) == above_term(vs, x, y, n - 1 - k));
        lemma_cnt_above_front(vs, x, y, n - 1 - k, n - 1);
    }
}

/// The interior characterization is the same for the reversed vertex list:
/// it does not matter whether the outline is given clockwise or
/// counterclockwise.
pub proof fn lemma_interior_orientation_invariant(vs: Seq<Point>, x: int, y: int)
    requires
        vs.len() >= 1,
    ensures
        cell_inside(vs.reverse(), x, y) == cell_inside(vs, x, y),
{
    let r = vs.reverse();
    let n = vs.len() as int;
    lemma_cnt_above_reverse_prefix(vs, x, y, n - 1);
    assert(edge_a(r, n - 1) == vs[0]);
    assert(edge_b(r, n - 1) == r[0]);
    assert(r[0] == vs[n - 1]);
    assert(edge_a(vs, n - 1) == vs[n - 1]);
    assert(edge_b(vs, n - 1) == vs[0]);
    assert(above_term(r, x, y, n - 1) == above_term(vs, x, y, n - 1));
    assert(cnt_above(r, x, y, 0, n) == cnt_above(r, x, y, 0, n - 1) + above_term(r, x, y, n - 1));
    assert(cnt_above(vs, x, y, 0, n) == cnt_above(vs, x, y, 0, n - 1) + above_term(vs, x, y, n - 1));
}

/// Rotation invariance over every cell at once: the polygon's interior
/// does not depend on which vertex starts the cycle, so the enumeration
/// (pinned to `cell_inside` cell by cell) returns the same set for any
/// cyclic rotation of the vertex list.
pub proof fn lemma_interior_rotation_all(vs: Seq<Point>, k: int)
    requires
        0 <= k <= vs.len(),
    ensures
        forall|x: int, y: int|
            #[trigger] cell_inside(rotated(vs, k), x, y) == cell_inside(vs, x, y),
{
    assert forall|x: int, y: int|
        #[trigger] cell_inside(rotated(vs, k), x, y) == cell_inside(vs, x, y) by {
        lemma_interior_rotation_invariant(vs, k, x, y);
    }
}

/// Orientation invariance over every cell at once: reversing the vertex
/// list (clockwise against counterclockwise) keeps the interior, so the
/// enumeration returns the same set for the reversed list.
pub proof fn lemma_interior_orientation_all(vs: Seq<Point>)
    requires
        vs.len() >= 1,
    ensures
        forall|x: int, y: int| #[trigger] cell_inside(vs.reverse(), x, y) == cell_inside(vs, x, y),
{
    assert forall|x: int, y: int|
        #[trigger] cell_inside(vs.reverse(), x, y) == cell_inside(vs, x, y) by {
        lemma_interior_orientation_invariant(vs, x, y);
    }
}

} // verus!
