//! Dense bounds-checked 2-D grid storage and half-open integer ranges.

use vstd::prelude::*;

use crate::geom::Point;

verus! {

/// A dense width x height grid stored row-major. Lookups outside the grid
/// report "outside" (None) instead of failing.
pub struct Matrix<T> {
    width: usize,
    height: usize,
    inner: Vec<T>,
}

impl<T: Copy> Matrix<T> {
    /// The stored cells, row-major: cell (x, y) lives at index y * width + x.
    pub closed spec fn spec_inner(self) -> Seq<T> {
        self.inner@
    }

    pub closed spec fn spec_width(self) -> int {
        self.width as int
    }

    pub closed spec fn spec_height(self) -> int {
        self.height as int
    }

    /// The backing vector holds exactly one cell per grid position.
    pub open spec fn wf(self) -> bool {
        self.spec_inner().len() == self.spec_width() * self.spec_height()
    }

    /// True when (x, y) is a grid position.
    pub open spec fn spec_in(self, x: int, y: int) -> bool {
        0 <= x < self.spec_width() && 0 <= y < self.spec_height()
    }

    /// The cell stored at grid position (x, y).
    pub open spec fn spec_at(self, x: int, y: int) -> T {
        self.spec_inner()[y * self.spec_width() + x]
    }

    /// The value `get` reports for `p`: the cell inside the grid, None outside.
    pub open spec fn spec_get(self, p: Point) -> Option<T> {
        if self.spec_in(p.x as int, p.y as int) {
            Some(self.spec_at(p.x as int, p.y as int))
        } else {
            None
        }
    }

    /// Row-major indices of distinct in-grid positions are distinct and in range.
    pub proof fn lemma_index(self, x: int, y: int)
        requires
            self.spec_in(x, y),
        ensures
            0 <= y * self.spec_width() + x < self.spec_width() * self.spec_height(),
            forall|x2: int, y2: int|
                self.spec_in(x2, y2) && (x2 != x || y2 != y) ==> y2 * self.spec_width() + x2 != y
                    * self.spec_width() + x,
    {
        let w = self.spec_width();
        let h = self.spec_height();
        assert(0 <= y * w + x < w * h) by (nonlinear_arith)
            requires
                0 <= x < w && 0 <= y < h,
        ;
        assert forall|x2: int, y2: int|
            self.spec_in(x2, y2) && (x2 != x || y2 != y) implies y2 * w + x2 != y * w + x by {
            assert(y2 * w + x2 != y * w + x) by (nonlinear_arith)
                requires
                    0 <= x < w && 0 <= y < h && 0 <= x2 < w && 0 <= y2 < h && (x2 != x || y2 != y),
            ;
        }
    }

    /// A grid of the given size with every cell set to `init`.
    pub fn new(width: usize, height: usize, init: T) -> (r: Matrix<T>)
        requires
            width * height <= usize::MAX,
        ensures
            r.wf(),
            r.spec_width() == width,
            r.spec_height() == height,
            forall|x: int, y: int| r.spec_in(x, y) ==> r.spec_at(x, y) == init,
            forall|j: int| 0 <= j < r.spec_inner().len() ==> r.spec_inner()[j] == init,
    {
        let n = width * height;
        let mut inner: Vec<T> = Vec::new();
        let mut i: usize = 0;
        while i < n
            invariant
                i <= n,
                inner@.len() == i,
                forall|j: int| 0 <= j < i ==> inner@[j] == init,
            decreases n - i,
        {
            inner.push(init);
            i += 1;
        }
        let r = Matrix { width, height, inner };
        proof {
            assert forall|x: int, y: int| r.spec_in(x, y) implies r.spec_at(x, y) == init by {
                r.lemma_index(x, y);
            }
        }
        r
    }

    pub fn width(&self) -> (r: usize)
        ensures
            r == self.spec_width(),
    {
        self.width
    }

    pub fn height(&self) -> (r: usize)
        ensures
            r == self.spec_height(),
    {
        self.height
    }

    /// Look up `p`; None outside the grid.
    pub fn get(&self, p: Point) -> (r: Option<T>)
        requires
            self.wf(),
        ensures
            r == self.spec_get(p),
    {
        if p.x >= 0 && p.y >= 0 && (p.x as usize) < self.width && (p.y as usize) < self.height {
            let n = self.inner.len();
            proof {
                self.lemma_index(p.x as int, p.y as int);
            }
            assert((p.y as int) * self.spec_width() + (p.x as int) < n);
            Some(self.inner[p.y as usize * self.width + p.x as usize])
        } else {
            None
        }
    }

    /// Store `value` at `p` if it is inside the grid, returning the previous
    /// cell; None (and no change) outside.
    pub fn try_set(&mut self, p: Point, value: T) -> (r: Option<T>)
        requires
            old(self).wf(),
        ensures
            final(self).wf(),
            final(self).spec_width() == old(self).spec_width(),
            final(self).spec_height() == old(self).spec_height(),
            r == old(self).spec_get(p),
            old(self).spec_in(p.x as int, p.y as int) ==> {
                &&& final(self).spec_inner() == old(self).spec_inner().update(
                    (p.y as int) * old(self).spec_width() + (p.x as int),
                    value,
                )
                &&& final(self).spec_at(p.x as int, p.y as int) == value
                &&& forall|x: int, y: int|
                    (final(self).spec_in(x, y) && (x != p.x as int || y != p.y as int))
                        ==> final(self).spec_at(x, y) == old(self).spec_at(x, y)
            },
            !old(self).spec_in(p.x as int, p.y as int) ==> *final(self) == *old(self),
    {
        if p.x >= 0 && p.y >= 0 && (p.x as usize) < self.width && (p.y as usize) < self.height {
            let n = self.inner.len();
            proof {
                self.lemma_index(p.x as int, p.y as int);
            }
            assert((p.y as int) * self.spec_width() + (p.x as int) < n);
            let idx = p.y as usize * self.width + p.x as usize;
            let prev = self.inner[idx];
            self.inner.set(idx, value);
            proof {
                old(self).lemma_index(p.x as int, p.y as int);
                assert forall|x: int, y: int|
                    (self.spec_in(x, y) && (x != p.x as int || y != p.y as int)) implies self
                    .spec_at(x, y) == old(self).spec_at(x, y) by {
                    assert(old(self).spec_in(x, y));
                    old(self).lemma_index(x, y);
                }
            }
            Some(prev)
        } else {
            None
        }
    }

    /// Store `value` at `p`, which must be inside the grid.
    pub fn set(&mut self, p: Point, value: T)
        requires
            old(self).wf(),
            old(self).spec_in(p.x as int, p.y as int),
        ensures
            final(self).wf(),
            final(self).spec_width() == old(self).spec_width(),
            final(self).spec_height() == old(self).spec_height(),
            final(self).spec_at(p.x as int, p.y as int) == value,
            final(self).spec_inner() == old(self).spec_inner().update(
                (p.y as int) * old(self).spec_width() + (p.x as int),
                value,
            ),
            forall|x: int, y: int|
                (final(self).spec_in(x, y) && (x != p.x as int || y != p.y as int))
                    ==> final(self).spec_at(x, y) == old(self).spec_at(x, y),
    {
        let _ = self.try_set(p, value);
    }
}

/// A half-open index range [start, end).
#[derive(Clone, Copy, PartialEq, Eq, Structural, Debug)]
pub struct Range {
    pub start: usize,
    pub end: usize,
}

impl Range {
    /// True when `x` lies in [start, end).
    pub open spec fn spec_contains(self, x: int) -> bool {
        self.start <= x < self.end
    }

    /// True when the two ranges share at least one index.
    pub open spec fn spec_intersect(self, other: Range) -> bool {
        !(self.end <= other.start || other.end <= self.start)
    }

    pub fn new(start: usize, end: usize) -> (r: Range)
        ensures
            r.start == start,
            r.end == end,
    {
        Range { start, end }
    }

    pub fn len(&self) -> (r: usize)
        requires
            self.start <= self.end,
        ensures
            r == self.end - self.start,
    {
        self.end - self.start
    }

    pub fn is_empty(&self) -> (r: bool)
        ensures
            r == (self.end <= self.start),
    {
        self.end <= self.start
    }

    pub fn contains(&self, x: usize) -> (r: bool)
        ensures
            r == self.spec_contains(x as int),
    {
        self.start <= x && x < self.end
    }

    /// True when every element of `xs` lies in the range.
    pub fn contains_all(&self, xs: &[usize]) -> (r: bool)
        ensures
            r == forall|i: int| 0 <= i < xs@.len() ==> self.spec_contains(xs@[i] as int),
    {
        let n = xs.len();
        let mut i: usize = 0;
        while i < n
            invariant
                i <= n,
                n == xs@.len(),
                forall|j: int| 0 <= j < i ==> self.spec_contains(xs@[j] as int),
            decreases n - i,
        {
            if !self.contains(xs[i]) {
                return false;
            }
            i += 1;
        }
        true
    }

    pub fn intersect(&self, other: Range) -> (r: bool)
        ensures
            r == self.spec_intersect(other),
    {
        !(self.end <= other.start || other.end <= self.start)
    }

    /// Split at a contained index `mid`, dropping `mid` itself:
    /// [start, mid) and [mid + 1, end).
    pub fn split(&self, mid: usize) -> (r: (Range, Range))
        requires
            self.spec_contains(mid as int),
        ensures
            r.0 == (Range { start: self.start, end: mid }),
            r.1 == (Range { start: (mid + 1) as usize, end: self.end }),
    {
        let left = Range::new(self.start, mid);
        let right = Range::new(mid + 1, self.end);
        (left, right)
    }

    pub fn remove_begin(&self) -> (r: Range)
        requires
            self.start < usize::MAX,
        ensures
            r == (Range { start: (self.start + 1) as usize, end: self.end }),
    {
        Range::new(self.start + 1, self.end)
    }

    pub fn remove_end(&self) -> (r: Range)
        requires
            self.end > 0,
        ensures
            r == (Range { start: self.start, end: (self.end - 1) as usize }),
    {
        Range::new(self.start, self.end - 1)
    }
}

} // verus!
