use vstd::prelude::*;

use crate::chunks::{chunk_contains, Chunk};

verus! {

/// A dense row-major `width` x `height` grid; its dimensions never change.
pub struct Grid<T> {
    width: usize,
    height: usize,
    cells: Vec<T>,
}

impl<T> View for Grid<T> {
    type V = Seq<T>;

    closed spec fn view(&self) -> Seq<T> {
        self.cells@
    }
}

/// Row-major position of cell `(x, y)` in a grid `w` cells wide.
pub open spec fn cell_index(w: int, x: int, y: int) -> int {
    y * w + x
}

/// Distinct in-range cells sit at distinct row-major positions, and every
/// position in range names a cell.
pub proof fn lemma_cell_index(w: int, h: int, x: int, y: int)
    requires
        0 <= x < w,
        0 <= y < h,
    ensures
        0 <= cell_index(w, x, y) < w * h,
        cell_index(w, x, y) / w == y,
        cell_index(w, x, y) % w == x,
{
    assert(0 <= y * w + x < w * h) by (nonlinear_arith)
        requires
            0 <= x < w,
            0 <= y < h,
    ;
    vstd::arithmetic::div_mod::lemma_fundamental_div_mod_converse(y * w + x, w, y, x);
}

impl<T> Grid<T> {
    /// The cells fill the grid exactly.
    pub closed spec fn wf(&self) -> bool {
        self.cells@.len() == self.width * self.height
    }

    /// A well-formed grid holds `width * height` cells.
    pub proof fn lemma_wf_len(&self)
        requires
            self.wf(),
        ensures
            self@.len() == self.spec_width() * self.spec_height(),
    {
    }

    pub closed spec fn spec_width(&self) -> nat {
        self.width as nat
    }

    pub closed spec fn spec_height(&self) -> nat {
        self.height as nat
    }

}

impl<T: Copy> Grid<T> {
    /// The value at `(x, y)`.
    pub open spec fn at(&self, x: int, y: int) -> T {
        self@[cell_index(self.spec_width() as int, x, y)]
    }

    /// A grid with every cell set to `fill`.
    pub fn new(width: usize, height: usize, fill: T) -> (r: Grid<T>)
        requires
            width * height <= usize::MAX,
        ensures
            r.wf(),
            r.spec_width() == width,
            r.spec_height() == height,
            r@.len() == width * height,
            forall|i: int| 0 <= i < r@.len() ==> r@[i] == fill,
    {
        let n = width * height;
        let mut cells: Vec<T> = Vec::new();
        let mut i: usize = 0;
        while i < n
            invariant
                0 <= i <= n,
                cells@.len() == i,
                forall|k: int| 0 <= k < i ==> cells@[k] == fill,
            decreases n - i,
        {
            cells.push(fill);
            i = i + 1;
        }
        Grid { width, height, cells }
    }

    pub fn width(&self) -> (r: usize)
        ensures
            r == self.spec_width(),
    {
        self.width
    }

    pub fn height(&self) -> (r: usize)
        ensures
            r == self.spec_height(),
    {
        self.height
    }

    /// The cells, row by row.
    pub fn cells(&self) -> (r: &Vec<T>)
        requires
            self.wf(),
        ensures
            r@ == self@,
            r@.len() == self.spec_width() * self.spec_height(),
    {
        &self.cells
    }

    /// The value at `(x, y)`.
    pub fn get(&self, x: usize, y: usize) -> (r: T)
        requires
            self.wf(),
            x < self.spec_width(),
            y < self.spec_height(),
        ensures
            r == self.at(x as int, y as int),
    {
        proof {
            lemma_cell_index(self.width as int, self.height as int, x as int, y as int);
        }
        let n = self.cells.len();
        assert(y * self.width + x < n);
        self.cells[y * self.width + x]
    }

    /// Overwrites the value at `(x, y)`, leaving every other cell as it was.
    pub fn set(&mut self, x: usize, y: usize, v: T)
        requires
            old(self).wf(),
            x < old(self).spec_width(),
            y < old(self).spec_height(),
        ensures
            final(self).wf(),
            final(self).spec_width() == old(self).spec_width(),
            final(self).spec_height() == old(self).spec_height(),
            final(self)@ == old(self)@.update(
                cell_index(old(self).spec_width() as int, x as int, y as int),
                v,
            ),
    {
        proof {
            lemma_cell_index(self.width as int, self.height as int, x as int, y as int);
        }
        let n = self.cells.len();
        assert(y * self.width + x < n);
        let i = y * self.width + x;
        self.cells.set(i, v);
    }
}

/// Sum of the iteration counts of one pixel's samples.
pub open spec fn count_sum(counts: Seq<u32>) -> int
    decreases counts.len(),
{
    if counts.len() == 0 {
        0
    } else {
        count_sum(counts.drop_last()) + counts.last()
    }
}

proof fn lemma_count_sum_bounded(counts: Seq<u32>)
    ensures
        0 <= count_sum(counts) <= counts.len() * u32::MAX,
    decreases counts.len(),
{
    if counts.len() > 0 {
        lemma_count_sum_bounded(counts.drop_last());
        assert((counts.len() - 1) * u32::MAX + u32::MAX == counts.len() * u32::MAX)
            by (nonlinear_arith);
    }
}

/// Reduces the escape counts of one pixel's samples to the pixel's scalar:
/// their exact sum.
pub fn reduce_samples(counts: &Vec<u32>) -> (r: u64)
    requires
        counts@.len() <= u32::MAX,
    ensures
        r == count_sum(counts@),
{
    let mut acc: u64 = 0;
    let mut i: usize = 0;
    while i < counts.len()
        invariant
            0 <= i <= counts@.len(),
            counts@.len() <= u32::MAX,
            acc == count_sum(counts@.take(i as int)),
        decreases counts.len() - i,
    {
        let ghost next = counts@.take(i + 1);
        assert(next.drop_last() =~= counts@.take(i as int));
        proof {
            lemma_count_sum_bounded(next);
            assert(next.len() * u32::MAX <= u32::MAX as int * u32::MAX as int) by (nonlinear_arith)
                requires
                    next.len() <= u32::MAX,
            ;
        }
        acc = acc + counts[i] as u64;
        i = i + 1;
    }
    assert(counts@.take(counts@.len() as int) =~= counts@);
    acc
}

/// Number of orbit points that land on cell `(x, y)`.
pub open spec fn hits(points: Seq<(i64, i64)>, x: int, y: int) -> nat
    decreases points.len(),
{
    if points.len() == 0 {
        0
    } else {
        hits(points.drop_last(), x, y) + if points.last().0 == x && points.last().1 == y {
            1nat
        } else {
            0nat
        }
    }
}

/// A cell is hit at most once per orbit point.
pub proof fn lemma_hits_bounded(points: Seq<(i64, i64)>, x: int, y: int)
    ensures
        hits(points, x, y) <= points.len(),
    decreases points.len(),
{
    if points.len() > 0 {
        lemma_hits_bounded(points.drop_last(), x, y);
    }
}

/// The value that `values`, laid out row-major over `chunk`, holds for `(x, y)`.
pub open spec fn chunk_value<T>(chunk: Chunk, values: Seq<T>, x: int, y: int) -> T {
    values[(y - chunk.y) * chunk.width + (x - chunk.x)]
}

impl<T: Copy> Grid<T> {
    /// Copies the row-major `values` computed for `chunk` into place; cells
    /// outside the chunk keep their values.
    pub fn write_chunk(&mut self, chunk: &Chunk, values: &Vec<T>)
        requires
            old(self).wf(),
            chunk.x + chunk.width <= old(self).spec_width(),
            chunk.y + chunk.height <= old(self).spec_height(),
            values@.len() == chunk.width * chunk.height,
        ensures
            final(self).wf(),
            final(self).spec_width() == old(self).spec_width(),
            final(self).spec_height() == old(self).spec_height(),
            forall|x: int, y: int|
                0 <= x < old(self).spec_width() && 0 <= y < old(self).spec_height() ==> (
                #[trigger] final(self).at(x, y)) == if chunk_contains(*chunk, x, y) {
                    chunk_value(*chunk, values@, x, y)
                } else {
                    old(self).at(x, y)
                },
    {
        let ghost w = self.spec_width() as int;
        let ghost h = self.spec_height() as int;
        let mut j: usize = 0;
        while j < chunk.height
            invariant
                self.wf(),
                self.spec_width() == w,
                self.spec_height() == h,
                chunk.x + chunk.width <= w,
                chunk.y + chunk.height <= h,
                values@.len() == chunk.width * chunk.height,
                0 <= j <= chunk.height,
                forall|x: int, y: int|
                    0 <= x < w && 0 <= y < h ==> (#[trigger] self.at(x, y)) == if chunk_contains(
                        *chunk,
                        x,
                        y,
                    ) && y < chunk.y + j {
                        chunk_value(*chunk, values@, x, y)
                    } else {
                        old(self).at(x, y)
                    },
            decreases chunk.height - j,
        {
            let mut i: usize = 0;
            while i < chunk.width
                invariant
                    self.wf(),
                    self.spec_width() == w,
                    self.spec_height() == h,
                    chunk.x + chunk.width <= w,
                    chunk.y + chunk.height <= h,
                    values@.len() == chunk.width * chunk.height,
                    0 <= j < chunk.height,
                    0 <= i <= chunk.width,
                    forall|x: int, y: int|
                        0 <= x < w && 0 <= y < h ==> (#[trigger] self.at(x, y)) == if chunk_contains(
                            *chunk,
                            x,
                            y,
                        ) && (y < chunk.y + j || (y == chunk.y + j && x < chunk.x + i)) {
                            chunk_value(*chunk, values@, x, y)
                        } else {
                            old(self).at(x, y)
                        },
                decreases chunk.width - i,
            {
                proof {
                    lemma_cell_index(chunk.width as int, chunk.height as int, i as int, j as int);
                }
                let nv = values.len();
                assert(j * chunk.width + i < nv);
                let k = j * chunk.width + i;
                let v = values[k];
                let x = chunk.x + i;
                let y = chunk.y + j;
                let ghost before = *self;
                self.set(x, y, v);
                proof {
                    assert forall|a: int, b: int| 0 <= a < w && 0 <= b < h implies (
                    #[trigger] self.at(a, b)) == if chunk_contains(*chunk, a, b) && (b < chunk.y + j
                        || (b == chunk.y + j && a < chunk.x + i + 1)) {
                        chunk_value(*chunk, values@, a, b)
                    } else {
                        old(self).at(a, b)
                    } by {
                        lemma_cell_index(w, h, a, b);
                        lemma_cell_index(w, h, x as int, y as int);
                        if a != x || b != y {
                            assert(cell_index(w, a, b) != cell_index(w, x as int, y as int));
                            assert(self.at(a, b) == before.at(a, b));
                        }
                    }
                }
                i = i + 1;
            }
            j = j + 1;
        }
    }
}

impl Grid<u64> {
    /// Projects one orbit onto the grid: each point that lands inside adds
    /// one to its cell, once per landing; points outside are ignored.
    pub fn accumulate_orbit(&mut self, points: &Vec<(i64, i64)>)
        requires
            old(self).wf(),
            forall|i: int| 0 <= i < old(self)@.len() ==> old(self)@[i] + points@.len() <= u64::MAX,
        ensures
            final(self).wf(),
            final(self).spec_width() == old(self).spec_width(),
            final(self).spec_height() == old(self).spec_height(),
            forall|x: int, y: int|
                0 <= x < old(self).spec_width() && 0 <= y < old(self).spec_height() ==> (
                #[trigger] final(self).at(x, y)) == old(self).at(x, y) + hits(points@, x, y),
    {
        let ghost w = self.spec_width() as int;
        let ghost h = self.spec_height() as int;
        let width = self.width;
        let height = self.height;
        let mut k: usize = 0;
        while k < points.len()
            invariant
                self.wf(),
                old(self).wf(),
                old(self).spec_width() == w,
                old(self).spec_height() == h,
                self.spec_width() == w,
                self.spec_height() == h,
                width == w,
                height == h,
                0 <= k <= points@.len(),
                forall|i: int| 0 <= i < old(self)@.len() ==> old(self)@[i] + points@.len() <= u64::MAX,
                forall|x: int, y: int|
                    0 <= x < w && 0 <= y < h ==> (#[trigger] self.at(x, y)) == old(self).at(x, y)
                        + hits(points@.take(k as int), x, y),
            decreases points.len() - k,
        {
            let p = points[k];
            proof {
                assert(points@.take(k + 1).drop_last() =~= points@.take(k as int));
                assert(points@.take(k + 1).last() == p);
            }
            if p.0 >= 0 && p.1 >= 0 && (p.0 as u64) < (width as u64) && (p.1 as u64) < (
            height as u64) {
                let x = p.0 as usize;
                let y = p.1 as usize;
                proof {
                    lemma_cell_index(w, h, x as int, y as int);
                    lemma_hits_bounded(points@.take(k as int), x as int, y as int);
                    old(self).lemma_wf_len();
                }
                let cur = self.get(x, y);
                let ghost before = *self;
                self.set(x, y, cur + 1);
                proof {
                    assert forall|a: int, b: int| 0 <= a < w && 0 <= b < h implies (
                    #[trigger] self.at(a, b)) == old(self).at(a, b) + hits(
                        points@.take(k + 1),
                        a,
                        b,
                    ) by {
                        lemma_cell_index(w, h, a, b);
                        if a != x || b != y {
                            assert(cell_index(w, a, b) != cell_index(w, x as int, y as int));
                            assert(self.at(a, b) == before.at(a, b));
                        }
                    }
                }
            } else {
                proof {
                    assert forall|a: int, b: int| 0 <= a < w && 0 <= b < h implies (
                    #[trigger] self.at(a, b)) == old(self).at(a, b) + hits(
                        points@.take(k + 1),
                        a,
                        b,
                    ) by {
                    }
                }
            }
            k = k + 1;
        }
        assert(points@.take(points@.len() as int) =~= points@);
    }

    /// Adds another grid of the same size into this one, cell by cell.
    pub fn merge_add(&mut self, other: &Grid<u64>)
        requires
            old(self).wf(),
            other.wf(),
            other.spec_width() == old(self).spec_width(),
            other.spec_height() == old(self).spec_height(),
            forall|i: int| 0 <= i < old(self)@.len() ==> old(self)@[i] + other@[i] <= u64::MAX,
        ensures
            final(self).wf(),
            final(self).spec_width() == old(self).spec_width(),
            final(self).spec_height() == old(self).spec_height(),
            forall|i: int| 0 <= i < old(self)@.len() ==> #[trigger] final(self)@[i] == old(self)@[i] + other@[i],
    {
        let n = self.cells.len();
        let mut i: usize = 0;
        while i < n
            invariant
                self.wf(),
                self.spec_width() == old(self).spec_width(),
                self.spec_height() == old(self).spec_height(),
                n == self@.len(),
                n == old(self)@.len(),
                other@.len() == n,
                0 <= i <= n,
                forall|j: int| 0 <= j < n ==> old(self)@[j] + other@[j] <= u64::MAX,
                forall|j: int| 0 <= j < i ==> #[trigger] self@[j] == old(self)@[j] + other@[j],
                forall|j: int| i <= j < n ==> #[trigger] self@[j] == old(self)@[j],
            decreases n - i,
        {
            let v = self.cells[i] + other.cells[i];
            self.cells.set(i, v);
            i = i + 1;
        }
    }
}

/// An orbit whose points all fall outside the visible grid adds nothing to
/// any cell.
pub proof fn lemma_orbit_outside_adds_nothing(points: Seq<(i64, i64)>, w: int, h: int, x: int, y: int)
    requires
        forall|i: int|
            0 <= i < points.len() ==> !(0 <= #[trigger] points[i].0 < w && 0 <= points[i].1 < h),
        0 <= x < w,
        0 <= y < h,
    ensures
        hits(points, x, y) == 0,
    decreases points.len(),
{
    if points.len() > 0 {
        let rest = points.drop_last();
        assert forall|i: int|
            0 <= i < rest.len() implies !(0 <= #[trigger] rest[i].0 < w && 0 <= rest[i].1 < h) by {
            assert(rest[i] == points[i]);
        }
        lemma_orbit_outside_adds_nothing(rest, w, h, x, y);
        assert(points.last() == points[points.len() - 1]);
    }
}

/// Every further crossing of a cell adds one more to it, without a cap:
/// an orbit that crosses the cell `n` times adds `n`.
pub proof fn lemma_crossings_count(points: Seq<(i64, i64)>, p: (i64, i64))
    ensures
        hits(points.push(p), p.0 as int, p.1 as int) == hits(points, p.0 as int, p.1 as int) + 1,
        hits(Seq::new(points.len(), |i: int| p), p.0 as int, p.1 as int) == points.len(),
    decreases points.len(),
{
    assert(points.push(p).drop_last() =~= points);
    if points.len() > 0 {
        let rest = points.drop_last();
        lemma_crossings_count(rest, p);
        assert(Seq::new(points.len(), |i: int| p).drop_last() =~= Seq::new(rest.len(), |i: int| p));
    }
}

} // verus!
