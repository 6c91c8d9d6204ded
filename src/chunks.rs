use vstd::prelude::*;

use vstd::arithmetic::div_mod::{lemma_fundamental_div_mod, lemma_mod_pos_bound};

use crate::error::ConfigError;

verus! {

/// Edge of a full rectangular tile, in pixels.
pub const CHUNK_SIZE: usize = 512;

/// Overlap margin added on every side of a chunk to cover the multi-sample footprint.
pub const RDR_KERNEL_SIZE: usize = 1;

/// How an image is cut into tiles: full tiles per axis, and the extent of the
/// trailing partial tile on each axis (zero when the axis divides evenly).
#[derive(Debug, Clone, Copy)]
pub struct ChunkDimensions {
    pub size: usize,
    pub v_chunks: usize,
    pub h_chunks: usize,
    pub last_v_chunk: usize,
    pub last_h_chunk: usize,
}

/// A rectangular piece of the image: its origin and extent in pixels, and
/// its place in the tile grid.
#[derive(Debug, Clone, Copy, PartialEq, Eq, Structural)]
pub struct Chunk {
    pub row_index: usize,
    pub col_index: usize,
    pub x: usize,
    pub y: usize,
    pub width: usize,
    pub height: usize,
}

/// Tiles along one axis: the full ones, plus one partial tile if any remainder is left.
pub open spec fn axis_count(full: int, last: int) -> int {
    full + if last > 0 { 1int } else { 0int }
}

/// Extent of tile `k` along one axis.
pub open spec fn axis_extent(size: int, full: int, last: int, k: int) -> int {
    if k < full { size } else { last }
}

/// Sum of the margin-inflated extents of all tiles along one axis.
pub open spec fn axis_units(size: int, full: int, last: int) -> int {
    full * (size + 2 * RDR_KERNEL_SIZE) + if last > 0 { last + 2 * RDR_KERNEL_SIZE } else { 0 }
}

/// Whether the pixel `(px, py)` lies in chunk `c`.
pub open spec fn chunk_contains(c: Chunk, px: int, py: int) -> bool {
    c.x <= px < c.x + c.width && c.y <= py < c.y + c.height
}

/// Number of progress units of a chunk: its area grown by the margin on every side.
pub open spec fn inflated_area(c: Chunk) -> int {
    (c.width + 2 * RDR_KERNEL_SIZE) * (c.height + 2 * RDR_KERNEL_SIZE)
}

/// Sum of the inflated areas of a list of chunks.
pub open spec fn inflated_sum(s: Seq<Chunk>) -> int
    decreases s.len(),
{
    if s.len() == 0 {
        0
    } else {
        inflated_sum(s.drop_last()) + inflated_area(s.last())
    }
}

impl Chunk {
    /// Progress units of this chunk: its area grown by the margin on every side.
    pub fn units(&self) -> (r: u128)
        requires
            inflated_area(*self) <= u128::MAX,
        ensures
            r == inflated_area(*self),
    {
        let w = self.width as u128 + 2 * RDR_KERNEL_SIZE as u128;
        let h = self.height as u128 + 2 * RDR_KERNEL_SIZE as u128;
        w * h
    }
}

impl ChunkDimensions {
    pub open spec fn wf(self) -> bool {
        &&& self.size > 0
        &&& self.last_v_chunk < self.size
        &&& self.last_h_chunk < self.size
        &&& self.spec_width() <= u32::MAX
        &&& self.spec_height() <= u32::MAX
    }

    pub open spec fn spec_width(self) -> int {
        self.h_chunks * self.size + self.last_h_chunk
    }

    pub open spec fn spec_height(self) -> int {
        self.v_chunks * self.size + self.last_v_chunk
    }

    pub open spec fn rows(self) -> int {
        axis_count(self.v_chunks as int, self.last_v_chunk as int)
    }

    pub open spec fn cols(self) -> int {
        axis_count(self.h_chunks as int, self.last_h_chunk as int)
    }

    /// The chunk at `(row, col)` of the tile grid.
    pub open spec fn chunk_at(self, row: int, col: int) -> Chunk {
        Chunk {
            row_index: row as usize,
            col_index: col as usize,
            x: (col * self.size) as usize,
            y: (row * self.size) as usize,
            width: axis_extent(
                self.size as int,
                self.h_chunks as int,
                self.last_h_chunk as int,
                col,
            ) as usize,
            height: axis_extent(
                self.size as int,
                self.v_chunks as int,
                self.last_v_chunk as int,
                row,
            ) as usize,
        }
    }

    /// All non-empty chunks, row by row.
    pub open spec fn chunk_seq(self) -> Seq<Chunk> {
        Seq::new((self.rows() * self.cols()) as nat, |i: int| self.chunk_at(i / self.cols(), i % self.cols()))
    }

    /// Progress units of the whole image: per axis, the inflated extents of
    /// its tiles, multiplied.
    pub open spec fn total_units(self) -> int {
        axis_units(self.size as int, self.h_chunks as int, self.last_h_chunk as int) * axis_units(
            self.size as int,
            self.v_chunks as int,
            self.last_v_chunk as int,
        )
    }

    /// Cuts a `width` x `height` image into tiles of edge `size`; zero
    /// dimensions are refused.
    pub fn new(width: u32, height: u32, size: usize) -> (r: Result<ChunkDimensions, ConfigError>)
        ensures
            width == 0 ==> r == Err::<ChunkDimensions, ConfigError>(ConfigError::ZeroWidth),
            width > 0 && height == 0 ==> r == Err::<ChunkDimensions, ConfigError>(
                ConfigError::ZeroHeight,
            ),
            width > 0 && height > 0 && size == 0 ==> r == Err::<ChunkDimensions, ConfigError>(
                ConfigError::ZeroTileSize,
            ),
            r is Ok <==> width > 0 && height > 0 && size > 0,
            r matches Ok(d) ==> d.wf() && d.size == size && d.spec_width() == width
                && d.spec_height() == height,
    {
        if width == 0 {
            return Err(ConfigError::ZeroWidth);
        }
        if height == 0 {
            return Err(ConfigError::ZeroHeight);
        }
        if size == 0 {
            return Err(ConfigError::ZeroTileSize);
        }
        let w = width as usize;
        let h = height as usize;
        proof {
            lemma_fundamental_div_mod(w as int, size as int);
            lemma_fundamental_div_mod(h as int, size as int);
            lemma_mod_pos_bound(w as int, size as int);
            lemma_mod_pos_bound(h as int, size as int);
            assert((w / size) * size == size * (w / size)) by (nonlinear_arith);
            assert((h / size) * size == size * (h / size)) by (nonlinear_arith);
        }
        Ok(
            ChunkDimensions {
                size,
                v_chunks: h / size,
                h_chunks: w / size,
                last_v_chunk: h % size,
                last_h_chunk: w % size,
            },
        )
    }

    /// Number of tile rows.
    pub fn row_count(&self) -> (r: usize)
        requires
            self.wf(),
        ensures
            r == self.rows(),
    {
        proof { lemma_axis_count_bounded(self.size as int, self.v_chunks as int, self.last_v_chunk as int); }
        if self.last_v_chunk > 0 { self.v_chunks + 1 } else { self.v_chunks }
    }

    /// Number of tile columns.
    pub fn col_count(&self) -> (r: usize)
        requires
            self.wf(),
        ensures
            r == self.cols(),
    {
        proof { lemma_axis_count_bounded(self.size as int, self.h_chunks as int, self.last_h_chunk as int); }
        if self.last_h_chunk > 0 { self.h_chunks + 1 } else { self.h_chunks }
    }

    /// All non-empty chunks, row by row.
    pub fn chunks(&self) -> (r: Vec<Chunk>)
        requires
            self.wf(),
        ensures
            r@ == self.chunk_seq(),
    {
        let rows = self.row_count();
        let cols = self.col_count();
        let mut out: Vec<Chunk> = Vec::new();
        let mut row: usize = 0;
        while row < rows
            invariant
                self.wf(),
                rows == self.rows(),
                cols == self.cols(),
                0 <= row <= rows,
                out@.len() == row * cols,
                forall|i: int| 0 <= i < out@.len() ==> out@[i] == self.chunk_seq()[i],
            decreases rows - row,
        {
            let mut col: usize = 0;
            proof {
                assert((row + 1) * cols == row * cols + cols) by (nonlinear_arith);
                assert((row + 1) * cols <= rows * cols) by (nonlinear_arith)
                    requires
                        row < rows,
                        cols >= 0,
                ;
            }
            while col < cols
                invariant
                    self.wf(),
                    rows == self.rows(),
                    cols == self.cols(),
                    0 <= row < rows,
                    0 <= col <= cols,
                    out@.len() == row * cols + col,
                    (row + 1) * cols == row * cols + cols,
                    (row + 1) * cols <= rows * cols,
                    forall|i: int| 0 <= i < out@.len() ==> out@[i] == self.chunk_seq()[i],
                decreases cols - col,
            {
                proof {
                    lemma_row_major(rows as int, cols as int, row as int, col as int);
                    lemma_chunk_fields(*self, row as int, col as int);
                }
                let width = if col < self.h_chunks { self.size } else { self.last_h_chunk };
                let height = if row < self.v_chunks { self.size } else { self.last_v_chunk };
                let c = Chunk {
                    row_index: row,
                    col_index: col,
                    x: col * self.size,
                    y: row * self.size,
                    width,
                    height,
                };
                out.push(c);
                col = col + 1;
            }
            row = row + 1;
        }
        assert(out@ =~= self.chunk_seq());
        out
    }
}

/// Progress accounting for one frame: units done out of a total fixed up front.
#[derive(Debug, Clone, Copy)]
pub struct Progress {
    pub total: u128,
    pub done: u128,
}

impl Progress {
    /// A fresh counter over `total` units.
    pub fn new(total: u128) -> (r: Progress)
        ensures
            r.total == total,
            r.done == 0,
    {
        Progress { total, done: 0 }
    }

    /// Records `units` more units of work; the count never passes the total.
    pub fn advance(&mut self, units: u128)
        ensures
            final(self).total == old(self).total,
            final(self).done == if old(self).done + units <= old(self).total {
                old(self).done + units
            } else {
                old(self).total as int
            },
    {
        if self.done <= self.total && units <= self.total - self.done {
            self.done = self.done + units;
        } else {
            self.done = self.total;
        }
    }

    /// Whole percent of the work done; an empty total counts as finished.
    pub fn percent(&self) -> (r: u128)
        requires
            self.done <= self.total,
            self.total <= u128::MAX / 100,
        ensures
            self.total == 0 ==> r == 100,
            self.total > 0 ==> r == (self.done * 100) / (self.total as int),
            r <= 100,
    {
        if self.total == 0 {
            100
        } else {
            proof {
                assert(self.done * 100 <= self.total * 100) by (nonlinear_arith)
                    requires
                        self.done <= self.total,
                ;
                vstd::arithmetic::div_mod::lemma_div_is_ordered(
                    (self.done * 100) as int,
                    (self.total * 100) as int,
                    self.total as int,
                );
                vstd::arithmetic::div_mod::lemma_div_multiples_vanish(100, self.total as int);
                assert(self.total * 100 == self.total as int * 100);
            }
            self.done * 100 / self.total
        }
    }
}

/// The progress counter for a frame cut as `dims`: its total is the sum of
/// the chunks' areas, each grown by the overlap margin on every side.
pub fn init_progress(dims: ChunkDimensions) -> (r: Progress)
    requires
        dims.wf(),
    ensures
        r.total == dims.total_units(),
        r.done == 0,
{
    let h = axis_units_exec(dims.size, dims.h_chunks, dims.last_h_chunk);
    let v = axis_units_exec(dims.size, dims.v_chunks, dims.last_v_chunk);
    proof {
        assert(h * v <= 0x1_0000_0000_0000_0000_0000_0000_0000 as int) by (nonlinear_arith)
            requires
                0 <= h <= 0x10_0000_0000,
                0 <= v <= 0x10_0000_0000,
        ;
    }
    Progress::new(h as u128 * v as u128)
}

fn axis_units_exec(size: usize, full: usize, last: usize) -> (r: u64)
    requires
        size > 0,
        last < size,
        full * size + last <= u32::MAX,
    ensures
        r == axis_units(size as int, full as int, last as int),
        r <= 0x10_0000_0000,
{
    proof {
        assert(full <= full * size) by (nonlinear_arith)
            requires
                size > 0,
        ;
        assert(full * (size + 2 * RDR_KERNEL_SIZE) == full * size + 2 * full) by (nonlinear_arith);
    }
    let whole: u64 = full as u64 * size as u64 + 2 * RDR_KERNEL_SIZE as u64 * full as u64;
    if last > 0 {
        whole + last as u64 + 2 * RDR_KERNEL_SIZE as u64
    } else {
        whole
    }
}

proof fn lemma_axis_count_bounded(size: int, full: int, last: int)
    requires
        size > 0,
        full >= 0,
        0 <= last < size,
        full * size + last <= u32::MAX,
    ensures
        axis_count(full, last) <= u32::MAX,
        axis_count(full, last) <= full * size + last,
{
    assert(full <= full * size) by (nonlinear_arith)
        requires
            size > 0,
            full >= 0,
    ;
}

/// Locates coordinate `p` among the tiles of one axis: tile `p / size` holds
/// it, and no other tile does.
proof fn lemma_axis_locate(size: int, full: int, last: int, p: int)
    requires
        size > 0,
        full >= 0,
        0 <= last < size,
        0 <= p < full * size + last,
    ensures
        0 <= p / size < axis_count(full, last),
        (p / size) * size <= p < (p / size) * size + axis_extent(size, full, last, p / size),
        forall|k: int|
            0 <= k < axis_count(full, last) && k * size <= p < k * size + #[trigger] axis_extent(
                size,
                full,
                last,
                k,
            ) ==> k == p / size,
{
    let q = p / size;
    let m = p % size;
    lemma_fundamental_div_mod(p, size);
    lemma_mod_pos_bound(p, size);
    assert(p == q * size + m && 0 <= m < size) by (nonlinear_arith)
        requires
            p == size * q + m,
            0 <= m < size,
    ;
    assert(q >= 0) by (nonlinear_arith)
        requires
            p == q * size + m,
            0 <= m < size,
            p >= 0,
    ;
    if q >= full {
        if q > full {
            assert(q * size >= (full + 1) * size) by (nonlinear_arith)
                requires
                    q >= full + 1,
                    size > 0,
            ;
            assert((full + 1) * size == full * size + size) by (nonlinear_arith);
        }
        assert(q == full);
        assert(m < last) by (nonlinear_arith)
            requires
                q == full,
                p == q * size + m,
                p < full * size + last,
        ;
    }
    assert forall|k: int|
        0 <= k < axis_count(full, last) && k * size <= p < k * size + #[trigger] axis_extent(
            size,
            full,
            last,
            k,
        ) implies k == q by {
        let e = axis_extent(size, full, last, k);
        assert(e <= size);
        assert(k == q) by (nonlinear_arith)
            requires
                k * size <= p,
                p < k * size + e,
                e <= size,
                p == q * size + m,
                0 <= m < size,
                size > 0,
        ;
    }
}

/// Every pixel of the image lies in exactly one chunk of the partition.
pub proof fn lemma_chunks_partition(d: ChunkDimensions, px: int, py: int)
    requires
        d.wf(),
        0 <= px < d.spec_width(),
        0 <= py < d.spec_height(),
    ensures
        exists|i: int| 0 <= i < d.chunk_seq().len() && chunk_contains(d.chunk_seq()[i], px, py),
        forall|i: int, j: int|
            0 <= i < d.chunk_seq().len() && 0 <= j < d.chunk_seq().len() && chunk_contains(
                d.chunk_seq()[i],
                px,
                py,
            ) && chunk_contains(d.chunk_seq()[j], px, py) ==> i == j,
{
    let size = d.size as int;
    let cols = d.cols();
    let rows = d.rows();
    lemma_axis_locate(size, d.h_chunks as int, d.last_h_chunk as int, px);
    lemma_axis_locate(size, d.v_chunks as int, d.last_v_chunk as int, py);
    lemma_axis_count_bounded(size, d.h_chunks as int, d.last_h_chunk as int);
    lemma_axis_count_bounded(size, d.v_chunks as int, d.last_v_chunk as int);
    let c = px / size;
    let r = py / size;
    let i = r * cols + c;
    lemma_row_major(rows, cols, r, c);
    lemma_chunk_fields(d, r, c);
    assert(chunk_contains(d.chunk_seq()[i], px, py));
    assert forall|a: int, b: int|
        0 <= a < d.chunk_seq().len() && 0 <= b < d.chunk_seq().len() && chunk_contains(
            d.chunk_seq()[a],
            px,
            py,
        ) && chunk_contains(d.chunk_seq()[b], px, py) implies a == b by {
        lemma_index_split(rows, cols, a);
        lemma_index_split(rows, cols, b);
        lemma_chunk_fields(d, a / cols, a % cols);
        lemma_chunk_fields(d, b / cols, b % cols);
        lemma_fundamental_div_mod(a, cols);
        lemma_fundamental_div_mod(b, cols);
    }
}

/// Sum of the inflated extents of the first `k` tiles along one axis.
pub open spec fn axis_prefix_units(size: int, full: int, last: int, k: int) -> int
    decreases k,
{
    if k <= 0 {
        0
    } else {
        axis_prefix_units(size, full, last, k - 1) + axis_extent(size, full, last, k - 1) + 2
            * RDR_KERNEL_SIZE
    }
}

proof fn lemma_axis_prefix_units(size: int, full: int, last: int, k: int)
    requires
        0 <= k <= full,
    ensures
        axis_prefix_units(size, full, last, k) == k * (size + 2 * RDR_KERNEL_SIZE),
    decreases k,
{
    if k > 0 {
        lemma_axis_prefix_units(size, full, last, k - 1);
        assert(axis_extent(size, full, last, k - 1) == size);
        assert(axis_prefix_units(size, full, last, k) == axis_prefix_units(size, full, last, k - 1)
            + size + 2);
        assert((k - 1) * (size + 2) + size + 2 == k * (size + 2)) by (nonlinear_arith);
    }
}

proof fn lemma_axis_total(size: int, full: int, last: int)
    requires
        0 <= full,
    ensures
        axis_prefix_units(size, full, last, axis_count(full, last)) == axis_units(size, full, last),
{
    lemma_axis_prefix_units(size, full, last, full);
}

/// The sum over the first `n` chunks of the row-major list: the full rows
/// before, then the started row.
proof fn lemma_prefix_sum(d: ChunkDimensions, n: int)
    requires
        d.wf(),
        0 <= n <= d.rows() * d.cols(),
        d.cols() > 0,
    ensures
        inflated_sum(d.chunk_seq().take(n)) == axis_prefix_units(
            d.size as int,
            d.v_chunks as int,
            d.last_v_chunk as int,
            n / d.cols(),
        ) * axis_prefix_units(
            d.size as int,
            d.h_chunks as int,
            d.last_h_chunk as int,
            d.cols(),
        ) + (axis_extent(d.size as int, d.v_chunks as int, d.last_v_chunk as int, n / d.cols())
            + 2 * RDR_KERNEL_SIZE) * axis_prefix_units(
            d.size as int,
            d.h_chunks as int,
            d.last_h_chunk as int,
            n % d.cols(),
        ),
    decreases n,
{
    let size = d.size as int;
    let cols = d.cols();
    let pv = |k: int| axis_prefix_units(size, d.v_chunks as int, d.last_v_chunk as int, k);
    let ph = |k: int| axis_prefix_units(size, d.h_chunks as int, d.last_h_chunk as int, k);
    let ev = |k: int| axis_extent(size, d.v_chunks as int, d.last_v_chunk as int, k);
    let eh = |k: int| axis_extent(size, d.h_chunks as int, d.last_h_chunk as int, k);
    if n == 0 {
        assert(d.chunk_seq().take(0) =~= Seq::<Chunk>::empty());
        assert(ph(0) == 0);
        assert(pv(0) == 0);
        assert(0int / cols == 0 && 0int % cols == 0);
        assert(inflated_sum(d.chunk_seq().take(0)) == 0);
        assert(pv(0) * ph(cols) + (ev(0) + 2) * ph(0) == 0) by (nonlinear_arith)
            requires
                pv(0) == 0,
                ph(0) == 0,
        ;
    } else {
        let m = n - 1;
        lemma_prefix_sum(d, m);
        lemma_axis_count_bounded(size, d.h_chunks as int, d.last_h_chunk as int);
        lemma_axis_count_bounded(size, d.v_chunks as int, d.last_v_chunk as int);
        lemma_index_split(d.rows(), cols, m);
        let r = m / cols;
        let c = m % cols;
        lemma_fundamental_div_mod(m, cols);
        lemma_chunk_fields(d, r, c);
        let s = d.chunk_seq();
        assert(s.take(n).drop_last() =~= s.take(m));
        assert(s.take(n).last() == d.chunk_at(r, c));
        let a = inflated_area(d.chunk_at(r, c));
        assert(a == (eh(c) + 2) * (ev(r) + 2));
        let hv = ev(r) + 2;
        assert(hv * ph(c) + (eh(c) + 2) * hv == hv * (ph(c) + eh(c) + 2)) by (nonlinear_arith);
        assert(ph(c + 1) == ph(c) + eh(c) + 2);
        assert(inflated_sum(s.take(n)) == inflated_sum(s.take(m)) + a);
        assert(inflated_sum(s.take(n)) == pv(r) * ph(cols) + hv * ph(c + 1));
        assert(n == r * cols + c + 1) by (nonlinear_arith)
            requires
                m == cols * r + c,
                n == m + 1,
        ;
        if c + 1 < cols {
            vstd::arithmetic::div_mod::lemma_fundamental_div_mod_converse(n, cols, r, c + 1);
            assert(inflated_sum(s.take(n)) == pv(n / cols) * ph(cols) + (ev(n / cols) + 2) * ph(
                n % cols,
            ));
        } else {
            assert(n == (r + 1) * cols + 0) by (nonlinear_arith)
                requires
                    n == r * cols + c + 1,
                    c + 1 == cols,
            ;
            vstd::arithmetic::div_mod::lemma_fundamental_div_mod_converse(n, cols, r + 1, 0);
            assert(pv(r + 1) == pv(r) + ev(r) + 2);
            assert(pv(r) * ph(cols) + hv * ph(cols) == pv(r + 1) * ph(cols)) by (nonlinear_arith)
                requires
                    pv(r + 1) == pv(r) + hv,
            ;
            assert(ph(0) == 0);
            assert((ev(r + 1) + 2) * ph(0) == 0) by (nonlinear_arith)
                requires
                    ph(0) == 0,
            ;
            assert(inflated_sum(s.take(n)) == pv(n / cols) * ph(cols) + (ev(n / cols) + 2) * ph(
                n % cols,
            ));
        }
    }
}

/// The progress total fixed up front is the sum of the chunks' areas, each
/// grown by the overlap margin on every side.
pub proof fn lemma_progress_units(d: ChunkDimensions)
    requires
        d.wf(),
    ensures
        d.total_units() == inflated_sum(d.chunk_seq()),
{
    let size = d.size as int;
    let rows = d.rows();
    let cols = d.cols();
    lemma_axis_total(size, d.h_chunks as int, d.last_h_chunk as int);
    lemma_axis_total(size, d.v_chunks as int, d.last_v_chunk as int);
    if cols == 0 {
        assert(rows * cols == 0) by (nonlinear_arith)
            requires
                cols == 0,
        ;
        assert(d.chunk_seq() =~= Seq::<Chunk>::empty());
        assert(axis_units(size, d.h_chunks as int, d.last_h_chunk as int) == 0);
    } else {
        assert(rows >= 0);
        let n = rows * cols;
        assert(n >= 0) by (nonlinear_arith)
            requires
                n == rows * cols,
                rows >= 0,
                cols > 0,
        ;
        lemma_prefix_sum(d, n);
        vstd::arithmetic::div_mod::lemma_fundamental_div_mod_converse(n, cols, rows, 0);
        assert(d.chunk_seq().take(n) =~= d.chunk_seq());
        assert(d.total_units() == axis_units(size, d.h_chunks as int, d.last_h_chunk as int)
            * axis_units(size, d.v_chunks as int, d.last_v_chunk as int));
        assert(axis_units(size, d.h_chunks as int, d.last_h_chunk as int) * axis_units(
            size,
            d.v_chunks as int,
            d.last_v_chunk as int,
        ) == axis_units(size, d.v_chunks as int, d.last_v_chunk as int) * axis_units(
            size,
            d.h_chunks as int,
            d.last_h_chunk as int,
        )) by (nonlinear_arith);
    }
}

/// Index `r * cols + c` of a row-major list names row `r`, column `c`.
proof fn lemma_row_major(rows: int, cols: int, r: int, c: int)
    requires
        0 <= r < rows,
        0 <= c < cols,
    ensures
        0 <= r * cols + c < rows * cols,
        (r * cols + c) / cols == r,
        (r * cols + c) % cols == c,
{
    assert(0 <= r * cols + c < rows * cols) by (nonlinear_arith)
        requires
            0 <= r < rows,
            0 <= c < cols,
    ;
    vstd::arithmetic::div_mod::lemma_fundamental_div_mod_converse(r * cols + c, cols, r, c);
}

/// An index of a row-major list splits into a row and a column in range.
proof fn lemma_index_split(rows: int, cols: int, i: int)
    requires
        rows >= 0,
        cols >= 0,
        0 <= i < rows * cols,
    ensures
        cols > 0,
        0 <= i / cols < rows,
        0 <= i % cols < cols,
{
    if cols == 0 {
        assert(rows * cols == 0) by (nonlinear_arith)
            requires
                cols == 0,
        ;
    }
    lemma_fundamental_div_mod(i, cols);
    lemma_mod_pos_bound(i, cols);
    assert(0 <= i / cols < rows) by (nonlinear_arith)
        requires
            i == cols * (i / cols) + (i % cols),
            0 <= i % cols < cols,
            0 <= i < rows * cols,
    ;
}

/// The fields of the chunk at `(r, c)` hold their integer values unchanged.
proof fn lemma_chunk_fields(d: ChunkDimensions, r: int, c: int)
    requires
        d.wf(),
        0 <= r < d.rows(),
        0 <= c < d.cols(),
    ensures
        d.chunk_at(r, c).x == c * d.size,
        d.chunk_at(r, c).y == r * d.size,
        d.chunk_at(r, c).width == axis_extent(
            d.size as int,
            d.h_chunks as int,
            d.last_h_chunk as int,
            c,
        ),
        d.chunk_at(r, c).height == axis_extent(
            d.size as int,
            d.v_chunks as int,
            d.last_v_chunk as int,
            r,
        ),
        d.chunk_at(r, c).row_index == r,
        d.chunk_at(r, c).col_index == c,
        c * d.size + d.chunk_at(r, c).width <= d.spec_width(),
        r * d.size + d.chunk_at(r, c).height <= d.spec_height(),
{
    lemma_axis_end(d.size as int, d.h_chunks as int, d.last_h_chunk as int, c);
    lemma_axis_end(d.size as int, d.v_chunks as int, d.last_v_chunk as int, r);
}

proof fn lemma_axis_end(size: int, full: int, last: int, k: int)
    requires
        size > 0,
        full >= 0,
        0 <= last < size,
        0 <= k < axis_count(full, last),
    ensures
        0 <= k * size,
        k * size + axis_extent(size, full, last, k) <= full * size + last,
{
    assert(0 <= k * size) by (nonlinear_arith)
        requires
            k >= 0,
            size > 0,
    ;
    if k < full {
        assert(k * size + size <= full * size) by (nonlinear_arith)
            requires
                k < full,
                size > 0,
        ;
    }
}

} // verus!
