//! The logical 2-D array, backed by a row-major grid of tiles.
//!
//! A `Matrix` owns the blocked kernels: elementwise map and zip, reduction,
//! transpose and matrix multiply. Edge tiles may hold cells beyond the
//! logical size; those padding cells are kept at `Scalar::zero_s` by every
//! operation and are never read or written as data.
//!
//! Contracts are stated over the logical view `m@`, a sequence of rows. The
//! specification functions `block_dot` and `reduce_seq` name the exact
//! accumulation orders of the blocked multiply and of the reduction, since
//! an element type need not have associative addition.

use vstd::prelude::*;

use crate::chunk::{chunk_dot, MatrixChunk, CHUNK_WIDTH};
use crate::scalar::Scalar;

verus! {

/// Whether `v` is a rectangular grid of `h` rows and `w` columns.
pub open spec fn is_grid<S>(v: Seq<Seq<S>>, h: int, w: int) -> bool {
    v.len() == h && (forall|y: int| 0 <= y < h ==> (#[trigger] v[y]).len() == w)
}

pub open spec fn rows<S>(v: Seq<Seq<S>>) -> int {
    v.len() as int
}

pub open spec fn cols<S>(v: Seq<Seq<S>>) -> int {
    if v.len() == 0 {
        0int
    } else {
        v[0].len() as int
    }
}

/// The cell at `(y, x)`, or zero outside the grid: the value any kernel
/// finds at a padded position.
pub open spec fn pcell<S: Scalar>(v: Seq<Seq<S>>, y: int, x: int) -> S {
    if 0 <= y < v.len() && 0 <= x < v[y].len() {
        v[y][x]
    } else {
        S::zero_s()
    }
}

/// Number of tiles covering `n` cells, for `n >= 1`.
pub open spec fn ceil_chunks(n: int) -> int {
    (n - 1) / (CHUNK_WIDTH as int) + 1
}

/// The transpose of a grid.
pub open spec fn mtrans<S>(v: Seq<Seq<S>>) -> Seq<Seq<S>> {
    Seq::new(cols(v) as nat, |x: int| Seq::new(rows(v) as nat, |y: int| v[y][x]))
}

/// One addend of a blocked dot product: the product of the padded cells at
/// inner position `k`.
pub open spec fn dot_term<S: Scalar>(a: Seq<Seq<S>>, b: Seq<Seq<S>>, y: int, x: int, k: int) -> S {
    S::mul_s(pcell(a, y, k), pcell(b, k, x))
}

/// The first `i` addends of one tile's slice of the dot product at `(y, x)`,
/// starting at inner position `k0`, accumulated left to right from zero:
/// what one tile product contributes.
pub open spec fn tile_dot<S: Scalar>(
    a: Seq<Seq<S>>,
    b: Seq<Seq<S>>,
    y: int,
    x: int,
    k0: int,
    i: nat,
) -> S
    decreases i,
{
    if i == 0 {
        S::zero_s()
    } else {
        S::add_s(tile_dot(a, b, y, x, k0, (i - 1) as nat), dot_term(a, b, y, x, k0 + i - 1))
    }
}

/// The value the blocked multiply leaves at `(y, x)` after `t` tile
/// products: the tile contributions added up in tile order. The inner
/// positions of the final tile may lie beyond the operand width; both padded
/// factors are zero there.
pub open spec fn block_dot<S: Scalar>(
    a: Seq<Seq<S>>,
    b: Seq<Seq<S>>,
    y: int,
    x: int,
    t: nat,
) -> S
    decreases t,
{
    if t == 0 {
        S::zero_s()
    } else {
        S::add_s(
            block_dot(a, b, y, x, (t - 1) as nat),
            tile_dot(a, b, y, x, CHUNK_WIDTH as int * (t - 1), CHUNK_WIDTH as nat),
        )
    }
}

/// Valid height of the tile row `ty` of an `h`-row matrix.
pub open spec fn tile_extent(n: int, t: int) -> int {
    if n - t * (CHUNK_WIDTH as int) < CHUNK_WIDTH as int {
        n - t * (CHUNK_WIDTH as int)
    } else {
        CHUNK_WIDTH as int
    }
}

/// The valid cells of tile `(ty, tx)`, row-major within the tile.
pub open spec fn tile_cells<S>(v: Seq<Seq<S>>, h: int, w: int, ty: int, tx: int) -> Seq<S> {
    let vh = tile_extent(h, ty);
    let vw = tile_extent(w, tx);
    Seq::new(
        (vh * vw) as nat,
        |k: int| v[ty * (CHUNK_WIDTH as int) + k / vw][tx * (CHUNK_WIDTH as int) + k % vw],
    )
}

/// Every valid cell of the grid, in the order the reduction visits them:
/// tile by tile, row-major among tiles, row-major within each tile, with
/// padding cells skipped.
pub open spec fn reduce_seq<S>(v: Seq<Seq<S>>, h: int, w: int) -> Seq<S> {
    let nth = ceil_chunks(h);
    let ntw = ceil_chunks(w);
    Seq::new((nth * ntw) as nat, |t: int| tile_cells(v, h, w, t / ntw, t % ntw)).flatten()
}

/// Left fold of a cell sequence under scalar addition, from zero.
pub open spec fn fold_add<S: Scalar>(s: Seq<S>) -> S {
    s.fold_left(S::zero_s(), |acc: S, v: S| S::add_s(acc, v))
}

/// A logical 2-D array of scalars backed by a grid of tiles.
pub struct Matrix<S: Scalar> {
    h: usize,
    w: usize,
    chunk_h: usize,
    chunk_w: usize,
    chunks: Vec<MatrixChunk<S>>,
}

impl<S: Scalar> View for Matrix<S> {
    type V = Seq<Seq<S>>;

    /// The logical cells, as a sequence of rows.
    closed spec fn view(&self) -> Seq<Seq<S>> {
        Seq::new(self.h as nat, |y: int| Seq::new(self.w as nat, |x: int| self.rcell(y, x)))
    }
}

impl<S: Scalar> Matrix<S> {
    /// The stored cell at grid position `(y, x)`, padding included.
    closed spec fn rcell(&self, y: int, x: int) -> S {
        self.chunks@[(y / (CHUNK_WIDTH as int)) * (self.chunk_w as int) + x / (CHUNK_WIDTH
            as int)].cell(y % (CHUNK_WIDTH as int), x % (CHUNK_WIDTH as int))
    }

    /// Well-formedness: positive logical size that fits the address space, a
    /// tile grid of exactly the covering size, and zero in every padding
    /// cell.
    pub closed spec fn wf(&self) -> bool {
        &&& 1 <= self.h as int
        &&& 1 <= self.w as int
        &&& (self.h as int) * (self.w as int) <= usize::MAX as int
        &&& self.chunk_h as int == ceil_chunks(self.h as int)
        &&& self.chunk_w as int == ceil_chunks(self.w as int)
        &&& self.chunks@.len() == (self.chunk_h as int) * (self.chunk_w as int)
        &&& (forall|c: int| 0 <= c < self.chunks@.len() ==> (#[trigger] self.chunks@[c]).wf())
        &&& (forall|y: int, x: int|
            0 <= y < (self.chunk_h as int) * (CHUNK_WIDTH as int) && 0 <= x < (self.chunk_w as int)
                * (CHUNK_WIDTH as int) && (y >= self.h as int || x >= self.w as int)
                ==> #[trigger] self.rcell(y, x) == S::zero_s())
    }

    /// The logical view is a grid of the stored size.
    pub proof fn lemma_grid(&self)
        requires
            self.wf(),
        ensures
            is_grid(self@, rows(self@), cols(self@)),
            1 <= rows(self@),
            1 <= cols(self@),
            rows(self@) * cols(self@) <= usize::MAX as int,
    {
        assert(self@.len() == self.h as int);
        assert(forall|y: int| 0 <= y < self.h as int ==> (#[trigger] self@[y]).len() == self.w as int);
    }

    pub fn height(&self) -> (r: usize)
        ensures
            r as int == rows(self@),
    {
        self.h
    }

    pub fn width(&self) -> (r: usize)
        requires
            self.wf(),
        ensures
            r as int == cols(self@),
    {
        proof {
            self.lemma_grid();
        }
        self.w
    }

    /// A zero matrix of `h` rows and `w` columns.
    pub fn new_zero(h: usize, w: usize) -> (r: Self)
        requires
            1 <= h,
            1 <= w,
            h * w <= usize::MAX,
        ensures
            r.wf(),
            is_grid(r@, h as int, w as int),
            forall|y: int, x: int|
                0 <= y < h as int && 0 <= x < w as int ==> #[trigger] r@[y][x] == S::zero_s(),
    {
        let chunk_h = (h - 1) / CHUNK_WIDTH + 1;
        let chunk_w = (w - 1) / CHUNK_WIDTH + 1;
        proof {
            lemma_chunk_cover(h as int, w as int);
        }
        let total = chunk_h * chunk_w;
        let mut chunks: Vec<MatrixChunk<S>> = Vec::new();
        let mut i: usize = 0;
        while i < total
            invariant
                chunks@.len() == i as int,
                i <= total,
                forall|c: int| 0 <= c < i as int ==> (#[trigger] chunks@[c]).wf(),
                forall|c: int, y: int, x: int|
                    0 <= c < i as int && 0 <= y < CHUNK_WIDTH as int && 0 <= x < CHUNK_WIDTH as int
                        ==> #[trigger] chunks@[c].cell(y, x) == S::zero_s(),
            decreases total - i,
        {
            chunks.push(MatrixChunk::new());
            i += 1;
        }
        let r = Matrix { h, w, chunk_h, chunk_w, chunks };
        proof {
            assert forall|y: int, x: int|
                0 <= y < (chunk_h as int) * (CHUNK_WIDTH as int) && 0 <= x < (chunk_w as int) * (
                CHUNK_WIDTH as int) implies #[trigger] r.rcell(y, x) == S::zero_s() by {
                lemma_grid_cell_index(
                    y,
                    x,
                    chunk_h as int,
                    chunk_w as int,
                );
            }
            assert(r.wf());
            assert forall|y: int, x: int|
                0 <= y < h as int && 0 <= x < w as int implies #[trigger] r@[y][x]
                == S::zero_s() by {
                assert(r@[y][x] == r.rcell(y, x));
                lemma_chunk_cover(h as int, w as int);
            }
        }
        r
    }

    /// The cell at `(y, x)`.
    pub fn get(&self, y: usize, x: usize) -> (r: S)
        requires
            self.wf(),
            (y as int) < rows(self@),
            (x as int) < cols(self@),
        ensures
            r == self@[y as int][x as int],
    {
        proof {
            self.lemma_grid();
            self.lemma_lookup(y as int, x as int);
        }
        let cy = y / CHUNK_WIDTH;
        let cx = x / CHUNK_WIDTH;
        let c = &self.chunks[cy * self.chunk_w + cx];
        c.get(y % CHUNK_WIDTH, x % CHUNK_WIDTH)
    }

    /// Replaces the cell at `(y, x)`; every other cell keeps its value.
    pub fn set(&mut self, y: usize, x: usize, v: S)
        requires
            old(self).wf(),
            (y as int) < rows(old(self)@),
            (x as int) < cols(old(self)@),
        ensures
            final(self).wf(),
            final(self)@ == old(self)@.update(
                y as int,
                old(self)@[y as int].update(x as int, v),
            ),
    {
        proof {
            self.lemma_grid();
            self.lemma_lookup(y as int, x as int);
        }
        let cy = y / CHUNK_WIDTH;
        let cx = x / CHUNK_WIDTH;
        let idx = cy * self.chunk_w + cx;
        let mut c = self.chunks.remove(idx);
        c.set(y % CHUNK_WIDTH, x % CHUNK_WIDTH, v);
        self.chunks.insert(idx, c);
        proof {
            let pre = old(self);
            assert forall|yy: int, xx: int|
                0 <= yy < (pre.chunk_h as int) * (CHUNK_WIDTH as int) && 0 <= xx < (pre.chunk_w
                    as int) * (CHUNK_WIDTH as int) && !(yy == y as int && xx == x as int)
                implies self.rcell(yy, xx) == pre.rcell(yy, xx) by {
                lemma_grid_cell_index(yy, xx, pre.chunk_h as int, pre.chunk_w as int);
                if (yy / (CHUNK_WIDTH as int)) * (pre.chunk_w as int) + xx / (CHUNK_WIDTH as int)
                    == idx as int {
                    if yy % (CHUNK_WIDTH as int) == y as int % (CHUNK_WIDTH as int) && xx % (
                    CHUNK_WIDTH as int) == x as int % (CHUNK_WIDTH as int) {
                        lemma_same_tile_same_cell(
                            yy,
                            xx,
                            y as int,
                            x as int,
                            pre.chunk_w as int,
                        );
                        assert(false);
                    }
                }
            }
            assert(self.rcell(y as int, x as int) == v);
            assert(self.wf());
            assert(self@ =~~= pre@.update(y as int, pre@[y as int].update(x as int, v)));
        }
    }

    /// A matrix of `h` rows and `w` columns with every cell `value`.
    pub fn new_value(h: usize, w: usize, value: S) -> (r: Self)
        requires
            1 <= h,
            1 <= w,
            h * w <= usize::MAX,
        ensures
            r.wf(),
            is_grid(r@, h as int, w as int),
            forall|y: int, x: int|
                0 <= y < h as int && 0 <= x < w as int ==> #[trigger] r@[y][x] == value,
    {
        let z = Self::new_zero(h, w);
        let r = z.unary_operation(|v: S| -> (o: S) ensures o == value { value });
        proof {
            z.lemma_grid();
        }
        r
    }

    /// A matrix filled from a flat row-major slice of `h * w` cells.
    pub fn new_slice(h: usize, w: usize, data: &Vec<S>) -> (r: Self)
        requires
            1 <= h,
            1 <= w,
            h * w <= usize::MAX,
            data@.len() == h as int * w as int,
        ensures
            r.wf(),
            is_grid(r@, h as int, w as int),
            forall|y: int, x: int|
                0 <= y < h as int && 0 <= x < w as int ==> #[trigger] r@[y][x] == data@[y * (
                w as int) + x],
    {
        let mut r = Self::new_zero(h, w);
        let mut y: usize = 0;
        while y < h
            invariant
                r.wf(),
                is_grid(r@, h as int, w as int),
                1 <= h,
                1 <= w,
                h * w <= usize::MAX,
                data@.len() == h as int * w as int,
                y <= h,
                forall|yy: int, xx: int|
                    0 <= yy < y as int && 0 <= xx < w as int ==> #[trigger] r@[yy][xx] == data@[yy
                        * (w as int) + xx],
            decreases h - y,
        {
            let mut x: usize = 0;
            while x < w
                invariant
                    r.wf(),
                    is_grid(r@, h as int, w as int),
                    1 <= h,
                    1 <= w,
                    h * w <= usize::MAX,
                    data@.len() == h as int * w as int,
                    y < h,
                    x <= w,
                    forall|yy: int, xx: int|
                        0 <= yy < y as int && 0 <= xx < w as int ==> #[trigger] r@[yy][xx]
                            == data@[yy * (w as int) + xx],
                    forall|xx: int|
                        0 <= xx < x as int ==> #[trigger] r@[y as int][xx] == data@[(y as int) * (
                        w as int) + xx],
                decreases w - x,
            {
                proof {
                    lemma_row_major_index(y as int, x as int, h as int, w as int);
                }
                let v = data[y * w + x];
                r.set(y, x, v);
                x += 1;
            }
            y += 1;
        }
        r
    }

    /// Applies `func` to every cell, producing a new matrix of the same
    /// size: the generic pointwise transform behind scale, power, sigmoid
    /// and the relu family.
    pub fn unary_operation<F: Fn(S) -> S>(&self, func: F) -> (r: Self)
        requires
            self.wf(),
            forall|v: S| call_requires(func, (v,)),
        ensures
            r.wf(),
            is_grid(r@, rows(self@), cols(self@)),
            forall|y: int, x: int|
                0 <= y < rows(self@) && 0 <= x < cols(self@) ==> call_ensures(
                    func,
                    (self@[y][x],),
                    #[trigger] r@[y][x],
                ),
    {
        proof {
            self.lemma_grid();
        }
        let h = self.h;
        let w = self.w;
        let mut r = Self::new_zero(h, w);
        let mut y: usize = 0;
        while y < h
            invariant
                self.wf(),
                r.wf(),
                is_grid(self@, h as int, w as int),
                is_grid(r@, h as int, w as int),
                1 <= h,
                1 <= w,
                y <= h,
                forall|v: S| call_requires(func, (v,)),
                forall|yy: int, xx: int|
                    0 <= yy < y as int && 0 <= xx < w as int ==> call_ensures(
                        func,
                        (self@[yy][xx],),
                        #[trigger] r@[yy][xx],
                    ),
            decreases h - y,
        {
            let mut x: usize = 0;
            while x < w
                invariant
                    self.wf(),
                    r.wf(),
                    is_grid(self@, h as int, w as int),
                    is_grid(r@, h as int, w as int),
                    1 <= h,
                    1 <= w,
                    y < h,
                    x <= w,
                    forall|v: S| call_requires(func, (v,)),
                    forall|yy: int, xx: int|
                        0 <= yy < y as int && 0 <= xx < w as int ==> call_ensures(
                            func,
                            (self@[yy][xx],),
                            #[trigger] r@[yy][xx],
                        ),
                    forall|xx: int|
                        0 <= xx < x as int ==> call_ensures(
                            func,
                            (self@[y as int][xx],),
                            #[trigger] r@[y as int][xx],
                        ),
                decreases w - x,
            {
                let v = func(self.get(y, x));
                r.set(y, x, v);
                x += 1;
            }
            y += 1;
        }
        r
    }

    /// Applies `func` to every pair of cells of two equally sized matrices:
    /// the generic pairwise transform behind elementwise add, subtract and
    /// multiply.
    pub fn binary_operation<F: Fn(S, S) -> S>(&self, other: &Self, func: F) -> (r: Self)
        requires
            self.wf(),
            other.wf(),
            rows(self@) == rows(other@),
            cols(self@) == cols(other@),
            forall|a: S, b: S| call_requires(func, (a, b)),
        ensures
            r.wf(),
            is_grid(r@, rows(self@), cols(self@)),
            forall|y: int, x: int|
                0 <= y < rows(self@) && 0 <= x < cols(self@) ==> call_ensures(
                    func,
                    (self@[y][x], other@[y][x]),
                    #[trigger] r@[y][x],
                ),
    {
        proof {
            self.lemma_grid();
            other.lemma_grid();
        }
        let h = self.h;
        let w = self.w;
        let mut r = Self::new_zero(h, w);
        let mut y: usize = 0;
        while y < h
            invariant
                self.wf(),
                other.wf(),
                r.wf(),
                is_grid(self@, h as int, w as int),
                is_grid(other@, h as int, w as int),
                is_grid(r@, h as int, w as int),
                1 <= h,
                1 <= w,
                y <= h,
                forall|a: S, b: S| call_requires(func, (a, b)),
                forall|yy: int, xx: int|
                    0 <= yy < y as int && 0 <= xx < w as int ==> call_ensures(
                        func,
                        (self@[yy][xx], other@[yy][xx]),
                        #[trigger] r@[yy][xx],
                    ),
            decreases h - y,
        {
            let mut x: usize = 0;
            while x < w
                invariant
                    self.wf(),
                    other.wf(),
                    r.wf(),
                    is_grid(self@, h as int, w as int),
                    is_grid(other@, h as int, w as int),
                    is_grid(r@, h as int, w as int),
                    1 <= h,
                    1 <= w,
                    y < h,
                    x <= w,
                    forall|a: S, b: S| call_requires(func, (a, b)),
                    forall|yy: int, xx: int|
                        0 <= yy < y as int && 0 <= xx < w as int ==> call_ensures(
                            func,
                            (self@[yy][xx], other@[yy][xx]),
                            #[trigger] r@[yy][xx],
                        ),
                    forall|xx: int|
                        0 <= xx < x as int ==> call_ensures(
                            func,
                            (self@[y as int][xx], other@[y as int][xx]),
                            #[trigger] r@[y as int][xx],
                        ),
                decreases w - x,
            {
                let v = func(self.get(y, x), other.get(y, x));
                r.set(y, x, v);
                x += 1;
            }
            y += 1;
        }
        r
    }

    /// An identical copy.
    pub fn duplicate(&self) -> (r: Self)
        requires
            self.wf(),
        ensures
            r.wf(),
            r@ == self@,
    {
        proof {
            self.lemma_grid();
        }
        let r = self.unary_operation(|v: S| -> (o: S) ensures o == v { v });
        proof {
            assert(r@ =~~= self@);
        }
        r
    }

    /// The transpose: tile `(ty, tx)` of the source lands, itself
    /// transposed, at grid position `(tx, ty)` of the destination.
    pub fn transpose(&self) -> (r: Self)
        requires
            self.wf(),
        ensures
            r.wf(),
            is_grid(r@, cols(self@), rows(self@)),
            r@ == mtrans(self@),
    {
        proof {
            self.lemma_grid();
        }
        let dch = self.chunk_w;
        let dcw = self.chunk_h;
        proof {
            vstd::std_specs::vec::axiom_spec_len(&self.chunks);
            assert((dch as int) * (dcw as int) == self.chunks@.len()) by (nonlinear_arith)
                requires
                    self.chunks@.len() == (self.chunk_h as int) * (self.chunk_w as int),
                    dch == self.chunk_w,
                    dcw == self.chunk_h,
            ;
        }
        let total = self.chunks.len();
        let mut chunks: Vec<MatrixChunk<S>> = Vec::new();
        let mut c: usize = 0;
        while c < total
            invariant
                self.wf(),
                dch == self.chunk_w,
                dcw == self.chunk_h,
                total as int == (dch as int) * (dcw as int),
                (dch as int) * (dcw as int) <= usize::MAX as int,
                (self.chunk_h as int) * (self.chunk_w as int) <= usize::MAX as int,
                chunks@.len() == c as int,
                c <= total,
                forall|cc: int| 0 <= cc < c as int ==> (#[trigger] chunks@[cc]).wf(),
                forall|cc: int, ly: int, lx: int|
                    0 <= cc < c as int && 0 <= ly < CHUNK_WIDTH as int && 0 <= lx < CHUNK_WIDTH
                        as int ==> #[trigger] chunks@[cc].cell(ly, lx) == self.chunks@[(cc % (
                    dcw as int)) * (self.chunk_w as int) + cc / (dcw as int)].cell(lx, ly),
            decreases total - c,
        {
            proof {
                lemma_flat_decomp(c as int, dch as int, dcw as int);
                lemma_flat_build(
                    (c as int) % (dcw as int),
                    (c as int) / (dcw as int),
                    self.chunk_h as int,
                    self.chunk_w as int,
                );
            }
            let dty = c / dcw;
            let dtx = c % dcw;
            let src = &self.chunks[dtx * self.chunk_w + dty];
            chunks.push(src.transpose());
            c += 1;
        }
        let r = Matrix { h: self.w, w: self.h, chunk_h: dch, chunk_w: dcw, chunks };
        proof {
            assert((self.w as int) * (self.h as int) == (self.h as int) * (
            self.w as int)) by (nonlinear_arith);
            assert forall|y: int, x: int|
                0 <= y < (dch as int) * (CHUNK_WIDTH as int) && 0 <= x < (dcw as int) * (
            CHUNK_WIDTH as int) implies r.rcell(y, x) == self.rcell(x, y) by {
                lemma_grid_cell_index(y, x, dch as int, dcw as int);
                lemma_flat_build(y / (CHUNK_WIDTH as int), x / (CHUNK_WIDTH as int), dch as int, dcw as int);
                let cc = (y / (CHUNK_WIDTH as int)) * (dcw as int) + x / (CHUNK_WIDTH as int);
                assert(r.chunks@[cc].cell(y % (CHUNK_WIDTH as int), x % (CHUNK_WIDTH as int))
                    == self.chunks@[(x / (CHUNK_WIDTH as int)) * (self.chunk_w as int) + y / (
                CHUNK_WIDTH as int)].cell(x % (CHUNK_WIDTH as int), y % (CHUNK_WIDTH as int)));
            }
            assert(r.wf());
            r.lemma_grid();
            assert forall|y: int, x: int|
                0 <= y < self.w as int && 0 <= x < self.h as int implies #[trigger] r@[y][x]
                == self@[x][y] by {
                assert(r@[y][x] == r.rcell(y, x));
                assert(self@[x][y] == self.rcell(x, y));
                lemma_chunk_cover(self.h as int, self.w as int);
            }
            assert(r@ =~~= mtrans(self@));
        }
        r
    }

    /// The blocked matrix multiply. For every destination cell, the tile
    /// products of the corresponding tile row of `self` and tile column of
    /// `other` are accumulated in tile order; `block_dot` names that exact
    /// accumulation.
    pub fn matmul(&self, other: &Self) -> (r: Self)
        requires
            self.wf(),
            other.wf(),
            cols(self@) == rows(other@),
            rows(self@) * cols(other@) <= usize::MAX as int,
        ensures
            r.wf(),
            is_grid(r@, rows(self@), cols(other@)),
            forall|y: int, x: int|
                0 <= y < rows(self@) && 0 <= x < cols(other@) ==> #[trigger] r@[y][x] == block_dot(
                    self@,
                    other@,
                    y,
                    x,
                    ceil_chunks(cols(self@)) as nat,
                ),
    {
        proof {
            self.lemma_grid();
            other.lemma_grid();
            lemma_chunk_cover(self.h as int, other.w as int);
            lemma_chunk_cover(self.h as int, self.w as int);
            lemma_chunk_cover(other.h as int, other.w as int);
        }
        let ghost a = self@;
        let ghost b = other@;
        let ghost tt = self.chunk_w as nat;
        let h = self.h;
        let p = other.w;
        let rch = self.chunk_h;
        let rcw = other.chunk_w;
        proof {
            vstd::std_specs::vec::axiom_spec_len(&self.chunks);
            vstd::std_specs::vec::axiom_spec_len(&other.chunks);
        }
        let total = rch * rcw;
        let mut chunks: Vec<MatrixChunk<S>> = Vec::new();
        let mut c: usize = 0;
        while c < total
            invariant
                self.wf(),
                other.wf(),
                a == self@,
                b == other@,
                tt == self.chunk_w as nat,
                h == self.h,
                p == other.w,
                rch == self.chunk_h,
                rcw == other.chunk_w,
                other.h == self.w,
                total == rch * rcw,
                (rch as int) * (rcw as int) <= usize::MAX as int,
                (self.chunk_h as int) * (self.chunk_w as int) <= usize::MAX as int,
                (other.chunk_h as int) * (other.chunk_w as int) <= usize::MAX as int,
                chunks@.len() == c as int,
                c <= total,
                forall|cc: int| 0 <= cc < c as int ==> (#[trigger] chunks@[cc]).wf(),
                forall|cc: int, ly: int, lx: int|
                    0 <= cc < c as int && 0 <= ly < CHUNK_WIDTH as int && 0 <= lx < CHUNK_WIDTH
                        as int ==> #[trigger] chunks@[cc].cell(ly, lx) == (if ly < tile_extent(
                        h as int,
                        cc / (rcw as int),
                    ) && lx < tile_extent(p as int, cc % (rcw as int)) {
                        block_dot(
                            a,
                            b,
                            (cc / (rcw as int)) * (CHUNK_WIDTH as int) + ly,
                            (cc % (rcw as int)) * (CHUNK_WIDTH as int) + lx,
                            tt,
                        )
                    } else {
                        S::zero_s()
                    }),
            decreases total - c,
        {
            proof {
                lemma_flat_decomp(c as int, rch as int, rcw as int);
            }
            let cy = c / rcw;
            let cx = c % rcw;
            let ghost gy = cy as int;
            let ghost gx = cx as int;
            let mut acc = MatrixChunk::<S>::new();
            let mut ci: usize = 0;
            while ci < self.chunk_w
                invariant
                    self.wf(),
                    other.wf(),
                    a == self@,
                    b == other@,
                    h == self.h,
                    p == other.w,
                    rch == self.chunk_h,
                    rcw == other.chunk_w,
                    other.h == self.w,
                    gy == cy as int,
                    gx == cx as int,
                    0 <= gy < rch as int,
                    0 <= gx < rcw as int,
                    ci <= self.chunk_w,
                    (self.chunk_h as int) * (self.chunk_w as int) <= usize::MAX as int,
                    (other.chunk_h as int) * (other.chunk_w as int) <= usize::MAX as int,
                    acc.wf(),
                    forall|ly: int, lx: int|
                        0 <= ly < CHUNK_WIDTH as int && 0 <= lx < CHUNK_WIDTH as int
                            ==> #[trigger] acc.cell(ly, lx) == block_dot(
                            a,
                            b,
                            gy * (CHUNK_WIDTH as int) + ly,
                            gx * (CHUNK_WIDTH as int) + lx,
                            ci as nat,
                        ),
                decreases self.chunk_w - ci,
            {
                proof {
                    lemma_flat_build(gy, ci as int, self.chunk_h as int, self.chunk_w as int);
                    lemma_flat_build(ci as int, gx, other.chunk_h as int, other.chunk_w as int);
                }
                let left = &self.chunks[cy * self.chunk_w + ci];
                let right = &other.chunks[ci * other.chunk_w + cx];
                let prod = left.matmul(right);
                proof {
                    let k0 = (ci as int) * (CHUNK_WIDTH as int);
                    assert forall|ly: int, lx: int|
                        0 <= ly < CHUNK_WIDTH as int && 0 <= lx < CHUNK_WIDTH
                            as int implies #[trigger] prod.cell(ly, lx) == tile_dot(
                        a,
                        b,
                        gy * (CHUNK_WIDTH as int) + ly,
                        gx * (CHUNK_WIDTH as int) + lx,
                        k0,
                        CHUNK_WIDTH as nat,
                    ) by {
                        let y = gy * (CHUNK_WIDTH as int) + ly;
                        let x = gx * (CHUNK_WIDTH as int) + lx;
                        assert forall|k: int|
                            0 <= k < CHUNK_WIDTH as int implies #[trigger] left.cell(ly, k)
                            == pcell(a, y, k0 + k) by {
                            self.lemma_chunk_cell(gy, ci as int, ly, k);
                        }
                        assert forall|k: int|
                            0 <= k < CHUNK_WIDTH as int implies #[trigger] right.cell(k, lx)
                            == pcell(b, k0 + k, x) by {
                            other.lemma_chunk_cell(ci as int, gx, k, lx);
                        }
                        lemma_chunk_dot_matches(
                            a,
                            b,
                            *left,
                            *right,
                            y,
                            x,
                            ly,
                            lx,
                            k0,
                            CHUNK_WIDTH as nat,
                        );
                    }
                }
                acc.add_assign(&prod);
                ci += 1;
            }
            let vh = valid_extent(h, cy, rch);
            let vw = valid_extent(p, cx, rcw);
            chunks.push(acc.clamped(vh, vw));
            c += 1;
        }
        let r = Matrix { h, w: p, chunk_h: rch, chunk_w: rcw, chunks };
        proof {
            assert forall|y: int, x: int|
                0 <= y < (rch as int) * (CHUNK_WIDTH as int) && 0 <= x < (rcw as int) * (
            CHUNK_WIDTH as int) implies r.rcell(y, x) == (if y < h as int && x < p as int {
                block_dot(a, b, y, x, tt)
            } else {
                S::zero_s()
            }) by {
                lemma_grid_cell_index(y, x, rch as int, rcw as int);
                let cy = y / (CHUNK_WIDTH as int);
                let cx = x / (CHUNK_WIDTH as int);
                lemma_flat_build(cy, cx, rch as int, rcw as int);
                vstd::arithmetic::div_mod::lemma_fundamental_div_mod(y, CHUNK_WIDTH as int);
                vstd::arithmetic::div_mod::lemma_fundamental_div_mod(x, CHUNK_WIDTH as int);
                lemma_local_extent(h as int, cy, y % (CHUNK_WIDTH as int));
                lemma_local_extent(p as int, cx, x % (CHUNK_WIDTH as int));
            }
            assert(r.wf());
            r.lemma_grid();
            assert forall|y: int, x: int|
                0 <= y < h as int && 0 <= x < p as int implies #[trigger] r@[y][x] == block_dot(
                a,
                b,
                y,
                x,
                tt,
            ) by {
                assert(r@[y][x] == r.rcell(y, x));
                lemma_chunk_cover(h as int, p as int);
            }
        }
        r
    }

    /// Reduction to a single cell: folds every valid cell under scalar
    /// addition, tile by tile and row-major within each tile, skipping the
    /// padding cells of edge tiles. `reduce_seq` names that exact visiting
    /// order, which matters because addition need not be associative.
    pub fn sum(&self) -> (r: Self)
        requires
            self.wf(),
        ensures
            r.wf(),
            is_grid(r@, 1, 1),
            r@[0][0] == fold_add(reduce_seq(self@, rows(self@), cols(self@))),
    {
        proof {
            self.lemma_grid();
            vstd::std_specs::vec::axiom_spec_len(&self.chunks);
        }
        let ghost v = self@;
        let h = self.h;
        let w = self.w;
        let nth = self.chunk_h;
        let ntw = self.chunk_w;
        let ghost gh = h as int;
        let ghost gw = w as int;
        let total = self.chunks.len();
        let mut acc = S::zero();
        let ghost mut tiles_done: Seq<Seq<S>> = Seq::empty();
        let mut t: usize = 0;
        while t < total
            invariant
                self.wf(),
                v == self@,
                h == self.h,
                w == self.w,
                nth == self.chunk_h,
                ntw == self.chunk_w,
                gh == h as int,
                gw == w as int,
                total as int == (nth as int) * (ntw as int),
                (nth as int) * (ntw as int) <= usize::MAX as int,
                t <= total,
                tiles_done == Seq::new(
                    t as nat,
                    |tt: int| tile_cells(v, gh, gw, tt / (ntw as int), tt % (ntw as int)),
                ),
                acc == fold_add(tiles_done.flatten()),
            decreases total - t,
        {
            proof {
                lemma_flat_decomp(t as int, nth as int, ntw as int);
            }
            let ty = t / ntw;
            let tx = t % ntw;
            let vh = valid_extent(h, ty, nth);
            let vw = valid_extent(w, tx, ntw);
            let chunkref = &self.chunks[t];
            let ghost base = tiles_done.flatten();
            let ghost mut cells: Seq<S> = Seq::empty();
            let mut ly: usize = 0;
            while ly < vh
                invariant
                    self.wf(),
                    v == self@,
                    h == self.h,
                    w == self.w,
                    nth == self.chunk_h,
                    ntw == self.chunk_w,
                    gh == h as int,
                    gw == w as int,
                    (t as int) < (nth as int) * (ntw as int),
                    ty as int == t as int / (ntw as int),
                    tx as int == t as int % (ntw as int),
                    0 <= (ty as int) < nth as int,
                    0 <= (tx as int) < ntw as int,
                    (ty as int) * (ntw as int) + tx as int == t as int,
                    chunkref == &self.chunks@[t as int],
                    vh as int == tile_extent(gh, ty as int),
                    vw as int == tile_extent(gw, tx as int),
                    1 <= vh <= CHUNK_WIDTH,
                    1 <= vw <= CHUNK_WIDTH,
                    ly <= vh,
                    cells.len() == (ly as int) * (vw as int),
                    forall|k: int|
                        0 <= k < cells.len() ==> #[trigger] cells[k] == v[(ty as int) * (
                        CHUNK_WIDTH as int) + k / (vw as int)][(tx as int) * (CHUNK_WIDTH as int)
                            + k % (vw as int)],
                    acc == fold_add(base + cells),
                decreases vh - ly,
            {
                let mut lx: usize = 0;
                while lx < vw
                    invariant
                        self.wf(),
                        v == self@,
                        h == self.h,
                        w == self.w,
                        nth == self.chunk_h,
                        ntw == self.chunk_w,
                        gh == h as int,
                        gw == w as int,
                        (t as int) < (nth as int) * (ntw as int),
                        ty as int == t as int / (ntw as int),
                        tx as int == t as int % (ntw as int),
                        0 <= (ty as int) < nth as int,
                        0 <= (tx as int) < ntw as int,
                        (ty as int) * (ntw as int) + tx as int == t as int,
                        chunkref == &self.chunks@[t as int],
                        vh as int == tile_extent(gh, ty as int),
                        vw as int == tile_extent(gw, tx as int),
                        1 <= vh <= CHUNK_WIDTH,
                        1 <= vw <= CHUNK_WIDTH,
                        ly < vh,
                        lx <= vw,
                        cells.len() == (ly as int) * (vw as int) + lx as int,
                        forall|k: int|
                            0 <= k < cells.len() ==> #[trigger] cells[k] == v[(ty as int) * (
                            CHUNK_WIDTH as int) + k / (vw as int)][(tx as int) * (CHUNK_WIDTH
                                as int) + k % (vw as int)],
                        acc == fold_add(base + cells),
                    decreases vw - lx,
                {
                    let val = chunkref.get(ly, lx);
                    proof {
                        self.lemma_chunk_cell(ty as int, tx as int, ly as int, lx as int);
                        lemma_local_extent(gh, ty as int, ly as int);
                        lemma_local_extent(gw, tx as int, lx as int);
                        assert(val == v[(ty as int) * (CHUNK_WIDTH as int) + ly as int][(tx
                            as int) * (CHUNK_WIDTH as int) + lx as int]);
                        lemma_fold_add_push(base + cells, val);
                        assert((base + cells).push(val) =~= base + cells.push(val));
                        vstd::arithmetic::div_mod::lemma_fundamental_div_mod_converse(
                            (ly as int) * (vw as int) + lx as int,
                            vw as int,
                            ly as int,
                            lx as int,
                        );
                        cells = cells.push(val);
                    }
                    acc = acc.add(val);
                    lx += 1;
                }
                proof {
                    assert((ly as int) * (vw as int) + vw as int == ((ly as int) + 1) * (vw
                        as int)) by (nonlinear_arith);
                }
                ly += 1;
            }
            proof {
                assert((vh as int) * (vw as int) == cells.len());
                assert(cells =~= tile_cells(v, gh, gw, ty as int, tx as int));
                let prev = tiles_done;
                prev.lemma_flatten_push(cells);
                tiles_done = tiles_done.push(cells);
                assert(tiles_done.flatten() == base + cells);
                assert(tiles_done =~~= Seq::new(
                    (t + 1) as nat,
                    |tt: int| tile_cells(v, gh, gw, tt / (ntw as int), tt % (ntw as int)),
                ));
            }
            t += 1;
        }
        proof {
            assert(tiles_done.flatten() == reduce_seq(v, gh, gw));
        }
        let mut r = Self::new_zero(1, 1);
        r.set(0, 0, acc);
        r
    }

    /// A stored cell equals the padded view cell at the same position.
    proof fn lemma_rcell_pcell(&self, y: int, x: int)
        requires
            self.wf(),
            0 <= y < (self.chunk_h as int) * (CHUNK_WIDTH as int),
            0 <= x < (self.chunk_w as int) * (CHUNK_WIDTH as int),
        ensures
            self.rcell(y, x) == pcell(self@, y, x),
    {
        if y < self.h as int && x < self.w as int {
            assert(self@[y][x] == self.rcell(y, x));
        }
    }

    /// The tile cell at `(cy, cx)` local `(ly, lx)` is the padded view cell
    /// at the corresponding global position.
    proof fn lemma_chunk_cell(&self, cy: int, cx: int, ly: int, lx: int)
        requires
            self.wf(),
            0 <= cy < self.chunk_h as int,
            0 <= cx < self.chunk_w as int,
            0 <= ly < CHUNK_WIDTH as int,
            0 <= lx < CHUNK_WIDTH as int,
        ensures
            0 <= cy * (self.chunk_w as int) + cx < self.chunks@.len(),
            self.chunks@[cy * (self.chunk_w as int) + cx].cell(ly, lx) == pcell(
                self@,
                cy * (CHUNK_WIDTH as int) + ly,
                cx * (CHUNK_WIDTH as int) + lx,
            ),
    {
        let cw = self.chunk_w as int;
        let y = cy * (CHUNK_WIDTH as int) + ly;
        let x = cx * (CHUNK_WIDTH as int) + lx;
        lemma_flat_build(cy, cx, self.chunk_h as int, cw);
        assert(0 <= y < (self.chunk_h as int) * (CHUNK_WIDTH as int) && 0 <= x < cw * (CHUNK_WIDTH
            as int)) by (nonlinear_arith)
            requires
                0 <= cy < self.chunk_h as int,
                0 <= cx < cw,
                0 <= ly < 16,
                0 <= lx < 16,
                y == cy * 16 + ly,
                x == cx * 16 + lx,
        ;
        vstd::arithmetic::div_mod::lemma_fundamental_div_mod_converse(
            y,
            CHUNK_WIDTH as int,
            cy,
            ly,
        );
        vstd::arithmetic::div_mod::lemma_fundamental_div_mod_converse(
            x,
            CHUNK_WIDTH as int,
            cx,
            lx,
        );
        assert(self.rcell(y, x) == self.chunks@[cy * cw + cx].cell(ly, lx));
        self.lemma_rcell_pcell(y, x);
    }

    /// Looking up a valid cell lands in a valid tile, at the cell the view
    /// shows.
    proof fn lemma_lookup(&self, y: int, x: int)
        requires
            self.wf(),
            0 <= y < self.h as int,
            0 <= x < self.w as int,
        ensures
            0 <= y / (CHUNK_WIDTH as int) < self.chunk_h as int,
            0 <= x / (CHUNK_WIDTH as int) < self.chunk_w as int,
            0 <= (y / (CHUNK_WIDTH as int)) * (self.chunk_w as int) + x / (CHUNK_WIDTH as int)
                < self.chunks@.len(),
            0 <= y % (CHUNK_WIDTH as int) < CHUNK_WIDTH as int,
            0 <= x % (CHUNK_WIDTH as int) < CHUNK_WIDTH as int,
            self@[y][x] == self.rcell(y, x),
            (y / (CHUNK_WIDTH as int)) * (self.chunk_w as int) + x / (CHUNK_WIDTH as int)
                <= usize::MAX as int,
            (y / (CHUNK_WIDTH as int)) * CHUNK_WIDTH as int <= usize::MAX as int,
            (x / (CHUNK_WIDTH as int)) * CHUNK_WIDTH as int <= usize::MAX as int,
    {
        lemma_tile_of_cell(y, self.h as int);
        lemma_tile_of_cell(x, self.w as int);
        lemma_grid_cell_index(y, x, self.chunk_h as int, self.chunk_w as int);
        vstd::std_specs::vec::axiom_spec_len(&self.chunks);
        assert((self.chunk_h as int) * (self.chunk_w as int) <= usize::MAX as int);
    }
}

/// Folding one more cell adds it to the running total.
proof fn lemma_fold_add_push<S: Scalar>(s: Seq<S>, e: S)
    ensures
        fold_add(s.push(e)) == S::add_s(fold_add(s), e),
{
    assert(s.push(e).drop_last() =~= s);
    assert(s.push(e).last() == e);
}

/// Number of valid cells along one axis of tile `t`, computed executably.
fn valid_extent(n: usize, t: usize, ct: usize) -> (r: usize)
    requires
        1 <= n,
        ct as int == ceil_chunks(n as int),
        t < ct,
    ensures
        r as int == tile_extent(n as int, t as int),
        1 <= r <= CHUNK_WIDTH,
{
    proof {
        lemma_tile_start(n as int, t as int);
    }
    let start = t * CHUNK_WIDTH;
    let rem = n - start;
    if rem < CHUNK_WIDTH {
        rem
    } else {
        CHUNK_WIDTH
    }
}

/// A tile index below the covering count starts strictly inside the axis,
/// so every tile holds at least one valid cell.
pub proof fn lemma_tile_start(n: int, t: int)
    requires
        1 <= n,
        0 <= t < ceil_chunks(n),
    ensures
        0 <= t * (CHUNK_WIDTH as int) < n,
        1 <= tile_extent(n, t) <= CHUNK_WIDTH as int,
{
    lemma_ceil_chunks_bounds(n);
    assert(t * 16 <= (ceil_chunks(n) - 1) * 16) by (nonlinear_arith)
        requires
            t <= ceil_chunks(n) - 1,
            0 <= t,
    ;
}

/// A tile-local offset is valid exactly when the global cell index is.
pub proof fn lemma_local_extent(n: int, t: int, l: int)
    requires
        1 <= n,
        0 <= t < ceil_chunks(n),
        0 <= l < CHUNK_WIDTH as int,
    ensures
        (t * (CHUNK_WIDTH as int) + l < n) <==> (l < tile_extent(n, t)),
{
    lemma_tile_start(n, t);
}

/// Decomposition of a flat grid index into its row and column.
pub proof fn lemma_flat_decomp(c: int, ch: int, cw: int)
    requires
        1 <= ch,
        1 <= cw,
        0 <= c < ch * cw,
    ensures
        0 <= c / cw < ch,
        0 <= c % cw < cw,
        (c / cw) * cw + c % cw == c,
{
    assert(0 <= c / cw < ch && 0 <= c % cw < cw && (c / cw) * cw + c % cw == c) by (nonlinear_arith)
        requires
            1 <= ch,
            1 <= cw,
            0 <= c < ch * cw,
    ;
}

/// Building a flat grid index from a row and a column.
pub proof fn lemma_flat_build(cy: int, cx: int, ch: int, cw: int)
    requires
        1 <= ch,
        1 <= cw,
        0 <= cy < ch,
        0 <= cx < cw,
    ensures
        0 <= cy * cw + cx < ch * cw,
        (cy * cw + cx) / cw == cy,
        (cy * cw + cx) % cw == cx,
{
    assert(0 <= cy * cw + cx < ch * cw) by (nonlinear_arith)
        requires
            1 <= ch,
            1 <= cw,
            0 <= cy < ch,
            0 <= cx < cw,
    ;
    vstd::arithmetic::div_mod::lemma_fundamental_div_mod_converse(cy * cw + cx, cw, cy, cx);
}

/// The tile loop of the blocked multiply computes, step by step, the tile
/// slice of the dot product: each tile-local term is the padded-view term at
/// the corresponding global inner position.
proof fn lemma_chunk_dot_matches<S: Scalar>(
    a: Seq<Seq<S>>,
    b: Seq<Seq<S>>,
    left: MatrixChunk<S>,
    right: MatrixChunk<S>,
    y: int,
    x: int,
    ly: int,
    lx: int,
    k0: int,
    i: nat,
)
    requires
        i <= CHUNK_WIDTH as nat,
        forall|k: int|
            0 <= k < CHUNK_WIDTH as int ==> #[trigger] left.cell(ly, k) == pcell(a, y, k0 + k),
        forall|k: int|
            0 <= k < CHUNK_WIDTH as int ==> #[trigger] right.cell(k, lx) == pcell(b, k0 + k, x),
    ensures
        chunk_dot(left, right, ly, lx, i) == tile_dot(a, b, y, x, k0, i),
    decreases i,
{
    if i > 0 {
        lemma_chunk_dot_matches(a, b, left, right, y, x, ly, lx, k0, (i - 1) as nat);
    }
}

/// A row-major flat index stays inside the `h * w` cell range.
proof fn lemma_row_major_index(y: int, x: int, h: int, w: int)
    requires
        0 <= y < h,
        0 <= x < w,
    ensures
        0 <= y * w + x < h * w,
{
    assert(0 <= y * w + x < h * w) by (nonlinear_arith)
        requires
            0 <= y < h,
            0 <= x < w,
    ;
}

/// A cell index below `n` lies in a tile index below `ceil_chunks(n)`.
proof fn lemma_tile_of_cell(y: int, n: int)
    requires
        0 <= y < n,
    ensures
        0 <= y / (CHUNK_WIDTH as int) < ceil_chunks(n),
{
    assert(0 <= y / 16 && 16 * (y / 16) <= y) by (nonlinear_arith)
        requires
            y >= 0,
    ;
    assert(y / 16 <= (n - 1) / 16) by {
        vstd::arithmetic::div_mod::lemma_div_is_ordered(y, n - 1, 16);
    }
}

/// A tile coordinate inside an `H` by `W` tile grid gives a flat index
/// inside the grid.
proof fn lemma_grid_cell_index(y: int, x: int, ch: int, cw: int)
    requires
        1 <= ch,
        1 <= cw,
        0 <= y < ch * (CHUNK_WIDTH as int),
        0 <= x < cw * (CHUNK_WIDTH as int),
    ensures
        0 <= y / (CHUNK_WIDTH as int) < ch,
        0 <= x / (CHUNK_WIDTH as int) < cw,
        0 <= (y / (CHUNK_WIDTH as int)) * cw + x / (CHUNK_WIDTH as int) < ch * cw,
        0 <= y % (CHUNK_WIDTH as int) < CHUNK_WIDTH as int,
        0 <= x % (CHUNK_WIDTH as int) < CHUNK_WIDTH as int,
{
    assert(0 <= y / 16 < ch && 0 <= x / 16 < cw && 0 <= y % 16 < 16 && 0 <= x % 16
        < 16) by (nonlinear_arith)
        requires
            0 <= y < ch * 16,
            0 <= x < cw * 16,
            1 <= ch,
            1 <= cw,
    ;
    assert((y / 16) * cw + x / 16 < ch * cw) by (nonlinear_arith)
        requires
            0 <= y / 16 < ch,
            0 <= x / 16 < cw,
            1 <= cw,
    ;
}

/// Two grid cells in the same tile with the same local coordinates are the
/// same cell.
proof fn lemma_same_tile_same_cell(y0: int, x0: int, y1: int, x1: int, cw: int)
    requires
        0 <= y0,
        0 <= x0,
        0 <= y1,
        0 <= x1,
        1 <= cw,
        x0 / (CHUNK_WIDTH as int) < cw,
        x1 / (CHUNK_WIDTH as int) < cw,
        (y0 / (CHUNK_WIDTH as int)) * cw + x0 / (CHUNK_WIDTH as int) == (y1 / (CHUNK_WIDTH as int))
            * cw + x1 / (CHUNK_WIDTH as int),
        y0 % (CHUNK_WIDTH as int) == y1 % (CHUNK_WIDTH as int),
        x0 % (CHUNK_WIDTH as int) == x1 % (CHUNK_WIDTH as int),
    ensures
        y0 == y1,
        x0 == x1,
{
    assert(y0 / 16 == y1 / 16 && x0 / 16 == x1 / 16) by (nonlinear_arith)
        requires
            0 <= y0 / 16,
            0 <= y1 / 16,
            0 <= x0 / 16 < cw,
            0 <= x1 / 16 < cw,
            1 <= cw,
            (y0 / 16) * cw + x0 / 16 == (y1 / 16) * cw + x1 / 16,
    ;
    vstd::arithmetic::div_mod::lemma_fundamental_div_mod(y0, 16);
    vstd::arithmetic::div_mod::lemma_fundamental_div_mod(y1, 16);
    vstd::arithmetic::div_mod::lemma_fundamental_div_mod(x0, 16);
    vstd::arithmetic::div_mod::lemma_fundamental_div_mod(x1, 16);
}

/// The covering tile grid of a well-sized matrix is no larger than the
/// matrix itself.
proof fn lemma_chunk_cover(h: int, w: int)
    requires
        1 <= h,
        1 <= w,
        h * w <= usize::MAX as int,
    ensures
        1 <= ceil_chunks(h),
        1 <= ceil_chunks(w),
        ceil_chunks(h) <= h,
        ceil_chunks(w) <= w,
        ceil_chunks(h) * ceil_chunks(w) <= usize::MAX as int,
        h <= ceil_chunks(h) * (CHUNK_WIDTH as int),
        w <= ceil_chunks(w) * (CHUNK_WIDTH as int),
{
    lemma_ceil_chunks_bounds(h);
    lemma_ceil_chunks_bounds(w);
    assert(ceil_chunks(h) * ceil_chunks(w) <= h * w) by (nonlinear_arith)
        requires
            1 <= ceil_chunks(h) <= h,
            1 <= ceil_chunks(w) <= w,
    ;
}

pub proof fn lemma_ceil_chunks_bounds(n: int)
    requires
        1 <= n,
    ensures
        1 <= ceil_chunks(n) <= n,
        n <= ceil_chunks(n) * (CHUNK_WIDTH as int),
        (ceil_chunks(n) - 1) * (CHUNK_WIDTH as int) < n,
{
    let q = (n - 1) / 16;
    vstd::arithmetic::div_mod::lemma_fundamental_div_mod(n - 1, 16);
    assert(0 <= (n - 1) % 16 < 16) by {
        vstd::arithmetic::div_mod::lemma_mod_bound(n - 1, 16);
    }
    assert(q <= n - 1 && n <= (q + 1) * 16 && q * 16 < n) by (nonlinear_arith)
        requires
            n - 1 == 16 * q + (n - 1) % 16,
            0 <= (n - 1) % 16 < 16,
            n >= 1,
    ;
}

} // verus!
