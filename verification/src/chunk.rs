//! The fixed-size dense tile: the unit of storage and of the blocked
//! matrix-multiply kernel.
//!
//! A tile always holds `CHUNK_WIDTH * CHUNK_WIDTH` cells, row-major. Cells of
//! an edge tile that lie beyond the logical size of the enclosing matrix are
//! padding: the matrix layer keeps them at `Scalar::zero_s` and never reads
//! them as data.

use vstd::prelude::*;

use crate::scalar::Scalar;

verus! {

/// Width (and height) of every tile.
pub const CHUNK_WIDTH: usize = 16;

/// Number of cells in a tile.
pub const CHUNK_AREA: usize = 256;

/// A dense `CHUNK_WIDTH` by `CHUNK_WIDTH` tile.
pub struct MatrixChunk<S: Scalar> {
    data: Vec<S>,
}

/// One addend of a tile dot product: the product of a left-tile cell and a
/// right-tile cell at inner position `k`.
pub open spec fn chunk_term<S: Scalar>(a: MatrixChunk<S>, b: MatrixChunk<S>, y: int, x: int, k: int) -> S {
    S::mul_s(a.cell(y, k), b.cell(k, x))
}

/// The first `i` addends of the tile dot product at `(y, x)`, accumulated
/// left to right from zero, exactly as the kernel's inner loop runs.
pub open spec fn chunk_dot<S: Scalar>(a: MatrixChunk<S>, b: MatrixChunk<S>, y: int, x: int, i: nat) -> S
    decreases i,
{
    if i == 0 {
        S::zero_s()
    } else {
        S::add_s(chunk_dot(a, b, y, x, (i - 1) as nat), chunk_term(a, b, y, x, i - 1))
    }
}

impl<S: Scalar> MatrixChunk<S> {
    /// The tile's cells, row-major.
    pub closed spec fn view(&self) -> Seq<S> {
        self.data@
    }

    pub open spec fn wf(&self) -> bool {
        self.view().len() == CHUNK_AREA as int
    }

    /// The cell at tile coordinate `(y, x)`.
    pub open spec fn cell(&self, y: int, x: int) -> S {
        self.view()[y * CHUNK_WIDTH as int + x]
    }

    /// A fresh tile with every cell zero.
    pub fn new() -> (r: Self)
        ensures
            r.wf(),
            forall|y: int, x: int|
                0 <= y < CHUNK_WIDTH as int && 0 <= x < CHUNK_WIDTH as int ==> r.cell(y, x)
                    == S::zero_s(),
    {
        let z = S::zero();
        let mut data: Vec<S> = Vec::new();
        let mut i: usize = 0;
        while i < CHUNK_AREA
            invariant
                data@.len() == i as int,
                i <= CHUNK_AREA,
                forall|j: int| 0 <= j < i as int ==> data@[j] == S::zero_s(),
                z == S::zero_s(),
            decreases CHUNK_AREA - i,
        {
            data.push(z);
            i += 1;
        }
        let r = MatrixChunk { data };
        proof {
            assert forall|y: int, x: int|
                0 <= y < CHUNK_WIDTH as int && 0 <= x < CHUNK_WIDTH as int implies r.cell(y, x)
                == S::zero_s() by {
                assert(0 <= y * CHUNK_WIDTH as int + x < CHUNK_AREA as int) by (nonlinear_arith)
                    requires
                        0 <= y < 16,
                        0 <= x < 16,
                ;
            }
        }
        r
    }

    pub fn get(&self, y: usize, x: usize) -> (r: S)
        requires
            self.wf(),
            y < CHUNK_WIDTH,
            x < CHUNK_WIDTH,
        ensures
            r == self.cell(y as int, x as int),
    {
        proof {
            lemma_tile_index(y as int, x as int);
        }
        self.data[y * CHUNK_WIDTH + x]
    }

    pub fn set(&mut self, y: usize, x: usize, v: S)
        requires
            old(self).wf(),
            y < CHUNK_WIDTH,
            x < CHUNK_WIDTH,
        ensures
            final(self).wf(),
            final(self).cell(y as int, x as int) == v,
            forall|yy: int, xx: int|
                0 <= yy < CHUNK_WIDTH as int && 0 <= xx < CHUNK_WIDTH as int && !(yy == y as int
                    && xx == x as int) ==> final(self).cell(yy, xx) == old(self).cell(yy, xx),
    {
        proof {
            lemma_tile_index(y as int, x as int);
        }
        self.data.set(y * CHUNK_WIDTH + x, v);
        proof {
            assert forall|yy: int, xx: int|
                0 <= yy < CHUNK_WIDTH as int && 0 <= xx < CHUNK_WIDTH as int && !(yy == y as int
                    && xx == x as int) implies self.cell(yy, xx) == old(self).cell(yy, xx) by {
                lemma_tile_index(yy, xx);
                assert(yy * CHUNK_WIDTH as int + xx != y as int * CHUNK_WIDTH as int
                    + x as int) by (nonlinear_arith)
                    requires
                        0 <= yy < 16,
                        0 <= xx < 16,
                        0 <= y < 16,
                        0 <= x < 16,
                        !(yy == y as int && xx == x as int),
                ;
            }
        }
    }

    /// The transposed tile: cell `(y, x)` of the result is cell `(x, y)` of
    /// the input.
    pub fn transpose(&self) -> (r: Self)
        requires
            self.wf(),
        ensures
            r.wf(),
            forall|y: int, x: int|
                0 <= y < CHUNK_WIDTH as int && 0 <= x < CHUNK_WIDTH as int ==> r.cell(y, x)
                    == self.cell(x, y),
    {
        let mut r = Self::new();
        let mut y: usize = 0;
        while y < CHUNK_WIDTH
            invariant
                self.wf(),
                r.wf(),
                y <= CHUNK_WIDTH,
                forall|yy: int, xx: int|
                    0 <= yy < y as int && 0 <= xx < CHUNK_WIDTH as int ==> r.cell(yy, xx)
                        == self.cell(xx, yy),
            decreases CHUNK_WIDTH - y,
        {
            let mut x: usize = 0;
            while x < CHUNK_WIDTH
                invariant
                    self.wf(),
                    r.wf(),
                    y < CHUNK_WIDTH,
                    x <= CHUNK_WIDTH,
                    forall|yy: int, xx: int|
                        0 <= yy < y as int && 0 <= xx < CHUNK_WIDTH as int ==> r.cell(yy, xx)
                            == self.cell(xx, yy),
                    forall|xx: int|
                        0 <= xx < x as int ==> r.cell(y as int, xx) == self.cell(xx, y as int),
                decreases CHUNK_WIDTH - x,
            {
                let v = self.get(x, y);
                r.set(y, x, v);
                x += 1;
            }
            y += 1;
        }
        r
    }

    /// The dense tile product: cell `(y, x)` of the result is the dot product
    /// of row `y` of `self` and column `x` of `other`, accumulated left to
    /// right. This is the single primitive every larger multiply composes
    /// from.
    pub fn matmul(&self, other: &Self) -> (r: Self)
        requires
            self.wf(),
            other.wf(),
        ensures
            r.wf(),
            forall|y: int, x: int|
                0 <= y < CHUNK_WIDTH as int && 0 <= x < CHUNK_WIDTH as int ==> r.cell(y, x)
                    == chunk_dot(*self, *other, y, x, CHUNK_WIDTH as nat),
    {
        let mut r = Self::new();
        let mut y: usize = 0;
        while y < CHUNK_WIDTH
            invariant
                self.wf(),
                other.wf(),
                r.wf(),
                y <= CHUNK_WIDTH,
                forall|yy: int, xx: int|
                    0 <= yy < y as int && 0 <= xx < CHUNK_WIDTH as int ==> r.cell(yy, xx)
                        == chunk_dot(*self, *other, yy, xx, CHUNK_WIDTH as nat),
            decreases CHUNK_WIDTH - y,
        {
            let mut x: usize = 0;
            while x < CHUNK_WIDTH
                invariant
                    self.wf(),
                    other.wf(),
                    r.wf(),
                    y < CHUNK_WIDTH,
                    x <= CHUNK_WIDTH,
                    forall|yy: int, xx: int|
                        0 <= yy < y as int && 0 <= xx < CHUNK_WIDTH as int ==> r.cell(yy, xx)
                            == chunk_dot(*self, *other, yy, xx, CHUNK_WIDTH as nat),
                    forall|xx: int|
                        0 <= xx < x as int ==> r.cell(y as int, xx) == chunk_dot(
                            *self,
                            *other,
                            y as int,
                            xx,
                            CHUNK_WIDTH as nat,
                        ),
                decreases CHUNK_WIDTH - x,
            {
                let mut value = S::zero();
                let mut i: usize = 0;
                while i < CHUNK_WIDTH
                    invariant
                        self.wf(),
                        other.wf(),
                        y < CHUNK_WIDTH,
                        x < CHUNK_WIDTH,
                        i <= CHUNK_WIDTH,
                        value == chunk_dot(*self, *other, y as int, x as int, i as nat),
                    decreases CHUNK_WIDTH - i,
                {
                    let term = self.get(y, i).mul(other.get(i, x));
                    value = value.add(term);
                    i += 1;
                }
                r.set(y, x, value);
                x += 1;
            }
            y += 1;
        }
        r
    }

    /// Adds the other tile into this one, cell by cell; the accumulation step
    /// of the blocked multiply.
    pub fn add_assign(&mut self, other: &Self)
        requires
            old(self).wf(),
            other.wf(),
        ensures
            final(self).wf(),
            forall|y: int, x: int|
                0 <= y < CHUNK_WIDTH as int && 0 <= x < CHUNK_WIDTH as int ==> final(self).cell(y, x)
                    == S::add_s(old(self).cell(y, x), other.cell(y, x)),
    {
        let mut y: usize = 0;
        while y < CHUNK_WIDTH
            invariant
                self.wf(),
                other.wf(),
                y <= CHUNK_WIDTH,
                forall|yy: int, xx: int|
                    0 <= yy < y as int && 0 <= xx < CHUNK_WIDTH as int ==> self.cell(yy, xx)
                        == S::add_s(old(self).cell(yy, xx), other.cell(yy, xx)),
                forall|yy: int, xx: int|
                    y as int <= yy < CHUNK_WIDTH as int && 0 <= xx < CHUNK_WIDTH as int
                        ==> self.cell(yy, xx) == old(self).cell(yy, xx),
            decreases CHUNK_WIDTH - y,
        {
            let mut x: usize = 0;
            while x < CHUNK_WIDTH
                invariant
                    self.wf(),
                    other.wf(),
                    y < CHUNK_WIDTH,
                    x <= CHUNK_WIDTH,
                    forall|yy: int, xx: int|
                        0 <= yy < y as int && 0 <= xx < CHUNK_WIDTH as int ==> self.cell(yy, xx)
                            == S::add_s(old(self).cell(yy, xx), other.cell(yy, xx)),
                    forall|xx: int|
                        0 <= xx < x as int ==> self.cell(y as int, xx) == S::add_s(
                            old(self).cell(y as int, xx),
                            other.cell(y as int, xx),
                        ),
                    forall|xx: int|
                        x as int <= xx < CHUNK_WIDTH as int ==> self.cell(y as int, xx) == old(
                            self,
                        ).cell(y as int, xx),
                    forall|yy: int, xx: int|
                        (y as int) + 1 <= yy < CHUNK_WIDTH as int && 0 <= xx < CHUNK_WIDTH as int
                            ==> self.cell(yy, xx) == old(self).cell(yy, xx),
                decreases CHUNK_WIDTH - x,
            {
                let v = self.get(y, x).add(other.get(y, x));
                self.set(y, x, v);
                x += 1;
            }
            y += 1;
        }
    }

    /// Copies the tile, keeping only the cells inside the valid region and
    /// zeroing the rest; keeps edge tiles from carrying data in padding.
    pub fn clamped(&self, vh: usize, vw: usize) -> (r: Self)
        requires
            self.wf(),
            vh <= CHUNK_WIDTH,
            vw <= CHUNK_WIDTH,
        ensures
            r.wf(),
            forall|y: int, x: int|
                0 <= y < CHUNK_WIDTH as int && 0 <= x < CHUNK_WIDTH as int ==> r.cell(y, x) == (
                if y < vh as int && x < vw as int {
                    self.cell(y, x)
                } else {
                    S::zero_s()
                }),
    {
        let mut r = Self::new();
        let mut y: usize = 0;
        while y < vh
            invariant
                self.wf(),
                r.wf(),
                vh <= CHUNK_WIDTH,
                vw <= CHUNK_WIDTH,
                y <= vh,
                forall|yy: int, xx: int|
                    0 <= yy < CHUNK_WIDTH as int && 0 <= xx < CHUNK_WIDTH as int ==> r.cell(yy, xx)
                        == (if yy < y as int && xx < vw as int {
                        self.cell(yy, xx)
                    } else {
                        S::zero_s()
                    }),
            decreases vh - y,
        {
            let mut x: usize = 0;
            while x < vw
                invariant
                    self.wf(),
                    r.wf(),
                    vh <= CHUNK_WIDTH,
                    vw <= CHUNK_WIDTH,
                    y < vh,
                    x <= vw,
                    forall|yy: int, xx: int|
                        0 <= yy < CHUNK_WIDTH as int && 0 <= xx < CHUNK_WIDTH as int ==> r.cell(
                            yy,
                            xx,
                        ) == (if (yy < y as int && xx < vw as int) || (yy == y as int && xx
                            < x as int) {
                            self.cell(yy, xx)
                        } else {
                            S::zero_s()
                        }),
                decreases vw - x,
            {
                let v = self.get(y, x);
                r.set(y, x, v);
                x += 1;
            }
            y += 1;
        }
        r
    }
}

/// A tile coordinate's flat index stays inside the tile.
proof fn lemma_tile_index(y: int, x: int)
    requires
        0 <= y < CHUNK_WIDTH as int,
        0 <= x < CHUNK_WIDTH as int,
    ensures
        0 <= y * CHUNK_WIDTH as int + x < CHUNK_AREA as int,
{
    assert(0 <= y * 16 + x < 256) by (nonlinear_arith)
        requires
            0 <= y < 16,
            0 <= x < 16,
    ;
}

} // verus!
