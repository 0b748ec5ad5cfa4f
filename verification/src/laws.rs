//! The algebraic properties the library promises, as proof functions.
//!
//! Each law is stated over the specification functions that the executable
//! contracts use, so it transfers directly to the runtime behaviour of
//! `Matrix`, `Graph` and `Optimizer`. Laws that need algebraic facts about
//! the scalar type (commutativity of multiplication, an absorbing zero)
//! take them as hypotheses: the trait assumes nothing of its scalars.

use vstd::prelude::*;

use crate::graph::{
    back_step, back_sweep, madd, mfill, mmatmul, Graph, Op,
};
use crate::matrix::{
    block_dot, ceil_chunks, cols, dot_term, fold_add, is_grid, mtrans, pcell, reduce_seq, rows,
    tile_cells, tile_dot, tile_extent,
};
use crate::optim::{lemma_sgd_rule, mupdate, OptimFuncSGD};
use crate::scalar::Scalar;

verus! {

/// Transposing twice gives back the original grid, size and every element.
pub proof fn law_transpose_involution<S: Scalar>(v: Seq<Seq<S>>, h: int, w: int)
    requires
        is_grid(v, h, w),
        1 <= h,
        1 <= w,
    ensures
        mtrans(mtrans(v)) == v,
{
    assert(rows(mtrans(v)) == w && cols(mtrans(v)) == h);
    assert(mtrans(mtrans(v)) =~~= v);
}

/// A padded cell of the transpose is the swapped padded cell of the
/// original.
proof fn lemma_pcell_trans<S: Scalar>(v: Seq<Seq<S>>, h: int, w: int, y: int, x: int)
    requires
        is_grid(v, h, w),
        1 <= h,
        1 <= w,
    ensures
        pcell(mtrans(v), x, y) == pcell(v, y, x),
{
}

/// One tile slice of the dot product, commuted: the slice for the
/// transposed product equals the original slice termwise.
proof fn lemma_tile_dot_swap<S: Scalar>(
    a: Seq<Seq<S>>,
    b: Seq<Seq<S>>,
    m: int,
    n: int,
    p: int,
    y: int,
    x: int,
    k0: int,
    i: nat,
)
    requires
        is_grid(a, m, n),
        is_grid(b, n, p),
        1 <= m,
        1 <= n,
        1 <= p,
        mul_commutes::<S>(),
    ensures
        tile_dot(mtrans(b), mtrans(a), x, y, k0, i) == tile_dot(a, b, y, x, k0, i),
    decreases i,
{
    if i > 0 {
        lemma_tile_dot_swap(a, b, m, n, p, y, x, k0, (i - 1) as nat);
        let k = k0 + i - 1;
        lemma_pcell_trans(b, n, p, k, x);
        lemma_pcell_trans(a, m, n, y, k);
        assert(dot_term(mtrans(b), mtrans(a), x, y, k) == S::mul_s(
            pcell(b, k, x),
            pcell(a, y, k),
        ));
    }
}

/// The blocked dot products of a product and of the transposed product
/// agree, tile prefix by tile prefix.
proof fn lemma_block_dot_swap<S: Scalar>(
    a: Seq<Seq<S>>,
    b: Seq<Seq<S>>,
    m: int,
    n: int,
    p: int,
    y: int,
    x: int,
    t: nat,
)
    requires
        is_grid(a, m, n),
        is_grid(b, n, p),
        1 <= m,
        1 <= n,
        1 <= p,
        mul_commutes::<S>(),
    ensures
        block_dot(mtrans(b), mtrans(a), x, y, t) == block_dot(a, b, y, x, t),
    decreases t,
{
    if t > 0 {
        lemma_block_dot_swap(a, b, m, n, p, y, x, (t - 1) as nat);
        lemma_tile_dot_swap(
            a,
            b,
            m,
            n,
            p,
            y,
            x,
            crate::chunk::CHUNK_WIDTH as int * (t - 1),
            crate::chunk::CHUNK_WIDTH as nat,
        );
    }
}

/// The transpose of a product is the product of the transposes in the
/// other order, for any scalar whose multiplication commutes. The blocked
/// accumulation orders of the two sides line up tile by tile, so the
/// equality is exact, not merely up to reassociation.
pub proof fn law_matmul_transpose<S: Scalar>(
    a: Seq<Seq<S>>,
    b: Seq<Seq<S>>,
    m: int,
    n: int,
    p: int,
)
    requires
        is_grid(a, m, n),
        is_grid(b, n, p),
        1 <= m,
        1 <= n,
        1 <= p,
        mul_commutes::<S>(),
    ensures
        mtrans(mmatmul(a, b)) == mmatmul(mtrans(b), mtrans(a)),
{
    assert(rows(mmatmul(a, b)) == m && cols(mmatmul(a, b)) == p);
    assert(rows(mtrans(b)) == p && cols(mtrans(b)) == n);
    assert(rows(mtrans(a)) == n && cols(mtrans(a)) == m);
    assert forall|x: int, y: int| 0 <= x < p && 0 <= y < m implies mtrans(mmatmul(a, b))[x][y]
        == mmatmul(mtrans(b), mtrans(a))[x][y] by {
        lemma_block_dot_swap(a, b, m, n, p, y, x, ceil_chunks(n) as nat);
    }
    assert(mtrans(mmatmul(a, b)) =~~= mmatmul(mtrans(b), mtrans(a)));
}

/// Flattening the blocked accumulation: appending one more tile slice to a
/// prefix of the dot product extends the plain left fold.
proof fn lemma_dot_extend<S: Scalar>(
    a: Seq<Seq<S>>,
    b: Seq<Seq<S>>,
    y: int,
    x: int,
    k0: nat,
    i: nat,
)
    requires
        add_associates::<S>(),
        zero_neutral::<S>(),
    ensures
        S::add_s(tile_dot(a, b, y, x, 0, k0), tile_dot(a, b, y, x, k0 as int, i)) == tile_dot(
            a,
            b,
            y,
            x,
            0,
            (k0 + i) as nat,
        ),
    decreases i,
{
    if i == 0 {
        assert(S::add_s(tile_dot(a, b, y, x, 0, k0), S::zero_s()) == tile_dot(a, b, y, x, 0, k0));
    } else {
        lemma_dot_extend(a, b, y, x, k0, (i - 1) as nat);
        let prefix = tile_dot(a, b, y, x, 0, k0);
        let part = tile_dot(a, b, y, x, k0 as int, (i - 1) as nat);
        let term = dot_term(a, b, y, x, k0 + i - 1);
        assert(S::add_s(prefix, S::add_s(part, term)) == S::add_s(S::add_s(prefix, part), term));
    }
}

/// The blocked dot product, tiles and all, is one plain left fold over the
/// padded inner range.
proof fn lemma_block_dot_flat<S: Scalar>(a: Seq<Seq<S>>, b: Seq<Seq<S>>, y: int, x: int, t: nat)
    requires
        add_associates::<S>(),
        zero_neutral::<S>(),
    ensures
        block_dot(a, b, y, x, t) == tile_dot(a, b, y, x, 0, (t * 16) as nat),
    decreases t,
{
    if t == 0 {
    } else {
        lemma_block_dot_flat(a, b, y, x, (t - 1) as nat);
        assert((t - 1) * 16 + 16 == t * 16) by (nonlinear_arith);
        assert(0 <= (t - 1) * 16) by (nonlinear_arith)
            requires
                t >= 1,
        ;
        lemma_dot_extend(a, b, y, x, ((t - 1) * 16) as nat, 16);
        assert(crate::chunk::CHUNK_WIDTH as int * (t - 1) == (t - 1) * 16) by (nonlinear_arith);
    }
}

/// Terms beyond the shared inner dimension multiply two padding zeros and
/// drop out of the fold.
proof fn lemma_dot_truncate<S: Scalar>(
    a: Seq<Seq<S>>,
    b: Seq<Seq<S>>,
    m: int,
    n: int,
    p: int,
    y: int,
    x: int,
    kk: nat,
)
    requires
        add_associates::<S>(),
        zero_neutral::<S>(),
        S::mul_s(S::zero_s(), S::zero_s()) == S::zero_s(),
        is_grid(a, m, n),
        is_grid(b, n, p),
        n <= kk,
    ensures
        tile_dot(a, b, y, x, 0, kk) == tile_dot(a, b, y, x, 0, n as nat),
    decreases kk,
{
    if kk > n {
        let k = kk - 1;
        assert(pcell(a, y, k) == S::zero_s());
        assert(pcell(b, k, x) == S::zero_s());
        assert(dot_term(a, b, y, x, k) == S::zero_s());
        lemma_dot_truncate(a, b, m, n, p, y, x, (kk - 1) as nat);
    }
}

/// The blocked multiply computes the textbook matrix product: every cell
/// of the result is the plain left-to-right dot product of its row and
/// column, for any scalar whose addition is associative with a neutral
/// zero that is preserved by squaring. The tile structure of the kernel is
/// invisible in the value.
pub proof fn law_matmul_is_dot<S: Scalar>(
    a: Seq<Seq<S>>,
    b: Seq<Seq<S>>,
    m: int,
    n: int,
    p: int,
    y: int,
    x: int,
)
    requires
        add_associates::<S>(),
        zero_neutral::<S>(),
        S::mul_s(S::zero_s(), S::zero_s()) == S::zero_s(),
        is_grid(a, m, n),
        is_grid(b, n, p),
        1 <= m,
        1 <= n,
        1 <= p,
        0 <= y < m,
        0 <= x < p,
    ensures
        mmatmul(a, b)[y][x] == tile_dot(a, b, y, x, 0, n as nat),
{
    let t = ceil_chunks(n) as nat;
    assert(mmatmul(a, b)[y][x] == block_dot(a, b, y, x, t));
    lemma_block_dot_flat(a, b, y, x, t);
    crate::matrix::lemma_ceil_chunks_bounds(n);
    assert(n <= ceil_chunks(n) * 16);
    lemma_dot_truncate(a, b, m, n, p, y, x, (t * 16) as nat);
}

/// The pending-delta flow of one backward step does not depend on the
/// gradient state.
proof fn lemma_step_pend_independent<S: Scalar>(
    g: Graph<S>,
    pend: Seq<Option<Seq<Seq<S>>>>,
    grads1: Seq<Seq<Seq<S>>>,
    grads2: Seq<Seq<Seq<S>>>,
    i: int,
)
    ensures
        back_step(g, pend, grads1, i).0 == back_step(g, pend, grads2, i).0,
{
}

/// The deltas a backward sweep adds into node `j`'s accumulator, in the
/// order they arrive. They are a function of the graph and the pending
/// state alone, never of the gradients already stored.
pub open spec fn contribs<S: Scalar>(
    g: Graph<S>,
    pend: Seq<Option<Seq<Seq<S>>>>,
    i: int,
    j: int,
) -> Seq<Seq<Seq<S>>>
    decreases i + 1,
{
    if i < 0 {
        Seq::empty()
    } else {
        let here: Seq<Seq<Seq<S>>> = match pend[i] {
            Some(d) => match g.op_at(i) {
                Op::Variable => if i == j {
                    seq![d]
                } else {
                    Seq::empty()
                },
                _ => Seq::empty(),
            },
            None => Seq::empty(),
        };
        here + contribs(g, back_step(g, pend, Seq::empty(), i).0, i - 1, j)
    }
}

/// Folding a list of deltas into an accumulator, oldest first.
pub open spec fn madd_fold<S: Scalar>(base: Seq<Seq<S>>, ds: Seq<Seq<Seq<S>>>) -> Seq<Seq<S>> {
    ds.fold_left(base, |acc: Seq<Seq<S>>, d: Seq<Seq<S>>| madd(acc, d))
}

proof fn lemma_madd_fold_cons<S: Scalar>(base: Seq<Seq<S>>, d: Seq<Seq<S>>, ds: Seq<Seq<Seq<S>>>)
    ensures
        madd_fold(base, seq![d] + ds) == madd_fold(madd(base, d), ds),
    decreases ds.len(),
{
    if ds.len() == 0 {
        assert(seq![d] + ds =~= seq![d]);
        assert(seq![d].drop_last() =~= Seq::<Seq<Seq<S>>>::empty());
        assert(madd_fold(base, seq![d].drop_last()) == base);
        assert(madd_fold(base, seq![d]) == madd(madd_fold(base, seq![d].drop_last()), d));
        assert(madd_fold(madd(base, d), ds) == madd(base, d));
    } else {
        assert((seq![d] + ds).drop_last() =~= seq![d] + ds.drop_last());
        assert((seq![d] + ds).last() == ds.last());
        lemma_madd_fold_cons(base, d, ds.drop_last());
    }
}

/// A backward sweep only ever adds into an accumulator: node `j` ends with
/// its starting gradient as the left-most summand, followed by exactly the
/// deltas that reached it, in arrival order. Nothing is overwritten.
pub proof fn law_sweep_accumulates<S: Scalar>(
    g: Graph<S>,
    pend: Seq<Option<Seq<Seq<S>>>>,
    grads: Seq<Seq<Seq<S>>>,
    i: int,
    j: int,
)
    requires
        0 <= j < grads.len(),
        i < grads.len(),
    ensures
        back_sweep(g, pend, grads, i).1.len() == grads.len(),
        back_sweep(g, pend, grads, i).1[j] == madd_fold(grads[j], contribs(g, pend, i, j)),
    decreases i + 1,
{
    if i < 0 {
        assert(contribs(g, pend, i, j) =~= Seq::<Seq<Seq<S>>>::empty());
    } else {
        let st = back_step(g, pend, grads, i);
        assert(st.1.len() == grads.len());
        lemma_step_pend_independent(g, pend, grads, Seq::empty(), i);
        law_sweep_accumulates(g, st.0, st.1, i - 1, j);
        let is_v = (g.op_at(i) matches Op::Variable);
        match pend[i] {
            Some(d) => {
                if i == j && is_v {
                    assert(st.1[j] == madd(grads[j], d));
                    assert(contribs(g, pend, i, j) == seq![d] + contribs(g, st.0, i - 1, j));
                    lemma_madd_fold_cons(grads[j], d, contribs(g, st.0, i - 1, j));
                } else {
                    assert(st.1[j] == grads[j]);
                    assert(contribs(g, pend, i, j) =~= Seq::<Seq<Seq<S>>>::empty() + contribs(
                        g,
                        st.0,
                        i - 1,
                        j,
                    ));
                    assert(Seq::<Seq<Seq<S>>>::empty() + contribs(g, st.0, i - 1, j) =~= contribs(
                        g,
                        st.0,
                        i - 1,
                        j,
                    ));
                }
            },
            None => {
                assert(contribs(g, pend, i, j) =~= Seq::<Seq<Seq<S>>>::empty() + contribs(
                    g,
                    st.0,
                    i - 1,
                    j,
                ));
                assert(Seq::<Seq<Seq<S>>>::empty() + contribs(g, st.0, i - 1, j) =~= contribs(
                    g,
                    st.0,
                    i - 1,
                    j,
                ));
            },
        }
    }
}

/// Two backward passes through the same graph sum their contributions into
/// each variable's accumulator: the second pass extends the first pass's
/// result instead of overwriting it.
pub proof fn law_gradients_accumulate<S: Scalar>(
    g: Graph<S>,
    pend1: Seq<Option<Seq<Seq<S>>>>,
    pend2: Seq<Option<Seq<Seq<S>>>>,
    grads: Seq<Seq<Seq<S>>>,
    i: int,
    j: int,
)
    requires
        0 <= j < grads.len(),
        i < grads.len(),
    ensures
        back_sweep(g, pend2, back_sweep(g, pend1, grads, i).1, i).1[j] == madd_fold(
            madd_fold(grads[j], contribs(g, pend1, i, j)),
            contribs(g, pend2, i, j),
        ),
{
    law_sweep_accumulates(g, pend1, grads, i, j);
    law_sweep_accumulates(g, pend2, back_sweep(g, pend1, grads, i).1, i, j);
}

/// A backward sweep never touches the gradient slot of a node that is not
/// a variable; in particular a pass whose deltas reach only constants and
/// placeholders changes no state at all.
pub proof fn law_non_variable_grad_unchanged<S: Scalar>(
    g: Graph<S>,
    pend: Seq<Option<Seq<Seq<S>>>>,
    grads: Seq<Seq<Seq<S>>>,
    i: int,
    j: int,
)
    requires
        0 <= j < grads.len(),
        i < grads.len(),
        !(g.op_at(j) matches Op::Variable),
    ensures
        back_sweep(g, pend, grads, i).1.len() == grads.len(),
        back_sweep(g, pend, grads, i).1[j] == grads[j],
    decreases i + 1,
{
    if i >= 0 {
        let st = back_step(g, pend, grads, i);
        assert(st.1[j] == grads[j]);
        law_non_variable_grad_unchanged(g, st.0, st.1, i - 1, j);
    }
}

/// Scalar addition is commutative.
pub open spec fn add_commutes<S: Scalar>() -> bool {
    forall|a: S, b: S| #[trigger] S::add_s(a, b) == S::add_s(b, a)
}

/// Scalar multiplication is commutative.
pub open spec fn mul_commutes<S: Scalar>() -> bool {
    forall|a: S, b: S| #[trigger] S::mul_s(a, b) == S::mul_s(b, a)
}

/// Scalar addition is associative.
pub open spec fn add_associates<S: Scalar>() -> bool {
    forall|a: S, b: S, c: S|
        #[trigger] S::add_s(S::add_s(a, b), c) == S::add_s(a, S::add_s(b, c))
}

/// Zero is neutral for scalar addition on both sides.
pub open spec fn zero_neutral<S: Scalar>() -> bool {
    &&& (forall|a: S| #[trigger] S::add_s(S::zero_s(), a) == a)
    &&& (forall|a: S| #[trigger] S::add_s(a, S::zero_s()) == a)
}

/// The sum of the first `n` values of a formula, accumulated left to right
/// from zero.
pub open spec fn ssum<S: Scalar>(n: int, f: spec_fn(int) -> S) -> S
    decreases n,
{
    if n <= 0 {
        S::zero_s()
    } else {
        S::add_s(ssum(n - 1, f), f(n - 1))
    }
}

/// Two formulas that agree below `n` have the same sum.
proof fn lemma_ssum_congruent<S: Scalar>(n: int, f: spec_fn(int) -> S, g: spec_fn(int) -> S)
    requires
        forall|i: int| 0 <= i < n ==> #[trigger] f(i) == g(i),
    ensures
        ssum(n, f) == ssum(n, g),
    decreases n,
{
    if n > 0 {
        lemma_ssum_congruent(n - 1, f, g);
    }
}

/// Folding from a non-zero base prepends the base to the total.
proof fn lemma_fold_from_base<S: Scalar>(s: Seq<S>, b: S)
    requires
        add_associates::<S>(),
        zero_neutral::<S>(),
    ensures
        s.fold_left(b, |acc: S, v: S| S::add_s(acc, v)) == S::add_s(b, fold_add(s)),
    decreases s.len(),
{
    let f = |acc: S, v: S| S::add_s(acc, v);
    if s.len() == 0 {
        assert(S::add_s(b, S::zero_s()) == b);
    } else {
        lemma_fold_from_base(s.drop_last(), b);
        assert(fold_add(s) == S::add_s(fold_add(s.drop_last()), s.last()));
    }
}

/// Folding a concatenation folds the parts.
proof fn lemma_fold_add_concat<S: Scalar>(x: Seq<S>, y: Seq<S>)
    requires
        add_associates::<S>(),
        zero_neutral::<S>(),
    ensures
        fold_add(x + y) == S::add_s(fold_add(x), fold_add(y)),
{
    let f = |acc: S, v: S| S::add_s(acc, v);
    let s = x + y;
    s.lemma_fold_left_split(S::zero_s(), f, x.len() as int);
    assert(s.subrange(0, x.len() as int) =~= x);
    assert(s.subrange(x.len() as int, s.len() as int) =~= y);
    lemma_fold_from_base(y, fold_add(x));
}

/// The total of a flattened sequence of sequences is the sum of the parts'
/// totals, in order.
proof fn lemma_fold_flatten<S: Scalar>(ss: Seq<Seq<S>>)
    requires
        add_associates::<S>(),
        zero_neutral::<S>(),
    ensures
        fold_add(ss.flatten()) == ssum(ss.len() as int, |t: int| fold_add(ss[t])),
    decreases ss.len(),
{
    if ss.len() == 0 {
        assert(ss.flatten() =~= Seq::<S>::empty());
    } else {
        let prefix = ss.drop_last();
        lemma_fold_flatten(prefix);
        assert(ss =~= prefix.push(ss.last()));
        prefix.lemma_flatten_push(ss.last());
        assert(ss.flatten() == prefix.flatten() + ss.last());
        lemma_fold_add_concat(prefix.flatten(), ss.last());
        lemma_ssum_congruent(
            prefix.len() as int,
            |t: int| fold_add(prefix[t]),
            |t: int| fold_add(ss[t]),
        );
    }
}

/// A sum over a combined range splits at `m`.
proof fn lemma_ssum_split<S: Scalar>(m: int, n: int, f: spec_fn(int) -> S)
    requires
        add_associates::<S>(),
        zero_neutral::<S>(),
        0 <= m,
        0 <= n,
    ensures
        ssum(m + n, f) == S::add_s(ssum(m, f), ssum(n, |i: int| f(m + i))),
    decreases n,
{
    let sh = |i: int| f(m + i);
    if n == 0 {
        assert(S::add_s(ssum(m, f), S::zero_s()) == ssum(m, f));
    } else {
        lemma_ssum_split(m, n - 1, f);
        assert(sh(n - 1) == f(m + n - 1));
    }
}

/// A sum of zeros is zero.
proof fn lemma_ssum_zero<S: Scalar>(n: int, f: spec_fn(int) -> S)
    requires
        zero_neutral::<S>(),
        forall|i: int| 0 <= i < n ==> #[trigger] f(i) == S::zero_s(),
    ensures
        ssum(n, f) == S::zero_s(),
    decreases n,
{
    if n > 0 {
        lemma_ssum_zero(n - 1, f);
    }
}

/// Sums add pointwise.
proof fn lemma_ssum_pointwise_add<S: Scalar>(
    n: int,
    f: spec_fn(int) -> S,
    g: spec_fn(int) -> S,
    fg: spec_fn(int) -> S,
)
    requires
        add_commutes::<S>(),
        add_associates::<S>(),
        zero_neutral::<S>(),
        forall|i: int| 0 <= i < n ==> #[trigger] fg(i) == S::add_s(f(i), g(i)),
    ensures
        S::add_s(ssum(n, f), ssum(n, g)) == ssum(n, fg),
    decreases n,
{
    if n <= 0 {
        assert(S::add_s(S::zero_s(), S::zero_s()) == S::zero_s());
    } else {
        lemma_ssum_pointwise_add(n - 1, f, g, fg);
        let sf = ssum(n - 1, f);
        let sg = ssum(n - 1, g);
        let a = f(n - 1);
        let b = g(n - 1);
        assert(S::add_s(S::add_s(sf, a), S::add_s(sg, b)) == S::add_s(
            S::add_s(sf, sg),
            S::add_s(a, b),
        )) by {
            assert(S::add_s(S::add_s(sf, a), S::add_s(sg, b)) == S::add_s(
                sf,
                S::add_s(a, S::add_s(sg, b)),
            ));
            assert(S::add_s(a, S::add_s(sg, b)) == S::add_s(S::add_s(a, sg), b));
            assert(S::add_s(a, sg) == S::add_s(sg, a));
            assert(S::add_s(S::add_s(sg, a), b) == S::add_s(sg, S::add_s(a, b)));
            assert(S::add_s(sf, S::add_s(sg, S::add_s(a, b))) == S::add_s(
                S::add_s(sf, sg),
                S::add_s(a, b),
            ));
        }
    }
}

/// The total of one tile-wide slice of a row.
pub open spec fn row_slice_sum<S: Scalar>(v: Seq<Seq<S>>, w: int, y: int, tx: int) -> S {
    fold_add(row_slice(v, w, y, tx))
}

/// The slice totals of a band of rows can be summed tile column by tile
/// column or row by row: a double sum over a rectangle swaps its nesting.
proof fn lemma_swap_band<S: Scalar>(v: Seq<Seq<S>>, w: int, ty: int, m: int, n: int)
    requires
        add_commutes::<S>(),
        add_associates::<S>(),
        zero_neutral::<S>(),
    ensures
        ssum(m, |tx: int| ssum(n, |ly: int| row_slice_sum(v, w, ty * 16 + ly, tx))) == ssum(
            n,
            |ly: int| ssum(m, |tx: int| row_slice_sum(v, w, ty * 16 + ly, tx)),
        ),
    decreases m,
{
    if m <= 0 {
        lemma_ssum_zero(n, |ly: int| ssum(m, |tx: int| row_slice_sum(v, w, ty * 16 + ly, tx)));
    } else {
        lemma_swap_band(v, w, ty, m - 1, n);
        lemma_ssum_pointwise_add(
            n,
            |ly: int| ssum(m - 1, |tx: int| row_slice_sum(v, w, ty * 16 + ly, tx)),
            |ly: int| row_slice_sum(v, w, ty * 16 + ly, m - 1),
            |ly: int| ssum(m, |tx: int| row_slice_sum(v, w, ty * 16 + ly, tx)),
        );
    }
}

/// One tile-wide slice of row `y`: the cells of that row lying in tile
/// column `tx`.
pub open spec fn row_slice<S>(v: Seq<Seq<S>>, w: int, y: int, tx: int) -> Seq<S> {
    v[y].subrange(
        tx * (crate::chunk::CHUNK_WIDTH as int),
        tx * (crate::chunk::CHUNK_WIDTH as int) + crate::matrix::tile_extent(w, tx),
    )
}

/// The start of tile `t` along an axis of `n` cells, clamped to `n`.
pub open spec fn tile_start(n: int, t: int) -> int {
    if t * (crate::chunk::CHUNK_WIDTH as int) < n {
        t * (crate::chunk::CHUNK_WIDTH as int)
    } else {
        n
    }
}

/// Tile starts partition an axis: each tile begins where the previous one
/// ends.
proof fn lemma_tile_start_step(n: int, t: int)
    requires
        1 <= n,
        1 <= t <= ceil_chunks(n),
    ensures
        tile_start(n, t) == tile_start(n, t - 1) + tile_extent(n, t - 1),
        0 <= tile_start(n, t - 1),
        1 <= tile_extent(n, t - 1),
{
    crate::matrix::lemma_tile_start(n, t - 1);
    crate::matrix::lemma_ceil_chunks_bounds(n);
    if t < ceil_chunks(n) {
        crate::matrix::lemma_tile_start(n, t);
        assert(tile_start(n, t) == t * 16);
        assert((t - 1) * 16 + 16 == t * 16) by (nonlinear_arith);
        assert(n - (t - 1) * 16 >= 16);
    } else {
        assert(t * 16 >= n) by {
            assert(ceil_chunks(n) * 16 >= n);
            assert(t * 16 >= ceil_chunks(n) * 16) by (nonlinear_arith)
                requires
                    t >= ceil_chunks(n),
            ;
        }
        assert((t - 1) * 16 + 16 == t * 16) by (nonlinear_arith);
    }
}

/// The total of one row equals the sum of its tile-wide slices, in tile
/// order: a prefix induction along the row.
proof fn lemma_row_split_upto<S: Scalar>(v: Seq<Seq<S>>, h: int, w: int, y: int, t: int)
    requires
        add_associates::<S>(),
        zero_neutral::<S>(),
        is_grid(v, h, w),
        1 <= h,
        1 <= w,
        0 <= y < h,
        0 <= t <= ceil_chunks(w),
    ensures
        fold_add(v[y].subrange(0, tile_start(w, t))) == ssum(
            t,
            |tx: int| fold_add(row_slice(v, w, y, tx)),
        ),
    decreases t,
{
    if t == 0 {
        assert(v[y].subrange(0, 0) =~= Seq::<S>::empty());
    } else {
        lemma_row_split_upto(v, h, w, y, t - 1);
        lemma_tile_start_step(w, t);
        let prefix = v[y].subrange(0, tile_start(w, t - 1));
        let piece = row_slice(v, w, y, t - 1);
        assert(v[y].subrange(0, tile_start(w, t)) =~= prefix + piece);
        lemma_fold_add_concat(prefix, piece);
    }
}

/// The valid cells of one tile total to the sum of its row slices.
proof fn lemma_tile_cells_split<S: Scalar>(v: Seq<Seq<S>>, h: int, w: int, ty: int, tx: int, t: int)
    requires
        add_associates::<S>(),
        zero_neutral::<S>(),
        is_grid(v, h, w),
        1 <= h,
        1 <= w,
        0 <= ty < ceil_chunks(h),
        0 <= tx < ceil_chunks(w),
        0 <= t <= tile_extent(h, ty),
    ensures
        fold_add(
            tile_cells(v, h, w, ty, tx).subrange(0, t * tile_extent(w, tx)),
        ) == ssum(t, |ly: int| fold_add(row_slice(v, w, ty * 16 + ly, tx))),
    decreases t,
{
    let vh = tile_extent(h, ty);
    let vw = tile_extent(w, tx);
    crate::matrix::lemma_tile_start(h, ty);
    crate::matrix::lemma_tile_start(w, tx);
    if t == 0 {
        assert(t * tile_extent(w, tx) == 0) by (nonlinear_arith)
            requires
                t == 0,
        ;
        assert(tile_cells(v, h, w, ty, tx).subrange(0, 0) =~= Seq::<S>::empty());
    } else {
        lemma_tile_cells_split(v, h, w, ty, tx, t - 1);
        let cells = tile_cells(v, h, w, ty, tx);
        let y = ty * 16 + t - 1;
        crate::matrix::lemma_local_extent(h, ty, t - 1);
        assert(y < h);
        let piece = row_slice(v, w, y, tx);
        assert(piece.len() == vw);
        assert(t * vw == (t - 1) * vw + vw) by (nonlinear_arith);
        assert(0 <= (t - 1) * vw && t * vw <= vh * vw) by (nonlinear_arith)
            requires
                0 <= t - 1,
                t <= vh,
                1 <= vw,
        ;
        assert forall|r: int| 0 <= r < vw implies cells[(t - 1) * vw + r] == piece[r] by {
            let k = (t - 1) * vw + r;
            vstd::arithmetic::div_mod::lemma_fundamental_div_mod_converse(k, vw, t - 1, r);
            assert(cells[k] == v[ty * 16 + k / vw][tx * 16 + k % vw]);
            assert(piece[r] == v[y][tx * 16 + r]);
        }
        assert(cells.subrange(0, t * vw) =~= cells.subrange(0, (t - 1) * vw) + piece);
        lemma_fold_add_concat(cells.subrange(0, (t - 1) * vw), piece);
        assert(fold_add(cells.subrange(0, t * vw)) == S::add_s(
            fold_add(cells.subrange(0, (t - 1) * vw)),
            fold_add(piece),
        ));
        assert(fold_add(cells.subrange(0, (t - 1) * vw)) == ssum(
            t - 1,
            |ly: int| fold_add(row_slice(v, w, ty * 16 + ly, tx)),
        ));
        assert(piece == row_slice(v, w, ty * 16 + (t - 1), tx));
        assert(ssum(t, |ly: int| fold_add(row_slice(v, w, ty * 16 + ly, tx))) == S::add_s(
            ssum(t - 1, |ly: int| fold_add(row_slice(v, w, ty * 16 + ly, tx))),
            fold_add(row_slice(v, w, ty * 16 + (t - 1), tx)),
        ));
    }
}

/// A sum over a flattened rectangular index range, regrouped row by row.
proof fn lemma_ssum_grid<S: Scalar>(
    m: int,
    n: int,
    f: spec_fn(int) -> S,
    g2: spec_fn(int, int) -> S,
)
    requires
        add_associates::<S>(),
        zero_neutral::<S>(),
        0 <= m,
        1 <= n,
        forall|i: int, j: int| 0 <= i < m && 0 <= j < n ==> #[trigger] g2(i, j) == f(i * n + j),
    ensures
        ssum(m * n, f) == ssum(m, |i: int| ssum(n, |j: int| g2(i, j))),
    decreases m,
{
    if m == 0 {
        assert(m * n == 0) by (nonlinear_arith)
            requires
                m == 0,
        ;
    } else {
        lemma_ssum_grid(m - 1, n, f, g2);
        assert((m - 1) * n + n == m * n) by (nonlinear_arith);
        assert(0 <= (m - 1) * n) by (nonlinear_arith)
            requires
                0 <= m - 1,
                1 <= n,
        ;
        lemma_ssum_split((m - 1) * n, n, f);
        lemma_ssum_congruent(n, |j: int| f((m - 1) * n + j), |j: int| g2(m - 1, j));
    }
}

/// A sum over an axis, regrouped into its tile bands.
proof fn lemma_ssum_bands<S: Scalar>(n: int, t: int, f: spec_fn(int) -> S, g2: spec_fn(int, int) -> S)
    requires
        add_associates::<S>(),
        zero_neutral::<S>(),
        1 <= n,
        0 <= t <= ceil_chunks(n),
        forall|ty: int, ly: int|
            0 <= ty < ceil_chunks(n) && 0 <= ly < tile_extent(n, ty) ==> #[trigger] g2(ty, ly)
                == f(ty * 16 + ly),
    ensures
        ssum(tile_start(n, t), f) == ssum(
            t,
            |ty: int| ssum(tile_extent(n, ty), |ly: int| g2(ty, ly)),
        ),
    decreases t,
{
    if t == 0 {
        assert(tile_start(n, 0) == 0);
    } else {
        lemma_ssum_bands(n, t - 1, f, g2);
        lemma_tile_start_step(n, t);
        lemma_ssum_split(tile_start(n, t - 1), tile_extent(n, t - 1), f);
        crate::matrix::lemma_tile_start(n, t - 1);
        lemma_ssum_congruent(
            tile_extent(n, t - 1),
            |ly: int| f(tile_start(n, t - 1) + ly),
            |ly: int| g2(t - 1, ly),
        );
    }
}

/// The reduction visits every logical cell exactly once: when scalar
/// addition is commutative and associative with a neutral zero, the
/// tile-ordered total that `sum` computes equals the plain row-major total
/// of all logical elements. This is what makes the clamping of edge tiles
/// observable: padding cells never enter either side.
#[verifier::rlimit(100)]
#[verifier::spinoff_prover]
pub proof fn law_sum_counts_every_cell<S: Scalar>(v: Seq<Seq<S>>, h: int, w: int)
    requires
        add_commutes::<S>(),
        add_associates::<S>(),
        zero_neutral::<S>(),
        is_grid(v, h, w),
        1 <= h,
        1 <= w,
    ensures
        fold_add(reduce_seq(v, h, w)) == fold_add(v.flatten()),
{
    let nth = ceil_chunks(h);
    let ntw = ceil_chunks(w);
    crate::matrix::lemma_ceil_chunks_bounds(h);
    crate::matrix::lemma_ceil_chunks_bounds(w);

    // The tile-ordered side: tiles, then rows within each tile.
    let tiles = Seq::new(
        (nth * ntw) as nat,
        |t: int| tile_cells(v, h, w, t / ntw, t % ntw),
    );
    assert(0 <= nth * ntw) by (nonlinear_arith)
        requires
            1 <= nth,
            1 <= ntw,
    ;
    lemma_fold_flatten(tiles);
    assert(fold_add(reduce_seq(v, h, w)) == ssum(nth * ntw, |t: int| fold_add(tiles[t])));
    let per_tile = |ty: int, tx: int| fold_add(tile_cells(v, h, w, ty, tx));
    assert forall|t: int| 0 <= t < nth * ntw implies #[trigger] fold_add(tiles[t]) == per_tile(
        t / ntw,
        t % ntw,
    ) by {
        crate::matrix::lemma_flat_decomp(t, nth, ntw);
    }
    lemma_ssum_congruent(
        nth * ntw,
        |t: int| fold_add(tiles[t]),
        |t: int| per_tile(t / ntw, t % ntw),
    );
    assert forall|ty: int, tx: int|
        0 <= ty < nth && 0 <= tx < ntw implies #[trigger] per_tile(ty, tx) == (
    |t: int| fold_add(tiles[t]))(ty * ntw + tx) by {
        crate::matrix::lemma_flat_build(ty, tx, nth, ntw);
    }
    lemma_ssum_grid(nth, ntw, |t: int| fold_add(tiles[t]), per_tile);
    assert(fold_add(reduce_seq(v, h, w)) == ssum(
        nth,
        |ty: int| ssum(ntw, |tx: int| per_tile(ty, tx)),
    ));

    // Each tile's total is the sum of its row-slice totals, and those can
    // be regrouped row by row.
    assert forall|ty: int| 0 <= ty < nth implies ssum(ntw, |tx: int| per_tile(ty, tx)) == ssum(
        tile_extent(h, ty),
        |ly: int| ssum(ntw, |tx: int| row_slice_sum(v, w, ty * 16 + ly, tx)),
    ) by {
        let vh = tile_extent(h, ty);
        crate::matrix::lemma_tile_start(h, ty);
        assert forall|tx: int| 0 <= tx < ntw implies #[trigger] per_tile(ty, tx) == ssum(
            vh,
            |ly: int| row_slice_sum(v, w, ty * 16 + ly, tx),
        ) by {
            let vw = tile_extent(w, tx);
            crate::matrix::lemma_tile_start(w, tx);
            lemma_tile_cells_split(v, h, w, ty, tx, vh);
            assert(tile_cells(v, h, w, ty, tx).subrange(0, vh * vw) =~= tile_cells(
                v,
                h,
                w,
                ty,
                tx,
            ));
            lemma_ssum_congruent(
                vh,
                |ly: int| fold_add(row_slice(v, w, ty * 16 + ly, tx)),
                |ly: int| row_slice_sum(v, w, ty * 16 + ly, tx),
            );
        }
        lemma_ssum_congruent(
            ntw,
            |tx: int| per_tile(ty, tx),
            |tx: int| ssum(vh, |ly: int| row_slice_sum(v, w, ty * 16 + ly, tx)),
        );
        lemma_swap_band(v, w, ty, ntw, vh);
    }
    lemma_ssum_congruent(
        nth,
        |ty: int| ssum(ntw, |tx: int| per_tile(ty, tx)),
        |ty: int|
            ssum(
                tile_extent(h, ty),
                |ly: int| ssum(ntw, |tx: int| row_slice_sum(v, w, ty * 16 + ly, tx)),
            ),
    );

    // The row-major side: rows, each split into its tile-wide slices.
    lemma_fold_flatten(v);
    assert(fold_add(v.flatten()) == ssum(h as int, |y: int| fold_add(v[y])));
    let per_row = |y: int| ssum(ntw, |tx: int| row_slice_sum(v, w, y, tx));
    assert forall|y: int| 0 <= y < h implies #[trigger] fold_add(v[y]) == per_row(y) by {
        lemma_row_split_upto(v, h, w, y, ntw);
        assert(tile_start(w, ntw) == w);
        assert(v[y].subrange(0, w) =~= v[y]);
        lemma_ssum_congruent(
            ntw,
            |tx: int| fold_add(row_slice(v, w, y, tx)),
            |tx: int| row_slice_sum(v, w, y, tx),
        );
    }
    lemma_ssum_congruent(h, |y: int| fold_add(v[y]), per_row);

    // Regroup the rows into tile bands.
    assert(tile_start(h, nth) == h);
    lemma_ssum_bands(h, nth, per_row, |ty: int, ly: int| per_row(ty * 16 + ly));
    assert forall|ty: int| 0 <= ty < nth implies ssum(
        #[trigger] tile_extent(h, ty),
        |ly: int| (|ty2: int, ly2: int| per_row(ty2 * 16 + ly2))(ty, ly),
    ) == ssum(
        tile_extent(h, ty),
        |ly: int| ssum(ntw, |tx: int| row_slice_sum(v, w, ty * 16 + ly, tx)),
    ) by {
        lemma_ssum_congruent(
            tile_extent(h, ty),
            |ly: int| (|ty2: int, ly2: int| per_row(ty2 * 16 + ly2))(ty, ly),
            |ly: int| ssum(ntw, |tx: int| row_slice_sum(v, w, ty * 16 + ly, tx)),
        );
    }
    lemma_ssum_congruent(
        nth,
        |ty: int|
            ssum(
                tile_extent(h, ty),
                |ly: int| (|ty2: int, ly2: int| per_row(ty2 * 16 + ly2))(ty, ly),
            ),
        |ty: int|
            ssum(
                tile_extent(h, ty),
                |ly: int| ssum(ntw, |tx: int| row_slice_sum(v, w, ty * 16 + ly, tx)),
            ),
    );
}

/// The crate's own scalar satisfies every algebraic hypothesis the laws
/// above take: wrapping addition on `i64` is commutative and associative
/// with zero as its unit, wrapping multiplication commutes, and the
/// stochastic-gradient rule is the identity against a zero gradient.
pub proof fn lemma_i64_scalar_laws()
    ensures
        add_commutes::<i64>(),
        add_associates::<i64>(),
        zero_neutral::<i64>(),
        mul_commutes::<i64>(),
        <i64 as Scalar>::mul_s(<i64 as Scalar>::zero_s(), <i64 as Scalar>::zero_s())
            == <i64 as Scalar>::zero_s(),
        forall|a: i64, lr: i64|
            #[trigger] <i64 as Scalar>::sub_s(
                a,
                <i64 as Scalar>::mul_s(lr, <i64 as Scalar>::zero_s()),
            ) == a,
{
    assert forall|u: i64, w: i64| #[trigger] <i64 as Scalar>::mul_s(u, w) == <i64 as Scalar>::mul_s(
        w,
        u,
    ) by {
        assert(u * w == w * u) by (nonlinear_arith);
    }
    assert forall|a: i64, lr: i64| #[trigger] <i64 as Scalar>::sub_s(
        a,
        <i64 as Scalar>::mul_s(lr, <i64 as Scalar>::zero_s()),
    ) == a by {
        assert(lr * 0 == 0) by (nonlinear_arith);
    }
}

/// One stochastic-gradient step writes `value - lr * grad` into every cell.
pub proof fn law_sgd_step_cell<S: Scalar>(
    f: OptimFuncSGD<S>,
    v: Seq<Seq<S>>,
    gr: Seq<Seq<S>>,
    y: int,
    x: int,
)
    requires
        0 <= y < rows(v),
        0 <= x < cols(v),
    ensures
        mupdate(f, v, gr)[y][x] == S::sub_s(v[y][x], S::mul_s(f.lr_s(), gr[y][x])),
{
    lemma_sgd_rule(f, v[y][x], gr[y][x]);
}

/// A repeated stochastic-gradient step with no new backward pass is a
/// no-op: against the zero gradient the step leaves, the rule returns each
/// value unchanged, for any scalar where subtracting `lr` times zero is the
/// identity.
pub proof fn law_sgd_step_idempotent<S: Scalar>(f: OptimFuncSGD<S>, v: Seq<Seq<S>>, h: int, w: int)
    requires
        is_grid(v, h, w),
        forall|a: S| #[trigger] S::sub_s(a, S::mul_s(f.lr_s(), S::zero_s())) == a,
    ensures
        mupdate(f, v, mfill(h, w, S::zero_s())) == v,
{
    assert forall|y: int, x: int| 0 <= y < h && 0 <= x < w implies mupdate(
        f,
        v,
        mfill(h, w, S::zero_s()),
    )[y][x] == v[y][x] by {
        lemma_sgd_rule(f, v[y][x], S::zero_s());
    }
    assert(mupdate(f, v, mfill(h, w, S::zero_s())) =~~= v);
}

} // verus!
