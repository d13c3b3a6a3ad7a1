//! Blocks of samples, and machines that turn one stream of samples into another.

use vstd::prelude::*;
use crate::arith::{exprs, Arith, Expr, Scalar};

verus! {

/// Largest block the planar kernels process in one call; longer runs are chunked.
pub const MAX_BLOCK: usize = 1024;

/// The samples of every row at time `t` of a planar block, in which row `c` holds
/// its `n` samples from `c * n` on.
pub open spec fn column<N>(block: Seq<Expr<N>>, rows: nat, n: nat, t: int) -> Seq<Expr<N>> {
    Seq::new(rows, |c: int| block[c * n + t])
}

/// The columns of a planar block of `n` samples.
pub open spec fn columns<N>(block: Seq<Expr<N>>, rows: nat, n: nat) -> Seq<Seq<Expr<N>>> {
    Seq::new(n, |t: int| column(block, rows, n, t))
}

/// `a + b`, element by element.
pub open spec fn added<N>(a: Seq<Expr<N>>, b: Seq<Expr<N>>) -> Seq<Expr<N>> {
    Seq::new(a.len(), |i: int| a[i].plus(b[i]))
}

/// `scale * a`, element by element.
pub open spec fn scaled<N>(scale: Expr<N>, a: Seq<Expr<N>>) -> Seq<Expr<N>> {
    Seq::new(a.len(), |i: int| scale.times(a[i]))
}

/// `rows` rows of silence.
pub open spec fn silence<N>(rows: nat) -> Seq<Expr<N>> {
    Seq::new(rows, |i: int| Expr::Zero)
}

/// The expressions of samples handed in from outside.
pub open spec fn inputs<N>(io: Seq<N>) -> Seq<Expr<N>> {
    Seq::new(io.len(), |t: int| Expr::Input(io[t]))
}

/// Something that answers each input with an output and moves on to a next state.
pub trait Machine<I, O>: Sized {
    /// The next state and the output.
    spec fn step(self, x: I) -> (Self, O);
}

/// The state reached and the outputs given when `m` is fed `xs` one after another.
pub open spec fn run<I, O, M: Machine<I, O>>(m: M, xs: Seq<I>) -> (M, Seq<O>)
    decreases xs.len(),
{
    if xs.len() == 0 {
        (m, Seq::empty())
    } else {
        let before = run::<I, O, M>(m, xs.drop_last());
        let last = before.0.step(xs.last());
        (last.0, before.1.push(last.1))
    }
}

/// A run gives one output for each input.
pub proof fn lemma_run_len<I, O, M: Machine<I, O>>(m: M, xs: Seq<I>)
    ensures
        run::<I, O, M>(m, xs).1.len() == xs.len(),
    decreases xs.len(),
{
    if xs.len() > 0 {
        lemma_run_len::<I, O, M>(m, xs.drop_last());
    }
}

/// The output at time `t` is the answer to `xs[t]` of the state that the earlier
/// inputs lead to; later inputs have no part in it.
pub proof fn lemma_run_at<I, O, M: Machine<I, O>>(m: M, xs: Seq<I>, t: int)
    requires
        0 <= t < xs.len(),
    ensures
        run::<I, O, M>(m, xs).1.len() == xs.len(),
        run::<I, O, M>(m, xs).1[t] == run::<I, O, M>(m, xs.take(t)).0.step(xs[t]).1,
        run::<I, O, M>(m, xs.take(t + 1)).0 == run::<I, O, M>(m, xs.take(t)).0.step(xs[t]).0,
    decreases xs.len(),
{
    lemma_run_len::<I, O, M>(m, xs);
    lemma_run_len::<I, O, M>(m, xs.drop_last());
    assert(xs.take(t + 1).drop_last() =~= xs.take(t));
    assert(xs.take(t + 1).last() == xs[t]);
    if t == xs.len() - 1 {
        assert(xs.drop_last() =~= xs.take(t));
    } else {
        lemma_run_at::<I, O, M>(m, xs.drop_last(), t);
        assert(xs.drop_last().take(t) =~= xs.take(t));
    }
}

/// A stream may be fed in pieces: running over `xs` and then, from the state
/// reached, over `ys` is the same as running over both at once.
pub proof fn lemma_run_concat<I, O, M: Machine<I, O>>(m: M, xs: Seq<I>, ys: Seq<I>)
    ensures
        run::<I, O, M>(m, xs + ys).0 == run::<I, O, M>(run::<I, O, M>(m, xs).0, ys).0,
        run::<I, O, M>(m, xs + ys).1 == run::<I, O, M>(m, xs).1 + run::<I, O, M>(
            run::<I, O, M>(m, xs).0,
            ys,
        ).1,
    decreases ys.len(),
{
    if ys.len() == 0 {
        assert(xs + ys =~= xs);
        assert(run::<I, O, M>(m, xs).1 + Seq::<O>::empty() =~= run::<I, O, M>(m, xs).1);
    } else {
        lemma_run_concat::<I, O, M>(m, xs, ys.drop_last());
        assert((xs + ys).drop_last() =~= xs + ys.drop_last());
        assert((xs + ys).last() == ys.last());
        let a = run::<I, O, M>(m, xs);
        let b = run::<I, O, M>(a.0, ys.drop_last());
        let y = b.0.step(ys.last()).1;
        assert((a.1 + b.1).push(y) =~= a.1 + b.1.push(y));
    }
}

/// The outputs up to some time are those of the run up to that time.
pub proof fn lemma_run_prefix<I, O, M: Machine<I, O>>(m: M, xs: Seq<I>, k: int)
    requires
        0 <= k <= xs.len(),
    ensures
        run::<I, O, M>(m, xs).1.len() == xs.len(),
        run::<I, O, M>(m, xs.take(k)).1.len() == k,
        run::<I, O, M>(m, xs).1.take(k) == run::<I, O, M>(m, xs.take(k)).1,
{
    assert(xs.take(k) + xs.skip(k) =~= xs);
    lemma_run_concat::<I, O, M>(m, xs.take(k), xs.skip(k));
    lemma_run_len::<I, O, M>(m, xs);
    lemma_run_len::<I, O, M>(m, xs.take(k));
    assert(run::<I, O, M>(m, xs).1.take(k) =~= run::<I, O, M>(m, xs.take(k)).1);
}

/// Where row `c` and time `t` lie in a planar block.
pub proof fn lemma_planar(rows: int, n: int, c: int, t: int)
    requires
        0 <= c < rows,
        0 <= t < n,
    ensures
        0 <= c * n,
        0 <= c * n + t < rows * n,
        c * n + n <= rows * n,
{
    assert(0 <= c * n && c * n + n <= rows * n) by (nonlinear_arith)
        requires
            0 <= c < rows,
            0 < n,
    ;
}

/// Where row `c` of a planar block begins and ends.
pub proof fn lemma_row(rows: int, n: int, c: int)
    requires
        0 <= c < rows,
        0 <= n,
    ensures
        0 <= c * n,
        c * n + n <= rows * n,
{
    assert(0 <= c * n && c * n + n <= rows * n) by (nonlinear_arith)
        requires
            0 <= c < rows,
            0 <= n,
    ;
}

/// A block of at most [`MAX_BLOCK`] samples fits where a whole one does.
pub proof fn lemma_block_len(rows: int, n: int)
    requires
        0 <= rows,
        0 <= n <= MAX_BLOCK,
    ensures
        0 <= rows * n <= rows * MAX_BLOCK,
{
    assert(0 <= rows * n <= rows * MAX_BLOCK) by (nonlinear_arith)
        requires
            0 <= rows,
            0 <= n <= MAX_BLOCK,
    ;
}

/// The columns of the planar block of `n` samples that a buffer begins with.
pub open spec fn front_columns<A: Arith>(
    buf: Seq<Scalar<A>>,
    rows: nat,
    n: nat,
) -> Seq<Seq<Expr<A::Num>>> {
    columns(exprs(buf.take((rows * n) as int)), rows, n)
}

/// Different places of a planar block do not coincide.
pub proof fn lemma_planar_distinct(n: int, c: int, t: int, d: int, u: int)
    requires
        0 <= t < n,
        0 <= u < n,
        c * n + t == d * n + u,
    ensures
        c == d,
        t == u,
{
    assert(c == d) by (nonlinear_arith)
        requires
            0 <= t < n,
            0 <= u < n,
            c * n + t == d * n + u,
    ;
}

/// Stages in series: each takes what the one before it hands on, and all of them
/// see the same context.
#[verifier::ext_equal]
pub struct Chain<M> {
    pub stages: Seq<M>,
}

/// What the stages make of `x` one after another, and their next states.
pub open spec fn chain_step<X, C, M: Machine<(X, C), X>>(stages: Seq<M>, x: X, c: C) -> (Seq<M>, X)
    decreases stages.len(),
{
    if stages.len() == 0 {
        (stages, x)
    } else {
        let front = chain_step::<X, C, M>(stages.drop_last(), x, c);
        let last = stages.last().step((front.1, c));
        (front.0.push(last.0), last.1)
    }
}

impl<X, C, M: Machine<(X, C), X>> Machine<(X, C), X> for Chain<M> {
    open spec fn step(self, x: (X, C)) -> (Self, X) {
        let r = chain_step::<X, C, M>(self.stages, x.0, x.1);
        (Chain { stages: r.0 }, r.1)
    }
}

/// Each element of `xs` beside the context of its time.
pub open spec fn paired<X, C>(xs: Seq<X>, cs: Seq<C>) -> Seq<(X, C)> {
    Seq::new(xs.len(), |t: int| (xs[t], cs[t]))
}

/// A chain may be run stage by stage: first all its stages but the last over the
/// whole stream, then the last over what they gave.
pub proof fn lemma_chain_run<X, C, M: Machine<(X, C), X>>(stages: Seq<M>, xs: Seq<X>, cs: Seq<C>)
    requires
        stages.len() > 0,
        xs.len() == cs.len(),
    ensures
        ({
            let front = run::<(X, C), X, Chain<M>>(
                Chain { stages: stages.drop_last() },
                paired(xs, cs),
            );
            let last = run::<(X, C), X, M>(stages.last(), paired(front.1, cs));
            let whole = run::<(X, C), X, Chain<M>>(Chain { stages }, paired(xs, cs));
            &&& front.1.len() == xs.len()
            &&& whole.0.stages == front.0.stages.push(last.0)
            &&& whole.1 == last.1
        }),
    decreases xs.len(),
{
    let front = run::<(X, C), X, Chain<M>>(Chain { stages: stages.drop_last() }, paired(xs, cs));
    lemma_run_len::<(X, C), X, Chain<M>>(Chain { stages: stages.drop_last() }, paired(xs, cs));
    if xs.len() == 0 {
        assert(stages =~= stages.drop_last().push(stages.last()));
    } else {
        let xs1 = xs.drop_last();
        let cs1 = cs.drop_last();
        assert(paired(xs, cs).drop_last() =~= paired(xs1, cs1));
        lemma_chain_run::<X, C, M>(stages, xs1, cs1);
        let front1 = run::<(X, C), X, Chain<M>>(
            Chain { stages: stages.drop_last() },
            paired(xs1, cs1),
        );
        lemma_run_len::<(X, C), X, Chain<M>>(Chain { stages: stages.drop_last() }, paired(xs1, cs1));
        let last1 = run::<(X, C), X, M>(stages.last(), paired(front1.1, cs1));
        let whole1 = run::<(X, C), X, Chain<M>>(Chain { stages }, paired(xs1, cs1));
        assert(paired(front.1, cs).drop_last() =~= paired(front1.1, cs1));
        assert(whole1.0.stages.drop_last() =~= front1.0.stages);
        assert(whole1.0.stages.last() == last1.0);
    }
}

/// A chain keeps its number of stages.
pub proof fn lemma_chain_len<X, C, M: Machine<(X, C), X>>(m: Chain<M>, xs: Seq<(X, C)>)
    ensures
        run::<(X, C), X, Chain<M>>(m, xs).0.stages.len() == m.stages.len(),
    decreases xs.len(),
{
    if xs.len() > 0 {
        lemma_chain_len::<X, C, M>(m, xs.drop_last());
        let before = run::<(X, C), X, Chain<M>>(m, xs.drop_last()).0;
        lemma_chain_step_len::<X, C, M>(before.stages, xs.last().0, xs.last().1);
    }
}

proof fn lemma_chain_step_len<X, C, M: Machine<(X, C), X>>(stages: Seq<M>, x: X, c: C)
    ensures
        chain_step::<X, C, M>(stages, x, c).0.len() == stages.len(),
    decreases stages.len(),
{
    if stages.len() > 0 {
        lemma_chain_step_len::<X, C, M>(stages.drop_last(), x, c);
    }
}

/// Each stage of a chain makes a step of its own: what it is given is returned.
pub proof fn lemma_chain_stage<X, C, M: Machine<(X, C), X>>(
    stages: Seq<M>,
    x: X,
    c: C,
    i: int,
) -> (given: X)
    requires
        0 <= i < stages.len(),
    ensures
        chain_step::<X, C, M>(stages, x, c).0.len() == stages.len(),
        chain_step::<X, C, M>(stages, x, c).0[i] == stages[i].step((given, c)).0,
    decreases stages.len(),
{
    lemma_chain_step_len::<X, C, M>(stages, x, c);
    lemma_chain_step_len::<X, C, M>(stages.drop_last(), x, c);
    if i == stages.len() - 1 {
        chain_step::<X, C, M>(stages.drop_last(), x, c).1
    } else {
        lemma_chain_stage::<X, C, M>(stages.drop_last(), x, c, i)
    }
}

/// The first stages of a chain run as they would alone.
pub proof fn lemma_chain_take<X, C, M: Machine<(X, C), X>>(
    stages: Seq<M>,
    k: int,
    xs: Seq<X>,
    cs: Seq<C>,
)
    requires
        0 <= k <= stages.len(),
        xs.len() == cs.len(),
    ensures
        run::<(X, C), X, Chain<M>>(Chain { stages: stages.take(k) }, paired(xs, cs)).0.stages
            == run::<(X, C), X, Chain<M>>(Chain { stages }, paired(xs, cs)).0.stages.take(k),
    decreases stages.len(),
{
    let whole = run::<(X, C), X, Chain<M>>(Chain { stages }, paired(xs, cs)).0.stages;
    lemma_chain_len::<X, C, M>(Chain { stages }, paired(xs, cs));
    if k == stages.len() {
        assert(stages.take(k) =~= stages);
        assert(whole.take(k) =~= whole);
    } else {
        lemma_chain_run::<X, C, M>(stages, xs, cs);
        lemma_chain_take::<X, C, M>(stages.drop_last(), k, xs, cs);
        let front = run::<(X, C), X, Chain<M>>(
            Chain { stages: stages.drop_last() },
            paired(xs, cs),
        ).0.stages;
        lemma_chain_len::<X, C, M>(Chain { stages: stages.drop_last() }, paired(xs, cs));
        assert(stages.drop_last().take(k) =~= stages.take(k));
        assert(whole.take(k) =~= front.take(k));
    }
}

/// An empty chain hands on what it is given.
pub proof fn lemma_chain_empty<X, C, M: Machine<(X, C), X>>(stages: Seq<M>, xs: Seq<X>, cs: Seq<C>)
    requires
        stages.len() == 0,
        xs.len() == cs.len(),
    ensures
        run::<(X, C), X, Chain<M>>(Chain { stages }, paired(xs, cs)).0.stages == stages,
        run::<(X, C), X, Chain<M>>(Chain { stages }, paired(xs, cs)).1 == xs,
    decreases xs.len(),
{
    if xs.len() > 0 {
        assert(paired(xs, cs).drop_last() =~= paired(xs.drop_last(), cs.drop_last()));
        lemma_chain_empty::<X, C, M>(stages, xs.drop_last(), cs.drop_last());
        assert(xs =~= xs.drop_last().push(xs.last()));
    } else {
        assert(xs =~= Seq::empty());
    }
}

/// The columns of a sum of blocks are the sums of their columns.
pub proof fn lemma_columns_added<N>(a: Seq<Expr<N>>, b: Seq<Expr<N>>, rows: nat, n: nat)
    requires
        a.len() == rows * n,
        b.len() == rows * n,
    ensures
        columns(added(a, b), rows, n) =~= Seq::new(
            n,
            |t: int| added(columns(a, rows, n)[t], columns(b, rows, n)[t]),
        ),
{
    assert forall|t: int| 0 <= t < n implies #[trigger] columns(added(a, b), rows, n)[t] =~= added(
        columns(a, rows, n)[t],
        columns(b, rows, n)[t],
    ) by {
        assert forall|c: int| 0 <= c < rows implies #[trigger] column(added(a, b), rows, n, t)[c]
            == added(columns(a, rows, n)[t], columns(b, rows, n)[t])[c] by {
            lemma_planar(rows as int, n as int, c, t);
        }
    }
}

/// The columns of a scaled block are its columns scaled.
pub proof fn lemma_columns_scaled<N>(scale: Expr<N>, a: Seq<Expr<N>>, rows: nat, n: nat)
    requires
        a.len() == rows * n,
    ensures
        columns(scaled(scale, a), rows, n) =~= Seq::new(
            n,
            |t: int| scaled(scale, columns(a, rows, n)[t]),
        ),
{
    assert forall|t: int| 0 <= t < n implies #[trigger] columns(scaled(scale, a), rows, n)[t]
        =~= scaled(scale, columns(a, rows, n)[t]) by {
        assert forall|c: int| 0 <= c < rows implies #[trigger] column(
            scaled(scale, a),
            rows,
            n,
            t,
        )[c] == scaled(scale, columns(a, rows, n)[t])[c] by {
            lemma_planar(rows as int, n as int, c, t);
        }
    }
}

/// The columns of a block of silence are silent.
pub proof fn lemma_columns_silence<N>(rows: nat, n: nat)
    ensures
        columns::<N>(silence((rows * n) as nat), rows, n) =~= Seq::new(n, |t: int| silence(rows)),
{
    assert forall|t: int| 0 <= t < n implies #[trigger] columns::<N>(
        silence((rows * n) as nat),
        rows,
        n,
    )[t] =~= silence(rows) by {
        assert forall|c: int| 0 <= c < rows implies #[trigger] column::<N>(
            silence((rows * n) as nat),
            rows,
            n,
            t,
        )[c] == Expr::<N>::Zero by {
            lemma_planar(rows as int, n as int, c, t);
        }
    }
}

/// The only column of a block of one sample is the block.
pub proof fn lemma_columns_one<N>(block: Seq<Expr<N>>)
    ensures
        columns(block, block.len(), 1) == seq![block],
{
    assert(column(block, block.len(), 1, 0) =~= block);
    assert(columns(block, block.len(), 1) =~= seq![block]);
}

/// The columns of a block of one row are its samples.
pub proof fn lemma_columns_mono<N>(block: Seq<Expr<N>>)
    ensures
        columns(block, 1, block.len()) =~= Seq::new(block.len(), |t: int| seq![block[t]]),
{
    assert forall|t: int| 0 <= t < block.len() implies #[trigger] columns(block, 1, block.len())[t]
        =~= seq![block[t]] by {
        assert(column(block, 1, block.len(), t)[0] == block[0 * block.len() + t]);
        assert(0 * block.len() == 0) by (nonlinear_arith);
    }
}

/// A run over a single input is a single step.
pub proof fn lemma_run_one<I, O, M: Machine<I, O>>(m: M, x: I)
    ensures
        run::<I, O, M>(m, seq![x]) == (m.step(x).0, seq![m.step(x).1]),
{
    assert(seq![x].drop_last() =~= Seq::empty());
    assert(seq![x].last() == x);
    assert(run::<I, O, M>(m, Seq::empty()) == (m, Seq::<O>::empty()));
    assert(run::<I, O, M>(m, seq![x]).1 =~= seq![m.step(x).1]);
}

/// The first `k` numbers of a buffer.
pub fn front<A: Arith>(buf: &Vec<Scalar<A>>, k: usize) -> (r: &[Scalar<A>])
    requires
        k <= buf@.len(),
    ensures
        r@ == buf@.take(k as int),
{
    vstd::slice::slice_subrange(buf.as_slice(), 0, k)
}

/// The first `k` numbers of a buffer, to write to.
pub fn front_mut<A: Arith>(buf: &mut Vec<Scalar<A>>, k: usize) -> (r: &mut [Scalar<A>])
    requires
        k <= old(buf)@.len(),
    ensures
        r@ == old(buf)@.take(k as int),
        final(r)@.len() == k ==> final(buf)@ == final(r)@ + old(buf)@.skip(k as int),
{
    let (head, _) = buf.as_mut_slice().split_at_mut(k);
    head
}

/// Copy `src` over `dst`.
pub fn copy_into<A: Arith>(dst: &mut [Scalar<A>], src: &[Scalar<A>])
    requires
        old(dst)@.len() == src@.len(),
    ensures
        final(dst)@ == src@,
{
    let mut i: usize = 0;
    while i < src.len()
        invariant
            dst@.len() == src@.len(),
            i <= src@.len(),
            forall|q: int| 0 <= q < i ==> #[trigger] dst@[q] == src@[q],
        decreases src@.len() - i,
    {
        dst[i] = src[i];
        i += 1;
    }
    assert(dst@ =~= src@);
}

/// Silence `dst`.
pub fn fill_zero<A: Arith>(dst: &mut [Scalar<A>])
    ensures
        final(dst)@.len() == old(dst)@.len(),
        exprs(final(dst)@) == silence::<A::Num>(old(dst)@.len()),
{
    let mut i: usize = 0;
    while i < dst.len()
        invariant
            dst@.len() == old(dst)@.len(),
            i <= dst@.len(),
            forall|q: int| 0 <= q < i ==> (#[trigger] dst@[q])@ == Expr::<A::Num>::Zero,
        decreases dst@.len() - i,
    {
        dst[i] = Scalar::zero();
        i += 1;
    }
    assert(exprs(dst@) =~= silence::<A::Num>(old(dst)@.len()));
}

/// Add `src` to `dst`, element by element.
pub fn add_into<A: Arith>(dst: &mut [Scalar<A>], src: &[Scalar<A>])
    requires
        old(dst)@.len() == src@.len(),
    ensures
        final(dst)@.len() == old(dst)@.len(),
        exprs(final(dst)@) == added(exprs(old(dst)@), exprs(src@)),
{
    let mut i: usize = 0;
    while i < src.len()
        invariant
            dst@.len() == src@.len(),
            old(dst)@.len() == src@.len(),
            i <= src@.len(),
            forall|q: int| 0 <= q < i ==> (#[trigger] dst@[q])@ == old(dst)@[q]@.plus(src@[q]@),
            forall|q: int| i <= q < src@.len() ==> #[trigger] dst@[q] == old(dst)@[q],
        decreases src@.len() - i,
    {
        dst[i] = dst[i].plus(src[i]);
        i += 1;
    }
    assert(exprs(dst@) =~= added(exprs(old(dst)@), exprs(src@)));
}

/// Write `scale * src` to `dst`, element by element.
pub fn scale_into<A: Arith>(dst: &mut [Scalar<A>], scale: Scalar<A>, src: &[Scalar<A>])
    requires
        old(dst)@.len() == src@.len(),
    ensures
        final(dst)@.len() == old(dst)@.len(),
        exprs(final(dst)@) == scaled(scale@, exprs(src@)),
{
    let mut i: usize = 0;
    while i < src.len()
        invariant
            dst@.len() == src@.len(),
            i <= src@.len(),
            forall|q: int| 0 <= q < i ==> (#[trigger] dst@[q])@ == scale@.times(src@[q]@),
        decreases src@.len() - i,
    {
        dst[i] = scale.times(src[i]);
        i += 1;
    }
    assert(exprs(dst@) =~= scaled(scale@, exprs(src@)));
}

/// A copy of a buffer.
pub fn duplicate<A: Arith>(buf: &Vec<Scalar<A>>) -> (r: Vec<Scalar<A>>)
    ensures
        r@ == buf@,
{
    let mut out: Vec<Scalar<A>> = Vec::new();
    let mut i: usize = 0;
    assert(buf@.take(0) =~= Seq::empty());
    while i < buf.len()
        invariant
            i <= buf@.len(),
            out@ == buf@.take(i as int),
        decreases buf@.len() - i,
    {
        out.push(buf[i]);
        i += 1;
        assert(out@ =~= buf@.take(i as int));
    }
    assert(buf@.take(i as int) =~= buf@);
    out
}

} // verus!
