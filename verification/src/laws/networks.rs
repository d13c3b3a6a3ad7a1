//! What the parts of a network compute, written out in the operations on the numbers
//! they are given: which weight meets which input, in which order the products are
//! added up, and what is done with the sum.

use vstd::prelude::*;
use crate::arith::Expr;
use crate::engine::{EngineModel, WaveNetModel};
use crate::lstm::cell::{dot, CellModel};
use crate::lstm::LstmModel;
use crate::model::GatingMode;
use crate::signal::{added, chain_step, run, scaled, Machine};
use crate::wavenet::activation::Activation;
use crate::wavenet::array::ArrayModel;
use crate::wavenet::conv::{lemma_conv_run, ConvModel};
use crate::wavenet::film::FilmModel;
use crate::wavenet::gating::Gating;
use crate::wavenet::head::{HeadModel, HeadStage};
use crate::wavenet::layer::{film_fits, filmed, Carry, FilmsModel, LayerModel};

verus! {

// ---- Numbers ----

pub open spec fn sum<N>(a: Expr<N>, b: Expr<N>) -> Expr<N> {
    Expr::Sum(Box::new(a), Box::new(b))
}

pub open spec fn product<N>(a: Expr<N>, b: Expr<N>) -> Expr<N> {
    Expr::Product(Box::new(a), Box::new(b))
}

pub open spec fn tangent<N>(a: Expr<N>) -> Expr<N> {
    Expr::Tangent(Box::new(a))
}

/// `1 / (1 + exp(-a))`.
pub open spec fn logistic<N>(a: Expr<N>) -> Expr<N> {
    Expr::Quotient(
        Box::new(Expr::One),
        Box::new(sum(Expr::One, Expr::Exponential(Box::new(Expr::Negation(Box::new(a)))))),
    )
}

/// `first` and then the terms, added up from left to right.
pub open spec fn total<N>(first: Expr<N>, terms: Seq<Expr<N>>) -> Expr<N>
    decreases terms.len(),
{
    if terms.len() == 0 {
        first
    } else {
        sum(total(first, terms.drop_last()), terms.last())
    }
}

/// Each of `ws` times what stands in its place in `xs`.
pub open spec fn products<N>(ws: Seq<Expr<N>>, xs: Seq<Expr<N>>) -> Seq<Expr<N>> {
    Seq::new(ws.len(), |k: int| product(ws[k], xs[k]))
}

/// Each of `a` and what stands in its place in `b`.
pub open spec fn sums<N>(a: Seq<Expr<N>>, b: Seq<Expr<N>>) -> Seq<Expr<N>> {
    Seq::new(a.len(), |k: int| sum(a[k], b[k]))
}

// ---- LSTM ----

/// What row `r` of a layer's matrix and bias makes of the input and the hidden state.
pub open spec fn matrix_row<N>(m: CellModel<N>, x: Seq<Expr<N>>, r: int) -> Expr<N> {
    let width = m.input_size + m.hidden_size;
    total(m.b[r], products(m.w.subrange(r * width, r * width + width), x + m.h))
}

proof fn lemma_dot<N>(bias: Expr<N>, w: Seq<Expr<N>>, base: int, x: Seq<Expr<N>>, k: nat)
    requires
        0 <= base,
        base + k <= w.len(),
        k <= x.len(),
    ensures
        dot(bias, w, base, x, k) == total(bias, products(w.subrange(base, base + k), x)),
    decreases k,
{
    let terms = products(w.subrange(base, base + k), x);
    if k > 0 {
        lemma_dot(bias, w, base, x, (k - 1) as nat);
        assert(terms.drop_last() =~= products(w.subrange(base, base + k - 1), x));
        assert(terms.last() == product(w[base + k - 1], x[k - 1]));
    } else {
        assert(terms =~= Seq::empty());
    }
}

proof fn lemma_row_fits(rows: int, width: int, r: int)
    requires
        0 <= r < rows,
        0 <= width,
    ensures
        0 <= r * width,
        r * width + width <= rows * width,
{
    assert(0 <= r * width && r * width + width <= rows * width) by (nonlinear_arith)
        requires
            0 <= r < rows,
            0 <= width,
    ;
}

proof fn lemma_matrix_row<N>(m: CellModel<N>, x: Seq<Expr<N>>, r: int)
    requires
        m.valid(),
        x.len() == m.input_size,
        0 <= r < 4 * m.hidden_size,
    ensures
        m.gate(x, r) == matrix_row(m, x, r),
{
    let width = (m.input_size + m.hidden_size) as int;
    lemma_row_fits(4 * m.hidden_size as int, width, r);
    lemma_dot(m.b[r], m.w, r * width, x + m.h, width as nat);
}

/// The gates of unit `j` of a layer of `H` units are made of rows `j`, `H + j`, `2H + j`
/// and `3H + j` of the matrix and bias: input, forget, cell and output gate. The unit
/// forgets a part of its state, takes up a part of what the cell gate offers, and shows
/// a part of the result.
pub proof fn lemma_gates_stand_in_blocks<N>(m: CellModel<N>, x: Seq<Expr<N>>, j: int)
    requires
        m.valid(),
        x.len() == m.input_size,
        0 <= j < m.hidden_size,
    ensures
        ({
            let h = m.hidden_size as int;
            let after = m.step((x, ())).0;
            let input = logistic(matrix_row(m, x, j));
            let forget = logistic(matrix_row(m, x, h + j));
            let cell = tangent(matrix_row(m, x, 2 * h + j));
            let output = logistic(matrix_row(m, x, 3 * h + j));
            &&& after.c[j] == sum(product(forget, m.c[j]), product(input, cell))
            &&& after.h[j] == product(output, tangent(after.c[j]))
            &&& m.step((x, ())).1 == after.h
            &&& after.h.len() == h
            &&& after.c.len() == h
        }),
{
    let h = m.hidden_size as int;
    lemma_matrix_row(m, x, j);
    lemma_matrix_row(m, x, h + j);
    lemma_matrix_row(m, x, 2 * h + j);
    lemma_matrix_row(m, x, 3 * h + j);
}

/// Whether two layers of one size agree in row `r` of matrix and bias.
pub open spec fn same_row<N>(a: CellModel<N>, b: CellModel<N>, r: int) -> bool {
    let width = a.input_size + a.hidden_size;
    &&& a.b[r] == b.b[r]
    &&& a.w.subrange(r * width, r * width + width) == b.w.subrange(r * width, r * width + width)
}

/// Whether two layers of one size are in the same state.
pub open spec fn same_state<N>(a: CellModel<N>, b: CellModel<N>) -> bool {
    &&& a.valid()
    &&& b.valid()
    &&& a.input_size == b.input_size
    &&& a.hidden_size == b.hidden_size
    &&& a.h == b.h
    &&& a.c == b.c
}

/// Rows `j`, `H + j`, `2H + j` and `3H + j` alone decide what becomes of unit `j`: layers
/// that agree in them take it to the same state, whatever stands in the other rows.
pub proof fn lemma_units_have_their_rows<N>(
    a: CellModel<N>,
    b: CellModel<N>,
    x: Seq<Expr<N>>,
    j: int,
)
    requires
        same_state(a, b),
        x.len() == a.input_size,
        0 <= j < a.hidden_size,
        same_row(a, b, j),
        same_row(a, b, a.hidden_size + j),
        same_row(a, b, 2 * a.hidden_size + j),
        same_row(a, b, 3 * a.hidden_size + j),
    ensures
        a.step((x, ())).0.c[j] == b.step((x, ())).0.c[j],
        a.step((x, ())).0.h[j] == b.step((x, ())).0.h[j],
{
    lemma_gates_stand_in_blocks(a, x, j);
    lemma_gates_stand_in_blocks(b, x, j);
}

/// The last block of rows, that of the output gates, has no part in the cell state.
pub proof fn lemma_output_rows_show_only<N>(a: CellModel<N>, b: CellModel<N>, x: Seq<Expr<N>>)
    requires
        same_state(a, b),
        x.len() == a.input_size,
        forall|r: int| 0 <= r < 3 * a.hidden_size ==> #[trigger] same_row(a, b, r),
    ensures
        a.step((x, ())).0.c == b.step((x, ())).0.c,
{
    let h = a.hidden_size as int;
    let p = a.step((x, ())).0.c;
    let q = b.step((x, ())).0.c;
    assert forall|j: int| 0 <= j < h implies p[j] == q[j] by {
        lemma_gates_stand_in_blocks(a, x, j);
        lemma_gates_stand_in_blocks(b, x, j);
        assert(same_row(a, b, j));
        assert(same_row(a, b, h + j));
        assert(same_row(a, b, 2 * h + j));
    }
    assert(p =~= q);
}

/// A row of one block has a part in one gate of one unit only: where layers agree in all
/// rows but `r`, which is row `j` of block `block`, the other units go on alike, and of
/// unit `j` the other gates do.
pub proof fn lemma_row_drives_one_gate<N>(
    a: CellModel<N>,
    b: CellModel<N>,
    x: Seq<Expr<N>>,
    block: int,
    j: int,
)
    requires
        same_state(a, b),
        x.len() == a.input_size,
        0 <= block < 4,
        0 <= j < a.hidden_size,
        forall|r: int|
            0 <= r < 4 * a.hidden_size && r != block * a.hidden_size + j ==> #[trigger] same_row(
                a,
                b,
                r,
            ),
    ensures
        ({
            let p = a.step((x, ())).0;
            let q = b.step((x, ())).0;
            let (pc, qc) = (p.c[j], q.c[j]);
            &&& forall|i: int|
                0 <= i < a.hidden_size && i != j ==> #[trigger] p.c[i] == q.c[i] && p.h[i] == q.h[i]
            &&& pc->Sum_0->Product_1 == a.c[j] && qc->Sum_0->Product_1 == a.c[j]
            &&& block != 0 ==> pc->Sum_1->Product_0 == qc->Sum_1->Product_0
            &&& block != 1 ==> pc->Sum_0->Product_0 == qc->Sum_0->Product_0
            &&& block != 2 ==> pc->Sum_1->Product_1 == qc->Sum_1->Product_1
            &&& block != 3 ==> p.h[j]->Product_0 == q.h[j]->Product_0
        }),
{
    let h = a.hidden_size as int;
    assert(block * h == if block == 0 {
        0
    } else if block == 1 {
        h
    } else if block == 2 {
        2 * h
    } else {
        3 * h
    }) by (nonlinear_arith)
        requires
            0 <= block < 4,
    ;
    assert forall|i: int| 0 <= i < h && i != j implies #[trigger] a.step((x, ())).0.c[i] == b.step(
        (x, ()),
    ).0.c[i] && a.step((x, ())).0.h[i] == b.step((x, ())).0.h[i] by {
        assert(same_row(a, b, i));
        assert(same_row(a, b, h + i));
        assert(same_row(a, b, 2 * h + i));
        assert(same_row(a, b, 3 * h + i));
        lemma_units_have_their_rows(a, b, x, i);
    }
    assert(block != 0 ==> same_row(a, b, j));
    assert(block != 1 ==> same_row(a, b, h + j));
    assert(block != 2 ==> same_row(a, b, 2 * h + j));
    assert(block != 3 ==> same_row(a, b, 3 * h + j));
    lemma_gates_stand_in_blocks(a, x, j);
    lemma_gates_stand_in_blocks(b, x, j);
}

proof fn lemma_stages_in_series<X, C, M: Machine<(X, C), X>>(stages: Seq<M>, x: X, c: C, n: nat)
    requires
        n <= stages.len(),
    ensures
        chain_step::<X, C, M>(stages.take(n as int), x, c).1 == passed_on::<X, C, M>(
            stages,
            x,
            c,
            n,
        ),
        chain_step::<X, C, M>(stages.take(n as int), x, c).0.len() == n,
        forall|i: int|
            0 <= i < n ==> #[trigger] chain_step::<X, C, M>(stages.take(n as int), x, c).0[i]
                == stages[i].step((passed_on::<X, C, M>(stages, x, c, i as nat), c)).0,
    decreases n,
{
    if n > 0 {
        let front = stages.take(n as int);
        lemma_stages_in_series::<X, C, M>(stages, x, c, (n - 1) as nat);
        assert(front.drop_last() =~= stages.take(n - 1));
        assert(front.last() == stages[n - 1]);
    } else {
        assert(stages.take(0) =~= Seq::empty());
    }
}

/// What the first `n` of the stages, each given what the one before it hands on, make of
/// `x`.
pub open spec fn passed_on<X, C, M: Machine<(X, C), X>>(stages: Seq<M>, x: X, c: C, n: nat) -> X
    decreases n,
{
    if n == 0 {
        x
    } else {
        stages[n - 1].step((passed_on::<X, C, M>(stages, x, c, (n - 1) as nat), c)).1
    }
}

/// Whether layer `i` went on from `before` to `after` on what the layer below it shows.
pub open spec fn fed_from_below<N>(before: LstmModel<N>, after: LstmModel<N>, i: int) -> bool {
    after.cells[i] == before.cells[i].step((after.cells[i - 1].h, ())).0
}

/// The layers of an LSTM stand in series: the first is given the sample, each of the
/// others the hidden state that the one before it has just reached. The output is the
/// head's bias and its weights times the hidden state of the last.
pub proof fn lemma_lstm_layers_in_series<N>(l: LstmModel<N>, x: Expr<N>)
    requires
        l.valid(),
    ensures
        ({
            let (after, y) = l.step(x);
            let n = l.cells.len() as int;
            &&& after.cells.len() == n
            &&& after.head_w == l.head_w && after.head_b == l.head_b
            &&& n > 0 ==> after.cells[0] == l.cells[0].step((seq![x], ())).0
            &&& forall|i: int| 1 <= i < n ==> #[trigger] fed_from_below(l, after, i)
            &&& n > 0 ==> y == total(l.head_b, products(l.head_w, after.cells[n - 1].h))
            &&& n == 0 ==> y == l.head_b
        }),
{
    let n = l.cells.len();
    let (after, y) = l.step(x);
    assert(l.cells.take(n as int) =~= l.cells);
    lemma_stages_in_series(l.cells, seq![x], (), n);
    assert forall|i: int| 1 <= i < n implies #[trigger] fed_from_below(l, after, i) by {
        let below = after.cells[i - 1];
        assert(below == l.cells[i - 1].step((passed_on(l.cells, seq![x], (), (i - 1) as nat), ())).0);
        assert(below.h == passed_on(l.cells, seq![x], (), i as nat));
    }
    if n > 0 {
        let top = after.cells[n - 1].h;
        assert(top == passed_on(l.cells, seq![x], (), n));
        assert(top.len() == l.head_w.len());
        lemma_dot(l.head_b, l.head_w, 0, top, l.head_w.len());
        assert(l.head_w.subrange(0, l.head_w.len() as int) =~= l.head_w);
    }
}

// ---- Convolutions ----

/// What a convolution begins output row `o` with: its bias, or nothing.
pub open spec fn bias_of<N>(m: ConvModel<N>, o: int) -> Expr<N> {
    match m.bias {
        Some(b) => b[o],
        None => Expr::Zero,
    }
}

/// What output row `o` of a convolution adds up: tap after tap, oldest first, and within
/// a tap channel after channel. Tap `k` reads the column `k * dilation` behind the one
/// that the oldest tap reads, which is column `t` of `line`.
pub open spec fn tap_terms<N>(m: ConvModel<N>, line: Seq<Seq<Expr<N>>>, t: int, o: int) -> Seq<
    Expr<N>,
> {
    Seq::new(
        (m.kernel * m.in_ch) as nat,
        |q: int|
            {
                let k = q / (m.in_ch as int);
                let j = q % (m.in_ch as int);
                product(
                    m.weights[(o * m.in_ch + j) * m.kernel + k],
                    line[t + k * m.dilation][j],
                )
            },
    )
}

proof fn lemma_place(k: int, n: int, j: int)
    requires
        0 <= j < n,
        0 <= k,
    ensures
        (k * n + j) / n == k,
        (k * n + j) % n == j,
        0 <= k * n,
{
    vstd::arithmetic::div_mod::lemma_fundamental_div_mod_converse(k * n + j, n, k, j);
    assert(0 <= k * n) by (nonlinear_arith)
        requires
            0 <= k,
            0 <= n,
    ;
}

proof fn lemma_partial_total<N>(
    m: ConvModel<N>,
    window: Seq<Seq<Expr<N>>>,
    o: int,
    k: nat,
    j: nat,
)
    requires
        j <= m.in_ch,
        k < m.kernel || k == m.kernel && j == 0,
    ensures
        0 <= k * m.in_ch + j <= m.kernel * m.in_ch,
        m.partial(window, o, k, j) == total(
            bias_of(m, o),
            tap_terms(m, window, 0, o).take((k * m.in_ch + j) as int),
        ),
    decreases k, j,
{
    let n = m.in_ch as int;
    let terms = tap_terms(m, window, 0, o);
    assert(0 <= k * n + j <= m.kernel * n && m.kernel * n >= 0) by (nonlinear_arith)
        requires
            0 <= j <= n,
            0 <= k,
            k + 1 <= m.kernel || k == m.kernel && j == 0,
    ;
    if j > 0 {
        lemma_partial_total(m, window, o, k, (j - 1) as nat);
        lemma_place(k as int, n, j - 1);
        let here = k * n + j;
        assert(terms.take(here).drop_last() =~= terms.take(here - 1));
        assert(terms.take(here).last() == terms[k * n + (j - 1)]);
        assert(terms[k * n + (j - 1)] == product(
            m.weights[(o * m.in_ch + (j - 1)) * m.kernel + k],
            window[(k * m.dilation) as int][j - 1],
        ));
    } else if k > 0 {
        lemma_partial_total(m, window, o, (k - 1) as nat, m.in_ch);
        assert((k - 1) * n + n == k * n) by (nonlinear_arith);
    } else {
        assert(0 * n == 0);
        assert(terms.take(0) =~= Seq::empty());
    }
}

/// Output row `o` at time `t` of a convolution is its bias and, for every tap and
/// channel, the weight of that output, channel and tap times the input of that channel
/// as many times before `t` as the tap lies before the newest, in dilations. What came
/// before the run is what the convolution remembers, and it remembers as much of the run.
pub proof fn lemma_taps<N>(m: ConvModel<N>, xs: Seq<Seq<Expr<N>>>, t: int, o: int)
    requires
        m.kernel >= 1,
        m.past.len() == (m.kernel - 1) * m.dilation,
        0 <= t < xs.len(),
        0 <= o < m.out_ch,
    ensures
        run(m, xs).1.len() == xs.len(),
        run(m, xs).1[t].len() == m.out_ch,
        run(m, xs).1[t][o] == total(bias_of(m, o), tap_terms(m, m.past + xs, t, o)),
        run(m, xs).0 == (ConvModel { past: (m.past + xs).skip(xs.len() as int), ..m }),
{
    lemma_conv_run(m, xs);
    let line = m.past + xs;
    let window = line.subrange(t, t + m.past.len() + 1);
    lemma_partial_total(m, window, o, m.kernel, 0);
    let here = tap_terms(m, window, 0, o);
    assert(here.take((m.kernel * m.in_ch) as int) =~= here);
    assert forall|q: int| 0 <= q < m.kernel * m.in_ch implies #[trigger] here[q] == tap_terms(
        m,
        line,
        t,
        o,
    )[q] by {
        let n = m.in_ch as int;
        let k = q / n;
        assert(n > 0) by (nonlinear_arith)
            requires
                0 <= q < m.kernel * n,
                n >= 0,
        ;
        assert(0 <= k <= m.kernel - 1) by (nonlinear_arith)
            requires
                k == q / n,
                0 <= q < m.kernel * n,
                n > 0,
        ;
        assert(0 <= k * m.dilation <= (m.kernel - 1) * m.dilation) by (nonlinear_arith)
            requires
                0 <= k <= m.kernel - 1,
        ;
        assert(window[0 + k * m.dilation] == line[t + k * m.dilation]);
    }
    assert(here =~= tap_terms(m, line, t, o));
}

/// Row `o` of what a 1x1 convolution makes of a column: its bias and its weights in that
/// row times the column.
pub open spec fn dense_row<N>(m: ConvModel<N>, x: Seq<Expr<N>>, o: int) -> Expr<N> {
    total(
        bias_of(m, o),
        Seq::new(m.in_ch, |j: int| product(m.weights[o * m.in_ch + j], x[j])),
    )
}

/// All rows of what a 1x1 convolution makes of a column.
pub open spec fn dense_rows<N>(m: ConvModel<N>, x: Seq<Expr<N>>) -> Seq<Expr<N>> {
    Seq::new(m.out_ch, |o: int| dense_row(m, x, o))
}

/// A 1x1 convolution mixes the channels of a column.
pub proof fn lemma_one_by_one_mixes<N>(m: ConvModel<N>, x: Seq<Expr<N>>)
    requires
        m.kernel == 1,
    ensures
        m.apply(x) == dense_rows(m, x),
{
    assert forall|o: int| 0 <= o < m.out_ch implies #[trigger] m.apply(x)[o] == dense_row(
        m,
        x,
        o,
    ) by {
        let window = seq![x];
        lemma_partial_total(m, window, o, 1, 0);
        let terms = tap_terms(m, window, 0, o);
        let plain = Seq::new(m.in_ch, |j: int| product(m.weights[o * m.in_ch + j], x[j]));
        assert(1 * m.in_ch == m.in_ch);
        assert(terms.len() == m.in_ch);
        assert(terms.take(m.in_ch as int) =~= terms);
        assert forall|q: int| 0 <= q < m.in_ch implies #[trigger] terms[q] == plain[q] by {
            lemma_place(0, m.in_ch as int, q);
            assert(0 * m.in_ch == 0);
            assert((o * m.in_ch + q) * 1 == o * m.in_ch + q);
            assert(0 * m.dilation == 0);
        }
        assert(terms =~= plain);
    }
    assert(m.apply(x) =~= dense_rows(m, x));
}

// ---- FiLM ----

/// A signal modulated at a site: each row times the scale that the site makes of the
/// conditioning in that row and, where it shifts, plus what it makes of it as many rows
/// below. Without a site, the signal.
pub open spec fn modulated<N>(
    site: Option<FilmModel<N>>,
    x: Seq<Expr<N>>,
    c: Seq<Expr<N>>,
) -> Seq<Expr<N>> {
    match site {
        None => x,
        Some(f) => Seq::new(
            x.len(),
            |r: int|
                if f.shift {
                    sum(
                        product(x[r], dense_row(f.conv, c, r)),
                        dense_row(f.conv, c, x.len() + r),
                    )
                } else {
                    product(x[r], dense_row(f.conv, c, r))
                },
        ),
    }
}

/// Whether a site fits a signal and a conditioning of these widths and mixes the
/// conditioning column by column.
pub open spec fn site_mixes<N>(site: Option<FilmModel<N>>, dim: nat, cond: nat) -> bool {
    &&& film_fits(site, dim, cond)
    &&& site matches Some(f) ==> f.conv.kernel == 1
}

/// A FiLM site scales, and shifts where it does, by what it makes of the conditioning.
pub proof fn lemma_film_modulates<N>(f: FilmModel<N>, x: Seq<Expr<N>>, c: Seq<Expr<N>>)
    requires
        site_mixes(Some(f), x.len(), c.len()),
    ensures
        f.apply(x, c) == modulated(Some(f), x, c),
{
    lemma_one_by_one_mixes(f.conv, c);
    assert(f.apply(x, c) =~= modulated(Some(f), x, c));
}

proof fn lemma_site<N>(site: Option<FilmModel<N>>, x: Seq<Expr<N>>, c: Seq<Expr<N>>)
    requires
        site_mixes(site, x.len(), c.len()),
    ensures
        filmed(site, x, c) == modulated(site, x, c),
        modulated(site, x, c).len() == x.len(),
{
    match site {
        Some(f) => {
            lemma_film_modulates(f, x, c);
        },
        None => {},
    }
}

// ---- Activations and gating ----

/// What an activation makes of a number.
pub open spec fn shaped<N>(a: Activation, x: Expr<N>) -> Expr<N> {
    match a {
        Activation::Tanh => tangent(x),
        Activation::Relu => Expr::Maximum(Box::new(x), Box::new(Expr::Zero)),
        Activation::Sigmoid => logistic(x),
        Activation::LeakyRelu(slope) => Expr::Choice(
            Box::new(x),
            Box::new(Expr::Zero),
            Box::new(x),
            Box::new(product(Expr::Constant(slope), x)),
        ),
    }
}

/// What stands behind the activation of a signal `z`, `n` rows wide: the activated value
/// rows; times the activated gate rows, which stand below them; or mixed with the value
/// rows themselves, as the activated gate rows say.
pub open spec fn gated<N>(
    mode: GatingMode,
    primary: Activation,
    secondary: Activation,
    z: Seq<Expr<N>>,
    n: nat,
) -> Seq<Expr<N>> {
    Seq::new(
        n,
        |r: int|
            {
                let value = shaped(primary, z[r]);
                let gate = shaped(secondary, z[n + r]);
                match mode {
                    GatingMode::Ungated => value,
                    GatingMode::Gated => product(value, gate),
                    GatingMode::Blended => sum(
                        product(gate, value),
                        product(Expr::Difference(Box::new(Expr::One), Box::new(gate)), z[r]),
                    ),
                }
            },
    )
}

/// Gating activates the upper rows by the primary activation and the lower ones, where
/// the mode has any, by the secondary.
pub proof fn lemma_gating<N>(g: Gating, z: Seq<Expr<N>>)
    ensures
        g.apply(z) == gated(g.mode, g.primary, g.secondary, z, g.bottleneck as nat),
{
    assert(g.apply(z) =~= gated(g.mode, g.primary, g.secondary, z, g.bottleneck as nat));
}

// ---- Layers ----

/// Whether a layer fits together and its 1x1 convolutions are such.
pub open spec fn sound_layer<N>(m: LayerModel<N>) -> bool {
    let mid = m.gating.rows();
    let bn = m.gating.bottleneck as nat;
    let cond = m.mixin.in_ch;
    &&& m.valid()
    &&& m.mixin.kernel == 1
    &&& m.layer1x1 matches Some(l) ==> l.kernel == 1
    &&& m.head1x1 matches Some(h) ==> h.kernel == 1
    &&& site_mixes(m.films.conv_pre, m.conv.in_ch, cond)
    &&& site_mixes(m.films.conv_post, mid, cond)
    &&& site_mixes(m.films.mixin_pre, cond, cond)
    &&& site_mixes(m.films.mixin_post, mid, cond)
    &&& site_mixes(m.films.activation_pre, mid, cond)
    &&& site_mixes(m.films.activation_post, bn, cond)
    &&& m.layer1x1 is Some ==> site_mixes(m.films.layer1x1_post, m.conv.in_ch, cond)
    &&& m.head1x1 is Some ==> site_mixes(m.films.head1x1_post, m.head_width(), cond)
}

/// The sum of the convolved signal and the mixed-in conditioning, from the output `z` of
/// the dilated convolution: each is modulated at its own site, and the conditioning
/// before it is mixed too.
pub open spec fn mixed_in<N>(m: LayerModel<N>, z: Seq<Expr<N>>, c: Seq<Expr<N>>) -> Seq<Expr<N>> {
    sums(
        modulated(m.films.conv_post, z, c),
        modulated(m.films.mixin_post, dense_rows(m.mixin, modulated(m.films.mixin_pre, c, c)), c),
    )
}

/// The activated signal, from the sum `s`: modulated, activated and gated, and modulated
/// again.
pub open spec fn activated_rows<N>(m: LayerModel<N>, s: Seq<Expr<N>>, c: Seq<Expr<N>>) -> Seq<
    Expr<N>,
> {
    let g = m.gating;
    modulated(
        m.films.activation_post,
        gated(
            g.mode,
            g.primary,
            g.secondary,
            modulated(m.films.activation_pre, s, c),
            g.bottleneck as nat,
        ),
        c,
    )
}

/// A layer convolves its signal, modulated before and after; adds the conditioning, mixed
/// and modulated before and after; activates the sum, modulated before and after; hands
/// that on to the head, through the head 1x1 and its modulation where there is one; and
/// adds it to its own input, through the residual 1x1, whose modulation a blended layer
/// alone applies. Every site that there is has its part.
pub proof fn lemma_layer_rows<N>(m: LayerModel<N>, y: Carry<N>, c: Seq<Expr<N>>)
    requires
        sound_layer(m),
        y.signal.len() == m.conv.in_ch,
        c.len() == m.mixin.in_ch,
    ensures
        ({
            let z = m.conv.step(modulated(m.films.conv_pre, y.signal, c));
            let p = activated_rows(m, mixed_in(m, z.1, c), c);
            let residual = match m.layer1x1 {
                Some(l) => if m.gating.mode == GatingMode::Blended {
                    modulated(m.films.layer1x1_post, dense_rows(l, p), c)
                } else {
                    dense_rows(l, p)
                },
                None => p,
            };
            let shown = match m.head1x1 {
                Some(h) => modulated(m.films.head1x1_post, dense_rows(h, p), c),
                None => p,
            };
            &&& m.step((y, c)).0 == (LayerModel { conv: z.0, ..m })
            &&& m.step((y, c)).1.signal == sums(residual, y.signal)
            &&& m.step((y, c)).1.head == sums(y.head, shown)
        }),
{
    lemma_site(m.films.conv_pre, y.signal, c);
    let z = m.conv.step(modulated(m.films.conv_pre, y.signal, c));
    lemma_site(m.films.conv_post, z.1, c);
    lemma_site(m.films.mixin_pre, c, c);
    let mix = dense_rows(m.mixin, modulated(m.films.mixin_pre, c, c));
    lemma_one_by_one_mixes(m.mixin, modulated(m.films.mixin_pre, c, c));
    lemma_site(m.films.mixin_post, mix, c);
    let s = mixed_in(m, z.1, c);
    assert(s =~= added(
        filmed(m.films.conv_post, z.1, c),
        m.mixed(c),
    ));
    lemma_site(m.films.activation_pre, s, c);
    lemma_gating(m.gating, modulated(m.films.activation_pre, s, c));
    lemma_site(m.films.activation_post, m.gating.apply(modulated(m.films.activation_pre, s, c)), c);
    let p = activated_rows(m, s, c);
    assert(m.activated(z.1, c) == p);
    match m.layer1x1 {
        Some(l) => {
            lemma_one_by_one_mixes(l, p);
            lemma_site(m.films.layer1x1_post, dense_rows(l, p), c);
        },
        None => {},
    }
    match m.head1x1 {
        Some(h) => {
            lemma_one_by_one_mixes(h, p);
            lemma_site(m.films.head1x1_post, dense_rows(h, p), c);
        },
        None => {},
    }
    assert(m.step((y, c)).1.signal =~= sums(m.projected(p, c), y.signal));
    assert(m.step((y, c)).1.head =~= sums(y.head, m.contribution(p, c)));
}

/// The site behind the activation scales, and shifts where it does, what both the head
/// and the residual are given: with it a layer answers as one without it would if its
/// gating already gave the modulated signal.
pub proof fn lemma_activation_post_site<N>(
    m: LayerModel<N>,
    y: Carry<N>,
    c: Seq<Expr<N>>,
    f: FilmModel<N>,
    r: int,
)
    requires
        sound_layer(m),
        m.films.activation_post == Some(f),
        m.head1x1 is None,
        m.layer1x1 is None,
        y.signal.len() == m.conv.in_ch,
        y.head.len() == m.conv.in_ch,
        c.len() == m.mixin.in_ch,
        0 <= r < m.gating.bottleneck,
    ensures
        ({
            let bare = LayerModel {
                films: FilmsModel { activation_post: None, ..m.films },
                ..m
            };
            let with = m.step((y, c)).1;
            let without = bare.step((y, c)).1;
            let p = without.head[r]->Sum_1;
            let scale = dense_row(f.conv, c, r);
            let q = if f.shift {
                sum(product(*p, scale), dense_row(f.conv, c, m.gating.bottleneck + r))
            } else {
                product(*p, scale)
            };
            &&& without.head[r] == sum(y.head[r], *p)
            &&& without.signal[r] == sum(*p, y.signal[r])
            &&& with.head[r] == sum(y.head[r], q)
            &&& with.signal[r] == sum(q, y.signal[r])
        }),
{
    let bare = LayerModel {
        films: FilmsModel { activation_post: None, ..m.films },
        ..m
    };
    lemma_layer_rows(m, y, c);
    lemma_layer_rows(bare, y, c);
}

// ---- Arrays ----

/// What the first layer of an array is given.
pub open spec fn rechanneled<N>(a: ArrayModel<N>, y: Carry<N>) -> Carry<N> {
    Carry { signal: dense_rows(a.rechannel, y.signal), head: y.head }
}

/// The layers of an array stand in series behind its rechannel, each adding to the head
/// that the array was given; the signal that the last hands on is that of the array, and
/// the head that has been gathered goes through the head rechannel.
pub proof fn lemma_array_in_series<N>(a: ArrayModel<N>, y: Carry<N>, c: Seq<Expr<N>>)
    requires
        a.rechannel.kernel == 1,
    ensures
        ({
            let n = a.layers.len();
            let first = rechanneled(a, y);
            let last = passed_on(a.layers, first, c, n);
            let (after, out) = a.step((y, c));
            &&& out.signal == last.signal
            &&& out.head == a.head_rechannel.step(last.head).1
            &&& after.head_rechannel == a.head_rechannel.step(last.head).0
            &&& after.rechannel == a.rechannel
            &&& after.layers.len() == n
            &&& forall|i: int|
                0 <= i < n ==> #[trigger] after.layers[i] == a.layers[i].step(
                    (passed_on(a.layers, first, c, i as nat), c),
                ).0
        }),
{
    let n = a.layers.len();
    lemma_one_by_one_mixes(a.rechannel, y.signal);
    assert(a.enter(y) == rechanneled(a, y));
    assert(a.layers.take(n as int) =~= a.layers);
    lemma_stages_in_series(a.layers, rechanneled(a, y), c, n);
}

// ---- Post-stack heads ----

/// A stage of a post-stack head activates what it is given, and then convolves it.
pub proof fn lemma_head_stage<N>(s: HeadStage<N>, x: Seq<Expr<N>>)
    ensures
        ({
            let active = Seq::new(x.len(), |i: int| shaped(s.activation, x[i]));
            &&& s.step((x, ())).1 == s.conv.step(active).1
            &&& s.step((x, ())).0 == (HeadStage { conv: s.conv.step(active).0, ..s })
        }),
{
    let active = Seq::new(x.len(), |i: int| shaped(s.activation, x[i]));
    assert(s.enter(x) =~= active);
}

/// The stages of a post-stack head stand in series.
pub proof fn lemma_head_in_series<N>(h: HeadModel<N>, x: Seq<Expr<N>>)
    ensures
        ({
            let n = h.stages.len();
            &&& h.step(x).1 == passed_on(h.stages, x, (), n)
            &&& h.step(x).0.stages.len() == n
            &&& forall|i: int|
                0 <= i < n ==> #[trigger] h.step(x).0.stages[i] == h.stages[i].step(
                    (passed_on(h.stages, x, (), i as nat), ()),
                ).0
        }),
{
    let n = h.stages.len();
    assert(h.stages.take(n as int) =~= h.stages);
    lemma_stages_in_series(h.stages, x, (), n);
}

// ---- WaveNets ----

/// The conditioning of a WaveNet: the sample, or the rows that the nested model answers
/// it with.
pub open spec fn conditioning_of<N>(w: WaveNetModel<N>, x: Expr<N>) -> Seq<Expr<N>> {
    match w.condition {
        None => seq![x],
        Some(m) => if m.rows() == 0 {
            Seq::empty()
        } else {
            m.step(x).1
        },
    }
}

/// What the first array of a WaveNet is given: the sample, and a silent head.
pub open spec fn opening<N>(w: WaveNetModel<N>, x: Expr<N>) -> Carry<N> {
    Carry {
        signal: seq![x],
        head: Seq::new(w.arrays[0].head_rechannel.in_ch, |r: int| Expr::Zero),
    }
}

/// The head that the last of the arrays, in series, gives, each number times the head
/// scale.
pub open spec fn scaled_head<N>(w: WaveNetModel<N>, x: Expr<N>) -> Seq<Expr<N>> {
    let last = passed_on(w.arrays, opening(w, x), conditioning_of(w, x), w.arrays.len());
    Seq::new(last.head.len(), |r: int| product(w.head_scale, last.head[r]))
}

/// The arrays of a WaveNet stand in series, all under the same conditioning. What comes
/// out is the head that the last of them gives, scaled, and that through the post-stack
/// head where there is one.
pub proof fn lemma_wavenet_in_series<N>(w: WaveNetModel<N>, x: Expr<N>)
    requires
        w.arrays.len() > 0,
        w.rows() > 0,
    ensures
        ({
            let n = w.arrays.len();
            let c = conditioning_of(w, x);
            let (after, out) = w.step(x);
            &&& match w.head {
                None => out == scaled_head(w, x) && after.head is None,
                Some(h) => out == h.step(scaled_head(w, x)).1 && after.head == Some(
                    h.step(scaled_head(w, x)).0,
                ),
            }
            &&& match w.condition {
                None => after.condition is None,
                Some(m) => after.condition == Some(Box::new(m.step(x).0)),
            }
            &&& after.head_scale == w.head_scale
            &&& after.arrays.len() == n
            &&& forall|i: int|
                0 <= i < n ==> #[trigger] after.arrays[i] == w.arrays[i].step(
                    (passed_on(w.arrays, opening(w, x), c, i as nat), c),
                ).0
        }),
{
    let n = w.arrays.len();
    let c = conditioning_of(w, x);
    assert(w.conditioned(x).1 == c);
    assert(w.seed(x).head =~= opening(w, x).head);
    assert(w.arrays.take(n as int) =~= w.arrays);
    lemma_stages_in_series(w.arrays, opening(w, x), c, n);
    let last = passed_on(w.arrays, opening(w, x), c, n);
    assert(scaled(w.head_scale, last.head) =~= scaled_head(w, x));
}

/// A WaveNet without arrays scales its input.
pub proof fn lemma_wavenet_without_arrays<N>(w: WaveNetModel<N>, x: Expr<N>)
    requires
        w.arrays.len() == 0,
    ensures
        w.step(x) == (w, seq![product(w.head_scale, x)]),
{
}

/// Whether array `k - 1` is the last of those that share a head buffer with array `n - 1`
/// and have a head row: the arrays write to two buffers in turn.
pub open spec fn last_voice<N>(w: WaveNetModel<N>, k: int, n: int) -> bool {
    &&& 0 < k <= n
    &&& (n - k) % 2 == 0
    &&& w.arrays[k - 1].head_size() > 0
    &&& forall|j: int|
        k < j <= n && (n - j) % 2 == 0 ==> (#[trigger] w.arrays[j - 1]).head_size() == 0
}

proof fn lemma_lead<N>(w: WaveNetModel<N>, x: Expr<N>, c: Seq<Expr<N>>, k: int, n: int)
    requires
        last_voice(w, k, n),
        n <= w.arrays.len(),
    ensures
        w.lead(x, c, n) == chain_step(w.arrays.take(k), w.seed(x), c).1.head[0],
    decreases n,
{
    if k < n {
        assert(w.arrays[n - 1].head_size() == 0);
        assert((n - (n - 2)) % 2 == 0);
        assert forall|j: int| k < j <= n - 2 && (n - 2 - j) % 2 == 0 implies (
        #[trigger] w.arrays[j - 1]).head_size() == 0 by {
            assert((n - j) % 2 == 0);
        }
        assert((n - 2 - k) % 2 == 0);
        lemma_lead(w, x, c, k, n - 2);
    }
}

proof fn lemma_no_lead<N>(w: WaveNetModel<N>, x: Expr<N>, c: Seq<Expr<N>>, n: int)
    requires
        n <= w.arrays.len(),
        forall|j: int|
            0 < j <= n && (n - j) % 2 == 0 ==> (#[trigger] w.arrays[j - 1]).head_size() == 0,
    ensures
        w.lead(x, c, n) == Expr::<N>::Zero,
    decreases n + 2,
{
    if n > 0 {
        assert(w.arrays[n - 1].head_size() == 0);
        assert forall|j: int| 0 < j <= n - 2 && (n - 2 - j) % 2 == 0 implies (
        #[trigger] w.arrays[j - 1]).head_size() == 0 by {
            assert((n - j) % 2 == 0);
        }
        lemma_no_lead(w, x, c, n - 2);
    }
}

/// Where the last array has no head row and there is no post-stack head, one number is
/// heard: the scaled first head row of the last array before it, counting every second
/// one, that has a row, and silence where none has.
pub proof fn lemma_wavenet_without_rows<N>(w: WaveNetModel<N>, x: Expr<N>)
    requires
        w.arrays.len() > 0,
        w.head is None,
        w.arrays.last().head_size() == 0,
    ensures
        forall|k: int| #[trigger]
            last_voice(w, k, w.arrays.len() as int) ==> w.step(x).1 == seq![
                product(
                    w.head_scale,
                    passed_on(w.arrays, opening(w, x), conditioning_of(w, x), k as nat).head[0],
                ),
            ],
        (forall|k: int| !#[trigger] last_voice(w, k, w.arrays.len() as int)) ==> w.step(x).1
            == seq![product(w.head_scale, Expr::Zero)],
{
    let n = w.arrays.len() as int;
    let c = conditioning_of(w, x);
    assert(w.conditioned(x).1 == c);
    assert(w.seed(x).head =~= opening(w, x).head);
    assert forall|k: int| #[trigger] last_voice(w, k, n) implies w.step(x).1 == seq![
        product(w.head_scale, passed_on(w.arrays, opening(w, x), c, k as nat).head[0]),
    ] by {
        lemma_lead(w, x, c, k, n);
        lemma_stages_in_series(w.arrays, opening(w, x), c, k as nat);
    }
    if forall|k: int| !#[trigger] last_voice(w, k, n) {
        lemma_none_sounds(w, n, n);
        lemma_no_lead(w, x, c, n);
    }
}

proof fn lemma_none_sounds<N>(w: WaveNetModel<N>, j: int, n: int)
    requires
        forall|k: int| !#[trigger] last_voice(w, k, n),
        0 <= j <= n,
        forall|i: int|
            j < i <= n && (n - i) % 2 == 0 ==> (#[trigger] w.arrays[i - 1]).head_size() == 0,
    ensures
        forall|i: int|
            0 < i <= n && (n - i) % 2 == 0 ==> (#[trigger] w.arrays[i - 1]).head_size() == 0,
    decreases j,
{
    if j > 0 {
        assert(!last_voice(w, j, n));
        lemma_none_sounds(w, j - 1, n);
    }
}

// ---- Models ----

/// A model does what its network does: a WaveNet's rows come out as they are, and an
/// LSTM's sample as the only row.
pub proof fn lemma_models_do_what_their_networks_do<N>(
    w: WaveNetModel<N>,
    l: LstmModel<N>,
    x: Expr<N>,
)
    ensures
        EngineModel::WaveNet(w).step(x) == (EngineModel::WaveNet(w.step(x).0), w.step(x).1),
        EngineModel::Lstm(l).step(x) == (EngineModel::Lstm(l.step(x).0), seq![l.step(x).1]),
{
}

/// A model with output rows gives, for every sample, a number for each of them.
pub proof fn lemma_a_number_for_every_row<N>(m: EngineModel<N>, x: Expr<N>)
    requires
        m.valid(),
        m.rows() > 0,
    ensures
        m.step(x).1.len() == m.rows(),
    decreases m,
{
    match m {
        EngineModel::WaveNet(w) => {
            let n = w.arrays.len();
            if n > 0 {
                lemma_wavenet_in_series(w, x);
                assert(w.array_fits(n - 1));
                if let Some(h) = w.head {
                    lemma_head_in_series(h, scaled_head(w, x));
                }
            }
        },
        EngineModel::Lstm(_) => {},
        EngineModel::Slimmable(s) => {
            lemma_a_number_for_every_row(s.submodels[s.active as int], x);
        },
    }
}

} // verus!
