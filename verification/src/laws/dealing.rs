//! How a file becomes a network: which of its weights each part is given, and what its
//! config says of each layer.

use vstd::prelude::*;
use crate::arith::Expr;
use crate::engine::{EngineModel, SlimModel, WaveNetModel};
use crate::json::JsonNumber;
use crate::laws::lemma_one_group_is_dense;
use crate::laws::networks::{
    lemma_gating, logistic, product, shaped, site_mixes, sound_layer, sum, tangent,
};
use crate::loading::{
    arrays_field, engine_failure, engine_of, head_field, layers_field, lemma_field_of,
    lemma_wavenet_field, wavenet_failure, wavenet_of,
};
use crate::lstm::cell::CellModel;
use crate::lstm::{
    cells_weight_count, in_dim, lstm_failure, lstm_of, lstm_weight_count, LstmModel,
};
use crate::model::{
    ActivationChoice, ArrayShape, FilmConfig, GatingMode, LstmConfig, NamShape, PostHeadShape,
    WaveNetShape,
};
use crate::reader::span;
use crate::wavenet::activation::resolved;
use crate::wavenet::array::ArrayModel;
use crate::wavenet::assembly::{dense_at, film_at, grouped_at, lemma_compact, splits};
use crate::wavenet::conv::{spread, ConvModel};
use crate::wavenet::film::FilmModel;
use crate::wavenet::head::{HeadModel, HeadStage};
use crate::wavenet::layer::{FilmsModel, LayerModel};
use crate::wavenet::weights::{arrays_count, conv_count, film_count, film_rows};

verus! {

// ---- Grouped convolutions ----

/// The weights of a convolution as a file has them: for every output, the inputs of its
/// own group alone, and for each of them its taps.
pub open spec fn compact<N>(m: ConvModel<N>, groups: nat) -> Seq<Expr<N>> {
    let group_in = m.in_ch as int / groups as int;
    let group_out = m.out_ch as int / groups as int;
    Seq::new(
        (m.out_ch * group_in * m.kernel) as nat,
        |q: int|
            {
                let k = q % (m.kernel as int);
                let j = q / (m.kernel as int) % group_in;
                let o = q / (m.kernel as int) / group_in;
                m.weights[(o * m.in_ch + (o / group_out * group_in + j)) * m.kernel + k]
            },
    )
}

/// Whether an output meets the inputs of its own group alone: every other weight is zero.
#[verifier::opaque]
pub open spec fn keeps_to_groups<N>(m: ConvModel<N>, groups: nat) -> bool {
    let group_in = m.in_ch as int / groups as int;
    let group_out = m.out_ch as int / groups as int;
    forall|o: int, j: int, k: int|
        0 <= o < m.out_ch && 0 <= j < m.in_ch && 0 <= k < m.kernel && o / group_out != j / group_in
            ==> #[trigger] m.weights[(o * m.in_ch + j) * m.kernel + k] == Expr::<N>::Zero
}

proof fn lemma_divided(q: int, n: int, r: int)
    requires
        0 <= r < n,
        0 <= q,
    ensures
        (q * n + r) / n == q,
        (q * n + r) % n == r,
        0 <= q * n,
{
    vstd::arithmetic::div_mod::lemma_fundamental_div_mod_converse(q * n + r, n, q, r);
    assert(0 <= q * n) by (nonlinear_arith)
        requires
            0 <= q,
            0 <= n,
    ;
}

proof fn lemma_below(q: int, n: int, r: int, rows: int)
    requires
        0 <= r < n,
        0 <= q < rows,
    ensures
        0 <= q * n + r < rows * n,
{
    assert(0 <= q * n + r < rows * n) by (nonlinear_arith)
        requires
            0 <= r < n,
            0 <= q < rows,
    ;
}

proof fn lemma_spread_at<N>(
    in_ch: nat,
    out_ch: nat,
    kernel: nat,
    groups: nat,
    w: Seq<Expr<N>>,
    o: int,
    j: int,
    k: int,
)
    requires
        0 <= o < out_ch,
        0 <= j < in_ch,
        0 <= k < kernel,
        groups >= 1,
    ensures
        spread(in_ch, out_ch, kernel, groups, w)[(o * in_ch + j) * kernel + k] == (if o / (
        (out_ch / groups) as int) == j / ((in_ch / groups) as int) {
            w[(o * (in_ch / groups) as int + j % ((in_ch / groups) as int)) * kernel + k]
        } else {
            Expr::Zero
        }),
{
    let n = in_ch as int;
    lemma_divided(o, n, j);
    lemma_below(o, n, j, out_ch as int);
    let row = o * n + j;
    lemma_divided(row, kernel as int, k);
    lemma_below(row, kernel as int, k, out_ch * n);
}

/// The inputs of a group stand side by side.
proof fn lemma_compact_spread<N>(m: ConvModel<N>, groups: nat, w: Seq<Expr<N>>)
    requires
        groups >= 1,
        m.kernel >= 1,
        m.in_ch % groups == 0,
        m.out_ch % groups == 0,
        m.weights == spread(m.in_ch, m.out_ch, m.kernel, groups, w),
        w.len() == m.out_ch * (m.in_ch as int / groups as int) * m.kernel,
    ensures
        compact(m, groups) == w,
        keeps_to_groups(m, groups),
{
    reveal(keeps_to_groups);
    let g = groups as int;
    let n = m.in_ch as int;
    let ker = m.kernel as int;
    let gi = n / g;
    let go = m.out_ch as int / g;
    assert(gi == (m.in_ch / groups) as int);
    assert(go == (m.out_ch / groups) as int);
    let got = compact(m, groups);
    assert(gi >= 0) by (nonlinear_arith)
        requires
            gi == n / g,
            n >= 0,
            g >= 1,
    ;
    assert forall|q: int| 0 <= q < w.len() implies #[trigger] got[q] == w[q] by {
        let k = q % ker;
        let r = q / ker;
        let out = m.out_ch as int;
        assert(gi > 0 && out > 0) by (nonlinear_arith)
            requires
                0 <= q < out * gi * ker,
                gi >= 0,
                out >= 0,
                ker >= 1,
        ;
        assert(r * ker + k == q && 0 <= k < ker && 0 <= r < out * gi) by (nonlinear_arith)
            requires
                r == q / ker,
                k == q % ker,
                0 <= q < out * gi * ker,
                ker >= 1,
        ;
        let j = r % gi;
        let o = r / gi;
        assert(o * gi + j == r && 0 <= j < gi && 0 <= o < out) by (nonlinear_arith)
            requires
                o == r / gi,
                j == r % gi,
                0 <= r < out * gi,
                gi > 0,
        ;
        assert(go > 0 && out == go * g && n == gi * g) by (nonlinear_arith)
            requires
                go == out / g,
                gi == n / g,
                out % g == 0,
                n % g == 0,
                out > 0,
                g >= 1,
        ;
        let group = o / go;
        assert(0 <= group < g) by (nonlinear_arith)
            requires
                group == o / go,
                0 <= o < go * g,
                go > 0,
        ;
        lemma_divided(group, gi, j);
        lemma_below(group, gi, j, g);
        assert(g * gi == n) by (nonlinear_arith)
            requires
                n == gi * g,
        ;
        lemma_spread_at(m.in_ch, m.out_ch, m.kernel, groups, w, o, group * gi + j, k);
    }
    assert(got =~= w);
    assert forall|o: int, j: int, k: int|
        0 <= o < m.out_ch && 0 <= j < m.in_ch && 0 <= k < m.kernel && o / go != j / gi implies #[trigger] m.weights[(o * m.in_ch + j) * m.kernel + k] == Expr::<N>::Zero by {
        lemma_spread_at(m.in_ch, m.out_ch, m.kernel, groups, w, o, j, k);
    }
}

// ---- Weights in a row ----

/// The numbers of a run of weights.
pub open spec fn weights_of<N>(w: Seq<JsonNumber>) -> Seq<Expr<N>> {
    Seq::new(w.len(), |i: int| Expr::Constant(w[i]))
}

/// The weights of a convolution in a row: those of its outputs, then its bias.
pub open spec fn conv_row<N>(m: ConvModel<N>, groups: nat) -> Seq<Expr<N>> {
    compact(m, groups) + match m.bias {
        Some(b) => b,
        None => Seq::empty(),
    }
}

pub open spec fn maybe_conv_row<N>(m: Option<ConvModel<N>>, groups: nat) -> Seq<Expr<N>> {
    match m {
        Some(c) => conv_row(c, groups),
        None => Seq::empty(),
    }
}

pub open spec fn site_row<N>(site: Option<FilmModel<N>>, f: FilmConfig) -> Seq<Expr<N>> {
    match site {
        Some(m) => conv_row(m.conv, f.groups as nat),
        None => Seq::empty(),
    }
}

/// The weights of the FiLM sites of a layer in a row.
pub open spec fn sites_row<N>(m: FilmsModel<N>, s: ArrayShape) -> Seq<Expr<N>> {
    site_row(m.conv_pre, s.conv_pre_film) + site_row(m.conv_post, s.conv_post_film) + site_row(
        m.mixin_pre,
        s.input_mixin_pre_film,
    ) + site_row(m.mixin_post, s.input_mixin_post_film) + site_row(
        m.activation_pre,
        s.activation_pre_film,
    ) + site_row(m.activation_post, s.activation_post_film) + site_row(
        m.layer1x1_post,
        s.layer1x1_post_film,
    ) + site_row(m.head1x1_post, s.head1x1_post_film)
}

/// The weights of a layer in a row: dilated convolution, mix-in, residual 1x1, head 1x1,
/// and the FiLM sites.
pub open spec fn layer_row<N>(m: LayerModel<N>, s: ArrayShape) -> Seq<Expr<N>> {
    conv_row(m.conv, s.groups_input as nat) + conv_row(m.mixin, s.groups_input_mixin as nat)
        + maybe_conv_row(m.layer1x1, s.layer1x1.groups as nat) + maybe_conv_row(
        m.head1x1,
        s.head1x1.groups as nat,
    ) + sites_row(m.films, s)
}

/// The weights of the first `n` layers in a row.
pub open spec fn layers_row<N>(layers: Seq<LayerModel<N>>, s: ArrayShape, n: nat) -> Seq<Expr<N>>
    decreases n,
{
    if n == 0 {
        Seq::empty()
    } else {
        layers_row(layers, s, (n - 1) as nat) + layer_row(layers[n - 1], s)
    }
}

/// The weights of an array in a row: rechannel, layers, head rechannel.
pub open spec fn array_row<N>(m: ArrayModel<N>, s: ArrayShape) -> Seq<Expr<N>> {
    conv_row(m.rechannel, 1) + layers_row(m.layers, s, m.layers.len()) + conv_row(
        m.head_rechannel,
        1,
    )
}

/// The weights of the first `n` arrays in a row.
pub open spec fn arrays_row<N>(
    arrays: Seq<ArrayModel<N>>,
    layers: Seq<ArrayShape>,
    n: nat,
) -> Seq<Expr<N>>
    decreases n,
{
    if n == 0 {
        Seq::empty()
    } else {
        arrays_row(arrays, layers, (n - 1) as nat) + array_row(arrays[n - 1], layers[n - 1])
    }
}

/// The weights of the first `n` stages of a post-stack head in a row.
pub open spec fn stages_row<N>(stages: Seq<HeadStage<N>>, n: nat) -> Seq<Expr<N>>
    decreases n,
{
    if n == 0 {
        Seq::empty()
    } else {
        stages_row(stages, (n - 1) as nat) + conv_row(stages[n - 1].conv, 1)
    }
}

/// The weights of a WaveNet in a row: arrays, post-stack head, head scale.
pub open spec fn wavenet_row<N>(m: WaveNetModel<N>, c: WaveNetShape) -> Seq<Expr<N>> {
    arrays_row(m.arrays, c.layers, m.arrays.len()) + (match m.head {
        Some(h) => stages_row(h.stages, h.stages.len()),
        None => Seq::empty(),
    }) + seq![m.head_scale]
}

proof fn lemma_span_joined<N>(w: Seq<JsonNumber>, at: nat, n: nat, k: nat)
    requires
        at + n + k <= w.len(),
    ensures
        span::<N>(w, at, n) + span::<N>(w, at + n, k) == span::<N>(w, at, n + k),
        span::<N>(w, at, n).len() == n,
{
    assert(span::<N>(w, at, n) + span::<N>(w, at + n, k) =~= span::<N>(w, at, n + k));
}

proof fn lemma_span_nothing<N>(w: Seq<JsonNumber>, at: nat)
    requires
        at <= w.len(),
    ensures
        span::<N>(w, at, 0) == Seq::<Expr<N>>::empty(),
{
    assert(span::<N>(w, at, 0) =~= Seq::<Expr<N>>::empty());
}

spec fn bias_count(biased: bool, out: nat) -> nat {
    if biased {
        out
    } else {
        0
    }
}

proof fn lemma_grouped_row<N>(
    w: Seq<JsonNumber>,
    at: nat,
    in_ch: nat,
    out_ch: nat,
    kernel: nat,
    dilation: nat,
    groups: usize,
    biased: bool,
)
    requires
        splits(groups, in_ch, out_ch),
        kernel >= 1,
        at + conv_count(out_ch, in_ch, kernel, groups) + bias_count(biased, out_ch) <= w.len(),
    ensures
        ({
            let m = grouped_at::<N>(w, at, in_ch, out_ch, kernel, dilation, groups, biased);
            &&& conv_row(m, groups as nat) == span::<N>(
                w,
                at,
                conv_count(out_ch, in_ch, kernel, groups) + bias_count(biased, out_ch),
            )
            &&& keeps_to_groups(m, groups as nat)
            &&& m.in_ch == in_ch
            &&& m.out_ch == out_ch
            &&& m.kernel == kernel
            &&& m.dilation == dilation
            &&& m.bias is Some == biased
        }),
{
    reveal(grouped_at);
    let n = conv_count(out_ch, in_ch, kernel, groups);
    let m = grouped_at::<N>(w, at, in_ch, out_ch, kernel, dilation, groups, biased);
    lemma_compact(out_ch, in_ch, kernel, groups);
    lemma_span_joined::<N>(w, at, n, bias_count(biased, out_ch));
    lemma_compact_spread(m, groups as nat, span::<N>(w, at, n));
    if !biased {
        lemma_span_nothing::<N>(w, at + n);
    }
}

proof fn lemma_dense_row<N>(
    w: Seq<JsonNumber>,
    at: nat,
    in_ch: nat,
    out_ch: nat,
    kernel: nat,
    biased: bool,
)
    requires
        kernel >= 1,
        at + out_ch * in_ch * kernel + bias_count(biased, out_ch) <= w.len(),
    ensures
        ({
            let m = dense_at::<N>(w, at, in_ch, out_ch, kernel, biased);
            &&& out_ch * in_ch * kernel >= 0
            &&& conv_row(m, 1) == span::<N>(
                w,
                at,
                (out_ch * in_ch * kernel) as nat + bias_count(biased, out_ch),
            )
            &&& m.in_ch == in_ch
            &&& m.out_ch == out_ch
            &&& m.kernel == kernel
            &&& m.dilation == 1
            &&& m.bias is Some == biased
        }),
{
    reveal(dense_at);
    assert(out_ch * in_ch * kernel >= 0) by (nonlinear_arith);
    let n = (out_ch * in_ch * kernel) as nat;
    let m = dense_at::<N>(w, at, in_ch, out_ch, kernel, biased);
    lemma_span_joined::<N>(w, at, n, bias_count(biased, out_ch));
    lemma_one_group_is_dense(in_ch, out_ch, kernel, span::<N>(w, at, n));
    assert(in_ch as int / 1 == in_ch);
    lemma_compact_spread(m, 1, span::<N>(w, at, n));
    if !biased {
        lemma_span_nothing::<N>(w, at + n);
    }
}

proof fn lemma_site_row<N>(w: Seq<JsonNumber>, at: nat, f: FilmConfig, dim: nat, cond: nat)
    requires
        f.active ==> splits(f.groups, cond, film_rows(f, dim)),
        at + film_count(f, dim, cond) <= w.len(),
    ensures
        ({
            let site = film_at::<N>(w, at, f, dim, cond);
            &&& site_row(site, f) == span::<N>(w, at, film_count(f, dim, cond))
            &&& site is Some == f.active
            &&& site matches Some(m) ==> {
                &&& m.dim == dim
                &&& m.shift == f.shift
                &&& m.conv.in_ch == cond
                &&& m.conv.kernel == 1
                &&& m.conv.dilation == 1
                &&& m.conv.out_ch == film_rows(f, dim)
                &&& m.conv.bias is Some
                &&& m.valid()
                &&& keeps_to_groups(m.conv, f.groups as nat)
            }
        }),
{
    reveal(film_at);
    if f.active {
        let rows = film_rows(f, dim);
        let n = conv_count(rows, cond, 1, f.groups);
        let m = film_at::<N>(w, at, f, dim, cond)->Some_0;
        lemma_compact(rows, cond, 1, f.groups);
        lemma_span_joined::<N>(w, at, n, rows);
        lemma_compact_spread(m.conv, f.groups as nat, span::<N>(w, at, n));
        assert(m.conv.past =~= Seq::empty());
        assert(m.conv.fresh().past =~= Seq::empty());
        assert(rows * cond * 1 == rows * cond);
        assert(rows * cond >= 0) by (nonlinear_arith);
    } else {
        lemma_span_nothing::<N>(w, at);
    }
}

proof fn lemma_films_count(s: ArrayShape, j: nat)
    ensures
        s.films_count(j + 1) == s.films_count(j) + film_count(
            s.film(j as int),
            s.film_dim(j as int),
            s.condition_size as nat,
        ),
        s.films_count(0) == 0,
{
}

proof fn lemma_films_grow(s: ArrayShape, i: nat, j: nat)
    requires
        i <= j,
    ensures
        s.films_count(i) <= s.films_count(j),
    decreases j - i,
{
    if i < j {
        lemma_films_grow(s, i + 1, j);
    }
}

proof fn lemma_sites_upto<N>(s: ArrayShape, w: Seq<JsonNumber>, at: nat, j: nat)
    requires
        j < 8,
        s.site_splits(j as int),
        at + s.films_count(8) <= w.len(),
    ensures
        span::<N>(w, at, s.films_count(j)) + site_row(s.site_at::<N>(w, at, j as int), s.film(j as int))
            == span::<N>(w, at, s.films_count(j + 1)),
{
    lemma_films_count(s, j);
    lemma_films_grow(s, j + 1, 8);
    let cond = s.condition_size as nat;
    let n = film_count(s.film(j as int), s.film_dim(j as int), cond);
    lemma_site_row::<N>(w, at + s.films_count(j), s.film(j as int), s.film_dim(j as int), cond);
    lemma_span_joined::<N>(w, at, s.films_count(j), n);
}

proof fn lemma_sites_row<N>(s: ArrayShape, w: Seq<JsonNumber>, at: nat)
    requires
        s.site_splits(0),
        s.site_splits(1),
        s.site_splits(2),
        s.site_splits(3),
        s.site_splits(4),
        s.site_splits(5),
        s.site_splits(6),
        s.site_splits(7),
        at + s.films_count(8) <= w.len(),
    ensures
        sites_row(s.films_at::<N>(w, at), s) == span::<N>(w, at, s.films_count(8)),
{
    lemma_sites_upto::<N>(s, w, at, 0);
    lemma_sites_upto::<N>(s, w, at, 1);
    lemma_sites_upto::<N>(s, w, at, 2);
    lemma_sites_upto::<N>(s, w, at, 3);
    lemma_sites_upto::<N>(s, w, at, 4);
    lemma_sites_upto::<N>(s, w, at, 5);
    lemma_sites_upto::<N>(s, w, at, 6);
    lemma_sites_upto::<N>(s, w, at, 7);
    lemma_films_count(s, 0);
    lemma_span_nothing::<N>(w, at);
    let first = site_row(s.films_at::<N>(w, at).conv_pre, s.conv_pre_film);
    assert(Seq::<Expr<N>>::empty() + first =~= first);
}

/// Whether a FiLM site is there where a config has it active, and is as it says.
pub open spec fn site_as_configured<N>(
    site: Option<FilmModel<N>>,
    f: FilmConfig,
    dim: nat,
    cond: nat,
) -> bool {
    &&& site is Some == f.active
    &&& site matches Some(m) ==> {
        &&& m.shift == f.shift
        &&& m.conv.bias is Some
        &&& keeps_to_groups(m.conv, f.groups as nat)
    }
    &&& site_mixes(site, dim, cond)
}

/// Rows of the signal that a layer activates: as many again where there are gate rows.
pub open spec fn rows_before_gating(s: ArrayShape, i: int) -> nat {
    match s.gating_modes[i] {
        GatingMode::Ungated => s.bottleneck as nat,
        _ => (s.bottleneck + s.bottleneck) as nat,
    }
}

/// Width of what a layer adds to the head.
pub open spec fn width_shown(s: ArrayShape) -> nat {
    if s.head1x1.active {
        match s.head1x1.out_channels {
            Some(n) => n as nat,
            None => s.channels as nat,
        }
    } else {
        s.bottleneck as nat
    }
}

/// Whether a layer is what its array's config says of layer `i`: its dilated convolution
/// has the kernel size and dilation that stand there for layer `i`, its gating the mode;
/// each 1x1 and each FiLM site is there where it is active, and has its width, groups and
/// bias; and it remembers silence.
pub open spec fn layer_as_configured<N>(m: LayerModel<N>, s: ArrayShape, i: int) -> bool {
    let ch = s.channels as nat;
    let bn = s.bottleneck as nat;
    let cond = s.condition_size as nat;
    let mid = rows_before_gating(s, i);
    &&& m.conv.in_ch == ch && m.conv.out_ch == mid
    &&& m.conv.kernel == s.kernel_sizes[i] && m.conv.dilation == s.dilations[i]
    &&& m.conv.bias is Some && keeps_to_groups(m.conv, s.groups_input as nat)
    &&& m.conv.past.len() == (s.kernel_sizes[i] - 1) * s.dilations[i]
    &&& forall|t: int, j: int|
        0 <= t < m.conv.past.len() && 0 <= j < ch ==> #[trigger] m.conv.past[t][j]
            == Expr::<N>::Zero
    &&& m.mixin.in_ch == cond && m.mixin.out_ch == mid && m.mixin.bias is None
    &&& keeps_to_groups(m.mixin, s.groups_input_mixin as nat)
    &&& m.layer1x1 is Some == s.layer1x1.active
    &&& m.layer1x1 matches Some(l) ==> l.in_ch == bn && l.out_ch == ch && l.bias is Some
        && keeps_to_groups(l, s.layer1x1.groups as nat)
    &&& m.head1x1 is Some == s.head1x1.active
    &&& m.head1x1 matches Some(h) ==> h.in_ch == bn && h.out_ch == width_shown(s) && h.bias is Some
        && keeps_to_groups(h, s.head1x1.groups as nat)
    &&& m.gating.mode == s.gating_modes[i]
    &&& m.gating.bottleneck == s.bottleneck
    &&& site_as_configured(m.films.conv_pre, s.conv_pre_film, ch, cond)
    &&& site_as_configured(m.films.conv_post, s.conv_post_film, mid, cond)
    &&& site_as_configured(m.films.mixin_pre, s.input_mixin_pre_film, cond, cond)
    &&& site_as_configured(m.films.mixin_post, s.input_mixin_post_film, mid, cond)
    &&& site_as_configured(m.films.activation_pre, s.activation_pre_film, mid, cond)
    &&& site_as_configured(m.films.activation_post, s.activation_post_film, bn, cond)
    &&& site_as_configured(m.films.layer1x1_post, s.layer1x1_post_film, ch, cond)
    &&& m.films.head1x1_post is Some == s.head1x1_post_film.active
    &&& s.head1x1.active ==> site_as_configured(
        m.films.head1x1_post,
        s.head1x1_post_film,
        width_shown(s),
        cond,
    )
}

proof fn lemma_grouped_valid<N>(
    w: Seq<JsonNumber>,
    at: nat,
    in_ch: nat,
    out_ch: nat,
    kernel: nat,
    dilation: nat,
    groups: usize,
    biased: bool,
)
    requires
        kernel >= 1,
        at + conv_count(out_ch, in_ch, kernel, groups) + bias_count(biased, out_ch) <= w.len(),
    ensures
        ({
            let m = grouped_at::<N>(w, at, in_ch, out_ch, kernel, dilation, groups, biased);
            &&& m.valid()
            &&& forall|t: int, j: int|
                0 <= t < m.past.len() && 0 <= j < in_ch ==> #[trigger] m.past[t][j]
                    == Expr::<N>::Zero
        }),
{
    reveal(grouped_at);
    assert(out_ch * in_ch * kernel >= 0) by (nonlinear_arith);
    assert((kernel - 1) * dilation >= 0) by (nonlinear_arith)
        requires
            kernel >= 1,
    ;
    if biased {
        lemma_span_joined::<N>(w, at, conv_count(out_ch, in_ch, kernel, groups), out_ch);
    }
}

proof fn lemma_five_joined<N>(
    w: Seq<JsonNumber>,
    at: nat,
    counts: (nat, nat, nat, nat, nat),
    rows: (Seq<Expr<N>>, Seq<Expr<N>>, Seq<Expr<N>>, Seq<Expr<N>>, Seq<Expr<N>>),
)
    requires
        at + counts.0 + counts.1 + counts.2 + counts.3 + counts.4 <= w.len(),
        rows.0 == span::<N>(w, at, counts.0),
        rows.1 == span::<N>(w, at + counts.0, counts.1),
        rows.2 == span::<N>(w, at + counts.0 + counts.1, counts.2),
        rows.3 == span::<N>(w, at + counts.0 + counts.1 + counts.2, counts.3),
        rows.4 == span::<N>(w, at + counts.0 + counts.1 + counts.2 + counts.3, counts.4),
    ensures
        rows.0 + rows.1 + rows.2 + rows.3 + rows.4 == span::<N>(
            w,
            at,
            counts.0 + counts.1 + counts.2 + counts.3 + counts.4,
        ),
{
    lemma_span_joined::<N>(w, at, counts.0, counts.1);
    lemma_span_joined::<N>(w, at, counts.0 + counts.1, counts.2);
    lemma_span_joined::<N>(w, at, counts.0 + counts.1 + counts.2, counts.3);
    lemma_span_joined::<N>(w, at, counts.0 + counts.1 + counts.2 + counts.3, counts.4);
}

/// The weights of a layer, in a row, are those of the file from where it begins.
#[verifier::spinoff_prover]
proof fn lemma_layer_row<N>(s: ArrayShape, input: nat, w: Seq<JsonNumber>, at: nat, i: int)
    requires
        s.sound(input),
        0 <= i < s.kernel_sizes.len(),
        at + s.layer_count(i) <= w.len(),
    ensures
        layer_row(s.layer_at::<N>(w, at, i), s) == span::<N>(w, at, s.layer_count(i)),
{
    let m = s.layer_at::<N>(w, at, i);
    let ch = s.channels as nat;
    let bn = s.bottleneck as nat;
    let cond = s.condition_size as nat;
    let mid = s.mid();
    let n1 = s.dilated_count(i) + mid;
    let n2 = n1 + s.mixin_count();
    let n3 = n2 + s.layer1x1_count();
    let n4 = n3 + s.head1x1_count();
    let conv = conv_row(m.conv, s.groups_input as nat);
    let mixin = conv_row(m.mixin, s.groups_input_mixin as nat);
    let residual = maybe_conv_row(m.layer1x1, s.layer1x1.groups as nat);
    let shown = maybe_conv_row(m.head1x1, s.head1x1.groups as nat);
    let sites = sites_row(m.films, s);
    assert(conv == span::<N>(w, at, n1)) by {
        let k = s.kernel_sizes[i] as nat;
        let d = s.dilations[i] as nat;
        lemma_grouped_row::<N>(w, at, ch, mid, k, d, s.groups_input, true);
    }
    assert(mixin == span::<N>(w, at + n1, s.mixin_count())) by {
        lemma_grouped_row::<N>(w, at + n1, cond, mid, 1, 1, s.groups_input_mixin, false);
    }
    assert(residual == span::<N>(w, at + n2, s.layer1x1_count())) by {
        if s.layer1x1.active {
            lemma_grouped_row::<N>(w, at + n2, bn, ch, 1, 1, s.layer1x1.groups, true);
        } else {
            lemma_span_nothing::<N>(w, at + n2);
        }
    }
    assert(shown == span::<N>(w, at + n3, s.head1x1_count())) by {
        if s.head1x1.active {
            lemma_grouped_row::<N>(w, at + n3, bn, s.head1x1_out(), 1, 1, s.head1x1.groups, true);
        } else {
            lemma_span_nothing::<N>(w, at + n3);
        }
    }
    assert(sites == span::<N>(w, at + n4, s.films_count(8))) by {
        lemma_sites_row::<N>(s, w, at + n4);
    }
    lemma_five_joined::<N>(
        w,
        at,
        (n1, s.mixin_count(), s.layer1x1_count(), s.head1x1_count(), s.films_count(8)),
        (conv, mixin, residual, shown, sites),
    );
}

proof fn lemma_site_configured<N>(s: ArrayShape, w: Seq<JsonNumber>, at: nat, j: nat)
    requires
        j < 8,
        s.site_splits(j as int),
        at + s.films_count(8) <= w.len(),
    ensures
        site_as_configured(
            s.site_at::<N>(w, at, j as int),
            s.film(j as int),
            s.film_dim(j as int),
            s.condition_size as nat,
        ),
{
    lemma_films_count(s, j);
    lemma_films_grow(s, j + 1, 8);
    lemma_site_row::<N>(
        w,
        at + s.films_count(j),
        s.film(j as int),
        s.film_dim(j as int),
        s.condition_size as nat,
    );
}

proof fn lemma_sites_configured<N>(s: ArrayShape, w: Seq<JsonNumber>, at: nat)
    requires
        s.site_splits(0),
        s.site_splits(1),
        s.site_splits(2),
        s.site_splits(3),
        s.site_splits(4),
        s.site_splits(5),
        s.site_splits(6),
        s.site_splits(7),
        at + s.films_count(8) <= w.len(),
    ensures
        ({
            let f = s.films_at::<N>(w, at);
            let ch = s.channels as nat;
            let bn = s.bottleneck as nat;
            let cond = s.condition_size as nat;
            let mid = s.mid();
            &&& site_as_configured(f.conv_pre, s.conv_pre_film, ch, cond)
            &&& site_as_configured(f.conv_post, s.conv_post_film, mid, cond)
            &&& site_as_configured(f.mixin_pre, s.input_mixin_pre_film, cond, cond)
            &&& site_as_configured(f.mixin_post, s.input_mixin_post_film, mid, cond)
            &&& site_as_configured(f.activation_pre, s.activation_pre_film, mid, cond)
            &&& site_as_configured(f.activation_post, s.activation_post_film, bn, cond)
            &&& site_as_configured(f.layer1x1_post, s.layer1x1_post_film, ch, cond)
            &&& site_as_configured(f.head1x1_post, s.head1x1_post_film, s.head1x1_out(), cond)
        }),
{
    lemma_site_configured::<N>(s, w, at, 0);
    lemma_site_configured::<N>(s, w, at, 1);
    lemma_site_configured::<N>(s, w, at, 2);
    lemma_site_configured::<N>(s, w, at, 3);
    lemma_site_configured::<N>(s, w, at, 4);
    lemma_site_configured::<N>(s, w, at, 5);
    lemma_site_configured::<N>(s, w, at, 6);
    lemma_site_configured::<N>(s, w, at, 7);
}

/// Whether a convolution has these widths, this kernel size and dilation, a bias where it
/// says so, keeps to its groups, and remembers silence.
spec fn conv_as_configured<N>(
    m: ConvModel<N>,
    in_ch: nat,
    out_ch: nat,
    kernel: nat,
    dilation: nat,
    groups: usize,
    biased: bool,
) -> bool {
    &&& m.in_ch == in_ch
    &&& m.out_ch == out_ch
    &&& m.kernel == kernel
    &&& m.dilation == dilation
    &&& m.bias is Some == biased
    &&& keeps_to_groups(m, groups as nat)
    &&& m.valid()
    &&& forall|t: int, j: int|
        0 <= t < m.past.len() && 0 <= j < in_ch ==> #[trigger] m.past[t][j] == Expr::<N>::Zero
}

proof fn lemma_grouped_configured<N>(
    w: Seq<JsonNumber>,
    at: nat,
    in_ch: nat,
    out_ch: nat,
    kernel: nat,
    dilation: nat,
    groups: usize,
    biased: bool,
)
    requires
        splits(groups, in_ch, out_ch),
        kernel >= 1,
        at + conv_count(out_ch, in_ch, kernel, groups) + bias_count(biased, out_ch) <= w.len(),
    ensures
        conv_as_configured(
            grouped_at::<N>(w, at, in_ch, out_ch, kernel, dilation, groups, biased),
            in_ch,
            out_ch,
            kernel,
            dilation,
            groups,
            biased,
        ),
{
    lemma_grouped_row::<N>(w, at, in_ch, out_ch, kernel, dilation, groups, biased);
    lemma_grouped_valid::<N>(w, at, in_ch, out_ch, kernel, dilation, groups, biased);
}

/// Whether the convolutions and the gating of a layer are what its array's config says.
spec fn parts_as_configured<N>(m: LayerModel<N>, s: ArrayShape, i: int) -> bool {
    let ch = s.channels as nat;
    let bn = s.bottleneck as nat;
    let cond = s.condition_size as nat;
    let mid = s.mid();
    &&& conv_as_configured(
        m.conv,
        ch,
        mid,
        s.kernel_sizes[i] as nat,
        s.dilations[i] as nat,
        s.groups_input,
        true,
    )
    &&& conv_as_configured(m.mixin, cond, mid, 1, 1, s.groups_input_mixin, false)
    &&& m.layer1x1 is Some == s.layer1x1.active
    &&& m.layer1x1 matches Some(l) ==> conv_as_configured(l, bn, ch, 1, 1, s.layer1x1.groups, true)
    &&& m.head1x1 is Some == s.head1x1.active
    &&& m.head1x1 matches Some(h) ==> conv_as_configured(
        h,
        bn,
        s.head1x1_out(),
        1,
        1,
        s.head1x1.groups,
        true,
    )
    &&& m.gating.mode == s.gating_modes[0]
    &&& m.gating.bottleneck == s.bottleneck
}

proof fn lemma_parts_configured<N>(s: ArrayShape, input: nat, w: Seq<JsonNumber>, at: nat, i: int)
    requires
        s.sound(input),
        0 <= i < s.kernel_sizes.len(),
        at + s.layer_count(i) <= w.len(),
    ensures
        parts_as_configured(s.layer_at::<N>(w, at, i), s, i),
{
    let ch = s.channels as nat;
    let bn = s.bottleneck as nat;
    let cond = s.condition_size as nat;
    let mid = s.mid();
    let a1 = at + s.dilated_count(i) + mid;
    let a2 = a1 + s.mixin_count();
    let a3 = a2 + s.layer1x1_count();
    let k = s.kernel_sizes[i] as nat;
    let d = s.dilations[i] as nat;
    lemma_grouped_configured::<N>(w, at, ch, mid, k, d, s.groups_input, true);
    lemma_grouped_configured::<N>(w, a1, cond, mid, 1, 1, s.groups_input_mixin, false);
    if s.layer1x1.active {
        lemma_grouped_configured::<N>(w, a2, bn, ch, 1, 1, s.layer1x1.groups, true);
    }
    if s.head1x1.active {
        lemma_grouped_configured::<N>(w, a3, bn, s.head1x1_out(), 1, 1, s.head1x1.groups, true);
    }
}

proof fn lemma_layer_configured<N>(s: ArrayShape, input: nat, w: Seq<JsonNumber>, at: nat, i: int)
    requires
        s.sound(input),
        s.gating_modes[i] == s.gating_modes[0],
        0 <= i < s.kernel_sizes.len(),
        at + s.layer_count(i) <= w.len(),
    ensures
        layer_as_configured(s.layer_at::<N>(w, at, i), s, i),
        sound_layer(s.layer_at::<N>(w, at, i)),
{
    let a1 = at + s.dilated_count(i) + s.mid();
    let a2 = a1 + s.mixin_count();
    let a3 = a2 + s.layer1x1_count();
    let a4 = a3 + s.head1x1_count();
    let m = s.layer_at::<N>(w, at, i);
    lemma_parts_configured::<N>(s, input, w, at, i);
    lemma_sites_configured::<N>(s, w, a4);
    assert(m.films == s.films_at::<N>(w, a4));
    lemma_put_together(m, s, input, i);
}

proof fn lemma_put_together<N>(m: LayerModel<N>, s: ArrayShape, input: nat, i: int)
    requires
        s.sound(input),
        s.gating_modes[i] == s.gating_modes[0],
        parts_as_configured(m, s, i),
        site_as_configured(
            m.films.conv_pre,
            s.conv_pre_film,
            s.channels as nat,
            s.condition_size as nat,
        ),
        site_as_configured(m.films.conv_post, s.conv_post_film, s.mid(), s.condition_size as nat),
        site_as_configured(
            m.films.mixin_pre,
            s.input_mixin_pre_film,
            s.condition_size as nat,
            s.condition_size as nat,
        ),
        site_as_configured(
            m.films.mixin_post,
            s.input_mixin_post_film,
            s.mid(),
            s.condition_size as nat,
        ),
        site_as_configured(
            m.films.activation_pre,
            s.activation_pre_film,
            s.mid(),
            s.condition_size as nat,
        ),
        site_as_configured(
            m.films.activation_post,
            s.activation_post_film,
            s.bottleneck as nat,
            s.condition_size as nat,
        ),
        site_as_configured(
            m.films.layer1x1_post,
            s.layer1x1_post_film,
            s.channels as nat,
            s.condition_size as nat,
        ),
        site_as_configured(
            m.films.head1x1_post,
            s.head1x1_post_film,
            s.head1x1_out(),
            s.condition_size as nat,
        ),
    ensures
        layer_as_configured(m, s, i),
        sound_layer(m),
{
    assert((1 - 1) * 1 == 0);
    assert(s.mid() == rows_before_gating(s, i));
    assert(m.gating.rows() == s.mid());
    assert(m.valid());
}

proof fn lemma_layers_grow(s: ArrayShape, i: nat, n: nat)
    requires
        i <= n,
    ensures
        s.layers_count(i) <= s.layers_count(n),
    decreases n - i,
{
    if i < n {
        lemma_layers_grow(s, i + 1, n);
    }
}

proof fn lemma_layers_row<N>(
    s: ArrayShape,
    input: nat,
    w: Seq<JsonNumber>,
    first: nat,
    layers: Seq<LayerModel<N>>,
    n: nat,
)
    requires
        s.sound(input),
        n <= s.kernel_sizes.len(),
        first + s.layers_count(s.kernel_sizes.len()) <= w.len(),
        layers.len() == s.kernel_sizes.len(),
        forall|i: int|
            0 <= i < layers.len() ==> #[trigger] layers[i] == s.layer_at::<N>(
                w,
                first + s.layers_count(i as nat),
                i,
            ),
    ensures
        layers_row(layers, s, n) == span::<N>(w, first, s.layers_count(n)),
    decreases n,
{
    lemma_layers_grow(s, n, s.kernel_sizes.len());
    if n == 0 {
        lemma_span_nothing::<N>(w, first);
    } else {
        lemma_layers_row(s, input, w, first, layers, (n - 1) as nat);
        lemma_layer_row::<N>(s, input, w, first + s.layers_count((n - 1) as nat), n - 1);
        lemma_span_joined::<N>(w, first, s.layers_count((n - 1) as nat), s.layer_count(n - 1));
    }
}

/// Whether an array is what its config says of it: a plain rechannel from its input to its
/// channels, a layer for every dilation, and a head rechannel from what the layers show to
/// its head size, with the kernel size and bias that stand there.
pub open spec fn array_as_configured<N>(m: ArrayModel<N>, s: ArrayShape) -> bool {
    &&& m.rechannel.in_ch == s.input_size && m.rechannel.out_ch == s.channels
    &&& m.rechannel.kernel == 1 && m.rechannel.bias is None
    &&& m.layers.len() == s.dilations.len()
    &&& forall|i: int|
        0 <= i < m.layers.len() ==> layer_as_configured(#[trigger] m.layers[i], s, i)
            && sound_layer(m.layers[i])
    &&& m.head_rechannel.in_ch == width_shown(s) && m.head_rechannel.out_ch == s.head_size
    &&& m.head_rechannel.kernel == s.head_kernel_size && m.head_rechannel.dilation == 1
    &&& m.head_rechannel.bias is Some == s.head_bias
}

proof fn lemma_array_row<N>(s: ArrayShape, input: nat, w: Seq<JsonNumber>, at: nat)
    requires
        s.sound(input),
        s.wf(),
        forall|i: int|
            0 <= i < s.gating_modes.len() ==> #[trigger] s.gating_modes[i] == s.gating_modes[0],
        at + s.count() <= w.len(),
    ensures
        array_row(s.array_at::<N>(w, at), s) == span::<N>(w, at, s.count()),
        array_as_configured(s.array_at::<N>(w, at), s),
{
    let m = s.array_at::<N>(w, at);
    let n = s.kernel_sizes.len();
    let n0 = (s.channels * s.input_size) as nat;
    let first = at + n0;
    assert(s.channels * s.input_size >= 0) by (nonlinear_arith);
    assert(s.channels * s.input_size * 1 == s.channels * s.input_size);
    assert(s.head_size * s.head_in() * s.head_kernel_size >= 0) by (nonlinear_arith);
    lemma_dense_row::<N>(w, at, s.input_size as nat, s.channels as nat, 1, false);
    lemma_layers_row(s, input, w, first, m.layers, n);
    let n2 = s.head_count() + bias_count(s.head_bias, s.head_size as nat);
    lemma_dense_row::<N>(
        w,
        first + s.layers_count(n),
        s.head_in(),
        s.head_size as nat,
        s.head_kernel_size as nat,
        s.head_bias,
    );
    lemma_span_joined::<N>(w, at, n0, s.layers_count(n));
    lemma_span_joined::<N>(w, at, n0 + s.layers_count(n), n2);
    assert forall|i: int| 0 <= i < m.layers.len() implies layer_as_configured(
        #[trigger] m.layers[i],
        s,
        i,
    ) && sound_layer(m.layers[i]) by {
        lemma_layers_grow(s, (i + 1) as nat, n);
        assert(s.gating_modes[i] == s.gating_modes[0]);
        lemma_layer_configured::<N>(s, input, w, first + s.layers_count(i as nat), i);
    }
}

// ---- WaveNets ----

/// Where the first arrays of a WaveNet can be built, each of them can.
pub proof fn lemma_array_builds(c: WaveNetShape, n: nat, i: int)
    requires
        c.arrays_build_failure(n) is None,
        0 <= i < n <= c.layers.len(),
    ensures
        c.layers[i].build_failure(c.array_input(i)) is None,
    decreases n,
{
    if i < n - 1 {
        lemma_array_builds(c, (n - 1) as nat, i);
    }
}

/// Where the activations of the first layers can be had, each of them can.
pub proof fn lemma_activations_resolve(s: ArrayShape, n: nat, i: int)
    requires
        s.activation_failure(n) is None,
        0 <= i < n,
    ensures
        resolved(s.activations[i]) is Ok,
        resolved(s.secondary_activations[i]) is Ok,
    decreases n,
{
    if i < n - 1 {
        lemma_activations_resolve(s, (n - 1) as nat, i);
    }
}

/// Where an array does not mix gating modes, its layers have that of the first.
pub proof fn lemma_one_mode(c: WaveNetShape, a: int)
    requires
        !c.mixes_gating(),
        0 <= a < c.layers.len(),
    ensures
        forall|i: int|
            0 <= i < c.layers[a].gating_modes.len() ==> #[trigger] c.layers[a].gating_modes[i]
                == c.layers[a].gating_modes[0],
{
    assert forall|i: int| 0 <= i < c.layers[a].gating_modes.len() implies #[trigger] c.layers[a].gating_modes[i]
        == c.layers[a].gating_modes[0] by {
        if c.layers[a].gating_modes[i] != c.layers[a].gating_modes[0] {
            assert(c.mixes_gating());
        }
    }
}

proof fn lemma_arrays_grow(layers: Seq<ArrayShape>, i: nat, n: nat)
    requires
        i <= n,
    ensures
        arrays_count(layers, i) <= arrays_count(layers, n),
    decreases n - i,
{
    if i < n {
        lemma_arrays_grow(layers, i + 1, n);
    }
}

/// Whether a config is one of a WaveNet that can be built of these weights.
spec fn builds(c: WaveNetShape, w: Seq<JsonNumber>) -> bool {
    &&& !c.mixes_gating()
    &&& c.arrays_build_failure(c.layers.len()) is None
    &&& c.count() == w.len()
    &&& c.post_stack_head matches Some(h) ==> h.build_failure(c.head_input()) is None
    &&& forall|i: int| 0 <= i < c.layers.len() ==> (#[trigger] c.layers[i]).wf()
}

proof fn lemma_built_array<N>(c: WaveNetShape, w: Seq<JsonNumber>, a: int)
    requires
        builds(c, w),
        0 <= a < c.layers.len(),
    ensures
        ({
            let s = c.layers[a];
            let m = wavenet_of::<N>(c, w).arrays[a];
            &&& array_row(m, s) == span::<N>(w, arrays_count(c.layers, a as nat), s.count())
            &&& array_as_configured(m, s)
            &&& arrays_count(c.layers, a as nat) + s.count() <= w.len()
            &&& s.activation_failure(s.kernel_sizes.len()) is None
        }),
{
    let s = c.layers[a];
    lemma_array_builds(c, c.layers.len(), a);
    lemma_one_mode(c, a);
    lemma_arrays_grow(c.layers, (a + 1) as nat, c.layers.len());
    lemma_array_row::<N>(s, c.array_input(a), w, arrays_count(c.layers, a as nat));
}

proof fn lemma_arrays_row<N>(c: WaveNetShape, w: Seq<JsonNumber>, n: nat)
    requires
        builds(c, w),
        n <= c.layers.len(),
    ensures
        arrays_row(wavenet_of::<N>(c, w).arrays, c.layers, n) == span::<N>(
            w,
            0,
            arrays_count(c.layers, n),
        ),
        arrays_count(c.layers, n) <= w.len(),
    decreases n,
{
    if n == 0 {
        lemma_span_nothing::<N>(w, 0);
    } else {
        lemma_arrays_row::<N>(c, w, (n - 1) as nat);
        lemma_built_array::<N>(c, w, n - 1);
        lemma_span_joined::<N>(w, 0, arrays_count(c.layers, (n - 1) as nat), c.layers[n - 1].count());
    }
}

proof fn lemma_stages_grow(h: PostHeadShape, in_ch: nat, i: nat, n: nat)
    requires
        i <= n,
    ensures
        h.count(in_ch, i) <= h.count(in_ch, n),
    decreases n - i,
{
    if i < n {
        lemma_stages_grow(h, in_ch, i + 1, n);
    }
}

/// Width of what stage `i` of a post-stack head is given.
pub open spec fn stage_input(h: PostHeadShape, in_ch: nat, i: int) -> nat {
    if i == 0 {
        in_ch
    } else {
        h.channels as nat
    }
}

/// Width of what stage `i` of a post-stack head gives.
pub open spec fn stage_output(h: PostHeadShape, i: int) -> nat {
    if i == h.kernel_sizes.len() - 1 {
        h.out_channels as nat
    } else {
        h.channels as nat
    }
}

/// Whether a stage of a post-stack head is what the config says of stage `i`.
pub open spec fn stage_as_configured<N>(
    m: HeadStage<N>,
    h: PostHeadShape,
    in_ch: nat,
    i: int,
) -> bool {
    &&& m.conv.in_ch == stage_input(h, in_ch, i)
    &&& m.conv.out_ch == stage_output(h, i)
    &&& m.conv.kernel == h.kernel_sizes[i]
    &&& m.conv.dilation == 1
    &&& m.conv.bias is Some
}

proof fn lemma_stage_row<N>(h: PostHeadShape, w: Seq<JsonNumber>, at: nat, in_ch: nat, i: int)
    requires
        h.build_failure(in_ch) is None,
        0 <= i < h.kernel_sizes.len(),
        at + h.count(in_ch, h.kernel_sizes.len()) <= w.len(),
    ensures
        conv_row(h.stage_at::<N>(w, at, in_ch, i).conv, 1) == span::<N>(
            w,
            at + h.count(in_ch, i as nat),
            h.conv_weights(in_ch, i) + h.out_width(i),
        ),
        h.count(in_ch, (i + 1) as nat) == h.count(in_ch, i as nat) + h.conv_weights(in_ch, i)
            + h.out_width(i),
        stage_as_configured(h.stage_at::<N>(w, at, in_ch, i), h, in_ch, i),
{
    lemma_stages_grow(h, in_ch, (i + 1) as nat, h.kernel_sizes.len());
    assert(h.kernel_sizes[i] != 0);
    assert(h.out_width(i) * h.in_width(in_ch, i) * h.kernel_sizes[i] >= 0) by (nonlinear_arith);
    lemma_dense_row::<N>(
        w,
        at + h.count(in_ch, i as nat),
        h.in_width(in_ch, i),
        h.out_width(i),
        h.kernel_sizes[i] as nat,
        true,
    );
}

proof fn lemma_stages_row<N>(
    h: PostHeadShape,
    w: Seq<JsonNumber>,
    at: nat,
    in_ch: nat,
    n: nat,
)
    requires
        h.build_failure(in_ch) is None,
        n <= h.kernel_sizes.len(),
        at + h.count(in_ch, h.kernel_sizes.len()) <= w.len(),
    ensures
        stages_row(h.head_at::<N>(w, at, in_ch).stages, n) == span::<N>(w, at, h.count(in_ch, n)),
    decreases n,
{
    lemma_stages_grow(h, in_ch, n, h.kernel_sizes.len());
    if n == 0 {
        lemma_span_nothing::<N>(w, at);
    } else {
        lemma_stages_row::<N>(h, w, at, in_ch, (n - 1) as nat);
        lemma_stage_row::<N>(h, w, at, in_ch, n - 1);
        lemma_span_joined::<N>(
            w,
            at,
            h.count(in_ch, (n - 1) as nat),
            h.conv_weights(in_ch, n - 1) + h.out_width(n - 1),
        );
    }
}

proof fn lemma_failure_free(m: NamShape)
    requires
        wavenet_failure(m) is None,
        m.wf(),
    ensures
        m.config is WaveNet,
        builds(m.config->WaveNet_0, m.weights),
{
}

/// Every weight of a file has its place in the network, each once and in the order of
/// the file: array after array its rechannel, its layers and its head rechannel, of each
/// layer its convolutions and its FiLM sites; then the post-stack head, and last the head
/// scale.
pub proof fn lemma_weights_are_dealt_in_order<N>(m: NamShape)
    requires
        wavenet_failure(m) is None,
        m.wf(),
    ensures
        wavenet_row(wavenet_of::<N>(m.config->WaveNet_0, m.weights), m.config->WaveNet_0)
            == weights_of::<N>(m.weights),
{
    lemma_failure_free(m);
    let c = m.config->WaveNet_0;
    let w = m.weights;
    let net = wavenet_of::<N>(c, w);
    let n = arrays_count(c.layers, c.layers.len());
    lemma_arrays_row::<N>(c, w, c.layers.len());
    match c.post_stack_head {
        Some(h) => {
            lemma_stages_row::<N>(h, w, n, c.head_input(), h.kernel_sizes.len());
            lemma_span_joined::<N>(w, 0, n, h.count(c.head_input(), h.kernel_sizes.len()));
        },
        None => {
            lemma_span_nothing::<N>(w, n);
            lemma_span_joined::<N>(w, 0, n, 0);
        },
    }
    assert(seq![net.head_scale] =~= span::<N>(w, (c.count() - 1) as nat, 1));
    lemma_span_joined::<N>(w, 0, (c.count() - 1) as nat, 1);
    assert(span::<N>(w, 0, w.len()) =~= weights_of::<N>(w));
}

/// Every array, every layer and every stage of the post-stack head is what the config
/// says of it, in the order of the config; and the nested model is the one that stands
/// there.
pub proof fn lemma_network_as_configured<N>(m: NamShape)
    requires
        wavenet_failure(m) is None,
        m.wf(),
    ensures
        ({
            let c = m.config->WaveNet_0;
            let net = wavenet_of::<N>(c, m.weights);
            &&& net.arrays.len() == c.layers.len()
            &&& forall|a: int|
                0 <= a < c.layers.len() ==> array_as_configured(
                    #[trigger] net.arrays[a],
                    c.layers[a],
                )
            &&& net.head is Some == c.post_stack_head is Some
            &&& c.post_stack_head matches Some(h) ==> {
                let stages = net.head->Some_0.stages;
                &&& stages.len() == h.kernel_sizes.len()
                &&& forall|i: int|
                    0 <= i < stages.len() ==> stage_as_configured(
                        #[trigger] stages[i],
                        h,
                        if c.layers.len() == 0 {
                            0
                        } else {
                            c.layers.last().head_size as nat
                        },
                        i,
                    )
            }
            &&& net.condition == match c.condition_dsp {
                Some(d) => Some(Box::new(engine_of::<N>(*d))),
                None => None,
            }
        }),
{
    lemma_failure_free(m);
    let c = m.config->WaveNet_0;
    let w = m.weights;
    let net = wavenet_of::<N>(c, w);
    assert forall|a: int| 0 <= a < c.layers.len() implies array_as_configured(
        #[trigger] net.arrays[a],
        c.layers[a],
    ) by {
        lemma_built_array::<N>(c, w, a);
    }
    match c.post_stack_head {
        Some(h) => {
            let at = arrays_count(c.layers, c.layers.len());
            let stages = net.head->Some_0.stages;
            assert forall|i: int| 0 <= i < stages.len() implies stage_as_configured(
                #[trigger] stages[i],
                h,
                c.head_input(),
                i,
            ) by {
                lemma_stage_row::<N>(h, w, at, c.head_input(), i);
            }
        },
        None => {},
    }
}

// ---- Activations ----

/// What the activation that a file names makes of a number.
pub open spec fn named<N>(choice: ActivationChoice, x: Expr<N>) -> Option<Expr<N>> {
    match choice {
        ActivationChoice::Named { name, negative_slope } => if name == "Tanh"@ {
            Some(tangent(x))
        } else if name == "ReLU"@ {
            Some(Expr::Maximum(Box::new(x), Box::new(Expr::Zero)))
        } else if name == "Sigmoid"@ {
            Some(logistic(x))
        } else if name == "LeakyReLU"@ {
            let slope = match negative_slope {
                Some(n) => n,
                // One hundredth, as a double.
                None => JsonNumber::Float(0x3F847AE147AE147B),
            };
            Some(
                Expr::Choice(
                    Box::new(x),
                    Box::new(Expr::Zero),
                    Box::new(x),
                    Box::new(product(Expr::Constant(slope), x)),
                ),
            )
        } else {
            None
        },
        ActivationChoice::Unsupported(_) => None,
    }
}

proof fn lemma_named<N>(choice: ActivationChoice, x: Expr<N>)
    requires
        resolved(choice) is Ok,
    ensures
        named(choice, x) == Some(shaped(resolved(choice)->Ok_0, x)),
{
}

/// In a network built from a file, the value rows of layer `i` of array `a` go through the
/// activation that the file names for that layer, and its gate rows, which stand below
/// them, through the secondary activation that it names for that layer.
pub proof fn lemma_rows_go_through_their_activations<N>(
    m: NamShape,
    a: int,
    i: int,
    z: Seq<Expr<N>>,
    r: int,
)
    requires
        wavenet_failure(m) is None,
        m.wf(),
        0 <= a < m.config->WaveNet_0.layers.len(),
        0 <= i < m.config->WaveNet_0.layers[a].dilations.len(),
        0 <= r < m.config->WaveNet_0.layers[a].bottleneck,
    ensures
        ({
            let s = m.config->WaveNet_0.layers[a];
            let layer = wavenet_of::<N>(m.config->WaveNet_0, m.weights).arrays[a].layers[i];
            let value = named(s.activations[i], z[r]);
            let gate = named(s.secondary_activations[i], z[s.bottleneck + r]);
            let out = layer.gating.apply(z)[r];
            &&& value is Some
            &&& gate is Some
            &&& match s.gating_modes[i] {
                GatingMode::Ungated => out == value->Some_0,
                GatingMode::Gated => out == product(value->Some_0, gate->Some_0),
                GatingMode::Blended => out == sum(
                    product(gate->Some_0, value->Some_0),
                    product(
                        Expr::Difference(Box::new(Expr::One), Box::new(gate->Some_0)),
                        z[r],
                    ),
                ),
            }
        }),
{
    lemma_failure_free(m);
    let c = m.config->WaveNet_0;
    let s = c.layers[a];
    let net = wavenet_of::<N>(c, m.weights);
    let layer = net.arrays[a].layers[i];
    lemma_built_array::<N>(c, m.weights, a);
    assert(layer_as_configured(net.arrays[a].layers[i], s, i));
    lemma_activations_resolve(s, s.kernel_sizes.len(), i);
    lemma_named(s.activations[i], z[r]);
    lemma_named(s.secondary_activations[i], z[s.bottleneck + r]);
    lemma_gating(layer.gating, z);
}

/// Every stage of a post-stack head has the activation that the file names for the head.
pub proof fn lemma_head_activation<N>(m: NamShape, i: int, x: Expr<N>)
    requires
        wavenet_failure(m) is None,
        m.wf(),
        m.config->WaveNet_0.post_stack_head is Some,
        0 <= i < m.config->WaveNet_0.post_stack_head->Some_0.kernel_sizes.len(),
    ensures
        ({
            let c = m.config->WaveNet_0;
            let net = wavenet_of::<N>(c, m.weights);
            Some(shaped(net.head->Some_0.stages[i].activation, x)) == named(
                c.post_stack_head->Some_0.activation,
                x,
            )
        }),
{
    lemma_failure_free(m);
    lemma_named(m.config->WaveNet_0.post_stack_head->Some_0.activation, x);
}

// ---- LSTMs ----

/// The weights of a layer in a row: matrix, bias, and the state it starts from.
pub open spec fn cell_row<N>(m: CellModel<N>) -> Seq<Expr<N>> {
    m.w + m.b + m.h0 + m.c0
}

/// The weights of the first `n` layers in a row.
pub open spec fn cells_row<N>(cells: Seq<CellModel<N>>, n: nat) -> Seq<Expr<N>>
    decreases n,
{
    if n == 0 {
        Seq::empty()
    } else {
        cells_row(cells, (n - 1) as nat) + cell_row(cells[n - 1])
    }
}

/// Whether a layer has the widths of layer `i` of an LSTM, and is in the state it starts
/// from.
pub open spec fn cell_as_configured<N>(m: CellModel<N>, cfg: LstmConfig, i: int) -> bool {
    &&& m.hidden_size == cfg.hidden_size
    &&& m.input_size == if i == 0 {
        cfg.input_size
    } else {
        cfg.hidden_size
    }
    &&& m.valid()
    &&& m.h == m.h0
    &&& m.c == m.c0
}

proof fn lemma_cells_grow(cfg: LstmConfig, i: nat, n: nat)
    requires
        i <= n,
    ensures
        cells_weight_count(cfg, i) <= cells_weight_count(cfg, n),
    decreases n - i,
{
    if i < n {
        lemma_cells_grow(cfg, i + 1, n);
    }
}

proof fn lemma_cell_row<N>(cfg: LstmConfig, w: Seq<JsonNumber>, i: int)
    requires
        0 <= i < cfg.num_layers,
        w.len() == lstm_weight_count(cfg),
    ensures
        ({
            let at = cells_weight_count(cfg, i as nat);
            let after = cells_weight_count(cfg, (i + 1) as nat);
            let m = lstm_of::<N>(cfg, w).cells[i];
            &&& at <= after <= w.len()
            &&& cell_row(m) == span::<N>(w, at, (after - at) as nat)
            &&& cell_as_configured(m, cfg, i)
        }),
{
    let at = cells_weight_count(cfg, i as nat);
    let h = cfg.hidden_size as nat;
    let d = in_dim(cfg, i);
    assert(4 * h * (d + h) >= 0) by (nonlinear_arith);
    let big = (4 * h * (d + h)) as nat;
    lemma_cells_grow(cfg, (i + 1) as nat, cfg.num_layers as nat);
    lemma_span_joined::<N>(w, at, big, 4 * h);
    lemma_span_joined::<N>(w, at, big + 4 * h, h);
    lemma_span_joined::<N>(w, at, big + 4 * h + h, h);
}

proof fn lemma_cells_row<N>(cfg: LstmConfig, w: Seq<JsonNumber>, n: nat)
    requires
        n <= cfg.num_layers,
        w.len() == lstm_weight_count(cfg),
    ensures
        cells_row(lstm_of::<N>(cfg, w).cells, n) == span::<N>(w, 0, cells_weight_count(cfg, n)),
    decreases n,
{
    lemma_cells_grow(cfg, n, cfg.num_layers as nat);
    if n == 0 {
        lemma_span_nothing::<N>(w, 0);
    } else {
        let at = cells_weight_count(cfg, (n - 1) as nat);
        lemma_cells_row::<N>(cfg, w, (n - 1) as nat);
        lemma_cell_row::<N>(cfg, w, n - 1);
        lemma_span_joined::<N>(w, 0, at, (cells_weight_count(cfg, n) - at) as nat);
    }
}

/// Every weight of an LSTM's file has its place in the network, each once and in the
/// order of the file: layer after layer its matrix, its bias and the state it starts
/// from; then the weights of the head and its bias.
pub proof fn lemma_lstm_weights_are_dealt_in_order<N>(m: NamShape)
    requires
        lstm_failure(m) is None,
    ensures
        ({
            let cfg = m.config->Lstm_0;
            let net = lstm_of::<N>(cfg, m.weights);
            &&& engine_of::<N>(m) == EngineModel::Lstm(net)
            &&& cells_row(net.cells, net.cells.len()) + net.head_w + seq![net.head_b]
                == weights_of::<N>(m.weights)
            &&& net.cells.len() == cfg.num_layers
            &&& net.head_w.len() == cfg.hidden_size
            &&& forall|i: int|
                0 <= i < net.cells.len() ==> cell_as_configured(#[trigger] net.cells[i], cfg, i)
            &&& net.valid()
        }),
{
    let cfg = m.config->Lstm_0;
    let w = m.weights;
    let net = lstm_of::<N>(cfg, w);
    let n = cells_weight_count(cfg, cfg.num_layers as nat);
    let h = cfg.hidden_size as nat;
    lemma_cells_row::<N>(cfg, w, cfg.num_layers as nat);
    lemma_span_joined::<N>(w, 0, n, h);
    lemma_span_joined::<N>(w, n, h, 1);
    assert(seq![net.head_b] =~= span::<N>(w, n + h, 1));
    lemma_span_joined::<N>(w, 0, n + h, 1);
    assert(span::<N>(w, 0, w.len()) =~= weights_of::<N>(w));
    assert forall|i: int| 0 <= i < net.cells.len() implies cell_as_configured(
        #[trigger] net.cells[i],
        cfg,
        i,
    ) by {
        lemma_cell_row::<N>(cfg, w, i);
    }
}

// ---- Receptive fields ----

pub open spec fn added_up(ns: Seq<nat>) -> nat
    decreases ns.len(),
{
    if ns.len() == 0 {
        0
    } else {
        added_up(ns.drop_last()) + ns.last()
    }
}

/// How far back the taps of each layer of an array reach.
pub open spec fn layer_reaches(s: ArrayShape) -> Seq<nat> {
    Seq::new(s.dilations.len(), |i: int| ((s.kernel_sizes[i] - 1) * s.dilations[i]) as nat)
}

/// How far back each array of a WaveNet reaches: its layers and its head rechannel.
pub open spec fn array_reaches(c: WaveNetShape) -> Seq<nat> {
    Seq::new(
        c.layers.len(),
        |a: int| (added_up(layer_reaches(c.layers[a])) + c.layers[a].head_kernel_size - 1) as nat,
    )
}

/// How far back each stage of a post-stack head reaches.
pub open spec fn stage_reaches(h: PostHeadShape) -> Seq<nat> {
    Seq::new(h.kernel_sizes.len(), |i: int| (h.kernel_sizes[i] - 1) as nat)
}

proof fn lemma_layers_reach(s: ArrayShape, n: nat)
    requires
        s.wf(),
        n <= s.dilations.len(),
    ensures
        layers_field(s, n) == added_up(layer_reaches(s).take(n as int)),
    decreases n,
{
    let ns = layer_reaches(s);
    if n > 0 {
        lemma_layers_reach(s, (n - 1) as nat);
        assert(ns.take(n as int).drop_last() =~= ns.take(n - 1));
    }
}

proof fn lemma_arrays_reach(c: WaveNetShape, n: nat)
    requires
        forall|i: int| 0 <= i < c.layers.len() ==> (#[trigger] c.layers[i]).wf(),
        forall|i: int| 0 <= i < c.layers.len() ==> (#[trigger] c.layers[i]).head_kernel_size >= 1,
        n <= c.layers.len(),
    ensures
        arrays_field(c.layers, n) == added_up(array_reaches(c).take(n as int)),
    decreases n,
{
    let ns = array_reaches(c);
    if n > 0 {
        let s = c.layers[n - 1];
        lemma_arrays_reach(c, (n - 1) as nat);
        lemma_layers_reach(s, s.dilations.len());
        assert(layer_reaches(s).take(s.dilations.len() as int) =~= layer_reaches(s));
        assert(ns.take(n as int).drop_last() =~= ns.take(n - 1));
        assert(s.head_kernel_size >= 1);
    }
}

proof fn lemma_stages_reach(h: PostHeadShape, n: nat)
    requires
        n <= h.kernel_sizes.len(),
    ensures
        head_field(h, n) == added_up(stage_reaches(h).take(n as int)),
    decreases n,
{
    let ns = stage_reaches(h);
    if n > 0 {
        lemma_stages_reach(h, (n - 1) as nat);
        assert(ns.take(n as int).drop_last() =~= ns.take(n - 1));
    }
}

/// The receptive field of a WaveNet is one, or that of its nested model, and what every
/// convolution on the way reaches back beyond its newest tap: those of the layers in
/// dilations, those of the head rechannels and of the post-stack head in samples.
pub proof fn lemma_receptive_field_adds_up<N>(m: NamShape)
    requires
        wavenet_failure(m) is None,
        m.wf(),
    ensures
        ({
            let c = m.config->WaveNet_0;
            wavenet_of::<N>(c, m.weights).receptive_field() == (match c.condition_dsp {
                Some(d) => engine_of::<N>(*d).receptive_field(),
                None => 1,
            }) + added_up(array_reaches(c)) + (match c.post_stack_head {
                Some(h) => added_up(stage_reaches(h)),
                None => 0,
            })
        }),
{
    lemma_failure_free(m);
    let c = m.config->WaveNet_0;
    lemma_wavenet_field::<N>(c, m.weights);
    assert forall|i: int| 0 <= i < c.layers.len() implies (
    #[trigger] c.layers[i]).head_kernel_size >= 1 by {
        lemma_array_builds(c, c.layers.len(), i);
    }
    lemma_arrays_reach(c, c.layers.len());
    assert(array_reaches(c).take(c.layers.len() as int) =~= array_reaches(c));
    match c.post_stack_head {
        Some(h) => {
            lemma_stages_reach(h, h.kernel_sizes.len());
            assert(stage_reaches(h).take(h.kernel_sizes.len() as int) =~= stage_reaches(h));
        },
        None => {},
    }
    match c.condition_dsp {
        Some(d) => {
            lemma_field_of::<N>(*d);
        },
        None => {},
    }
}

/// A post-stack head by itself depends on one sample, and on one more for every tap beyond
/// the first of each of its convolutions.
pub proof fn lemma_head_receptive_field<N>(h: HeadModel<N>)
    requires
        forall|i: int| 0 <= i < h.stages.len() ==> (#[trigger] h.stages[i]).conv.kernel >= 1,
    ensures
        h.receptive_field() == 1 + added_up(
            Seq::new(h.stages.len(), |i: int| (h.stages[i].conv.kernel - 1) as nat),
        ),
    decreases h.stages.len(),
{
    let ns = Seq::new(h.stages.len(), |i: int| (h.stages[i].conv.kernel - 1) as nat);
    if h.stages.len() > 0 {
        let front = HeadModel { stages: h.stages.drop_last() };
        assert(forall|i: int|
            0 <= i < front.stages.len() ==> #[trigger] front.stages[i] == h.stages[i]);
        lemma_head_receptive_field(front);
        assert(ns.drop_last() =~= Seq::new(
            front.stages.len(),
            |i: int| (front.stages[i].conv.kernel - 1) as nat,
        ));
        assert(h.stages.last().conv.kernel >= 1);
    }
}

/// An LSTM needs no warmup, and a container as much as its active submodel.
pub proof fn lemma_other_receptive_fields<N>(l: LstmModel<N>, s: SlimModel<N>)
    requires
        s.active < s.submodels.len(),
    ensures
        EngineModel::Lstm(l).receptive_field() == 0,
        EngineModel::Slimmable(s).receptive_field()
            == s.submodels[s.active as int].receptive_field(),
{
}

// ---- Containers ----

/// A container has a submodel for every submodel of its file, each built as the file of
/// that submodel by itself would be, with the threshold that stands beside it; the last
/// of them is active.
pub proof fn lemma_container_as_configured<N>(m: NamShape)
    requires
        m.config is Slimmable,
        engine_failure(m) is None,
    ensures
        ({
            let subs = m.config->Slimmable_0;
            engine_of::<N>(m) matches EngineModel::Slimmable(s) && {
                &&& subs.len() > 0
                &&& s.submodels.len() == subs.len()
                &&& s.max_values.len() == subs.len()
                &&& s.active == subs.len() - 1
                &&& forall|i: int|
                    0 <= i < subs.len() ==> #[trigger] s.submodels[i] == engine_of::<N>(
                        subs[i].model,
                    )
                &&& forall|i: int|
                    0 <= i < subs.len() ==> #[trigger] s.max_values[i] == subs[i].max_value
            }
        }),
{
}

} // verus!
