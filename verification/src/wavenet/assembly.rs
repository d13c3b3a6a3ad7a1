//! Building the parts of a WaveNet from its config and its weights.

use vstd::prelude::*;
use crate::arith::Arith;
use crate::error::{Error, Failure};
use crate::json::JsonNumber;
use crate::model::{
    ArrayShape, FilmConfig, GatingMode, LayerArrayConfig, PostHeadShape, PostStackHeadConfig,
};
use crate::reader::{span, Reader};
use crate::signal::MAX_BLOCK;
use crate::wavenet::activation::{resolved, Activation};
use crate::wavenet::array::{layer_views, ArrayModel, LayerArray};
use crate::wavenet::conv::{spread, Conv1d, ConvModel};
use crate::wavenet::film::{FiLM, FilmModel};
use crate::wavenet::gating::Gating;
use crate::wavenet::head::{stage_views, HeadModel, HeadStage, PostStackHead};
use crate::wavenet::layer::{conv_view, film_fits, site_view, Films, FilmsModel, Layer, LayerModel};
use crate::wavenet::weights::{conv_count, film_count, film_rows, head1x1_width, head_in_width};
use vstd::arithmetic::overflow::CheckedUsize;

verus! {

/// A grouped convolution read from `at` on: its weights, then its bias if it has one.
#[verifier::opaque]
pub open spec fn grouped_at<N>(
    w: Seq<JsonNumber>,
    at: nat,
    in_ch: nat,
    out_ch: nat,
    kernel: nat,
    dilation: nat,
    groups: usize,
    biased: bool,
) -> ConvModel<N> {
    let n = conv_count(out_ch, in_ch, kernel, groups);
    ConvModel::made(
        in_ch,
        out_ch,
        kernel,
        dilation,
        spread(in_ch, out_ch, kernel, groups as nat, span(w, at, n)),
        if biased {
            Some(span(w, at + n, out_ch))
        } else {
            None
        },
    )
}

/// A dense convolution of dilation one read from `at` on: its weights, then its bias if
/// it has one.
#[verifier::opaque]
pub open spec fn dense_at<N>(
    w: Seq<JsonNumber>,
    at: nat,
    in_ch: nat,
    out_ch: nat,
    kernel: nat,
    biased: bool,
) -> ConvModel<N> {
    let n = (out_ch * in_ch * kernel) as nat;
    ConvModel::made(
        in_ch,
        out_ch,
        kernel,
        1,
        span(w, at, n),
        if biased {
            Some(span(w, at + n, out_ch))
        } else {
            None
        },
    )
}

/// A FiLM block read from `at` on, where it is active.
#[verifier::opaque]
pub open spec fn film_at<N>(
    w: Seq<JsonNumber>,
    at: nat,
    f: FilmConfig,
    dim: nat,
    cond: nat,
) -> Option<FilmModel<N>> {
    if f.active {
        let rows = film_rows(f, dim);
        let n = conv_count(rows, cond, 1, f.groups);
        Some(
            FilmModel::made(
                cond,
                dim,
                f.shift,
                f.groups as nat,
                span(w, at, n),
                span(w, at + n, rows),
            ),
        )
    } else {
        None
    }
}

impl ArrayShape {
    /// FiLM site `j` of a layer whose FiLM weights begin at `at`.
    pub open spec fn site_at<N>(self, w: Seq<JsonNumber>, at: nat, j: int) -> Option<
        FilmModel<N>,
    > {
        film_at(
            w,
            at + self.films_count(j as nat),
            self.film(j),
            self.film_dim(j),
            self.condition_size as nat,
        )
    }

    /// The FiLM sites of a layer whose FiLM weights begin at `at`.
    pub open spec fn films_at<N>(self, w: Seq<JsonNumber>, at: nat) -> FilmsModel<N> {
        FilmsModel {
            conv_pre: self.site_at(w, at, 0),
            conv_post: self.site_at(w, at, 1),
            mixin_pre: self.site_at(w, at, 2),
            mixin_post: self.site_at(w, at, 3),
            activation_pre: self.site_at(w, at, 4),
            activation_post: self.site_at(w, at, 5),
            layer1x1_post: self.site_at(w, at, 6),
            head1x1_post: self.site_at(w, at, 7),
        }
    }

    /// The gating of layer `i`.
    pub open spec fn gating_of(self, i: int) -> Gating {
        Gating {
            mode: self.gating_modes[0],
            primary: resolved(self.activations[i])->Ok_0,
            secondary: resolved(self.secondary_activations[i])->Ok_0,
            bottleneck: self.bottleneck,
        }
    }

    /// Layer `i`, whose weights begin at `at`.
    pub open spec fn layer_at<N>(self, w: Seq<JsonNumber>, at: nat, i: int) -> LayerModel<N> {
        let ch = self.channels as nat;
        let bn = self.bottleneck as nat;
        let cond = self.condition_size as nat;
        let a1 = at + self.dilated_count(i) + self.mid();
        let a2 = a1 + self.mixin_count();
        let a3 = a2 + self.layer1x1_count();
        let a4 = a3 + self.head1x1_count();
        LayerModel {
            conv: grouped_at(
                w,
                at,
                ch,
                self.mid(),
                self.kernel_sizes[i] as nat,
                self.dilations[i] as nat,
                self.groups_input,
                true,
            ),
            mixin: grouped_at(w, a1, cond, self.mid(), 1, 1, self.groups_input_mixin, false),
            layer1x1: if self.layer1x1.active {
                Some(grouped_at(w, a2, bn, ch, 1, 1, self.layer1x1.groups, true))
            } else {
                None
            },
            head1x1: if self.head1x1.active {
                Some(grouped_at(w, a3, bn, self.head1x1_out(), 1, 1, self.head1x1.groups, true))
            } else {
                None
            },
            gating: self.gating_of(i),
            films: self.films_at(w, a4),
        }
    }

    /// The array whose weights begin at `at`.
    pub open spec fn array_at<N>(self, w: Seq<JsonNumber>, at: nat) -> ArrayModel<N> {
        let ch = self.channels as nat;
        let n = self.kernel_sizes.len();
        let first = at + (self.channels * self.input_size) as nat;
        ArrayModel {
            rechannel: dense_at(w, at, self.input_size as nat, ch, 1, false),
            layers: Seq::new(
                n,
                |i: int| self.layer_at(w, first + self.layers_count(i as nat), i),
            ),
            head_rechannel: dense_at(
                w,
                first + self.layers_count(n),
                self.head_in(),
                self.head_size as nat,
                self.head_kernel_size as nat,
                self.head_bias,
            ),
        }
    }

    /// Why an activation of the first `n` layers cannot be had, if so.
    pub open spec fn activation_failure(self, n: nat) -> Option<Failure>
        decreases n,
    {
        if n == 0 {
            None
        } else if self.activation_failure((n - 1) as nat) is Some {
            self.activation_failure((n - 1) as nat)
        } else if resolved(self.activations[n - 1]) is Err {
            Some(resolved(self.activations[n - 1])->Err_0)
        } else if resolved(self.secondary_activations[n - 1]) is Err {
            Some(resolved(self.secondary_activations[n - 1])->Err_0)
        } else {
            None
        }
    }

    /// Whether FiLM site `j`, where it is active, splits into its groups.
    pub open spec fn site_splits(self, j: int) -> bool {
        self.film(j).active ==> splits(
            self.film(j).groups,
            self.condition_size as nat,
            film_rows(self.film(j), self.film_dim(j)),
        )
    }

    /// Whether the dimensions agree with each other and with an input `input` wide.
    pub open spec fn sound(self, input: nat) -> bool {
        let ch = self.channels as nat;
        let bn = self.bottleneck as nat;
        let cond = self.condition_size as nat;
        &&& self.input_size == input
        &&& forall|i: int|
            0 <= i < self.kernel_sizes.len() ==> #[trigger] self.kernel_sizes[i] >= 1
        &&& self.head_kernel_size >= 1
        &&& splits(self.groups_input, ch, self.mid())
        &&& splits(self.groups_input_mixin, cond, self.mid())
        &&& if self.layer1x1.active {
            splits(self.layer1x1.groups, bn, ch)
        } else {
            bn == ch
        }
        &&& self.head1x1.active ==> splits(self.head1x1.groups, bn, self.head1x1_out())
        &&& self.site_splits(0)
        &&& self.site_splits(1)
        &&& self.site_splits(2)
        &&& self.site_splits(3)
        &&& self.site_splits(4)
        &&& self.site_splits(5)
        &&& self.site_splits(6)
        &&& self.site_splits(7)
    }

    /// Whether the buffers of FiLM site `j`, where it is active, have lengths that fit a
    /// `usize`.
    pub open spec fn site_sized(self, j: int) -> bool {
        self.film(j).active ==> film_sized(
            self.condition_size as nat,
            film_rows(self.film(j), self.film_dim(j)),
        )
    }

    /// Whether the buffers of the array have lengths that fit a `usize`.
    pub open spec fn sized(self) -> bool {
        let ch = self.channels as nat;
        let bn = self.bottleneck as nat;
        let cond = self.condition_size as nat;
        &&& ch * MAX_BLOCK <= usize::MAX
        &&& self.mid() * MAX_BLOCK <= usize::MAX
        &&& self.head_size * MAX_BLOCK <= usize::MAX
        &&& conv_sized(self.input_size as nat, ch, 1, 1)
        &&& forall|i: int|
            0 <= i < self.kernel_sizes.len() ==> conv_sized(
                ch,
                self.mid(),
                #[trigger] self.kernel_sizes[i] as nat,
                self.dilations[i] as nat,
            )
        &&& conv_sized(cond, self.mid(), 1, 1)
        &&& self.layer1x1.active ==> conv_sized(bn, ch, 1, 1)
        &&& self.head1x1.active ==> conv_sized(bn, self.head1x1_out(), 1, 1)
        &&& conv_sized(self.head_in(), self.head_size as nat, self.head_kernel_size as nat, 1)
        &&& self.site_sized(0)
        &&& self.site_sized(1)
        &&& self.site_sized(2)
        &&& self.site_sized(3)
        &&& self.site_sized(4)
        &&& self.site_sized(5)
        &&& self.site_sized(6)
        &&& self.site_sized(7)
    }

    /// Why the array cannot be built behind an input `input` wide, if so.
    pub open spec fn build_failure(self, input: nat) -> Option<Failure> {
        if !self.sound(input) {
            Some(Failure::UnsupportedFeature("inconsistent layer-array dimensions"@))
        } else if !self.sized() {
            Some(Failure::ConfigTooLarge)
        } else {
            self.activation_failure(self.kernel_sizes.len())
        }
    }
}

/// Whether both widths of a convolution split into its groups.
pub open spec fn splits(groups: usize, a: nat, b: nat) -> bool {
    &&& groups >= 1
    &&& a % (groups as nat) == 0
    &&& b % (groups as nat) == 0
}

/// Whether the weights and the buffers of a convolution have lengths that fit a `usize`.
pub open spec fn conv_sized(in_ch: nat, out_ch: nat, kernel: nat, dilation: nat) -> bool {
    &&& out_ch * in_ch * kernel <= usize::MAX
    &&& (kernel - 1) * dilation + 1 + MAX_BLOCK <= usize::MAX
    &&& in_ch * ((kernel - 1) * dilation + MAX_BLOCK) <= usize::MAX
}

/// Whether the buffers of a FiLM block have lengths that fit a `usize`.
pub open spec fn film_sized(cond: nat, rows: nat) -> bool {
    &&& cond * MAX_BLOCK <= usize::MAX
    &&& rows * cond <= usize::MAX
    &&& rows * MAX_BLOCK <= usize::MAX
}

/// A count of compact weights is the product of its parts.
pub proof fn lemma_compact(out: nat, in_ch: nat, k: nat, groups: usize)
    requires
        splits(groups, in_ch, out),
    ensures
        conv_count(out, in_ch, k, groups) == out * (in_ch as int / groups as int) * k,
{
    let g = groups as int;
    let q = in_ch as int / g;
    assert(in_ch == g * q) by (nonlinear_arith)
        requires
            q == in_ch as int / g,
            in_ch as int % g == 0,
            g >= 1,
    ;
    assert(out * in_ch * k == (out * q * k) * g) by (nonlinear_arith)
        requires
            in_ch == g * q,
    ;
    assert(((out * q * k) * g) / g == out * q * k) by (nonlinear_arith)
        requires
            g >= 1,
    ;
    assert(out * q * k >= 0) by (nonlinear_arith)
        requires
            out >= 0,
            q >= 0,
            k >= 0,
    ;
}

/// Take a grouped convolution: its weights, then its bias if it has one.
fn take_grouped<A: Arith>(
    r: &mut Reader,
    in_ch: usize,
    out_ch: usize,
    kernel: usize,
    dilation: usize,
    groups: usize,
    biased: bool,
) -> (c: Conv1d<A>)
    requires
        old(r).wf(),
        kernel >= 1,
        splits(groups, in_ch as nat, out_ch as nat),
        conv_sized(in_ch as nat, out_ch as nat, kernel as nat, dilation as nat),
        old(r).at() + conv_count(out_ch as nat, in_ch as nat, kernel as nat, groups) + (if biased {
            out_ch as nat
        } else {
            0
        }) <= old(r).blob().len(),
    ensures
        final(r).wf(),
        final(r).blob() == old(r).blob(),
        final(r).at() == old(r).at() + conv_count(
            out_ch as nat,
            in_ch as nat,
            kernel as nat,
            groups,
        ) + (if biased {
            out_ch as nat
        } else {
            0
        }),
        c.wf(),
        c@.valid(),
        c@.in_ch == in_ch,
        c@.out_ch == out_ch,
        c@.past.len() == (kernel - 1) * dilation,
        c@ == grouped_at::<A::Num>(
            old(r).blob(),
            old(r).at(),
            in_ch as nat,
            out_ch as nat,
            kernel as nat,
            dilation as nat,
            groups,
            biased,
        ),
{
    proof {
        reveal(grouped_at);
        lemma_compact(out_ch as nat, in_ch as nat, kernel as nat, groups);
        assert(out_ch * in_ch >= 0) by (nonlinear_arith);
        assert(out_ch * in_ch <= out_ch * in_ch * kernel) by (nonlinear_arith)
            requires
                kernel >= 1,
                out_ch * in_ch >= 0,
        ;
        assert((out_ch * in_ch * kernel) / groups as int <= out_ch * in_ch * kernel) by (nonlinear_arith)
            requires
                groups >= 1,
                out_ch * in_ch * kernel >= 0,
        ;
    }
    let n: usize = out_ch * in_ch * kernel / groups;
    let weights = r.take(n);
    if biased {
        let bias = r.take(out_ch);
        Conv1d::new_grouped(in_ch, out_ch, kernel, dilation, groups, weights, Some(bias))
    } else {
        Conv1d::new_grouped(in_ch, out_ch, kernel, dilation, groups, weights, None)
    }
}

/// Take a dense convolution of dilation one: its weights, then its bias if it has one.
fn take_dense<A: Arith>(
    r: &mut Reader,
    in_ch: usize,
    out_ch: usize,
    kernel: usize,
    biased: bool,
) -> (c: Conv1d<A>)
    requires
        old(r).wf(),
        kernel >= 1,
        conv_sized(in_ch as nat, out_ch as nat, kernel as nat, 1),
        old(r).at() + out_ch * in_ch * kernel + (if biased {
            out_ch as nat
        } else {
            0
        }) <= old(r).blob().len(),
    ensures
        final(r).wf(),
        final(r).blob() == old(r).blob(),
        final(r).at() == old(r).at() + out_ch * in_ch * kernel + (if biased {
            out_ch as nat
        } else {
            0
        }),
        c.wf(),
        c@.valid(),
        c@.in_ch == in_ch,
        c@.out_ch == out_ch,
        c@.past.len() == kernel - 1,
        c@ == dense_at::<A::Num>(
            old(r).blob(),
            old(r).at(),
            in_ch as nat,
            out_ch as nat,
            kernel as nat,
            biased,
        ),
{
    proof {
        reveal(dense_at);
        assert((kernel - 1) * 1 == kernel - 1);
        assert(out_ch * in_ch >= 0) by (nonlinear_arith);
        assert(out_ch * in_ch <= out_ch * in_ch * kernel) by (nonlinear_arith)
            requires
                kernel >= 1,
                out_ch * in_ch >= 0,
        ;
    }
    let n: usize = out_ch * in_ch * kernel;
    let weights = r.take(n);
    if biased {
        let bias = r.take(out_ch);
        Conv1d::new(in_ch, out_ch, kernel, 1, weights, Some(bias))
    } else {
        Conv1d::new(in_ch, out_ch, kernel, 1, weights, None)
    }
}

/// Take a FiLM block, where it is active.
fn take_film<A: Arith>(r: &mut Reader, f: &FilmConfig, dim: usize, cond: usize) -> (site: Option<
    FiLM<A>,
>)
    requires
        old(r).wf(),
        f.active ==> film_sized(cond as nat, film_rows(*f, dim as nat)),
        f.active ==> splits(f.groups, cond as nat, film_rows(*f, dim as nat)),
        old(r).at() + film_count(*f, dim as nat, cond as nat) <= old(r).blob().len(),
    ensures
        final(r).wf(),
        final(r).blob() == old(r).blob(),
        final(r).at() == old(r).at() + film_count(*f, dim as nat, cond as nat),
        site matches Some(b) ==> b.wf() && b@.valid() && b@.dim == dim && b@.conv.in_ch == cond,
        site_view(site) == film_at::<A::Num>(
            old(r).blob(),
            old(r).at(),
            *f,
            dim as nat,
            cond as nat,
        ),
{
    proof {
        reveal(film_at);
    }
    if !f.active {
        return None;
    }
    let ghost rows_n = film_rows(*f, dim as nat);
    proof {
        lemma_compact(rows_n, cond as nat, 1, f.groups);
        assert(rows_n <= rows_n * MAX_BLOCK) by (nonlinear_arith)
            requires
                rows_n >= 0,
                MAX_BLOCK == 1024,
        ;
        assert(rows_n * cond >= 0) by (nonlinear_arith)
            requires
                rows_n >= 0,
                cond >= 0,
        ;
        assert((rows_n * cond) / f.groups as int <= rows_n * cond) by (nonlinear_arith)
            requires
                f.groups >= 1,
                rows_n * cond >= 0,
        ;
    }
    let rows: usize = if f.shift {
        2 * dim
    } else {
        dim
    };
    assert(rows * cond * 1 == rows * cond);
    assert(rows * (cond as int / f.groups as int) * 1 == rows * (cond as int / f.groups as int));
    let n: usize = rows * cond / f.groups;
    let weights = r.take(n);
    let bias = r.take(rows);
    Some(FiLM::new(cond, dim, f.shift, f.groups, weights, bias))
}

/// Fewer FiLM sites have fewer weights.
proof fn lemma_films_grow(s: ArrayShape, j: nat)
    requires
        j <= 8,
    ensures
        s.films_count(j) <= s.films_count(8),
    decreases 8 - j,
{
    if j < 8 {
        lemma_films_grow(s, j + 1);
    }
}

/// Fewer layers have fewer weights.
proof fn lemma_layers_grow(s: ArrayShape, i: nat, n: nat)
    requires
        i <= n,
    ensures
        s.layers_count(i) <= s.layers_count(n),
    decreases n - i,
{
    if i < n {
        lemma_layers_grow(s, i + 1, n);
    }
}

/// Take FiLM site `j` of a layer whose FiLM weights begin at `at`.
fn take_site<A: Arith>(
    r: &mut Reader,
    la: &LayerArrayConfig,
    f: &FilmConfig,
    dim: usize,
    Ghost(at): Ghost<nat>,
    Ghost(j): Ghost<int>,
) -> (site: Option<FiLM<A>>)
    requires
        old(r).wf(),
        0 <= j < 8,
        *f == la@.film(j),
        dim == la@.film_dim(j),
        la@.site_splits(j),
        la@.site_sized(j),
        old(r).at() == at + la@.films_count(j as nat),
        at + la@.films_count(8) <= old(r).blob().len(),
    ensures
        final(r).wf(),
        final(r).blob() == old(r).blob(),
        final(r).at() == at + la@.films_count((j + 1) as nat),
        site matches Some(b) ==> b.wf(),
        film_fits(site_view(site), dim as nat, la@.condition_size as nat),
        site_view(site) == la@.site_at::<A::Num>(old(r).blob(), at, j),
{
    proof {
        lemma_films_grow(la@, (j + 1) as nat);
    }
    take_film(r, f, dim, la.condition_size)
}

/// Take the FiLM sites of a layer.
fn take_films<A: Arith>(r: &mut Reader, la: &LayerArrayConfig, mid: usize) -> (films: Films<A>)
    requires
        old(r).wf(),
        mid == la@.mid(),
        la@.sound(la@.input_size as nat),
        la@.sized(),
        old(r).at() + la@.films_count(8) <= old(r).blob().len(),
    ensures
        final(r).wf(),
        final(r).blob() == old(r).blob(),
        final(r).at() == old(r).at() + la@.films_count(8),
        films.wf(),
        films@ == la@.films_at::<A::Num>(old(r).blob(), old(r).at()),
        film_fits(films@.conv_pre, la@.channels as nat, la@.condition_size as nat),
        film_fits(films@.conv_post, mid as nat, la@.condition_size as nat),
        film_fits(films@.mixin_pre, la@.condition_size as nat, la@.condition_size as nat),
        film_fits(films@.mixin_post, mid as nat, la@.condition_size as nat),
        film_fits(films@.activation_pre, mid as nat, la@.condition_size as nat),
        film_fits(films@.activation_post, la@.bottleneck as nat, la@.condition_size as nat),
        film_fits(films@.layer1x1_post, la@.channels as nat, la@.condition_size as nat),
        film_fits(films@.head1x1_post, la@.head1x1_out(), la@.condition_size as nat),
{
    let ghost at = r.at();
    let ch: usize = la.channels;
    let bn: usize = la.bottleneck;
    let cond: usize = la.condition_size;
    let h1: usize = head1x1_width(la);
    let conv_pre = take_site(r, la, &la.conv_pre_film, ch, Ghost(at), Ghost(0));
    let conv_post = take_site(r, la, &la.conv_post_film, mid, Ghost(at), Ghost(1));
    let mixin_pre = take_site(r, la, &la.input_mixin_pre_film, cond, Ghost(at), Ghost(2));
    let mixin_post = take_site(r, la, &la.input_mixin_post_film, mid, Ghost(at), Ghost(3));
    let activation_pre = take_site(r, la, &la.activation_pre_film, mid, Ghost(at), Ghost(4));
    let activation_post = take_site(r, la, &la.activation_post_film, bn, Ghost(at), Ghost(5));
    let layer1x1_post = take_site(r, la, &la.layer1x1_post_film, ch, Ghost(at), Ghost(6));
    let head1x1_post = take_site(r, la, &la.head1x1_post_film, h1, Ghost(at), Ghost(7));
    Films {
        conv_pre,
        conv_post,
        mixin_pre,
        mixin_post,
        activation_pre,
        activation_post,
        layer1x1_post,
        head1x1_post,
    }
}

/// Take layer `i`, with its activations resolved.
#[verifier::rlimit(40)]
fn take_layer<A: Arith>(
    r: &mut Reader,
    la: &LayerArrayConfig,
    mid: usize,
    i: usize,
    primary: Activation,
    secondary: Activation,
) -> (layer: Layer<A>)
    requires
        old(r).wf(),
        la@.wf(),
        i < la@.kernel_sizes.len(),
        mid == la@.mid(),
        la@.sound(la@.input_size as nat),
        la@.sized(),
        resolved(la@.activations[i as int]) == Ok::<Activation, Failure>(primary),
        resolved(la@.secondary_activations[i as int]) == Ok::<Activation, Failure>(secondary),
        old(r).at() + la@.layer_count(i as int) <= old(r).blob().len(),
    ensures
        final(r).wf(),
        final(r).blob() == old(r).blob(),
        final(r).at() == old(r).at() + la@.layer_count(i as int),
        layer.wf(),
        layer@.valid(),
        layer@ == la@.layer_at::<A::Num>(old(r).blob(), old(r).at(), i as int),
        layer@.channels() == la@.channels,
        layer@.condition() == la@.condition_size,
        layer@.head_width() == la@.head_in(),
{
    let ghost s = la@;
    let ghost w = r.blob();
    let ghost at = r.at();
    let ghost ch = s.channels as nat;
    let ghost bn = s.bottleneck as nat;
    let ghost cond = s.condition_size as nat;
    let k: usize = la.kernel_sizes[i];
    let d: usize = la.dilations[i];
    let h1: usize = head1x1_width(la);
    proof {
        assert(s.kernel_sizes[i as int] >= 1);
        assert(ch * (0 + MAX_BLOCK) == ch * MAX_BLOCK);
        assert(cond * (0 + MAX_BLOCK) == cond * MAX_BLOCK);
        let hin = s.head_in();
        let reach = (s.head_kernel_size - 1) * 1;
        assert(hin * MAX_BLOCK <= hin * (reach + MAX_BLOCK)) by (nonlinear_arith)
            requires
                hin >= 0,
                reach >= 0,
                MAX_BLOCK == 1024,
        ;
    }
    let conv = take_grouped(r, la.channels, mid, k, d, la.groups_input, true);
    let mixin = take_grouped(r, la.condition_size, mid, 1, 1, la.groups_input_mixin, false);
    let layer1x1: Option<Conv1d<A>> = if la.layer1x1.active {
        Some(take_grouped(r, la.bottleneck, la.channels, 1, 1, la.layer1x1.groups, true))
    } else {
        None
    };
    let head1x1: Option<Conv1d<A>> = if la.head1x1.active {
        Some(take_grouped(r, la.bottleneck, h1, 1, 1, la.head1x1.groups, true))
    } else {
        None
    };
    let films = take_films(r, la, mid);
    let gating = Gating::new(la.gating_mode(), primary, secondary, la.bottleneck);
    let ghost m = s.layer_at::<A::Num>(w, at, i as int);
    proof {
        assert(m.gating == gating);
        assert(gating.rows() == s.mid());
        assert(conv_view(layer1x1) == m.layer1x1);
        assert(conv_view(head1x1) == m.head1x1);
        assert(films@ == m.films);
        assert((1 - 1) * 1 == 0);
    }
    Layer::from_parts(conv, mixin, layer1x1, head1x1, gating, films)
}

fn width_splits(groups: usize, a: usize, b: usize) -> (r: bool)
    ensures
        r == splits(groups, a as nat, b as nat),
{
    groups >= 1 && a % groups == 0 && b % groups == 0
}

fn is_conv_sized(in_ch: usize, out_ch: usize, kernel: usize, dilation: usize) -> (r: bool)
    requires
        kernel >= 1,
    ensures
        r == conv_sized(in_ch as nat, out_ch as nat, kernel as nat, dilation as nat),
{
    let weights = CheckedUsize::new(out_ch).mul_value(in_ch).mul_value(kernel);
    let reach = CheckedUsize::new(kernel - 1).mul_value(dilation);
    let ring = reach.add_value(1).add_value(MAX_BLOCK);
    let staged = reach.add_value(MAX_BLOCK).mul_value(in_ch);
    proof {
        let x = (kernel - 1) * dilation + MAX_BLOCK;
        assert(x * in_ch == in_ch * x) by (nonlinear_arith);
    }
    !weights.is_overflowed() && !ring.is_overflowed() && !staged.is_overflowed()
}

/// Whether the buffers of a FiLM site, where it is active, have lengths that fit a
/// `usize`.
fn is_site_sized(f: &FilmConfig, dim: usize, cond: usize) -> (r: bool)
    ensures
        r == (f.active ==> film_sized(cond as nat, film_rows(*f, dim as nat))),
{
    if !f.active {
        return true;
    }
    let rows = if f.shift {
        CheckedUsize::new(dim).mul_value(2)
    } else {
        CheckedUsize::new(dim)
    };
    assert(dim * 2 == 2 * dim);
    let a = CheckedUsize::new(cond).mul_value(MAX_BLOCK);
    let b = rows.mul_value(cond);
    let c = rows.mul_value(MAX_BLOCK);
    !a.is_overflowed() && !b.is_overflowed() && !c.is_overflowed()
}

/// Whether a block of that many rows has a length that fits a `usize`.
fn is_block_sized(rows: usize) -> (r: bool)
    ensures
        r == (rows * MAX_BLOCK <= usize::MAX),
{
    !CheckedUsize::new(rows).mul_value(MAX_BLOCK).is_overflowed()
}

/// Whether the kernels of an array have a tap.
fn has_taps(la: &LayerArrayConfig) -> (r: bool)
    ensures
        r == (la@.head_kernel_size >= 1 && forall|i: int|
            0 <= i < la@.kernel_sizes.len() ==> #[trigger] la@.kernel_sizes[i] >= 1),
{
    if la.head_kernel_size == 0 {
        return false;
    }
    let mut i: usize = 0;
    while i < la.kernel_sizes.len()
        invariant
            i <= la.kernel_sizes@.len(),
            forall|j: int| 0 <= j < i ==> #[trigger] la@.kernel_sizes[j] >= 1,
        decreases la.kernel_sizes@.len() - i,
    {
        if la.kernel_sizes[i] == 0 {
            assert(la@.kernel_sizes[i as int] == 0);
            return false;
        }
        i += 1;
    }
    true
}

/// Whether the dimensions agree with each other and with an input `input` wide.
fn is_sound(la: &LayerArrayConfig, mid: usize, input: usize) -> (r: bool)
    requires
        la@.wf(),
        mid == la@.mid(),
        la@.fits(),
        !la@.has_zero_groups(),
    ensures
        r == la@.sound(input as nat),
{
    let ghost s = la@;
    let ch: usize = la.channels;
    let bn: usize = la.bottleneck;
    let cond: usize = la.condition_size;
    let h1: usize = head1x1_width(la);
    if la.input_size != input || !has_taps(la) {
        return false;
    }
    if !width_splits(la.groups_input, ch, mid) || !width_splits(la.groups_input_mixin, cond, mid) {
        return false;
    }
    if la.layer1x1.active {
        if !width_splits(la.layer1x1.groups, bn, ch) {
            return false;
        }
    } else if bn != ch {
        return false;
    }
    if la.head1x1.active && !width_splits(la.head1x1.groups, bn, h1) {
        return false;
    }
    proof {
        assert(s.layer_fits(0));
        reveal_with_fuel(ArrayShape::films_fit, 9);
    }
    site_splits(&la.conv_pre_film, ch, cond) && site_splits(&la.conv_post_film, mid, cond)
        && site_splits(&la.input_mixin_pre_film, cond, cond) && site_splits(
        &la.input_mixin_post_film,
        mid,
        cond,
    ) && site_splits(&la.activation_pre_film, mid, cond) && site_splits(
        &la.activation_post_film,
        bn,
        cond,
    ) && site_splits(&la.layer1x1_post_film, ch, cond) && site_splits(
        &la.head1x1_post_film,
        h1,
        cond,
    )
}

/// Whether a FiLM site, where it is active, splits into its groups.
fn site_splits(f: &FilmConfig, dim: usize, cond: usize) -> (r: bool)
    requires
        f.active ==> film_rows(*f, dim as nat) <= usize::MAX,
    ensures
        r == (f.active ==> splits(f.groups, cond as nat, film_rows(*f, dim as nat))),
{
    if !f.active {
        return true;
    }
    let rows: usize = if f.shift {
        2 * dim
    } else {
        dim
    };
    width_splits(f.groups, cond, rows)
}

/// Whether the dilated convolutions of an array have lengths that fit a `usize`.
fn are_layers_sized(la: &LayerArrayConfig, mid: usize) -> (r: bool)
    requires
        la@.wf(),
        la@.sound(la@.input_size as nat),
        mid == la@.mid(),
    ensures
        r == (forall|i: int|
            0 <= i < la@.kernel_sizes.len() ==> conv_sized(
                la@.channels as nat,
                mid as nat,
                #[trigger] la@.kernel_sizes[i] as nat,
                la@.dilations[i] as nat,
            )),
{
    let mut i: usize = 0;
    while i < la.kernel_sizes.len()
        invariant
            la@.wf(),
            la@.sound(la@.input_size as nat),
            i <= la.kernel_sizes@.len(),
            forall|j: int|
                0 <= j < i ==> conv_sized(
                    la@.channels as nat,
                    mid as nat,
                    #[trigger] la@.kernel_sizes[j] as nat,
                    la@.dilations[j] as nat,
                ),
        decreases la.kernel_sizes@.len() - i,
    {
        assert(la@.kernel_sizes[i as int] >= 1);
        if !is_conv_sized(la.channels, mid, la.kernel_sizes[i], la.dilations[i]) {
            assert(!conv_sized(
                la@.channels as nat,
                mid as nat,
                la@.kernel_sizes[i as int] as nat,
                la@.dilations[i as int] as nat,
            ));
            return false;
        }
        i += 1;
    }
    true
}

/// Whether the buffers of the array have lengths that fit a `usize`.
fn is_sized(la: &LayerArrayConfig, mid: usize) -> (r: bool)
    requires
        la@.wf(),
        mid == la@.mid(),
        la@.sound(la@.input_size as nat),
    ensures
        r == la@.sized(),
{
    let ch: usize = la.channels;
    let bn: usize = la.bottleneck;
    let cond: usize = la.condition_size;
    let h1: usize = head1x1_width(la);
    if !is_block_sized(ch) || !is_block_sized(mid) || !is_block_sized(la.head_size) {
        return false;
    }
    if !is_conv_sized(la.input_size, ch, 1, 1) || !are_layers_sized(la, mid) || !is_conv_sized(
        cond,
        mid,
        1,
        1,
    ) || !is_conv_sized(head_in_width(la), la.head_size, la.head_kernel_size, 1) {
        return false;
    }
    if la.layer1x1.active && !is_conv_sized(bn, ch, 1, 1) {
        return false;
    }
    if la.head1x1.active && !is_conv_sized(bn, h1, 1, 1) {
        return false;
    }
    is_site_sized(&la.conv_pre_film, ch, cond) && is_site_sized(&la.conv_post_film, mid, cond)
        && is_site_sized(&la.input_mixin_pre_film, cond, cond) && is_site_sized(
        &la.input_mixin_post_film,
        mid,
        cond,
    ) && is_site_sized(&la.activation_pre_film, mid, cond) && is_site_sized(
        &la.activation_post_film,
        bn,
        cond,
    ) && is_site_sized(&la.layer1x1_post_film, ch, cond) && is_site_sized(
        &la.head1x1_post_film,
        h1,
        cond,
    )
}

/// A failure among the first layers is the failure of the whole.
proof fn lemma_activation_failure(s: ArrayShape, n: nat)
    requires
        n <= s.kernel_sizes.len(),
        s.activation_failure(n) is Some,
    ensures
        s.activation_failure(s.kernel_sizes.len()) == s.activation_failure(n),
    decreases s.kernel_sizes.len() - n,
{
    if n < s.kernel_sizes.len() {
        lemma_activation_failure(s, n + 1);
    }
}

/// Build a layer-array behind an input `input` wide, consuming its weights.
pub fn build_array<A: Arith>(r: &mut Reader, la: &LayerArrayConfig, input: usize) -> (res: Result<
    LayerArray<A>,
    Error,
>)
    requires
        old(r).wf(),
        la@.wf(),
        la@.count_failure() is None,
        old(r).at() + la@.count() <= old(r).blob().len(),
    ensures
        match res {
            Ok(a) => {
                &&& la@.build_failure(input as nat) is None
                &&& final(r).wf()
                &&& final(r).blob() == old(r).blob()
                &&& final(r).at() == old(r).at() + la@.count()
                &&& a.wf()
                &&& a@.valid()
                &&& a@ == la@.array_at::<A::Num>(old(r).blob(), old(r).at())
                &&& a@.condition() == la@.condition_size
                &&& a@.input_size() == la@.input_size
                &&& a@.channels() == la@.channels
                &&& a@.head_in() == la@.head_in()
                &&& a@.head_size() == la@.head_size
            },
            Err(e) => la@.build_failure(input as nat) == Some(e@),
        },
{
    let ghost s = la@;
    let ghost w = r.blob();
    let ghost at = r.at();
    let n: usize = la.kernel_sizes.len();
    let mid: usize = if la.gating_mode() == GatingMode::Ungated {
        la.bottleneck
    } else {
        2 * la.bottleneck
    };
    if !is_sound(la, mid, input) {
        return Err(Error::UnsupportedFeature("inconsistent layer-array dimensions".to_owned()));
    }
    if !is_sized(la, mid) {
        return Err(Error::ConfigTooLarge);
    }
    proof {
        lemma_layers_grow(s, 0, n as nat);
        assert(s.channels * s.input_size * 1 == s.channels * s.input_size);
        assert((s.channels * s.input_size) as nat == s.channels * s.input_size) by (nonlinear_arith);
    }
    let rechannel = take_dense(r, la.input_size, la.channels, 1, false);
    let ghost first = at + (s.channels * s.input_size) as nat;
    let mut layers: Vec<Layer<A>> = Vec::new();
    let mut i: usize = 0;
    while i < n
        invariant
            r.wf(),
            r.blob() == w,
            s == la@,
            s.wf(),
            s.input_size == input,
            s.sound(s.input_size as nat),
            s.sized(),
            mid == s.mid(),
            n == s.kernel_sizes.len(),
            i <= n,
            r.at() == first + s.layers_count(i as nat),
            first + s.layers_count(n as nat) <= w.len(),
            s.activation_failure(i as nat) is None,
            layers@.len() == i,
            forall|j: int| 0 <= j < i ==> (#[trigger] layers@[j]).wf(),
            forall|j: int|
                0 <= j < i ==> (#[trigger] layers@[j])@ == s.layer_at::<A::Num>(
                    w,
                    first + s.layers_count(j as nat),
                    j,
                ) && layers@[j]@.valid() && layers@[j]@.channels() == s.channels
                    && layers@[j]@.condition() == s.condition_size && layers@[j]@.head_width()
                    == s.head_in(),
        decreases n - i,
    {
        proof {
            assert(s.activations[i as int] == la.activations@[i as int]@);
            assert(s.secondary_activations[i as int] == la.secondary_activations@[i as int]@);
            lemma_layers_grow(s, (i + 1) as nat, n as nat);
        }
        let primary: Activation = match Activation::from_spec(&la.activations[i]) {
            Ok(a) => a,
            Err(e) => {
                proof {
                    lemma_activation_failure(s, (i + 1) as nat);
                }
                return Err(e);
            },
        };
        let secondary: Activation = match Activation::from_spec(&la.secondary_activations[i]) {
            Ok(a) => a,
            Err(e) => {
                proof {
                    lemma_activation_failure(s, (i + 1) as nat);
                }
                return Err(e);
            },
        };
        let layer = take_layer(r, la, mid, i, primary, secondary);
        layers.push(layer);
        i += 1;
    }
    let head_in: usize = head_in_width(la);
    let head_rechannel = take_dense(r, head_in, la.head_size, la.head_kernel_size, la.head_bias);
    let ghost m = s.array_at::<A::Num>(w, at);
    proof {
        let parts = ArrayModel {
            rechannel: rechannel@,
            layers: layer_views(layers@),
            head_rechannel: head_rechannel@,
        };
        assert(parts.layers =~= m.layers);
        assert(parts == m);
        assert forall|j: int| 0 <= j < parts.layers.len() implies #[trigger] parts.layer_fits(j) by {
            assert(layers@[j]@.valid());
            assert(layers@[0]@.valid());
        }
        assert((1 - 1) * 1 == 0);
        let hin = s.head_in();
        let reach = (s.head_kernel_size - 1) * 1;
        assert(hin * MAX_BLOCK <= hin * (reach + MAX_BLOCK)) by (nonlinear_arith)
            requires
                hin >= 0,
                reach >= 0,
                MAX_BLOCK == 1024,
        ;
    }
    Ok(LayerArray::from_parts(rechannel, layers, head_rechannel))
}

impl PostHeadShape {
    /// Stage `i` of a head whose weights begin at `at`.
    pub open spec fn stage_at<N>(
        self,
        w: Seq<JsonNumber>,
        at: nat,
        in_channels: nat,
        i: int,
    ) -> HeadStage<N> {
        HeadStage {
            activation: resolved(self.activation)->Ok_0,
            conv: dense_at(
                w,
                at + self.count(in_channels, i as nat),
                self.in_width(in_channels, i),
                self.out_width(i),
                self.kernel_sizes[i] as nat,
                true,
            ),
        }
    }

    /// The head whose weights begin at `at`.
    pub open spec fn head_at<N>(
        self,
        w: Seq<JsonNumber>,
        at: nat,
        in_channels: nat,
    ) -> HeadModel<N> {
        HeadModel {
            stages: Seq::new(
                self.kernel_sizes.len(),
                |i: int| self.stage_at(w, at, in_channels, i),
            ),
        }
    }

    /// Whether the buffers of the head have lengths that fit a `usize`.
    pub open spec fn sized(self, in_channels: nat) -> bool {
        &&& in_channels * MAX_BLOCK <= usize::MAX
        &&& self.kernel_sizes.len() > 1 ==> self.channels * MAX_BLOCK <= usize::MAX
        &&& forall|i: int|
            0 <= i < self.kernel_sizes.len() ==> conv_sized(
                self.in_width(in_channels, i),
                self.out_width(i),
                #[trigger] self.kernel_sizes[i] as nat,
                1,
            )
    }

    /// Why the head cannot be built, if so.
    pub open spec fn build_failure(self, in_channels: nat) -> Option<Failure> {
        if self.out_channels != 1 {
            Some(Failure::UnsupportedFeature("post-stack head out_channels != 1"@))
        } else if resolved(self.activation) is Err {
            Some(resolved(self.activation)->Err_0)
        } else if exists|i: int|
            0 <= i < self.kernel_sizes.len() && #[trigger] self.kernel_sizes[i] == 0 {
            Some(Failure::UnsupportedFeature("post-stack head with a zero kernel"@))
        } else if !self.sized(in_channels) {
            Some(Failure::ConfigTooLarge)
        } else {
            None
        }
    }
}

/// Fewer convolutions have fewer weights.
proof fn lemma_convs_grow(s: PostHeadShape, in_channels: nat, i: nat, n: nat)
    requires
        i <= n,
    ensures
        s.count(in_channels, i) <= s.count(in_channels, n),
    decreases n - i,
{
    if i < n {
        lemma_convs_grow(s, in_channels, i + 1, n);
    }
}

fn has_zero_kernel(kernel_sizes: &Vec<usize>) -> (r: bool)
    ensures
        r == exists|i: int| 0 <= i < kernel_sizes@.len() && #[trigger] kernel_sizes@[i] == 0,
{
    let mut i: usize = 0;
    while i < kernel_sizes.len()
        invariant
            i <= kernel_sizes@.len(),
            forall|j: int| 0 <= j < i ==> #[trigger] kernel_sizes@[j] != 0,
        decreases kernel_sizes@.len() - i,
    {
        if kernel_sizes[i] == 0 {
            assert(kernel_sizes@[i as int] == 0);
            return true;
        }
        i += 1;
    }
    false
}

fn is_head_sized(hc: &PostStackHeadConfig, in_channels: usize) -> (r: bool)
    requires
        forall|i: int| 0 <= i < hc@.kernel_sizes.len() ==> #[trigger] hc@.kernel_sizes[i] >= 1,
    ensures
        r == hc@.sized(in_channels as nat),
{
    let ghost s = hc@;
    let n: usize = hc.kernel_sizes.len();
    if !is_block_sized(in_channels) || n > 1 && !is_block_sized(hc.channels) {
        return false;
    }
    let mut i: usize = 0;
    while i < n
        invariant
            s == hc@,
            n == s.kernel_sizes.len(),
            forall|i: int| 0 <= i < s.kernel_sizes.len() ==> #[trigger] s.kernel_sizes[i] >= 1,
            i <= n,
            forall|j: int|
                0 <= j < i ==> conv_sized(
                    s.in_width(in_channels as nat, j),
                    s.out_width(j),
                    #[trigger] s.kernel_sizes[j] as nat,
                    1,
                ),
        decreases n - i,
    {
        let cin: usize = if i == 0 {
            in_channels
        } else {
            hc.channels
        };
        let cout: usize = if i + 1 == n {
            hc.out_channels
        } else {
            hc.channels
        };
        assert(s.kernel_sizes[i as int] >= 1);
        if !is_conv_sized(cin, cout, hc.kernel_sizes[i], 1) {
            assert(!conv_sized(
                s.in_width(in_channels as nat, i as int),
                s.out_width(i as int),
                s.kernel_sizes[i as int] as nat,
                1,
            ));
            return false;
        }
        i += 1;
    }
    true
}

/// Take the convolutions of a post-stack head in chain order.
fn take_convs<A: Arith>(
    r: &mut Reader,
    hc: &PostStackHeadConfig,
    in_channels: usize,
    activation: Activation,
) -> (convs: Vec<(Activation, Conv1d<A>)>)
    requires
        old(r).wf(),
        hc@.out_channels == 1,
        forall|i: int| 0 <= i < hc@.kernel_sizes.len() ==> #[trigger] hc@.kernel_sizes[i] >= 1,
        hc@.sized(in_channels as nat),
        resolved(hc@.activation) == Ok::<Activation, Failure>(activation),
        old(r).at() + hc@.count(in_channels as nat, hc@.kernel_sizes.len()) <= old(r).blob().len(),
    ensures
        final(r).wf(),
        final(r).blob() == old(r).blob(),
        final(r).at() == old(r).at() + hc@.count(in_channels as nat, hc@.kernel_sizes.len()),
        stage_views(convs@) == hc@.head_at::<A::Num>(
            old(r).blob(),
            old(r).at(),
            in_channels as nat,
        ).stages,
        forall|j: int|
            0 <= j < convs@.len() ==> (#[trigger] convs@[j]).1.wf() && convs@[j].1@.valid()
                && convs@[j].1@.in_ch == hc@.in_width(in_channels as nat, j)
                && convs@[j].1@.out_ch == hc@.out_width(j),
{
    let ghost s = hc@;
    let ghost w = r.blob();
    let ghost at = r.at();
    let ghost c = in_channels as nat;
    let n: usize = hc.kernel_sizes.len();
    let mut convs: Vec<(Activation, Conv1d<A>)> = Vec::new();
    let mut cin: usize = in_channels;
    let mut i: usize = 0;
    while i < n
        invariant
            r.wf(),
            r.blob() == w,
            s == hc@,
            c == in_channels as nat,
            n == s.kernel_sizes.len(),
            forall|i: int| 0 <= i < s.kernel_sizes.len() ==> #[trigger] s.kernel_sizes[i] >= 1,
            s.sized(c),
            resolved(s.activation) == Ok::<Activation, Failure>(activation),
            i <= n,
            i < n ==> cin == s.in_width(c, i as int),
            r.at() == at + s.count(c, i as nat),
            at + s.count(c, n as nat) <= w.len(),
            convs@.len() == i,
            forall|j: int|
                0 <= j < i ==> (#[trigger] convs@[j]).1.wf() && convs@[j].1@.valid() && convs@[j].0
                    == activation && convs@[j].1@ == s.stage_at::<A::Num>(w, at, c, j).conv
                    && convs@[j].1@.in_ch == s.in_width(c, j) && convs@[j].1@.out_ch
                    == s.out_width(j),
        decreases n - i,
    {
        let k: usize = hc.kernel_sizes[i];
        let cout: usize = if i + 1 == n {
            hc.out_channels
        } else {
            hc.channels
        };
        proof {
            lemma_convs_grow(s, c, (i + 1) as nat, n as nat);
            assert(s.kernel_sizes[i as int] >= 1);
        }
        let conv = take_dense(r, cin, cout, k, true);
        convs.push((activation, conv));
        cin = cout;
        i += 1;
    }
    assert(stage_views(convs@) =~= s.head_at::<A::Num>(w, at, c).stages);
    convs
}

/// Build the post-stack head, consuming its convolutions from the flat blob in chain
/// order. Each has dilation one and a bias.
pub fn build_post_stack_head<A: Arith>(
    r: &mut Reader,
    hc: &PostStackHeadConfig,
    in_channels: usize,
) -> (res: Result<PostStackHead<A>, Error>)
    requires
        old(r).wf(),
        hc@.count_failure(in_channels as nat) is None,
        old(r).at() + hc@.count(in_channels as nat, hc@.kernel_sizes.len()) <= old(r).blob().len(),
    ensures
        match res {
            Ok(h) => {
                &&& hc@.build_failure(in_channels as nat) is None
                &&& final(r).wf()
                &&& final(r).blob() == old(r).blob()
                &&& final(r).at() == old(r).at() + hc@.count(
                    in_channels as nat,
                    hc@.kernel_sizes.len(),
                )
                &&& h.wf()
                &&& h@.valid()
                &&& h@ == hc@.head_at::<A::Num>(old(r).blob(), old(r).at(), in_channels as nat)
                &&& h@.in_channels() == in_channels
                &&& h@.out_channels() == 1
            },
            Err(e) => hc@.build_failure(in_channels as nat) == Some(e@),
        },
{
    let ghost s = hc@;
    let ghost w = r.blob();
    let ghost at = r.at();
    let ghost c = in_channels as nat;
    if hc.out_channels != 1 {
        return Err(Error::UnsupportedFeature("post-stack head out_channels != 1".to_owned()));
    }
    let activation: Activation = match Activation::from_spec(&hc.activation) {
        Ok(a) => a,
        Err(e) => {
            return Err(e);
        },
    };
    if has_zero_kernel(&hc.kernel_sizes) {
        return Err(Error::UnsupportedFeature("post-stack head with a zero kernel".to_owned()));
    }
    proof {
        assert forall|i: int| 0 <= i < s.kernel_sizes.len() implies #[trigger] s.kernel_sizes[i]
            >= 1 by {}
    }
    if !is_head_sized(hc, in_channels) {
        return Err(Error::ConfigTooLarge);
    }
    let convs = take_convs(r, hc, in_channels, activation);
    proof {
        let parts = HeadModel { stages: stage_views(convs@) };
        let n = s.kernel_sizes.len() as int;
        assert(parts == s.head_at::<A::Num>(w, at, c));
        assert(parts.stages.len() == convs@.len());
        assert(s.head_at::<A::Num>(w, at, c).stages.len() == n);
        assert(convs@.len() == n);
        assert forall|j: int| 0 <= j < n implies (#[trigger] parts.stages[j]).conv.valid() by {
            assert(convs@[j].1@.valid());
        }
        assert forall|j: int| 0 < j < n implies (#[trigger] parts.stages[j]).conv.in_ch
            == parts.stages[j - 1].conv.out_ch by {
            assert(convs@[j].1@.in_ch == s.in_width(c, j));
            assert(convs@[j - 1].1@.out_ch == s.out_width(j - 1));
        }
        assert forall|j: int| 0 <= j < n implies (#[trigger] convs@[j]).1@.out_ch * MAX_BLOCK
            <= usize::MAX by {
            assert(convs@[j].1@.out_ch == s.out_width(j));
        }
        assert(convs@[0].1@.in_ch == c);
        assert(convs@[n - 1].1@.out_ch == 1);
    }
    Ok(PostStackHead::new(convs))
}

} // verus!
