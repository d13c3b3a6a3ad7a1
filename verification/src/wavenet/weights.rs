//! How a WaveNet's flat weight blob is laid out, and how many weights it must hold.
//!
//! The blob holds the arrays one after another, then the post-stack head, then
//! `head_scale`. An array holds its rechannel, its layers, and its head rechannel; a
//! layer holds its dilated convolution, input mixer, residual 1x1, head 1x1 and FiLM
//! blocks, in that order, each as its weights followed by its bias.

use vstd::prelude::*;
use crate::error::{Error, Failure};
use crate::model::{
    ArrayShape, FilmConfig, GatingMode, LayerArrayConfig, PostHeadShape, PostStackHeadConfig,
    WaveNetConfig, WaveNetShape,
};

verus! {

/// A group count as a divisor: none at all counts as one.
pub open spec fn divisor(groups: usize) -> nat {
    if groups == 0 {
        1
    } else {
        groups as nat
    }
}

/// Weights of a grouped convolution, without its bias.
pub open spec fn conv_count(out: nat, in_ch: nat, k: nat, groups: usize) -> nat {
    (out * in_ch * k) as nat / divisor(groups)
}

/// Whether the dense size of a convolution can be computed in a `usize`.
pub open spec fn conv_fits(out: nat, in_ch: nat, k: nat) -> bool {
    &&& out * in_ch <= usize::MAX
    &&& out * in_ch * k <= usize::MAX
}

/// Rows of scale and shift of a FiLM block.
pub open spec fn film_rows(f: FilmConfig, dim: nat) -> nat {
    if f.shift {
        2 * dim
    } else {
        dim
    }
}

/// Weights of a FiLM block; none where it is inactive.
pub open spec fn film_count(f: FilmConfig, dim: nat, cond: nat) -> nat {
    if f.active {
        conv_count(film_rows(f, dim), cond, 1, f.groups) + film_rows(f, dim)
    } else {
        0
    }
}

/// Whether the size of a FiLM block can be computed in a `usize`.
pub open spec fn film_size_fits(f: FilmConfig, dim: nat, cond: nat) -> bool {
    f.active ==> film_rows(f, dim) <= usize::MAX && conv_fits(film_rows(f, dim), cond, 1)
}

impl ArrayShape {
    /// Rows of the dilated convolution's output.
    pub open spec fn mid(self) -> nat {
        if self.gating_modes[0] == GatingMode::Ungated {
            self.bottleneck as nat
        } else {
            2 * self.bottleneck as nat
        }
    }

    /// Width of the head 1x1's output.
    pub open spec fn head1x1_out(self) -> nat {
        match self.head1x1.out_channels {
            Some(n) => n as nat,
            None => self.channels as nat,
        }
    }

    /// Width of the head accumulator.
    pub open spec fn head_in(self) -> nat {
        if self.head1x1.active {
            self.head1x1_out()
        } else {
            self.bottleneck as nat
        }
    }

    /// Weights of the residual 1x1; none where it is inactive.
    pub open spec fn layer1x1_count(self) -> nat {
        if self.layer1x1.active {
            conv_count(self.channels as nat, self.bottleneck as nat, 1, self.layer1x1.groups)
                + self.channels as nat
        } else {
            0
        }
    }

    /// Weights of the head 1x1; none where it is inactive.
    pub open spec fn head1x1_count(self) -> nat {
        if self.head1x1.active {
            conv_count(self.head1x1_out(), self.bottleneck as nat, 1, self.head1x1.groups)
                + self.head1x1_out()
        } else {
            0
        }
    }

    /// FiLM site `j` in the order of the blob.
    pub open spec fn film(self, j: int) -> FilmConfig {
        if j == 0 {
            self.conv_pre_film
        } else if j == 1 {
            self.conv_post_film
        } else if j == 2 {
            self.input_mixin_pre_film
        } else if j == 3 {
            self.input_mixin_post_film
        } else if j == 4 {
            self.activation_pre_film
        } else if j == 5 {
            self.activation_post_film
        } else if j == 6 {
            self.layer1x1_post_film
        } else {
            self.head1x1_post_film
        }
    }

    /// Width of the signal that FiLM site `j` modulates.
    pub open spec fn film_dim(self, j: int) -> nat {
        if j == 0 || j == 6 {
            self.channels as nat
        } else if j == 2 {
            self.condition_size as nat
        } else if j == 5 {
            self.bottleneck as nat
        } else if j == 7 {
            self.head1x1_out()
        } else {
            self.mid()
        }
    }

    /// Weights of the first `j` FiLM sites.
    pub open spec fn films_count(self, j: nat) -> nat
        decreases j,
    {
        if j == 0 {
            0
        } else {
            self.films_count((j - 1) as nat) + film_count(
                self.film(j - 1),
                self.film_dim(j - 1),
                self.condition_size as nat,
            )
        }
    }

    /// Weights of the dilated convolution of layer `i`, without its bias.
    pub open spec fn dilated_count(self, i: int) -> nat {
        conv_count(
            self.mid(),
            self.channels as nat,
            self.kernel_sizes[i] as nat,
            self.groups_input,
        )
    }

    /// Weights of the input mixer.
    pub open spec fn mixin_count(self) -> nat {
        conv_count(self.mid(), self.condition_size as nat, 1, self.groups_input_mixin)
    }

    /// Weights of layer `i`.
    pub open spec fn layer_count(self, i: int) -> nat {
        self.dilated_count(i) + self.mid() + self.mixin_count() + self.layer1x1_count()
            + self.head1x1_count() + self.films_count(8)
    }

    /// Weights of the first `n` layers.
    pub open spec fn layers_count(self, n: nat) -> nat
        decreases n,
    {
        if n == 0 {
            0
        } else {
            self.layers_count((n - 1) as nat) + self.layer_count(n - 1)
        }
    }

    /// Weights of the head rechannel, without its bias.
    pub open spec fn head_count(self) -> nat {
        (self.head_size * self.head_in() * self.head_kernel_size) as nat
    }

    /// Weights of the array.
    pub open spec fn count(self) -> nat {
        (self.channels * self.input_size) as nat + self.layers_count(self.kernel_sizes.len())
            + self.head_count() + if self.head_bias {
            self.head_size as nat
        } else {
            0
        }
    }

    /// Whether the sizes of layer `i` can be computed in a `usize`.
    pub open spec fn layer_fits(self, i: int) -> bool {
        &&& conv_fits(self.mid(), self.channels as nat, self.kernel_sizes[i] as nat)
        &&& conv_fits(self.mid(), self.condition_size as nat, 1)
        &&& self.layer1x1.active ==> conv_fits(self.channels as nat, self.bottleneck as nat, 1)
        &&& self.head1x1.active ==> conv_fits(self.head1x1_out(), self.bottleneck as nat, 1)
        &&& self.films_fit(8)
    }

    /// Whether the sizes of the first `j` FiLM sites can be computed in a `usize`.
    pub open spec fn films_fit(self, j: nat) -> bool
        decreases j,
    {
        j > 0 ==> self.films_fit((j - 1) as nat) && film_size_fits(
            self.film(j - 1),
            self.film_dim(j - 1),
            self.condition_size as nat,
        )
    }

    /// Whether every size of the array, and their sum, can be computed in a `usize`.
    pub open spec fn fits(self) -> bool {
        &&& self.mid() <= usize::MAX
        &&& self.channels * self.input_size <= usize::MAX
        &&& forall|i: int| 0 <= i < self.kernel_sizes.len() ==> #[trigger] self.layer_fits(i)
        &&& conv_fits(self.head_size as nat, self.head_in(), self.head_kernel_size as nat)
        &&& self.count() <= usize::MAX
    }

    /// Whether a convolution of the array is split into no groups at all.
    pub open spec fn has_zero_groups(self) -> bool {
        ||| self.groups_input == 0
        ||| self.groups_input_mixin == 0
        ||| self.layer1x1.active && self.layer1x1.groups == 0
        ||| self.head1x1.active && self.head1x1.groups == 0
        ||| self.conv_pre_film.active && self.conv_pre_film.groups == 0
        ||| self.conv_post_film.active && self.conv_post_film.groups == 0
        ||| self.input_mixin_pre_film.active && self.input_mixin_pre_film.groups == 0
        ||| self.input_mixin_post_film.active && self.input_mixin_post_film.groups == 0
        ||| self.activation_pre_film.active && self.activation_pre_film.groups == 0
        ||| self.activation_post_film.active && self.activation_post_film.groups == 0
        ||| self.layer1x1_post_film.active && self.layer1x1_post_film.groups == 0
        ||| self.head1x1_post_film.active && self.head1x1_post_film.groups == 0
    }

    /// Why the weights of the array cannot be counted, if so.
    pub open spec fn count_failure(self) -> Option<Failure> {
        if !self.fits() {
            Some(Failure::ConfigTooLarge)
        } else if self.has_zero_groups() {
            Some(Failure::UnsupportedFeature("convolution with zero groups"@))
        } else {
            None
        }
    }
}

/// Weights of the first `n` arrays.
pub open spec fn arrays_count(layers: Seq<ArrayShape>, n: nat) -> nat
    decreases n,
{
    if n == 0 {
        0
    } else {
        arrays_count(layers, (n - 1) as nat) + layers[n - 1].count()
    }
}

impl PostHeadShape {
    /// Width of what convolution `i` is given.
    pub open spec fn in_width(self, in_channels: nat, i: int) -> nat {
        if i == 0 {
            in_channels
        } else {
            self.channels as nat
        }
    }

    /// Width of what convolution `i` gives.
    pub open spec fn out_width(self, i: int) -> nat {
        if i + 1 == self.kernel_sizes.len() {
            self.out_channels as nat
        } else {
            self.channels as nat
        }
    }

    /// Weights of convolution `i`, without its bias.
    pub open spec fn conv_weights(self, in_channels: nat, i: int) -> nat {
        (self.out_width(i) * self.in_width(in_channels, i) * self.kernel_sizes[i]) as nat
    }

    /// Weights of the first `n` convolutions.
    pub open spec fn count(self, in_channels: nat, n: nat) -> nat
        decreases n,
    {
        if n == 0 {
            0
        } else {
            self.count(in_channels, (n - 1) as nat) + self.conv_weights(in_channels, n - 1)
                + self.out_width(n - 1)
        }
    }

    /// Whether every size of the head, and their sum, can be computed in a `usize`.
    pub open spec fn fits(self, in_channels: nat) -> bool {
        &&& forall|i: int|
            0 <= i < self.kernel_sizes.len() ==> conv_fits(
                self.out_width(i),
                self.in_width(in_channels, i),
                #[trigger] self.kernel_sizes[i] as nat,
            )
        &&& self.count(in_channels, self.kernel_sizes.len()) <= usize::MAX
    }

    /// Why the weights of the head cannot be counted, if so.
    pub open spec fn count_failure(self, in_channels: nat) -> Option<Failure> {
        if self.kernel_sizes.len() == 0 {
            Some(Failure::UnsupportedFeature("post-stack head with no convs"@))
        } else if !self.fits(in_channels) {
            Some(Failure::ConfigTooLarge)
        } else {
            None
        }
    }
}

impl WaveNetShape {
    /// Width of what the post-stack head is given: the last array's head output.
    pub open spec fn head_input(self) -> nat {
        if self.layers.len() == 0 {
            0
        } else {
            self.layers.last().head_size as nat
        }
    }

    /// Weights of the post-stack head; none where there is none.
    pub open spec fn post_head_count(self) -> nat {
        match self.post_stack_head {
            Some(h) => h.count(self.head_input(), h.kernel_sizes.len()),
            None => 0,
        }
    }

    /// Number of weights the config implies in the flat blob, `head_scale` included.
    pub open spec fn count(self) -> nat {
        arrays_count(self.layers, self.layers.len()) + self.post_head_count() + 1
    }

    /// Why the weights of the first `n` arrays cannot be counted, if so.
    pub open spec fn arrays_failure(self, n: nat) -> Option<Failure>
        decreases n,
    {
        if n == 0 {
            None
        } else if self.arrays_failure((n - 1) as nat) is Some {
            self.arrays_failure((n - 1) as nat)
        } else if self.layers[n - 1].count_failure() is Some {
            self.layers[n - 1].count_failure()
        } else if arrays_count(self.layers, n) > usize::MAX {
            Some(Failure::ConfigTooLarge)
        } else {
            None
        }
    }

    /// Why the weights cannot be counted, if so.
    pub open spec fn count_failure(self) -> Option<Failure> {
        if self.arrays_failure(self.layers.len()) is Some {
            self.arrays_failure(self.layers.len())
        } else if self.post_stack_head is Some && self.post_stack_head->Some_0.count_failure(
            self.head_input(),
        ) is Some {
            self.post_stack_head->Some_0.count_failure(self.head_input())
        } else if self.count() > usize::MAX {
            Some(Failure::ConfigTooLarge)
        } else {
            None
        }
    }
}

/// A dense convolution has a weight for every output, input and tap.
proof fn lemma_dense_count(out: nat, in_ch: nat, k: nat)
    ensures
        conv_count(out, in_ch, k, 1) == out * in_ch * k,
{
    assert(out * in_ch * k >= 0) by (nonlinear_arith)
        requires
            out >= 0,
            in_ch >= 0,
            k >= 0,
    ;
}

/// `n` if it fits a `usize` and nothing else stands against it.
pub open spec fn tally(ok: bool, n: nat) -> Option<nat> {
    if ok && n <= usize::MAX {
        Some(n)
    } else {
        None
    }
}

/// The value of a checked number.
pub open spec fn value(r: Option<usize>) -> Option<nat> {
    match r {
        Some(n) => Some(n as nat),
        None => None,
    }
}

fn plus(
    a: Option<usize>,
    b: Option<usize>,
    Ghost(x): Ghost<(bool, nat)>,
    Ghost(y): Ghost<(bool, nat)>,
) -> (r: Option<usize>)
    requires
        value(a) == tally(x.0, x.1),
        value(b) == tally(y.0, y.1),
    ensures
        value(r) == tally(x.0 && y.0, x.1 + y.1),
{
    match (a, b) {
        (Some(m), Some(n)) => m.checked_add(n),
        _ => None,
    }
}

fn count_conv(out: usize, in_ch: usize, k: usize, groups: usize) -> (r: Option<usize>)
    ensures
        value(r) == tally(
            conv_fits(out as nat, in_ch as nat, k as nat),
            conv_count(out as nat, in_ch as nat, k as nat, groups),
        ),
{
    let d: usize = if groups == 0 {
        1
    } else {
        groups
    };
    match out.checked_mul(in_ch) {
        Some(a) => match a.checked_mul(k) {
            Some(b) => {
                assert(b == out * in_ch * k);
                assert(b / d <= b) by (nonlinear_arith)
                    requires
                        d >= 1,
                        b >= 0,
                ;
                Some(b / d)
            },
            None => None,
        },
        None => None,
    }
}

fn count_biased(out: usize, in_ch: usize, k: usize, groups: usize) -> (r: Option<usize>)
    ensures
        value(r) == tally(
            conv_fits(out as nat, in_ch as nat, k as nat),
            conv_count(out as nat, in_ch as nat, k as nat, groups) + out as nat,
        ),
{
    let ghost ok = conv_fits(out as nat, in_ch as nat, k as nat);
    let ghost n = conv_count(out as nat, in_ch as nat, k as nat, groups);
    plus(
        count_conv(out, in_ch, k, groups),
        Some(out),
        Ghost((ok, n)),
        Ghost((true, out as nat)),
    )
}

fn count_film(f: &FilmConfig, dim: usize, cond: usize) -> (r: Option<usize>)
    ensures
        value(r) == tally(
            film_size_fits(*f, dim as nat, cond as nat),
            film_count(*f, dim as nat, cond as nat),
        ),
{
    if !f.active {
        return Some(0);
    }
    if f.shift {
        match dim.checked_mul(2) {
            Some(rows) => {
                assert(rows == 2 * dim);
                count_biased(rows, cond, 1, f.groups)
            },
            None => None,
        }
    } else {
        count_biased(dim, cond, 1, f.groups)
    }
}

/// The FiLM sites of an array in the order of the blob.
fn site(la: &LayerArrayConfig, j: usize) -> (r: FilmConfig)
    requires
        j < 8,
    ensures
        r == la@.film(j as int),
{
    if j == 0 {
        la.conv_pre_film
    } else if j == 1 {
        la.conv_post_film
    } else if j == 2 {
        la.input_mixin_pre_film
    } else if j == 3 {
        la.input_mixin_post_film
    } else if j == 4 {
        la.activation_pre_film
    } else if j == 5 {
        la.activation_post_film
    } else if j == 6 {
        la.layer1x1_post_film
    } else {
        la.head1x1_post_film
    }
}

/// Width of the head 1x1's output.
pub fn head1x1_width(la: &LayerArrayConfig) -> (r: usize)
    ensures
        r == la@.head1x1_out(),
{
    match la.head1x1.out_channels {
        Some(n) => n,
        None => la.channels,
    }
}

/// Width of the head accumulator.
pub fn head_in_width(la: &LayerArrayConfig) -> (r: usize)
    ensures
        r == la@.head_in(),
{
    if la.head1x1.active {
        head1x1_width(la)
    } else {
        la.bottleneck
    }
}

fn count_films(la: &LayerArrayConfig, mid: usize) -> (r: Option<usize>)
    requires
        mid == la@.mid(),
    ensures
        value(r) == tally(la@.films_fit(8), la@.films_count(8)),
{
    let ghost s = la@;
    let h1: usize = head1x1_width(la);
    let mut total: Option<usize> = Some(0);
    let mut j: usize = 0;
    while j < 8
        invariant
            s == la@,
            mid == s.mid(),
            h1 == s.head1x1_out(),
            j <= 8,
            value(total) == tally(s.films_fit(j as nat), s.films_count(j as nat)),
        decreases 8 - j,
    {
        let dim: usize = if j == 0 || j == 6 {
            la.channels
        } else if j == 2 {
            la.condition_size
        } else if j == 5 {
            la.bottleneck
        } else if j == 7 {
            h1
        } else {
            mid
        };
        let f: FilmConfig = site(la, j);
        let one: Option<usize> = count_film(&f, dim, la.condition_size);
        let ghost c = la.condition_size as nat;
        total = plus(
            total,
            one,
            Ghost((s.films_fit(j as nat), s.films_count(j as nat))),
            Ghost((film_size_fits(f, dim as nat, c), film_count(f, dim as nat, c))),
        );
        j += 1;
    }
    total
}

fn count_layer(la: &LayerArrayConfig, mid: usize, i: usize) -> (r: Option<usize>)
    requires
        la@.wf(),
        i < la@.kernel_sizes.len(),
        mid == la@.mid(),
    ensures
        value(r) == tally(la@.layer_fits(i as int), la@.layer_count(i as int)),
{
    let ghost s = la@;
    let ghost ch = s.channels as nat;
    let ghost bn = s.bottleneck as nat;
    let ghost cond = s.condition_size as nat;
    let k: usize = la.kernel_sizes[i];
    let h1: usize = head1x1_width(la);
    let conv: Option<usize> = count_biased(mid, la.channels, k, la.groups_input);
    let mixin: Option<usize> = count_conv(mid, la.condition_size, 1, la.groups_input_mixin);
    let ghost conv_ok = conv_fits(s.mid(), ch, k as nat);
    let ghost conv_n = s.dilated_count(i as int) + s.mid();
    let ghost mix_ok = conv_fits(s.mid(), cond, 1);
    let both: Option<usize> = plus(
        conv,
        mixin,
        Ghost((conv_ok, conv_n)),
        Ghost((mix_ok, s.mixin_count())),
    );
    let one: Option<usize> = if la.layer1x1.active {
        count_biased(la.channels, la.bottleneck, 1, la.layer1x1.groups)
    } else {
        Some(0)
    };
    let ghost one_ok = s.layer1x1.active ==> conv_fits(ch, bn, 1);
    let with_one: Option<usize> = plus(
        both,
        one,
        Ghost((conv_ok && mix_ok, conv_n + s.mixin_count())),
        Ghost((one_ok, s.layer1x1_count())),
    );
    let head: Option<usize> = if la.head1x1.active {
        count_biased(h1, la.bottleneck, 1, la.head1x1.groups)
    } else {
        Some(0)
    };
    let ghost head_ok = s.head1x1.active ==> conv_fits(s.head1x1_out(), bn, 1);
    let with_head: Option<usize> = plus(
        with_one,
        head,
        Ghost((conv_ok && mix_ok && one_ok, conv_n + s.mixin_count() + s.layer1x1_count())),
        Ghost((head_ok, s.head1x1_count())),
    );
    let films: Option<usize> = count_films(la, mid);
    plus(
        with_head,
        films,
        Ghost(
            (
                conv_ok && mix_ok && one_ok && head_ok,
                conv_n + s.mixin_count() + s.layer1x1_count() + s.head1x1_count(),
            ),
        ),
        Ghost((s.films_fit(8), s.films_count(8))),
    )
}

/// Rows of the dilated convolution's output.
fn mid_width(la: &LayerArrayConfig) -> (r: Option<usize>)
    requires
        la@.wf(),
    ensures
        value(r) == tally(true, la@.mid()),
{
    if la.gating_mode() == GatingMode::Ungated {
        Some(la.bottleneck)
    } else {
        la.bottleneck.checked_mul(2)
    }
}

fn has_zero_groups(la: &LayerArrayConfig) -> (r: bool)
    ensures
        r == la@.has_zero_groups(),
{
    la.groups_input == 0 || la.groups_input_mixin == 0 || (la.layer1x1.active && la.layer1x1.groups
        == 0) || (la.head1x1.active && la.head1x1.groups == 0) || (la.conv_pre_film.active
        && la.conv_pre_film.groups == 0) || (la.conv_post_film.active && la.conv_post_film.groups
        == 0) || (la.input_mixin_pre_film.active && la.input_mixin_pre_film.groups == 0) || (
    la.input_mixin_post_film.active && la.input_mixin_post_film.groups == 0) || (
    la.activation_pre_film.active && la.activation_pre_film.groups == 0) || (
    la.activation_post_film.active && la.activation_post_film.groups == 0) || (
    la.layer1x1_post_film.active && la.layer1x1_post_film.groups == 0) || (
    la.head1x1_post_film.active && la.head1x1_post_film.groups == 0)
}

/// The first `n` layers can be counted.
spec fn layers_fit(s: ArrayShape, n: nat) -> bool {
    forall|i: int| 0 <= i < n ==> #[trigger] s.layer_fits(i)
}

/// Number of weights one layer-array consumes from the flat blob.
///
/// Uses checked arithmetic: an absurd or adversarial config whose dimensions overflow
/// `usize` gives [`Error::ConfigTooLarge`] rather than a wrong, small count.
pub fn array_weight_count(la: &LayerArrayConfig) -> (r: Result<usize, Error>)
    requires
        la@.wf(),
    ensures
        match r {
            Ok(n) => la@.count_failure() is None && n == la@.count(),
            Err(e) => la@.count_failure() == Some(e@),
        },
{
    let ghost s = la@;
    let mid: usize = match mid_width(la) {
        Some(m) => m,
        None => {
            return Err(Error::ConfigTooLarge);
        },
    };
    let ghost rechannel_ok = s.channels * s.input_size <= usize::MAX;
    let ghost rechannel = (s.channels * s.input_size) as nat;
    let mut total: Option<usize> = la.channels.checked_mul(la.input_size);
    let n: usize = la.kernel_sizes.len();
    let mut i: usize = 0;
    while i < n
        invariant
            s == la@,
            s.wf(),
            mid == s.mid(),
            n == s.kernel_sizes.len(),
            i <= n,
            rechannel == (s.channels * s.input_size) as nat,
            rechannel_ok == (s.channels * s.input_size <= usize::MAX),
            value(total) == tally(
                rechannel_ok && layers_fit(s, i as nat),
                rechannel + s.layers_count(i as nat),
            ),
        decreases n - i,
    {
        let one: Option<usize> = count_layer(la, mid, i);
        total = plus(
            total,
            one,
            Ghost(
                (
                    rechannel_ok && layers_fit(s, i as nat),
                    rechannel + s.layers_count(i as nat),
                ),
            ),
            Ghost((s.layer_fits(i as int), s.layer_count(i as int))),
        );
        assert(layers_fit(s, (i + 1) as nat) == (layers_fit(s, i as nat) && s.layer_fits(
            i as int,
        ))) by {
            if layers_fit(s, (i + 1) as nat) {
                assert(s.layer_fits(i as int));
            }
        }
        i += 1;
    }
    let head_in: usize = head_in_width(la);
    let head: Option<usize> = count_conv(la.head_size, head_in, la.head_kernel_size, 1);
    let ghost layers_ok = rechannel_ok && layers_fit(s, n as nat);
    let ghost layers_n = rechannel + s.layers_count(n as nat);
    let ghost head_ok = conv_fits(s.head_size as nat, s.head_in(), s.head_kernel_size as nat);
    proof {
        lemma_dense_count(s.head_size as nat, s.head_in(), s.head_kernel_size as nat);
    }
    let with_head: Option<usize> = plus(
        total,
        head,
        Ghost((layers_ok, layers_n)),
        Ghost((head_ok, s.head_count())),
    );
    let bias: usize = if la.head_bias {
        la.head_size
    } else {
        0
    };
    let whole: Option<usize> = plus(
        with_head,
        Some(bias),
        Ghost((layers_ok && head_ok, layers_n + s.head_count())),
        Ghost((true, bias as nat)),
    );
    proof {
        assert(layers_n + s.head_count() + bias as nat == s.count());
        assert(value(whole) == tally(layers_ok && head_ok, s.count()));
        assert(layers_fit(s, n as nat) == (forall|i: int|
            0 <= i < s.kernel_sizes.len() ==> #[trigger] s.layer_fits(i)));
        assert((value(whole) is Some) == s.fits());
    }
    match whole {
        Some(count) => if has_zero_groups(la) {
            Err(Error::UnsupportedFeature("convolution with zero groups".to_owned()))
        } else {
            Ok(count)
        },
        None => Err(Error::ConfigTooLarge),
    }
}

/// The first `n` convolutions of a head can be counted.
spec fn convs_fit(s: PostHeadShape, in_channels: nat, n: nat) -> bool {
    forall|i: int|
        0 <= i < n ==> conv_fits(
            s.out_width(i),
            s.in_width(in_channels, i),
            #[trigger] s.kernel_sizes[i] as nat,
        )
}

/// Weights one post-stack head consumes from the flat blob. Convolution `i` is
/// `[out][in][k]` plus an `[out]` bias; the widths follow the chain
/// `in_channels -> channels -> ... -> channels -> out_channels`, where `in_channels` is
/// the last layer-array's `head_size`.
pub fn post_stack_head_weight_count(head: &PostStackHeadConfig, in_channels: usize) -> (r: Result<
    usize,
    Error,
>)
    ensures
        match r {
            Ok(n) => head@.count_failure(in_channels as nat) is None && n == head@.count(
                in_channels as nat,
                head@.kernel_sizes.len(),
            ),
            Err(e) => head@.count_failure(in_channels as nat) == Some(e@),
        },
{
    let ghost s = head@;
    let n: usize = head.kernel_sizes.len();
    if n == 0 {
        return Err(Error::UnsupportedFeature("post-stack head with no convs".to_owned()));
    }
    let mut total: Option<usize> = Some(0);
    let mut cin: usize = in_channels;
    let mut i: usize = 0;
    while i < n
        invariant
            s == head@,
            n == s.kernel_sizes.len(),
            i <= n,
            i < n ==> cin == s.in_width(in_channels as nat, i as int),
            value(total) == tally(
                convs_fit(s, in_channels as nat, i as nat),
                s.count(in_channels as nat, i as nat),
            ),
        decreases n - i,
    {
        let k: usize = head.kernel_sizes[i];
        let cout: usize = if i + 1 == n {
            head.out_channels
        } else {
            head.channels
        };
        let one: Option<usize> = count_biased(cout, cin, k, 1);
        let ghost ok = conv_fits(cout as nat, cin as nat, k as nat);
        let ghost weights = s.conv_weights(in_channels as nat, i as int);
        proof {
            lemma_dense_count(cout as nat, cin as nat, k as nat);
        }
        total = plus(
            total,
            one,
            Ghost(
                (
                    convs_fit(s, in_channels as nat, i as nat),
                    s.count(in_channels as nat, i as nat),
                ),
            ),
            Ghost((ok, weights + cout as nat)),
        );
        assert(convs_fit(s, in_channels as nat, (i + 1) as nat) == (convs_fit(
            s,
            in_channels as nat,
            i as nat,
        ) && ok)) by {
            if convs_fit(s, in_channels as nat, (i + 1) as nat) {
                assert(s.kernel_sizes[i as int] == k);
            }
        }
        cin = cout;
        i += 1;
    }
    assert(convs_fit(s, in_channels as nat, n as nat) == (forall|i: int|
        0 <= i < s.kernel_sizes.len() ==> conv_fits(
            s.out_width(i),
            s.in_width(in_channels as nat, i),
            #[trigger] s.kernel_sizes[i] as nat,
        )));
    match total {
        Some(count) => Ok(count),
        None => Err(Error::ConfigTooLarge),
    }
}

/// Number of weights the config implies in the flat weight blob, including the final
/// `head_scale`.
pub fn expected_weight_count(cfg: &WaveNetConfig) -> (r: Result<usize, Error>)
    requires
        forall|i: int| 0 <= i < cfg@.layers.len() ==> (#[trigger] cfg@.layers[i]).wf(),
    ensures
        match r {
            Ok(n) => cfg@.count_failure() is None && n == cfg@.count(),
            Err(e) => cfg@.count_failure() == Some(e@),
        },
{
    let ghost s = cfg@;
    let n: usize = cfg.layers.len();
    let mut total: usize = 0;
    let mut i: usize = 0;
    while i < n
        invariant
            s == cfg@,
            n == s.layers.len(),
            n == cfg.layers@.len(),
            forall|i: int| 0 <= i < s.layers.len() ==> (#[trigger] s.layers[i]).wf(),
            i <= n,
            s.arrays_failure(i as nat) is None,
            total == arrays_count(s.layers, i as nat),
        decreases n - i,
    {
        assert(s.layers[i as int] == cfg.layers@[i as int]@);
        assert(s.layers[i as int].wf());
        match array_weight_count(&cfg.layers[i]) {
            Ok(one) => match total.checked_add(one) {
                Some(sum) => {
                    total = sum;
                },
                None => {
                    proof {
                        lemma_arrays_failure(s, (i + 1) as nat);
                    }
                    return Err(Error::ConfigTooLarge);
                },
            },
            Err(e) => {
                proof {
                    lemma_arrays_failure(s, (i + 1) as nat);
                }
                return Err(e);
            },
        }
        i += 1;
    }
    match &cfg.post_stack_head {
        Some(head) => {
            let in_ch: usize = if n == 0 {
                0
            } else {
                cfg.layers[n - 1].head_size
            };
            assert(in_ch == s.head_input());
            match post_stack_head_weight_count(head, in_ch) {
                Ok(one) => match total.checked_add(one) {
                    Some(sum) => {
                        total = sum;
                    },
                    None => {
                        return Err(Error::ConfigTooLarge);
                    },
                },
                Err(e) => {
                    return Err(e);
                },
            }
        },
        None => {},
    }
    match total.checked_add(1) {
        Some(sum) => Ok(sum),
        None => Err(Error::ConfigTooLarge),
    }
}

/// A failure among the first arrays is the failure of the whole.
proof fn lemma_arrays_failure(s: WaveNetShape, n: nat)
    requires
        n <= s.layers.len(),
        s.arrays_failure(n) is Some,
    ensures
        s.count_failure() == s.arrays_failure(n),
    decreases s.layers.len() - n,
{
    if n < s.layers.len() {
        lemma_arrays_failure(s, n + 1);
    }
}

} // verus!
