//! Configurable activation gating over a layer's pre-activation buffer.
//!
//! One value parameterized by a [`GatingMode`], a primary activation, and a secondary
//! activation. The classic A1 path is `Gated` with `primary = Tanh`,
//! `secondary = Sigmoid`.
//!
//! Layout convention (parity-critical): for `bottleneck = bn` output rows, the
//! primary operand of channel `c` is `z[c]` and the secondary operand is
//! `z[c + bn]`. `Ungated` needs `bn` input rows; `Gated`/`Blended` need `2*bn`.

use vstd::prelude::*;
use crate::arith::{exprs, Arith, Expr, Scalar};
use crate::model::GatingMode;
use crate::signal::{column, columns, lemma_planar, lemma_planar_distinct, lemma_row};
use crate::wavenet::activation::Activation;

verus! {

/// Configurable activation gating over a layer's pre-activation buffer `z`.
#[derive(Debug, Clone, Copy)]
pub struct Gating {
    pub mode: GatingMode,
    pub primary: Activation,
    pub secondary: Activation,
    pub bottleneck: usize,
}

impl Gating {
    /// Number of input rows: `Ungated` takes `bn`, the others `2*bn`.
    pub open spec fn rows(self) -> nat {
        match self.mode {
            GatingMode::Ungated => self.bottleneck as nat,
            _ => (2 * self.bottleneck) as nat,
        }
    }

    /// What gating makes of a value row and a gate row.
    pub open spec fn gate<N>(self, v: Expr<N>, g: Expr<N>) -> Expr<N> {
        match self.mode {
            GatingMode::Ungated => self.primary.of(v),
            GatingMode::Gated => self.primary.of(v).times(self.secondary.of(g)),
            GatingMode::Blended => {
                let alpha = self.secondary.of(g);
                alpha.times(self.primary.of(v)).plus(Expr::One.minus(alpha).times(v))
            },
        }
    }

    /// What gating makes of a column of [`Self::rows`] rows.
    pub open spec fn apply<N>(self, z: Seq<Expr<N>>) -> Seq<Expr<N>> {
        Seq::new(self.bottleneck as nat, |c: int| self.gate(z[c], z[c + self.bottleneck]))
    }

    /// Build from a resolved mode and activations and the bottleneck width `bn`
    /// (the number of output rows). `secondary` is ignored when `mode == Ungated`.
    pub fn new(
        mode: GatingMode,
        primary: Activation,
        secondary: Activation,
        bottleneck: usize,
    ) -> (r: Gating)
        ensures
            r == (Gating { mode, primary, secondary, bottleneck }),
    {
        Gating { mode, primary, secondary, bottleneck }
    }

    /// The configured gating mode (so callers can branch on it).
    pub fn mode(&self) -> (r: GatingMode)
        ensures
            r == self.mode,
    {
        self.mode
    }

    /// Number of input rows `z` must supply: `Ungated` takes `bn`, otherwise `2*bn`.
    pub fn input_rows(&self) -> (r: usize)
        requires
            2 * self.bottleneck <= usize::MAX,
        ensures
            r == self.rows(),
    {
        match self.mode {
            GatingMode::Ungated => self.bottleneck,
            _ => 2 * self.bottleneck,
        }
    }

    /// Number of output rows written: always `bn`.
    pub fn output_rows(&self) -> (r: usize)
        ensures
            r == self.bottleneck,
    {
        self.bottleneck
    }

    /// Gate one value: `g` is looked at only where the mode has a gate.
    fn gate_one<A: Arith>(&self, v: Scalar<A>, g: Scalar<A>) -> (r: Scalar<A>)
        ensures
            r@ == self.gate(v@, g@),
    {
        match self.mode {
            GatingMode::Ungated => self.primary.apply(v),
            GatingMode::Gated => self.primary.apply(v).times(self.secondary.apply(g)),
            GatingMode::Blended => {
                let alpha = self.secondary.apply(g);
                let p = self.primary.apply(v);
                alpha.times(p).plus(Scalar::one().minus(alpha).times(v))
            },
        }
    }

    /// Per-sample gating. `z` has [`Self::input_rows`] elements; `out` has
    /// `bottleneck`.
    pub fn process_sample<A: Arith>(&self, z: &[Scalar<A>], out: &mut [Scalar<A>])
        requires
            z@.len() == self.rows(),
            old(out)@.len() == self.bottleneck,
        ensures
            final(out)@.len() == old(out)@.len(),
            exprs(final(out)@) == self.apply(exprs(z@)),
    {
        let bn: usize = self.bottleneck;
        assert(z.len() == self.rows());
        let mut c: usize = 0;
        while c < bn
            invariant
                bn == self.bottleneck,
                z@.len() == self.rows(),
                self.rows() <= usize::MAX,
                out@.len() == bn,
                c <= bn,
                forall|q: int|
                    0 <= q < c ==> (#[trigger] out@[q])@ == self.apply(exprs(z@))[q],
            decreases bn - c,
        {
            let v = z[c];
            let g = match self.mode {
                GatingMode::Ungated => v,
                _ => z[c + bn],
            };
            out[c] = self.gate_one(v, g);
            c += 1;
        }
        assert(exprs(out@) =~= self.apply(exprs(z@)));
    }

    /// Planar block twin of [`Self::process_sample`]. `z` is `input_rows()*n`,
    /// `out` is `bottleneck*n`, `[row][t]`.
    pub fn process_block<A: Arith>(&self, z: &[Scalar<A>], out: &mut [Scalar<A>], n: usize)
        requires
            z@.len() == self.rows() * n,
            old(out)@.len() == self.bottleneck * n,
        ensures
            final(out)@.len() == old(out)@.len(),
            columns(exprs(final(out)@), self.bottleneck as nat, n as nat) =~= Seq::new(
                n as nat,
                |t: int| self.apply(columns(exprs(z@), self.rows(), n as nat)[t]),
            ),
    {
        let bn: usize = self.bottleneck;
        assert(z.len() == self.rows() * n);
        assert(out.len() == bn * n);
        let ghost zs = columns(exprs(z@), self.rows(), n as nat);
        let mut c: usize = 0;
        while c < bn
            invariant
                bn == self.bottleneck,
                z@.len() == self.rows() * n <= usize::MAX,
                out@.len() == bn * n <= usize::MAX,
                zs == columns(exprs(z@), self.rows(), n as nat),
                c <= bn,
                forall|q: int, t: int|
                    0 <= q < c && 0 <= t < n ==> (#[trigger] out@[q * n + t])@ == self.apply(
                        zs[t],
                    )[q],
            decreases bn - c,
        {
            proof {
                lemma_row(bn as int, n as int, c as int);
                lemma_row(self.rows() as int, n as int, c as int);
                if self.mode != GatingMode::Ungated {
                    lemma_row(self.rows() as int, n as int, c + bn);
                }
            }
            let vrow: usize = c * n;
            let grow: usize = match self.mode {
                GatingMode::Ungated => vrow,
                _ => {
                    proof {
                        assert(c + bn <= (c + bn) * n || n == 0) by (nonlinear_arith);
                        if n == 0 {
                            assert((c + bn) * n == 0) by (nonlinear_arith)
                                requires
                                    n == 0,
                            ;
                            assert(c * n == 0) by (nonlinear_arith)
                                requires
                                    n == 0,
                            ;
                        }
                    }
                    if n == 0 {
                        0
                    } else {
                        (c + bn) * n
                    }
                },
            };
            let mut t: usize = 0;
            while t < n
                invariant
                    bn == self.bottleneck,
                    z@.len() == self.rows() * n <= usize::MAX,
                    out@.len() == bn * n <= usize::MAX,
                    zs == columns(exprs(z@), self.rows(), n as nat),
                    c < bn,
                    vrow == c * n,
                    vrow + n <= bn * n,
                    vrow + n <= self.rows() * n,
                    self.mode == GatingMode::Ungated ==> grow == vrow,
                    self.mode != GatingMode::Ungated ==> grow == (c + bn) * n && grow + n
                        <= self.rows() * n,
                    t <= n,
                    forall|q: int, u: int|
                        (0 <= q < c && 0 <= u < n || q == c && 0 <= u < t) ==> (
                        #[trigger] out@[q * n + u])@ == self.apply(zs[u])[q],
                decreases n - t,
            {
                let ghost earlier = out@;
                let v = z[vrow + t];
                let g = z[grow + t];
                out[vrow + t] = self.gate_one(v, g);
                proof {
                    assert(zs[t as int][c as int] == v@);
                    if self.mode != GatingMode::Ungated {
                        assert(zs[t as int][c + bn] == g@);
                    }
                    assert forall|q: int, u: int|
                        (0 <= q < c && 0 <= u < n || q == c && 0 <= u < t + 1) implies (
                    #[trigger] out@[q * n + u])@ == self.apply(zs[u])[q] by {
                        lemma_planar(bn as int, n as int, q, u);
                        if q * n + u == vrow + t {
                            lemma_planar_distinct(n as int, q, u, c as int, t as int);
                        } else {
                            assert(out@[q * n + u] == earlier[q * n + u]);
                        }
                    }
                }
                t += 1;
            }
            c += 1;
        }
        proof {
            let os = columns(exprs(out@), bn as nat, n as nat);
            assert forall|t: int| 0 <= t < n implies #[trigger] os[t] =~= self.apply(zs[t]) by {
                assert forall|q: int| 0 <= q < bn implies #[trigger] os[t][q] == self.apply(
                    zs[t],
                )[q] by {
                    lemma_planar(bn as int, n as int, q, t);
                    assert(os[t] == column(exprs(out@), bn as nat, n as nat, t));
                }
            }
        }
    }
}

} // verus!
