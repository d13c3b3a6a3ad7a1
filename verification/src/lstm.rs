//! Real-time LSTM inference (NAM recurrent architecture).
//!
//! Built once from a parsed [`NamModel`] (allocating), then run on the audio thread
//! with zero allocation. State (`h`, `c`) is initialised from the model's **exported**
//! initial hidden/cell vectors (the core burned in over silence), not zeros.

pub mod cell;

use vstd::prelude::*;
use crate::arith::{evaluates, exprs, Arith, Expr, Scalar};
use crate::error::{Error, Failure};
use crate::json::JsonNumber;
use crate::lstm::cell::{dot, CellModel, LstmCell};
use crate::metadata::Calibration;
use crate::model::{ConfigShape, LstmConfig, ModelConfig, NamModel, NamShape};
use crate::reader::{span, Reader};
use crate::signal::{chain_step, copy_into, duplicate, inputs, lemma_run_at, run, Machine};
use vstd::arithmetic::overflow::CheckedUsize;

verus! {

/// Stacked LSTM layers under a linear head.
#[verifier::ext_equal]
pub struct LstmModel<N> {
    pub cells: Seq<CellModel<N>>,
    pub head_w: Seq<Expr<N>>,
    pub head_b: Expr<N>,
}

impl<N> LstmModel<N> {
    /// Every layer takes what the one before it gives; the first takes the mono input.
    pub open spec fn valid(self) -> bool {
        let h = self.head_w.len();
        &&& forall|i: int|
            0 <= i < self.cells.len() ==> (#[trigger] self.cells[i]).valid()
                && self.cells[i].hidden_size == h
        &&& forall|i: int|
            0 <= i < self.cells.len() ==> (#[trigger] self.cells[i]).input_size == if i == 0 {
                1
            } else {
                h
            }
    }

    /// What the head makes of the top layer's hidden state.
    pub open spec fn headed(self, top: Seq<Expr<N>>) -> Expr<N> {
        if self.cells.len() == 0 {
            self.head_b
        } else {
            dot(self.head_b, self.head_w, 0, top, self.head_w.len())
        }
    }

    /// The same model in the state that the file was exported with.
    pub open spec fn fresh(self) -> Self {
        LstmModel { cells: Seq::new(self.cells.len(), |i: int| self.cells[i].fresh()), ..self }
    }
}

impl<N> Machine<Expr<N>, Expr<N>> for LstmModel<N> {
    open spec fn step(self, x: Expr<N>) -> (Self, Expr<N>) {
        let r = chain_step(self.cells, seq![x], ());
        (LstmModel { cells: r.0, ..self }, self.headed(r.1))
    }
}

/// Weights of one layer with inputs `in_dim` wide: the combined matrix, the bias, and
/// the initial hidden and cell state.
pub open spec fn cell_weight_count(in_dim: nat, h: nat) -> nat {
    4 * h * (in_dim + h) + 4 * h + h + h
}

/// Width of the input of layer `i`.
pub open spec fn in_dim(cfg: LstmConfig, i: int) -> nat {
    if i == 0 {
        cfg.input_size as nat
    } else {
        cfg.hidden_size as nat
    }
}

/// Weights of the first `n` layers.
pub open spec fn cells_weight_count(cfg: LstmConfig, n: nat) -> nat
    decreases n,
{
    if n == 0 {
        0
    } else {
        cells_weight_count(cfg, (n - 1) as nat) + cell_weight_count(
            in_dim(cfg, n - 1),
            cfg.hidden_size as nat,
        )
    }
}

/// Number of weights the LSTM `config` implies in the flat weight blob.
pub open spec fn lstm_weight_count(cfg: LstmConfig) -> nat {
    cells_weight_count(cfg, cfg.num_layers as nat) + cfg.hidden_size as nat + 1
}

/// Layer `i` of the model that a weight blob holds.
pub open spec fn cell_of<N>(cfg: LstmConfig, w: Seq<JsonNumber>, i: int) -> CellModel<N> {
    let at = cells_weight_count(cfg, i as nat);
    let h = cfg.hidden_size as nat;
    let d = in_dim(cfg, i);
    let big = (4 * h * (d + h)) as nat;
    CellModel::made(
        d,
        h,
        span(w, at, big),
        span(w, at + big, 4 * h),
        span(w, at + big + 4 * h, h),
        span(w, at + big + 4 * h + h, h),
    )
}

/// The model that a weight blob holds: its layers, then the head weight and bias.
pub open spec fn lstm_of<N>(cfg: LstmConfig, w: Seq<JsonNumber>) -> LstmModel<N> {
    let at = cells_weight_count(cfg, cfg.num_layers as nat);
    let h = cfg.hidden_size as nat;
    LstmModel {
        cells: Seq::new(cfg.num_layers as nat, |i: int| cell_of(cfg, w, i)),
        head_w: span(w, at, h),
        head_b: Expr::Constant(w[(at + h) as int]),
    }
}

/// Why no LSTM can be built from a file, if so.
pub open spec fn lstm_failure(m: NamShape) -> Option<Failure> {
    match m.config {
        ConfigShape::Lstm(cfg) => if lstm_weight_count(cfg) > usize::MAX {
            Some(Failure::ConfigTooLarge)
        } else if lstm_weight_count(cfg) != m.weights.len() {
            Some(
                Failure::WeightCountMismatch {
                    expected: lstm_weight_count(cfg),
                    found: m.weights.len(),
                },
            )
        } else if cfg.num_layers > 0 && cfg.input_size != 1 {
            Some(Failure::UnsupportedFeature("LSTM input_size != 1"@))
        } else {
            None
        },
        _ => Some(Failure::UnsupportedArchitecture(m.architecture)),
    }
}

/// All layers but the first are alike.
pub proof fn lemma_cells_count(cfg: LstmConfig, n: nat)
    requires
        n > 0,
    ensures
        cells_weight_count(cfg, n) == cell_weight_count(
            cfg.input_size as nat,
            cfg.hidden_size as nat,
        ) + (n - 1) * cell_weight_count(cfg.hidden_size as nat, cfg.hidden_size as nat),
    decreases n,
{
    let rest = cell_weight_count(cfg.hidden_size as nat, cfg.hidden_size as nat);
    reveal_with_fuel(cells_weight_count, 2);
    if n > 1 {
        lemma_cells_count(cfg, (n - 1) as nat);
        assert((n - 2) * rest + rest == (n - 1) * rest) by (nonlinear_arith);
    } else {
        assert(0 * rest == 0);
    }
}

/// Fewer layers have fewer weights.
proof fn lemma_cells_count_grows(cfg: LstmConfig, i: nat, n: nat)
    requires
        i <= n,
    ensures
        cells_weight_count(cfg, i) <= cells_weight_count(cfg, n),
    decreases n - i,
{
    if i < n {
        lemma_cells_count_grows(cfg, i + 1, n);
        let h = cfg.hidden_size as nat;
        let d = in_dim(cfg, i as int);
        assert(4 * h * (d + h) >= 0) by (nonlinear_arith)
            requires
                h >= 0,
                d >= 0,
        ;
    }
}

fn count_cell(in_dim: usize, h: usize) -> (r: CheckedUsize)
    ensures
        r@ == cell_weight_count(in_dim as nat, h as nat),
{
    let four_h = CheckedUsize::new(h).mul_value(4);
    let row = CheckedUsize::new(in_dim).add_value(h);
    let r = four_h.mul_checked(&row).add_checked(&four_h).add_value(h).add_value(h);
    assert(4 * h == h * 4);
    r
}

/// Number of weights the LSTM `config` implies in the flat weight blob.
pub fn expected_weight_count(cfg: &LstmConfig) -> (r: Result<usize, Error>)
    ensures
        match r {
            Ok(n) => n == lstm_weight_count(*cfg),
            Err(e) => e@ == Failure::ConfigTooLarge && lstm_weight_count(*cfg) > usize::MAX,
        },
{
    let h: usize = cfg.hidden_size;
    let cells = if cfg.num_layers == 0 {
        CheckedUsize::new(0)
    } else {
        proof {
            lemma_cells_count(*cfg, cfg.num_layers as nat);
            let rest = cell_weight_count(h as nat, h as nat);
            assert(rest * (cfg.num_layers - 1) == (cfg.num_layers - 1) * rest) by (nonlinear_arith);
        }
        count_cell(cfg.input_size, h).add_checked(&count_cell(h, h).mul_value(cfg.num_layers - 1))
    };
    match cells.add_value(h).add_value(1).to_option() {
        Some(n) => Ok(n),
        None => Err(Error::ConfigTooLarge),
    }
}

/// A ready-to-run LSTM, all scratch pre-allocated in [`Lstm::new`].
pub struct Lstm<A: Arith> {
    cells: Vec<LstmCell<A>>,
    /// Head: `Linear(H, 1)`, weight length `H`, scalar bias.
    head_w: Vec<Scalar<A>>,
    head_b: Scalar<A>,
    calibration: Calibration,
    /// The inter-layer hidden signal, width `H`.
    carry: Vec<Scalar<A>>,
}

/// What the layers compute.
pub open spec fn cell_views<A: Arith>(cells: Seq<LstmCell<A>>) -> Seq<CellModel<A::Num>> {
    Seq::new(cells.len(), |i: int| cells[i]@)
}

impl<A: Arith> View for Lstm<A> {
    type V = LstmModel<A::Num>;

    closed spec fn view(&self) -> LstmModel<A::Num> {
        LstmModel {
            cells: cell_views(self.cells@),
            head_w: exprs(self.head_w@),
            head_b: self.head_b@,
        }
    }
}

impl<A: Arith> Lstm<A> {
    /// The layers fit together and the scratch has its size.
    pub closed spec fn wf(self) -> bool {
        &&& self@.valid()
        &&& forall|i: int| 0 <= i < self.cells@.len() ==> (#[trigger] self.cells@[i]).wf()
        &&& self.carry@.len() == self.head_w@.len()
    }

    /// The numbers by which a host calibrates levels and rate.
    pub closed spec fn levels(self) -> Calibration {
        self.calibration
    }

    /// A well-formed LSTM has a valid model.
    pub proof fn lemma_valid(self)
        requires
            self.wf(),
        ensures
            self@.valid(),
    {
    }

    /// Build the layers of an LSTM from a reader at the beginning of its weights.
    fn read_cells(r: &mut Reader, cfg: &LstmConfig) -> (cells: Vec<LstmCell<A>>)
        requires
            old(r).wf(),
            old(r).at() == 0,
            cells_weight_count(*cfg, cfg.num_layers as nat) <= old(r).blob().len() <= usize::MAX,
        ensures
            final(r).wf(),
            final(r).blob() == old(r).blob(),
            final(r).at() == cells_weight_count(*cfg, cfg.num_layers as nat),
            cell_views(cells@) == Seq::new(
                cfg.num_layers as nat,
                |i: int| cell_of::<A::Num>(*cfg, old(r).blob(), i),
            ),
            forall|i: int| 0 <= i < cells@.len() ==> (#[trigger] cells@[i]).wf(),
    {
        let h: usize = cfg.hidden_size;
        let n: usize = cfg.num_layers;
        let ghost w = r.blob();
        let mut cells: Vec<LstmCell<A>> = Vec::new();
        let mut layer: usize = 0;
        while layer < n
            invariant
                r.wf(),
                w == old(r).blob(),
                r.blob() == w,
                h == cfg.hidden_size,
                n == cfg.num_layers,
                layer <= n,
                r.at() == cells_weight_count(*cfg, layer as nat),
                cells_weight_count(*cfg, n as nat) <= w.len() <= usize::MAX,
                cells@.len() == layer,
                forall|i: int|
                    0 <= i < layer ==> (#[trigger] cells@[i])@ == cell_of::<A::Num>(*cfg, w, i),
                forall|i: int| 0 <= i < layer ==> (#[trigger] cells@[i]).wf(),
            decreases n - layer,
        {
            let d: usize = if layer == 0 {
                cfg.input_size
            } else {
                h
            };
            proof {
                lemma_cells_count_grows(*cfg, (layer + 1) as nat, n as nat);
                assert(d == in_dim(*cfg, layer as int));
                let row = d + h;
                assert(4 * h * row >= 0) by (nonlinear_arith)
                    requires
                        h >= 0,
                        row >= 0,
                ;
                assert(4 * h * row >= row || h == 0) by (nonlinear_arith)
                    requires
                        h >= 0,
                        row >= 0,
                ;
            }
            let big: usize = 4 * h * (d + h);
            let cw = r.take(big);
            let cb = r.take(4 * h);
            let h0 = r.take(h);
            let c0 = r.take(h);
            cells.push(LstmCell::new(d, h, cw, cb, h0, c0));
            layer += 1;
        }
        assert(cell_views(cells@) =~= Seq::new(
            cfg.num_layers as nat,
            |i: int| cell_of::<A::Num>(*cfg, w, i),
        ));
        cells
    }

    /// Build a runnable LSTM from a parsed `.nam`. All allocation happens here.
    pub fn new(model: &NamModel) -> (r: Result<Self, Error>)
        ensures
            match r {
                Ok(net) => {
                    &&& lstm_failure(model@) is None
                    &&& net.wf()
                    &&& net@ == lstm_of::<A::Num>(model@.config->Lstm_0, model@.weights)
                    &&& net.levels() == model@.calibration()
                },
                Err(e) => lstm_failure(model@) == Some(e@),
            },
    {
        let cfg: &LstmConfig = match &model.config {
            ModelConfig::Lstm(cfg) => cfg,
            _ => {
                return Err(Error::UnsupportedArchitecture(model.architecture.clone()));
            },
        };
        let expected: usize = match expected_weight_count(cfg) {
            Ok(n) => n,
            Err(e) => {
                return Err(e);
            },
        };
        if expected != model.weights.len() {
            return Err(Error::WeightCountMismatch { expected, found: model.weights.len() });
        }
        if cfg.num_layers > 0 && cfg.input_size != 1 {
            return Err(Error::UnsupportedFeature("LSTM input_size != 1".to_owned()));
        }
        let ghost w = model.weights@;
        let ghost lstm = lstm_of::<A::Num>(*cfg, w);
        let h: usize = cfg.hidden_size;
        let mut r = Reader::new(model.weights.as_slice());
        let cells = Self::read_cells(&mut r, cfg);
        let head_w = r.take(h);
        let last = r.take(1);
        let head_b = last[0];
        proof {
            let at = cells_weight_count(*cfg, cfg.num_layers as nat);
            assert(exprs(last@)[0] == head_b@);
            assert(lstm.cells.len() == cfg.num_layers);
            assert forall|i: int| 0 <= i < lstm.cells.len() implies (
            #[trigger] lstm.cells[i]).valid() && lstm.cells[i].hidden_size == lstm.head_w.len() by {
                cells@[i].lemma_valid();
                assert(cell_views(cells@)[i] == cells@[i]@);
            }
        }
        let carry: Vec<Scalar<A>> = vec![Scalar::zero(); h];
        let calibration = model.calibration();
        let net = Lstm { cells, head_w, head_b, calibration, carry };
        assert(net@ =~= lstm);
        Ok(net)
    }

    /// Process one mono sample.
    pub fn process_scalar(&mut self, x: Scalar<A>) -> (r: Scalar<A>)
        requires
            old(self).wf(),
        ensures
            final(self).wf(),
            (final(self)@, r@) == old(self)@.step(x@),
            final(self).levels() == old(self).levels(),
    {
        let ghost m = self@;
        let ghost xs: Seq<Expr<A::Num>> = seq![x@];
        if self.cells.len() == 0 {
            assert(self@.cells =~= chain_step(m.cells, xs, ()).0);
            return self.head_b;
        }
        let len: usize = self.cells.len();
        let first: [Scalar<A>; 1] = [x];
        assert(exprs(first@) =~= xs);
        assert(m.cells[0].input_size == 1);
        self.cells[0].process(first.as_slice());
        assert(m.cells[0].valid() && m.cells[0].hidden_size == m.head_w.len());
        copy_into(self.carry.as_mut_slice(), self.cells[0].hidden());
        proof {
            assert(m.cells.take(1).drop_last() =~= Seq::empty());
            assert(m.cells.take(1).last() == m.cells[0]);
            reveal_with_fuel(chain_step, 2);
            assert(m.cells[0].valid());
            self.cells@[0].lemma_valid();
        }
        let mut i: usize = 1;
        while i < len
            invariant
                *self == (Lstm { cells: self.cells, carry: self.carry, ..*old(self) }),
                m == old(self)@,
                m.valid(),
                len == m.cells.len(),
                self.cells@.len() == len,
                forall|j: int| 0 <= j < len ==> (#[trigger] self.cells@[j]).wf(),
                1 <= i <= len,
                self.carry@.len() == m.head_w.len(),
                forall|j: int| i <= j < len ==> (#[trigger] self.cells@[j])@ == m.cells[j],
                ({
                    let part = chain_step(m.cells.take(i as int), xs, ());
                    &&& part.0.len() == i
                    &&& forall|j: int| 0 <= j < i ==> (#[trigger] self.cells@[j])@ == part.0[j]
                    &&& exprs(self.carry@) == part.1
                }),
            decreases len - i,
        {
            let ghost earlier = self.cells@;
            proof {
                assert(m.cells.take(i + 1).drop_last() =~= m.cells.take(i as int));
                assert(m.cells.take(i + 1).last() == m.cells[i as int]);
                assert(m.cells[i as int].input_size == m.head_w.len());
                assert(m.cells[i as int].valid());
            }
            self.cells[i].process(self.carry.as_slice());
            proof {
                self.cells@[i as int].lemma_valid();
                assert forall|j: int| 0 <= j < len && j != i implies #[trigger] self.cells@[j]
                    == earlier[j] by {}
            }
            copy_into(self.carry.as_mut_slice(), self.cells[i].hidden());
            i += 1;
        }
        let ghost part = chain_step(m.cells, xs, ());
        proof {
            assert(m.cells.take(len as int) =~= m.cells);
        }
        let h: usize = self.head_w.len();
        let mut y = self.head_b;
        let mut j: usize = 0;
        while j < h
            invariant
                h == self.head_w@.len(),
                self.carry@.len() == h,
                exprs(self.carry@) == part.1,
                exprs(self.head_w@) == m.head_w,
                j <= h,
                y@ == dot(m.head_b, m.head_w, 0, part.1, j as nat),
            decreases h - j,
        {
            proof {
                assert(exprs(self.carry@)[j as int] == self.carry@[j as int]@);
                assert(exprs(self.head_w@)[j as int] == self.head_w@[j as int]@);
            }
            y = y.plus(self.head_w[j].times(self.carry[j]));
            j += 1;
        }
        proof {
            assert(self@.cells =~= part.0);
            assert forall|i: int| 0 <= i < self@.cells.len() implies (
            #[trigger] self@.cells[i]).valid() && self@.cells[i].hidden_size
                == self@.head_w.len() by {
                self.cells@[i].lemma_valid();
                lemma_cells_kept(m.cells, xs, i);
                assert(m.cells[i].hidden_size == m.head_w.len());
            }
            assert forall|i: int| 0 <= i < self@.cells.len() implies (
            #[trigger] self@.cells[i]).input_size == if i == 0 {
                1
            } else {
                self@.head_w.len()
            } by {
                lemma_cells_kept(m.cells, xs, i);
                assert(m.cells[i].hidden_size == m.head_w.len());
            }
        }
        y
    }

    /// The model's sample rate (from the source `.nam`, or the NAM default).
    pub fn sample_rate(&self) -> (r: JsonNumber)
        ensures
            r == self.levels().sample_rate,
    {
        self.calibration.sample_rate
    }

    /// The numbers by which a host calibrates levels and rate.
    pub fn calibration(&self) -> (r: Calibration)
        ensures
            r == self.levels(),
    {
        self.calibration
    }

    /// Reset all recurrent state to the exported initial hidden/cell vectors.
    pub fn reset(&mut self)
        requires
            old(self).wf(),
        ensures
            final(self).wf(),
            final(self)@ == old(self)@.fresh(),
            final(self).levels() == old(self).levels(),
    {
        let ghost m = self@;
        let len: usize = self.cells.len();
        let mut i: usize = 0;
        while i < len
            invariant
                *self == (Lstm { cells: self.cells, ..*old(self) }),
                m == old(self)@,
                len == m.cells.len(),
                self.cells@.len() == len,
                forall|j: int| 0 <= j < len ==> (#[trigger] self.cells@[j]).wf(),
                i <= len,
                forall|j: int|
                    0 <= j < len ==> (#[trigger] self.cells@[j])@ == if j < i {
                        m.cells[j].fresh()
                    } else {
                        m.cells[j]
                    },
            decreases len - i,
        {
            let ghost earlier = self.cells@;
            self.cells[i].reset();
            proof {
                assert forall|j: int| 0 <= j < len && j != i implies #[trigger] self.cells@[j]
                    == earlier[j] by {}
            }
            i += 1;
        }
        proof {
            assert(self@ =~= m.fresh());
            assert forall|i: int| 0 <= i < self@.cells.len() implies (
            #[trigger] self@.cells[i]).valid() && self@.cells[i].hidden_size
                == self@.head_w.len() by {
                self.cells@[i].lemma_valid();
                assert(m.cells[i].hidden_size == m.head_w.len());
            }
        }
    }

    /// Process a buffer of mono samples in place: a planar block of one row.
    pub fn process_block(&mut self, input: &[Scalar<A>], out: &mut [Scalar<A>])
        requires
            old(self).wf(),
            input@.len() == old(out)@.len(),
        ensures
            final(self).wf(),
            final(self).levels() == old(self).levels(),
            final(out)@.len() == old(out)@.len(),
            (final(self)@, exprs(final(out)@)) == run(old(self)@, exprs(input@)),
    {
        let ghost m = self@;
        let ghost xs = exprs(input@);
        let mut t: usize = 0;
        assert(xs.take(0) =~= Seq::empty());
        assert(exprs(out@).take(0) =~= Seq::empty());
        while t < input.len()
            invariant
                self.wf(),
                self.levels() == old(self).levels(),
                xs == exprs(input@),
                input@.len() == out@.len(),
                out@.len() == old(out)@.len(),
                t <= input@.len(),
                (self@, exprs(out@).take(t as int)) == run(m, xs.take(t as int)),
            decreases input@.len() - t,
        {
            let ghost before = exprs(out@).take(t as int);
            let y = self.process_scalar(input[t]);
            out[t] = y;
            proof {
                assert(xs.take(t + 1).drop_last() =~= xs.take(t as int));
                assert(xs.take(t + 1).last() == input@[t as int]@);
                assert(exprs(out@).take(t + 1) =~= before.push(y@));
            }
            t += 1;
        }
        assert(xs.take(t as int) =~= xs);
        assert(exprs(out@).take(t as int) =~= exprs(out@));
    }

    /// Process a buffer of mono samples in place.
    pub fn process_buffer(&mut self, io: &mut [A::Num])
        requires
            old(self).wf(),
        ensures
            final(self).wf(),
            final(self).levels() == old(self).levels(),
            final(io)@.len() == old(io)@.len(),
            final(self)@ == run(old(self)@, inputs(old(io)@)).0,
            forall|t: int|
                0 <= t < old(io)@.len() ==> evaluates::<A>(
                    run(old(self)@, inputs(old(io)@)).1[t],
                    #[trigger] final(io)@[t],
                ),
    {
        let ghost m = self@;
        let ghost xs = inputs(io@);
        let ghost ys = run(m, xs).1;
        let mut t: usize = 0;
        assert(xs.take(0) =~= Seq::empty());
        while t < io.len()
            invariant
                self.wf(),
                self.levels() == old(self).levels(),
                xs == inputs(old(io)@),
                ys == run(m, xs).1,
                io@.len() == old(io)@.len(),
                t <= io@.len(),
                self@ == run(m, xs.take(t as int)).0,
                forall|q: int| 0 <= q < t ==> evaluates::<A>(ys[q], #[trigger] io@[q]),
                forall|q: int| t <= q < io@.len() ==> #[trigger] io@[q] == old(io)@[q],
            decreases io@.len() - t,
        {
            let ghost earlier = io@;
            proof {
                lemma_run_at(m, xs, t as int);
            }
            let y = self.process_sample(io[t]);
            io[t] = y;
            proof {
                assert forall|q: int| 0 <= q < t + 1 implies evaluates::<A>(
                    ys[q],
                    #[trigger] io@[q],
                ) by {
                    if q < t {
                        assert(io@[q] == earlier[q]);
                    }
                }
            }
            t += 1;
        }
        assert(xs.take(t as int) =~= xs);
    }

    /// Process one mono sample: feed `x`, get the head's answer.
    pub fn process_sample(&mut self, x: A::Num) -> (r: A::Num)
        requires
            old(self).wf(),
        ensures
            final(self).wf(),
            final(self).levels() == old(self).levels(),
            final(self)@ == old(self)@.step(Expr::Input(x)).0,
            evaluates::<A>(old(self)@.step(Expr::Input(x)).1, r),
    {
        self.process_scalar(Scalar::input(x)).output()
    }
}

/// A step changes only the state of a layer.
pub proof fn lemma_cells_kept<N>(cells: Seq<CellModel<N>>, x: Seq<Expr<N>>, i: int)
    requires
        0 <= i < cells.len(),
    ensures
        chain_step(cells, x, ()).0.len() == cells.len(),
        chain_step(cells, x, ()).0[i].fresh() == cells[i].fresh(),
        chain_step(cells, x, ()).0[i].hidden_size == cells[i].hidden_size,
        chain_step(cells, x, ()).0[i].input_size == cells[i].input_size,
    decreases cells.len(),
{
    let front = chain_step(cells.drop_last(), x, ());
    if cells.len() > 1 {
        if i < cells.len() - 1 {
            lemma_cells_kept(cells.drop_last(), x, i);
            assert(cells.drop_last()[i] == cells[i]);
        } else {
            lemma_cells_kept(cells.drop_last(), x, 0);
        }
    }
}

impl<A: Arith> Clone for Lstm<A> {
    fn clone(&self) -> (r: Self)
        ensures
            r@ == self@,
            self.wf() ==> r.wf(),
            r.levels() == self.levels(),
    {
        let mut cells: Vec<LstmCell<A>> = Vec::new();
        let mut i: usize = 0;
        while i < self.cells.len()
            invariant
                i <= self.cells@.len(),
                cells@.len() == i,
                forall|j: int|
                    0 <= j < i ==> (#[trigger] cells@[j])@ == self.cells@[j]@ && cells@[j].wf()
                        == self.cells@[j].wf(),
            decreases self.cells@.len() - i,
        {
            cells.push(self.cells[i].clone());
            i += 1;
        }
        let r = Lstm {
            cells,
            head_w: duplicate(&self.head_w),
            head_b: self.head_b,
            calibration: self.calibration,
            carry: duplicate(&self.carry),
        };
        assert(r@.cells =~= self@.cells);
        r
    }
}

} // verus!
