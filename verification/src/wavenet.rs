//! Real-time WaveNet inference.
//!
//! [`WaveNet`] is built once from a parsed file (which may allocate), then run on the
//! audio thread via [`WaveNet::process_buffer`], which never allocates. All scratch
//! buffers are pre-allocated when it is built.
//!
//! Two top-level features go beyond the layer-array stack: an optional **post-stack
//! head** (an `activation -> Conv1d` chain run after the arrays, with `head_scale`
//! scaling its input; its output is the model output) and an optional
//! **`condition_dsp`** (a nested standalone model whose output replaces the raw mono
//! input as the conditioning fed to every array; the raw input still drives the first
//! array's layer input). The `condition_dsp` may emit several output channels.

pub mod activation;
pub mod array;
pub mod assembly;
pub mod conv;
pub mod film;
pub mod gating;
pub mod head;
pub mod layer;
pub mod weights;

use vstd::prelude::*;
use crate::arith::{evaluates, exprs, Arith, Expr, Scalar};
use crate::engine::{
    arrays_reach, conditioning, conveyed, conveyed_all, leads, lemma_arrays_kept,
    lemma_wavenet_field_fresh, lemma_wavenet_fresh, lemma_wavenet_kept, lemma_wavenet_run,
    lemma_wavenet_run_empty, same_arrays, scaled_heads, seeds, voiced, voiced_heads, WaveNetModel,
};
use crate::error::{Error, Failure};
use crate::metadata::Calibration;
use crate::model_runtime::Model;
use crate::signal::{
    columns, copy_into, duplicate, fill_zero, front, front_columns, front_mut, inputs,
    lemma_block_len, lemma_chain_empty, lemma_chain_len, lemma_chain_run, lemma_columns_mono,
    lemma_columns_scaled, lemma_columns_silence, lemma_row, lemma_run_concat, lemma_run_len,
    lemma_run_one, lemma_run_prefix, paired, run, scale_into, scaled, silence, Chain, Machine, MAX_BLOCK,
};
use crate::wavenet::array::{ArrayModel, LayerArray};
use crate::wavenet::head::{HeadModel, PostStackHead};
use crate::wavenet::layer::carries;
use vstd::arithmetic::overflow::CheckedUsize;

verus! {

/// What the arrays compute.
pub open spec fn array_views<A: Arith>(arrays: Seq<LayerArray<A>>) -> Seq<ArrayModel<A::Num>> {
    Seq::new(arrays.len(), |i: int| arrays[i]@)
}

/// What an optional post-stack head computes.
pub open spec fn head_view<A: Arith>(head: Option<Box<PostStackHead<A>>>) -> Option<
    HeadModel<A::Num>,
> {
    match head {
        Some(h) => Some(h@),
        None => None,
    }
}

/// A ready-to-run WaveNet, with all scratch buffers pre-allocated.
pub struct WaveNet<A: Arith> {
    arrays: Vec<LayerArray<A>>,
    /// Optional post-stack head. When present, `head_scale` scales the head's *input*
    /// and the chain's output is the model output; when absent, the output is
    /// `head_scale` times the final head output.
    post_stack_head: Option<Box<PostStackHead<A>>>,
    /// Optional nested model whose output replaces the raw mono input as the
    /// conditioning fed to every array.
    condition_dsp: Option<Box<Model<A>>>,
    /// Conditioning width fed to every array.
    cond_out_ch: usize,
    head_scale: Scalar<A>,
    /// Samples of input history the deepest dilated tap reaches back over.
    receptive_field: usize,
    /// Number of output rows.
    out_ch: usize,
    /// Widest head signal and widest layer signal.
    head_w: usize,
    sig_w: usize,
    /// Planar `[cond_out_ch][MAX_BLOCK]` scratch: the conditioning.
    cond_dsp_out: Vec<Scalar<A>>,
    /// Planar `[head_w][MAX_BLOCK]` scratch: the head signal carried between arrays
    /// (two buffers, ping-ponged).
    head_a: Vec<Scalar<A>>,
    head_b: Vec<Scalar<A>>,
    /// Planar `[sig_w][MAX_BLOCK]` scratch: the layer signal carried between arrays.
    sig_a: Vec<Scalar<A>>,
    sig_b: Vec<Scalar<A>>,
    /// The mono input of the current block.
    cond_blk: Vec<Scalar<A>>,
    /// Planar `[lanes][MAX_BLOCK]` scratch: the output of the current block, one lane a
    /// row, or one where there is no row.
    out_blk: Vec<Scalar<A>>,
    calibration: Calibration,
}

impl<A: Arith> WaveNet<A> {
    pub closed spec fn view(&self) -> WaveNetModel<A::Num>
        decreases self,
    {
        WaveNetModel {
            arrays: array_views(self.arrays@),
            head: head_view(self.post_stack_head),
            condition: match self.condition_dsp {
                Some(m) => Some(Box::new(m.view())),
                None => None,
            },
            head_scale: self.head_scale@,
        }
    }

    /// The parts fit together and the scratch buffers have their sizes.
    pub closed spec fn wf(self) -> bool
        decreases self,
    {
        &&& self@.valid()
        &&& forall|i: int| 0 <= i < self.arrays@.len() ==> (#[trigger] self.arrays@[i]).wf()
        &&& self.post_stack_head matches Some(h) ==> h.wf()
        &&& match self.condition_dsp {
            Some(m) => m.wf(),
            None => true,
        }
        &&& self.cond_out_ch == self@.condition_width()
        &&& self.out_ch == self@.rows()
        &&& self.receptive_field == self@.receptive_field()
        &&& 1 <= self.sig_w
        &&& 1 <= self.head_w
        &&& self.widths_fit(self.arrays@)
        &&& self.cond_dsp_out@.len() == self.cond_out_ch * MAX_BLOCK
        &&& self.head_a@.len() == self.head_w * MAX_BLOCK
        &&& self.head_b@.len() == self.head_w * MAX_BLOCK
        &&& self.sig_a@.len() == self.sig_w * MAX_BLOCK
        &&& self.sig_b@.len() == self.sig_w * MAX_BLOCK
        &&& self.cond_blk@.len() == MAX_BLOCK
        &&& self.out_blk@.len() == self@.lanes() * MAX_BLOCK
    }

    /// The carry buffers are wide enough for the arrays.
    spec fn widths_fit(self, arrays: Seq<LayerArray<A>>) -> bool {
        forall|i: int|
            0 <= i < arrays.len() ==> (#[trigger] arrays[i])@.channels() <= self.sig_w
                && arrays[i]@.head_in() <= self.head_w && arrays[i]@.head_size() <= self.head_w
    }

    /// The numbers by which a host calibrates levels and rate.
    pub closed spec fn levels(self) -> Calibration {
        self.calibration
    }

    /// A well-formed WaveNet has a valid model.
    pub proof fn lemma_valid(self)
        requires
            self.wf(),
        ensures
            self@.valid(),
    {
    }

    /// Put a WaveNet together from parts that fit, with all scratch pre-allocated.
    pub(crate) fn assemble(
        arrays: Vec<LayerArray<A>>,
        post_stack_head: Option<Box<PostStackHead<A>>>,
        condition_dsp: Option<Box<Model<A>>>,
        head_scale: Scalar<A>,
        calibration: Calibration,
        Ghost(m): Ghost<WaveNetModel<A::Num>>,
    ) -> (r: Result<Self, Error>)
        requires
            forall|i: int| 0 <= i < arrays@.len() ==> (#[trigger] arrays@[i]).wf(),
            post_stack_head matches Some(h) ==> h.wf(),
            condition_dsp matches Some(c) ==> c.wf(),
            m.arrays == array_views(arrays@),
            m.head == head_view(post_stack_head),
            m.condition == match condition_dsp {
                Some(c) => Some(Box::new(c@)),
                None => None,
            },
            m.head_scale == head_scale@,
            m.valid(),
            forall|i: int|
                0 <= i < arrays@.len() ==> (#[trigger] arrays@[i])@.channels() * MAX_BLOCK
                    <= usize::MAX && arrays@[i]@.head_in() * MAX_BLOCK <= usize::MAX
                    && arrays@[i]@.head_size() * MAX_BLOCK <= usize::MAX,
            post_stack_head matches Some(h) ==> h@.out_channels() == 1,
        ensures
            match r {
                Ok(net) => net.wf() && net@ == m && net.levels() == calibration
                    && m.receptive_field() <= usize::MAX,
                Err(e) => e@ == Failure::ConfigTooLarge && m.receptive_field() > usize::MAX,
            },
    {
        let cond_out_ch: usize = match &condition_dsp {
            Some(c) => c.num_output_channels(),
            None => 1,
        };
        let base: usize = match &condition_dsp {
            Some(c) => c.receptive_field(),
            None => 1,
        };
        let len: usize = arrays.len();
        let mut field = CheckedUsize::new(base);
        let mut head_w: usize = 1;
        let mut sig_w: usize = 1;
        let mut i: usize = 0;
        assert(m.arrays.take(0) =~= Seq::empty());
        while i < len
            invariant
                len == arrays@.len(),
                m.arrays == array_views(arrays@),
                forall|i: int| 0 <= i < arrays@.len() ==> (#[trigger] arrays@[i]).wf(),
                forall|i: int|
                    0 <= i < arrays@.len() ==> (#[trigger] arrays@[i])@.channels() * MAX_BLOCK
                        <= usize::MAX && arrays@[i]@.head_in() * MAX_BLOCK <= usize::MAX
                        && arrays@[i]@.head_size() * MAX_BLOCK <= usize::MAX,
                i <= len,
                field@ == base + arrays_reach(m.arrays.take(i as int)),
                1 <= head_w,
                1 <= sig_w,
                head_w * MAX_BLOCK <= usize::MAX,
                sig_w * MAX_BLOCK <= usize::MAX,
                forall|j: int|
                    0 <= j < i ==> (#[trigger] arrays@[j])@.channels() <= sig_w
                        && arrays@[j]@.head_in() <= head_w && arrays@[j]@.head_size() <= head_w,
            decreases len - i,
        {
            proof {
                assert(m.arrays.take(i + 1).drop_last() =~= m.arrays.take(i as int));
                assert(m.arrays.take(i + 1).last() == arrays@[i as int]@);
            }
            let reach = arrays[i].reach();
            field = field.add_checked(&reach);
            let ch: usize = arrays[i].channels();
            let hin: usize = arrays[i].head_in();
            let hs: usize = arrays[i].head_size();
            if ch > sig_w {
                sig_w = ch;
            }
            if hin > head_w {
                head_w = hin;
            }
            if hs > head_w {
                head_w = hs;
            }
            i += 1;
        }
        assert(m.arrays.take(len as int) =~= m.arrays);
        match &post_stack_head {
            Some(h) => {
                let reach = h.reach();
                field = field.add_checked(&reach);
            },
            None => {},
        }
        let receptive_field: usize = match field.to_option() {
            Some(n) => n,
            None => {
                return Err(Error::ConfigTooLarge);
            },
        };
        let out_ch: usize = if len == 0 {
            1
        } else {
            match &post_stack_head {
                Some(h) => h.out_channels(),
                None => arrays[len - 1].head_size(),
            }
        };
        proof {
            if len > 0 {
                assert(m.arrays.last() == arrays@[len - 1]@);
            }
        }
        let lanes: usize = if out_ch == 0 {
            1
        } else {
            out_ch
        };
        let net = WaveNet {
            arrays,
            post_stack_head,
            condition_dsp,
            cond_out_ch,
            head_scale,
            receptive_field,
            out_ch,
            head_w,
            sig_w,
            cond_dsp_out: vec![Scalar::zero(); cond_out_ch * MAX_BLOCK],
            head_a: vec![Scalar::zero(); head_w * MAX_BLOCK],
            head_b: vec![Scalar::zero(); head_w * MAX_BLOCK],
            sig_a: vec![Scalar::zero(); sig_w * MAX_BLOCK],
            sig_b: vec![Scalar::zero(); sig_w * MAX_BLOCK],
            cond_blk: vec![Scalar::zero(); MAX_BLOCK],
            out_blk: vec![Scalar::zero(); lanes * MAX_BLOCK],
            calibration,
        };
        assert(net@ =~= m);
        Ok(net)
    }

    /// Fill the conditioning of the current block: what the nested model makes of the
    /// mono input, or that input itself.
    fn fill_condition(&mut self, n: usize)
        requires
            old(self).wf(),
            n <= MAX_BLOCK,
        ensures
            *final(self) == (WaveNet {
                condition_dsp: final(self).condition_dsp,
                cond_dsp_out: final(self).cond_dsp_out,
                ..*old(self)
            }),
            final(self).cond_dsp_out@.len() == old(self).cond_dsp_out@.len(),
            final(self).condition_dsp matches Some(m) ==> m.wf(),
            ({
                let m = old(self)@;
                let xs = exprs(old(self).cond_blk@.take(n as int));
                &&& front_columns(final(self).cond_dsp_out@, m.condition_width(), n as nat)
                    == conditioning(m, xs)
                &&& final(self)@.condition == match m.condition {
                    Some(e) => Some(Box::new(run(*e, xs).0)),
                    None => None,
                }
            }),
        decreases old(self)@, 0nat,
    {
        let ghost m = self@;
        let ghost xs = exprs(self.cond_blk@.take(n as int));
        proof {
            lemma_block_len(self.cond_out_ch as int, n as int);
            assert(self.cond_dsp_out.len() == self.cond_out_ch * MAX_BLOCK);
        }
        let input = front(&self.cond_blk, n);
        let len: usize = self.cond_out_ch * n;
        let out = front_mut(&mut self.cond_dsp_out, len);
        match &mut self.condition_dsp {
            Some(c) => {
                c.process_block_multi(input, out, n);
                assert(self.cond_dsp_out@.take(len as int) =~= out@);
            },
            None => {
                proof {
                    assert(m.condition is None);
                    assert(len == n) by (nonlinear_arith)
                        requires
                            len == 1 * n,
                    ;
                }
                copy_into(out, input);
                proof {
                    assert(self.cond_dsp_out@.take(len as int) =~= out@);
                    lemma_columns_mono(exprs(out@));
                    assert(exprs(out@) =~= xs);
                    assert(front_columns(self.cond_dsp_out@, 1, n as nat) =~= conditioning(m, xs));
                }
            },
        }
    }

    /// Run the current block through every array, leaving the last array's head output
    /// in `head_a`.
    fn run_arrays_block(&mut self, n: usize, Ghost(cs): Ghost<Seq<Seq<Expr<A::Num>>>>)
        requires
            n <= MAX_BLOCK,
            old(self).arrays_ready(),
            old(self).arrays@.len() > 0,
            cs == front_columns(
                old(self).cond_dsp_out@,
                old(self).cond_out_ch as nat,
                n as nat,
            ),
        ensures
            final(self).arrays_ready(),
            *final(self) == (WaveNet {
                arrays: final(self).arrays,
                head_a: final(self).head_a,
                head_b: final(self).head_b,
                sig_a: final(self).sig_a,
                sig_b: final(self).sig_b,
                ..*old(self)
            }),
            ({
                let arrays = array_views(old(self).arrays@);
                let xs = seeds(old(self)@, exprs(old(self).cond_blk@.take(n as int)));
                let stack = run(Chain { stages: arrays }, paired(xs, cs));
                &&& array_views(final(self).arrays@) == stack.0.stages
                &&& same_arrays(arrays, stack.0.stages)
                &&& front_columns(final(self).head_a@, arrays.last().head_size(), n as nat)
                    == Seq::new(n as nat, |t: int| stack.1[t].head)
                &&& exprs(final(self).head_a@.take(n as int)) == leads(
                    arrays,
                    xs,
                    cs,
                    arrays.len() as int,
                )
            }),
    {
        let ghost m = self@;
        let ghost arrays = m.arrays;
        let ghost mono = exprs(self.cond_blk@.take(n as int));
        let ghost xs = seeds(m, mono);
        let len: usize = self.arrays.len();
        let cond_len: usize;
        proof {
            lemma_block_len(self.cond_out_ch as int, n as int);
            assert(self.cond_dsp_out.len() == self.cond_out_ch * MAX_BLOCK);
        }
        cond_len = self.cond_out_ch * n;
        let head_in0: usize = self.arrays[0].head_in();
        proof {
            assert(m.array_fits(0));
            lemma_block_len(head_in0 as int, n as int);
            assert(self.head_a.len() == self.head_w * MAX_BLOCK);
            assert(self.sig_a.len() == self.sig_w * MAX_BLOCK);
            assert(head_in0 * MAX_BLOCK <= self.head_w * MAX_BLOCK) by (nonlinear_arith)
                requires
                    head_in0 <= self.head_w,
            ;
            lemma_wider(1, self.sig_w as int);
            lemma_wider(1, self.head_w as int);
        }
        let lead_b = front_mut(&mut self.head_b, n);
        fill_zero(lead_b);
        let lead_a = front_mut(&mut self.head_a, n);
        fill_zero(lead_a);
        let ghost cleared = self.head_a@;
        proof {
            assert(self.head_b@.take(n as int) =~= lead_b@);
            assert(cleared.take(n as int) =~= lead_a@);
        }
        let seed_head = front_mut(&mut self.head_a, head_in0 * n);
        fill_zero(seed_head);
        let seed_sig = front_mut(&mut self.sig_a, n);
        let input = front(&self.cond_blk, n);
        copy_into(seed_sig, input);
        proof {
            assert(self.head_a@.take(head_in0 * n) =~= seed_head@);
            assert(exprs(self.head_a@.take(n as int)) =~= silence::<A::Num>(n as nat)) by {
                assert forall|t: int| 0 <= t < n implies (#[trigger] self.head_a@[t])@
                    == Expr::<A::Num>::Zero by {
                    if t < head_in0 * n {
                        assert(exprs(seed_head@)[t] == Expr::<A::Num>::Zero);
                    } else {
                        assert(self.head_a@[t] == cleared[t]);
                        assert(exprs(cleared.take(n as int))[t] == Expr::<A::Num>::Zero);
                    }
                }
            }
            assert(self.sig_a@.take(1 * n as int) =~= seed_sig@);
            lemma_columns_silence::<A::Num>(head_in0 as nat, n as nat);
            lemma_columns_mono(exprs(seed_sig@));
            assert(exprs(seed_sig@) =~= mono);
            assert(carries(
                front_columns(self.sig_a@, 1, n as nat),
                front_columns(self.head_a@, head_in0 as nat, n as nat),
            ) =~= xs);
            assert(arrays.take(0) =~= Seq::empty());
            lemma_chain_empty(arrays.take(0), xs, cs);
        }
        let mut in_w: usize = 1;
        let mut hin: usize = head_in0;
        let mut i: usize = 0;
        while i < len
            invariant
                *self == (WaveNet {
                    arrays: self.arrays,
                    head_a: self.head_a,
                    head_b: self.head_b,
                    sig_a: self.sig_a,
                    sig_b: self.sig_b,
                    ..*old(self)
                }),
                m == old(self)@,
                arrays == m.arrays,
                old(self).arrays_ready(),
                n <= MAX_BLOCK,
                cs == front_columns(self.cond_dsp_out@, self.cond_out_ch as nat, n as nat),
                cs.len() == n,
                xs.len() == n,
                len == arrays.len(),
                self.arrays@.len() == len,
                forall|j: int| 0 <= j < len ==> (#[trigger] self.arrays@[j]).wf(),
                cond_len == self.cond_out_ch * n,
                cond_len <= self.cond_dsp_out@.len(),
                self.head_a@.len() == self.head_w * MAX_BLOCK,
                self.head_b@.len() == self.head_w * MAX_BLOCK,
                self.sig_a@.len() == self.sig_w * MAX_BLOCK,
                self.sig_b@.len() == self.sig_w * MAX_BLOCK,
                i <= len,
                in_w <= self.sig_w,
                hin <= self.head_w,
                i < len ==> in_w == arrays[i as int].input_size() && hin
                    == arrays[i as int].head_in(),
                i > 0 ==> in_w == arrays[i - 1].channels() && hin == arrays[i - 1].head_size(),
                forall|j: int| i <= j < len ==> (#[trigger] self.arrays@[j])@ == arrays[j],
                ({
                    let part = run(Chain { stages: arrays.take(i as int) }, paired(xs, cs));
                    &&& part.0.stages.len() == i
                    &&& forall|j: int|
                        0 <= j < i ==> (#[trigger] self.arrays@[j])@ == part.0.stages[j]
                    &&& carries(
                        front_columns(self.sig_a@, in_w as nat, n as nat),
                        front_columns(self.head_a@, hin as nat, n as nat),
                    ) == part.1
                }),
                1 <= self.head_w,
                exprs(self.head_a@.take(n as int)) == leads(arrays, xs, cs, i as int),
                exprs(self.head_b@.take(n as int)) == leads(arrays, xs, cs, i - 1),
            decreases len - i,
        {
            let ghost stages = arrays.take(i + 1);
            let ghost part = run(Chain { stages: arrays.take(i as int) }, paired(xs, cs));
            let ghost earlier = self.arrays@;
            let ch: usize = self.arrays[i].channels();
            let hs: usize = self.arrays[i].head_size();
            proof {
                assert(m.array_fits(i as int));
                assert(old(self).arrays@[i as int]@ == arrays[i as int]);
                lemma_block_len(in_w as int, n as int);
                lemma_block_len(hin as int, n as int);
                lemma_block_len(ch as int, n as int);
                lemma_block_len(hs as int, n as int);
                assert(self.head_a.len() == self.head_w * MAX_BLOCK);
                assert(self.sig_a.len() == self.sig_w * MAX_BLOCK);
                lemma_wider(in_w as int, self.sig_w as int);
                lemma_wider(hin as int, self.head_w as int);
                lemma_wider(ch as int, self.sig_w as int);
                lemma_wider(hs as int, self.head_w as int);
            }
            let ghost left = self.head_b@;
            let head_out = front_mut(&mut self.head_b, hs * n);
            let array_out = front_mut(&mut self.sig_b, ch * n);
            let input = front(&self.sig_a, in_w * n);
            let head_in = front(&self.head_a, hin * n);
            let condition = front(&self.cond_dsp_out, cond_len);
            self.arrays[i].process_block(input, condition, head_in, head_out, array_out, n);
            proof {
                assert(self.head_b@.take(hs * n) =~= head_out@);
                assert(self.sig_b@.take(ch * n) =~= array_out@);
                assert(stages.drop_last() =~= arrays.take(i as int));
                assert(stages.last() == arrays[i as int]);
                lemma_chain_run(stages, xs, cs);
                lemma_chain_len(Chain { stages }, paired(xs, cs));
                assert forall|j: int| 0 <= j < len && j != i implies #[trigger] self.arrays@[j]
                    == earlier[j] by {}
                if i + 1 < len {
                    assert(m.array_fits(i + 1));
                }
                let given = run(Chain { stages }, paired(xs, cs)).1;
                lemma_run_len(Chain { stages }, paired(xs, cs));
                let heads = front_columns(self.head_b@, hs as nat, n as nat);
                lemma_wider(1, self.head_w as int);
                if hs == 0 {
                    assert(hs * n == 0);
                    assert(self.head_b@ =~= left);
                    assert(leads(arrays, xs, cs, i + 1) == leads(arrays, xs, cs, i - 1));
                } else {
                    lemma_row(hs as int, n as int, 0);
                    assert(0 * n == 0);
                    let ls = leads(arrays, xs, cs, i + 1);
                    assert forall|t: int| 0 <= t < n implies (#[trigger] self.head_b@[t])@
                        == ls[t] by {
                        assert(carries(
                            front_columns(self.sig_b@, ch as nat, n as nat),
                            heads,
                        )[t] == given[t]);
                        assert(heads[t] == given[t].head);
                        assert(heads[t][0] == self.head_b@[0 * n + t]@);
                    }
                    assert(exprs(self.head_b@.take(n as int)) =~= ls);
                }
            }
            std::mem::swap(&mut self.head_a, &mut self.head_b);
            std::mem::swap(&mut self.sig_a, &mut self.sig_b);
            in_w = ch;
            hin = hs;
            i += 1;
        }
        proof {
            assert(arrays.take(len as int) =~= arrays);
            let stack = run(Chain { stages: arrays }, paired(xs, cs));
            assert(array_views(self.arrays@) =~= stack.0.stages);
            lemma_arrays_kept(arrays, xs, cs);
            lemma_run_len(Chain { stages: arrays }, paired(xs, cs));
            let cols = front_columns(self.head_a@, arrays.last().head_size(), n as nat);
            assert forall|t: int| 0 <= t < n implies #[trigger] cols[t] == stack.1[t].head by {
                assert(carries(
                    front_columns(self.sig_a@, in_w as nat, n as nat),
                    front_columns(self.head_a@, hin as nat, n as nat),
                )[t] == stack.1[t]);
            }
            assert(cols =~= Seq::new(n as nat, |t: int| stack.1[t].head));
            self.lemma_arrays_ready(*old(self));
        }
    }

    /// Turn the last array's head output into the output of the current block.
    fn emit(
        &mut self,
        n: usize,
        Ghost(last): Ghost<Seq<Seq<Expr<A::Num>>>>,
        Ghost(ls): Ghost<Seq<Expr<A::Num>>>,
    )
        requires
            n <= MAX_BLOCK,
            old(self).arrays@.len() > 0,
            old(self).post_stack_head matches Some(h) ==> h.wf() && h@.valid()
                && h@.out_channels() >= 1 && h@.in_channels() == old(self)@.arrays.last().head_size(),
            old(self)@.arrays.last().head_size() <= old(self).head_w,
            old(self).head_w * MAX_BLOCK == old(self).head_a@.len(),
            old(self).head_w * MAX_BLOCK == old(self).head_b@.len(),
            old(self).out_ch == old(self)@.rows(),
            old(self).out_blk@.len() == old(self)@.lanes() * MAX_BLOCK,
            old(self).arrays@[old(self).arrays@.len() - 1].wf(),
            1 <= old(self).head_w,
            ls == exprs(old(self).head_a@.take(n as int)),
            last == front_columns(
                old(self).head_a@,
                old(self)@.arrays.last().head_size(),
                n as nat,
            ),
        ensures
            *final(self) == (WaveNet {
                post_stack_head: final(self).post_stack_head,
                head_b: final(self).head_b,
                out_blk: final(self).out_blk,
                ..*old(self)
            }),
            final(self).head_b@.len() == old(self).head_b@.len(),
            final(self).out_blk@.len() == old(self).out_blk@.len(),
            final(self).post_stack_head matches Some(h) ==> h.wf(),
            ({
                let scaled_last = Seq::new(n as nat, |t: int| scaled(old(self)@.head_scale, last[t]));
                let outs = front_columns(final(self).out_blk@, old(self)@.lanes(), n as nat);
                match old(self)@.head {
                    Some(h) => {
                        &&& final(self)@.head == Some(run(h, scaled_last).0)
                        &&& outs == run(h, scaled_last).1
                        &&& final(self)@.head->Some_0.in_channels() == h.in_channels()
                        &&& final(self)@.head->Some_0.out_channels() == h.out_channels()
                    },
                    None => final(self)@.head is None && outs == Seq::new(
                        n as nat,
                        |t: int| voiced(old(self)@.rows(), old(self)@.head_scale, last[t], ls[t]),
                    ),
                }
            }),
    {
        let ghost m = self@;
        let ghost scaled_last = Seq::new(n as nat, |t: int| scaled(m.head_scale, last[t]));
        let count: usize = self.arrays.len();
        let hs: usize = self.arrays[count - 1].head_size();
        proof {
            assert(m.arrays.last() == self.arrays@[count - 1]@);
            lemma_block_len(hs as int, n as int);
            lemma_block_len(m.lanes() as int, n as int);
            lemma_wider(hs as int, self.head_w as int);
            assert(self.head_a.len() == self.head_w * MAX_BLOCK);
            assert(self.out_blk.len() == m.lanes() * MAX_BLOCK);
        }
        let len: usize = hs * n;
        let lanes: usize = if self.out_ch == 0 {
            1
        } else {
            self.out_ch
        };
        let out_len: usize = lanes * n;
        let head = front(&self.head_a, len);
        let out = front_mut(&mut self.out_blk, out_len);
        proof {
            lemma_columns_scaled(self.head_scale@, exprs(head@), hs as nat, n as nat);
        }
        match &mut self.post_stack_head {
            Some(h) => {
                let work = front_mut(&mut self.head_b, len);
                scale_into(work, self.head_scale, head);
                assert(columns(exprs(work@), hs as nat, n as nat) =~= scaled_last);
                h.process_block(work, out, n);
            },
            None => {
                if hs == 0 {
                    proof {
                        lemma_wider(1, self.head_w as int);
                    }
                    let lead = front(&self.head_a, n);
                    scale_into(out, self.head_scale, lead);
                    proof {
                        lemma_columns_mono(exprs(out@));
                    }
                } else {
                    scale_into(out, self.head_scale, head);
                    assert(columns(exprs(out@), hs as nat, n as nat) =~= scaled_last);
                }
                assert(columns(exprs(out@), lanes as nat, n as nat) =~= Seq::new(
                    n as nat,
                    |t: int| voiced(m.rows(), m.head_scale, last[t], ls[t]),
                ));
            },
        }
        proof {
            assert(self.out_blk@.take(out_len as int) =~= out@);
        }
    }

    /// Run the current block, from `cond_blk` to `out_blk`.
    fn run_block(&mut self, n: usize)
        requires
            old(self).wf(),
            n <= MAX_BLOCK,
        ensures
            final(self).wf(),
            final(self).levels() == old(self).levels(),
            final(self).out_ch == old(self).out_ch,
            (
                final(self)@,
                front_columns(final(self).out_blk@, old(self)@.lanes(), n as nat),
            ) == run(old(self)@, exprs(old(self).cond_blk@.take(n as int))),
        decreases old(self)@, 1nat,
    {
        let ghost m = self@;
        let ghost xs = exprs(self.cond_blk@.take(n as int));
        if self.arrays.len() == 0 {
            proof {
                lemma_wavenet_run_empty(m, xs);
                lemma_block_len(m.lanes() as int, n as int);
                assert(self.out_blk.len() == m.lanes() * MAX_BLOCK);
            }
            let input = front(&self.cond_blk, n);
            let out = front_mut(&mut self.out_blk, n);
            scale_into(out, self.head_scale, input);
            proof {
                assert(self.out_blk@.take(1 * n as int) =~= out@);
                lemma_columns_mono(exprs(out@));
                assert(front_columns(self.out_blk@, 1, n as nat) =~= run(m, xs).1);
            }
            return;
        }
        proof {
            lemma_wavenet_run(m, xs);
            lemma_wavenet_kept(m, xs);
            lemma_wavenet_field_fresh(run(m, xs).0, m);
            assert forall|i: int| 0 <= i < m.arrays.len() implies #[trigger] self@.array_fits(i) by {
                assert(m.array_fits(i));
            }
        }
        self.fill_condition(n);
        let ghost mid = *self;
        let ghost cs = conditioning(m, xs);
        proof {
            assert(self@.condition_width() == m.condition_width()) by {
                if m.condition is Some {
                    crate::engine::lemma_engine_kept(*m.condition->Some_0, xs);
                }
            }
            assert forall|i: int| 0 <= i < self@.arrays.len() implies #[trigger] self@.array_fits(i) by {
                assert(m.array_fits(i));
            }
            assert(seeds(self@, xs) =~= seeds(m, xs));
        }
        self.run_arrays_block(n, Ghost(cs));
        let ghost stack = run(Chain { stages: m.arrays }, paired(seeds(m, xs), cs));
        let ghost ran = *self;
        let ghost last = Seq::new(n as nat, |t: int| stack.1[t].head);
        proof {
            let k = m.arrays.len() - 1;
            assert(self@.arrays[k].fresh() == m.arrays[k].fresh());
            assert(self.arrays@[k]@.head_size() <= self.head_w);
        }
        let ghost ls = leads(m.arrays, seeds(m, xs), cs, m.arrays.len() as int);
        self.emit(n, Ghost(last), Ghost(ls));
        proof {
            assert(scaled_heads(m.head_scale, stack.1) =~= Seq::new(
                n as nat,
                |t: int| scaled(m.head_scale, last[t]),
            ));
            assert(voiced_heads(m.rows(), m.head_scale, stack.1, ls) =~= Seq::new(
                n as nat,
                |t: int| voiced(m.rows(), m.head_scale, last[t], ls[t]),
            ));
            let after = run(m, xs).0;
            assert(self@ =~= after);
            assert forall|i: int| 0 <= i < self@.arrays.len() implies #[trigger] self@.array_fits(
                i,
            ) by {
                assert(ran@.array_fits(i));
                assert(ran@.arrays == self@.arrays);
                assert(ran@.condition_width() == self@.condition_width());
            }
            assert(self@.valid()) by {
                match self.condition_dsp {
                    Some(c) => {
                        c.lemma_valid();
                    },
                    None => {},
                }
                match self.post_stack_head {
                    Some(h) => {
                        h.lemma_valid();
                        let k = m.arrays.len() - 1;
                        assert(after.arrays[k].fresh() == m.arrays[k].fresh());
                    },
                    None => {},
                }
            }
        }
    }

    /// Run one block of at most [`MAX_BLOCK`] samples, emitting
    /// `num_output_channels() * n` rows, planar `[ch][t]`, into `out` from mono
    /// `input`. Used when this WaveNet is a nested `condition_dsp` whose rows become
    /// the parent's conditioning.
    pub fn process_block_multi(&mut self, input: &[Scalar<A>], out: &mut [Scalar<A>], n: usize)
        requires
            old(self).wf(),
            n <= MAX_BLOCK,
            input@.len() == n,
            old(out)@.len() == old(self)@.rows() * n,
        ensures
            final(self).wf(),
            final(self).levels() == old(self).levels(),
            final(out)@.len() == old(out)@.len(),
            final(self)@ == run(old(self)@, exprs(input@)).0,
            columns(exprs(final(out)@), old(self)@.rows(), n as nat) == conveyed_all(
                old(self)@.rows(),
                run(old(self)@, exprs(input@)).1,
            ),
        decreases old(self)@, 2nat,
    {
        let ghost m = self@;
        let block = front_mut(&mut self.cond_blk, n);
        copy_into(block, input);
        proof {
            assert(self.cond_blk@.take(n as int) =~= input@);
            assert(self@ == m);
            self.lemma_scratch(*old(self));
        }
        self.run_block(n);
        proof {
            lemma_block_len(self.out_ch as int, n as int);
            lemma_block_len(m.lanes() as int, n as int);
            assert(self.out_blk.len() == m.lanes() * MAX_BLOCK);
        }
        let produced = front(&self.out_blk, self.out_ch * n);
        copy_into(out, produced);
        proof {
            let ys = run(m, exprs(input@)).1;
            let given = columns(exprs(out@), m.rows(), n as nat);
            assert forall|t: int| 0 <= t < n implies #[trigger] given[t] =~= conveyed(
                m.rows(),
                ys[t],
            ) by {}
            assert(given =~= conveyed_all(m.rows(), ys));
        }
    }

    /// Process a buffer of mono samples in place.
    ///
    /// Runs the block kernel: each `MAX_BLOCK`-sized chunk is pushed through one array
    /// (and one layer) at a time, keeping each weight matrix hot across the whole
    /// chunk. The same as looping [`Self::process_sample`], and it shares the same
    /// streaming history, so the two are interchangeable.
    ///
    /// **Real-time contract:** no heap allocation, locks, or syscalls.
    pub fn process_buffer(&mut self, io: &mut [A::Num])
        requires
            old(self).wf(),
        ensures
            final(self).wf(),
            final(self).levels() == old(self).levels(),
            final(io)@.len() == old(io)@.len(),
            final(self)@ == run(old(self)@, inputs(old(io)@)).0,
            forall|t: int|
                0 <= t < old(io)@.len() ==> evaluates::<A>(
                    run(old(self)@, inputs(old(io)@)).1[t][0],
                    #[trigger] final(io)@[t],
                ),
    {
        let ghost m = self@;
        let ghost xs = inputs(io@);
        let ghost ys = run(m, xs).1;
        let len: usize = io.len();
        let mut off: usize = 0;
        assert(xs.take(0) =~= Seq::empty());
        while off < len
            invariant
                self.wf(),
                self.levels() == old(self).levels(),
                xs == inputs(old(io)@),
                ys == run(m, xs).1,
                len == io@.len(),
                io@.len() == old(io)@.len(),
                off <= len,
                self@ == run(m, xs.take(off as int)).0,
                forall|q: int| 0 <= q < off ==> evaluates::<A>(ys[q][0], #[trigger] io@[q]),
                forall|q: int| off <= q < len ==> #[trigger] io@[q] == old(io)@[q],
            decreases len - off,
        {
            let n: usize = if len - off < MAX_BLOCK {
                len - off
            } else {
                MAX_BLOCK
            };
            let ghost piece = xs.subrange(off as int, off + n);
            self.load(io, off, n);
            assert(exprs(self.cond_blk@.take(n as int)) =~= piece);
            self.run_block(n);
            proof {
                assert(xs.take(off as int) + piece =~= xs.take(off + n));
                lemma_run_concat(m, xs.take(off as int), piece);
                lemma_run_prefix(m, xs, off + n);
                lemma_run_prefix(m, xs, off as int);
                lemma_run_len(run(m, xs.take(off as int)).0, piece);
                assert forall|t: int| 0 <= t < n implies ys[off + t] == #[trigger] run(
                    run(m, xs.take(off as int)).0,
                    piece,
                ).1[t] by {
                    assert(ys[off + t] == ys.take(off + n)[off + t]);
                }
            }
            self.store(io, off, n, Ghost(run(run(m, xs.take(off as int)).0, piece).1));
            proof {
                assert forall|q: int| 0 <= q < off + n implies evaluates::<A>(
                    ys[q][0],
                    #[trigger] io@[q],
                ) by {
                    if q >= off {
                        let t = q - off;
                        assert(ys[off + t] == run(run(m, xs.take(off as int)).0, piece).1[t]);
                        assert(evaluates::<A>(
                            run(run(m, xs.take(off as int)).0, piece).1[t][0],
                            io@[off + t],
                        ));
                    }
                }
            }
            off += n;
        }
        assert(xs.take(off as int) =~= xs);
    }

    /// Take `n` samples of `io` from `off` on as the current block.
    fn load(&mut self, io: &[A::Num], off: usize, n: usize)
        requires
            old(self).wf(),
            n <= MAX_BLOCK,
            off + n <= io@.len(),
        ensures
            final(self).wf(),
            final(self)@ == old(self)@,
            final(self).levels() == old(self).levels(),
            exprs(final(self).cond_blk@.take(n as int)) == inputs(io@).subrange(
                off as int,
                off + n,
            ),
    {
        assert(io.len() == io@.len());
        let mut t: usize = 0;
        while t < n
            invariant
                *self == (WaveNet { cond_blk: self.cond_blk, ..*old(self) }),
                self.cond_blk@.len() == MAX_BLOCK,
                n <= MAX_BLOCK,
                off + n <= io@.len() <= usize::MAX,
                t <= n,
                forall|q: int|
                    0 <= q < t ==> (#[trigger] self.cond_blk@[q])@ == inputs(io@)[off + q],
            decreases n - t,
        {
            self.cond_blk[t] = Scalar::input(io[off + t]);
            t += 1;
        }
        proof {
            self.lemma_scratch(*old(self));
            assert(exprs(self.cond_blk@.take(n as int)) =~= inputs(io@).subrange(
                off as int,
                off + n,
            ));
        }
    }

    /// Write the first output row of the current block to `n` samples of `io` from
    /// `off` on.
    fn store(
        &self,
        io: &mut [A::Num],
        off: usize,
        n: usize,
        Ghost(ys): Ghost<Seq<Seq<Expr<A::Num>>>>,
    )
        requires
            self.wf(),
            n <= MAX_BLOCK,
            off + n <= old(io)@.len(),
            ys == front_columns(self.out_blk@, self@.lanes(), n as nat),
        ensures
            final(io)@.len() == old(io)@.len(),
            forall|q: int|
                0 <= q < old(io)@.len() && !(off <= q < off + n) ==> #[trigger] final(io)@[q]
                    == old(io)@[q],
            forall|t: int| 0 <= t < n ==> evaluates::<A>(ys[t][0], #[trigger] final(io)@[off + t]),
    {
        assert(io.len() == io@.len());
        proof {
            lemma_block_len(self@.lanes() as int, n as int);
            lemma_row(self@.lanes() as int, n as int, 0);
            assert(0 * n == 0);
            assert(self.out_blk.len() == self@.lanes() * MAX_BLOCK);
        }
        let mut t: usize = 0;
        while t < n
            invariant
                io@.len() == old(io)@.len(),
                off + n <= io@.len() <= usize::MAX,
                n <= self@.lanes() * n <= self.out_blk@.len(),
                ys == front_columns(self.out_blk@, self@.lanes(), n as nat),
                t <= n,
                forall|q: int|
                    0 <= q < io@.len() && !(off <= q < off + t) ==> #[trigger] io@[q] == old(
                        io,
                    )@[q],
                forall|u: int| 0 <= u < t ==> evaluates::<A>(ys[u][0], #[trigger] io@[off + u]),
            decreases n - t,
        {
            let ghost earlier = io@;
            io[off + t] = self.out_blk[t].output();
            proof {
                assert(0 * n == 0);
                assert(ys[t as int][0] == self.out_blk@[t as int]@);
                assert forall|u: int| 0 <= u < t + 1 implies evaluates::<A>(
                    ys[u][0],
                    #[trigger] io@[off + u],
                ) by {
                    if u < t {
                        assert(io@[off + u] == earlier[off + u]);
                    }
                }
            }
            t += 1;
        }
    }

    /// Process a single mono sample, returning one output sample.
    ///
    /// Equivalent to a one-element [`Self::process_buffer`]; convenient for callers
    /// that are not buffer-oriented.
    pub fn process_sample(&mut self, x: A::Num) -> (r: A::Num)
        requires
            old(self).wf(),
        ensures
            final(self).wf(),
            final(self).levels() == old(self).levels(),
            final(self)@ == old(self)@.step(Expr::Input(x)).0,
            evaluates::<A>(old(self)@.step(Expr::Input(x)).1[0], r),
    {
        let ghost m = self@;
        self.cond_blk[0] = Scalar::input(x);
        proof {
            self.lemma_scratch(*old(self));
            assert(exprs(self.cond_blk@.take(1)) =~= seq![Expr::Input(x)]);
            lemma_run_one(m, Expr::Input(x));
        }
        self.run_block(1);
        proof {
            assert(self.out_blk.len() == m.lanes() * MAX_BLOCK);
            let ys = front_columns(self.out_blk@, m.lanes(), 1);
            assert(seq![m.step(Expr::Input(x)).1][0] == m.step(Expr::Input(x)).1);
            assert(ys[0] == m.step(Expr::Input(x)).1);
            assert(ys[0][0] == self.out_blk@[0]@);
        }
        self.out_blk[0].output()
    }

    /// Receptive field in samples: how far back the deepest dilated tap reaches.
    ///
    /// This is the model's warmup length and its processing latency. The first
    /// `receptive_field()` output samples of a fresh (or freshly
    /// [`reset`](Self::reset)) model are a startup transient computed against
    /// zero-filled history.
    pub fn receptive_field(&self) -> (r: usize)
        requires
            self.wf(),
        ensures
            r == self@.receptive_field(),
    {
        self.receptive_field
    }

    /// Whether a nested model supplies the conditioning.
    pub fn has_condition_dsp(&self) -> (r: bool)
        ensures
            r == self@.condition is Some,
    {
        self.condition_dsp.is_some()
    }

    /// Number of output rows: the post-stack head's `out_channels` when a head is
    /// present, else the last layer-array's `head_size`. Where that is zero, a mono run
    /// still gives a sample: what stands in the head buffer, scaled
    /// ([`WaveNetModel::lead`]).
    pub fn num_output_channels(&self) -> (r: usize)
        requires
            self.wf(),
        ensures
            r == self@.rows(),
            r * MAX_BLOCK <= usize::MAX,
    {
        assert(self.out_blk.len() == self@.lanes() * MAX_BLOCK);
        self.out_ch
    }

    /// The numbers by which a host calibrates levels and rate.
    pub fn calibration(&self) -> (r: Calibration)
        ensures
            r == self.levels(),
    {
        self.calibration
    }

    /// Reset all internal state (ring buffers) to silence.
    pub fn reset(&mut self)
        requires
            old(self).wf(),
        ensures
            final(self).wf(),
            final(self)@ == old(self)@.fresh(),
            final(self).levels() == old(self).levels(),
        decreases old(self)@, 0nat,
    {
        let ghost m = self@;
        let len: usize = self.arrays.len();
        let mut i: usize = 0;
        while i < len
            invariant
                *self == (WaveNet { arrays: self.arrays, ..*old(self) }),
                m == old(self)@,
                len == m.arrays.len(),
                self.arrays@.len() == len,
                forall|j: int| 0 <= j < len ==> (#[trigger] self.arrays@[j]).wf(),
                i <= len,
                forall|j: int|
                    0 <= j < len ==> (#[trigger] self.arrays@[j])@ == if j < i {
                        m.arrays[j].fresh()
                    } else {
                        m.arrays[j]
                    },
            decreases len - i,
        {
            let ghost earlier = self.arrays@;
            self.arrays[i].reset();
            proof {
                assert forall|j: int| 0 <= j < len && j != i implies #[trigger] self.arrays@[j]
                    == earlier[j] by {}
            }
            i += 1;
        }
        match &mut self.post_stack_head {
            Some(h) => {
                h.reset();
            },
            None => {},
        }
        match &mut self.condition_dsp {
            Some(c) => {
                c.reset();
            },
            None => {},
        }
        proof {
            assert(self@ =~= m.fresh());
            lemma_wavenet_fresh(m);
            lemma_wavenet_field_fresh(m.fresh(), m);
            assert forall|j: int| 0 <= j < len implies #[trigger] self@.array_fits(j) by {
                assert(m.array_fits(j));
                self.arrays@[j].lemma_valid();
                assert(self@.arrays[j] == m.arrays[j].fresh());
                assert(m.arrays[j].layers.len() > 0);
                if j > 0 {
                    assert(self@.arrays[j - 1] == m.arrays[j - 1].fresh());
                }
            }
            if self.condition_dsp is Some {
                self.condition_dsp->Some_0.lemma_valid();
            }
            if self.post_stack_head is Some {
                self.post_stack_head->Some_0.lemma_valid();
            }
            assert forall|j: int| 0 <= j < self.arrays@.len() implies (
            #[trigger] self.arrays@[j])@.channels() <= self.sig_w && self.arrays@[j]@.head_in()
                <= self.head_w && self.arrays@[j]@.head_size() <= self.head_w by {
                assert(old(self).arrays@[j]@.channels() <= self.sig_w);
            }
        }
    }

    /// What is in the input buffer has no part in well-formedness.
    proof fn lemma_scratch(self, before: Self)
        requires
            before.wf(),
            self == (WaveNet { cond_blk: self.cond_blk, ..before }),
            self.cond_blk@.len() == MAX_BLOCK,
        ensures
            self.wf(),
            self@ == before@,
    {
        assert(self@ == before@);
        assert forall|i: int| 0 <= i < self.arrays@.len() implies (
        #[trigger] self.arrays@[i])@.channels() <= self.sig_w && self.arrays@[i]@.head_in()
            <= self.head_w && self.arrays@[i]@.head_size() <= self.head_w by {
            assert(before.arrays@[i]@.channels() <= before.sig_w);
        }
    }

    /// What running the arrays relies on: the arrays fit together and their buffers
    /// have their sizes.
    spec fn arrays_ready(self) -> bool {
        let m = self@;
        &&& forall|i: int| 0 <= i < m.arrays.len() ==> #[trigger] self@.array_fits(i)
        &&& forall|i: int| 0 <= i < self.arrays@.len() ==> (#[trigger] self.arrays@[i]).wf()
        &&& 1 <= self.sig_w
        &&& 1 <= self.head_w
        &&& self.widths_fit(self.arrays@)
        &&& self.cond_dsp_out@.len() == self.cond_out_ch * MAX_BLOCK
        &&& self.head_a@.len() == self.head_w * MAX_BLOCK
        &&& self.head_b@.len() == self.head_w * MAX_BLOCK
        &&& self.sig_a@.len() == self.sig_w * MAX_BLOCK
        &&& self.sig_b@.len() == self.sig_w * MAX_BLOCK
        &&& self.cond_blk@.len() == MAX_BLOCK
        &&& m.condition_width() == self.cond_out_ch
    }

    /// A run leaves the arrays ready for the next.
    proof fn lemma_arrays_ready(self, before: Self)
        requires
            before.arrays_ready(),
            same_arrays(array_views(before.arrays@), array_views(self.arrays@)),
            forall|i: int| 0 <= i < self.arrays@.len() ==> (#[trigger] self.arrays@[i]).wf(),
            self == (WaveNet {
                arrays: self.arrays,
                head_a: self.head_a,
                head_b: self.head_b,
                sig_a: self.sig_a,
                sig_b: self.sig_b,
                ..before
            }),
            self.head_a@.len() == self.head_w * MAX_BLOCK,
            self.head_b@.len() == self.head_w * MAX_BLOCK,
            self.sig_a@.len() == self.sig_w * MAX_BLOCK,
            self.sig_b@.len() == self.sig_w * MAX_BLOCK,
        ensures
            self.arrays_ready(),
    {
        let a = array_views(before.arrays@);
        let b = array_views(self.arrays@);
        assert forall|i: int| 0 <= i < self@.arrays.len() implies #[trigger] self@.array_fits(i) by {
            assert(before@.array_fits(i));
            assert(b[i].fresh() == a[i].fresh());
            self.arrays@[i].lemma_valid();
            if i > 0 {
                assert(before@.array_fits(i - 1));
                assert(b[i - 1].fresh() == a[i - 1].fresh());
            }
        }
        assert forall|i: int| 0 <= i < self.arrays@.len() implies (
        #[trigger] self.arrays@[i])@.channels() <= self.sig_w && self.arrays@[i]@.head_in()
            <= self.head_w && self.arrays@[i]@.head_size() <= self.head_w by {
            assert(b[i].fresh() == a[i].fresh());
            assert(before.arrays@[i]@.channels() <= self.sig_w);
        }
    }
}

/// A narrower block fits where a wider one does.
proof fn lemma_wider(a: int, b: int)
    requires
        0 <= a <= b,
    ensures
        a * MAX_BLOCK <= b * MAX_BLOCK,
{
    assert(a * MAX_BLOCK <= b * MAX_BLOCK) by (nonlinear_arith)
        requires
            0 <= a <= b,
    ;
}

impl<A: Arith> WaveNet<A> {
    pub(crate) fn copy(&self) -> (r: Self)
        ensures
            r@ == self@,
            self.wf() ==> r.wf(),
            r.levels() == self.levels(),
        decreases self@, 0nat,
    {
        let mut arrays: Vec<LayerArray<A>> = Vec::new();
        let mut i: usize = 0;
        while i < self.arrays.len()
            invariant
                i <= self.arrays@.len(),
                arrays@.len() == i,
                forall|j: int|
                    0 <= j < i ==> (#[trigger] arrays@[j])@ == self.arrays@[j]@ && (
                    self.arrays@[j].wf() ==> arrays@[j].wf()),
            decreases self.arrays@.len() - i,
        {
            arrays.push(self.arrays[i].clone());
            i += 1;
        }
        let post_stack_head = match &self.post_stack_head {
            Some(h) => Some(Box::new((**h).clone())),
            None => None,
        };
        let condition_dsp = match &self.condition_dsp {
            Some(m) => {
                assert(*self@.condition->Some_0 == m@);
                Some(Box::new((**m).copy()))
            },
            None => None,
        };
        let r = WaveNet {
            arrays,
            post_stack_head,
            condition_dsp,
            cond_out_ch: self.cond_out_ch,
            head_scale: self.head_scale,
            receptive_field: self.receptive_field,
            out_ch: self.out_ch,
            head_w: self.head_w,
            sig_w: self.sig_w,
            cond_dsp_out: duplicate(&self.cond_dsp_out),
            head_a: duplicate(&self.head_a),
            head_b: duplicate(&self.head_b),
            sig_a: duplicate(&self.sig_a),
            sig_b: duplicate(&self.sig_b),
            cond_blk: duplicate(&self.cond_blk),
            out_blk: duplicate(&self.out_blk),
            calibration: self.calibration,
        };
        proof {
            assert(r@.arrays =~= self@.arrays);
            assert(r@ =~= self@);
            if self.wf() {
                assert forall|j: int| 0 <= j < r.arrays@.len() implies (
                #[trigger] r.arrays@[j])@.channels() <= r.sig_w && r.arrays@[j]@.head_in()
                    <= r.head_w && r.arrays@[j]@.head_size() <= r.head_w by {
                    assert(self.arrays@[j]@.channels() <= self.sig_w);
                }
            }
        }
        r
    }
}

impl<A: Arith> Clone for WaveNet<A> {
    fn clone(&self) -> (r: Self)
        ensures
            r@ == self@,
            self.wf() ==> r.wf(),
            r.levels() == self.levels(),
    {
        self.copy()
    }
}

} // verus!
