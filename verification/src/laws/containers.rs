//! Which submodel of a container is active: by its number, and by the width dial.

use vstd::prelude::*;
use crate::arith::Arith;
use crate::engine::{EngineModel, SlimModel};
use crate::json::JsonNumber;
use crate::model_runtime::{dialled, passes};

verus! {

/// Selecting a submodel that there is makes it the active one. A number beyond them all
/// selects the last.
pub proof fn lemma_select_activates<N>(s: SlimModel<N>, index: nat)
    requires
        s.submodels.len() > 0,
    ensures
        index < s.submodels.len() ==> s.selecting(index).active == index,
        index >= s.submodels.len() ==> s.selecting(index) == s.selecting(
            (s.submodels.len() - 1) as nat,
        ),
        s.selecting(index).active < s.submodels.len(),
{
}

/// Selecting changes nothing but the selection, and only the last selection counts: what
/// each submodel remembers is found again when it is selected again.
pub proof fn lemma_last_selection_counts<N>(s: SlimModel<N>, i: nat, j: nat)
    ensures
        s.selecting(i).submodels == s.submodels,
        s.selecting(i).max_values == s.max_values,
        s.selecting(i).selecting(j) == s.selecting(j),
        s.active < s.submodels.len() ==> s.selecting(i).selecting(s.active) == s,
{
}

/// A selected submodel is the one that sounds.
pub proof fn lemma_selected_sounds<N>(s: SlimModel<N>, i: nat)
    requires
        i < s.submodels.len(),
    ensures
        EngineModel::Slimmable(s.selecting(i)).rows() == s.submodels[i as int].rows(),
        EngineModel::Slimmable(s.selecting(i)).receptive_field()
            == s.submodels[i as int].receptive_field(),
{
}

/// Whether the arithmetic always answers the same to whether threshold `i` exceeds `value`:
/// `above[i]`.
pub open spec fn decided<A: Arith>(max: Seq<JsonNumber>, value: A::Num, above: Seq<bool>) -> bool {
    &&& above.len() == max.len()
    &&& forall|i: int, verdict: bool|
        0 <= i < max.len() && #[trigger] passes::<A>(max, value, i, verdict) ==> verdict == above[i]
}

/// The dial activates the first submodel whose threshold lies above it, and the last where
/// none does.
pub proof fn lemma_dial<A: Arith>(max: Seq<JsonNumber>, value: A::Num, above: Seq<bool>, a: int)
    requires
        0 <= a < max.len(),
        decided::<A>(max, value, above),
        dialled::<A>(max, value, a),
    ensures
        above[a] || a == max.len() - 1,
        forall|i: int| 0 <= i < a ==> !#[trigger] above[i],
{
    assert forall|i: int| 0 <= i < a implies !#[trigger] above[i] by {
        assert(passes::<A>(max, value, i, false));
    }
}

/// Turning the dial up never activates a submodel that stands before the active one: where
/// every threshold above the second value is above the first too, the second activates the
/// same submodel as the first or a later one.
pub proof fn lemma_dial_up<A: Arith>(
    max: Seq<JsonNumber>,
    low: A::Num,
    high: A::Num,
    above_low: Seq<bool>,
    above_high: Seq<bool>,
    a: int,
    b: int,
)
    requires
        0 <= a < max.len(),
        0 <= b < max.len(),
        decided::<A>(max, low, above_low),
        decided::<A>(max, high, above_high),
        forall|i: int| 0 <= i < max.len() && #[trigger] above_high[i] ==> above_low[i],
        dialled::<A>(max, low, a),
        dialled::<A>(max, high, b),
    ensures
        a <= b,
{
    lemma_dial::<A>(max, low, above_low, a);
    lemma_dial::<A>(max, high, above_high, b);
    if b < a {
        assert(above_high[b]);
        assert(!above_low[b]);
    }
}

} // verus!
