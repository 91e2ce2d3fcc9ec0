use vstd::prelude::*;

use crate::configuration::{lemma_next_wf, Configuration, GameView, Movement};

verus! {

/// Static score of the position reached by the `i`-th movement.
pub open spec fn succ_value(g: GameView, i: int) -> int {
    g.next(i).val()
}

/// One-ply look-ahead baseline: among all movements, the first one whose
/// resulting configuration has the best immediate static score.
pub struct Greedy();

impl Greedy {
    /// Display name of the strategy.
    pub fn name(&self) -> &'static str {
        "Greedy"
    }

    /// No movement exactly when none is legal; otherwise the first
    /// movement achieving the maximal immediate successor score.
    pub fn compute_next_move(&mut self, state: &Configuration) -> (r: Option<Movement>)
        requires
            state@.wf(),
        ensures
            state@.nmoves() == 0 ==> r is None,
            state@.nmoves() > 0 ==> r is Some && state@.legal(r.unwrap()) && (forall|j: int|
                0 <= j < state@.nmoves() ==> #[trigger] succ_value(state@, j) <= succ_value(
                    state@,
                    r.unwrap().index as int,
                )) && (forall|j: int|
                0 <= j < r.unwrap().index ==> #[trigger] succ_value(state@, j) < succ_value(
                    state@,
                    r.unwrap().index as int,
                )),
    {
        let ghost g = state@;
        let ms = state.movements();
        let mut best: i8 = -128;
        let mut chosen: Option<Movement> = None;
        let mut i: usize = 0;
        while i < ms.len()
            invariant
                g == state@,
                g.wf(),
                ms@.len() == g.nmoves(),
                forall|k: int| 0 <= k < ms@.len() ==> (#[trigger] ms@[k]).index == k,
                0 <= i <= ms@.len(),
                i == 0 ==> chosen is None && best as int == -128,
                i > 0 ==> chosen is Some && g.legal(chosen.unwrap()) && (chosen.unwrap().index as int)
                    < i as int && best as int == succ_value(g, chosen.unwrap().index as int),
                i > 0 ==> forall|j: int| 0 <= j < i as int ==> succ_value(g, j) <= best as int,
                i > 0 ==> forall|j: int|
                    0 <= j < chosen.unwrap().index ==> succ_value(g, j) < best as int,
            decreases ms@.len() - i,
        {
            let mv = ms[i];
            proof {
                lemma_next_wf(g, i as int);
            }
            let child = state.play(&mv);
            let v = child.value();
            if v > best {
                best = v;
                chosen = Some(mv);
            }
            i += 1;
        }
        chosen
    }
}

} // verus!
