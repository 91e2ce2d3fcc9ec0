use vstd::prelude::*;

use crate::alphabeta::{chosen_move_ok, lemma_full_window_exact, settle_choice, SearchKind};
use crate::channel::AtomicMove;
use crate::configuration::{
    best_upto, lemma_negamax_bounds, lemma_next_wf, move_value, negamax_value, Configuration,
    Movement,
};

verus! {

/// Brute-force negamax: no pruning, the reference for correctness
/// comparisons. Returns exactly the game value of the position.
pub fn negamax(profondeur: u8, state: Configuration) -> (r: i8)
    requires
        state@.wf(),
    ensures
        r as int == negamax_value(state@, profondeur as nat),
    decreases profondeur as int,
{
    let ghost g = state@;
    let ms = state.movements();
    if profondeur == 0 || ms.len() == 0 {
        -state.value()
    } else {
        let ghost cd = (profondeur - 1) as nat;
        let mut best: i8 = -127;
        let mut i: usize = 0;
        while i < ms.len()
            invariant
                g == state@,
                g.wf(),
                profondeur >= 1,
                cd == (profondeur - 1) as nat,
                ms@.len() == g.nmoves(),
                forall|k: int| 0 <= k < ms@.len() ==> (#[trigger] ms@[k]).index == k,
                0 <= i <= ms@.len(),
                -127 <= best as int <= 127,
                best as int == best_upto(g, cd, i as int),
            decreases ms@.len() - i,
        {
            let mv = ms[i];
            proof {
                lemma_next_wf(g, mv.index as int);
                lemma_negamax_bounds(g.next(mv.index as int), cd);
            }
            let child = state.play(&mv);
            let v = negamax(profondeur - 1, child);
            let s = -v;
            proof {
                assert(s as int == move_value(g, i as int, cd));
            }
            if s > best {
                best = s;
            }
            i += 1;
        }
        best
    }
}

/// Minimax with an explicit maximizing flag; agrees with negamax up to
/// the sign given by the flag.
pub fn minimax(profondeur: u8, maximizing: bool, state: Configuration) -> (r: i8)
    requires
        state@.wf(),
    ensures
        maximizing ==> r as int == negamax_value(state@, profondeur as nat),
        !maximizing ==> r as int == -negamax_value(state@, profondeur as nat),
    decreases profondeur as int,
{
    let ghost g = state@;
    let ms = state.movements();
    if profondeur == 0 || ms.len() == 0 {
        let v = state.value();
        if maximizing {
            -v
        } else {
            v
        }
    } else {
        let ghost cd = (profondeur - 1) as nat;
        let mut i: usize = 0;
        if maximizing {
            let mut best: i8 = -127;
            while i < ms.len()
                invariant
                    g == state@,
                    g.wf(),
                    profondeur >= 1,
                    cd == (profondeur - 1) as nat,
                    ms@.len() == g.nmoves(),
                    forall|k: int| 0 <= k < ms@.len() ==> (#[trigger] ms@[k]).index == k,
                    0 <= i <= ms@.len(),
                    -127 <= best as int <= 127,
                    best as int == best_upto(g, cd, i as int),
                decreases ms@.len() - i,
            {
                let mv = ms[i];
                proof {
                    lemma_next_wf(g, mv.index as int);
                    lemma_negamax_bounds(g.next(mv.index as int), cd);
                }
                let child = state.play(&mv);
                let v = minimax(profondeur - 1, false, child);
                proof {
                    assert(v as int == move_value(g, i as int, cd));
                }
                if v > best {
                    best = v;
                }
                i += 1;
            }
            best
        } else {
            let mut worst: i8 = 127;
            while i < ms.len()
                invariant
                    g == state@,
                    g.wf(),
                    profondeur >= 1,
                    cd == (profondeur - 1) as nat,
                    ms@.len() == g.nmoves(),
                    forall|k: int| 0 <= k < ms@.len() ==> (#[trigger] ms@[k]).index == k,
                    0 <= i <= ms@.len(),
                    -127 <= worst as int <= 127,
                    worst as int == -best_upto(g, cd, i as int),
                decreases ms@.len() - i,
            {
                let mv = ms[i];
                proof {
                    lemma_next_wf(g, mv.index as int);
                    lemma_negamax_bounds(g.next(mv.index as int), cd);
                }
                let child = state.play(&mv);
                let v = minimax(profondeur - 1, true, child);
                proof {
                    assert(v as int == -move_value(g, i as int, cd));
                }
                if v < worst {
                    worst = v;
                }
                i += 1;
            }
            worst
        }
    }
}


/// Strategy searching every movement concurrently by brute-force
/// negamax one ply below the root, with the given recursion depth.
pub struct MinMax(pub u8);

impl MinMax {
    /// Display name of the strategy.
    pub fn name(&self) -> &'static str {
        "Min - Max"
    }

    /// The chosen movement for the side to move: none exactly when the
    /// position is terminal for this strategy's depth, otherwise a
    /// legal movement achieving the game value at that depth.
    pub fn compute_next_move(&mut self, state: &Configuration) -> (r: Option<Movement>)
        requires
            state@.wf(),
            self.0 >= 1,
        ensures
            chosen_move_ok(state@, old(self).0 as nat, r),
            final(self).0 == old(self).0,
    {
        let ms = state.movements();
        if ms.len() == 0 {
            None
        } else {
            let res = crate::parallel::par_search(
                SearchKind::Negamax,
                self.0,
                -127,
                127,
                state,
                1,
            );
            proof {
                lemma_full_window_exact(state@, self.0 as nat, res);
            }
            settle_choice(state, self.0, res.0)
        }
    }
}

/// Anytime driver over the parallel negamax: deepen from one ply up to
/// the ceiling, overwriting the shared slot with each completed depth's
/// movement, so a reader interrupting the loop at any point finds the
/// movement of the last completed depth.
pub fn min_max_anytime(state: &Configuration, channel: &mut AtomicMove, max_depth: u8)
    requires
        state@.wf(),
        1 <= max_depth < 100,
    ensures
        chosen_move_ok(state@, max_depth as nat, final(channel)@),
{
    let mut depth: u8 = 1;
    while depth <= max_depth
        invariant
            state@.wf(),
            1 <= max_depth < 100,
            1 <= depth <= max_depth + 1,
            depth > 1 ==> chosen_move_ok(state@, (depth - 1) as nat, channel@),
        decreases max_depth + 1 - depth,
    {
        let mut strategy = MinMax(depth);
        let chosen_movement = strategy.compute_next_move(state);
        channel.store(chosen_movement);
        depth += 1;
    }
}

} // verus!
