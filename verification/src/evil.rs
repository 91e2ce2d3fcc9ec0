use vstd::prelude::*;

use crate::alphabeta::{
    alphabeta, alphabeta_sorted, chosen_move_ok, lemma_full_window_exact, settle_choice,
};
use crate::channel::AtomicMove;
use crate::configuration::{negamax_value, spec_max, Configuration, Movement};

verus! {

/// Strategy running the ordered alpha-beta search with the given
/// maximum number of recursions.
pub struct Evil(pub u8);

impl Evil {
    /// Display name of the strategy.
    pub fn name(&self) -> &'static str {
        "Evil"
    }

    /// The chosen movement for the side to move: none exactly when the
    /// position is terminal for this strategy's depth, otherwise a
    /// legal movement achieving the game value at that depth.
    pub fn compute_next_move(&mut self, state: &Configuration) -> (r: Option<Movement>)
        requires
            state@.wf(),
        ensures
            chosen_move_ok(state@, old(self).0 as nat, r),
            final(self).0 == old(self).0,
    {
        let ms = state.movements();
        if self.0 == 0 || ms.len() == 0 {
            None
        } else {
            let res = alphabeta_sorted(self.0, -127, 127, state.duplicate());
            proof {
                lemma_full_window_exact(state@, self.0 as nat, res);
            }
            settle_choice(state, self.0, res.0)
        }
    }
}

/// Anytime driver over the ordered search: deepen from one ply up to
/// the ceiling, overwriting the shared slot with each completed depth's
/// movement, so a reader interrupting the loop at any point finds the
/// movement of the last completed depth.
pub fn alpha_beta_anytime(state: &Configuration, channel: &mut AtomicMove, max_depth: u8)
    requires
        state@.wf(),
        1 <= max_depth < 100,
    ensures
        chosen_move_ok(state@, max_depth as nat, final(channel)@),
{
    let mut depth: u8 = 1;
    while depth <= max_depth
        invariant
            state@.wf(),
            1 <= max_depth < 100,
            1 <= depth <= max_depth + 1,
            depth > 1 ==> chosen_move_ok(state@, (depth - 1) as nat, channel@),
        decreases max_depth + 1 - depth,
    {
        let mut strategy = Evil(depth);
        let chosen_movement = strategy.compute_next_move(state);
        channel.store(chosen_movement);
        depth += 1;
    }
}

/// Fail-soft alpha-beta reporting only scores: the search value, the
/// lower window bound — raised to the running best during a real scan,
/// left untouched on terminal positions — and the unchanged upper
/// bound.
pub fn negamax2(profondeur: u8, alpha: i8, beta: i8, state: Configuration) -> (r: (i8, i8, i8))
    requires
        state@.wf(),
        -127 <= alpha as int && (alpha as int) < (beta as int) && beta as int <= 127,
    ensures
        -127 <= r.0 as int <= 127,
        state@.terminal(profondeur as nat) ==> r.0 as int == -state@.val() && r.1 == alpha,
        !state@.terminal(profondeur as nat) ==> ({
            let m = negamax_value(state@, profondeur as nat);
            &&& ((r.0 as int) < (beta as int) ==> m <= r.0 as int)
            &&& (r.0 as int >= beta as int ==> m >= r.0 as int)
            &&& ((alpha as int) < (r.0 as int) < (beta as int) ==> r.0 as int == m)
            &&& r.1 as int == spec_max(alpha as int, r.0 as int)
        }),
        r.2 == beta,
{
    let ms = state.movements();
    if profondeur == 0 || ms.len() == 0 {
        (-state.value(), alpha, beta)
    } else {
        let res = alphabeta(profondeur, alpha, beta, state);
        let raised = if res.1 > alpha {
            res.1
        } else {
            alpha
        };
        (res.1, raised, beta)
    }
}

/// Iterative deepening over an asymmetric window narrowed on one side
/// only: a deliberately weaker-pruning variant, not interchangeable
/// with the fail-soft family, so only safety is claimed of its answer:
/// a legal movement or none, and a bound that never leaves [-127, 0].
/// Deepening stops once the accumulated bound reaches zero, where the
/// next window would be empty and a fail-soft search has no meaning.
pub fn alphabeta_iteratif(profondeur: u8, alpha: i8, beta: i8, state: Configuration) -> (r: (
    Option<Movement>,
    i8,
))
    requires
        state@.wf(),
    ensures
        r.0 matches Some(mv) ==> state@.legal(mv),
        -127 <= r.1 as int <= 0,
{
    let mut best_move: Option<Movement> = None;
    let mut bound: i8 = -127;
    let mut i: u16 = 1;
    while i <= profondeur as u16 && bound < 0
        invariant
            state@.wf(),
            -127 <= bound as int <= 0,
            best_move matches Some(mv) ==> state@.legal(mv),
            1 <= i,
        decreases profondeur as int + 1 - i as int,
    {
        let ghost g = state@;
        let (tmp_move, tmp_val) = alphabeta(i as u8, bound, -bound, state.duplicate());
        let tmp_abs = if tmp_val < 0 {
            -tmp_val
        } else {
            tmp_val
        };
        let bound_abs = -bound;
        if tmp_abs >= bound_abs {
            bound = -tmp_abs;
        }
        proof {
            if tmp_move is Some {
                assert(g.legal(tmp_move.unwrap()));
            }
        }
        best_move = tmp_move;
        i += 1;
    }
    (best_move, bound)
}

} // verus!
