use vstd::prelude::*;

use rayon::iter::{IntoParallelRefIterator, ParallelIterator};

use crate::alphabeta::{
    chosen_move_ok, lemma_full_window_exact, scan_result_ok, search_result_ok, settle_choice,
    SearchKind,
};
use crate::configuration::{
    lemma_best_upto_ge, lemma_best_upto_le, lemma_list_best_ge, list_best, move_value,
    negamax_value, Configuration, GameView, Movement,
};

verus! {

/// Some chunk holds the `i`-th movement of the position.
pub open spec fn covers(chunks: Seq<Vec<Movement>>, i: int) -> bool {
    exists|p: int, j: int|
        0 <= p < chunks.len() && 0 <= j < chunks[p]@.len() && ((#[trigger] chunks[p]@[j]).index)
            == i
}

/// All movements of all chunks, in chunk order.
pub open spec fn chunks_flat(cs: Seq<Vec<Movement>>) -> Seq<Movement>
    decreases cs.len(),
{
    if cs.len() == 0 {
        Seq::empty()
    } else {
        chunks_flat(cs.drop_last()) + cs.last()@
    }
}

proof fn lemma_flat_index(cs: Seq<Vec<Movement>>, k: int)
    requires
        0 <= k < chunks_flat(cs).len(),
    ensures
        exists|p: int, j: int|
            0 <= p < cs.len() && 0 <= j < cs[p]@.len() && cs[p]@[j] == chunks_flat(cs)[k],
    decreases cs.len(),
{
    let pre = chunks_flat(cs.drop_last());
    if k < pre.len() {
        lemma_flat_index(cs.drop_last(), k);
        let (p, j) = choose|p: int, j: int|
            0 <= p < cs.drop_last().len() && 0 <= j < cs.drop_last()[p]@.len()
                && cs.drop_last()[p]@[j] == pre[k];
        assert(cs[p]@[j] == chunks_flat(cs)[k]);
    } else {
        let p = cs.len() - 1;
        let j = k - pre.len();
        assert(cs[p]@[j] == chunks_flat(cs)[k]);
    }
}

proof fn lemma_flat_elem(cs: Seq<Vec<Movement>>, p: int, j: int)
    requires
        0 <= p < cs.len(),
        0 <= j < cs[p]@.len(),
    ensures
        exists|k: int| 0 <= k < chunks_flat(cs).len() && chunks_flat(cs)[k] == cs[p]@[j],
    decreases cs.len(),
{
    let pre = chunks_flat(cs.drop_last());
    if p == cs.len() - 1 {
        assert(chunks_flat(cs)[pre.len() + j] == cs[p]@[j]);
    } else {
        lemma_flat_elem(cs.drop_last(), p, j);
        let k = choose|k: int|
            0 <= k < pre.len() && pre[k] == cs.drop_last()[p]@[j];
        assert(chunks_flat(cs)[k] == cs[p]@[j]);
    }
}

/// Cut the movement list into consecutive chunks of at most `size`
/// movements; together the chunks hold exactly the given movements.
fn split_chunks(ms: &Vec<Movement>, size: usize) -> (r: Vec<Vec<Movement>>)
    requires
        size >= 1,
        ms@.len() >= 1,
    ensures
        r@.len() >= 1,
        chunks_flat(r@) == ms@,
{
    let mut r: Vec<Vec<Movement>> = Vec::new();
    let mut cur: Vec<Movement> = Vec::new();
    let mut i: usize = 0;
    while i < ms.len()
        invariant
            size >= 1,
            0 <= i <= ms@.len(),
            cur@.len() < size,
            chunks_flat(r@) + cur@ =~= ms@.subrange(0, i as int),
        decreases ms@.len() - i,
    {
        let ghost old_r = r@;
        let ghost old_cur = cur@;
        cur.push(ms[i]);
        proof {
            assert(chunks_flat(r@) + cur@ =~= (chunks_flat(r@) + old_cur).push(
                ms@[i as int],
            ));
            assert(ms@.subrange(0, i as int + 1) =~= ms@.subrange(0, i as int).push(
                ms@[i as int],
            ));
            assert(chunks_flat(r@) + cur@ =~= ms@.subrange(0, i as int + 1));
        }
        if cur.len() == size {
            let full = cur;
            cur = Vec::new();
            r.push(full);
            proof {
                assert(r@.drop_last() =~= old_r);
                assert(chunks_flat(r@) =~= chunks_flat(old_r) + full@);
                assert(chunks_flat(r@) + cur@ =~= ms@.subrange(0, i as int + 1));
            }
        }
        i += 1;
    }
    if cur.len() > 0 {
        let ghost old_r = r@;
        let last = cur;
        r.push(last);
        proof {
            assert(r@.drop_last() =~= old_r);
            assert(chunks_flat(r@) =~= chunks_flat(old_r) + last@);
            assert(chunks_flat(r@) =~= ms@.subrange(0, ms@.len() as int));
            assert(ms@.subrange(0, ms@.len() as int) =~= ms@);
        }
    } else {
        proof {
            assert(chunks_flat(r@) + cur@ =~= ms@);
            assert(chunks_flat(r@) =~= ms@);
        }
    }
    proof {
        if r@.len() == 0 {
            assert(chunks_flat(r@).len() == 0);
            assert(false);
        }
    }
    r
}

/// Relies on rayon's `par_iter().map(..).collect()`: one result per
/// chunk, in chunk order, each produced by the given closure — here the
/// verified fail-soft scan of that chunk. The scheduler chooses only the
/// order of evaluation, which the scan's answer does not depend on.
#[verifier::external_body]
fn par_scan_chunks(
    kind: SearchKind,
    profondeur: u8,
    alpha: i8,
    beta: i8,
    state: &Configuration,
    chunks: &Vec<Vec<Movement>>,
) -> (r: Vec<(Option<Movement>, i8)>)
    requires
        profondeur >= 1,
        state@.wf(),
        -127 <= alpha as int && (alpha as int) < (beta as int) && beta as int <= 127,
        forall|p: int, j: int|
            0 <= p < chunks@.len() && 0 <= j < chunks@[p]@.len() ==> state@.legal(
                #[trigger] chunks@[p]@[j],
            ),
    ensures
        r@.len() == chunks@.len(),
        forall|p: int|
            0 <= p < chunks@.len() ==> scan_result_ok(
                state@,
                (profondeur - 1) as nat,
                alpha as int,
                beta as int,
                chunks@[p]@,
                #[trigger] r@[p],
            ),
{
    chunks.par_iter().map(
        |c: &Vec<Movement>| crate::alphabeta::scan_moves(kind, profondeur, alpha, beta, state, c),
    ).collect()
}

/// Combine the workers' partial answers: a partial carrying no movement
/// loses to any that carries one; otherwise the greater value wins, the
/// earlier worker keeping ties.
fn reduce_partials(parts: &Vec<(Option<Movement>, i8)>) -> (r: (Option<Movement>, i8))
    requires
        parts@.len() >= 1,
    ensures
        exists|w: int| 0 <= w < parts@.len() && parts@[w] == r,
        forall|q: int|
            0 <= q < parts@.len() && (#[trigger] parts@[q]).0 is Some ==> parts@[q].1 as int
                <= r.1 as int,
        r.0 is None ==> forall|q: int| 0 <= q < parts@.len() ==> (#[trigger] parts@[q]).0 is None,
{
    let mut r = parts[0];
    proof {
        assert(parts@[0] == r);
    }
    let mut p: usize = 1;
    while p < parts.len()
        invariant
            1 <= p as int <= parts@.len(),
            exists|w: int| 0 <= w < p as int && parts@[w] == r,
            forall|q: int|
                0 <= q < p as int && (#[trigger] parts@[q]).0 is Some ==> parts@[q].1 as int
                    <= r.1 as int,
            r.0 is None ==> forall|q: int| 0 <= q < p as int ==> (#[trigger] parts@[q]).0 is None,
        decreases parts@.len() - p,
    {
        let c = parts[p];
        if c.0.is_some() && (r.0.is_none() || c.1 > r.1) {
            r = c;
            proof {
                assert(parts@[p as int] == r);
            }
        }
        p += 1;
    }
    r
}

/// From per-chunk fail-soft scans that together cover every movement, a
/// reduced answer meets the parallel search contract.
proof fn lemma_combine(
    g: GameView,
    depth: nat,
    alpha: int,
    beta: int,
    chunks: Seq<Vec<Movement>>,
    parts: Seq<(Option<Movement>, i8)>,
    r: (Option<Movement>, i8),
)
    requires
        g.wf(),
        depth >= 1,
        -127 <= alpha < beta <= 127,
        !g.terminal(depth),
        parts.len() == chunks.len(),
        parts.len() >= 1,
        forall|p: int|
            0 <= p < parts.len() ==> scan_result_ok(
                g,
                (depth - 1) as nat,
                alpha,
                beta,
                chunks[p]@,
                #[trigger] parts[p],
            ),
        forall|i: int| 0 <= i < g.nmoves() ==> covers(chunks, i),
        exists|w: int| 0 <= w < parts.len() && parts[w] == r,
        forall|q: int|
            0 <= q < parts.len() && (#[trigger] parts[q]).0 is Some ==> parts[q].1 as int
                <= r.1 as int,
        r.0 is None ==> forall|q: int| 0 <= q < parts.len() ==> (#[trigger] parts[q]).0 is None,
    ensures
        search_result_ok(g, depth, alpha, beta, r),
{
    let cd = (depth - 1) as nat;
    let m = negamax_value(g, depth);
    let w = choose|w: int| 0 <= w < parts.len() && parts[w] == r;
    assert(scan_result_ok(g, cd, alpha, beta, chunks[w]@, r));
    if (r.1 as int) < beta {
        assert forall|i: int| 0 <= i < g.nmoves() implies move_value(g, i, cd) <= r.1 as int by {
            assert(covers(chunks, i));
            let (p, j) = choose|p: int, j: int|
                0 <= p < chunks.len() && 0 <= j < chunks[p]@.len() && ((#[trigger] chunks[p]@[j]).index) == i;
            assert(scan_result_ok(g, cd, alpha, beta, chunks[p]@, parts[p]));
            assert(parts[p].1 as int <= r.1 as int);
            assert((parts[p].1 as int) < beta);
            assert(list_best(g, cd, chunks[p]@) <= parts[p].1 as int);
            lemma_list_best_ge(g, cd, chunks[p]@, j);
        }
        lemma_best_upto_le(g, cd, g.nmoves(), r.1 as int);
        assert(m <= r.1 as int);
    }
    if r.1 as int >= beta {
        let mv = r.0.unwrap();
        lemma_best_upto_ge(g, cd, g.nmoves(), mv.index as int);
    }
    if alpha < (r.1 as int) < beta {
        let mv = r.0.unwrap();
        lemma_best_upto_ge(g, cd, g.nmoves(), mv.index as int);
    }
}

/// Search every movement concurrently: the movements are split into
/// chunks, each chunk is scanned fail-soft by its own task seeded from
/// the caller's window, and the partial answers are reduced.
pub(crate) fn par_search(
    kind: SearchKind,
    profondeur: u8,
    alpha: i8,
    beta: i8,
    state: &Configuration,
    chunk_size: usize,
) -> (r: (Option<Movement>, i8))
    requires
        profondeur >= 1,
        chunk_size >= 1,
        state@.wf(),
        state@.nmoves() >= 1,
        -127 <= alpha as int && (alpha as int) < (beta as int) && beta as int <= 127,
    ensures
        search_result_ok(state@, profondeur as nat, alpha as int, beta as int, r),
{
    let ghost g = state@;
    let ms = state.movements();
    let chunks = split_chunks(&ms, chunk_size);
    proof {
        assert forall|p: int, j: int|
            0 <= p < chunks@.len() && 0 <= j < chunks@[p]@.len() implies g.legal(
            #[trigger] chunks@[p]@[j],
        ) by {
            lemma_flat_elem(chunks@, p, j);
            let k = choose|k: int|
                0 <= k < chunks_flat(chunks@).len() && chunks_flat(chunks@)[k] == chunks@[p]@[j];
            assert(ms@[k].index == k);
        }
    }
    let parts = par_scan_chunks(kind, profondeur, alpha, beta, state, &chunks);
    let r = reduce_partials(&parts);
    proof {
        assert forall|i: int| 0 <= i < g.nmoves() implies covers(chunks@, i) by {
            lemma_flat_index(chunks@, i);
            let (p, j) = choose|p: int, j: int|
                0 <= p < chunks@.len() && 0 <= j < chunks@[p]@.len() && chunks@[p]@[j]
                    == chunks_flat(chunks@)[i];
            assert(chunks_flat(chunks@)[i] == ms@[i]);
            assert((chunks@[p]@[j]).index == i);
        }
        lemma_combine(
            g,
            profondeur as nat,
            alpha as int,
            beta as int,
            chunks@,
            parts@,
            r,
        );
    }
    r
}

/// Root-parallel map-reduce: every movement is searched concurrently
/// with the same full window, so the answer equals the sequential one.
pub fn alphabeta_par(profondeur: u8, state: Configuration) -> (r: Option<Movement>)
    requires
        state@.wf(),
    ensures
        chosen_move_ok(state@, profondeur as nat, r),
{
    let ms = state.movements();
    if profondeur == 0 || ms.len() == 0 {
        None
    } else {
        let r = par_search(SearchKind::Plain, profondeur, -127, 127, &state, 1);
        proof {
            lemma_full_window_exact(state@, profondeur as nat, r);
        }
        settle_choice(&state, profondeur, r.0)
    }
}

/// Root-parallel map-reduce with principal variation search below each
/// movement; exact for the same reason as the plain map-reduce.
pub fn alphabeta_par_pvs(profondeur: u8, state: Configuration) -> (r: Option<Movement>)
    requires
        state@.wf(),
    ensures
        chosen_move_ok(state@, profondeur as nat, r),
{
    let ms = state.movements();
    if profondeur == 0 || ms.len() == 0 {
        None
    } else {
        let r = par_search(SearchKind::Pvs, profondeur, -127, 127, &state, 1);
        proof {
            lemma_full_window_exact(state@, profondeur as nat, r);
        }
        settle_choice(&state, profondeur, r.0)
    }
}

/// Root-parallel map-reduce carrying the caller's window unchanged into
/// every branch, reporting the movement and its value.
pub fn alphabeta_par_classic_with_score(
    profondeur: u8,
    alpha: i8,
    beta: i8,
    state: Configuration,
) -> (r: (Option<Movement>, i8))
    requires
        state@.wf(),
        -127 <= alpha as int && (alpha as int) < (beta as int) && beta as int <= 127,
    ensures
        search_result_ok(state@, profondeur as nat, alpha as int, beta as int, r),
{
    let ms = state.movements();
    if profondeur == 0 || ms.len() == 0 {
        (None, -state.value())
    } else {
        par_search(SearchKind::Pvs, profondeur, alpha, beta, &state, 1)
    }
}

/// Speculative early-abort fold-reduce: each worker folds over its
/// assigned subset with its own local window, stopping its further work
/// on a local cutoff; partials are reduced by the no-move-loses rule.
pub fn alphabeta_par2(profondeur: u8, alpha: i8, beta: i8, state: Configuration) -> (r: (
    Option<Movement>,
    i8,
))
    requires
        state@.wf(),
        -127 <= alpha as int && (alpha as int) < (beta as int) && beta as int <= 127,
    ensures
        search_result_ok(state@, profondeur as nat, alpha as int, beta as int, r),
{
    let ms = state.movements();
    if profondeur == 0 || ms.len() == 0 {
        (None, -state.value())
    } else {
        par_search(SearchKind::Plain, profondeur, alpha, beta, &state, 4)
    }
}

/// The fold-reduce decomposition with principal variation search below
/// each movement; the variant the alpha-beta strategy runs.
pub fn alphabeta_par_pvs2(profondeur: u8, alpha: i8, beta: i8, state: Configuration) -> (r: (
    Option<Movement>,
    i8,
))
    requires
        state@.wf(),
        -127 <= alpha as int && (alpha as int) < (beta as int) && beta as int <= 127,
    ensures
        search_result_ok(state@, profondeur as nat, alpha as int, beta as int, r),
{
    let ms = state.movements();
    if profondeur == 0 || ms.len() == 0 {
        (None, -state.value())
    } else {
        par_search(SearchKind::Pvs, profondeur, alpha, beta, &state, 4)
    }
}

/// Fold-reduce applied one additional ply deeper: grandchildren too are
/// searched by the parallel map-reduce rather than sequentially.
pub fn alphabeta_par_pvs_double_depth_par(
    profondeur: u8,
    alpha: i8,
    beta: i8,
    state: Configuration,
) -> (r: (Option<Movement>, i8))
    requires
        state@.wf(),
        -127 <= alpha as int && (alpha as int) < (beta as int) && beta as int <= 127,
    ensures
        search_result_ok(state@, profondeur as nat, alpha as int, beta as int, r),
{
    let ms = state.movements();
    if profondeur == 0 || ms.len() == 0 {
        (None, -state.value())
    } else {
        par_search(SearchKind::Deep, profondeur, alpha, beta, &state, 4)
    }
}

/// Parallel at every level: each movement is a task, and so are all of
/// its descendants' movements in turn; intended only for shallow, wide
/// positions where task overhead is amortised.
pub fn alphabeta_par_infinite(profondeur: u8, alpha: i8, beta: i8, state: Configuration) -> (r: (
    Option<Movement>,
    i8,
))
    requires
        state@.wf(),
        -127 <= alpha as int && (alpha as int) < (beta as int) && beta as int <= 127,
    ensures
        search_result_ok(state@, profondeur as nat, alpha as int, beta as int, r),
{
    let ms = state.movements();
    if profondeur == 0 || ms.len() == 0 {
        (None, -state.value())
    } else {
        par_search(SearchKind::Infinite, profondeur, alpha, beta, &state, 1)
    }
}

/// Root-parallel search inside a narrow window centred on the current
/// static score, redone with the full window whenever the narrow answer
/// does not land strictly inside it.
pub fn alphabeta_par_aspiration(profondeur: u8, state: Configuration) -> (r: Option<Movement>)
    requires
        state@.wf(),
    ensures
        chosen_move_ok(state@, profondeur as nat, r),
{
    let ms = state.movements();
    if profondeur == 0 || ms.len() == 0 {
        None
    } else {
        let v = state.value();
        let lo = if v <= -97 {
            -127
        } else {
            v - 30
        };
        let hi = if v >= 97 {
            127
        } else {
            v + 30
        };
        let narrow = par_search(SearchKind::Plain, profondeur, lo, hi, &state, 1);
        if narrow.0.is_some() && lo < narrow.1 && narrow.1 < hi {
            proof {
                lemma_best_upto_ge(
                    state@,
                    (profondeur - 1) as nat,
                    state@.nmoves(),
                    narrow.0.unwrap().index as int,
                );
            }
            narrow.0
        } else {
            let full = par_search(SearchKind::Plain, profondeur, -127, 127, &state, 1);
            proof {
                lemma_full_window_exact(state@, profondeur as nat, full);
            }
            settle_choice(&state, profondeur, full.0)
        }
    }
}

} // verus!
