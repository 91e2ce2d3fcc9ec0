use vstd::prelude::*;

use crate::channel::AtomicMove;
use crate::configuration::{
    best_upto, lemma_best_upto_ge, lemma_list_best_canonical, lemma_list_best_ge,
    lemma_list_best_le, lemma_list_best_subset, lemma_move_value_bounds, lemma_negamax_bounds,
    lemma_next_wf, list_best, move_value, negamax_value, spec_max, Configuration, GameView,
    Movement,
};

verus! {

/// The movement `mv` stands at position `k` of the scanned list and no
/// earlier entry reaches the threshold `cut`.
pub open spec fn picked_at(
    g: GameView,
    cd: nat,
    ms: Seq<Movement>,
    mv: Movement,
    k: int,
    cut: int,
) -> bool {
    &&& 0 <= k < ms.len()
    &&& ms[k] == mv
    &&& forall|j: int| 0 <= j < k ==> move_value(g, (#[trigger] ms[j]).index as int, cd) < cut
}

/// Fail-soft contract of one left-to-right alpha-beta scan over the
/// movement list `ms`, with every successor searched `cd` plies deep.
/// The returned value may leave the window; it is never clamped.
pub open spec fn scan_result_ok(
    g: GameView,
    cd: nat,
    alpha: int,
    beta: int,
    ms: Seq<Movement>,
    r: (Option<Movement>, i8),
) -> bool {
    let b = list_best(g, cd, ms);
    &&& -127 <= r.1 as int <= 127
    &&& (r.0 is None <==> r.1 as int == -127)
    &&& (r.0 matches Some(mv) ==> g.legal(mv) && ms.contains(mv))
    &&& ((r.1 as int) < beta ==> b <= r.1 as int)
    &&& ((r.1 as int) < beta ==> (r.0 matches Some(mv) ==> move_value(g, mv.index as int, cd)
        <= r.1 as int))
    &&& (r.1 as int >= beta ==> (r.0 matches Some(mv) && move_value(g, mv.index as int, cd)
        >= r.1 as int && exists|k: int| picked_at(g, cd, ms, mv, k, beta)))
    &&& (alpha < (r.1 as int) < beta ==> r.1 as int == b && (r.0 matches Some(mv) && move_value(
        g,
        mv.index as int,
        cd,
    ) == r.1 as int && exists|k: int| picked_at(g, cd, ms, mv, k, r.1 as int)))
}

/// Fail-soft contract of a full search of `g` at the given depth with the
/// window `[alpha, beta]`: terminal positions report their negated static
/// score; otherwise the returned value brackets the true negamax value,
/// pins it exactly when it lands strictly inside the window, and the
/// returned movement is then the first one achieving it.
pub open spec fn ab_result_ok(
    g: GameView,
    depth: nat,
    alpha: int,
    beta: int,
    r: (Option<Movement>, i8),
) -> bool {
    let m = negamax_value(g, depth);
    let cd = (depth - 1) as nat;
    &&& -127 <= r.1 as int <= 127
    &&& (g.terminal(depth) ==> r.0 is None && r.1 as int == -g.val())
    &&& (!g.terminal(depth) ==> {
        &&& ((r.1 as int) < beta ==> m <= r.1 as int)
        &&& ((r.1 as int) < beta ==> (r.0 matches Some(mv) ==> move_value(g, mv.index as int, cd)
            <= r.1 as int))
        &&& (r.1 as int >= beta ==> m >= r.1 as int)
        &&& (alpha < (r.1 as int) < beta ==> r.1 as int == m)
        &&& (r.0 is None <==> r.1 as int == -127)
        &&& (r.0 matches Some(mv) ==> g.legal(mv))
        &&& (alpha < (r.1 as int) < beta ==> (r.0 matches Some(mv) && move_value(
            g,
            mv.index as int,
            cd,
        ) == m && forall|j: int| 0 <= j < mv.index ==> move_value(g, j, cd) < m))
        &&& (r.1 as int >= beta ==> (r.0 matches Some(mv) && move_value(g, mv.index as int, cd)
            >= r.1 as int && forall|j: int| 0 <= j < mv.index ==> move_value(g, j, cd) < beta))
    })
}

/// Contract shared by the ordered and the parallel searches: the returned value
/// brackets the true game value fail-soft, pins it exactly strictly
/// inside the window, and the returned movement achieves the reported
/// value; which of several tying movements is returned is left open.
pub open spec fn search_result_ok(
    g: GameView,
    depth: nat,
    alpha: int,
    beta: int,
    r: (Option<Movement>, i8),
) -> bool {
    let m = negamax_value(g, depth);
    let cd = (depth - 1) as nat;
    &&& -127 <= r.1 as int <= 127
    &&& (g.terminal(depth) ==> r.0 is None && r.1 as int == -g.val())
    &&& (!g.terminal(depth) ==> {
        &&& (r.0 is None <==> r.1 as int == -127)
        &&& (r.0 matches Some(mv) ==> g.legal(mv))
        &&& ((r.1 as int) < beta ==> m <= r.1 as int)
        &&& ((r.1 as int) < beta ==> (r.0 matches Some(mv) ==> move_value(g, mv.index as int, cd)
            <= r.1 as int))
        &&& (r.1 as int >= beta ==> m >= r.1 as int && (r.0 matches Some(mv) && move_value(
            g,
            mv.index as int,
            cd,
        ) >= r.1 as int))
        &&& (alpha < (r.1 as int) < beta ==> r.1 as int == m && (r.0 matches Some(mv)
            && move_value(g, mv.index as int, cd) == r.1 as int))
    })
}

/// What a strategy owes for its chosen movement: no movement exactly
/// when the position is terminal for the requested depth — no legal
/// movement, or no depth to search with — and otherwise always a legal
/// movement achieving the game value, even when that value is the
/// -127 floor.
pub open spec fn chosen_move_ok(g: GameView, depth: nat, mo: Option<Movement>) -> bool {
    if g.terminal(depth) {
        mo is None
    } else {
        mo matches Some(mv) && g.legal(mv) && move_value(g, mv.index as int, (depth - 1) as nat)
            == negamax_value(g, depth)
    }
}

/// At the full window a search meeting the shared contract is exact:
/// its value is the game value, its movement achieves it, and it comes
/// back empty only on terminal positions or at the value floor.
pub proof fn lemma_full_window_exact(g: GameView, depth: nat, r: (Option<Movement>, i8))
    requires
        g.wf(),
        search_result_ok(g, depth, -127, 127, r),
    ensures
        r.1 as int == negamax_value(g, depth),
        g.terminal(depth) ==> r.0 is None,
        r.0 is None ==> g.terminal(depth) || negamax_value(g, depth) == -127,
        r.0 matches Some(mv) ==> g.legal(mv) && move_value(g, mv.index as int, (depth - 1) as nat)
            == negamax_value(g, depth),
{
    lemma_negamax_bounds(g, depth);
    let m = negamax_value(g, depth);
    if !g.terminal(depth) {
        if r.1 as int == -127 {
            assert(m <= -127);
        } else if r.1 as int >= 127 {
            let mv = r.0.unwrap();
            lemma_move_value_bounds(g, mv.index as int, (depth - 1) as nat);
        }
    }
}

/// The movement a strategy hands out once a full-window search is
/// done: the search's own movement, or the first legal movement when
/// the search recorded none because every movement is valued at the
/// -127 floor — a movement must still be played whenever one is legal,
/// and at the floor the first one achieves the game value like any
/// other.
pub(crate) fn settle_choice(state: &Configuration, profondeur: u8, mo: Option<Movement>) -> (r:
    Option<Movement>)
    requires
        state@.wf(),
        profondeur >= 1,
        state@.nmoves() > 0,
        mo is None ==> negamax_value(state@, profondeur as nat) == -127,
        mo matches Some(mv) ==> state@.legal(mv) && move_value(
            state@,
            mv.index as int,
            (profondeur - 1) as nat,
        ) == negamax_value(state@, profondeur as nat),
    ensures
        chosen_move_ok(state@, profondeur as nat, r),
{
    match mo {
        Some(mv) => Some(mv),
        None => {
            let ms = state.movements();
            proof {
                lemma_best_upto_ge(state@, (profondeur - 1) as nat, state@.nmoves(), 0);
                lemma_move_value_bounds(state@, 0, (profondeur - 1) as nat);
            }
            Some(ms[0])
        },
    }
}

/// How one movement's successor is searched during a scan: by the plain
/// fail-soft recursion, by principal variation scouting, by the
/// root-parallel search one ply deeper, by the fully parallel recursion,
/// or by brute-force negamax.
#[derive(Clone, Copy)]
pub enum SearchKind {
    Plain,
    Pvs,
    Deep,
    Infinite,
    Negamax,
}

/// Score of one movement's successor, searched `profondeur - 1` plies
/// deep by the chosen method. Whatever the method, the answer brackets
/// the true movement score fail-soft with respect to the window.
pub(crate) fn child_score(
    kind: SearchKind,
    profondeur: u8,
    alpha_cur: i8,
    beta: i8,
    state: &Configuration,
    mv: &Movement,
    first: bool,
) -> (score: i8)
    requires
        profondeur >= 1,
        state@.wf(),
        state@.legal(*mv),
        -127 <= alpha_cur as int && (alpha_cur as int) < (beta as int) && beta as int <= 127,
    ensures
        ({
            let t = move_value(state@, mv.index as int, (profondeur - 1) as nat);
            &&& -127 <= score as int <= 127
            &&& (score as int > alpha_cur as int ==> t >= score as int)
            &&& (score as int <= alpha_cur as int ==> t <= score as int)
            &&& ((alpha_cur as int) < (score as int) < (beta as int) ==> t == score as int)
        }),
    decreases profondeur as int, 1int,
{
    let ghost g = state@;
    let ghost cd = (profondeur - 1) as nat;
    let ghost t = move_value(g, mv.index as int, cd);
    proof {
        lemma_next_wf(g, mv.index as int);
        lemma_move_value_bounds(g, mv.index as int, cd);
    }
    let child = state.play(mv);
    match kind {
        SearchKind::Plain => -alphabeta(profondeur - 1, -beta, -alpha_cur, child).1,
        SearchKind::Negamax => -crate::minmax::negamax(profondeur - 1, child),
        SearchKind::Deep => -crate::parallel::alphabeta_par_classic_with_score(
            profondeur - 1,
            -beta,
            -alpha_cur,
            child,
        ).1,
        SearchKind::Infinite => -crate::parallel::alphabeta_par_infinite(
            profondeur - 1,
            -beta,
            -alpha_cur,
            child,
        ).1,
        SearchKind::Pvs => {
            if first {
                -alphabeta_pvs(profondeur - 1, -beta, -alpha_cur, child).1
            } else {
                let probe = -alphabeta_pvs(profondeur - 1, -alpha_cur - 1, -alpha_cur, child).1;
                if alpha_cur < probe && probe < beta {
                    let child2 = state.play(mv);
                    let rescore = -alphabeta_pvs(profondeur - 1, -beta, -probe, child2).1;
                    proof {
                        if !g.next(mv.index as int).terminal(cd) {
                            assert(t >= probe as int);
                            assert((rescore as int) < (beta as int) ==> t == rescore as int);
                        }
                    }
                    rescore
                } else {
                    probe
                }
            }
        },
    }
}

/// One fail-soft alpha-beta scan: candidates replace the running best
/// only on strict improvement, the window's lower bound is raised as the
/// best improves, and scanning stops at the first beta cutoff.
pub(crate) fn scan_moves(
    kind: SearchKind,
    profondeur: u8,
    alpha: i8,
    beta: i8,
    state: &Configuration,
    ms: &Vec<Movement>,
) -> (r: (Option<Movement>, i8))
    requires
        profondeur >= 1,
        state@.wf(),
        -127 <= alpha as int && (alpha as int) < (beta as int) && beta as int <= 127,
        forall|k: int| 0 <= k < ms@.len() ==> state@.legal(#[trigger] ms@[k]),
    ensures
        scan_result_ok(state@, (profondeur - 1) as nat, alpha as int, beta as int, ms@, r),
    decreases profondeur as int, 2int,
{
    let ghost g = state@;
    let ghost cd = (profondeur - 1) as nat;
    let n = ms.len();
    let mut best_move: Option<Movement> = None;
    let mut best_val: i8 = -127;
    let mut alpha_cur: i8 = alpha;
    let mut cut: bool = false;
    let mut i: usize = 0;
    while i < n && !cut
        invariant
            profondeur >= 1,
            g == state@,
            g.wf(),
            cd == (profondeur - 1) as nat,
            -127 <= alpha as int && (alpha as int) < (beta as int) && beta as int <= 127,
            n == ms@.len(),
            forall|k: int| 0 <= k < ms@.len() ==> state@.legal(#[trigger] ms@[k]),
            0 <= i <= n,
            -127 <= best_val as int <= 127,
            alpha_cur as int == spec_max(alpha as int, best_val as int),
            best_move is None <==> best_val as int == -127,
            best_move matches Some(mv) ==> g.legal(mv) && ms@.contains(mv),
            !cut ==> (best_val as int) < beta as int,
            !cut ==> forall|j: int| 0 <= j < i as int ==> move_value(
                g,
                (#[trigger] ms@[j]).index as int,
                cd,
            ) <= best_val as int,
            !cut && best_move is Some ==> move_value(
                g,
                best_move.unwrap().index as int,
                cd,
            ) <= best_val as int,
            !cut && (alpha as int) < best_val as int ==> best_move is Some && move_value(
                g,
                best_move.unwrap().index as int,
                cd,
            ) == best_val as int && (exists|k: int|
                picked_at(g, cd, ms@, best_move.unwrap(), k, best_val as int)),
            cut ==> best_val as int >= beta as int && best_move is Some && move_value(
                g,
                best_move.unwrap().index as int,
                cd,
            ) >= best_val as int && (exists|k: int|
                picked_at(g, cd, ms@, best_move.unwrap(), k, beta as int)),
        decreases n - i,
    {
        let mv = ms[i];
        let val = child_score(kind, profondeur, alpha_cur, beta, state, &mv, i == 0);
        let ghost t = move_value(g, mv.index as int, cd);
        let ghost old_best = best_val;
        if val > best_val {
            best_val = val;
            best_move = Some(mv);
            if best_val > alpha_cur {
                alpha_cur = best_val;
                if alpha_cur >= beta {
                    cut = true;
                }
            }
        }
        proof {
            assert(ms@.contains(ms@[i as int]));
            if val > old_best {
                if cut {
                    assert((val as int) > spec_max(alpha as int, old_best as int));
                    assert(t >= val as int);
                    assert(move_value(g, mv.index as int, cd) >= best_val as int);
                    assert(picked_at(g, cd, ms@, mv, i as int, beta as int));
                } else if (alpha as int) < best_val as int {
                    assert((val as int) > spec_max(alpha as int, old_best as int));
                    assert(t == val as int);
                    assert(move_value(g, mv.index as int, cd) == best_val as int);
                    assert(picked_at(g, cd, ms@, mv, i as int, best_val as int));
                }
            }
            if !cut && (alpha as int) < best_val as int {
                assert(best_move is Some);
                assert(move_value(g, best_move.unwrap().index as int, cd) == best_val as int);
                assert(exists|k: int|
                    picked_at(g, cd, ms@, best_move.unwrap(), k, best_val as int));
            }
        }
        i += 1;
    }
    proof {
        if !cut {
            lemma_list_best_le(g, cd, ms@, best_val as int);
            if (alpha as int) < best_val as int {
                let mv = best_move.unwrap();
                let k = choose|k: int| picked_at(g, cd, ms@, mv, k, best_val as int);
                lemma_list_best_ge(g, cd, ms@, k);
            }
        }
    }
    (best_move, best_val)
}

/// Fail-soft alpha-beta search with the given maximum number of
/// recursions; the reference algorithm of the sequential family.
pub fn alphabeta(profondeur: u8, alpha: i8, beta: i8, state: Configuration) -> (r: (
    Option<Movement>,
    i8,
))
    requires
        state@.wf(),
        -127 <= alpha as int && (alpha as int) < (beta as int) && beta as int <= 127,
    ensures
        ab_result_ok(state@, profondeur as nat, alpha as int, beta as int, r),
    decreases profondeur as int, 3int,
{
    let ms = state.movements();
    if profondeur == 0 || ms.len() == 0 {
        (None, -state.value())
    } else {
        let r = scan_moves(SearchKind::Plain, profondeur, alpha, beta, &state, &ms);
        proof {
            lemma_scan_to_ab(state@, profondeur as nat, alpha as int, beta as int, ms@, r);
        }
        r
    }
}

/// Principal variation search: the first movement is searched with the
/// full window, later ones are probed with a null window and re-searched
/// only when the probe proves an in-window improvement. The re-searches
/// restore exactness, so the answer carries the same fail-soft contract
/// as the plain search — in particular it is never clamped to the
/// window.
pub fn alphabeta_pvs(profondeur: u8, alpha: i8, beta: i8, state: Configuration) -> (r: (
    Option<Movement>,
    i8,
))
    requires
        state@.wf(),
        -127 <= alpha as int && (alpha as int) < (beta as int) && beta as int <= 127,
    ensures
        ab_result_ok(state@, profondeur as nat, alpha as int, beta as int, r),
    decreases profondeur as int, 3int,
{
    let ms = state.movements();
    if profondeur == 0 || ms.len() == 0 {
        (None, -state.value())
    } else {
        let r = scan_moves(SearchKind::Pvs, profondeur, alpha, beta, &state, &ms);
        proof {
            lemma_scan_to_ab(state@, profondeur as nat, alpha as int, beta as int, ms@, r);
        }
        r
    }
}

/// Over the canonical movement list, a scan meeting the fail-soft scan
/// contract meets the full-search contract.
proof fn lemma_scan_to_ab(
    g: GameView,
    depth: nat,
    alpha: int,
    beta: int,
    ms: Seq<Movement>,
    r: (Option<Movement>, i8),
)
    requires
        g.wf(),
        depth >= 1,
        -127 <= alpha < beta <= 127,
        ms.len() == g.nmoves(),
        forall|k: int| 0 <= k < ms.len() ==> (#[trigger] ms[k]).index == k,
        !g.terminal(depth),
        scan_result_ok(g, (depth - 1) as nat, alpha, beta, ms, r),
    ensures
        ab_result_ok(g, depth, alpha, beta, r),
{
    let cd = (depth - 1) as nat;
    let m = negamax_value(g, depth);
    lemma_list_best_canonical(g, cd, ms, g.nmoves());
    assert(m == list_best(g, cd, ms));
    if r.1 as int >= beta {
        let mv = r.0.unwrap();
        let k = choose|k: int| picked_at(g, cd, ms, mv, k, beta);
        assert(mv.index == k);
        lemma_best_upto_ge(g, cd, g.nmoves(), k);
        assert(best_upto(g, cd, g.nmoves()) >= move_value(g, k, cd));
        assert forall|j: int| 0 <= j < mv.index implies move_value(g, j, cd) < beta by {
            assert(ms[j].index == j);
        }
    }
    if alpha < (r.1 as int) < beta {
        let mv = r.0.unwrap();
        let k = choose|k: int| picked_at(g, cd, ms, mv, k, r.1 as int);
        assert(mv.index == k);
        assert forall|j: int| 0 <= j < mv.index implies move_value(g, j, cd) < m by {
            assert(ms[j].index == j);
        }
    }
}

/// Exact-search contract: the reported value is the game value, and the
/// reported movement is the first one achieving it, if any does.
pub open spec fn exact_result_ok(
    g: GameView,
    depth: nat,
    r: (Option<Movement>, i8),
) -> bool {
    let m = negamax_value(g, depth);
    let cd = (depth - 1) as nat;
    &&& r.1 as int == m
    &&& (g.terminal(depth) ==> r.0 is None)
    &&& (!g.terminal(depth) ==> {
        &&& (r.0 is None <==> m == -127)
        &&& (r.0 matches Some(mv) ==> g.legal(mv) && move_value(g, mv.index as int, cd) == m
            && forall|j: int| 0 <= j < mv.index ==> move_value(g, j, cd) < m)
    })
}

/// At the full window the fail-soft search is exact and deterministic.
pub proof fn lemma_ab_full_window(g: GameView, depth: nat, r: (Option<Movement>, i8))
    requires
        g.wf(),
        ab_result_ok(g, depth, -127, 127, r),
    ensures
        exact_result_ok(g, depth, r),
{
    lemma_negamax_bounds(g, depth);
    if !g.terminal(depth) {
        if r.1 as int >= 127 {
            let mv = r.0.unwrap();
            lemma_move_value_bounds(g, mv.index as int, (depth - 1) as nat);
        }
    }
}

/// Narrow-window search centred on the caller's window, redone with the
/// full window whenever the narrow answer does not land strictly inside
/// it; the fallback makes the answer exact for every input.
pub fn alphabeta_aspiration(profondeur: u8, alpha: i8, beta: i8, state: Configuration) -> (r: (
    Option<Movement>,
    i8,
))
    requires
        state@.wf(),
        -127 <= alpha as int && (alpha as int) < (beta as int) && beta as int <= 127,
    ensures
        exact_result_ok(state@, profondeur as nat, r),
    decreases profondeur as int, 4int,
{
    let ms = state.movements();
    if profondeur == 0 || ms.len() == 0 {
        (None, -state.value())
    } else {
        let narrow = alphabeta(profondeur, alpha, beta, state.duplicate());
        if narrow.0.is_some() && alpha < narrow.1 && narrow.1 < beta {
            narrow
        } else {
            let full = alphabeta(profondeur, -127, 127, state);
            proof {
                lemma_ab_full_window(state@, profondeur as nat, full);
            }
            full
        }
    }
}

/// A scan over a list whose best matches the position's game value
/// meets the shared search contract.
proof fn lemma_scan_to_search(
    g: GameView,
    depth: nat,
    alpha: int,
    beta: int,
    ms: Seq<Movement>,
    r: (Option<Movement>, i8),
)
    requires
        g.wf(),
        depth >= 1,
        -127 <= alpha < beta <= 127,
        !g.terminal(depth),
        scan_result_ok(g, (depth - 1) as nat, alpha, beta, ms, r),
        list_best(g, (depth - 1) as nat, ms) == negamax_value(g, depth),
    ensures
        search_result_ok(g, depth, alpha, beta, r),
{
    let cd = (depth - 1) as nat;
    if r.1 as int >= beta {
        let mv = r.0.unwrap();
        lemma_best_upto_ge(g, cd, g.nmoves(), mv.index as int);
    }
}

/// Exchange two entries of the keyed movement list.
fn swap_pairs(v: &mut Vec<(i8, Movement)>, a: usize, b: usize)
    requires
        (a as int) < old(v)@.len(),
        (b as int) < old(v)@.len(),
    ensures
        final(v)@.len() == old(v)@.len(),
        final(v)@[a as int] == old(v)@[b as int],
        final(v)@[b as int] == old(v)@[a as int],
        forall|k: int|
            0 <= k < old(v)@.len() && k != a as int && k != b as int ==> final(v)@[k] == old(
                v,
            )@[k],
{
    let x = v[a];
    let y = v[b];
    v.set(a, y);
    v.set(b, x);
}

/// Key every movement by a two-ply look-ahead and order the list by
/// descending key: the same movements, ordered so that likely-strong
/// ones are scanned first.
fn order_moves(alpha: i8, beta: i8, state: &Configuration, ms: &Vec<Movement>) -> (r: Vec<
    Movement,
>)
    requires
        state@.wf(),
        -127 <= alpha as int && (alpha as int) < (beta as int) && beta as int <= 127,
        forall|k: int| 0 <= k < ms@.len() ==> state@.legal(#[trigger] ms@[k]),
    ensures
        r@.len() == ms@.len(),
        forall|k: int| 0 <= k < r@.len() ==> ms@.contains(#[trigger] r@[k]),
        forall|k: int| 0 <= k < ms@.len() ==> r@.contains(#[trigger] ms@[k]),
{
    let ghost g = state@;
    let mut pairs: Vec<(i8, Movement)> = Vec::new();
    let mut i: usize = 0;
    while i < ms.len()
        invariant
            g == state@,
            g.wf(),
            -127 <= alpha as int && (alpha as int) < (beta as int) && beta as int <= 127,
            forall|k: int| 0 <= k < ms@.len() ==> state@.legal(#[trigger] ms@[k]),
            0 <= i <= ms@.len(),
            pairs@.len() == i as int,
            forall|k: int| 0 <= k < i as int ==> (#[trigger] pairs@[k]).1 == ms@[k],
        decreases ms@.len() - i,
    {
        let mv = ms[i];
        let child = state.play(&mv);
        let key = alphabeta(2, alpha, beta, child).1;
        pairs.push((key, mv));
        i += 1;
    }
    let ghost p0 = pairs@;
    let n = pairs.len();
    let mut a: usize = 0;
    while a < n
        invariant
            n == pairs@.len(),
            n == p0.len(),
            0 <= a <= n,
            forall|k: int| 0 <= k < n ==> p0.contains(#[trigger] pairs@[k]),
            forall|k: int| 0 <= k < n ==> pairs@.contains(#[trigger] p0[k]),
        decreases n - a,
    {
        let mut b = a;
        let mut top = a;
        while b < n
            invariant
                n == pairs@.len(),
                a <= b <= n,
                a <= top && (top as int) < n,
            decreases n - b,
        {
            if pairs[b].0 > pairs[top].0 {
                top = b;
            }
            b += 1;
        }
        let ghost before = pairs@;
        swap_pairs(&mut pairs, a, top);
        proof {
            assert forall|k: int| 0 <= k < n implies p0.contains(#[trigger] pairs@[k]) by {
                if k == a as int {
                    assert(pairs@[k] == before[top as int]);
                } else if k == top as int {
                    assert(pairs@[k] == before[a as int]);
                } else {
                    assert(pairs@[k] == before[k]);
                }
            }
            assert forall|k: int| 0 <= k < n implies pairs@.contains(#[trigger] p0[k]) by {
                let j = choose|j: int| 0 <= j < before.len() && before[j] == p0[k];
                if j == a as int {
                    assert(pairs@[top as int] == p0[k]);
                } else if j == top as int {
                    assert(pairs@[a as int] == p0[k]);
                } else {
                    assert(pairs@[j] == p0[k]);
                }
            }
        }
        a += 1;
    }
    let mut r: Vec<Movement> = Vec::new();
    i = 0;
    while i < n
        invariant
            n == pairs@.len(),
            0 <= i <= n,
            r@.len() == i as int,
            forall|k: int| 0 <= k < i as int ==> #[trigger] r@[k] == pairs@[k].1,
        decreases n - i,
    {
        let entry = pairs[i];
        r.push(entry.1);
        i += 1;
    }
    proof {
        assert forall|k: int| 0 <= k < r@.len() implies ms@.contains(#[trigger] r@[k]) by {
            assert(p0.contains(pairs@[k]));
            let j = choose|j: int| 0 <= j < p0.len() && p0[j] == pairs@[k];
            assert(ms@[j] == r@[k]);
        }
        assert forall|k: int| 0 <= k < ms@.len() implies r@.contains(#[trigger] ms@[k]) by {
            assert(p0[k].1 == ms@[k]);
            assert(pairs@.contains(p0[k]));
            let j = choose|j: int| 0 <= j < pairs@.len() && pairs@[j] == p0[k];
            assert(r@[j] == ms@[k]);
        }
    }
    r
}

/// Alpha-beta with shallow move ordering: at depth four and above the
/// movements are pre-sorted by a cheap two-ply evaluation before the
/// full-depth scan; below that, generation order is used unchanged.
pub fn alphabeta_sorted(profondeur: u8, alpha: i8, beta: i8, state: Configuration) -> (r: (
    Option<Movement>,
    i8,
))
    requires
        state@.wf(),
        -127 <= alpha as int && (alpha as int) < (beta as int) && beta as int <= 127,
    ensures
        search_result_ok(state@, profondeur as nat, alpha as int, beta as int, r),
        profondeur < 4 ==> ab_result_ok(state@, profondeur as nat, alpha as int, beta as int, r),
    decreases profondeur as int, 4int,
{
    let ghost g = state@;
    let ms = state.movements();
    if profondeur == 0 || ms.len() == 0 {
        (None, -state.value())
    } else {
        let ghost cd = (profondeur - 1) as nat;
        if profondeur >= 4 {
            let os = order_moves(alpha, beta, &state, &ms);
            proof {
                assert forall|k: int| 0 <= k < os@.len() implies g.legal(#[trigger] os@[k]) by {
                    assert(ms@.contains(os@[k]));
                    let j = choose|j: int| 0 <= j < ms@.len() && ms@[j] == os@[k];
                    assert(ms@[j].index == j);
                }
            }
            let rr = scan_moves(SearchKind::Plain, profondeur, alpha, beta, &state, &os);
            proof {
                lemma_list_best_canonical(g, cd, ms@, g.nmoves());
                lemma_list_best_subset(g, cd, os@, ms@);
                lemma_list_best_subset(g, cd, ms@, os@);
                lemma_scan_to_search(g, profondeur as nat, alpha as int, beta as int, os@, rr);
            }
            rr
        } else {
            let rr = scan_moves(SearchKind::Plain, profondeur, alpha, beta, &state, &ms);
            proof {
                lemma_list_best_canonical(g, cd, ms@, g.nmoves());
                lemma_scan_to_search(g, profondeur as nat, alpha as int, beta as int, ms@, rr);
                lemma_scan_to_ab(g, profondeur as nat, alpha as int, beta as int, ms@, rr);
            }
            rr
        }
    }
}

/// Alpha-beta strategy with the given maximum number of recursions; it
/// runs the fold-reduce parallel decomposition over the full window.
pub struct AlphaBeta(pub u8);

impl AlphaBeta {
    /// Display name of the strategy.
    pub fn name(&self) -> &'static str {
        "Alpha - Beta"
    }

    /// The chosen movement for the side to move: none exactly when the
    /// position is terminal for this strategy's depth, otherwise a
    /// legal movement achieving the game value at that depth.
    pub fn compute_next_move(&mut self, state: &Configuration) -> (r: Option<Movement>)
        requires
            state@.wf(),
        ensures
            chosen_move_ok(state@, old(self).0 as nat, r),
            final(self).0 == old(self).0,
    {
        let ms = state.movements();
        if self.0 == 0 || ms.len() == 0 {
            None
        } else {
            let res = crate::parallel::alphabeta_par_pvs2(self.0, -127, 127, state.duplicate());
            proof {
                lemma_full_window_exact(state@, self.0 as nat, res);
            }
            settle_choice(state, self.0, res.0)
        }
    }
}

/// Anytime driver: deepen from one ply up to the given ceiling,
/// overwriting the shared slot with each completed depth's movement
/// before starting the next, so a reader interrupting the loop at any
/// point finds the movement of the last completed depth.
pub fn alpha_beta_anytime(state: &Configuration, channel: &mut AtomicMove, max_depth: u8)
    requires
        state@.wf(),
        1 <= max_depth < 100,
    ensures
        chosen_move_ok(state@, max_depth as nat, final(channel)@),
{
    let mut depth: u8 = 1;
    while depth <= max_depth
        invariant
            state@.wf(),
            1 <= max_depth < 100,
            1 <= depth <= max_depth + 1,
            depth > 1 ==> chosen_move_ok(state@, (depth - 1) as nat, channel@),
        decreases max_depth + 1 - depth,
    {
        let mut strategy = AlphaBeta(depth);
        let chosen_movement = strategy.compute_next_move(state);
        channel.store(chosen_movement);
        depth += 1;
    }
}


} // verus!
