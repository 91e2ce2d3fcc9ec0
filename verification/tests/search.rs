use blobwar::alphabeta::{alphabeta, alphabeta_aspiration, alphabeta_pvs, alphabeta_sorted};
use blobwar::configuration::{Configuration, Movement};
use blobwar::minmax::{minimax, negamax};
use blobwar::parallel::{
    alphabeta_par, alphabeta_par2, alphabeta_par_aspiration, alphabeta_par_classic_with_score,
    alphabeta_par_infinite, alphabeta_par_pvs, alphabeta_par_pvs2,
    alphabeta_par_pvs_double_depth_par,
};

fn lcg(state: &mut u64) -> u64 {
    *state = state.wrapping_mul(6364136223846793005).wrapping_add(1442695040888963407);
    *state >> 33
}

fn rand_score(state: &mut u64) -> i8 {
    ((lcg(state) % 41) as i64 - 20) as i8
}

fn grow(nodes: &mut Vec<(i8, Vec<usize>)>, rng: &mut u64, levels: usize, branch: usize) -> usize {
    let id = nodes.len();
    nodes.push((rand_score(rng), Vec::new()));
    if levels > 0 {
        let mut children = Vec::new();
        for _ in 0..branch {
            children.push(grow(nodes, rng, levels - 1, branch));
        }
        nodes[id].1 = children;
    }
    id
}

fn to_configuration(nodes: Vec<(i8, Vec<usize>)>) -> Configuration {
    let mut values = Vec::new();
    let mut starts = Vec::new();
    let mut counts = Vec::new();
    let mut succs = Vec::new();
    for (value, children) in nodes {
        values.push(value);
        starts.push(succs.len());
        counts.push(children.len());
        for c in children {
            succs.push(c);
        }
    }
    Configuration { values, starts, counts, succs, current: 0 }
}

fn random_tree(seed: u64, levels: usize, branch: usize) -> Configuration {
    let mut rng = seed;
    let mut nodes = Vec::new();
    grow(&mut nodes, &mut rng, levels, branch);
    to_configuration(nodes)
}

fn sample() -> Configuration {
    Configuration {
        values: vec![0, -3, 5, 2, -1, -4, 7],
        starts: vec![0, 2, 4, 6, 6, 6, 6],
        counts: vec![2, 2, 2, 0, 0, 0, 0],
        succs: vec![1, 2, 3, 4, 5, 6],
        current: 0,
    }
}

#[test]
fn model_movements_play_value() {
    let c = sample();
    let ms = c.movements();
    assert_eq!(ms.len(), 2);
    assert_eq!(ms[0], Movement { index: 0 });
    assert_eq!(ms[1], Movement { index: 1 });
    let after = c.play(&ms[0]);
    assert_eq!(after.current, 1);
    assert_eq!(after.value(), -3);
    assert_eq!(c.value(), 0);
    let copy = c.duplicate();
    assert_eq!(copy.value(), 0);
    assert_eq!(copy.movements().len(), 2);
}

#[test]
fn alphabeta_exact_values_on_sample() {
    let c = sample();
    assert_eq!(alphabeta(1, -127, 127, c.duplicate()), (Some(Movement { index: 1 }), 5));
    assert_eq!(alphabeta(2, -127, 127, c), (Some(Movement { index: 0 }), -2));
}

#[test]
fn alphabeta_matches_negamax_on_random_trees() {
    for seed in [1u64, 7, 42, 1234, 99999] {
        let t = random_tree(seed, 3, 3);
        for depth in 0..=4u8 {
            let brute = negamax(depth, t.duplicate());
            let pruned = alphabeta(depth, -127, 127, t.duplicate()).1;
            assert_eq!(pruned, brute);
        }
    }
}

#[test]
fn sorted_alphabeta_matches_plain_value() {
    for seed in [3u64, 17, 2024] {
        let t = random_tree(seed, 4, 2);
        for depth in [1u8, 3, 5] {
            let plain = alphabeta(depth, -127, 127, t.duplicate()).1;
            let sorted = alphabeta_sorted(depth, -127, 127, t.duplicate()).1;
            assert_eq!(sorted, plain);
        }
    }
}

#[test]
fn aspiration_equals_full_window() {
    for seed in [5u64, 21, 777] {
        let t = random_tree(seed, 3, 3);
        for depth in 0..=4u8 {
            let full = alphabeta(depth, -127, 127, t.duplicate());
            let aspirated = alphabeta_aspiration(depth, -10, 10, t.duplicate());
            assert_eq!(aspirated, full);
        }
    }
}

#[test]
fn pvs_equals_alphabeta() {
    for seed in [2u64, 13, 555] {
        let t = random_tree(seed, 3, 3);
        for depth in 0..=4u8 {
            let plain = alphabeta(depth, -127, 127, t.duplicate());
            let pvs = alphabeta_pvs(depth, -127, 127, t.duplicate());
            assert_eq!(pvs.1, plain.1);
            assert_eq!(pvs.0, plain.0);
        }
    }
}

#[test]
fn map_reduce_equals_sequential() {
    for seed in [4u64, 19, 303] {
        let t = random_tree(seed, 3, 2);
        for depth in 1..=4u8 {
            let plain = alphabeta(depth, -127, 127, t.duplicate());
            let scored = alphabeta_par_classic_with_score(depth, -127, 127, t.duplicate());
            assert_eq!(scored.1, plain.1);
            let par_move = alphabeta_par(depth, t.duplicate());
            assert_eq!(par_move, plain.0);
            let par_pvs_move = alphabeta_par_pvs(depth, t.duplicate());
            assert_eq!(par_pvs_move, plain.0);
        }
    }
}

#[test]
fn fold_reduce_value_at_least_sequential() {
    for seed in [6u64, 23, 808] {
        let t = random_tree(seed, 3, 3);
        for depth in 1..=4u8 {
            let plain = alphabeta(depth, -127, 127, t.duplicate()).1;
            let folded = alphabeta_par2(depth, -127, 127, t.duplicate()).1;
            let folded_pvs = alphabeta_par_pvs2(depth, -127, 127, t.duplicate()).1;
            assert!(folded >= plain);
            assert!(folded_pvs >= plain);
            assert_eq!(folded, plain);
            assert_eq!(folded_pvs, plain);
        }
    }
}

#[test]
fn double_depth_parallel_matches_sequential_value() {
    for seed in [8u64, 31] {
        let t = random_tree(seed, 3, 2);
        for depth in 1..=3u8 {
            let plain = alphabeta(depth, -127, 127, t.duplicate()).1;
            let deep = alphabeta_par_pvs_double_depth_par(depth, -127, 127, t.duplicate()).1;
            assert_eq!(deep, plain);
        }
    }
}

#[test]
fn parallel_aspiration_picks_optimal_move() {
    for seed in [9u64, 37] {
        let t = random_tree(seed, 3, 3);
        for depth in 1..=3u8 {
            let plain = alphabeta(depth, -127, 127, t.duplicate());
            let chosen = alphabeta_par_aspiration(depth, t.duplicate());
            match (chosen, plain.0) {
                (Some(a), Some(_)) => {
                    // Both achieve the optimum; compare achieved values.
                    let achieved = -alphabeta(depth - 1, -127, 127, t.play(&a)).1;
                    assert_eq!(achieved, plain.1);
                }
                (a, b) => assert_eq!(a, b),
            }
        }
    }
}

#[test]
fn fully_parallel_recursion_matches_sequential_value() {
    for seed in [11u64, 47] {
        let t = random_tree(seed, 3, 2);
        for depth in 1..=3u8 {
            let plain = alphabeta(depth, -127, 127, t.duplicate()).1;
            let infinite = alphabeta_par_infinite(depth, -127, 127, t.duplicate()).1;
            assert_eq!(infinite, plain);
        }
    }
}

#[test]
fn minimax_sign_convention() {
    for seed in [10u64, 44] {
        let t = random_tree(seed, 3, 2);
        for depth in 0..=3u8 {
            let reference = negamax(depth, t.duplicate());
            assert_eq!(minimax(depth, true, t.duplicate()), reference);
            assert_eq!(minimax(depth, false, t.duplicate()), -reference);
        }
    }
}
