use blobwar::alphabeta::{alpha_beta_anytime, AlphaBeta};
use blobwar::channel::AtomicMove;
use blobwar::configuration::{Configuration, Movement};
use blobwar::evil::{alphabeta_iteratif, negamax2, Evil};
use blobwar::greedy::Greedy;
use blobwar::minmax::{min_max_anytime, MinMax};

fn leaf(value: i8) -> Configuration {
    Configuration {
        values: vec![value],
        starts: vec![0],
        counts: vec![0],
        succs: vec![],
        current: 0,
    }
}

fn sample() -> Configuration {
    Configuration {
        values: vec![0, -3, 5, 2, -1, -4, 7],
        starts: vec![0, 2, 4, 6, 6, 6, 6],
        counts: vec![2, 2, 2, 0, 0, 0, 0],
        succs: vec![1, 2, 3, 4, 5, 6],
        current: 0,
    }
}

#[test]
fn terminal_configurations_yield_no_move() {
    let c = leaf(9);
    assert_eq!(Greedy().compute_next_move(&c), None);
    assert_eq!(AlphaBeta(3).compute_next_move(&c), None);
    assert_eq!(Evil(3).compute_next_move(&c), None);
    assert_eq!(MinMax(1).compute_next_move(&c), None);
}

#[test]
fn depth_zero_negates_static_value() {
    let c = leaf(17);
    assert_eq!(blobwar::minmax::negamax(0, c.duplicate()), -17);
    assert_eq!(blobwar::alphabeta::alphabeta(0, -127, 127, c), (None, -17));
    let s = sample();
    assert_eq!(blobwar::minmax::negamax(0, s), 0);
}

#[test]
fn greedy_returns_first_of_tied_maxima() {
    let c = Configuration {
        values: vec![0, 4, 7, 7],
        starts: vec![0, 3, 3, 3],
        counts: vec![3, 0, 0, 0],
        succs: vec![1, 2, 3],
        current: 0,
    };
    assert_eq!(Greedy().compute_next_move(&c), Some(Movement { index: 1 }));
}

#[test]
fn greedy_picks_best_immediate_value() {
    let c = sample();
    // Successors valued -3 and 5: the greedy pick is the second movement.
    assert_eq!(Greedy().compute_next_move(&c), Some(Movement { index: 1 }));
}

#[test]
fn channel_last_write_wins() {
    let mut slot = AtomicMove::connect();
    assert_eq!(slot.load(), None);
    slot.store(Some(Movement { index: 0 }));
    slot.store(Some(Movement { index: 1 }));
    assert_eq!(slot.load(), Some(Movement { index: 1 }));
    slot.store(None);
    assert_eq!(slot.load(), None);
}

#[test]
fn channel_reader_sees_latest_complete_store() {
    let mut slot = AtomicMove::connect();
    let a = Some(Movement { index: 0 });
    let b = Some(Movement { index: 1 });
    slot.store(a);
    assert_eq!(slot.load(), a);
    slot.store(b);
    // A reader connecting after both stores observes only the second.
    assert_eq!(slot.load(), b);
}

#[test]
fn anytime_publishes_legal_move_at_depth_one() {
    let c = Configuration::default();
    let n_moves = c.movements().len();
    let mut slot = AtomicMove::connect();
    alpha_beta_anytime(&c, &mut slot, 1);
    let published = slot.load().expect("a movement must be published");
    assert!(published.index < n_moves);
}

#[test]
fn anytime_keeps_slot_legal_at_every_depth() {
    let c = Configuration::default();
    let n_moves = c.movements().len();
    // Simulated termination after each completed depth: whatever depth
    // the loop last finished, the slot holds a legal movement.
    for ceiling in 1..=3u8 {
        let mut slot = AtomicMove::connect();
        alpha_beta_anytime(&c, &mut slot, ceiling);
        let published = slot.load().expect("a movement must be published");
        assert!(published.index < n_moves);
    }
}

#[test]
fn evil_and_minmax_anytime_publish_legal_moves() {
    let c = Configuration::default();
    let n_moves = c.movements().len();
    let mut slot = AtomicMove::connect();
    blobwar::evil::alpha_beta_anytime(&c, &mut slot, 2);
    let published = slot.load().expect("a movement must be published");
    assert!(published.index < n_moves);
    let mut slot2 = AtomicMove::connect();
    min_max_anytime(&c, &mut slot2, 2);
    let published2 = slot2.load().expect("a movement must be published");
    assert!(published2.index < n_moves);
}

#[test]
fn strategies_agree_on_sample_position() {
    let c = sample();
    let expected = Some(Movement { index: 0 });
    assert_eq!(AlphaBeta(2).compute_next_move(&c), expected);
    assert_eq!(Evil(2).compute_next_move(&c), expected);
    assert_eq!(MinMax(2).compute_next_move(&c), expected);
}

#[test]
fn strategies_play_even_when_all_replies_are_at_the_floor() {
    // One legal movement whose only successor is valued at the floor:
    // the game value is -127, yet the movement must still be played.
    let c = Configuration {
        values: vec![0, -127],
        starts: vec![0, 1],
        counts: vec![1, 0],
        succs: vec![1],
        current: 0,
    };
    let expected = Some(Movement { index: 0 });
    assert_eq!(AlphaBeta(1).compute_next_move(&c), expected);
    assert_eq!(Evil(1).compute_next_move(&c), expected);
    assert_eq!(MinMax(1).compute_next_move(&c), expected);
    assert_eq!(blobwar::parallel::alphabeta_par(1, c.duplicate()), expected);
    assert_eq!(blobwar::parallel::alphabeta_par_pvs(1, c.duplicate()), expected);
    let mut slot = AtomicMove::connect();
    blobwar::alphabeta::alpha_beta_anytime(&c, &mut slot, 2);
    assert_eq!(slot.load(), expected);
}

#[test]
fn negamax2_keeps_alpha_at_terminals() {
    // A terminal position reports its negated static score and leaves
    // the window's lower bound untouched.
    let c = leaf(-5);
    assert_eq!(negamax2(3, 0, 5, c), (5, 0, 5));
}

#[test]
fn negamax2_reports_raised_window() {
    let c = sample();
    let (value, raised, upper) = negamax2(2, -5, 5, c);
    assert_eq!(upper, 5);
    assert_eq!(raised, if value > -5 { value } else { -5 });
}

#[test]
fn iteratif_returns_legal_or_no_move() {
    let c = sample();
    let n_moves = c.movements().len();
    let (mo, bound) = alphabeta_iteratif(3, -127, 127, c);
    if let Some(mv) = mo {
        assert!(mv.index < n_moves);
    }
    assert!((-127..=0).contains(&bound));
}

#[test]
fn strategy_names() {
    assert_eq!(Greedy().name(), "Greedy");
    assert_eq!(AlphaBeta(3).name(), "Alpha - Beta");
    assert_eq!(Evil(3).name(), "Evil");
    assert_eq!(MinMax(3).name(), "Min - Max");
}
