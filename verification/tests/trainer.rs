use chopsticks::model::Model;
use chopsticks::moves::moves;
use chopsticks::prob::{Prob, SCALE};
use chopsticks::selfplay::train;
use chopsticks::table::Commutative2DArray;

/// Cross-multiplied comparison of two defined estimates.
fn prob_less(a: Prob, b: Prob) -> bool {
    match (a, b) {
        (Prob::Val { num: na, den: da }, Prob::Val { num: nb, den: db }) => {
            (na as u128) * (db as u128) < (nb as u128) * (da as u128)
        }
        _ => panic!("undefined estimate compared"),
    }
}

#[test]
fn table_reads_are_symmetric() {
    let t = Commutative2DArray::new(vec![vec![10], vec![20, 30], vec![40, 50, 60]]);
    for i in 0..3usize {
        for j in 0..3usize {
            assert_eq!(*t.get(i, j), *t.get(j, i));
        }
    }
    assert_eq!(*t.get(0, 1), 20);
    assert_eq!(*t.get(1, 0), 20);
    assert_eq!(*t.get(2, 1), 50);
}

#[test]
fn table_writes_are_shared() {
    let mut t = Commutative2DArray::new(vec![vec![1], vec![2, 3]]);
    let prev = t.replace(0, 1, 9);
    assert_eq!(prev, 2);
    assert_eq!(*t.get(1, 0), 9);
    assert_eq!(*t.get(0, 1), 9);
    assert_eq!(*t.get(0, 0), 1);
    assert_eq!(*t.get(1, 1), 3);
}

#[test]
fn new_model_seeds_counts_and_probabilities() {
    let m = Model::new();
    for h0 in 0..5u8 {
        for h1 in 0..5u8 {
            for a0 in 0..5u8 {
                for a1 in 0..5u8 {
                    assert_eq!(m.sample_count((h0, h1), (a0, a1)), 1);
                    let p = m.probability((h0, h1), (a0, a1));
                    if h0 == 0 && h1 == 0 && a0 == 0 && a1 == 0 {
                        assert_eq!(p, Prob::Undefined);
                    } else if h0 == 0 && h1 == 0 {
                        assert_eq!(p, Prob::Val { num: 0, den: SCALE });
                    } else if a0 == 0 && a1 == 0 {
                        assert_eq!(p, Prob::Val { num: SCALE, den: SCALE });
                    } else {
                        match p {
                            Prob::Val { num, den } => {
                                assert_eq!(den, SCALE);
                                assert!(0 < num && num < den);
                            }
                            Prob::Undefined => panic!("defined cell seeded undefined"),
                        }
                    }
                }
            }
        }
    }
}

#[test]
fn model_lookups_collapse_pair_order() {
    let m = Model::new();
    assert_eq!(m.probability((3, 1), (2, 0)), m.probability((1, 3), (0, 2)));
    assert_eq!(m.probability((3, 1), (2, 0)), m.probability((3, 1), (0, 2)));
    assert_eq!(m.probability((3, 1), (2, 0)), m.probability((1, 3), (2, 0)));
    assert_eq!(m.sample_count((4, 2), (1, 1)), m.sample_count((2, 4), (1, 1)));
}

#[test]
fn fit_twice_moves_estimate_toward_outcome() {
    let mut m = Model::new();
    let s = ((1u8, 2u8), (3u8, 1u8));
    let traj = vec![s];
    let p0 = m.probability(s.0, s.1);
    m.fit(&traj, true);
    let p1 = m.probability(s.0, s.1);
    m.fit(&traj, true);
    let p2 = m.probability(s.0, s.1);
    assert_eq!(m.sample_count(s.0, s.1), 3);
    assert!(prob_less(p0, p1));
    assert!(prob_less(p1, p2));
    match p2 {
        Prob::Val { num, den } => assert!(num < den),
        Prob::Undefined => panic!("estimate lost"),
    }

    let mut m2 = Model::new();
    let q0 = m2.probability(s.0, s.1);
    m2.fit(&traj, false);
    let q1 = m2.probability(s.0, s.1);
    m2.fit(&traj, false);
    let q2 = m2.probability(s.0, s.1);
    assert_eq!(m2.sample_count(s.0, s.1), 3);
    assert!(prob_less(q1, q0));
    assert!(prob_less(q2, q1));
    match q2 {
        Prob::Val { num, .. } => assert!(num > 0),
        Prob::Undefined => panic!("estimate lost"),
    }
}

#[test]
fn fit_update_is_exact_incremental_mean() {
    let mut m = Model::new();
    let s = ((2u8, 2u8), (1u8, 1u8));
    let before = m.probability(s.0, s.1);
    m.fit(&vec![s], true);
    let after = m.probability(s.0, s.1);
    match (before, after) {
        (Prob::Val { num: n0, den: d0 }, Prob::Val { num: n1, den: d1 }) => {
            assert_eq!(n1, n0 + SCALE);
            assert_eq!(d1, d0 + SCALE);
        }
        _ => panic!("defined cells expected"),
    }
}

#[test]
fn fit_keeps_boundary_cells_fixed() {
    let mut m = Model::new();
    m.fit(&vec![((0u8, 0u8), (2u8, 2u8))], false);
    assert_eq!(
        m.probability((0, 0), (2, 2)),
        Prob::Val { num: 0, den: 2 * SCALE }
    );
    assert_eq!(m.sample_count((0, 0), (2, 2)), 2);
    m.fit(&vec![((3u8, 0u8), (0u8, 0u8))], true);
    assert_eq!(
        m.probability((3, 0), (0, 0)),
        Prob::Val { num: 2 * SCALE, den: 2 * SCALE }
    );
}

#[test]
fn fit_updates_a_repeated_state_twice() {
    let mut m = Model::new();
    let s = ((1u8, 1u8), (2u8, 1u8));
    m.fit(&vec![s, ((2u8, 2u8), (3u8, 3u8)), s], true);
    assert_eq!(m.sample_count(s.0, s.1), 3);
    assert_eq!(m.sample_count((2, 2), (3, 3)), 2);
}

#[test]
fn fit_reversed_swaps_the_perspective() {
    let mut m = Model::new();
    m.fit_reversed(&vec![((1u8, 1u8), (0u8, 0u8))], false);
    assert_eq!(m.sample_count((0, 0), (1, 1)), 2);
    assert_eq!(m.sample_count((1, 1), (0, 0)), 1);
}

#[test]
fn moves_from_the_all_ones_state() {
    let h = (1u8, 1u8);
    let got = moves((h, (1, 1)));
    assert_eq!(
        got,
        vec![
            (h, (2, 1)),
            (h, (2, 1)),
            (h, (1, 2)),
            (h, (1, 2)),
            ((0, 2), (1, 1)),
        ]
    );
}

#[test]
fn moves_skip_dead_hands_and_reset_over_four() {
    let got = moves(((4, 4), (1, 0)));
    assert_eq!(got, vec![((4, 4), (0, 0)), ((4, 4), (0, 0))]);
}

#[test]
fn moves_of_a_dead_mover_are_empty() {
    assert_eq!(moves(((0, 0), (3, 2))), vec![]);
    assert_eq!(moves(((0, 0), (0, 0))), vec![]);
}

#[test]
fn predict_none_only_without_moves() {
    let m = Model::new();
    assert!(m.predict(((0, 0), (3, 2)), true).is_none());
    assert!(m.predict(((1, 1), (1, 1)), true).is_some());
    assert!(m.predict(((1, 1), (1, 1)), false).is_some());
}

#[test]
fn predict_returns_a_generated_move() {
    let m = Model::new();
    for _ in 0..20 {
        let s = ((2u8, 1u8), (3u8, 1u8));
        let got = m.predict(s, false).expect("a live state has moves");
        assert!(moves(s).contains(&got));
    }
}

#[test]
fn predict_reversed_round_trips() {
    let m = Model::new();
    let s = ((2u8, 1u8), (3u8, 4u8));
    let direct = m.predict(s, true);
    let reversed = m.predict_reversed((s.1, s.0), true);
    assert_eq!(reversed, direct.map(|(nh, na)| (na, nh)));
}

#[test]
fn predict_reversed_on_a_forced_line() {
    let m = Model::new();
    // input read as (away, home): home (1, 1) faces a dead opponent, whose
    // only successor is the redistribution to (0, 2)
    let got = m.predict_reversed(((0, 0), (1, 1)), true);
    assert_eq!(got, Some(((0, 0), (0, 2))));
}

#[test]
fn inference_never_stumbles_on_live_states() {
    let m = Model::new();
    let got = m.predict_reversed(((1, 1), (1, 1)), true);
    let ((a0, a1), (h0, h1)) = got.expect("a live state has moves");
    assert!(a0 <= 4 && a1 <= 4 && h0 <= 4 && h1 <= 4);
}

#[test]
fn self_play_terminates_and_grows_counts() {
    let (m0, m1, applied) = train(3);
    // short games never exhaust a sample counter or the ply ceiling
    assert_eq!(applied, 3);
    // the opening state is visited in every episode by both learners
    assert!(m0.sample_count((1, 1), (1, 1)) >= 4);
    assert!(m1.sample_count((1, 1), (1, 1)) >= 4);
    // boundary seeding survives training
    assert_eq!(m0.probability((0, 0), (0, 0)), Prob::Undefined);
    // so do the certain-loss and certain-win values
    match m0.probability((0, 0), (2, 1)) {
        Prob::Val { num, .. } => assert_eq!(num, 0),
        Prob::Undefined => panic!("certain-loss cell lost its value"),
    }
    match m0.probability((2, 1), (0, 0)) {
        Prob::Val { num, den } => assert_eq!(num, den),
        Prob::Undefined => panic!("certain-win cell lost its value"),
    }
}
