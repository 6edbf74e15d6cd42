//! The self-play training loop: two independently seeded models play
//! repeatedly from the all-ones opening, alternating at random who moves
//! first, and every finished game's full trajectory trains both models with
//! their own outcome labels — an every-visit Monte-Carlo estimator.

use vstd::prelude::*;

use crate::model::{
    boundary_ok, lemma_fit_preserves_boundary, lemma_visits_at_least_one,
    lemma_within_bounds_covers, same_cell, seed_ok, swap_states, traj_valid, Model,
};
use crate::moves::{lemma_contained_move_ok, lemma_moves_nonempty, state_valid, State};

verus! {

/// Hard ceiling on plies within one episode, far beyond any game length
/// seen in practice; an episode that somehow reached it would be abandoned
/// untrained instead of looping forever.
const PLY_CAP: u64 = 1000000;

/// The canonical opening state: both players hold one finger on each hand.
pub open spec fn opening() -> State {
    (((1u8, 1u8), (1u8, 1u8)))
}

/// Plays `episodes` games of self-play between two freshly seeded models
/// and returns the trained pair together with the number of episodes whose
/// updates were applied to both models. Each episode starts from the
/// opening, draws at random who moves first, and lets the models move in
/// turn under the exploring policy — the second model through the reversed
/// entry points, since the shared trajectory is recorded in the first
/// model's orientation. A game ends when one side's hands are both dead;
/// the full trajectory then trains both models, labelled won for the
/// survivor and lost for the dead side. The contract ties the training in:
/// the opening state, visited in every episode, gains at least one sample
/// per applied episode in each model, and the boundary shape of the
/// estimates — certain loss, certain win, strictly interior — survives all
/// training. An episode is left unapplied only when a sample counter has no
/// room (after some four billion visits of one cell) or at the ply ceiling.
pub fn train(episodes: u32) -> (r: (Model, Model, u32))
    ensures
        r.0.wf(),
        r.1.wf(),
        boundary_ok(r.0),
        boundary_ok(r.1),
        r.2 <= episodes,
        r.0.count_of(opening()) >= 1 + r.2,
        r.1.count_of(opening()) >= 1 + r.2,
{
    let mut model0 = Model::new();
    let mut model1 = Model::new();
    proof {
        assert(seed_ok(1, 1, 1, 1, model0.prob_cell(1, 1, 1, 1)));
        assert(seed_ok(1, 1, 1, 1, model1.prob_cell(1, 1, 1, 1)));
        assert(model0.count_of(opening()) == 1);
        assert(model1.count_of(opening()) == 1);
    }
    let mut applied: u32 = 0;
    let mut e: u32 = 0;
    while e < episodes
        invariant
            e <= episodes,
            applied <= e,
            model0.wf(),
            model1.wf(),
            boundary_ok(model0),
            boundary_ok(model1),
            model0.count_of(opening()) >= 1 + applied,
            model1.count_of(opening()) >= 1 + applied,
        decreases episodes - e,
    {
        let start: State = ((1, 1), (1, 1));
        let mut states: Vec<State> = Vec::new();
        states.push(start);
        let mut turn: bool = rand::random();
        let mut plies: u64 = 0;
        let mut finished: bool = false;
        let mut won0: bool = false;
        while plies < PLY_CAP
            invariant_except_break
                model0.wf(),
                model1.wf(),
                !finished,
                traj_valid(states@),
                states@.len() >= 1,
                states@[0] == opening(),
                forall|t: int|
                    0 <= t < states@.len() ==> ((#[trigger] states@[t]).0.0 > 0 || states@[t].0.1
                        > 0) && (states@[t].1.0 > 0 || states@[t].1.1 > 0),
            ensures
                traj_valid(states@),
                states@.len() >= 1,
                states@[0] == opening(),
                finished && won0 ==> forall|t: int|
                    0 <= t < states@.len() ==> (#[trigger] states@[t]).0.0 > 0 || states@[t].0.1
                        > 0,
                finished && !won0 ==> forall|t: int|
                    0 <= t < states@.len() ==> (#[trigger] states@[t]).1.0 > 0 || states@[t].1.1
                        > 0,
            decreases PLY_CAP - plies,
        {
            let cur = states[states.len() - 1];
            proof {
                assert(state_valid(states@[states@.len() - 1]));
            }
            let opt = if turn {
                model1.predict_reversed(cur, false)
            } else {
                model0.predict(cur, false)
            };
            proof {
                if turn {
                    lemma_moves_nonempty(((cur.1, cur.0)));
                } else {
                    lemma_moves_nonempty(cur);
                }
            }
            let next: State = match opt {
                Some(n) => n,
                None => {
                    proof {
                        assert(false);
                    }
                    ((0, 0), (0, 0))
                },
            };
            proof {
                if turn {
                    lemma_contained_move_ok(((cur.1, cur.0)), ((next.1, next.0)));
                } else {
                    lemma_contained_move_ok(cur, next);
                }
                assert(state_valid(next));
                // the mover's own pair stays live: a move only ever kills
                // opponent hands
                assert(turn ==> next.1.0 > 0 || next.1.1 > 0);
                assert(!turn ==> next.0.0 > 0 || next.0.1 > 0);
            }
            states.push(next);
            plies = plies + 1;
            proof {
                assert forall|t: int| 0 <= t < states@.len() - 1 implies ((
                #[trigger] states@[t]).0.0 > 0 || states@[t].0.1 > 0) && (states@[t].1.0 > 0
                    || states@[t].1.1 > 0) by {}
            }
            if next.0.0 == 0 && next.0.1 == 0 {
                // the first model's side is double dead: it lost
                finished = true;
                won0 = false;
                proof {
                    assert(next.1.0 > 0 || next.1.1 > 0);
                }
                break;
            }
            if next.1.0 == 0 && next.1.1 == 0 {
                // the second model's side is double dead: the first one won
                finished = true;
                won0 = true;
                proof {
                    assert(next.0.0 > 0 || next.0.1 > 0);
                }
                break;
            }
            turn = !turn;
        }
        if finished {
            let ghost pre0 = model0;
            let ghost pre1 = model1;
            let applied0 = model0.fit_checked(&states, won0);
            let applied1 = model1.fit_reversed_checked(&states, !won0);
            proof {
                assert(same_cell(states@[0], opening()));
                if applied0 {
                    lemma_within_bounds_covers(pre0, states@);
                    lemma_fit_preserves_boundary(pre0, model0, states@, won0);
                    lemma_visits_at_least_one(states@, 0, opening());
                    assert(model0.count_of(opening()) >= pre0.count_of(opening()) + 1);
                }
                if applied1 {
                    let sw = swap_states(states@);
                    assert(sw[0] == ((states@[0].1, states@[0].0)));
                    assert(sw[0] == opening());
                    assert forall|t: int| 0 <= t < sw.len() implies state_valid(
                        #[trigger] sw[t],
                    ) by {
                        assert(state_valid(states@[t]));
                        assert(sw[t] == ((states@[t].1, states@[t].0)));
                    }
                    assert forall|t: int|
                        0 <= t < sw.len() implies ((!won0 ==> (#[trigger] sw[t]).0.0 > 0
                        || sw[t].0.1 > 0) && (won0 ==> sw[t].1.0 > 0 || sw[t].1.1 > 0)) by {
                        assert(sw[t] == ((states@[t].1, states@[t].0)));
                    }
                    lemma_within_bounds_covers(pre1, sw);
                    lemma_fit_preserves_boundary(pre1, model1, sw, !won0);
                    lemma_visits_at_least_one(sw, 0, opening());
                    assert(same_cell(sw[0], opening()));
                    assert(model1.count_of(opening()) >= pre1.count_of(opening()) + 1);
                }
            }
            if applied0 && applied1 {
                applied = applied + 1;
            }
        }
        e = e + 1;
    }
    (model0, model1, applied)
}

} // verus!
