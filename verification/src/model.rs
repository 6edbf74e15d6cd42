//! The tabular value-estimation model: one symmetric-pair-table of
//! symmetric-pair-tables of win-probability estimates, and a structurally
//! identical one of sample counts, both keyed by (home hand pair, away hand
//! pair) with each level collapsed by symmetry. The model predicts moves by
//! ranking successors on their estimated win probability and learns by the
//! every-visit incremental-mean rule over finished trajectories.

use vstd::prelude::*;

use crate::moves::{
    lemma_moves_ok, move_ok, moves, pair_valid, spec_moves, state_valid, State,
};
use crate::prob::{cell_after_fit, den_of, lemma_fit_monotone, num_of, prob_lt, prob_lt_exec, Prob, SCALE};
use crate::table::{hi, lo, Commutative2DArray};

verus! {

/// A trained (or training) agent: win-probability estimates and the sample
/// counts behind them, per state cell.
pub struct Model {
    /// Estimated probability of the mover winning from each state cell.
    pub probabilities: Commutative2DArray<Commutative2DArray<Prob>>,
    /// How many trajectory visits back each estimate.
    pub sample_sizes: Commutative2DArray<Commutative2DArray<u32>>,
}

/// The probability cell a freshly seeded model holds for home pair
/// `{h0, h1}` against away pair `{a0, a1}`: the unreachable double-dead cell
/// is the undefined sentinel, all-home-dead cells are certain losses,
/// all-away-dead cells certain wins, and every other cell gets a random
/// estimate strictly inside (0, 1) over one sample.
pub open spec fn seed_ok(h0: int, h1: int, a0: int, a1: int, p: Prob) -> bool {
    if h0 == 0 && h1 == 0 {
        if a0 == 0 && a1 == 0 {
            p is Undefined
        } else {
            p == (Prob::Val { num: 0u64, den: SCALE })
        }
    } else if a0 == 0 && a1 == 0 {
        p == (Prob::Val { num: SCALE, den: SCALE })
    } else {
        p is Val && den_of(p) == SCALE && 0 < num_of(p) < SCALE
    }
}

/// The invariant of one cell: only the double-dead cell is undefined, and a
/// defined cell over `n` samples has denominator `SCALE * n` with the
/// numerator no greater (the estimate never leaves [0, 1]).
pub open spec fn cell_inv(p: Prob, n: u32, h0: int, h1: int, a0: int, a1: int) -> bool {
    if h0 == 0 && h1 == 0 && a0 == 0 && a1 == 0 {
        p is Undefined
    } else {
        p is Val && n >= 1 && den_of(p) == SCALE * n && num_of(p) <= den_of(p)
    }
}

/// Two states land on one table cell exactly when their hand pairs agree as
/// unordered pairs at both levels.
pub open spec fn same_cell(x: State, y: State) -> bool {
    hi(x.0.0 as int, x.0.1 as int) == hi(y.0.0 as int, y.0.1 as int) && lo(
        x.0.0 as int,
        x.0.1 as int,
    ) == lo(y.0.0 as int, y.0.1 as int) && hi(x.1.0 as int, x.1.1 as int) == hi(
        y.1.0 as int,
        y.1.1 as int,
    ) && lo(x.1.0 as int, x.1.1 as int) == lo(y.1.0 as int, y.1.1 as int)
}

/// How many states of a trajectory land on the cell of `c`.
pub open spec fn visits(traj: Seq<State>, c: State) -> int
    decreases traj.len(),
{
    if traj.len() == 0 {
        0
    } else {
        visits(traj.drop_last(), c) + if same_cell(traj.last(), c) {
            1int
        } else {
            0int
        }
    }
}

/// Every state of a trajectory is within range.
pub open spec fn traj_valid(traj: Seq<State>) -> bool {
    forall|k: int| 0 <= k < traj.len() ==> state_valid(#[trigger] traj[k])
}

/// A trajectory with each state's roles swapped.
pub open spec fn swap_states(traj: Seq<State>) -> Seq<State> {
    traj.map_values(|s: State| ((s.1, s.0)))
}

/// The exact condition under which the checked trainers apply their update:
/// every sample counter behind a visited cell has room for one update per
/// trajectory state. It implies the precise no-overflow bound of `fit`,
/// since a cell is visited at most once per trajectory state.
pub open spec fn fit_within_bounds(m: Model, traj: Seq<State>) -> bool {
    traj.len() <= u32::MAX && forall|k: int|
        0 <= k < traj.len() ==> m.count_of(#[trigger] traj[k]) + traj.len() <= u32::MAX
}

/// The boundary shape of one cell: an all-home-dead cell is a certain loss
/// (numerator 0), an all-away-dead cell a certain win (numerator equal to
/// its denominator), and every other defined cell lies strictly inside
/// (0, 1). The double-dead cell carries no value at all.
pub open spec fn boundary_cell_ok(p: Prob, h0: int, h1: int, a0: int, a1: int) -> bool {
    if h0 == 0 && h1 == 0 {
        (a0 == 0 && a1 == 0) || num_of(p) == 0
    } else if a0 == 0 && a1 == 0 {
        num_of(p) == den_of(p)
    } else {
        0 < num_of(p) < den_of(p)
    }
}

/// The boundary shape over the whole model: seeding establishes it and
/// self-play training preserves it, because a finished game only ever
/// charges a home-dead cell with a loss and an away-dead cell with a win.
pub open spec fn boundary_ok(m: Model) -> bool {
    forall|h0: int, h1: int, a0: int, a1: int|
        0 <= h0 < 5 && 0 <= h1 < 5 && 0 <= a0 < 5 && 0 <= a1 < 5 ==> boundary_cell_ok(
            #[trigger] m.prob_cell(h0, h1, a0, a1),
            h0,
            h1,
            a0,
            a1,
        )
}

impl Model {
    /// The probability cell for home pair `{h0, h1}` against `{a0, a1}`.
    pub open spec fn prob_cell(self, h0: int, h1: int, a0: int, a1: int) -> Prob {
        self.probabilities.spec_get(h0, h1).spec_get(a0, a1)
    }

    /// The sample count for home pair `{h0, h1}` against `{a0, a1}`.
    pub open spec fn count_cell(self, h0: int, h1: int, a0: int, a1: int) -> u32 {
        self.sample_sizes.spec_get(h0, h1).spec_get(a0, a1)
    }

    /// The probability cell a state's lookup resolves to.
    pub open spec fn prob_of(self, s: State) -> Prob {
        self.prob_cell(s.0.0 as int, s.0.1 as int, s.1.0 as int, s.1.1 as int)
    }

    /// The sample count a state's lookup resolves to.
    pub open spec fn count_of(self, s: State) -> u32 {
        self.count_cell(s.0.0 as int, s.0.1 as int, s.1.0 as int, s.1.1 as int)
    }

    /// Both tables are 5x5 triangles of 5x5 triangles and every cell obeys
    /// the cell invariant.
    pub open spec fn wf(self) -> bool {
        &&& self.probabilities.wf()
        &&& self.probabilities.size() == 5
        &&& self.sample_sizes.wf()
        &&& self.sample_sizes.size() == 5
        &&& forall|i: int, j: int|
            0 <= i < 5 && 0 <= j < 5 ==> (#[trigger] self.probabilities.spec_get(i, j)).wf()
                && self.probabilities.spec_get(i, j).size() == 5
        &&& forall|i: int, j: int|
            0 <= i < 5 && 0 <= j < 5 ==> (#[trigger] self.sample_sizes.spec_get(i, j)).wf()
                && self.sample_sizes.spec_get(i, j).size() == 5
        &&& forall|h0: int, h1: int, a0: int, a1: int|
            0 <= h0 < 5 && 0 <= h1 < 5 && 0 <= a0 < 5 && 0 <= a1 < 5 ==> cell_inv(
                #[trigger] self.prob_cell(h0, h1, a0, a1),
                self.count_cell(h0, h1, a0, a1),
                h0,
                h1,
                a0,
                a1,
            )
    }
}

/// One freshly seeded probability cell.
fn seed_prob(h0: u8, h1: u8, a0: u8, a1: u8) -> (p: Prob)
    ensures
        seed_ok(h0 as int, h1 as int, a0 as int, a1 as int, p),
{
    if h0 == 0 && h1 == 0 {
        if a0 == 0 && a1 == 0 {
            Prob::Undefined
        } else {
            Prob::Val { num: 0, den: SCALE }
        }
    } else if a0 == 0 && a1 == 0 {
        Prob::Val { num: SCALE, den: SCALE }
    } else {
        let x: u32 = rand::random();
        let num: u64 = 1 + (x as u64) % (SCALE - 1);
        Prob::Val { num, den: SCALE }
    }
}

/// The inner probability table of one home pair, freshly seeded.
fn seed_prob_inner(h0: u8, h1: u8) -> (t: Commutative2DArray<Prob>)
    ensures
        t.wf(),
        t.size() == 5,
        forall|a0: int, a1: int|
            0 <= a0 < 5 && 0 <= a1 < 5 ==> seed_ok(
                h0 as int,
                h1 as int,
                a0,
                a1,
                #[trigger] t.spec_get(a0, a1),
            ),
{
    let mut rows: Vec<Vec<Prob>> = Vec::new();
    let mut i: usize = 0;
    while i < 5
        invariant
            rows@.len() == i,
            i <= 5,
            forall|r: int| 0 <= r < i ==> #[trigger] rows@[r]@.len() == r + 1,
            forall|r: int, c: int|
                0 <= r < i && 0 <= c <= r ==> seed_ok(
                    h0 as int,
                    h1 as int,
                    r,
                    c,
                    #[trigger] rows@[r]@[c],
                ),
        decreases 5 - i,
    {
        let mut row: Vec<Prob> = Vec::new();
        let mut j: usize = 0;
        while j <= i
            invariant
                row@.len() == j,
                j <= i + 1,
                i < 5,
                forall|c: int|
                    0 <= c < j ==> seed_ok(h0 as int, h1 as int, i as int, c, #[trigger] row@[c]),
            decreases i + 1 - j,
        {
            row.push(seed_prob(h0, h1, i as u8, j as u8));
            j = j + 1;
        }
        rows.push(row);
        i = i + 1;
    }
    let t = Commutative2DArray::new(rows);
    proof {
        assert forall|a0: int, a1: int| 0 <= a0 < 5 && 0 <= a1 < 5 implies seed_ok(
            h0 as int,
            h1 as int,
            a0,
            a1,
            t.spec_get(a0, a1),
        ) by {
            assert(seed_ok(h0 as int, h1 as int, hi(a0, a1), lo(a0, a1), t.spec_get(a0, a1)));
        }
    }
    t
}

/// The inner sample-count table of one home pair: every count starts at 1,
/// so no boundary estimate is ever treated as absolutely certain by the
/// update arithmetic.
fn seed_count_inner() -> (t: Commutative2DArray<u32>)
    ensures
        t.wf(),
        t.size() == 5,
        forall|a0: int, a1: int| 0 <= a0 < 5 && 0 <= a1 < 5 ==> #[trigger] t.spec_get(a0, a1) == 1,
{
    let mut rows: Vec<Vec<u32>> = Vec::new();
    let mut i: usize = 0;
    while i < 5
        invariant
            rows@.len() == i,
            i <= 5,
            forall|r: int| 0 <= r < i ==> #[trigger] rows@[r]@.len() == r + 1,
            forall|r: int, c: int| 0 <= r < i && 0 <= c <= r ==> #[trigger] rows@[r]@[c] == 1u32,
        decreases 5 - i,
    {
        let mut row: Vec<u32> = Vec::new();
        let mut j: usize = 0;
        while j <= i
            invariant
                row@.len() == j,
                j <= i + 1,
                i < 5,
                forall|c: int| 0 <= c < j ==> #[trigger] row@[c] == 1u32,
            decreases i + 1 - j,
        {
            row.push(1);
            j = j + 1;
        }
        rows.push(row);
        i = i + 1;
    }
    Commutative2DArray::new(rows)
}

impl Model {
    /// A freshly seeded model: sample counts all 1, probabilities seeded by
    /// cell kind — undefined only at the unreachable double-dead cell, 0 for
    /// certain loss, 1 for certain win, and a random value strictly inside
    /// (0, 1) everywhere else.
    pub fn new() -> (m: Model)
        ensures
            m.wf(),
            boundary_ok(m),
            forall|h0: int, h1: int, a0: int, a1: int|
                0 <= h0 < 5 && 0 <= h1 < 5 && 0 <= a0 < 5 && 0 <= a1 < 5 ==> seed_ok(
                    h0,
                    h1,
                    a0,
                    a1,
                    #[trigger] m.prob_cell(h0, h1, a0, a1),
                ) && m.count_cell(h0, h1, a0, a1) == 1,
    {
        let mut prows: Vec<Vec<Commutative2DArray<Prob>>> = Vec::new();
        let mut crows: Vec<Vec<Commutative2DArray<u32>>> = Vec::new();
        let mut i: usize = 0;
        while i < 5
            invariant
                prows@.len() == i,
                crows@.len() == i,
                i <= 5,
                forall|r: int|
                    0 <= r < i ==> #[trigger] prows@[r]@.len() == r + 1 && crows@[r]@.len() == r
                        + 1,
                forall|r: int, c: int|
                    0 <= r < i && 0 <= c <= r ==> (#[trigger] prows@[r]@[c]).wf()
                        && prows@[r]@[c].size() == 5 && crows@[r]@[c].wf() && crows@[r]@[c].size()
                        == 5,
                forall|r: int, c: int, a0: int, a1: int|
                    0 <= r < i && 0 <= c <= r && 0 <= a0 < 5 && 0 <= a1 < 5 ==> seed_ok(
                        r,
                        c,
                        a0,
                        a1,
                        #[trigger] prows@[r]@[c].spec_get(a0, a1),
                    ),
                forall|r: int, c: int, a0: int, a1: int|
                    0 <= r < i && 0 <= c <= r && 0 <= a0 < 5 && 0 <= a1 < 5 ==> #[trigger] crows@[r]@[c].spec_get(a0, a1) == 1u32,
            decreases 5 - i,
        {
            let mut prow: Vec<Commutative2DArray<Prob>> = Vec::new();
            let mut crow: Vec<Commutative2DArray<u32>> = Vec::new();
            let mut j: usize = 0;
            while j <= i
                invariant
                    prow@.len() == j,
                    crow@.len() == j,
                    j <= i + 1,
                    i < 5,
                    forall|c: int|
                        0 <= c < j ==> (#[trigger] prow@[c]).wf() && prow@[c].size() == 5
                            && crow@[c].wf() && crow@[c].size() == 5,
                    forall|c: int, a0: int, a1: int|
                        0 <= c < j && 0 <= a0 < 5 && 0 <= a1 < 5 ==> seed_ok(
                            i as int,
                            c,
                            a0,
                            a1,
                            #[trigger] prow@[c].spec_get(a0, a1),
                        ),
                    forall|c: int, a0: int, a1: int|
                        0 <= c < j && 0 <= a0 < 5 && 0 <= a1 < 5 ==> #[trigger] crow@[c].spec_get(a0, a1) == 1u32,
                decreases i + 1 - j,
            {
                let pt = seed_prob_inner(i as u8, j as u8);
                let ct = seed_count_inner();
                prow.push(pt);
                crow.push(ct);
                proof {
                    assert forall|c: int| 0 <= c < j + 1 implies (#[trigger] prow@[c]).wf()
                        && prow@[c].size() == 5 && crow@[c].wf() && crow@[c].size() == 5 by {
                        if c == j {
                            assert(prow@[c] == pt);
                            assert(crow@[c] == ct);
                        }
                    }
                }
                j = j + 1;
            }
            prows.push(prow);
            crows.push(crow);
            proof {
                assert forall|r: int, c: int| 0 <= r < i + 1 && 0 <= c <= r implies (
                #[trigger] prows@[r]@[c]).wf() && prows@[r]@[c].size() == 5 && crows@[r]@[c].wf()
                    && crows@[r]@[c].size() == 5 by {
                    if r == i {
                        assert(prows@[r]@[c] == prow@[c]);
                        assert(crows@[r]@[c] == crow@[c]);
                        assert((prow@[c]).wf() && prow@[c].size() == 5 && crow@[c].wf() && crow@[
                            c
                        ].size() == 5);
                    }
                }
            }
            i = i + 1;
        }
        proof {
            assert forall|r: int| 0 <= r < 5 implies #[trigger] crows@[r]@.len() == r + 1 by {
                assert(prows@[r]@.len() == r + 1);
            }
        }
        let m = Model {
            probabilities: Commutative2DArray::new(prows),
            sample_sizes: Commutative2DArray::new(crows),
        };
        proof {
            assert forall|i2: int, j2: int| 0 <= i2 < 5 && 0 <= j2 < 5 implies {
                &&& (m.probabilities.spec_get(i2, j2)).wf()
                &&& m.probabilities.spec_get(i2, j2).size() == 5
                &&& (m.sample_sizes.spec_get(i2, j2)).wf()
                &&& m.sample_sizes.spec_get(i2, j2).size() == 5
            } by {
                assert((prows@[hi(i2, j2)]@[lo(i2, j2)]).wf());
                assert((crows@[hi(i2, j2)]@[lo(i2, j2)]).wf());
            }
            assert forall|h0: int, h1: int, a0: int, a1: int|
                0 <= h0 < 5 && 0 <= h1 < 5 && 0 <= a0 < 5 && 0 <= a1 < 5 implies seed_ok(
                h0,
                h1,
                a0,
                a1,
                m.prob_cell(h0, h1, a0, a1),
            ) && m.count_cell(h0, h1, a0, a1) == 1 by {
                assert(m.prob_cell(h0, h1, a0, a1) == prows@[hi(h0, h1)]@[lo(h0, h1)].spec_get(
                    a0,
                    a1,
                ));
                assert(seed_ok(
                    hi(h0, h1),
                    lo(h0, h1),
                    hi(a0, a1),
                    lo(a0, a1),
                    prows@[hi(h0, h1)]@[lo(h0, h1)].spec_get(hi(a0, a1), lo(a0, a1)),
                ));
                assert(crows@[hi(h0, h1)]@[lo(h0, h1)].spec_get(a0, a1) == 1u32);
            }
            assert forall|h0: int, h1: int, a0: int, a1: int|
                0 <= h0 < 5 && 0 <= h1 < 5 && 0 <= a0 < 5 && 0 <= a1 < 5 implies cell_inv(
                m.prob_cell(h0, h1, a0, a1),
                m.count_cell(h0, h1, a0, a1),
                h0,
                h1,
                a0,
                a1,
            ) by {
                assert(seed_ok(h0, h1, a0, a1, m.prob_cell(h0, h1, a0, a1)));
                assert(m.count_cell(h0, h1, a0, a1) == 1);
            }
            assert forall|h0: int, h1: int, a0: int, a1: int|
                0 <= h0 < 5 && 0 <= h1 < 5 && 0 <= a0 < 5 && 0 <= a1 < 5 implies boundary_cell_ok(
                m.prob_cell(h0, h1, a0, a1),
                h0,
                h1,
                a0,
                a1,
            ) by {
                assert(seed_ok(h0, h1, a0, a1, m.prob_cell(h0, h1, a0, a1)));
            }
        }
        m
    }
}

/// Law: the model's statistics treat `(x, y)` and `(y, x)` as one cell at
/// both nesting levels — swapping the hands within the home pair, the away
/// pair, or both, reads the very same probability and sample count.
pub proof fn lemma_model_symmetric(m: Model, h0: int, h1: int, a0: int, a1: int)
    ensures
        m.prob_cell(h0, h1, a0, a1) == m.prob_cell(h1, h0, a0, a1),
        m.prob_cell(h0, h1, a0, a1) == m.prob_cell(h0, h1, a1, a0),
        m.prob_cell(h0, h1, a0, a1) == m.prob_cell(h1, h0, a1, a0),
        m.count_cell(h0, h1, a0, a1) == m.count_cell(h1, h0, a0, a1),
        m.count_cell(h0, h1, a0, a1) == m.count_cell(h0, h1, a1, a0),
        m.count_cell(h0, h1, a0, a1) == m.count_cell(h1, h0, a1, a0),
{
}

/// Acceptance threshold of the exploration policy: a fresh uniform `u32`
/// draw below six tenths of the range accepts the candidate under
/// consideration.
pub const ACCEPT_THRESHOLD: u32 = 2576980378;

impl Model {
    /// A generated candidate's cell is always defined: move generation never
    /// yields the double-dead state.
    proof fn lemma_candidate_defined(self, m: State)
        requires
            self.wf(),
            move_ok(m),
        ensures
            self.prob_of(m) is Val,
    {
        assert(cell_inv(
            self.prob_cell(m.0.0 as int, m.0.1 as int, m.1.0 as int, m.1.1 as int),
            self.count_cell(m.0.0 as int, m.0.1 as int, m.1.0 as int, m.1.1 as int),
            m.0.0 as int,
            m.0.1 as int,
            m.1.0 as int,
            m.1.1 as int,
        ));
    }

    /// Reads the estimate behind a state's cell.
    fn prob_lookup(&self, s: State) -> (p: Prob)
        requires
            self.wf(),
            state_valid(s),
        ensures
            p == self.prob_of(s),
    {
        *self.probabilities.get(s.0.0 as usize, s.0.1 as usize).get(
            s.1.0 as usize,
            s.1.1 as usize,
        )
    }

    /// The greedy scan's choice among the first `k` candidates: the earliest
    /// one whose estimated win probability no later candidate of the prefix
    /// strictly exceeds.
    pub open spec fn best_prefix(self, ms: Seq<State>, k: int) -> State
        decreases k,
    {
        if k <= 1 {
            ms[0]
        } else if prob_lt(self.prob_of(self.best_prefix(ms, k - 1)), self.prob_of(ms[k - 1])) {
            ms[k - 1]
        } else {
            self.best_prefix(ms, k - 1)
        }
    }

    /// The deterministic (greedy) choice for the mover of `state`: the
    /// earliest best-ranked candidate, or nothing when no legal move exists.
    pub open spec fn spec_predict_det(self, state: State) -> Option<State> {
        if spec_moves(state).len() == 0 {
            None
        } else {
            Some(self.best_prefix(spec_moves(state), spec_moves(state).len() as int))
        }
    }

    /// The deterministic choice computed for the opponent: swap the roles,
    /// choose, and swap the chosen successor back.
    pub open spec fn spec_predict_rev(self, state: State) -> Option<State> {
        match self.spec_predict_det(((state.1, state.0))) {
            None => None,
            Some(m) => Some(((m.1, m.0))),
        }
    }

    /// The index the greedy scan settles on among the first `k` candidates:
    /// the earliest one whose estimate no later candidate of the prefix
    /// strictly exceeds.
    pub open spec fn best_index_prefix(self, ms: Seq<State>, k: int) -> int
        decreases k,
    {
        if k <= 1 {
            0
        } else if prob_lt(
            self.prob_of(ms[self.best_index_prefix(ms, k - 1)]),
            self.prob_of(ms[k - 1]),
        ) {
            k - 1
        } else {
            self.best_index_prefix(ms, k - 1)
        }
    }

    /// The greedy scan settles on an index of the scanned prefix.
    pub proof fn lemma_best_index_in_range(self, ms: Seq<State>, k: int)
        requires
            1 <= k,
        ensures
            0 <= self.best_index_prefix(ms, k) < k,
        decreases k,
    {
        if k > 1 {
            self.lemma_best_index_in_range(ms, k - 1);
        }
    }

    /// The exploration policy over given draws: walk the candidates from
    /// best to worst — best-ranked first, ties to the earlier candidate —
    /// accepting the candidate under consideration exactly when its fresh
    /// uniform draw falls below the fixed 0.6 threshold, independently of
    /// any win-probability gap; when every draw rejects, the worst-ranked
    /// candidate stands as the fallback.
    pub open spec fn spec_select(self, cands: Seq<State>, draws: Seq<u32>) -> State
        decreases cands.len(),
    {
        if cands.len() <= 1 {
            cands[0]
        } else if draws.len() > 0 && draws[0] < ACCEPT_THRESHOLD {
            cands[self.best_index_prefix(cands, cands.len() as int)]
        } else {
            proof {
                self.lemma_best_index_in_range(cands, cands.len() as int);
            }
            self.spec_select(
                cands.remove(self.best_index_prefix(cands, cands.len() as int)),
                draws.skip(1),
            )
        }
    }

    /// Chooses a successor state for the mover of `state`, or nothing
    /// exactly when no legal move exists. Deterministically the earliest
    /// best-ranked candidate is returned; otherwise the candidates are
    /// walked from best to worst, each accepted with fixed probability 0.6
    /// on a fresh uniform draw, the worst-ranked one standing as fallback
    /// when every draw rejects. Whatever the draws, the result is one of the
    /// generated legal moves.
    pub fn predict(&self, state: State, deterministic: bool) -> (r: Option<State>)
        requires
            self.wf(),
            state_valid(state),
        ensures
            r.is_some() <==> spec_moves(state).len() > 0,
            r.is_some() ==> spec_moves(state).contains(r.unwrap()),
            deterministic ==> r == self.spec_predict_det(state),
            !deterministic && spec_moves(state).len() > 0 ==> exists|ds: Seq<u32>|
                r == Some(self.spec_select(spec_moves(state), ds)),
    {
        let mut cands = moves(state);
        proof {
            lemma_moves_ok(state);
        }
        if cands.len() == 0 {
            return None;
        }
        if deterministic {
            let mut best: State = cands[0];
            let mut k: usize = 1;
            proof {
                assert(spec_moves(state).contains(best)) by {
                    assert(spec_moves(state)[0] == best);
                }
                assert(move_ok(spec_moves(state)[0]));
            }
            while k < cands.len()
                invariant
                    self.wf(),
                    state_valid(state),
                    cands@ == spec_moves(state),
                    1 <= k <= cands@.len(),
                    best == self.best_prefix(cands@, k as int),
                    spec_moves(state).contains(best),
                    move_ok(best),
                decreases cands@.len() - k,
            {
                proof {
                    lemma_moves_ok(state);
                    assert(move_ok(spec_moves(state)[k as int]));
                    self.lemma_candidate_defined(best);
                    self.lemma_candidate_defined(cands@[k as int]);
                }
                let pb = self.prob_lookup(best);
                let pk = self.prob_lookup(cands[k]);
                if prob_lt_exec(&pb, &pk) {
                    best = cands[k];
                    proof {
                        assert(spec_moves(state).contains(best)) by {
                            assert(spec_moves(state)[k as int] == best);
                        }
                    }
                }
                k = k + 1;
            }
            Some(best)
        } else {
            let ghost mut dpast: Seq<u32> = Seq::empty();
            proof {
                assert forall|t: int| 0 <= t < cands@.len() implies spec_moves(state).contains(
                    #[trigger] cands@[t],
                ) && move_ok(cands@[t]) by {
                    assert(spec_moves(state)[t] == cands@[t]);
                }
                assert forall|rest: Seq<u32>|
                    self.spec_select(spec_moves(state), dpast + rest) == #[trigger] self
                        .spec_select(cands@, rest) by {
                    assert(dpast + rest =~= rest);
                }
            }
            while cands.len() > 1
                invariant
                    self.wf(),
                    state_valid(state),
                    !deterministic,
                    spec_moves(state).len() > 0,
                    1 <= cands@.len(),
                    forall|t: int|
                        0 <= t < cands@.len() ==> spec_moves(state).contains(#[trigger] cands@[t])
                            && move_ok(cands@[t]),
                    forall|rest: Seq<u32>|
                        self.spec_select(spec_moves(state), dpast + rest) == #[trigger] self
                            .spec_select(cands@, rest),
                decreases cands@.len(),
            {
                let mut bi: usize = 0;
                let mut k2: usize = 1;
                while k2 < cands.len()
                    invariant
                        self.wf(),
                        state_valid(state),
                        bi < cands@.len(),
                        1 <= k2 <= cands@.len(),
                        bi as int == self.best_index_prefix(cands@, k2 as int),
                        forall|t: int|
                            0 <= t < cands@.len() ==> spec_moves(state).contains(
                                #[trigger] cands@[t],
                            ) && move_ok(cands@[t]),
                    decreases cands@.len() - k2,
                {
                    proof {
                        self.lemma_candidate_defined(cands@[bi as int]);
                        self.lemma_candidate_defined(cands@[k2 as int]);
                    }
                    let pb = self.prob_lookup(cands[bi]);
                    let pk = self.prob_lookup(cands[k2]);
                    if prob_lt_exec(&pb, &pk) {
                        bi = k2;
                    }
                    k2 = k2 + 1;
                }
                let x: u32 = rand::random();
                let ghost prev = cands@;
                let ghost dprev = dpast;
                if x < ACCEPT_THRESHOLD {
                    proof {
                        let ds = dprev.push(x);
                        assert(ds =~= dprev + seq![x]);
                        assert(self.spec_select(spec_moves(state), dprev + seq![x]) == self
                            .spec_select(prev, seq![x]));
                        assert(self.spec_select(prev, seq![x]) == prev[bi as int]);
                        assert(Some(prev[bi as int]) == Some(
                            self.spec_select(spec_moves(state), ds),
                        ));
                    }
                    return Some(cands[bi]);
                }
                cands.remove(bi);
                proof {
                    dpast = dprev.push(x);
                    assert forall|rest: Seq<u32>|
                        self.spec_select(spec_moves(state), dpast + rest) == #[trigger] self
                            .spec_select(cands@, rest) by {
                        let mid = seq![x] + rest;
                        assert(dpast + rest =~= dprev + mid);
                        assert(self.spec_select(spec_moves(state), dprev + mid) == self
                            .spec_select(prev, mid));
                        assert(mid.len() > 0 && mid[0] == x);
                        assert(self.spec_select(prev, mid) == self.spec_select(
                            prev.remove(bi as int),
                            mid.skip(1),
                        ));
                        assert(mid.skip(1) =~= rest);
                        assert(prev.remove(bi as int) =~= cands@);
                    }
                }
            }
            proof {
                assert(dpast + Seq::<u32>::empty() =~= dpast);
                assert(self.spec_select(spec_moves(state), dpast) == self.spec_select(
                    cands@,
                    Seq::<u32>::empty(),
                ));
                assert(self.spec_select(cands@, Seq::<u32>::empty()) == cands@[0]);
            }
            Some(cands[0])
        }
    }

    /// Answers for the opponent of the stored orientation: the input is read
    /// with the roles swapped, the decision is made for the swapped state,
    /// and the chosen successor is handed back in the input's orientation.
    pub fn predict_reversed(&self, state: State, deterministic: bool) -> (r: Option<State>)
        requires
            self.wf(),
            state_valid(state),
        ensures
            r.is_some() <==> spec_moves(((state.1, state.0))).len() > 0,
            r.is_some() ==> spec_moves(((state.1, state.0))).contains(
                ((r.unwrap().1, r.unwrap().0)),
            ),
            deterministic ==> r == self.spec_predict_rev(state),
            !deterministic && spec_moves(((state.1, state.0))).len() > 0 ==> exists|ds: Seq<u32>|
                ((r.unwrap().1, r.unwrap().0)) == self.spec_select(
                    spec_moves(((state.1, state.0))),
                    ds,
                ),
    {
        match self.predict((state.1, state.0), deterministic) {
            None => None,
            Some(n) => {
                proof {
                    if !deterministic {
                        let ds = choose|ds: Seq<u32>|
                            Some(n) == Some(
                                self.spec_select(spec_moves(((state.1, state.0))), ds),
                            );
                        assert(n == self.spec_select(spec_moves(((state.1, state.0))), ds));
                    }
                }
                Some((n.1, n.0))
            },
        }
    }
}

/// Law: reversing twice is the identity on the decision — for every model
/// and state, the reversed prediction of the role-swapped state is exactly
/// the role-swapped greedy prediction of the state itself, while the table
/// contents are untouched.
pub proof fn lemma_predict_reversed_roundtrip(m: Model, s: State)
    ensures
        m.spec_predict_rev(((s.1, s.0))) == (match m.spec_predict_det(s) {
            None => None::<State>,
            Some(t) => Some(((t.1, t.0))),
        }),
{
    assert((((s.1, s.0)).1, ((s.1, s.0)).0) == s);
}

/// Visit counts are bounded by the trajectory's length.
pub proof fn lemma_visits_le_len(traj: Seq<State>, c: State)
    ensures
        0 <= visits(traj, c) <= traj.len(),
    decreases traj.len(),
{
    if traj.len() == 0 {
    } else {
        lemma_visits_le_len(traj.drop_last(), c);
    }
}

/// Appending one state to a trajectory raises the visit count of exactly
/// the cell that state lands on.
pub proof fn lemma_visits_take_step(traj: Seq<State>, k: int, c: State)
    requires
        0 <= k < traj.len(),
    ensures
        visits(traj.take(k + 1), c) == visits(traj.take(k), c) + if same_cell(traj[k], c) {
            1int
        } else {
            0int
        },
{
    assert(traj.take(k + 1).drop_last() =~= traj.take(k));
    assert(traj.take(k + 1).last() == traj[k]);
}

/// A prefix of a trajectory visits any cell at most as often as the whole.
pub proof fn lemma_visits_take_le(traj: Seq<State>, k: int, c: State)
    requires
        0 <= k <= traj.len(),
    ensures
        visits(traj.take(k), c) <= visits(traj, c),
    decreases traj.len() - k,
{
    if k == traj.len() {
        assert(traj.take(k) =~= traj);
    } else {
        lemma_visits_take_step(traj, k, c);
        lemma_visits_take_le(traj, k + 1, c);
    }
}

/// `fit_within_bounds` implies the precise no-overflow bound that `fit`
/// demands: a visited cell is the cell of some trajectory state, whose
/// counter was checked, and its visits never exceed the trajectory length.
pub proof fn lemma_within_bounds_covers(m: Model, traj: Seq<State>)
    requires
        fit_within_bounds(m, traj),
    ensures
        forall|c: State|
            state_valid(c) ==> m.count_of(c) + #[trigger] visits(traj, c) <= u32::MAX,
{
    assert forall|c: State| state_valid(c) implies m.count_of(c) + visits(traj, c)
        <= u32::MAX by {
        lemma_visits_le_len(traj, c);
        if visits(traj, c) > 0 {
            lemma_visits_witness(traj, c);
            let t = choose|t: int| 0 <= t < traj.len() && same_cell(#[trigger] traj[t], c);
            assert(m.count_of(traj[t]) + traj.len() <= u32::MAX);
            assert(m.count_of(c) == m.count_of(traj[t]));
        }
    }
}

/// A trajectory visits the cell of each of its own states at least once.
pub proof fn lemma_visits_at_least_one(traj: Seq<State>, k: int, c: State)
    requires
        0 <= k < traj.len(),
        same_cell(traj[k], c),
    ensures
        visits(traj, c) >= 1,
{
    lemma_visits_le_len(traj.take(k), c);
    lemma_visits_take_step(traj, k, c);
    lemma_visits_take_le(traj, k + 1, c);
}

/// A cell that is visited at all is the cell of some trajectory state.
pub proof fn lemma_visits_witness(traj: Seq<State>, c: State)
    requires
        visits(traj, c) > 0,
    ensures
        exists|k: int| 0 <= k < traj.len() && same_cell(#[trigger] traj[k], c),
    decreases traj.len(),
{
    if traj.len() == 0 {
    } else if same_cell(traj.last(), c) {
        assert(traj[traj.len() - 1] == traj.last());
    } else {
        lemma_visits_witness(traj.drop_last(), c);
        let k = choose|k: int|
            0 <= k < traj.drop_last().len() && same_cell(#[trigger] traj.drop_last()[k], c);
        assert(traj[k] == traj.drop_last()[k]);
    }
}

impl Model {
    /// Applies one every-visit update to the cell of `s`: the sample count
    /// grows by one and the estimate takes one incremental-mean step toward
    /// the outcome; every other cell is untouched.
    fn bump_cell(&mut self, s: State, won: bool)
        requires
            old(self).wf(),
            state_valid(s),
            old(self).count_of(s) < u32::MAX,
        ensures
            final(self).wf(),
            forall|c: State|
                state_valid(c) && #[trigger] same_cell(s, c) ==> final(self).count_of(c) == old(
                    self,
                ).count_of(c) + 1 && final(self).prob_of(c) == cell_after_fit(
                    old(self).prob_of(c),
                    won,
                    1,
                ),
            forall|c: State|
                state_valid(c) && !#[trigger] same_cell(s, c) ==> final(self).count_of(c) == old(
                    self,
                ).count_of(c) && final(self).prob_of(c) == old(self).prob_of(c),
    {
        let h0 = s.0.0 as usize;
        let h1 = s.0.1 as usize;
        let a0 = s.1.0 as usize;
        let a1 = s.1.1 as usize;
        let n: u32 = *self.sample_sizes.get(h0, h1).get(a0, a1);
        let pcell: Prob = *self.probabilities.get(h0, h1).get(a0, a1);
        proof {
            assert(cell_inv(
                self.prob_cell(h0 as int, h1 as int, a0 as int, a1 as int),
                self.count_cell(h0 as int, h1 as int, a0 as int, a1 as int),
                h0 as int,
                h1 as int,
                a0 as int,
                a1 as int,
            ));
            assert(SCALE as int * (n as int + 1) <= SCALE as int * u32::MAX as int)
                by (nonlinear_arith)
                requires
                    n < u32::MAX,
            ;
        }
        let newp: Prob = match pcell {
            Prob::Undefined => Prob::Undefined,
            Prob::Val { num, den } => Prob::Val {
                num: if won {
                    num + SCALE
                } else {
                    num
                },
                den: den + SCALE,
            },
        };
        let placeholder_counts: Commutative2DArray<u32> = Commutative2DArray::new(Vec::new());
        let mut inner_counts = self.sample_sizes.replace(h0, h1, placeholder_counts);
        inner_counts.replace(a0, a1, n + 1);
        self.sample_sizes.replace(h0, h1, inner_counts);
        let placeholder_probs: Commutative2DArray<Prob> = Commutative2DArray::new(Vec::new());
        let mut inner_probs = self.probabilities.replace(h0, h1, placeholder_probs);
        inner_probs.replace(a0, a1, newp);
        self.probabilities.replace(h0, h1, inner_probs);
        proof {
            let sh0 = s.0.0 as int;
            let sh1 = s.0.1 as int;
            let sa0 = s.1.0 as int;
            let sa1 = s.1.1 as int;
            assert forall|c: State| state_valid(c) && #[trigger] same_cell(s, c) implies self
                .count_of(c) == old(self).count_of(c) + 1 && self.prob_of(c) == cell_after_fit(
                old(self).prob_of(c),
                won,
                1,
            ) by {
                assert(self.count_of(c) == n + 1);
                assert(old(self).count_of(c) == n);
                assert(self.prob_of(c) == newp);
                assert(old(self).prob_of(c) == pcell);
            }
            assert forall|c: State| state_valid(c) && !#[trigger] same_cell(s, c) implies self
                .count_of(c) == old(self).count_of(c) && self.prob_of(c) == old(self).prob_of(
                c,
            ) by {
                let ch0 = c.0.0 as int;
                let ch1 = c.0.1 as int;
                let ca0 = c.1.0 as int;
                let ca1 = c.1.1 as int;
                if hi(ch0, ch1) == hi(sh0, sh1) && lo(ch0, ch1) == lo(sh0, sh1) {
                    assert(!(hi(ca0, ca1) == hi(sa0, sa1) && lo(ca0, ca1) == lo(sa0, sa1)));
                }
            }
            assert forall|h0i: int, h1i: int, a0i: int, a1i: int|
                0 <= h0i < 5 && 0 <= h1i < 5 && 0 <= a0i < 5 && 0 <= a1i < 5 implies cell_inv(
                self.prob_cell(h0i, h1i, a0i, a1i),
                self.count_cell(h0i, h1i, a0i, a1i),
                h0i,
                h1i,
                a0i,
                a1i,
            ) by {
                assert(cell_inv(
                    old(self).prob_cell(h0i, h1i, a0i, a1i),
                    old(self).count_cell(h0i, h1i, a0i, a1i),
                    h0i,
                    h1i,
                    a0i,
                    a1i,
                ));
            }
        }
    }

    /// Applies the every-visit incremental-mean update for one finished
    /// trajectory under the shared outcome `won`: every visited cell's
    /// sample count grows by its number of visits and its estimate moves by
    /// `p' = (p * n + [won]) / (n + 1)` once per visit, exactly, over the
    /// scaled rational representation. A state visited twice is updated
    /// twice. Counts beyond `u32::MAX` cannot be represented, so such
    /// trajectories are excluded by contract, as is any out-of-range hand.
    pub fn fit(&mut self, states: &Vec<State>, won: bool)
        requires
            old(self).wf(),
            traj_valid(states@),
            forall|c: State|
                state_valid(c) ==> old(self).count_of(c) + #[trigger] visits(states@, c)
                    <= u32::MAX,
        ensures
            final(self).wf(),
            forall|c: State|
                state_valid(c) ==> final(self).count_of(c) == old(self).count_of(c)
                    + #[trigger] visits(states@, c),
            forall|c: State|
                state_valid(c) ==> final(self).prob_of(c) == cell_after_fit(
                    old(self).prob_of(c),
                    won,
                    #[trigger] visits(states@, c),
                ),
    {
        proof {
            assert forall|c: State| state_valid(c) implies self.count_of(c) == old(self).count_of(
                c,
            ) + visits(states@.take(0), c) && self.prob_of(c) == cell_after_fit(
                old(self).prob_of(c),
                won,
                visits(states@.take(0), c),
            ) by {
                assert(states@.take(0) =~= Seq::<State>::empty());
                assert(visits(states@.take(0), c) == 0);
            }
        }
        let mut k: usize = 0;
        while k < states.len()
            invariant
                old(self).wf(),
                traj_valid(states@),
                forall|c: State|
                    state_valid(c) ==> old(self).count_of(c) + #[trigger] visits(states@, c)
                        <= u32::MAX,
                0 <= k <= states@.len(),
                self.wf(),
                forall|c: State|
                    state_valid(c) ==> self.count_of(c) == old(self).count_of(c)
                        + #[trigger] visits(states@.take(k as int), c),
                forall|c: State|
                    state_valid(c) ==> self.prob_of(c) == cell_after_fit(
                        old(self).prob_of(c),
                        won,
                        #[trigger] visits(states@.take(k as int), c),
                    ),
            decreases states@.len() - k,
        {
            let s = states[k];
            proof {
                assert(state_valid(states@[k as int]));
                lemma_visits_take_step(states@, k as int, s);
                lemma_visits_take_le(states@, k as int + 1, s);
                lemma_visits_le_len(states@.take(k as int), s);
                assert(same_cell(s, s));
                assert(self.count_of(s) < u32::MAX);
            }
            self.bump_cell(s, won);
            proof {
                let t = states@;
                let kk = k as int;
                assert forall|c: State| state_valid(c) implies self.count_of(c) == old(
                    self,
                ).count_of(c) + visits(t.take(kk + 1), c) && self.prob_of(c) == cell_after_fit(
                    old(self).prob_of(c),
                    won,
                    visits(t.take(kk + 1), c),
                ) by {
                    lemma_visits_take_step(t, kk, c);
                    lemma_visits_le_len(t.take(kk), c);
                    lemma_visits_take_le(t, kk + 1, c);
                    if same_cell(s, c) {
                        assert(visits(t.take(kk + 1), c) == visits(t.take(kk), c) + 1);
                    } else {
                        assert(visits(t.take(kk + 1), c) == visits(t.take(kk), c));
                    }
                }
            }
            k = k + 1;
        }
        proof {
            assert(states@.take(states@.len() as int) =~= states@);
        }
    }
}


/// A copy of the trajectory with every state\'s roles swapped.
fn swapped(states: &Vec<State>) -> (sw: Vec<State>)
    requires
        traj_valid(states@),
    ensures
        sw@ == swap_states(states@),
        traj_valid(sw@),
{
    let mut sw: Vec<State> = Vec::new();
    let mut k: usize = 0;
    while k < states.len()
        invariant
            traj_valid(states@),
            0 <= k <= states@.len(),
            sw@.len() == k,
            forall|t: int| 0 <= t < k ==> #[trigger] sw@[t] == ((states@[t].1, states@[t].0)),
        decreases states@.len() - k,
    {
        let s = states[k];
        sw.push((s.1, s.0));
        k = k + 1;
    }
    proof {
        assert(sw@ =~= swap_states(states@));
        assert forall|t: int| 0 <= t < sw@.len() implies state_valid(#[trigger] sw@[t]) by {
            assert(state_valid(states@[t]));
        }
    }
    sw
}

impl Model {
    /// Applies `fit` to the trajectory with every state\'s roles swapped,
    /// so that the model — whose tables always read from its own
    /// perspective — can learn from a game recorded in the opposite
    /// orientation.
    pub fn fit_reversed(&mut self, states: &Vec<State>, won: bool)
        requires
            old(self).wf(),
            traj_valid(states@),
            forall|c: State|
                state_valid(c) ==> old(self).count_of(c) + #[trigger] visits(
                    swap_states(states@),
                    c,
                ) <= u32::MAX,
        ensures
            final(self).wf(),
            forall|c: State|
                state_valid(c) ==> final(self).count_of(c) == old(self).count_of(c)
                    + #[trigger] visits(swap_states(states@), c),
            forall|c: State|
                state_valid(c) ==> final(self).prob_of(c) == cell_after_fit(
                    old(self).prob_of(c),
                    won,
                    #[trigger] visits(swap_states(states@), c),
                ),
    {
        let sw = swapped(states);
        self.fit(&sw, won);
    }

    /// Decides `fit_within_bounds`: true exactly when every sample counter
    /// behind a visited cell has room for one update per trajectory state.
    fn fit_fits(&self, states: &Vec<State>) -> (ok: bool)
        requires
            self.wf(),
            traj_valid(states@),
        ensures
            ok == fit_within_bounds(*self, states@),
            ok ==> forall|c: State|
                state_valid(c) ==> self.count_of(c) + #[trigger] visits(states@, c) <= u32::MAX,
    {
        let len = states.len();
        if len as u64 > u32::MAX as u64 {
            return false;
        }
        let mut k: usize = 0;
        while k < len
            invariant
                self.wf(),
                traj_valid(states@),
                len == states@.len(),
                len <= u32::MAX,
                0 <= k <= len,
                forall|t: int|
                    0 <= t < k ==> (#[trigger] self.count_of(states@[t])) + states@.len()
                        <= u32::MAX,
            decreases len - k,
        {
            let s = states[k];
            proof {
                assert(state_valid(states@[k as int]));
            }
            let n: u32 = *self.sample_sizes.get(s.0.0 as usize, s.0.1 as usize).get(
                s.1.0 as usize,
                s.1.1 as usize,
            );
            if !((n as u64) + (len as u64) <= u32::MAX as u64) {
                proof {
                    assert(self.count_of(states@[k as int]) + states@.len() > u32::MAX);
                }
                return false;
            }
            k = k + 1;
        }
        proof {
            lemma_within_bounds_covers(*self, states@);
        }
        true
    }

    /// Runs `fit` when, and only when, `fit_within_bounds` holds of the
    /// model and trajectory — no sample counter may overflow — and reports
    /// whether the update was applied; a model whose check fails is left
    /// unchanged. The check can only fail once a cell has been visited on
    /// the order of four billion times.
    pub fn fit_checked(&mut self, states: &Vec<State>, won: bool) -> (applied: bool)
        requires
            old(self).wf(),
            traj_valid(states@),
        ensures
            final(self).wf(),
            applied == fit_within_bounds(*old(self), states@),
            applied ==> forall|c: State|
                state_valid(c) ==> final(self).count_of(c) == old(self).count_of(c)
                    + #[trigger] visits(states@, c) && final(self).prob_of(c) == cell_after_fit(
                    old(self).prob_of(c),
                    won,
                    visits(states@, c),
                ),
            !applied ==> *final(self) == *old(self),
    {
        if self.fit_fits(states) {
            self.fit(states, won);
            true
        } else {
            false
        }
    }

    /// `fit_checked` over the role-swapped trajectory.
    pub fn fit_reversed_checked(&mut self, states: &Vec<State>, won: bool) -> (applied: bool)
        requires
            old(self).wf(),
            traj_valid(states@),
        ensures
            final(self).wf(),
            applied == fit_within_bounds(*old(self), swap_states(states@)),
            applied ==> forall|c: State|
                state_valid(c) ==> final(self).count_of(c) == old(self).count_of(c)
                    + #[trigger] visits(swap_states(states@), c) && final(self).prob_of(c)
                    == cell_after_fit(old(self).prob_of(c), won, visits(swap_states(states@), c)),
            !applied ==> *final(self) == *old(self),
    {
        let sw = swapped(states);
        self.fit_checked(&sw, won)
    }

    /// Reads one win-probability estimate; either order of either pair
    /// resolves to the same cell.
    pub fn probability(&self, home: (u8, u8), away: (u8, u8)) -> (p: Prob)
        requires
            self.wf(),
            pair_valid(home),
            pair_valid(away),
        ensures
            p == self.prob_cell(home.0 as int, home.1 as int, away.0 as int, away.1 as int),
    {
        *self.probabilities.get(home.0 as usize, home.1 as usize).get(
            away.0 as usize,
            away.1 as usize,
        )
    }

    /// Reads one sample count; either order of either pair resolves to the
    /// same cell.
    pub fn sample_count(&self, home: (u8, u8), away: (u8, u8)) -> (n: u32)
        requires
            self.wf(),
            pair_valid(home),
            pair_valid(away),
        ensures
            n == self.count_cell(home.0 as int, home.1 as int, away.0 as int, away.1 as int),
    {
        *self.sample_sizes.get(home.0 as usize, home.1 as usize).get(
            away.0 as usize,
            away.1 as usize,
        )
    }
}


/// Law: fitting one and the same single-state trajectory twice with one and
/// the same outcome adds exactly one sample per call to that state\'s cell
/// (its trajectory visits the cell once), and each call moves a strictly
/// interior estimate strictly toward the outcome\'s indicator — 1 for a
/// win, 0 for a loss — monotonically and without ever overshooting past it.
pub proof fn lemma_fit_twice_single_state(m: Model, s: State, won: bool)
    requires
        m.wf(),
        state_valid(s),
        0 < num_of(m.prob_of(s)) < den_of(m.prob_of(s)),
    ensures
        visits(seq![s], s) == 1,
        cell_after_fit(cell_after_fit(m.prob_of(s), won, 1), won, 1) == cell_after_fit(
            m.prob_of(s),
            won,
            2,
        ),
        won ==> prob_lt(m.prob_of(s), cell_after_fit(m.prob_of(s), won, 1)) && prob_lt(
            cell_after_fit(m.prob_of(s), won, 1),
            cell_after_fit(m.prob_of(s), won, 2),
        ),
        !won ==> prob_lt(cell_after_fit(m.prob_of(s), won, 1), m.prob_of(s)) && prob_lt(
            cell_after_fit(m.prob_of(s), won, 2),
            cell_after_fit(m.prob_of(s), won, 1),
        ),
        0 < num_of(cell_after_fit(m.prob_of(s), won, 2)) < den_of(
            cell_after_fit(m.prob_of(s), won, 2),
        ),
{
    let p = m.prob_of(s);
    assert(cell_inv(
        m.prob_cell(s.0.0 as int, s.0.1 as int, s.1.0 as int, s.1.1 as int),
        m.count_cell(s.0.0 as int, s.0.1 as int, s.1.0 as int, s.1.1 as int),
        s.0.0 as int,
        s.0.1 as int,
        s.1.0 as int,
        s.1.1 as int,
    ));
    assert(SCALE as int * (m.count_of(s) as int) <= SCALE as int * (u32::MAX as int))
        by (nonlinear_arith)
        requires
            m.count_of(s) <= u32::MAX,
    ;
    assert(den_of(p) + 2 * SCALE <= u64::MAX);
    lemma_fit_monotone(p, won, 0);
    lemma_fit_monotone(p, won, 1);
    assert(cell_after_fit(p, won, 0) == p);
    assert(same_cell(s, s));
    assert(seq![s].len() == 1);
    assert(seq![s].last() == s);
    assert(seq![s].drop_last().len() == 0);
    assert(visits(seq![s].drop_last(), s) == 0);
    assert(visits(seq![s], s) == visits(seq![s].drop_last(), s) + 1);
}


/// Law: training preserves the boundary shape. An update whose trajectory
/// never charges a home-dead cell with a win nor an away-dead cell with a
/// loss — as a finished game cannot, those states being terminal for that
/// side — keeps the certain-loss cells at 0, the certain-win cells at 1,
/// and every interior cell strictly inside (0, 1).
pub proof fn lemma_fit_preserves_boundary(m0: Model, m1: Model, traj: Seq<State>, won: bool)
    requires
        m0.wf(),
        boundary_ok(m0),
        traj_valid(traj),
        forall|c: State|
            state_valid(c) ==> m0.count_of(c) + #[trigger] visits(traj, c) <= u32::MAX,
        forall|c: State|
            state_valid(c) ==> m1.prob_of(c) == cell_after_fit(
                m0.prob_of(c),
                won,
                #[trigger] visits(traj, c),
            ),
        won ==> forall|k: int|
            0 <= k < traj.len() ==> (#[trigger] traj[k]).0.0 > 0 || traj[k].0.1 > 0,
        !won ==> forall|k: int|
            0 <= k < traj.len() ==> (#[trigger] traj[k]).1.0 > 0 || traj[k].1.1 > 0,
    ensures
        boundary_ok(m1),
{
    assert forall|h0: int, h1: int, a0: int, a1: int|
        0 <= h0 < 5 && 0 <= h1 < 5 && 0 <= a0 < 5 && 0 <= a1 < 5 implies boundary_cell_ok(
        m1.prob_cell(h0, h1, a0, a1),
        h0,
        h1,
        a0,
        a1,
    ) by {
        let c: State = (((h0 as u8, h1 as u8), (a0 as u8, a1 as u8)));
        assert(state_valid(c));
        assert(m0.prob_of(c) == m0.prob_cell(h0, h1, a0, a1));
        assert(m1.prob_of(c) == m1.prob_cell(h0, h1, a0, a1));
        let v = visits(traj, c);
        lemma_visits_le_len(traj, c);
        assert(cell_inv(
            m0.prob_cell(h0, h1, a0, a1),
            m0.count_cell(h0, h1, a0, a1),
            h0,
            h1,
            a0,
            a1,
        ));
        assert(boundary_cell_ok(m0.prob_cell(h0, h1, a0, a1), h0, h1, a0, a1));
        if !(h0 == 0 && h1 == 0 && a0 == 0 && a1 == 0) {
            let n0 = m0.count_of(c) as int;
            assert(0 <= v * SCALE && den_of(m0.prob_of(c)) + v * SCALE == SCALE * (n0 + v)
                && SCALE * (n0 + v) <= SCALE * (u32::MAX as int)) by (nonlinear_arith)
                requires
                    0 <= v,
                    den_of(m0.prob_of(c)) == SCALE * n0,
                    n0 + v <= u32::MAX as int,
            ;
        }
        if h0 == 0 && h1 == 0 && !(a0 == 0 && a1 == 0) {
            if won && v > 0 {
                lemma_visits_witness(traj, c);
                let k = choose|k: int| 0 <= k < traj.len() && same_cell(#[trigger] traj[k], c);
                assert(traj[k].0.0 == 0 && traj[k].0.1 == 0);
                assert(false);
            }
        }
        if a0 == 0 && a1 == 0 && !(h0 == 0 && h1 == 0) {
            if !won && v > 0 {
                lemma_visits_witness(traj, c);
                let k = choose|k: int| 0 <= k < traj.len() && same_cell(#[trigger] traj[k], c);
                assert(traj[k].1.0 == 0 && traj[k].1.1 == 0);
                assert(false);
            }
        }
    }
}

} // verus!
