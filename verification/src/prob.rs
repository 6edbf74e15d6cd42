//! Win-probability estimates kept as exact rationals. A cell that has seen
//! `n` samples stores a numerator over the denominator `SCALE * n`, so the
//! every-visit incremental-mean update `p' = (p * n + [won]) / (n + 1)`
//! becomes exact integer arithmetic: the numerator advances by `SCALE` on a
//! win and the denominator advances by `SCALE` either way.

use vstd::prelude::*;

verus! {

/// Fixed denominator scale: a cell with sample count `n` has denominator
/// `SCALE * n`.
pub const SCALE: u64 = 1048576;

/// One win-probability estimate: the rational `num / den`, or the undefined
/// sentinel seeded at the unreachable double-dead state, which must never be
/// compared against.
#[derive(Clone, Copy, PartialEq, Eq, Structural, Debug)]
pub enum Prob {
    Undefined,
    Val { num: u64, den: u64 },
}

/// Numerator of an estimate; 0 for the undefined sentinel.
pub open spec fn num_of(p: Prob) -> int {
    match p {
        Prob::Undefined => 0,
        Prob::Val { num, den } => num as int,
    }
}

/// Denominator of an estimate; 0 for the undefined sentinel.
pub open spec fn den_of(p: Prob) -> int {
    match p {
        Prob::Undefined => 0,
        Prob::Val { num, den } => den as int,
    }
}

/// Strict order on defined estimates, by cross multiplication:
/// `a.num / a.den < b.num / b.den`.
pub open spec fn prob_lt(a: Prob, b: Prob) -> bool {
    num_of(a) * den_of(b) < num_of(b) * den_of(a)
}

/// Decides the strict order between two defined estimates. The undefined
/// sentinel is excluded by contract: comparing it would be an internal
/// invariant violation, and move generation never yields its cell.
pub fn prob_lt_exec(a: &Prob, b: &Prob) -> (r: bool)
    requires
        a is Val,
        b is Val,
    ensures
        r == prob_lt(*a, *b),
{
    match (a, b) {
        (Prob::Val { num: na, den: da }, Prob::Val { num: nb, den: db }) => {
            proof {
                assert(forall|x: int, y: int|
                    0 <= x <= u64::MAX && 0 <= y <= u64::MAX
                        ==> #[trigger] (x * y) <= u64::MAX * u64::MAX) by (nonlinear_arith);
            }
            (*na as u128) * (*db as u128) < (*nb as u128) * (*da as u128)
        },
        _ => false,
    }
}

/// The estimate after `visits` further every-visit updates that all carry
/// the outcome `won`: each one advances the numerator by `SCALE` when `won`
/// holds and the denominator by `SCALE` unconditionally. The undefined
/// sentinel is never moved off its cell.
pub open spec fn cell_after_fit(p: Prob, won: bool, visits: int) -> Prob {
    match p {
        Prob::Undefined => Prob::Undefined,
        Prob::Val { num, den } => Prob::Val {
            num: (num + if won {
                visits * SCALE
            } else {
                0
            }) as u64,
            den: (den + visits * SCALE) as u64,
        },
    }
}

/// Law: repeating the fit update with one and the same outcome moves a
/// strictly interior estimate strictly toward the outcome's indicator value
/// (1 for a win, 0 for a loss), monotonically with every application, and
/// never past it: after any number of wins the estimate stays below 1, and
/// after any number of losses it stays above 0.
pub proof fn lemma_fit_monotone(p: Prob, won: bool, k: int)
    requires
        p is Val,
        0 < num_of(p) < den_of(p),
        0 <= k,
        den_of(p) + (k + 1) * SCALE <= u64::MAX,
    ensures
        won ==> prob_lt(cell_after_fit(p, won, k), cell_after_fit(p, won, k + 1)),
        !won ==> prob_lt(cell_after_fit(p, won, k + 1), cell_after_fit(p, won, k)),
        0 < num_of(cell_after_fit(p, won, k + 1)) < den_of(cell_after_fit(p, won, k + 1)),
{
    let num = num_of(p);
    let den = den_of(p);
    let s = SCALE as int;
    assert(0 <= k * s <= (k + 1) * s) by (nonlinear_arith)
        requires 0 <= k, 0 < s;
    if won {
        assert((num + k * s) * (den + (k + 1) * s) < (num + (k + 1) * s) * (den + k * s))
            by (nonlinear_arith)
            requires 0 < num < den, 0 <= k, 0 < s;
    } else {
        assert(num * (den + k * s) < num * (den + (k + 1) * s)) by (nonlinear_arith)
            requires 0 < num, 0 <= k, 0 < s;
    }
}

} // verus!
