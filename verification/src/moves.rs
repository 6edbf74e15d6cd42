//! Legal-move enumeration. A state is `(home, away)` from the mover's point
//! of view. A move either transfers one of the mover's live hand counts onto
//! a live opponent hand (with any result above 4 resetting to 0 — a ceiling
//! rule, deliberately not a wraparound) or redistributes the mover's own
//! total between their two hands, excluding splits that reproduce the
//! current pair in either orientation.

use vstd::prelude::*;

verus! {

/// A game state: the mover's hand pair first, the opponent's second.
pub type State = ((u8, u8), (u8, u8));

/// Every hand holds between 0 and 4 fingers.
pub open spec fn pair_valid(p: (u8, u8)) -> bool {
    p.0 <= 4 && p.1 <= 4
}

/// Both sides of a state are within range.
pub open spec fn state_valid(s: State) -> bool {
    pair_valid(s.0) && pair_valid(s.1)
}

/// The over-4 reset rule: a hand pushed above 4 dies to 0.
pub open spec fn capped(x: int) -> u8 {
    if x > 4 {
        0u8
    } else {
        x as u8
    }
}

/// Transfer successors in generation order: for each live opponent hand,
/// each live mover hand adds its count onto it, reset rule applied. Only the
/// targeted hand changes and the mover's pair is untouched.
pub open spec fn transfer_moves(s: State) -> Seq<State> {
    let h = s.0;
    let a = s.1;
    (if a.0 > 0 && h.0 > 0 {
        seq![(h, (capped(a.0 + h.0), a.1))]
    } else {
        Seq::<State>::empty()
    }) + (if a.0 > 0 && h.1 > 0 {
        seq![(h, (capped(a.0 + h.1), a.1))]
    } else {
        Seq::<State>::empty()
    }) + (if a.1 > 0 && h.0 > 0 {
        seq![(h, (a.0, capped(a.1 + h.0)))]
    } else {
        Seq::<State>::empty()
    }) + (if a.1 > 0 && h.1 > 0 {
        seq![(h, (a.0, capped(a.1 + h.1)))]
    } else {
        Seq::<State>::empty()
    })
}

/// Least admissible redistribution split: no hand may exceed 4, so the
/// smaller share starts at `total - 4` when the total is above 4.
pub open spec fn redist_lo(s: State) -> int {
    let total = s.0.0 + s.0.1;
    if total > 4 {
        total - 4
    } else {
        0
    }
}

/// Greatest admissible redistribution split: the smaller share never passes
/// half the total, which rules out plain hand swaps.
pub open spec fn redist_hi(s: State) -> int {
    (s.0.0 + s.0.1) / 2
}

/// Redistribution successors with smaller share `i` and upward: every split
/// `(i, total - i)` of the mover's total, skipping any `i` equal to either
/// current hand (those reproduce the present pair and are no-ops, not
/// moves). The opponent's pair is untouched.
pub open spec fn redist_moves_from(s: State, i: int) -> Seq<State>
    decreases redist_hi(s) + 1 - i,
{
    if i > redist_hi(s) {
        Seq::<State>::empty()
    } else {
        (if i != s.0.0 && i != s.0.1 {
            seq![(((i as u8, (s.0.0 + s.0.1 - i) as u8), s.1))]
        } else {
            Seq::<State>::empty()
        }) + redist_moves_from(s, i + 1)
    }
}

/// All redistribution successors, in ascending order of the smaller share.
pub open spec fn redist_moves(s: State) -> Seq<State> {
    redist_moves_from(s, redist_lo(s))
}

/// Every legal successor of `s`, transfers first, then redistributions.
pub open spec fn spec_moves(s: State) -> Seq<State> {
    transfer_moves(s) + redist_moves(s)
}

/// Shape of every generated successor: hand counts stay in range and the
/// mover keeps at least one live hand — in particular the double-dead state
/// is never a candidate.
pub open spec fn move_ok(m: State) -> bool {
    state_valid(m) && (m.0.0 > 0 || m.0.1 > 0)
}

proof fn lemma_redist_from_ok(s: State, i: int)
    requires
        state_valid(s),
        redist_lo(s) <= i,
    ensures
        forall|k: int|
            0 <= k < redist_moves_from(s, i).len()
                ==> move_ok(#[trigger] redist_moves_from(s, i)[k]),
    decreases redist_hi(s) + 1 - i,
{
    if i > redist_hi(s) {
    } else {
        lemma_redist_from_ok(s, i + 1);
        let head = if i != s.0.0 && i != s.0.1 {
            seq![(((i as u8, (s.0.0 + s.0.1 - i) as u8), s.1))]
        } else {
            Seq::<State>::empty()
        };
        assert forall|k: int| 0 <= k < redist_moves_from(s, i).len() implies move_ok(
            redist_moves_from(s, i)[k],
        ) by {
            if k < head.len() {
                let total = s.0.0 + s.0.1;
                assert(total >= 1);
                assert(i <= total / 2);
                assert(total - i >= 1 && total - i <= 4);
            } else {
                assert(redist_moves_from(s, i)[k] == redist_moves_from(s, i + 1)[k - head.len()]);
            }
        }
    }
}

/// Every candidate that move generation yields is in range and keeps the
/// mover alive.
pub proof fn lemma_moves_ok(s: State)
    requires
        state_valid(s),
    ensures
        forall|k: int|
            0 <= k < spec_moves(s).len() ==> move_ok(#[trigger] spec_moves(s)[k]),
{
    lemma_redist_from_ok(s, redist_lo(s));
}

/// Any candidate that move generation contains is in range and keeps the
/// mover alive.
pub proof fn lemma_contained_move_ok(s: State, m: State)
    requires
        state_valid(s),
        spec_moves(s).contains(m),
    ensures
        move_ok(m),
{
    lemma_moves_ok(s);
    let idx = choose|idx: int| 0 <= idx < spec_moves(s).len() && spec_moves(s)[idx] == m;
    assert(move_ok(spec_moves(s)[idx]));
}

/// While both players still hold a live hand, at least one transfer move
/// exists, so the candidate set is never empty mid-game.
pub proof fn lemma_moves_nonempty(s: State)
    requires
        state_valid(s),
        s.0.0 > 0 || s.0.1 > 0,
        s.1.0 > 0 || s.1.1 > 0,
    ensures
        spec_moves(s).len() > 0,
{
    assert(transfer_moves(s).len() > 0);
}

/// Applies the over-4 reset rule to a single hand.
fn cap_hand(x: u8) -> (r: u8)
    ensures
        r == capped(x as int),
{
    if x > 4 {
        0
    } else {
        x
    }
}

/// Enumerates the legal successors of `s`, transfers first, then
/// redistributions in ascending order of the smaller share; an empty result
/// means the mover has no legal move.
pub fn moves(s: State) -> (r: Vec<State>)
    requires
        state_valid(s),
    ensures
        r@ == spec_moves(s),
{
    let (h, a) = s;
    let mut v: Vec<State> = Vec::new();
    if a.0 > 0 && h.0 > 0 {
        v.push((h, (cap_hand(a.0 + h.0), a.1)));
    }
    if a.0 > 0 && h.1 > 0 {
        v.push((h, (cap_hand(a.0 + h.1), a.1)));
    }
    if a.1 > 0 && h.0 > 0 {
        v.push((h, (a.0, cap_hand(a.1 + h.0))));
    }
    if a.1 > 0 && h.1 > 0 {
        v.push((h, (a.0, cap_hand(a.1 + h.1))));
    }
    proof {
        assert(v@ =~= transfer_moves(s));
    }
    let total: u8 = h.0 + h.1;
    let lo: u8 = if total > 4 {
        total - 4
    } else {
        0
    };
    let hi: u8 = total / 2;
    let mut i: u8 = lo;
    while i <= hi
        invariant
            state_valid(s),
            h == s.0,
            a == s.1,
            total == s.0.0 + s.0.1,
            lo as int == redist_lo(s),
            hi as int == redist_hi(s),
            lo <= i <= hi + 1,
            transfer_moves(s).len() <= v@.len(),
            v@.subrange(0, transfer_moves(s).len() as int) =~= transfer_moves(s),
            redist_moves(s) =~= v@.skip(transfer_moves(s).len() as int) + redist_moves_from(
                s,
                i as int,
            ),
        decreases hi + 1 - i,
    {
        if i != h.0 && i != h.1 {
            v.push(((i, total - i), a));
        }
        proof {
            assert(redist_moves_from(s, i as int) == (if i as int != s.0.0 && i as int != s.0.1 {
                seq![(((i, (total - i) as u8), s.1))]
            } else {
                Seq::<State>::empty()
            }) + redist_moves_from(s, i as int + 1));
            assert(redist_moves(s) =~= v@.skip(transfer_moves(s).len() as int)
                + redist_moves_from(s, i as int + 1));
        }
        i = i + 1;
    }
    proof {
        assert(redist_moves_from(s, i as int) =~= Seq::<State>::empty());
        assert(v@ =~= spec_moves(s));
    }
    v
}

} // verus!
