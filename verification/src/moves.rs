//! The player actions: fold, check/call, bet/raise, all-in, confirm.

use vstd::prelude::*;
use vstd::pervasive::VecAdditionalExecFns;
use crate::errors::Errors;
use crate::labels::append_u16;
use crate::labels::dec_rep;
use crate::state::Context;
use crate::state::State;
use crate::state::STANDARD_BET_SIZE;
use crate::state::chip_total;
use crate::state::dealt_cards;
use crate::state::next_dealer;
use crate::state::reset_hand;
use crate::state::wf;

verus! {

/// The action code: fold.
pub const ACTION_FOLD: u64 = 0;

/// The action code: check, or call the standing bet.
pub const ACTION_CHECK_CALL: u64 = 1;

/// The action code: open the betting, or double the standing bet.
pub const ACTION_BET_RAISE: u64 = 2;

/// The action code: commit the whole remaining stack.
pub const ACTION_ALL_IN: u64 = 3;

/// The action code: confirm the finished hand.
pub const ACTION_CONFIRM: u64 = 99;

/// The seat (0-indexed) of the player the context says is acting, when the
/// list is present, non-empty, and names a real seat.
pub open spec fn acting_player(ctx: Context) -> int {
    (ctx.action_players->Some_0)@[0] - 1
}

/// The context carries a non-empty acting-player list.
pub open spec fn has_actors(ctx: Context) -> bool {
    ctx.action_players is Some && (ctx.action_players->Some_0)@.len() > 0
}

/// The context names a seat that exists at this table.
pub open spec fn valid_seat(ctx: Context) -> bool {
    has_actors(ctx) && 0 <= acting_player(ctx) < 2
}

/// The action codes the engine knows.
pub open spec fn known_action(action: u64) -> bool {
    action == ACTION_FOLD || action == ACTION_CHECK_CALL || action == ACTION_BET_RAISE || action
        == ACTION_ALL_IN || action == ACTION_CONFIRM
}

/// A confirmation by seat `p` would close the round and retire the hand while
/// no player holds chips, which would leave the dealer with nobody to pass to.
pub open spec fn confirm_stalls(s: State, p: int) -> bool {
    let satisfied = s.needs_action@.update(p, false);
    &&& forall|i: int| 0 <= i < 2 ==> !((#[trigger] s.still_in@[i]) && satisfied[i])
    &&& s.chips@[0] == 0
    &&& s.chips@[1] == 0
}

/// A player's whole worth this round: stack plus current contribution.
pub open spec fn total_of(s: State, i: int) -> int {
    s.chips@[i] + s.chip_table@[i]
}

/// What a raise to `target` is clamped down to: each still-in player who
/// cannot cover it caps the bet at their own total, in seat order.
pub open spec fn capped_bet(s: State, target: int) -> int {
    let b0 = if s.still_in@[0] && total_of(s, 0) <= target {
        total_of(s, 0)
    } else {
        target
    };
    if s.still_in@[1] && total_of(s, 1) <= b0 {
        total_of(s, 1)
    } else {
        b0
    }
}

/// Whether clamping a raise to `target` fired for some still-in player, which
/// turns the move label into an all-in.
pub open spec fn cap_fired(s: State, target: int) -> bool {
    let b0 = if s.still_in@[0] && total_of(s, 0) <= target {
        total_of(s, 0)
    } else {
        target
    };
    (s.still_in@[0] && total_of(s, 0) <= target) || (s.still_in@[1] && total_of(s, 1) <= b0)
}

/// The bet level a raise aims for: the fixed opening size when no bet stands,
/// twice the standing bet otherwise.
pub open spec fn raise_target(s: State) -> int {
    if s.bet_amount == 0 {
        STANDARD_BET_SIZE as int
    } else {
        2 * s.bet_amount
    }
}

/// Fields no player action ever touches.
pub open spec fn action_keeps_cards(s0: State, s1: State) -> bool {
    &&& s1.cards@ == s0.cards@
    &&& s1.hands@ == s0.hands@
    &&& s1.card_table@ == s0.card_table@
    &&& s1.dealer == s0.dealer
    &&& s1.hand_over == s0.hand_over
    &&& s1.hand_result == s0.hand_result
}

/// What a check or call does: the player pays the difference up to the bet
/// level and is satisfied; nothing else moves.
pub open spec fn check_call_effect(s0: State, s1: State, p: int) -> bool {
    &&& action_keeps_cards(s0, s1)
    &&& s1.chips@ == s0.chips@.update(p, (s0.chips@[p] - (s0.bet_amount - s0.chip_table@[p])) as u16)
    &&& s1.chip_table@ == s0.chip_table@.update(p, s0.bet_amount)
    &&& s1.needs_action@ == s0.needs_action@.update(p, false)
    &&& s1.still_in@ == s0.still_in@
    &&& s1.bet_amount == s0.bet_amount
    &&& s1.hand_pot == s0.hand_pot
    &&& (s0.bet_amount == s0.chip_table@[p] ==> s1.last_move@ == "Check"@)
    &&& (s0.bet_amount != s0.chip_table@[p] ==> s1.last_move@ == "Call "@ + dec_rep(
        s0.bet_amount as int,
    ))
}

/// What a raise or an all-in does: the bet level moves to `target` clamped by
/// every still-in player's total, everyone still in owes a response again,
/// and the acting player pays up to the new level and is satisfied.
pub open spec fn raise_effect(s0: State, s1: State, p: int, target: int) -> bool {
    let newb = capped_bet(s0, target);
    &&& action_keeps_cards(s0, s1)
    &&& s1.bet_amount == newb
    &&& s1.chips@ == s0.chips@.update(p, (s0.chips@[p] - (newb - s0.chip_table@[p])) as u16)
    &&& s1.chip_table@ == s0.chip_table@.update(p, newb as u16)
    &&& s1.still_in@ == s0.still_in@
    &&& forall|i: int|
        0 <= i < 2 ==> s1.needs_action@[i] == (if i == p {
            false
        } else {
            s0.still_in@[i] || s0.needs_action@[i]
        })
    &&& s1.hand_pot == s0.hand_pot
}

/// What a fold does: the player leaves the hand, satisfied; nothing else
/// moves.
pub open spec fn fold_effect(s0: State, s1: State, p: int) -> bool {
    &&& action_keeps_cards(s0, s1)
    &&& s1.chips@ == s0.chips@
    &&& s1.chip_table@ == s0.chip_table@
    &&& s1.bet_amount == s0.bet_amount
    &&& s1.hand_pot == s0.hand_pot
    &&& s1.still_in@ == s0.still_in@.update(p, false)
    &&& s1.needs_action@ == s0.needs_action@.update(p, false)
    &&& s1.last_move@ == "Fold"@
}

/// Apply `action` for the player the context names.
///
/// A rejected action leaves the state unchanged: unknown codes, fold, call,
/// raise or all-in by a player who is out of the hand, and an all-in whose
/// stack cannot reach the standing bet level, are invalid moves; a missing or
/// empty acting-player list is missing context; an acting-player entry that
/// names no seat, or a confirm that would retire the hand when no player
/// holds chips, is an internal fault.
#[verifier::rlimit(60)]
pub fn poker_move(state: &mut State, ctx: &Context, player_id: u16, action: u64) -> (r: Result<
    (),
    Errors,
>)
    requires
        wf(*old(state)),
        ctx.num_players == 2,
    ensures
        wf(*final(state)),
        match r {
            Ok(()) => {
                let p = acting_player(*ctx);
                &&& has_actors(*ctx)
                &&& 0 <= p < 2
                &&& chip_total(*final(state)) == chip_total(*old(state))
                &&& (action == ACTION_CHECK_CALL ==> old(state).still_in@[p] && check_call_effect(
                    *old(state),
                    *final(state),
                    p,
                ))
                &&& (action == ACTION_BET_RAISE ==> {
                    let target = raise_target(*old(state));
                    let newb = capped_bet(*old(state), target);
                    &&& old(state).still_in@[p]
                    &&& raise_effect(*old(state), *final(state), p, target)
                    &&& (cap_fired(*old(state), target) ==> final(state).last_move@ == "All In "@
                        + dec_rep(newb))
                    &&& (!cap_fired(*old(state), target) && old(state).bet_amount == 0 ==> final(state).last_move@ == "Bet "@ + dec_rep(newb))
                    &&& (!cap_fired(*old(state), target) && old(state).bet_amount != 0 ==> final(state).last_move@ == "Raise "@ + dec_rep(newb))
                })
                &&& (action == ACTION_ALL_IN ==> old(state).still_in@[p] && old(
                    state,
                ).chips@[p] >= old(state).bet_amount && raise_effect(
                    *old(state),
                    *final(state),
                    p,
                    old(state).chips@[p] as int,
                ) && final(state).last_move@ == "All In "@ + dec_rep(
                    capped_bet(*old(state), old(state).chips@[p] as int),
                ))
                &&& (action == ACTION_FOLD ==> old(state).still_in@[p] && fold_effect(
                    *old(state),
                    *final(state),
                    p,
                ))
                &&& (action == ACTION_CONFIRM ==> {
                    let satisfied = old(state).needs_action@.update(p, false);
                    let closes = forall|i: int|
                        0 <= i < 2 ==> !((#[trigger] old(state).still_in@[i]) && satisfied[i]);
                    &&& !confirm_stalls(*old(state), p)
                    &&& final(state).needs_action@ == satisfied
                    &&& final(state).last_move@ == "HAND OVER"@
                    &&& final(state).chips@ == old(state).chips@
                    &&& final(state).chip_table@ == old(state).chip_table@
                    &&& final(state).hand_pot == old(state).hand_pot
                    &&& final(state).bet_amount == old(state).bet_amount
                    &&& final(state).hand_result == old(state).hand_result
                    &&& (!closes ==> final(state).still_in@ == old(state).still_in@ && final(state).hand_over == old(state).hand_over && final(state).dealer == old(
                        state,
                    ).dealer && final(state).cards@ == old(state).cards@ && final(state).hands@
                        == old(state).hands@ && final(state).card_table@ == old(
                        state,
                    ).card_table@)
                    &&& (closes ==> final(state).still_in@ == seq![false, false] && final(state).hand_over && final(state).dealer == next_dealer(*old(state)) && final(state).card_table@.len() == 0 && final(state).hands@[0]@.len() == 0 && final(state).hands@[1]@.len() == 0 && final(state).cards@ == crate::deck::full_deck())
                })
                &&& (action == ACTION_CHECK_CALL || action == ACTION_BET_RAISE || action
                    == ACTION_ALL_IN || action == ACTION_FOLD || action == ACTION_CONFIRM)
            },
            Err(e) => {
                &&& final(state).cards@ == old(state).cards@
                &&& final(state).hands@ == old(state).hands@
                &&& final(state).needs_action@ == old(state).needs_action@
                &&& final(state).still_in@ == old(state).still_in@
                &&& final(state).dealer == old(state).dealer
                &&& final(state).card_table@ == old(state).card_table@
                &&& final(state).chips@ == old(state).chips@
                &&& final(state).chip_table@ == old(state).chip_table@
                &&& final(state).bet_amount == old(state).bet_amount
                &&& final(state).hand_pot == old(state).hand_pot
                &&& final(state).hand_over == old(state).hand_over
                &&& final(state).last_move == old(state).last_move
                &&& final(state).hand_result == old(state).hand_result
                &&& (e == Errors::MissingContext <==> !has_actors(*ctx))
                &&& (e == Errors::InvalidMove <==> (valid_seat(*ctx) && (!known_action(action) || (
                action != ACTION_CONFIRM && known_action(action) && !old(
                    state,
                ).still_in@[acting_player(*ctx)]) || (action == ACTION_ALL_IN && old(
                    state,
                ).still_in@[acting_player(*ctx)] && old(state).chips@[acting_player(*ctx)] < old(
                    state,
                ).bet_amount))))
                &&& (e == Errors::InternalInvariantViolation <==> (has_actors(*ctx) && (!valid_seat(
                    *ctx,
                ) || (action == ACTION_CONFIRM && valid_seat(*ctx) && confirm_stalls(
                    *old(state),
                    acting_player(*ctx),
                )))))
            },
        },
{
    // Resolve the acting player from the context.
    let player_idx: usize = match &ctx.action_players {
        Some(players) => {
            if players.len() == 0 {
                return Err(Errors::MissingContext);
            }
            let id = players[0];
            if id < 1 || id > 2 {
                return Err(Errors::InternalInvariantViolation);
            }
            (id - 1) as usize
        },
        None => {
            return Err(Errors::MissingContext);
        },
    };

    if action == ACTION_CHECK_CALL {
        if !state.still_in[player_idx] {
            return Err(Errors::InvalidMove);
        }
        let needed_bet = state.bet_amount - state.chip_table[player_idx];
        let c = state.chips[player_idx];
        state.chips.set(player_idx, c - needed_bet);
        state.chip_table.set(player_idx, state.bet_amount);
        state.needs_action.set(player_idx, false);

        if needed_bet == 0 {
            state.last_move = String::from_str("Check");
        } else {
            let mut move_log = String::from_str("Call ");
            append_u16(&mut move_log, state.bet_amount);
            state.last_move = move_log;
        }
        proof {
            assert(dealt_cards(*state) =~= dealt_cards(*old(state)));
        }
        return Ok(());
    }

    if action == ACTION_BET_RAISE {
        if !state.still_in[player_idx] {
            return Err(Errors::InvalidMove);
        }
        let opening = state.bet_amount == 0;
        let target32: u32 = if opening {
            STANDARD_BET_SIZE as u32
        } else {
            (state.bet_amount as u32) * 2
        };
        let (new_bet, fired) = cap_and_pay(state, player_idx, target32);

        let mut move_log = if fired {
            String::from_str("All In ")
        } else if opening {
            String::from_str("Bet ")
        } else {
            String::from_str("Raise ")
        };
        append_u16(&mut move_log, new_bet);
        state.last_move = move_log;
        proof {
            assert(dealt_cards(*state) =~= dealt_cards(*old(state)));
        }
        return Ok(());
    }

    if action == ACTION_ALL_IN {
        if !state.still_in[player_idx] {
            return Err(Errors::InvalidMove);
        }
        // A stack below the standing bet cannot become the new bet level.
        if state.chips[player_idx] < state.bet_amount {
            return Err(Errors::InvalidMove);
        }
        let target32: u32 = state.chips[player_idx] as u32;
        let (new_bet, _) = cap_and_pay(state, player_idx, target32);

        let mut move_log = String::from_str("All In ");
        append_u16(&mut move_log, new_bet);
        state.last_move = move_log;
        proof {
            assert(dealt_cards(*state) =~= dealt_cards(*old(state)));
        }
        return Ok(());
    }

    if action == ACTION_FOLD {
        if !state.still_in[player_idx] {
            return Err(Errors::InvalidMove);
        }
        state.last_move = String::from_str("Fold");
        state.still_in.set(player_idx, false);
        state.needs_action.set(player_idx, false);
        proof {
            assert(dealt_cards(*state) =~= dealt_cards(*old(state)));
        }
        return Ok(());
    }

    if action == ACTION_CONFIRM {
        // Decide up front whether the confirmation closes the round and the
        // reset could fail, so that a failure changes nothing.
        let open0 = state.still_in[0] && player_idx != 0 && state.needs_action[0];
        let open1 = state.still_in[1] && player_idx != 1 && state.needs_action[1];
        let closes = !open0 && !open1;
        if closes && state.chips[0] == 0 && state.chips[1] == 0 {
            return Err(Errors::InternalInvariantViolation);
        }
        proof {
            let satisfied = old(state).needs_action@.update(player_idx as int, false);
            if !closes {
                if open0 {
                    assert(old(state).still_in@[0] && satisfied[0]);
                } else {
                    assert(open1);
                    assert(old(state).still_in@[1] && satisfied[1]);
                }
            }
            assert(!confirm_stalls(*old(state), player_idx as int));
        }

        state.last_move = String::from_str("HAND OVER");
        state.needs_action.set(player_idx, false);
        proof {
            assert(dealt_cards(*state) =~= dealt_cards(*old(state)));
        }

        if crate::state::betting_round_is_over(state) {
            proof {
                assert(!(state.still_in@[0] && state.needs_action@[0]));
                assert(!(state.still_in@[1] && state.needs_action@[1]));
                assert(closes);
            }
            let reset = reset_hand(state, ctx);
            proof {
                assert(reset is Ok);
            }
        }
        return Ok(());
    }

    Err(Errors::InvalidMove)
}

/// Clamp a raise aimed at `target` by every still-in player's total, re-arm
/// every still-in player, and let the acting player pay up to the clamped
/// level.
fn cap_and_pay(state: &mut State, p: usize, target: u32) -> (r: (u16, bool))
    requires
        wf(*old(state)),
        p < 2,
        old(state).still_in@[p as int],
        old(state).bet_amount <= target,
    ensures
        wf(*final(state)),
        raise_effect(*old(state), *final(state), p as int, target as int),
        r.0 == capped_bet(*old(state), target as int),
        r.1 == cap_fired(*old(state), target as int),
        chip_total(*final(state)) == chip_total(*old(state)),
        final(state).last_move == old(state).last_move,
{
    let mut bet32: u32 = target;
    let mut fired = false;

    if state.still_in[0] {
        let t0 = (state.chips[0] as u32) + (state.chip_table[0] as u32);
        if t0 <= bet32 {
            bet32 = t0;
            fired = true;
        }
        state.needs_action.set(0, true);
    }
    if state.still_in[1] {
        let t1 = (state.chips[1] as u32) + (state.chip_table[1] as u32);
        if t1 <= bet32 {
            bet32 = t1;
            fired = true;
        }
        state.needs_action.set(1, true);
    }

    proof {
        assert(bet32 == capped_bet(*old(state), target as int));
        assert(bet32 <= total_of(*old(state), p as int));
        assert(total_of(*old(state), p as int) <= chip_total(*old(state)));
    }
    let new_bet = bet32 as u16;

    let needed_bet = new_bet - state.chip_table[p];
    let c = state.chips[p];
    state.chips.set(p, c - needed_bet);
    state.chip_table.set(p, new_bet);
    state.needs_action.set(p, false);
    state.bet_amount = new_bet;

    proof {
        assert(dealt_cards(*state) =~= dealt_cards(*old(state)));
    }
    (new_bet, fired)
}

} // verus!
