//! The game flow: turn begin, post-move evaluation, scheduling, match end.

use vstd::prelude::*;
use crate::cards::Card;
use crate::cards::card_dealable;
use crate::cards::card_valid;
use crate::deck::draw_cards;
use crate::deck::spec_draw;
use crate::errors::Errors;
use crate::labels::append_u16;
use crate::labels::dec_rep;
use crate::cards::CardRanking;
use crate::resolver::best_category;
use crate::resolver::evaluate_best_hand;
use crate::resolver::hand_to_string;
use crate::resolver::spec_tiebreak;
use crate::state::Context;
use crate::state::State;
use crate::state::betting_round_is_over;
use crate::state::chip_total;
use crate::state::deal_new_hand;
use crate::state::dealt_cards;
use crate::state::hand_is_over_folded;
use crate::state::is_all_in_hand;
use crate::state::next_betting_round;
use crate::state::payout_hand;
use crate::state::round_over;
use crate::state::wf;

verus! {

/// The hand has ended by folding: exactly one player remains.
pub open spec fn fold_out(s: State) -> bool {
    s.still_in@[0] != s.still_in@[1]
}

/// The remaining player when the hand folded out, and seat 0 otherwise.
pub open spec fn fold_winner(s: State) -> int {
    if s.still_in@[1] {
        1
    } else {
        0
    }
}

/// Some still-in player has committed their whole stack.
pub open spec fn all_in_hand(s: State) -> bool {
    (s.still_in@[0] && s.chips@[0] == 0) || (s.still_in@[1] && s.chips@[1] == 0)
}

/// Lexicographic comparison of tie-break vectors: strictly greater on the
/// first position where they differ.
pub open spec fn lex_gt(a: Seq<u8>, b: Seq<u8>) -> bool
    decreases a.len(),
{
    if a.len() == 0 || b.len() == 0 {
        false
    } else if a.first() > b.first() {
        true
    } else if a.first() < b.first() {
        false
    } else {
        lex_gt(a.drop_first(), b.drop_first())
    }
}

/// One ranking strictly beats another: higher category, or equal category and
/// a lexicographically greater tie-break vector.  An exact tie beats nothing,
/// so the earlier seat keeps the pot.
pub open spec fn spec_beats(cat_a: u8, tb_a: Seq<u8>, cat_b: u8, tb_b: Seq<u8>) -> bool {
    cat_a > cat_b || (cat_a == cat_b && lex_gt(tb_a, tb_b))
}

/// The 7-card pool of seat `i`: two hole cards and the board.
pub open spec fn pool_of(s: State, i: int) -> Seq<Card> {
    s.hands@[i]@ + s.card_table@
}

/// The seat the showdown pays: seats are compared in order and a later seat
/// takes the lead only by strictly beating it, so the first of exactly tied
/// seats wins; seat 0 when nobody is left in.
pub open spec fn showdown_winner(s: State) -> int {
    if s.still_in@[0] && s.still_in@[1] {
        if spec_beats(
            best_category(pool_of(s, 1)),
            spec_tiebreak(pool_of(s, 1)),
            best_category(pool_of(s, 0)),
            spec_tiebreak(pool_of(s, 0)),
        ) {
            1
        } else {
            0
        }
    } else if s.still_in@[1] {
        1
    } else {
        0
    }
}

/// The label of a hand category, as [`hand_to_string`] renders it.
pub open spec fn label_of(cat: u8) -> Seq<char> {
    if cat == 8 {
        "Straight Flush"@
    } else if cat == 7 {
        "Four of a Kind"@
    } else if cat == 6 {
        "Full House"@
    } else if cat == 5 {
        "Flush"@
    } else if cat == 4 {
        "Straight"@
    } else if cat == 3 {
        "Three of a Kind"@
    } else if cat == 2 {
        "Two Pair"@
    } else if cat == 1 {
        "Pair"@
    } else {
        "High Card"@
    }
}

/// Whether `a` strictly beats `b`.
pub fn ranking_beats(a: &CardRanking, b: &CardRanking) -> (r: bool)
    ensures
        r == spec_beats(a.hand, a.tiebreak@, b.hand, b.tiebreak@),
{
    if a.hand > b.hand {
        return true;
    }
    if a.hand < b.hand {
        return false;
    }
    let n = if a.tiebreak.len() < b.tiebreak.len() {
        a.tiebreak.len()
    } else {
        b.tiebreak.len()
    };
    proof {
        assert(a.tiebreak@.skip(0) =~= a.tiebreak@);
        assert(b.tiebreak@.skip(0) =~= b.tiebreak@);
    }
    let mut j: usize = 0;
    while j < n
        invariant
            j <= n,
            n <= a.tiebreak@.len(),
            n <= b.tiebreak@.len(),
            a.hand == b.hand,
            lex_gt(a.tiebreak@, b.tiebreak@) == lex_gt(
                a.tiebreak@.skip(j as int),
                b.tiebreak@.skip(j as int),
            ),
        decreases n - j,
    {
        proof {
            assert(a.tiebreak@.skip(j as int).drop_first() =~= a.tiebreak@.skip(j as int + 1));
            assert(b.tiebreak@.skip(j as int).drop_first() =~= b.tiebreak@.skip(j as int + 1));
            assert(a.tiebreak@.skip(j as int).first() == a.tiebreak@[j as int]);
            assert(b.tiebreak@.skip(j as int).first() == b.tiebreak@[j as int]);
        }
        if a.tiebreak[j] > b.tiebreak[j] {
            proof {
                assert(lex_gt(a.tiebreak@.skip(j as int), b.tiebreak@.skip(j as int)));
            }
            return true;
        }
        if a.tiebreak[j] < b.tiebreak[j] {
            proof {
                assert(!lex_gt(a.tiebreak@.skip(j as int), b.tiebreak@.skip(j as int)));
            }
            return false;
        }
        j += 1;
    }
    proof {
        if a.tiebreak@.len() == n {
            assert(a.tiebreak@.skip(n as int) =~= Seq::<u8>::empty());
        } else {
            assert(b.tiebreak@.skip(n as int) =~= Seq::<u8>::empty());
        }
    }
    false
}

/// Concatenate two hands of cards.
pub fn concat_cards(a: &Vec<Card>, b: &Vec<Card>) -> (r: Vec<Card>)
    ensures
        r@ == a@ + b@,
{
    let mut out = crate::resolver::copy_cards(a);
    let mut m: usize = 0;
    while m < b.len()
        invariant
            m <= b@.len(),
            out@ =~= a@ + b@.subrange(0, m as int),
        decreases b@.len() - m,
    {
        out.push(b[m]);
        m += 1;
    }
    proof {
        assert(out@ =~= a@ + b@);
    }
    out
}

/// The state every match starts from.  The seed plays no part in it: cards
/// are drawn only when the first hand is dealt.
pub fn initial_state(seed: Option<u128>) -> (r: State)
    ensures
        crate::state::initial_state_spec(r),
        wf(r),
{
    State::default()
}

/// Always end the turn after one move.
pub fn end_turn_if(state: &State) -> (r: bool)
    ensures
        r,
{
    true
}

/// Never update optimistically: wait for the engine's own evaluation.
pub fn optimistic_update(state: &State) -> (r: bool)
    ensures
        !r,
{
    false
}

/// The match is over when exactly one player still counts as in: holding
/// chips, or alive in the current hand.  Returns that player's id
/// (1-indexed).
pub fn end_game_if(state: &State) -> (r: Option<u16>)
    requires
        crate::state::wf_lens(*state),
    ensures
        ({
            let in0 = state.chips@[0] > 0 || state.still_in@[0];
            let in1 = state.chips@[1] > 0 || state.still_in@[1];
            match r {
                Some(w) => (in0 != in1) && w == (if in1 {
                    2int
                } else {
                    1int
                }),
                None => in0 == in1,
            }
        }),
{
    let in0 = state.chips[0] > 0 || state.still_in[0];
    let in1 = state.chips[1] > 0 || state.still_in[1];
    if in0 && !in1 {
        Some(1)
    } else if in1 && !in0 {
        Some(2)
    } else {
        None
    }
}

/// The seat index the scheduler starts scanning from: just after the player
/// named by the context, or after seat 1 when the context names nobody.
pub open spec fn scan_start(ctx: Context) -> int {
    let a = if ctx.action_players is Some && (ctx.action_players->Some_0)@.len() > 0 {
        (ctx.action_players->Some_0)@[0] as int
    } else {
        1
    };
    (a + 1) % 2
}

/// Which player must act next: the dealer when the hand is over or the round
/// is closed, else the first player in seating order after the last actor
/// whose `needs_action` flag is set.
///
/// A state where the round is open but no player needs action cannot occur in
/// a well-formed state; the error branch exists so a corrupted state is
/// reported rather than looped on.
pub fn get_current_players(state: &State, ctx: &Context) -> (r: Result<Vec<u16>, Errors>)
    requires
        wf(*state),
        ctx.num_players == 2,
    ensures
        r is Ok,
        ({
            let v = r->Ok_0;
            &&& (state.hand_over || round_over(*state)) ==> v@ == seq![state.dealer]
            &&& (!state.hand_over && !round_over(*state)) ==> {
                let c0 = scan_start(*ctx);
                let c1 = 1 - c0;
                &&& state.needs_action@[c0] ==> v@ == seq![(c0 + 1) as u16]
                &&& (!state.needs_action@[c0] && state.needs_action@[c1]) ==> v@ == seq![
                    (c1 + 1) as u16,
                ]
            }
        }),
{
    let action_player: u16 = match &ctx.action_players {
        Some(players) => {
            if players.len() > 0 {
                players[0]
            } else {
                1
            }
        },
        None => 1,
    };

    if state.hand_over || betting_round_is_over(state) {
        let mut next_to_play: Vec<u16> = Vec::new();
        next_to_play.push(state.dealer);
        proof {
            assert(next_to_play@ =~= seq![state.dealer]);
        }
        return Ok(next_to_play);
    }

    let c0 = ((action_player as usize) + 1) % 2;
    let c1 = (c0 + 1) % 2;
    proof {
        assert(c0 as int == scan_start(*ctx));
        assert(c1 as int == 1 - scan_start(*ctx));
    }
    if state.needs_action[c0] {
        let mut next_to_play: Vec<u16> = Vec::new();
        next_to_play.push((c0 + 1) as u16);
        proof {
            assert(next_to_play@ =~= seq![(c0 + 1) as u16]);
        }
        return Ok(next_to_play);
    }
    if state.needs_action[c1] {
        let mut next_to_play: Vec<u16> = Vec::new();
        next_to_play.push((c1 + 1) as u16);
        proof {
            assert(next_to_play@ =~= seq![(c1 + 1) as u16]);
        }
        return Ok(next_to_play);
    }
    proof {
        assert(c0 == 0 || c0 == 1);
        assert(c1 == 1 - c0);
        assert(state.needs_action@[0] == false && state.needs_action@[1] == false);
        assert(round_over(*state));
        assert(false);
    }
    Err(Errors::InternalInvariantViolation)
}

/// The board extension `ext` and remaining deck `deck1` are what the stream
/// keyed by `seed` yields when drawing `n` cards from `deck0`, stated at the
/// full attempt budget, so the extension is a function of deck and seed.
pub open spec fn board_pinned(
    deck0: Seq<bool>,
    seed: u128,
    n: nat,
    ext: Seq<Card>,
    deck1: Seq<bool>,
) -> bool {
    spec_draw(deck0, seed, 0, n, crate::deck::MAX_DRAW_ATTEMPTS as nat) == Some((ext, deck1))
}

/// A board draw of `n` cards from `deck0` by the stream keyed by `seed`
/// gives up: no `n` available slots are hit within the attempt budget.
pub open spec fn board_draw_fails(deck0: Seq<bool>, seed: u128, n: nat) -> bool {
    spec_draw(deck0, seed, 0, n, crate::deck::MAX_DRAW_ATTEMPTS as nat) is None
}

/// Deal `cards_needed` community cards onto the board from the seeded
/// stream, leaving every other part of the state alone.
fn deal_board(state: &mut State, seed: u128, cards_needed: u8) -> (r: Result<(), Errors>)
    requires
        wf(*old(state)),
        !old(state).hand_over,
        cards_needed as int + old(state).card_table@.len() == 3 || cards_needed as int + old(
            state,
        ).card_table@.len() == 4 || cards_needed as int + old(state).card_table@.len() == 5,
    ensures
        wf(*final(state)),
        match r {
            Ok(()) => {
                &&& final(state).card_table@.len() == old(state).card_table@.len()
                    + cards_needed as int
                &&& final(state).card_table@.take(old(state).card_table@.len() as int) == old(
                    state,
                ).card_table@
                &&& board_pinned(
                    old(state).cards@,
                    seed,
                    cards_needed as nat,
                    final(state).card_table@.skip(old(state).card_table@.len() as int),
                    final(state).cards@,
                )
                &&& final(state).hands@ == old(state).hands@
                &&& final(state).needs_action@ == old(state).needs_action@
                &&& final(state).still_in@ == old(state).still_in@
                &&& final(state).dealer == old(state).dealer
                &&& final(state).chips@ == old(state).chips@
                &&& final(state).chip_table@ == old(state).chip_table@
                &&& final(state).bet_amount == old(state).bet_amount
                &&& final(state).hand_pot == old(state).hand_pot
                &&& final(state).hand_over == old(state).hand_over
                &&& final(state).last_move == old(state).last_move
                &&& final(state).hand_result == old(state).hand_result
            },
            Err(e) => {
                &&& e == Errors::InternalInvariantViolation
                &&& board_draw_fails(old(state).cards@, seed, cards_needed as nat)
                &&& final(state).cards@ == old(state).cards@
                &&& final(state).card_table@ == old(state).card_table@
                &&& final(state).hands@ == old(state).hands@
                &&& final(state).needs_action@ == old(state).needs_action@
                &&& final(state).still_in@ == old(state).still_in@
                &&& final(state).dealer == old(state).dealer
                &&& final(state).chips@ == old(state).chips@
                &&& final(state).chip_table@ == old(state).chip_table@
                &&& final(state).bet_amount == old(state).bet_amount
                &&& final(state).hand_pot == old(state).hand_pot
                &&& final(state).hand_over == old(state).hand_over
                &&& final(state).last_move == old(state).last_move
                &&& final(state).hand_result == old(state).hand_result
            },
        },
{
    let ghost dealt0 = dealt_cards(*state);
    proof {
        assert(dealt0.len() == 4 + old(state).card_table@.len());
    }
    let mut drawn = match draw_cards(&mut state.cards, seed, cards_needed) {
        Ok(d) => d,
        Err(e) => {
            proof {
                assert(crate::deck::avail_count(old(state).cards@) == 52 - dealt0.len());
                assert(board_draw_fails(old(state).cards@, seed, cards_needed as nat));
            }
            return Err(Errors::InternalInvariantViolation);
        },
    };
    let ghost drawn_view = drawn@;
    let ghost deck1 = state.cards@;
    state.card_table.append(&mut drawn);

    proof {
        assert(state.card_table@ =~= old(state).card_table@ + drawn_view);
        assert(state.card_table@.take(old(state).card_table@.len() as int) =~= old(
            state,
        ).card_table@);
        assert(state.card_table@.skip(old(state).card_table@.len() as int) =~= drawn_view);
        let dealt = dealt_cards(*state);
        assert(dealt =~= dealt0 + drawn_view);
        assert forall|k: int| 0 <= k < dealt.len() implies card_dealable(#[trigger] dealt[k])
            && !deck1[crate::cards::card_slot(dealt[k])] by {
            if k < dealt0.len() {
                assert(dealt[k] == dealt0[k]);
                assert(crate::deck::drawn_slot(drawn_view, crate::cards::card_slot(dealt0[k]))
                    ==> false) by {
                    if crate::deck::drawn_slot(drawn_view, crate::cards::card_slot(dealt0[k])) {
                        let m = choose|m: int|
                            0 <= m < drawn_view.len() && crate::cards::card_slot(drawn_view[m])
                                == crate::cards::card_slot(dealt0[k]);
                        assert(old(state).cards@[crate::cards::card_slot(drawn_view[m])]);
                        assert(!old(state).cards@[crate::cards::card_slot(dealt0[k])]);
                    }
                }
                assert(0 <= crate::cards::card_slot(dealt0[k]) < 52);
                assert(deck1[crate::cards::card_slot(dealt0[k])] == (old(
                    state,
                ).cards@[crate::cards::card_slot(dealt0[k])] && !crate::deck::drawn_slot(
                    drawn_view,
                    crate::cards::card_slot(dealt0[k]),
                )));
            } else {
                assert(dealt[k] == drawn_view[k - dealt0.len()]);
            }
        }
        assert forall|k1: int, k2: int| 0 <= k1 < k2 < dealt.len() implies crate::cards::card_slot(
            dealt[k1],
        ) != crate::cards::card_slot(dealt[k2]) by {
            if k2 < dealt0.len() {
                assert(dealt[k1] == dealt0[k1]);
                assert(dealt[k2] == dealt0[k2]);
            } else if k1 < dealt0.len() {
                assert(dealt[k1] == dealt0[k1]);
                assert(dealt[k2] == drawn_view[k2 - dealt0.len()]);
                assert(old(state).cards@[crate::cards::card_slot(drawn_view[k2 - dealt0.len()])]);
                assert(!old(state).cards@[crate::cards::card_slot(dealt0[k1])]);
            } else {
                assert(dealt[k1] == drawn_view[k1 - dealt0.len()]);
                assert(dealt[k2] == drawn_view[k2 - dealt0.len()]);
            }
        }
    }
    Ok(())
}

/// Begin a turn: deal a fresh hand when the last one was retired, and when
/// the betting round has closed, advance the board through its
/// three-then-one-then-one cadence and open the next betting round.
///
/// Rejects the turn with `InvalidMove` when the round is closed but the board
/// is already complete, with `MissingContext` when the context has no seed,
/// and with `InternalInvariantViolation` when a seeded draw gives up; any
/// rejection leaves the state unchanged.
pub fn on_turn_begin(state: &mut State, ctx: &Context) -> (r: Result<(), Errors>)
    requires
        wf(*old(state)),
    ensures
        wf(*final(state)),
        match r {
            Ok(()) => {
                &&& ctx.seed is Some
                &&& chip_total(*final(state)) == chip_total(*old(state))
                &&& (old(state).hand_over ==> {
                    &&& !final(state).hand_over
                    &&& final(state).needs_action@ == seq![true, true]
                    &&& final(state).still_in@ == seq![true, true]
                    &&& final(state).bet_amount == 0
                    &&& final(state).card_table@.len() == 0
                    &&& final(state).hands@[0]@.len() == 2
                    &&& final(state).hands@[1]@.len() == 2
                    &&& crate::state::deal_pinned(
                        ctx.seed->Some_0,
                        final(state).hands@[0]@,
                        final(state).hands@[1]@,
                        final(state).cards@,
                    )
                    &&& final(state).chips@ == old(state).chips@
                    &&& final(state).dealer == old(state).dealer
                })
                &&& (!old(state).hand_over && round_over(*old(state)) ==> {
                    let oldlen = old(state).card_table@.len() as int;
                    &&& final(state).card_table@.take(oldlen) == old(state).card_table@
                    &&& final(state).card_table@.len() == (if oldlen == 0 {
                        3int
                    } else {
                        oldlen + 1
                    })
                    &&& board_pinned(
                        old(state).cards@,
                        ctx.seed->Some_0,
                        (final(state).card_table@.len() - oldlen) as nat,
                        final(state).card_table@.skip(oldlen),
                        final(state).cards@,
                    )
                    &&& final(state).bet_amount == 0
                    &&& final(state).chip_table@ == seq![0u16, 0u16]
                    &&& final(state).hand_pot == old(state).hand_pot + old(state).chip_table@[0]
                        + old(state).chip_table@[1]
                    &&& forall|i: int|
                        0 <= i < 2 ==> final(state).needs_action@[i] == ((#[trigger] old(
                            state,
                        ).still_in@[i]) || old(state).needs_action@[i])
                    &&& final(state).still_in@ == old(state).still_in@
                    &&& final(state).hands@ == old(state).hands@
                    &&& final(state).chips@ == old(state).chips@
                })
                &&& (!old(state).hand_over && !round_over(*old(state)) ==> *final(state) == *old(
                    state,
                ))
            },
            Err(e) => {
                &&& (e == Errors::MissingContext <==> ctx.seed is None)
                &&& (e == Errors::InvalidMove <==> (ctx.seed is Some && !old(state).hand_over
                    && round_over(*old(state)) && old(state).card_table@.len() == 5))
                &&& (e == Errors::InternalInvariantViolation <==> (ctx.seed is Some && ((old(
                    state,
                ).hand_over && crate::state::deal_fails(ctx.seed->Some_0)) || (!old(
                    state,
                ).hand_over && round_over(*old(state)) && old(state).card_table@.len() < 5
                    && board_draw_fails(
                    old(state).cards@,
                    ctx.seed->Some_0,
                    (if old(state).card_table@.len() == 0 {
                        3nat
                    } else {
                        1nat
                    }),
                )))))
                &&& final(state).cards@ == old(state).cards@
                &&& final(state).hands@ == old(state).hands@
                &&& final(state).needs_action@ == old(state).needs_action@
                &&& final(state).still_in@ == old(state).still_in@
                &&& final(state).dealer == old(state).dealer
                &&& final(state).card_table@ == old(state).card_table@
                &&& final(state).chips@ == old(state).chips@
                &&& final(state).chip_table@ == old(state).chip_table@
                &&& final(state).bet_amount == old(state).bet_amount
                &&& final(state).hand_pot == old(state).hand_pot
                &&& final(state).hand_over == old(state).hand_over
                &&& final(state).last_move == old(state).last_move
                &&& final(state).hand_result == old(state).hand_result
            },
        },
{
    let seed = match ctx.seed {
        Some(s) => s,
        None => {
            return Err(Errors::MissingContext);
        },
    };

    if state.hand_over {
        match deal_new_hand(state, ctx) {
            Ok(()) => {},
            Err(e) => {
                return Err(e);
            },
        }
        proof {
            assert(!round_over(*state));
        }
        if betting_round_is_over(state) {
            proof {
                assert(false);
            }
        }
        return Ok(());
    }

    if betting_round_is_over(state) {
        let n = state.card_table.len();
        if n == 0 {
            match deal_board(state, seed, 3) {
                Ok(()) => {},
                Err(e) => {
                    return Err(e);
                },
            }
            next_betting_round(state);
        } else if n == 3 {
            match deal_board(state, seed, 1) {
                Ok(()) => {},
                Err(e) => {
                    return Err(e);
                },
            }
            next_betting_round(state);
        } else if n == 4 {
            match deal_board(state, seed, 1) {
                Ok(()) => {},
                Err(e) => {
                    return Err(e);
                },
            }
            next_betting_round(state);
        } else {
            return Err(Errors::InvalidMove);
        }
    }
    Ok(())
}

/// Evaluate the state after an accepted move: advance the seed by one step,
/// pay out a fold-ended hand, auto-deal the rest of the board when a player
/// is all in and no decisions remain, and run the showdown once the board is
/// complete, paying the whole pot to the best-ranked still-in player.
///
/// Fails with `MissingContext`, leaving state and context unchanged, when the
/// context has no seed, and with `InternalInvariantViolation` when a seeded
/// draw gives up.
pub fn on_move(state: &mut State, ctx: &mut Context) -> (r: Result<(), Errors>)
    requires
        wf(*old(state)),
        old(ctx).seed is Some ==> old(ctx).seed->Some_0 < u128::MAX,
    ensures
        wf(*final(state)),
        final(ctx).num_players == old(ctx).num_players,
        final(ctx).action_players == old(ctx).action_players,
        match r {
            Ok(()) => {
                let seed1 = (old(ctx).seed->Some_0 + 1) as u128;
                &&& old(ctx).seed is Some
                &&& final(ctx).seed == Some(seed1)
                &&& chip_total(*final(state)) == chip_total(*old(state))
                &&& (fold_out(*old(state)) ==> {
                    let w = fold_winner(*old(state));
                    &&& final(state).chips@[w] == old(state).chips@[w] + old(state).hand_pot + old(
                        state,
                    ).chip_table@[0] + old(state).chip_table@[1]
                    &&& final(state).chips@[1 - w] == old(state).chips@[1 - w]
                    &&& final(state).hand_pot == 0
                    &&& final(state).bet_amount == 0
                    &&& final(state).chip_table@ == seq![0u16, 0u16]
                    &&& forall|i: int|
                        0 <= i < 2 ==> final(state).needs_action@[i] == ((#[trigger] old(
                            state,
                        ).still_in@[i]) || old(state).needs_action@[i])
                    &&& final(state).still_in@ == old(state).still_in@
                    &&& final(state).card_table@ == old(state).card_table@
                    &&& final(state).hands@ == old(state).hands@
                    &&& final(state).cards@ == old(state).cards@
                    &&& final(state).dealer == old(state).dealer
                    &&& final(state).hand_over == old(state).hand_over
                    &&& final(state).last_move@ == old(state).last_move@ + " - HAND OVER"@
                    &&& final(state).hand_result@ == "Player "@ + dec_rep(w + 1)
                        + " wins by fold"@
                })
                &&& (!fold_out(*old(state)) && !round_over(*old(state)) ==> *final(state) == *old(
                    state,
                ))
                &&& (!fold_out(*old(state)) && round_over(*old(state)) ==> {
                    let board = final(state).card_table@;
                    let oldlen = old(state).card_table@.len() as int;
                    &&& final(state).hands@ == old(state).hands@
                    &&& final(state).still_in@ == old(state).still_in@
                    &&& board.take(oldlen) == old(state).card_table@
                    &&& (oldlen == 5 ==> board == old(state).card_table@ && final(state).cards@
                        == old(state).cards@)
                    &&& (oldlen < 5 && (!all_in_hand(*old(state)) || old(state).hand_over)
                        ==> *final(state) == *old(state))
                    &&& (oldlen < 5 && all_in_hand(*old(state)) && !old(state).hand_over
                        ==> board.len() == 5 && board_pinned(
                        old(state).cards@,
                        seed1,
                        (5 - oldlen) as nat,
                        board.skip(oldlen),
                        final(state).cards@,
                    ))
                    &&& (board.len() == 5 ==> {
                        let w = showdown_winner(*final(state));
                        let cat = (if old(state).still_in@[0] || old(state).still_in@[1] {
                            best_category(pool_of(*final(state), w))
                        } else {
                            0u8
                        });
                        &&& final(state).chips@[w] == old(state).chips@[w] + old(state).hand_pot
                            + old(state).chip_table@[0] + old(state).chip_table@[1]
                        &&& final(state).chips@[1 - w] == old(state).chips@[1 - w]
                        &&& final(state).hand_pot == 0
                        &&& final(state).bet_amount == 0
                        &&& final(state).chip_table@ == seq![0u16, 0u16]
                        &&& forall|i: int|
                            0 <= i < 2 ==> final(state).needs_action@[i] == ((#[trigger] old(
                                state,
                            ).still_in@[i]) || old(state).needs_action@[i])
                        &&& final(state).dealer == old(state).dealer
                        &&& final(state).hand_over == old(state).hand_over
                        &&& final(state).last_move@ == old(state).last_move@ + " - HAND OVER"@
                        &&& final(state).hand_result@ == "Player "@ + dec_rep(w + 1)
                            + " wins with "@ + label_of(cat)
                    })
                })
            },
            Err(e) => {
                &&& (e == Errors::MissingContext <==> old(ctx).seed is None)
                &&& e != Errors::InvalidMove
                &&& (e == Errors::InternalInvariantViolation <==> (old(ctx).seed is Some
                    && !fold_out(*old(state)) && round_over(*old(state)) && !old(state).hand_over
                    && all_in_hand(*old(state)) && old(state).card_table@.len() < 5
                    && board_draw_fails(
                    old(state).cards@,
                    (old(ctx).seed->Some_0 + 1) as u128,
                    (5 - old(state).card_table@.len()) as nat,
                )))
                &&& final(ctx).seed == old(ctx).seed
                &&& final(state).cards@ == old(state).cards@
                &&& final(state).hands@ == old(state).hands@
                &&& final(state).needs_action@ == old(state).needs_action@
                &&& final(state).still_in@ == old(state).still_in@
                &&& final(state).dealer == old(state).dealer
                &&& final(state).card_table@ == old(state).card_table@
                &&& final(state).chips@ == old(state).chips@
                &&& final(state).chip_table@ == old(state).chip_table@
                &&& final(state).bet_amount == old(state).bet_amount
                &&& final(state).hand_pot == old(state).hand_pot
                &&& final(state).hand_over == old(state).hand_over
                &&& final(state).last_move == old(state).last_move
                &&& final(state).hand_result == old(state).hand_result
            },
        },
{
    // Advance the random seed; every draw below uses the advanced value.
    let seed1: u128 = match ctx.seed {
        Some(s) => s + 1,
        None => {
            return Err(Errors::MissingContext);
        },
    };

    // End of hand by fold-out.
    let (is_over, fw) = hand_is_over_folded(state);
    if is_over {
        payout_hand(&fw, state);
        let mut hr = String::from_str("Player ");
        append_u16(&mut hr, (fw as u16) + 1);
        hr.append(" wins by fold");
        state.hand_result = hr;
        ctx.seed = Some(seed1);
        return Ok(());
    }

    // End of hand by showdown.
    if betting_round_is_over(state) {
        // Deal out the rest of the board when no betting decisions remain.
        if !state.hand_over && is_all_in_hand(state) && state.card_table.len() < 5 {
            let cards_needed = (5 - state.card_table.len()) as u8;
            match deal_board(state, seed1, cards_needed) {
                Ok(()) => {},
                Err(e) => {
                    return Err(e);
                },
            }
        }

        if state.card_table.len() == 5 {
            let mut winner: usize = 0;
            let mut winner_rank: Option<CardRanking> = None;

            if state.still_in[0] {
                let pool = concat_cards(&state.hands[0], &state.card_table);
                proof {
                    lemma_pool_valid(*state, 0);
                }
                let rank0 = evaluate_best_hand(0, &pool);
                winner = 0;
                winner_rank = Some(rank0);
            }
            if state.still_in[1] {
                let pool = concat_cards(&state.hands[1], &state.card_table);
                proof {
                    lemma_pool_valid(*state, 1);
                }
                let rank1 = evaluate_best_hand(1, &pool);
                let replace = match &winner_rank {
                    Some(prev) => ranking_beats(&rank1, prev),
                    None => true,
                };
                if replace {
                    winner = 1;
                    winner_rank = Some(rank1);
                }
            }

            let cat: u8 = match &winner_rank {
                Some(rk) => rk.hand,
                None => 0,
            };
            let ghost mid = *state;
            payout_hand(&winner, state);
            proof {
                assert(pool_of(*state, 0) == pool_of(mid, 0));
                assert(pool_of(*state, 1) == pool_of(mid, 1));
                assert(showdown_winner(*state) == showdown_winner(mid));
            }

            let label = hand_to_string(&cat);
            let mut hr = String::from_str("Player ");
            append_u16(&mut hr, (winner as u16) + 1);
            hr.append(" wins with ");
            hr.append(label.as_str());
            state.hand_result = hr;
        }
    }

    ctx.seed = Some(seed1);
    Ok(())
}

/// In a well-formed mid-hand state with a full board, a player's 7-card pool
/// is made of valid cards.
proof fn lemma_pool_valid(s: State, i: int)
    requires
        wf(s),
        0 <= i < 2,
        s.card_table@.len() == 5,
    ensures
        (s.hands@[i]@ + s.card_table@).len() == 7,
        forall|k: int| 0 <= k < 7 ==> card_valid(#[trigger] (s.hands@[i]@ + s.card_table@)[k]),
{
    let pool = s.hands@[i]@ + s.card_table@;
    let dealt = dealt_cards(s);
    assert(!s.hand_over);
    assert forall|k: int| 0 <= k < 7 implies card_valid(#[trigger] pool[k]) by {
        if k < 2 {
            if i == 0 {
                assert(pool[k] == dealt[k]);
            } else {
                assert(pool[k] == dealt[k + 2]);
            }
            assert(card_dealable(pool[k]));
        } else {
            assert(pool[k] == s.card_table@[k - 2]);
            assert(pool[k] == dealt[k + 2]);
            assert(card_dealable(pool[k]));
        }
    }
}

} // verus!
