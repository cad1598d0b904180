//! The per-hand betting state and its transition helpers.

use vstd::prelude::*;
use vstd::pervasive::VecAdditionalExecFns;
use crate::cards::Card;
use crate::cards::card_dealable;
use crate::cards::card_slot;
use crate::deck::CardDeck;
use crate::deck::avail_count;
use crate::deck::full_deck;
use crate::errors::Errors;

verus! {

/// Number of players at the table.
pub const NUM_PLAYERS: usize = 2;

/// The opening bet when no bet stands this round.
pub const STANDARD_BET_SIZE: u16 = 2;

/// The chips each player starts the match with.
pub const STARTING_CHIPS: u16 = 64;

/// The per-match context that the host orchestration layer owns.  The engine
/// reads it, and advances the seed by one step per accepted move.
pub struct Context {
    /// How many players the match has.
    pub num_players: u16,
    /// The player ids (1-indexed) whose action is awaited.
    pub action_players: Option<Vec<u16>>,
    /// The deterministic seed for card draws.
    pub seed: Option<u128>,
}

/// The full state of one hand of the game.
pub struct State {
    /// Deck availability, one slot per card.
    pub cards: CardDeck,
    /// Each player's hole cards.
    pub hands: Vec<Vec<Card>>,
    /// Who must still respond to the current bet level.
    pub needs_action: Vec<bool>,
    /// Who has not folded this hand.
    pub still_in: Vec<bool>,
    /// The player id (1-indexed) who acts first.
    pub dealer: u16,
    /// The community board cards.
    pub card_table: Vec<Card>,
    /// Each player's chip stack.
    pub chips: Vec<u16>,
    /// Each player's contribution to the current betting round.
    pub chip_table: Vec<u16>,
    /// The bet level every still-in player must match this round.
    pub bet_amount: u16,
    /// The pot carried over from closed betting rounds.
    pub hand_pot: u16,
    /// Whether the hand has been retired and the next one may be dealt.
    pub hand_over: bool,
    /// A label describing the last accepted move.
    pub last_move: String,
    /// A label describing how the last hand ended.
    pub hand_result: String,
}

/// All chips in play: stacks, round contributions and the pot.  Legal actions
/// never change this sum.
pub open spec fn chip_total(s: State) -> int {
    s.chips@[0] + s.chips@[1] + s.chip_table@[0] + s.chip_table@[1] + s.hand_pot
}

/// Every card that has left the deck this hand: hole cards, then the board.
pub open spec fn dealt_cards(s: State) -> Seq<Card> {
    s.hands@[0]@ + s.hands@[1]@ + s.card_table@
}

/// Field lengths and card counts are as the two-player game demands.
pub open spec fn wf_lens(s: State) -> bool {
    &&& s.cards@.len() == 52
    &&& s.hands@.len() == 2
    &&& s.needs_action@.len() == 2
    &&& s.still_in@.len() == 2
    &&& s.chips@.len() == 2
    &&& s.chip_table@.len() == 2
    &&& 1 <= s.dealer <= 2
    &&& (s.hand_over ==> s.hands@[0]@.len() == 0 && s.hands@[1]@.len() == 0
        && s.card_table@.len() == 0 && s.cards@ == full_deck())
    &&& (!s.hand_over ==> s.hands@[0]@.len() == 2 && s.hands@[1]@.len() == 2)
    &&& (s.card_table@.len() == 0 || s.card_table@.len() == 3 || s.card_table@.len() == 4
        || s.card_table@.len() == 5)
}

/// A folded player never owes a response.
pub open spec fn wf_flags(s: State) -> bool {
    forall|i: int| 0 <= i < 2 ==> (!s.still_in@[i] ==> !(#[trigger] s.needs_action@[i]))
}

/// Every still-in player has matched no more than the bet level and can still
/// afford it; the chips in play fit the chip counters.
pub open spec fn wf_chips(s: State) -> bool {
    &&& forall|i: int|
        0 <= i < 2 && s.still_in@[i] ==> (#[trigger] s.chip_table@[i]) <= s.bet_amount
            <= s.chips@[i] + s.chip_table@[i]
    &&& chip_total(s) <= 0xFFFF
}

/// Dealt cards are valid, pairwise distinct, and marked unavailable in the
/// deck; the deck holds exactly the cards not dealt.
pub open spec fn wf_deck(s: State) -> bool {
    let dealt = dealt_cards(s);
    &&& forall|k: int| 0 <= k < dealt.len() ==> card_dealable(#[trigger] dealt[k])
    &&& forall|k: int| 0 <= k < dealt.len() ==> !s.cards@[card_slot(#[trigger] dealt[k])]
    &&& forall|k1: int, k2: int|
        0 <= k1 < k2 < dealt.len() ==> card_slot(dealt[k1]) != card_slot(dealt[k2])
    &&& avail_count(s.cards@) == 52 - dealt.len()
}

/// The state invariant: every state the engine hands out satisfies it, and
/// every transition preserves it.
pub open spec fn wf(s: State) -> bool {
    wf_lens(s) && wf_flags(s) && wf_chips(s) && wf_deck(s)
}

/// The full deck has all 52 cards available.
pub proof fn lemma_full_deck_avail()
    ensures
        avail_count(full_deck()) == 52,
{
    lemma_all_true_avail(full_deck());
}

/// An all-available prefix counts its whole length.
proof fn lemma_all_true_avail(deck: Seq<bool>)
    requires
        forall|i: int| 0 <= i < deck.len() ==> deck[i],
    ensures
        avail_count(deck) == deck.len(),
    decreases deck.len(),
{
    if deck.len() > 0 {
        lemma_all_true_avail(deck.drop_last());
    }
}

/// Build a full 52-slot deck.
pub fn make_full_deck() -> (r: CardDeck)
    ensures
        r@ == full_deck(),
{
    let mut deck: Vec<bool> = Vec::new();
    let mut i: usize = 0;
    while i < 52
        invariant
            i <= 52,
            deck@.len() == i as nat,
            forall|k: int| 0 <= k < i ==> deck@[k],
        decreases 52 - i,
    {
        deck.push(true);
        i += 1;
    }
    proof {
        assert(deck@ =~= full_deck());
    }
    deck
}

/// The state every match starts from: full deck, no cards dealt, both
/// players in with the starting stack, the first player as dealer, and the
/// hand marked over so that the first turn deals it.
pub open spec fn initial_state_spec(s: State) -> bool {
    &&& s.cards@ == full_deck()
    &&& s.hands@.len() == 2 && s.hands@[0]@.len() == 0 && s.hands@[1]@.len() == 0
    &&& s.needs_action@ == seq![true, true]
    &&& s.still_in@ == seq![true, true]
    &&& s.dealer == 1
    &&& s.card_table@.len() == 0
    &&& s.chips@ == seq![STARTING_CHIPS, STARTING_CHIPS]
    &&& s.chip_table@ == seq![0u16, 0u16]
    &&& s.bet_amount == 0
    &&& s.hand_pot == 0
    &&& s.hand_over == true
    &&& s.last_move@ == "New Hand"@
    &&& s.hand_result@ == ""@
}

impl Default for State {
    /// The starting state: all cards hidden in the deck.
    fn default() -> (r: State)
        ensures
            initial_state_spec(r),
            wf(r),
    {
        let cards = make_full_deck();
        let mut hands: Vec<Vec<Card>> = Vec::new();
        hands.push(Vec::new());
        hands.push(Vec::new());
        let mut needs_action: Vec<bool> = Vec::new();
        needs_action.push(true);
        needs_action.push(true);
        let mut still_in: Vec<bool> = Vec::new();
        still_in.push(true);
        still_in.push(true);
        let mut chips: Vec<u16> = Vec::new();
        chips.push(STARTING_CHIPS);
        chips.push(STARTING_CHIPS);
        let mut chip_table: Vec<u16> = Vec::new();
        chip_table.push(0);
        chip_table.push(0);
        let r = State {
            cards,
            hands,
            needs_action,
            still_in,
            dealer: 1,
            card_table: Vec::new(),
            chips,
            chip_table,
            bet_amount: 0,
            hand_pot: 0,
            hand_over: true,
            last_move: String::from_str("New Hand"),
            hand_result: String::from_str(""),
        };
        proof {
            assert(r.needs_action@ =~= seq![true, true]);
            assert(r.still_in@ =~= seq![true, true]);
            assert(r.chips@ =~= seq![STARTING_CHIPS, STARTING_CHIPS]);
            assert(r.chip_table@ =~= seq![0u16, 0u16]);
            lemma_full_deck_avail();
            assert(dealt_cards(r) =~= Seq::<Card>::empty());
        }
        r
    }
}

/// The betting round is closed: no still-in player owes a response.
pub open spec fn round_over(s: State) -> bool {
    forall|i: int| 0 <= i < 2 ==> !((#[trigger] s.still_in@[i]) && s.needs_action@[i])
}

/// Whether the betting round is over because every still-in player has
/// responded to the current bet.
pub fn betting_round_is_over(state: &State) -> (r: bool)
    requires
        wf_lens(*state),
    ensures
        r == round_over(*state),
{
    let mut i: usize = 0;
    while i < NUM_PLAYERS
        invariant
            i <= 2,
            wf_lens(*state),
            forall|k: int| 0 <= k < i ==> !((#[trigger] state.still_in@[k])
                && state.needs_action@[k]),
        decreases 2 - i,
    {
        if state.still_in[i] && state.needs_action[i] {
            return false;
        }
        i += 1;
    }
    true
}

/// Whether the hand has ended because all but one player folded, and who
/// remains: the winner index is the highest still-in seat, or 0 when nobody
/// is left.
pub fn hand_is_over_folded(state: &State) -> (r: (bool, usize))
    requires
        wf_lens(*state),
    ensures
        r.0 == (state.still_in@[0] != state.still_in@[1]),
        r.1 == (if state.still_in@[1] {
            1int
        } else {
            0int
        }),
        r.1 < 2,
{
    let mut players_in: usize = 0;
    let mut winner_idx: usize = 0;
    let mut i: usize = 0;
    while i < NUM_PLAYERS
        invariant
            i <= 2,
            wf_lens(*state),
            players_in <= i,
            winner_idx < 2,
            players_in == (if 1 <= i && state.still_in@[0] {
                1int
            } else {
                0int
            }) + (if 2 <= i && state.still_in@[1] {
                1int
            } else {
                0int
            }),
            winner_idx == (if 2 <= i && state.still_in@[1] {
                1int
            } else {
                0int
            }),
        decreases 2 - i,
    {
        if state.still_in[i] {
            players_in += 1;
            winner_idx = i;
        }
        i += 1;
    }
    (players_in == 1, winner_idx)
}

/// Whether some still-in player has committed their whole stack.
pub fn is_all_in_hand(state: &State) -> (r: bool)
    requires
        wf_lens(*state),
    ensures
        r == ((state.still_in@[0] && state.chips@[0] == 0) || (state.still_in@[1]
            && state.chips@[1] == 0)),
{
    let mut i: usize = 0;
    while i < NUM_PLAYERS
        invariant
            i <= 2,
            wf_lens(*state),
            forall|k: int| 0 <= k < i ==> !((#[trigger] state.still_in@[k])
                && state.chips@[k] == 0),
        decreases 2 - i,
    {
        if state.still_in[i] && state.chips[i] == 0 {
            return true;
        }
        i += 1;
    }
    false
}

/// Close the current betting round: roll every contribution into the pot,
/// re-arm every still-in player, and zero the bet level.
pub fn next_betting_round(state: &mut State)
    requires
        wf(*old(state)),
    ensures
        wf(*final(state)),
        final(state).hand_pot == old(state).hand_pot + old(state).chip_table@[0] + old(
            state,
        ).chip_table@[1],
        final(state).chip_table@ == seq![0u16, 0u16],
        final(state).bet_amount == 0,
        forall|i: int|
            0 <= i < 2 ==> final(state).needs_action@[i] == ((#[trigger] old(
                state,
            ).still_in@[i]) || old(state).needs_action@[i]),
        chip_total(*final(state)) == chip_total(*old(state)),
        final(state).cards@ == old(state).cards@,
        final(state).hands@ == old(state).hands@,
        final(state).still_in@ == old(state).still_in@,
        final(state).dealer == old(state).dealer,
        final(state).card_table@ == old(state).card_table@,
        final(state).chips@ == old(state).chips@,
        final(state).hand_over == old(state).hand_over,
        final(state).last_move == old(state).last_move,
        final(state).hand_result == old(state).hand_result,
{
    let ct0 = state.chip_table[0];
    let ct1 = state.chip_table[1];
    state.hand_pot = state.hand_pot + ct0;
    state.hand_pot = state.hand_pot + ct1;
    state.chip_table.set(0, 0);
    state.chip_table.set(1, 0);
    if state.still_in[0] {
        state.needs_action.set(0, true);
    }
    if state.still_in[1] {
        state.needs_action.set(1, true);
    }
    state.bet_amount = 0;
    proof {
        assert(state.chip_table@ =~= seq![0u16, 0u16]);
        assert(dealt_cards(*state) =~= dealt_cards(*old(state)));
    }
}

/// The two draws of a fresh deal, pinned to the seed: first two hole cards
/// for the first player from the full deck, then two for the second player
/// from what remains.  Both draws are stated at the full attempt budget, so
/// the deal is a function of the seed alone.
pub open spec fn deal_pinned(seed: u128, h0: Seq<Card>, h1: Seq<Card>, deck_after: Seq<bool>) -> bool {
    let m = crate::deck::MAX_DRAW_ATTEMPTS as nat;
    let first = crate::deck::spec_draw(full_deck(), seed, 0, 2, m);
    &&& first is Some
    &&& first->Some_0.0 == h0
    &&& crate::deck::spec_draw(first->Some_0.1, seed, 0, 2, m) == Some((h1, deck_after))
}

/// A fresh deal from the seeded stream gives up: one of its two 2-card draws
/// finds no available slot within the attempt budget.
pub open spec fn deal_fails(seed: u128) -> bool {
    let m = crate::deck::MAX_DRAW_ATTEMPTS as nat;
    let first = crate::deck::spec_draw(full_deck(), seed, 0, 2, m);
    first is None || crate::deck::spec_draw(first->Some_0.1, seed, 0, 2, m) is None
}

/// Deal a fresh hand: reset every player's flags, zero the bet level, roll
/// any stale contributions into the pot, and deal two hole cards to each
/// player from the freshly shuffled deck, drawn by the context seed.
///
/// Fails with `MissingContext` when the context has no seed, and with
/// `InternalInvariantViolation` when the seeded draw gives up; either way the
/// state is left unchanged.
pub fn deal_new_hand(state: &mut State, ctx: &Context) -> (r: Result<(), Errors>)
    requires
        wf(*old(state)),
        old(state).hand_over,
    ensures
        match r {
            Ok(()) => {
                &&& wf(*final(state))
                &&& ctx.seed is Some
                &&& !final(state).hand_over
                &&& final(state).needs_action@ == seq![true, true]
                &&& final(state).still_in@ == seq![true, true]
                &&& final(state).bet_amount == 0
                &&& final(state).chip_table@ == seq![0u16, 0u16]
                &&& final(state).hand_pot == old(state).hand_pot + old(state).chip_table@[0]
                    + old(state).chip_table@[1]
                &&& chip_total(*final(state)) == chip_total(*old(state))
                &&& final(state).last_move@ == "New Hand"@
                &&& final(state).hands@.len() == 2
                &&& final(state).hands@[0]@.len() == 2
                &&& final(state).hands@[1]@.len() == 2
                &&& deal_pinned(
                    ctx.seed->Some_0,
                    final(state).hands@[0]@,
                    final(state).hands@[1]@,
                    final(state).cards@,
                )
                &&& final(state).chips@ == old(state).chips@
                &&& final(state).dealer == old(state).dealer
                &&& final(state).card_table@ == old(state).card_table@
                &&& final(state).hand_result == old(state).hand_result
            },
            Err(e) => {
                &&& (e == Errors::MissingContext <==> ctx.seed is None)
                &&& (e == Errors::InternalInvariantViolation <==> (ctx.seed is Some && deal_fails(
                    ctx.seed->Some_0,
                )))
                &&& (e == Errors::MissingContext || e == Errors::InternalInvariantViolation)
                &&& final(state).cards@ == old(state).cards@
                &&& final(state).hands@ == old(state).hands@
                &&& final(state).needs_action@ == old(state).needs_action@
                &&& final(state).still_in@ == old(state).still_in@
                &&& final(state).dealer == old(state).dealer
                &&& final(state).card_table@ == old(state).card_table@
                &&& final(state).chips@ == old(state).chips@
                &&& final(state).chip_table@ == old(state).chip_table@
                &&& final(state).bet_amount == old(state).bet_amount
                &&& final(state).hand_pot == old(state).hand_pot
                &&& final(state).hand_over == old(state).hand_over
                &&& final(state).last_move == old(state).last_move
                &&& final(state).hand_result == old(state).hand_result
            },
        },
{
    let seed = match ctx.seed {
        Some(seed) => seed,
        None => {
            return Err(Errors::MissingContext);
        },
    };

    proof {
        assert(dealt_cards(*state) =~= Seq::<Card>::empty());
    }

    // Draw both hole hands before committing anything else, so that a failed
    // draw leaves the state unchanged.
    let hand0 = match crate::deck::draw_cards(&mut state.cards, seed, 2) {
        Ok(cards) => cards,
        Err(e) => {
            proof {
                lemma_full_deck_avail();
                assert(deal_fails(seed));
            }
            state.cards = make_full_deck();
            return Err(Errors::InternalInvariantViolation);
        },
    };
    let ghost deck1 = state.cards@;
    let hand1 = match crate::deck::draw_cards(&mut state.cards, seed, 2) {
        Ok(cards) => cards,
        Err(e) => {
            proof {
                lemma_full_deck_avail();
                assert(avail_count(deck1) == 50);
                assert(deal_fails(seed));
            }
            state.cards = make_full_deck();
            return Err(Errors::InternalInvariantViolation);
        },
    };
    let ghost deck2 = state.cards@;

    let ct0 = state.chip_table[0];
    let ct1 = state.chip_table[1];
    state.hand_pot = state.hand_pot + ct0;
    state.hand_pot = state.hand_pot + ct1;
    state.chip_table.set(0, 0);
    state.chip_table.set(1, 0);
    state.bet_amount = 0;
    state.hands.set(0, hand0);
    state.hands.set(1, hand1);
    state.needs_action.set(0, true);
    state.needs_action.set(1, true);
    state.still_in.set(0, true);
    state.still_in.set(1, true);
    state.hand_over = false;
    state.last_move = String::from_str("New Hand");

    proof {
        assert(state.needs_action@ =~= seq![true, true]);
        assert(state.still_in@ =~= seq![true, true]);
        assert(state.chip_table@ =~= seq![0u16, 0u16]);
        let dealt = dealt_cards(*state);
        assert(dealt =~= hand0@ + hand1@);
        assert forall|k: int| 0 <= k < dealt.len() implies card_dealable(#[trigger] dealt[k])
            && !deck2[card_slot(dealt[k])] by {
            if k < 2 {
                assert(dealt[k] == hand0@[k]);
                assert(card_dealable(hand0@[k]));
                assert(crate::deck::drawn_slot(hand0@, card_slot(hand0@[k])));
                assert(0 <= card_slot(hand0@[k]) < 52);
                assert(deck1[card_slot(hand0@[k])] == (old(state).cards@[card_slot(hand0@[k])]
                    && !crate::deck::drawn_slot(hand0@, card_slot(hand0@[k]))));
                assert(!deck1[card_slot(hand0@[k])]);
                assert(deck2[card_slot(hand0@[k])] == (deck1[card_slot(hand0@[k])]
                    && !crate::deck::drawn_slot(hand1@, card_slot(hand0@[k]))));
            } else {
                assert(dealt[k] == hand1@[k - 2]);
                assert(crate::deck::drawn_slot(hand1@, card_slot(hand1@[k - 2])));
                assert(deck2[card_slot(hand1@[k - 2])] == (deck1[card_slot(hand1@[k - 2])]
                    && !crate::deck::drawn_slot(hand1@, card_slot(hand1@[k - 2]))));
            }
        }
        assert forall|k1: int, k2: int| 0 <= k1 < k2 < dealt.len() implies card_slot(dealt[k1])
            != card_slot(dealt[k2]) by {
            if k2 < 2 {
                assert(dealt[k1] == hand0@[k1]);
                assert(dealt[k2] == hand0@[k2]);
            } else if k1 < 2 && k2 >= 2 {
                assert(dealt[k1] == hand0@[k1]);
                assert(dealt[k2] == hand1@[k2 - 2]);
                assert(crate::deck::drawn_slot(hand0@, card_slot(hand0@[k1])));
                assert(deck1[card_slot(hand0@[k1])] == (old(state).cards@[card_slot(hand0@[k1])]
                    && !crate::deck::drawn_slot(hand0@, card_slot(hand0@[k1]))));
                assert(!deck1[card_slot(hand0@[k1])]);
                assert(deck1[card_slot(hand1@[k2 - 2])]);
            } else {
                assert(dealt[k1] == hand1@[k1 - 2]);
                assert(dealt[k2] == hand1@[k2 - 2]);
            }
        }
        let m = crate::deck::MAX_DRAW_ATTEMPTS as nat;
        assert(old(state).cards@ == full_deck());
        assert(crate::deck::spec_draw(full_deck(), seed, 0, 2, m) == Some((hand0@, deck1)));
        assert(crate::deck::spec_draw(deck1, seed, 0, 2, m) == Some((hand1@, deck2)));
        assert(deal_pinned(seed, hand0@, hand1@, deck2));
    }
    Ok(())
}

/// Pay the whole pot, including the open contributions, to `winner`; mark
/// every still-in player as owing a confirmation.
pub fn payout_hand(winner: &usize, state: &mut State)
    requires
        wf(*old(state)),
        *winner < 2,
    ensures
        wf(*final(state)),
        final(state).bet_amount == 0,
        final(state).hand_pot == 0,
        final(state).chip_table@ == seq![0u16, 0u16],
        final(state).chips@[*winner as int] == old(state).chips@[*winner as int] + old(
            state,
        ).hand_pot + old(state).chip_table@[0] + old(state).chip_table@[1],
        final(state).chips@[1 - *winner as int] == old(state).chips@[1 - *winner as int],
        forall|i: int|
            0 <= i < 2 ==> final(state).needs_action@[i] == ((#[trigger] old(
                state,
            ).still_in@[i]) || old(state).needs_action@[i]),
        chip_total(*final(state)) == chip_total(*old(state)),
        final(state).last_move@ == old(state).last_move@ + " - HAND OVER"@,
        final(state).cards@ == old(state).cards@,
        final(state).hands@ == old(state).hands@,
        final(state).still_in@ == old(state).still_in@,
        final(state).dealer == old(state).dealer,
        final(state).card_table@ == old(state).card_table@,
        final(state).hand_over == old(state).hand_over,
        final(state).hand_result == old(state).hand_result,
{
    state.bet_amount = 0;
    let ct0 = state.chip_table[0];
    let ct1 = state.chip_table[1];
    state.hand_pot = state.hand_pot + ct0;
    state.hand_pot = state.hand_pot + ct1;
    let w = *winner;
    let cw = state.chips[w];
    state.chips.set(w, cw + state.hand_pot);
    state.chip_table.set(0, 0);
    state.chip_table.set(1, 0);
    state.hand_pot = 0;
    state.last_move.append(" - HAND OVER");
    if state.still_in[0] {
        state.needs_action.set(0, true);
    }
    if state.still_in[1] {
        state.needs_action.set(1, true);
    }
    proof {
        assert(state.chip_table@ =~= seq![0u16, 0u16]);
        assert(dealt_cards(*state) =~= dealt_cards(*old(state)));
    }
}

/// The seat that deals the next hand: the other player if they still hold
/// chips, else the same dealer if they do.
pub open spec fn next_dealer(s: State) -> u16 {
    let other = (3 - s.dealer) as u16;
    if s.chips@[other - 1] > 0 {
        other
    } else {
        s.dealer
    }
}

/// Retire the hand: advance the dealer past bust players, clear the table
/// and both hole hands, shuffle the full deck back together, and mark every
/// player as out of the hand until the next deal.
///
/// Fails with `InternalInvariantViolation`, leaving the state unchanged, when
/// no player holds chips any more.
pub fn reset_hand(state: &mut State, ctx: &Context) -> (r: Result<(), Errors>)
    requires
        wf(*old(state)),
        round_over(*old(state)),
        ctx.num_players == 2,
    ensures
        match r {
            Ok(()) => {
                &&& wf(*final(state))
                &&& (old(state).chips@[0] > 0 || old(state).chips@[1] > 0)
                &&& final(state).dealer == next_dealer(*old(state))
                &&& final(state).hand_over
                &&& final(state).card_table@.len() == 0
                &&& final(state).hands@.len() == 2
                &&& final(state).hands@[0]@.len() == 0
                &&& final(state).hands@[1]@.len() == 0
                &&& final(state).cards@ == full_deck()
                &&& final(state).still_in@ == seq![false, false]
                &&& chip_total(*final(state)) == chip_total(*old(state))
                &&& final(state).chips@ == old(state).chips@
                &&& final(state).chip_table@ == old(state).chip_table@
                &&& final(state).hand_pot == old(state).hand_pot
                &&& final(state).bet_amount == old(state).bet_amount
                &&& final(state).needs_action@ == old(state).needs_action@
                &&& final(state).last_move == old(state).last_move
                &&& final(state).hand_result == old(state).hand_result
            },
            Err(e) => {
                &&& e == Errors::InternalInvariantViolation
                &&& old(state).chips@[0] == 0 && old(state).chips@[1] == 0
                &&& *final(state) == *old(state)
            },
        },
{
    // Advance the dealer, skipping players without chips; decide before
    // mutating anything.
    let cand = (state.dealer % 2) + 1;
    let new_dealer: u16;
    if state.chips[(cand - 1) as usize] > 0 {
        new_dealer = cand;
    } else if state.chips[(state.dealer - 1) as usize] > 0 {
        new_dealer = state.dealer;
    } else {
        return Err(Errors::InternalInvariantViolation);
    }
    proof {
        assert(cand as int == 3 - state.dealer);
    }

    state.dealer = new_dealer;
    state.hand_over = true;
    state.card_table = Vec::new();
    let mut hands: Vec<Vec<Card>> = Vec::new();
    hands.push(Vec::new());
    hands.push(Vec::new());
    state.hands = hands;
    state.cards = make_full_deck();
    state.still_in.set(0, false);
    state.still_in.set(1, false);

    proof {
        assert(state.still_in@ =~= seq![false, false]);
        lemma_full_deck_avail();
        assert(dealt_cards(*state) =~= Seq::<Card>::empty());
    }
    Ok(())
}

} // verus!
