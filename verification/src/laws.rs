//! Engine-wide laws: chip conservation, deck uniqueness, determinism.

use vstd::prelude::*;
use crate::cards::Card;
use crate::flow::board_pinned;
use crate::flow::lex_gt;
use crate::flow::pool_of;
use crate::flow::showdown_winner;
use crate::flow::spec_beats;
use crate::resolver::best_category;
use crate::resolver::spec_tiebreak;
use crate::moves::capped_bet;
use crate::moves::check_call_effect;
use crate::moves::fold_effect;
use crate::moves::raise_effect;
use crate::state::State;
use crate::state::chip_total;
use crate::state::deal_pinned;
use crate::state::dealt_cards;
use crate::state::initial_state_spec;
use crate::state::wf;

verus! {

/// A fresh match holds exactly the two starting stacks and nothing else.
pub proof fn lemma_initial_chip_total(s: State)
    requires
        initial_state_spec(s),
    ensures
        chip_total(s) == 2 * crate::state::STARTING_CHIPS,
{
}

/// Chip conservation: a check or call moves chips between a stack and the
/// table but never changes the total in play.
pub proof fn lemma_check_call_conserves(s0: State, s1: State, p: int)
    requires
        wf(s0),
        0 <= p < 2,
        s0.still_in@[p],
        check_call_effect(s0, s1, p),
    ensures
        chip_total(s1) == chip_total(s0),
{
}

/// Chip conservation: a bet, raise or all-in moves chips between the acting
/// player's stack and the table but never changes the total in play.
pub proof fn lemma_raise_conserves(s0: State, s1: State, p: int, target: int)
    requires
        wf(s0),
        0 <= p < 2,
        s0.still_in@[p],
        s0.bet_amount <= target,
        raise_effect(s0, s1, p, target),
    ensures
        chip_total(s1) == chip_total(s0),
{
    let newb = capped_bet(s0, target);
    assert(s0.chip_table@[p] <= newb);
    assert(newb <= s0.chips@[p] + s0.chip_table@[p]);
}

/// Chip conservation: a fold moves nothing.
pub proof fn lemma_fold_conserves(s0: State, s1: State, p: int)
    requires
        wf(s0),
        0 <= p < 2,
        fold_effect(s0, s1, p),
    ensures
        chip_total(s1) == chip_total(s0),
{
}

/// Deck uniqueness: in a well-formed state no two dealt cards — hole cards or
/// board — agree on suit and rank.
pub proof fn lemma_dealt_cards_distinct(s: State)
    requires
        wf(s),
    ensures
        forall|k1: int, k2: int|
            0 <= k1 < k2 < dealt_cards(s).len() ==> dealt_cards(s)[k1] != dealt_cards(s)[k2],
{
    let dealt = dealt_cards(s);
    assert forall|k1: int, k2: int| 0 <= k1 < k2 < dealt.len() implies dealt[k1] != dealt[k2] by {
        assert(crate::cards::card_slot(dealt[k1]) != crate::cards::card_slot(dealt[k2]));
    }
}

/// Determinism: two deals pinned to the same seed hold the same hole cards
/// and leave the same deck.  Both deals equal the one value of the draw
/// function at the full attempt budget, so this is immediate.
pub proof fn lemma_deal_deterministic(
    seed: u128,
    h0a: Seq<Card>,
    h1a: Seq<Card>,
    da: Seq<bool>,
    h0b: Seq<Card>,
    h1b: Seq<Card>,
    db: Seq<bool>,
)
    requires
        deal_pinned(seed, h0a, h1a, da),
        deal_pinned(seed, h0b, h1b, db),
    ensures
        h0a == h0b,
        h1a == h1b,
        da == db,
{
}

/// Determinism: two board extensions pinned to the same deck and seed hold
/// the same cards and leave the same deck.  Both equal the one value of the
/// draw function at the full attempt budget, so this is immediate.
pub proof fn lemma_board_deterministic(
    deck0: Seq<bool>,
    seed: u128,
    n: nat,
    exta: Seq<Card>,
    da: Seq<bool>,
    extb: Seq<Card>,
    db: Seq<bool>,
)
    requires
        board_pinned(deck0, seed, n, exta, da),
        board_pinned(deck0, seed, n, extb, db),
    ensures
        exta == extb,
        da == db,
{
}

/// The lexicographic order is asymmetric: two vectors never both beat each
/// other.
pub proof fn lemma_lex_gt_asymmetric(a: Seq<u8>, b: Seq<u8>)
    requires
        lex_gt(a, b),
    ensures
        !lex_gt(b, a),
    decreases a.len(),
{
    if a.len() != 0 && b.len() != 0 && a.first() == b.first() {
        lemma_lex_gt_asymmetric(a.drop_first(), b.drop_first());
    }
}

/// The lexicographic order is irreflexive: no vector beats itself.
pub proof fn lemma_lex_gt_irreflexive(a: Seq<u8>)
    ensures
        !lex_gt(a, a),
    decreases a.len(),
{
    if a.len() != 0 {
        lemma_lex_gt_irreflexive(a.drop_first());
    }
}

/// The showdown pays a best-ranked player: no still-in player strictly beats
/// the winner's ranking.  Exact ties fall to the earlier seat.
pub proof fn lemma_showdown_winner_maximal(s: State)
    ensures
        forall|i: int|
            0 <= i < 2 && s.still_in@[i] ==> !spec_beats(
                best_category(pool_of(s, i)),
                spec_tiebreak(pool_of(s, i)),
                best_category(pool_of(s, showdown_winner(s))),
                spec_tiebreak(pool_of(s, showdown_winner(s))),
            ),
{
    let w = showdown_winner(s);
    assert forall|i: int| 0 <= i < 2 && s.still_in@[i] implies !spec_beats(
        best_category(pool_of(s, i)),
        spec_tiebreak(pool_of(s, i)),
        best_category(pool_of(s, w)),
        spec_tiebreak(pool_of(s, w)),
    ) by {
        if i == w {
            lemma_lex_gt_irreflexive(spec_tiebreak(pool_of(s, w)));
        } else if s.still_in@[0] && s.still_in@[1] && w == 1 {
            if lex_gt(spec_tiebreak(pool_of(s, 1)), spec_tiebreak(pool_of(s, 0))) {
                lemma_lex_gt_asymmetric(
                    spec_tiebreak(pool_of(s, 1)),
                    spec_tiebreak(pool_of(s, 0)),
                );
            }
        }
    }
}

} // verus!
