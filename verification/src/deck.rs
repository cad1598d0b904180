//! The 52-slot deck and the seeded draw procedure.
//!
//! A deck is an availability table: slot `suit * 13 + rank - 1` is `true`
//! while the card is still drawable and `false` once it has been dealt this
//! hand.  Drawing rejection-samples the seeded stream until enough distinct
//! available slots have been hit, so no card can be dealt twice in one hand.

use vstd::prelude::*;
use vstd::pervasive::VecAdditionalExecFns;
use crate::cards::Card;
use crate::cards::card_dealable;
use crate::cards::card_slot;
use crate::errors::Errors;
use crate::rng::sample_at;
use crate::rng::sample_pair;
use crate::rng::sampler_new;

verus! {

/// The deck: 52 availability slots.
pub type CardDeck = Vec<bool>;

/// How many rejection-sampling attempts one draw may spend before it gives up
/// and reports the state machine stuck.  With even a single card left, a run
/// of this many misses is beyond astronomically unlikely; the cap only turns
/// an endless loop into an explicit error.
pub const MAX_DRAW_ATTEMPTS: u64 = 65536;

/// How many slots of `deck` are still available.
pub open spec fn avail_count(deck: Seq<bool>) -> nat
    decreases deck.len(),
{
    if deck.len() == 0 {
        0
    } else {
        avail_count(deck.drop_last()) + if deck.last() { 1nat } else { 0nat }
    }
}

/// A deck with every card still in it.
pub open spec fn full_deck() -> Seq<bool> {
    Seq::new(52, |i: int| true)
}

/// Some already-drawn card occupies `slot`.
pub open spec fn drawn_slot(cards: Seq<Card>, slot: int) -> bool {
    exists|k: int| 0 <= k < cards.len() && card_slot(cards[k]) == slot
}

/// What a draw of `need` cards yields: the cards in draw order and the deck
/// that remains, starting from stream step `pos`, or `None` when `fuel`
/// rejection-sampling attempts are not enough.  Together with
/// [`lemma_spec_draw_unique`] this pins the outcome of a draw as a function
/// of the deck and the seed alone.
pub open spec fn spec_draw(
    deck: Seq<bool>,
    seed: u128,
    pos: nat,
    need: nat,
    fuel: nat,
) -> Option<(Seq<Card>, Seq<bool>)>
    decreases fuel,
{
    if need == 0 {
        Some((Seq::empty(), deck))
    } else if fuel == 0 {
        None
    } else {
        let c = sample_at(seed, pos);
        let slot = c.0 * 13 + c.1;
        if c.0 < 4 && c.1 < 13 && deck[slot as int] {
            match spec_draw(
                deck.update(slot as int, false),
                seed,
                pos + 1,
                (need - 1) as nat,
                (fuel - 1) as nat,
            ) {
                Some(p) => Some(
                    (seq![Card { suit: c.0, rank: (c.1 + 1) as u8 }] + p.0, p.1),
                ),
                None => None,
            }
        } else {
            spec_draw(deck, seed, pos + 1, need, (fuel - 1) as nat)
        }
    }
}

/// A draw that succeeds within some attempt budget succeeds, with the same
/// outcome, within any larger budget.
pub proof fn lemma_spec_draw_monotone(
    deck: Seq<bool>,
    seed: u128,
    pos: nat,
    need: nat,
    f1: nat,
    f2: nat,
)
    requires
        f1 <= f2,
        spec_draw(deck, seed, pos, need, f1) is Some,
    ensures
        spec_draw(deck, seed, pos, need, f2) == spec_draw(deck, seed, pos, need, f1),
    decreases f1,
{
    if need == 0 {
    } else {
        let c = sample_at(seed, pos);
        let slot = c.0 * 13 + c.1;
        if c.0 < 4 && c.1 < 13 && deck[slot as int] {
            lemma_spec_draw_monotone(
                deck.update(slot as int, false),
                seed,
                pos + 1,
                (need - 1) as nat,
                (f1 - 1) as nat,
                (f2 - 1) as nat,
            );
        } else {
            lemma_spec_draw_monotone(deck, seed, pos + 1, need, (f1 - 1) as nat, (f2 - 1) as nat);
        }
    }
}

/// A draw's outcome does not depend on the attempt budget: any two budgets
/// that suffice yield the same cards and the same remaining deck.
pub proof fn lemma_spec_draw_unique(
    deck: Seq<bool>,
    seed: u128,
    pos: nat,
    need: nat,
    f1: nat,
    f2: nat,
)
    requires
        spec_draw(deck, seed, pos, need, f1) is Some,
        spec_draw(deck, seed, pos, need, f2) is Some,
    ensures
        spec_draw(deck, seed, pos, need, f1) == spec_draw(deck, seed, pos, need, f2),
{
    if f1 <= f2 {
        lemma_spec_draw_monotone(deck, seed, pos, need, f1, f2);
    } else {
        lemma_spec_draw_monotone(deck, seed, pos, need, f2, f1);
    }
}

/// Mid-draw bookkeeping: whatever a draw of `rem` more cards from `deck` at
/// stream step `pos` yields, prefixing it with the cards already drawn gives
/// the outcome of the whole draw of `num` cards from `deck0` at step 0.
pub open spec fn draw_extends(
    deck0: Seq<bool>,
    seed: u128,
    num: nat,
    cv: Seq<Card>,
    deck: Seq<bool>,
    pos: nat,
    rem: nat,
) -> bool {
    &&& forall|f: nat|
        (#[trigger] spec_draw(deck, seed, pos, rem, f)) is Some ==> spec_draw(
            deck0,
            seed,
            0,
            num,
            pos + f,
        ) == Some(
            (
                cv + spec_draw(deck, seed, pos, rem, f)->Some_0.0,
                spec_draw(deck, seed, pos, rem, f)->Some_0.1,
            ),
        )
    &&& forall|f: nat|
        (#[trigger] spec_draw(deck, seed, pos, rem, f)) is None ==> spec_draw(
            deck0,
            seed,
            0,
            num,
            pos + f,
        ) is None
}

/// Marking an available slot unavailable lowers the availability count by one.
proof fn lemma_avail_update(deck: Seq<bool>, slot: int)
    requires
        0 <= slot < deck.len(),
        deck[slot],
    ensures
        avail_count(deck.update(slot, false)) == avail_count(deck) - 1,
    decreases deck.len(),
{
    let updated = deck.update(slot, false);
    if slot == deck.len() - 1 {
        assert(updated.drop_last() =~= deck.drop_last());
    } else {
        assert(updated.drop_last() =~= deck.drop_last().update(slot, false));
        lemma_avail_update(deck.drop_last(), slot);
    }
}

/// Extending a prefix by one slot adds that slot's availability.
proof fn lemma_avail_take_step(deck: Seq<bool>, i: int)
    requires
        0 <= i < deck.len(),
    ensures
        avail_count(deck.take(i + 1)) == avail_count(deck.take(i)) + if deck[i] {
            1nat
        } else {
            0nat
        },
{
    assert(deck.take(i + 1).drop_last() =~= deck.take(i));
}

/// Count how many slots of `deck` are still available.
pub fn count_available(deck: &CardDeck) -> (r: usize)
    ensures
        r == avail_count(deck@),
{
    let n = deck.len();
    let mut count: usize = 0;
    let mut i: usize = 0;
    while i < n
        invariant
            i <= n,
            n == deck@.len(),
            count <= i,
            count == avail_count(deck@.take(i as int)),
        decreases n - i,
    {
        proof {
            lemma_avail_take_step(deck@, i as int);
        }
        if deck[i] {
            count += 1;
        }
        i += 1;
    }
    assert(deck@.take(n as int) =~= deck@);
    count
}

/// Draw `num_cards_needed` distinct cards from `deck` by rejection-sampling
/// the stream keyed by `seed`, marking each drawn slot unavailable.
///
/// The draw fails, leaving the deck unchanged, when more cards are requested
/// than the deck still holds, or — instead of looping forever — when
/// [`MAX_DRAW_ATTEMPTS`] samples were not enough; otherwise the cards drawn
/// are the ones the seeded stream dictates, so a draw is reproducible from
/// the deck and the seed.
pub fn draw_cards(deck: &mut CardDeck, seed: u128, num_cards_needed: u8) -> (r: Result<
    Vec<Card>,
    Errors,
>)
    requires
        old(deck)@.len() == 52,
    ensures
        final(deck)@.len() == 52,
        match r {
            Ok(cards) => {
                &&& num_cards_needed as nat <= avail_count(old(deck)@)
                &&& cards@.len() == num_cards_needed as nat
                &&& forall|k: int| 0 <= k < cards@.len() ==> card_dealable(#[trigger] cards@[k])
                &&& forall|k: int|
                    0 <= k < cards@.len() ==> old(deck)@[card_slot(#[trigger] cards@[k])]
                &&& forall|k1: int, k2: int|
                    0 <= k1 < k2 < cards@.len() ==> card_slot(cards@[k1]) != card_slot(cards@[k2])
                &&& forall|s: int|
                    0 <= s < 52 ==> final(deck)@[s] == (old(deck)@[s] && !(#[trigger] drawn_slot(
                        cards@,
                        s,
                    )))
                &&& forall|k: int|
                    0 <= k < cards@.len() ==> !final(deck)@[card_slot(#[trigger] cards@[k])]
                &&& forall|s: int| 0 <= s < 52 && !old(deck)@[s] ==> !(#[trigger] final(deck)@[s])
                &&& avail_count(final(deck)@) == avail_count(old(deck)@) - num_cards_needed as nat
                &&& spec_draw(
                    old(deck)@,
                    seed,
                    0,
                    num_cards_needed as nat,
                    MAX_DRAW_ATTEMPTS as nat,
                ) == Some((cards@, final(deck)@))
            },
            Err(e) => {
                &&& e == Errors::InternalInvariantViolation
                &&& final(deck)@ == old(deck)@
                &&& (num_cards_needed as nat > avail_count(old(deck)@) || spec_draw(
                    old(deck)@,
                    seed,
                    0,
                    num_cards_needed as nat,
                    MAX_DRAW_ATTEMPTS as nat,
                ) is None)
            },
        },
{
    let remaining = count_available(deck);
    if num_cards_needed as usize > remaining {
        return Err(Errors::InternalInvariantViolation);
    }

    // Work on a copy so that a failed draw leaves the deck untouched.
    let mut work: Vec<bool> = Vec::new();
    let mut i: usize = 0;
    while i < 52
        invariant
            i <= 52,
            deck@.len() == 52,
            work@ =~= deck@.take(i as int),
        decreases 52 - i,
    {
        work.push(deck[i]);
        i += 1;
    }
    assert(work@ =~= deck@);

    let mut sampler = sampler_new(seed);
    let mut num_cards_drawn: u8 = 0;
    let mut attempts: u64 = 0;
    let mut card_vec: Vec<Card> = Vec::new();

    proof {
        assert forall|f: nat|
            (#[trigger] spec_draw(work@, seed, 0nat, num_cards_needed as nat, f)) is Some implies spec_draw(
            deck@,
            seed,
            0,
            num_cards_needed as nat,
            0nat + f,
        ) == Some(
            (
                card_vec@ + spec_draw(work@, seed, 0nat, num_cards_needed as nat, f)->Some_0.0,
                spec_draw(work@, seed, 0nat, num_cards_needed as nat, f)->Some_0.1,
            ),
        ) by {
            let p = spec_draw(work@, seed, 0nat, num_cards_needed as nat, f)->Some_0;
            assert(card_vec@ + p.0 =~= p.0);
        }
    }

    while num_cards_drawn != num_cards_needed && attempts < MAX_DRAW_ATTEMPTS
        invariant
            work@.len() == 52,
            deck@.len() == 52,
            num_cards_drawn <= num_cards_needed,
            sampler.seed() == seed,
            attempts == sampler.pos(),
            attempts <= MAX_DRAW_ATTEMPTS,
            card_vec@.len() == num_cards_drawn as nat,
            forall|k: int| 0 <= k < card_vec@.len() ==> card_dealable(#[trigger] card_vec@[k]),
            forall|k: int| 0 <= k < card_vec@.len() ==> deck@[card_slot(#[trigger] card_vec@[k])],
            forall|k1: int, k2: int|
                0 <= k1 < k2 < card_vec@.len() ==> card_slot(card_vec@[k1]) != card_slot(
                    card_vec@[k2],
                ),
            forall|s: int| 0 <= s < 52 ==> work@[s] == (deck@[s] && !drawn_slot(card_vec@, s)),
            avail_count(work@) == avail_count(deck@) - num_cards_drawn as nat,
            num_cards_needed as nat <= avail_count(deck@),
            draw_extends(
                deck@,
                seed,
                num_cards_needed as nat,
                card_vec@,
                work@,
                sampler.pos(),
                (num_cards_needed - num_cards_drawn) as nat,
            ),
        decreases MAX_DRAW_ATTEMPTS - attempts,
    {
        let ghost work0 = work@;
        let ghost cv0 = card_vec@;
        let ghost pos0 = sampler.pos();
        let ghost rem0 = (num_cards_needed - num_cards_drawn) as nat;

        let (card_suit, card_rank) = sample_pair(&mut sampler);
        attempts += 1;
        let slot = (card_suit as usize) * 13 + (card_rank as usize);

        if work[slot] {
            num_cards_drawn += 1;
            work.set(slot, false);
            let card = Card { suit: card_suit, rank: card_rank + 1 };
            card_vec.push(card);

            proof {
                lemma_avail_update(work0, slot as int);
                assert(card_slot(card) == slot as int);
                assert forall|s: int| 0 <= s < 52 implies work@[s] == (deck@[s] && !drawn_slot(
                    card_vec@,
                    s,
                )) by {
                    if s == slot as int {
                        assert(card_slot(card_vec@[card_vec@.len() - 1]) == s);
                        assert(drawn_slot(card_vec@, s));
                    } else {
                        if drawn_slot(cv0, s) {
                            let k = choose|k: int|
                                0 <= k < cv0.len() && card_slot(cv0[k]) == s;
                            assert(card_slot(card_vec@[k]) == s);
                            assert(drawn_slot(card_vec@, s));
                        }
                        if drawn_slot(card_vec@, s) {
                            let k = choose|k: int|
                                0 <= k < card_vec@.len() && card_slot(card_vec@[k]) == s;
                            assert(k < cv0.len());
                            assert(card_slot(cv0[k]) == s);
                            assert(drawn_slot(cv0, s));
                        }
                    }
                }
                let remn = (num_cards_needed - num_cards_drawn) as nat;
                assert forall|f: nat|
                    (#[trigger] spec_draw(work@, seed, sampler.pos(), remn, f)) is Some implies spec_draw(
                    deck@,
                    seed,
                    0,
                    num_cards_needed as nat,
                    sampler.pos() + f,
                ) == Some(
                    (
                        card_vec@ + spec_draw(work@, seed, sampler.pos(), remn, f)->Some_0.0,
                        spec_draw(work@, seed, sampler.pos(), remn, f)->Some_0.1,
                    ),
                ) by {
                    let p = spec_draw(work@, seed, sampler.pos(), remn, f)->Some_0;
                    assert(spec_draw(work0, seed, pos0, rem0, f + 1) == Some(
                        (seq![card] + p.0, p.1),
                    ));
                    assert(spec_draw(work0, seed, pos0, rem0, f + 1) is Some);
                    assert(cv0 + (seq![card] + p.0) =~= card_vec@ + p.0);
                }
                assert forall|f: nat|
                    (#[trigger] spec_draw(work@, seed, sampler.pos(), remn, f)) is None implies spec_draw(
                    deck@,
                    seed,
                    0,
                    num_cards_needed as nat,
                    sampler.pos() + f,
                ) is None by {
                    assert(spec_draw(work0, seed, pos0, rem0, f + 1) is None);
                }
            }
        } else {
            proof {
                let remn = (num_cards_needed - num_cards_drawn) as nat;
                assert forall|f: nat|
                    (#[trigger] spec_draw(work@, seed, sampler.pos(), remn, f)) is Some implies spec_draw(
                    deck@,
                    seed,
                    0,
                    num_cards_needed as nat,
                    sampler.pos() + f,
                ) == Some(
                    (
                        card_vec@ + spec_draw(work@, seed, sampler.pos(), remn, f)->Some_0.0,
                        spec_draw(work@, seed, sampler.pos(), remn, f)->Some_0.1,
                    ),
                ) by {
                    assert(spec_draw(work0, seed, pos0, rem0, f + 1) == spec_draw(
                        work@,
                        seed,
                        sampler.pos(),
                        rem0,
                        f,
                    ));
                    assert(spec_draw(work0, seed, pos0, rem0, f + 1) is Some);
                }
                assert forall|f: nat|
                    (#[trigger] spec_draw(work@, seed, sampler.pos(), remn, f)) is None implies spec_draw(
                    deck@,
                    seed,
                    0,
                    num_cards_needed as nat,
                    sampler.pos() + f,
                ) is None by {
                    assert(spec_draw(work0, seed, pos0, rem0, f + 1) == spec_draw(
                        work@,
                        seed,
                        sampler.pos(),
                        rem0,
                        f,
                    ));
                }
            }
        }
    }

    if num_cards_drawn != num_cards_needed {
        proof {
            let remn = (num_cards_needed - num_cards_drawn) as nat;
            assert(spec_draw(work@, seed, sampler.pos(), remn, 0) is None);
            assert(spec_draw(deck@, seed, 0, num_cards_needed as nat, sampler.pos() + 0)
                is None);
        }
        return Err(Errors::InternalInvariantViolation);
    }

    proof {
        assert(spec_draw(work@, seed, sampler.pos(), 0, 0) == Some(
            (Seq::<Card>::empty(), work@),
        ));
        assert(card_vec@ + Seq::<Card>::empty() =~= card_vec@);
        assert(spec_draw(deck@, seed, 0, num_cards_needed as nat, sampler.pos() + 0) == Some(
            (card_vec@, work@),
        ));
        lemma_spec_draw_monotone(
            deck@,
            seed,
            0,
            num_cards_needed as nat,
            sampler.pos() + 0,
            MAX_DRAW_ATTEMPTS as nat,
        );
    }
    let ghost final_work = work@;
    *deck = work;
    assert(deck@ =~= final_work);
    Ok(card_vec)
}

} // verus!
