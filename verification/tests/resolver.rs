use poker_core::cards::Card;
use poker_core::resolver::evaluate_best_hand;
use poker_core::resolver::hand_to_string;

fn c(suit: u8, rank: u8) -> Card {
    Card { suit, rank }
}

// Suits: 0 = spades, 1 = hearts, 2 = diamonds, 3 = clubs.

#[test]
fn resolver_full_house_of_deuces_over_kings() {
    // Three deuces and a pair of kings: a full house, deuces full of kings.
    let hand = vec![c(0, 2), c(1, 2), c(2, 2), c(3, 5), c(0, 9), c(2, 13), c(0, 13)];
    let r = evaluate_best_hand(0, &hand);
    assert_eq!(r.player, 0);
    assert_eq!(r.hand, 6);
    assert_eq!(r.tiebreak, vec![2, 13]);
}

#[test]
fn resolver_ace_high_straight_flush() {
    // Broadway in spades, with the ace encoded as rank 14.
    let hand = vec![c(0, 10), c(0, 11), c(0, 12), c(0, 13), c(0, 14), c(1, 2), c(2, 3)];
    let r = evaluate_best_hand(1, &hand);
    assert_eq!(r.player, 1);
    assert_eq!(r.hand, 8);
    assert_eq!(r.tiebreak, vec![14]);
}

#[test]
fn resolver_two_pair_nines_and_sevens_kicker_three() {
    // The third pair of threes is demoted to the kicker slot.
    let hand = vec![c(3, 3), c(2, 3), c(1, 7), c(0, 7), c(3, 9), c(2, 9), c(0, 2)];
    let r = evaluate_best_hand(0, &hand);
    assert_eq!(r.hand, 2);
    assert_eq!(r.tiebreak, vec![9, 7, 3]);
}

#[test]
fn resolver_high_card_top_five_descending() {
    let hand = vec![c(3, 2), c(2, 5), c(1, 7), c(0, 9), c(3, 11), c(2, 13), c(0, 4)];
    let r = evaluate_best_hand(1, &hand);
    assert_eq!(r.hand, 0);
    assert_eq!(r.tiebreak, vec![13, 11, 9, 7, 5]);
}

#[test]
fn resolver_quads_take_highest_single_as_kicker() {
    // Four deuces; the kings stay a pair, so the nine is the kicker slot.
    let hand = vec![c(0, 2), c(1, 2), c(2, 2), c(3, 2), c(0, 9), c(2, 13), c(0, 13)];
    let r = evaluate_best_hand(0, &hand);
    assert_eq!(r.hand, 7);
    assert_eq!(r.tiebreak, vec![2, 9]);
}

#[test]
fn resolver_quads_with_triple_demotes_it_to_kicker() {
    // Four kings and three deuces: no single remains, the triple fills in.
    let hand = vec![c(0, 13), c(1, 13), c(2, 13), c(3, 13), c(0, 2), c(1, 2), c(2, 2)];
    let r = evaluate_best_hand(0, &hand);
    assert_eq!(r.hand, 7);
    assert_eq!(r.tiebreak, vec![13, 2]);
}

#[test]
fn resolver_flush_takes_first_enumerated_subset() {
    // Six spades and one heart.  Sorted descending the pool is
    // A K Q 9 8 5(hearts) 3; the first removal pair in lexicographic order
    // that leaves five cards of one suit is (0, 5), dropping the ace and the
    // heart, so the tie-break holds the remaining spades.
    let hand = vec![c(0, 14), c(0, 13), c(0, 12), c(0, 9), c(0, 8), c(0, 3), c(1, 5)];
    let r = evaluate_best_hand(0, &hand);
    assert_eq!(r.hand, 5);
    assert_eq!(r.tiebreak, vec![13, 12, 9, 8, 3]);
}

#[test]
fn resolver_straight_high_card_nine() {
    let hand = vec![c(0, 9), c(1, 8), c(2, 7), c(3, 6), c(0, 5), c(1, 13), c(2, 2)];
    let r = evaluate_best_hand(0, &hand);
    assert_eq!(r.hand, 4);
    assert_eq!(r.tiebreak, vec![9]);
}

#[test]
fn resolver_triple_with_two_best_kickers() {
    let hand = vec![c(0, 4), c(1, 4), c(2, 4), c(3, 9), c(0, 12), c(1, 7), c(2, 2)];
    let r = evaluate_best_hand(0, &hand);
    assert_eq!(r.hand, 3);
    assert_eq!(r.tiebreak, vec![4, 12, 9]);
}

#[test]
fn resolver_pair_with_three_best_kickers() {
    let hand = vec![c(0, 4), c(1, 4), c(2, 6), c(3, 9), c(0, 12), c(1, 7), c(2, 2)];
    let r = evaluate_best_hand(0, &hand);
    assert_eq!(r.hand, 1);
    assert_eq!(r.tiebreak, vec![4, 12, 9, 7]);
}

#[test]
fn resolver_full_house_prefers_higher_triple() {
    // Two triples: the higher one is the triple, the lower serves as pair.
    let hand = vec![c(0, 9), c(1, 9), c(2, 9), c(0, 5), c(1, 5), c(2, 5), c(3, 14)];
    let r = evaluate_best_hand(0, &hand);
    assert_eq!(r.hand, 6);
    assert_eq!(r.tiebreak, vec![9, 5]);
}

#[test]
fn hand_labels() {
    assert_eq!(hand_to_string(&8), "Straight Flush");
    assert_eq!(hand_to_string(&7), "Four of a Kind");
    assert_eq!(hand_to_string(&6), "Full House");
    assert_eq!(hand_to_string(&5), "Flush");
    assert_eq!(hand_to_string(&4), "Straight");
    assert_eq!(hand_to_string(&3), "Three of a Kind");
    assert_eq!(hand_to_string(&2), "Two Pair");
    assert_eq!(hand_to_string(&1), "Pair");
    assert_eq!(hand_to_string(&0), "High Card");
}
