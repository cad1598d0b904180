use poker_core::cards::Card;
use poker_core::errors::Errors;
use poker_core::flow::end_game_if;
use poker_core::flow::end_turn_if;
use poker_core::flow::initial_state;
use poker_core::flow::on_move;
use poker_core::flow::on_turn_begin;
use poker_core::flow::optimistic_update;
use poker_core::moves::poker_move;
use poker_core::state::Context;
use poker_core::state::State;

fn ctx_for(player: u16, seed: u128) -> Context {
    Context { num_players: 2, action_players: Some(vec![player]), seed: Some(seed) }
}

fn chips_in_play(state: &State) -> u32 {
    state.chips[0] as u32 + state.chips[1] as u32 + state.chip_table[0] as u32
        + state.chip_table[1] as u32 + state.hand_pot as u32
}

fn all_dealt(state: &State) -> Vec<Card> {
    let mut cards = Vec::new();
    cards.extend_from_slice(&state.hands[0]);
    cards.extend_from_slice(&state.hands[1]);
    cards.extend_from_slice(&state.card_table);
    cards
}

/// Submit one move and run the post-move evaluation, as the host would.
fn play(state: &mut State, ctx: &mut Context, player: u16, action: u64) {
    ctx.action_players = Some(vec![player]);
    poker_move(state, ctx, player, action).unwrap();
    on_move(state, ctx).unwrap();
}

/// Drive one full hand to showdown: open, call, then check it down.
fn play_hand_to_showdown(state: &mut State, ctx: &mut Context) {
    on_turn_begin(state, ctx).unwrap();
    play(state, ctx, 1, 2);
    play(state, ctx, 2, 1);
    // Flop, turn, river: two checks each.
    for _ in 0..3 {
        on_turn_begin(state, ctx).unwrap();
        play(state, ctx, 1, 1);
        play(state, ctx, 2, 1);
    }
    // One more turn begin triggers nothing new; the showdown already ran.
}

#[test]
fn deal_gives_two_hole_cards_each_and_no_board() {
    let mut state = initial_state(Some(3));
    let ctx = ctx_for(1, 3);
    on_turn_begin(&mut state, &ctx).unwrap();
    assert_eq!(state.hands[0].len(), 2);
    assert_eq!(state.hands[1].len(), 2);
    assert_eq!(state.card_table.len(), 0);
    assert!(!state.hand_over);
    assert_eq!(state.last_move, "New Hand");
}

#[test]
fn board_advances_three_one_one() {
    let mut state = initial_state(Some(3));
    let mut ctx = ctx_for(1, 3);
    on_turn_begin(&mut state, &ctx).unwrap();
    play(&mut state, &mut ctx, 1, 1);
    play(&mut state, &mut ctx, 2, 1);
    on_turn_begin(&mut state, &ctx).unwrap();
    assert_eq!(state.card_table.len(), 3);
    play(&mut state, &mut ctx, 1, 1);
    play(&mut state, &mut ctx, 2, 1);
    on_turn_begin(&mut state, &ctx).unwrap();
    assert_eq!(state.card_table.len(), 4);
    play(&mut state, &mut ctx, 1, 1);
    play(&mut state, &mut ctx, 2, 1);
    on_turn_begin(&mut state, &ctx).unwrap();
    assert_eq!(state.card_table.len(), 5);
}

#[test]
fn dealt_cards_are_pairwise_distinct() {
    let mut state = initial_state(Some(99));
    let mut ctx = ctx_for(1, 99);
    play_hand_to_showdown(&mut state, &mut ctx);
    let cards = all_dealt(&state);
    assert_eq!(cards.len(), 9);
    for i in 0..cards.len() {
        for j in (i + 1)..cards.len() {
            assert!(cards[i] != cards[j], "two dealt cards agree on suit and rank");
        }
        assert!(cards[i].suit < 4 && cards[i].rank >= 1 && cards[i].rank <= 13);
    }
}

#[test]
fn identical_seeds_give_identical_runs() {
    let mut a = initial_state(Some(1234));
    let mut ctx_a = ctx_for(1, 1234);
    play_hand_to_showdown(&mut a, &mut ctx_a);

    let mut b = initial_state(Some(1234));
    let mut ctx_b = ctx_for(1, 1234);
    play_hand_to_showdown(&mut b, &mut ctx_b);

    assert_eq!(a.hands[0], b.hands[0]);
    assert_eq!(a.hands[1], b.hands[1]);
    assert_eq!(a.card_table, b.card_table);
    assert_eq!(a.cards, b.cards);
    assert_eq!(a.chips, b.chips);
    assert_eq!(a.hand_result, b.hand_result);
    assert_eq!(ctx_a.seed, ctx_b.seed);
}

#[test]
fn different_seeds_change_the_cards() {
    // The seeded stream decides the cards: with 52 slots, two seeds agreeing
    // on all nine dealt cards would be a broken stream.
    let mut a = initial_state(Some(1));
    let mut ctx_a = ctx_for(1, 1);
    play_hand_to_showdown(&mut a, &mut ctx_a);
    let mut b = initial_state(Some(2));
    let mut ctx_b = ctx_for(1, 2);
    play_hand_to_showdown(&mut b, &mut ctx_b);
    assert!(all_dealt(&a) != all_dealt(&b));
}

#[test]
fn showdown_pays_the_whole_pot_to_one_winner() {
    let mut state = initial_state(Some(64));
    let mut ctx = ctx_for(1, 64);
    play_hand_to_showdown(&mut state, &mut ctx);

    // Player A opened for 2, player B called: the pot was 4.
    assert_eq!(state.hand_pot, 0);
    assert_eq!(state.chip_table, vec![0, 0]);
    assert_eq!(chips_in_play(&state), 128);
    let winner_take = state.chips.iter().max().unwrap();
    let loser_keep = state.chips.iter().min().unwrap();
    assert_eq!(*winner_take, 66);
    assert_eq!(*loser_keep, 62);
    assert!(state.hand_result.starts_with("Player "));
    assert!(state.hand_result.contains(" wins with "));

    // Both players confirm; the hand is then retired.
    assert!(!state.hand_over);
    play(&mut state, &mut ctx, 1, 99);
    play(&mut state, &mut ctx, 2, 99);
    assert!(state.hand_over);
    assert_eq!(state.hands[0].len(), 0);
    assert_eq!(state.hands[1].len(), 0);
    assert_eq!(state.card_table.len(), 0);
    assert!(!state.still_in[0] && !state.still_in[1]);

    // With chips on both sides the match goes on.
    assert_eq!(end_game_if(&state), None);
}

#[test]
fn fold_ends_the_hand_and_pays_the_remaining_player() {
    let mut state = initial_state(Some(5));
    let mut ctx = ctx_for(1, 5);
    on_turn_begin(&mut state, &ctx).unwrap();
    play(&mut state, &mut ctx, 1, 2);
    play(&mut state, &mut ctx, 2, 0);
    // Player 2 folded: player 1 takes their own bet back.
    assert_eq!(state.chips, vec![64, 64]);
    assert_eq!(state.hand_pot, 0);
    assert_eq!(state.hand_result, "Player 1 wins by fold");
    assert_eq!(chips_in_play(&state), 128);
}

#[test]
fn match_ends_when_one_player_is_out() {
    let mut state = initial_state(Some(5));
    state.chips[0] = 128;
    state.chips[1] = 0;
    state.still_in[0] = false;
    state.still_in[1] = false;
    assert_eq!(end_game_if(&state), Some(1));

    // A broke player still alive in the hand keeps the match open.
    state.still_in[1] = true;
    assert_eq!(end_game_if(&state), None);
}

#[test]
fn missing_seed_is_missing_context() {
    let mut state = initial_state(None);
    let mut ctx = Context { num_players: 2, action_players: Some(vec![1]), seed: None };
    assert_eq!(on_turn_begin(&mut state, &ctx), Err(Errors::MissingContext));
    assert_eq!(on_move(&mut state, &mut ctx), Err(Errors::MissingContext));
}

#[test]
fn draw_fails_when_too_many_cards_are_requested() {
    let mut deck = vec![false; 52];
    let r = poker_core::deck::draw_cards(&mut deck, 9, 1);
    assert_eq!(r, Err(Errors::InternalInvariantViolation));

    let mut full = poker_core::state::make_full_deck();
    let drawn = poker_core::deck::draw_cards(&mut full, 9, 5).unwrap();
    assert_eq!(drawn.len(), 5);
    assert_eq!(full.iter().filter(|b| **b).count(), 47);
}

#[test]
fn all_in_hands_deal_the_board_out_and_show_down() {
    let mut state = initial_state(Some(17));
    let mut ctx = ctx_for(1, 17);
    on_turn_begin(&mut state, &mut ctx).unwrap();
    // Player 1 shoves, player 2 calls: no decisions remain.
    play(&mut state, &mut ctx, 1, 3);
    play(&mut state, &mut ctx, 2, 1);
    // The post-move evaluation dealt the whole board and ran the showdown.
    assert_eq!(state.card_table.len(), 5);
    assert_eq!(state.hand_pot, 0);
    assert_eq!(state.chip_table, vec![0, 0]);
    assert_eq!(chips_in_play(&state), 128);
    // Both stacks went in, so the winner holds everything.
    assert!(state.chips.contains(&128) && state.chips.contains(&0));
    assert!(state.hand_result.contains(" wins with "));
    // Once both players confirm, the hand is retired and the match ends.
    play(&mut state, &mut ctx, 1, 99);
    play(&mut state, &mut ctx, 2, 99);
    assert!(state.hand_over);
    assert!(end_game_if(&state).is_some());
}

#[test]
fn dealer_advances_past_a_broke_player() {
    let mut state = initial_state(Some(21));
    let mut ctx = ctx_for(1, 21);
    on_turn_begin(&mut state, &mut ctx).unwrap();
    play(&mut state, &mut ctx, 1, 3);
    play(&mut state, &mut ctx, 2, 1);
    // One player now holds everything; the other is broke.
    let winner_seat: u16 = if state.chips[0] == 128 { 1 } else { 2 };
    play(&mut state, &mut ctx, 1, 99);
    play(&mut state, &mut ctx, 2, 99);
    assert!(state.hand_over);
    // The dealer pointer lands on the only player with chips.
    assert_eq!(state.dealer, winner_seat);
}

#[test]
fn confirm_with_no_chips_anywhere_is_an_internal_fault() {
    let mut state = initial_state(Some(1));
    // A corrupted table: the hand is closing but nobody holds chips, so no
    // next dealer exists.  The confirmation is rejected unchanged.
    state.chips[0] = 0;
    state.chips[1] = 0;
    state.needs_action[0] = true;
    state.needs_action[1] = false;
    let ctx = ctx_for(1, 1);
    let r = poker_core::moves::poker_move(&mut state, &ctx, 1, 99);
    assert_eq!(r, Err(Errors::InternalInvariantViolation));
    assert!(state.needs_action[0]);
}

#[test]
fn turn_hooks_are_constant() {
    let state = initial_state(Some(1));
    assert!(end_turn_if(&state));
    assert!(!optimistic_update(&state));
}
