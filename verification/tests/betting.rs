use poker_core::errors::Errors;
use poker_core::flow::get_current_players;
use poker_core::flow::initial_state;
use poker_core::flow::on_turn_begin;
use poker_core::moves::poker_move;
use poker_core::state::betting_round_is_over;
use poker_core::state::next_betting_round;
use poker_core::state::Context;

fn ctx_for(player: u16, seed: u128) -> Context {
    Context { num_players: 2, action_players: Some(vec![player]), seed: Some(seed) }
}

fn chips_in_play(state: &poker_core::state::State) -> u32 {
    state.chips[0] as u32 + state.chips[1] as u32 + state.chip_table[0] as u32
        + state.chip_table[1] as u32 + state.hand_pot as u32
}

#[test]
fn opening_bet_is_fixed_size() {
    let mut state = initial_state(Some(7));
    let ctx = ctx_for(1, 7);
    on_turn_begin(&mut state, &ctx).unwrap();
    poker_move(&mut state, &ctx, 1, 2).unwrap();
    assert_eq!(state.bet_amount, 2);
    assert_eq!(state.chip_table[0], 2);
    assert_eq!(state.chips[0], 62);
    assert_eq!(state.last_move, "Bet 2");
    assert!(state.needs_action[1]);
    assert!(!state.needs_action[0]);
}

#[test]
fn raise_doubles_the_bet() {
    let mut state = initial_state(Some(7));
    let ctx1 = ctx_for(1, 7);
    on_turn_begin(&mut state, &ctx1).unwrap();
    poker_move(&mut state, &ctx1, 1, 2).unwrap();
    let ctx2 = ctx_for(2, 8);
    poker_move(&mut state, &ctx2, 2, 2).unwrap();
    assert_eq!(state.bet_amount, 4);
    assert_eq!(state.last_move, "Raise 4");
    assert!(state.needs_action[0]);
    assert!(!state.needs_action[1]);
}

#[test]
fn call_matches_the_bet_and_check_pays_nothing() {
    let mut state = initial_state(Some(7));
    let ctx1 = ctx_for(1, 7);
    on_turn_begin(&mut state, &ctx1).unwrap();
    poker_move(&mut state, &ctx1, 1, 2).unwrap();
    let ctx2 = ctx_for(2, 8);
    poker_move(&mut state, &ctx2, 2, 1).unwrap();
    assert_eq!(state.chip_table, vec![2, 2]);
    assert_eq!(state.chips, vec![62, 62]);
    assert_eq!(state.last_move, "Call 2");

    // A fresh round: checking pays nothing.
    next_betting_round(&mut state);
    assert_eq!(state.bet_amount, 0);
    poker_move(&mut state, &ctx1, 1, 1).unwrap();
    assert_eq!(state.last_move, "Check");
    assert_eq!(state.chips, vec![62, 62]);
}

#[test]
fn all_in_commits_the_whole_stack() {
    let mut state = initial_state(Some(7));
    let ctx1 = ctx_for(1, 7);
    on_turn_begin(&mut state, &ctx1).unwrap();
    poker_move(&mut state, &ctx1, 1, 3).unwrap();
    assert_eq!(state.chips[0], 0);
    assert_eq!(state.chip_table[0], 64);
    assert_eq!(state.bet_amount, 64);
    assert_eq!(state.last_move, "All In 64");
}

#[test]
fn all_in_sets_the_bet_to_the_remaining_stack() {
    let mut state = initial_state(Some(7));
    let ctx1 = ctx_for(1, 7);
    on_turn_begin(&mut state, &ctx1).unwrap();
    // Mid-round: player 1 already has 5 on the table against a bet of 5.
    state.chips = vec![10, 20];
    state.chip_table = vec![5, 0];
    state.bet_amount = 5;
    poker_move(&mut state, &ctx1, 1, 3).unwrap();
    // The new bet is the remaining stack, not stack plus contribution.
    assert_eq!(state.bet_amount, 10);
    assert_eq!(state.chip_table[0], 10);
    assert_eq!(state.chips[0], 5);
    assert_eq!(state.last_move, "All In 10");
    assert!(state.needs_action[1]);
    assert!(!state.needs_action[0]);
}

#[test]
fn all_in_below_the_standing_bet_is_rejected() {
    let mut state = initial_state(Some(7));
    let ctx1 = ctx_for(1, 7);
    on_turn_begin(&mut state, &ctx1).unwrap();
    // Player 1's remaining stack cannot reach the standing bet level.
    state.chips = vec![3, 20];
    state.chip_table = vec![2, 5];
    state.bet_amount = 5;
    let r = poker_move(&mut state, &ctx1, 1, 3);
    assert_eq!(r, Err(Errors::InvalidMove));
    assert_eq!(state.chips, vec![3, 20]);
    assert_eq!(state.bet_amount, 5);
}

#[test]
fn raise_is_capped_by_the_shortest_stack() {
    let mut state = initial_state(Some(7));
    let ctx1 = ctx_for(1, 7);
    on_turn_begin(&mut state, &ctx1).unwrap();
    // Leave player 2 with only 3 chips.
    state.chips[1] = 3;
    poker_move(&mut state, &ctx1, 1, 2).unwrap();
    assert_eq!(state.bet_amount, 2);
    let ctx2 = ctx_for(2, 8);
    poker_move(&mut state, &ctx2, 2, 2).unwrap();
    // Doubling to 4 would exceed player 2's total of 3.
    assert_eq!(state.bet_amount, 3);
    assert_eq!(state.last_move, "All In 3");
    assert_eq!(state.chips[1], 0);
    assert_eq!(state.chip_table[1], 3);
}

#[test]
fn fold_leaves_the_hand() {
    let mut state = initial_state(Some(7));
    let ctx1 = ctx_for(1, 7);
    on_turn_begin(&mut state, &ctx1).unwrap();
    poker_move(&mut state, &ctx1, 1, 0).unwrap();
    assert!(!state.still_in[0]);
    assert!(!state.needs_action[0]);
    assert_eq!(state.last_move, "Fold");
}

#[test]
fn fold_when_already_out_is_rejected() {
    let mut state = initial_state(Some(7));
    let ctx1 = ctx_for(1, 7);
    on_turn_begin(&mut state, &ctx1).unwrap();
    poker_move(&mut state, &ctx1, 1, 0).unwrap();
    let before = state.chips.clone();
    let r = poker_move(&mut state, &ctx1, 1, 0);
    assert_eq!(r, Err(Errors::InvalidMove));
    assert_eq!(state.chips, before);
}

#[test]
fn unknown_action_code_is_rejected() {
    let mut state = initial_state(Some(7));
    let ctx1 = ctx_for(1, 7);
    on_turn_begin(&mut state, &ctx1).unwrap();
    let r = poker_move(&mut state, &ctx1, 1, 42);
    assert_eq!(r, Err(Errors::InvalidMove));
}

#[test]
fn missing_actors_is_missing_context() {
    let mut state = initial_state(Some(7));
    let ctx = Context { num_players: 2, action_players: None, seed: Some(7) };
    let r = poker_move(&mut state, &ctx, 1, 1);
    assert_eq!(r, Err(Errors::MissingContext));
}

#[test]
fn actions_conserve_chips() {
    let mut state = initial_state(Some(11));
    let ctx1 = ctx_for(1, 11);
    on_turn_begin(&mut state, &ctx1).unwrap();
    assert_eq!(chips_in_play(&state), 128);
    poker_move(&mut state, &ctx1, 1, 2).unwrap();
    assert_eq!(chips_in_play(&state), 128);
    let ctx2 = ctx_for(2, 12);
    poker_move(&mut state, &ctx2, 2, 3).unwrap();
    assert_eq!(chips_in_play(&state), 128);
    poker_move(&mut state, &ctx1, 1, 1).unwrap();
    assert_eq!(chips_in_play(&state), 128);
}

#[test]
fn round_closure_rolls_contributions_into_the_pot() {
    let mut state = initial_state(Some(7));
    let ctx1 = ctx_for(1, 7);
    on_turn_begin(&mut state, &ctx1).unwrap();
    poker_move(&mut state, &ctx1, 1, 2).unwrap();
    let ctx2 = ctx_for(2, 8);
    poker_move(&mut state, &ctx2, 2, 1).unwrap();
    assert!(betting_round_is_over(&state));
    let pot_before = state.hand_pot;
    next_betting_round(&mut state);
    assert_eq!(state.hand_pot, pot_before + 4);
    assert_eq!(state.chip_table, vec![0, 0]);
    assert_eq!(state.bet_amount, 0);
}

#[test]
fn round_is_open_iff_a_still_in_player_needs_action() {
    let mut state = initial_state(Some(7));
    let ctx1 = ctx_for(1, 7);
    on_turn_begin(&mut state, &ctx1).unwrap();
    assert!(!betting_round_is_over(&state));
    poker_move(&mut state, &ctx1, 1, 1).unwrap();
    assert!(!betting_round_is_over(&state));
    let ctx2 = ctx_for(2, 8);
    poker_move(&mut state, &ctx2, 2, 1).unwrap();
    assert!(betting_round_is_over(&state));
    // A folded player owing nothing keeps the round closed.
    state.needs_action[0] = false;
    state.still_in[0] = false;
    assert!(betting_round_is_over(&state));
}

#[test]
fn scheduler_returns_the_player_needing_action() {
    let mut state = initial_state(Some(7));
    let ctx1 = ctx_for(1, 7);
    on_turn_begin(&mut state, &ctx1).unwrap();
    state.needs_action[0] = false;
    state.needs_action[1] = true;
    let next = get_current_players(&state, &ctx1).unwrap();
    assert_eq!(next, vec![2]);
}

#[test]
fn scheduler_returns_the_dealer_when_the_round_is_closed() {
    let mut state = initial_state(Some(7));
    // The hand is over in the starting state, so the dealer opens.
    let ctx1 = ctx_for(1, 7);
    assert_eq!(get_current_players(&state, &ctx1).unwrap(), vec![state.dealer]);

    // Also when every flag is down and the round has closed mid-hand.
    on_turn_begin(&mut state, &ctx1).unwrap();
    state.needs_action[0] = false;
    state.needs_action[1] = false;
    assert_eq!(get_current_players(&state, &ctx1).unwrap(), vec![state.dealer]);
}

#[test]
fn error_messages_name_the_failure() {
    assert_eq!(Errors::InvalidMove.message(), "This move cannot be made.");
    assert_eq!(Errors::MissingContext.message(), "The match context is incomplete.");
    assert_eq!(
        Errors::InternalInvariantViolation.message(),
        "The game state is inconsistent."
    );
}
