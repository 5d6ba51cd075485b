use hearts::actors::ActorRandom;
use hearts::belief::{DefaultPlayerState, ExtendedPlayerState};
use hearts::cards::{Card, Hand, Move, PassDirection, Rank, Suit};
use hearts::eval::{eval_ranks, eval_state_spades, jack_of_diamonds_cost, EvalStateV1};
use hearts::rule::{choose_three_to_pass, divide_three, evaluate_round, sort_for_pass, top_gap_of, ActorRuleV1};
use hearts::table::{pass, play, validate_move, validate_pass, GameState, Player};
use hearts::rules::{CardFault, HJError};
use hearts::game::Actor;
use rand::rngs::StdRng;
use rand::SeedableRng;

#[test]
fn rank_duels() {
    let all: Vec<usize> = (0..13).collect();
    assert_eq!(eval_ranks(&vec![12], &all), 1);
    assert_eq!(eval_ranks(&vec![0], &all), 0);
    assert_eq!(eval_ranks(&vec![12, 11], &all), 2);
    assert_eq!(eval_ranks(&all, &all), 0);
}

#[test]
fn jack_of_diamonds_table() {
    let all: Vec<usize> = (0..13).collect();
    assert_eq!(jack_of_diamonds_cost(&vec![9], &all), 0);
    assert_eq!(jack_of_diamonds_cost(&vec![9, 0, 1, 2], &all), -8);
    assert_eq!(jack_of_diamonds_cost(&vec![12], &all), -1);
    assert_eq!(jack_of_diamonds_cost(&vec![12, 11], &all), -3);
    assert_eq!(jack_of_diamonds_cost(&vec![12, 11, 0], &all), -5);
    let no_jack: Vec<usize> = (0..13).filter(|r| *r != 9).collect();
    assert_eq!(jack_of_diamonds_cost(&vec![12], &no_jack), 0);
}

#[test]
fn spade_costs() {
    let (cost, gains) = eval_state_spades(&vec![Card(Rank::Queen, Suit::Spades)]);
    assert_eq!((cost, gains), (900, vec![-720]));
    let (cost, gains) = eval_state_spades(&vec![Card(Rank::Queen, Suit::Spades), Card(Rank::Ace, Suit::Spades)]);
    assert_eq!((cost, gains), (800, vec![-400, -240]));
    let (cost, gains) = eval_state_spades(&vec![Card(Rank::Ace, Suit::Spades), Card(Rank::Two, Suit::Spades)]);
    assert_eq!((cost, gains), (400, vec![-320]));
    let (cost, gains) = eval_state_spades(&vec![Card(Rank::Three, Suit::Spades)]);
    assert_eq!((cost, gains), (0, vec![]));
}

#[test]
fn state_value_with_given_draws() {
    let ps = DefaultPlayerState::default();
    let by_suit = [vec![Card(Rank::Queen, Suit::Spades)], vec![], vec![], vec![]];
    let draws = vec![0usize; 13];
    assert_eq!(EvalStateV1::evaluate_with_draws(&ps.cards_in_game, &by_suit, &draws), 144);
    let hearts = [vec![], vec![], vec![], vec![Card(Rank::Ace, Suit::Hearts)]];
    assert_eq!(EvalStateV1::evaluate_with_draws(&ps.cards_in_game, &hearts, &vec![3usize; 13]), 320);
    let mut rng = StdRng::seed_from_u64(1);
    let v = EvalStateV1::evaluate_state(&ps, &hearts, &mut rng);
    assert_eq!(v, 320);
}

#[test]
fn trick_cost_of_the_last_card() {
    let mut ps = ExtendedPlayerState::default();
    ps.set_pidx(0);
    let moves = vec![
        Move(1, Card(Rank::Five, Suit::Clubs)),
        Move(2, Card(Rank::Queen, Suit::Spades)),
        Move(3, Card(Rank::Four, Suit::Hearts)),
    ];
    assert_eq!(evaluate_round(&ps, &moves, Card(Rank::Nine, Suit::Clubs)), 1400);
    assert_eq!(evaluate_round(&ps, &moves, Card(Rank::Three, Suit::Clubs)), 0);
    assert_eq!(evaluate_round(&ps, &moves, Card(Rank::Ace, Suit::Diamonds)), 0);
}

#[test]
fn trick_cost_when_leading() {
    let mut ps = ExtendedPlayerState::default();
    ps.set_cards(vec![Card(Rank::Two, Suit::Diamonds)]);
    ps.set_pidx(0);
    let v = evaluate_round(&ps, &vec![], Card(Rank::Two, Suit::Diamonds));
    assert!(v >= 0);
    let mut st = ps.state.clone();
    st.still_has = [[false; 4]; 4];
    let all_void = ExtendedPlayerState::from_state(st);
    assert_eq!(evaluate_round(&all_void, &vec![], Card(Rank::Two, Suit::Diamonds)), 3 * 380);
}

#[test]
fn pass_helpers() {
    let sorted = sort_for_pass(&vec![
        Card(Rank::Nine, Suit::Clubs),
        Card(Rank::Two, Suit::Clubs),
        Card(Rank::Four, Suit::Clubs),
    ]);
    assert_eq!(sorted, vec![Card(Rank::Four, Suit::Clubs), Card(Rank::Nine, Suit::Clubs), Card(Rank::Two, Suit::Clubs)]);
    assert_eq!(top_gap_of(&vec![Card(Rank::King, Suit::Spades), Card(Rank::Ace, Suit::Spades)]), 10);
    assert_eq!(top_gap_of(&vec![Card(Rank::Ten, Suit::Spades)]), 12);
    let d = divide_three();
    assert_eq!(d.len(), 16);
    assert_eq!(d[0], [0, 0, 1, 2]);
    assert_eq!(d[15], [2, 1, 0, 0]);
}

#[test]
fn three_cards_from_the_hand_are_passed() {
    let mut rng = StdRng::seed_from_u64(17);
    let hands = hearts::deal::get_shuffled_hands(&mut rng);
    let mut ps = ExtendedPlayerState::default();
    ps.set_cards(hands[0].cards().clone());
    let passed = choose_three_to_pass(&ps, &mut rng);
    assert_eq!(passed.len(), 3);
    assert!(passed.iter().all(|c| hands[0].any_match(*c)));
    let mut actor = ActorRuleV1::new(3);
    actor.initialize(0, hands[0].cards());
    assert!(actor.get_pass(PassDirection::NoPass).is_empty());
    let given = actor.get_pass(PassDirection::Left);
    assert_eq!(given.len(), 3);
    assert_eq!(actor.player_state.cards().len(), 10);
}

#[test]
fn greedy_player_dodges_the_queen() {
    let mut actor = ActorRuleV1::new(5);
    actor.initialize(3, &vec![Card(Rank::Queen, Suit::Spades), Card(Rank::Two, Suit::Spades)]);
    actor.player_state.update_end_round(&vec![Move(0, Card(Rank::Two, Suit::Clubs))], 0);
    let moves = vec![
        Move(0, Card(Rank::Ace, Suit::Spades)),
        Move(1, Card(Rank::Five, Suit::Spades)),
        Move(2, Card(Rank::Six, Suit::Spades)),
    ];
    assert_eq!(actor.play_card(&moves), Card(Rank::Queen, Suit::Spades));
}

#[test]
fn table_trick_and_checks() {
    let hands = [
        Hand::new(vec![Card(Rank::Two, Suit::Clubs), Card(Rank::Three, Suit::Hearts)]),
        Hand::new(vec![Card(Rank::Four, Suit::Clubs), Card(Rank::Five, Suit::Hearts)]),
        Hand::new(vec![Card(Rank::Six, Suit::Clubs), Card(Rank::Seven, Suit::Hearts)]),
        Hand::new(vec![Card(Rank::Eight, Suit::Clubs), Card(Rank::Nine, Suit::Hearts)]),
    ];
    let actors = vec![ActorRandom::new(1), ActorRandom::new(2), ActorRandom::new(3), ActorRandom::new(4)];
    let mut table = GameState::new_from_hands(hands, actors);
    assert_eq!(table.current_round(), 0);
    assert!(!table.hearts_played());
    assert_eq!(table.players()[1].hand().cards().len(), 2);
    assert_eq!(
        validate_move(&table, &vec![], Move(0, Card(Rank::Three, Suit::Hearts))),
        Err(HJError::InvalidCardError(CardFault::MustLeadTwoOfClubs))
    );
    assert_eq!(
        validate_pass(PassDirection::NoPass, &vec![Card(Rank::Two, Suit::Clubs)], 0, &table),
        Err(HJError::InvalidCardError(CardFault::NoPassThisRound))
    );
    assert_eq!(pass(PassDirection::NoPass, &mut table), Ok(()));
    let (winner, moves) = play(0, &mut table).unwrap();
    assert_eq!(moves.len(), 4);
    assert_eq!(winner, 3);
    assert_eq!(moves[0], Move(0, Card(Rank::Two, Suit::Clubs)));
    table.did_play_round(winner, moves);
    assert_eq!(table.score(), [0, 0, 0, 0]);
    assert_eq!(table.current_round(), 1);
    let (winner, moves) = play(3, &mut table).unwrap();
    assert_eq!(winner, 3);
    table.did_play_round(winner, moves);
    assert_eq!(table.score(), [0, 0, 0, 4]);
    table.did_play_game();
    assert_eq!(table.score(), [36, 36, 36, 0]);
    assert!(table.hearts_played());
}

#[test]
fn seats_hold_their_player_and_hand() {
    let mut seat = Player::new(ActorRandom::new(9), Hand::new(vec![Card(Rank::Ace, Suit::Clubs)]));
    seat.hand_mut().add(Card(Rank::King, Suit::Clubs));
    assert_eq!(seat.hand().cards().len(), 2);
    seat.actor_mut().initialize(2, &vec![Card(Rank::Ace, Suit::Clubs)]);
    assert_eq!(seat.actor.player_state.pidx(), 2);
}
