use hearts::actors::{ActorDummy, ActorRandom};
use hearts::belief::{BasicPlayerState, DefaultPlayerState, ExtendedPlayerState};
use hearts::cards::{Card, Hand, Move, Rank, Suit};
use hearts::deal::get_shuffled_hands;
use hearts::determinize::DeterminizeV1;
use hearts::game::{Actor, GameInfo};
use hearts::mcts_actor::{pick_best, ActorMCTSV1};
use hearts::rule::ActorRuleV1;
use hearts::search::{mcts, reward, Node};
use hearts::search_mod::mcts_mod;
use hearts::uct::{isqrt, log2_floor, uct_weight_of};
use rand::rngs::StdRng;
use rand::SeedableRng;

fn belief_for(pidx: usize, cards: Vec<Card>) -> DefaultPlayerState {
    let mut ps = DefaultPlayerState::default();
    ps.basic.set_pidx(pidx);
    ps.basic.set_cards(cards);
    ps
}

#[test]
fn belief_marks_seen_cards_and_voids() {
    let mut ps = belief_for(0, vec![Card(Rank::Two, Suit::Spades)]);
    let moves = vec![
        Move(1, Card(Rank::Ten, Suit::Clubs)),
        Move(2, Card(Rank::Four, Suit::Hearts)),
        Move(3, Card(Rank::Jack, Suit::Clubs)),
    ];
    ps.update_play_card(&moves);
    assert!(ps.hearts_played());
    assert!(!ps.cards_in_game()[1][8]);
    assert!(!ps.cards_in_game()[3][2]);
    assert!(ps.cards_in_game()[3][3]);
    assert!(!ps.still_has()[1][2]);
    assert!(ps.still_has()[3][2]);
    assert!(ps.still_has()[1][3]);
}

#[test]
fn belief_scores_tricks_and_shoot_the_moon() {
    let mut ps = belief_for(0, vec![]);
    let trick = vec![
        Move(0, Card(Rank::Two, Suit::Hearts)),
        Move(1, Card(Rank::Queen, Suit::Spades)),
        Move(2, Card(Rank::Ace, Suit::Hearts)),
        Move(3, Card(Rank::Three, Suit::Hearts)),
    ];
    ps.update_end_round(&trick, 2);
    assert_eq!(ps.scores(), &[0, 0, 16, 0]);
    assert_eq!(ps.scored(), &[false, false, true, false]);
    assert!(!ps.first_round());
    assert_eq!(ps.final_scores(), [36, 36, 0, 36]);
    assert!(!ps.still_has()[3][1]);
}

#[test]
fn basic_state_updates() {
    let mut b = BasicPlayerState::new(vec![Card(Rank::Two, Suit::Clubs)], true, false, 1);
    b.update_end_pass(&vec![Card(Rank::Ace, Suit::Hearts)]);
    assert_eq!(b.cards().len(), 2);
    b.update_did_play_card(&Card(Rank::Two, Suit::Clubs));
    assert_eq!(b.cards(), &vec![Card(Rank::Ace, Suit::Hearts)]);
    b.update_end_round(&vec![Move(0, Card(Rank::Ace, Suit::Hearts))], 0);
    assert!(!b.first_round());
    assert!(b.hearts_played());
    assert_eq!(b.pidx(), 1);
}

#[test]
fn extended_counts_follow_the_facts() {
    let mut e = ExtendedPlayerState::default();
    e.set_cards(vec![Card(Rank::Ace, Suit::Spades), Card(Rank::King, Suit::Spades)]);
    assert_eq!(e.cards_in_game_by_suit(), &[13, 13, 13, 13]);
    assert_eq!(e.opponent_cards_in_game_by_suit(), &[11, 13, 13, 13]);
    assert!(!e.opponent_cards_in_game()[0][12]);
    e.update_play_card(&vec![Move(1, Card(Rank::Two, Suit::Spades))]);
    assert_eq!(e.cards_in_game_by_suit(), &[12, 13, 13, 13]);
    assert_eq!(e.opponent_cards_in_game_by_suit(), &[10, 13, 13, 13]);
}

#[test]
fn sampled_deals_fit_the_belief() {
    let mut rng = StdRng::seed_from_u64(3);
    let hands = get_shuffled_hands(&mut rng);
    let own = hands[2].cards().clone();
    let ps = belief_for(2, own.clone());
    let moves = vec![Move(0, Card(Rank::Two, Suit::Clubs))];
    let mut seen = ps.clone();
    seen.update_play_card(&moves);
    let mut own_after = own.clone();
    own_after.retain(|c| *c != Card(Rank::Two, Suit::Clubs));
    seen.basic.set_cards(own_after.clone());
    for seed in 0..5 {
        let mut r = StdRng::seed_from_u64(seed);
        let (g, states) = DeterminizeV1::sample(2, &seen, &moves, &mut r);
        assert_eq!(g.current_pidx(), 2);
        assert_eq!(states[2].cards(), &own_after);
        let hidden = 52 - own_after.len() - 1;
        for p in [0usize, 1, 3] {
            let expect = if p == 0 { hidden / 3 } else { (hidden + 2) / 3 };
            assert_eq!(states[p].cards().len(), expect);
            assert_eq!(g.hands()[p].cards(), states[p].cards());
            assert_eq!(states[p].pidx(), p);
        }
        let mut all: Vec<Card> = states.iter().flat_map(|s| s.cards().clone()).collect();
        all.push(Card(Rank::Two, Suit::Clubs));
        all.sort();
        let mut deck = Card::all();
        deck.sort();
        assert_eq!(all, deck);
    }
}

#[test]
fn uct_arithmetic() {
    assert_eq!(isqrt(0), 0);
    assert_eq!(isqrt(10), 3);
    assert_eq!(isqrt(16), 4);
    assert_eq!(log2_floor(1), 0);
    assert_eq!(log2_floor(1024), 10);
    assert_eq!(log2_floor(1023), 9);
    assert_eq!(uct_weight_of(5, 0, 10), 0);
    assert_eq!(uct_weight_of(46, 1, 1), 65536);
    let w = uct_weight_of(23, 1, 4);
    assert_eq!(w, 32768 + isqrt((2 * 65536 * 65536 * 1420) / 1024));
    assert_eq!(uct_weight_of(0, 1, 6), isqrt((2 * 65536 * 65536 * 1775) / 1024));
    assert_eq!(reward(0), 36);
    assert_eq!(reward(36), 0);
    assert_eq!(reward(-10), 46);
    assert_eq!(reward(26), 10);
}

#[test]
fn search_statistics_add_up() {
    let mut rng = StdRng::seed_from_u64(8);
    let hands = get_shuffled_hands(&mut rng);
    let states: [DefaultPlayerState; 4] = [0, 1, 2, 3].map(|p| belief_for(p, hands[p].cards().clone()));
    let info = GameInfo::new(hands);
    let stats = mcts::<ActorRandom>(&info, &states, 40, &mut rng);
    assert_eq!(stats.len(), 1);
    assert_eq!(stats[0].0, Card(Rank::Two, Suit::Clubs));
    assert!(stats.iter().map(|s| s.2).sum::<u64>() >= 1);
    assert!(stats.iter().all(|s| s.1 <= 46 * s.2));
}

#[test]
fn search_spreads_visits_over_the_options() {
    let mut rng = StdRng::seed_from_u64(12);
    let hands = get_shuffled_hands(&mut rng);
    let states: [DefaultPlayerState; 4] = [0, 1, 2, 3].map(|p| belief_for(p, hands[p].cards().clone()));
    let mut info = GameInfo::new(hands);
    info.current_round = 1;
    let options = hearts::game::get_allowed_cards(&info);
    let stats = mcts::<ActorRuleV1>(&info, &states, 60, &mut rng);
    assert_eq!(stats.len(), options.len());
    assert!(stats.iter().map(|s| s.2).sum::<u64>() >= 1);
    assert!(stats.iter().all(|s| s.1 <= 46 * s.2));
    let none = mcts::<ActorRandom>(&info, &states, 0, &mut rng);
    assert_eq!(none.len(), options.len());
    assert!(none.iter().all(|s| s.2 == 0));
}

#[test]
fn node_starts_empty() {
    let info = GameInfo::new([
        Hand::new(vec![Card(Rank::Two, Suit::Clubs)]),
        Hand::new(vec![]),
        Hand::new(vec![]),
        Hand::new(vec![]),
    ]);
    let states = [0, 1, 2, 3].map(|p| belief_for(p, vec![]));
    let node = Node::new(info, None, states, None);
    assert!(!node.fully_expanded());
    assert!(node.children().is_empty());
}

#[test]
fn own_card_search_counts_visits() {
    let mut rng = StdRng::seed_from_u64(4);
    let hands = get_shuffled_hands(&mut rng);
    let ps = belief_for(1, hands[1].cards().clone());
    let stats = mcts_mod::<ActorRandom>(1, &ps, &vec![], 30, &mut rng);
    assert_eq!(stats.len(), 13);
    assert!(stats.iter().map(|s| s.2).sum::<u64>() >= 1);
    assert!(stats.iter().all(|s| s.1 <= 46 * s.2));
}

#[test]
fn best_mean_wins_and_last_equal_is_kept() {
    let a = Card(Rank::Two, Suit::Clubs);
    let b = Card(Rank::Three, Suit::Clubs);
    let c = Card(Rank::Four, Suit::Clubs);
    assert_eq!(pick_best(&vec![]), None);
    assert_eq!(pick_best(&vec![(a, 10, 2), (b, 30, 3), (c, 0, 0)]), Some(b));
    assert_eq!(pick_best(&vec![(a, 10, 2), (b, 20, 4)]), Some(b));
    assert_eq!(pick_best(&vec![(a, 0, 0), (b, 0, 5)]), Some(b));
}

#[test]
fn dummy_plays_its_card() {
    let ps = belief_for(0, vec![Card(Rank::Nine, Suit::Hearts), Card(Rank::Two, Suit::Clubs)]);
    let mut d = ActorDummy::new(ps, Some(Card(Rank::Two, Suit::Clubs)));
    let card = d.play_card(&vec![]);
    assert_eq!(card, Card(Rank::Two, Suit::Clubs));
    let after = d.player_state_move();
    assert_eq!(after.cards(), &vec![Card(Rank::Nine, Suit::Hearts)]);
}

#[test]
fn search_player_plays_a_legal_card() {
    let mut rng = StdRng::seed_from_u64(31);
    let hands = get_shuffled_hands(&mut rng);
    let holder = (0..4).find(|p| hands[*p].any_match(Card(Rank::Two, Suit::Clubs))).unwrap();
    let mut player = ActorMCTSV1::<ActorRandom>::new(false, 20, 2, 77);
    player.initialize(holder, hands[holder].cards());
    assert_eq!(player.play_card(&vec![]), Card(Rank::Two, Suit::Clubs));
    let mut other = ActorMCTSV1::<ActorRandom>::new(true, 20, 1, 78);
    other.initialize(holder, hands[holder].cards());
    assert_eq!(other.play_card(&vec![]), Card(Rank::Two, Suit::Clubs));
    let passed = player.get_pass(hearts::cards::PassDirection::Left);
    assert_eq!(passed.len(), 3);
    assert!(passed.iter().all(|c| hands[holder].any_match(*c)));
}
