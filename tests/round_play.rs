use hearts::actors::ActorRandom;
use hearts::cards::{Card, Hand, Move, PassDirection, Rank, Suit};
use hearts::deal::{get_shuffled_hands, play_with_hands};
use hearts::game::{get_allowed_cards, Actor, GameInfo, HJValidator, NoValidator, StopCondition, Validator};
use hearts::rule::ActorRuleV1;
use hearts::rules::{find_winner_pidx, CardFault, HJError};
use rand::rngs::StdRng;
use rand::SeedableRng;

fn suit_hand(suit: Suit) -> Hand {
    Hand::new(Rank::all().iter().map(|r| Card(*r, suit)).collect())
}

fn hands_by_suit() -> [Hand; 4] {
    [suit_hand(Suit::Spades), suit_hand(Suit::Clubs), suit_hand(Suit::Diamonds), suit_hand(Suit::Hearts)]
}

/// A player that plays the cards it is given, in order, and passes nothing.
struct Scripted {
    cards: Vec<Card>,
}

impl Actor for Scripted {
    fn initialize(&mut self, _pidx: usize, _cards: &Vec<Card>) {}
    fn play_card(&mut self, _played_moves: &Vec<Move>) -> Card {
        self.cards.remove(0)
    }
    fn end_round(&mut self, _winner_pidx: usize, _played_moves: &Vec<Move>) {}
    fn end_game(&mut self, _score: [isize; 4]) {}
    fn get_pass(&mut self, _direction: PassDirection) -> Vec<Card> {
        vec![]
    }
    fn end_pass(&mut self, _passed_cards: &Vec<Card>) {}
}

#[test]
fn two_of_clubs_holder_leads() {
    let info = GameInfo::new(hands_by_suit());
    assert_eq!(info.current_pidx(), 1);
    assert_eq!(info.current_round(), 0);
    assert!(info.first_round());
    assert!(!info.hearts_played());
    assert_eq!(info.score(), [0, 0, 0, 0]);
    assert_eq!(info.result(), None);
    assert!(info.current_moves().is_empty());
    assert_eq!(info.hands()[3].cards().len(), 13);
}

#[test]
fn moves_and_tricks_update_the_round() {
    let mut info = GameInfo::new(hands_by_suit());
    info.did_play_move(Move(1, Card(Rank::Two, Suit::Clubs)));
    info.did_play_move(Move(2, Card(Rank::Jack, Suit::Diamonds)));
    info.did_play_move(Move(3, Card(Rank::Ace, Suit::Hearts)));
    info.did_play_move(Move(0, Card(Rank::Queen, Suit::Spades)));
    assert!(info.hearts_played());
    assert_eq!(info.hands()[3].cards().len(), 12);
    assert_eq!(info.current_pidx(), 1);
    let winner = find_winner_pidx(info.current_moves());
    assert_eq!(winner, 1);
    info.did_play_round(winner);
    assert_eq!(info.score(), [0, 4, 0, 0]);
    assert_eq!(info.scored, [false, true, false, false]);
    assert_eq!(info.current_pidx(), 1);
    assert_eq!(info.current_round(), 1);
    assert!(info.current_moves().is_empty());
}

#[test]
fn shooting_the_moon_example() {
    let mut info = GameInfo::reconstruct(
        vec![],
        0,
        13,
        [Hand::new(vec![]), Hand::new(vec![]), Hand::new(vec![]), Hand::new(vec![])],
        true,
        [0, 0, 16, 0],
        [false, false, true, false],
    );
    info.did_play_game();
    assert_eq!(info.score(), [36, 36, 0, 36]);
    assert_eq!(info.result(), Some([36, 36, 0, 36]));
}

#[test]
fn no_adjustment_when_two_seats_took_points() {
    let mut info = GameInfo::reconstruct(
        vec![],
        0,
        13,
        [Hand::new(vec![]), Hand::new(vec![]), Hand::new(vec![]), Hand::new(vec![])],
        true,
        [3, 0, 13, 0],
        [true, false, true, false],
    );
    info.did_play_game();
    assert_eq!(info.score(), [3, 0, 13, 0]);
}

#[test]
fn passing_moves_cards_and_the_lead() {
    let mut info = GameInfo::new(hands_by_suit());
    let passed = [
        vec![Card(Rank::Ace, Suit::Spades)],
        vec![Card(Rank::Two, Suit::Clubs)],
        vec![],
        vec![Card(Rank::Ace, Suit::Hearts)],
    ];
    info.did_pass(PassDirection::Left, &passed);
    assert!(info.hands()[2].any_match(Card(Rank::Two, Suit::Clubs)));
    assert!(info.hands()[1].any_match(Card(Rank::Ace, Suit::Spades)));
    assert!(info.hands()[0].any_match(Card(Rank::Ace, Suit::Hearts)));
    assert!(!info.hands()[0].any_match(Card(Rank::Ace, Suit::Spades)));
    assert_eq!(info.current_pidx(), 2);
}

#[test]
fn allowed_cards_of_the_seat_to_move() {
    let info = GameInfo::new(hands_by_suit());
    assert_eq!(get_allowed_cards(&info), vec![Card(Rank::Two, Suit::Clubs)]);
}

#[test]
fn validators_judge_moves() {
    let info = GameInfo::new(hands_by_suit());
    let none: Vec<Move> = vec![];
    let bad = Move(1, Card(Rank::Three, Suit::Clubs));
    assert_eq!(
        HJValidator::validate_move(&info, &none, bad),
        Err(HJError::InvalidCardError(CardFault::MustLeadTwoOfClubs))
    );
    assert_eq!(NoValidator::validate_move(&info, &none, bad), Ok(()));
    assert_eq!(
        HJValidator::validate_pass(PassDirection::Left, &vec![Card(Rank::Two, Suit::Clubs)], 1, &info),
        Err(HJError::InvalidCardError(CardFault::WrongPassCount))
    );
}

#[test]
fn leading_hearts_early_aborts_the_round() {
    let hands = [
        Hand::new(vec![Card(Rank::Two, Suit::Clubs), Card(Rank::Three, Suit::Spades)]),
        Hand::new(vec![Card(Rank::Four, Suit::Clubs), Card(Rank::Five, Suit::Spades)]),
        Hand::new(vec![Card(Rank::Six, Suit::Clubs), Card(Rank::Five, Suit::Hearts), Card(Rank::Two, Suit::Diamonds)]),
        Hand::new(vec![Card(Rank::Seven, Suit::Spades), Card(Rank::Eight, Suit::Spades)]),
    ];
    let mut info = GameInfo::new(hands);
    let mut actors = [
        Scripted { cards: vec![Card(Rank::Two, Suit::Clubs)] },
        Scripted { cards: vec![Card(Rank::Four, Suit::Clubs)] },
        Scripted { cards: vec![Card(Rank::Six, Suit::Clubs), Card(Rank::Five, Suit::Hearts)] },
        Scripted { cards: vec![Card(Rank::Seven, Suit::Spades)] },
    ];
    let r = info.play::<HJValidator, Scripted>(&mut actors, StopCondition::Never);
    assert_eq!(r, Err(HJError::InvalidCardError(CardFault::HeartsNotBroken)));
    assert_eq!(info.current_round(), 1);
    assert_eq!(info.current_pidx(), 2);
}

#[test]
fn one_move_stops_after_a_card() {
    let mut info = GameInfo::new(hands_by_suit());
    let mut actors = [ActorRandom::new(1), ActorRandom::new(2), ActorRandom::new(3), ActorRandom::new(4)];
    for (p, a) in actors.iter_mut().enumerate() {
        a.initialize(p, &hands_by_suit()[p].cards);
    }
    info.play_without_validator(&mut actors, StopCondition::OneMove);
    assert_eq!(info.current_moves().len(), 1);
    assert_eq!(info.current_moves()[0], Move(1, Card(Rank::Two, Suit::Clubs)));
}

#[test]
fn greedy_round_from_a_seeded_deal() {
    let mut rng = StdRng::seed_from_u64(2024);
    let hands = get_shuffled_hands(&mut rng);
    let holder = (0..4).find(|p| hands[*p].any_match(Card(Rank::Two, Suit::Clubs))).unwrap();
    let mut actors = [ActorRuleV1::new(11), ActorRuleV1::new(12), ActorRuleV1::new(13), ActorRuleV1::new(14)];
    for p in 0..4 {
        actors[p].initialize(p, &hands[p].cards);
    }
    let mut info = GameInfo::new(hands);
    assert_eq!(info.current_pidx(), holder);
    info.pass::<HJValidator, ActorRuleV1>(PassDirection::Left, &mut actors).unwrap();
    let leader = info.current_pidx();
    assert!(info.hands()[leader].any_match(Card(Rank::Two, Suit::Clubs)));
    let mut first_trick: Vec<Move> = vec![];
    while info.current_round() < 13 {
        while info.current_moves().len() < 4 {
            let pidx = info.current_pidx();
            let card = actors[pidx].play_card(info.current_moves());
            let m = Move(pidx, card);
            assert_eq!(HJValidator::validate_move(&info, info.current_moves(), m), Ok(()));
            info.did_play_move(m);
        }
        if info.current_round() == 0 {
            first_trick = info.current_moves().clone();
        }
        let winner = find_winner_pidx(info.current_moves());
        for a in actors.iter_mut() {
            a.end_round(winner, info.current_moves());
        }
        info.did_play_round(winner);
    }
    assert_eq!(first_trick[0], Move(leader, Card(Rank::Two, Suit::Clubs)));
    assert_eq!(info.score().iter().sum::<isize>(), 16);
    for p in 0..4 {
        assert!(info.hands()[p].cards().is_empty());
    }
}

#[test]
fn whole_round_with_random_players() {
    let mut rng = StdRng::seed_from_u64(5);
    let hands = get_shuffled_hands(&mut rng);
    let mut actors = [ActorRandom::new(21), ActorRandom::new(22), ActorRandom::new(23), ActorRandom::new(24)];
    let scores = play_with_hands(hands, PassDirection::Right, &mut actors).unwrap();
    let sum: isize = scores.iter().sum();
    let moon = scores.iter().filter(|s| **s == 36).count() == 3 && scores.iter().any(|s| *s == 0);
    assert!(sum == 16 || moon);
}

#[test]
fn shuffled_deal_is_not_the_deck_order() {
    let mut rng = StdRng::seed_from_u64(10);
    let hands = get_shuffled_hands(&mut rng);
    let deck = Card::all();
    assert_ne!(hands[0].cards(), &deck[0..13].to_vec());
}

#[test]
fn shuffled_deal_holds_the_deck() {
    let mut rng = StdRng::seed_from_u64(9);
    let hands = get_shuffled_hands(&mut rng);
    let mut all: Vec<Card> = hands.iter().flat_map(|h| h.cards().clone()).collect();
    assert!(hands.iter().all(|h| h.cards().len() == 13));
    all.sort();
    let mut deck = Card::all();
    deck.sort();
    assert_eq!(all, deck);
}

#[test]
fn passing_round_keeps_every_card() {
    let mut rng = StdRng::seed_from_u64(41);
    let hands = get_shuffled_hands(&mut rng);
    let mut actors = [ActorRuleV1::new(1), ActorRuleV1::new(2), ActorRuleV1::new(3), ActorRuleV1::new(4)];
    for p in 0..4 {
        actors[p].initialize(p, &hands[p].cards);
    }
    let mut info = GameInfo::new(hands);
    info.pass::<HJValidator, ActorRuleV1>(PassDirection::Cross, &mut actors).unwrap();
    let mut all: Vec<Card> = info.hands().iter().flat_map(|h| h.cards().clone()).collect();
    all.sort();
    let mut deck = Card::all();
    deck.sort();
    assert_eq!(all, deck);
    assert!(info.hands().iter().all(|h| h.cards().len() == 13));
    assert!(info.hands()[info.current_pidx()].any_match(Card(Rank::Two, Suit::Clubs)));
}
