use hearts::cards::{Card, Hand, Move, PassDirection, Rank, Suit};
use hearts::rules::{allowed_cards, check_move, check_pass, find_winner_pidx, trick_has_points, trick_score, CardFault, HJError};

#[test]
fn card_scores() {
    assert_eq!(Card(Rank::Queen, Suit::Spades).score(), 13);
    assert_eq!(Card(Rank::Jack, Suit::Diamonds).score(), -10);
    assert_eq!(Card(Rank::Two, Suit::Hearts).score(), 1);
    assert_eq!(Card(Rank::Ace, Suit::Clubs).score(), 0);
}

#[test]
fn leading_hearts_before_broken_is_rejected() {
    let hand = Hand::new(vec![
        Card(Rank::Five, Suit::Hearts),
        Card(Rank::King, Suit::Clubs),
        Card(Rank::Three, Suit::Diamonds),
    ]);
    let trick: Vec<Move> = vec![];
    let r = check_move(&hand, &trick, Card(Rank::Five, Suit::Hearts), false, false);
    assert_eq!(r, Err(HJError::InvalidCardError(CardFault::HeartsNotBroken)));
    let ok = check_move(&hand, &trick, Card(Rank::King, Suit::Clubs), false, false);
    assert_eq!(ok, Ok(()));
    assert_eq!(PassDirection::from_round(3), PassDirection::NoPass);
}

#[test]
fn highest_card_of_led_suit_wins() {
    let moves = vec![
        Move(2, Card(Rank::Ten, Suit::Clubs)),
        Move(3, Card(Rank::Ace, Suit::Hearts)),
        Move(0, Card(Rank::Queen, Suit::Clubs)),
        Move(1, Card(Rank::Four, Suit::Clubs)),
    ];
    assert_eq!(find_winner_pidx(&moves), 0);
}

#[test]
fn deck_has_fifty_two_distinct_cards_worth_sixteen() {
    let all = Card::all();
    assert_eq!(all.len(), 52);
    for i in 0..52 {
        for j in (i + 1)..52 {
            assert_ne!(all[i], all[j]);
        }
    }
    let total: isize = all.iter().map(|c| c.score()).sum();
    assert_eq!(total, 16);
    assert_eq!(all[0], Card(Rank::Two, Suit::Spades));
    assert_eq!(all[51], Card(Rank::Ace, Suit::Hearts));
}

#[test]
fn rank_and_suit_indices() {
    assert_eq!(Rank::Two.to_index(), 0);
    assert_eq!(Rank::Ace.to_index(), 12);
    assert_eq!(Rank::from_index(9), Rank::Jack);
    assert_eq!(Suit::Hearts.to_index(), 3);
    assert_eq!(Suit::all()[1], Suit::Clubs);
    assert_eq!(Rank::all()[10], Rank::Queen);
}

#[test]
fn pass_directions_cycle() {
    assert_eq!(PassDirection::from_round(0), PassDirection::Left);
    assert_eq!(PassDirection::from_round(1), PassDirection::Right);
    assert_eq!(PassDirection::from_round(2), PassDirection::Cross);
    assert_eq!(PassDirection::from_round(7), PassDirection::NoPass);
    assert_eq!(PassDirection::Left.index_shift(), 1);
    assert_eq!(PassDirection::Cross.index_shift(), 2);
    assert_eq!(PassDirection::Right.index_shift(), 3);
    assert_eq!(PassDirection::NoPass.index_shift(), 0);
}

#[test]
fn hand_queries_and_updates() {
    let mut hand = Hand::new(vec![
        Card(Rank::Two, Suit::Hearts),
        Card(Rank::Queen, Suit::Spades),
        Card(Rank::Two, Suit::Hearts),
    ]);
    assert!(hand.all_have_score());
    assert!(!hand.all_hearts());
    assert!(hand.any_of_suit(Suit::Spades));
    assert!(!hand.any_of_suit(Suit::Clubs));
    assert!(hand.any_match(Card(Rank::Queen, Suit::Spades)));
    hand.remove(Card(Rank::Two, Suit::Hearts));
    assert_eq!(hand.cards(), &vec![Card(Rank::Queen, Suit::Spades)]);
    hand.add(Card(Rank::Three, Suit::Clubs));
    assert_eq!(hand.cards().len(), 2);
    assert!(!hand.all_have_score());
    let m = Move(3, Card(Rank::Ace, Suit::Clubs));
    assert_eq!(m.pidx(), 3);
    assert_eq!(m.card(), Card(Rank::Ace, Suit::Clubs));
    assert_eq!(Card::new(Rank::Ten, Suit::Diamonds).rank(), Rank::Ten);
    assert_eq!(Card::new(Rank::Ten, Suit::Diamonds).suit(), Suit::Diamonds);
}

#[test]
fn each_rule_has_its_fault() {
    let hand = Hand::new(vec![
        Card(Rank::Two, Suit::Clubs),
        Card(Rank::Nine, Suit::Clubs),
        Card(Rank::Queen, Suit::Spades),
        Card(Rank::Four, Suit::Hearts),
    ]);
    let none: Vec<Move> = vec![];
    let led = vec![Move(0, Card(Rank::Ten, Suit::Clubs))];
    let err = |f| Err(HJError::InvalidCardError(f));
    assert_eq!(check_move(&hand, &none, Card(Rank::Ace, Suit::Clubs), false, false), err(CardFault::NotOwned));
    assert_eq!(check_move(&hand, &led, Card(Rank::Queen, Suit::Spades), false, false), err(CardFault::MustFollowSuit));
    assert_eq!(check_move(&hand, &none, Card(Rank::Nine, Suit::Clubs), true, false), err(CardFault::MustLeadTwoOfClubs));
    assert_eq!(check_move(&hand, &none, Card(Rank::Two, Suit::Clubs), true, false), Ok(()));
    let void = Hand::new(vec![Card(Rank::Queen, Suit::Spades), Card(Rank::Three, Suit::Diamonds)]);
    assert_eq!(check_move(&void, &led, Card(Rank::Queen, Suit::Spades), true, false), err(CardFault::PointsOnFirstTrick));
    assert_eq!(check_move(&void, &led, Card(Rank::Three, Suit::Diamonds), true, false), Ok(()));
    assert_eq!(check_move(&void, &led, Card(Rank::Queen, Suit::Spades), false, false), Ok(()));
    let all_hearts = Hand::new(vec![Card(Rank::Four, Suit::Hearts)]);
    assert_eq!(check_move(&all_hearts, &none, Card(Rank::Four, Suit::Hearts), false, false), Ok(()));
}

#[test]
fn pass_faults() {
    let hand = Hand::new(vec![
        Card(Rank::Two, Suit::Clubs),
        Card(Rank::Nine, Suit::Clubs),
        Card(Rank::Queen, Suit::Spades),
        Card(Rank::Four, Suit::Hearts),
    ]);
    let err = |f| Err(HJError::InvalidCardError(f));
    let three = vec![Card(Rank::Two, Suit::Clubs), Card(Rank::Nine, Suit::Clubs), Card(Rank::Four, Suit::Hearts)];
    assert_eq!(check_pass(PassDirection::Left, &three, &hand), Ok(()));
    assert_eq!(check_pass(PassDirection::NoPass, &three, &hand), err(CardFault::NoPassThisRound));
    assert_eq!(check_pass(PassDirection::NoPass, &vec![], &hand), Ok(()));
    assert_eq!(check_pass(PassDirection::Right, &three[..2].to_vec(), &hand), err(CardFault::WrongPassCount));
    let foreign = vec![Card(Rank::Two, Suit::Clubs), Card(Rank::Nine, Suit::Clubs), Card(Rank::Ace, Suit::Hearts)];
    assert_eq!(check_pass(PassDirection::Cross, &foreign, &hand), err(CardFault::PassNotOwned));
    let twice = vec![Card(Rank::Two, Suit::Clubs), Card(Rank::Nine, Suit::Clubs), Card(Rank::Two, Suit::Clubs)];
    assert_eq!(check_pass(PassDirection::Left, &twice, &hand), err(CardFault::DuplicatePass));
}

#[test]
fn allowed_cards_follow_the_rules() {
    let cards = vec![
        Card(Rank::Four, Suit::Hearts),
        Card(Rank::Nine, Suit::Clubs),
        Card(Rank::Queen, Suit::Spades),
        Card(Rank::Three, Suit::Diamonds),
    ];
    let none: Vec<Move> = vec![];
    assert_eq!(allowed_cards(&cards, &none, true, false), vec![Card(Rank::Two, Suit::Clubs)]);
    assert_eq!(
        allowed_cards(&cards, &none, false, false),
        vec![Card(Rank::Nine, Suit::Clubs), Card(Rank::Queen, Suit::Spades), Card(Rank::Three, Suit::Diamonds)]
    );
    assert_eq!(allowed_cards(&cards, &none, false, true), cards);
    let led = vec![Move(1, Card(Rank::Ten, Suit::Clubs))];
    assert_eq!(allowed_cards(&cards, &led, false, false), vec![Card(Rank::Nine, Suit::Clubs)]);
    let hearts_led = vec![Move(1, Card(Rank::Ten, Suit::Spades)), Move(2, Card(Rank::Two, Suit::Spades))];
    assert_eq!(allowed_cards(&cards, &hearts_led, false, false), vec![Card(Rank::Queen, Suit::Spades)]);
    let diamonds_void = vec![Card(Rank::Four, Suit::Hearts), Card(Rank::Nine, Suit::Clubs)];
    let d_led = vec![Move(1, Card(Rank::Ten, Suit::Diamonds))];
    assert_eq!(allowed_cards(&diamonds_void, &d_led, true, false), vec![Card(Rank::Nine, Suit::Clubs)]);
    assert_eq!(allowed_cards(&diamonds_void, &d_led, false, false), diamonds_void);
}

#[test]
fn winner_ignores_off_suit_cards_and_ties_keep_the_first() {
    let moves = vec![
        Move(1, Card(Rank::Two, Suit::Diamonds)),
        Move(2, Card(Rank::Ace, Suit::Spades)),
        Move(3, Card(Rank::King, Suit::Hearts)),
        Move(0, Card(Rank::Three, Suit::Diamonds)),
    ];
    assert_eq!(find_winner_pidx(&moves), 0);
    let alone = vec![Move(2, Card(Rank::Two, Suit::Diamonds))];
    assert_eq!(find_winner_pidx(&alone), 2);
}

#[test]
fn trick_scores() {
    let moves = vec![
        Move(0, Card(Rank::Queen, Suit::Spades)),
        Move(1, Card(Rank::Jack, Suit::Diamonds)),
        Move(2, Card(Rank::Five, Suit::Hearts)),
        Move(3, Card(Rank::Six, Suit::Hearts)),
    ];
    assert_eq!(trick_score(&moves), 5);
    assert!(trick_has_points(&moves));
    let plain = vec![Move(0, Card(Rank::Two, Suit::Clubs))];
    assert_eq!(trick_score(&plain), 0);
    assert!(!trick_has_points(&plain));
}
