//! Dealing a shuffled deck and playing a whole round with four players.
use vstd::prelude::*;
use rand::rngs::StdRng;
use crate::cards::{Card, Hand, Move, PassDirection, deck};
use crate::laws::{cards_of, law_round_points_total, round_cards};
use crate::game::{Actor, GameInfo, StopCondition, HJValidator, first_holder, moon_adjusted, played_out, game_ms, conserving};
use crate::random::shuffle_cards;
use crate::rules::{HJError, two_of_clubs};

verus! {

/// The four hands together hold the deck.
pub open spec fn deals_deck(hands: Seq<Hand>) -> bool {
    (hands[0]@ + hands[1]@ + hands[2]@ + hands[3]@).to_multiset() == deck().to_multiset()
}

/// A round dealt from the deck holds each card of the deck once.
pub proof fn lemma_dealt_cards_in_play(g: GameInfo)
    requires
        deals_deck(g.hands@),
        g.current_moves@.len() == 0,
    ensures
        game_ms(g) == deck().to_multiset(),
        conserving::<HJValidator>(g),
{
    broadcast use vstd::seq_lib::group_to_multiset_ensures;
    let hs = g.hand_seqs();
    vstd::seq_lib::lemma_multiset_commutative(hs[0], hs[1]);
    vstd::seq_lib::lemma_multiset_commutative(hs[0] + hs[1], hs[2]);
    vstd::seq_lib::lemma_multiset_commutative(hs[0] + hs[1] + hs[2], hs[3]);
    assert(cards_of(g.current_moves@) =~= Seq::<Card>::empty());
    crate::game::lemma_empty_ms();
    assert(g.hands@[0]@ + g.hands@[1]@ + g.hands@[2]@ + g.hands@[3]@ == hs[0] + hs[1] + hs[2] + hs[3]);
    assert(game_ms(g) =~= deck().to_multiset());
    crate::laws::lemma_deck_distinct();
    deck().lemma_multiset_has_no_duplicates();
    assert forall|c: Card| #[trigger] game_ms(g).count(c) <= 1 by {
        if deck().to_multiset().count(c) > 0 {
            assert(deck().to_multiset().contains(c));
        }
    }
}

/// When a dealt round is played out, its tricks hold the whole deck.
pub proof fn lemma_round_takes_deck(start: GameInfo, end: GameInfo, tricks: Seq<Seq<Move>>)
    requires
        round_cards(tricks).to_multiset().add(game_ms(end)) == game_ms(start),
        game_ms(start) == deck().to_multiset(),
        tricks.len() == 13,
        forall|i: int| 0 <= i < tricks.len() ==> (#[trigger] tricks[i]).len() == 4,
    ensures
        round_cards(tricks).to_multiset() == deck().to_multiset(),
{
    broadcast use vstd::seq_lib::group_to_multiset_ensures;
    broadcast use vstd::multiset::group_multiset_axioms;
    lemma_round_cards_len(tricks);
    vstd::seq_lib::to_multiset_len(round_cards(tricks));
    vstd::seq_lib::to_multiset_len(deck());
    vstd::multiset::lemma_multiset_empty_len(game_ms(end));
    assert(game_ms(end).len() == 0);
    assert(round_cards(tricks).to_multiset() =~= deck().to_multiset());
}

pub proof fn lemma_round_cards_len(tricks: Seq<Seq<Move>>)
    requires
        forall|i: int| 0 <= i < tricks.len() ==> (#[trigger] tricks[i]).len() == 4,
    ensures
        round_cards(tricks).len() == 4 * tricks.len(),
    decreases tricks.len(),
{
    if tricks.len() > 0 {
        assert forall|i: int| 0 <= i < tricks.drop_last().len() implies (#[trigger] tricks.drop_last()[i]).len() == 4 by {
            assert(tricks.drop_last()[i] == tricks[i]);
        }
        lemma_round_cards_len(tricks.drop_last());
        assert(tricks.last() == tricks[tricks.len() - 1]);
    }
}

/// Deals the shuffled deck in four hands of 13.
pub fn get_shuffled_hands(rng: &mut StdRng) -> (r: [Hand; 4])
    ensures
        forall|i: int| 0 <= i < 4 ==> (#[trigger] r@[i])@.len() == 13,
        deals_deck(r@),
{
    broadcast use vstd::seq_lib::group_to_multiset_ensures;
    let mut cards = Card::all();
    shuffle_cards(&mut cards, rng);
    assert(cards@.to_multiset().len() == deck().to_multiset().len());
    let mut hands: Vec<Vec<Card>> = Vec::new();
    let mut h: usize = 0;
    while h < 4
        invariant
            h <= 4,
            cards@.len() == 52,
            hands@.len() == h,
            forall|k: int| 0 <= k < h ==> (#[trigger] hands@[k])@ == cards@.subrange(13 * k, 13 * k + 13),
        decreases 4 - h,
    {
        let mut one: Vec<Card> = Vec::new();
        let mut i: usize = 0;
        while i < 13
            invariant
                h < 4,
                i <= 13,
                cards@.len() == 52,
                one@ == cards@.subrange(13 * h as int, 13 * h as int + i as int),
            decreases 13 - i,
        {
            one.push(cards[13 * h + i]);
            i = i + 1;
            assert(one@ =~= cards@.subrange(13 * h as int, 13 * h as int + i as int));
        }
        hands.push(one);
        h = h + 1;
    }
    let r = [
        Hand::new(hands[0].clone()),
        Hand::new(hands[1].clone()),
        Hand::new(hands[2].clone()),
        Hand::new(hands[3].clone()),
    ];
    assert(r@[0]@ + r@[1]@ + r@[2]@ + r@[3]@ =~= cards@);
    r
}

/// Plays one round: each player is told its hand, the cards are passed in
/// `pass_direction`, and the 13 tricks are played, every card checked against
/// the rules. The result is the scores, or the first rule broken.
pub fn play_with_hands<T: Actor>(hands: [Hand; 4], pass_direction: PassDirection, actors: &mut [T; 4]) -> (r:
    Result<[isize; 4], HJError>)
    requires
        first_holder(hands@, two_of_clubs()) < 4,
    ensures
        r is Ok ==> exists|tricks: Seq<Seq<Move>>, winners: Seq<int>, raw: Seq<isize>, scored: Seq<bool>|
            played_out(seq![0isize, 0, 0, 0], tricks, winners, raw) && tricks.len() == 13 && r->Ok_0@
                == moon_adjusted(raw, scored) && (deals_deck(hands@) ==> raw[0] + raw[1] + raw[2] + raw[3] == 16)
                && tricks[0][0].1 == two_of_clubs(),
{
    let mut p: usize = 0;
    while p < 4
        invariant
            p <= 4,
        decreases 4 - p,
    {
        actors[p].initialize(p, &hands[p].cards);
        p = p + 1;
    }
    let ghost dealt = deals_deck(hands@);
    let mut game_info = GameInfo::new(hands);
    proof {
        if dealt {
            lemma_dealt_cards_in_play(game_info);
        }
    }
    match game_info.pass::<HJValidator, T>(pass_direction, actors) {
        Ok(()) => {},
        Err(e) => {
            return Err(e);
        },
    }
    assert(game_info.score@ == seq![0isize, 0, 0, 0]);
    let ghost start = game_info;
    match game_info.play::<HJValidator, T>(actors, StopCondition::Never) {
        Ok(()) => {},
        Err(e) => {
            return Err(e);
        },
    }
    proof {
        let (tricks, winners, raw) = choose|tricks: Seq<Seq<Move>>, winners: Seq<int>, raw: Seq<isize>|
            played_out(seq![0isize, 0, 0, 0], tricks, winners, raw) && tricks.len() == 13
                && game_info.score@ == moon_adjusted(raw, game_info.scored@) && (conserving::<HJValidator>(start)
                ==> round_cards(tricks).to_multiset().add(game_ms(game_info)) == game_ms(start))
                && tricks[0][0].1 == two_of_clubs();
        if dealt {
            lemma_round_takes_deck(start, game_info, tricks);
        }
        if dealt {
            assert forall|i: int| 0 <= i < tricks.len() implies 0 <= #[trigger] winners[i] < 4 by {
                assert(tricks[i].len() == 4);
            }
            law_round_points_total(tricks, winners);
        }
        assert(played_out(seq![0isize, 0, 0, 0], tricks, winners, raw) && tricks.len() == 13 && game_info.score@
            == moon_adjusted(raw, game_info.scored@) && tricks[0][0].1 == two_of_clubs());
    }
    Ok(game_info.score)
}

} // verus!
