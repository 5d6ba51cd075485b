//! Players that the search builds on: a stand-in that plays a given card, and the
//! seam through which a playout policy is resumed from a belief state.
use vstd::prelude::*;
use rand::rngs::StdRng;
use crate::belief::{BasicPlayerState, DefaultPlayerState};
use crate::cards::{Card, Move, PassDirection, Rank, Suit, without};
use crate::belief::any_hearts;
use crate::game::Actor;
use crate::rules::{allowed, allowed_cards};
use crate::random::{below, next_seed, seeded_rng, shuffle_cards};

verus! {

/// A player that can take over a round in the middle, from a belief state.
pub trait MediasResActor: Actor + Sized {
    fn new_from_player_state(player_state: &DefaultPlayerState, rng: &mut StdRng) -> Self;

    /// Makes the next card this player plays `card`.
    fn add_dummy(&mut self, card: Card);

    /// Tells this player that `card` was played for it onto `played_moves`.
    fn played_for(&mut self, played_moves: &Vec<Move>, card: Card);
}

/// A stand-in that plays one card it was given and keeps its belief state up to
/// date.
#[derive(Debug)]
pub struct ActorDummy {
    pub player_state: DefaultPlayerState,
    pub next_card: Option<Card>,
}

impl ActorDummy {
    pub fn new(player_state: DefaultPlayerState, next_card: Option<Card>) -> (r: Self)
        ensures
            r.player_state == player_state,
            r.next_card == next_card,
    {
        Self { next_card, player_state }
    }

    pub fn player_state_move(self) -> (r: DefaultPlayerState)
        ensures
            r == self.player_state,
    {
        self.player_state
    }

    /// The card to play: the one given, else the first card this player may play,
    /// else (with no cards left) the two of clubs.
    pub fn next_choice(&self, played_moves: &Vec<Move>) -> (r: Card)
        ensures
            self.next_card is Some ==> r == self.next_card->0,
    {
        match self.next_card {
            Some(card) => card,
            None => {
                let options = allowed_cards(
                    &self.player_state.basic.cards,
                    played_moves,
                    self.player_state.basic.first_round,
                    self.player_state.basic.hearts_played,
                );
                if options.len() > 0 {
                    options[0]
                } else {
                    Card(Rank::Two, Suit::Clubs)
                }
            },
        }
    }
}

impl Actor for ActorDummy {
    fn initialize(&mut self, pidx: usize, cards: &Vec<Card>) {
        self.player_state.basic.set_pidx(pidx);
        self.player_state.basic.set_cards(cards.clone());
    }

    fn play_card(&mut self, played_moves: &Vec<Move>) -> Card {
        self.player_state.update_play_card(played_moves);
        let card = self.next_choice(played_moves);
        self.player_state.update_did_play_card(&card);
        self.next_card = None;
        card
    }

    fn end_round(&mut self, winner_pidx: usize, played_moves: &Vec<Move>) {
        if played_moves.len() <= 52 {
            self.player_state.update_end_round(played_moves, winner_pidx);
        }
    }

    fn end_game(&mut self, _score: [isize; 4]) {
    }

    fn get_pass(&mut self, _direction: PassDirection) -> Vec<Card> {
        Vec::new()
    }

    fn end_pass(&mut self, passed_cards: &Vec<Card>) {
        self.player_state.update_end_pass(passed_cards);
    }
}

/// A player that plays a random card among those it may play, and passes three
/// random cards.
pub struct ActorRandom {
    pub player_state: BasicPlayerState,
    pub dummy: Option<Card>,
    pub rng: StdRng,
}

impl ActorRandom {
    pub fn new(seed: u64) -> (r: Self)
        ensures
            r.player_state.cards@.len() == 0,
            r.player_state.first_round,
            !r.player_state.hearts_played,
    {
        Self { player_state: BasicPlayerState::default(), dummy: None, rng: seeded_rng(seed) }
    }

    /// A card drawn at random among those that may be played onto
    /// `played_moves`, if any.
    pub fn random_choice(&mut self, played_moves: &Vec<Move>) -> (r: Option<Card>)
        ensures
            final(self).player_state == old(self).player_state,
            final(self).dummy == old(self).dummy,
            ({
                let options = allowed(
                    old(self).player_state.cards@,
                    played_moves@,
                    old(self).player_state.first_round,
                    old(self).player_state.hearts_played,
                );
                &&& r is None <==> options.len() == 0
                &&& r is Some ==> options.contains(r->0)
            }),
    {
        let basic = &self.player_state;
        let options = allowed_cards(&basic.cards, played_moves, basic.first_round, basic.hearts_played);
        if options.len() > 0 {
            let k = below(&mut self.rng, options.len());
            Some(options[k])
        } else {
            None
        }
    }
}

impl Actor for ActorRandom {
    fn initialize(&mut self, pidx: usize, cards: &Vec<Card>) {
        self.player_state.set_pidx(pidx);
        self.player_state.set_cards(cards.clone());
    }

    fn play_card(&mut self, played_moves: &Vec<Move>) -> (r: Card)
        ensures
            old(self).dummy is Some ==> r == old(self).dummy->0,
            final(self).dummy is None,
            old(self).dummy is None && allowed(
                old(self).player_state.cards@,
                played_moves@,
                old(self).player_state.first_round,
                old(self).player_state.hearts_played || any_hearts(played_moves@),
            ).len() > 0 ==> allowed(
                old(self).player_state.cards@,
                played_moves@,
                old(self).player_state.first_round,
                old(self).player_state.hearts_played || any_hearts(played_moves@),
            ).contains(r),
            final(self).player_state.cards@ == without(old(self).player_state.cards@, r),
    {
        self.player_state.update_play_card(played_moves);
        let card = match self.dummy {
            Some(c) => {
                self.dummy = None;
                c
            },
            None => match self.random_choice(played_moves) {
                Some(c) => c,
                None => Card(Rank::Two, Suit::Clubs),
            },
        };
        self.player_state.update_did_play_card(&card);
        card
    }

    fn end_round(&mut self, winner_pidx: usize, played_moves: &Vec<Move>) {
        self.player_state.update_end_round(played_moves, winner_pidx);
    }

    fn end_game(&mut self, _score: [isize; 4]) {
    }

    fn get_pass(&mut self, direction: PassDirection) -> (r: Vec<Card>)
        ensures
            direction == PassDirection::NoPass ==> r@.len() == 0,
            r@.len() <= 3,
            forall|i: int| 0 <= i < r@.len() ==> old(self).player_state.cards@.contains(#[trigger] r@[i]),
    {
        broadcast use vstd::seq_lib::group_to_multiset_ensures;
        if direction == PassDirection::NoPass {
            return Vec::new();
        }
        let ghost held = self.player_state.cards@;
        shuffle_cards(&mut self.player_state.cards, &mut self.rng);
        let ghost shuffled = self.player_state.cards@;
        let mut passed: Vec<Card> = Vec::new();
        let mut i: usize = 0;
        while i < 3 && i < self.player_state.cards.len()
            invariant
                i <= 3,
                passed@.len() == i,
                self.player_state.cards@ == shuffled,
                i <= shuffled.len(),
                forall|j: int| 0 <= j < i ==> passed@[j] == #[trigger] shuffled[j],
            decreases 3 - i,
        {
            passed.push(self.player_state.cards[i]);
            i = i + 1;
        }
        proof {
            assert forall|j: int| 0 <= j < passed@.len() implies held.contains(#[trigger] passed@[j]) by {
                assert(shuffled.contains(shuffled[j]));
                assert(shuffled.to_multiset().count(shuffled[j]) > 0);
            }
        }
        let mut k: usize = 0;
        while k < passed.len()
            invariant
                k <= passed@.len() <= 3,
            decreases passed@.len() - k,
        {
            self.player_state.update_did_play_card(&passed[k]);
            k = k + 1;
        }
        passed
    }

    fn end_pass(&mut self, passed_cards: &Vec<Card>) {
        self.player_state.update_end_pass(passed_cards);
    }
}

impl MediasResActor for ActorRandom {
    fn new_from_player_state(player_state: &DefaultPlayerState, rng: &mut StdRng) -> Self {
        ActorRandom { player_state: player_state.basic.clone(), dummy: None, rng: seeded_rng(next_seed(rng)) }
    }

    fn add_dummy(&mut self, card: Card) {
        self.dummy = Some(card);
    }

    fn played_for(&mut self, played_moves: &Vec<Move>, card: Card) {
        self.player_state.update_play_card(played_moves);
        self.player_state.update_did_play_card(&card);
    }
}

/// The random player under its other name.
pub type RandomActor = ActorRandom;

} // verus!
