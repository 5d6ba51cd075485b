//! The table: four seats, each a player with its hand, and the free-standing
//! steps of a round (checking, passing, playing one trick).
use vstd::prelude::*;
use rand::rngs::StdRng;
use crate::cards::{Card, Hand, Move, PassDirection, Suit, shift_of, without};
use crate::deal::get_shuffled_hands;
use crate::game::{Actor, SCORE_CAP, hands_after_transfer, moon_adjusted, passing, scored_count};
use crate::rules::{
    HJError, any_points, check_move, check_pass, find_winner_pidx, move_fault, pass_fault, trick_has_points,
    trick_points, trick_score, trick_winner, verdict,
};

verus! {

/// A seat: the one who plays and the cards it holds.
pub struct Player<A: Actor> {
    pub actor: A,
    pub hand: Hand,
}

impl<A: Actor> Player<A> {
    pub fn new(actor: A, hand: Hand) -> (r: Self)
        ensures
            r.actor == actor,
            r.hand == hand,
    {
        Self { actor, hand }
    }

    pub fn actor_mut(&mut self) -> (r: &mut A)
        ensures
            *r == old(self).actor,
            final(self).actor == *final(r),
            final(self).hand == old(self).hand,
    {
        &mut self.actor
    }

    pub fn hand(&self) -> (r: &Hand)
        ensures
            r == &self.hand,
    {
        &self.hand
    }

    pub fn hand_mut(&mut self) -> (r: &mut Hand)
        ensures
            *r == old(self).hand,
            final(self).hand == *final(r),
            final(self).actor == old(self).actor,
    {
        &mut self.hand
    }
}

/// A round at the table.
pub struct GameState<A: Actor> {
    pub current_round: usize,
    pub hearts_played: bool,
    pub players: Vec<Player<A>>,
    pub score: [isize; 4],
    pub scored: [bool; 4],
}

impl<A: Actor> GameState<A> {
    /// At most 13 tricks, and scores far from the integer limits.
    pub open spec fn wf(&self) -> bool {
        &&& self.players@.len() == 4
        &&& self.current_round <= 13
        &&& forall|i: int|
            0 <= i < 4 ==> -SCORE_CAP - 100 * self.current_round <= #[trigger] self.score@[i] <= SCORE_CAP + 100
                * self.current_round
    }

    /// A round where seat `i` holds `hands[i]` and is played by `actors[i]`; each
    /// player is told its seat and cards.
    pub fn new_from_hands(hands: [Hand; 4], actors: Vec<A>) -> (r: Self)
        requires
            actors@.len() == 4,
        ensures
            r.wf(),
            r.current_round == 0,
            !r.hearts_played,
            r.score@ == seq![0isize, 0, 0, 0],
            r.scored@ == seq![false, false, false, false],
            forall|i: int| 0 <= i < 4 ==> (#[trigger] r.players@[i]).hand@ == hands@[i]@,
    {
        let mut actors = actors;
        let mut players: Vec<Player<A>> = Vec::new();
        let mut i: usize = 0;
        while i < 4
            invariant
                i <= 4,
                actors@.len() == 4 - i,
                players@.len() == i,
                forall|k: int| 0 <= k < i ==> (#[trigger] players@[k]).hand@ == hands@[k]@,
            decreases 4 - i,
        {
            let mut actor = actors.remove(0);
            actor.initialize(i, &hands[i].cards);
            players.push(Player::new(actor, hands[i].clone()));
            i = i + 1;
        }
        let r = Self {
            current_round: 0,
            hearts_played: false,
            players,
            score: [0, 0, 0, 0],
            scored: [false, false, false, false],
        };
        assert(r.score@ =~= seq![0isize, 0, 0, 0]);
        assert(r.scored@ =~= seq![false, false, false, false]);
        r
    }

    /// A round with a freshly shuffled deal.
    pub fn new(actors: Vec<A>, rng: &mut StdRng) -> (r: Self)
        requires
            actors@.len() == 4,
        ensures
            r.wf(),
            r.current_round == 0,
            forall|i: int| 0 <= i < 4 ==> (#[trigger] r.players@[i]).hand@.len() == 13,
    {
        let hands = get_shuffled_hands(rng);
        Self::new_from_hands(hands, actors)
    }

    pub fn current_round(&self) -> (r: usize)
        ensures
            r == self.current_round,
    {
        self.current_round
    }

    pub fn hearts_played(&self) -> (r: bool)
        ensures
            r == self.hearts_played,
    {
        self.hearts_played
    }

    pub fn players(&self) -> (r: &Vec<Player<A>>)
        ensures
            r == &self.players,
    {
        &self.players
    }

    pub fn players_mut(&mut self) -> (r: &mut Vec<Player<A>>)
        ensures
            *r == old(self).players,
            final(self).players == *final(r),
            final(self).current_round == old(self).current_round,
            final(self).hearts_played == old(self).hearts_played,
            final(self).score == old(self).score,
            final(self).scored == old(self).scored,
    {
        &mut self.players
    }

    pub fn score(&self) -> (r: [isize; 4])
        ensures
            r == self.score,
    {
        self.score
    }

    /// Records a card played: it leaves its owner's hand.
    pub fn did_play_move(&mut self, played_move: Move)
        requires
            old(self).wf(),
            played_move.0 < 4,
        ensures
            final(self).wf(),
            final(self).hearts_played == (old(self).hearts_played || played_move.1.1 == Suit::Hearts),
            final(self).players@[played_move.0 as int].hand@ == without(
                old(self).players@[played_move.0 as int].hand@,
                played_move.1,
            ),
            forall|i: int|
                0 <= i < 4 && i != played_move.0 ==> #[trigger] final(self).players@[i] == old(self).players@[i],
            final(self).current_round == old(self).current_round,
            final(self).score == old(self).score,
            final(self).scored == old(self).scored,
    {
        if played_move.1.1 == Suit::Hearts {
            self.hearts_played = true;
        }
        let player = &mut self.players[played_move.0];
        player.hand.remove(played_move.1);
    }

    /// Closes a trick: its points go to `winner_pidx`, and every player is told.
    pub fn did_play_round(&mut self, winner_pidx: usize, played_moves: Vec<Move>)
        requires
            old(self).wf(),
            old(self).current_round < 13,
            winner_pidx < 4,
            played_moves@.len() <= 4,
        ensures
            final(self).wf(),
            final(self).current_round == old(self).current_round + 1,
            final(self).score@ == old(self).score@.update(
                winner_pidx as int,
                (old(self).score@[winner_pidx as int] + trick_points(played_moves@)) as isize,
            ),
            final(self).scored@ == old(self).scored@.update(
                winner_pidx as int,
                old(self).scored@[winner_pidx as int] || any_points(played_moves@),
            ),
            final(self).hearts_played == old(self).hearts_played,
    {
        proof {
            crate::rules::lemma_trick_points_bound(played_moves@);
        }
        self.current_round = self.current_round + 1;
        let points = trick_score(&played_moves);
        let took = trick_has_points(&played_moves);
        self.score[winner_pidx] = self.score[winner_pidx] + points;
        self.scored[winner_pidx] = self.scored[winner_pidx] || took;
        let mut p: usize = 0;
        while p < 4
            invariant
                p <= 4,
                self.current_round == old(self).current_round + 1,
                self.score@ == old(self).score@.update(
                    winner_pidx as int,
                    (old(self).score@[winner_pidx as int] + trick_points(played_moves@)) as isize,
                ),
                self.scored@ == old(self).scored@.update(
                    winner_pidx as int,
                    old(self).scored@[winner_pidx as int] || any_points(played_moves@),
                ),
                self.hearts_played == old(self).hearts_played,
                self.players@.len() == 4,
            decreases 4 - p,
        {
            let player = &mut self.players[p];
            player.actor.end_round(winner_pidx, &played_moves);
            p = p + 1;
        }
    }

    /// Applies the adjustment for a seat that took every point.
    pub fn did_play_game(&mut self)
        requires
            old(self).wf(),
        ensures
            final(self).wf(),
            final(self).score@ == moon_adjusted(old(self).score@, old(self).scored@),
            final(self).scored == old(self).scored,
            final(self).current_round == old(self).current_round,
            final(self).hearts_played == old(self).hearts_played,
            final(self).players == old(self).players,
    {
        let mut count: usize = 0;
        let mut i: usize = 0;
        while i < 4
            invariant
                i <= 4,
                count <= i,
                count == scored_count(self.scored@.subrange(0, i as int).add(seq![false, false, false, false].subrange(i as int, 4))),
            decreases 4 - i,
        {
            if self.scored[i] {
                count = count + 1;
            }
            i = i + 1;
        }
        assert(self.scored@.subrange(0, 4).add(seq![false, false, false, false].subrange(4, 4)) =~= self.scored@);
        if count == 1 {
            let adjusted: [isize; 4] = [
                if self.scored[0] { 0 } else { 36 },
                if self.scored[1] { 0 } else { 36 },
                if self.scored[2] { 0 } else { 36 },
                if self.scored[3] { 0 } else { 36 },
            ];
            self.score = adjusted;
            assert(self.score@ =~= moon_adjusted(old(self).score@, old(self).scored@));
        }
    }

    pub open spec fn hand_seqs(&self) -> Seq<Seq<Card>> {
        Seq::new(4, |i: int| self.players@[i].hand@)
    }

    /// Hands on the passed cards: each card leaves its owner and joins the hand
    /// `shift` seats on.
    pub fn did_pass(&mut self, direction: PassDirection, passed_cards: &[Vec<Card>; 4])
        requires
            old(self).wf(),
        ensures
            final(self).wf(),
            final(self).hand_seqs() == passing(
                old(self).hand_seqs(),
                0,
                Seq::new(4, |i: int| passed_cards@[i]@),
                shift_of(direction) as int,
                3,
                passed_cards@[3]@.len() as int,
            ).0,
            final(self).current_round == old(self).current_round,
            final(self).score == old(self).score,
            final(self).scored == old(self).scored,
            final(self).hearts_played == old(self).hearts_played,
    {
        let shift = direction.index_shift();
        let ghost passed = Seq::new(4, |i: int| passed_cards@[i]@);
        let ghost start = self.hand_seqs();
        let mut pidx: usize = 0;
        while pidx < 4
            invariant
                pidx <= 4,
                shift < 4,
                shift == shift_of(direction),
                passed == Seq::new(4, |i: int| passed_cards@[i]@),
                self.players@.len() == 4,
                self.wf(),
                pidx < 4 ==> self.hand_seqs() == passing(start, 0, passed, shift as int, pidx as int, 0).0,
                pidx == 4 ==> self.hand_seqs() == passing(start, 0, passed, shift as int, 3, passed[3].len() as int).0,
                self.current_round == old(self).current_round,
                self.score == old(self).score,
                self.scored == old(self).scored,
                self.hearts_played == old(self).hearts_played,
            decreases 4 - pidx,
        {
            let cards = &passed_cards[pidx];
            let to = (pidx + shift) % 4;
            let mut k: usize = 0;
            while k < cards.len()
                invariant
                    pidx < 4,
                    to < 4,
                    to == (pidx + shift) % 4,
                    shift < 4,
                    k <= cards@.len(),
                    cards == &passed_cards@[pidx as int],
                    passed == Seq::new(4, |i: int| passed_cards@[i]@),
                    self.players@.len() == 4,
                    self.wf(),
                    self.hand_seqs() == passing(start, 0, passed, shift as int, pidx as int, k as int).0,
                    self.current_round == old(self).current_round,
                    self.score == old(self).score,
                    self.scored == old(self).scored,
                    self.hearts_played == old(self).hearts_played,
                decreases cards@.len() - k,
            {
                let ghost before = self.hand_seqs();
                let from_player = &mut self.players[pidx];
                from_player.hand.remove(cards[k]);
                let to_player = &mut self.players[to];
                to_player.hand.add(cards[k]);
                assert(self.hand_seqs() =~= hands_after_transfer(before, pidx as int, to as int, cards@[k as int]));
                k = k + 1;
            }
            pidx = pidx + 1;
        }
    }
}

/// Checks the cards seat `pidx` passes.
pub fn validate_pass<A: Actor>(
    direction: PassDirection,
    passed_cards: &Vec<Card>,
    pidx: usize,
    game_state: &GameState<A>,
) -> (r: Result<(), HJError>)
    requires
        pidx < 4,
        game_state.wf(),
    ensures
        r == verdict(pass_fault(direction, passed_cards@, game_state.players@[pidx as int].hand@)),
{
    check_pass(direction, passed_cards, &game_state.players[pidx].hand)
}

/// Checks a card against the rules, with `played_moves` on the table.
pub fn validate_move<A: Actor>(game_state: &GameState<A>, played_moves: &Vec<Move>, new_move: Move) -> (r: Result<
    (),
    HJError,
>)
    requires
        new_move.0 < 4,
        game_state.wf(),
    ensures
        r == verdict(
            move_fault(
                game_state.players@[new_move.0 as int].hand@,
                played_moves@,
                new_move.1,
                game_state.current_round == 0,
                game_state.hearts_played,
            ),
        ),
{
    check_move(
        &game_state.players[new_move.0].hand,
        played_moves,
        new_move.1,
        game_state.current_round == 0,
        game_state.hearts_played,
    )
}

/// Asks every seat for its cards to pass, checks them, and hands them on.
/// Nothing changes if some seat's cards are refused.
pub fn pass<A: Actor>(direction: PassDirection, game_state: &mut GameState<A>) -> (r: Result<(), HJError>)
    requires
        old(game_state).wf(),
    ensures
        final(game_state).wf(),
        r is Err ==> final(game_state).hand_seqs() == old(game_state).hand_seqs(),
        r is Ok ==> exists|passed: Seq<Seq<Card>>|
            passed.len() == 4 && (forall|i: int|
                0 <= i < 4 ==> #[trigger] pass_fault(direction, passed[i], old(game_state).hand_seqs()[i]) is None)
                && final(game_state).hand_seqs() == passing(
                old(game_state).hand_seqs(),
                0,
                passed,
                shift_of(direction) as int,
                3,
                passed[3].len() as int,
            ).0,
        final(game_state).current_round == old(game_state).current_round,
        final(game_state).score == old(game_state).score,
        final(game_state).scored == old(game_state).scored,
{
    let ghost start = game_state.hand_seqs();
    let p0 = game_state.players[0].actor.get_pass(direction);
    let p1 = game_state.players[1].actor.get_pass(direction);
    let p2 = game_state.players[2].actor.get_pass(direction);
    let p3 = game_state.players[3].actor.get_pass(direction);
    assert(game_state.hand_seqs() =~= start);
    let passed_cards: [Vec<Card>; 4] = [p0, p1, p2, p3];
    let mut pidx: usize = 0;
    while pidx < 4
        invariant
            pidx <= 4,
            game_state.wf(),
            game_state.hand_seqs() == old(game_state).hand_seqs(),
            forall|j: int|
                0 <= j < pidx ==> #[trigger] pass_fault(direction, passed_cards@[j]@, old(game_state).hand_seqs()[j]) is None,
            game_state.current_round == old(game_state).current_round,
            game_state.score == old(game_state).score,
            game_state.scored == old(game_state).scored,
        decreases 4 - pidx,
    {
        match validate_pass(direction, &passed_cards[pidx], pidx, game_state) {
            Ok(()) => {},
            Err(e) => {
                return Err(e);
            },
        }
        pidx = pidx + 1;
    }
    game_state.did_pass(direction, &passed_cards);
    let ghost seqs = Seq::new(4, |i: int| passed_cards@[i]@);
    assert(forall|i: int| 0 <= i < 4 ==> #[trigger] pass_fault(direction, seqs[i], old(game_state).hand_seqs()[i]) is None);
    Ok(())
}

/// Plays one trick led by `first_pidx`: each seat in turn is asked for a card,
/// which is checked and taken from its hand. The result is the winning seat
/// and the four moves, or the first rule broken.
pub fn play<A: Actor>(first_pidx: usize, game_state: &mut GameState<A>) -> (r: Result<(usize, Vec<Move>), HJError>)
    requires
        first_pidx < 4,
        old(game_state).wf(),
    ensures
        final(game_state).wf(),
        r is Ok ==> r->Ok_0.1@.len() == 4 && r->Ok_0.0 == trick_winner(r->Ok_0.1@),
        r is Ok ==> forall|i: int| 0 <= i < 4 ==> (#[trigger] r->Ok_0.1@[i]).0 == (first_pidx + i) % 4,
        r is Ok ==> forall|i: int|
            0 <= i < 4 ==> #[trigger] final(game_state).hand_seqs()[(first_pidx + i) % 4] == without(
                old(game_state).hand_seqs()[(first_pidx + i) % 4],
                r->Ok_0.1@[i].1,
            ),
        r is Err ==> exists|done: Seq<Move>|
            done.len() < 4 && (forall|i: int|
                0 <= i < done.len() ==> #[trigger] final(game_state).hand_seqs()[(first_pidx + i) % 4] == without(
                    old(game_state).hand_seqs()[(first_pidx + i) % 4],
                    done[i].1,
                )) && (forall|i: int|
                done.len() <= i < 4 ==> #[trigger] final(game_state).hand_seqs()[(first_pidx + i) % 4] == old(
                    game_state,
                ).hand_seqs()[(first_pidx + i) % 4]),
        final(game_state).current_round == old(game_state).current_round,
        final(game_state).score == old(game_state).score,
        final(game_state).scored == old(game_state).scored,
{
    let mut played_moves: Vec<Move> = Vec::new();
    let mut counter: usize = first_pidx;
    while counter < first_pidx + 4
        invariant
            first_pidx < 4,
            first_pidx <= counter <= first_pidx + 4,
            played_moves@.len() == counter - first_pidx,
            forall|i: int| 0 <= i < played_moves@.len() ==> (#[trigger] played_moves@[i]).0 == (first_pidx + i) % 4,
            forall|i: int|
                0 <= i < played_moves@.len() ==> #[trigger] game_state.hand_seqs()[(first_pidx + i) % 4] == without(
                    old(game_state).hand_seqs()[(first_pidx + i) % 4],
                    played_moves@[i].1,
                ),
            forall|i: int|
                played_moves@.len() <= i < 4 ==> #[trigger] game_state.hand_seqs()[(first_pidx + i) % 4] == old(
                    game_state,
                ).hand_seqs()[(first_pidx + i) % 4],
            game_state.wf(),
            game_state.current_round == old(game_state).current_round,
            game_state.score == old(game_state).score,
            game_state.scored == old(game_state).scored,
        decreases first_pidx + 4 - counter,
    {
        let pidx = counter % 4;
        let ghost top = game_state.hand_seqs();
        proof {
            assert forall|i: int| 0 <= i < played_moves@.len() implies #[trigger] top[(first_pidx + i) % 4] == without(
                old(game_state).hand_seqs()[(first_pidx + i) % 4],
                played_moves@[i].1,
            ) by {
                assert(game_state.hand_seqs()[(first_pidx + i) % 4] == top[(first_pidx + i) % 4]);
            }
            assert forall|i: int| played_moves@.len() <= i < 4 implies #[trigger] top[(first_pidx + i) % 4] == old(
                game_state,
            ).hand_seqs()[(first_pidx + i) % 4] by {
                assert(game_state.hand_seqs()[(first_pidx + i) % 4] == top[(first_pidx + i) % 4]);
            }
        }
        let player = &mut game_state.players[pidx];
        let card = player.actor.play_card(&played_moves);
        assert(game_state.hand_seqs() =~= top);
        let new_move = Move(pidx, card);
        match validate_move(game_state, &played_moves, new_move) {
            Ok(()) => {},
            Err(e) => {
                assert(game_state.hand_seqs() =~= top);
                return Err(e);
            },
        }
        let ghost before = game_state.hand_seqs();
        game_state.did_play_move(new_move);
        proof {
            assert forall|q: int| 0 <= q < 4 && q != pidx implies game_state.hand_seqs()[q] == before[q] by {}
            assert(game_state.hand_seqs()[pidx as int] == without(before[pidx as int], card));
        }
        let ghost k = counter - first_pidx;
        let ghost prev = played_moves@;
        played_moves.push(new_move);
        proof {
            assert(pidx as int == (first_pidx + k) % 4);
            assert forall|i: int| 0 <= i < k + 1 implies #[trigger] game_state.hand_seqs()[(first_pidx + i) % 4]
                == without(old(game_state).hand_seqs()[(first_pidx + i) % 4], played_moves@[i].1) by {
                if i < k {
                    assert((first_pidx + i) % 4 != (first_pidx + k) % 4);
                    assert(played_moves@[i] == prev[i]);
                    assert(top[(first_pidx + i) % 4] == without(old(game_state).hand_seqs()[(first_pidx + i) % 4], prev[i].1));
                } else {
                    assert(top[(first_pidx + k) % 4] == old(game_state).hand_seqs()[(first_pidx + k) % 4]);
                    assert(played_moves@[i] == new_move);
                }
            }
            assert forall|i: int| k + 1 <= i < 4 implies #[trigger] game_state.hand_seqs()[(first_pidx + i) % 4]
                == old(game_state).hand_seqs()[(first_pidx + i) % 4] by {
                assert((first_pidx + i) % 4 != (first_pidx + k) % 4);
                assert(top[(first_pidx + i) % 4] == old(game_state).hand_seqs()[(first_pidx + i) % 4]);
            }
        }
        counter = counter + 1;
    }
    let winner = find_winner_pidx(&played_moves);
    Ok((winner, played_moves))
}

} // verus!
