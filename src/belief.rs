//! What one player knows during a round: its own cards, which cards are still
//! unseen, which players have shown a void in a suit, and the scores so far.
use vstd::prelude::*;
use crate::cards::{Card, Move, Rank, Suit, rank_at, rank_index, suit_at, suit_index, without};
use crate::game::{SCORE_CAP, moon_adjusted};
use crate::rules::{any_points, trick_has_points, trick_points, trick_score};

verus! {

/// Whether some move of `moves` is a heart.
pub open spec fn any_hearts(moves: Seq<Move>) -> bool {
    exists|i: int| 0 <= i < moves.len() && (#[trigger] moves[i]).1.1 == Suit::Hearts
}

/// Whether the card of suit index `s` and rank index `r` is among `moves`.
pub open spec fn card_played(moves: Seq<Move>, s: int, r: int) -> bool {
    exists|i: int|
        0 <= i < moves.len() && suit_index((#[trigger] moves[i]).1.1) == s && rank_index(moves[i].1.0) == r
}

/// Whether seat `p` failed to follow suit index `s` when it was led in `moves`.
pub open spec fn shown_void(moves: Seq<Move>, s: int, p: int) -> bool {
    moves.len() > 0 && suit_index(moves[0].1.1) == s && exists|i: int|
        0 <= i < moves.len() && (#[trigger] moves[i]).0 == p && moves[i].1.1 != moves[0].1.1
}

/// `x` kept within the score cap.
pub open spec fn clamp_score(x: int) -> isize {
    if x > SCORE_CAP {
        SCORE_CAP
    } else if x < -SCORE_CAP {
        (-SCORE_CAP) as isize
    } else {
        x as isize
    }
}

/// Number of `true` entries in `row`.
pub open spec fn count_true(row: Seq<bool>) -> nat
    decreases row.len(),
{
    if row.len() == 0 {
        0
    } else {
        count_true(row.drop_last()) + if row.last() { 1nat } else { 0 }
    }
}

/// Whether a move of `moves` is a heart.
pub fn has_heart(moves: &Vec<Move>) -> (r: bool)
    ensures
        r == any_hearts(moves@),
{
    let mut i: usize = 0;
    while i < moves.len()
        invariant
            i <= moves@.len(),
            forall|j: int| 0 <= j < i ==> (#[trigger] moves@[j]).1.1 != Suit::Hearts,
        decreases moves@.len() - i,
    {
        if moves[i].1.1 == Suit::Hearts {
            return true;
        }
        i = i + 1;
    }
    false
}

/// `cards` followed by `more`.
pub fn concat_cards(cards: &Vec<Card>, more: &Vec<Card>) -> (r: Vec<Card>)
    ensures
        r@ == cards@ + more@,
{
    let mut out = cards.clone();
    let mut i: usize = 0;
    while i < more.len()
        invariant
            i <= more@.len(),
            out@ == cards@ + more@.subrange(0, i as int),
        decreases more@.len() - i,
    {
        out.push(more[i]);
        i = i + 1;
        assert(out@ =~= cards@ + more@.subrange(0, i as int));
    }
    assert(more@.subrange(0, more@.len() as int) =~= more@);
    out
}

/// The knowledge every player has: its seat, its cards, and the round's phase.
#[derive(Debug)]
pub struct BasicPlayerState {
    pub cards: Vec<Card>,
    pub first_round: bool,
    pub hearts_played: bool,
    pub pidx: usize,
}

impl Clone for BasicPlayerState {
    fn clone(&self) -> (r: Self)
        ensures
            r.cards@ == self.cards@,
            r.first_round == self.first_round,
            r.hearts_played == self.hearts_played,
            r.pidx == self.pidx,
    {
        BasicPlayerState {
            cards: self.cards.clone(),
            first_round: self.first_round,
            hearts_played: self.hearts_played,
            pidx: self.pidx,
        }
    }
}

impl BasicPlayerState {
    pub fn new(cards: Vec<Card>, first_round: bool, hearts_played: bool, pidx: usize) -> (r: Self)
        ensures
            r == (BasicPlayerState { cards, first_round, hearts_played, pidx }),
    {
        Self { cards, first_round, hearts_played, pidx }
    }

    pub fn pidx(&self) -> (r: usize)
        ensures
            r == self.pidx,
    {
        self.pidx
    }

    pub fn set_pidx(&mut self, pidx: usize)
        ensures
            *final(self) == (BasicPlayerState { pidx, ..*old(self) }),
    {
        self.pidx = pidx;
    }

    pub fn cards(&self) -> (r: &Vec<Card>)
        ensures
            r == &self.cards,
    {
        &self.cards
    }

    pub fn set_cards(&mut self, cards: Vec<Card>)
        ensures
            *final(self) == (BasicPlayerState { cards, ..*old(self) }),
    {
        self.cards = cards;
    }

    pub fn first_round(&self) -> (r: bool)
        ensures
            r == self.first_round,
    {
        self.first_round
    }

    pub fn set_first_round(&mut self, first_round: bool)
        ensures
            *final(self) == (BasicPlayerState { first_round, ..*old(self) }),
    {
        self.first_round = first_round;
    }

    pub fn hearts_played(&self) -> (r: bool)
        ensures
            r == self.hearts_played,
    {
        self.hearts_played
    }

    pub fn set_hearts_played(&mut self, hearts_played: bool)
        ensures
            *final(self) == (BasicPlayerState { hearts_played, ..*old(self) }),
    {
        self.hearts_played = hearts_played;
    }

    /// Takes note of the cards played before this player's turn.
    pub fn update_play_card(&mut self, played_moves: &Vec<Move>)
        ensures
            *final(self) == (BasicPlayerState {
                hearts_played: old(self).hearts_played || any_hearts(played_moves@),
                ..*old(self)
            }),
    {
        if has_heart(played_moves) {
            self.hearts_played = true;
        }
    }

    /// Takes a card this player has played or passed out of its hand.
    pub fn update_did_play_card(&mut self, card: &Card)
        ensures
            final(self).cards@ == without(old(self).cards@, *card),
            final(self).first_round == old(self).first_round,
            final(self).hearts_played == old(self).hearts_played,
            final(self).pidx == old(self).pidx,
    {
        self.cards = crate::cards::remove_card(&self.cards, *card);
    }

    /// Takes note of a finished trick.
    pub fn update_end_round(&mut self, played_moves: &Vec<Move>, _winner_pidx: usize)
        ensures
            *final(self) == (BasicPlayerState {
                first_round: false,
                hearts_played: old(self).hearts_played || any_hearts(played_moves@),
                ..*old(self)
            }),
    {
        self.first_round = false;
        if has_heart(played_moves) {
            self.hearts_played = true;
        }
    }

    /// Adds the cards received in the pass.
    pub fn update_end_pass(&mut self, passed_cards: &Vec<Card>)
        ensures
            final(self).cards@ == old(self).cards@ + passed_cards@,
            final(self).first_round == old(self).first_round,
            final(self).hearts_played == old(self).hearts_played,
            final(self).pidx == old(self).pidx,
    {
        self.cards = concat_cards(&self.cards, passed_cards);
    }
}

impl Default for BasicPlayerState {
    fn default() -> (r: Self)
        ensures
            r.cards@.len() == 0,
            r.first_round,
            !r.hearts_played,
            r.pidx == 0,
    {
        Self { cards: Vec::new(), first_round: true, hearts_played: false, pidx: 0 }
    }
}

/// The belief state: the basic knowledge, which cards are still unseen
/// (`cards_in_game[suit][rank]`), the trick points of each seat, which seats took
/// points, and which seats may still hold a suit (`still_has[suit][seat]`).
#[derive(Debug)]
pub struct DefaultPlayerState {
    pub basic: BasicPlayerState,
    pub cards_in_game: [[bool; 13]; 4],
    pub scores: [isize; 4],
    pub scored: [bool; 4],
    pub still_has: [[bool; 4]; 4],
}

/// The unseen-card table after `moves` have been seen.
pub open spec fn unseen_after(table: [[bool; 13]; 4], moves: Seq<Move>, s: int, r: int) -> bool {
    table@[s]@[r] && !card_played(moves, s, r)
}

/// The still-has table after `moves` have been seen.
pub open spec fn holds_after(table: [[bool; 4]; 4], moves: Seq<Move>, s: int, p: int) -> bool {
    table@[s]@[p] && !shown_void(moves, s, p)
}

/// `new` is `old` after seeing `moves` on the table before its own turn.
pub open spec fn seen_play(old: DefaultPlayerState, new: DefaultPlayerState, moves: Seq<Move>) -> bool {
    &&& new.basic == (BasicPlayerState {
        hearts_played: old.basic.hearts_played || any_hearts(moves),
        ..old.basic
    })
    &&& seen_cards(old, new, moves)
    &&& new.scores == old.scores
    &&& new.scored == old.scored
}

/// The unseen cards and voids of `new` are those of `old` after seeing `moves`.
pub open spec fn seen_cards(old: DefaultPlayerState, new: DefaultPlayerState, moves: Seq<Move>) -> bool {
    &&& forall|s: int, r: int|
        0 <= s < 4 && 0 <= r < 13 ==> #[trigger] new.cards_in_game@[s]@[r] == unseen_after(old.cards_in_game, moves, s, r)
    &&& forall|s: int, p: int|
        0 <= s < 4 && 0 <= p < 4 ==> #[trigger] new.still_has@[s]@[p] == holds_after(old.still_has, moves, s, p)
}

/// `new` is `old` after seeing the finished trick `moves` won by `winner`.
pub open spec fn seen_trick(old: DefaultPlayerState, new: DefaultPlayerState, moves: Seq<Move>, winner: usize) -> bool {
    &&& new.basic == (BasicPlayerState {
        first_round: false,
        hearts_played: old.basic.hearts_played || any_hearts(moves),
        ..old.basic
    })
    &&& seen_cards(old, new, moves)
    &&& winner < 4 ==> new.scores@ == old.scores@.update(
        winner as int,
        clamp_score(old.scores@[winner as int] + trick_points(moves)),
    )
    &&& winner < 4 ==> new.scored@ == old.scored@.update(
        winner as int,
        old.scored@[winner as int] || any_points(moves),
    )
    &&& winner >= 4 ==> new.scores == old.scores && new.scored == old.scored
}

impl Clone for DefaultPlayerState {
    fn clone(&self) -> (r: Self)
        ensures
            r.same(self),
    {
        DefaultPlayerState {
            basic: self.basic.clone(),
            cards_in_game: self.cards_in_game,
            scores: self.scores,
            scored: self.scored,
            still_has: self.still_has,
        }
    }
}

impl DefaultPlayerState {
    /// `self` and `o` hold the same knowledge.
    pub open spec fn same(&self, o: &DefaultPlayerState) -> bool {
        &&& self.basic.cards@ == o.basic.cards@
        &&& self.basic.first_round == o.basic.first_round
        &&& self.basic.hearts_played == o.basic.hearts_played
        &&& self.basic.pidx == o.basic.pidx
        &&& self.cards_in_game == o.cards_in_game
        &&& self.scores == o.scores
        &&& self.scored == o.scored
        &&& self.still_has == o.still_has
    }

    pub open spec fn new_spec(
        cards: Vec<Card>,
        first_round: bool,
        hearts_played: bool,
        pidx: usize,
        cards_in_game: [[bool; 13]; 4],
        scores: [isize; 4],
        scored: [bool; 4],
        still_has: [[bool; 4]; 4],
    ) -> DefaultPlayerState {
        DefaultPlayerState {
            basic: BasicPlayerState { cards, first_round, hearts_played, pidx },
            cards_in_game,
            scores,
            scored,
            still_has,
        }
    }

    pub fn new(
        cards: Vec<Card>,
        first_round: bool,
        hearts_played: bool,
        pidx: usize,
        cards_in_game: [[bool; 13]; 4],
        scores: [isize; 4],
        scored: [bool; 4],
        still_has: [[bool; 4]; 4],
    ) -> (r: Self)
        ensures
            r == (DefaultPlayerState {
                basic: BasicPlayerState { cards, first_round, hearts_played, pidx },
                cards_in_game,
                scores,
                scored,
                still_has,
            }),
    {
        Self {
            basic: BasicPlayerState::new(cards, first_round, hearts_played, pidx),
            cards_in_game,
            scores,
            scored,
            still_has,
        }
    }

    /// The scores are within the cap.
    pub open spec fn wf(&self) -> bool {
        forall|i: int| 0 <= i < 4 ==> -SCORE_CAP <= #[trigger] self.scores@[i] <= SCORE_CAP
    }

    /// Marks the cards of `moves` as seen, and each seat that did not follow the
    /// led suit as void in it. A seat once void stays void.
    pub fn update_moves(&mut self, moves: &Vec<Move>)
        ensures
            forall|s: int, r: int|
                0 <= s < 4 && 0 <= r < 13 ==> #[trigger] final(self).cards_in_game@[s]@[r] == unseen_after(
                    old(self).cards_in_game,
                    moves@,
                    s,
                    r,
                ),
            forall|s: int, p: int|
                0 <= s < 4 && 0 <= p < 4 ==> #[trigger] final(self).still_has@[s]@[p] == holds_after(
                    old(self).still_has,
                    moves@,
                    s,
                    p,
                ),
            final(self).basic == old(self).basic,
            final(self).scores == old(self).scores,
            final(self).scored == old(self).scored,
    {
        if moves.len() == 0 {
            return;
        }
        let led = moves[0].1.1;
        let mut i: usize = 0;
        while i < moves.len()
            invariant
                i <= moves@.len(),
                moves@.len() > 0,
                led == moves@[0].1.1,
                self.basic == old(self).basic,
                self.scores == old(self).scores,
                self.scored == old(self).scored,
                forall|s: int, r: int|
                    0 <= s < 4 && 0 <= r < 13 ==> #[trigger] self.cards_in_game@[s]@[r] == unseen_after(
                        old(self).cards_in_game,
                        moves@.subrange(0, i as int),
                        s,
                        r,
                    ),
                forall|s: int, p: int|
                    0 <= s < 4 && 0 <= p < 4 ==> #[trigger] self.still_has@[s]@[p] == (old(self).still_has@[s]@[p]
                        && !(suit_index(led) == s && exists|j: int|
                        0 <= j < i && (#[trigger] moves@[j]).0 == p && moves@[j].1.1 != led)),
            decreases moves@.len() - i,
        {
            let m = moves[i];
            let si = m.1.1.to_index();
            let ri = m.1.0.to_index();
            let mut row = self.cards_in_game[si];
            row[ri] = false;
            self.cards_in_game[si] = row;
            if m.1.1 != led && m.0 < 4 {
                let li = led.to_index();
                let mut hold = self.still_has[li];
                hold[m.0] = false;
                self.still_has[li] = hold;
            }
            proof {
                let prev = moves@.subrange(0, i as int);
                let next = moves@.subrange(0, i as int + 1);
                assert(next[i as int] == m);
                assert forall|s: int, r: int| 0 <= s < 4 && 0 <= r < 13 implies #[trigger] self.cards_in_game@[s]@[r]
                    == unseen_after(old(self).cards_in_game, next, s, r) by {
                    if card_played(prev, s, r) {
                        let j = choose|j: int|
                            0 <= j < prev.len() && suit_index((#[trigger] prev[j]).1.1) == s && rank_index(prev[j].1.0) == r;
                        assert(next[j] == prev[j]);
                    }
                    if card_played(next, s, r) && !(s == si && r == ri) {
                        let j = choose|j: int|
                            0 <= j < next.len() && suit_index((#[trigger] next[j]).1.1) == s && rank_index(next[j].1.0) == r;
                        assert(prev[j] == next[j]);
                    }
                }
            }
            i = i + 1;
        }
        proof {
            assert(moves@.subrange(0, moves@.len() as int) == moves@);
            assert forall|s: int, p: int| 0 <= s < 4 && 0 <= p < 4 implies #[trigger] self.still_has@[s]@[p]
                == holds_after(old(self).still_has, moves@, s, p) by {
                if shown_void(moves@, s, p) {
                    let j = choose|j: int| 0 <= j < moves@.len() && (#[trigger] moves@[j]).0 == p && moves@[j].1.1 != moves@[0].1.1;
                    assert(moves@[j].0 == p);
                }
            }
        }
    }

    pub fn pidx(&self) -> (r: usize)
        ensures
            r == self.basic.pidx,
    {
        self.basic.pidx
    }

    pub fn cards(&self) -> (r: &Vec<Card>)
        ensures
            r == &self.basic.cards,
    {
        &self.basic.cards
    }

    pub fn first_round(&self) -> (r: bool)
        ensures
            r == self.basic.first_round,
    {
        self.basic.first_round
    }

    pub fn hearts_played(&self) -> (r: bool)
        ensures
            r == self.basic.hearts_played,
    {
        self.basic.hearts_played
    }

    pub fn cards_in_game(&self) -> (r: &[[bool; 13]; 4])
        ensures
            r == &self.cards_in_game,
    {
        &self.cards_in_game
    }

    pub fn scores(&self) -> (r: &[isize; 4])
        ensures
            r == &self.scores,
    {
        &self.scores
    }

    pub fn scored(&self) -> (r: &[bool; 4])
        ensures
            r == &self.scored,
    {
        &self.scored
    }

    pub fn still_has(&self) -> (r: &[[bool; 4]; 4])
        ensures
            r == &self.still_has,
    {
        &self.still_has
    }

    /// Takes note of the cards played before this player's turn.
    pub fn update_play_card(&mut self, played_moves: &Vec<Move>)
        ensures
            seen_play(*old(self), *final(self), played_moves@),
    {
        self.basic.update_play_card(played_moves);
        self.update_moves(played_moves);
    }

    /// Takes a card this player has played or passed out of its hand.
    pub fn update_did_play_card(&mut self, card: &Card)
        ensures
            final(self).basic.cards@ == without(old(self).basic.cards@, *card),
            final(self).basic.first_round == old(self).basic.first_round,
            final(self).basic.hearts_played == old(self).basic.hearts_played,
            final(self).basic.pidx == old(self).basic.pidx,
            final(self).cards_in_game == old(self).cards_in_game,
            final(self).still_has == old(self).still_has,
            final(self).scores == old(self).scores,
            final(self).scored == old(self).scored,
    {
        self.basic.update_did_play_card(card);
    }

    /// Takes note of a finished trick won by `winner_pidx`: its points go to
    /// that seat (kept within the cap), and its cards and voids are recorded.
    pub fn update_end_round(&mut self, played_moves: &Vec<Move>, winner_pidx: usize)
        requires
            played_moves@.len() <= 52,
        ensures
            seen_trick(*old(self), *final(self), played_moves@, winner_pidx),
    {
        self.basic.update_end_round(played_moves, winner_pidx);
        if winner_pidx < 4 {
            proof {
                crate::rules::lemma_trick_points_bound(played_moves@);
            }
            let points = trick_score(played_moves);
            let old_score = self.scores[winner_pidx];
            let capped: isize = if old_score > SCORE_CAP + 1000 {
                SCORE_CAP
            } else if old_score < -SCORE_CAP - 1000 {
                -SCORE_CAP
            } else {
                let sum = old_score + points;
                if sum > SCORE_CAP {
                    SCORE_CAP
                } else if sum < -SCORE_CAP {
                    -SCORE_CAP
                } else {
                    sum
                }
            };
            self.scores[winner_pidx] = capped;
            let took = trick_has_points(played_moves);
            self.scored[winner_pidx] = self.scored[winner_pidx] || took;
        }
        self.update_moves(played_moves);
    }

    /// Adds the cards received in the pass.
    pub fn update_end_pass(&mut self, passed_cards: &Vec<Card>)
        ensures
            final(self).basic.cards@ == old(self).basic.cards@ + passed_cards@,
            final(self).basic.first_round == old(self).basic.first_round,
            final(self).basic.hearts_played == old(self).basic.hearts_played,
            final(self).basic.pidx == old(self).basic.pidx,
            final(self).cards_in_game == old(self).cards_in_game,
            final(self).still_has == old(self).still_has,
            final(self).scores == old(self).scores,
            final(self).scored == old(self).scored,
    {
        self.basic.update_end_pass(passed_cards);
    }

    /// The scores at the end of the round, with the adjustment for a seat that
    /// took every point.
    pub fn final_scores(&self) -> (r: [isize; 4])
        ensures
            r@ == moon_adjusted(self.scores@, self.scored@),
    {
        let mut count: usize = 0;
        let mut i: usize = 0;
        while i < 4
            invariant
                i <= 4,
                count <= i,
                count == crate::game::scored_count(self.scored@.subrange(0, i as int).add(seq![false, false, false, false].subrange(i as int, 4))),
            decreases 4 - i,
        {
            if self.scored[i] {
                count = count + 1;
            }
            i = i + 1;
        }
        assert(self.scored@.subrange(0, 4).add(seq![false, false, false, false].subrange(4, 4)) =~= self.scored@);
        if count == 1 {
            let r: [isize; 4] = [
                if self.scored[0] { 0 } else { 36 },
                if self.scored[1] { 0 } else { 36 },
                if self.scored[2] { 0 } else { 36 },
                if self.scored[3] { 0 } else { 36 },
            ];
            assert(r@ =~= moon_adjusted(self.scores@, self.scored@));
            r
        } else {
            self.scores
        }
    }
}

impl Default for DefaultPlayerState {
    fn default() -> (r: Self)
        ensures
            r.basic.cards@.len() == 0,
            r.basic.first_round,
            !r.basic.hearts_played,
            r.basic.pidx == 0,
            forall|s: int, k: int| 0 <= s < 4 && 0 <= k < 13 ==> #[trigger] r.cards_in_game@[s]@[k],
            forall|s: int, p: int| 0 <= s < 4 && 0 <= p < 4 ==> #[trigger] r.still_has@[s]@[p],
            r.scores@ == seq![0isize, 0, 0, 0],
            r.scored@ == seq![false, false, false, false],
    {
        let row = [true, true, true, true, true, true, true, true, true, true, true, true, true];
        let hold = [true, true, true, true];
        let r = Self {
            basic: BasicPlayerState::default(),
            cards_in_game: [row, row, row, row],
            scores: [0, 0, 0, 0],
            scored: [false, false, false, false],
            still_has: [hold, hold, hold, hold],
        };
        assert(r.scores@ =~= seq![0isize, 0, 0, 0]);
        assert(r.scored@ =~= seq![false, false, false, false]);
        r
    }
}

/// The suit at position `i` (Spades, Clubs, Diamonds, Hearts).
pub fn suit_from_index(i: usize) -> (r: Suit)
    requires
        i < 4,
    ensures
        r == crate::cards::suit_at(i as int),
        suit_index(r) == i,
{
    if i == 0 {
        Suit::Spades
    } else if i == 1 {
        Suit::Clubs
    } else if i == 2 {
        Suit::Diamonds
    } else {
        Suit::Hearts
    }
}

/// Number of `true` entries of a row.
pub fn count_row(row: &[bool; 13]) -> (r: usize)
    ensures
        r == count_true(row@),
        r <= 13,
{
    let mut n: usize = 0;
    let mut i: usize = 0;
    while i < 13
        invariant
            i <= 13,
            n <= i,
            n == count_true(row@.subrange(0, i as int)),
        decreases 13 - i,
    {
        assert(row@.subrange(0, i as int + 1).drop_last() == row@.subrange(0, i as int));
        if row[i] {
            n = n + 1;
        }
        i = i + 1;
    }
    assert(row@.subrange(0, 13) == row@);
    n
}

/// The card of suit index `s` and rank index `r`.
pub open spec fn card_at(s: int, r: int) -> Card {
    Card(rank_at(r), suit_at(s))
}

/// The belief state with counts derived from it: unseen cards per suit, the unseen
/// cards that are not this player's own (so some opponent holds them), and their
/// counts per suit.
#[derive(Debug)]
pub struct ExtendedPlayerState {
    pub state: DefaultPlayerState,
    pub cards_in_game_by_suit: [usize; 4],
    pub opponent_cards_in_game: [[bool; 13]; 4],
    pub opponent_cards_in_game_by_suit: [usize; 4],
}

/// The caches of `e` agree with the facts they are derived from.
pub open spec fn caches_agree(
    state: DefaultPlayerState,
    by_suit: [usize; 4],
    opponent: [[bool; 13]; 4],
    opponent_by_suit: [usize; 4],
) -> bool {
    &&& forall|s: int| 0 <= s < 4 ==> #[trigger] by_suit@[s] == count_true(state.cards_in_game@[s]@)
    &&& forall|s: int, r: int|
        0 <= s < 4 && 0 <= r < 13 ==> #[trigger] opponent@[s]@[r] == (state.cards_in_game@[s]@[r]
            && !state.basic.cards@.contains(card_at(s, r)))
    &&& forall|s: int| 0 <= s < 4 ==> #[trigger] opponent_by_suit@[s] == count_true(opponent@[s]@)
}

impl ExtendedPlayerState {
    pub open spec fn wf(&self) -> bool {
        caches_agree(
            self.state,
            self.cards_in_game_by_suit,
            self.opponent_cards_in_game,
            self.opponent_cards_in_game_by_suit,
        )
    }

    pub fn new(
        cards: Vec<Card>,
        first_round: bool,
        hearts_played: bool,
        pidx: usize,
        cards_in_game: [[bool; 13]; 4],
        scores: [isize; 4],
        scored: [bool; 4],
        still_has: [[bool; 4]; 4],
        cards_in_game_by_suit: [usize; 4],
        opponent_cards_in_game: [[bool; 13]; 4],
        opponent_cards_in_game_by_suit: [usize; 4],
    ) -> (r: Self)
        requires
            caches_agree(
                DefaultPlayerState {
                    basic: BasicPlayerState { cards, first_round, hearts_played, pidx },
                    cards_in_game,
                    scores,
                    scored,
                    still_has,
                },
                cards_in_game_by_suit,
                opponent_cards_in_game,
                opponent_cards_in_game_by_suit,
            ),
        ensures
            r.wf(),
            r.state == DefaultPlayerState::new_spec(cards, first_round, hearts_played, pidx, cards_in_game, scores, scored, still_has),
    {
        Self {
            state: DefaultPlayerState::new(
                cards,
                first_round,
                hearts_played,
                pidx,
                cards_in_game,
                scores,
                scored,
                still_has,
            ),
            cards_in_game_by_suit,
            opponent_cards_in_game,
            opponent_cards_in_game_by_suit,
        }
    }

    /// The belief state `state` with its counts worked out.
    pub fn from_state(state: DefaultPlayerState) -> (r: Self)
        ensures
            r.wf(),
            r.state == state,
    {
        let mut r = Self {
            state,
            cards_in_game_by_suit: [0, 0, 0, 0],
            opponent_cards_in_game: [[false; 13]; 4],
            opponent_cards_in_game_by_suit: [0, 0, 0, 0],
        };
        r.refresh();
        r
    }

    /// Works the counts out again from the belief state.
    fn refresh(&mut self)
        ensures
            final(self).wf(),
            final(self).state == old(self).state,
    {
        let mut s: usize = 0;
        while s < 4
            invariant
                s <= 4,
                self.state == old(self).state,
                forall|t: int| 0 <= t < s ==> #[trigger] self.cards_in_game_by_suit@[t] == count_true(self.state.cards_in_game@[t]@),
                forall|t: int, r: int|
                    0 <= t < s && 0 <= r < 13 ==> #[trigger] self.opponent_cards_in_game@[t]@[r] == (
                    self.state.cards_in_game@[t]@[r] && !self.state.basic.cards@.contains(card_at(t, r))),
                forall|t: int| 0 <= t < s ==> #[trigger] self.opponent_cards_in_game_by_suit@[t] == count_true(self.opponent_cards_in_game@[t]@),
            decreases 4 - s,
        {
            let suit = suit_from_index(s);
            let in_game = self.state.cards_in_game[s];
            let mut row = [false; 13];
            let mut r: usize = 0;
            while r < 13
                invariant
                    s < 4,
                    r <= 13,
                    suit == crate::cards::suit_at(s as int),
                    in_game == self.state.cards_in_game@[s as int],
                    forall|k: int| 0 <= k < r ==> #[trigger] row@[k] == (in_game@[k]
                        && !self.state.basic.cards@.contains(card_at(s as int, k))),
                decreases 13 - r,
            {
                let rank = Rank::from_index(r as u8);
                let own = crate::cards::Hand::contains_card(&self.state.basic.cards, Card(rank, suit));
                row[r] = in_game[r] && !own;
                r = r + 1;
            }
            let n_in_game = count_row(&in_game);
            let n_opponent = count_row(&row);
            self.cards_in_game_by_suit[s] = n_in_game;
            self.opponent_cards_in_game[s] = row;
            self.opponent_cards_in_game_by_suit[s] = n_opponent;
            s = s + 1;
        }
    }

    pub fn pidx(&self) -> (r: usize)
        ensures
            r == self.state.basic.pidx,
    {
        self.state.basic.pidx
    }

    pub fn set_pidx(&mut self, pidx: usize)
        requires
            old(self).wf(),
        ensures
            final(self).wf(),
            final(self).state == (DefaultPlayerState { basic: BasicPlayerState { pidx, ..old(self).state.basic }, ..old(self).state }),
    {
        self.state.basic.set_pidx(pidx);
    }

    pub fn cards(&self) -> (r: &Vec<Card>)
        ensures
            r == &self.state.basic.cards,
    {
        &self.state.basic.cards
    }

    /// Sets this player's cards; the cards of its own are no longer counted as
    /// held by an opponent.
    pub fn set_cards(&mut self, cards: Vec<Card>)
        ensures
            final(self).wf(),
            final(self).state == (DefaultPlayerState { basic: BasicPlayerState { cards, ..old(self).state.basic }, ..old(self).state }),
    {
        self.state.basic.set_cards(cards);
        self.refresh();
    }

    pub fn first_round(&self) -> (r: bool)
        ensures
            r == self.state.basic.first_round,
    {
        self.state.basic.first_round
    }

    pub fn hearts_played(&self) -> (r: bool)
        ensures
            r == self.state.basic.hearts_played,
    {
        self.state.basic.hearts_played
    }

    pub fn cards_in_game(&self) -> (r: &[[bool; 13]; 4])
        ensures
            r == &self.state.cards_in_game,
    {
        &self.state.cards_in_game
    }

    pub fn scores(&self) -> (r: &[isize; 4])
        ensures
            r == &self.state.scores,
    {
        &self.state.scores
    }

    pub fn still_has(&self) -> (r: &[[bool; 4]; 4])
        ensures
            r == &self.state.still_has,
    {
        &self.state.still_has
    }

    pub fn cards_in_game_by_suit(&self) -> (r: &[usize; 4])
        ensures
            r == &self.cards_in_game_by_suit,
    {
        &self.cards_in_game_by_suit
    }

    pub fn opponent_cards_in_game(&self) -> (r: &[[bool; 13]; 4])
        ensures
            r == &self.opponent_cards_in_game,
    {
        &self.opponent_cards_in_game
    }

    pub fn opponent_cards_in_game_by_suit(&self) -> (r: &[usize; 4])
        ensures
            r == &self.opponent_cards_in_game_by_suit,
    {
        &self.opponent_cards_in_game_by_suit
    }

    pub fn update_play_card(&mut self, played_moves: &Vec<Move>)
        ensures
            final(self).wf(),
            seen_play(old(self).state, final(self).state, played_moves@),
    {
        self.state.update_play_card(played_moves);
        self.refresh();
    }

    pub fn update_did_play_card(&mut self, card: &Card)
        ensures
            final(self).wf(),
            final(self).state.basic.cards@ == without(old(self).state.basic.cards@, *card),
            final(self).state.basic.first_round == old(self).state.basic.first_round,
            final(self).state.basic.hearts_played == old(self).state.basic.hearts_played,
            final(self).state.basic.pidx == old(self).state.basic.pidx,
            final(self).state.cards_in_game == old(self).state.cards_in_game,
            final(self).state.still_has == old(self).state.still_has,
            final(self).state.scores == old(self).state.scores,
            final(self).state.scored == old(self).state.scored,
    {
        self.state.update_did_play_card(card);
        self.refresh();
    }

    pub fn update_end_round(&mut self, played_moves: &Vec<Move>, winner_pidx: usize)
        requires
            played_moves@.len() <= 52,
        ensures
            final(self).wf(),
            seen_trick(old(self).state, final(self).state, played_moves@, winner_pidx),
    {
        self.state.update_end_round(played_moves, winner_pidx);
        self.refresh();
    }

    pub fn update_end_pass(&mut self, passed_cards: &Vec<Card>)
        ensures
            final(self).wf(),
            final(self).state.basic.cards@ == old(self).state.basic.cards@ + passed_cards@,
            final(self).state.basic.first_round == old(self).state.basic.first_round,
            final(self).state.basic.hearts_played == old(self).state.basic.hearts_played,
            final(self).state.basic.pidx == old(self).state.basic.pidx,
            final(self).state.cards_in_game == old(self).state.cards_in_game,
            final(self).state.still_has == old(self).state.still_has,
            final(self).state.scores == old(self).state.scores,
            final(self).state.scored == old(self).state.scored,
    {
        self.state.update_end_pass(passed_cards);
        self.refresh();
    }

    pub fn final_scores(&self) -> (r: [isize; 4])
        ensures
            r@ == moon_adjusted(self.state.scores@, self.state.scored@),
    {
        self.state.final_scores()
    }
}

impl Default for ExtendedPlayerState {
    fn default() -> (r: Self)
        ensures
            r.wf(),
            r.state.basic.cards@.len() == 0,
            r.state.basic.first_round,
            !r.state.basic.hearts_played,
            r.state.basic.pidx == 0,
            forall|s: int, k: int| 0 <= s < 4 && 0 <= k < 13 ==> #[trigger] r.state.cards_in_game@[s]@[k],
            forall|s: int, p: int| 0 <= s < 4 && 0 <= p < 4 ==> #[trigger] r.state.still_has@[s]@[p],
            r.state.scores@ == seq![0isize, 0, 0, 0],
            r.state.scored@ == seq![false, false, false, false],
    {
        Self::from_state(DefaultPlayerState::default())
    }
}

/// The belief state under its other name.
pub type PlayerState = DefaultPlayerState;

} // verus!
