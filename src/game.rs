//! The state of one round and the loop that asks the players for their cards.
use vstd::prelude::*;
use vstd::multiset::Multiset;
use crate::cards::{Card, Hand, Move, PassDirection, Rank, Suit, shift_of, without};
use crate::laws::{cards_of, round_cards, seat_points};
use crate::rules::{HJError, any_points, check_move, check_pass, find_winner_pidx, move_fault, pass_fault, trick_has_points, trick_points, trick_score, trick_winner, two_of_clubs, allowed, allowed_cards};

verus! {

/// The largest score magnitude a round may start from.
pub const SCORE_CAP: isize = 1_000_000;

/// A player of the game: it is told what happens and asked for cards.
pub trait Actor {
    fn initialize(&mut self, pidx: usize, cards: &Vec<Card>);

    fn play_card(&mut self, played_moves: &Vec<Move>) -> Card;

    fn end_round(&mut self, winner_pidx: usize, played_moves: &Vec<Move>);

    fn end_game(&mut self, score: [isize; 4]);

    fn get_pass(&mut self, direction: PassDirection) -> Vec<Card>;

    fn end_pass(&mut self, passed_cards: &Vec<Card>);
}

/// A judge of passes and moves.
pub trait Validator {
    spec fn accepts_pass(direction: PassDirection, passed: Seq<Card>, pidx: usize, game_info: GameInfo) -> bool;

    spec fn accepts_move(game_info: GameInfo, played: Seq<Move>, new_move: Move) -> bool;

    /// Whether only cards from the mover's hand are accepted.
    spec fn checks_ownership() -> bool;

    /// Whether the first trick of a round must be led with the two of clubs.
    spec fn checks_lead() -> bool;

    fn validate_pass(
        direction: PassDirection,
        passed_cards: &Vec<Card>,
        pidx: usize,
        game_info: &GameInfo,
    ) -> (r: Result<(), HJError>)
        requires
            pidx < 4,
        ensures
            r is Ok <==> Self::accepts_pass(direction, passed_cards@, pidx, *game_info),
            Self::checks_ownership() && r is Ok ==> passed_cards@.no_duplicates() && forall|i: int|
                0 <= i < passed_cards@.len() ==> game_info.hands@[pidx as int]@.contains(#[trigger] passed_cards@[i]),
    ;

    fn validate_move(game_info: &GameInfo, played_moves: &Vec<Move>, new_move: Move) -> (r: Result<
        (),
        HJError,
    >)
        requires
            new_move.0 < 4,
        ensures
            r is Ok <==> Self::accepts_move(*game_info, played_moves@, new_move),
            Self::checks_ownership() && r is Ok ==> game_info.hands@[new_move.0 as int]@.contains(new_move.1),
            Self::checks_lead() && r is Ok && played_moves@.len() == 0 && game_info.current_round == 0 ==> new_move.1
                == two_of_clubs(),
    ;
}

/// A judge that accepts everything.
pub struct NoValidator {}

impl Validator for NoValidator {
    open spec fn accepts_pass(direction: PassDirection, passed: Seq<Card>, pidx: usize, game_info: GameInfo) -> bool {
        true
    }

    open spec fn accepts_move(game_info: GameInfo, played: Seq<Move>, new_move: Move) -> bool {
        true
    }

    open spec fn checks_ownership() -> bool {
        false
    }

    open spec fn checks_lead() -> bool {
        false
    }

    fn validate_pass(
        _direction: PassDirection,
        _passed_cards: &Vec<Card>,
        _pidx: usize,
        _game_info: &GameInfo,
    ) -> (r: Result<(), HJError>) {
        Ok(())
    }

    fn validate_move(_game_info: &GameInfo, _played_moves: &Vec<Move>, _new_move: Move) -> (r:
        Result<(), HJError>) {
        Ok(())
    }
}

/// The judge that holds players to the rules of Hearts.
pub struct HJValidator {}

impl Validator for HJValidator {
    open spec fn accepts_pass(direction: PassDirection, passed: Seq<Card>, pidx: usize, game_info: GameInfo) -> bool {
        pass_fault(direction, passed, game_info.hands@[pidx as int]@) is None
    }

    open spec fn accepts_move(game_info: GameInfo, played: Seq<Move>, new_move: Move) -> bool {
        move_fault(
            game_info.hands@[new_move.0 as int]@,
            played,
            new_move.1,
            game_info.current_round == 0,
            game_info.hearts_played,
        ) is None
    }

    open spec fn checks_ownership() -> bool {
        true
    }

    open spec fn checks_lead() -> bool {
        true
    }

    fn validate_pass(
        direction: PassDirection,
        passed_cards: &Vec<Card>,
        pidx: usize,
        game_info: &GameInfo,
    ) -> (r: Result<(), HJError>) {
        check_pass(direction, passed_cards, &game_info.hands[pidx])
    }

    fn validate_move(game_info: &GameInfo, played_moves: &Vec<Move>, new_move: Move) -> (r: Result<
        (),
        HJError,
    >) {
        check_move(
            &game_info.hands[new_move.0],
            played_moves,
            new_move.1,
            game_info.current_round == 0,
            game_info.hearts_played,
        )
    }
}

/// Where `GameInfo::play` stops early.
#[derive(Debug, Clone, Copy, PartialEq, Eq, Structural)]
pub enum StopCondition {
    /// Play the round to its end.
    Never,
    /// Stop before the second move.
    OneMove,
    /// Stop before the given seat moves again, after at least one move.
    Until(usize),
}

/// `raw` is `start` plus the points each seat collected from the tricks
/// `tricks`, trick `i` (four cards) won by seat `winners[i]`, the highest card of
/// the suit led.
pub open spec fn played_out(start: Seq<isize>, tricks: Seq<Seq<Move>>, winners: Seq<int>, raw: Seq<isize>) -> bool {
    &&& raw.len() == 4 && start.len() == 4
    &&& winners.len() == tricks.len()
    &&& forall|i: int|
        0 <= i < tricks.len() ==> (#[trigger] tricks[i]).len() == 4 && winners[i] == trick_winner(tricks[i]) && 0
            <= winners[i] < 4
    &&& forall|p: int| 0 <= p < 4 ==> #[trigger] raw[p] == start[p] + seat_points(tricks, winners, p)
}

pub proof fn lemma_seat_points_extend(tricks: Seq<Seq<Move>>, winners: Seq<int>, w: int, p: int)
    requires
        winners.len() >= tricks.len(),
    ensures
        seat_points(tricks, winners.push(w), p) == seat_points(tricks, winners, p),
    decreases tricks.len(),
{
    if tricks.len() > 0 {
        lemma_seat_points_extend(tricks.drop_last(), winners, w, p);
    }
}

pub proof fn lemma_played_out_step(
    start: Seq<isize>,
    tricks: Seq<Seq<Move>>,
    winners: Seq<int>,
    raw: Seq<isize>,
    trick: Seq<Move>,
    w: int,
)
    requires
        played_out(start, tricks, winners, raw),
        trick.len() == 4,
        w == trick_winner(trick),
        0 <= w < 4,
        forall|p: int| 0 <= p < 4 ==> -SCORE_CAP - 1300 <= #[trigger] raw[p] <= SCORE_CAP + 1300,
    ensures
        played_out(
            start,
            tricks.push(trick),
            winners.push(w),
            Seq::new(4, |p: int| (raw[p] + if p == w { trick_points(trick) } else { 0 }) as isize),
        ),
{
    crate::rules::lemma_trick_points_bound(trick);
    let t2 = tricks.push(trick);
    let w2 = winners.push(w);
    assert forall|p: int| 0 <= p < 4 implies seat_points(t2, w2, p) == seat_points(tricks, winners, p) + (if p == w {
        trick_points(trick)
    } else {
        0
    }) by {
        lemma_seat_points_extend(tricks, winners, w, p);
        assert(t2.drop_last() == tricks);
    }
    assert forall|i: int| 0 <= i < t2.len() implies (#[trigger] t2[i]).len() == 4 && w2[i] == trick_winner(t2[i]) && 0
        <= w2[i] < 4 by {
        if i < tricks.len() {
            assert(t2[i] == tricks[i]);
        }
    }
}

/// `V` accepts only cards from the mover's hand and no card is twice in play in
/// `g`, so the cards are only moved, never made or lost.
pub open spec fn conserving<V: Validator>(g: GameInfo) -> bool {
    V::checks_ownership() && forall|c: Card| #[trigger] game_ms(g).count(c) <= 1
}

/// The cards held by the four hands `hs`.
pub open spec fn hand_ms(hs: Seq<Seq<Card>>) -> Multiset<Card> {
    hs[0].to_multiset().add(hs[1].to_multiset()).add(hs[2].to_multiset()).add(hs[3].to_multiset())
}

/// The cards of a round still in play: in the hands and on the table.
pub open spec fn game_ms(g: GameInfo) -> Multiset<Card> {
    hand_ms(g.hand_seqs()).add(cards_of(g.current_moves@).to_multiset())
}

pub proof fn lemma_empty_ms()
    ensures
        Seq::<Card>::empty().to_multiset() == Multiset::<Card>::empty(),
{
    broadcast use vstd::seq_lib::group_to_multiset_ensures;
    assert forall|x: Card| #[trigger] Seq::<Card>::empty().to_multiset().count(x) == 0 by {
        assert(!Seq::<Card>::empty().contains(x));
    }
    assert(Seq::<Card>::empty().to_multiset() =~= Multiset::<Card>::empty());
}

/// Taking the only copy of `c` out of a sequence takes it out of its multiset.
pub proof fn lemma_without_ms(s: Seq<Card>, c: Card)
    requires
        s.to_multiset().count(c) == 1,
    ensures
        without(s, c).to_multiset() == s.to_multiset().remove(c),
{
    assert forall|x: Card| #[trigger] without(s, c).to_multiset().count(x) == s.to_multiset().remove(c).count(x) by {
        crate::laws::lemma_filter_count(s, crate::cards::other_than(c), x);
    }
    assert(without(s, c).to_multiset() =~= s.to_multiset().remove(c));
}

/// Replacing hand `i` by one without `c` takes `c` out of the hands.
pub proof fn lemma_hand_ms_update(hs: Seq<Seq<Card>>, i: int, h: Seq<Card>, c: Card)
    requires
        hs.len() == 4,
        0 <= i < 4,
        h.to_multiset() == hs[i].to_multiset().remove(c),
        hs[i].to_multiset().count(c) >= 1,
    ensures
        hand_ms(hs.update(i, h)) == hand_ms(hs).remove(c),
{
    let hs2 = hs.update(i, h);
    assert(hand_ms(hs2) =~= hand_ms(hs).remove(c));
}

/// Moving the only copy of `c` from hand `p` to hand `q` keeps the cards held,
/// and every other card stays where it was.
pub proof fn lemma_transfer(hs: Seq<Seq<Card>>, p: int, q: int, c: Card)
    requires
        hs.len() == 4,
        0 <= p < 4,
        0 <= q < 4,
        hs[p].contains(c),
        hand_ms(hs).count(c) <= 1,
    ensures
        hand_ms(hands_after_transfer(hs, p, q, c)) == hand_ms(hs),
        forall|i: int, x: Card|
            0 <= i < 4 && hs[i].contains(x) && !(i == p && x == c) ==> #[trigger] hands_after_transfer(hs, p, q, c)[i].contains(x),
{
    broadcast use vstd::seq_lib::group_to_multiset_ensures;
    assert(hs[p].to_multiset().count(c) >= 1);
    assert(hand_ms(hs).count(c) >= hs[p].to_multiset().count(c));
    lemma_without_ms(hs[p], c);
    let h1 = hs.update(p, without(hs[p], c));
    lemma_hand_ms_update(hs, p, without(hs[p], c), c);
    let h2 = h1.update(q, h1[q].push(c));
    assert(hand_ms(h2) =~= hand_ms(h1).insert(c));
    assert(hand_ms(h2) =~= hand_ms(hs));
    assert forall|i: int, x: Card|
        0 <= i < 4 && hs[i].contains(x) && !(i == p && x == c) implies #[trigger] hands_after_transfer(hs, p, q, c)[i].contains(x) by {
        if i == p {
            let j = choose|j: int| 0 <= j < hs[p].len() && hs[p][j] == x;
            hs[p].lemma_filter_contains(crate::cards::other_than(c), j);
            assert(h1[p].contains(x));
        } else {
            assert(h1[i] == hs[i]);
        }
        if i == q {
            let j = choose|j: int| 0 <= j < h1[q].len() && h1[q][j] == x;
            assert(h2[q][j] == x);
        }
    }
}

/// Each seat passes distinct cards of its own hand.
pub open spec fn pass_valid(hs: Seq<Seq<Card>>, passed: Seq<Seq<Card>>) -> bool {
    forall|p: int|
        0 <= p < 4 ==> (#[trigger] passed[p]).no_duplicates() && forall|k: int|
            0 <= k < passed[p].len() ==> hs[p].contains(#[trigger] passed[p][k])
}

/// `c` is `g` after the seat to move plays `card`: the card leaves its hand and
/// joins the trick; a complete trick is scored to its winner, who leads next;
/// after the 13th trick the end-of-round adjustment is applied.
pub open spec fn played_one(g: GameInfo, card: Card, c: GameInfo) -> bool {
    let m = Move(g.current_pidx, card);
    let t = g.current_moves@.push(m);
    let w = trick_winner(t) as int;
    let raw = g.score@.update(w, (g.score@[w] + trick_points(t)) as isize);
    let took = g.scored@.update(w, g.scored@[w] || any_points(t));
    &&& c.hand_seqs() == g.hand_seqs().update(g.current_pidx as int, without(g.hand_seqs()[g.current_pidx as int], card))
    &&& c.hearts_played == (g.hearts_played || card.1 == Suit::Hearts)
    &&& g.current_moves@.len() < 3 ==> c.current_moves@ == t && c.current_pidx == (g.current_pidx + 1) % 4
        && c.current_round == g.current_round && c.score == g.score && c.scored == g.scored
    &&& g.current_moves@.len() == 3 ==> c.current_moves@.len() == 0 && c.current_pidx == w && c.current_round
        == g.current_round + 1 && c.scored@ == took && c.score@ == (if g.current_round + 1 == 13 {
        moon_adjusted(raw, took)
    } else {
        raw
    })
}

/// `r` are the scores that `g` ends with once its remaining tricks are played:
/// its scores plus each seat's points from those tricks, with the end-of-round
/// adjustment.
pub open spec fn playout_of(g: GameInfo, r: [isize; 4]) -> bool {
    exists|tricks: Seq<Seq<Move>>, winners: Seq<int>, raw: Seq<isize>, scored: Seq<bool>|
        #[trigger] played_out(g.score@, tricks, winners, raw) && tricks.len() == 13 - g.current_round && r@
            == #[trigger] moon_adjusted(raw, scored)
}

/// One round of Hearts as seen by the table.
pub struct GameInfo {
    pub current_moves: Vec<Move>,
    pub current_pidx: usize,
    pub current_round: usize,
    pub hands: [Hand; 4],
    pub hearts_played: bool,
    pub score: [isize; 4],
    pub scored: [bool; 4],
}

/// The first seat whose hand holds `card`, or 4 if none does.
pub open spec fn first_holder(hands: Seq<Hand>, card: Card) -> int {
    if hands[0]@.contains(card) {
        0
    } else if hands[1]@.contains(card) {
        1
    } else if hands[2]@.contains(card) {
        2
    } else if hands[3]@.contains(card) {
        3
    } else {
        4
    }
}

/// Number of seats that took a trick with points.
pub open spec fn scored_count(scored: Seq<bool>) -> int {
    (if scored[0] { 1int } else { 0 }) + (if scored[1] { 1int } else { 0 }) + (if scored[2] { 1int } else { 0 }) + (if scored[3] { 1int } else { 0 })
}

/// The end-of-round adjustment: if exactly one seat took points, that seat gets 0
/// and every other seat 36; otherwise the scores stay.
pub open spec fn moon_adjusted(score: Seq<isize>, scored: Seq<bool>) -> Seq<isize> {
    if scored_count(scored) == 1 {
        Seq::new(4, |i: int| if scored[i] { 0isize } else { 36isize })
    } else {
        score
    }
}

/// The hands after `card` moves from seat `from` to seat `to`.
pub open spec fn hands_after_transfer(hands: Seq<Seq<Card>>, from: int, to: int, card: Card) -> Seq<Seq<Card>> {
    let h = hands.update(from, without(hands[from], card));
    h.update(to, h[to].push(card))
}

/// The hands and the leading seat after the first `k` cards of seat `p` and all
/// cards of the seats before it have been handed on, `shift` seats on.
pub open spec fn passing(
    hands: Seq<Seq<Card>>,
    leader: int,
    passed: Seq<Seq<Card>>,
    shift: int,
    p: int,
    k: int,
) -> (Seq<Seq<Card>>, int)
    decreases p, k,
{
    if p <= 0 && k <= 0 {
        (hands, leader)
    } else if k <= 0 {
        passing(hands, leader, passed, shift, p - 1, passed[p - 1].len() as int)
    } else {
        let (h, l) = passing(hands, leader, passed, shift, p, k - 1);
        let card = passed[p][k - 1];
        let to = (p + shift) % 4;
        (hands_after_transfer(h, p, to, card), if card == two_of_clubs() { to } else { l })
    }
}

impl Clone for GameInfo {
    fn clone(&self) -> (r: Self)
        ensures
            r.same(self),
    {
        let hands = [
            self.hands[0].clone(),
            self.hands[1].clone(),
            self.hands[2].clone(),
            self.hands[3].clone(),
        ];
        let r = GameInfo {
            current_moves: self.current_moves.clone(),
            current_pidx: self.current_pidx,
            current_round: self.current_round,
            hands,
            hearts_played: self.hearts_played,
            score: self.score,
            scored: self.scored,
        };
        assert(r.hand_seqs() =~= self.hand_seqs());
        r
    }
}

impl GameInfo {
    /// `self` and `o` describe the same round.
    pub open spec fn same(&self, o: &GameInfo) -> bool {
        &&& self.current_moves@ == o.current_moves@
        &&& self.current_pidx == o.current_pidx
        &&& self.current_round == o.current_round
        &&& self.hand_seqs() == o.hand_seqs()
        &&& self.hearts_played == o.hearts_played
        &&& self.score == o.score
        &&& self.scored == o.scored
    }

    pub open spec fn hand_seqs(&self) -> Seq<Seq<Card>> {
        Seq::new(4, |i: int| self.hands@[i]@)
    }

    /// The state is usable by the round loop: seats in range, at most 13 tricks,
    /// and scores far from the integer limits.
    pub open spec fn wf(&self) -> bool {
        &&& self.current_pidx < 4
        &&& self.current_round <= 13
        &&& self.current_moves@.len() <= 4
        &&& forall|i: int| 0 <= i < self.current_moves@.len() ==> (#[trigger] self.current_moves@[i]).0 < 4
        &&& forall|i: int|
            0 <= i < 4 ==> -SCORE_CAP - 100 * self.current_round <= #[trigger] self.score@[i] <= SCORE_CAP + 100
                * self.current_round
    }

    /// A round that starts with `hands`; the holder of the two of clubs leads.
    pub fn new(hands: [Hand; 4]) -> (r: Self)
        requires
            first_holder(hands@, two_of_clubs()) < 4,
        ensures
            r.wf(),
            r.current_moves@.len() == 0,
            r.current_pidx == first_holder(hands@, two_of_clubs()),
            r.current_round == 0,
            r.hands == hands,
            !r.hearts_played,
            r.score@ == seq![0isize, 0, 0, 0],
            r.scored@ == seq![false, false, false, false],
    {
        let two = Card(Rank::Two, Suit::Clubs);
        let first_pidx: usize = if hands[0].any_match(two) {
            0
        } else if hands[1].any_match(two) {
            1
        } else if hands[2].any_match(two) {
            2
        } else {
            3
        };
        let r = Self {
            current_moves: Vec::new(),
            current_pidx: first_pidx,
            current_round: 0,
            hands,
            hearts_played: false,
            score: [0, 0, 0, 0],
            scored: [false, false, false, false],
        };
        assert(r.score@ == seq![0isize, 0, 0, 0]);
        assert(r.scored@ == seq![false, false, false, false]);
        r
    }

    /// A round in the given state.
    pub fn reconstruct(
        current_moves: Vec<Move>,
        current_pidx: usize,
        current_round: usize,
        hands: [Hand; 4],
        hearts_played: bool,
        score: [isize; 4],
        scored: [bool; 4],
    ) -> (r: Self)
        ensures
            r == (GameInfo { current_moves, current_pidx, current_round, hands, hearts_played, score, scored }),
    {
        Self { current_moves, current_pidx, current_round, hands, hearts_played, score, scored }
    }

    pub fn current_moves(&self) -> (r: &Vec<Move>)
        ensures
            r == &self.current_moves,
    {
        &self.current_moves
    }

    pub fn current_pidx(&self) -> (r: usize)
        ensures
            r == self.current_pidx,
    {
        self.current_pidx
    }

    pub fn current_round(&self) -> (r: usize)
        ensures
            r == self.current_round,
    {
        self.current_round
    }

    pub fn first_round(&self) -> (r: bool)
        ensures
            r == (self.current_round == 0),
    {
        self.current_round == 0
    }

    pub fn hands(&self) -> (r: &[Hand; 4])
        ensures
            r == &self.hands,
    {
        &self.hands
    }

    pub fn hearts_played(&self) -> (r: bool)
        ensures
            r == self.hearts_played,
    {
        self.hearts_played
    }

    pub fn score(&self) -> (r: [isize; 4])
        ensures
            r == self.score,
    {
        self.score
    }

    /// The scores, once all 13 tricks are played.
    pub fn result(&self) -> (r: Option<[isize; 4]>)
        ensures
            r == (if self.current_round == 13 { Some(self.score) } else { None }),
    {
        if self.current_round == 13 {
            Some(self.score)
        } else {
            None
        }
    }

    /// Records `played_move`: the card leaves its owner's hand and joins the trick,
    /// and the next seat is to move.
    pub fn did_play_move(&mut self, played_move: Move)
        requires
            old(self).wf(),
            old(self).current_moves@.len() < 4,
            played_move.0 < 4,
        ensures
            final(self).wf(),
            final(self).hearts_played == (old(self).hearts_played || played_move.1.1 == Suit::Hearts),
            final(self).hand_seqs() == old(self).hand_seqs().update(
                played_move.0 as int,
                without(old(self).hands@[played_move.0 as int]@, played_move.1),
            ),
            final(self).current_moves@ == old(self).current_moves@.push(played_move),
            final(self).current_pidx == (old(self).current_pidx + 1) % 4,
            old(self).hands@[played_move.0 as int]@.contains(played_move.1) && game_ms(*old(self)).count(played_move.1)
                <= 1 ==> game_ms(*final(self)) == game_ms(*old(self)),
            final(self).current_round == old(self).current_round,
            final(self).score == old(self).score,
            final(self).scored == old(self).scored,
    {
        if played_move.1.1 == Suit::Hearts {
            self.hearts_played = true;
        }
        self.hands[played_move.0].remove(played_move.1);
        self.current_moves.push(played_move);
        self.current_pidx = (self.current_pidx + 1) % 4;
        assert(self.hand_seqs() =~= old(self).hand_seqs().update(
            played_move.0 as int,
            without(old(self).hands@[played_move.0 as int]@, played_move.1),
        ));
        proof {
            let c = played_move.1;
            let hs = old(self).hand_seqs();
            let i = played_move.0 as int;
            if old(self).hands@[i]@.contains(c) && game_ms(*old(self)).count(c) <= 1 {
                broadcast use vstd::seq_lib::group_to_multiset_ensures;
                assert(hs[i] == old(self).hands@[i]@);
                assert(hs[i].to_multiset().count(c) >= 1);
                assert(hand_ms(hs).count(c) >= hs[i].to_multiset().count(c));
                assert(hs[i].to_multiset().count(c) == 1);
                lemma_without_ms(hs[i], c);
                lemma_hand_ms_update(hs, i, without(hs[i], c), c);
                assert(cards_of(self.current_moves@) =~= cards_of(old(self).current_moves@).push(c));
                assert(game_ms(*self) =~= game_ms(*old(self)));
            }
        }
    }

    /// Closes the trick on the table: its points go to `winner_pidx`, who leads next.
    pub fn did_play_round(&mut self, winner_pidx: usize)
        requires
            old(self).wf(),
            old(self).current_round < 13,
            winner_pidx < 4,
        ensures
            final(self).wf(),
            final(self).current_round == old(self).current_round + 1,
            final(self).score@ == old(self).score@.update(
                winner_pidx as int,
                (old(self).score@[winner_pidx as int] + trick_points(old(self).current_moves@)) as isize,
            ),
            final(self).scored@ == old(self).scored@.update(
                winner_pidx as int,
                old(self).scored@[winner_pidx as int] || any_points(old(self).current_moves@),
            ),
            final(self).current_moves@.len() == 0,
            final(self).current_pidx == winner_pidx,
            final(self).hands == old(self).hands,
            final(self).hearts_played == old(self).hearts_played,
    {
        proof {
            crate::rules::lemma_trick_points_bound(self.current_moves@);
        }
        self.current_round = self.current_round + 1;
        let points = trick_score(&self.current_moves);
        let took = trick_has_points(&self.current_moves);
        self.score[winner_pidx] = self.score[winner_pidx] + points;
        self.scored[winner_pidx] = self.scored[winner_pidx] || took;
        self.current_moves = Vec::new();
        self.current_pidx = winner_pidx;
    }

    /// Applies the end-of-round adjustment for a seat that took every point.
    pub fn did_play_game(&mut self)
        requires
            old(self).wf(),
        ensures
            final(self).wf(),
            final(self).score@ == moon_adjusted(old(self).score@, old(self).scored@),
            final(self).scored == old(self).scored,
            final(self).current_round == old(self).current_round,
            final(self).current_moves == old(self).current_moves,
            final(self).current_pidx == old(self).current_pidx,
            final(self).hands == old(self).hands,
            final(self).hearts_played == old(self).hearts_played,
    {
        let mut count: usize = 0;
        let mut i: usize = 0;
        while i < 4
            invariant
                i <= 4,
                count == scored_count(self.scored@.subrange(0, i as int).add(seq![false, false, false, false].subrange(i as int, 4))),
            decreases 4 - i,
        {
            if self.scored[i] {
                count = count + 1;
            }
            i = i + 1;
        }
        assert(self.scored@.subrange(0, 4).add(seq![false, false, false, false].subrange(4, 4)) =~= self.scored@);
        if count == 1 {
            let mut p: usize = 0;
            while p < 4
                invariant
                    p <= 4,
                    self.wf(),
                    self.scored == old(self).scored,
                    self.current_round == old(self).current_round,
                    self.current_moves == old(self).current_moves,
                    self.current_pidx == old(self).current_pidx,
                    self.hands == old(self).hands,
                    self.hearts_played == old(self).hearts_played,
                    forall|j: int| 0 <= j < p ==> self.score@[j] == (if self.scored@[j] { 0isize } else { 36isize }),
                decreases 4 - p,
            {
                if self.scored[p] {
                    self.score[p] = 0;
                } else {
                    self.score[p] = 36;
                }
                p = p + 1;
            }
            assert(self.score@ =~= moon_adjusted(old(self).score@, old(self).scored@));
        }
    }

    pub open spec fn passed_seqs(passed_cards: [Vec<Card>; 4]) -> Seq<Seq<Card>> {
        Seq::new(4, |i: int| passed_cards@[i]@)
    }

    /// Hands on the passed cards: each card leaves its owner and joins the hand
    /// `shift` seats on; whoever receives the two of clubs leads.
    pub fn did_pass(&mut self, direction: PassDirection, passed_cards: &[Vec<Card>; 4])
        requires
            old(self).wf(),
        ensures
            final(self).wf(),
            (final(self).hand_seqs(), final(self).current_pidx as int) == passing(
                old(self).hand_seqs(),
                old(self).current_pidx as int,
                Self::passed_seqs(*passed_cards),
                shift_of(direction) as int,
                3,
                passed_cards@[3]@.len() as int,
            ),
            final(self).current_moves == old(self).current_moves,
            final(self).current_round == old(self).current_round,
            final(self).score == old(self).score,
            final(self).scored == old(self).scored,
            final(self).hearts_played == old(self).hearts_played,
            pass_valid(old(self).hand_seqs(), Self::passed_seqs(*passed_cards)) && (forall|c: Card|
                #[trigger] game_ms(*old(self)).count(c) <= 1) ==> game_ms(*final(self)) == game_ms(*old(self)),
    {
        let ghost passed = Self::passed_seqs(*passed_cards);
        let ghost valid = pass_valid(old(self).hand_seqs(), passed) && (forall|c: Card|
            #[trigger] game_ms(*old(self)).count(c) <= 1);
        let ghost shift = shift_of(direction) as int;
        let ghost start = (self.hand_seqs(), self.current_pidx as int);
        let shift_by = direction.index_shift();
        let mut pidx: usize = 0;
        while pidx < 4
            invariant
                pidx <= 4,
                passed == Self::passed_seqs(*passed_cards),
                shift == shift_by,
                shift_by < 4,
                self.wf(),
                self.current_moves == old(self).current_moves,
                self.current_round == old(self).current_round,
                self.score == old(self).score,
                self.scored == old(self).scored,
                self.hearts_played == old(self).hearts_played,
                pidx < 4 ==> (self.hand_seqs(), self.current_pidx as int) == passing(start.0, start.1, passed, shift, pidx as int, 0),
                pidx == 4 ==> (self.hand_seqs(), self.current_pidx as int) == passing(start.0, start.1, passed, shift, 3, passed[3].len() as int),
                valid == (pass_valid(old(self).hand_seqs(), passed) && (forall|c: Card| #[trigger] game_ms(*old(self)).count(c) <= 1)),
                valid ==> game_ms(*self) == game_ms(*old(self)),
                valid ==> forall|p2: int, k2: int|
                    pidx <= p2 < 4 && 0 <= k2 < passed[p2].len() ==> self.hand_seqs()[p2].contains(#[trigger] passed[p2][k2]),
            decreases 4 - pidx,
        {
            let cards = &passed_cards[pidx];
            let new_pidx = (pidx + shift_by) % 4;
            let mut k: usize = 0;
            while k < cards.len()
                invariant
                    pidx < 4,
                    k <= cards@.len(),
                    cards == &passed_cards@[pidx as int],
                    passed == Self::passed_seqs(*passed_cards),
                    shift == shift_by,
                    new_pidx == (pidx + shift) % 4,
                    self.wf(),
                    self.current_moves == old(self).current_moves,
                    self.current_round == old(self).current_round,
                    self.score == old(self).score,
                    self.scored == old(self).scored,
                    self.hearts_played == old(self).hearts_played,
                    (self.hand_seqs(), self.current_pidx as int) == passing(start.0, start.1, passed, shift, pidx as int, k as int),
                    valid == (pass_valid(old(self).hand_seqs(), passed) && (forall|c: Card| #[trigger] game_ms(*old(self)).count(c) <= 1)),
                    valid ==> game_ms(*self) == game_ms(*old(self)),
                    valid ==> forall|k2: int| k <= k2 < passed[pidx as int].len() ==> self.hand_seqs()[pidx as int].contains(#[trigger] passed[pidx as int][k2]),
                    valid ==> forall|p2: int, k2: int|
                        pidx < p2 < 4 && 0 <= k2 < passed[p2].len() ==> self.hand_seqs()[p2].contains(#[trigger] passed[p2][k2]),
                decreases cards@.len() - k,
            {
                let card = cards[k];
                let ghost before = self.hand_seqs();
                proof {
                    if valid {
                        assert(passed[pidx as int][k as int] == card);
                        assert(before[pidx as int].contains(card));
                        assert(game_ms(*self).count(card) <= 1);
                        assert(hand_ms(before).count(card) <= game_ms(*self).count(card));
                        lemma_transfer(before, pidx as int, new_pidx as int, card);
                        assert forall|k2: int| k < k2 < passed[pidx as int].len() implies passed[pidx as int][k2] != card by {
                            assert(passed[pidx as int].no_duplicates());
                        }
                    }
                }
                self.hands[pidx].remove(card);
                self.hands[new_pidx].add(card);
                if card == Card(Rank::Two, Suit::Clubs) {
                    self.current_pidx = new_pidx;
                }
                assert(self.hand_seqs() =~= hands_after_transfer(before, pidx as int, new_pidx as int, card));
                proof {
                    if valid {
                        assert(game_ms(*self) =~= game_ms(*old(self)));
                    }
                }
                k = k + 1;
            }
            pidx = pidx + 1;
        }
    }

    /// Asks every seat for its cards to hand on, checks them with `V`, and hands
    /// them on. Nothing changes if a seat's cards are refused.
    pub fn pass<V: Validator, T: Actor>(&mut self, direction: PassDirection, actors: &mut [T; 4]) -> (r:
        Result<(), HJError>)
        requires
            old(self).wf(),
        ensures
            final(self).wf(),
            r is Err ==> *final(self) == *old(self),
            final(self).current_moves == old(self).current_moves,
            final(self).current_round == old(self).current_round,
            final(self).score == old(self).score,
            final(self).scored == old(self).scored,
            final(self).hearts_played == old(self).hearts_played,
            (forall|d: PassDirection, s: Seq<Card>, p: usize, g: GameInfo| #[trigger] V::accepts_pass(d, s, p, g)) ==> r is Ok,
            r is Ok ==> exists|passed: Seq<Seq<Card>>|
                passed.len() == 4 && (forall|i: int|
                    0 <= i < 4 ==> #[trigger] V::accepts_pass(direction, passed[i], i as usize, *old(self))) && (
                final(self).hand_seqs(),
                final(self).current_pidx as int,
            ) == passing(
                old(self).hand_seqs(),
                old(self).current_pidx as int,
                passed,
                shift_of(direction) as int,
                3,
                passed[3].len() as int,
            ),
            r is Ok && conserving::<V>(*old(self)) ==> game_ms(*final(self)) == game_ms(*old(self)),
    {
        let passed_cards: [Vec<Card>; 4] = [
            actors[0].get_pass(direction),
            actors[1].get_pass(direction),
            actors[2].get_pass(direction),
            actors[3].get_pass(direction),
        ];
        let mut pidx: usize = 0;
        while pidx < 4
            invariant
                pidx <= 4,
                self.wf(),
                *self == *old(self),
                forall|j: int| 0 <= j < pidx ==> #[trigger] V::accepts_pass(direction, passed_cards@[j]@, j as usize, *old(self)),
                V::checks_ownership() ==> forall|j: int|
                    0 <= j < pidx ==> (#[trigger] passed_cards@[j])@.no_duplicates() && forall|k: int|
                        0 <= k < passed_cards@[j]@.len() ==> old(self).hands@[j]@.contains(#[trigger] passed_cards@[j]@[k]),
            decreases 4 - pidx,
        {
            match V::validate_pass(direction, &passed_cards[pidx], pidx, self) {
                Ok(()) => {},
                Err(e) => {
                    return Err(e);
                },
            }
            pidx = pidx + 1;
        }
        self.did_pass(direction, &passed_cards);
        let ghost seqs = Self::passed_seqs(passed_cards);
        assert(forall|i: int| 0 <= i < 4 ==> #[trigger] V::accepts_pass(direction, seqs[i], i as usize, *old(self)));
        proof {
            if V::checks_ownership() {
                assert forall|p: int| 0 <= p < 4 implies (#[trigger] seqs[p]).no_duplicates() && forall|k: int|
                    0 <= k < seqs[p].len() ==> old(self).hand_seqs()[p].contains(#[trigger] seqs[p][k]) by {
                    assert(seqs[p] == passed_cards@[p]@);
                }
                assert(pass_valid(old(self).hand_seqs(), seqs));
            }
        }
        let ghost after = *self;
        let shift = direction.index_shift();
        let mut q: usize = 0;
        while q < 4
            invariant
                q <= 4,
                shift < 4,
                *self == after,
            decreases 4 - q,
        {
            actors[(q + shift) % 4].end_pass(&passed_cards[q]);
            q = q + 1;
        }
        Ok(())
    }

    /// Plays the round on from its current state, asking each seat in turn for a
    /// card and checking it with `V`, until `stop` says to stop or the 13 tricks
    /// are done. At the end the adjustment for taking every point is applied and
    /// every seat is told the scores.
    pub fn play<V: Validator, T: Actor>(&mut self, actors: &mut [T; 4], stop: StopCondition) -> (r:
        Result<(), HJError>)
        requires
            old(self).wf(),
        ensures
            final(self).wf(),
            r is Ok && stop == StopCondition::Never ==> final(self).current_round == 13,
            r is Ok && stop is Until ==> final(self).current_round == 13 || final(self).current_pidx
                == stop->Until_0,
            stop is Until && stop->Until_0 < 4 && old(self).current_pidx != stop->Until_0 && old(self).current_moves@.len()
                < 4 ==> final(self).hand_seqs()[stop->Until_0 as int] == old(self).hand_seqs()[stop->Until_0 as int],
            (forall|g: GameInfo, s: Seq<Move>, m: Move| #[trigger] V::accepts_move(g, s, m)) ==> r is Ok,
            r is Err ==> exists|m: Move|
                m.0 == final(self).current_pidx && !V::accepts_move(*final(self), final(self).current_moves@, m),
            r is Err && final(self).current_round == old(self).current_round && final(self).current_moves@.len()
                == old(self).current_moves@.len() ==> *final(self) == *old(self),
            r is Ok && stop == StopCondition::Never ==> exists|tricks: Seq<Seq<Move>>, winners: Seq<int>, raw: Seq<isize>|
                played_out(old(self).score@, tricks, winners, raw) && tricks.len() == 13 - old(self).current_round
                    && final(self).score@ == moon_adjusted(raw, final(self).scored@) && (conserving::<V>(*old(self))
                    ==> round_cards(tricks).to_multiset().add(game_ms(*final(self))) == game_ms(*old(self))) && (old(
                    self,
                ).current_moves@.len() == 0 && tricks.len() > 0 ==> tricks[0][0].0 == old(self).current_pidx) && (
                V::checks_lead() && old(self).current_round == 0 && old(self).current_moves@.len() == 0 && tricks.len()
                > 0 ==> tricks[0][0].1 == two_of_clubs()),
    {
        let ghost mut tricks: Seq<Seq<Move>> = Seq::empty();
        let ghost mut winners: Seq<int> = Seq::empty();
        proof {
            lemma_empty_ms();
            assert(round_cards(tricks) =~= Seq::<Card>::empty());
            assert(round_cards(tricks).to_multiset().add(game_ms(*self)) =~= game_ms(*old(self)));
        }
        let mut done_move = false;
        while self.current_round < 13
            invariant
                self.wf(),
                old(self).current_round <= self.current_round,
                tricks.len() == self.current_round - old(self).current_round,
                played_out(old(self).score@, tricks, winners, self.score@),
                conserving::<V>(*old(self)) ==> round_cards(tricks).to_multiset().add(game_ms(*self)) == game_ms(*old(self)),
                self.current_round == old(self).current_round && self.current_moves@.len() == old(self).current_moves@.len()
                    ==> *self == *old(self),
                self.current_round == old(self).current_round ==> self.current_moves@.len() >= old(self).current_moves@.len(),
                old(self).current_moves@.len() == 0 && tricks.len() > 0 ==> tricks[0][0].0 == old(self).current_pidx,
                old(self).current_moves@.len() == 0 && tricks.len() == 0 && self.current_moves@.len() > 0
                    ==> self.current_moves@[0].0 == old(self).current_pidx,
                old(self).current_moves@.len() == 0 && tricks.len() == 0 && self.current_moves@.len() == 0
                    ==> self.current_pidx == old(self).current_pidx,
                V::checks_lead() && old(self).current_round == 0 && old(self).current_moves@.len() == 0 && tricks.len() > 0
                    ==> tricks[0][0].1 == two_of_clubs(),
                V::checks_lead() && old(self).current_round == 0 && old(self).current_moves@.len() == 0 && tricks.len() == 0
                    && self.current_moves@.len() > 0 ==> self.current_moves@[0].1 == two_of_clubs(),
                stop is Until && stop->Until_0 < 4 && old(self).current_pidx != stop->Until_0 && old(self).current_moves@.len() < 4
                    ==> (self.current_pidx == stop->Until_0 ==> done_move) && (self.current_moves@.len() == 4 ==> done_move)
                    && self.hand_seqs()[stop->Until_0 as int] == old(self).hand_seqs()[stop->Until_0 as int],
            decreases 13 - self.current_round,
        {
            let ghost round = self.current_round;
            while self.current_moves.len() < 4
                invariant
                    self.wf(),
                    self.current_round == round,
                    round < 13,
                    old(self).current_round <= self.current_round,
                    tricks.len() == self.current_round - old(self).current_round,
                    played_out(old(self).score@, tricks, winners, self.score@),
                    conserving::<V>(*old(self)) ==> round_cards(tricks).to_multiset().add(game_ms(*self)) == game_ms(*old(self)),
                    self.current_round == old(self).current_round && self.current_moves@.len() == old(self).current_moves@.len()
                        ==> *self == *old(self),
                    self.current_round == old(self).current_round ==> self.current_moves@.len() >= old(self).current_moves@.len(),
                    V::checks_lead() && old(self).current_round == 0 && old(self).current_moves@.len() == 0 && tricks.len() > 0
                        ==> tricks[0][0].1 == two_of_clubs(),
                    V::checks_lead() && old(self).current_round == 0 && old(self).current_moves@.len() == 0 && tricks.len() == 0
                        && self.current_moves@.len() > 0 ==> self.current_moves@[0].1 == two_of_clubs(),
                    old(self).current_moves@.len() == 0 && tricks.len() > 0 ==> tricks[0][0].0 == old(self).current_pidx,
                    old(self).current_moves@.len() == 0 && tricks.len() == 0 && self.current_moves@.len() > 0
                        ==> self.current_moves@[0].0 == old(self).current_pidx,
                    old(self).current_moves@.len() == 0 && tricks.len() == 0 && self.current_moves@.len() == 0
                        ==> self.current_pidx == old(self).current_pidx,
                    stop is Until && stop->Until_0 < 4 && old(self).current_pidx != stop->Until_0 && old(self).current_moves@.len() < 4
                        ==> (self.current_pidx == stop->Until_0 ==> done_move) && (self.current_moves@.len() == 4 ==> done_move)
                        && self.hand_seqs()[stop->Until_0 as int] == old(self).hand_seqs()[stop->Until_0 as int],
                decreases 4 - self.current_moves@.len(),
            {
                if stop == StopCondition::OneMove && done_move {
                    return Ok(());
                }
                if stop == StopCondition::Until(self.current_pidx) && done_move {
                    return Ok(());
                }
                let card = actors[self.current_pidx].play_card(&self.current_moves);
                let new_move = Move(self.current_pidx, card);
                match V::validate_move(self, &self.current_moves, new_move) {
                    Ok(()) => {},
                    Err(e) => {
                        assert(new_move.0 == self.current_pidx);
                        return Err(e);
                    },
                }
                proof {
                    if conserving::<V>(*old(self)) {
                        let c = new_move.1;
                        assert(game_ms(*self).count(c) <= game_ms(*old(self)).count(c));
                    }
                }
                self.did_play_move(new_move);
                done_move = true;
            }
            let winner_pidx = find_winner_pidx(&self.current_moves);
            proof {
                crate::rules::lemma_best_index(self.current_moves@, self.current_moves@.len() as int);
            }
            let mut a: usize = 0;
            while a < 4
                invariant
                    a <= 4,
                decreases 4 - a,
            {
                actors[a].end_round(winner_pidx, &self.current_moves);
                a = a + 1;
            }
            let ghost trick = self.current_moves@;
            let ghost before = self.score@;
            let ghost gm = game_ms(*self);
            self.did_play_round(winner_pidx);
            proof {
                vstd::seq_lib::lemma_multiset_commutative(round_cards(tricks), cards_of(trick));
                assert(round_cards(tricks.push(trick)).drop_last() == round_cards(tricks) || true);
                assert(tricks.push(trick).drop_last() == tricks);
                assert(cards_of(self.current_moves@) =~= Seq::<Card>::empty());
                lemma_empty_ms();
                assert(game_ms(*self) =~= hand_ms(self.hand_seqs()));
                assert(gm =~= hand_ms(self.hand_seqs()).add(cards_of(trick).to_multiset()));
                lemma_played_out_step(old(self).score@, tricks, winners, before, trick, winner_pidx as int);
                tricks = tricks.push(trick);
                winners = winners.push(winner_pidx as int);
                assert(self.score@ =~= Seq::new(4, |p: int| (before[p] + if p == winner_pidx { trick_points(trick) } else { 0 }) as isize));
            }
        }
        let ghost raw = self.score@;
        self.did_play_game();
        let result = self.score;
        let mut a: usize = 0;
        while a < 4
            invariant
                a <= 4,
            decreases 4 - a,
        {
            actors[a].end_game(result);
            a = a + 1;
        }
        Ok(())
    }

    /// Plays `card` for the seat to move; if that completes the trick, the trick
    /// is closed, and if that was the 13th trick, the end-of-round adjustment is
    /// applied.
    pub fn play_one(&mut self, card: Card)
        requires
            old(self).wf(),
            old(self).current_moves@.len() < 4,
            old(self).current_round < 13,
        ensures
            final(self).wf(),
            played_one(*old(self), card, *final(self)),
    {
        let m = Move(self.current_pidx, card);
        self.did_play_move(m);
        if self.current_moves.len() == 4 {
            let winner = find_winner_pidx(&self.current_moves);
            proof {
                crate::rules::lemma_best_index(self.current_moves@, 4);
            }
            self.did_play_round(winner);
            if self.current_round == 13 {
                self.did_play_game();
            }
        }
    }

    /// Plays on without checking any card.
    pub fn play_without_validator<T: Actor>(&mut self, actors: &mut [T; 4], stop: StopCondition)
        requires
            old(self).wf(),
        ensures
            final(self).wf(),
            stop == StopCondition::Never ==> final(self).current_round == 13,
            stop is Until ==> final(self).current_round == 13 || final(self).current_pidx == stop->Until_0,
            stop == StopCondition::Never ==> playout_of(*old(self), final(self).score),
            stop is Until && stop->Until_0 < 4 && old(self).current_pidx != stop->Until_0 && old(self).current_moves@.len()
                < 4 ==> final(self).hand_seqs()[stop->Until_0 as int] == old(self).hand_seqs()[stop->Until_0 as int],
    {
        let r = self.play::<NoValidator, T>(actors, stop);
        assert(forall|g: GameInfo, s: Seq<Move>, m: Move| #[trigger] NoValidator::accepts_move(g, s, m));
    }
}

/// The cards the seat to move may play in `game_info`.
pub fn get_allowed_cards(game_info: &GameInfo) -> (r: Vec<Card>)
    requires
        game_info.wf(),
    ensures
        r@ == allowed(
            game_info.hands@[game_info.current_pidx as int]@,
            game_info.current_moves@,
            game_info.current_round == 0,
            game_info.hearts_played,
        ),
{
    allowed_cards(
        &game_info.hands[game_info.current_pidx].cards,
        &game_info.current_moves,
        game_info.current_round == 0,
        game_info.hearts_played,
    )
}

} // verus!
