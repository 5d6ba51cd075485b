//! Facts about whole rounds that follow from the rules.
use vstd::prelude::*;
use crate::belief::DefaultPlayerState;
use crate::cards::{Card, Move, deck, rank_at, rank_index, suit_at, suit_index};
use crate::determinize::{hidden, hidden_pool};
use crate::rules::{points_of, trick_points};
use crate::game::moon_adjusted;

verus! {

/// The cards of `moves`, in order.
pub open spec fn cards_of(moves: Seq<Move>) -> Seq<Card> {
    Seq::new(moves.len(), |i: int| moves[i].1)
}

/// All cards of the tricks `tricks`, trick by trick.
pub open spec fn round_cards(tricks: Seq<Seq<Move>>) -> Seq<Card>
    decreases tricks.len(),
{
    if tricks.len() == 0 {
        Seq::empty()
    } else {
        round_cards(tricks.drop_last()) + cards_of(tricks.last())
    }
}

/// The points of the tricks `tricks` together.
pub open spec fn round_points(tricks: Seq<Seq<Move>>) -> int
    decreases tricks.len(),
{
    if tricks.len() == 0 {
        0
    } else {
        round_points(tricks.drop_last()) + trick_points(tricks.last())
    }
}

/// The points that seat `p` collects from the tricks `tricks` when trick `i` is
/// won by seat `winners[i]`.
pub open spec fn seat_points(tricks: Seq<Seq<Move>>, winners: Seq<int>, p: int) -> int
    decreases tricks.len(),
{
    if tricks.len() == 0 {
        0
    } else {
        seat_points(tricks.drop_last(), winners, p) + if winners[tricks.len() - 1] == p {
            trick_points(tricks.last())
        } else {
            0
        }
    }
}

/// Sum of the card points of the first `n` cards of `s`.
pub open spec fn points_upto(s: Seq<Card>, n: int) -> int
    decreases n,
{
    if n <= 0 {
        0
    } else {
        points_upto(s, n - 1) + s[n - 1].points()
    }
}

pub proof fn lemma_points_upto(s: Seq<Card>)
    ensures
        points_of(s) == points_upto(s, s.len() as int),
    decreases s.len(),
{
    if s.len() > 0 {
        lemma_points_upto(s.drop_last());
        lemma_points_upto_prefix(s, s.drop_last(), s.len() - 1);
    }
}

pub proof fn lemma_points_upto_prefix(s: Seq<Card>, t: Seq<Card>, n: int)
    requires
        0 <= n <= s.len(),
        n <= t.len(),
        forall|i: int| 0 <= i < n ==> s[i] == t[i],
    ensures
        points_upto(s, n) == points_upto(t, n),
    decreases n,
{
    if n > 0 {
        lemma_points_upto_prefix(s, t, n - 1);
    }
}

pub proof fn lemma_trick_points_cards(moves: Seq<Move>)
    ensures
        trick_points(moves) == points_of(cards_of(moves)),
    decreases moves.len(),
{
    if moves.len() > 0 {
        lemma_trick_points_cards(moves.drop_last());
        assert(cards_of(moves).drop_last() =~= cards_of(moves.drop_last()));
    }
}

pub proof fn lemma_points_concat(a: Seq<Card>, b: Seq<Card>)
    ensures
        points_of(a + b) == points_of(a) + points_of(b),
    decreases b.len(),
{
    if b.len() > 0 {
        lemma_points_concat(a, b.drop_last());
        assert((a + b).drop_last() =~= a + b.drop_last());
    } else {
        assert(a + b =~= a);
    }
}

pub proof fn lemma_points_remove(s: Seq<Card>, k: int)
    requires
        0 <= k < s.len(),
    ensures
        points_of(s) == points_of(s.remove(k)) + s[k].points(),
    decreases s.len(),
{
    if k < s.len() - 1 {
        lemma_points_remove(s.drop_last(), k);
        assert(s.remove(k).drop_last() =~= s.drop_last().remove(k));
        assert(s.remove(k).last() == s.last());
    } else {
        assert(s.remove(k) =~= s.drop_last());
    }
}

/// The points of a sequence of cards depend only on which cards it holds.
pub proof fn lemma_points_permutation(s: Seq<Card>, t: Seq<Card>)
    requires
        s.to_multiset() == t.to_multiset(),
    ensures
        points_of(s) == points_of(t),
    decreases s.len(),
{
    broadcast use vstd::seq_lib::group_to_multiset_ensures;
    if s.len() == 0 {
        vstd::seq_lib::to_multiset_len(s);
        vstd::seq_lib::to_multiset_len(t);
        assert(t.len() == 0);
        assert(t =~= Seq::<Card>::empty());
    } else {
        let x = s.last();
        assert(s.to_multiset().count(x) > 0);
        assert(t.contains(x));
        let k = choose|k: int| 0 <= k < t.len() && t[k] == x;
        vstd::seq_lib::to_multiset_remove(t, k);
        vstd::seq_lib::to_multiset_remove(s, s.len() - 1);
        assert(s.remove(s.len() - 1) =~= s.drop_last());
        lemma_points_permutation(s.drop_last(), t.remove(k));
        lemma_points_remove(t, k);
    }
}

/// The deck carries 16 points: 13 hearts, 13 for the queen of spades and minus
/// 10 for the jack of diamonds.
pub proof fn lemma_deck_points()
    ensures
        points_of(deck()) == 16,
{
    let d = deck();
    lemma_points_upto(d);
    assert(points_upto(d, 13) == 13) by {
        reveal_with_fuel(points_upto, 14);
    }
    assert(points_upto(d, 26) == 13) by {
        reveal_with_fuel(points_upto, 14);
    }
    assert(points_upto(d, 39) == 3) by {
        reveal_with_fuel(points_upto, 14);
    }
    assert(points_upto(d, 52) == 16) by {
        reveal_with_fuel(points_upto, 14);
    }
}

pub proof fn lemma_round_points_cards(tricks: Seq<Seq<Move>>)
    ensures
        round_points(tricks) == points_of(round_cards(tricks)),
    decreases tricks.len(),
{
    if tricks.len() > 0 {
        lemma_round_points_cards(tricks.drop_last());
        lemma_trick_points_cards(tricks.last());
        lemma_points_concat(round_cards(tricks.drop_last()), cards_of(tricks.last()));
    }
}

pub proof fn lemma_seat_points_sum(tricks: Seq<Seq<Move>>, winners: Seq<int>)
    requires
        winners.len() >= tricks.len(),
        forall|i: int| 0 <= i < tricks.len() ==> 0 <= #[trigger] winners[i] < 4,
    ensures
        seat_points(tricks, winners, 0) + seat_points(tricks, winners, 1) + seat_points(tricks, winners, 2)
            + seat_points(tricks, winners, 3) == round_points(tricks),
    decreases tricks.len(),
{
    if tricks.len() > 0 {
        lemma_seat_points_sum(tricks.drop_last(), winners);
        assert(0 <= winners[tricks.len() - 1] < 4);
    }
}

/// Whatever tricks the cards fall into and whoever wins them, when the tricks of
/// a round hold the 52 cards of the deck, the points the four seats collect
/// before the adjustment for taking every point add up to 16.
pub proof fn law_round_points_total(tricks: Seq<Seq<Move>>, winners: Seq<int>)
    requires
        round_cards(tricks).to_multiset() == deck().to_multiset(),
        winners.len() == tricks.len(),
        forall|i: int| 0 <= i < tricks.len() ==> 0 <= #[trigger] winners[i] < 4,
    ensures
        round_points(tricks) == 16,
        seat_points(tricks, winners, 0) + seat_points(tricks, winners, 1) + seat_points(tricks, winners, 2)
            + seat_points(tricks, winners, 3) == 16,
{
    lemma_round_points_cards(tricks);
    lemma_points_permutation(round_cards(tricks), deck());
    lemma_deck_points();
    lemma_seat_points_sum(tricks, winners);
}

/// The cards `ps` has not seen played, in deck order.
pub open spec fn unseen_pool(ps: DefaultPlayerState) -> Seq<Card> {
    deck().filter(|c: Card| unseen(ps, c))
}

/// Whether `ps` has not seen `card` played.
pub open spec fn unseen(ps: DefaultPlayerState, card: Card) -> bool {
    ps.cards_in_game@[suit_index(card.1) as int]@[rank_index(card.0) as int]
}

pub proof fn lemma_rank_at_index(r: int)
    requires
        0 <= r < 13,
    ensures
        rank_index(rank_at(r)) == r,
{
}

pub proof fn lemma_suit_at_index(s: int)
    requires
        0 <= s < 4,
    ensures
        suit_index(suit_at(s)) == s,
{
}

/// No card occurs twice in the deck.
pub proof fn lemma_deck_distinct()
    ensures
        deck().no_duplicates(),
{
    let d = deck();
    assert forall|i: int, j: int| 0 <= i < d.len() && 0 <= j < d.len() && i != j implies d[i] != d[j] by {
        lemma_rank_at_index(i % 13);
        lemma_rank_at_index(j % 13);
        lemma_suit_at_index(i / 13);
        lemma_suit_at_index(j / 13);
        if d[i] == d[j] {
            assert(i % 13 == j % 13 && i / 13 == j / 13);
            assert(i == 13 * (i / 13) + i % 13) by (nonlinear_arith);
            assert(j == 13 * (j / 13) + j % 13) by (nonlinear_arith);
        }
    }
}

/// How often a filtered sequence holds `x`.
pub proof fn lemma_filter_count<A>(s: Seq<A>, p: spec_fn(A) -> bool, x: A)
    ensures
        s.filter(p).to_multiset().count(x) == if p(x) { s.to_multiset().count(x) } else { 0 },
    decreases s.len(),
{
    broadcast use vstd::seq_lib::group_to_multiset_ensures;
    if s.len() > 0 {
        let t = s.drop_last();
        lemma_filter_count(t, p, x);
        assert(s == t.push(s.last()));
        assert(s.filter(p) == if p(s.last()) { t.filter(p).push(s.last()) } else { t.filter(p) }) by {
            reveal_with_fuel(Seq::filter, 2);
        }
    } else {
        assert(s.filter(p) =~= Seq::<A>::empty()) by {
            reveal_with_fuel(Seq::filter, 1);
        }
    }
}

/// The cards still hidden and the player's own cards are together exactly the
/// cards it has not seen played, when its own cards are distinct and unseen.
pub proof fn law_hidden_and_own_are_unseen(ps: DefaultPlayerState)
    requires
        ps.basic.cards@.no_duplicates(),
        forall|i: int| 0 <= i < ps.basic.cards@.len() ==> unseen(ps, #[trigger] ps.basic.cards@[i]),
    ensures
        hidden_pool(ps).to_multiset().add(ps.basic.cards@.to_multiset()) == unseen_pool(ps).to_multiset(),
{
    broadcast use vstd::seq_lib::group_to_multiset_ensures;
    let own = ps.basic.cards@;
    let d = deck();
    lemma_deck_distinct();
    assert forall|x: Card| #[trigger] hidden_pool(ps).to_multiset().add(own.to_multiset()).count(x) == unseen_pool(ps).to_multiset().count(x) by {
        lemma_filter_count(d, |c: Card| hidden(ps, c), x);
        lemma_filter_count(d, |c: Card| unseen(ps, c), x);
        d.lemma_multiset_has_no_duplicates();
        own.lemma_multiset_has_no_duplicates();
        lemma_deck_has(x);
        if own.contains(x) {
            let i = choose|i: int| 0 <= i < own.len() && own[i] == x;
            assert(unseen(ps, own[i]));
        }
    }
    assert(hidden_pool(ps).to_multiset().add(own.to_multiset()) =~= unseen_pool(ps).to_multiset());
}

/// Every card is in the deck.
pub proof fn lemma_deck_has(x: Card)
    ensures
        deck().contains(x),
{
    let i: int = (13 * suit_index(x.1) + rank_index(x.0)) as int;
    assert(i % 13 == rank_index(x.0) as int && i / 13 == suit_index(x.1) as int) by (nonlinear_arith)
        requires
            i == 13 * suit_index(x.1) + rank_index(x.0),
            rank_index(x.0) < 13,
    ;
    assert(deck()[i] == x);
}

/// When exactly one seat took points in a round, the end-of-round adjustment
/// gives that seat 0 and each other seat 36.
pub proof fn law_shoot_the_moon(score: Seq<isize>, scored: Seq<bool>, p: int)
    requires
        score.len() == 4,
        scored.len() == 4,
        0 <= p < 4,
        scored[p],
        forall|q: int| 0 <= q < 4 && q != p ==> !#[trigger] scored[q],
    ensures
        moon_adjusted(score, scored)[p] == 0,
        forall|q: int| 0 <= q < 4 && q != p ==> #[trigger] moon_adjusted(score, scored)[q] == 36,
{
    assert(!scored[(p + 1) % 4] && !scored[(p + 2) % 4] && !scored[(p + 3) % 4]);
}

} // verus!
