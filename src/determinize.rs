//! Sampling a concrete deal of the unseen cards that fits what one player knows.
use vstd::prelude::*;
use vstd::multiset::Multiset;
use rand::rngs::StdRng;
use crate::belief::{BasicPlayerState, DefaultPlayerState};
use crate::cards::{Card, Hand, Move, deck, rank_index, suit_index};
use crate::game::GameInfo;
use crate::random::shuffle_cards;
use crate::rules::lemma_filter_step;
use crate::laws::{law_hidden_and_own_are_unseen, unseen, unseen_pool};

verus! {

/// Whether `card` is still unseen and not among the player's own cards.
pub open spec fn hidden(ps: DefaultPlayerState, card: Card) -> bool {
    ps.cards_in_game@[suit_index(card.1) as int]@[rank_index(card.0) as int] && !ps.basic.cards@.contains(card)
}

/// The cards some opponent must hold, in deck order.
pub open spec fn hidden_pool(ps: DefaultPlayerState) -> Seq<Card> {
    deck().filter(|c: Card| hidden(ps, c))
}

/// Whether seat `p` has played a card in the trick `moves`.
pub open spec fn has_played(moves: Seq<Move>, p: int) -> bool {
    exists|i: int| 0 <= i < moves.len() && (#[trigger] moves[i]).0 == p
}

/// How many of `n` hidden cards an opponent holds: a third, rounded up unless the
/// opponent has already played to the current trick.
pub open spec fn quota(n: nat, played: bool) -> nat {
    if played {
        n / 3
    } else {
        n / 3 + if n % 3 == 0 { 0nat } else { 1 }
    }
}

/// Sum of the quotas of the opponents of `pidx` from seat `from` on.
pub open spec fn quota_sum(pidx: int, moves: Seq<Move>, n: nat, from: int) -> nat
    decreases 4 - from,
{
    if from >= 4 {
        0
    } else {
        (if from == pidx { 0 } else { quota(n, has_played(moves, from)) }) + quota_sum(pidx, moves, n, from + 1)
    }
}

/// The hidden cards divide exactly into the opponents' quotas.
pub open spec fn consistent(pidx: int, ps: DefaultPlayerState, moves: Seq<Move>) -> bool {
    quota_sum(pidx, moves, hidden_pool(ps).len(), 0) == hidden_pool(ps).len()
}

/// The cards of the hands `hands` of the seats below `upto` other than `pidx`.
pub open spec fn opponents_cards(hands: Seq<Seq<Card>>, pidx: int, upto: int) -> Multiset<Card>
    decreases upto,
{
    if upto <= 0 {
        Multiset::empty()
    } else {
        opponents_cards(hands, pidx, upto - 1).add(
            if upto - 1 == pidx { Multiset::empty() } else { hands[upto - 1].to_multiset() },
        )
    }
}

/// The opponents' cards below `upto` depend only on the hands below `upto`.
pub proof fn lemma_opponents_prefix(a: Seq<Seq<Card>>, b: Seq<Seq<Card>>, pidx: int, upto: int)
    requires
        upto <= a.len(),
        upto <= b.len(),
        forall|q: int| 0 <= q < upto ==> a[q] == b[q],
    ensures
        opponents_cards(a, pidx, upto) == opponents_cards(b, pidx, upto),
    decreases upto,
{
    if upto > 0 {
        lemma_opponents_prefix(a, b, pidx, upto - 1);
    }
}

/// Whether seat `p` may still hold the suit of `c`.
pub open spec fn may_hold(ps: DefaultPlayerState, p: int, c: Card) -> bool {
    ps.still_has@[suit_index(c.1) as int]@[p]
}

/// The cards of `pool` that seat `p` may still hold, then the others.
pub fn prefer_holdable(pool: &Vec<Card>, ps: &DefaultPlayerState, p: usize) -> (r: Vec<Card>)
    requires
        p < 4,
    ensures
        r@ == pool@.filter(|c: Card| may_hold(*ps, p as int, c)) + pool@.filter(
            |c: Card| !may_hold(*ps, p as int, c),
        ),
        r@.to_multiset() == pool@.to_multiset(),
        r@.len() == pool@.len(),
{
    broadcast use vstd::seq_lib::group_to_multiset_ensures;
    let ghost yes = |c: Card| may_hold(*ps, p as int, c);
    let ghost no = |c: Card| !may_hold(*ps, p as int, c);
    let mut first: Vec<Card> = Vec::new();
    let mut rest: Vec<Card> = Vec::new();
    let mut i: usize = 0;
    while i < pool.len()
        invariant
            p < 4,
            i <= pool@.len(),
            yes == (|c: Card| may_hold(*ps, p as int, c)),
            no == (|c: Card| !may_hold(*ps, p as int, c)),
            first@ == pool@.subrange(0, i as int).filter(yes),
            rest@ == pool@.subrange(0, i as int).filter(no),
            first@.to_multiset().add(rest@.to_multiset()) == pool@.subrange(0, i as int).to_multiset(),
        decreases pool@.len() - i,
    {
        let c = pool[i];
        proof {
            lemma_filter_step(pool@, i as int, yes);
            lemma_filter_step(pool@, i as int, no);
            assert(pool@.subrange(0, i as int + 1) == pool@.subrange(0, i as int).push(c));
        }
        let ghost f0 = first@;
        let ghost r0 = rest@;
        if ps.still_has[c.1.to_index()][p] {
            first.push(c);
            proof { vstd::seq_lib::to_multiset_build(f0, c); }
        } else {
            rest.push(c);
            proof { vstd::seq_lib::to_multiset_build(r0, c); }
        }
        proof {
            vstd::seq_lib::to_multiset_build(pool@.subrange(0, i as int), c);
        }
        assert(first@.to_multiset().add(rest@.to_multiset()) =~= pool@.subrange(0, i as int + 1).to_multiset());
        i = i + 1;
    }
    assert(pool@.subrange(0, pool@.len() as int) == pool@);
    let out = crate::belief::concat_cards(&first, &rest);
    proof {
        vstd::seq_lib::lemma_multiset_commutative(first@, rest@);
        assert(out@.to_multiset().len() == pool@.to_multiset().len());
    }
    out
}

/// The hidden cards, in deck order.
pub fn hidden_cards(ps: &DefaultPlayerState) -> (r: Vec<Card>)
    ensures
        r@ == hidden_pool(*ps),
{
    let all = Card::all();
    let ghost pred = |c: Card| hidden(*ps, c);
    let mut out: Vec<Card> = Vec::new();
    let mut i: usize = 0;
    while i < all.len()
        invariant
            i <= all@.len(),
            all@ == deck(),
            pred == (|c: Card| hidden(*ps, c)),
            out@ == all@.subrange(0, i as int).filter(pred),
        decreases all@.len() - i,
    {
        let c = all[i];
        proof {
            lemma_filter_step(all@, i as int, pred);
        }
        let unseen = ps.cards_in_game[c.1.to_index()][c.0.to_index()];
        if unseen && !Hand::contains_card(&ps.basic.cards, c) {
            out.push(c);
        }
        i = i + 1;
    }
    assert(all@.subrange(0, all@.len() as int) == all@);
    out
}

/// The sampler of concrete deals.
pub trait Determinize {
    fn determinize(
        pidx: usize,
        player_state: &DefaultPlayerState,
        played_moves: &Vec<Move>,
        rng: &mut StdRng,
    ) -> (r: (GameInfo, [DefaultPlayerState; 4]))
        requires
            pidx < 4,
            player_state.basic.cards@.len() <= 13,
            player_state.wf(),
            played_moves@.len() < 4,
            forall|i: int| 0 <= i < played_moves@.len() ==> (#[trigger] played_moves@[i]).0 < 4,
        ensures
            r.0.wf(),
            r.0.current_moves@ == played_moves@,
            r.0.current_pidx == pidx,
            r.0.current_round == 13 - player_state.basic.cards@.len(),
            r.0.hearts_played == player_state.basic.hearts_played,
            r.0.score == player_state.scores,
            r.0.scored == player_state.scored,
            forall|p: int| 0 <= p < 4 ==> #[trigger] r.0.hands@[p]@ == r.1@[p].basic.cards@,
            forall|p: int|
                0 <= p < 4 ==> #[trigger] r.1@[p] == (DefaultPlayerState {
                    basic: BasicPlayerState { cards: r.1@[p].basic.cards, pidx: p as usize, ..player_state.basic },
                    ..*player_state
                }),
            r.1@[pidx as int].basic.cards@ == player_state.basic.cards@,
            consistent(pidx as int, *player_state, played_moves@) ==> forall|p: int|
                0 <= p < 4 && p != pidx ==> (#[trigger] r.1@[p]).basic.cards@.len() == quota(
                    hidden_pool(*player_state).len(),
                    has_played(played_moves@, p),
                ),
            consistent(pidx as int, *player_state, played_moves@) ==> opponents_cards(
                Seq::new(4, |p: int| r.1@[p].basic.cards@),
                pidx as int,
                4,
            ) == hidden_pool(*player_state).to_multiset(),
            opponents_cards(Seq::new(4, |p: int| r.1@[p].basic.cards@), pidx as int, 4).len() <= hidden_pool(
                *player_state,
            ).len(),
            consistent(pidx as int, *player_state, played_moves@) && player_state.basic.cards@.no_duplicates() && (
            forall|i: int|
                0 <= i < player_state.basic.cards@.len() ==> unseen(*player_state, #[trigger] player_state.basic.cards@[i]))
                ==> opponents_cards(Seq::new(4, |p: int| r.1@[p].basic.cards@), pidx as int, 4).add(
                r.1@[pidx as int].basic.cards@.to_multiset(),
            ) == unseen_pool(*player_state).to_multiset(),
    ;
}

/// Deals the hidden cards at random, a seat at a time, each seat drawing first
/// from the cards of suits it may still hold.
pub struct DeterminizeV1;

impl DeterminizeV1 {
    /// The belief state of seat `p` in a sampled deal: `cards` and the rest of
    /// what `other` knows.
    fn new_player_state(cards: Vec<Card>, other: &DefaultPlayerState, p: usize) -> (r: DefaultPlayerState)
        ensures
            r == (DefaultPlayerState {
                basic: BasicPlayerState { cards, pidx: p, ..other.basic },
                ..*other
            }),
    {
        DefaultPlayerState::new(
            cards,
            other.basic.first_round,
            other.basic.hearts_played,
            p,
            other.cards_in_game,
            other.scores,
            other.scored,
            other.still_has,
        )
    }

    /// Samples a deal that fits `player_state`: the player keeps its own cards and
    /// the hidden cards are dealt among the opponents by their quotas. The result
    /// is the round in that deal, with the player of seat `pidx` to move, and the
    /// belief state of each seat.
    pub fn sample(
        pidx: usize,
        player_state: &DefaultPlayerState,
        played_moves: &Vec<Move>,
        rng: &mut StdRng,
    ) -> (r: (GameInfo, [DefaultPlayerState; 4]))
        requires
            pidx < 4,
            player_state.basic.cards@.len() <= 13,
            player_state.wf(),
            played_moves@.len() < 4,
            forall|i: int| 0 <= i < played_moves@.len() ==> (#[trigger] played_moves@[i]).0 < 4,
        ensures
            r.0.wf(),
            r.0.current_moves@ == played_moves@,
            r.0.current_pidx == pidx,
            r.0.current_round == 13 - player_state.basic.cards@.len(),
            r.0.hearts_played == player_state.basic.hearts_played,
            r.0.score == player_state.scores,
            r.0.scored == player_state.scored,
            forall|p: int| 0 <= p < 4 ==> #[trigger] r.0.hands@[p]@ == r.1@[p].basic.cards@,
            forall|p: int|
                0 <= p < 4 ==> #[trigger] r.1@[p] == (DefaultPlayerState {
                    basic: BasicPlayerState { cards: r.1@[p].basic.cards, pidx: p as usize, ..player_state.basic },
                    ..*player_state
                }),
            r.1@[pidx as int].basic.cards@ == player_state.basic.cards@,
            consistent(pidx as int, *player_state, played_moves@) ==> forall|p: int|
                0 <= p < 4 && p != pidx ==> (#[trigger] r.1@[p]).basic.cards@.len() == quota(
                    hidden_pool(*player_state).len(),
                    has_played(played_moves@, p),
                ),
            consistent(pidx as int, *player_state, played_moves@) ==> opponents_cards(
                Seq::new(4, |p: int| r.1@[p].basic.cards@),
                pidx as int,
                4,
            ) == hidden_pool(*player_state).to_multiset(),
            opponents_cards(Seq::new(4, |p: int| r.1@[p].basic.cards@), pidx as int, 4).len() <= hidden_pool(
                *player_state,
            ).len(),
            consistent(pidx as int, *player_state, played_moves@) && player_state.basic.cards@.no_duplicates() && (
            forall|i: int|
                0 <= i < player_state.basic.cards@.len() ==> unseen(*player_state, #[trigger] player_state.basic.cards@[i]))
                ==> opponents_cards(Seq::new(4, |p: int| r.1@[p].basic.cards@), pidx as int, 4).add(
                r.1@[pidx as int].basic.cards@.to_multiset(),
            ) == unseen_pool(*player_state).to_multiset(),
    {
        broadcast use vstd::seq_lib::group_to_multiset_ensures;
        let mut has_played_arr = [false, false, false, false];
        let mut i: usize = 0;
        while i < played_moves.len()
            invariant
                i <= played_moves@.len(),
                forall|k: int| 0 <= k < played_moves@.len() ==> (#[trigger] played_moves@[k]).0 < 4,
                forall|p: int| 0 <= p < 4 ==> #[trigger] has_played_arr@[p] == has_played(played_moves@.subrange(0, i as int), p),
            decreases played_moves@.len() - i,
        {
            let ghost before = has_played_arr;
            has_played_arr[played_moves[i].0] = true;
            proof {
                let prev = played_moves@.subrange(0, i as int);
                let next = played_moves@.subrange(0, i as int + 1);
                assert forall|p: int| 0 <= p < 4 implies #[trigger] has_played_arr@[p] == has_played(next, p) by {
                    if has_played(prev, p) {
                        let k = choose|k: int| 0 <= k < prev.len() && (#[trigger] prev[k]).0 == p;
                        assert(next[k] == prev[k]);
                    }
                    if has_played(next, p) && p != played_moves@[i as int].0 {
                        let k = choose|k: int| 0 <= k < next.len() && (#[trigger] next[k]).0 == p;
                        assert(prev[k] == next[k]);
                    }
                    assert(next[i as int] == played_moves@[i as int]);
                }
            }
            i = i + 1;
        }
        assert(played_moves@.subrange(0, played_moves@.len() as int) == played_moves@);

        let mut pool = hidden_cards(player_state);
        let ghost pool0 = pool@;
        shuffle_cards(&mut pool, rng);
        assert(pool@.to_multiset().len() == pool0.to_multiset().len());
        let n = pool.len();
        let num_if_played = n / 3;
        let num_if_not_played = num_if_played + if n % 3 == 0 { 0 } else { 1 };

        let mut dealt: Vec<Vec<Card>> = Vec::new();
        let ghost mut given: Multiset<Card> = Multiset::empty();
        let mut p: usize = 0;
        while p < 4
            invariant
                p <= 4,
                given.len() + pool@.len() == pool0.len(),
                pidx < 4,
                n == pool0.len(),
                pool0 == hidden_pool(*player_state),
                num_if_played == quota(n as nat, true),
                num_if_not_played == quota(n as nat, false),
                forall|q: int| 0 <= q < 4 ==> #[trigger] has_played_arr@[q] == has_played(played_moves@, q),
                dealt@.len() == p,
                given.add(pool@.to_multiset()) == pool0.to_multiset(),
                given == opponents_cards(Seq::new(p as nat, |q: int| dealt@[q]@), pidx as int, p as int),
                consistent(pidx as int, *player_state, played_moves@) ==> pool@.len() == quota_sum(pidx as int, played_moves@, n as nat, p as int),
                consistent(pidx as int, *player_state, played_moves@) ==> forall|q: int|
                    0 <= q < p && q != pidx ==> (#[trigger] dealt@[q])@.len() == quota(n as nat, has_played(played_moves@, q)),
                forall|q: int| 0 <= q < p && q == pidx ==> (#[trigger] dealt@[q])@ == player_state.basic.cards@,
            decreases 4 - p,
        {
            let ghost old_dealt = dealt;
            if p == pidx {
                dealt.push(player_state.basic.cards.clone());
            } else {
                let want = if has_played_arr[p] { num_if_played } else { num_if_not_played };
                let ordered = prefer_holdable(&pool, player_state, p);
                let take = if want < ordered.len() { want } else { ordered.len() };
                let mut hand: Vec<Card> = Vec::new();
                let mut rest: Vec<Card> = Vec::new();
                let mut k: usize = 0;
                while k < ordered.len()
                    invariant
                        k <= ordered@.len(),
                        take <= ordered@.len(),
                        hand@ == ordered@.subrange(0, if k < take { k as int } else { take as int }),
                        rest@ == if k < take { Seq::empty() } else { ordered@.subrange(take as int, k as int) },
                    decreases ordered@.len() - k,
                {
                    if k < take {
                        hand.push(ordered[k]);
                    } else {
                        rest.push(ordered[k]);
                    }
                    k = k + 1;
                    assert(hand@ =~= ordered@.subrange(0, if k < take { k as int } else { take as int }));
                    assert(rest@ =~= if k < take { Seq::empty() } else { ordered@.subrange(take as int, k as int) });
                }
                proof {
                    assert(ordered@ =~= hand@ + rest@);
                    vstd::seq_lib::lemma_multiset_commutative(hand@, rest@);
                    given = given.add(hand@.to_multiset());
                }
                let ghost before_pool = pool@;
                pool = rest;
                shuffle_cards(&mut pool, rng);
                proof {
                    vstd::seq_lib::to_multiset_len(pool@);
                    vstd::seq_lib::to_multiset_len(rest@);
                    vstd::seq_lib::to_multiset_len(hand@);
                    vstd::seq_lib::to_multiset_len(before_pool);
                    assert(pool@.to_multiset().len() == rest@.to_multiset().len());
                    assert(ordered@.len() == before_pool.len());
                    assert(given.add(pool@.to_multiset()) =~= pool0.to_multiset());
                }
                dealt.push(hand);
            }
            proof {
                let before = Seq::new(p as nat, |q: int| old_dealt@[q]@);
                let after = Seq::new(p as nat + 1, |q: int| dealt@[q]@);
                lemma_opponents_prefix(before, after, pidx as int, p as int);
            }
            p = p + 1;
        }
        proof {
            let fin = Seq::new(4, |q: int| dealt@[q]@);
            assert(Seq::new(4 as nat, |q: int| dealt@[q]@) == fin);
            assert(given.len() <= pool0.len()) by {
                assert(given.add(pool@.to_multiset()).len() == pool0.to_multiset().len());
            }
        }
        let hearts = player_state.basic.hearts_played;
        let s0 = Self::new_player_state(dealt[0].clone(), player_state, 0);
        let s1 = Self::new_player_state(dealt[1].clone(), player_state, 1);
        let s2 = Self::new_player_state(dealt[2].clone(), player_state, 2);
        let s3 = Self::new_player_state(dealt[3].clone(), player_state, 3);
        let hands = [
            Hand::new(dealt[0].clone()),
            Hand::new(dealt[1].clone()),
            Hand::new(dealt[2].clone()),
            Hand::new(dealt[3].clone()),
        ];
        let game_info = GameInfo::reconstruct(
            played_moves.clone(),
            pidx,
            13 - player_state.basic.cards.len(),
            hands,
            hearts,
            player_state.scores,
            player_state.scored,
        );
        let states = [s0, s1, s2, s3];
        proof {
            let fin = Seq::new(4, |q: int| dealt@[q]@);
            let got = Seq::new(4, |q: int| states@[q].basic.cards@);
            assert forall|q: int| 0 <= q < 4 implies fin[q] == got[q] by {
                assert(states@[0].basic.cards@ == dealt@[0]@);
                assert(states@[1].basic.cards@ == dealt@[1]@);
                assert(states@[2].basic.cards@ == dealt@[2]@);
                assert(states@[3].basic.cards@ == dealt@[3]@);
            }
            lemma_opponents_prefix(fin, got, pidx as int, 4);
            vstd::seq_lib::to_multiset_len(pool@);
            if consistent(pidx as int, *player_state, played_moves@) {
                assert(pool@.len() == 0);
                assert(pool@.to_multiset() =~= Multiset::empty());
                assert(given =~= pool0.to_multiset());
                if player_state.basic.cards@.no_duplicates() && (forall|i: int|
                    0 <= i < player_state.basic.cards@.len() ==> unseen(*player_state, #[trigger] player_state.basic.cards@[i])) {
                    law_hidden_and_own_are_unseen(*player_state);
                }
            }
        }
        (game_info, states)
    }
}

impl Determinize for DeterminizeV1 {
    fn determinize(
        pidx: usize,
        player_state: &DefaultPlayerState,
        played_moves: &Vec<Move>,
        rng: &mut StdRng,
    ) -> (GameInfo, [DefaultPlayerState; 4]) {
        DeterminizeV1::sample(pidx, player_state, played_moves, rng)
    }
}

} // verus!
