//! The cheaper search: one tree over this player's own cards only, kept across
//! freshly sampled deals. A node's children are keyed by the card played from
//! it; what the others play in between is simulated outside the tree.
use vstd::prelude::*;
use rand::rngs::StdRng;
use crate::actors::MediasResActor;
use crate::belief::DefaultPlayerState;
use crate::cards::{Card, Move, without};
use crate::determinize::DeterminizeV1;
use crate::game::{GameInfo, StopCondition, get_allowed_cards, played_one};
use crate::search::{MAX_DEPTH, SEARCH_CAP, reward, reward_of, visits_total};
use crate::random::{now, within};
use crate::uct::{REWARD_UNIT, VISIT_CAP, uct_weight_of};

verus! {

/// A node of the search over own cards.
pub struct ModNode {
    pub visits: u64,
    pub value: u64,
    pub children: Vec<(Card, ModNode)>,
    pub expanded: bool,
    /// The cards this player still holds at this node.
    pub cards: Vec<Card>,
}

pub proof fn lemma_mod_no_visits(s: Seq<(Card, ModNode)>)
    requires
        forall|i: int| 0 <= i < s.len() ==> (#[trigger] s[i]).1.visits == 0,
    ensures
        mod_child_visits(s) == 0,
    decreases s.len(),
{
    if s.len() > 0 {
        assert forall|i: int| 0 <= i < s.drop_last().len() implies (#[trigger] s.drop_last()[i]).1.visits == 0 by {
            assert(s.drop_last()[i] == s[i]);
        }
        lemma_mod_no_visits(s.drop_last());
    }
}

/// Sum of the visits of the children `s`.
pub open spec fn mod_child_visits(s: Seq<(Card, ModNode)>) -> nat
    decreases s.len(),
{
    if s.len() == 0 {
        0
    } else {
        mod_child_visits(s.drop_last()) + s.last().1.visits as nat
    }
}

pub proof fn lemma_mod_child_visits_update(s: Seq<(Card, ModNode)>, i: int, n: (Card, ModNode))
    requires
        0 <= i < s.len(),
    ensures
        mod_child_visits(s.update(i, n)) == mod_child_visits(s) - s[i].1.visits + n.1.visits,
        s[i].1.visits <= mod_child_visits(s),
    decreases s.len(),
{
    if i < s.len() - 1 {
        lemma_mod_child_visits_update(s.drop_last(), i, n);
        assert(s.update(i, n).drop_last() == s.drop_last().update(i, n));
    } else {
        assert(s.update(i, n).drop_last() == s.drop_last());
    }
}

impl ModNode {
    /// A node counts at least its children's visits, and at most the best reward
    /// per visit.
    pub open spec fn wf(&self) -> bool
        decreases self,
    {
        &&& mod_child_visits(self.children@) <= self.visits
        &&& self.value <= REWARD_UNIT * self.visits
        &&& self.visits <= VISIT_CAP
        &&& forall|i: int| 0 <= i < self.children@.len() ==> (#[trigger] self.children@[i]).1.wf()
        &&& forall|i: int| 0 <= i < self.children@.len() ==> self.cards@.contains((#[trigger] self.children@[i]).0)
        &&& self.expanded ==> self.children@.len() == self.cards@.len() && forall|i: int|
            0 <= i < self.children@.len() ==> (#[trigger] self.children@[i]).0 == self.cards@[i]
        &&& !self.expanded ==> self.children@.len() == 0
    }

    pub fn new(cards: Vec<Card>) -> (r: ModNode)
        ensures
            r.wf(),
            r.visits == 0,
            r.value == 0,
            r.cards@ == cards@,
            r.children@.len() == 0,
            !r.expanded,
    {
        ModNode { visits: 0, value: 0, children: Vec::new(), expanded: false, cards }
    }

    /// Creates one child for each card held, holding the other cards.
    pub fn ensure_children(&mut self)
        requires
            old(self).wf(),
        ensures
            final(self).wf(),
            final(self).visits == old(self).visits,
            final(self).value == old(self).value,
            final(self).expanded,
            final(self).cards == old(self).cards,
            old(self).expanded ==> final(self).children == old(self).children,
            !old(self).expanded ==> final(self).children@.len() == old(self).cards@.len(),
            !old(self).expanded ==> forall|i: int|
                0 <= i < final(self).children@.len() ==> (#[trigger] final(self).children@[i]).0 == old(self).cards@[i]
                    && final(self).children@[i].1.cards@ == without(old(self).cards@, old(self).cards@[i])
                    && final(self).children@[i].1.visits == 0,
    {
        if self.expanded {
            return;
        }
        let mut children: Vec<(Card, ModNode)> = Vec::new();
        let mut i: usize = 0;
        while i < self.cards.len()
            invariant
                i <= self.cards@.len(),
                children@.len() == i,
                mod_child_visits(children@) == 0,
                forall|k: int| 0 <= k < i ==> (#[trigger] children@[k]).1.wf() && children@[k].1.visits == 0,
                forall|k: int| 0 <= k < i ==> self.cards@.contains((#[trigger] children@[k]).0),
                forall|k: int|
                    0 <= k < i ==> (#[trigger] children@[k]).0 == self.cards@[k] && children@[k].1.cards@ == without(
                        self.cards@,
                        self.cards@[k],
                    ) && children@[k].1.visits == 0,
            decreases self.cards@.len() - i,
        {
            let c = self.cards[i];
            assert(self.cards@.contains(c));
            let rest = crate::cards::remove_card(&self.cards, c);
            let ghost before = children@;
            children.push((c, ModNode::new(rest)));
            assert(children@.drop_last() == before);
            i = i + 1;
        }
        self.children = children;
        self.expanded = true;
    }

    /// Adds a visit that ended with this player's score `score`.
    pub fn update(&mut self, score: isize)
        requires
            old(self).value <= REWARD_UNIT * old(self).visits,
            old(self).visits < VISIT_CAP,
        ensures
            final(self).visits == old(self).visits + 1,
            final(self).value == old(self).value + reward_of(score as int),
            final(self).children == old(self).children,
            final(self).expanded == old(self).expanded,
            final(self).cards == old(self).cards,
    {
        let gain = reward(score);
        self.visits = self.visits + 1;
        self.value = self.value + gain;
    }
}

/// The index of the child for `card`, if any.
pub fn child_for(children: &Vec<(Card, ModNode)>, card: Card) -> (r: Option<usize>)
    ensures
        r is Some ==> r->0 < children@.len() && children@[r->0 as int].0 == card,
        r is None ==> forall|i: int| 0 <= i < children@.len() ==> (#[trigger] children@[i]).0 != card,
{
    let mut i: usize = 0;
    while i < children.len()
        invariant
            i <= children@.len(),
            forall|k: int| 0 <= k < i ==> (#[trigger] children@[k]).0 != card,
        decreases children@.len() - i,
    {
        if children[i].0 == card {
            return Some(i);
        }
        i = i + 1;
    }
    None
}

/// Plays `special_card` for seat `special_pidx`, which is to move, tells the
/// players of it (and of the trick, if that card completes one), then lets the
/// round go on until that seat is to move again or the round is over; the
/// scores if it is over.
pub fn play_for_a_bit<S: MediasResActor>(
    game_info: &mut GameInfo,
    actors: &mut [S; 4],
    special_pidx: usize,
    special_card: Card,
) -> (r: Option<[isize; 4]>)
    requires
        old(game_info).wf(),
        special_pidx < 4,
        old(game_info).current_pidx == special_pidx,
        old(game_info).current_moves@.len() < 4,
        old(game_info).current_round < 13,
    ensures
        final(game_info).wf(),
        r == (if final(game_info).current_round == 13 { Some(final(game_info).score) } else { None }),
        final(game_info).current_round == 13 || final(game_info).current_pidx == special_pidx,
        exists|mid: GameInfo|
            #[trigger] played_one(*old(game_info), special_card, mid) && final(game_info).hand_seqs()[special_pidx as int]
                == mid.hand_seqs()[special_pidx as int],
{
    let ghost start = *game_info;
    let before = game_info.current_moves.clone();
    game_info.play_one(special_card);
    let ghost mid = *game_info;
    actors[special_pidx].played_for(&before, special_card);
    if before.len() == 3 {
        let mut trick = before.clone();
        trick.push(Move(special_pidx, special_card));
        let winner = game_info.current_pidx;
        let mut a: usize = 0;
        while a < 4
            invariant
                a <= 4,
            decreases 4 - a,
        {
            actors[a].end_round(winner, &trick);
            a = a + 1;
        }
        if game_info.current_round == 13 {
            let result = game_info.score;
            let mut a: usize = 0;
            while a < 4
                invariant
                    a <= 4,
                decreases 4 - a,
            {
                actors[a].end_game(result);
                a = a + 1;
            }
        }
    }
    if game_info.current_round < 13 && game_info.current_pidx != special_pidx {
        game_info.play_without_validator(actors, StopCondition::Until(special_pidx));
    }
    assert(played_one(start, special_card, mid));
    game_info.result()
}

/// Plays the round to its end and returns the scores.
pub fn play_randomly<S: MediasResActor>(game_info: &mut GameInfo, actors: &mut [S; 4]) -> (r: [isize; 4])
    requires
        old(game_info).wf(),
    ensures
        final(game_info).wf(),
        final(game_info).current_round == 13,
        r == final(game_info).score,
{
    game_info.play_without_validator(actors, StopCondition::Never);
    game_info.score
}

/// The cards the seat to move in `g` may play.
pub open spec fn own_moves(g: GameInfo) -> Seq<Card> {
    crate::rules::allowed(g.hands@[g.current_pidx as int]@, g.current_moves@, g.current_round == 0, g.hearts_played)
}

/// `r` are the statistics of a search over own cards that made `iterations`
/// iterations: each went to one card when the first card the player may play is
/// one of its own.
pub open spec fn mod_searched(ps: DefaultPlayerState, moves: Seq<Move>, r: Seq<(Card, u64, u64)>, iterations: nat) -> bool {
    &&& iterations <= SEARCH_CAP
    &&& hand_moves(ps, moves).len() > 0 && ps.basic.cards@.contains(hand_moves(ps, moves)[0]) ==> visits_total(r)
        == iterations
}

/// The cards the holder of `ps` may play onto `moves` in a sampled deal.
pub open spec fn hand_moves(ps: DefaultPlayerState, moves: Seq<Move>) -> Seq<Card> {
    crate::rules::allowed(ps.basic.cards@, moves, 13 - ps.basic.cards@.len() == 0, ps.basic.hearts_played)
}

/// The visits child `i` of `n` had: none if `n` had no children yet.
pub open spec fn prior_visits(n: ModNode, i: int) -> u64 {
    if n.expanded && i < n.children@.len() {
        n.children@[i].1.visits
    } else {
        0
    }
}

/// One iteration below `node` on the sampled round `game_info`, where the seat
/// to move is this player: pick the first untried card it may play, or the
/// one of highest UCT weight; play it and let the others play until this
/// player is to move again; go on below that child, or play the round out
/// after a first try. Returns this player's score; the child is updated.
pub fn mod_rec<S: MediasResActor>(
    node: &mut ModNode,
    game_info: &mut GameInfo,
    actors: &mut [S; 4],
    depth: usize,
) -> (r: isize)
    requires
        old(node).wf(),
        old(node).visits < VISIT_CAP,
        old(game_info).wf(),
    ensures
        final(node).wf(),
        final(node).visits == old(node).visits + 1,
        final(node).value == old(node).value + reward_of(r as int),
        final(node).cards == old(node).cards,
        final(node).expanded,
        final(node).children@.len() == (if old(node).expanded { old(node).children@.len() } else { old(node).cards@.len() }),
        forall|i: int|
            0 <= i < final(node).children@.len() ==> (#[trigger] final(node).children@[i]).0 == (if old(node).expanded {
                old(node).children@[i].0
            } else {
                old(node).cards@[i]
            }),
        forall|i: int|
            0 <= i < final(node).children@.len() && (#[trigger] final(node).children@[i]).1.visits > prior_visits(*old(node), i)
                ==> own_moves(*old(game_info)).contains(final(node).children@[i].0),
        old(game_info).current_round < 13 && old(game_info).current_moves@.len() < 4 && own_moves(*old(game_info)).len() > 0
            && old(node).cards@.contains(own_moves(*old(game_info))[0]) ==> mod_child_visits(final(node).children@)
            == mod_child_visits(old(node).children@) + 1,
        final(game_info).wf(),
    decreases depth,
{
    let own = game_info.current_pidx;
    let possible = get_allowed_cards(game_info);
    node.ensure_children();
    let mut best: Option<usize> = None;
    let mut best_value: u64 = 0;
    let mut was_zero = false;
    let mut i: usize = 0;
    while i < possible.len()
        invariant
            node.wf(),
            node.visits < VISIT_CAP,
            i <= possible@.len(),
            best is Some ==> best->0 < node.children@.len(),
            best is Some ==> possible@.contains(node.children@[best->0 as int].0),
            i > 0 && possible@.len() > 0 && node.cards@.contains(possible@[0]) ==> best is Some,
            node.expanded,
        ensures
            possible@.len() > 0 && node.cards@.contains(possible@[0]) ==> best is Some,
        decreases possible@.len() - i,
    {
        proof {
            if i == 0 && node.cards@.contains(possible@[0]) {
                let j = choose|j: int| 0 <= j < node.cards@.len() && node.cards@[j] == possible@[0];
                assert(node.children@[j].0 == possible@[0]);
            }
        }
        match child_for(&node.children, possible[i]) {
            None => {},
            Some(k) => {
                let ghost kids = node.children@;
                proof {
                    reveal_with_fuel(ModNode::wf, 2);
                    assert(kids[k as int].1.wf());
                    lemma_mod_child_visits_update(kids, k as int, kids[k as int]);
                }
                assert(possible@.contains(possible@[i as int]));
                let child = &node.children[k].1;
                if child.visits == 0 {
                    best = Some(k);
                    was_zero = true;
                    break;
                }
                let w = uct_weight_of(child.value, child.visits, node.visits);
                if w > best_value || best.is_none() {
                    best = Some(k);
                    best_value = w;
                }
            },
        }
        i = i + 1;
    }
    let playable = game_info.current_round < 13 && game_info.current_moves.len() < 4;
    let k = match best {
        Some(k) if playable => k,
        _ => {
            let score = play_randomly(game_info, actors)[own % 4];
            node.update(score);
            return score;
        },
    };
    let card = node.children[k].0;
    let done = play_for_a_bit(game_info, actors, own % 4, card);
    let ghost kids = node.children@;
    proof {
        reveal_with_fuel(ModNode::wf, 2);
        assert(kids[k as int].1.wf());
        lemma_mod_child_visits_update(kids, k as int, kids[k as int]);
        if !old(node).expanded {
            lemma_mod_no_visits(kids);
            lemma_mod_no_visits(old(node).children@);
        }
    }
    let recurse = !was_zero && depth > 0 && done.is_none();
    let result: isize = if recurse {
        let child = &mut node.children[k].1;
        mod_rec::<S>(child, game_info, actors, depth - 1)
    } else {
        let score = match done {
            Some(s) => s[own % 4],
            None => play_randomly(game_info, actors)[own % 4],
        };
        let child = &mut node.children[k].1;
        child.update(score);
        score
    };
    proof {
        let fin = node.children@;
        lemma_mod_child_visits_update(kids, k as int, fin[k as int]);
        assert(fin == kids.update(k as int, fin[k as int]));
        reveal_with_fuel(ModNode::wf, 2);
        assert(forall|j: int| 0 <= j < fin.len() ==> (#[trigger] fin[j]).1.wf());
        assert(fin[k as int].0 == kids[k as int].0);
        assert(forall|j: int| 0 <= j < fin.len() ==> node.cards@.contains((#[trigger] fin[j]).0));
    }
    node.update(result);
    result
}

/// Searches until `time` milliseconds have passed (or `SEARCH_CAP` iterations
/// were made), each iteration on a freshly sampled deal, and returns, for each
/// card of the player's own hand, the card, the total reward and the number of
/// visits of its child; nothing if no iteration was made.
pub fn mcts_mod<S: MediasResActor>(
    pidx: usize,
    player_state: &DefaultPlayerState,
    played_moves: &Vec<Move>,
    time: usize,
    rng: &mut StdRng,
) -> (r: Vec<(Card, u64, u64)>)
    requires
        pidx < 4,
        player_state.basic.cards@.len() <= 13,
        player_state.wf(),
        played_moves@.len() < 4,
        forall|i: int| 0 <= i < played_moves@.len() ==> (#[trigger] played_moves@[i]).0 < 4,
    ensures
        forall|i: int| 0 <= i < r@.len() ==> (#[trigger] r@[i]).1 <= REWARD_UNIT * r@[i].2,
        forall|i: int| 0 <= i < r@.len() ==> player_state.basic.cards@.contains((#[trigger] r@[i]).0),
        r@.len() == 0 || r@.len() == player_state.basic.cards@.len(),
        forall|i: int| 0 <= i < r@.len() ==> (#[trigger] r@[i]).0 == player_state.basic.cards@[i],
        visits_total(r@) <= SEARCH_CAP,
        forall|i: int| 0 <= i < r@.len() && (#[trigger] r@[i]).2 > 0 ==> hand_moves(*player_state, played_moves@).contains(r@[i].0),
        exists|iterations: nat| #[trigger] mod_searched(*player_state, played_moves@, r@, iterations),
{
    let mut root = ModNode::new(player_state.basic.cards.clone());
    let start = now();
    let mut n: usize = 0;
    while n < SEARCH_CAP && within(&start, time)
        invariant
            root.wf(),
            root.cards@ == player_state.basic.cards@,
            n > 0 ==> root.expanded && root.children@.len() == root.cards@.len(),
            n > 0 ==> forall|i: int| 0 <= i < root.children@.len() ==> (#[trigger] root.children@[i]).0 == root.cards@[i],
            n == 0 ==> !root.expanded && root.children@.len() == 0,
            hand_moves(*player_state, played_moves@).len() > 0 && player_state.basic.cards@.contains(
                hand_moves(*player_state, played_moves@)[0],
            ) ==> mod_child_visits(root.children@) == n,
            forall|k: int|
                0 <= k < root.children@.len() && (#[trigger] root.children@[k]).1.visits > 0 ==> hand_moves(
                    *player_state,
                    played_moves@,
                ).contains(root.children@[k].0),
            root.visits == n,
            n <= SEARCH_CAP < VISIT_CAP,
            pidx < 4,
            player_state.basic.cards@.len() <= 13,
            player_state.wf(),
            played_moves@.len() < 4,
            forall|i: int| 0 <= i < played_moves@.len() ==> (#[trigger] played_moves@[i]).0 < 4,
        decreases SEARCH_CAP - n,
    {
        let (mut game_info, states) = DeterminizeV1::sample(pidx, player_state, played_moves, rng);
        let mut actors: [S; 4] = [
            S::new_from_player_state(&states[0], rng),
            S::new_from_player_state(&states[1], rng),
            S::new_from_player_state(&states[2], rng),
            S::new_from_player_state(&states[3], rng),
        ];
        let ghost before = root;
        assert(own_moves(game_info) == hand_moves(*player_state, played_moves@)) by {
            assert(game_info.hand_seqs()[pidx as int] == game_info.hands@[pidx as int]@);
        }
        mod_rec::<S>(&mut root, &mut game_info, &mut actors, MAX_DEPTH);
        proof {
            assert forall|k: int|
                0 <= k < root.children@.len() && (#[trigger] root.children@[k]).1.visits > 0 implies hand_moves(
                    *player_state,
                    played_moves@,
                ).contains(root.children@[k].0) by {
                if root.children@[k].1.visits <= prior_visits(before, k) {
                    assert(before.children@[k].1.visits > 0);
                }
            }
        }
        n = n + 1;
    }
    let mut out: Vec<(Card, u64, u64)> = Vec::new();
    let mut i: usize = 0;
    while i < root.children.len()
        invariant
            root.wf(),
            root.visits == n,
            n <= SEARCH_CAP,
            n == 0 ==> root.children@.len() == 0,
            hand_moves(*player_state, played_moves@).len() > 0 && player_state.basic.cards@.contains(
                hand_moves(*player_state, played_moves@)[0],
            ) ==> mod_child_visits(root.children@) == n,
            root.cards@ == player_state.basic.cards@,
            n > 0 ==> root.children@.len() == root.cards@.len(),
            forall|k: int| 0 <= k < root.children@.len() ==> (#[trigger] root.children@[k]).0 == root.cards@[k],
            forall|k: int| 0 <= k < out@.len() ==> (#[trigger] out@[k]).0 == root.children@[k].0,
            forall|k: int| 0 <= k < out@.len() ==> (#[trigger] out@[k]).2 == root.children@[k].1.visits,
            forall|k: int|
                0 <= k < root.children@.len() && (#[trigger] root.children@[k]).1.visits > 0 ==> hand_moves(
                    *player_state,
                    played_moves@,
                ).contains(root.children@[k].0),
            forall|k: int| 0 <= k < out@.len() ==> player_state.basic.cards@.contains((#[trigger] out@[k]).0),
            i <= root.children@.len(),
            out@.len() == i,
            visits_total(out@) == mod_child_visits(root.children@.subrange(0, i as int)),
            forall|k: int| 0 <= k < out@.len() ==> (#[trigger] out@[k]).1 <= REWARD_UNIT * out@[k].2,
        decreases root.children@.len() - i,
    {
        proof {
            reveal_with_fuel(ModNode::wf, 2);
            assert(root.children@[i as int].1.wf());
        }
        let (card, child) = (&root.children[i].0, &root.children[i].1);
        let ghost before = out@;
        out.push((*card, child.value, child.visits));
        assert(out@.drop_last() == before);
        assert(root.children@.subrange(0, i as int + 1).drop_last() == root.children@.subrange(0, i as int));
        i = i + 1;
    }
    assert(root.children@.subrange(0, root.children@.len() as int) == root.children@);
    assert(mod_searched(*player_state, played_moves@, out@, n as nat));
    out
}

} // verus!
