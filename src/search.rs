//! Monte-Carlo tree search over one sampled deal. Each node is the round after
//! one more card; a node's value is the sum of the rewards of its visits, a reward
//! `36 - score` of the seat that moved into it, in units of 1/46.
use vstd::prelude::*;
use rand::rngs::StdRng;
use crate::actors::MediasResActor;
use crate::belief::DefaultPlayerState;
use crate::cards::{Card, Move};
use crate::rules::find_winner_pidx;
use crate::game::{GameInfo, StopCondition, get_allowed_cards, playout_of};
use crate::uct::{REWARD_UNIT, VISIT_CAP, uct_weight, uct_weight_of};
use crate::random::{now, within};

verus! {

/// The most cards a round can still see played.
pub const MAX_DEPTH: usize = 52;

/// The reward for ending the round with `score`: `36 - score`, kept within 0..=46.
pub open spec fn reward_of(score: int) -> nat {
    if score >= 36 {
        0
    } else if score <= -10 {
        46
    } else {
        (36 - score) as nat
    }
}

pub fn reward(score: isize) -> (r: u64)
    ensures
        r == reward_of(score as int),
        r <= REWARD_UNIT,
{
    if score >= 36 {
        0
    } else if score <= -10 {
        46
    } else {
        (36 - score) as u64
    }
}

/// The seat whose card led to a node where `pidx` is to move.
pub open spec fn mover(pidx: usize) -> int {
    (pidx + 3) % 4
}

/// Sum of the visits of `nodes`.
pub open spec fn child_visits(nodes: Seq<Node>) -> nat
    decreases nodes.len(),
{
    if nodes.len() == 0 {
        0
    } else {
        child_visits(nodes.drop_last()) + nodes.last().visits as nat
    }
}

pub proof fn lemma_child_visits_update(s: Seq<Node>, i: int, n: Node)
    requires
        0 <= i < s.len(),
    ensures
        child_visits(s.update(i, n)) == child_visits(s) - s[i].visits + n.visits,
        s[i].visits <= child_visits(s),
    decreases s.len(),
{
    if i < s.len() - 1 {
        lemma_child_visits_update(s.drop_last(), i, n);
        assert(s.update(i, n).drop_last() == s.drop_last().update(i, n));
    } else {
        assert(s.update(i, n).drop_last() == s.drop_last());
    }
}

/// In a well-formed search tree every node's visits are its children's visits
/// plus the visits that ended at the node itself, and its total reward is at
/// most one per visit (a reward is a multiple of 1/46 between 0 and 1); the same
/// holds at every child.
pub proof fn law_visits_add_up(node: Node)
    requires
        node.wf(),
    ensures
        node.visits == child_visits(node.children@) + node.own@,
        0 <= node.value <= REWARD_UNIT * node.visits,
        forall|i: int| 0 <= i < node.children@.len() ==> (#[trigger] node.children@[i]).wf(),
{
}

/// `r` is the score of a finished round.
pub open spec fn finished_score(r: [isize; 4]) -> bool {
    exists|g: GameInfo| g.wf() && g.current_round == 13 && r == g.score
}

/// `f` is `o` after one more visit went to child `i` and to no other child.
pub open spec fn visited_child(o: Node, f: Node, i: int) -> bool {
    &&& f.children@.len() == o.children@.len()
    &&& f.children@[i].visits == o.children@[i].visits + 1
    &&& forall|j: int| 0 <= j < o.children@.len() && j != i ==> #[trigger] f.children@[j].visits == o.children@[j].visits
}

/// A node of the search tree.
pub struct Node {
    pub visits: u64,
    pub value: u64,
    pub children: Vec<Node>,
    pub expanded: bool,
    pub next_child: usize,
    pub game_info: GameInfo,
    pub last_move: Option<Move>,
    pub player_states: [DefaultPlayerState; 4],
    pub result: Option<[isize; 4]>,
    /// Visits that ended at this node rather than in a child.
    pub own: Ghost<nat>,
}

impl Node {
    /// Every node counts its children's visits plus its own, holds at most the
    /// best reward per visit, and its round is well formed.
    pub open spec fn wf(&self) -> bool
        decreases self,
    {
        &&& self.visits == child_visits(self.children@) + self.own@
        &&& self.value <= REWARD_UNIT * self.visits
        &&& self.visits <= VISIT_CAP
        &&& self.next_child <= self.children@.len()
        &&& self.game_info.wf()
        &&& (!self.expanded ==> self.children@.len() == 0)
        &&& (self.result is Some ==> finished_score(self.result->0))
        &&& forall|i: int|
            0 <= i < self.children@.len() ==> (#[trigger] self.children@[i]).wf() && self.children@[i].last_move is Some
    }

    pub fn new(
        game_info: GameInfo,
        last_move: Option<Move>,
        player_states: [DefaultPlayerState; 4],
        result: Option<[isize; 4]>,
    ) -> (r: Node)
        requires
            game_info.wf(),
            result is Some ==> finished_score(result->0),
        ensures
            r.wf(),
            r.visits == 0,
            r.value == 0,
            !r.expanded,
            r.game_info == game_info,
            r.last_move == last_move,
            r.player_states == player_states,
            r.result == result,
    {
        Node {
            visits: 0,
            value: 0,
            children: Vec::new(),
            expanded: false,
            next_child: 0,
            game_info,
            last_move,
            player_states,
            result,
            own: Ghost(0),
        }
    }

    pub fn children(&self) -> (r: &Vec<Node>)
        ensures
            r == &self.children,
    {
        &self.children
    }

    /// Every child has been visited at least once.
    pub fn fully_expanded(&self) -> (r: bool)
        ensures
            r == (self.expanded && self.next_child == self.children@.len()),
    {
        self.expanded && self.next_child == self.children.len()
    }

    /// Creates the children, one for each card the seat to move may play.
    pub fn ensure_children(&mut self)
        requires
            old(self).wf(),
        ensures
            final(self).wf(),
            final(self).expanded,
            final(self).visits == old(self).visits,
            final(self).value == old(self).value,
            final(self).own == old(self).own,
            final(self).result == old(self).result,
            final(self).game_info == old(self).game_info,
            final(self).last_move == old(self).last_move,
            old(self).expanded ==> *final(self) == *old(self),
            !old(self).expanded ==> final(self).children@.len() == options_of(old(self).game_info).len(),
            !old(self).expanded ==> final(self).next_child == 0,
            !old(self).expanded ==> forall|k: int|
                0 <= k < final(self).children@.len() ==> (#[trigger] final(self).children@[k]).visits == 0
                    && !final(self).children@[k].expanded,
            !old(self).expanded ==> forall|k: int|
                0 <= k < final(self).children@.len() ==> child_card(#[trigger] final(self).children@[k]) == options_of(
                    old(self).game_info,
                )[k],
    {
        if !self.expanded {
            let children = initial_vec(&self.game_info, &self.player_states);
            self.children = children;
            self.expanded = true;
            self.next_child = 0;
        }
    }

    /// The index of the child with the largest UCT weight, the last one among
    /// equals.
    pub fn best_child(&self) -> (r: usize)
        requires
            self.wf(),
            self.children@.len() > 0,
        ensures
            r < self.children@.len(),
            forall|j: int|
                0 <= j < self.children@.len() ==> #[trigger] self.weight_of(j) <= self.weight_of(r as int),
            forall|j: int| r < j < self.children@.len() ==> #[trigger] self.weight_of(j) < self.weight_of(r as int),
    {
        reveal_with_fuel(Node::wf, 2);
        let mut best: usize = 0;
        let c0 = &self.children[0];
        proof {
            lemma_child_visits_update(self.children@, 0, self.children@[0]);
        }
        let mut best_w = uct_weight_of(c0.value, c0.visits, self.visits);
        let mut i: usize = 1;
        while i < self.children.len()
            invariant
                self.wf(),
                1 <= i <= self.children@.len(),
                best < i,
                best_w == self.weight_of(best as int),
                forall|j: int| 0 <= j < i ==> #[trigger] self.weight_of(j) <= best_w,
                forall|j: int| best < j < i ==> #[trigger] self.weight_of(j) < best_w,
            decreases self.children@.len() - i,
        {
            let c = &self.children[i];
            proof {
                reveal_with_fuel(Node::wf, 2);
                assert(self.children@[i as int].wf());
                lemma_child_visits_update(self.children@, i as int, self.children@[i as int]);
            }
            let w = uct_weight_of(c.value, c.visits, self.visits);
            if w >= best_w {
                best = i;
                best_w = w;
            }
            i = i + 1;
        }
        best
    }

    /// The UCT weight of child `j` under this node.
    pub open spec fn weight_of(&self, j: int) -> nat {
        uct_weight(self.children@[j].value as nat, self.children@[j].visits as nat, self.visits as nat)
    }

    /// Plays the round from this node to its end with fresh copies of the
    /// playout policy `S`, and returns the scores.
    pub fn playout<S: MediasResActor>(&self, rng: &mut StdRng) -> (r: [isize; 4])
        requires
            self.game_info.wf(),
        ensures
            finished_score(r),
            playout_of(self.game_info, r),
    {
        let mut game_info = self.game_info.clone();
        let mut actors: [S; 4] = [
            S::new_from_player_state(&self.player_states[0], rng),
            S::new_from_player_state(&self.player_states[1], rng),
            S::new_from_player_state(&self.player_states[2], rng),
            S::new_from_player_state(&self.player_states[3], rng),
        ];
        game_info.play_without_validator(&mut actors, StopCondition::Never);
        assert(game_info.wf() && game_info.current_round == 13);
        game_info.score
    }

    /// Adds one visit with the given scores.
    fn record(&mut self, result: [isize; 4])
        requires
            old(self).value <= REWARD_UNIT * old(self).visits,
            old(self).visits < VISIT_CAP,
            old(self).game_info.current_pidx < 4,
        ensures
            final(self).visits == old(self).visits + 1,
            final(self).value == old(self).value + reward_of(result@[mover(old(self).game_info.current_pidx)] as int),
            final(self).value <= REWARD_UNIT * final(self).visits,
            final(self).children == old(self).children,
            final(self).expanded == old(self).expanded,
            final(self).next_child == old(self).next_child,
            final(self).game_info == old(self).game_info,
            final(self).last_move == old(self).last_move,
            final(self).player_states == old(self).player_states,
            final(self).result == old(self).result,
            final(self).own == old(self).own,
    {
        let seat = (self.game_info.current_pidx + 3) % 4;
        let gain = reward(result[seat]);
        self.visits = self.visits + 1;
        self.value = self.value + gain;
    }

    /// One iteration of the search below this node: descend by UCT through
    /// nodes whose children have all been tried, try the next untried child, and
    /// evaluate a new leaf by a playout. The visit and its reward are recorded
    /// at every node on the way, this one included.
    pub fn iterate<S: MediasResActor>(&mut self, depth: usize, rng: &mut StdRng) -> (r: [isize; 4])
        requires
            old(self).wf(),
            old(self).visits < VISIT_CAP,
        ensures
            final(self).wf(),
            final(self).visits == old(self).visits + 1,
            final(self).value == old(self).value + reward_of(r@[mover(old(self).game_info.current_pidx)] as int),
            final(self).game_info == old(self).game_info,
            final(self).last_move == old(self).last_move,
            final(self).result == old(self).result,
            old(self).expanded && old(self).children@.len() > 0 && old(self).result is None && depth > 0
                ==> final(self).own == old(self).own,
            old(self).expanded ==> final(self).expanded && final(self).children@.len() == old(self).children@.len(),
            old(self).expanded ==> forall|k: int|
                0 <= k < old(self).children@.len() ==> (#[trigger] final(self).children@[k]).last_move == old(
                    self,
                ).children@[k].last_move,
            finished_score(r),
            old(self).result is Some ==> r == old(self).result->0 && final(self).children == old(self).children
                && final(self).own@ == old(self).own@ + 1,
            old(self).result is None && (depth == 0 || (!old(self).expanded && old(self).visits == 0))
                ==> final(self).children == old(self).children && final(self).own@ == old(self).own@ + 1
                && playout_of(old(self).game_info, r),
            old(self).result is None && depth > 0 && (old(self).expanded || old(self).visits > 0)
                ==> final(self).expanded,
            old(self).result is None && depth > 0 && !old(self).expanded && old(self).visits > 0
                ==> final(self).children@.len() == options_of(old(self).game_info).len(),
            old(self).result is None && depth > 0 && !old(self).expanded && old(self).visits > 0
                && final(self).children@.len() > 0 ==> final(self).children@[0].visits == 1 && final(self).own
                == old(self).own && (final(self).children@[0].result is Some ==> r == final(self).children@[0].result->0)
                && (final(self).children@[0].result is None ==> playout_of(final(self).children@[0].game_info, r)),
            old(self).result is None && depth > 0 && old(self).expanded && old(self).children@.len() > 0
                ==> exists|i: int| 0 <= i < old(self).children@.len() && visited_child(*old(self), *final(self), i)
                && (old(self).children@[i].result is Some ==> r == old(self).children@[i].result->0)
                && (old(self).children@[i].result is None && !old(self).children@[i].expanded
                && old(self).children@[i].visits == 0 ==> playout_of(old(self).children@[i].game_info, r))
                && (if old(self).next_child < old(self).children@.len() { i == old(self).next_child } else {
                forall|j: int| 0 <= j < old(self).children@.len() ==> #[trigger] old(self).weight_of(j) <= old(self).weight_of(i)
            }),
        decreases depth,
    {
        let ghost mut chosen: int = 0;
        let result = match self.result {
            Some(res) => {
                self.own = Ghost(self.own@ + 1);
                res
            },
            None => {
                if depth == 0 || (!self.expanded && self.visits == 0) {
                    self.own = Ghost(self.own@ + 1);
                    self.playout::<S>(rng)
                } else {
                    self.ensure_children();
                    if self.children.len() == 0 {
                        self.own = Ghost(self.own@ + 1);
                        self.playout::<S>(rng)
                    } else {
                        let idx = if self.next_child < self.children.len() {
                            let k = self.next_child;
                            self.next_child = self.next_child + 1;
                            k
                        } else {
                            self.best_child()
                        };
                        proof {
                            lemma_child_visits_update(self.children@, idx as int, self.children@[idx as int]);
                        }
                        let ghost before = self.children@;
                        proof {
                            chosen = idx as int;
                        }
                        let child = &mut self.children[idx];
                        let res = child.iterate::<S>(depth - 1, rng);
                        proof {
                            lemma_child_visits_update(before, idx as int, self.children@[idx as int]);
                            assert(self.children@ == before.update(idx as int, self.children@[idx as int]));
                        }
                        res
                    }
                }
            },
        };
        self.record(result);
        proof {
            if old(self).result is None && depth > 0 && old(self).expanded && old(self).children@.len() > 0 {
                assert(visited_child(*old(self), *self, chosen));
            }
        }
        result
    }
}

/// The card that led to the node `n`.
pub open spec fn child_card(n: Node) -> Card {
    (n.last_move->0).1
}

/// `c` is `g` after the seat to move plays `card`.
pub open spec fn child_of(g: GameInfo, card: Card, c: GameInfo) -> bool {
    crate::game::played_one(g, card, c)
}

/// The cards the seat to move in `g` may play; none if its hand is empty.
pub open spec fn options_of(g: GameInfo) -> Seq<Card> {
    if g.hands@[g.current_pidx as int]@.len() == 0 || g.current_round >= 13 || g.current_moves@.len() >= 4 {
        Seq::empty()
    } else {
        crate::rules::allowed(
            g.hands@[g.current_pidx as int]@,
            g.current_moves@,
            g.current_round == 0,
            g.hearts_played,
        )
    }
}

/// The children of a node: for each card the seat to move may play, the round
/// after that card, with the belief states of the four seats brought up to date.
pub fn initial_vec(game_info: &GameInfo, player_states: &[DefaultPlayerState; 4]) -> (r: Vec<Node>)
    requires
        game_info.wf(),
    ensures
        forall|i: int| 0 <= i < r@.len() ==> (#[trigger] r@[i]).wf() && r@[i].last_move is Some && r@[i].visits == 0
            && !r@[i].expanded,
        child_visits(r@) == 0,
        r@.len() == options_of(*game_info).len(),
        forall|i: int| 0 <= i < r@.len() ==> child_card(#[trigger] r@[i]) == options_of(*game_info)[i],
        forall|i: int|
            0 <= i < r@.len() ==> (#[trigger] r@[i]).result == (if r@[i].game_info.current_round == 13 {
                Some(r@[i].game_info.score)
            } else {
                None
            }),
        forall|i: int| 0 <= i < r@.len() ==> (#[trigger] r@[i]).last_move == Some(Move(game_info.current_pidx, options_of(*game_info)[i])),
        forall|i: int| 0 <= i < r@.len() ==> child_of(*game_info, options_of(*game_info)[i], (#[trigger] r@[i]).game_info),
{
    let pidx = game_info.current_pidx;
    if game_info.hands[pidx].cards.len() == 0 || game_info.current_round >= 13 || game_info.current_moves.len() >= 4 {
        return Vec::new();
    }
    let possible = get_allowed_cards(game_info);
    assert(possible@ == options_of(*game_info));
    let mut out: Vec<Node> = Vec::new();
    let mut i: usize = 0;
    while i < possible.len()
        invariant
            game_info.wf(),
            pidx == game_info.current_pidx,
            i <= possible@.len(),
            out@.len() == i,
            possible@ == options_of(*game_info),
            forall|k: int| 0 <= k < out@.len() ==> (#[trigger] out@[k]).wf() && out@[k].last_move is Some && out@[k].visits == 0
                && !out@[k].expanded,
            forall|k: int| 0 <= k < out@.len() ==> child_card(#[trigger] out@[k]) == possible@[k],
            forall|k: int|
                0 <= k < out@.len() ==> (#[trigger] out@[k]).result == (if out@[k].game_info.current_round == 13 {
                    Some(out@[k].game_info.score)
                } else {
                    None
                }),
            forall|k: int| 0 <= k < out@.len() ==> (#[trigger] out@[k]).last_move == Some(Move(pidx, possible@[k])),
            forall|k: int| 0 <= k < out@.len() ==> child_of(*game_info, possible@[k], (#[trigger] out@[k]).game_info),
            game_info.current_moves@.len() < 4 && game_info.current_round < 13,
            child_visits(out@) == 0,
        decreases possible@.len() - i,
    {
        let card = possible[i];
        let moves = &game_info.current_moves;
        let mut states = [
            player_states[0].clone(),
            player_states[1].clone(),
            player_states[2].clone(),
            player_states[3].clone(),
        ];
        states[pidx].update_play_card(moves);
        states[pidx].update_did_play_card(&card);
        let mut next = game_info.clone();
        next.play_one(card);
        if moves.len() == 3 {
            let mut trick = moves.clone();
            trick.push(Move(pidx, card));
            let winner = find_winner_pidx(&trick);
            let mut p: usize = 0;
            while p < 4
                invariant
                    p <= 4,
                    trick@.len() == 4,
                decreases 4 - p,
            {
                states[p].update_end_round(&trick, winner);
                p = p + 1;
            }
        }
        let result = next.result();
        assert(child_of(*game_info, card, next));
        let node = Node::new(next, Some(Move(pidx, card)), states, result);
        let ghost before = out@;
        out.push(node);
        assert(out@.drop_last() == before);
        i = i + 1;
    }
    out
}

/// `r` are the statistics of a search that made `iterations` iterations, at most
/// `SEARCH_CAP`: no card has more visits, and when there is a card the visits add
/// up to the iterations.
pub open spec fn searched(r: Seq<(Card, u64, u64)>, iterations: nat) -> bool {
    &&& iterations <= SEARCH_CAP
    &&& forall|i: int| 0 <= i < r.len() ==> (#[trigger] r[i]).2 <= iterations
    &&& r.len() > 0 ==> visits_total(r) == iterations
}

/// The most iterations one search makes, however long its budget.
pub const SEARCH_CAP: usize = 1_073_741_824;

/// Searches the round `game_info` until `time` milliseconds have passed (or
/// `SEARCH_CAP` iterations were made) and returns, for each card the seat to
/// move may play, the card, the total reward and the number of visits of its
/// child. The children exist even when no iteration was made.
pub fn mcts<S: MediasResActor>(
    game_info: &GameInfo,
    player_states: &[DefaultPlayerState; 4],
    time: usize,
    rng: &mut StdRng,
) -> (r: Vec<(Card, u64, u64)>)
    requires
        game_info.wf(),
    ensures
        forall|i: int| 0 <= i < r@.len() ==> (#[trigger] r@[i]).1 <= REWARD_UNIT * r@[i].2,
        exists|iterations: nat| #[trigger] searched(r@, iterations),
        r@.len() == options_of(*game_info).len(),
        forall|i: int| 0 <= i < r@.len() ==> (#[trigger] r@[i]).0 == options_of(*game_info)[i],
{
    let mut root = Node::new(game_info.clone(), None, player_states.clone(), None);
    assert(options_of(root.game_info) == options_of(*game_info)) by {
        assert(root.game_info.hand_seqs()[game_info.current_pidx as int] == game_info.hand_seqs()[game_info.current_pidx as int]);
    }
    root.ensure_children();
    let ghost kids = root.children@;
    let start = now();
    let mut n: usize = 0;
    while n < SEARCH_CAP && within(&start, time)
        invariant
            root.wf(),
            root.expanded,
            root.result is None,
            root.visits == n,
            n <= SEARCH_CAP < VISIT_CAP,
            root.children@.len() > 0 ==> root.own@ == 0,
            root.children@.len() == kids.len(),
            forall|k: int| 0 <= k < kids.len() ==> (#[trigger] root.children@[k]).last_move == kids[k].last_move,
        decreases SEARCH_CAP - n,
    {
        root.iterate::<S>(MAX_DEPTH, rng);
        n = n + 1;
    }
    reveal_with_fuel(Node::wf, 2);
    let mut out: Vec<(Card, u64, u64)> = Vec::new();
    let mut i: usize = 0;
    while i < root.children.len()
        invariant
            root.wf(),
            i <= root.children@.len(),
            out@.len() == i,
            visits_total(out@) == child_visits(root.children@.subrange(0, i as int)),
            forall|k: int| 0 <= k < out@.len() ==> (#[trigger] out@[k]).1 <= REWARD_UNIT * out@[k].2,
            forall|k: int| 0 <= k < out@.len() ==> (#[trigger] out@[k]).2 <= n,
            root.visits == n,
            n <= SEARCH_CAP,
            root.children@.len() == kids.len(),
            kids.len() == options_of(*game_info).len(),
            forall|k: int| 0 <= k < out@.len() ==> (#[trigger] out@[k]).0 == options_of(*game_info)[k],
            forall|k: int| 0 <= k < kids.len() ==> (#[trigger] root.children@[k]).last_move == kids[k].last_move,
            forall|k: int| 0 <= k < kids.len() ==> child_card(#[trigger] kids[k]) == options_of(*game_info)[k],
        decreases root.children@.len() - i,
    {
        let child = &root.children[i];
        proof {
            reveal_with_fuel(Node::wf, 2);
            assert(root.children@[i as int].wf());
        }
        proof {
            lemma_child_visits_update(root.children@, i as int, root.children@[i as int]);
        }
        let card = child.last_move.unwrap().1;
        let ghost before = out@;
        out.push((card, child.value, child.visits));
        assert(out@.drop_last() == before);
        assert(root.children@.subrange(0, i as int + 1).drop_last() == root.children@.subrange(0, i as int));
        i = i + 1;
    }
    assert(root.children@.subrange(0, root.children@.len() as int) == root.children@);
    assert(searched(out@, n as nat));
    out
}

/// Sum of the visit counts of search results.
pub open spec fn visits_total(r: Seq<(Card, u64, u64)>) -> nat
    decreases r.len(),
{
    if r.len() == 0 {
        0
    } else {
        visits_total(r.drop_last()) + r.last().2 as nat
    }
}

} // verus!
