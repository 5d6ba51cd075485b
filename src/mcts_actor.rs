//! The search-based player: it samples deals that fit what it knows, searches
//! each with MCTS, sums the statistics per card and plays the card with the best
//! mean reward.
use vstd::prelude::*;
use core::marker::PhantomData;
use rand::rngs::StdRng;
use crate::actors::MediasResActor;
use crate::belief::ExtendedPlayerState;
use crate::cards::{Card, Hand, Move, PassDirection, Rank, Suit, without};
use crate::determinize::DeterminizeV1;
use crate::game::{Actor, SCORE_CAP};
use crate::random::seeded_rng;
use crate::rule::choose_three_to_pass;
use crate::rules::{allowed, allowed_cards};
use crate::search::{SEARCH_CAP, mcts, options_of, visits_total};
use crate::search_mod::mcts_mod;


verus! {

/// Whether the mean reward of `x` is at least that of `y`, an unvisited entry
/// counting as 0.
pub open spec fn mean_ge(x: (Card, u64, u64), y: (Card, u64, u64)) -> bool {
    if y.2 == 0 {
        true
    } else if x.2 == 0 {
        y.1 == 0
    } else {
        x.1 as int * y.2 as int >= y.1 as int * x.2 as int
    }
}

pub proof fn lemma_mean_ge_order(x: (Card, u64, u64), y: (Card, u64, u64), z: (Card, u64, u64))
    ensures
        mean_ge(x, x),
        mean_ge(x, y) || mean_ge(y, x),
        mean_ge(x, y) && mean_ge(y, z) ==> mean_ge(x, z),
{
    if mean_ge(x, y) && mean_ge(y, z) && z.2 != 0 && x.2 == 0 && y.2 != 0 {
        assert(y.1 == 0);
        assert(z.1 as int * y.2 as int <= 0) by (nonlinear_arith)
            requires
                y.1 as int * z.2 as int >= z.1 as int * y.2 as int,
                y.1 == 0,
        ;
        assert(z.1 == 0) by (nonlinear_arith)
            requires
                z.1 as int * y.2 as int <= 0,
                y.2 > 0,
                z.1 >= 0,
        ;
    }
    if mean_ge(x, y) && mean_ge(y, z) && z.2 != 0 && x.2 != 0 {
        if y.2 == 0 {
            assert(z.1 == 0);
            assert(x.1 as int * z.2 as int >= 0) by (nonlinear_arith);
        } else {
            let (a, b, c, d, e, f) = (x.1 as int, x.2 as int, y.1 as int, y.2 as int, z.1 as int, z.2 as int);
            assert(a * f >= e * b) by (nonlinear_arith)
                requires
                    a * d >= c * b,
                    c * f >= e * d,
                    b > 0,
                    d > 0,
                    f > 0,
                    a >= 0,
                    c >= 0,
                    e >= 0,
            ;
        }
    }
    if x.2 != 0 && y.2 != 0 {
        assert(x.1 as int * y.2 as int >= y.1 as int * x.2 as int || y.1 as int * x.2 as int >= x.1 as int * y.2 as int);
    }
}

/// The card of the entry with the best mean reward, the last among equals.
pub fn pick_best(stats: &Vec<(Card, u64, u64)>) -> (r: Option<Card>)
    ensures
        r is None <==> stats@.len() == 0,
        r is Some ==> exists|i: int|
            0 <= i < stats@.len() && (#[trigger] stats@[i]).0 == r->0 && (forall|j: int|
                0 <= j < stats@.len() ==> mean_ge(stats@[i], #[trigger] stats@[j])) && (forall|j: int|
                i < j < stats@.len() ==> !mean_ge(#[trigger] stats@[j], stats@[i])),
{
    if stats.len() == 0 {
        return None;
    }
    let mut best: usize = 0;
    proof {
        lemma_mean_ge_order(stats@[0], stats@[0], stats@[0]);
    }
    let mut i: usize = 1;
    while i < stats.len()
        invariant
            1 <= i <= stats@.len(),
            best < i,
            forall|j: int| 0 <= j < i ==> mean_ge(stats@[best as int], #[trigger] stats@[j]),
            forall|j: int| best < j < i ==> !mean_ge(#[trigger] stats@[j], stats@[best as int]),
        decreases stats@.len() - i,
    {
        let x = stats[i];
        let y = stats[best];
        let ge = if y.2 == 0 {
            true
        } else if x.2 == 0 {
            y.1 == 0
        } else {
            let (a, b, c, d) = (x.1 as u128, y.2 as u128, y.1 as u128, x.2 as u128);
            assert(a * b <= 0xffff_ffff_ffff_ffff * 0xffff_ffff_ffff_ffff) by (nonlinear_arith)
                requires
                    a <= 0xffff_ffff_ffff_ffff,
                    b <= 0xffff_ffff_ffff_ffff,
            ;
            assert(c * d <= 0xffff_ffff_ffff_ffff * 0xffff_ffff_ffff_ffff) by (nonlinear_arith)
                requires
                    c <= 0xffff_ffff_ffff_ffff,
                    d <= 0xffff_ffff_ffff_ffff,
            ;
            a * b >= c * d
        };
        proof {
            assert forall|j: int| 0 <= j < i + 1 implies ((ge ==> mean_ge(x, #[trigger] stats@[j])) && (!ge ==> mean_ge(y, stats@[j]))) by {
                lemma_mean_ge_order(x, y, stats@[j]);
                lemma_mean_ge_order(y, x, stats@[j]);
            }
        }
        if ge {
            best = i;
        }
        i = i + 1;
    }
    Some(stats[best].0)
}

pub proof fn lemma_visits_total_update(s: Seq<(Card, u64, u64)>, i: int, e: (Card, u64, u64))
    requires
        0 <= i < s.len(),
    ensures
        visits_total(s.update(i, e)) == visits_total(s) - s[i].2 + e.2,
    decreases s.len(),
{
    if i < s.len() - 1 {
        lemma_visits_total_update(s.drop_last(), i, e);
        assert(s.update(i, e).drop_last() == s.drop_last().update(i, e));
    } else {
        assert(s.update(i, e).drop_last() == s.drop_last());
    }
}

/// The search-based player; `S` is the playout policy.
pub struct ActorMCTSV1<S: MediasResActor> {
    pub player_state: ExtendedPlayerState,
    /// Searches one tree per decision, keyed on the candidate cards alone,
    /// instead of one full tree per sampled deal.
    pub newtype: bool,
    /// Milliseconds per search.
    pub timeout: usize,
    /// Sampled deals per decision.
    pub tries: usize,
    pub rng: StdRng,
    pub playout: PhantomData<S>,
}

/// The most sampled deals per decision.
pub const MAX_TRIES: usize = 1024;


impl<S: MediasResActor> ActorMCTSV1<S> {
    pub fn new(newtype: bool, timeout: usize, tries: usize, seed: u64) -> (r: Self)
        ensures
            r.player_state.wf(),
            r.newtype == newtype,
            r.timeout == timeout,
            r.tries == tries,
    {
        Self {
            player_state: ExtendedPlayerState::default(),
            newtype,
            timeout,
            tries,
            rng: seeded_rng(seed),
            playout: PhantomData,
        }
    }

    /// The three cards to pass, by the hand evaluation.
    pub fn choose_three_to_pass(&mut self) -> (r: Vec<Card>)
        ensures
            forall|i: int| 0 <= i < r@.len() ==> old(self).player_state.state.basic.cards@.contains(#[trigger] r@[i]),
            final(self).player_state == old(self).player_state,
            r@.len() == 0 || r@.len() == 3,
            r@.len() == 3 ==> exists|suits: Seq<Seq<Card>>, d: Seq<int>, keys: Seq<int>|
                crate::rule::pass_split(old(self).player_state.state.basic.cards@, suits, d) && r@ == crate::rule::passed_by(suits, d)
                    && crate::rule::cheapest(old(self).player_state, suits, d, keys),
            old(self).player_state.state.basic.cards@.len() <= 52 && (exists|a: int, b: int, c: int, e: int|
                #[trigger] crate::rule::split_ok(crate::rule::suit_counts(old(self).player_state.state.basic.cards@), a, b, c, e))
                ==> r@.len() == 3,
    {
        if self.player_state.state.basic.cards.len() > 52 {
            return Vec::new();
        }
        choose_three_to_pass(&self.player_state, &mut self.rng)
    }

    /// Whether the belief state and the trick can seed a sampled deal.
    fn can_sample(&self, played_moves: &Vec<Move>) -> (r: bool)
        ensures
            r ==> self.player_state.state.basic.pidx < 4 && self.player_state.state.basic.cards@.len() <= 13
                && self.player_state.state.wf() && played_moves@.len() < 4 && forall|i: int|
                0 <= i < played_moves@.len() ==> (#[trigger] played_moves@[i]).0 < 4,
    {
        let st = &self.player_state.state;
        if st.basic.pidx >= 4 || st.basic.cards.len() > 13 || played_moves.len() >= 4 {
            return false;
        }
        let mut p: usize = 0;
        while p < 4
            invariant
                p <= 4,
                forall|k: int| 0 <= k < p ==> -SCORE_CAP <= #[trigger] st.scores@[k] <= SCORE_CAP,
            decreases 4 - p,
        {
            if st.scores[p] > SCORE_CAP || st.scores[p] < -SCORE_CAP {
                return false;
            }
            p = p + 1;
        }
        let mut i: usize = 0;
        while i < played_moves.len()
            invariant
                i <= played_moves@.len(),
                forall|k: int| 0 <= k < i ==> (#[trigger] played_moves@[k]).0 < 4,
            decreases played_moves@.len() - i,
        {
            if played_moves[i].0 >= 4 {
                return false;
            }
            i = i + 1;
        }
        true
    }

    /// Per-card statistics summed over `tries` sampled deals, each searched for
    /// `time` milliseconds.
    pub fn search_stats(&mut self, played_moves: &Vec<Move>, tries: usize, time: usize) -> (r: Vec<(Card, u64, u64)>)
        requires
            old(self).player_state.state.basic.pidx < 4,
            old(self).player_state.state.basic.cards@.len() <= 13,
            old(self).player_state.state.wf(),
            played_moves@.len() < 4,
            forall|i: int| 0 <= i < played_moves@.len() ==> (#[trigger] played_moves@[i]).0 < 4,
            tries <= MAX_TRIES,
        ensures
            final(self).player_state == old(self).player_state,
            forall|i: int| 0 <= i < r@.len() ==> (#[trigger] r@[i]).1 <= 46 * r@[i].2,
            tries > 0 ==> r@.len() == own_options(old(self).player_state, played_moves@).len(),
            forall|i: int| 0 <= i < r@.len() ==> (#[trigger] r@[i]).0 == own_options(old(self).player_state, played_moves@)[i],
            tries == 0 ==> r@.len() == 0,
            r@.len() > 0 ==> visits_total(r@) <= tries * SEARCH_CAP,
    {
        let mut stats: Vec<(Card, u64, u64)> = Vec::new();
        let pidx = self.player_state.state.basic.pidx;
        let mut t: usize = 0;
        while t < tries
            invariant
                t <= tries <= MAX_TRIES,
                    self.player_state == old(self).player_state,
                pidx == self.player_state.state.basic.pidx,
                pidx < 4,
                self.player_state.state.basic.cards@.len() <= 13,
                self.player_state.state.wf(),
                played_moves@.len() < 4,
                forall|i: int| 0 <= i < played_moves@.len() ==> (#[trigger] played_moves@[i]).0 < 4,
                forall|i: int| 0 <= i < stats@.len() ==> (#[trigger] stats@[i]).1 <= 46 * stats@[i].2,
                forall|i: int| 0 <= i < stats@.len() ==> (#[trigger] stats@[i]).2 <= t * SEARCH_CAP,
                t > 0 ==> stats@.len() == own_options(self.player_state, played_moves@).len(),
                t == 0 ==> stats@.len() == 0,
                stats@.len() > 0 ==> visits_total(stats@) <= t * SEARCH_CAP,
                forall|i: int| 0 <= i < stats@.len() ==> (#[trigger] stats@[i]).0 == own_options(self.player_state, played_moves@)[i],
            decreases tries - t,
        {
            let (game_info, states) = DeterminizeV1::sample(pidx, &self.player_state.state, played_moves, &mut self.rng);
            proof {
                assert(options_of(game_info) == own_options(self.player_state, played_moves@));
            }
            let found = mcts::<S>(&game_info, &states, time, &mut self.rng);
            let ghost done = choose|n: nat| #[trigger] crate::search::searched(found@, n);
            let ghost prev = visits_total(stats@);
            if t == 0 {
                stats = found;
            } else {
                let mut i: usize = 0;
                while i < stats.len()
                    invariant
                        i <= stats@.len() == found@.len(),
                        1 <= t < tries <= MAX_TRIES,
                                    forall|k: int| 0 <= k < found@.len() ==> (#[trigger] found@[k]).1 <= 46 * found@[k].2,
                        forall|k: int| 0 <= k < found@.len() ==> (#[trigger] found@[k]).2 <= SEARCH_CAP,
                        forall|k: int| 0 <= k < found@.len() ==> (#[trigger] found@[k]).0 == own_options(self.player_state, played_moves@)[k],
                        forall|k: int| 0 <= k < stats@.len() ==> (#[trigger] stats@[k]).0 == own_options(self.player_state, played_moves@)[k],
                        forall|k: int| 0 <= k < stats@.len() ==> (#[trigger] stats@[k]).1 <= 46 * stats@[k].2,
                        forall|k: int| 0 <= k < i ==> (#[trigger] stats@[k]).2 <= (t + 1) * SEARCH_CAP,
                        forall|k: int| i <= k < stats@.len() ==> (#[trigger] stats@[k]).2 <= t * SEARCH_CAP,
                        stats@.len() > 0 ==> visits_total(stats@) == prev + visits_total(found@.subrange(0, i as int)),
                        prev <= t * SEARCH_CAP,
                        found@.len() > 0 ==> visits_total(found@) <= SEARCH_CAP,
                    decreases stats@.len() - i,
                {
                    let (c, v, n) = stats[i];
                    let (_, fv, fn_) = found[i];
                    assert((t + 1) * SEARCH_CAP <= 1025 * 1_073_741_824) by (nonlinear_arith)
                        requires
                            t + 1 <= 1024,
                            SEARCH_CAP <= 1_073_741_824,
                    ;
                    assert(t * SEARCH_CAP + SEARCH_CAP == (t + 1) * SEARCH_CAP) by (nonlinear_arith);
                    let ghost before = stats@;
                    stats.set(i, (c, v + fv, n + fn_));
                    proof {
                        lemma_visits_total_update(before, i as int, stats@[i as int]);
                        assert(found@.subrange(0, i as int + 1).drop_last() == found@.subrange(0, i as int));
                    }
                    i = i + 1;
                }
            }
            proof {
                assert(found@.subrange(0, found@.len() as int) == found@);
                assert(t * SEARCH_CAP + SEARCH_CAP == (t + 1) * SEARCH_CAP) by (nonlinear_arith);
                assert forall|k: int| 0 <= k < stats@.len() implies (#[trigger] stats@[k]).2 <= (t + 1) * SEARCH_CAP by {
                    if t == 0 {
                        assert(found@[k].2 <= SEARCH_CAP);
                    }
                }
            }
            t = t + 1;
        }
        stats
    }

    /// The card to play onto `played_moves`: among the cards this player may
    /// play, the one of best mean value found by search (as `pick_best` chooses
    /// among the searched cards that are playable); where no search can be made
    /// or none of its cards is playable, the first card it may play. With no card
    /// to play at all it names the two of clubs, which the judge refuses.
    pub fn decide(&mut self, played_moves: &Vec<Move>) -> (r: Card)
        ensures
            final(self).player_state == old(self).player_state,
            belief_options(old(self).player_state, played_moves@).len() > 0 ==> belief_options(
                old(self).player_state,
                played_moves@,
            ).contains(r),
            belief_options(old(self).player_state, played_moves@).len() == 0 ==> r == Card(Rank::Two, Suit::Clubs),
            (exists|stats: Seq<(Card, u64, u64)>| #[trigger] best_of(stats, r) && forall|i: int|
                0 <= i < stats.len() ==> belief_options(old(self).player_state, played_moves@).contains(
                    (#[trigger] stats[i]).0,
                )) || r == belief_options(old(self).player_state, played_moves@)[0] || belief_options(
                old(self).player_state,
                played_moves@,
            ).len() == 0,
    {
        let tries = if self.tries < MAX_TRIES { self.tries } else { MAX_TRIES };
        let time = self.timeout;
        let newtype = self.newtype;
        let basic = &self.player_state.state.basic;
        let options = allowed_cards(&basic.cards, played_moves, basic.first_round, basic.hearts_played);
        let ghost mut seen: Seq<(Card, u64, u64)> = Seq::empty();
        let chosen = if self.can_sample(played_moves) {
            let stats = if newtype {
                let pidx = self.player_state.state.basic.pidx;
                mcts_mod::<S>(pidx, &self.player_state.state, played_moves, time, &mut self.rng)
            } else {
                self.search_stats(played_moves, tries, time)
            };
            let playable = keep_playable(&stats, &options);
            proof {
                seen = playable@;
            }
            pick_best(&playable)
        } else {
            None
        };
        match chosen {
            Some(card) => {
                assert(best_of(seen, card));
                card
            },
            None => {
                if options.len() > 0 {
                    options[0]
                } else {
                    Card(Rank::Two, Suit::Clubs)
                }
            },
        }
    }
}

/// `r` is the card of an entry of `stats` with the best mean reward.
pub open spec fn best_of(stats: Seq<(Card, u64, u64)>, r: Card) -> bool {
    exists|i: int|
        0 <= i < stats.len() && (#[trigger] stats[i]).0 == r && forall|j: int|
            0 <= j < stats.len() ==> mean_ge(stats[i], #[trigger] stats[j])
}

/// The cards the holder of `ps` may play onto `moves`, by its own belief.
pub open spec fn belief_options(ps: ExtendedPlayerState, moves: Seq<Move>) -> Seq<Card> {
    allowed(ps.state.basic.cards@, moves, ps.state.basic.first_round, ps.state.basic.hearts_played)
}

/// The entries of `stats` whose card is among `options`, in order.
pub fn keep_playable(stats: &Vec<(Card, u64, u64)>, options: &Vec<Card>) -> (r: Vec<(Card, u64, u64)>)
    ensures
        r@ == stats@.filter(|e: (Card, u64, u64)| options@.contains(e.0)),
        forall|i: int| 0 <= i < r@.len() ==> options@.contains((#[trigger] r@[i]).0),
{
    let ghost pred = |e: (Card, u64, u64)| options@.contains(e.0);
    let mut out: Vec<(Card, u64, u64)> = Vec::new();
    let mut i: usize = 0;
    while i < stats.len()
        invariant
            i <= stats@.len(),
            pred == (|e: (Card, u64, u64)| options@.contains(e.0)),
            out@ == stats@.subrange(0, i as int).filter(pred),
            forall|k: int| 0 <= k < out@.len() ==> options@.contains((#[trigger] out@[k]).0),
        decreases stats@.len() - i,
    {
        proof {
            crate::rules::lemma_filter_step(stats@, i as int, pred);
        }
        if Hand::contains_card(options, stats[i].0) {
            out.push(stats[i]);
        }
        i = i + 1;
    }
    assert(stats@.subrange(0, stats@.len() as int) == stats@);
    out
}

/// The cards the holder of `ps` may play onto `moves` in a sampled deal.
pub open spec fn own_options(ps: ExtendedPlayerState, moves: Seq<Move>) -> Seq<Card> {
    let cards = ps.state.basic.cards@;
    if cards.len() == 0 {
        Seq::empty()
    } else {
        allowed(cards, moves, 13 - cards.len() == 0, ps.state.basic.hearts_played)
    }
}

impl<S: MediasResActor> Actor for ActorMCTSV1<S> {
    fn initialize(&mut self, pidx: usize, cards: &Vec<Card>) {
        self.player_state.set_cards(cards.clone());
        self.player_state.set_pidx(pidx);
    }

    fn play_card(&mut self, played_moves: &Vec<Move>) -> (r: Card)
        ensures
            exists|mid: ExtendedPlayerState|
                crate::belief::seen_play(old(self).player_state.state, mid.state, played_moves@) && (belief_options(
                    mid,
                    played_moves@,
                ).len() > 0 ==> belief_options(mid, played_moves@).contains(r)) && ((exists|
                    stats: Seq<(Card, u64, u64)>,
                | #[trigger] best_of(stats, r) && forall|i: int|
                    0 <= i < stats.len() ==> belief_options(mid, played_moves@).contains((#[trigger] stats[i]).0))
                    || r == belief_options(mid, played_moves@)[0] || belief_options(mid, played_moves@).len() == 0),
            final(self).player_state.state.basic.cards@ == without(old(self).player_state.state.basic.cards@, r),
    {
        self.player_state.update_play_card(played_moves);
        let ghost mid = self.player_state;
        let card = self.decide(played_moves);
        self.player_state.update_did_play_card(&card);
        card
    }

    fn end_round(&mut self, winner_pidx: usize, played_moves: &Vec<Move>) {
        if played_moves.len() <= 52 {
            self.player_state.update_end_round(played_moves, winner_pidx);
        }
    }

    fn end_game(&mut self, _score: [isize; 4]) {
    }

    fn get_pass(&mut self, direction: PassDirection) -> (r: Vec<Card>)
        ensures
            direction == PassDirection::NoPass ==> r@.len() == 0,
            r@.len() <= 3,
            forall|i: int| 0 <= i < r@.len() ==> old(self).player_state.state.basic.cards@.contains(#[trigger] r@[i]),
    {
        if direction == PassDirection::NoPass {
            return Vec::new();
        }
        let passed = self.choose_three_to_pass();
        let mut i: usize = 0;
        while i < passed.len()
            invariant
                i <= passed@.len(),
            decreases passed@.len() - i,
        {
            self.player_state.update_did_play_card(&passed[i]);
            i = i + 1;
        }
        passed
    }

    fn end_pass(&mut self, passed_cards: &Vec<Card>) {
        self.player_state.update_end_pass(passed_cards);
    }
}

/// The search-based player under its other name.
pub type MCTSActorV1<S> = ActorMCTSV1<S>;

} // verus!
