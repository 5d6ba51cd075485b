//! The greedy rule-based player: it plays the card whose trick outcome and
//! remaining hand cost least, and passes the three cards whose loss leaves the
//! cheapest hand. It also serves as a playout policy.
use vstd::prelude::*;
use rand::rngs::StdRng;
use crate::belief::{ExtendedPlayerState, count_true};
use crate::cards::{Card, Hand, Move, PassDirection, Rank, Suit, rank_at, rank_index, suit_index, without};
use crate::belief::DefaultPlayerState;
use crate::actors::MediasResActor;
use crate::eval::{EvalStateV1, draws_of, state_value, suits_of, table_of};
use crate::game::Actor;
use crate::random::{next_seed, seeded_rng};
use crate::rules::{allowed, allowed_cards};
use crate::rules::{trick_points, trick_score};

verus! {

pub open spec fn power(b: int, e: nat) -> int
    decreases e,
{
    if e == 0 {
        1
    } else {
        b * power(b, (e - 1) as nat)
    }
}

pub proof fn lemma_power_bound(b: int, e: nat)
    requires
        0 <= b <= 3,
        e <= 13,
    ensures
        0 <= power(b, e) <= power(3, e) <= 1594323,
    decreases e,
{
    reveal_with_fuel(power, 14);
    if e > 0 {
        lemma_power_bound(b, (e - 1) as nat);
        let p = power(b, (e - 1) as nat);
        let q = power(3, (e - 1) as nat);
        assert(b * p <= 3 * q) by (nonlinear_arith)
            requires
                0 <= b <= 3,
                0 <= p <= q,
        ;
        assert(0 <= b * p) by (nonlinear_arith)
            requires
                0 <= b,
                0 <= p,
        ;
        if e < 13 {
            assert(power(3, e) <= power(3, 13)) by {
                lemma_power3_mono(e, 13);
            }
        }
    }
}

pub proof fn lemma_power3_mono(e: nat, f: nat)
    requires
        e <= f,
    ensures
        power(3, e) <= power(3, f),
        power(3, e) >= 1,
    decreases f,
{
    if f > e {
        lemma_power3_mono(e, (f - 1) as nat);
    } else if e > 0 {
        lemma_power3_mono((e - 1) as nat, (e - 1) as nat);
    }
}

pub fn ipow(b: i64, e: u64) -> (r: i64)
    requires
        0 <= b <= 3,
        e <= 13,
    ensures
        r == power(b as int, e as nat),
        0 <= r <= 1594323,
{
    let mut r: i64 = 1;
    let mut k: u64 = 0;
    while k < e
        invariant
            k <= e <= 13,
            0 <= b <= 3,
            r == power(b as int, k as nat),
        decreases e - k,
    {
        proof {
            lemma_power_bound(b as int, k as nat);
            lemma_power_bound(b as int, (k + 1) as nat);
            assert(power(b as int, (k + 1) as nat) == b * power(b as int, k as nat));
            assert(r * b <= 1594323 * 3) by (nonlinear_arith)
                requires
                    0 <= r <= 1594323,
                    0 <= b <= 3,
            ;
            assert(r * b >= 0) by (nonlinear_arith)
                requires
                    0 <= r,
                    0 <= b,
            ;
        }
        r = r * b;
        k = k + 1;
    }
    proof {
        lemma_power_bound(b as int, e as nat);
    }
    r
}

/// The chance, as a numerator over `n^(b+g)`, that one of `a` of the `n` players
/// still holding the suit takes the trick over, with `g` cards of the suit below
/// the played card and `b` above it among the opponents.
pub open spec fn take_over(n: int, a: int, g: nat, b: nat) -> int {
    let n1 = if n >= 1 { n - 1 } else { 0 };
    let n2 = if n >= 2 { n - 2 } else { 0 };
    let one = power(n, b) - power(n1, b);
    let two = power(n, b) - 2 * power(n1, b) + power(n2, b);
    if a <= 0 {
        0
    } else if a == 1 {
        power(n1, g) * one
    } else if a == 2 {
        2 * (power(n1, g) * one) - power(n2, g) * two
    } else {
        3 * (power(n1, g) * one) - 3 * (power(n2, g) * two)
    }
}

/// `p / d` rounded toward zero.
pub open spec fn trunc_div(p: int, d: int) -> int {
    if p >= 0 {
        p / d
    } else {
        -((-p) / d)
    }
}

/// Number of the seats `from..to` (taken mod 4) marked in `row`.
pub open spec fn seats_marked(row: Seq<bool>, from: int, to: int) -> nat
    decreases to - from,
{
    if to <= from {
        0
    } else {
        seats_marked(row, from, to - 1) + if row[(to - 1) % 4] { 1nat } else { 0 }
    }
}

/// The expected cost, in hundredths of a point, of adding `card` to the trick
/// `moves`, for the seat `pidx` with the still-has table `still` and the table of
/// cards held by opponents `opp`.
pub open spec fn round_value(
    pidx: int,
    still: Seq<Seq<bool>>,
    opp: Seq<Seq<bool>>,
    moves: Seq<Move>,
    card: Card,
) -> int {
    let s = suit_index(card.1) as int;
    let k = rank_index(card.0) as int;
    let partial = trick_points(moves) + card.points();
    if moves.len() > 0 && (card.1 != moves[0].1.1 || rank_index(card.0) < rank_index(moves[0].1.0)) {
        0
    } else if moves.len() >= 3 {
        100 * partial
    } else {
        let togo = 3 - moves.len();
        let n = seats_marked(still[s], pidx + 1, pidx + 4) as int;
        let a = seats_marked(still[s], pidx + 1, pidx + togo + 1) as int;
        let total = count_true(opp[s]);
        let g = if partial >= 0 {
            count_true(opp[s].subrange(0, k))
        } else {
            count_true(opp[s].subrange(k, 13))
        };
        let b = (total - g) as nat;
        let num = take_over(n, a, g, b);
        let den = if n == 0 { 1 } else { power(n, b + g) };
        let queen_out = opp[0][10];
        let x = 100 * partial + (if card.1 == Suit::Hearts { 100 * a } else { 20 * a }) + (if queen_out {
            380 * (togo - a)
        } else {
            80 * (togo - a)
        });
        trunc_div((den - num) * x, den)
    }
}

/// Number of the seats `from..to` (mod 4) marked in `row`.
pub fn count_seats(row: &[bool; 4], from: usize, to: usize) -> (r: u64)
    requires
        from <= to <= 100,
    ensures
        r == seats_marked(row@, from as int, to as int),
        r <= to - from,
{
    let mut n: u64 = 0;
    let mut p: usize = from;
    while p < to
        invariant
            from <= p <= to <= 100,
            n == seats_marked(row@, from as int, p as int),
            n <= p - from,
        decreases to - p,
    {
        if row[p % 4] {
            n = n + 1;
        }
        p = p + 1;
    }
    n
}

/// Number of `true` entries of `row[lo..hi]`.
pub fn count_span(row: &[bool; 13], lo: usize, hi: usize) -> (r: u64)
    requires
        lo <= hi <= 13,
    ensures
        r == count_true(row@.subrange(lo as int, hi as int)),
        r <= hi - lo,
{
    let mut n: u64 = 0;
    let mut i: usize = lo;
    while i < hi
        invariant
            lo <= i <= hi <= 13,
            n == count_true(row@.subrange(lo as int, i as int)),
            n <= i - lo,
        decreases hi - i,
    {
        assert(row@.subrange(lo as int, i as int + 1).drop_last() == row@.subrange(lo as int, i as int));
        if row[i] {
            n = n + 1;
        }
        i = i + 1;
    }
    n
}

/// The expected cost of playing `new_card` onto `played_moves`, as
/// `round_value` states it.
#[verifier::rlimit(60)]
pub fn evaluate_round(player_state: &ExtendedPlayerState, played_moves: &Vec<Move>, new_card: Card) -> (r: i64)
    requires
        player_state.state.basic.pidx < 4,
        played_moves@.len() <= 52,
    ensures
        r == round_value(
            player_state.state.basic.pidx as int,
            Seq::new(4, |i: int| player_state.state.still_has@[i]@),
            Seq::new(4, |i: int| player_state.opponent_cards_in_game@[i]@),
            played_moves@,
            new_card,
        ),
        -1_000_000_000_000_000_000 <= r <= 1_000_000_000_000_000_000,
{
    if played_moves.len() > 0 {
        let first = played_moves[0].1;
        if new_card.1 != first.1 || new_card.0.to_index() < first.0.to_index() {
            return 0;
        }
    }
    proof {
        crate::rules::lemma_trick_points_bound(played_moves@);
    }
    let partial: i64 = trick_score(played_moves) as i64 + new_card.score() as i64;
    if played_moves.len() >= 3 {
        return 100 * partial;
    }
    let s = new_card.1.to_index();
    let k = new_card.0.to_index();
    let pidx = player_state.state.basic.pidx;
    let togo = 3 - played_moves.len();
    let still = &player_state.state.still_has[s];
    let opp = &player_state.opponent_cards_in_game[s];
    let n = count_seats(still, pidx + 1, pidx + 4) as i64;
    let a = count_seats(still, pidx + 1, pidx + togo + 1) as i64;
    let total = count_span(opp, 0, 13);
    assert(opp@.subrange(0, 13) == opp@);
    let g = if partial >= 0 { count_span(opp, 0, k) } else { count_span(opp, k, 13) };
    proof {
        let row = opp@;
        if partial >= 0 {
            lemma_count_split(row, k as int);
        } else {
            lemma_count_split(row, k as int);
        }
    }
    let b = total - g;
    let num = take_over_num(n, a, g, b);
    let den: i64 = if n == 0 { 1 } else { ipow(n, b + g) };
    proof {
        if n != 0 {
            assert(den >= 1) by {
                lemma_power_pos(n as int, (b + g) as nat);
            }
        }
    }
    let queen_out = player_state.opponent_cards_in_game[0][10];
    assert(-60 <= partial <= 60);
    assert(0 <= a <= togo <= 3);
    let rest = togo as i64 - a;
    let x: i64 = 100 * partial + (if new_card.1 == Suit::Hearts { 100 * a } else { 20 * a }) + (if queen_out {
        380 * rest
    } else {
        80 * rest
    });
    assert(-10000 <= x <= 10000);
    share(den, num, x)
}

/// `(den - num) * x / den`, rounded toward zero.
fn share(den: i64, num: i64, x: i64) -> (r: i64)
    requires
        1 <= den <= 1594323,
        -70_000_000_000_000 <= num <= 70_000_000_000_000,
        -10000 <= x <= 10000,
    ensures
        r == trunc_div((den - num) * x, den as int),
        -1_000_000_000_000_000_000 <= r <= 1_000_000_000_000_000_000,
{
    let d = den - num;
    assert(-1_000_000_000_000_000_000 <= d * x <= 1_000_000_000_000_000_000) by (nonlinear_arith)
        requires
            -71_000_000_000_000 <= d <= 71_000_000_000_000,
            -10000 <= x <= 10000,
    ;
    let p = d * x;
    if p >= 0 {
        p / den
    } else {
        0 - (0 - p) / den
    }
}

/// The numerator of `take_over`.
fn take_over_num(n: i64, a: i64, g: u64, b: u64) -> (r: i64)
    requires
        0 <= n <= 3,
        g <= 13,
        b <= 13,
    ensures
        r == take_over(n as int, a as int, g as nat, b as nat),
        -70_000_000_000_000 <= r <= 70_000_000_000_000,
{
    let n1: i64 = if n >= 1 { n - 1 } else { 0 };
    let n2: i64 = if n >= 2 { n - 2 } else { 0 };
    let pn_b = ipow(n, b);
    let p1_b = ipow(n1, b);
    let p2_b = ipow(n2, b);
    let p1_g = ipow(n1, g);
    let p2_g = ipow(n2, g);
    let one = pn_b - p1_b;
    let two = pn_b - 2 * p1_b + p2_b;
    proof {
        lemma_mul_bound(p1_g as int, one as int);
        lemma_mul_bound(p2_g as int, two as int);
    }
    let t1 = p1_g * one;
    let t2 = p2_g * two;
    if a <= 0 {
        0
    } else if a == 1 {
        t1
    } else if a == 2 {
        2 * t1 - t2
    } else {
        3 * t1 - 3 * t2
    }
}

pub proof fn lemma_mul_bound(x: int, y: int)
    requires
        0 <= x <= 1594323,
        -4 * 1594323 <= y <= 4 * 1594323,
    ensures
        -4 * 1594323 * 1594323 <= x * y <= 4 * 1594323 * 1594323,
{
    assert(-4 * 1594323 * 1594323 <= x * y <= 4 * 1594323 * 1594323) by (nonlinear_arith)
        requires
            0 <= x <= 1594323,
            -4 * 1594323 <= y <= 4 * 1594323,
    ;
}

pub proof fn lemma_power_pos(n: int, e: nat)
    requires
        n >= 1,
    ensures
        power(n, e) >= 1,
    decreases e,
{
    if e > 0 {
        lemma_power_pos(n, (e - 1) as nat);
        let p = power(n, (e - 1) as nat);
        assert(n * p >= 1) by (nonlinear_arith)
            requires
                n >= 1,
                p >= 1,
        ;
    }
}

/// The `true` entries of a row split at `k`.
pub proof fn lemma_count_split(row: Seq<bool>, k: int)
    requires
        0 <= k <= row.len(),
    ensures
        count_true(row) == count_true(row.subrange(0, k)) + count_true(row.subrange(k, row.len() as int)),
    decreases row.len(),
{
    if k < row.len() {
        lemma_count_split(row.drop_last(), k);
        assert(row.subrange(k, row.len() as int).drop_last() == row.drop_last().subrange(k, row.len() - 1));
        assert(row.drop_last().subrange(0, k) == row.subrange(0, k));
    } else {
        assert(row.subrange(0, k) == row);
        assert(row.subrange(k, row.len() as int) == Seq::<bool>::empty());
    }
}

/// The order in which a suit is sorted before passing: by rank, with the two of
/// clubs last.
pub open spec fn pass_key(c: Card) -> int {
    if c == Card(Rank::Two, Suit::Clubs) {
        13
    } else {
        rank_index(c.0) as int
    }
}

pub fn pass_key_of(c: Card) -> (r: usize)
    ensures
        r == pass_key(c),
{
    if c.0 == Rank::Two && c.1 == Suit::Clubs {
        13
    } else {
        c.0.to_index()
    }
}

/// `cards` sorted by `pass_key`, equal keys in their first order.
pub fn sort_for_pass(cards: &Vec<Card>) -> (r: Vec<Card>)
    ensures
        r@.to_multiset() == cards@.to_multiset(),
        r@.len() == cards@.len(),
        forall|i: int, j: int| 0 <= i < j < r@.len() ==> pass_key(r@[i]) <= pass_key(r@[j]),
{
    broadcast use vstd::seq_lib::group_to_multiset_ensures;
    let mut out: Vec<Card> = Vec::new();
    let mut i: usize = 0;
    while i < cards.len()
        invariant
            i <= cards@.len(),
            out@.len() == i,
            out@.to_multiset() == cards@.subrange(0, i as int).to_multiset(),
            forall|a: int, b: int| 0 <= a < b < out@.len() ==> pass_key(out@[a]) <= pass_key(out@[b]),
        decreases cards@.len() - i,
    {
        let c = cards[i];
        let k = pass_key_of(c);
        let mut pos: usize = 0;
        while pos < out.len() && pass_key_of(out[pos]) <= k
            invariant
                pos <= out@.len(),
                forall|a: int| 0 <= a < pos ==> pass_key(out@[a]) <= k,
            decreases out@.len() - pos,
        {
            pos = pos + 1;
        }
        let ghost before = out@;
        out.insert(pos, c);
        proof {
            assert(out@ == before.insert(pos as int, c));
            before.insert_ensures(pos as int, c);
            vstd::seq_lib::to_multiset_build(cards@.subrange(0, i as int), c);
            assert(cards@.subrange(0, i as int + 1) == cards@.subrange(0, i as int).push(c));
            vstd::seq_lib::to_multiset_insert(before, pos as int, c);
            assert forall|a: int, b: int| 0 <= a < b < out@.len() implies pass_key(out@[a]) <= pass_key(out@[b]) by {
                if pos < before.len() {
                    assert(pass_key(before[pos as int]) > k);
                }
            }
        }
        i = i + 1;
    }
    assert(cards@.subrange(0, cards@.len() as int) == cards@);
    out
}

/// The highest rank not held, counting down from the ace through the top ranks
/// of `s` read from its end.
pub open spec fn top_gap(s: Seq<Card>, acc: int) -> int
    decreases s.len(),
{
    if s.len() == 0 {
        acc
    } else if rank_index(s.last().0) == acc && acc > 0 {
        top_gap(s.drop_last(), acc - 1)
    } else {
        acc
    }
}

pub fn top_gap_of(s: &Vec<Card>) -> (r: usize)
    ensures
        r == top_gap(s@, 12),
        r <= 12,
{
    let mut acc: usize = 12;
    let mut j: usize = s.len();
    assert(s@.subrange(0, j as int) == s@);
    while j > 0
        invariant
            j <= s@.len(),
            acc <= 12,
            top_gap(s@.subrange(0, j as int), acc as int) == top_gap(s@, 12),
        decreases j,
    {
        assert(s@.subrange(0, j as int).drop_last() == s@.subrange(0, j as int - 1));
        if s[j - 1].0.to_index() == acc && acc > 0 {
            acc = acc - 1;
            j = j - 1;
        } else {
            return acc;
        }
    }
    acc
}

/// Whether giving up `a`, `b`, `c`, `e` cards of the four suits is a way to pass
/// three cards, at most two of a suit, that the suit counts allow.
pub open spec fn split_ok(counts: Seq<int>, a: int, b: int, c: int, e: int) -> bool {
    &&& 0 <= a < 3 && 0 <= b < 3 && 0 <= c < 3 && 0 <= e < 3 && a + b + c + e == 3
    &&& a <= counts[0] && b <= counts[1] && c <= counts[2] && e <= counts[3]
}

/// The position of the split `(a, b, c, 3 - a - b - c)` in `divide_three`.
pub open spec fn split_index(a: int, b: int, c: int) -> int {
    if a == 0 {
        if b == 0 { c - 1 } else if b == 1 { 2 + c } else { 5 + c }
    } else if a == 1 {
        if b == 0 { 7 + c } else if b == 1 { 10 + c } else { 12 }
    } else {
        if b == 0 { 13 + c } else { 15 }
    }
}

/// The missing spade added back before passing: the highest spade not held
/// above the held top run if the queen is held, else the queen.
pub open spec fn spade_ghost(spades: Seq<Card>) -> Card {
    if spades.contains(Card(Rank::Queen, Suit::Spades)) {
        Card(rank_at(top_gap(spades, 12)), Suit::Spades)
    } else {
        Card(Rank::Queen, Suit::Spades)
    }
}

/// The suits `suits` after giving up the top `d[s]` cards of each.
pub open spec fn kept_by(suits: Seq<Seq<Card>>, d: Seq<int>) -> Seq<Seq<Card>> {
    seq![
        suits[0].subrange(0, suits[0].len() - d[0]),
        suits[1].subrange(0, suits[1].len() - d[1]),
        suits[2].subrange(0, suits[2].len() - d[2]),
        suits[3].subrange(0, suits[3].len() - d[3]),
    ]
}

/// `kept_by(suits, d)` with the highest missing spade, club and heart added.
pub open spec fn ghosted_by(suits: Seq<Seq<Card>>, d: Seq<int>) -> Seq<Seq<Card>> {
    let k = kept_by(suits, d);
    seq![
        k[0].push(spade_ghost(suits[0])),
        k[1].push(Card(rank_at(top_gap(suits[1], 12)), Suit::Clubs)),
        k[2],
        k[3].push(Card(rank_at(top_gap(suits[3], 12)), Suit::Hearts)),
    ]
}

/// `key` is a cost of giving up `d` from `suits` for the holder of `ps`: the
/// cost of the hand with the missing cards added, plus four times that of the
/// hand left, each with some draws of the suits the tricks ask for.
pub open spec fn split_cost(ps: ExtendedPlayerState, suits: Seq<Seq<Card>>, d: Seq<int>, key: int) -> bool {
    exists|d1: Seq<usize>, d2: Seq<usize>|
        d1.len() == 13 && d2.len() == 13 && (forall|i: int| 0 <= i < 13 ==> #[trigger] d1[i] < 4) && (forall|i: int|
            0 <= i < 13 ==> #[trigger] d2[i] < 4) && key == state_value(
            table_of(ps.state.cards_in_game),
            ghosted_by(suits, d),
            draws_of(d1),
        ) + 4 * state_value(table_of(ps.state.cards_in_game), kept_by(suits, d), draws_of(d2))
}

/// `keys` hold a cost for each way of giving up three cards that fits `suits`
/// (by its position in `divide_three`), and `d` is one of least cost.
pub open spec fn cheapest(ps: ExtendedPlayerState, suits: Seq<Seq<Card>>, d: Seq<int>, keys: Seq<int>) -> bool {
    let counts = seq![suits[0].len() as int, suits[1].len() as int, suits[2].len() as int, suits[3].len() as int];
    &&& keys.len() == 16
    &&& forall|a: int, b: int, c: int, e: int|
        #[trigger] split_ok(counts, a, b, c, e) ==> split_cost(ps, suits, seq![a, b, c, e], keys[split_index(a, b, c)])
            && keys[split_index(d[0], d[1], d[2])] <= keys[split_index(a, b, c)]
}

/// A way of giving up cards as a sequence of counts.
pub open spec fn opt_seq(d: [usize; 4]) -> Seq<int> {
    seq![d@[0] as int, d@[1] as int, d@[2] as int, d@[3] as int]
}

/// The number of cards of each suit in `cards`.
pub open spec fn suit_counts(cards: Seq<Card>) -> Seq<int> {
    seq![
        cards.filter(suit_but(Suit::Spades, None)).len() as int,
        cards.filter(suit_but(Suit::Clubs, None)).len() as int,
        cards.filter(suit_but(Suit::Diamonds, None)).len() as int,
        cards.filter(suit_but(Suit::Hearts, None)).len() as int,
    ]
}

/// The ways to take three cards from four suits, at most two from a suit, in
/// lexicographic order.
pub fn divide_three() -> (r: Vec<[usize; 4]>)
    ensures
        r@.len() == 16,
        forall|a: int, b: int, c: int|
            0 <= a < 3 && 0 <= b < 3 && 0 <= c < 3 && 0 <= 3 - a - b - c < 3 ==> #[trigger] r@[split_index(a, b, c)]@
                == seq![a as usize, b as usize, c as usize, (3 - a - b - c) as usize],
        forall|i: int|
            0 <= i < 16 ==> (#[trigger] r@[i])@[0] + r@[i]@[1] + r@[i]@[2] + r@[i]@[3] == 3 && r@[i]@[0] < 3
                && r@[i]@[1] < 3 && r@[i]@[2] < 3 && r@[i]@[3] < 3,
        forall|k: int|
            0 <= k < 16 ==> split_index((#[trigger] r@[k])@[0] as int, r@[k]@[1] as int, r@[k]@[2] as int) == k,
{
    let r: Vec<[usize; 4]> = vec![
        [0, 0, 1, 2], [0, 0, 2, 1], [0, 1, 0, 2], [0, 1, 1, 1], [0, 1, 2, 0], [0, 2, 0, 1], [0, 2, 1, 0],
        [1, 0, 0, 2], [1, 0, 1, 1], [1, 0, 2, 0], [1, 1, 0, 1], [1, 1, 1, 0], [1, 2, 0, 0],
        [2, 0, 0, 1], [2, 0, 1, 0], [2, 1, 0, 0],
    ];
    assert forall|a: int, b: int, c: int|
        0 <= a < 3 && 0 <= b < 3 && 0 <= c < 3 && 0 <= 3 - a - b - c < 3 implies #[trigger] r@[split_index(a, b, c)]@
            == seq![a as usize, b as usize, c as usize, (3 - a - b - c) as usize] by {
        let k = split_index(a, b, c);
        assert(r@[k]@ =~= seq![a as usize, b as usize, c as usize, (3 - a - b - c) as usize]);
    }
    assert forall|k: int| 0 <= k < 16 implies split_index((#[trigger] r@[k])@[0] as int, r@[k]@[1] as int, r@[k]@[2] as int) == k by {
        if k == 0 { assert(r@[k]@ == seq![0usize, 0, 1, 2]); } else if k == 1 { assert(r@[k]@ == seq![0usize, 0, 2, 1]); }
        else if k == 2 { assert(r@[k]@ == seq![0usize, 1, 0, 2]); } else if k == 3 { assert(r@[k]@ == seq![0usize, 1, 1, 1]); }
        else if k == 4 { assert(r@[k]@ == seq![0usize, 1, 2, 0]); } else if k == 5 { assert(r@[k]@ == seq![0usize, 2, 0, 1]); }
        else if k == 6 { assert(r@[k]@ == seq![0usize, 2, 1, 0]); } else if k == 7 { assert(r@[k]@ == seq![1usize, 0, 0, 2]); }
        else if k == 8 { assert(r@[k]@ == seq![1usize, 0, 1, 1]); } else if k == 9 { assert(r@[k]@ == seq![1usize, 0, 2, 0]); }
        else if k == 10 { assert(r@[k]@ == seq![1usize, 1, 0, 1]); } else if k == 11 { assert(r@[k]@ == seq![1usize, 1, 1, 0]); }
        else if k == 12 { assert(r@[k]@ == seq![1usize, 2, 0, 0]); } else if k == 13 { assert(r@[k]@ == seq![2usize, 0, 0, 1]); }
        else if k == 14 { assert(r@[k]@ == seq![2usize, 0, 1, 0]); } else { assert(r@[k]@ == seq![2usize, 1, 0, 0]); }
    }
    r
}

/// The cards of `cards` of suit `suit` other than `skip`.
pub open spec fn suit_but(suit: Suit, skip: Option<Card>) -> spec_fn(Card) -> bool {
    |c: Card| c.1 == suit && skip != Some(c)
}

/// `cards` split by suit (spades, clubs, diamonds, hearts), leaving out `skip`.
pub fn group_by_suit(cards: &Vec<Card>, skip: Option<Card>) -> (r: [Vec<Card>; 4])
    ensures
        r@[0]@ == cards@.filter(suit_but(Suit::Spades, skip)),
        r@[1]@ == cards@.filter(suit_but(Suit::Clubs, skip)),
        r@[2]@ == cards@.filter(suit_but(Suit::Diamonds, skip)),
        r@[3]@ == cards@.filter(suit_but(Suit::Hearts, skip)),
        forall|s: int| 0 <= s < 4 ==> (#[trigger] r@[s])@.len() <= cards@.len(),
{
    let mut sp: Vec<Card> = Vec::new();
    let mut cl: Vec<Card> = Vec::new();
    let mut di: Vec<Card> = Vec::new();
    let mut he: Vec<Card> = Vec::new();
    let mut i: usize = 0;
    while i < cards.len()
        invariant
            i <= cards@.len(),
            sp@ == cards@.subrange(0, i as int).filter(suit_but(Suit::Spades, skip)),
            cl@ == cards@.subrange(0, i as int).filter(suit_but(Suit::Clubs, skip)),
            di@ == cards@.subrange(0, i as int).filter(suit_but(Suit::Diamonds, skip)),
            he@ == cards@.subrange(0, i as int).filter(suit_but(Suit::Hearts, skip)),
            sp@.len() <= i && cl@.len() <= i && di@.len() <= i && he@.len() <= i,
        decreases cards@.len() - i,
    {
        let c = cards[i];
        proof {
            crate::rules::lemma_filter_step(cards@, i as int, suit_but(Suit::Spades, skip));
            crate::rules::lemma_filter_step(cards@, i as int, suit_but(Suit::Clubs, skip));
            crate::rules::lemma_filter_step(cards@, i as int, suit_but(Suit::Diamonds, skip));
            crate::rules::lemma_filter_step(cards@, i as int, suit_but(Suit::Hearts, skip));
        }
        let skipped = match skip {
            Some(k) => k == c,
            None => false,
        };
        if !skipped {
            match c.1 {
                Suit::Spades => sp.push(c),
                Suit::Clubs => cl.push(c),
                Suit::Diamonds => di.push(c),
                Suit::Hearts => he.push(c),
            }
        }
        i = i + 1;
    }
    assert(cards@.subrange(0, cards@.len() as int) == cards@);
    [sp, cl, di, he]
}

/// The first `n` cards of `cards`.
pub fn take_first(cards: &Vec<Card>, n: usize) -> (r: Vec<Card>)
    requires
        n <= cards@.len(),
    ensures
        r@ == cards@.subrange(0, n as int),
{
    let mut out: Vec<Card> = Vec::new();
    let mut i: usize = 0;
    while i < n
        invariant
            i <= n <= cards@.len(),
            out@ == cards@.subrange(0, i as int),
        decreases n - i,
    {
        out.push(cards[i]);
        i = i + 1;
        assert(out@ =~= cards@.subrange(0, i as int));
    }
    out
}

/// The hand `cards` (by suit) with a spade, a club and a heart added.
pub fn add_ghost_cards(cards: &[Vec<Card>; 4], spade_card: Card, club_card: Card, heart_card: Card) -> (r: [Vec<
    Card,
>; 4])
    ensures
        r@[0]@ == cards@[0]@.push(spade_card),
        r@[1]@ == cards@[1]@.push(club_card),
        r@[2]@ == cards@[2]@,
        r@[3]@ == cards@[3]@.push(heart_card),
{
    let mut spades = cards[0].clone();
    spades.push(spade_card);
    let mut clubs = cards[1].clone();
    clubs.push(club_card);
    let mut hearts = cards[3].clone();
    hearts.push(heart_card);
    [spades, clubs, cards[2].clone(), hearts]
}

/// The cost of giving up `d` from the suits (spades, clubs, diamonds in passing
/// order, hearts), as `split_cost` states it.
fn split_key(
    player_state: &ExtendedPlayerState,
    spades: &Vec<Card>,
    clubs: &Vec<Card>,
    diamonds: &Vec<Card>,
    hearts: &Vec<Card>,
    d: [usize; 4],
    spade_card: Card,
    club_card: Card,
    heart_card: Card,
    rng: &mut StdRng,
) -> (key: i64)
    requires
        spades@.len() <= 52 && clubs@.len() <= 52 && diamonds@.len() <= 52 && hearts@.len() <= 52,
        d@[0] <= spades@.len() && d@[1] <= clubs@.len() && d@[2] <= diamonds@.len() && d@[3] <= hearts@.len(),
        spade_card == spade_ghost(spades@),
        club_card == Card(rank_at(top_gap(clubs@, 12)), Suit::Clubs),
        heart_card == Card(rank_at(top_gap(hearts@, 12)), Suit::Hearts),
    ensures
        split_cost(*player_state, seq![spades@, clubs@, diamonds@, hearts@], opt_seq(d), key as int),
        -500_000 <= key <= 500_000,
{
    let kept = [
        take_first(spades, spades.len() - d[0]),
        take_first(clubs, clubs.len() - d[1]),
        take_first(diamonds, diamonds.len() - d[2]),
        take_first(hearts, hearts.len() - d[3]),
    ];
    let ghosted = add_ghost_cards(&kept, spade_card, club_card, heart_card);
    let with_ghosts = EvalStateV1::evaluate_state(&player_state.state, &ghosted, rng);
    let plain = EvalStateV1::evaluate_state(&player_state.state, &kept, rng);
    let ghost suits = seq![spades@, clubs@, diamonds@, hearts@];
    let ghost dd = opt_seq(d);
    assert(suits_of(kept) =~= kept_by(suits, dd));
    assert(suits_of(ghosted) =~= ghosted_by(suits, dd));
    with_ghosts + 4 * plain
}

/// The way of least cost among all that fit is the one at `best_k`.
proof fn lemma_cheapest(
    ps: ExtendedPlayerState,
    suits: Seq<Seq<Card>>,
    options: Seq<[usize; 4]>,
    counts: [usize; 4],
    keys: Seq<int>,
    best_k: int,
    best_key: int,
)
    requires
        options.len() == 16,
        suits.len() == 4,
        keys.len() == 16,
        0 <= best_k < 16,
        keys[best_k] == best_key,
        counts@[0] as int == suits[0].len() && counts@[1] as int == suits[1].len() && counts@[2] as int == suits[2].len()
            && counts@[3] as int == suits[3].len(),
        forall|a: int, b: int, c: int|
            0 <= a < 3 && 0 <= b < 3 && 0 <= c < 3 && 0 <= 3 - a - b - c < 3 ==> #[trigger] options[split_index(a, b, c)]@
                == seq![a as usize, b as usize, c as usize, (3 - a - b - c) as usize],
        forall|k: int| 0 <= k < 16 ==> split_index((#[trigger] options[k])@[0] as int, options[k]@[1] as int, options[k]@[2] as int) == k,
        forall|k: int| 0 <= k < 16 && fits(#[trigger] options[k], counts) ==> split_cost(ps, suits, opt_seq(options[k]), keys[k]),
        forall|k: int| 0 <= k < 16 && fits(#[trigger] options[k], counts) ==> best_key <= keys[k],
    ensures
        cheapest(ps, suits, opt_seq(options[best_k]), keys),
{
    let sc = seq![suits[0].len() as int, suits[1].len() as int, suits[2].len() as int, suits[3].len() as int];
    let d = opt_seq(options[best_k]);
    assert(split_index(d[0], d[1], d[2]) == best_k);
    assert forall|a: int, b: int, c: int, e: int| #[trigger] split_ok(sc, a, b, c, e) implies split_cost(
        ps,
        suits,
        seq![a, b, c, e],
        keys[split_index(a, b, c)],
    ) && keys[split_index(d[0], d[1], d[2])] <= keys[split_index(a, b, c)] by {
        let k = split_index(a, b, c);
        assert(options[k]@ == seq![a as usize, b as usize, c as usize, (3 - a - b - c) as usize]);
        assert(opt_seq(options[k]) =~= seq![a, b, c, e]);
        assert(fits(options[k], counts));
    }
}

/// The three cards to pass: among the ways to give up the highest one or two
/// cards of some suits (three in all), the one whose remaining hand is cheapest,
/// weighing four to one the hand as it stands and the hand with the highest
/// missing spade, club and heart added back. Hearts keep their hand order.
/// The cards passed are the top cards given up, suit by suit; none if no way
/// fits the hand.
#[verifier::rlimit(100)]
pub fn choose_three_to_pass(player_state: &ExtendedPlayerState, rng: &mut StdRng) -> (r: Vec<Card>)
    requires
        player_state.state.basic.cards@.len() <= 52,
    ensures
        forall|i: int| 0 <= i < r@.len() ==> player_state.state.basic.cards@.contains(#[trigger] r@[i]),
        r@.len() == 0 || r@.len() == 3,
        r@.len() == 3 ==> exists|suits: Seq<Seq<Card>>, d: Seq<int>, keys: Seq<int>|
            pass_split(player_state.state.basic.cards@, suits, d) && r@ == passed_by(suits, d) && cheapest(
                *player_state,
                suits,
                d,
                keys,
            ),
        (exists|a: int, b: int, c: int, e: int| #[trigger] split_ok(suit_counts(player_state.state.basic.cards@), a, b, c, e))
            ==> r@.len() == 3,
{
    let cards = &player_state.state.basic.cards;
    let groups = group_by_suit(cards, None);
    let spades = sort_for_pass(&groups[0]);
    let clubs = sort_for_pass(&groups[1]);
    let diamonds = sort_for_pass(&groups[2]);
    let hearts = &groups[3];
    let counts = [spades.len(), clubs.len(), diamonds.len(), hearts.len()];
    let spade_card = if Hand::contains_card(&spades, Card(Rank::Queen, Suit::Spades)) {
        Card(Rank::from_index(top_gap_of(&spades) as u8), Suit::Spades)
    } else {
        Card(Rank::Queen, Suit::Spades)
    };
    let club_card = Card(Rank::from_index(top_gap_of(&clubs) as u8), Suit::Clubs);
    let heart_card = Card(Rank::from_index(top_gap_of(hearts) as u8), Suit::Hearts);
    let options = divide_three();
    let ghost suits = seq![spades@, clubs@, diamonds@, hearts@];
    let ghost mut keys: Seq<int> = Seq::new(16, |k: int| 0);
    let ghost mut best_k: int = 0;
    assert(spade_card == spade_ghost(suits[0]));
    let mut best: Option<[usize; 4]> = None;
    let mut best_key: i64 = 0;
    let mut i: usize = 0;
    while i < options.len()
        invariant
            i <= options@.len() == 16,
            counts@[0] == spades@.len() && counts@[1] == clubs@.len() && counts@[2] == diamonds@.len() && counts@[3] == hearts@.len(),
            spades@.len() <= 52 && clubs@.len() <= 52 && diamonds@.len() <= 52 && hearts@.len() <= 52,
            forall|k: int|
                0 <= k < 16 ==> (#[trigger] options@[k])@[0] + options@[k]@[1] + options@[k]@[2] + options@[k]@[3] == 3
                    && options@[k]@[0] < 3 && options@[k]@[1] < 3 && options@[k]@[2] < 3 && options@[k]@[3] < 3,
            best is Some ==> fits(best->0, counts),
            forall|k: int| 0 <= k < i && fits(options@[k], counts) ==> best is Some,
            suits == seq![spades@, clubs@, diamonds@, hearts@],
            forall|a: int, b: int, c: int|
                0 <= a < 3 && 0 <= b < 3 && 0 <= c < 3 && 0 <= 3 - a - b - c < 3 ==> #[trigger] options@[split_index(a, b, c)]@
                    == seq![a as usize, b as usize, c as usize, (3 - a - b - c) as usize],
            forall|k: int| 0 <= k < 16 ==> split_index((#[trigger] options@[k])@[0] as int, options@[k]@[1] as int, options@[k]@[2] as int) == k,
            spade_card == spade_ghost(suits[0]),
            club_card == Card(rank_at(top_gap(suits[1], 12)), Suit::Clubs),
            heart_card == Card(rank_at(top_gap(suits[3], 12)), Suit::Hearts),
            keys.len() == 16,
            forall|k: int|
                0 <= k < i && fits(#[trigger] options@[k], counts) ==> split_cost(*player_state, suits, opt_seq(options@[k]), keys[k]),
            best is Some ==> 0 <= best_k < i && options@[best_k] == best->0 && keys[best_k] == best_key,
            forall|k: int| 0 <= k < i && fits(#[trigger] options@[k], counts) ==> best_key <= keys[k],
        decreases options@.len() - i,
    {
        let d = options[i];
        if d[0] <= counts[0] && d[1] <= counts[1] && d[2] <= counts[2] && d[3] <= counts[3] {
            let key = split_key(player_state, &spades, &clubs, &diamonds, hearts, d, spade_card, club_card, heart_card, rng);
            proof {
                keys = keys.update(i as int, key as int);
            }
            let better = match best {
                None => true,
                Some(_) => key < best_key,
            };
            if better {
                best = Some(d);
                best_key = key;
                proof {
                    best_k = i as int;
                }
            }
        }
        i = i + 1;
    }
    proof {
        let sc = suit_counts(cards@);
        assert(counts@[0] as int == sc[0] && counts@[1] as int == sc[1] && counts@[2] as int == sc[2] && counts@[3] as int == sc[3]);
        if exists|a: int, b: int, c: int, e: int| #[trigger] split_ok(sc, a, b, c, e) {
            let (a, b, c, e) = choose|a: int, b: int, c: int, e: int| #[trigger] split_ok(sc, a, b, c, e);
            let k = split_index(a, b, c);
            assert(options@[k]@ == seq![a as usize, b as usize, c as usize, (3 - a - b - c) as usize]);
            assert(fits(options@[k], counts));
        }
        if best is Some {
            lemma_cheapest(*player_state, suits, options@, counts, keys, best_k, best_key as int);
        }
    }
    match best {
        None => Vec::new(),
        Some(d) => {
            let mut result = take_last(&spades, d[0]);
            result.append(&mut take_last(&clubs, d[1]));
            result.append(&mut take_last(&diamonds, d[2]));
            result.append(&mut take_last(hearts, d[3]));
            proof {
                let suits = seq![spades@, clubs@, diamonds@, hearts@];
                let dd = seq![d@[0] as int, d@[1] as int, d@[2] as int, d@[3] as int];
                assert(suits[3] == cards@.filter(suit_but(Suit::Hearts, None)));
                assert(pass_split(cards@, suits, dd));
                assert(result@ =~= passed_by(suits, dd));
                lemma_passed_in_hand(cards@, suits, dd);
            }
            result
        },
    }
}

/// The `d` highest cards given up from each suit fit the suit counts.
pub open spec fn fits(d: [usize; 4], counts: [usize; 4]) -> bool {
    &&& d@[0] <= counts@[0] && d@[1] <= counts@[1] && d@[2] <= counts@[2] && d@[3] <= counts@[3]
    &&& d@[0] < 3 && d@[1] < 3 && d@[2] < 3 && d@[3] < 3
    &&& d@[0] + d@[1] + d@[2] + d@[3] == 3
}

/// The last `n` cards of `s`.
pub open spec fn suffix(s: Seq<Card>, n: int) -> Seq<Card> {
    s.subrange(s.len() - n, s.len() as int)
}

/// The cards given up: the last `d[s]` cards of each suit `suits[s]`.
pub open spec fn passed_by(suits: Seq<Seq<Card>>, d: Seq<int>) -> Seq<Card> {
    suffix(suits[0], d[0]) + suffix(suits[1], d[1]) + suffix(suits[2], d[2]) + suffix(suits[3], d[3])
}

/// `s` is in passing order.
pub open spec fn sorted_for_pass(s: Seq<Card>) -> bool {
    forall|i: int, j: int| 0 <= i < j < s.len() ==> pass_key(s[i]) <= pass_key(s[j])
}

/// `suits` is `cards` split by suit, spades, clubs and diamonds in passing order
/// and hearts in hand order, and `d` gives up three cards, at most two of a
/// suit, from the top of the suits.
pub open spec fn pass_split(cards: Seq<Card>, suits: Seq<Seq<Card>>, d: Seq<int>) -> bool {
    &&& suits.len() == 4 && d.len() == 4
    &&& suits[0].to_multiset() == cards.filter(suit_but(Suit::Spades, None)).to_multiset() && sorted_for_pass(suits[0])
    &&& suits[1].to_multiset() == cards.filter(suit_but(Suit::Clubs, None)).to_multiset() && sorted_for_pass(suits[1])
    &&& suits[2].to_multiset() == cards.filter(suit_but(Suit::Diamonds, None)).to_multiset() && sorted_for_pass(suits[2])
    &&& suits[3] == cards.filter(suit_but(Suit::Hearts, None))
    &&& forall|k: int| 0 <= k < 4 ==> 0 <= #[trigger] d[k] <= suits[k].len() && d[k] < 3
    &&& d[0] + d[1] + d[2] + d[3] == 3
}

/// Every card given up by a split of `cards` is one of `cards`.
pub proof fn lemma_passed_in_hand(cards: Seq<Card>, suits: Seq<Seq<Card>>, d: Seq<int>)
    requires
        pass_split(cards, suits, d),
    ensures
        forall|i: int| 0 <= i < passed_by(suits, d).len() ==> cards.contains(#[trigger] passed_by(suits, d)[i]),
        passed_by(suits, d).len() == 3,
{
    broadcast use vstd::seq_lib::group_to_multiset_ensures;
    let p = passed_by(suits, d);
    assert forall|i: int| 0 <= i < p.len() implies cards.contains(#[trigger] p[i]) by {
        let x = p[i];
        let k: int = if i < d[0] { 0 } else if i < d[0] + d[1] { 1 } else if i < d[0] + d[1] + d[2] { 2 } else { 3 };
        let j: int = if k == 0 { i } else if k == 1 { i - d[0] } else if k == 2 { i - d[0] - d[1] } else { i - d[0] - d[1] - d[2] };
        assert(x == suits[k][suits[k].len() - d[k] + j]);
        assert(suits[k].contains(x));
        let pred = suit_but(suit_at_pass(k), None);
        assert(suits[k].to_multiset().count(x) > 0);
        assert(cards.filter(pred).contains(x));
        cards.lemma_filter_contains_rev(pred, x);
    }
}

/// The suit of position `k` in a split.
pub open spec fn suit_at_pass(k: int) -> Suit {
    if k == 0 {
        Suit::Spades
    } else if k == 1 {
        Suit::Clubs
    } else if k == 2 {
        Suit::Diamonds
    } else {
        Suit::Hearts
    }
}

/// The last `n` cards of `cards`.
pub fn take_last(cards: &Vec<Card>, n: usize) -> (r: Vec<Card>)
    requires
        n <= cards@.len(),
    ensures
        r@ == suffix(cards@, n as int),
{
    let mut out: Vec<Card> = Vec::new();
    let start = cards.len() - n;
    let mut i: usize = start;
    while i < cards.len()
        invariant
            start <= i <= cards@.len(),
            start == cards@.len() - n,
            out@ == cards@.subrange(start as int, i as int),
        decreases cards@.len() - i,
    {
        out.push(cards[i]);
        i = i + 1;
        assert(out@ =~= cards@.subrange(start as int, i as int));
    }
    out
}

/// The greedy player.
pub struct ActorRuleV1 {
    pub dummy: Option<Card>,
    pub player_state: ExtendedPlayerState,
    pub rng: StdRng,
}

impl ActorRuleV1 {
    /// A player with an empty hand whose random choices follow `seed`.
    pub fn new(seed: u64) -> (r: Self)
        ensures
            r.dummy is None,
            r.player_state.wf(),
            r.player_state.state.basic.cards@.len() == 0,
    {
        Self { dummy: None, player_state: ExtendedPlayerState::default(), rng: seeded_rng(seed) }
    }

    /// The three cards to pass, by the hand evaluation; none if the hand is
    /// larger than a deck.
    pub fn choose_three_to_pass(&mut self) -> (r: Vec<Card>)
        ensures
            forall|i: int| 0 <= i < r@.len() ==> old(self).player_state.state.basic.cards@.contains(#[trigger] r@[i]),
            final(self).player_state == old(self).player_state,
            r@.len() == 0 || r@.len() == 3,
            r@.len() == 3 ==> exists|suits: Seq<Seq<Card>>, d: Seq<int>, keys: Seq<int>|
                crate::rule::pass_split(old(self).player_state.state.basic.cards@, suits, d) && r@ == crate::rule::passed_by(suits, d)
                    && crate::rule::cheapest(old(self).player_state, suits, d, keys),
            old(self).player_state.state.basic.cards@.len() <= 52 && (exists|a: int, b: int, c: int, e: int|
                #[trigger] crate::rule::split_ok(crate::rule::suit_counts(old(self).player_state.state.basic.cards@), a, b, c, e))
                ==> r@.len() == 3,
    {
        if self.player_state.state.basic.cards.len() > 52 {
            return Vec::new();
        }
        choose_three_to_pass(&self.player_state, &mut self.rng)
    }

    /// The card of least expected cost among those this player may play onto
    /// `played_moves`: the cost of the trick plus that of the hand left over;
    /// the first such card among equals. `None` if no card may be played.
    pub fn best_card(&mut self, played_moves: &Vec<Move>) -> (r: Option<Card>)
        requires
            old(self).player_state.state.basic.pidx < 4,
            old(self).player_state.state.basic.cards@.len() <= 52,
            played_moves@.len() <= 52,
        ensures
            final(self).player_state == old(self).player_state,
            final(self).dummy == old(self).dummy,
            r is None <==> allowed(
                old(self).player_state.state.basic.cards@,
                played_moves@,
                old(self).player_state.state.basic.first_round,
                old(self).player_state.state.basic.hearts_played,
            ).len() == 0,
            r is Some ==> allowed(
                old(self).player_state.state.basic.cards@,
                played_moves@,
                old(self).player_state.state.basic.first_round,
                old(self).player_state.state.basic.hearts_played,
            ).contains(r->0),
            r is Some ==> exists|costs: Seq<int>, k: int|
                least_cost(old(self).player_state, played_moves@, costs, k) && r->0 == allowed(
                    old(self).player_state.state.basic.cards@,
                    played_moves@,
                    old(self).player_state.state.basic.first_round,
                    old(self).player_state.state.basic.hearts_played,
                )[k],
    {
        let basic = &self.player_state.state.basic;
        let possible = allowed_cards(&basic.cards, played_moves, basic.first_round, basic.hearts_played);
        let ghost ps = self.player_state;
        let ghost mut costs: Seq<int> = Seq::empty();
        let ghost mut k: int = 0;
        let mut best: Option<Card> = None;
        let mut best_value: i64 = 0;
        let mut i: usize = 0;
        while i < possible.len()
            invariant
                i <= possible@.len(),
                self.player_state.state.basic.pidx < 4,
                self.player_state.state.basic.cards@.len() <= 52,
                played_moves@.len() <= 52,
                self.player_state == old(self).player_state,
                self.dummy == old(self).dummy,
                i == 0 <==> best is None,
                best is Some ==> possible@.contains(best->0),
                ps == old(self).player_state,
                possible@ == allowed(ps.state.basic.cards@, played_moves@, ps.state.basic.first_round, ps.state.basic.hearts_played),
                costs.len() == i,
                forall|j: int| 0 <= j < i ==> #[trigger] card_cost(ps, played_moves@, possible@[j], costs[j]),
                i > 0 ==> 0 <= k < i && best == Some(possible@[k]) && best_value == costs[k],
                forall|j: int| 0 <= j < i ==> costs[k] <= #[trigger] costs[j],
                forall|j: int| 0 <= j < k ==> costs[k] < #[trigger] costs[j],
            decreases possible@.len() - i,
        {
            let c = possible[i];
            let by_suit = group_by_suit(&self.player_state.state.basic.cards, Some(c));
            let trick = evaluate_round(&self.player_state, played_moves, c);
            let hand = EvalStateV1::evaluate_state(&self.player_state.state, &by_suit, &mut self.rng);
            let value = trick + hand;
            proof {
                assert(suits_of(by_suit) =~= hand_without(ps.state.basic.cards@, c));
                costs = costs.push(value as int);
            }
            let better = match best {
                None => true,
                Some(_) => value < best_value,
            };
            if better {
                best = Some(c);
                best_value = value;
                proof {
                    k = i as int;
                }
            }
            i = i + 1;
        }
        proof {
            if best is Some {
                assert(least_cost(ps, played_moves@, costs, k));
            }
        }
        best
    }
}

/// `r` is what the greedy player holding `ps` plays onto `moves`: the first
/// card of least cost among those it may play, or, with none to play (or a
/// state outside the evaluator's bounds), the two of clubs, which the judge
/// refuses.
pub open spec fn rule_choice(ps: ExtendedPlayerState, moves: Seq<Move>, r: Card) -> bool {
    let options = allowed(ps.state.basic.cards@, moves, ps.state.basic.first_round, ps.state.basic.hearts_played);
    let usable = ps.state.basic.pidx < 4 && ps.state.basic.cards@.len() <= 52 && moves.len() <= 52;
    if usable && options.len() > 0 {
        exists|costs: Seq<int>, k: int| least_cost(ps, moves, costs, k) && r == options[k]
    } else {
        r == Card(Rank::Two, Suit::Clubs)
    }
}

/// `cards` split by suit without the card `c`.
pub open spec fn hand_without(cards: Seq<Card>, c: Card) -> Seq<Seq<Card>> {
    seq![
        cards.filter(suit_but(Suit::Spades, Some(c))),
        cards.filter(suit_but(Suit::Clubs, Some(c))),
        cards.filter(suit_but(Suit::Diamonds, Some(c))),
        cards.filter(suit_but(Suit::Hearts, Some(c))),
    ]
}

/// `v` is a cost of playing `c` onto `moves` for the holder of `ps`: the
/// trick's expected cost plus the cost of the hand left over, with some draws
/// of the suits the tricks ask for.
pub open spec fn card_cost(ps: ExtendedPlayerState, moves: Seq<Move>, c: Card, v: int) -> bool {
    exists|d: Seq<usize>|
        d.len() == 13 && (forall|i: int| 0 <= i < 13 ==> #[trigger] d[i] < 4) && v == round_value(
            ps.state.basic.pidx as int,
            Seq::new(4, |i: int| ps.state.still_has@[i]@),
            Seq::new(4, |i: int| ps.opponent_cards_in_game@[i]@),
            moves,
            c,
        ) + state_value(table_of(ps.state.cards_in_game), hand_without(ps.state.basic.cards@, c), draws_of(d))
}

/// `costs` are costs of the cards the holder of `ps` may play onto `moves`, one
/// each, and position `k` is the first of the least.
pub open spec fn least_cost(ps: ExtendedPlayerState, moves: Seq<Move>, costs: Seq<int>, k: int) -> bool {
    let options = allowed(ps.state.basic.cards@, moves, ps.state.basic.first_round, ps.state.basic.hearts_played);
    &&& costs.len() == options.len()
    &&& 0 <= k < costs.len()
    &&& forall|j: int| 0 <= j < costs.len() ==> #[trigger] card_cost(ps, moves, options[j], costs[j])
    &&& forall|j: int| 0 <= j < costs.len() ==> costs[k] <= #[trigger] costs[j]
    &&& forall|j: int| 0 <= j < k ==> costs[k] < #[trigger] costs[j]
}

impl Actor for ActorRuleV1 {
    fn initialize(&mut self, pidx: usize, cards: &Vec<Card>) {
        self.player_state.set_cards(cards.clone());
        self.player_state.set_pidx(pidx);
    }

    fn play_card(&mut self, played_moves: &Vec<Move>) -> (r: Card)
        ensures
            old(self).dummy is Some ==> r == old(self).dummy->0,
            final(self).dummy is None,
            final(self).player_state.state.basic.cards@ == without(old(self).player_state.state.basic.cards@, r),
            old(self).dummy is None ==> exists|mid: ExtendedPlayerState|
                crate::belief::seen_play(old(self).player_state.state, mid.state, played_moves@) && rule_choice(
                    mid,
                    played_moves@,
                    r,
                ),
    {
        self.player_state.update_play_card(played_moves);
        let ghost mid = self.player_state;
        let card = match self.dummy {
            Some(card) => {
                self.dummy = None;
                card
            },
            None => {
                let usable = self.player_state.state.basic.pidx < 4 && self.player_state.state.basic.cards.len()
                    <= 52 && played_moves.len() <= 52;
                let chosen = if usable {
                    self.best_card(played_moves)
                } else {
                    None
                };
                let c = match chosen {
                    Some(c) => c,
                    None => Card(Rank::Two, Suit::Clubs),
                };
                assert(rule_choice(mid, played_moves@, c));
                c
            },
        };
        self.player_state.update_did_play_card(&card);
        card
    }

    fn end_round(&mut self, winner_pidx: usize, played_moves: &Vec<Move>) {
        if played_moves.len() <= 52 {
            self.player_state.update_end_round(played_moves, winner_pidx);
        }
    }

    fn end_game(&mut self, _score: [isize; 4]) {
    }

    fn get_pass(&mut self, direction: PassDirection) -> (r: Vec<Card>)
        ensures
            direction == PassDirection::NoPass ==> r@.len() == 0,
            r@.len() <= 3,
            forall|i: int| 0 <= i < r@.len() ==> old(self).player_state.state.basic.cards@.contains(#[trigger] r@[i]),
    {
        if direction == PassDirection::NoPass {
            return Vec::new();
        }
        let passed = self.choose_three_to_pass();
        let mut i: usize = 0;
        while i < passed.len()
            invariant
                i <= passed@.len(),
            decreases passed@.len() - i,
        {
            self.player_state.update_did_play_card(&passed[i]);
            i = i + 1;
        }
        passed
    }

    fn end_pass(&mut self, passed_cards: &Vec<Card>) {
        self.player_state.update_end_pass(passed_cards);
    }
}

impl MediasResActor for ActorRuleV1 {
    fn new_from_player_state(player_state: &DefaultPlayerState, rng: &mut StdRng) -> Self {
        ActorRuleV1 {
            dummy: None,
            player_state: ExtendedPlayerState::from_state(player_state.clone()),
            rng: seeded_rng(next_seed(rng)),
        }
    }

    fn add_dummy(&mut self, card: Card) {
        self.dummy = Some(card);
    }

    fn played_for(&mut self, played_moves: &Vec<Move>, card: Card) {
        self.player_state.update_play_card(played_moves);
        self.player_state.update_did_play_card(&card);
    }
}

/// The greedy player under its other name.
pub type RuleActorV1 = ActorRuleV1;

} // verus!
