//! The heuristic cost of a hand, in hundredths of a point: per suit, the tricks
//! the held ranks are likely to win against the ranks still in play, the danger
//! of the queen of spades, the value of the jack of diamonds, and a simulation of
//! running out of suits during the 13 tricks. Lower is better.
use vstd::prelude::*;
use rand::rngs::StdRng;
use crate::cards::{Card, Hand, Rank, Suit, rank_index};
use crate::random::below;
use crate::belief::DefaultPlayerState;

verus! {

/// Rank indices of the cards of `cards`.
pub open spec fn ranks_of(cards: Seq<Card>) -> Seq<int> {
    Seq::new(cards.len(), |i: int| rank_index(cards[i].0) as int)
}

/// The ranks (as indices, ascending) still in play in a suit, from its row of the
/// unseen-card table.
pub open spec fn ranks_in_play(row: Seq<bool>) -> Seq<int>
    decreases row.len(),
{
    if row.len() == 0 {
        Seq::empty()
    } else if row.last() {
        ranks_in_play(row.drop_last()).push(row.len() - 1)
    } else {
        ranks_in_play(row.drop_last())
    }
}

/// Tricks won when each held rank in turn meets the ranks in play: a held rank at
/// least the fourth-lowest in play wins and takes the four lowest; otherwise it
/// loses, taking the lowest and the two highest.
pub open spec fn wins_of(ranks: Seq<int>, all: Seq<int>) -> nat
    decreases ranks.len(),
{
    if ranks.len() == 0 || all.len() < ranks.len() + 3 {
        0
    } else if ranks[0] >= all[3] {
        1 + wins_of(ranks.drop_first(), all.subrange(4, all.len() as int))
    } else {
        wins_of(ranks.drop_first(), all.subrange(1, all.len() - 2))
    }
}

/// The tricks a suit's held ranks win, none if they are all that is in play.
pub open spec fn eval_ranks_spec(ranks: Seq<int>, all: Seq<int>) -> nat {
    if ranks.len() == all.len() {
        0
    } else {
        wins_of(ranks, all)
    }
}

pub fn ranks_vec(cards: &Vec<Card>) -> (r: Vec<usize>)
    ensures
        r@.len() == cards@.len(),
        forall|i: int| 0 <= i < r@.len() ==> r@[i] as int == #[trigger] ranks_of(cards@)[i],
{
    let mut out: Vec<usize> = Vec::new();
    let mut i: usize = 0;
    while i < cards.len()
        invariant
            i <= cards@.len(),
            out@.len() == i,
            forall|k: int| 0 <= k < i ==> out@[k] as int == #[trigger] ranks_of(cards@)[k],
        decreases cards@.len() - i,
    {
        out.push(cards[i].0.to_index());
        i = i + 1;
    }
    out
}

pub open spec fn view_ranks(v: Seq<usize>) -> Seq<int> {
    Seq::new(v.len(), |i: int| v[i] as int)
}

/// The ranks still in play in one suit's row.
pub fn ranks_in_play_vec(row: &[bool; 13]) -> (r: Vec<usize>)
    ensures
        view_ranks(r@) == ranks_in_play(row@),
        forall|i: int| 0 <= i < r@.len() ==> r@[i] < 13,
        r@.len() <= 13,
{
    let mut out: Vec<usize> = Vec::new();
    let mut i: usize = 0;
    while i < 13
        invariant
            i <= 13,
            view_ranks(out@) == ranks_in_play(row@.subrange(0, i as int)),
            forall|k: int| 0 <= k < out@.len() ==> out@[k] < i,
            out@.len() <= i,
        decreases 13 - i,
    {
        let ghost before = out@;
        assert(row@.subrange(0, i as int + 1).drop_last() == row@.subrange(0, i as int));
        if row[i] {
            out.push(i);
            assert(view_ranks(out@) =~= view_ranks(before).push(i as int));
        }
        i = i + 1;
    }
    assert(row@.subrange(0, 13) == row@);
    out
}

/// The tricks that `ranks` win against `all`, as `eval_ranks_spec` states.
pub fn eval_ranks(ranks: &Vec<usize>, all: &Vec<usize>) -> (r: u64)
    ensures
        r == eval_ranks_spec(view_ranks(ranks@), view_ranks(all@)),
        r <= ranks@.len(),
{
    if ranks.len() == all.len() {
        return 0;
    }
    let ghost rs = view_ranks(ranks@);
    let ghost al = view_ranks(all@);
    let mut wins: u64 = 0;
    let mut i: usize = 0;
    let mut lo: usize = 0;
    let mut hi: usize = all.len();
    proof {
        assert(rs.subrange(0, rs.len() as int) =~= rs);
        assert(al.subrange(0, al.len() as int) =~= al);
    }
    while i < ranks.len() && hi - lo >= 3 && hi - lo - 3 >= ranks.len() - i
        invariant
            i <= ranks@.len(),
            lo <= hi <= all@.len(),
            wins <= i,
            wins + wins_of(rs.subrange(i as int, rs.len() as int), al.subrange(lo as int, hi as int)) == wins_of(rs, al),
            rs == view_ranks(ranks@),
            al == view_ranks(all@),
        decreases ranks@.len() - i,
    {
        let ghost rest = rs.subrange(i as int, rs.len() as int);
        let ghost window = al.subrange(lo as int, hi as int);
        assert(rest.drop_first() =~= rs.subrange(i as int + 1, rs.len() as int));
        if ranks[i] >= all[lo + 3] {
            assert(window.subrange(4, window.len() as int) =~= al.subrange(lo as int + 4, hi as int));
            wins = wins + 1;
            lo = lo + 4;
        } else {
            assert(window.subrange(1, window.len() - 2) =~= al.subrange(lo as int + 1, hi as int - 2));
            lo = lo + 1;
            hi = hi - 2;
        }
        i = i + 1;
    }
    proof {
        let rest = rs.subrange(i as int, rs.len() as int);
        let window = al.subrange(lo as int, hi as int);
        assert(rest.len() == 0 || window.len() < rest.len() + 3);
        assert(rs.subrange(0, rs.len() as int) =~= rs);
        assert(al.subrange(0, al.len() as int) =~= al);
    }
    wins
}

/// Number of entries of `s` below `k`.
pub open spec fn count_below(s: Seq<int>, k: int) -> nat
    decreases s.len(),
{
    if s.len() == 0 {
        0
    } else {
        count_below(s.drop_last(), k) + if s.last() < k { 1nat } else { 0 }
    }
}

/// Number of entries of `s` above `k`.
pub open spec fn count_above(s: Seq<int>, k: int) -> nat
    decreases s.len(),
{
    if s.len() == 0 {
        0
    } else {
        count_above(s.drop_last(), k) + if s.last() > k { 1nat } else { 0 }
    }
}

pub fn count_ranks_below(s: &Vec<usize>, k: usize) -> (r: u64)
    ensures
        r == count_below(view_ranks(s@), k as int),
        r <= s@.len(),
{
    let mut n: u64 = 0;
    let mut i: usize = 0;
    while i < s.len()
        invariant
            i <= s@.len(),
            n <= i,
            n == count_below(view_ranks(s@.subrange(0, i as int)), k as int),
        decreases s@.len() - i,
    {
        assert(view_ranks(s@.subrange(0, i as int + 1)).drop_last() =~= view_ranks(s@.subrange(0, i as int)));
        if s[i] < k {
            n = n + 1;
        }
        i = i + 1;
    }
    assert(s@.subrange(0, s@.len() as int) == s@);
    n
}

pub fn count_ranks_above(s: &Vec<usize>, k: usize) -> (r: u64)
    ensures
        r == count_above(view_ranks(s@), k as int),
        r <= s@.len(),
{
    let mut n: u64 = 0;
    let mut i: usize = 0;
    while i < s.len()
        invariant
            i <= s@.len(),
            n <= i,
            n == count_above(view_ranks(s@.subrange(0, i as int)), k as int),
        decreases s@.len() - i,
    {
        assert(view_ranks(s@.subrange(0, i as int + 1)).drop_last() =~= view_ranks(s@.subrange(0, i as int)));
        if s[i] > k {
            n = n + 1;
        }
        i = i + 1;
    }
    assert(s@.subrange(0, s@.len() as int) == s@);
    n
}

pub fn has_rank(s: &Vec<usize>, k: usize) -> (r: bool)
    ensures
        r == view_ranks(s@).contains(k as int),
{
    let mut i: usize = 0;
    while i < s.len()
        invariant
            i <= s@.len(),
            forall|j: int| 0 <= j < i ==> s@[j] != k,
        decreases s@.len() - i,
    {
        if s[i] == k {
            assert(view_ranks(s@)[i as int] == k as int);
            return true;
        }
        i = i + 1;
    }
    assert(!view_ranks(s@).contains(k as int)) by {
        if view_ranks(s@).contains(k as int) {
            let j = choose|j: int| 0 <= j < view_ranks(s@).len() && view_ranks(s@)[j] == k as int;
            assert(s@[j] == k);
        }
    }
    false
}

/// `a - b`, or 0 if `b` is larger.
pub open spec fn sat_sub(a: int, b: int) -> int {
    if a > b {
        a - b
    } else {
        0
    }
}

/// The value of the jack of diamonds to a holder of `ranks` (diamonds) with `all`
/// in play, in points (negative is good): by how many higher diamonds are held,
/// whether the jack is held, and how many lower ones can be thrown under the
/// higher ones still out.
pub open spec fn jack_cost_spec(ranks: Seq<int>, all: Seq<int>) -> int {
    let small = count_below(ranks, 9) as int;
    let jack = ranks.contains(9);
    let big = count_above(ranks, 9) as int;
    let big_left = count_above(all, 9) as int;
    if !all.contains(9) {
        0
    } else if big == 0 {
        if jack {
            if small >= big_left { -8 } else { -sat_sub(8, 4 * (big_left - small)) }
        } else {
            0
        }
    } else if big == 1 {
        if jack {
            if small >= big_left - 1 { -8 } else { -sat_sub(8, 2 * (big_left - small - 1)) }
        } else {
            if small >= big_left - 1 { -3 } else { -sat_sub(3, big_left - small - 1) }
        }
    } else {
        if jack {
            -8
        } else {
            if small >= big_left - big { -5 } else { -sat_sub(5, 2 * (big_left - small - big)) }
        }
    }
}

fn sat_sub_i(a: i64, b: i64) -> (r: i64)
    requires
        -1000 <= a <= 1000,
        -1000 <= b <= 1000,
    ensures
        r == sat_sub(a as int, b as int),
        0 <= r <= 2000,
{
    if a > b {
        a - b
    } else {
        0
    }
}

pub fn jack_of_diamonds_cost(ranks: &Vec<usize>, all: &Vec<usize>) -> (r: i64)
    requires
        ranks@.len() <= 100,
        all@.len() <= 100,
    ensures
        r == jack_cost_spec(view_ranks(ranks@), view_ranks(all@)),
        -8 <= r <= 0,
{
    let small = count_ranks_below(ranks, 9) as i64;
    let jack = has_rank(ranks, 9);
    let big = count_ranks_above(ranks, 9) as i64;
    let jack_left = has_rank(all, 9);
    let big_left = count_ranks_above(all, 9) as i64;
    if !jack_left {
        0
    } else if big == 0 {
        if jack {
            if small >= big_left { -8 } else { -sat_sub_i(8, 4 * (big_left - small)) }
        } else {
            0
        }
    } else if big == 1 {
        if jack {
            if small >= big_left - 1 { -8 } else { -sat_sub_i(8, 2 * (big_left - small - 1)) }
        } else {
            if small >= big_left - 1 { -3 } else { -sat_sub_i(3, big_left - small - 1) }
        }
    } else {
        if jack {
            -8
        } else {
            if small >= big_left - big { -5 } else { -sat_sub_i(5, 2 * (big_left - small - big)) }
        }
    }
}

/// The cost of the spades held (`cards`), in hundredths of a point, with the
/// gains of throwing them away when out of another suit, already weighted by 4/5,
/// in the order they are used.
pub open spec fn spades_spec(cards: Seq<Card>) -> (int, Seq<int>) {
    let ranks = ranks_of(cards);
    let queen = cards.contains(Card(Rank::Queen, Suit::Spades));
    let big = count_above(ranks, 10) as int;
    let small = count_below(ranks, 10) as int;
    if cards.len() == 0 {
        (0, Seq::empty())
    } else if queen {
        if cards.len() == 1 {
            (900, seq![-720])
        } else if cards.len() == 2 {
            if big > 0 { (800, seq![-400, -240]) } else { (700, seq![-560]) }
        } else if cards.len() == 3 {
            (500, seq![if small > 0 { -400 } else { -240 }])
        } else if cards.len() == 4 {
            (200, seq![-80])
        } else {
            (0, Seq::empty())
        }
    } else if big == 0 {
        (0, Seq::empty())
    } else if big == 1 {
        (100 * sat_sub(5, small), seq![-80 * sat_sub(5, small)])
    } else {
        (100 * sat_sub(7, 2 * small), seq![-40 * sat_sub(7, 2 * small), -40 * sat_sub(7, 2 * small)])
    }
}

pub fn eval_state_spades(cards: &Vec<Card>) -> (r: (i64, Vec<i64>))
    requires
        cards@.len() <= 100,
    ensures
        (r.0 as int, Seq::new(r.1@.len(), |i: int| r.1@[i] as int)) == spades_spec(cards@),
        0 <= r.0 <= 1000,
        r.1@.len() <= 2,
        forall|i: int| 0 <= i < r.1@.len() ==> -1000 <= #[trigger] r.1@[i] <= 0,
{
    if cards.len() == 0 {
        let e: Vec<i64> = Vec::new();
        assert(Seq::new(e@.len(), |i: int| e@[i] as int) =~= Seq::<int>::empty());
        return (0, e);
    }
    let ranks = ranks_vec(cards);
    proof {
        assert(view_ranks(ranks@) =~= ranks_of(cards@));
    }
    let queen = Hand::contains_card(cards, Card(Rank::Queen, Suit::Spades));
    let big = count_ranks_above(&ranks, 10) as i64;
    let small = count_ranks_below(&ranks, 10) as i64;
    let (cost, empties): (i64, Vec<i64>) = if queen {
        if cards.len() == 1 {
            (900, vec![-720])
        } else if cards.len() == 2 {
            if big > 0 { (800, vec![-400, -240]) } else { (700, vec![-560]) }
        } else if cards.len() == 3 {
            (500, vec![if small > 0 { -400 } else { -240 }])
        } else if cards.len() == 4 {
            (200, vec![-80])
        } else {
            (0, Vec::new())
        }
    } else if big == 0 {
        (0, Vec::new())
    } else if big == 1 {
        let c = sat_sub_i(5, small);
        let e: i64 = 0 - 80 * c;
        (100 * c, vec![e])
    } else {
        let c = sat_sub_i(7, 2 * small);
        let e: i64 = 0 - 40 * c;
        (100 * c, vec![e, e])
    };
    assert(Seq::new(empties@.len(), |i: int| empties@[i] as int) =~= spades_spec(cards@).1);
    (cost, empties)
}

/// `all` after the two of clubs is set aside: the two is dropped, then, from the
/// twelfth rank in play downwards, up to three ranks not held are dropped.
pub open spec fn trim_clubs(all: Seq<int>, ranks: Seq<int>, ridx: int, counter: nat) -> Seq<int>
    decreases ridx + 1,
{
    if ridx < 0 || counter == 0 {
        all
    } else if ridx < all.len() && !ranks.contains(all[ridx]) {
        trim_clubs(all.remove(ridx), ranks, ridx - 1, (counter - 1) as nat)
    } else {
        trim_clubs(all, ranks, ridx - 1, counter)
    }
}

pub open spec fn not_two() -> spec_fn(Card) -> bool {
    |c: Card| c.0 != Rank::Two
}

/// The clubs in play that the clubs held (without the two) play against.
pub open spec fn clubs_field(cards: Seq<Card>, row: Seq<bool>) -> Seq<int> {
    let no_two = cards.filter(not_two());
    let all = ranks_in_play(row);
    if no_two.len() != cards.len() && all.len() > 0 {
        trim_clubs(all.drop_first(), ranks_of(no_two), 11, 3)
    } else {
        all
    }
}

/// The cost of the clubs held: the tricks they win, in hundredths of a point.
pub open spec fn clubs_spec(cards: Seq<Card>, row: Seq<bool>) -> int {
    if cards.len() == 0 {
        0
    } else {
        100 * eval_ranks_spec(ranks_of(cards.filter(not_two())), clubs_field(cards, row)) as int
    }
}

pub fn eval_state_clubs(cards: &Vec<Card>, row: &[bool; 13]) -> (r: i64)
    requires
        cards@.len() <= 100,
    ensures
        r == clubs_spec(cards@, row@),
        0 <= r <= 10000,
{
    if cards.len() == 0 {
        return 0;
    }
    let mut no_two: Vec<Card> = Vec::new();
    let mut i: usize = 0;
    while i < cards.len()
        invariant
            i <= cards@.len(),
            no_two@ == cards@.subrange(0, i as int).filter(not_two()),
        decreases cards@.len() - i,
    {
        proof {
            crate::rules::lemma_filter_step(cards@, i as int, not_two());
            assert(not_two()(cards@[i as int]) == (cards@[i as int].0 != Rank::Two));
        }
        if cards[i].0 != Rank::Two {
            no_two.push(cards[i]);
        }
        i = i + 1;
    }
    assert(cards@.subrange(0, cards@.len() as int) == cards@);
    let ranks = ranks_vec(&no_two);
    proof {
        assert(view_ranks(ranks@) =~= ranks_of(no_two@));
    }
    let mut all = ranks_in_play_vec(row);
    if no_two.len() != cards.len() && all.len() > 0 {
        let ghost full = view_ranks(all@);
        all.remove(0);
        assert(view_ranks(all@) =~= full.drop_first());
        let mut counter: u64 = 3;
        let mut ridx: usize = 12;
        while ridx > 0 && counter > 0
            invariant
                ridx <= 12,
                counter <= 3,
                all@.len() <= 13,
                trim_clubs(view_ranks(all@), view_ranks(ranks@), ridx - 1, counter as nat) == trim_clubs(
                    full.drop_first(),
                    view_ranks(ranks@),
                    11,
                    3,
                ),
            decreases ridx,
        {
            let k = ridx - 1;
            if k < all.len() && !has_rank(&ranks, all[k]) {
                let ghost before = view_ranks(all@);
                all.remove(k);
                assert(view_ranks(all@) =~= before.remove(k as int));
                counter = counter - 1;
            }
            ridx = k;
        }
    }
    assert(no_two@.len() <= cards@.len()) by {
        cards@.lemma_filter_len(not_two());
    }
    let wins = eval_ranks(&ranks, &all);
    100 * wins as i64
}

/// The cost of the diamonds held: tricks won and the jack of diamonds.
pub open spec fn diamonds_spec(cards: Seq<Card>, row: Seq<bool>) -> int {
    if cards.len() == 0 {
        0
    } else {
        100 * eval_ranks_spec(ranks_of(cards), ranks_in_play(row)) as int + 100 * jack_cost_spec(
            ranks_of(cards),
            ranks_in_play(row),
        )
    }
}

/// The cost of the hearts held: four points for each trick they win.
pub open spec fn hearts_spec(cards: Seq<Card>, row: Seq<bool>) -> int {
    if cards.len() == 0 {
        0
    } else {
        400 * eval_ranks_spec(ranks_of(cards), ranks_in_play(row)) as int
    }
}

pub fn eval_state_diamonds(cards: &Vec<Card>, row: &[bool; 13]) -> (r: i64)
    requires
        cards@.len() <= 100,
    ensures
        r == diamonds_spec(cards@, row@),
        -1000 <= r <= 10000,
{
    if cards.len() == 0 {
        return 0;
    }
    let ranks = ranks_vec(cards);
    assert(view_ranks(ranks@) =~= ranks_of(cards@));
    let all = ranks_in_play_vec(row);
    let wins = eval_ranks(&ranks, &all);
    let jack = jack_of_diamonds_cost(&ranks, &all);
    100 * wins as i64 + 100 * jack
}

pub fn eval_state_hearts(cards: &Vec<Card>, row: &[bool; 13]) -> (r: i64)
    requires
        cards@.len() <= 100,
    ensures
        r == hearts_spec(cards@, row@),
        0 <= r <= 40000,
{
    if cards.len() == 0 {
        return 0;
    }
    let ranks = ranks_vec(cards);
    assert(view_ranks(ranks@) =~= ranks_of(cards@));
    let all = ranks_in_play_vec(row);
    let wins = eval_ranks(&ranks, &all);
    400 * wins as i64
}

/// What running out of suits adds over the tricks `draws` (each draw the suit a
/// trick asks for): a trick in a suit still held uses one card of it; otherwise
/// the next throw-away gain in `gains` is taken and a spade is used.
pub open spec fn discard_gain(counts: Seq<int>, gains: Seq<int>, draws: Seq<int>) -> int
    decreases draws.len(),
{
    if draws.len() == 0 {
        0
    } else {
        let s = draws[0];
        if counts[s] > 0 {
            discard_gain(counts.update(s, counts[s] - 1), gains, draws.drop_first())
        } else if gains.len() > 0 {
            gains[0] + discard_gain(counts.update(0, sat_sub(counts[0], 1)), gains.drop_first(), draws.drop_first())
        } else {
            discard_gain(counts, gains, draws.drop_first())
        }
    }
}

/// Four fifths of `t`, rounded toward zero.
pub open spec fn four_fifths(t: int) -> int {
    if t >= 0 {
        (4 * t) / 5
    } else {
        -((4 * -t) / 5)
    }
}

pub open spec fn suit_lens(by_suit: Seq<Seq<Card>>) -> Seq<int> {
    Seq::new(4, |i: int| by_suit[i].len() as int)
}

/// The cost of holding `by_suit` (spades, clubs, diamonds, hearts) with the
/// unseen-card table `table`, when the tricks ask for the suits `draws`.
pub open spec fn state_value(table: Seq<Seq<bool>>, by_suit: Seq<Seq<Card>>, draws: Seq<int>) -> int {
    let (spades, gains) = spades_spec(by_suit[0]);
    let total = spades + clubs_spec(by_suit[1], table[1]) + diamonds_spec(by_suit[2], table[2]) + hearts_spec(
        by_suit[3],
        table[3],
    );
    four_fifths(total + discard_gain(suit_lens(by_suit), gains, draws))
}

pub open spec fn table_of(t: [[bool; 13]; 4]) -> Seq<Seq<bool>> {
    Seq::new(4, |i: int| t@[i]@)
}

pub open spec fn suits_of(b: [Vec<Card>; 4]) -> Seq<Seq<Card>> {
    Seq::new(4, |i: int| b@[i]@)
}

pub open spec fn draws_of(d: Seq<usize>) -> Seq<int> {
    Seq::new(d.len(), |i: int| d[i] as int)
}

pub proof fn lemma_discard_bound(counts: Seq<int>, gains: Seq<int>, draws: Seq<int>)
    requires
        counts.len() == 4,
        forall|i: int| 0 <= i < draws.len() ==> 0 <= #[trigger] draws[i] < 4,
        forall|i: int| 0 <= i < gains.len() ==> -1000 <= #[trigger] gains[i] <= 0,
    ensures
        -1000 * draws.len() <= discard_gain(counts, gains, draws) <= 0,
    decreases draws.len(),
{
    if draws.len() > 0 {
        let rest = draws.drop_first();
        assert forall|i: int| 0 <= i < rest.len() implies 0 <= #[trigger] rest[i] < 4 by {
            assert(rest[i] == draws[i + 1]);
        }
        let s = draws[0];
        if counts[s] > 0 {
            lemma_discard_bound(counts.update(s, counts[s] - 1), gains, rest);
        } else if gains.len() > 0 {
            let g = gains.drop_first();
            assert forall|i: int| 0 <= i < g.len() implies -1000 <= #[trigger] g[i] <= 0 by {
                assert(g[i] == gains[i + 1]);
            }
            lemma_discard_bound(counts.update(0, sat_sub(counts[0], 1)), g, rest);
        } else {
            lemma_discard_bound(counts, gains, rest);
        }
    }
}

/// The heuristic state evaluation.
pub struct EvalStateV1;

impl EvalStateV1 {
    /// The cost of holding `by_suit` when the tricks ask for the suits `draws`.
    pub fn evaluate_with_draws(
        cards_in_game: &[[bool; 13]; 4],
        by_suit: &[Vec<Card>; 4],
        draws: &Vec<usize>,
    ) -> (r: i64)
        requires
            forall|i: int| 0 <= i < 4 ==> (#[trigger] by_suit@[i])@.len() <= 100,
            forall|i: int| 0 <= i < draws@.len() ==> #[trigger] draws@[i] < 4,
            draws@.len() <= 13,
        ensures
            r == state_value(table_of(*cards_in_game), suits_of(*by_suit), draws_of(draws@)),
            -100_000 <= r <= 100_000,
    {
        let (spades, gains) = eval_state_spades(&by_suit[0]);
        let clubs = eval_state_clubs(&by_suit[1], &cards_in_game[1]);
        let diamonds = eval_state_diamonds(&by_suit[2], &cards_in_game[2]);
        let hearts = eval_state_hearts(&by_suit[3], &cards_in_game[3]);
        let ghost gains0 = Seq::new(gains@.len(), |i: int| gains@[i] as int);
        let ghost lens0 = suit_lens(suits_of(*by_suit));
        let ghost ds = draws_of(draws@);
        let mut counts: [u64; 4] = [
            by_suit[0].len() as u64,
            by_suit[1].len() as u64,
            by_suit[2].len() as u64,
            by_suit[3].len() as u64,
        ];
        assert(Seq::new(4, |i: int| counts@[i] as int) =~= lens0);
        assert(gains@.len() <= 2);
        assert forall|i: int| 0 <= i < gains0.len() implies -1000 <= #[trigger] gains0[i] <= 0 by {}
        let mut gain: i64 = 0;
        let mut next_gain: usize = 0;
        let mut k: usize = 0;
        proof {
            assert(ds.subrange(0, ds.len() as int) =~= ds);
            assert(gains0.subrange(0, gains0.len() as int) =~= gains0);
            lemma_discard_bound(lens0, gains0, ds);
        }
        while k < draws.len()
            invariant
                k <= draws@.len() <= 13,
                next_gain <= gains@.len() <= 2,
                forall|i: int| 0 <= i < draws@.len() ==> #[trigger] draws@[i] < 4,
                ds == draws_of(draws@),
                gains0 == Seq::new(gains@.len(), |i: int| gains@[i] as int),
                forall|i: int| 0 <= i < gains0.len() ==> -1000 <= #[trigger] gains0[i] <= 0,
                forall|i: int| 0 <= i < 4 ==> #[trigger] counts@[i] <= 100,
                -1000 * k <= gain <= 0,
                gain + discard_gain(
                    Seq::new(4, |i: int| counts@[i] as int),
                    gains0.subrange(next_gain as int, gains0.len() as int),
                    ds.subrange(k as int, ds.len() as int),
                ) == discard_gain(lens0, gains0, ds),
            decreases draws@.len() - k,
        {
            let ghost cs = Seq::new(4, |i: int| counts@[i] as int);
            let ghost gs = gains0.subrange(next_gain as int, gains0.len() as int);
            let ghost rest = ds.subrange(k as int, ds.len() as int);
            assert(rest.drop_first() =~= ds.subrange(k as int + 1, ds.len() as int));
            assert(rest[0] == draws@[k as int] as int);
            let s = draws[k];
            if counts[s] > 0 {
                counts[s] = counts[s] - 1;
                assert(Seq::new(4, |i: int| counts@[i] as int) =~= cs.update(s as int, cs[s as int] - 1));
            } else if next_gain < gains.len() {
                assert(gs[0] == gains@[next_gain as int] as int);
                assert(gs.drop_first() =~= gains0.subrange(next_gain as int + 1, gains0.len() as int));
                gain = gain + gains[next_gain];
                next_gain = next_gain + 1;
                counts[0] = if counts[0] > 0 { counts[0] - 1 } else { 0 };
                assert(Seq::new(4, |i: int| counts@[i] as int) =~= cs.update(0, sat_sub(cs[0], 1)));
            }
            k = k + 1;
        }
        proof {
            assert(ds.subrange(k as int, ds.len() as int) =~= Seq::<int>::empty());
        }
        let total = spades + clubs + diamonds + hearts + gain;
        if total >= 0 {
            (4 * total) / 5
        } else {
            0 - (4 * (0 - total)) / 5
        }
    }

    /// The cost of holding `by_suit`, with the suits the tricks ask for drawn
    /// at random.
    pub fn evaluate_state(player_state: &DefaultPlayerState, by_suit: &[Vec<Card>; 4], rng: &mut StdRng) -> (r: i64)
        requires
            forall|i: int| 0 <= i < 4 ==> (#[trigger] by_suit@[i])@.len() <= 100,
        ensures
            -100_000 <= r <= 100_000,
            exists|d: Seq<usize>|
                d.len() == 13 && (forall|i: int| 0 <= i < 13 ==> #[trigger] d[i] < 4) && r == state_value(
                    table_of(player_state.cards_in_game),
                    suits_of(*by_suit),
                    draws_of(d),
                ),
    {
        let mut draws: Vec<usize> = Vec::new();
        let mut k: usize = 0;
        while k < 13
            invariant
                k <= 13,
                draws@.len() == k,
                forall|i: int| 0 <= i < k ==> #[trigger] draws@[i] < 4,
            decreases 13 - k,
        {
            draws.push(below(rng, 4));
            k = k + 1;
        }
        Self::evaluate_with_draws(&player_state.cards_in_game, by_suit, &draws)
    }
}

} // verus!
