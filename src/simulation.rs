use vstd::prelude::*;

use crate::board::{cells_of, in_bounds, lemma_shot_keeps_cells, lemma_shot_settled, placement, shot, Board, Direction, Hit, Ship};
use crate::density::{fleet_length, is_last_max, lemma_grid_len, lemma_unshot_cell, CELLS};
use crate::Bitboard;

verus! {

/// The multiplier of the generator's state.
pub const MULTIPLIER: u128 = 0xF1C47040DE494ACC251D055F00F0A1AB;

/// How many random anchors are tried for one ship before generation stops.
pub const MAX_ATTEMPTS: u64 = 0xFFFF_FFFF_FFFF_FFFF;

/// `x` rotated right by `r` bits.
pub open spec fn rotate_right(x: u64, r: u32) -> u64 {
    if r == 0 {
        x
    } else {
        (x >> r) | (x << (64 - r) as u32)
    }
}

/// The 64-bit value drawn from generator state `state`: the two halves
/// xor-ed, rotated right by the top six bits.
pub open spec fn output(state: u128) -> u64 {
    rotate_right(((state >> 64) as u64) ^ (state as u64), (state >> 122) as u32)
}

/// The generator state after one step from `s`.
pub open spec fn step(s: u128, m: u128) -> u128 {
    vstd::wrapping::u128_specs::wrapping_mul(s, m)
}

/// `raw` taken as a fraction of 2^64 and scaled to `0..n`.
pub open spec fn scaled(raw: u64, n: int) -> int {
    (raw as int * n) / 0x1_0000_0000_0000_0000
}

/// The anchor and direction drawn from state `s`: one step each for the
/// column, the row and the direction.
pub open spec fn draw(s: u128, m: u128) -> (int, int, Direction) {
    let s1 = step(s, m);
    let s2 = step(s1, m);
    let s3 = step(s2, m);
    (
        scaled(output(s1), Board::WIDTH as int),
        scaled(output(s2), Board::HEIGHT as int),
        if output(s3) & 1 == 0 {
            Direction::Horizontal
        } else {
            Direction::Vertical
        },
    )
}

/// The generator state after `i` draws from `s`.
pub open spec fn after_draws(s: u128, m: u128, i: int) -> u128
    decreases i,
{
    if i <= 0 {
        s
    } else {
        step(step(step(after_draws(s, m, i - 1), m), m), m)
    }
}

/// `ship` can go at the drawn anchor `a` on a board whose ships cover `grid`.
pub open spec fn accepts(grid: Set<int>, ship: Ship, a: (int, int, Direction)) -> bool {
    in_bounds(ship.length(), a.0, a.1, a.2) && placement(ship.length(), a.0, a.1, a.2).disjoint(grid)
}

/// Ship `k` of `placed` is `ships[k]`, put by the draws from `seeds[k]`: the
/// first `counts[k] - 1` of them were refused by the ships before it, and the
/// last was accepted and gives its cells.
pub open spec fn placed_by_draws(
    ships: Seq<Ship>,
    placed: Seq<(Ship, Bitboard)>,
    m: u128,
    seeds: Seq<u128>,
    counts: Seq<int>,
    k: int,
) -> bool {
    let grid = cells_of(placed.take(k));
    let last = draw(after_draws(seeds[k], m, counts[k] - 1), m);
    &&& 1 <= counts[k] <= MAX_ATTEMPTS
    &&& seeds[k + 1] == after_draws(seeds[k], m, counts[k])
    &&& forall|i: int|
        0 <= i < counts[k] - 1 ==> !accepts(grid, ships[k], #[trigger] draw(after_draws(seeds[k], m, i), m))
    &&& accepts(grid, ships[k], last)
    &&& placed[k].0 == ships[k]
    &&& placed[k].1@ == placement(ships[k].length(), last.0, last.1, last.2)
}

/// `placed` is what drawing anchors for the fleet `ships`, in order, gives:
/// each ship goes at its first accepted draw, ship `k`'s draws starting from
/// `seeds[k]`; a ship is left out, with all after it, only when all
/// `MAX_ATTEMPTS` of its draws were refused. `end` is the state after the
/// last draw.
pub open spec fn generated(
    ships: Seq<Ship>,
    placed: Seq<(Ship, Bitboard)>,
    m: u128,
    seeds: Seq<u128>,
    counts: Seq<int>,
    end: u128,
) -> bool {
    let n = placed.len() as int;
    &&& n <= ships.len()
    &&& seeds.len() == n + 1
    &&& counts.len() == n
    &&& forall|k: int| 0 <= k < n ==> #[trigger] placed_by_draws(ships, placed, m, seeds, counts, k)
    &&& n < ships.len() ==> {
        &&& forall|i: int|
            0 <= i < MAX_ATTEMPTS ==> !accepts(cells_of(placed), ships[n], #[trigger] draw(after_draws(seeds[n], m, i), m))
        &&& end == after_draws(seeds[n], m, MAX_ATTEMPTS as int)
    }
    &&& n == ships.len() ==> end == seeds[n]
}

/// `after` is `before` after one shot at the cell of highest score, the last
/// one among equal scores.
pub open spec fn best_shot(before: Board, after: Board) -> bool {
    exists|i: int, r: Hit| is_last_max(before.scores(), i) && #[trigger] shot(before, after, i, r)
}

/// Number of entries of `ks` at most `i`.
pub open spec fn ended_within(ks: Seq<int>, i: int) -> int
    decreases ks.len(),
{
    if ks.len() == 0 {
        0
    } else {
        ended_within(ks.drop_last(), i) + if ks.last() <= i {
            1int
        } else {
            0int
        }
    }
}

/// Sum of the first `i` entries of `s`.
pub open spec fn prefix_sum(s: Seq<usize>, i: int) -> int
    decreases i,
{
    if i <= 0 {
        0
    } else {
        prefix_sum(s, i - 1) + s[i - 1]
    }
}

/// A multiplicative generator over a 128-bit state with a permuted 64-bit
/// output.
pub struct Rand {
    pub seed: u128,
    pub multiplier: u128,
}

impl Rand {
    /// A generator started from `seed`, made odd.
    pub fn new(seed: u128) -> (r: Rand)
        ensures
            r.seed == seed | 1,
            r.multiplier == MULTIPLIER,
    {
        Rand { seed: seed | 1, multiplier: MULTIPLIER }
    }

    /// Steps the state and returns the next 64-bit value.
    pub fn random_raw(&mut self) -> (r: u64)
        ensures
            final(self).seed == vstd::wrapping::u128_specs::wrapping_mul(old(self).seed, old(self).multiplier),
            final(self).multiplier == old(self).multiplier,
            r == output(final(self).seed),
    {
        self.seed = self.seed.wrapping_mul(self.multiplier);
        let state = self.seed;
        let rot = (state >> 122) as u32;
        assert(state >> 122 < 64) by (bit_vector);
        let xsl = ((self.seed >> 64) as u64) ^ #[verifier::truncate] (self.seed as u64);
        if rot == 0 {
            xsl
        } else {
            (xsl >> rot) | (xsl << (64 - rot))
        }
    }
}

/// `raw` taken as a fraction of 2^64 and scaled to `0..n`.
pub fn scale(raw: u64, n: usize) -> (r: usize)
    requires
        0 < n <= u64::MAX,
    ensures
        r == (raw as int * n as int) / 0x1_0000_0000_0000_0000,
        r < n,
{
    let ghost big: int = 0x1_0000_0000_0000_0000;
    proof {
        vstd::arithmetic::mul::lemma_mul_strict_inequality(raw as int, big, n as int);
        vstd::arithmetic::mul::lemma_mul_inequality(n as int, big, big);
        assert(n as int * big == big * n as int) by (nonlinear_arith);
        vstd::arithmetic::div_mod::lemma_multiply_divide_lt(raw as int * n as int, big, n as int);
    }
    let wide = (raw as u128) * (n as u128);
    let r = wide / 0x1_0000_0000_0000_0000u128;
    r as usize
}

/// Sums of the first entries grow with the number of entries.
pub proof fn lemma_prefix_sum_mono(s: Seq<usize>, i: int, j: int)
    requires
        0 <= i <= j <= s.len(),
    ensures
        0 <= prefix_sum(s, i) <= prefix_sum(s, j),
    decreases j,
{
    if i < j {
        lemma_prefix_sum_mono(s, i, j - 1);
    } else if i > 0 {
        lemma_prefix_sum_mono(s, i - 1, i - 1);
    }
}

/// Raising one entry raises every sum that includes it by as much.
pub proof fn lemma_prefix_sum_update(s: Seq<usize>, k: int, v: usize, i: int)
    requires
        0 <= k < s.len(),
        0 <= i <= s.len(),
    ensures
        prefix_sum(s.update(k, v), i) == prefix_sum(s, i) + if k < i {
            v - s[k]
        } else {
            0
        },
    decreases i,
{
    if i > 0 {
        lemma_prefix_sum_update(s, k, v, i - 1);
    }
}

/// Running sums of `hist`: entry `i` is the sum of entries `0..=i`.
pub fn cumulative(hist: &Vec<usize>) -> (r: Vec<usize>)
    requires
        prefix_sum(hist@, hist.len() as int) <= usize::MAX,
    ensures
        r.len() == hist.len(),
        forall|i: int| 0 <= i < r.len() ==> #[trigger] r@[i] == prefix_sum(hist@, i + 1),
{
    let mut r: Vec<usize> = Vec::new();
    let mut sum: usize = 0;
    let mut i: usize = 0;
    while i < hist.len()
        invariant
            i <= hist.len(),
            r.len() == i,
            sum == prefix_sum(hist@, i as int),
            prefix_sum(hist@, hist.len() as int) <= usize::MAX,
            forall|j: int| 0 <= j < i ==> #[trigger] r@[j] == prefix_sum(hist@, j + 1),
        decreases hist.len() - i,
    {
        proof {
            lemma_prefix_sum_mono(hist@, i + 1, hist.len() as int);
        }
        sum = sum + hist[i];
        r.push(sum);
        i = i + 1;
    }
    r
}

/// Repeated random games of one fleet.
pub struct Simulation {
    pub n: usize,
    pub ships: Vec<Ship>,
}

impl Simulation {
    /// A board holding the fleet `ships`, placed in order, each at the first
    /// drawn anchor and direction where it fits. A ship for which all
    /// `MAX_ATTEMPTS` draws are refused ends the placing, with the ships
    /// before it on the board.
    pub fn random(ships: &Vec<Ship>, rand: &mut Rand) -> (r: Board)
        ensures
            r.wf(),
            r.hits@ == Set::<int>::empty(),
            r.misses@ == Set::<int>::empty(),
            r.ships.len() <= ships.len(),
            forall|k: int| 0 <= k < r.ships.len() ==> (#[trigger] r.ships@[k]).0 == ships@[k],
            r.grid@.len() == fleet_length(ships@, r.ships.len() as int),
            final(rand).multiplier == old(rand).multiplier,
            exists|seeds: Seq<u128>, counts: Seq<int>|
                seeds.len() > 0 && seeds[0] == old(rand).seed && #[trigger] generated(
                    ships@,
                    r.ships@,
                    old(rand).multiplier,
                    seeds,
                    counts,
                    final(rand).seed,
                ),
    {
        let ghost m = rand.multiplier;
        let ghost mut seeds: Seq<u128> = seq![rand.seed];
        let ghost mut counts: Seq<int> = Seq::empty();
        let mut board = Board::default();
        let mut k: usize = 0;
        while k < ships.len()
            invariant
                board.wf(),
                board.hits@ == Set::<int>::empty(),
                board.misses@ == Set::<int>::empty(),
                k <= ships.len(),
                board.ships.len() == k,
                forall|j: int| 0 <= j < k ==> (#[trigger] board.ships@[j]).0 == ships@[j],
                rand.multiplier == m,
                m == old(rand).multiplier,
                seeds.len() == k + 1,
                counts.len() == k,
                seeds[0] == old(rand).seed,
                rand.seed == seeds[k as int],
                forall|j: int| 0 <= j < k ==> #[trigger] placed_by_draws(ships@, board.ships@, m, seeds, counts, j),
            decreases ships.len() - k,
        {
            let ship = ships[k];
            let ghost start = rand.seed;
            let ghost prev = board.ships@;
            let mut placed = false;
            let mut attempts: u64 = 0;
            while !placed && attempts < MAX_ATTEMPTS
                invariant
                    board.wf(),
                    board.hits@ == Set::<int>::empty(),
                    board.misses@ == Set::<int>::empty(),
                    k < ships.len(),
                    ship == ships@[k as int],
                    board.ships.len() == if placed {
                        k + 1
                    } else {
                        k as int
                    },
                    forall|j: int| 0 <= j < board.ships.len() ==> (#[trigger] board.ships@[j]).0 == ships@[j],
                    rand.multiplier == m,
                    m == old(rand).multiplier,
                    seeds.len() == k + 1,
                    seeds[0] == old(rand).seed,
                    start == seeds[k as int],
                    prev.len() == k,
                    rand.seed == after_draws(start, m, attempts as int),
                    !placed ==> board.ships@ == prev,
                    !placed ==> forall|i: int|
                        0 <= i < attempts ==> !accepts(cells_of(prev), ship, #[trigger] draw(after_draws(start, m, i), m)),
                    placed ==> {
                        let last = draw(after_draws(start, m, attempts - 1), m);
                        &&& attempts >= 1
                        &&& board.ships@.drop_last() == prev
                        &&& board.ships@.last().0 == ship
                        &&& board.ships@.last().1@ == placement(ship.length(), last.0, last.1, last.2)
                        &&& accepts(cells_of(prev), ship, last)
                        &&& forall|i: int|
                            0 <= i < attempts - 1 ==> !accepts(cells_of(prev), ship, #[trigger] draw(after_draws(start, m, i), m))
                    },
                decreases MAX_ATTEMPTS - attempts,
            {
                let ghost s0 = rand.seed;
                let x = scale(rand.random_raw(), Board::WIDTH);
                let y = scale(rand.random_raw(), Board::HEIGHT);
                let direction = if rand.random_raw() & 1 == 0 {
                    Direction::Horizontal
                } else {
                    Direction::Vertical
                };
                let ghost before = board;
                assert(draw(s0, m) == (x as int, y as int, direction));
                placed = board.place(ship, x, y, direction);
                proof {
                    if placed {
                        assert forall|j: int| 0 <= j < board.ships.len() implies (#[trigger] board.ships@[j]).0
                            == ships@[j] by {
                            if j < k {
                                assert(board.ships@.drop_last()[j] == board.ships@[j]);
                            }
                        }
                    }
                }
                attempts = attempts + 1;
            }
            if !placed {
                proof {
                    assert(board.ships@.take(k as int) =~= board.ships@);
                    assert(generated(ships@, board.ships@, m, seeds, counts, rand.seed));
                    lemma_grid_len(board, ships@);
                }
                return board;
            }
            proof {
                let old_seeds = seeds;
                let old_counts = counts;
                seeds = seeds.push(rand.seed);
                counts = counts.push(attempts as int);
                assert(prev.take(k as int) =~= prev);
                assert(board.ships@.take(k as int) =~= prev);
                assert forall|j: int| 0 <= j < k + 1 implies #[trigger] placed_by_draws(
                    ships@,
                    board.ships@,
                    m,
                    seeds,
                    counts,
                    j,
                ) by {
                    if j < k {
                        assert(placed_by_draws(ships@, prev, m, old_seeds, old_counts, j));
                        assert(board.ships@.take(j) =~= prev.take(j));
                        assert(board.ships@[j] == prev[j]);
                    }
                }
            }
            k = k + 1;
        }
        proof {
            assert(generated(ships@, board.ships@, m, seeds, counts, rand.seed));
            lemma_grid_len(board, ships@);
        }
        board
    }

    /// Plays `board` out, each shot at the cell of highest score, for at most
    /// one shot per cell. Returns the number of shots less one when the game
    /// ended, or `None` when it had not ended by then. A settled board that
    /// has not been shot at always ends in time.
    pub fn play(board: &mut Board) -> (r: Option<usize>)
        requires
            old(board).wf(),
        ensures
            final(board).wf(),
            r matches Some(k) ==> k < CELLS && final(board).ships.len() == 0,
            old(board).grid@.subset_of(final(board).grid@.union(final(board).misses@)),
            exists|trace: Seq<Board>|
                {
                    &&& trace.len() >= 1
                    &&& trace[0] == *old(board)
                    &&& trace.last() == *final(board)
                    &&& forall|j: int| 0 <= j < trace.len() - 1 ==> #[trigger] best_shot(trace[j], trace[j + 1])
                    &&& r matches Some(k) ==> trace.len() == k + 2
                },
            old(board).settled() && old(board).shots() == Set::<int>::empty() ==> {
                &&& r is Some
                &&& r matches Some(k) ==> final(board).shots().len() == k + 1
                &&& r matches Some(k) ==> old(board).grid@.len() <= k + 1
                &&& old(board).grid@.subset_of(final(board).shots())
            },
    {
        let ghost fresh = board.settled() && board.shots() == Set::<int>::empty();
        let ghost range = vstd::set_lib::set_int_range(0, CELLS as int);
        let ghost start = *board;
        let ghost mut trace: Seq<Board> = seq![*board];
        let mut k: usize = 0;
        while k < CELLS
            invariant
                board.wf(),
                start == *old(board),
                fresh == (start.settled() && start.shots() == Set::<int>::empty()),
                start.grid@.subset_of(board.grid@.union(board.misses@)),
                trace.len() == k + 1,
                trace[0] == start,
                trace.last() == *board,
                forall|j: int| 0 <= j < trace.len() - 1 ==> #[trigger] best_shot(trace[j], trace[j + 1]),
                range == vstd::set_lib::set_int_range(0, CELLS as int),
                fresh ==> {
                    &&& board.settled()
                    &&& board.shots().subset_of(range)
                    &&& board.shots().finite()
                    &&& board.shots().len() == k
                    &&& (k > 0 ==> board.ships.len() > 0)
                },
            decreases CELLS - k,
        {
            if let Some(max_index) = board.max_density_index() {
                let ghost before = *board;
                proof {
                    vstd::arithmetic::div_mod::lemma_fundamental_div_mod(max_index as int, Board::WIDTH as int);
                    if fresh && k > 0 {
                        lemma_unshot_cell(before);
                        let d = choose|d: int|
                            0 <= d < CELLS && !before.shots().contains(d) && #[trigger] before.score(d) >= 1;
                        assert(before.scores()[d] <= before.scores()[max_index as int]);
                    }
                    if fresh && k == 0 {
                        assert(!before.shots().contains(max_index as int));
                    }
                }
                let outcome = board.shoot(max_index % Board::WIDTH, max_index / Board::WIDTH);
                proof {
                    if fresh {
                        lemma_shot_settled(before, *board, max_index as int, outcome);
                        assert(!before.shots().contains(max_index as int));
                    }
                    lemma_shot_keeps_cells(before, *board, max_index as int, outcome);
                    assert(best_shot(before, *board));
                    let old_trace = trace;
                    trace = trace.push(*board);
                    assert forall|j: int| 0 <= j < trace.len() - 1 implies #[trigger] best_shot(trace[j], trace[j + 1]) by {
                        if j < trace.len() - 2 {
                            assert(best_shot(old_trace[j], old_trace[j + 1]));
                        }
                    }
                }
                if board.is_over() {
                    proof {
                        assert(board.grid@ =~= Set::<int>::empty());
                        assert(trace.len() == k + 2 && trace[0] == start && trace.last() == *board);
                        if fresh {
                            vstd::set_lib::lemma_len_subset(start.grid@, board.shots());
                        }
                    }
                    return Some(k);
                }
            }
            k = k + 1;
        }
        proof {
            if fresh {
                lemma_unshot_cell(*board);
                let d = choose|d: int|
                    0 <= d < CELLS && !board.shots().contains(d) && #[trigger] board.score(d) >= 1;
                vstd::set_lib::lemma_int_range(0, CELLS as int);
                vstd::set_lib::lemma_len_subset(board.shots().insert(d), range);
            }
        }
        None
    }

    /// Plays `n` random games of the fleet and returns, for each number of
    /// shots `i + 1`, how many games ended within that many shots.
    pub fn run(&self, rand: &mut Rand) -> (r: Vec<usize>)
        ensures
            r.len() == CELLS,
            forall|i: int, j: int| 0 <= i <= j < CELLS ==> #[trigger] r@[i] <= #[trigger] r@[j],
            r@[CELLS - 1] == self.n,
            exists|ks: Seq<int>, placed: Seq<int>|
                {
                    &&& ks.len() == self.n
                    &&& placed.len() == self.n
                    &&& forall|t: int| 0 <= t < self.n ==> 0 <= #[trigger] ks[t] < CELLS
                    &&& forall|t: int|
                        0 <= t < self.n ==> 0 <= #[trigger] placed[t] <= self.ships.len() && fleet_length(
                            self.ships@,
                            placed[t],
                        ) <= ks[t] + 1
                    &&& forall|i: int| 0 <= i < CELLS ==> #[trigger] r@[i] == ended_within(ks, i)
                },
    {
        shots_to_win(self.n, &self.ships, rand)
    }
}

/// Plays `n` random games of the fleet `ships` and returns, for each number
/// of shots `i + 1`, how many games ended within that many shots.
pub fn shots_to_win(n: usize, ships: &Vec<Ship>, rand: &mut Rand) -> (r: Vec<usize>)
    ensures
        r.len() == CELLS,
        forall|i: int, j: int| 0 <= i <= j < CELLS ==> #[trigger] r@[i] <= #[trigger] r@[j],
        r@[CELLS - 1] == n,
        exists|ks: Seq<int>, placed: Seq<int>|
            {
                &&& ks.len() == n
                &&& placed.len() == n
                &&& forall|t: int| 0 <= t < n ==> 0 <= #[trigger] ks[t] < CELLS
                &&& forall|t: int|
                    0 <= t < n ==> 0 <= #[trigger] placed[t] <= ships.len() && fleet_length(ships@, placed[t])
                        <= ks[t] + 1
                &&& forall|i: int| 0 <= i < CELLS ==> #[trigger] r@[i] == ended_within(ks, i)
            },
{
    let mut results: Vec<usize> = Vec::new();
    while results.len() < CELLS
        invariant
            results.len() <= CELLS,
            forall|c: int| 0 <= c < results.len() ==> #[trigger] results@[c] == 0,
        decreases CELLS - results.len(),
    {
        results.push(0);
    }
    proof {
        assert forall|i: int| 0 <= i <= CELLS implies #[trigger] prefix_sum(results@, i) == 0 by {
            lemma_prefix_sum_zero(results@, i);
        }
        assert forall|i: int| 0 <= i < CELLS implies #[trigger] prefix_sum(results@, i + 1) == 0 by {
            lemma_prefix_sum_zero(results@, i + 1);
        }
    }
    let ghost mut ks: Seq<int> = Seq::empty();
    let ghost mut placed: Seq<int> = Seq::empty();
    let mut t: usize = 0;
    while t < n
        invariant
            t <= n,
            results.len() == CELLS,
            prefix_sum(results@, CELLS as int) == t,
            ks.len() == t,
            placed.len() == t,
            forall|u: int|
                0 <= u < t ==> 0 <= #[trigger] placed[u] <= ships.len() && fleet_length(ships@, placed[u])
                    <= ks[u] + 1,
            forall|u: int| 0 <= u < t ==> 0 <= #[trigger] ks[u] < CELLS,
            forall|i: int| 0 <= i < CELLS ==> #[trigger] prefix_sum(results@, i + 1) == ended_within(ks, i),
        decreases n - t,
    {
        let mut board = Simulation::random(ships, rand);
        let ghost placed_here = board.ships.len() as int;
        assert(board.shots() =~= Set::<int>::empty());
        assert(board.settled());
        if let Some(k) = Simulation::play(&mut board) {
            proof {
                lemma_prefix_sum_mono(results@, k + 1, CELLS as int);
                lemma_prefix_sum_mono(results@, 0, k as int);
            }
            let v = results[k];
            let ghost before = results@;
            proof {
                lemma_prefix_sum_update(results@, k as int, (v + 1) as usize, CELLS as int);
            }
            results.set(k, v + 1);
            proof {
                let old_ks = ks;
                ks = ks.push(k as int);
                placed = placed.push(placed_here);
                assert(ks.drop_last() =~= old_ks);
                assert forall|i: int| 0 <= i < CELLS implies #[trigger] prefix_sum(results@, i + 1) == ended_within(ks, i) by {
                    lemma_prefix_sum_update(before, k as int, (v + 1) as usize, i + 1);
                }
            }
        }
        t = t + 1;
    }
    let r = cumulative(&results);
    proof {
        assert forall|i: int, j: int| 0 <= i <= j < CELLS implies #[trigger] r@[i] <= #[trigger] r@[j] by {
            lemma_prefix_sum_mono(results@, i + 1, j + 1);
        }
    }
    r
}

/// A sum over entries that are all zero is zero.
proof fn lemma_prefix_sum_zero(s: Seq<usize>, i: int)
    requires
        0 <= i <= s.len(),
        forall|c: int| 0 <= c < s.len() ==> #[trigger] s[c] == 0,
    ensures
        prefix_sum(s, i) == 0,
    decreases i,
{
    if i > 0 {
        lemma_prefix_sum_zero(s, i - 1);
    }
}

} // verus!
