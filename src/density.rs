use vstd::prelude::*;

use crate::board::{in_bounds, is_placement, lemma_placement, placement, Board, Direction, Ship};
use crate::Bitboard;

verus! {

/// Number of cells of the board.
pub const CELLS: usize = Board::WIDTH * Board::HEIGHT;

/// A ship of `len` cells anchored at `(x, y)` stays on the board and
/// crosses no cell in `misses`.
pub open spec fn admissible(len: int, x: int, y: int, d: Direction, misses: Set<int>) -> bool {
    in_bounds(len, x, y, d) && placement(len, x, y, d).disjoint(misses)
}

/// 1 when the candidate anchored at `(x, y)` is admissible and covers `c`.
pub open spec fn covers(len: int, x: int, y: int, d: Direction, misses: Set<int>, c: int) -> int {
    if admissible(len, x, y, d, misses) && placement(len, x, y, d).contains(c) {
        1
    } else {
        0
    }
}

/// Admissible candidates of a ship of `len` cells, anchored at one of the
/// first `n` cells in either direction, that cover `c`.
pub open spec fn covering(len: int, misses: Set<int>, c: int, n: nat) -> int
    decreases n,
{
    if n == 0 {
        0
    } else {
        let a = n - 1;
        covering(len, misses, c, (n - 1) as nat) + covers(
            len,
            a % Board::WIDTH as int,
            a / Board::WIDTH as int,
            Direction::Vertical,
            misses,
            c,
        ) + covers(len, a % Board::WIDTH as int, a / Board::WIDTH as int, Direction::Horizontal, misses, c)
    }
}

/// Sum of `covering` over the first `k` ships of `ships`, anchored anywhere.
pub open spec fn fleet_covering(ships: Seq<(Ship, Bitboard)>, misses: Set<int>, c: int, k: nat) -> int
    decreases k,
{
    if k == 0 {
        0
    } else {
        fleet_covering(ships, misses, c, (k - 1) as nat) + covering(
            ships[k - 1].0.length(),
            misses,
            c,
            CELLS as nat,
        )
    }
}

/// 100 for each neighbour of `c`, one index up or down on the board, that
/// has been hit.
pub open spec fn hunt_bonus(hits: Set<int>, c: int) -> int {
    hunt_upto(hits, c, CELLS as int)
}

/// The part of `hunt_bonus` that comes from hit cells below index `a`.
pub open spec fn hunt_upto(hits: Set<int>, c: int, a: int) -> int {
    (if 0 <= c - 1 < a && hits.contains(c - 1) {
        100int
    } else {
        0int
    }) + (if 0 <= c + 1 < a && hits.contains(c + 1) {
        100int
    } else {
        0int
    })
}

/// What the hit at `h`, if it is one, adds to the score of `c`.
pub open spec fn hunt_from(hits: Set<int>, h: int, c: int) -> int {
    if hits.contains(h) && (c == h - 1 || c == h + 1) {
        100
    } else {
        0
    }
}

/// `s[i]` is a largest value of `s` and no later entry reaches it.
pub open spec fn is_last_max(s: Seq<int>, i: int) -> bool {
    &&& 0 <= i < s.len()
    &&& forall|j: int| 0 <= j < s.len() ==> #[trigger] s[j] <= s[i]
    &&& forall|j: int| i < j < s.len() ==> #[trigger] s[j] < s[i]
}

/// Each anchor adds at most one candidate per direction.
pub proof fn lemma_covering_bound(len: int, misses: Set<int>, c: int, n: nat)
    ensures
        0 <= covering(len, misses, c, n) <= 2 * n,
    decreases n,
{
    if n > 0 {
        lemma_covering_bound(len, misses, c, (n - 1) as nat);
    }
}

/// Each ship adds at most two candidates per cell of the board.
pub proof fn lemma_fleet_covering_bound(ships: Seq<(Ship, Bitboard)>, misses: Set<int>, c: int, k: nat)
    requires
        k <= ships.len(),
    ensures
        0 <= fleet_covering(ships, misses, c, k) <= 2 * CELLS * k,
    decreases k,
{
    if k > 0 {
        lemma_fleet_covering_bound(ships, misses, c, (k - 1) as nat);
        lemma_covering_bound(ships[k - 1].0.length(), misses, c, CELLS as nat);
    }
}

/// The count over the first `n` anchors includes the candidate at anchor `a`.
proof fn lemma_covering_at(len: int, misses: Set<int>, c: int, n: nat, a: int, d: Direction)
    requires
        0 <= a < n,
    ensures
        covering(len, misses, c, n) >= covers(len, a % Board::WIDTH as int, a / Board::WIDTH as int, d, misses, c),
    decreases n,
{
    lemma_covering_bound(len, misses, c, (n - 1) as nat);
    if a < n - 1 {
        lemma_covering_at(len, misses, c, (n - 1) as nat, a, d);
    }
}

/// The sum over the first `k` ships includes the count of ship `j`.
proof fn lemma_fleet_covering_at(ships: Seq<(Ship, Bitboard)>, misses: Set<int>, c: int, k: nat, j: int)
    requires
        0 <= j < k <= ships.len(),
    ensures
        fleet_covering(ships, misses, c, k) >= covering(ships[j].0.length(), misses, c, CELLS as nat),
    decreases k,
{
    lemma_fleet_covering_bound(ships, misses, c, (k - 1) as nat);
    lemma_covering_bound(ships[k - 1].0.length(), misses, c, CELLS as nat);
    if j < k - 1 {
        lemma_fleet_covering_at(ships, misses, c, (k - 1) as nat, j);
    }
}

/// While a ship is afloat on a settled board, some cell not yet shot at
/// scores at least one: a cell of that ship, covered by its own placement.
pub proof fn lemma_unshot_cell(b: Board)
    requires
        b.wf(),
        b.settled(),
        b.ships.len() > 0,
    ensures
        exists|d: int| 0 <= d < CELLS && !b.shots().contains(d) && #[trigger] b.score(d) >= 1,
{
    let ship = b.ships@[0].0;
    let cells = b.ships@[0].1@;
    assert(is_placement(ship, cells));
    lemma_placement(ship, cells);
    assert(!cells.subset_of(b.hits@));
    let d = choose|d: int| cells.contains(d) && !b.hits@.contains(d);
    assert(b.grid@.contains(d));
    assert(!b.misses@.contains(d));
    let (x, y, dir) = choose|x: int, y: int, dir: Direction|
        in_bounds(ship.length(), x, y, dir) && cells == #[trigger] placement(ship.length(), x, y, dir);
    let a = y * Board::WIDTH + x;
    assert(0 <= x < Board::WIDTH && 0 <= y < Board::HEIGHT);
    vstd::arithmetic::div_mod::lemma_fundamental_div_mod_converse(a, Board::WIDTH as int, y, x);
    assert(cells.disjoint(b.misses@)) by {
        assert forall|e: int| #[trigger] cells.contains(e) implies !b.misses@.contains(e) by {
            assert(b.grid@.contains(e));
        }
    }
    assert(covers(ship.length(), a % Board::WIDTH as int, a / Board::WIDTH as int, dir, b.misses@, d) == 1);
    lemma_covering_at(ship.length(), b.misses@, d, CELLS as nat, a, dir);
    lemma_fleet_covering_at(b.ships@, b.misses@, d, b.ships.len() as nat, 0);
    assert(b.score(d) >= 1);
}

/// Cells of the first `k` ships.
spec fn prefix_cells(ships: Seq<(Ship, Bitboard)>, k: int) -> Set<int> {
    Set::new(|c: int| exists|i: int| 0 <= i < k && (#[trigger] ships[i]).1@.contains(c))
}

/// The first `k` ships cover at least `k` distinct cells of the board.
proof fn lemma_prefix_cells(b: Board, k: int)
    requires
        b.wf(),
        0 <= k <= b.ships.len(),
    ensures
        prefix_cells(b.ships@, k).finite(),
        prefix_cells(b.ships@, k).len() >= k,
        prefix_cells(b.ships@, k).subset_of(vstd::set_lib::set_int_range(0, CELLS as int)),
    decreases k,
{
    let s = b.ships@;
    if k == 0 {
        assert(prefix_cells(s, k) =~= Set::<int>::empty());
    } else {
        lemma_prefix_cells(b, k - 1);
        let prev = prefix_cells(s, k - 1);
        let cur = s[k - 1].1@;
        assert(is_placement(s[k - 1].0, cur));
        lemma_placement(s[k - 1].0, cur);
        assert(prefix_cells(s, k) =~= prev + cur) by {
            assert forall|c: int| #[trigger] prefix_cells(s, k).contains(c) implies (prev + cur).contains(c) by {
                let i = choose|i: int| 0 <= i < k && (#[trigger] s[i]).1@.contains(c);
                if i < k - 1 {
                    assert(prev.contains(c));
                }
            }
        }
        assert(prev.disjoint(cur)) by {
            assert forall|c: int| #[trigger] prev.contains(c) implies !cur.contains(c) by {
                let i = choose|i: int| 0 <= i < k - 1 && (#[trigger] s[i]).1@.contains(c);
                assert(s[i].1@.disjoint(s[k - 1].1@));
            }
        }
        vstd::set_lib::lemma_set_disjoint_lens(prev, cur);
    }
}

/// Total number of cells of the first `k` ships of `fleet`.
pub open spec fn fleet_length(fleet: Seq<Ship>, k: int) -> int
    decreases k,
{
    if k <= 0 {
        0
    } else {
        fleet_length(fleet, k - 1) + fleet[k - 1].length()
    }
}

/// The first `k` ships, which are `fleet`'s first `k`, cover exactly their
/// total length of cells.
proof fn lemma_prefix_len(b: Board, fleet: Seq<Ship>, k: int)
    requires
        b.wf(),
        0 <= k <= b.ships.len(),
        b.ships.len() <= fleet.len(),
        forall|i: int| 0 <= i < b.ships.len() ==> (#[trigger] b.ships@[i]).0 == fleet[i],
    ensures
        prefix_cells(b.ships@, k).finite(),
        prefix_cells(b.ships@, k).len() == fleet_length(fleet, k),
    decreases k,
{
    let s = b.ships@;
    if k == 0 {
        assert(prefix_cells(s, k) =~= Set::<int>::empty());
    } else {
        lemma_prefix_len(b, fleet, k - 1);
        let prev = prefix_cells(s, k - 1);
        let cur = s[k - 1].1@;
        assert(is_placement(s[k - 1].0, cur));
        lemma_placement(s[k - 1].0, cur);
        assert(prefix_cells(s, k) =~= prev + cur) by {
            assert forall|c: int| #[trigger] prefix_cells(s, k).contains(c) implies (prev + cur).contains(c) by {
                let i = choose|i: int| 0 <= i < k && (#[trigger] s[i]).1@.contains(c);
                if i < k - 1 {
                    assert(prev.contains(c));
                }
            }
        }
        assert(prev.disjoint(cur)) by {
            assert forall|c: int| #[trigger] prev.contains(c) implies !cur.contains(c) by {
                let i = choose|i: int| 0 <= i < k - 1 && (#[trigger] s[i]).1@.contains(c);
                assert(s[i].1@.disjoint(s[k - 1].1@));
            }
        }
        vstd::set_lib::lemma_set_disjoint_lens(prev, cur);
    }
}

/// The ships of a well-formed board, when they are the first ships of
/// `fleet`, cover exactly as many cells as their lengths add up to.
pub proof fn lemma_grid_len(b: Board, fleet: Seq<Ship>)
    requires
        b.wf(),
        b.ships.len() <= fleet.len(),
        forall|i: int| 0 <= i < b.ships.len() ==> (#[trigger] b.ships@[i]).0 == fleet[i],
    ensures
        b.grid@.finite(),
        b.grid@.len() == fleet_length(fleet, b.ships.len() as int),
{
    lemma_prefix_len(b, fleet, b.ships.len() as int);
    assert(prefix_cells(b.ships@, b.ships.len() as int) =~= b.grid@);
}

/// A well-formed board holds at most one ship per cell.
pub proof fn lemma_fleet_size(b: Board)
    requires
        b.wf(),
    ensures
        b.ships.len() <= CELLS,
{
    lemma_prefix_cells(b, b.ships.len() as int);
    vstd::set_lib::lemma_int_range(0, CELLS as int);
    vstd::set_lib::lemma_len_subset(
        prefix_cells(b.ships@, b.ships.len() as int),
        vstd::set_lib::set_int_range(0, CELLS as int),
    );
}

impl Board {
    /// Score of cell `c`: zero once shot, otherwise the admissible candidates
    /// of the afloat ships that cover it, plus, for each afloat ship, the
    /// bonus next to hits.
    pub open spec fn score(&self, c: int) -> int {
        if self.shots().contains(c) {
            0
        } else {
            fleet_covering(self.ships@, self.misses@, c, self.ships.len() as nat) + self.ships.len()
                * hunt_bonus(self.hits@, c)
        }
    }

    /// Scores of all cells, by index.
    pub open spec fn scores(&self) -> Seq<int> {
        Seq::new(CELLS as nat, |c: int| self.score(c))
    }

    /// The cells a ship anchored at `(x, y)` would cover, when it stays on the
    /// board and crosses no missed cell; `None` otherwise.
    pub fn fits(&self, ship: Ship, x: usize, y: usize, direction: Direction) -> (r: Option<Bitboard>)
        ensures
            r is Some <==> admissible(ship.length(), x as int, y as int, direction, self.misses@),
            r matches Some(g) ==> g@ == placement(ship.length(), x as int, y as int, direction),
    {
        match self.get_bitboard(ship, x, y, direction) {
            Some(grid) => {
                let common = self.misses & grid;
                proof {
                    Bitboard::lemma_view_injective(common, Bitboard::empty_spec());
                    Bitboard::lemma_empty();
                }
                if common != Bitboard::empty() {
                    proof {
                        if grid@.disjoint(self.misses@) {
                            assert(common@ =~= Set::<int>::empty());
                        }
                    }
                    return None;
                }
                assert forall|c: int| #[trigger] grid@.contains(c) implies !self.misses@.contains(c) by {
                    assert(!common@.contains(c));
                }
                Some(grid)
            },
            None => None,
        }
    }
}

/// The index of the largest entry of `v`, the last one among equals, or
/// `None` when `v` is empty.
pub fn last_max_index(v: &Vec<usize>) -> (r: Option<usize>)
    ensures
        r is None <==> v.len() == 0,
        r matches Some(i) ==> {
            &&& i < v.len()
            &&& forall|j: int| 0 <= j < v.len() ==> #[trigger] v@[j] <= v@[i as int]
            &&& forall|j: int| i < j < v.len() ==> #[trigger] v@[j] < v@[i as int]
        },
{
    if v.len() == 0 {
        return None;
    }
    let mut best: usize = 0;
    let mut i: usize = 1;
    while i < v.len()
        invariant
            1 <= i <= v.len(),
            best < i,
            forall|j: int| 0 <= j < i ==> #[trigger] v@[j] <= v@[best as int],
            forall|j: int| best < j < i ==> #[trigger] v@[j] < v@[best as int],
        decreases v.len() - i,
    {
        if v[i] >= v[best] {
            best = i;
        }
        i = i + 1;
    }
    Some(best)
}

impl Board {
    /// The cell with the highest score; among equal scores, the one with the
    /// highest index.
    pub fn max_density_index(&self) -> (r: Option<usize>)
        requires
            self.wf(),
        ensures
            r matches Some(i) && is_last_max(self.scores(), i as int),
    {
        let scores = self.density();
        let r = last_max_index(&scores);
        proof {
            let s = self.scores();
            assert forall|j: int| 0 <= j < CELLS implies #[trigger] s[j] == scores@[j] as int by {}
        }
        r
    }

    /// Adds one to the score of every cell of the candidate anchored at
    /// `(x, y)`, when that candidate is admissible.
    fn add_candidate(&self, ship: Ship, x: usize, y: usize, direction: Direction, score: &mut Vec<usize>)
        requires
            old(score).len() == CELLS,
            forall|c: int| 0 <= c < CELLS ==> #[trigger] old(score)@[c] < usize::MAX,
        ensures
            final(score).len() == CELLS,
            forall|c: int|
                0 <= c < CELLS ==> #[trigger] final(score)@[c] == old(score)@[c] + covers(
                    ship.length(),
                    x as int,
                    y as int,
                    direction,
                    self.misses@,
                    c,
                ),
    {
        if let Some(grid) = self.fits(ship, x, y, direction) {
            let ghost cells = grid@;
            let ghost start = score@;
            proof {
                assert(is_placement(ship, cells));
                lemma_placement(ship, cells);
            }
            let mut rest = grid;
            loop
                invariant
                    score.len() == CELLS,
                    rest@.subset_of(cells),
                    forall|c: int| #[trigger] cells.contains(c) ==> 0 <= c < CELLS,
                    forall|c: int| 0 <= c < CELLS ==> #[trigger] start[c] < usize::MAX,
                    forall|c: int|
                        0 <= c < CELLS ==> #[trigger] score@[c] == start[c] + if cells.contains(c)
                            && !rest@.contains(c) {
                            1int
                        } else {
                            0int
                        },
                ensures
                    score.len() == CELLS,
                    rest@ == Set::<int>::empty(),
                    forall|c: int|
                        0 <= c < CELLS ==> #[trigger] score@[c] == start[c] + if cells.contains(c)
                            && !rest@.contains(c) {
                            1int
                        } else {
                            0int
                        },
                decreases rest@.len(),
            {
                proof {
                    rest.lemma_view_bounded();
                }
                match rest.pop_lsb() {
                    Some(index) => {
                        let v = score[index];
                        score.set(index, v + 1);
                    },
                    None => {
                        break;
                    },
                }
            }
        }
    }

    /// Adds the candidates of `ship` anchored at `(x, y)`, in both directions,
    /// and, when that cell has been hit, 100 to each of its neighbours one
    /// index up or down.
    fn density_directions(&self, ship: Ship, x: usize, y: usize, probability_density: &mut Vec<usize>)
        requires
            old(probability_density).len() == CELLS,
            x < Board::WIDTH,
            y < Board::HEIGHT,
            forall|c: int| 0 <= c < CELLS ==> #[trigger] old(probability_density)@[c] < usize::MAX - 102,
        ensures
            final(probability_density).len() == CELLS,
            forall|c: int|
                0 <= c < CELLS ==> #[trigger] final(probability_density)@[c] == old(probability_density)@[c]
                    + covers(ship.length(), x as int, y as int, Direction::Vertical, self.misses@, c)
                    + covers(ship.length(), x as int, y as int, Direction::Horizontal, self.misses@, c)
                    + hunt_from(self.hits@, y * Board::WIDTH + x, c),
    {
        let directions = Direction::into_iter();
        self.add_candidate(ship, x, y, directions[0], probability_density);
        self.add_candidate(ship, x, y, directions[1], probability_density);
        let index = y * Board::WIDTH + x;
        if !self.hits.get(index) {
            return;
        }
        if index + 1 < CELLS {
            let v = probability_density[index + 1];
            probability_density.set(index + 1, v + 100);
        }
        if index >= 1 {
            let v = probability_density[index - 1];
            probability_density.set(index - 1, v + 100);
        }
    }

    /// The score of every cell, by index.
    pub fn density(&self) -> (r: Vec<usize>)
        requires
            self.wf(),
        ensures
            r@.len() == CELLS,
            forall|c: int| 0 <= c < CELLS ==> #[trigger] r@[c] == self.score(c),
    {
        let mut probability_density: Vec<usize> = Vec::new();
        while probability_density.len() < CELLS
            invariant
                probability_density.len() <= CELLS,
                forall|c: int| 0 <= c < probability_density.len() ==> #[trigger] probability_density@[c] == 0,
            decreases CELLS - probability_density.len(),
        {
            probability_density.push(0);
        }
        let n = self.ships.len();
        proof {
            lemma_fleet_size(*self);
        }
        let mut k: usize = 0;
        while k < n
            invariant
                self.wf(),
                n == self.ships.len(),
                n <= CELLS,
                k <= n,
                probability_density.len() == CELLS,
                forall|c: int| 0 <= c < CELLS ==> #[trigger] probability_density@[c] == fleet_covering(
                    self.ships@,
                    self.misses@,
                    c,
                    k as nat,
                ) + k * hunt_bonus(self.hits@, c),
            decreases n - k,
        {
            let ship = self.ships[k].0;
            let mut a: usize = 0;
            while a < CELLS
                invariant
                    self.wf(),
                    n == self.ships.len(),
                    n <= CELLS,
                    k < n,
                    a <= CELLS,
                    ship == self.ships@[k as int].0,
                    probability_density.len() == CELLS,
                    forall|c: int| 0 <= c < CELLS ==> #[trigger] probability_density@[c] == fleet_covering(
                        self.ships@,
                        self.misses@,
                        c,
                        k as nat,
                    ) + k * hunt_bonus(self.hits@, c) + covering(ship.length(), self.misses@, c, a as nat)
                        + hunt_upto(self.hits@, c, a as int),
                decreases CELLS - a,
            {
                proof {
                    assert forall|c: int| 0 <= c < CELLS implies #[trigger] probability_density@[c] < usize::MAX - 102 by {
                        lemma_fleet_covering_bound(self.ships@, self.misses@, c, k as nat);
                        lemma_covering_bound(ship.length(), self.misses@, c, a as nat);
                        let h = hunt_bonus(self.hits@, c);
                        assert(k * h <= CELLS * 200) by (nonlinear_arith)
                            requires
                                0 <= h <= 200,
                                0 <= k <= CELLS,
                        ;
                    }
                    vstd::arithmetic::div_mod::lemma_fundamental_div_mod(a as int, Board::WIDTH as int);
                }
                self.density_directions(ship, a % Board::WIDTH, a / Board::WIDTH, &mut probability_density);
                a = a + 1;
            }
            proof {
                assert forall|c: int| 0 <= c < CELLS implies #[trigger] probability_density@[c] == fleet_covering(
                    self.ships@,
                    self.misses@,
                    c,
                    (k + 1) as nat,
                ) + (k + 1) * hunt_bonus(self.hits@, c) by {
                    let h = hunt_bonus(self.hits@, c);
                    assert((k + 1) * h == k * h + h) by (nonlinear_arith);
                }
            }
            k = k + 1;
        }
        let ghost base = probability_density@;
        let mut shoots = self.get_shoots();
        loop
            invariant
                probability_density.len() == CELLS,
                shoots@.subset_of(self.shots()),
                forall|c: int| 0 <= c < CELLS ==> #[trigger] base[c] == fleet_covering(
                    self.ships@,
                    self.misses@,
                    c,
                    n as nat,
                ) + n * hunt_bonus(self.hits@, c),
                forall|c: int| 0 <= c < CELLS ==> #[trigger] probability_density@[c] == if self.shots().difference(
                    shoots@,
                ).contains(c) {
                    0
                } else {
                    base[c]
                },
            ensures
                probability_density.len() == CELLS,
                forall|c: int| 0 <= c < CELLS ==> #[trigger] probability_density@[c] == if self.shots().contains(c) {
                    0
                } else {
                    base[c]
                },
            decreases shoots@.len(),
        {
            proof {
                shoots.lemma_view_bounded();
            }
            let ghost done = self.shots().difference(shoots@);
            match shoots.pop_lsb() {
                Some(index) => {
                    assert(self.shots().difference(shoots@) =~= done.insert(index as int));
                    if index < CELLS {
                        probability_density.set(index, 0);
                    }
                },
                None => {
                    assert(self.shots().difference(shoots@) =~= self.shots());
                    break;
                },
            }
        }
        probability_density
    }
}

} // verus!
