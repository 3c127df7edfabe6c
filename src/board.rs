use vstd::prelude::*;

use crate::Bitboard;

verus! {

/// The kinds of ship of a fleet.
#[derive(Clone, Copy, Debug, PartialEq, Eq, Structural)]
pub enum Ship {
    Carrier,
    Battleship,
    Cruiser,
    Submarine,
    Destroyer,
}

/// What a shot did.
#[derive(Clone, Copy, Debug, PartialEq, Eq, Structural)]
pub enum Hit {
    Miss,
    Hit,
    Kill,
}

/// The axis along which a ship's segments run.
#[derive(Clone, Copy, Debug, PartialEq, Eq, Structural)]
pub enum Direction {
    Vertical,
    Horizontal,
}

impl Ship {
    /// Number of cells the ship occupies.
    pub open spec fn length(self) -> int {
        match self {
            Ship::Carrier => 5,
            Ship::Battleship => 4,
            Ship::Cruiser => 3,
            Ship::Submarine => 3,
            Ship::Destroyer => 2,
        }
    }

    /// Number of cells the ship occupies.
    pub fn value(&self) -> (r: usize)
        ensures
            r == self.length(),
    {
        match *self {
            Ship::Carrier => 5,
            Ship::Battleship => 4,
            Ship::Cruiser => 3,
            Ship::Submarine => 3,
            Ship::Destroyer => 2,
        }
    }
}

impl Direction {
    /// Both directions, vertical first.
    pub fn into_iter() -> (r: [Direction; 2])
        ensures
            r@ == seq![Direction::Vertical, Direction::Horizontal],
    {
        let r = [Direction::Vertical, Direction::Horizontal];
        assert(r@ =~= seq![Direction::Vertical, Direction::Horizontal]);
        r
    }
}

/// Index of the cell at column `x` and row `y`.
pub open spec fn cell(x: int, y: int) -> int {
    y * Board::WIDTH + x
}

/// The cell of segment `i` of a ship anchored at `(x, y)`.
pub open spec fn segment(x: int, y: int, d: Direction, i: int) -> int {
    match d {
        Direction::Vertical => cell(x, y + i),
        Direction::Horizontal => cell(x + i, y),
    }
}

/// Whether a ship of `len` cells anchored at `(x, y)` stays on the board.
pub open spec fn in_bounds(len: int, x: int, y: int, d: Direction) -> bool {
    &&& 0 <= x
    &&& 0 <= y
    &&& match d {
        Direction::Vertical => x < Board::WIDTH && y + len <= Board::HEIGHT,
        Direction::Horizontal => y < Board::HEIGHT && x + len <= Board::WIDTH,
    }
}

/// The first `n` segments of a ship anchored at `(x, y)`.
pub open spec fn segments(n: nat, x: int, y: int, d: Direction) -> Set<int>
    decreases n,
{
    if n == 0 {
        Set::empty()
    } else {
        segments((n - 1) as nat, x, y, d).insert(segment(x, y, d, n - 1))
    }
}

/// The cells of a ship of `len` cells anchored at `(x, y)`.
pub open spec fn placement(len: int, x: int, y: int, d: Direction) -> Set<int> {
    segments(len as nat, x, y, d)
}

/// `cells` is where some in-bounds anchoring of `ship` puts it.
pub open spec fn is_placement(ship: Ship, cells: Set<int>) -> bool {
    exists|x: int, y: int, d: Direction|
        in_bounds(ship.length(), x, y, d) && cells == #[trigger] placement(ship.length(), x, y, d)
}

/// Cells of all the ships of `ships`.
pub open spec fn cells_of(ships: Seq<(Ship, Bitboard)>) -> Set<int> {
    Set::new(|c: int| exists|i: int| 0 <= i < ships.len() && (#[trigger] ships[i]).1@.contains(c))
}

/// `ships` with entry `i` replaced by the last one, and the last one dropped.
pub open spec fn swap_removed(ships: Seq<(Ship, Bitboard)>, i: int) -> Seq<(Ship, Bitboard)> {
    ships.update(i, ships.last()).drop_last()
}

/// A shot keeps missed cells off the ships still afloat.
pub proof fn lemma_shot_settled(before: Board, after: Board, c: int, r: Hit)
    requires
        before.wf(),
        before.settled(),
        shot(before, after, c, r),
    ensures
        after.settled(),
{
    if r == Hit::Kill {
        let i = choose|i: int|
            {
                let cells = (#[trigger] before.ships@[i]).1@;
                &&& 0 <= i < before.ships.len()
                &&& cells.contains(c)
                &&& cells.subset_of(before.hits@.insert(c))
                &&& after.hits@ == before.hits@.insert(c).difference(cells)
                &&& after.grid@ == before.grid@.difference(cells)
                &&& after.misses@ == before.misses@.union(cells)
                &&& after.ships@ == swap_removed(before.ships@, i)
            };
        assert(after.misses@.disjoint(after.grid@));
    }
}

/// A shot takes cells off the ships afloat only by marking them missed.
pub proof fn lemma_shot_keeps_cells(before: Board, after: Board, c: int, r: Hit)
    requires
        shot(before, after, c, r),
    ensures
        before.grid@.subset_of(after.grid@.union(after.misses@)),
        before.misses@.subset_of(after.misses@),
{
    if r == Hit::Kill {
        let i = choose|i: int|
            {
                let cells = (#[trigger] before.ships@[i]).1@;
                &&& 0 <= i < before.ships.len()
                &&& cells.contains(c)
                &&& cells.subset_of(before.hits@.insert(c))
                &&& after.hits@ == before.hits@.insert(c).difference(cells)
                &&& after.grid@ == before.grid@.difference(cells)
                &&& after.misses@ == before.misses@.union(cells)
                &&& after.ships@ == swap_removed(before.ships@, i)
            };
    } else if r == Hit::Hit {
        let i = choose|i: int|
            {
                let cells = (#[trigger] before.ships@[i]).1@;
                &&& 0 <= i < before.ships.len()
                &&& cells.contains(c)
                &&& !cells.subset_of(before.hits@.insert(c))
                &&& after.hits@ == before.hits@.insert(c)
                &&& after.grid == before.grid
                &&& after.misses == before.misses
                &&& after.ships@ == before.ships@
            };
    }
}

/// The first `n` segments are distinct cells, each at or after the anchor and
/// before segment `n`.
pub proof fn lemma_segments(n: nat, x: int, y: int, d: Direction)
    ensures
        segments(n, x, y, d).finite(),
        segments(n, x, y, d).len() == n,
        forall|c: int| #[trigger]
            segments(n, x, y, d).contains(c) ==> segment(x, y, d, 0) <= c < segment(x, y, d, n as int),
        forall|c: int| #[trigger]
            segments(n, x, y, d).contains(c) <==> exists|i: int|
                0 <= i < n && c == #[trigger] segment(x, y, d, i),
    decreases n,
{
    if n > 0 {
        lemma_segments((n - 1) as nat, x, y, d);
        let prev = segments((n - 1) as nat, x, y, d);
        let s = segment(x, y, d, n - 1);
        assert(!prev.contains(s));
        assert forall|c: int| #[trigger]
            segments(n, x, y, d).contains(c) <==> exists|i: int|
                0 <= i < n && c == #[trigger] segment(x, y, d, i) by {
            if segments(n, x, y, d).contains(c) && c != s {
                let i = choose|i: int| 0 <= i < n - 1 && c == #[trigger] segment(x, y, d, i);
                assert(0 <= i < n && c == segment(x, y, d, i));
            }
            if exists|i: int| 0 <= i < n && c == #[trigger] segment(x, y, d, i) {
                let i = choose|i: int| 0 <= i < n && c == #[trigger] segment(x, y, d, i);
                if i < n - 1 {
                    assert(prev.contains(c));
                }
            }
        }
    }
}

/// A placement is `ship.length()` distinct cells of the board.
pub proof fn lemma_placement(ship: Ship, cells: Set<int>)
    requires
        is_placement(ship, cells),
    ensures
        cells.finite(),
        cells.len() == ship.length(),
        cells.len() > 0,
        forall|c: int| #[trigger] cells.contains(c) ==> 0 <= c < Board::WIDTH * Board::HEIGHT,
{
    let (x, y, d) = choose|x: int, y: int, d: Direction|
        in_bounds(ship.length(), x, y, d) && cells == #[trigger] placement(ship.length(), x, y, d);
    lemma_segments(ship.length() as nat, x, y, d);
}

/// What a shot at cell `c` that returned `r` did to a board: `before` is the
/// board before it and `after` the board after it.
pub open spec fn shot(before: Board, after: Board, c: int, r: Hit) -> bool {
    &&& after.shots() == before.shots().insert(c)
    &&& (r == Hit::Miss) == !before.grid@.contains(c)
    &&& r == Hit::Miss ==> {
        &&& after.misses@ == before.misses@.insert(c)
        &&& after.hits == before.hits
        &&& after.grid == before.grid
        &&& after.ships@ == before.ships@
    }
    &&& r == Hit::Hit ==> exists|i: int|
        {
            let cells = (#[trigger] before.ships@[i]).1@;
            &&& 0 <= i < before.ships.len()
            &&& cells.contains(c)
            &&& !cells.subset_of(before.hits@.insert(c))
            &&& after.hits@ == before.hits@.insert(c)
            &&& after.grid == before.grid
            &&& after.misses == before.misses
            &&& after.ships@ == before.ships@
        }
    &&& r == Hit::Kill ==> exists|i: int|
        {
            let cells = (#[trigger] before.ships@[i]).1@;
            &&& 0 <= i < before.ships.len()
            &&& cells.contains(c)
            &&& cells.subset_of(before.hits@.insert(c))
            &&& after.hits@ == before.hits@.insert(c).difference(cells)
            &&& after.grid@ == before.grid@.difference(cells)
            &&& after.misses@ == before.misses@.union(cells)
            &&& after.ships@ == swap_removed(before.ships@, i)
        }
}

/// One game: the cells of the ships afloat, the cells shot, and the ships
/// still afloat with their cells.
pub struct Board {
    /// Cells of the ships still afloat.
    pub grid: Bitboard,
    /// Cells shot on ships still afloat.
    pub hits: Bitboard,
    /// Cells shot off every ship, and the cells of sunk ships.
    pub misses: Bitboard,
    /// The ships still afloat, each with its cells.
    pub ships: Vec<(Ship, Bitboard)>,
}

impl Board {
    /// The board's invariant: ships are in-bounds placements that do not
    /// overlap, `grid` holds their cells, hits lie on them, and no ship still
    /// afloat has all its cells hit.
    pub open spec fn wf(&self) -> bool {
        &&& forall|i: int| 0 <= i < self.ships.len() ==> is_placement(#[trigger] self.ships@[i].0, self.ships@[i].1@)
        &&& forall|i: int, j: int|
            0 <= i < self.ships.len() && 0 <= j < self.ships.len() && i != j
                ==> (#[trigger] self.ships@[i]).1@.disjoint((#[trigger] self.ships@[j]).1@)
        &&& self.grid@ == cells_of(self.ships@)
        &&& self.hits@.subset_of(self.grid@)
        &&& forall|i: int| 0 <= i < self.ships.len() ==> !(#[trigger] self.ships@[i]).1@.subset_of(self.hits@)
    }

    /// No missed cell lies under a ship still afloat.
    pub open spec fn settled(&self) -> bool {
        self.misses@.disjoint(self.grid@)
    }

    /// Every cell that has been shot at.
    pub open spec fn shots(&self) -> Set<int> {
        self.hits@.union(self.misses@)
    }

}

impl Default for Board {
    /// An empty board.
    fn default() -> (r: Board)
        ensures
            r.wf(),
            r.grid@ == Set::<int>::empty(),
            r.hits@ == Set::<int>::empty(),
            r.misses@ == Set::<int>::empty(),
            r.ships@ == Seq::<(Ship, Bitboard)>::empty(),
    {
        let r = Board {
            grid: Bitboard::empty(),
            hits: Bitboard::empty(),
            misses: Bitboard::empty(),
            ships: Vec::new(),
        };
        assert(cells_of(r.ships@) =~= Set::<int>::empty());
        r
    }
}

impl Board {
    /// Number of columns of the board.
    pub const WIDTH: usize = 10;

    /// Number of rows of the board.
    pub const HEIGHT: usize = 10;

    /// Whether a ship anchored at `(x, y)` stays on the board.
    fn in_bound(&self, ship: &Ship, x: usize, y: usize, direction: &Direction) -> (r: bool)
        ensures
            r == in_bounds(ship.length(), x as int, y as int, *direction),
    {
        match direction {
            Direction::Vertical => x < Board::WIDTH && y <= Board::HEIGHT - ship.value(),
            Direction::Horizontal => y < Board::HEIGHT && x <= Board::WIDTH - ship.value(),
        }
    }

    /// The cells a ship anchored at `(x, y)` would cover, or `None` when it
    /// would leave the board.
    pub fn get_bitboard(&self, ship: Ship, x: usize, y: usize, direction: Direction) -> (r: Option<
        Bitboard,
    >)
        ensures
            r is Some <==> in_bounds(ship.length(), x as int, y as int, direction),
            r matches Some(g) ==> g@ == placement(ship.length(), x as int, y as int, direction),
    {
        if !self.in_bound(&ship, x, y, &direction) {
            return None;
        }
        let mut grid = Bitboard::empty();
        let n = ship.value();
        let mut i: usize = 0;
        while i < n
            invariant
                n == ship.length(),
                i <= n,
                in_bounds(ship.length(), x as int, y as int, direction),
                grid@ == segments(i as nat, x as int, y as int, direction),
            decreases n - i,
        {
            match direction {
                Direction::Vertical => grid.set((y + i) * Board::WIDTH + x, true),
                Direction::Horizontal => grid.set(y * Board::WIDTH + x + i, true),
            }
            i = i + 1;
        }
        Some(grid)
    }

    /// Puts `ship` at `(x, y)` when it stays on the board and overlaps no ship
    /// already placed; otherwise leaves the board as it is and returns `false`.
    pub fn place(&mut self, ship: Ship, x: usize, y: usize, direction: Direction) -> (r: bool)
        requires
            old(self).wf(),
        ensures
            final(self).wf(),
            r == (in_bounds(ship.length(), x as int, y as int, direction) && placement(
                ship.length(),
                x as int,
                y as int,
                direction,
            ).disjoint(old(self).grid@)),
            !r ==> *final(self) == *old(self),
            r ==> {
                &&& final(self).ships@.len() == old(self).ships@.len() + 1
                &&& final(self).ships@.drop_last() == old(self).ships@
                &&& final(self).ships@.last().0 == ship
                &&& final(self).ships@.last().1@ == placement(
                    ship.length(),
                    x as int,
                    y as int,
                    direction,
                )
                &&& final(self).grid@ == old(self).grid@.union(
                    placement(ship.length(), x as int, y as int, direction),
                )
                &&& final(self).hits == old(self).hits
                &&& final(self).misses == old(self).misses
            },
    {
        match self.get_bitboard(ship, x, y, direction) {
            Some(grid) => {
                let common = self.grid & grid;
                proof {
                    Bitboard::lemma_view_injective(common, Bitboard::empty_spec());
                    Bitboard::lemma_empty();
                }
                if common != Bitboard::empty() {
                    assert(!(self.grid@.intersect(grid@) =~= Set::<int>::empty()));
                    return false;
                }
                assert(self.grid@.intersect(grid@) =~= Set::<int>::empty());
                let ghost before = *self;
                self.grid = self.grid | grid;
                self.ships.push((ship, grid));
                proof {
                    assert(self.ships@.drop_last() =~= before.ships@);
                    assert(is_placement(ship, grid@));
                    lemma_placement(ship, grid@);
                    assert(self.grid@ =~= cells_of(self.ships@)) by {
                        assert forall|c: int| #[trigger]
                            cells_of(self.ships@).contains(c) implies self.grid@.contains(c) by {
                            let i = choose|i: int|
                                0 <= i < self.ships.len() && (#[trigger] self.ships@[i]).1@.contains(c);
                            if i < before.ships.len() {
                                assert(before.ships@[i] == self.ships@[i]);
                            }
                        }
                        assert forall|c: int| #[trigger]
                            self.grid@.contains(c) implies cells_of(self.ships@).contains(c) by {
                            if before.grid@.contains(c) {
                                let i = choose|i: int|
                                    0 <= i < before.ships.len() && (#[trigger] before.ships@[i]).1@.contains(c);
                                assert(self.ships@[i] == before.ships@[i]);
                            } else {
                                assert(self.ships@[before.ships.len() as int] == (ship, grid));
                            }
                        }
                    }
                    assert forall|i: int, j: int|
                        0 <= i < self.ships.len() && 0 <= j < self.ships.len() && i != j
                            implies (#[trigger] self.ships@[i]).1@.disjoint((#[trigger] self.ships@[j]).1@) by {
                        let k = before.ships.len() as int;
                        if i == k || j == k {
                            let o = if i == k { j } else { i };
                            assert(self.ships@[o] == before.ships@[o]);
                            assert forall|c: int| #[trigger] self.ships@[o].1@.contains(c)
                                implies !grid@.contains(c) by {
                                assert(before.grid@.contains(c));
                                assert(!before.grid@.intersect(grid@).contains(c));
                            }
                        } else {
                            assert(self.ships@[i] == before.ships@[i]);
                            assert(self.ships@[j] == before.ships@[j]);
                        }
                    }
                    assert forall|i: int| 0 <= i < self.ships.len()
                        implies !(#[trigger] self.ships@[i]).1@.subset_of(self.hits@) by {
                        if i == before.ships.len() {
                            let c = grid@.choose();
                            assert(grid@.contains(c));
                            assert(!self.hits@.contains(c));
                        } else {
                            assert(self.ships@[i] == before.ships@[i]);
                        }
                    }
                }
                true
            },
            None => false,
        }
    }

    /// Fires at `(x, y)`. A shot on a ship's cell marks it hit, and when that
    /// completes the ship, the ship sinks: its cells leave `grid` and `hits`,
    /// join `misses`, and the ship leaves `ships`. Any other shot is a miss.
    pub fn shoot(&mut self, x: usize, y: usize) -> (r: Hit)
        requires
            old(self).wf(),
            x < Board::WIDTH,
            y < Board::HEIGHT,
        ensures
            final(self).wf(),
            shot(*old(self), *final(self), cell(x as int, y as int), r),
    {
        let c = y * Board::WIDTH + x;
        let ghost ci = cell(x as int, y as int);
        let mut grid = Bitboard::empty();
        grid.set(c, true);
        assert(grid@ =~= set![ci]);
        let n = self.ships.len();
        let mut i: usize = 0;
        while i < n
            invariant
                *self == *old(self),
                self.wf(),
                n == self.ships.len(),
                i <= n,
                c == ci,
                ci == cell(x as int, y as int),
                0 <= ci < 128,
                grid@ == set![ci],
                forall|j: int| 0 <= j < i ==> !(#[trigger] self.ships@[j]).1@.contains(ci),
            decreases n - i,
        {
            let board = self.ships[i].1;
            let common = grid & board;
            proof {
                Bitboard::lemma_view_injective(common, Bitboard::empty_spec());
                Bitboard::lemma_empty();
            }
            if common != Bitboard::empty() {
                assert(board@.contains(ci)) by {
                    assert(!(common@ =~= Set::<int>::empty()));
                }
                let ghost before = *self;
                let ghost k = i as int;
                assert(before == *old(self));
                assert(before.grid@.contains(ci)) by {
                    assert(before.ships@[k].1@.contains(ci));
                }
                self.hits = self.hits | grid;
                let mine = self.hits & board;
                proof {
                    Bitboard::lemma_view_injective(mine, board);
                    assert((mine@ == board@) == board@.subset_of(self.hits@)) by {
                        if board@.subset_of(self.hits@) {
                            assert(mine@ =~= board@);
                        }
                    }
                    assert(self.hits@ =~= before.hits@.insert(ci));
                }
                if mine == board {
                    self.grid = self.grid ^ board;
                    self.hits = self.hits ^ board;
                    self.misses = self.misses | board;
                    self.ships.swap_remove(i);
                    proof {
                        let cells = board@;
                        let post = *self;
                        assert(post.hits@ =~= before.hits@.insert(ci).difference(cells));
                        assert(post.grid@ =~= before.grid@.difference(cells)) by {
                            assert forall|d: int| #[trigger] cells.contains(d) implies before.grid@.contains(d) by {
                                assert(before.ships@[k].1@.contains(d));
                            }
                        }
                        assert(post.ships@ == swap_removed(before.ships@, k));
                        assert forall|m: int| 0 <= m < post.ships.len() implies #[trigger] post.ships@[m] == before.ships@[
                            if m == k { n - 1 } else { m }] by {}
                        assert(post.grid@ =~= cells_of(post.ships@)) by {
                            assert forall|d: int| #[trigger] post.grid@.contains(d) implies cells_of(post.ships@).contains(d) by {
                                let j = choose|j: int| 0 <= j < before.ships.len() && (#[trigger] before.ships@[j]).1@.contains(d);
                                assert(j != k);
                                let m = if j == n - 1 { k } else { j };
                                assert(post.ships@[m] == before.ships@[j]);
                            }
                            assert forall|d: int| #[trigger] cells_of(post.ships@).contains(d) implies post.grid@.contains(d) by {
                                let m = choose|m: int| 0 <= m < post.ships.len() && (#[trigger] post.ships@[m]).1@.contains(d);
                                let j = if m == k { n - 1 } else { m };
                                assert(post.ships@[m] == before.ships@[j]);
                                assert(j != k);
                                assert(before.ships@[j].1@.disjoint(before.ships@[k].1@));
                                assert(before.grid@.contains(d));
                            }
                        }
                        assert forall|m1: int, m2: int|
                            0 <= m1 < post.ships.len() && 0 <= m2 < post.ships.len() && m1 != m2
                                implies (#[trigger] post.ships@[m1]).1@.disjoint((#[trigger] post.ships@[m2]).1@) by {
                            let j1 = if m1 == k { n - 1 } else { m1 };
                            let j2 = if m2 == k { n - 1 } else { m2 };
                            assert(post.ships@[m1] == before.ships@[j1]);
                            assert(post.ships@[m2] == before.ships@[j2]);
                        }
                        assert forall|m: int| 0 <= m < post.ships.len() implies is_placement(
                            #[trigger] post.ships@[m].0, post.ships@[m].1@) by {
                            let j = if m == k { n - 1 } else { m };
                            assert(post.ships@[m] == before.ships@[j]);
                        }
                        assert forall|m: int| 0 <= m < post.ships.len()
                            implies !(#[trigger] post.ships@[m]).1@.subset_of(post.hits@) by {
                            let j = if m == k { n - 1 } else { m };
                            assert(post.ships@[m] == before.ships@[j]);
                            assert(j != k);
                            assert(!before.ships@[j].1@.subset_of(before.hits@));
                            let d = choose|d: int| before.ships@[j].1@.contains(d) && !before.hits@.contains(d);
                            assert(before.ships@[j].1@.disjoint(before.ships@[k].1@));
                            assert(!post.hits@.contains(d));
                        }
                        assert(post.shots() =~= before.shots().insert(ci));
                    }
                    return Hit::Kill;
                }
                proof {
                    let post = *self;
                    assert forall|m: int| 0 <= m < post.ships.len()
                        implies !(#[trigger] post.ships@[m]).1@.subset_of(post.hits@) by {
                        if m != k {
                            let d = choose|d: int| before.ships@[m].1@.contains(d) && !before.hits@.contains(d);
                            assert(before.ships@[m].1@.disjoint(before.ships@[k].1@));
                            assert(!post.hits@.contains(d));
                        }
                    }
                    assert(post.shots() =~= before.shots().insert(ci));
                }
                return Hit::Hit;
            }
            assert(!board@.contains(ci)) by {
                if board@.contains(ci) {
                    assert(common@.contains(ci));
                }
            }
            i = i + 1;
        }
        assert(!self.grid@.contains(ci));
        self.misses = self.misses | grid;
        assert(self.shots() =~= old(self).shots().insert(ci));
        assert(self.misses@ =~= old(self).misses@.insert(ci));
        Hit::Miss
    }

    /// Every cell that has been shot at.
    pub fn get_shoots(&self) -> (r: Bitboard)
        ensures
            r@ == self.shots(),
    {
        self.hits | self.misses
    }

    /// Whether every ship has sunk.
    pub fn is_over(&self) -> (r: bool)
        ensures
            r == (self.ships@.len() == 0),
    {
        self.ships.len() == 0
    }
}

} // verus!
