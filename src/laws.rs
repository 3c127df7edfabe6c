use vstd::prelude::*;

use crate::board::{in_bounds, is_placement, lemma_placement, placement, shot, Board, Direction, Hit, Ship};
use crate::density::is_last_max;

verus! {

/// Two in-bounds placements that do not overlap both go onto an empty board,
/// the second after the first; a third that overlaps either is refused.
/// (`place` succeeds exactly when the placement is in bounds and disjoint from
/// `grid`, and a success adds the placement to `grid`.)
pub proof fn lemma_disjoint_placements(
    s1: Ship,
    x1: int,
    y1: int,
    d1: Direction,
    s2: Ship,
    x2: int,
    y2: int,
    d2: Direction,
    s3: Ship,
    x3: int,
    y3: int,
    d3: Direction,
)
    requires
        in_bounds(s1.length(), x1, y1, d1),
        in_bounds(s2.length(), x2, y2, d2),
        placement(s1.length(), x1, y1, d1).disjoint(placement(s2.length(), x2, y2, d2)),
        !placement(s3.length(), x3, y3, d3).disjoint(placement(s1.length(), x1, y1, d1))
            || !placement(s3.length(), x3, y3, d3).disjoint(placement(s2.length(), x2, y2, d2)),
    ensures
        ({
            let p1 = placement(s1.length(), x1, y1, d1);
            let p2 = placement(s2.length(), x2, y2, d2);
            let p3 = placement(s3.length(), x3, y3, d3);
            let g1 = Set::<int>::empty().union(p1);
            let g2 = g1.union(p2);
            &&& p1.disjoint(Set::<int>::empty())
            &&& p2.disjoint(g1)
            &&& !(in_bounds(s3.length(), x3, y3, d3) && p3.disjoint(g2))
        }),
{
    let p1 = placement(s1.length(), x1, y1, d1);
    let p2 = placement(s2.length(), x2, y2, d2);
    let p3 = placement(s3.length(), x3, y3, d3);
    let g1 = Set::<int>::empty().union(p1);
    assert(g1 =~= p1);
    if p3.disjoint(g1.union(p2)) {
        assert(p3.disjoint(p1));
        assert(p3.disjoint(p2));
    }
}

/// Shooting again at a cell that was missed, or that belonged to a ship now
/// sunk, is a miss that changes nothing.
pub proof fn lemma_repeat_shot(before: Board, after: Board, c: int, r: Hit)
    requires
        before.wf(),
        before.misses@.disjoint(before.grid@),
        before.misses@.contains(c),
        shot(before, after, c, r),
    ensures
        r == Hit::Miss,
        after.hits == before.hits,
        after.misses@ == before.misses@,
        after.grid == before.grid,
        after.ships@ == before.ships@,
{
    assert(before.misses@.insert(c) =~= before.misses@);
}

/// A shot sinks a ship exactly when it brings the number of the ship's cells
/// that are hit up to the ship's length; the game becomes over exactly when
/// the last ship sinks.
pub proof fn lemma_sinking(before: Board, after: Board, c: int, r: Hit)
    requires
        before.wf(),
        shot(before, after, c, r),
    ensures
        (r == Hit::Kill) == exists|i: int|
            0 <= i < before.ships.len() && (#[trigger] before.ships@[i]).1@.contains(c)
                && before.ships@[i].1@.intersect(before.hits@.insert(c)).len() == before.ships@[i].0.length(),
        (after.ships.len() == 0 && before.ships.len() > 0) == (r == Hit::Kill && before.ships.len() == 1),
{
    let hits = before.hits@.insert(c);
    if r == Hit::Kill {
        let i = choose|i: int|
            {
                let cells = (#[trigger] before.ships@[i]).1@;
                &&& 0 <= i < before.ships.len()
                &&& cells.contains(c)
                &&& cells.subset_of(before.hits@.insert(c))
                &&& after.hits@ == before.hits@.insert(c).difference(cells)
                &&& after.grid@ == before.grid@.difference(cells)
                &&& after.misses@ == before.misses@.union(cells)
                &&& after.ships@ == crate::board::swap_removed(before.ships@, i)
            };
        let cells = before.ships@[i].1@;
        assert(is_placement(before.ships@[i].0, cells));
        lemma_placement(before.ships@[i].0, cells);
        assert(cells.intersect(hits) =~= cells);
    }
    if exists|i: int|
        0 <= i < before.ships.len() && (#[trigger] before.ships@[i]).1@.contains(c)
            && before.ships@[i].1@.intersect(hits).len() == before.ships@[i].0.length() {
        let i = choose|i: int|
            0 <= i < before.ships.len() && (#[trigger] before.ships@[i]).1@.contains(c)
                && before.ships@[i].1@.intersect(hits).len() == before.ships@[i].0.length();
        let cells = before.ships@[i].1@;
        assert(is_placement(before.ships@[i].0, cells));
        lemma_placement(before.ships@[i].0, cells);
        vstd::set_lib::lemma_len_intersect(cells, hits);
        vstd::set_lib::lemma_subset_equality(cells.intersect(hits), cells);
        assert(before.grid@.contains(c));
        if r == Hit::Hit {
            let j = choose|j: int|
                {
                    let cells = (#[trigger] before.ships@[j]).1@;
                    &&& 0 <= j < before.ships.len()
                    &&& cells.contains(c)
                    &&& !cells.subset_of(before.hits@.insert(c))
                    &&& after.hits@ == before.hits@.insert(c)
                    &&& after.grid == before.grid
                    &&& after.misses == before.misses
                    &&& after.ships@ == before.ships@
                };
            if j != i {
                assert(before.ships@[i].1@.disjoint(before.ships@[j].1@));
            }
            assert(cells.subset_of(hits));
        }
    }
}

/// Shot cells score zero, and the set of shot cells only grows.
pub proof fn lemma_shot_cells(before: Board, after: Board, c: int, r: Hit)
    requires
        shot(before, after, c, r),
    ensures
        before.shots().subset_of(after.shots()),
        forall|d: int| #[trigger] after.shots().contains(d) ==> after.score(d) == 0,
{
}

/// Of cells sharing the highest score the last one is chosen, and the choice
/// is the same whenever the scores are.
pub proof fn lemma_last_of_ties(s: Seq<int>, i: int, j: int, a: int, b: int)
    requires
        is_last_max(s, i),
        is_last_max(s, j),
        0 <= a < b < s.len(),
        s[a] == s[b],
        forall|k: int| 0 <= k < s.len() ==> #[trigger] s[k] <= s[a],
    ensures
        i == j,
        i != a,
        b <= i,
{
    assert(s[i] <= s[j] && s[j] <= s[i]);
    if i < b {
        assert(s[b] < s[i]);
    }
    if i < j {
        assert(s[j] < s[i]);
    }
    if j < i {
        assert(s[i] < s[j]);
    }
}

} // verus!
