use vstd::prelude::*;

use crate::board::Ship;
use crate::density::{fleet_length, CELLS};
use crate::simulation::{ended_within, shots_to_win, Rand};

verus! {

/// Repeated random games of one fleet.
pub struct MonteCarlo {
    pub n: usize,
    pub ships: Vec<Ship>,
}

impl MonteCarlo {
    /// Plays `n` random games and returns, for each number of shots `i + 1`,
    /// how many games ended within that many shots.
    pub fn run(&self, rand: &mut Rand) -> (r: Vec<usize>)
        ensures
            r.len() == CELLS,
            forall|i: int, j: int| 0 <= i <= j < CELLS ==> #[trigger] r@[i] <= #[trigger] r@[j],
            r@[CELLS - 1] == self.n,
            exists|ks: Seq<int>, placed: Seq<int>|
                {
                    &&& ks.len() == self.n
                    &&& placed.len() == self.n
                    &&& forall|t: int| 0 <= t < self.n ==> 0 <= #[trigger] ks[t] < CELLS
                    &&& forall|t: int|
                        0 <= t < self.n ==> 0 <= #[trigger] placed[t] <= self.ships.len() && fleet_length(
                            self.ships@,
                            placed[t],
                        ) <= ks[t] + 1
                    &&& forall|i: int| 0 <= i < CELLS ==> #[trigger] r@[i] == ended_within(ks, i)
                },
    {
        shots_to_win(self.n, &self.ships, rand)
    }
}

} // verus!
