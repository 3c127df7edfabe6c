use battleship::board::{Board, Direction, Hit, Ship};
use battleship::density::last_max_index;
use battleship::monte_carlo::MonteCarlo;
use battleship::simulation::{cumulative, scale, Rand, Simulation};
use battleship::Bitboard;

fn fleet() -> Vec<Ship> {
    vec![
        Ship::Carrier,
        Ship::Battleship,
        Ship::Cruiser,
        Ship::Submarine,
        Ship::Destroyer,
    ]
}

fn cells(b: &Bitboard) -> Vec<usize> {
    let mut rest = *b;
    let mut out = Vec::new();
    while let Some(i) = rest.pop_lsb() {
        out.push(i);
    }
    out
}

#[test]
fn bitboard_set_get_and_clear_one_bit() {
    let mut b = Bitboard::empty();
    b.set(3, true);
    b.set(99, true);
    b.set(127, true);
    assert!(b.get(3) && b.get(99) && b.get(127));
    assert!(!b.get(4));
    b.set(99, false);
    assert!(!b.get(99));
    assert!(b.get(3) && b.get(127));
    assert_eq!(b.count_ones(), 2);
}

#[test]
fn bitboard_pop_lsb_drains_in_ascending_order() {
    let mut b = Bitboard::empty();
    for i in [70usize, 5, 64, 0, 127, 63] {
        b.set(i, true);
    }
    assert_eq!(cells(&b), vec![0, 5, 63, 64, 70, 127]);
    let mut e = Bitboard::empty();
    assert_eq!(e.pop_lsb(), None);
    assert!(e == Bitboard::empty());
}

#[test]
fn bitboard_set_algebra() {
    let mut a = Bitboard::empty();
    let mut b = Bitboard::empty();
    for i in [1usize, 2, 3, 100] {
        a.set(i, true);
    }
    for i in [3usize, 4, 100] {
        b.set(i, true);
    }
    assert_eq!(cells(&(a & b)), vec![3, 100]);
    assert_eq!(cells(&(a | b)), vec![1, 2, 3, 4, 100]);
    assert_eq!(cells(&(a ^ b)), vec![1, 2, 4]);
    assert_eq!(cells(&(a >> 2)), vec![0, 1, 98]);
    let mut c = a;
    c &= b;
    assert!(c == (a & b));
    let mut c = a;
    c |= b;
    assert!(c == (a | b));
    let mut c = a;
    c ^= b;
    assert!(c == (a ^ b));
    assert_eq!((a | b).count_ones(), 5);
}

#[test]
fn bitboard_iter_walks_every_cell() {
    let mut b = Bitboard::empty();
    b.set(0, true);
    b.set(99, true);
    let mut it = b.iter();
    let mut seen = Vec::new();
    while let Some(v) = it.next() {
        seen.push(v);
    }
    assert_eq!(seen.len(), 100);
    assert!(seen[0] && seen[99]);
    assert_eq!(seen.iter().filter(|v| **v).count(), 2);
}

#[test]
fn get_bitboard_bounds_and_cells() {
    let board = Board::default();
    let h = board.get_bitboard(Ship::Carrier, 5, 9, Direction::Horizontal).unwrap();
    assert_eq!(cells(&h), vec![95, 96, 97, 98, 99]);
    let v = board.get_bitboard(Ship::Cruiser, 9, 7, Direction::Vertical).unwrap();
    assert_eq!(cells(&v), vec![79, 89, 99]);
    assert!(board.get_bitboard(Ship::Carrier, 6, 0, Direction::Horizontal).is_none());
    assert!(board.get_bitboard(Ship::Destroyer, 0, 9, Direction::Vertical).is_none());
    assert!(board.get_bitboard(Ship::Destroyer, 10, 0, Direction::Vertical).is_none());
    assert!(board.get_bitboard(Ship::Destroyer, 0, 10, Direction::Horizontal).is_none());
    assert!(board.get_bitboard(Ship::Destroyer, usize::MAX, 0, Direction::Horizontal).is_none());
}

#[test]
fn ship_lengths() {
    assert_eq!(Ship::Carrier.value(), 5);
    assert_eq!(Ship::Battleship.value(), 4);
    assert_eq!(Ship::Cruiser.value(), 3);
    assert_eq!(Ship::Submarine.value(), 3);
    assert_eq!(Ship::Destroyer.value(), 2);
    let d = Direction::into_iter();
    assert_eq!(d, [Direction::Vertical, Direction::Horizontal]);
}

#[test]
fn disjoint_placements_succeed_and_overlap_fails() {
    let mut board = Board::default();
    assert!(board.place(Ship::Carrier, 0, 0, Direction::Horizontal));
    assert!(board.place(Ship::Battleship, 0, 1, Direction::Vertical));
    let grid = board.grid;
    let ships = board.ships.len();
    assert!(!board.place(Ship::Cruiser, 2, 0, Direction::Vertical));
    assert!(!board.place(Ship::Destroyer, 0, 4, Direction::Horizontal));
    assert!(board.grid == grid);
    assert_eq!(board.ships.len(), ships);
    assert_eq!(board.grid.count_ones(), 9);
    assert!(!board.place(Ship::Destroyer, 9, 9, Direction::Horizontal));
}

#[test]
fn shooting_a_missed_cell_again_changes_nothing() {
    let mut board = Board::default();
    assert!(board.place(Ship::Destroyer, 0, 0, Direction::Horizontal));
    assert_eq!(board.shoot(5, 5), Hit::Miss);
    let (hits, misses) = (board.hits, board.misses);
    assert_eq!(board.shoot(5, 5), Hit::Miss);
    assert!(board.hits == hits && board.misses == misses);
    assert_eq!(board.ships.len(), 1);
}

#[test]
fn shooting_a_sunk_cell_again_is_a_miss() {
    let mut board = Board::default();
    assert!(board.place(Ship::Destroyer, 0, 0, Direction::Horizontal));
    assert!(board.place(Ship::Cruiser, 5, 5, Direction::Vertical));
    assert_eq!(board.shoot(0, 0), Hit::Hit);
    assert_eq!(board.shoot(1, 0), Hit::Kill);
    let (hits, misses) = (board.hits, board.misses);
    assert_eq!(board.shoot(1, 0), Hit::Miss);
    assert!(board.hits == hits && board.misses == misses);
    assert_eq!(board.ships.len(), 1);
}

#[test]
fn destroyer_hit_then_kill_ends_game() {
    let mut board = Board::default();
    assert!(board.place(Ship::Destroyer, 0, 0, Direction::Horizontal));
    assert_eq!(board.shoot(0, 0), Hit::Hit);
    assert!(!board.is_over());
    assert_eq!(cells(&board.hits), vec![0]);
    assert_eq!(board.shoot(1, 0), Hit::Kill);
    assert!(board.is_over());
    assert!(board.hits == Bitboard::empty());
    assert!(board.grid == Bitboard::empty());
    assert_eq!(cells(&board.misses), vec![0, 1]);
    assert_eq!(cells(&board.get_shoots()), vec![0, 1]);
}

#[test]
fn shot_at_empty_cell_is_a_miss() {
    let mut board = Board::default();
    assert!(board.place(Ship::Destroyer, 1, 0, Direction::Horizontal));
    assert_eq!(board.shoot(0, 0), Hit::Miss);
    assert_eq!(cells(&board.misses), vec![0]);
    assert!(board.hits == Bitboard::empty());
}

#[test]
fn carrier_sinks_on_fifth_hit() {
    let mut board = Board::default();
    assert!(board.place(Ship::Carrier, 3, 2, Direction::Vertical));
    assert!(board.place(Ship::Destroyer, 0, 0, Direction::Horizontal));
    for y in 2..6 {
        assert_eq!(board.shoot(3, y), Hit::Hit);
    }
    assert_eq!(board.hits.count_ones(), 4);
    assert_eq!(board.shoot(3, 6), Hit::Kill);
    assert_eq!(board.ships.len(), 1);
    assert!(!board.is_over());
    assert_eq!(board.misses.count_ones(), 5);
    assert_eq!(board.shoot(0, 0), Hit::Hit);
    assert_eq!(board.shoot(1, 0), Hit::Kill);
    assert!(board.is_over());
}

#[test]
fn density_of_single_destroyer() {
    let mut board = Board::default();
    assert!(board.place(Ship::Destroyer, 0, 0, Direction::Horizontal));
    let d = board.density();
    assert_eq!(d.len(), 100);
    assert_eq!(d[0], 2);
    assert_eq!(d[1], 3);
    assert_eq!(d[9], 2);
    assert_eq!(d[11], 4);
    assert_eq!(d[55], 4);
    assert_eq!(d[99], 2);
    assert_eq!(d[90], 2);
    assert_eq!(d.iter().sum::<usize>(), 2 * 2 * 90);
    assert_eq!(board.max_density_index(), Some(88));
}

#[test]
fn density_zero_on_shot_cells_and_hunt_bonus() {
    let mut board = Board::default();
    assert!(board.place(Ship::Cruiser, 4, 4, Direction::Horizontal));
    assert_eq!(board.shoot(5, 4), Hit::Hit);
    assert_eq!(board.shoot(0, 0), Hit::Miss);
    let d = board.density();
    assert_eq!(d[45], 0);
    assert_eq!(d[0], 0);
    assert!(d[44] >= 100 && d[46] >= 100);
    assert!(d[35] < 100 && d[55] < 100);
    // the horizontal candidate anchored at 0 crosses the miss at 0
    assert_eq!(d[1], 2);
    let best = board.max_density_index().unwrap();
    assert_eq!(best, 46);
}

#[test]
fn hunt_bonus_counts_once_per_afloat_ship() {
    let mut board = Board::default();
    assert!(board.place(Ship::Destroyer, 0, 0, Direction::Horizontal));
    assert!(board.place(Ship::Destroyer, 0, 5, Direction::Horizontal));
    assert_eq!(board.shoot(0, 0), Hit::Hit);
    let d = board.density();
    assert_eq!(d[0], 0);
    // three candidates per destroyer cover cell 1, and each afloat ship adds 100
    assert_eq!(d[1], 2 * 3 + 2 * 100);
    assert_eq!(d[10], 2 * 3);
    assert_eq!(board.max_density_index(), Some(1));
}

#[test]
fn hunt_bonus_wraps_across_rows() {
    let mut board = Board::default();
    assert!(board.place(Ship::Destroyer, 0, 3, Direction::Horizontal));
    assert_eq!(board.shoot(0, 3), Hit::Hit);
    let d = board.density();
    // cell 29 is the last cell of the row above, one index below the hit at 30
    assert!(d[29] >= 100);
    assert!(d[31] >= 100);
}

#[test]
fn last_of_ties_is_chosen() {
    assert_eq!(last_max_index(&vec![1, 5, 2, 5, 0]), Some(3));
    assert_eq!(last_max_index(&vec![7]), Some(0));
    assert_eq!(last_max_index(&vec![0, 0, 0]), Some(2));
    assert_eq!(last_max_index(&vec![9, 1, 1]), Some(0));
    assert_eq!(last_max_index(&Vec::new()), None);
}

#[test]
fn best_cell_is_stable_across_calls() {
    let mut board = Board::default();
    assert!(board.place(Ship::Submarine, 2, 3, Direction::Vertical));
    let first = board.max_density_index();
    assert_eq!(board.max_density_index(), first);
    assert_eq!(board.density(), board.density());
}

#[test]
fn fits_rejects_candidates_over_misses() {
    let mut board = Board::default();
    assert!(board.place(Ship::Destroyer, 8, 8, Direction::Horizontal));
    assert_eq!(board.shoot(2, 0), Hit::Miss);
    assert!(board.fits(Ship::Cruiser, 0, 0, Direction::Horizontal).is_none());
    assert!(board.fits(Ship::Cruiser, 3, 0, Direction::Horizontal).is_some());
    assert!(board.fits(Ship::Cruiser, 2, 1, Direction::Vertical).is_some());
    assert!(board.fits(Ship::Cruiser, 8, 0, Direction::Horizontal).is_none());
    // candidates may cross hits
    assert_eq!(board.shoot(8, 8), Hit::Hit);
    assert!(board.fits(Ship::Cruiser, 7, 8, Direction::Horizontal).is_some());
}

#[test]
fn rand_is_deterministic_for_a_seed() {
    let mut r = Rand::new(1);
    assert_eq!(r.seed, 1);
    assert_eq!(r.random_raw(), 5591027613425383037);
    assert_eq!(r.random_raw(), 18064685055146412365);
    let mut a = Rand::new(42);
    let mut b = Rand::new(43);
    assert_eq!(a.random_raw(), b.random_raw());
}

#[test]
fn scale_maps_to_range() {
    assert_eq!(scale(0, 10), 0);
    assert_eq!(scale(u64::MAX, 10), 9);
    assert_eq!(scale(1 << 63, 10), 5);
    assert_eq!(scale(5591027613425383037, 10), 3);
    assert_eq!(scale(18064685055146412365, 10), 9);
}

#[test]
fn cumulative_sums() {
    assert_eq!(cumulative(&vec![0, 2, 0, 3, 1]), vec![0, 2, 2, 5, 6]);
    assert_eq!(cumulative(&Vec::new()), Vec::<usize>::new());
}

#[test]
fn random_board_places_the_fleet() {
    let mut rand = Rand::new(7);
    let board = Simulation::random(&fleet(), &mut rand);
    assert_eq!(board.ships.len(), 5);
    assert_eq!(board.grid.count_ones(), 17);
    for (k, ship) in fleet().iter().enumerate() {
        assert_eq!(board.ships[k].0, *ship);
        assert_eq!(board.ships[k].1.count_ones() as usize, ship.value());
    }
    assert!(board.hits == Bitboard::empty() && board.misses == Bitboard::empty());
}

#[test]
fn play_finishes_a_random_game() {
    let mut rand = Rand::new(11);
    let mut board = Simulation::random(&fleet(), &mut rand);
    let k = Simulation::play(&mut board).unwrap();
    assert!(board.is_over());
    assert!(k >= 16 && k < 100);
    assert_eq!(board.get_shoots().count_ones() as usize, k + 1);
}

#[test]
fn simulation_thousand_trials() {
    let sim = Simulation { n: 1000, ships: fleet() };
    let mut rand = Rand::new(2024);
    let cum = sim.run(&mut rand);
    assert_eq!(cum.len(), 100);
    for i in 1..cum.len() {
        assert!(cum[i - 1] <= cum[i]);
    }
    assert_eq!(cum[99], 1000);
    assert_eq!(cum[15], 0);
}

#[test]
fn monte_carlo_runs_trials() {
    let mc = MonteCarlo { n: 20, ships: vec![Ship::Destroyer] };
    let mut rand = Rand::new(3);
    let cum = mc.run(&mut rand);
    assert_eq!(cum.len(), 100);
    assert_eq!(cum[99], 20);
    assert_eq!(cum[0], 0);
}
