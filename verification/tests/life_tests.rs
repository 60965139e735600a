use life_grid::grid::Game;

fn seed_grid(width: usize, height: usize, live: &[(usize, usize)]) -> Game {
    let mut seed: Vec<bool> = Vec::new();
    for _ in 0..width * height {
        seed.push(false);
    }
    for &(x, y) in live {
        seed[y * width + x] = true;
    }
    Game::new_with(width, height, &seed)
}

fn snapshot(game: &Game) -> Vec<bool> {
    let mut cells: Vec<bool> = Vec::new();
    for y in 0..game.height() {
        for x in 0..game.width() {
            cells.push(game.get_cell_state(x, y));
        }
    }
    cells
}

#[test]
fn toroidal_corner_includes_far_edges() {
    let game = seed_grid(4, 4, &[(3, 3), (3, 0), (0, 3)]);
    assert_eq!(game.count_alive_neighbors(0, 0), 3);
}

#[test]
fn toroidal_single_cell_grid_is_its_own_neighbor() {
    let game = seed_grid(1, 1, &[(0, 0)]);
    assert_eq!(game.count_alive_neighbors(0, 0), 8);
}

#[test]
fn live_cell_with_two_neighbors_survives() {
    let mut game = seed_grid(5, 5, &[(2, 2), (1, 2), (3, 2)]);
    game.update_game_state();
    assert!(game.get_cell_state(2, 2));
}

#[test]
fn live_cell_with_three_neighbors_survives() {
    let mut game = seed_grid(5, 5, &[(2, 2), (1, 1), (3, 1), (1, 3)]);
    game.update_game_state();
    assert!(game.get_cell_state(2, 2));
}

#[test]
fn live_cell_with_no_neighbors_dies() {
    let mut game = seed_grid(5, 5, &[(2, 2)]);
    game.update_game_state();
    assert!(!game.get_cell_state(2, 2));
}

#[test]
fn live_cell_with_one_neighbor_dies() {
    let mut game = seed_grid(5, 5, &[(2, 2), (1, 1)]);
    game.update_game_state();
    assert!(!game.get_cell_state(2, 2));
}

#[test]
fn live_cell_with_four_neighbors_dies() {
    let mut game = seed_grid(5, 5, &[(2, 2), (1, 1), (3, 1), (1, 3), (3, 3)]);
    game.update_game_state();
    assert!(!game.get_cell_state(2, 2));
}

#[test]
fn dead_cell_with_three_neighbors_is_born() {
    let mut game = seed_grid(5, 5, &[(1, 1), (3, 1), (1, 3)]);
    game.update_game_state();
    assert!(game.get_cell_state(2, 2));
}

#[test]
fn dead_cell_with_two_neighbors_stays_dead() {
    let mut game = seed_grid(5, 5, &[(1, 1), (3, 1)]);
    game.update_game_state();
    assert!(!game.get_cell_state(2, 2));
}

#[test]
fn dead_cell_with_four_neighbors_stays_dead() {
    let mut game = seed_grid(5, 5, &[(1, 1), (3, 1), (1, 3), (3, 3)]);
    game.update_game_state();
    assert!(!game.get_cell_state(2, 2));
}

#[test]
fn block_is_a_still_life() {
    let block = [(1, 1), (2, 1), (1, 2), (2, 2)];
    let mut game = seed_grid(4, 4, &block);
    let before = snapshot(&game);
    for _ in 0..6 {
        game.update_game_state();
        assert_eq!(snapshot(&game), before);
    }
}

#[test]
fn blinker_oscillates_with_period_two() {
    let mut game = seed_grid(5, 5, &[(1, 2), (2, 2), (3, 2)]);
    let horizontal = snapshot(&game);

    game.update_game_state();
    let vertical = snapshot(&game);
    assert_ne!(vertical, horizontal);
    assert!(game.get_cell_state(2, 1));
    assert!(game.get_cell_state(2, 2));
    assert!(game.get_cell_state(2, 3));
    assert!(!game.get_cell_state(1, 2));
    assert!(!game.get_cell_state(3, 2));

    game.update_game_state();
    assert_eq!(snapshot(&game), horizontal);
}

#[test]
fn ages_track_birth_survival_death_and_rebirth() {
    let mut game = seed_grid(5, 5, &[(1, 2), (2, 2), (3, 2)]);
    assert_eq!(game.age_of(1, 2), Some(1));
    assert_eq!(game.age_of(2, 2), Some(1));
    assert_eq!(game.age_of(2, 1), None);

    game.update_game_state();
    assert_eq!(game.age_of(2, 2), Some(2)); // survived one generation
    assert_eq!(game.age_of(2, 1), Some(1)); // newly born
    assert_eq!(game.age_of(1, 2), None); // died

    game.update_game_state();
    assert_eq!(game.age_of(2, 2), Some(3));
    assert_eq!(game.age_of(1, 2), Some(1)); // reborn: age reset, not resumed
    assert_eq!(game.age_of(2, 1), None);
}

#[test]
fn age_set_equals_live_set_after_any_step() {
    let mut game = seed_grid(6, 6, &[(1, 1), (2, 1), (3, 1), (3, 2), (2, 3)]);
    for _ in 0..5 {
        game.update_game_state();
        for y in 0..game.height() {
            for x in 0..game.width() {
                assert_eq!(game.age_of(x, y).is_some(), game.get_cell_state(x, y));
            }
        }
    }
}

#[test]
fn scratch_writes_never_touch_the_live_generation() {
    let mut game = seed_grid(5, 5, &[(1, 2), (2, 2), (3, 2)]);
    game.update_game_state();
    let before = snapshot(&game);
    for y in 0..5 {
        for x in 0..5 {
            game.set_cell_state(x, y, (x + y) % 2 == 0);
        }
    }
    assert_eq!(snapshot(&game), before);
}

#[test]
fn identically_seeded_grids_stay_bit_identical() {
    let live = [(1, 1), (2, 1), (3, 1), (3, 2), (2, 3), (5, 5), (6, 5), (5, 6)];
    let mut first = seed_grid(8, 8, &live);
    let mut second = seed_grid(8, 8, &live);
    for _ in 0..10 {
        first.update_game_state();
        second.update_game_state();
    }
    assert_eq!(snapshot(&first), snapshot(&second));
}

#[test]
fn random_grid_with_certain_probability_is_all_alive() {
    let game = Game::new_random(4, 4, 5, 5);
    for y in 0..4 {
        for x in 0..4 {
            assert!(game.get_cell_state(x, y));
            assert_eq!(game.age_of(x, y), Some(1));
        }
    }
}

#[test]
fn random_grid_with_zero_probability_is_all_dead() {
    let game = Game::new_random(4, 4, 0, 7);
    for y in 0..4 {
        for x in 0..4 {
            assert!(!game.get_cell_state(x, y));
            assert_eq!(game.age_of(x, y), None);
        }
    }
}

#[test]
fn dimensions_are_fixed_at_construction() {
    let mut game = seed_grid(7, 3, &[(1, 1)]);
    assert_eq!(game.width(), 7);
    assert_eq!(game.height(), 3);
    game.update_game_state();
    assert_eq!(game.width(), 7);
    assert_eq!(game.height(), 3);
}
