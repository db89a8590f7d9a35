use tron::grid::{Grid, Player, CELL_COUNT};
use tron::trail::{
    apply_turn, churn_heading, clear_body, initialize_map, initialize_snake, initialize_snake_bot,
    initialize_snake_bots, move_snake, spawn_bot_at, spawn_population, update, Direction, Snake,
    MAX_BOT_NUMBER,
};

fn conquered_count(g: &Grid) -> usize {
    let mut n = 0;
    for x in 0..320 {
        for y in 0..180 {
            if g.is_conquered(x, y) {
                n += 1;
            }
        }
    }
    n
}

fn snake(body: Vec<(i32, i32)>, d: Direction, player: Player) -> Snake {
    Snake { body, direction: d, new_direction: d, player }
}

fn place(g: &mut Grid, s: &Snake) {
    for &(x, y) in s.body.iter() {
        g.set_occupant(x, y, Some(s.player));
    }
}

/// A grid whose one unconquered cell is (319, 179).
fn one_free_cell() -> Grid {
    let mut g = Grid::blank();
    g.conquer_radius(159, 90, 160);
    g.conquer_radius(160, 19, 160);
    g.rebuild_unconquered();
    g
}

#[test]
fn starting_snake() {
    let s = initialize_snake();
    assert_eq!(s.body, vec![(20, 20), (21, 20), (22, 20), (23, 20)]);
    assert_eq!(s.direction, Direction::Right);
    assert_eq!(s.new_direction, Direction::Right);
    assert_eq!(s.player, Player::Human);
}

#[test]
fn seeding_single_cell_conquers_square() {
    let s = snake(vec![(20, 20)], Direction::Right, Player::Human);
    let g = initialize_map(&s);
    assert_eq!(conquered_count(&g), 1600);
    for x in 0..320 {
        for y in 0..180 {
            assert_eq!(g.is_conquered(x, y), x < 40 && y < 40);
        }
    }
    assert_eq!(g.void_len(), CELL_COUNT - 1600);
    assert_eq!(g.occupant_at(20, 20), Some(Player::Human));
    assert_eq!(g.occupant_at(21, 20), None);
}

#[test]
fn seeding_starting_snake() {
    let s = initialize_snake();
    let g = initialize_map(&s);
    assert_eq!(conquered_count(&g), 43 * 40);
    for x in 20..24 {
        assert_eq!(g.occupant_at(x, 20), Some(Player::Human));
    }
}

#[test]
fn seeding_near_corner_is_clipped() {
    let s = snake(vec![(0, 0)], Direction::Right, Player::Human);
    let g = initialize_map(&s);
    assert_eq!(conquered_count(&g), 400);
}

#[test]
fn human_advances_and_conquers() {
    let s0 = snake(vec![(100, 100)], Direction::Right, Player::Human);
    let mut g = initialize_map(&s0);
    let mut s = s0.clone();
    assert_eq!(move_snake(&mut s, &mut g), 1);
    assert_eq!(s.body, vec![(100, 100), (101, 100)]);
    assert_eq!(g.occupant_at(101, 100), Some(Player::Human));
    assert!(g.is_conquered(120, 80));
    assert!(!g.is_conquered(121, 80));
    assert_eq!(conquered_count(&g), 41 * 40);
    assert_eq!(g.void_len(), CELL_COUNT - 41 * 40);
}

#[test]
fn bot_advances_without_conquering() {
    let mut g = Grid::blank();
    let mut s = snake(vec![(10, 10)], Direction::Down, Player::Bot);
    place(&mut g, &s);
    assert_eq!(move_snake(&mut s, &mut g), 1);
    assert_eq!(s.body, vec![(10, 10), (10, 11)]);
    assert_eq!(g.occupant_at(10, 11), Some(Player::Bot));
    assert_eq!(conquered_count(&g), 0);
}

#[test]
fn human_onto_bot_cell_dies_and_keeps_board() {
    let mut g = Grid::blank();
    let mut s = snake(vec![(50, 50), (51, 50)], Direction::Right, Player::Human);
    place(&mut g, &s);
    g.set_occupant(52, 50, Some(Player::Bot));
    assert_eq!(move_snake(&mut s, &mut g), 0);
    assert_eq!(s.body, vec![(50, 50), (51, 50)]);
    assert_eq!(g.occupant_at(50, 50), Some(Player::Human));
    assert_eq!(g.occupant_at(51, 50), Some(Player::Human));
    assert_eq!(g.occupant_at(52, 50), Some(Player::Bot));
    assert_eq!(conquered_count(&g), 0);
}

#[test]
fn human_off_grid_dies() {
    let mut g = Grid::blank();
    let mut s = snake(vec![(0, 5)], Direction::Left, Player::Human);
    place(&mut g, &s);
    assert_eq!(move_snake(&mut s, &mut g), 0);
    assert_eq!(s.body, vec![(0, 5)]);
    assert_eq!(g.occupant_at(0, 5), Some(Player::Human));
}

#[test]
fn human_into_own_body_dies() {
    let mut g = Grid::blank();
    let mut s = snake(vec![(5, 5), (6, 5), (6, 6), (5, 6)], Direction::Up, Player::Human);
    place(&mut g, &s);
    assert_eq!(move_snake(&mut s, &mut g), 0);
    assert_eq!(s.body.len(), 4);
    assert_eq!(g.occupant_at(5, 5), Some(Player::Human));
}

#[test]
fn bot_into_own_body_is_replaced() {
    let mut g = Grid::blank();
    let body = vec![(5, 5), (6, 5), (6, 6), (5, 6)];
    let mut s = snake(body.clone(), Direction::Up, Player::Bot);
    place(&mut g, &s);
    assert_eq!(move_snake(&mut s, &mut g), 0);
    assert!(s.body.len() <= 1);
    assert_eq!(s.direction, Direction::Right);
    assert_eq!(s.player, Player::Bot);
    for &(x, y) in body.iter() {
        let expected = if s.body == vec![(x, y)] { Some(Player::Bot) } else { None };
        assert_eq!(g.occupant_at(x, y), expected);
    }
}

#[test]
fn bot_into_other_trail_is_replaced() {
    let mut g = Grid::blank();
    let mut s = snake(vec![(5, 5), (6, 5)], Direction::Right, Player::Bot);
    place(&mut g, &s);
    g.set_occupant(7, 5, Some(Player::Human));
    assert_eq!(move_snake(&mut s, &mut g), 0);
    assert!(s.body.len() <= 1);
    assert_eq!(g.occupant_at(7, 5), Some(Player::Human));
    if s.body != vec![(5, 5)] {
        assert_eq!(g.occupant_at(5, 5), None);
    }
}

#[test]
fn bot_off_grid_respawns_on_the_free_cell() {
    let mut g = one_free_cell();
    let mut s = snake(vec![(319, 179)], Direction::Down, Player::Bot);
    place(&mut g, &s);
    assert_eq!(move_snake(&mut s, &mut g), 0);
    assert_eq!(s.body, vec![(319, 179)]);
    assert_eq!(g.occupant_at(319, 179), Some(Player::Bot));
}

#[test]
fn dead_snake_does_not_move() {
    let mut g = Grid::blank();
    let mut s = snake(vec![], Direction::Right, Player::Bot);
    assert_eq!(move_snake(&mut s, &mut g), 0);
    assert!(s.body.is_empty());
}

#[test]
fn clear_body_frees_cells() {
    let mut g = Grid::blank();
    let s = snake(vec![(1, 1), (1, 2)], Direction::Down, Player::Bot);
    place(&mut g, &s);
    g.set_occupant(9, 9, Some(Player::Human));
    clear_body(&mut g, &s.body);
    assert_eq!(g.occupant_at(1, 1), None);
    assert_eq!(g.occupant_at(1, 2), None);
    assert_eq!(g.occupant_at(9, 9), Some(Player::Human));
}

#[test]
fn reversal_is_refused() {
    let mut s = snake(vec![(5, 5)], Direction::Right, Player::Human);
    s.new_direction = Direction::Left;
    apply_turn(&mut s);
    assert_eq!(s.direction, Direction::Right);
    assert_eq!(s.new_direction, Direction::Right);
    s.new_direction = Direction::Up;
    apply_turn(&mut s);
    assert_eq!(s.direction, Direction::Up);
    s.new_direction = Direction::Down;
    apply_turn(&mut s);
    assert_eq!(s.direction, Direction::Up);
}

#[test]
fn churn_changes_pending_heading_on_zero_roll() {
    let mut s = snake(vec![(5, 5)], Direction::Right, Player::Bot);
    churn_heading(&mut s, 3, 0);
    assert_eq!(s.new_direction, Direction::Right);
    churn_heading(&mut s, 0, 2);
    assert_eq!(s.new_direction, Direction::Left);
    churn_heading(&mut s, 0, 0);
    assert_eq!(s.new_direction, Direction::Up);
    churn_heading(&mut s, 0, 1);
    assert_eq!(s.new_direction, Direction::Down);
    churn_heading(&mut s, 0, 3);
    assert_eq!(s.new_direction, Direction::Right);
    assert_eq!(s.direction, Direction::Right);
}

#[test]
fn human_update_turns_then_moves() {
    let s0 = snake(vec![(100, 100)], Direction::Right, Player::Human);
    let mut g = initialize_map(&s0);
    let mut s = s0.clone();
    s.new_direction = Direction::Down;
    assert_eq!(update(&mut s, &mut g), 1);
    assert_eq!(s.body, vec![(100, 100), (100, 101)]);
    assert_eq!(s.direction, Direction::Down);
}

#[test]
fn spawn_on_free_cell() {
    let mut g = Grid::blank();
    let s = spawn_bot_at(&mut g, 181);
    assert_eq!(s.body, vec![(1, 1)]);
    assert_eq!(s.direction, Direction::Right);
    assert_eq!(s.player, Player::Bot);
    assert_eq!(g.occupant_at(1, 1), Some(Player::Bot));
}

#[test]
fn spawn_on_covered_cell_gives_placeholder() {
    let mut g = Grid::blank();
    g.set_occupant(0, 3, Some(Player::Human));
    let s = spawn_bot_at(&mut g, 3);
    assert!(s.body.is_empty());
    assert_eq!(s.player, Player::Bot);
    assert_eq!(g.occupant_at(0, 3), Some(Player::Human));
}

#[test]
fn spawn_on_full_grid_gives_placeholder() {
    let mut g = Grid::blank();
    g.conquer_radius(160, 90, 160);
    g.rebuild_unconquered();
    let s = initialize_snake_bot(&mut g);
    assert!(s.body.is_empty());
}

#[test]
fn random_spawn_picks_from_the_list() {
    let mut g = one_free_cell();
    let s = initialize_snake_bot(&mut g);
    assert_eq!(s.body, vec![(319, 179)]);
    assert_eq!(g.occupant_at(319, 179), Some(Player::Bot));
}

#[test]
fn random_spawns_land_on_unconquered_free_cells() {
    let s0 = initialize_snake();
    let mut g = initialize_map(&s0);
    let bots = initialize_snake_bots(&mut g);
    assert_eq!(bots.len(), MAX_BOT_NUMBER);
    let mut covered = 0;
    for b in bots.iter() {
        assert!(b.body.len() <= 1);
        for &(x, y) in b.body.iter() {
            assert!(!g.is_conquered(x, y));
            assert_eq!(g.occupant_at(x, y), Some(Player::Bot));
            covered += 1;
        }
    }
    assert!(covered >= 1);
    let mut cells: Vec<(i32, i32)> = bots.iter().flat_map(|b| b.body.iter().copied()).collect();
    cells.sort();
    cells.dedup();
    assert_eq!(cells.len(), covered);
}

#[test]
fn population_has_requested_size() {
    let mut g = Grid::blank();
    assert_eq!(spawn_population(&mut g, 7).len(), 7);
    assert_eq!(spawn_population(&mut g, 0).len(), 0);
}

#[test]
fn bot_update_moves_or_respawns() {
    let mut g = Grid::blank();
    let mut s = snake(vec![(100, 100)], Direction::Right, Player::Bot);
    place(&mut g, &s);
    let r = update(&mut s, &mut g);
    assert_eq!(r, 1);
    assert_eq!(s.body.len(), 2);
    assert_eq!(s.body[0], (100, 100));
    assert_ne!(s.body[1], (99, 100));
    assert_eq!(g.occupant_at(s.body[1].0, s.body[1].1), Some(Player::Bot));
    assert_eq!(conquered_count(&g), 0);
}

#[test]
fn population_on_full_grid_is_all_dead() {
    let mut g = Grid::blank();
    g.conquer_radius(160, 90, 160);
    g.rebuild_unconquered();
    let bots = initialize_snake_bots(&mut g);
    assert_eq!(bots.len(), MAX_BOT_NUMBER);
    assert!(bots.iter().all(|b| b.body.is_empty()));
    for x in 0..320 {
        for y in 0..180 {
            assert_eq!(g.occupant_at(x, y), None);
        }
    }
}

#[test]
fn live_bots_stand_on_distinct_cells() {
    let mut g = one_free_cell();
    let bots = spawn_population(&mut g, 5);
    let live: Vec<&Snake> = bots.iter().filter(|b| !b.body.is_empty()).collect();
    assert_eq!(live.len(), 1);
    assert_eq!(live[0].body, vec![(319, 179)]);
    assert!(bots[0].body == vec![(319, 179)]);
}
