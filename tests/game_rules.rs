use tron::game::{reset_allowed, tick_due, Game, Phase, RESET_DWELL_MS, TICK_MS};
use tron::grid::{Player, CELL_COUNT};
use tron::trail::{Direction, Snake, MAX_BOT_NUMBER};

fn dead_bots() -> Vec<Snake> {
    (0..MAX_BOT_NUMBER).map(|_| Snake::placeholder_bot()).collect()
}

#[test]
fn new_game_is_fresh() {
    let g = Game::new();
    assert_eq!(g.phase, Phase::Playing);
    assert!(!g.reset_requested);
    assert_eq!(g.bots.len(), MAX_BOT_NUMBER);
    assert_eq!(g.grid.void_len(), CELL_COUNT - 43 * 40);
    assert_eq!(g.snake.body, vec![(20, 20), (21, 20), (22, 20), (23, 20)]);
}

#[test]
fn reset_dwell_and_tick_gate() {
    assert_eq!(RESET_DWELL_MS, 500);
    assert_eq!(TICK_MS, 20);
    assert!(!reset_allowed(Phase::Playing, 10_000));
    assert!(!reset_allowed(Phase::Won { since: 1000 }, 1500));
    assert!(reset_allowed(Phase::Won { since: 1000 }, 1501));
    assert!(!reset_allowed(Phase::Lost { since: 1000 }, 900));
    assert!(reset_allowed(Phase::Lost { since: 0 }, u64::MAX));
    assert!(!tick_due(100, 120));
    assert!(tick_due(100, 121));
    assert!(!tick_due(100, 50));
}

#[test]
fn reset_rejected_early_and_accepted_late() {
    let mut g = Game::new();
    g.phase = Phase::Lost { since: 1000 };
    assert!(!g.request_reset(1100));
    assert!(!g.reset_requested);
    g.tick(1100);
    assert_eq!(g.phase, Phase::Lost { since: 1000 });
    assert!(g.request_reset(1600));
    assert!(g.reset_requested);
    g.tick(1600);
    assert!(!g.reset_requested);
    assert_eq!(g.phase, Phase::Playing);
    assert_eq!(g.snake.body, vec![(20, 20), (21, 20), (22, 20), (23, 20), (24, 20)]);
    assert_eq!(g.grid.void_len(), CELL_COUNT - 44 * 40);
    assert!(g.grid.is_conquered(0, 0));
    assert!(g.grid.is_conquered(43, 39));
    assert!(!g.grid.is_conquered(44, 0));
    assert!(!g.grid.is_conquered(0, 40));
}

#[test]
fn press_sets_heading_and_asks_for_reset() {
    let mut g = Game::new();
    g.press(Direction::Down, 5);
    assert_eq!(g.snake.new_direction, Direction::Down);
    assert!(!g.reset_requested);
    g.phase = Phase::Won { since: 0 };
    g.press(Direction::Up, 501);
    assert!(g.reset_requested);
    assert_eq!(g.snake.new_direction, Direction::Up);
}

#[test]
fn win_needs_full_conquest_and_dead_bots() {
    let mut g = Game::new();
    g.grid.conquer_radius(160, 90, 160);
    g.grid.rebuild_unconquered();
    g.bots = dead_bots();
    g.step(777);
    assert_eq!(g.phase, Phase::Won { since: 777 });
    assert_eq!(g.snake.body.len(), 4);
}

#[test]
fn no_win_while_a_bot_lives() {
    let mut g = Game::new();
    g.grid.conquer_radius(160, 90, 160);
    g.grid.rebuild_unconquered();
    let mut bots = dead_bots();
    bots[3] = Snake {
        body: vec![(200, 100)],
        direction: Direction::Up,
        new_direction: Direction::Up,
        player: Player::Bot,
    };
    g.grid.set_occupant(200, 100, Some(Player::Bot));
    g.bots = bots;
    g.step(10);
    assert_eq!(g.phase, Phase::Playing);
    assert_eq!(g.snake.body.len(), 5);
}

#[test]
fn no_win_while_cells_are_unconquered() {
    let mut g = Game::new();
    g.bots = dead_bots();
    g.step(10);
    assert_eq!(g.phase, Phase::Playing);
}

#[test]
fn human_death_loses_and_respawns_bots() {
    let mut g = Game::new();
    g.grid.set_occupant(24, 20, Some(Player::Bot));
    g.step(42);
    assert_eq!(g.phase, Phase::Lost { since: 42 });
    assert_eq!(g.snake.body.len(), 4);
    assert_eq!(g.bots.len(), MAX_BOT_NUMBER);
}

#[test]
fn bot_leaving_grid_keeps_population_size() {
    let mut g = Game::new();
    let mut bots = dead_bots();
    for (k, b) in bots.iter_mut().enumerate() {
        let y = k as i32;
        *b = Snake {
            body: vec![(319, y)],
            direction: Direction::Right,
            new_direction: Direction::Right,
            player: Player::Bot,
        };
        g.grid.set_occupant(319, y, Some(Player::Bot));
    }
    g.bots = bots;
    g.step(1);
    assert_eq!(g.bots.len(), MAX_BOT_NUMBER);
    for b in g.bots.iter() {
        assert!(b.body.len() <= 2);
    }
}

#[test]
fn finished_game_does_not_move() {
    let mut g = Game::new();
    g.phase = Phase::Lost { since: 3 };
    let before = g.snake.body.clone();
    g.step(100);
    assert_eq!(g.snake.body, before);
    assert_eq!(g.phase, Phase::Lost { since: 3 });
}

#[test]
fn tick_without_reset_steps_once() {
    let mut g = Game::new();
    g.tick(20);
    assert_eq!(g.phase, Phase::Playing);
    assert_eq!(g.snake.body.len(), 5);
    assert_eq!(g.snake.body[4], (24, 20));
    assert_eq!(g.bots.len(), MAX_BOT_NUMBER);
    g.set_heading(Direction::Left);
    g.tick(40);
    assert_eq!(g.snake.direction, Direction::Right);
    assert_eq!(g.snake.body[5], (25, 20));
}
