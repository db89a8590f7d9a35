//! The game as a whole: the human trail, the grid, the bots and the phase,
//! advanced one tick at a time. Times are milliseconds on a clock of the
//! caller's choosing.

use vstd::prelude::*;
use crate::grid::{Grid, Player, in_bounds};
use crate::trail::{
    Direction, Snake, MAX_BOT_NUMBER, initialize_snake, initialize_map, initialize_snake_bots,
    update, turned_snake, dies_on_move, next_head, pt, covered, bots_cover,
    spawned_bot, spawn_chain, move_outcome, with_pending, conquest_grows,
    lemma_move_keeps_conquest, body_covered, apart, lemma_move_keeps_own_cells,
    lemma_move_spares_others, lemma_spawn_chain_apart, lemma_apart_symmetric,
};

verus! {

/// Minimum time spent in a finished phase before a reset is honoured.
pub const RESET_DWELL_MS: u64 = 500;

/// Time between two ticks.
pub const TICK_MS: u64 = 20;

/// Where the game stands; a finished phase records when it began.
#[derive(Clone, Copy, PartialEq, Eq, Structural, Debug)]
pub enum Phase {
    Playing,
    Won { since: u64 },
    Lost { since: u64 },
}

/// Every bot trail is dead.
pub open spec fn all_bots_dead(bots: Seq<Snake>) -> bool {
    forall|k: int| 0 <= k < bots.len() ==> (#[trigger] bots[k]).body@.len() == 0
}

/// A reset asked for at `now` is honoured in `phase`.
pub open spec fn reset_honoured(phase: Phase, now: u64) -> bool {
    match phase {
        Phase::Playing => false,
        Phase::Won { since } => now > since + RESET_DWELL_MS,
        Phase::Lost { since } => now > since + RESET_DWELL_MS,
    }
}

/// Whether a reset asked for at `now` is honoured in `phase`: only in a
/// finished phase, and only once more than `RESET_DWELL_MS` have passed.
pub fn reset_allowed(phase: Phase, now: u64) -> (r: bool)
    ensures
        r == reset_honoured(phase, now),
{
    match phase {
        Phase::Playing => false,
        Phase::Won { since } => now > since && now - since > RESET_DWELL_MS,
        Phase::Lost { since } => now > since && now - since > RESET_DWELL_MS,
    }
}

/// Whether a tick is due at `now`, the last one having run at `last`.
pub fn tick_due(last: u64, now: u64) -> (r: bool)
    ensures
        r == (now > last + TICK_MS),
{
    now > last && now - last > TICK_MS
}

/// What one step of play at `now` makes of `g0`: see `Game::step`.
pub open spec fn step_outcome(g0: Game, g1: Game, now: u64) -> bool {
    &&& g1.wf()
    &&& g1.reset_requested == g0.reset_requested
    &&& g1.bots@.len() == g0.bots@.len()
    &&& g0.phase != Phase::Playing ==> g1.phase == g0.phase && g1.snake == g0.snake && g1.grid
        == g0.grid && g1.bots == g0.bots
    &&& g0.phase == Phase::Playing ==> {
        let won = g0.grid.void().len() == 0 && all_bots_dead(g0.bots@);
        let s = turned_snake(g0.snake);
        let dies = s.body@.len() == 0 || dies_on_move(s, g0.grid);
        &&& won ==> g1.phase == (Phase::Won { since: now }) && g1.snake == g0.snake && g1.grid
            == g0.grid && g1.bots == g0.bots
        &&& !won && dies ==> g1.phase == (Phase::Lost { since: now }) && g1.snake.body@
            == g0.snake.body@
        &&& !won && !dies ==> g1.phase == Phase::Playing && g1.snake.body@ == g0.snake.body@.push(
            pt(next_head(s).0, next_head(s).1),
        )
        &&& !won ==> exists|gh: Grid, pop: Seq<Grid>, mid: Seq<Snake>, gs: Seq<Grid>|
            #[trigger] play_trace(g0, g1, now, gh, pop, mid, gs)
        &&& conquest_grows(g0.grid, g1.grid)
    }
}

/// One tick of bot `s0` on grid `g0`: its pending heading is perhaps
/// redrawn, then it moves, leaving `s1` on grid `g1`.
pub open spec fn bot_moved(s0: Snake, g0: Grid, s1: Snake, g1: Grid) -> bool {
    exists|d: Direction, r: u32| #[trigger] move_outcome(turned_snake(with_pending(s0, d)), g0, s1, g1, r)
}

/// Bots `b0` move once each in index order, the `k`-th on grid `gs[k]`,
/// becoming `b1[k]` and leaving grid `gs[k + 1]`.
pub open spec fn bots_moved(b0: Seq<Snake>, gs: Seq<Grid>, b1: Seq<Snake>) -> bool {
    &&& b1.len() == b0.len()
    &&& gs.len() == b0.len() + 1
    &&& forall|k: int| #![trigger b1[k]] 0 <= k < b0.len() ==> bot_moved(b0[k], gs[k], b1[k], gs[k + 1])
}

/// The course of a step of play from `g0` to `g1` that is not a win: the
/// human moves first, leaving grid `gh`; if it dies, the population `mid` is
/// spawned anew over the grids `pop`, else `mid` is the old population; then
/// the bots of `mid` move in order over the grids `gs`.
pub open spec fn play_trace(
    g0: Game,
    g1: Game,
    now: u64,
    gh: Grid,
    pop: Seq<Grid>,
    mid: Seq<Snake>,
    gs: Seq<Grid>,
) -> bool {
    let s = turned_snake(g0.snake);
    let dies = s.body@.len() == 0 || dies_on_move(s, g0.grid);
    &&& move_outcome(s, g0.grid, g1.snake, gh, if dies { 0u32 } else { 1u32 })
    &&& if dies {
        &&& g1.phase == (Phase::Lost { since: now })
        &&& mid.len() == MAX_BOT_NUMBER
        &&& spawn_chain(pop, mid)
        &&& pop[0] == gh
        &&& gs[0] == pop.last()
    } else {
        &&& g1.phase == Phase::Playing
        &&& mid == g0.bots@
        &&& gs[0] == gh
    }
    &&& bots_moved(mid, gs, g1.bots@)
    &&& gs.last() == g1.grid
}

/// `g` is the grid seeded by the human trail `body`: its cells covered by
/// the human, and the conquering square of each of them conquered.
pub open spec fn seeded(g: Grid, body: Seq<(i32, i32)>) -> bool {
    &&& g.wf()
    &&& forall|x: int, y: int|
        in_bounds(x, y) ==> (#[trigger] g.cell(x, y)).conquered == covered(body, body.len() as int, x, y)
    &&& forall|x: int, y: int|
        in_bounds(x, y) ==> (#[trigger] g.cell(x, y)).occupant == if body.contains(pt(x, y)) {
            Some(Player::Human)
        } else {
            None
        }
}

/// Every cell of a live trail is covered on `grid` by its owner, and no two
/// trails share a cell.
pub open spec fn trails_sound(snake: Snake, bots: Seq<Snake>, grid: Grid) -> bool {
    &&& body_covered(snake, grid)
    &&& forall|k: int| 0 <= k < bots.len() ==> body_covered(#[trigger] bots[k], grid)
    &&& forall|k: int| 0 <= k < bots.len() ==> apart((#[trigger] bots[k]).body@, snake.body@)
    &&& forall|k: int, l: int|
        0 <= k < bots.len() && 0 <= l < bots.len() && k != l ==> apart(
            (#[trigger] bots[k]).body@,
            (#[trigger] bots[l]).body@,
        )
}

/// The whole game state.
pub struct Game {
    pub snake: Snake,
    pub grid: Grid,
    pub bots: Vec<Snake>,
    pub phase: Phase,
    pub reset_requested: bool,
}

impl Game {
    pub open spec fn wf(&self) -> bool {
        &&& self.grid.wf()
        &&& self.snake.wf()
        &&& self.snake.player == Player::Human
        &&& self.bots@.len() == MAX_BOT_NUMBER
        &&& forall|k: int| 0 <= k < self.bots@.len() ==> (#[trigger] self.bots@[k]).wf()
        &&& forall|k: int| 0 <= k < self.bots@.len() ==> (#[trigger] self.bots@[k]).player == Player::Bot
        &&& trails_sound(self.snake, self.bots@, self.grid)
    }

    /// A game as it starts: the starting human trail on a grid seeded by its
    /// cells, a freshly spawned bot population, and play under way.
    pub open spec fn is_fresh(&self) -> bool {
        let body = seq![(20i32, 20i32), (21i32, 20i32), (22i32, 20i32), (23i32, 20i32)];
        &&& self.wf()
        &&& self.phase == Phase::Playing
        &&& !self.reset_requested
        &&& self.snake.body@ == body
        &&& self.snake.direction == Direction::Right
        &&& self.snake.new_direction == Direction::Right
        &&& forall|k: int| 0 <= k < self.bots@.len() ==> spawned_bot(#[trigger] self.bots@[k])
        &&& exists|gs: Seq<Grid>|
            #[trigger] spawn_chain(gs, self.bots@) && seeded(gs[0], body) && gs.last() == self.grid
        &&& forall|x: int, y: int|
            in_bounds(x, y) ==> (#[trigger] self.grid.cell(x, y)).conquered == covered(body, 4, x, y)
        &&& forall|x: int, y: int|
            in_bounds(x, y) ==> (#[trigger] self.grid.cell(x, y)).occupant == if bots_cover(
                self.bots@,
                x,
                y,
            ) {
                Some(Player::Bot)
            } else if body.contains(pt(x, y)) {
                Some(Player::Human)
            } else {
                None
            }
    }

    /// A new game.
    pub fn new() -> (g: Game)
        ensures
            g.is_fresh(),
    {
        let snake = initialize_snake();
        let mut grid = initialize_map(&snake);
        let ghost grid0 = grid;
        let bots = initialize_snake_bots(&mut grid);
        let g = Game { snake, grid, bots, phase: Phase::Playing, reset_requested: false };
        proof {
            let gs = choose|gs: Seq<Grid>|
                #[trigger] spawn_chain(gs, g.bots@) && gs[0] == grid0 && gs.last() == g.grid;
            assert(seeded(gs[0], g.snake.body@));
            assert forall|j: int| 0 <= j < g.snake.body@.len() implies grid0.cell(
                (#[trigger] g.snake.body@[j]).0 as int,
                g.snake.body@[j].1 as int,
            ).occupant == Some(g.snake.player) by {
                let c = g.snake.body@[j];
                assert(pt(c.0 as int, c.1 as int) == c);
                assert(g.snake.body@.contains(c));
            }
            lemma_spawn_chain_apart(gs, g.bots@, MAX_BOT_NUMBER as int, g.snake);
            assert forall|x: int, y: int| in_bounds(x, y) implies (#[trigger] g.grid.cell(x, y)).conquered
                == covered(g.snake.body@, 4, x, y) by {
                assert(g.grid.cell(x, y).conquered == grid0.cell(x, y).conquered);
            }
            assert forall|k: int| 0 <= k < g.bots@.len() implies (#[trigger] g.bots@[k]).wf() by {
                assert(spawned_bot(g.bots@[k]));
            }
        }
        g
    }

    /// Asks for a reset at `now`; it is recorded only where it is honoured.
    pub fn request_reset(&mut self, now: u64) -> (r: bool)
        ensures
            r == reset_honoured(old(self).phase, now),
            final(self).reset_requested == (old(self).reset_requested || r),
            final(self).snake == old(self).snake,
            final(self).grid == old(self).grid,
            final(self).bots == old(self).bots,
            final(self).phase == old(self).phase,
    {
        let r = reset_allowed(self.phase, now);
        if r {
            self.reset_requested = true;
        }
        r
    }

    /// Sets the heading the human trail is to take next.
    pub fn set_heading(&mut self, d: Direction)
        ensures
            final(self).snake.new_direction == d,
            final(self).snake.body == old(self).snake.body,
            final(self).snake.direction == old(self).snake.direction,
            final(self).snake.player == old(self).snake.player,
            final(self).grid == old(self).grid,
            final(self).bots == old(self).bots,
            final(self).phase == old(self).phase,
            final(self).reset_requested == old(self).reset_requested,
    {
        self.snake.new_direction = d;
    }

    /// A key for direction `d` pressed at `now`: it asks for a reset and
    /// sets the human trail's next heading.
    pub fn press(&mut self, d: Direction, now: u64)
        ensures
            final(self).snake.new_direction == d,
            final(self).snake.body == old(self).snake.body,
            final(self).snake.direction == old(self).snake.direction,
            final(self).snake.player == old(self).snake.player,
            final(self).grid == old(self).grid,
            final(self).bots == old(self).bots,
            final(self).phase == old(self).phase,
            final(self).reset_requested == (old(self).reset_requested || reset_honoured(
                old(self).phase,
                now,
            )),
    {
        self.request_reset(now);
        self.set_heading(d);
    }

    /// Starts the game over.
    pub fn reset(&mut self)
        ensures
            final(self).is_fresh(),
    {
        *self = Game::new();
    }

    /// One step of play at `now`, without reset handling. While playing: the
    /// game is won when no unconquered cell is left and every bot is dead;
    /// otherwise the human trail moves, and if it dies the bot population is
    /// spawned anew and the game is lost; then every bot moves, in order. A
    /// finished game does not change.
    pub fn step(&mut self, now: u64)
        requires
            old(self).wf(),
        ensures
            step_outcome(*old(self), *final(self), now),
    {
        if self.phase != Phase::Playing {
            return;
        }
        if self.grid.is_empty_void() {
            let mut all_dead = true;
            let mut k: usize = 0;
            while k < self.bots.len()
                invariant
                    k <= self.bots@.len(),
                    all_dead == forall|j: int| 0 <= j < k ==> (#[trigger] self.bots@[j]).body@.len() == 0,
                decreases self.bots@.len() - k,
            {
                if self.bots[k].body.len() != 0 {
                    all_dead = false;
                }
                k = k + 1;
            }
            if all_dead {
                self.phase = Phase::Won { since: now };
                return;
            }
        }
        let r = update(&mut self.snake, &mut self.grid);
        let ghost gh = self.grid;
        let ghost mut pop: Seq<Grid> = seq![gh];
        if r == 0 {
            self.bots = initialize_snake_bots(&mut self.grid);
            self.phase = Phase::Lost { since: now };
            proof {
                pop = choose|gs: Seq<Grid>|
                    #[trigger] spawn_chain(gs, self.bots@) && gs[0] == gh && gs.last() == self.grid;
                assert forall|x: int, y: int| in_bounds(x, y) && gh.cell(x, y).conquered implies (
                #[trigger] self.grid.cell(x, y)).conquered by {}
            }
        }
        proof {
            lemma_move_keeps_conquest(turned_snake(old(self).snake), old(self).grid, self.snake, gh, r);
            if r == 0 {
                lemma_spawn_chain_apart(pop, self.bots@, MAX_BOT_NUMBER as int, self.snake);
            } else {
                assert forall|k: int| 0 <= k < self.bots@.len() implies body_covered(
                    #[trigger] self.bots@[k],
                    self.grid,
                ) && apart(self.bots@[k].body@, self.snake.body@) by {
                    lemma_apart_symmetric(self.bots@[k].body@, old(self).snake.body@);
                    lemma_move_spares_others(
                        turned_snake(old(self).snake),
                        old(self).grid,
                        self.snake,
                        gh,
                        r,
                        self.bots@[k],
                    );
                    lemma_apart_symmetric(self.snake.body@, self.bots@[k].body@);
                }
            }
        }
        let ghost human = self.snake;
        let ghost phase = self.phase;
        let ghost mid = self.bots@;
        let ghost gm = self.grid;
        let ghost mut gs: Seq<Grid> = seq![gm];
        let mut i: usize = 0;
        while i < self.bots.len()
            invariant
                i <= self.bots@.len(),
                self.bots@.len() == MAX_BOT_NUMBER,
                self.grid.wf(),
                self.snake == human,
                human.wf(),
                human.player == Player::Human,
                self.phase == phase,
                self.reset_requested == old(self).reset_requested,
                forall|k: int| 0 <= k < self.bots@.len() ==> (#[trigger] self.bots@[k]).wf(),
                forall|k: int| 0 <= k < self.bots@.len() ==> (#[trigger] self.bots@[k]).player == Player::Bot,
                mid.len() == MAX_BOT_NUMBER,
                gs.len() == i + 1,
                gs[0] == gm,
                gs.last() == self.grid,
                forall|k: int| #![trigger self.bots@[k]] 0 <= k < i ==> bot_moved(mid[k], gs[k], self.bots@[k], gs[k + 1]),
                forall|k: int| i <= k < MAX_BOT_NUMBER ==> #[trigger] self.bots@[k] == mid[k],
                conquest_grows(old(self).grid, self.grid),
                trails_sound(human, self.bots@, self.grid),
            decreases self.bots@.len() - i,
        {
            let ghost b_before = self.bots@;
            let ghost g_before = self.grid;
            let rb = update(&mut self.bots[i], &mut self.grid);
            proof {
                let b1 = self.bots@[i as int];
                let d = choose|d: Direction|
                    move_outcome(#[trigger] turned_snake(with_pending(b_before[i as int], d)), g_before, b1, self.grid, rb);
                assert(move_outcome(turned_snake(with_pending(b_before[i as int], d)), g_before, b1, self.grid, rb));
                lemma_move_keeps_conquest(turned_snake(with_pending(b_before[i as int], d)), g_before, b1, self.grid, rb);
                let mover = turned_snake(with_pending(b_before[i as int], d));
                lemma_move_keeps_own_cells(mover, g_before, b1, self.grid, rb);
                lemma_move_spares_others(mover, g_before, b1, self.grid, rb, human);
                assert forall|k: int| 0 <= k < self.bots@.len() && k != i implies body_covered(
                    #[trigger] self.bots@[k],
                    self.grid,
                ) && apart(b1.body@, self.bots@[k].body@) by {
                    assert(b_before[k] == self.bots@[k]);
                    lemma_move_spares_others(mover, g_before, b1, self.grid, rb, self.bots@[k]);
                }
                assert forall|k: int| 0 <= k < self.bots@.len() implies apart(
                    (#[trigger] self.bots@[k]).body@,
                    human.body@,
                ) by {
                    if k != i {
                        assert(b_before[k] == self.bots@[k]);
                    }
                }
                assert forall|k: int, l: int|
                    0 <= k < self.bots@.len() && 0 <= l < self.bots@.len() && k != l implies apart(
                    (#[trigger] self.bots@[k]).body@,
                    (#[trigger] self.bots@[l]).body@,
                ) by {
                    if k == i {
                        assert(apart(b1.body@, self.bots@[l].body@));
                    } else if l == i {
                        assert(apart(b1.body@, self.bots@[k].body@));
                        lemma_apart_symmetric(b1.body@, self.bots@[k].body@);
                    } else {
                        assert(b_before[k] == self.bots@[k]);
                        assert(b_before[l] == self.bots@[l]);
                    }
                }
                let gs0 = gs;
                gs = gs.push(self.grid);
                assert forall|k: int| #![trigger self.bots@[k]] 0 <= k < i + 1 implies bot_moved(
                    mid[k],
                    gs[k],
                    self.bots@[k],
                    gs[k + 1],
                ) by {
                    if k < i {
                        assert(b_before[k] == self.bots@[k]);
                        assert(gs0[k] == gs[k] && gs0[k + 1] == gs[k + 1]);
                    }
                }
                assert forall|x: int, y: int| in_bounds(x, y) && old(self).grid.cell(x, y).conquered implies (
                #[trigger] self.grid.cell(x, y)).conquered by {
                    assert(g_before.cell(x, y).conquered);
                }
            }
            i = i + 1;
        }
        proof {
            assert(play_trace(*old(self), *self, now, gh, pop, mid, gs));
        }
    }

    /// One tick at `now`: a pending reset is carried out first, then the
    /// game steps.
    pub fn tick(&mut self, now: u64)
        requires
            old(self).wf(),
        ensures
            !old(self).reset_requested ==> step_outcome(*old(self), *final(self), now),
            old(self).reset_requested ==> exists|fresh: Game|
                #[trigger] fresh.is_fresh() && step_outcome(fresh, *final(self), now),
            !final(self).reset_requested,
            final(self).bots@.len() == MAX_BOT_NUMBER,
    {
        if self.reset_requested {
            self.reset();
        }
        let ghost before = *self;
        self.step(now);
        proof {
            if old(self).reset_requested {
                assert(before.is_fresh() && step_outcome(before, *self, now));
            }
        }
    }
}

} // verus!
