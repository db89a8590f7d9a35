//! Trails: their movement, collisions, death and respawn.

use vstd::prelude::*;
use crate::grid::{Grid, Player, CellState, in_bounds, in_box};
use crate::random::random_below;

verus! {

/// Half the side of the square conquered around each new human cell.
pub const CONQUERING_RADIUS: i32 = 20;

/// Size of the bot population.
pub const MAX_BOT_NUMBER: usize = 100;

/// A heading on the grid.
#[derive(Clone, Copy, PartialEq, Eq, Structural, Debug)]
pub enum Direction {
    Up,
    Down,
    Left,
    Right,
}

/// A trail: its body, tail first and head last, its heading, the heading
/// asked for next, and its owner. An empty body is a dead trail.
#[derive(Clone, Debug)]
pub struct Snake {
    pub body: Vec<(i32, i32)>,
    pub direction: Direction,
    pub new_direction: Direction,
    pub player: Player,
}

/// The cell `(x, y)` as a body entry.
pub open spec fn pt(x: int, y: int) -> (i32, i32) {
    (x as i32, y as i32)
}

pub open spec fn opposite(d: Direction) -> Direction {
    match d {
        Direction::Up => Direction::Down,
        Direction::Down => Direction::Up,
        Direction::Left => Direction::Right,
        Direction::Right => Direction::Left,
    }
}

/// The heading taken when `pending` is asked for while heading `current`: a
/// reversal is refused.
pub open spec fn turned(current: Direction, pending: Direction) -> Direction {
    if pending == opposite(current) {
        current
    } else {
        pending
    }
}

/// The cell next to `c` in direction `d`.
pub open spec fn next_cell(c: (i32, i32), d: Direction) -> (int, int) {
    match d {
        Direction::Up => (c.0 as int, c.1 - 1),
        Direction::Down => (c.0 as int, c.1 + 1),
        Direction::Left => (c.0 - 1, c.1 as int),
        Direction::Right => (c.0 + 1, c.1 as int),
    }
}

/// Every cell of `body` lies on the grid.
pub open spec fn body_in_bounds(body: Seq<(i32, i32)>) -> bool {
    forall|k: int| 0 <= k < body.len() ==> in_bounds((#[trigger] body[k]).0 as int, body[k].1 as int)
}

/// A trail may not enter `h`: it is off the grid or covered by a trail.
pub open spec fn blocked(g: Grid, h: (int, int)) -> bool {
    !in_bounds(h.0, h.1) || g.cell(h.0, h.1).occupant is Some
}

/// The cell a live trail's next move leads to.
pub open spec fn next_head(s: Snake) -> (int, int) {
    next_cell(s.body@.last(), s.direction)
}

/// A live trail whose next move is fatal.
pub open spec fn dies_on_move(s: Snake, g: Grid) -> bool {
    s.body@.len() > 0 && blocked(g, next_head(s))
}

/// A trail fresh from the spawner: a bot heading right, on at most one cell.
pub open spec fn spawned_bot(s: Snake) -> bool {
    &&& s.player == Player::Bot
    &&& s.direction == Direction::Right
    &&& s.new_direction == Direction::Right
    &&& s.body@.len() <= 1
    &&& body_in_bounds(s.body@)
}

/// The conquest flags and the unconquered list of `g1` are those of `g0`.
pub open spec fn conquest_kept(g0: Grid, g1: Grid) -> bool {
    &&& g1.void() == g0.void()
    &&& forall|x: int, y: int|
        in_bounds(x, y) ==> (#[trigger] g1.cell(x, y)).conquered == g0.cell(x, y).conquered
}

/// What the spawner leaves behind: `g1` is `g0` with the new bot's cell,
/// if any, covered; the cell was free and unconquered.
pub open spec fn spawn_outcome(g0: Grid, s: Snake, g1: Grid) -> bool {
    &&& spawned_bot(s)
    &&& g1.wf()
    &&& conquest_kept(g0, g1)
    &&& forall|x: int, y: int|
        in_bounds(x, y) ==> (#[trigger] g1.cell(x, y)).occupant == if s.body@.contains(pt(x, y)) {
            Some(Player::Bot)
        } else {
            g0.cell(x, y).occupant
        }
    &&& s.body@.len() == 1 ==> {
        &&& g0.cell(s.body@[0].0 as int, s.body@[0].1 as int).occupant is None
        &&& !g0.cell(s.body@[0].0 as int, s.body@[0].1 as int).conquered
    }
    &&& g0.void().len() == 0 ==> s.body@.len() == 0
    &&& s.body@.len() == 0 ==> g1 == g0
}

/// The spawn on entry `k` of `g0`'s unconquered list: the bot stands on that
/// cell when it was free, and is dead when it was covered.
pub open spec fn spawned_on_entry(g0: Grid, s: Snake, k: int) -> bool {
    let c = g0.void()[k];
    if g0.cell(c.0 as int, c.1 as int).occupant is Some {
        s.body@.len() == 0
    } else {
        s.body@ == seq![c]
    }
}

/// One spawn from `g0` to `g1`: when the unconquered list is not empty, the
/// bot comes from one of its entries.
pub open spec fn spawn_step(g0: Grid, s: Snake, g1: Grid) -> bool {
    &&& spawn_outcome(g0, s, g1)
    &&& g0.void().len() > 0 ==> exists|k: int|
        0 <= k < g0.void().len() && #[trigger] spawned_on_entry(g0, s, k)
}

/// `bots` are spawned one after the other, the `k`-th on grid `gs[k]`,
/// leaving grid `gs[k + 1]`.
pub open spec fn spawn_chain(gs: Seq<Grid>, bots: Seq<Snake>) -> bool {
    &&& gs.len() == bots.len() + 1
    &&& forall|k: int| #![trigger bots[k]] 0 <= k < bots.len() ==> spawn_step(gs[k], bots[k], gs[k + 1])
}

impl Snake {
    pub open spec fn wf(&self) -> bool {
        body_in_bounds(self.body@)
    }

    /// A dead bot, heading right.
    pub fn placeholder_bot() -> (s: Snake)
        ensures
            spawned_bot(s),
            s.body@.len() == 0,
    {
        Snake {
            body: Vec::new(),
            direction: Direction::Right,
            new_direction: Direction::Right,
            player: Player::Bot,
        }
    }
}

/// The starting human trail: four cells from `(20, 20)` to `(23, 20)`,
/// heading right.
pub fn initialize_snake() -> (s: Snake)
    ensures
        s.body@ == seq![(20i32, 20i32), (21i32, 20i32), (22i32, 20i32), (23i32, 20i32)],
        s.direction == Direction::Right,
        s.new_direction == Direction::Right,
        s.player == Player::Human,
        s.wf(),
{
    let mut body: Vec<(i32, i32)> = Vec::new();
    body.push((20, 20));
    body.push((21, 20));
    body.push((22, 20));
    body.push((23, 20));
    Snake { body, direction: Direction::Right, new_direction: Direction::Right, player: Player::Human }
}

/// Places a bot on entry `k` of the unconquered list: on that cell when it is
/// free, else nowhere.
pub fn spawn_bot_at(grid: &mut Grid, k: usize) -> (s: Snake)
    requires
        old(grid).wf(),
        k < old(grid).void().len(),
    ensures
        spawn_outcome(*old(grid), s, *final(grid)),
        ({
            let c = old(grid).void()[k as int];
            if old(grid).cell(c.0 as int, c.1 as int).occupant is Some {
                s.body@.len() == 0
            } else {
                s.body@ == seq![c]
            }
        }),
{
    let (x, y) = grid.void_at(k);
    proof {
        crate::grid::lemma_void_entry(*grid, k as int);
    }
    if grid.occupant_at(x, y).is_some() {
        return Snake::placeholder_bot();
    }
    grid.set_occupant(x, y, Some(Player::Bot));
    let mut body: Vec<(i32, i32)> = Vec::new();
    body.push((x, y));
    let s = Snake { body, direction: Direction::Right, new_direction: Direction::Right, player: Player::Bot };
    proof {
        assert forall|a: int, b: int| in_bounds(a, b) implies (s.body@.contains(pt(a, b)) <==> (a == x && b == y)) by {
            if s.body@.contains(pt(a, b)) {
                let j = choose|j: int| 0 <= j < s.body@.len() && s.body@[j] == pt(a, b);
                assert(j == 0);
            }
            if a == x && b == y {
                assert(s.body@[0] == pt(a, b));
            }
        }
    }
    s
}

/// Places a bot on a cell drawn at random from the unconquered list; a dead
/// bot when the list is empty or the drawn cell is covered.
pub fn initialize_snake_bot(grid: &mut Grid) -> (s: Snake)
    requires
        old(grid).wf(),
    ensures
        spawn_step(*old(grid), s, *final(grid)),
{
    let n = grid.void_len();
    if n == 0 {
        return Snake::placeholder_bot();
    }
    let k = random_below(n);
    let s = spawn_bot_at(grid, k);
    proof {
        assert(spawned_on_entry(*old(grid), s, k as int));
    }
    s
}

/// What a trail's move leaves behind, `s0`/`g0` before and `s1`/`g1` after,
/// with result `r`: 1 when it advanced, 0 when it was dead already or died.
/// A human that dies stays as it was; a bot that dies leaves the grid and a
/// freshly spawned bot takes its place.
pub open spec fn move_outcome(s0: Snake, g0: Grid, s1: Snake, g1: Grid, r: u32) -> bool {
    let h = next_head(s0);
    &&& g1.wf()
    &&& s1.wf()
    &&& if s0.body@.len() == 0 {
        &&& r == 0
        &&& s1 == s0
        &&& g1.cells() == g0.cells()
        &&& g1.void() == g0.void()
    } else if blocked(g0, h) {
        &&& r == 0
        &&& if s0.player == Player::Human {
            &&& s1 == s0
            &&& g1.cells() == g0.cells()
            &&& g1.void() == g0.void()
        } else {
            &&& spawned_bot(s1)
            &&& conquest_kept(g0, g1)
            &&& forall|x: int, y: int|
                in_bounds(x, y) ==> (#[trigger] g1.cell(x, y)).occupant == if s1.body@.contains(
                    pt(x, y),
                ) {
                    Some(Player::Bot)
                } else if s0.body@.contains(pt(x, y)) {
                    None
                } else {
                    g0.cell(x, y).occupant
                }
            &&& s1.body@.len() == 1 ==> {
                let c = s1.body@[0];
                &&& !g0.cell(c.0 as int, c.1 as int).conquered
                &&& (g0.cell(c.0 as int, c.1 as int).occupant is None || s0.body@.contains(c))
            }
            &&& g0.void().len() == 0 ==> s1.body@.len() == 0
            &&& exists|gm: Grid| #[trigger] cleared(g0, s0.body@, gm) && spawn_step(gm, s1, g1)
        }
    } else {
        &&& r == 1
        &&& s1.body@ == s0.body@.push(pt(h.0, h.1))
        &&& s1.direction == s0.direction
        &&& s1.new_direction == s0.new_direction
        &&& s1.player == s0.player
        &&& forall|x: int, y: int|
            in_bounds(x, y) ==> (#[trigger] g1.cell(x, y)).occupant == if x == h.0 && y == h.1 {
                Some(s0.player)
            } else {
                g0.cell(x, y).occupant
            }
        &&& forall|x: int, y: int|
            in_bounds(x, y) ==> (#[trigger] g1.cell(x, y)).conquered == (g0.cell(x, y).conquered || (
            s0.player == Player::Human && in_box(h.0, h.1, CONQUERING_RADIUS as int, x, y)))
        &&& s0.player == Player::Bot ==> g1.void() == g0.void()
    }
}

/// `g1` is `g0` with every cell of `body` freed.
pub open spec fn cleared(g0: Grid, body: Seq<(i32, i32)>, g1: Grid) -> bool {
    &&& g1.wf()
    &&& conquest_kept(g0, g1)
    &&& forall|x: int, y: int|
        in_bounds(x, y) ==> (#[trigger] g1.cell(x, y)).occupant == if body.contains(pt(x, y)) {
            None
        } else {
            g0.cell(x, y).occupant
        }
}

/// Frees every cell of `body`.
pub fn clear_body(grid: &mut Grid, body: &Vec<(i32, i32)>)
    requires
        old(grid).wf(),
        body_in_bounds(body@),
    ensures
        final(grid).wf(),
        conquest_kept(*old(grid), *final(grid)),
        forall|x: int, y: int|
            in_bounds(x, y) ==> (#[trigger] final(grid).cell(x, y)).occupant == if body@.contains(
                pt(x, y),
            ) {
                None
            } else {
                old(grid).cell(x, y).occupant
            },
{
    let mut i: usize = 0;
    while i < body.len()
        invariant
            i <= body@.len(),
            body_in_bounds(body@),
            grid.wf(),
            conquest_kept(*old(grid), *grid),
            forall|x: int, y: int|
                in_bounds(x, y) ==> (#[trigger] grid.cell(x, y)).occupant == if body@.subrange(
                    0,
                    i as int,
                ).contains(pt(x, y)) {
                    None
                } else {
                    old(grid).cell(x, y).occupant
                },
        decreases body@.len() - i,
    {
        let (x, y) = body[i];
        grid.set_occupant(x, y, None);
        proof {
            assert forall|a: int, b: int| in_bounds(a, b) implies (body@.subrange(0, i + 1).contains(
                pt(a, b),
            ) <==> (body@.subrange(0, i as int).contains(pt(a, b)) || (a == x && b == y))) by {
                let pre = body@.subrange(0, i as int);
                let post = body@.subrange(0, i + 1);
                if post.contains(pt(a, b)) {
                    let j = choose|j: int| 0 <= j < post.len() && post[j] == pt(a, b);
                    if j < i {
                        assert(pre[j] == pt(a, b));
                    }
                }
                if pre.contains(pt(a, b)) {
                    let j = choose|j: int| 0 <= j < pre.len() && pre[j] == pt(a, b);
                    assert(post[j] == pt(a, b));
                }
                if a == x && b == y {
                    assert(post[i as int] == pt(a, b));
                }
            }
        }
        i = i + 1;
    }
    proof {
        assert(body@.subrange(0, body@.len() as int) =~= body@);
    }
}

/// Moves a trail one cell along its heading. A live trail advances onto a
/// free grid cell, covering it; a human trail then conquers the square of
/// radius `CONQUERING_RADIUS` around its new head. A move off the grid or
/// onto any covered cell, its own body included, kills the trail: a human
/// trail is left as it is, a bot trail frees its cells and is replaced by a
/// freshly spawned bot.
pub fn move_snake(snake: &mut Snake, grid: &mut Grid) -> (r: u32)
    requires
        old(grid).wf(),
        old(snake).wf(),
    ensures
        move_outcome(*old(snake), *old(grid), *final(snake), *final(grid), r),
{
    let n = snake.body.len();
    if n == 0 {
        return 0;
    }
    let (hx, hy) = snake.body[n - 1];
    let (nx, ny) = match snake.direction {
        Direction::Up => (hx, hy - 1),
        Direction::Down => (hx, hy + 1),
        Direction::Left => (hx - 1, hy),
        Direction::Right => (hx + 1, hy),
    };
    let is_blocked = if nx < 0 || nx >= crate::grid::GRID_WIDTH || ny < 0 || ny
        >= crate::grid::GRID_HEIGHT {
        true
    } else {
        grid.occupant_at(nx, ny).is_some()
    };
    if is_blocked {
        if snake.player == Player::Human {
            return 0;
        }
        let ghost g0 = *grid;
        clear_body(grid, &snake.body);
        let ghost g_mid = *grid;
        *snake = initialize_snake_bot(grid);
        proof {
            assert(cleared(g0, old(snake).body@, g_mid) && spawn_step(g_mid, *snake, *grid));
            assert forall|x: int, y: int| in_bounds(x, y) implies (#[trigger] grid.cell(x, y)).conquered
                == g0.cell(x, y).conquered by {
                assert(g_mid.cell(x, y).conquered == g0.cell(x, y).conquered);
            }
            if snake.body@.len() == 1 {
                let c = snake.body@[0];
                assert(in_bounds(c.0 as int, c.1 as int));
                assert(pt(c.0 as int, c.1 as int) == c);
                assert(g_mid.cell(c.0 as int, c.1 as int).conquered == g0.cell(c.0 as int, c.1 as int).conquered);
            }
        }
        return 0;
    }
    snake.body.push((nx, ny));
    grid.set_occupant(nx, ny, Some(snake.player));
    if snake.player == Player::Human {
        grid.conquer_radius(nx, ny, CONQUERING_RADIUS);
        let ghost g2 = *grid;
        grid.rebuild_unconquered();
        proof {
            assert forall|x: int, y: int| in_bounds(x, y) implies (#[trigger] grid.cell(x, y)) == g2.cell(x, y) by {}
        }
    }
    1
}

/// The direction numbered `i`: Up, Down, Left, Right for 0 to 3.
pub open spec fn direction_index(i: int) -> Direction {
    if i == 0 {
        Direction::Up
    } else if i == 1 {
        Direction::Down
    } else if i == 2 {
        Direction::Left
    } else {
        Direction::Right
    }
}

/// `s` with pending heading `d`.
pub open spec fn with_pending(s: Snake, d: Direction) -> Snake {
    Snake { body: s.body, direction: s.direction, new_direction: d, player: s.player }
}

/// `s` after the reversal guard: both headings become the turned heading.
pub open spec fn turned_snake(s: Snake) -> Snake {
    let t = turned(s.direction, s.new_direction);
    Snake { body: s.body, direction: t, new_direction: t, player: s.player }
}

/// A bot's heading churn: on a roll of 0 its pending heading becomes the
/// direction numbered `choice`; on any other roll nothing changes.
pub fn churn_heading(snake: &mut Snake, roll: usize, choice: usize)
    requires
        choice < 4,
    ensures
        *final(snake) == if roll == 0 {
            with_pending(*old(snake), direction_index(choice as int))
        } else {
            *old(snake)
        },
{
    if roll == 0 {
        snake.new_direction = match choice {
            0 => Direction::Up,
            1 => Direction::Down,
            2 => Direction::Left,
            _ => Direction::Right,
        };
    }
}

/// Applies the reversal guard and takes the resulting heading.
pub fn apply_turn(snake: &mut Snake)
    ensures
        *final(snake) == turned_snake(*old(snake)),
{
    match snake.new_direction {
        Direction::Up => if snake.direction == Direction::Down {
            snake.new_direction = Direction::Down;
        },
        Direction::Down => if snake.direction == Direction::Up {
            snake.new_direction = Direction::Up;
        },
        Direction::Left => if snake.direction == Direction::Right {
            snake.new_direction = Direction::Right;
        },
        Direction::Right => if snake.direction == Direction::Left {
            snake.new_direction = Direction::Left;
        },
    }
    snake.direction = snake.new_direction;
}

/// One tick of one trail: a bot first changes its pending heading with
/// chance 1/6 to one of the four directions drawn uniformly; then the
/// reversal guard applies and the trail moves.
pub fn update(snake: &mut Snake, grid: &mut Grid) -> (r: u32)
    requires
        old(grid).wf(),
        old(snake).wf(),
    ensures
        old(snake).player == Player::Human ==> move_outcome(
            turned_snake(*old(snake)),
            *old(grid),
            *final(snake),
            *final(grid),
            r,
        ),
        old(snake).player == Player::Bot ==> exists|d: Direction|
            move_outcome(
                #[trigger] turned_snake(with_pending(*old(snake), d)),
                *old(grid),
                *final(snake),
                *final(grid),
                r,
            ),
{
    let ghost s0 = *snake;
    if snake.player == Player::Bot {
        let roll = random_below(6);
        let choice = if roll == 0 {
            random_below(4)
        } else {
            0
        };
        churn_heading(snake, roll, choice);
    }
    let ghost s1 = *snake;
    apply_turn(snake);
    let r = move_snake(snake, grid);
    proof {
        if s0.player == Player::Bot {
            assert(s1 == with_pending(s0, s1.new_direction));
            assert(move_outcome(turned_snake(with_pending(s0, s1.new_direction)), *old(grid), *snake, *grid, r));
        }
    }
    r
}

/// Cell `(x, y)` lies in the conquering square of one of the first `n`
/// cells of `body`.
pub open spec fn covered(body: Seq<(i32, i32)>, n: int, x: int, y: int) -> bool
    decreases n,
{
    n > 0 && (covered(body, n - 1, x, y) || in_box(
        body[n - 1].0 as int,
        body[n - 1].1 as int,
        CONQUERING_RADIUS as int,
        x,
        y,
    ))
}

proof fn lemma_prefix_contains(body: Seq<(i32, i32)>, i: int, x: int, y: int)
    requires
        0 <= i < body.len(),
        in_bounds(x, y),
    ensures
        body.subrange(0, i + 1).contains(pt(x, y)) <==> (body.subrange(0, i).contains(pt(x, y)) || (
        x == body[i].0 && y == body[i].1)),
{
    let pre = body.subrange(0, i);
    let post = body.subrange(0, i + 1);
    if post.contains(pt(x, y)) {
        let j = choose|j: int| 0 <= j < post.len() && post[j] == pt(x, y);
        if j < i {
            assert(pre[j] == pt(x, y));
        }
    }
    if pre.contains(pt(x, y)) {
        let j = choose|j: int| 0 <= j < pre.len() && pre[j] == pt(x, y);
        assert(post[j] == pt(x, y));
    }
    if x == body[i].0 && y == body[i].1 {
        assert(post[i] == pt(x, y));
    }
}

/// A fresh grid for the human trail `snake`: its cells covered by the
/// human, and every cell within the conquering square of one of them
/// conquered.
pub fn initialize_map(snake: &Snake) -> (g: Grid)
    requires
        snake.wf(),
    ensures
        g.wf(),
        forall|x: int, y: int|
            in_bounds(x, y) ==> (#[trigger] g.cell(x, y)).conquered == covered(
                snake.body@,
                snake.body@.len() as int,
                x,
                y,
            ),
        forall|x: int, y: int|
            in_bounds(x, y) ==> (#[trigger] g.cell(x, y)).occupant == if snake.body@.contains(
                pt(x, y),
            ) {
                Some(Player::Human)
            } else {
                None
            },
{
    let mut g = Grid::blank();
    let mut i: usize = 0;
    while i < snake.body.len()
        invariant
            i <= snake.body@.len(),
            snake.wf(),
            g.wf(),
            forall|x: int, y: int|
                in_bounds(x, y) ==> (#[trigger] g.cell(x, y)).conquered == covered(
                    snake.body@,
                    i as int,
                    x,
                    y,
                ),
            forall|x: int, y: int|
                in_bounds(x, y) ==> (#[trigger] g.cell(x, y)).occupant == if snake.body@.subrange(
                    0,
                    i as int,
                ).contains(pt(x, y)) {
                    Some(Player::Human)
                } else {
                    None
                },
        decreases snake.body@.len() - i,
    {
        let (x, y) = snake.body[i];
        g.set_occupant(x, y, Some(Player::Human));
        g.conquer_radius(x, y, CONQUERING_RADIUS);
        let ghost g2 = g;
        g.rebuild_unconquered();
        proof {
            assert forall|a: int, b: int| in_bounds(a, b) implies (#[trigger] g.cell(a, b)) == g2.cell(
                a,
                b,
            ) by {}
            assert forall|a: int, b: int| in_bounds(a, b) implies snake.body@.subrange(0, i + 1).contains(
                pt(a, b),
            ) == (snake.body@.subrange(0, i as int).contains(pt(a, b)) || (a == x && b == y)) by {
                lemma_prefix_contains(snake.body@, i as int, a, b);
            }
        }
        i = i + 1;
    }
    proof {
        assert(snake.body@.subrange(0, snake.body@.len() as int) =~= snake.body@);
    }
    g
}

/// Some trail of `bots` covers `(x, y)`.
pub open spec fn bots_cover(bots: Seq<Snake>, x: int, y: int) -> bool {
    exists|k: int| 0 <= k < bots.len() && (#[trigger] bots[k]).body@.contains(pt(x, y))
}

/// Spawns `count` bots one after the other.
pub fn spawn_population(grid: &mut Grid, count: usize) -> (bots: Vec<Snake>)
    requires
        old(grid).wf(),
    ensures
        bots@.len() == count,
        exists|gs: Seq<Grid>|
            #[trigger] spawn_chain(gs, bots@) && gs[0] == *old(grid) && gs.last() == *final(grid),
        forall|k: int| 0 <= k < bots@.len() ==> spawned_bot(#[trigger] bots@[k]),
        forall|k: int| 0 <= k < bots@.len() ==> body_covered(#[trigger] bots@[k], *final(grid)),
        forall|k: int, l: int|
            0 <= k < bots@.len() && 0 <= l < bots@.len() && k != l ==> apart(
                (#[trigger] bots@[k]).body@,
                (#[trigger] bots@[l]).body@,
            ),
        final(grid).wf(),
        conquest_kept(*old(grid), *final(grid)),
        forall|x: int, y: int|
            in_bounds(x, y) ==> (#[trigger] final(grid).cell(x, y)).occupant == if bots_cover(
                bots@,
                x,
                y,
            ) {
                Some(Player::Bot)
            } else {
                old(grid).cell(x, y).occupant
            },
{
    let mut bots: Vec<Snake> = Vec::new();
    let ghost mut gs: Seq<Grid> = seq![*grid];
    let mut i: usize = 0;
    while i < count
        invariant
            i <= count,
            bots@.len() == i,
            spawn_chain(gs, bots@),
            gs[0] == *old(grid),
            gs.last() == *grid,
            forall|k: int| 0 <= k < bots@.len() ==> spawned_bot(#[trigger] bots@[k]),
            grid.wf(),
            conquest_kept(*old(grid), *grid),
            forall|x: int, y: int|
                in_bounds(x, y) ==> (#[trigger] grid.cell(x, y)).occupant == if bots_cover(
                    bots@,
                    x,
                    y,
                ) {
                    Some(Player::Bot)
                } else {
                    old(grid).cell(x, y).occupant
                },
        decreases count - i,
    {
        let ghost g0 = *grid;
        let ghost b0 = bots@;
        let s = initialize_snake_bot(grid);
        bots.push(s);
        proof {
            let gs0 = gs;
            gs = gs.push(*grid);
            assert forall|k: int| #![trigger bots@[k]] 0 <= k < bots@.len() implies spawn_step(
                gs[k],
                bots@[k],
                gs[k + 1],
            ) by {
                if k < i {
                    assert(b0[k] == bots@[k]);
                    assert(gs0[k] == gs[k] && gs0[k + 1] == gs[k + 1]);
                }
            }
            assert forall|x: int, y: int| in_bounds(x, y) implies bots_cover(bots@, x, y) == (bots_cover(
                b0,
                x,
                y,
            ) || s.body@.contains(pt(x, y))) by {
                if bots_cover(b0, x, y) {
                    let k = choose|k: int| 0 <= k < b0.len() && (#[trigger] b0[k]).body@.contains(pt(x, y));
                    assert(bots@[k] == b0[k]);
                }
                if s.body@.contains(pt(x, y)) {
                    assert(bots@[i as int] == s);
                }
                if bots_cover(bots@, x, y) {
                    let k = choose|k: int| 0 <= k < bots@.len() && (#[trigger] bots@[k]).body@.contains(pt(x, y));
                    if k < i {
                        assert(b0[k] == bots@[k]);
                    }
                }
            }
            assert forall|x: int, y: int| in_bounds(x, y) implies (#[trigger] grid.cell(x, y)).conquered
                == old(grid).cell(x, y).conquered by {
                assert(g0.cell(x, y).conquered == old(grid).cell(x, y).conquered);
            }
        }
        i = i + 1;
    }
    let idle = Snake::placeholder_bot();
    proof {
        lemma_spawn_chain_apart(gs, bots@, count as int, idle);
    }
    bots
}

/// The starting bot population: `MAX_BOT_NUMBER` spawns.
pub fn initialize_snake_bots(grid: &mut Grid) -> (bots: Vec<Snake>)
    requires
        old(grid).wf(),
    ensures
        bots@.len() == MAX_BOT_NUMBER,
        exists|gs: Seq<Grid>|
            #[trigger] spawn_chain(gs, bots@) && gs[0] == *old(grid) && gs.last() == *final(grid),
        forall|k: int| 0 <= k < bots@.len() ==> spawned_bot(#[trigger] bots@[k]),
        forall|k: int| 0 <= k < bots@.len() ==> body_covered(#[trigger] bots@[k], *final(grid)),
        forall|k: int, l: int|
            0 <= k < bots@.len() && 0 <= l < bots@.len() && k != l ==> apart(
                (#[trigger] bots@[k]).body@,
                (#[trigger] bots@[l]).body@,
            ),
        final(grid).wf(),
        conquest_kept(*old(grid), *final(grid)),
        forall|x: int, y: int|
            in_bounds(x, y) ==> (#[trigger] final(grid).cell(x, y)).occupant == if bots_cover(
                bots@,
                x,
                y,
            ) {
                Some(Player::Bot)
            } else {
                old(grid).cell(x, y).occupant
            },
{
    spawn_population(grid, MAX_BOT_NUMBER)
}

/// Running into one's own body is fatal by the same rule as running into
/// any other trail: for a trail whose cells are covered by itself and whose
/// next cell is one of them, every outcome of its move is a death, a human
/// left as it was, a bot replaced by a fresh spawn.
pub proof fn lemma_self_collision(s: Snake, g: Grid, k: int)
    requires
        g.wf(),
        s.wf(),
        body_covered(s, g),
        0 <= k < s.body@.len(),
        next_head(s) == (s.body@[k].0 as int, s.body@[k].1 as int),
    ensures
        dies_on_move(s, g),
        g.cell(next_head(s).0, next_head(s).1).occupant is Some,
        forall|s1: Snake, g1: Grid, r: u32|
            #[trigger] move_outcome(s, g, s1, g1, r) ==> {
                &&& r == 0
                &&& s.player == Player::Human ==> s1 == s && g1.cells() == g.cells() && g1.void()
                    == g.void()
                &&& s.player == Player::Bot ==> spawned_bot(s1) && conquest_kept(g, g1)
            },
{
    assert(g.cell(s.body@[k].0 as int, s.body@[k].1 as int).occupant == Some(s.player));
}

/// Every cell conquered in `g0` is conquered in `g1`.
pub open spec fn conquest_grows(g0: Grid, g1: Grid) -> bool {
    forall|x: int, y: int|
        in_bounds(x, y) && g0.cell(x, y).conquered ==> (#[trigger] g1.cell(x, y)).conquered
}

/// A move never gives up a conquered cell.
pub proof fn lemma_move_keeps_conquest(s0: Snake, g0: Grid, s1: Snake, g1: Grid, r: u32)
    requires
        move_outcome(s0, g0, s1, g1, r),
    ensures
        conquest_grows(g0, g1),
{
    assert forall|x: int, y: int| in_bounds(x, y) && g0.cell(x, y).conquered implies (
    #[trigger] g1.cell(x, y)).conquered by {}
}

/// Every cell of `s`'s body is covered on `g` by `s`'s owner.
pub open spec fn body_covered(s: Snake, g: Grid) -> bool {
    forall|j: int|
        0 <= j < s.body@.len() ==> g.cell((#[trigger] s.body@[j]).0 as int, s.body@[j].1 as int).occupant
            == Some(s.player)
}

/// No cell lies in both `a` and `b`.
pub open spec fn apart(a: Seq<(i32, i32)>, b: Seq<(i32, i32)>) -> bool {
    forall|i: int, j: int| 0 <= i < a.len() && 0 <= j < b.len() ==> #[trigger] a[i] != #[trigger] b[j]
}

/// A moving trail whose cells are covered keeps them covered.
pub proof fn lemma_move_keeps_own_cells(s0: Snake, g0: Grid, s1: Snake, g1: Grid, r: u32)
    requires
        move_outcome(s0, g0, s1, g1, r),
        s0.wf(),
        body_covered(s0, g0),
    ensures
        body_covered(s1, g1),
{
    assert forall|j: int| 0 <= j < s1.body@.len() implies g1.cell(
        (#[trigger] s1.body@[j]).0 as int,
        s1.body@[j].1 as int,
    ).occupant == Some(s1.player) by {
        let c = s1.body@[j];
        if s1.body@.len() == 1 && s0.body@.len() > 0 && blocked(g0, next_head(s0)) && s0.player
            == Player::Bot {
            assert(pt(c.0 as int, c.1 as int) == c);
            assert(s1.body@[0] == c);
        } else if s0.body@.len() > 0 && !blocked(g0, next_head(s0)) {
            if j < s0.body@.len() {
                assert(s0.body@[j] == c);
            }
        }
    }
}

/// A move leaves another trail's covered cells covered, and the mover stays
/// clear of them.
pub proof fn lemma_move_spares_others(s0: Snake, g0: Grid, s1: Snake, g1: Grid, r: u32, t: Snake)
    requires
        move_outcome(s0, g0, s1, g1, r),
        s0.wf(),
        t.wf(),
        body_covered(s0, g0),
        body_covered(t, g0),
        apart(s0.body@, t.body@),
    ensures
        body_covered(t, g1),
        apart(s1.body@, t.body@),
{
    let h = next_head(s0);
    assert forall|j: int| 0 <= j < t.body@.len() implies g1.cell(
        (#[trigger] t.body@[j]).0 as int,
        t.body@[j].1 as int,
    ).occupant == Some(t.player) by {
        let c = t.body@[j];
        assert(pt(c.0 as int, c.1 as int) == c);
        assert(g0.cell(c.0 as int, c.1 as int).occupant == Some(t.player));
        if s0.body@.contains(c) {
            let i = choose|i: int| 0 <= i < s0.body@.len() && s0.body@[i] == c;
            assert(s0.body@[i] != t.body@[j]);
        }
        if s1.body@.contains(c) {
            let i = choose|i: int| 0 <= i < s1.body@.len() && s1.body@[i] == c;
            if s0.body@.len() > 0 && blocked(g0, h) && s0.player == Player::Bot {
                assert(i == 0);
            }
        }
    }
    assert forall|i: int, j: int| 0 <= i < s1.body@.len() && 0 <= j < t.body@.len() implies #[trigger] s1.body@[i]
        != #[trigger] t.body@[j] by {
        let c = t.body@[j];
        assert(pt(c.0 as int, c.1 as int) == c);
        assert(g0.cell(c.0 as int, c.1 as int).occupant == Some(t.player));
        if s0.body@.len() > 0 && blocked(g0, h) && s0.player == Player::Bot {
            if s1.body@[i] == c {
                assert(i == 0);
                if s0.body@.contains(c) {
                    let m = choose|m: int| 0 <= m < s0.body@.len() && s0.body@[m] == c;
                    assert(s0.body@[m] != t.body@[j]);
                }
            }
        } else if s0.body@.len() > 0 && !blocked(g0, h) {
            if i < s0.body@.len() {
                assert(s0.body@[i] == s1.body@[i]);
            }
        }
    }
}

/// A spawn covers the new bot's cell and leaves other trails' covered cells
/// covered and clear of it.
pub proof fn lemma_spawn_spares_others(g0: Grid, s: Snake, g1: Grid, t: Snake)
    requires
        spawn_step(g0, s, g1),
        t.wf(),
        body_covered(t, g0),
    ensures
        body_covered(s, g1),
        body_covered(t, g1),
        apart(s.body@, t.body@),
{
    if s.body@.len() == 1 {
        let c = s.body@[0];
        assert(pt(c.0 as int, c.1 as int) == c);
        assert(s.body@.contains(c));
        assert forall|j: int| 0 <= j < t.body@.len() implies g1.cell(
            (#[trigger] t.body@[j]).0 as int,
            t.body@[j].1 as int,
        ).occupant == Some(t.player) by {
            let d = t.body@[j];
            assert(pt(d.0 as int, d.1 as int) == d);
            if s.body@.contains(d) {
                let i = choose|i: int| 0 <= i < s.body@.len() && s.body@[i] == d;
                assert(i == 0);
            }
        }
        assert forall|i: int, j: int| 0 <= i < s.body@.len() && 0 <= j < t.body@.len() implies #[trigger] s.body@[i]
            != #[trigger] t.body@[j] by {
            let d = t.body@[j];
            assert(pt(d.0 as int, d.1 as int) == d);
        }
    }
}

/// Bots spawned one after the other are covered on the last grid, apart from
/// each other and from a trail `t` covered on the first grid, which stays
/// covered.
pub proof fn lemma_spawn_chain_apart(gs: Seq<Grid>, bots: Seq<Snake>, n: int, t: Snake)
    requires
        spawn_chain(gs, bots),
        0 <= n <= bots.len(),
        t.wf(),
        body_covered(t, gs[0]),
    ensures
        body_covered(t, gs[n]),
        forall|k: int| 0 <= k < n ==> body_covered(#[trigger] bots[k], gs[n]),
        forall|k: int| 0 <= k < n ==> apart((#[trigger] bots[k]).body@, t.body@),
        forall|k: int, l: int|
            0 <= k < n && 0 <= l < n && k != l ==> apart((#[trigger] bots[k]).body@, (#[trigger] bots[l]).body@),
    decreases n,
{
    if n > 0 {
        lemma_spawn_chain_apart(gs, bots, n - 1, t);
        let m = n - 1;
        assert(spawn_step(gs[m], bots[m], gs[m + 1]));
        assert(spawned_bot(bots[m]));
        lemma_spawn_spares_others(gs[m], bots[m], gs[n], t);
        assert forall|k: int| 0 <= k < m implies body_covered(#[trigger] bots[k], gs[n]) && apart(
            bots[m].body@,
            bots[k].body@,
        ) by {
            assert(spawned_bot(bots[k]));
            lemma_spawn_spares_others(gs[m], bots[m], gs[n], bots[k]);
        }
        assert forall|k: int, l: int|
            0 <= k < n && 0 <= l < n && k != l implies apart((#[trigger] bots[k]).body@, (#[trigger] bots[l]).body@) by {
            if k == m {
                assert(apart(bots[m].body@, bots[l].body@));
            } else if l == m {
                assert(apart(bots[m].body@, bots[k].body@));
            }
        }
    }
}

/// `apart` does not depend on the order of its arguments.
pub proof fn lemma_apart_symmetric(a: Seq<(i32, i32)>, b: Seq<(i32, i32)>)
    requires
        apart(a, b),
    ensures
        apart(b, a),
{
    assert forall|i: int, j: int| 0 <= i < b.len() && 0 <= j < a.len() implies #[trigger] b[i] != #[trigger] a[j] by {
        assert(a[j] != b[i]);
    }
}

} // verus!
