//! The mathematical model of the automaton.
//!
//! A generation is a `Seq<bool>` in row-major order on a `w` by `h` grid.
//! Every cell has eight neighbors under toroidal wraparound, and one
//! generation becomes the next under the classic rule: a live cell survives
//! on two or three live neighbors, a dead cell is born on exactly three.
use vstd::prelude::*;
use vstd::arithmetic::div_mod::lemma_div_pos_is_pos;
use vstd::arithmetic::div_mod::lemma_fundamental_div_mod;
use vstd::arithmetic::div_mod::lemma_fundamental_div_mod_converse;
use vstd::arithmetic::div_mod::lemma_mod_add_multiples_vanish;
use vstd::arithmetic::div_mod::lemma_mod_division_less_than_divisor;
use vstd::arithmetic::div_mod::lemma_mod_multiples_basic;
use vstd::arithmetic::div_mod::lemma_multiply_divide_lt;
use vstd::arithmetic::div_mod::lemma_small_mod;

verus! {

/// Counts a boolean as one or zero, for summing live neighbors.
pub open spec fn one_if(b: bool) -> int {
    if b {
        1
    } else {
        0
    }
}

/// Row-major index of cell (x, y) on a grid `w` cells wide.
pub open spec fn cell_index(x: int, y: int, w: int) -> int {
    y * w + x
}

/// Toroidal wraparound of `v + d` on a ring of size `m`.
pub open spec fn wrap_add(v: int, d: int, m: int) -> int {
    (v + d + m) % m
}

/// The state of cell (x, y) in generation `s` of a grid `w` cells wide.
pub open spec fn cell_at(s: Seq<bool>, w: int, x: int, y: int) -> bool {
    s[cell_index(x, y, w)]
}

/// The state of the neighbor of (x, y) at offset (dx, dy), with wraparound.
pub open spec fn neighbor_live(
    s: Seq<bool>,
    w: int,
    h: int,
    x: int,
    y: int,
    dx: int,
    dy: int,
) -> bool {
    cell_at(s, w, wrap_add(x, dx, w), wrap_add(y, dy, h))
}

/// How many of the eight toroidal neighbors of (x, y) are alive.
pub open spec fn neighbors_alive(s: Seq<bool>, w: int, h: int, x: int, y: int) -> int {
    one_if(neighbor_live(s, w, h, x, y, -1, -1)) + one_if(neighbor_live(s, w, h, x, y, 0, -1))
        + one_if(neighbor_live(s, w, h, x, y, 1, -1)) + one_if(
        neighbor_live(s, w, h, x, y, -1, 0),
    ) + one_if(neighbor_live(s, w, h, x, y, 1, 0)) + one_if(neighbor_live(s, w, h, x, y, -1, 1))
        + one_if(neighbor_live(s, w, h, x, y, 0, 1)) + one_if(neighbor_live(s, w, h, x, y, 1, 1))
}

/// The birth/survival rule: survival on two or three neighbors, birth on three.
pub open spec fn next_cell_rule(alive: bool, n: int) -> bool {
    (alive && (n == 2 || n == 3)) || (!alive && n == 3)
}

/// One synchronous generation: every cell updated from the same old state.
pub open spec fn step_seq(s: Seq<bool>, w: int, h: int) -> Seq<bool> {
    Seq::new((w * h) as nat, |i: int| next_cell_rule(s[i], neighbors_alive(s, w, h, i % w, i / w)))
}

/// `n` generations, the last one applied outermost.
pub open spec fn steps_seq(s: Seq<bool>, w: int, h: int, n: nat) -> Seq<bool>
    decreases n,
{
    if n == 0 {
        s
    } else {
        step_seq(steps_seq(s, w, h, (n - 1) as nat), w, h)
    }
}

/// Age bookkeeping for one cell across a step: a newborn starts at one,
/// a survivor gains one, a dead cell holds no age.
pub open spec fn next_age_rule(age: int, was_alive: bool, now_alive: bool) -> int {
    if now_alive {
        if was_alive {
            age + 1
        } else {
            1
        }
    } else {
        0
    }
}

/// Wraparound stays on the ring, and is the plain sum away from the edges.
pub proof fn lemma_wrap_add(v: int, d: int, m: int)
    requires
        m >= 1,
        0 <= v < m,
        -1 <= d <= 1,
    ensures
        wrap_add(v, d, m) == if v + d < 0 {
            m - 1
        } else if v + d >= m {
            0
        } else {
            v + d
        },
        0 <= wrap_add(v, d, m) < m,
{
    if v + d < 0 {
        lemma_small_mod((m - 1) as nat, m as nat);
    } else if v + d >= m {
        lemma_mod_multiples_basic(2, m);
    } else {
        lemma_mod_add_multiples_vanish(v + d, m);
        lemma_small_mod((v + d) as nat, m as nat);
    }
}

/// A cell's row-major index lies within the grid's cell count.
pub proof fn lemma_cell_index_bounds(x: int, y: int, w: int, h: int)
    requires
        0 <= x < w,
        0 <= y < h,
    ensures
        0 <= cell_index(x, y, w) < w * h,
{
    assert(0 <= y * w + x < w * h) by (nonlinear_arith)
        requires
            0 <= x < w,
            0 <= y < h,
    ;
}

/// Reading one generation ahead at (x, y) applies the rule at (x, y).
pub proof fn lemma_step_at(s: Seq<bool>, w: int, h: int, x: int, y: int)
    requires
        w >= 1,
        h >= 1,
        0 <= x < w,
        0 <= y < h,
    ensures
        0 <= cell_index(x, y, w) < w * h,
        step_seq(s, w, h)[cell_index(x, y, w)] == next_cell_rule(
            cell_at(s, w, x, y),
            neighbors_alive(s, w, h, x, y),
        ),
{
    let i = cell_index(x, y, w);
    lemma_cell_index_bounds(x, y, w, h);
    lemma_fundamental_div_mod_converse(i, w, y, x);
}

/// The grid has no edges: among the eight neighbors of the corner (0, 0)
/// are the cells (w-1, h-1), (w-1, 0) and (0, h-1) on the far edges.
pub proof fn lemma_toroidal_corner(s: Seq<bool>, w: int, h: int)
    requires
        w >= 1,
        h >= 1,
    ensures
        neighbor_live(s, w, h, 0, 0, -1, -1) == cell_at(s, w, w - 1, h - 1),
        neighbor_live(s, w, h, 0, 0, -1, 0) == cell_at(s, w, w - 1, 0),
        neighbor_live(s, w, h, 0, 0, 0, -1) == cell_at(s, w, 0, h - 1),
        cell_at(s, w, w - 1, h - 1) ==> neighbors_alive(s, w, h, 0, 0) >= 1,
{
    lemma_wrap_add(0, -1, w);
    lemma_wrap_add(0, -1, h);
    lemma_wrap_add(0, 0, w);
    lemma_wrap_add(0, 0, h);
}

/// A live cell with two or three live neighbors survives; with fewer than
/// two or more than three it dies; a dead cell is born exactly on three
/// live neighbors and stays dead on any other count.
pub proof fn lemma_rule_cases(alive: bool, n: int)
    ensures
        alive && (n == 2 || n == 3) ==> next_cell_rule(alive, n),
        alive && !(n == 2 || n == 3) ==> !next_cell_rule(alive, n),
        !alive && n == 3 ==> next_cell_rule(alive, n),
        !alive && n != 3 ==> !next_cell_rule(alive, n),
{
}

/// The folded encoding `(alive && n == 2) || n == 3` agrees with the rule.
pub proof fn lemma_rule_folded(alive: bool, n: int)
    ensures
        next_cell_rule(alive, n) == ((alive && n == 2) || n == 3),
{
}

/// A generation whose live cells are exactly where `f` says, row-major.
pub open spec fn grid_of(f: spec_fn(int, int) -> bool, w: int, h: int) -> Seq<bool> {
    Seq::new((w * h) as nat, |i: int| f(i % w, i / w))
}

/// Whether `f` confines its live cells to the box [1, w-2] by [1, h-2],
/// away from the wrapping edges.
pub open spec fn confined(f: spec_fn(int, int) -> bool, w: int, h: int) -> bool {
    forall|a: int, b: int| #[trigger] f(a, b) ==> 1 <= a <= w - 2 && 1 <= b <= h - 2
}

/// The neighbor count `f` gives without wraparound: the live cells among
/// the eight flat neighbors of (x, y).
pub open spec fn flat_count(f: spec_fn(int, int) -> bool, x: int, y: int) -> int {
    one_if(f(x - 1, y - 1)) + one_if(f(x, y - 1)) + one_if(f(x + 1, y - 1)) + one_if(
        f(x - 1, y),
    ) + one_if(f(x + 1, y)) + one_if(f(x - 1, y + 1)) + one_if(f(x, y + 1)) + one_if(
        f(x + 1, y + 1),
    )
}

/// For a confined pattern, a toroidal neighbor is the flat neighbor:
/// wherever wraparound moves a lookup, both sides are dead.
proof fn lemma_confined_neighbor(
    f: spec_fn(int, int) -> bool,
    w: int,
    h: int,
    x: int,
    y: int,
    dx: int,
    dy: int,
)
    requires
        w >= 3,
        h >= 3,
        confined(f, w, h),
        0 <= x < w,
        0 <= y < h,
        -1 <= dx <= 1,
        -1 <= dy <= 1,
    ensures
        neighbor_live(grid_of(f, w, h), w, h, x, y, dx, dy) == f(x + dx, y + dy),
{
    lemma_wrap_add(x, dx, w);
    lemma_wrap_add(y, dy, h);
    let nx = wrap_add(x, dx, w);
    let ny = wrap_add(y, dy, h);
    lemma_cell_index_bounds(nx, ny, w, h);
    lemma_fundamental_div_mod_converse(cell_index(nx, ny, w), w, ny, nx);
    assert(grid_of(f, w, h)[cell_index(nx, ny, w)] == f(nx, ny));
    if 0 <= x + dx < w && 0 <= y + dy < h {
        assert(nx == x + dx && ny == y + dy);
    } else {
        assert(!f(x + dx, y + dy));
        assert(!f(nx, ny));
    }
}

/// For a confined pattern, the toroidal neighbor count is the flat count.
proof fn lemma_confined_count(f: spec_fn(int, int) -> bool, w: int, h: int, x: int, y: int)
    requires
        w >= 3,
        h >= 3,
        confined(f, w, h),
        0 <= x < w,
        0 <= y < h,
    ensures
        neighbors_alive(grid_of(f, w, h), w, h, x, y) == flat_count(f, x, y),
{
    lemma_confined_neighbor(f, w, h, x, y, -1, -1);
    lemma_confined_neighbor(f, w, h, x, y, 0, -1);
    lemma_confined_neighbor(f, w, h, x, y, 1, -1);
    lemma_confined_neighbor(f, w, h, x, y, -1, 0);
    lemma_confined_neighbor(f, w, h, x, y, 1, 0);
    lemma_confined_neighbor(f, w, h, x, y, -1, 1);
    lemma_confined_neighbor(f, w, h, x, y, 0, 1);
    lemma_confined_neighbor(f, w, h, x, y, 1, 1);
}

/// One step of a confined pattern is the pattern the rule gives cell by
/// cell, read flatly: wraparound plays no part away from the edges.
pub proof fn lemma_step_of_pattern(
    f: spec_fn(int, int) -> bool,
    g: spec_fn(int, int) -> bool,
    w: int,
    h: int,
)
    requires
        w >= 3,
        h >= 3,
        confined(f, w, h),
        forall|x: int, y: int|
            0 <= x < w && 0 <= y < h ==> (#[trigger] g(x, y)) == next_cell_rule(
                f(x, y),
                flat_count(f, x, y),
            ),
    ensures
        step_seq(grid_of(f, w, h), w, h) == grid_of(g, w, h),
{
    assert forall|i: int| 0 <= i < w * h implies step_seq(grid_of(f, w, h), w, h)[i] == grid_of(
        g,
        w,
        h,
    )[i] by {
        let x = i % w;
        let y = i / w;
        lemma_mod_division_less_than_divisor(i, w);
        lemma_div_pos_is_pos(i, w);
        lemma_multiply_divide_lt(i, w, h);
        lemma_fundamental_div_mod(i, w);
        lemma_step_at(grid_of(f, w, h), w, h, x, y);
        lemma_confined_count(f, w, h, x, y);
        assert(w * y == y * w) by (nonlinear_arith);
        assert(cell_index(x, y, w) == i);
        assert(grid_of(f, w, h)[i] == f(x, y));
        assert(grid_of(g, w, h)[i] == g(x, y));
    }
    assert(step_seq(grid_of(f, w, h), w, h) =~= grid_of(g, w, h));
}

/// Live cells of a two-by-two block with corner (1, 1).
pub open spec fn block_fn() -> spec_fn(int, int) -> bool {
    |x: int, y: int| 1 <= x <= 2 && 1 <= y <= 2
}

/// A two-by-two block of live cells on an otherwise empty grid.
pub open spec fn block_grid(w: int, h: int) -> Seq<bool> {
    grid_of(block_fn(), w, h)
}

/// Still life: on a grid of at least four by four, one step leaves the
/// block exactly as it was.
pub proof fn lemma_block_step(w: int, h: int)
    requires
        w >= 4,
        h >= 4,
    ensures
        step_seq(block_grid(w, h), w, h) == block_grid(w, h),
{
    lemma_step_of_pattern(block_fn(), block_fn(), w, h);
}

/// Still life under any number of steps: the block never changes.
pub proof fn lemma_block_still_life(w: int, h: int, n: nat)
    requires
        w >= 4,
        h >= 4,
    ensures
        steps_seq(block_grid(w, h), w, h, n) == block_grid(w, h),
    decreases n,
{
    if n > 0 {
        lemma_block_still_life(w, h, (n - 1) as nat);
        lemma_block_step(w, h);
    }
}

/// Live cells of a horizontal three-cell blinker on row 2, columns 1 to 3.
pub open spec fn blinker_row_fn() -> spec_fn(int, int) -> bool {
    |x: int, y: int| 1 <= x <= 3 && y == 2
}

/// Live cells of a vertical three-cell blinker on column 2, rows 1 to 3.
pub open spec fn blinker_col_fn() -> spec_fn(int, int) -> bool {
    |x: int, y: int| x == 2 && 1 <= y <= 3
}

/// The horizontal blinker on an otherwise empty grid.
pub open spec fn blinker_row_grid(w: int, h: int) -> Seq<bool> {
    grid_of(blinker_row_fn(), w, h)
}

/// The vertical blinker on an otherwise empty grid.
pub open spec fn blinker_col_grid(w: int, h: int) -> Seq<bool> {
    grid_of(blinker_col_fn(), w, h)
}

/// One step turns the horizontal blinker into the vertical one.
pub proof fn lemma_blinker_row_step(w: int, h: int)
    requires
        w >= 5,
        h >= 5,
    ensures
        step_seq(blinker_row_grid(w, h), w, h) == blinker_col_grid(w, h),
{
    lemma_step_of_pattern(blinker_row_fn(), blinker_col_fn(), w, h);
}

/// One step turns the vertical blinker back into the horizontal one.
pub proof fn lemma_blinker_col_step(w: int, h: int)
    requires
        w >= 5,
        h >= 5,
    ensures
        step_seq(blinker_col_grid(w, h), w, h) == blinker_row_grid(w, h),
{
    lemma_step_of_pattern(blinker_col_fn(), blinker_row_fn(), w, h);
}

/// The blinker oscillates with period exactly two: it returns to its
/// configuration after two steps, having left it after one.
pub proof fn lemma_blinker_period_two(w: int, h: int)
    requires
        w >= 5,
        h >= 5,
    ensures
        steps_seq(blinker_row_grid(w, h), w, h, 2) == blinker_row_grid(w, h),
        steps_seq(blinker_row_grid(w, h), w, h, 1) != blinker_row_grid(w, h),
{
    let s = blinker_row_grid(w, h);
    lemma_blinker_row_step(w, h);
    lemma_blinker_col_step(w, h);
    assert(steps_seq(s, w, h, 0) == s);
    assert(steps_seq(s, w, h, 1) == step_seq(s, w, h));
    assert(steps_seq(s, w, h, 2) == step_seq(steps_seq(s, w, h, 1), w, h));
    let i = cell_index(1, 2, w);
    lemma_cell_index_bounds(1, 2, w, h);
    lemma_fundamental_div_mod_converse(i, w, 2, 1);
    assert(blinker_row_grid(w, h)[i]);
    assert(!blinker_col_grid(w, h)[i]);
}

/// Determinism: the next generation is a function of the current one
/// alone, so equal starts stay equal after any number of steps.
pub proof fn lemma_steps_deterministic(s1: Seq<bool>, s2: Seq<bool>, w: int, h: int, n: nat)
    requires
        s1 == s2,
    ensures
        steps_seq(s1, w, h, n) == steps_seq(s2, w, h, n),
{
}

} // verus!
