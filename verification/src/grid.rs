//! The packed, double-buffered grid and its age companion.
//!
//! `Game` holds two equal-length buffers of 64-bit words, one bit per cell:
//! `cells` is the live generation, `next_cells` the scratch that a pass
//! fills before the two swap roles. Beside them a dense array records each
//! live cell's consecutive-live-generation count, zero standing for dead.
use vstd::prelude::*;
use vstd::arithmetic::div_mod::lemma_div_is_ordered;
use vstd::arithmetic::div_mod::lemma_div_pos_is_pos;
use vstd::arithmetic::div_mod::lemma_fundamental_div_mod;
use vstd::arithmetic::div_mod::lemma_hoist_over_denominator;
use crate::rules::cell_at;
use crate::rules::cell_index;
use crate::rules::lemma_cell_index_bounds;
use crate::rules::lemma_rule_folded;
use crate::rules::lemma_step_at;
use crate::rules::lemma_wrap_add;
use crate::rules::neighbors_alive;
use crate::rules::next_age_rule;
use crate::rules::step_seq;
use crate::rules::wrap_add;

verus! {

/// The bit of `words` standing for cell index `i`, 64 cells to a word.
pub open spec fn word_bit(words: Seq<u64>, i: int) -> bool {
    (words[i / 64] >> ((i % 64) as u64)) & 1u64 == 1u64
}

/// Words needed to hold `n` cells, one bit each.
pub open spec fn words_for(n: int) -> int {
    (n + 63) / 64
}

/// Cell `i` of `n` lives in word `i / 64`, which the word count covers.
proof fn lemma_word_index(i: int, n: int)
    requires
        0 <= i < n,
    ensures
        0 <= i / 64 < words_for(n),
        0 <= i % 64 < 64,
        i == 64 * (i / 64) + i % 64,
{
    lemma_fundamental_div_mod(i, 64);
    lemma_div_pos_is_pos(i, 64);
    lemma_div_is_ordered(i, n - 1, 64);
    lemma_hoist_over_denominator(n - 1, 1, 64);
    assert((n - 1) + 1 * 64 == n + 63);
}

/// Setting one bit of a word raises exactly that bit.
proof fn lemma_word_set_true(w: u64, off: u64, k: u64)
    requires
        off < 64,
        k < 64,
    ensures
        ((w | (1u64 << off)) >> off) & 1u64 == 1u64,
        k != off ==> ((w | (1u64 << off)) >> k) & 1u64 == (w >> k) & 1u64,
{
    assert(((w | (1u64 << off)) >> off) & 1u64 == 1u64) by (bit_vector)
        requires
            off < 64,
    ;
    assert(k != off ==> ((w | (1u64 << off)) >> k) & 1u64 == (w >> k) & 1u64) by (bit_vector)
        requires
            off < 64 && k < 64,
    ;
}

/// Clearing one bit of a word lowers exactly that bit.
proof fn lemma_word_set_false(w: u64, off: u64, k: u64)
    requires
        off < 64,
        k < 64,
    ensures
        ((w & !(1u64 << off)) >> off) & 1u64 == 0u64,
        k != off ==> ((w & !(1u64 << off)) >> k) & 1u64 == (w >> k) & 1u64,
{
    assert(((w & !(1u64 << off)) >> off) & 1u64 == 0u64) by (bit_vector)
        requires
            off < 64,
    ;
    assert(k != off ==> ((w & !(1u64 << off)) >> k) & 1u64 == (w >> k) & 1u64) by (bit_vector)
        requires
            off < 64 && k < 64,
    ;
}

/// A zero word holds no live bits.
proof fn lemma_zero_word_bit(k: u64)
    requires
        k < 64,
    ensures
        (0u64 >> k) & 1u64 == 0u64,
{
    assert((0u64 >> k) & 1u64 == 0u64) by (bit_vector)
        requires
            k < 64,
    ;
}

/// Reads the packed bit for cell `i` of `n`.
fn load_bit(words: &Vec<u64>, i: usize, n: usize) -> (b: bool)
    requires
        i < n,
        words@.len() == words_for(n as int),
    ensures
        b == word_bit(words@, i as int),
{
    proof {
        lemma_word_index(i as int, n as int);
    }
    let vec_index: usize = i / 64;
    let bit_offset: usize = i % 64;
    (words[vec_index] >> (bit_offset as u64)) & 1u64 == 1u64
}

/// Writes the packed bit for cell `i` of `n`, leaving every other cell's
/// bit as it was.
fn store_bit(words: &mut Vec<u64>, i: usize, n: usize, b: bool)
    requires
        i < n,
        old(words)@.len() == words_for(n as int),
    ensures
        final(words)@.len() == old(words)@.len(),
        word_bit(final(words)@, i as int) == b,
        forall|j: int|
            0 <= j < n && j != i ==> word_bit(final(words)@, j) == word_bit(old(words)@, j),
{
    proof {
        lemma_word_index(i as int, n as int);
    }
    let vec_index: usize = i / 64;
    let bit_offset: usize = i % 64;
    let word: u64 = words[vec_index];
    let updated: u64 = if b {
        word | (1u64 << (bit_offset as u64))
    } else {
        word & !(1u64 << (bit_offset as u64))
    };
    words[vec_index] = updated;
    proof {
        let off = (i as int) % 64;
        lemma_word_set_true(word, off as u64, off as u64);
        lemma_word_set_false(word, off as u64, off as u64);
        assert forall|j: int| 0 <= j < n && j != i implies word_bit(words@, j) == word_bit(
            old(words)@,
            j,
        ) by {
            lemma_word_index(j, n as int);
            if j / 64 == i as int / 64 {
                lemma_word_set_true(word, off as u64, (j % 64) as u64);
                lemma_word_set_false(word, off as u64, (j % 64) as u64);
            }
        }
    }
}

/// Builds `count` words, all zero.
fn zero_words(count: usize) -> (v: Vec<u64>)
    ensures
        v@.len() == count,
        forall|k: int| 0 <= k < count ==> v@[k] == 0u64,
{
    let mut v: Vec<u64> = Vec::new();
    let mut k: usize = 0;
    while k < count
        invariant
            k <= count,
            v@.len() == k,
            forall|j: int| 0 <= j < k ==> v@[j] == 0u64,
        decreases count - k,
    {
        v.push(0u64);
        k = k + 1;
    }
    v
}

/// A toroidal Game-of-Life board with packed cells and per-cell ages.
pub struct Game {
    width: usize,
    height: usize,
    cells: Vec<u64>,
    next_cells: Vec<u64>,
    cell_ages: Vec<usize>,
}

impl Game {
    /// The grid's width in cells.
    pub closed spec fn spec_width(self) -> int {
        self.width as int
    }

    /// The grid's height in cells.
    pub closed spec fn spec_height(self) -> int {
        self.height as int
    }

    /// How many cells the grid holds.
    pub open spec fn cell_count(self) -> int {
        self.spec_width() * self.spec_height()
    }

    /// The live generation, one boolean per cell in row-major order.
    pub closed spec fn cell_seq(self) -> Seq<bool> {
        Seq::new(self.cell_count() as nat, |i: int| word_bit(self.cells@, i))
    }

    /// The scratch buffer, read the same way as the live generation.
    pub closed spec fn next_seq(self) -> Seq<bool> {
        Seq::new(self.cell_count() as nat, |i: int| word_bit(self.next_cells@, i))
    }

    /// The per-cell ages in row-major order, zero standing for dead.
    pub closed spec fn ages(self) -> Seq<usize> {
        self.cell_ages@
    }

    /// Structural well-formedness: positive dimensions that fit the word
    /// buffers, both buffers of the exact packed length, one age per cell.
    pub closed spec fn wf(self) -> bool {
        &&& 0 < self.width
        &&& 0 < self.height
        &&& self.cell_count() + 63 <= usize::MAX
        &&& self.cells@.len() == words_for(self.cell_count())
        &&& self.next_cells@.len() == words_for(self.cell_count())
        &&& self.cell_ages@.len() == self.cell_count()
    }

    /// The age invariant: an age is recorded exactly for the live cells.
    pub open spec fn ages_match(self) -> bool {
        forall|i: int| 0 <= i < self.cell_count() ==> ((self.ages()[i] > 0) <==> self.cell_seq()[i])
    }

    /// The grid's width, as configured at construction.
    pub fn width(&self) -> (w: usize)
        ensures
            w as int == self.spec_width(),
    {
        self.width
    }

    /// The grid's height, as configured at construction.
    pub fn height(&self) -> (h: usize)
        ensures
            h as int == self.spec_height(),
    {
        self.height
    }

    /// Reads cell (x, y) of the live generation.
    pub fn get_cell_state(&self, x: usize, y: usize) -> (alive: bool)
        requires
            self.wf(),
            (x as int) < self.spec_width(),
            (y as int) < self.spec_height(),
        ensures
            alive == cell_at(self.cell_seq(), self.spec_width(), x as int, y as int),
    {
        proof {
            lemma_cell_index_bounds(x as int, y as int, self.spec_width(), self.spec_height());
        }
        let bit_index: usize = y * self.width + x;
        load_bit(&self.cells, bit_index, self.width * self.height)
    }

    /// Writes cell (x, y) of the scratch buffer, touching nothing else:
    /// the live generation, the ages and every other scratch bit stay.
    pub fn set_cell_state(&mut self, x: usize, y: usize, state: bool)
        requires
            old(self).wf(),
            (x as int) < old(self).spec_width(),
            (y as int) < old(self).spec_height(),
        ensures
            final(self).wf(),
            final(self).spec_width() == old(self).spec_width(),
            final(self).spec_height() == old(self).spec_height(),
            final(self).cell_seq() == old(self).cell_seq(),
            final(self).ages() == old(self).ages(),
            final(self).next_seq() == old(self).next_seq().update(
                cell_index(x as int, y as int, old(self).spec_width()),
                state,
            ),
    {
        proof {
            lemma_cell_index_bounds(x as int, y as int, self.spec_width(), self.spec_height());
        }
        let bit_index: usize = y * self.width + x;
        store_bit(&mut self.next_cells, bit_index, self.width * self.height, state);
        proof {
            assert(self.cell_seq() =~= old(self).cell_seq());
            assert(self.next_seq() =~= old(self).next_seq().update(
                cell_index(x as int, y as int, old(self).spec_width()),
                state,
            ));
        }
    }

    /// The age of cell (x, y): `Some` of its consecutive-live-generation
    /// count when it is tracked as alive, `None` when it holds no age.
    pub fn age_of(&self, x: usize, y: usize) -> (age: Option<usize>)
        requires
            self.wf(),
            (x as int) < self.spec_width(),
            (y as int) < self.spec_height(),
        ensures
            ({
                let recorded = self.ages()[cell_index(x as int, y as int, self.spec_width())];
                age == if recorded > 0 {
                    Some(recorded)
                } else {
                    None::<usize>
                }
            }),
    {
        proof {
            lemma_cell_index_bounds(x as int, y as int, self.spec_width(), self.spec_height());
        }
        let bit_index: usize = y * self.width + x;
        let recorded: usize = self.cell_ages[bit_index];
        if recorded > 0 {
            Some(recorded)
        } else {
            None
        }
    }

    /// Builds a grid whose live generation is exactly `seed`, read in
    /// row-major order; every live cell starts at age one and the scratch
    /// buffer starts empty.
    pub fn new_with(width: usize, height: usize, seed: &Vec<bool>) -> (g: Game)
        requires
            0 < width,
            0 < height,
            width as int * height as int + 63 <= usize::MAX as int,
            seed@.len() == width as int * height as int,
        ensures
            g.wf(),
            g.ages_match(),
            g.spec_width() == width as int,
            g.spec_height() == height as int,
            g.cell_seq() == seed@,
            forall|i: int|
                0 <= i < g.cell_count() ==> g.ages()[i] == (if seed@[i] {
                    1usize
                } else {
                    0usize
                }),
            forall|i: int| 0 <= i < g.cell_count() ==> !g.next_seq()[i],
    {
        let n: usize = width * height;
        let num_words: usize = (n + 63) / 64;
        let mut cells: Vec<u64> = zero_words(num_words);
        let next_cells: Vec<u64> = zero_words(num_words);
        let mut cell_ages: Vec<usize> = Vec::new();
        proof {
            assert forall|j: int| 0 <= j < n implies !word_bit(cells@, j) by {
                lemma_word_index(j, n as int);
                lemma_zero_word_bit((j % 64) as u64);
            }
        }
        let mut i: usize = 0;
        while i < n
            invariant
                i <= n,
                n == width as int * height as int,
                n + 63 <= usize::MAX,
                seed@.len() == n,
                cells@.len() == words_for(n as int),
                cell_ages@.len() == i,
                forall|j: int| 0 <= j < i ==> word_bit(cells@, j) == seed@[j],
                forall|j: int| i <= j < n ==> !word_bit(cells@, j),
                forall|j: int|
                    0 <= j < i ==> cell_ages@[j] == (if seed@[j] {
                        1usize
                    } else {
                        0usize
                    }),
            decreases n - i,
        {
            let alive: bool = seed[i];
            if alive {
                store_bit(&mut cells, i, n, true);
            }
            if alive {
                cell_ages.push(1);
            } else {
                cell_ages.push(0);
            }
            i = i + 1;
        }
        let g = Game { width, height, cells, next_cells, cell_ages };
        proof {
            assert forall|j: int| 0 <= j < g.cell_count() implies !word_bit(g.next_cells@, j) by {
                lemma_word_index(j, n as int);
                lemma_zero_word_bit((j % 64) as u64);
            }
            assert(g.cell_seq() =~= seed@);
        }
        g
    }
    /// Builds a grid seeded at random: each cell is drawn alive
    /// independently with probability `alive_num / alive_den` (clamped to
    /// one), and every live cell starts at age one. Whatever the draws,
    /// the result is well formed and its ages track exactly the live
    /// cells; a zero numerator leaves every cell dead, a numerator at or
    /// above the denominator leaves every cell alive.
    pub fn new_random(width: usize, height: usize, alive_num: u64, alive_den: u64) -> (g: Game)
        requires
            0 < width,
            0 < height,
            width as int * height as int + 63 <= usize::MAX as int,
            0 < alive_den,
        ensures
            g.wf(),
            g.ages_match(),
            g.spec_width() == width as int,
            g.spec_height() == height as int,
            forall|i: int|
                0 <= i < g.cell_count() ==> g.ages()[i] == (if g.cell_seq()[i] {
                    1usize
                } else {
                    0usize
                }),
            forall|i: int| 0 <= i < g.cell_count() ==> !g.next_seq()[i],
            alive_num == 0 ==> forall|i: int| 0 <= i < g.cell_count() ==> !g.cell_seq()[i],
            alive_num >= alive_den ==> forall|i: int| 0 <= i < g.cell_count() ==> g.cell_seq()[i],
    {
        let n: usize = width * height;
        let mut seed: Vec<bool> = Vec::new();
        let mut i: usize = 0;
        while i < n
            invariant
                i <= n,
                seed@.len() == i,
                0 < alive_den,
                alive_num == 0 ==> forall|j: int| 0 <= j < i ==> !seed@[j],
                alive_num >= alive_den ==> forall|j: int| 0 <= j < i ==> seed@[j],
            decreases n - i,
        {
            let draw: u64 = random_below(alive_den);
            seed.push(draw < alive_num);
            i = i + 1;
        }
        Game::new_with(width, height, &seed)
    }

    /// Advances the board one generation. Every cell is decided from the
    /// same old generation — the pass reads `cells` only and writes
    /// `next_cells` only — and the two buffers swap roles at the end, so
    /// the scratch then holds the generation just left behind. Ages move in
    /// lockstep: newborns start at one, survivors gain one, the dead lose
    /// their entry. Beyond well-formedness the step asks only for room,
    /// in the machine word, for every recorded age to grow by one.
    pub fn update_game_state(&mut self)
        requires
            old(self).wf(),
            forall|i: int| 0 <= i < old(self).cell_count() ==> old(self).ages()[i] < usize::MAX,
        ensures
            final(self).wf(),
            final(self).ages_match(),
            final(self).spec_width() == old(self).spec_width(),
            final(self).spec_height() == old(self).spec_height(),
            final(self).cell_seq() == step_seq(
                old(self).cell_seq(),
                old(self).spec_width(),
                old(self).spec_height(),
            ),
            final(self).next_seq() == old(self).cell_seq(),
            forall|i: int|
                0 <= i < old(self).cell_count() ==> final(self).ages()[i] as int == next_age_rule(
                    old(self).ages()[i] as int,
                    old(self).cell_seq()[i],
                    step_seq(
                        old(self).cell_seq(),
                        old(self).spec_width(),
                        old(self).spec_height(),
                    )[i],
                ),
    {
        let w: usize = self.width;
        let h: usize = self.height;
        let ghost s0 = self.cell_seq();
        let ghost ns0 = self.next_seq();
        let ghost a0 = self.ages();
        let ghost stepped = step_seq(s0, w as int, h as int);
        let mut y: usize = 0;
        while y < h
            invariant
                self.wf(),
                self.width == w,
                self.height == h,
                0 < w,
                0 < h,
                y <= h,
                y as int * w as int <= w as int * h as int,
                self.cell_seq() == s0,
                s0.len() == self.cell_count(),
                a0.len() == self.cell_count(),
                forall|i: int| 0 <= i < a0.len() ==> a0[i] < usize::MAX,
                stepped == step_seq(s0, w as int, h as int),
                forall|i: int|
                    0 <= i < y as int * w as int ==> self.next_seq()[i] == stepped[i],
                forall|i: int|
                    y as int * w as int <= i < self.cell_count() ==> self.next_seq()[i] == ns0[i],
                forall|i: int|
                    0 <= i < y as int * w as int ==> self.ages()[i] as int == next_age_rule(
                        a0[i] as int,
                        s0[i],
                        stepped[i],
                    ),
                forall|i: int|
                    y as int * w as int <= i < self.cell_count() ==> self.ages()[i] == a0[i],
            decreases h - y,
        {
            let mut x: usize = 0;
            while x < w
                invariant
                    self.wf(),
                    self.width == w,
                    self.height == h,
                    0 < w,
                    0 < h,
                    y < h,
                    x <= w,
                    y as int * w as int + x as int <= w as int * h as int,
                    self.cell_seq() == s0,
                    s0.len() == self.cell_count(),
                    a0.len() == self.cell_count(),
                    forall|i: int| 0 <= i < a0.len() ==> a0[i] < usize::MAX,
                    stepped == step_seq(s0, w as int, h as int),
                    forall|i: int|
                        0 <= i < y as int * w as int + x as int ==> self.next_seq()[i]
                            == stepped[i],
                    forall|i: int|
                        y as int * w as int + x as int <= i < self.cell_count()
                            ==> self.next_seq()[i] == ns0[i],
                    forall|i: int|
                        0 <= i < y as int * w as int + x as int ==> self.ages()[i] as int
                            == next_age_rule(a0[i] as int, s0[i], stepped[i]),
                    forall|i: int|
                        y as int * w as int + x as int <= i < self.cell_count() ==> self.ages()[i]
                            == a0[i],
                decreases w - x,
            {
                let alive: bool = self.get_cell_state(x, y);
                let neighbors: usize = self.count_alive_neighbors(x, y);
                let next_state: bool = (alive && neighbors == 2) || neighbors == 3;
                proof {
                    lemma_cell_index_bounds(x as int, y as int, w as int, h as int);
                    lemma_step_at(s0, w as int, h as int, x as int, y as int);
                    lemma_rule_folded(alive, neighbors as int);
                    let p = cell_index(x as int, y as int, w as int);
                    assert(p == y as int * w as int + x as int);
                    assert(self.ages()[p] == a0[p]);
                    assert(self.next_seq()[p] == ns0[p]);
                    assert(a0[p] < usize::MAX);
                    assert(alive == s0[p]);
                    assert(stepped[p] == next_state);
                }
                let bit_index: usize = y * w + x;
                if next_state {
                    let previous: usize = self.cell_ages[bit_index];
                    let bumped: usize = if alive {
                        previous + 1
                    } else {
                        1
                    };
                    self.cell_ages[bit_index] = bumped;
                } else {
                    self.cell_ages[bit_index] = 0;
                }
                self.set_cell_state(x, y, next_state);
                x = x + 1;
            }
            proof {
                assert(y as int * w as int + w as int == (y as int + 1) * (w as int))
                    by (nonlinear_arith);
                assert((y as int + 1) * (w as int) <= w as int * h as int) by (nonlinear_arith)
                    requires
                        (y as int) < (h as int),
                        0 < w,
                ;
            }
            y = y + 1;
        }
        let ghost ages_after = self.ages();
        proof {
            assert(h as int * w as int == w as int * h as int);
            assert(self.next_seq() =~= stepped);
            assert forall|i: int| 0 <= i < self.cell_count() implies ages_after[i] as int
                == next_age_rule(a0[i] as int, s0[i], stepped[i]) by {
                assert(ages_after[i] == self.ages()[i]);
            }
        }
        core::mem::swap(&mut self.cells, &mut self.next_cells);
        proof {
            assert(self.cell_seq() =~= stepped);
            assert(self.next_seq() =~= s0);
            assert(self.ages() == ages_after);
            assert forall|i: int| 0 <= i < self.cell_count() implies self.ages()[i] as int
                == next_age_rule(a0[i] as int, s0[i], stepped[i]) by {
                assert(self.ages()[i] == ages_after[i]);
            }
            assert forall|i: int| 0 <= i < self.cell_count() implies ((self.ages()[i] > 0)
                <==> self.cell_seq()[i]) by {
                assert(self.ages()[i] == ages_after[i]);
                assert(self.cell_seq()[i] == stepped[i]);
            }
        }
    }

    /// How many of the eight toroidal neighbors of (x, y) are alive in the
    /// live generation. Wraparound means the count never reads out of range.
    pub fn count_alive_neighbors(&self, x: usize, y: usize) -> (count: usize)
        requires
            self.wf(),
            (x as int) < self.spec_width(),
            (y as int) < self.spec_height(),
        ensures
            count == neighbors_alive(
                self.cell_seq(),
                self.spec_width(),
                self.spec_height(),
                x as int,
                y as int,
            ),
            count <= 8,
    {
        let xm: usize = wrap_dec(x, self.width);
        let xp: usize = wrap_inc(x, self.width);
        let ym: usize = wrap_dec(y, self.height);
        let yp: usize = wrap_inc(y, self.height);
        let mut count: usize = 0;
        if self.get_cell_state(xm, ym) {
            count = count + 1;
        }
        if self.get_cell_state(x, ym) {
            count = count + 1;
        }
        if self.get_cell_state(xp, ym) {
            count = count + 1;
        }
        if self.get_cell_state(xm, y) {
            count = count + 1;
        }
        if self.get_cell_state(xp, y) {
            count = count + 1;
        }
        if self.get_cell_state(xm, yp) {
            count = count + 1;
        }
        if self.get_cell_state(x, yp) {
            count = count + 1;
        }
        if self.get_cell_state(xp, yp) {
            count = count + 1;
        }
        proof {
            lemma_wrap_add(x as int, 0, self.spec_width());
            lemma_wrap_add(y as int, 0, self.spec_height());
        }
        count
    }
}

/// Relies on rand::Rng::gen_range over the range `0..bound`: the drawn
/// value lies below `bound`, uniformly; the range is nonempty under the
/// precondition, so the call cannot panic.
#[verifier::external_body]
fn random_below(bound: u64) -> (r: u64)
    requires
        0 < bound,
    ensures
        r < bound,
{
    rand::Rng::gen_range(&mut rand::thread_rng(), 0..bound)
}

/// The coordinate one step down a ring of size `m`: v - 1 with wraparound.
fn wrap_dec(v: usize, m: usize) -> (r: usize)
    requires
        0 < m,
        v < m,
    ensures
        r < m,
        r as int == wrap_add(v as int, -1, m as int),
{
    proof {
        lemma_wrap_add(v as int, -1, m as int);
    }
    if v == 0 {
        m - 1
    } else {
        v - 1
    }
}

/// The coordinate one step up a ring of size `m`: v + 1 with wraparound.
fn wrap_inc(v: usize, m: usize) -> (r: usize)
    requires
        0 < m,
        v < m,
    ensures
        r < m,
        r as int == wrap_add(v as int, 1, m as int),
{
    proof {
        lemma_wrap_add(v as int, 1, m as int);
    }
    if v + 1 == m {
        0
    } else {
        v + 1
    }
}

} // verus!
