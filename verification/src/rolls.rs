//! Roll-clearing puzzle: on a character grid, a roll (`@`) is clearable
//! when fewer than four of its eight neighbours are rolls. Count the
//! clearable rolls, or repeatedly clear them in synchronized passes
//! until none is clearable and count everything cleared.

use vstd::prelude::*;
use crate::parsing::{seq_views, spec_lines, split_lines};

verus! {

/// Whether the grid holds a roll at column `x` of row `y`.
pub open spec fn is_roll(g: Seq<Seq<u8>>, x: int, y: int) -> bool {
    0 <= y < g.len() && 0 <= x < g[y].len() && g[y][x] == 64
}

/// How many of the eight neighbours are rolls.
pub open spec fn adj_count(g: Seq<Seq<u8>>, x: int, y: int) -> int {
    (if is_roll(g, x - 1, y - 1) {
        1int
    } else {
        0int
    }) + (if is_roll(g, x, y - 1) {
        1int
    } else {
        0int
    }) + (if is_roll(g, x + 1, y - 1) {
        1int
    } else {
        0int
    }) + (if is_roll(g, x - 1, y) {
        1int
    } else {
        0int
    }) + (if is_roll(g, x + 1, y) {
        1int
    } else {
        0int
    }) + (if is_roll(g, x - 1, y + 1) {
        1int
    } else {
        0int
    }) + (if is_roll(g, x, y + 1) {
        1int
    } else {
        0int
    }) + (if is_roll(g, x + 1, y + 1) {
        1int
    } else {
        0int
    })
}

/// A roll with fewer than four roll neighbours.
pub open spec fn clearable(g: Seq<Seq<u8>>, x: int, y: int) -> bool {
    is_roll(g, x, y) && adj_count(g, x, y) < 4
}

/// Loads the grid: one row of cells per line.
pub fn load_grid(data: &[u8]) -> (r: Vec<Vec<u8>>)
    ensures
        seq_views(r@) == spec_lines(data@),
{
    split_lines(data)
}

fn roll_at(grid: &Vec<Vec<u8>>, x: usize, y: usize) -> (r: bool)
    ensures
        r == is_roll(seq_views(grid@), x as int, y as int),
{
    if y < grid.len() {
        let row = &grid[y];
        proof {
            assert(seq_views(grid@)[y as int] == grid@[y as int]@);
        }
        if x < row.len() {
            return row[x] == 64;
        }
        false
    } else {
        false
    }
}

/// Counts the roll neighbours of the cell.
pub fn get_adjacent_rolls(grid: &Vec<Vec<u8>>, x: usize, y: usize) -> (r: usize)
    requires
        x < usize::MAX,
        y < usize::MAX,
    ensures
        r as int == adj_count(seq_views(grid@), x as int, y as int),
{
    let mut c: usize = 0;
    if x > 0 && y > 0 && roll_at(grid, x - 1, y - 1) {
        c = c + 1;
    }
    if y > 0 && roll_at(grid, x, y - 1) {
        c = c + 1;
    }
    if y > 0 && roll_at(grid, x + 1, y - 1) {
        c = c + 1;
    }
    if x > 0 && roll_at(grid, x - 1, y) {
        c = c + 1;
    }
    if roll_at(grid, x + 1, y) {
        c = c + 1;
    }
    if x > 0 && roll_at(grid, x - 1, y + 1) {
        c = c + 1;
    }
    if roll_at(grid, x, y + 1) {
        c = c + 1;
    }
    if roll_at(grid, x + 1, y + 1) {
        c = c + 1;
    }
    c
}

/// Clearable rolls of row `y` from column `x` on.
pub open spec fn clear_row_from(g: Seq<Seq<u8>>, y: int, x: int) -> int
    decreases (if 0 <= y < g.len() {
        g[y].len() as int
    } else {
        0int
    }) - x,
{
    if y < 0 || y >= g.len() || x < 0 || x >= g[y].len() {
        0
    } else {
        (if clearable(g, x, y) {
            1int
        } else {
            0int
        }) + clear_row_from(g, y, x + 1)
    }
}

/// Clearable rolls of the grid from row `y` on.
pub open spec fn clear_from(g: Seq<Seq<u8>>, y: int) -> int
    decreases g.len() - y,
{
    if y < 0 || y >= g.len() {
        0
    } else {
        clear_row_from(g, y, 0) + clear_from(g, y + 1)
    }
}

/// Rolls of row `y` from column `x` on.
pub open spec fn rolls_row_from(g: Seq<Seq<u8>>, y: int, x: int) -> int
    decreases (if 0 <= y < g.len() {
        g[y].len() as int
    } else {
        0int
    }) - x,
{
    if y < 0 || y >= g.len() || x < 0 || x >= g[y].len() {
        0
    } else {
        (if is_roll(g, x, y) {
            1int
        } else {
            0int
        }) + rolls_row_from(g, y, x + 1)
    }
}

pub open spec fn rolls_from(g: Seq<Seq<u8>>, y: int) -> int
    decreases g.len() - y,
{
    if y < 0 || y >= g.len() {
        0
    } else {
        rolls_row_from(g, y, 0) + rolls_from(g, y + 1)
    }
}

pub proof fn lemma_clear_row_nonneg(g: Seq<Seq<u8>>, y: int, x: int)
    ensures
        0 <= clear_row_from(g, y, x),
        clear_row_from(g, y, x) <= rolls_row_from(g, y, x),
        0 <= rolls_row_from(g, y, x),
    decreases (if 0 <= y < g.len() {
        g[y].len() as int
    } else {
        0int
    }) - x,
{
    if !(y < 0 || y >= g.len() || x < 0 || x >= g[y].len()) {
        lemma_clear_row_nonneg(g, y, x + 1);
    }
}

pub proof fn lemma_clear_nonneg(g: Seq<Seq<u8>>, y: int)
    ensures
        0 <= clear_from(g, y),
        clear_from(g, y) <= rolls_from(g, y),
        0 <= rolls_from(g, y),
    decreases g.len() - y,
{
    if !(y < 0 || y >= g.len()) {
        lemma_clear_row_nonneg(g, y, 0);
        lemma_clear_nonneg(g, y + 1);
    }
}

/// Counts the clearable rolls of the whole grid. `None` only when the
/// count exceeds `i64`.
pub fn solve_part1(input: &[u8]) -> (r: Option<i64>)
    ensures
        ({
            let g = spec_lines(input@);
            match r {
                Some(v) => v as int == clear_from(g, 0) && 0 <= v,
                None => clear_from(g, 0) > i64::MAX,
            }
        }),
{
    let grid = load_grid(input);
    let ghost g = spec_lines(input@);
    let mut total: i64 = 0;
    let mut y: usize = 0;
    let n = grid.len();
    while y < n
        invariant
            y <= n,
            n == grid@.len(),
            seq_views(grid@) == g,
            g == spec_lines(input@),
            0 <= total,
            total as int + clear_from(g, y as int) == clear_from(g, 0),
        decreases n - y,
    {
        let row_len = grid[y].len();
        proof {
            assert(g[y as int] == grid@[y as int]@);
        }
        let mut x: usize = 0;
        while x < row_len
            invariant
                x <= row_len,
                y < n,
                n == grid@.len(),
                row_len == g[y as int].len(),
                seq_views(grid@) == g,
                g == spec_lines(input@),
                0 <= total,
                total as int + clear_row_from(g, y as int, x as int) + clear_from(g, y as int + 1)
                    == clear_from(g, 0),
            decreases row_len - x,
        {
            proof {
                assert(g[y as int] == grid@[y as int]@);
            }
            let row_cell_is_roll = grid[y][x] == 64;
            if row_cell_is_roll {
                let adj = get_adjacent_rolls(&grid, x, y);
                if adj < 4 {
                    proof {
                        lemma_clear_row_nonneg(g, y as int, x as int + 1);
                        lemma_clear_nonneg(g, y as int + 1);
                    }
                    if total == i64::MAX {
                        return None;
                    }
                    total = total + 1;
                }
            }
            x = x + 1;
        }
        y = y + 1;
    }
    Some(total)
}

/// One synchronized clearing pass: every clearable roll becomes floor.
pub open spec fn step_grid(g: Seq<Seq<u8>>) -> Seq<Seq<u8>> {
    Seq::new(
        g.len(),
        |y: int|
            g[y].map(
                |x: int, c: u8|
                    if clearable(g, x, y) {
                        46u8
                    } else {
                        c
                    },
            ),
    )
}

/// The grid after `k` synchronized passes.
pub open spec fn iter_grid(g: Seq<Seq<u8>>, k: nat) -> Seq<Seq<u8>>
    decreases k,
{
    if k == 0 {
        g
    } else {
        step_grid(iter_grid(g, (k - 1) as nat))
    }
}

pub proof fn lemma_step_row_rolls(g: Seq<Seq<u8>>, y: int, x: int)
    requires
        0 <= y < g.len(),
        0 <= x,
    ensures
        rolls_row_from(step_grid(g), y, x) == rolls_row_from(g, y, x) - clear_row_from(g, y, x),
    decreases g[y].len() - x,
{
    assert(step_grid(g)[y].len() == g[y].len());
    if x < g[y].len() {
        lemma_step_row_rolls(g, y, x + 1);
        assert(is_roll(step_grid(g), x, y) == (is_roll(g, x, y) && !clearable(g, x, y)));
    }
}

/// A pass removes exactly the clearable rolls.
pub proof fn lemma_step_rolls(g: Seq<Seq<u8>>, y: int)
    requires
        0 <= y,
    ensures
        rolls_from(step_grid(g), y) == rolls_from(g, y) - clear_from(g, y),
    decreases g.len() - y,
{
    if y < g.len() {
        lemma_step_row_rolls(g, y, 0);
        lemma_step_rolls(g, y + 1);
    }
}

pub proof fn lemma_row_ge_cell(g: Seq<Seq<u8>>, y: int, x0: int, x: int)
    requires
        0 <= y < g.len(),
        0 <= x0 <= x < g[y].len(),
    ensures
        clear_row_from(g, y, x0) >= (if clearable(g, x, y) {
            1int
        } else {
            0int
        }),
    decreases x - x0,
{
    lemma_clear_row_nonneg(g, y, x0 + 1);
    if x0 < x {
        lemma_row_ge_cell(g, y, x0 + 1, x);
        lemma_clear_row_nonneg(g, y, x0);
    }
}

pub proof fn lemma_grid_ge_row(g: Seq<Seq<u8>>, y0: int, y: int)
    requires
        0 <= y0 <= y < g.len(),
    ensures
        clear_from(g, y0) >= clear_row_from(g, y, 0),
    decreases y - y0,
{
    lemma_clear_nonneg(g, y0 + 1);
    lemma_clear_row_nonneg(g, y0, 0);
    if y0 < y {
        lemma_grid_ge_row(g, y0 + 1, y);
    }
}

/// With nothing clearable, a pass leaves the grid unchanged.
pub proof fn lemma_no_clear_fixpoint(g: Seq<Seq<u8>>)
    requires
        clear_from(g, 0) == 0,
    ensures
        step_grid(g) =~~= g,
{
    assert forall|y: int| 0 <= y < g.len() implies step_grid(g)[y] =~= g[y] by {
        assert forall|x: int| 0 <= x < g[y].len() implies step_grid(g)[y][x] == g[y][x] by {
            lemma_grid_ge_row(g, 0, y);
            lemma_row_ge_cell(g, y, 0, x);
            assert(!clearable(g, x, y));
        }
    }
}

/// Clears clearable rolls in synchronized passes until none remains and
/// counts the cleared cells. `None` only when the count exceeds `i64`.
pub fn solve_part2(input: &[u8]) -> (r: Option<i64>)
    ensures
        ({
            let g = spec_lines(input@);
            match r {
                Some(v) => 0 <= v && exists|k: nat|
                    clear_from(#[trigger] iter_grid(g, k), 0) == 0 && v as int == rolls_from(g, 0)
                        - rolls_from(iter_grid(g, k), 0),
                None => rolls_from(g, 0) > i64::MAX,
            }
        }),
{
    let mut grid = load_grid(input);
    let ghost g0 = spec_lines(input@);
    let mut total: i64 = 0;
    let ghost mut rounds: nat = 0nat;
    let mut progress: bool = true;
    proof {
        lemma_clear_nonneg(g0, 0);
    }
    while progress
        invariant
            seq_views(grid@) == iter_grid(g0, rounds),
            g0 == spec_lines(input@),
            0 <= total,
            total as int == rolls_from(g0, 0) - rolls_from(iter_grid(g0, rounds), 0),
            rolls_from(g0, 0) >= rolls_from(iter_grid(g0, rounds), 0) >= 0,
            !progress ==> clear_from(iter_grid(g0, rounds), 0) == 0,
        decreases rolls_from(iter_grid(g0, rounds), 0) + (if progress {
            1int
        } else {
            0int
        }),
    {
        let ghost g = iter_grid(g0, rounds);
        let n = grid.len();
        let mut newg: Vec<Vec<u8>> = Vec::new();
        let mut cleared: i64 = 0;
        let mut y: usize = 0;
        proof {
            lemma_clear_nonneg(g, 0);
        }
        while y < n
            invariant
                y <= n,
                n == grid@.len(),
                seq_views(grid@) == g,
                newg@.len() == y,
                forall|yy: int|
                    0 <= yy < y ==> (#[trigger] newg@[yy])@ == step_grid(g)[yy],
                cleared as int + clear_from(g, y as int) == clear_from(g, 0),
                0 <= cleared,
                cleared as int <= rolls_from(g, 0),
                clear_from(g, 0) <= rolls_from(g, 0),
                rolls_from(g, 0) <= rolls_from(g0, 0),
                g0 == spec_lines(input@),
            decreases n - y,
        {
            let row_len = grid[y].len();
            proof {
                assert(g[y as int] == grid@[y as int]@);
            }
            let mut newrow: Vec<u8> = Vec::new();
            let mut x: usize = 0;
            while x < row_len
                invariant
                    x <= row_len,
                    y < n,
                    n == grid@.len(),
                    row_len == g[y as int].len(),
                    seq_views(grid@) == g,
                    newrow@.len() == x,
                    forall|xx: int|
                        0 <= xx < x ==> newrow@[xx] == (if clearable(g, xx, y as int) {
                            46u8
                        } else {
                            g[y as int][xx]
                        }),
                    cleared as int + clear_row_from(g, y as int, x as int) + clear_from(
                        g,
                        y as int + 1,
                    ) == clear_from(g, 0),
                    0 <= cleared,
                    clear_from(g, 0) <= rolls_from(g, 0),
                    cleared as int <= rolls_from(g, 0),
                    rolls_from(g, 0) <= rolls_from(g0, 0),
                    g0 == spec_lines(input@),
                decreases row_len - x,
            {
                proof {
                    assert(g[y as int] == grid@[y as int]@);
                    lemma_clear_row_nonneg(g, y as int, x as int + 1);
                    lemma_clear_nonneg(g, y as int + 1);
                    lemma_clear_row_nonneg(g, y as int, 0);
                    lemma_clear_nonneg(g, 0);
                }
                let c = grid[y][x];
                if c == 64 {
                    let adj = get_adjacent_rolls(&grid, x, y);
                    if adj < 4 {
                        newrow.push(46);
                        if cleared == i64::MAX {
                            proof {
                                assert(clear_row_from(g, y as int, x as int) >= 1);
                                assert(cleared as int + 1 <= clear_from(g, 0));
                                assert(rolls_from(g0, 0) > i64::MAX);
                            }
                            return None;
                        }
                        cleared = cleared + 1;
                    } else {
                        newrow.push(c);
                    }
                } else {
                    newrow.push(c);
                }
                x = x + 1;
            }
            newg.push(newrow);
            proof {
                assert(newg@[y as int]@ =~= step_grid(g)[y as int]);
            }
            y = y + 1;
        }
        proof {
            assert(seq_views(newg@) =~~= step_grid(g));
            lemma_step_rolls(g, 0);
            lemma_clear_nonneg(step_grid(g), 0);
        }
        grid = newg;
        if cleared > 0 {
            proof {
                assert(cleared as int <= rolls_from(g, 0));
                assert(rolls_from(g0, 0) >= rolls_from(g, 0));
            }
            let t2 = match total.checked_add(cleared) {
                Some(v) => v,
                None => {
                    proof {
                        assert(total as int + cleared as int > i64::MAX);
                        assert(rolls_from(g0, 0) > i64::MAX);
                    }
                    return None;
                },
            };
            total = t2;
            proof {
                rounds = rounds + 1;
            }
        } else {
            proof {
                lemma_no_clear_fixpoint(g);
                assert(step_grid(g) =~~= g);
                rounds = rounds + 1;
                assert(iter_grid(g0, rounds) == step_grid(g));
                assert(clear_from(iter_grid(g0, rounds), 0) == 0);
            }
            progress = false;
        }
    }
    Some(total)
}

} // verus!
