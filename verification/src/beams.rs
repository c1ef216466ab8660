//! Beam-splitting puzzle: a beam starts at the `S` of the first row and
//! falls row by row; a `^` splits a beam into two neighbours. Count the
//! splits, or the beams leaving the bottom row.

use vstd::prelude::*;
use crate::parsing::{seq_views, spec_lines, split_lines};

verus! {

/// Loads the grid: one row of cells per line.
pub fn load_grid(data: &[u8]) -> (r: Vec<Vec<u8>>)
    ensures
        seq_views(r@) == spec_lines(data@),
{
    split_lines(data)
}

/// The first occurrence of `t` in the row at or after `j`.
pub open spec fn first_at(row: Seq<u8>, t: u8, j: int) -> Option<int>
    decreases row.len() - j,
{
    if j < 0 || j >= row.len() {
        None
    } else if row[j] == t {
        Some(j)
    } else {
        first_at(row, t, j + 1)
    }
}

/// The position of the first `target` byte of the row, if any.
pub fn find_char_in_row(row: &[u8], target: u8) -> (r: Option<usize>)
    ensures
        match r {
            Some(i) => first_at(row@, target, 0) == Some(i as int),
            None => first_at(row@, target, 0) is None,
        },
{
    let n: usize = row.len();
    let mut j: usize = 0;
    while j < n
        invariant
            j <= n,
            n == row@.len(),
            first_at(row@, target, 0) == first_at(row@, target, j as int),
        decreases n - j,
    {
        if row[j] == target {
            return Some(j);
        }
        j = j + 1;
    }
    None
}

/// A propagation row: as wide as the grid, every splitter interior.
pub open spec fn beam_row_ok(row: Seq<u8>, w: int) -> bool {
    &&& row.len() == w
    &&& forall|j: int| 0 <= j < row.len() && #[trigger] row[j] == 94 ==> 0 < j < w - 1
}

/// The whole grid: a start marker in the first row, every later row a
/// propagation row.
pub open spec fn grid_ok(lines: Seq<Seq<u8>>) -> bool {
    &&& first_at(lines[0], 83, 0) is Some
    &&& forall|y: int| 1 <= y < lines.len() ==> beam_row_ok(#[trigger] lines[y], lines[0].len() as int)
}

/// The beam count entering column `j` of the next row: beams pass
/// straight through floor, and each neighbouring splitter hands its
/// beams over.
pub open spec fn next_val(b: Seq<int>, row: Seq<u8>, j: int) -> int {
    (if row[j] != 94 {
        b[j]
    } else {
        0int
    }) + (if j - 1 >= 0 && row[j - 1] == 94 {
        b[j - 1]
    } else {
        0int
    }) + (if j + 1 < row.len() && row[j + 1] == 94 {
        b[j + 1]
    } else {
        0int
    })
}

pub open spec fn row_step(b: Seq<int>, row: Seq<u8>) -> Seq<int> {
    Seq::new(b.len(), |j: int| next_val(b, row, j))
}

/// How many splitters of the row receive any beam, from column `j` on.
pub open spec fn splits_cnt(b: Seq<int>, row: Seq<u8>, j: int) -> int
    decreases b.len() - j,
{
    if j < 0 || j >= b.len() {
        0
    } else {
        (if row[j] == 94 && b[j] > 0 {
            1int
        } else {
            0int
        }) + splits_cnt(b, row, j + 1)
    }
}

/// Some column's next beam count leaves `i64` range.
pub open spec fn step_over(b: Seq<int>, row: Seq<u8>) -> bool {
    exists|j: int| 0 <= j < b.len() && #[trigger] next_val(b, row, j) > i64::MAX
}

/// Beam counts and split total after the rows from `y` down have acted,
/// mirroring checked `i64` arithmetic.
pub open spec fn beams_fold(lines: Seq<Seq<u8>>, y: int, b: Seq<int>, splits: int) -> Option<
    (Seq<int>, int),
>
    decreases lines.len() - y,
{
    if y < 1 || y >= lines.len() {
        Some((b, splits))
    } else if step_over(b, lines[y]) || splits + splits_cnt(b, lines[y], 0) > i64::MAX {
        None
    } else {
        beams_fold(lines, y + 1, row_step(b, lines[y]), splits + splits_cnt(b, lines[y], 0))
    }
}

/// Total beams leaving the bottom, from column `j` on.
pub open spec fn sum_from(b: Seq<int>, j: int) -> int
    decreases b.len() - j,
{
    if j < 0 || j >= b.len() {
        0
    } else {
        b[j] + sum_from(b, j + 1)
    }
}

/// The single starting beam below the `S`.
pub open spec fn init_beams(w: int, start: int) -> Seq<int> {
    Seq::new(w as nat, |j: int| if j == start {
        1int
    } else {
        0int
    })
}

/// What the run yields: the split count, or in the second part the beam
/// total, `None` where a checked step leaves `i64` range.
pub open spec fn beams_outcome(lines: Seq<Seq<u8>>, part2: bool) -> Option<int> {
    let w = lines[0].len() as int;
    let start = first_at(lines[0], 83, 0)->Some_0;
    match beams_fold(lines, 1, init_beams(w, start), 0) {
        None => None,
        Some(s) => if part2 {
            if sum_from(s.0, 0) > i64::MAX {
                None
            } else {
                Some(sum_from(s.0, 0))
            }
        } else {
            Some(s.1)
        },
    }
}

pub proof fn lemma_splits_cnt_bounds(b: Seq<int>, row: Seq<u8>, j: int)
    ensures
        0 <= splits_cnt(b, row, j),
        splits_cnt(b, row, j) <= (if 0 <= j <= b.len() {
            b.len() - j
        } else {
            0int
        }),
    decreases b.len() - j,
{
    if !(j < 0 || j >= b.len()) {
        lemma_splits_cnt_bounds(b, row, j + 1);
    }
}

/// Propagates the start beam through the grid. `None` exactly when the
/// grid is malformed or a checked count leaves `i64` range.
pub fn solve(input: &[u8], part2: bool) -> (r: Option<i64>)
    ensures
        ({
            let lines = spec_lines(input@);
            if !grid_ok(lines) {
                r is None
            } else {
                match r {
                    Some(v) => beams_outcome(lines, part2) == Some(v as int),
                    None => beams_outcome(lines, part2) is None,
                }
            }
        }),
{
    let lines = split_lines(input);
    let ghost lv = spec_lines(input@);
    let n = lines.len();
    proof {
        assert(lines@[0]@ == lv[0]);
    }
    let w = lines[0].len();
    let start = match find_char_in_row(lines[0].as_slice(), 83) {
        Some(s) => s,
        None => {
            proof {
                assert(!grid_ok(lv));
            }
            return None;
        },
    };
    // validate the propagation rows
    let mut y: usize = 1;
    while y < n
        invariant
            1 <= y <= n,
            n == lines@.len(),
            seq_views(lines@) == lv,
            lv == spec_lines(input@),
            w == lv[0].len(),
            forall|q: int| 1 <= q < y ==> beam_row_ok(#[trigger] lv[q], w as int),
        decreases n - y,
    {
        proof {
            assert(lines@[y as int]@ == lv[y as int]);
        }
        let row = &lines[y];
        if row.len() != w {
            proof {
                assert(!beam_row_ok(lv[y as int], w as int));
                assert(!grid_ok(lv));
            }
            return None;
        }
        let mut j: usize = 0;
        while j < w
            invariant
                j <= w,
                w == row@.len(),
                row@ == lv[y as int],
                1 <= y < n,
                n == lv.len(),
                lv == spec_lines(input@),
                w == lv[0].len(),
                forall|q: int| 0 <= q < j && #[trigger] row@[q] == 94 ==> 0 < q < w as int - 1,
            decreases w - j,
        {
            if row[j] == 94 && (j == 0 || j == w - 1) {
                proof {
                    assert(row@[j as int] == 94);
                    assert(!beam_row_ok(row@, w as int));
                    assert(!grid_ok(lv));
                }
                return None;
            }
            j = j + 1;
        }
        y = y + 1;
    }
    // the starting beam
    let mut b: Vec<i64> = Vec::new();
    let mut j0: usize = 0;
    while j0 < w
        invariant
            j0 <= w,
            b@.len() == j0,
            forall|q: int|
                0 <= q < j0 ==> (#[trigger] b@[q]) as int == init_beams(w as int, start as int)[q],
        decreases w - j0,
    {
        if j0 == start {
            b.push(1);
        } else {
            b.push(0);
        }
        j0 = j0 + 1;
    }
    proof {
        assert(b@.map_values(|x: i64| x as int) =~= init_beams(w as int, start as int));
    }
    let mut splits: i64 = 0;
    let mut y2: usize = 1;
    while y2 < n
        invariant
            1 <= y2 <= n,
            n == lines@.len(),
            seq_views(lines@) == lv,
            lv == spec_lines(input@),
            w == lv[0].len(),
            b@.len() == w,
            0 <= splits,
            forall|q: int| 0 <= q < w as int ==> 0 <= (#[trigger] b@[q]),
            forall|q: int| 1 <= q < n as int ==> beam_row_ok(#[trigger] lv[q], w as int),
            first_at(lv[0], 83, 0) == Some(start as int),
            beams_fold(lv, 1, init_beams(w as int, start as int), 0) == beams_fold(
                lv,
                y2 as int,
                b@.map_values(|x: i64| x as int),
                splits as int,
            ),
        decreases n - y2,
    {
        let ghost bv = b@.map_values(|x: i64| x as int);
        proof {
            assert(lines@[y2 as int]@ == lv[y2 as int]);
        }
        let row = &lines[y2];
        // count this row's active splitters
        let mut cnt: usize = 0;
        let mut j: usize = 0;
        while j < w
            invariant
                j <= w,
                cnt <= j,
                w == row@.len(),
                row@ == lv[y2 as int],
                b@.len() == w,
                bv == b@.map_values(|x: i64| x as int),
                cnt as int + splits_cnt(bv, row@, j as int) == splits_cnt(bv, row@, 0),
            decreases w - j,
        {
            if row[j] == 94 && b[j] > 0 {
                cnt = cnt + 1;
            }
            j = j + 1;
        }
        proof {
            lemma_splits_cnt_bounds(bv, row@, 0);
        }
        if cnt as u64 > i64::MAX as u64 {
            proof {
                assert(splits as int + splits_cnt(bv, row@, 0) > i64::MAX);
            }
            return None;
        }
        let splits2 = match splits.checked_add((cnt as u64) as i64) {
            Some(x) => x,
            None => {
                proof {
                    assert(splits as int + splits_cnt(bv, row@, 0) > i64::MAX);
                }
                return None;
            },
        };
        // the next row's beam counts
        let mut nb: Vec<i64> = Vec::new();
        let mut j2: usize = 0;
        while j2 < w
            invariant
                j2 <= w,
                w == row@.len(),
                row@ == lv[y2 as int],
                1 <= y2 < n,
                n == lv.len(),
                w == lv[0].len(),
                b@.len() == w,
                bv == b@.map_values(|x: i64| x as int),
                forall|q: int| 0 <= q < w as int ==> 0 <= (#[trigger] b@[q]),
                nb@.len() == j2,
                forall|q: int|
                    0 <= q < j2 ==> (#[trigger] nb@[q]) as int == next_val(bv, row@, q) && nb@[q]
                        >= 0,
                lv == spec_lines(input@),
                first_at(lv[0], 83, 0) == Some(start as int),
                beams_fold(lv, 1, init_beams(w as int, start as int), 0) == beams_fold(
                    lv,
                    y2 as int,
                    bv,
                    splits as int,
                ),
            decreases w - j2,
        {
            let t1: i64 = if row[j2] != 94 {
                b[j2]
            } else {
                0
            };
            let t2: i64 = if j2 >= 1 && row[j2 - 1] == 94 {
                b[j2 - 1]
            } else {
                0
            };
            let t3: i64 = if j2 + 1 < w && row[j2 + 1] == 94 {
                b[j2 + 1]
            } else {
                0
            };
            let s12 = match t1.checked_add(t2) {
                Some(x) => x,
                None => {
                    proof {
                        assert(next_val(bv, row@, j2 as int) > i64::MAX);
                        assert(step_over(bv, row@));
                        assert(beams_fold(lv, y2 as int, bv, splits as int) is None);
                    }
                    return None;
                },
            };
            let s123 = match s12.checked_add(t3) {
                Some(x) => x,
                None => {
                    proof {
                        assert(next_val(bv, row@, j2 as int) > i64::MAX);
                        assert(step_over(bv, row@));
                        assert(beams_fold(lv, y2 as int, bv, splits as int) is None);
                    }
                    return None;
                },
            };
            nb.push(s123);
            j2 = j2 + 1;
        }
        proof {
            assert(nb@.map_values(|x: i64| x as int) =~= row_step(bv, row@));
            assert forall|q: int| 0 <= q < bv.len() implies !(next_val(bv, row@, q)
                > i64::MAX) by {
                assert(nb@[q] as int == next_val(bv, row@, q));
            }
            assert(!step_over(bv, row@));
        }
        b = nb;
        splits = splits2;
        y2 = y2 + 1;
    }
    if part2 {
        let ghost bv = b@.map_values(|x: i64| x as int);
        let mut total: i64 = 0;
        let mut j: usize = 0;
        while j < w
            invariant
                j <= w,
                b@.len() == w,
                bv == b@.map_values(|x: i64| x as int),
                forall|q: int| 0 <= q < w as int ==> 0 <= (#[trigger] b@[q]),
                0 <= total,
                total as int + sum_from(bv, j as int) == sum_from(bv, 0),
                lv == spec_lines(input@),
                beams_outcome(lv, part2) == (if sum_from(bv, 0) > i64::MAX {
                    Option::<int>::None
                } else {
                    Option::<int>::Some(sum_from(bv, 0))
                }),
            decreases w - j,
        {
            let t2 = match total.checked_add(b[j]) {
                Some(x) => x,
                None => {
                    proof {
                        lemma_sum_from_nonneg(bv, j as int + 1);
                        assert(sum_from(bv, 0) > i64::MAX);
                    }
                    return None;
                },
            };
            total = t2;
            j = j + 1;
        }
        Some(total)
    } else {
        Some(splits)
    }
}

pub proof fn lemma_sum_from_nonneg(b: Seq<int>, j: int)
    requires
        forall|q: int| 0 <= q < b.len() ==> 0 <= #[trigger] b[q],
    ensures
        0 <= sum_from(b, j),
    decreases b.len() - j,
{
    if !(j < 0 || j >= b.len()) {
        lemma_sum_from_nonneg(b, j + 1);
    }
}

/// Counts the splits the falling beams cause.
pub fn solve_part1(input: &[u8]) -> (r: Option<i64>)
    ensures
        ({
            let lines = spec_lines(input@);
            if !grid_ok(lines) {
                r is None
            } else {
                match r {
                    Some(v) => beams_outcome(lines, false) == Some(v as int),
                    None => beams_outcome(lines, false) is None,
                }
            }
        }),
{
    solve(input, false)
}

/// Counts the beams leaving the bottom row.
pub fn solve_part2(input: &[u8]) -> (r: Option<i64>)
    ensures
        ({
            let lines = spec_lines(input@);
            if !grid_ok(lines) {
                r is None
            } else {
                match r {
                    Some(v) => beams_outcome(lines, true) == Some(v as int),
                    None => beams_outcome(lines, true) is None,
                }
            }
        }),
{
    solve(input, true)
}

} // verus!
