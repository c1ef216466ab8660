//! Column-arithmetic puzzle: a grid of numbers with an operator line at
//! the bottom. In the first part each column of the whitespace-separated
//! number grid is summed or multiplied per its operator; in the second
//! the digits are read vertically, right to left, gathering numbers
//! until each operator column closes a batch.

use vstd::prelude::*;
use crate::parsing::{
    digits_val, int_str_val, is_int_str, is_uint_str, parse_i64, parse_u64, seq_views, spec_lines,
    spec_split, spec_trim, split_bytes, split_lines, trim_bytes,
};

verus! {

/// The non-empty pieces, kept in order.
pub open spec fn nonempty_of(ps: Seq<Seq<u8>>) -> Seq<Seq<u8>>
    decreases ps.len(),
{
    if ps.len() == 0 {
        Seq::<Seq<u8>>::empty()
    } else if ps.last().len() == 0 {
        nonempty_of(ps.drop_last())
    } else {
        nonempty_of(ps.drop_last()).push(ps.last())
    }
}

/// The space-separated tokens of a line.
pub open spec fn tokens(l: Seq<u8>) -> Seq<Seq<u8>> {
    nonempty_of(spec_split(l, 32))
}

/// Splits a line into its space-separated tokens.
pub fn tokens_exec(l: &[u8]) -> (r: Vec<Vec<u8>>)
    ensures
        seq_views(r@) == tokens(l@),
{
    let pieces = split_bytes(l, 32);
    let ghost pv = spec_split(l@, 32);
    let mut r: Vec<Vec<u8>> = Vec::new();
    let mut i: usize = 0;
    proof {
        assert(pv.take(0) =~= Seq::<Seq<u8>>::empty());
        assert(seq_views(r@) =~= nonempty_of(pv.take(0)));
    }
    while i < pieces.len()
        invariant
            i <= pieces@.len(),
            seq_views(pieces@) == pv,
            seq_views(r@) == nonempty_of(pv.take(i as int)),
        decreases pieces@.len() - i,
    {
        proof {
            assert(pv.take(i as int + 1).drop_last() =~= pv.take(i as int));
            assert(pv.take(i as int + 1).last() == pv[i as int]);
            assert(pieces@[i as int]@ == pv[i as int]);
        }
        if pieces[i].len() > 0 {
            let ghost r0 = seq_views(r@);
            let piece = pieces[i].clone();
            proof {
                assert(piece@ == pv[i as int]);
            }
            r.push(piece);
            proof {
                assert(seq_views(r@) =~~= r0.push(pv[i as int]));
            }
        }
        i = i + 1;
    }
    proof {
        assert(pv.take(pieces@.len() as int) =~= pv);
    }
    r
}

/// A number row token: a signed integer that fits `i64`.
pub open spec fn token_ok(t: Seq<u8>) -> bool {
    is_int_str(t) && i64::MIN <= int_str_val(t) <= i64::MAX
}

pub open spec fn num_row_ok(l: Seq<u8>) -> bool {
    forall|k: int| 0 <= k < tokens(l).len() ==> token_ok(#[trigger] tokens(l)[k])
}

/// The numbers of a row, in token order.
pub open spec fn row_vals(l: Seq<u8>) -> Seq<int> {
    Seq::new(tokens(l).len(), |k: int| int_str_val(tokens(l)[k]))
}

/// Folds column `j` of the rows from row `y` down with the operator,
/// mirroring checked `i64` arithmetic.
pub open spec fn col_acc(rows: Seq<Seq<u8>>, j: int, y: int, op: u8, acc: int) -> Option<int>
    decreases rows.len() - y,
{
    if y < 0 || y >= rows.len() {
        Some(acc)
    } else {
        let v = row_vals(rows[y])[j];
        let acc2 = if op == 42 {
            acc * v
        } else {
            acc + v
        };
        if acc2 > i64::MAX || acc2 < i64::MIN {
            None
        } else {
            col_acc(rows, j, y + 1, op, acc2)
        }
    }
}

/// Folds the columns `[j, m)` into the running total.
pub open spec fn cols_fold(rows: Seq<Seq<u8>>, ops: Seq<Seq<u8>>, j: int, m: int, total: int) -> Option<
    int,
>
    decreases m - j,
{
    if j < 0 || j >= m {
        Some(total)
    } else {
        let op = ops[j][0];
        let base = if op == 42 {
            1int
        } else {
            0int
        };
        match col_acc(rows, j, 0, op, base) {
            None => None,
            Some(st) => {
                let t2 = total + st;
                if t2 > i64::MAX || t2 < i64::MIN {
                    None
                } else {
                    cols_fold(rows, ops, j + 1, m, t2)
                }
            },
        }
    }
}

/// The outer fold is pinned to the loop's running state.
pub open spec fn total_fold_link(
    rows: Seq<Seq<u8>>,
    ops: Seq<Seq<u8>>,
    j: int,
    m: int,
    total: int,
) -> bool {
    cols_fold(rows, ops, 0, m, 0) == cols_fold(rows, ops, j, m, total)
}

/// The vertical-problem grid: at least one number row above the operator
/// row, all number rows of equal width, each zipped operator a lone
/// `*` or `+`.
pub open spec fn grid1_ok(lines: Seq<Seq<u8>>) -> bool {
    let nrows = lines.len() - 1;
    let rows = lines.take(nrows);
    let w = tokens(lines[0]).len() as int;
    let ops = tokens(lines[nrows]);
    let m = if w <= ops.len() {
        w
    } else {
        ops.len() as int
    };
    &&& lines.len() >= 2
    &&& forall|y: int| 0 <= y < nrows ==> num_row_ok(#[trigger] lines[y])
    &&& forall|y: int| 0 <= y < nrows ==> tokens(#[trigger] lines[y]).len() == w
    &&& forall|j: int|
        0 <= j < m ==> (#[trigger] ops[j]).len() == 1 && (ops[j][0] == 42 || ops[j][0] == 43)
}

/// What the column fold of the whole grid yields.
pub open spec fn grid1_total(lines: Seq<Seq<u8>>) -> Option<int> {
    let nrows = lines.len() - 1;
    let rows = lines.take(nrows);
    let w = tokens(lines[0]).len() as int;
    let ops = tokens(lines[nrows]);
    let m = if w <= ops.len() {
        w
    } else {
        ops.len() as int
    };
    cols_fold(rows, ops, 0, m, 0)
}

/// Sums or multiplies every number column per its operator and adds the
/// column results up. `None` exactly when the grid is malformed or some
/// intermediate value leaves `i64` range.
pub fn solve_part1(input: &[u8]) -> (r: Option<i64>)
    ensures
        ({
            let lines = spec_lines(input@);
            match r {
                Some(v) => grid1_ok(lines) && Some(v as int) == grid1_total(lines),
                None => !grid1_ok(lines) || grid1_total(lines) is None,
            }
        }),
{
    let lines = split_lines(input);
    let ghost lv = spec_lines(input@);
    let n = lines.len();
    if n < 2 {
        return None;
    }
    let nrows = n - 1;
    let ghost rows = lv.take(nrows as int);
    // parse the number rows
    let mut grid: Vec<Vec<i64>> = Vec::new();
    let mut y: usize = 0;
    while y < nrows
        invariant
            y <= nrows,
            nrows as int + 1 == lv.len(),
            n == lines@.len(),
            n == lv.len(),
            seq_views(lines@) == lv,
            lv == spec_lines(input@),
            rows == lv.take(nrows as int),
            grid@.len() == y,
            forall|yy: int| 0 <= yy < y ==> num_row_ok(#[trigger] lv[yy]),
            forall|yy: int|
                0 <= yy < y ==> (#[trigger] grid@[yy])@.map_values(|x: i64| x as int) == row_vals(
                    lv[yy],
                ),
        decreases nrows - y,
    {
        proof {
            assert(lines@[y as int]@ == lv[y as int]);
        }
        let toks = tokens_exec(lines[y].as_slice());
        let ghost tv = tokens(lv[y as int]);
        let mut vals: Vec<i64> = Vec::new();
        let mut k: usize = 0;
        while k < toks.len()
            invariant
                k <= toks@.len(),
                seq_views(toks@) == tv,
                lv == spec_lines(input@),
                lv.len() >= 2,
                (y as int) < lv.len() - 1,
                tv == tokens(lv[y as int]),
                vals@.len() == k,
                forall|q: int| 0 <= q < k ==> token_ok(#[trigger] tv[q]),
                forall|q: int| 0 <= q < k ==> (#[trigger] vals@[q]) as int == int_str_val(tv[q]),
            decreases toks@.len() - k,
        {
            proof {
                assert(toks@[k as int]@ == tv[k as int]);
            }
            let v = match parse_i64(toks[k].as_slice()) {
                Some(v) => v,
                None => {
                    proof {
                        assert(!token_ok(tv[k as int]));
                        assert(!num_row_ok(lv[y as int]));
                        assert(!grid1_ok(lv));
                    }
                    return None;
                },
            };
            vals.push(v);
            k = k + 1;
        }
        grid.push(vals);
        proof {
            assert(num_row_ok(lv[y as int]));
            assert(grid@[y as int]@.map_values(|x: i64| x as int) =~= row_vals(lv[y as int]));
        }
        y = y + 1;
    }
    // widths must agree with row 0
    let w = grid[0].len();
    let mut y2: usize = 1;
    while y2 < nrows
        invariant
            1 <= y2 <= nrows,
            nrows == grid@.len(),
            nrows as int + 1 == lv.len(),
            seq_views(lines@) == lv,
            lv == spec_lines(input@),
            nrows >= 1,
            w == grid@[0]@.len(),
            forall|yy: int|
                0 <= yy < nrows ==> (#[trigger] grid@[yy])@.map_values(|x: i64| x as int)
                    == row_vals(lv[yy]),
            forall|yy: int| 0 <= yy < nrows ==> num_row_ok(#[trigger] lv[yy]),
            forall|yy: int| 0 <= yy < y2 ==> (#[trigger] grid@[yy])@.len() == w,
        decreases nrows - y2,
    {
        if grid[y2].len() != w {
            proof {
                assert(grid@[y2 as int]@.map_values(|x: i64| x as int).len() == row_vals(
                    lv[y2 as int],
                ).len());
                assert(tokens(lv[y2 as int]).len() != tokens(lv[0]).len());
                assert(!grid1_ok(lv));
            }
            return None;
        }
        y2 = y2 + 1;
    }
    proof {
        assert(lines@[nrows as int]@ == lv[nrows as int]);
    }
    let ops = tokens_exec(lines[nrows].as_slice());
    let ghost opv = tokens(lv[nrows as int]);
    let m: usize = if w <= ops.len() {
        w
    } else {
        ops.len()
    };
    let mut total: i64 = 0;
    let mut j: usize = 0;
    proof {
        assert(row_vals(lv[0]).len() == tokens(lv[0]).len());
        assert(grid@[0]@.map_values(|x: i64| x as int).len() == w as int);
        assert(grid@[0]@.map_values(|x: i64| x as int) == row_vals(lv[0]));
        assert(w as int == tokens(lv[0]).len());
    }
    while j < m
        invariant
            j <= m,
            m as int == (if tokens(lv[0]).len() as int <= opv.len() {
                tokens(lv[0]).len() as int
            } else {
                opv.len() as int
            }),
            nrows == grid@.len(),
            nrows as int + 1 == lv.len(),
            nrows >= 1,
            seq_views(lines@) == lv,
            lv == spec_lines(input@),
            seq_views(ops@) == opv,
            opv == tokens(lv[nrows as int]),
            rows == lv.take(nrows as int),
            w == tokens(lv[0]).len(),
            forall|yy: int|
                0 <= yy < nrows ==> (#[trigger] grid@[yy])@.map_values(|x: i64| x as int)
                    == row_vals(lv[yy]),
            forall|yy: int| 0 <= yy < nrows ==> num_row_ok(#[trigger] lv[yy]),
            forall|yy: int| 0 <= yy < nrows ==> (#[trigger] grid@[yy])@.len() == w,
            forall|q: int|
                0 <= q < j ==> (#[trigger] opv[q]).len() == 1 && (opv[q][0] == 42 || opv[q][0]
                    == 43),
            total_fold_link(rows, opv, j as int, m as int, total as int),
        decreases m - j,
    {
        proof {
            assert(ops@[j as int]@ == opv[j as int]);
        }
        let opt = &ops[j];
        if opt.len() != 1 {
            proof {
                assert(!grid1_ok(lv));
            }
            return None;
        }
        let op = opt[0];
        if op != 42 && op != 43 {
            proof {
                assert(!grid1_ok(lv));
            }
            return None;
        }
        let mut acc: i64 = if op == 42 {
            1
        } else {
            0
        };
        let mut yy: usize = 0;
        proof {
            assert(rows.len() == nrows as int);
        }
        while yy < nrows
            invariant
                yy <= nrows,
                nrows == grid@.len(),
                nrows as int == rows.len(),
                nrows as int + 1 == lv.len(),
                lv == spec_lines(input@),
                rows == lv.take(nrows as int),
                seq_views(ops@) == opv,
                opv == tokens(lv[nrows as int]),
                m as int == (if tokens(lv[0]).len() as int <= opv.len() {
                    tokens(lv[0]).len() as int
                } else {
                    opv.len() as int
                }),
                total_fold_link(rows, opv, j as int, m as int, total as int),
                j < m,
                m as int <= tokens(lv[0]).len() as int,
                w == tokens(lv[0]).len(),
                forall|q: int|
                    0 <= q < nrows ==> (#[trigger] grid@[q])@.map_values(|x: i64| x as int)
                        == row_vals(lv[q]),
                forall|q: int| 0 <= q < nrows ==> (#[trigger] grid@[q])@.len() == w,
                op == 42 || op == 43,
                opv[j as int].len() == 1,
                op == opv[j as int][0],
                col_acc(rows, j as int, 0, op, (if op == 42 {
                    1int
                } else {
                    0int
                })) == col_acc(rows, j as int, yy as int, op, acc as int),
            decreases nrows - yy,
        {
            proof {
                assert(rows[yy as int] == lv[yy as int]);
                assert(grid@[yy as int]@.map_values(|x: i64| x as int)[j as int] == row_vals(
                    lv[yy as int],
                )[j as int]);
            }
            let v = grid[yy][j];
            let acc2 = if op == 42 {
                match acc.checked_mul(v) {
                    Some(x) => x,
                    None => {
                        proof {
                            assert(col_acc(rows, j as int, yy as int, op, acc as int) is None);
                            assert(cols_fold(rows, opv, j as int, m as int, total as int)
                                is None);
                        }
                        return None;
                    },
                }
            } else {
                match acc.checked_add(v) {
                    Some(x) => x,
                    None => {
                        proof {
                            assert(col_acc(rows, j as int, yy as int, op, acc as int) is None);
                            assert(cols_fold(rows, opv, j as int, m as int, total as int)
                                is None);
                        }
                        return None;
                    },
                }
            };
            acc = acc2;
            yy = yy + 1;
        }
        let t2 = match total.checked_add(acc) {
            Some(x) => x,
            None => {
                proof {
                    assert(cols_fold(rows, opv, j as int, m as int, total as int) is None);
                }
                return None;
            },
        };
        total = t2;
        j = j + 1;
    }
    proof {
        assert forall|yy: int| 0 <= yy < nrows as int implies tokens(#[trigger] lv[yy]).len()
            == tokens(lv[0]).len() by {
            assert(grid@[yy]@.map_values(|x: i64| x as int).len() == row_vals(lv[yy]).len());
            assert(grid@[0]@.map_values(|x: i64| x as int).len() == row_vals(lv[0]).len());
        }
        assert(grid1_ok(lv));
    }
    Some(total)
}

/// The padded cell of the character grid: a space beyond a line's end.
pub open spec fn cell(lines: Seq<Seq<u8>>, y: int, j: int) -> u8 {
    if 0 <= y < lines.len() && 0 <= j < lines[y].len() {
        lines[y][j]
    } else {
        32
    }
}

/// Column `j` read down the rows above the operator row.
pub open spec fn colstr(lines: Seq<Seq<u8>>, j: int) -> Seq<u8> {
    Seq::new((lines.len() - 1) as nat, |y: int| cell(lines, y, j))
}

/// Folds a finished batch of vertical numbers with the operator,
/// mirroring checked `i64` arithmetic.
pub open spec fn batch_acc(cur: Seq<int>, idx: int, op: u8, acc: int) -> Option<int>
    decreases cur.len() - idx,
{
    if idx < 0 || idx >= cur.len() {
        Some(acc)
    } else {
        let acc2 = if op == 42 {
            acc * cur[idx]
        } else {
            acc + cur[idx]
        };
        if acc2 > i64::MAX || acc2 < i64::MIN {
            None
        } else {
            batch_acc(cur, idx + 1, op, acc2)
        }
    }
}

/// Walks the columns right to left, gathering the vertical numbers of a
/// problem and closing a batch at each operator column.
pub open spec fn col_fold2(lines: Seq<Seq<u8>>, j: int, cur: Seq<int>, total: int) -> Option<int>
    decreases j + 1,
{
    if j < 0 {
        Some(total)
    } else {
        let t = spec_trim(colstr(lines, j));
        if t.len() == 0 {
            col_fold2(lines, j - 1, cur, total)
        } else {
            let cur2 = cur.push(digits_val(t));
            let opc = cell(lines, lines.len() - 1, j);
            if opc == 42 || opc == 43 {
                let base = if opc == 42 {
                    1int
                } else {
                    0int
                };
                match batch_acc(cur2, 0, opc, base) {
                    None => None,
                    Some(st) => {
                        let t2 = total + st;
                        if t2 > i64::MAX || t2 < i64::MIN {
                            None
                        } else {
                            col_fold2(lines, j - 1, Seq::<int>::empty(), t2)
                        }
                    },
                }
            } else {
                col_fold2(lines, j - 1, cur2, total)
            }
        }
    }
}

/// The widest line of the grid.
pub open spec fn max_width(lines: Seq<Seq<u8>>) -> int
    decreases lines.len(),
{
    if lines.len() == 0 {
        0
    } else {
        let rest = max_width(lines.drop_last());
        if lines.last().len() as int > rest {
            lines.last().len() as int
        } else {
            rest
        }
    }
}

/// Every non-blank column reads as a run of digits worth at most `i64`.
pub open spec fn grid2_ok(lines: Seq<Seq<u8>>) -> bool {
    forall|j: int|
        0 <= j < max_width(lines) ==> ((#[trigger] spec_trim(colstr(lines, j))).len() == 0 || (
        is_uint_str(spec_trim(colstr(lines, j))) && digits_val(spec_trim(colstr(lines, j)))
            <= i64::MAX))
}

pub proof fn lemma_max_width_ge(lines: Seq<Seq<u8>>, y: int)
    requires
        0 <= y < lines.len(),
    ensures
        lines[y].len() as int <= max_width(lines),
        max_width(lines) >= 0,
    decreases lines.len(),
{
    if lines.len() > 0 {
        if y < lines.len() - 1 {
            assert(lines.drop_last()[y] == lines[y]);
            lemma_max_width_ge(lines.drop_last(), y);
        } else {
            lemma_max_width_nonneg(lines.drop_last());
        }
    }
}

pub proof fn lemma_max_width_nonneg(lines: Seq<Seq<u8>>)
    ensures
        max_width(lines) >= 0,
    decreases lines.len(),
{
    if lines.len() > 0 {
        lemma_max_width_nonneg(lines.drop_last());
    }
}

/// Reads each column's vertical number right to left, closing a batch of
/// numbers with a sum or product at every operator column and adding the
/// batch results up. `None` exactly when a column is malformed or some
/// intermediate value leaves `i64` range.
pub fn solve_part2(input: &[u8]) -> (r: Option<i64>)
    ensures
        ({
            let lines = spec_lines(input@);
            match r {
                Some(v) => grid2_ok(lines) && Some(v as int) == col_fold2(
                    lines,
                    max_width(lines) - 1,
                    Seq::<int>::empty(),
                    0,
                ),
                None => !grid2_ok(lines) || col_fold2(
                    lines,
                    max_width(lines) - 1,
                    Seq::<int>::empty(),
                    0,
                ) is None,
            }
        }),
{
    let lines = split_lines(input);
    let ghost lv = spec_lines(input@);
    let n = lines.len();
    proof {
        assert(lv.len() >= 1);
    }
    // the widest line
    let mut width: usize = 0;
    let mut y: usize = 0;
    while y < n
        invariant
            y <= n,
            n == lines@.len(),
            seq_views(lines@) == lv,
            lv == spec_lines(input@),
            width as int == max_width(lv.take(y as int)),
        decreases n - y,
    {
        proof {
            assert(lv.take(y as int + 1).drop_last() =~= lv.take(y as int));
            assert(lv.take(y as int + 1).last() == lv[y as int]);
            assert(lines@[y as int]@ == lv[y as int]);
        }
        let l = lines[y].len();
        if l > width {
            width = l;
        }
        y = y + 1;
    }
    proof {
        assert(lv.take(n as int) =~= lv);
    }
    let mut cur: Vec<i64> = Vec::new();
    let mut total: i64 = 0;
    let mut j: usize = width;
    proof {
        assert(cur@.map_values(|x: i64| x as int) =~= Seq::<int>::empty());
    }
    while j > 0
        invariant
            j <= width,
            n == lines@.len(),
            n >= 1,
            seq_views(lines@) == lv,
            lv == spec_lines(input@),
            width as int == max_width(lv),
            forall|q: int|
                0 <= q < cur@.len() ==> 0 <= (#[trigger] cur@[q]),
            col_fold2(lv, width as int - 1, Seq::<int>::empty(), 0) == col_fold2(
                lv,
                j as int - 1,
                cur@.map_values(|x: i64| x as int),
                total as int,
            ),
            forall|q: int| j <= q < width ==> ((#[trigger] spec_trim(colstr(lv, q))).len() == 0 || (
            is_uint_str(spec_trim(colstr(lv, q))) && digits_val(spec_trim(colstr(lv, q)))
                <= i64::MAX)),
        decreases j,
    {
        let c = j - 1;
        // build the column string over the rows above the operator row
        let mut col: Vec<u8> = Vec::new();
        let mut yy: usize = 0;
        while yy < n - 1
            invariant
                yy <= n as int - 1,
                n == lines@.len(),
                n >= 1,
                seq_views(lines@) == lv,
                lv == spec_lines(input@),
                c < width,
                col@.len() == yy,
                forall|q: int| 0 <= q < yy ==> col@[q] == cell(lv, q, c as int),
            decreases n - 1 - yy,
        {
            proof {
                assert(lines@[yy as int]@ == lv[yy as int]);
            }
            let row = &lines[yy];
            if c < row.len() {
                col.push(row[c]);
            } else {
                col.push(32);
            }
            yy = yy + 1;
        }
        proof {
            assert(col@ =~= colstr(lv, c as int));
        }
        let t = trim_bytes(col.as_slice());
        if t.len() > 0 {
            let num = match parse_u64(t) {
                Some(m) => {
                    if m <= i64::MAX as u64 {
                        m as i64
                    } else {
                        proof {
                            assert(!grid2_ok(lv));
                        }
                        return None;
                    }
                },
                None => {
                    proof {
                        assert(!grid2_ok(lv));
                    }
                    return None;
                },
            };
            let ghost cur0 = cur@.map_values(|x: i64| x as int);
            cur.push(num);
            proof {
                assert(cur@.map_values(|x: i64| x as int) =~= cur0.push(num as int));
            }
            // the operator cell of this column
            proof {
                assert(lines@[n as int - 1]@ == lv[n as int - 1]);
            }
            let last_row = &lines[n - 1];
            let opc: u8 = if c < last_row.len() {
                last_row[c]
            } else {
                32
            };
            proof {
                assert(opc == cell(lv, lv.len() - 1, c as int));
            }
            if opc == 42 || opc == 43 {
                let ghost curv = cur@.map_values(|x: i64| x as int);
                let mut acc: i64 = if opc == 42 {
                    1
                } else {
                    0
                };
                let mut k: usize = 0;
                while k < cur.len()
                    invariant
                        k <= cur@.len(),
                        curv == cur@.map_values(|x: i64| x as int),
                        opc == 42 || opc == 43,
                        lv == spec_lines(input@),
                        width as int == max_width(lv),
                        1 <= j <= width,
                        c == j - 1,
                        col_fold2(lv, width as int - 1, Seq::<int>::empty(), 0) == (match batch_acc(
                            curv,
                            0,
                            opc,
                            (if opc == 42 {
                                1int
                            } else {
                                0int
                            }),
                        ) {
                            None => None,
                            Some(st) => {
                                if total as int + st > i64::MAX || total as int + st < i64::MIN {
                                    None
                                } else {
                                    col_fold2(
                                        lv,
                                        c as int - 1,
                                        Seq::<int>::empty(),
                                        total as int + st,
                                    )
                                }
                            },
                        }),
                        batch_acc(curv, 0, opc, (if opc == 42 {
                            1int
                        } else {
                            0int
                        })) == batch_acc(curv, k as int, opc, acc as int),
                    decreases cur@.len() - k,
                {
                    let v = cur[k];
                    let acc2 = if opc == 42 {
                        match acc.checked_mul(v) {
                            Some(x) => x,
                            None => {
                                proof {
                                    assert(batch_acc(curv, k as int, opc, acc as int) is None);
                                }
                                return None;
                            },
                        }
                    } else {
                        match acc.checked_add(v) {
                            Some(x) => x,
                            None => {
                                proof {
                                    assert(batch_acc(curv, k as int, opc, acc as int) is None);
                                }
                                return None;
                            },
                        }
                    };
                    acc = acc2;
                    k = k + 1;
                }
                let t2 = match total.checked_add(acc) {
                    Some(x) => x,
                    None => {
                        return None;
                    },
                };
                total = t2;
                cur = Vec::new();
                proof {
                    assert(cur@.map_values(|x: i64| x as int) =~= Seq::<int>::empty());
                }
            }
        }
        j = j - 1;
    }
    Some(total)
}

} // verus!
