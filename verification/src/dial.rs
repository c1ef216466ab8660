//! Dial-rotation puzzle: a pointer on a 100-position dial follows `L`/`R`
//! rotation commands, counting how often it lands on position zero —
//! either per whole command, or per single click of a command.

use vstd::prelude::*;
use vstd::arithmetic::div_mod::{lemma_mod_self_0, lemma_mod_twice, lemma_add_mod_noop,
    lemma_sub_mod_noop, lemma_small_mod};
use crate::parsing::{digits_val, is_uint_str, parse_u64, seq_views, spec_lines, split_lines};
use vstd::slice::slice_subrange;

verus! {

/// `L` rotates the dial down, `R` up, wrapping on the 100 positions.
pub open spec fn spec_step(pos: int, rot: u8, amount: int) -> int {
    if rot == 76 {
        (pos - amount) % 100
    } else {
        (pos + amount) % 100
    }
}

/// One rotation command applied to the current position.
pub fn step(pos: i64, rot: u8, amount: i64) -> (r: i64)
    requires
        0 <= pos < 100,
        rot == 76 || rot == 82,
        0 <= amount,
    ensures
        r as int == spec_step(pos as int, rot, amount as int),
        0 <= r < 100,
{
    let a = amount % 100;
    proof {
        lemma_small_mod(pos as nat, 100);
        lemma_mod_twice(amount as int, 100);
        if rot == 76 {
            lemma_sub_mod_noop(pos as int, amount as int, 100);
            lemma_add_mod_noop(pos - a, 100int, 100);
            lemma_mod_self_0(100);
            lemma_mod_twice(pos - a + 100, 100);
            assert((pos - amount) % 100 == (pos - a + 100) % 100);
        } else {
            lemma_add_mod_noop(pos as int, amount as int, 100);
            lemma_mod_twice(pos + a, 100);
            assert((pos + amount) % 100 == (pos + a) % 100);
        }
    }
    if rot == 76 {
        (pos - a + 100) % 100
    } else {
        (pos + a) % 100
    }
}

/// A rotation command line: a direction byte (`L` or `R`) followed by a
/// run of decimal digits whose value fits an `i64`.
pub open spec fn rot_line_ok(l: Seq<u8>) -> bool {
    &&& l.len() >= 2
    &&& (l[0] == 76 || l[0] == 82)
    &&& is_uint_str(l.skip(1))
    &&& digits_val(l.skip(1)) <= i64::MAX
}

/// Splits a command line into its direction byte and its amount.
pub fn parse_line(line: &[u8]) -> (r: Option<(u8, i64)>)
    ensures
        match r {
            Some((d, a)) => rot_line_ok(line@) && d == line@[0] && 0 <= a && a as int
                == digits_val(line@.skip(1)),
            None => !rot_line_ok(line@),
        },
{
    let n: usize = line.len();
    if n < 2 {
        return None;
    }
    let d = line[0];
    if d != 76 && d != 82 {
        return None;
    }
    let rest = slice_subrange(line, 1, n);
    proof {
        assert(rest@ =~= line@.skip(1));
    }
    match parse_u64(rest) {
        Some(m) => {
            if m <= i64::MAX as u64 {
                Some((d, m as i64))
            } else {
                None
            }
        },
        None => None,
    }
}

pub open spec fn dial_lines_ok(lines: Seq<Seq<u8>>) -> bool {
    forall|i: int|
        0 <= i < lines.len() ==> ((#[trigger] lines[i]).len() == 0 || rot_line_ok(lines[i]))
}

/// Position and zero-visit count after whole commands are applied in
/// order (empty lines skipped).
pub open spec fn dial_run1(lines: Seq<Seq<u8>>, pos: int, hits: int) -> (int, int)
    decreases lines.len(),
{
    if lines.len() == 0 {
        (pos, hits)
    } else {
        let l = lines.first();
        if l.len() == 0 {
            dial_run1(lines.drop_first(), pos, hits)
        } else {
            let p2 = spec_step(pos, l[0], digits_val(l.skip(1)));
            dial_run1(
                lines.drop_first(),
                p2,
                hits + if p2 == 0 {
                    1int
                } else {
                    0int
                },
            )
        }
    }
}

/// Counts the commands after which the dial rests on zero. `None`
/// exactly when some non-empty line is not a command line (or, in
/// principle, the count exceeds `i64`).
pub fn solve_part1(input: &[u8]) -> (r: Option<i64>)
    ensures
        ({
            let lines = spec_lines(input@);
            match r {
                Some(v) => dial_lines_ok(lines) && v as int == dial_run1(lines, 50, 0).1 && v
                    <= i64::MAX,
                None => !dial_lines_ok(lines) || dial_run1(lines, 50, 0).1 > i64::MAX,
            }
        }),
{
    let lines = split_lines(input);
    let ghost lv = spec_lines(input@);
    let mut pos: i64 = 50;
    let mut hits: usize = 0;
    let mut i: usize = 0;
    proof {
        assert(lv.skip(0) =~= lv);
    }
    while i < lines.len()
        invariant
            i <= lines@.len(),
            seq_views(lines@) == lv,
            lv == spec_lines(input@),
            0 <= pos < 100,
            hits as int <= i as int,
            dial_run1(lv, 50, 0) == dial_run1(lv.skip(i as int), pos as int, hits as int),
            forall|j: int|
                0 <= j < i ==> ((#[trigger] lv[j]).len() == 0 || rot_line_ok(lv[j])),
        decreases lines@.len() - i,
    {
        proof {
            assert(lv.skip(i as int).drop_first() =~= lv.skip(i as int + 1));
            assert(lv.skip(i as int).first() == lv[i as int]);
            assert(lines@[i as int]@ == lv[i as int]);
        }
        let line = &lines[i];
        if line.len() > 0 {
            let (d, a) = match parse_line(line.as_slice()) {
                Some(p) => p,
                None => {
                    return None;
                },
            };
            pos = step(pos, d, a);
            if pos == 0 {
                hits = hits + 1;
            }
        }
        i = i + 1;
    }
    proof {
        assert(lv.skip(lines@.len() as int) =~= Seq::<Seq<u8>>::empty());
    }
    if hits as u64 <= i64::MAX as u64 {
        Some((hits as u64) as i64)
    } else {
        None
    }
}

/// Position and zero-visit count after `a` single clicks of one command.
pub open spec fn unit_fold(pos: int, rot: u8, a: int, hits: int) -> (int, int)
    decreases a,
{
    if a <= 0 {
        (pos, hits)
    } else {
        let p2 = spec_step(pos, rot, 1);
        unit_fold(
            p2,
            rot,
            a - 1,
            hits + if p2 == 0 {
                1int
            } else {
                0int
            },
        )
    }
}

/// Position and zero-visit count with every command applied one click at
/// a time.
pub open spec fn dial_run2(lines: Seq<Seq<u8>>, pos: int, hits: int) -> (int, int)
    decreases lines.len(),
{
    if lines.len() == 0 {
        (pos, hits)
    } else {
        let l = lines.first();
        if l.len() == 0 {
            dial_run2(lines.drop_first(), pos, hits)
        } else {
            let s = unit_fold(pos, l[0], digits_val(l.skip(1)), hits);
            dial_run2(lines.drop_first(), s.0, s.1)
        }
    }
}

pub proof fn lemma_unit_fold_monotone(pos: int, rot: u8, a: int, hits: int)
    ensures
        unit_fold(pos, rot, a, hits).1 >= hits,
    decreases a,
{
    if a > 0 {
        let p2 = spec_step(pos, rot, 1);
        lemma_unit_fold_monotone(
            p2,
            rot,
            a - 1,
            hits + if p2 == 0 {
                1int
            } else {
                0int
            },
        );
    }
}

pub proof fn lemma_dial_run2_monotone(lines: Seq<Seq<u8>>, pos: int, hits: int)
    ensures
        dial_run2(lines, pos, hits).1 >= hits,
    decreases lines.len(),
{
    if lines.len() > 0 {
        let l = lines.first();
        if l.len() == 0 {
            lemma_dial_run2_monotone(lines.drop_first(), pos, hits);
        } else {
            let s = unit_fold(pos, l[0], digits_val(l.skip(1)), hits);
            lemma_unit_fold_monotone(pos, l[0], digits_val(l.skip(1)), hits);
            lemma_dial_run2_monotone(lines.drop_first(), s.0, s.1);
        }
    }
}

/// Counts the single clicks that land the dial on zero. `None` exactly
/// when some non-empty line is not a command line or the count exceeds
/// `i64`.
pub fn solve_part2(input: &[u8]) -> (r: Option<i64>)
    ensures
        ({
            let lines = spec_lines(input@);
            match r {
                Some(v) => dial_lines_ok(lines) && v as int == dial_run2(lines, 50, 0).1 && v
                    <= i64::MAX,
                None => !dial_lines_ok(lines) || dial_run2(lines, 50, 0).1 > i64::MAX,
            }
        }),
{
    let lines = split_lines(input);
    let ghost lv = spec_lines(input@);
    let mut pos: i64 = 50;
    let mut hits: i64 = 0;
    let mut i: usize = 0;
    proof {
        assert(lv.skip(0) =~= lv);
    }
    while i < lines.len()
        invariant
            i <= lines@.len(),
            seq_views(lines@) == lv,
            lv == spec_lines(input@),
            0 <= pos < 100,
            0 <= hits,
            dial_run2(lv, 50, 0) == dial_run2(lv.skip(i as int), pos as int, hits as int),
            forall|j: int|
                0 <= j < i ==> ((#[trigger] lv[j]).len() == 0 || rot_line_ok(lv[j])),
        decreases lines@.len() - i,
    {
        proof {
            assert(lv.skip(i as int).drop_first() =~= lv.skip(i as int + 1));
            assert(lv.skip(i as int).first() == lv[i as int]);
            assert(lines@[i as int]@ == lv[i as int]);
        }
        let line = &lines[i];
        if line.len() > 0 {
            let (d, a) = match parse_line(line.as_slice()) {
                Some(p) => p,
                None => {
                    return None;
                },
            };
            let mut k: i64 = 0;
            while k < a
                invariant
                    0 <= k <= a,
                    0 <= pos < 100,
                    0 <= hits,
                    d == 76 || d == 82,
                    lv == spec_lines(input@),
                    dial_run2(lv, 50, 0) == ({
                        let s = unit_fold(pos as int, d, a - k, hits as int);
                        dial_run2(lv.skip(i as int + 1), s.0, s.1)
                    }),
                decreases a - k,
            {
                let ghost pos0 = pos as int;
                let ghost hits0 = hits as int;
                pos = step(pos, d, 1);
                if pos == 0 {
                    if hits == i64::MAX {
                        proof {
                            let p2 = spec_step(pos0, d, 1);
                            assert(p2 == pos as int);
                            assert(unit_fold(pos0, d, a - k, hits0) == unit_fold(
                                p2,
                                d,
                                a - k - 1,
                                hits0 + 1,
                            ));
                            let s = unit_fold(p2, d, a - k - 1, hits0 + 1);
                            lemma_unit_fold_monotone(p2, d, a - k - 1, hits0 + 1);
                            lemma_dial_run2_monotone(lv.skip(i as int + 1), s.0, s.1);
                            assert(dial_run2(lv, 50, 0).1 > i64::MAX);
                        }
                        return None;
                    }
                    hits = hits + 1;
                }
                k = k + 1;
            }
        }
        i = i + 1;
    }
    proof {
        assert(lv.skip(lines@.len() as int) =~= Seq::<Seq<u8>>::empty());
    }
    Some(hits)
}

} // verus!
