//! Largest-subnumber puzzle: from each row of digits keep `k` of them in
//! order so that the resulting `k`-digit number is as large as the greedy
//! monotonic-stack selection makes it, and sum the rows' numbers.

use vstd::prelude::*;
use crate::parsing::{
    all_digits, digits_val, is_digit, is_digits_exec, lemma_digits_val_lt_pow10, lemma_pow10_18,
    lemma_pow10_mono, pow10, seq_views, spec_lines, split_lines,
};

verus! {

/// The drop phase of the greedy selection: while drops remain and the
/// stack's last digit is smaller than the incoming one, pop it.
pub open spec fn pop_phase(stack: Seq<u8>, ch: u8, drops: int) -> (Seq<u8>, int)
    decreases stack.len(),
{
    if drops > 0 && stack.len() > 0 && stack.last() < ch {
        pop_phase(stack.drop_last(), ch, drops - 1)
    } else {
        (stack, drops)
    }
}

/// The greedy monotonic-stack pass over the row, starting at `i` with
/// the given stack and remaining drop allowance.
pub open spec fn greedy_run(row: Seq<u8>, i: int, stack: Seq<u8>, drops: int) -> Seq<u8>
    decreases row.len() - i,
{
    if i < 0 || i >= row.len() {
        stack
    } else {
        let s = pop_phase(stack, row[i], drops);
        greedy_run(row, i + 1, s.0.push(row[i]), s.1)
    }
}

/// The `k` digits the greedy selection keeps.
pub open spec fn largest_selection(row: Seq<u8>, k: int) -> Seq<u8> {
    greedy_run(row, 0, Seq::<u8>::empty(), row.len() - k).take(k)
}

fn pop_phase_exec(stack: &mut Vec<u8>, ch: u8, drops: usize) -> (nd: usize)
    ensures
        (final(stack)@, nd as int) == pop_phase(old(stack)@, ch, drops as int),
        nd <= drops,
{
    let mut d: usize = drops;
    while d > 0 && stack.len() > 0 && stack[stack.len() - 1] < ch
        invariant
            d <= drops,
            pop_phase(old(stack)@, ch, drops as int) == pop_phase(stack@, ch, d as int),
        decreases stack@.len(),
    {
        let _p = stack.pop();
        d = d - 1;
    }
    d
}

/// The largest `k`-digit number obtainable by deleting digits of the row
/// while keeping their order, per the greedy selection.
pub fn find_largest_k_digit_number(row: &[u8], k: usize) -> (r: i64)
    requires
        all_digits(row@),
        1 <= k <= row@.len(),
        k <= 18,
    ensures
        r as int == digits_val(largest_selection(row@, k as int)),
        0 <= r,
{
    let n: usize = row.len();
    let mut stack: Vec<u8> = Vec::new();
    let mut drops: usize = n - k;
    let ghost drops0 = (n - k) as int;
    let mut i: usize = 0;
    while i < n
        invariant
            i <= n,
            n == row@.len(),
            all_digits(row@),
            all_digits(stack@),
            drops as int <= drops0,
            drops0 == n as int - k as int,
            stack@.len() == i as int - (drops0 - drops as int),
            greedy_run(row@, 0, Seq::<u8>::empty(), drops0) == greedy_run(
                row@,
                i as int,
                stack@,
                drops as int,
            ),
        decreases n - i,
    {
        let ch = row[i];
        let ghost st0 = stack@;
        let ghost d0 = drops as int;
        let nd = pop_phase_exec(&mut stack, ch, drops);
        proof {
            lemma_pop_phase_len(st0, ch, d0);
        }
        drops = nd;
        stack.push(ch);
        i = i + 1;
    }
    proof {
        assert(stack@ == greedy_run(row@, 0, Seq::<u8>::empty(), drops0));
        assert(stack@.len() >= k);
    }
    let mut val: i64 = 0;
    let mut j: usize = 0;
    proof {
        assert(stack@.take(0) =~= Seq::<u8>::empty());
    }
    while j < k
        invariant
            j <= k,
            k <= 18,
            k <= stack@.len(),
            all_digits(stack@),
            val as int == digits_val(stack@.take(j as int)),
            0 <= val,
        decreases k - j,
    {
        proof {
            assert(stack@.take(j as int + 1).drop_last() =~= stack@.take(j as int));
            assert(stack@.take(j as int + 1).last() == stack@[j as int]);
            assert(forall|q: int|
                0 <= q < j as int + 1 ==> is_digit(#[trigger] stack@.take(j as int + 1)[q]));
            lemma_digits_val_lt_pow10(stack@.take(j as int + 1));
            lemma_pow10_mono((j + 1) as nat, 18);
            lemma_pow10_18();
        }
        let d = stack[j];
        val = val * 10 + ((d - 48) as i64);
        j = j + 1;
    }
    proof {
        assert(stack@.take(k as int) == largest_selection(row@, k as int));
    }
    val
}

/// Popping uses one drop per removed digit.
pub proof fn lemma_pop_phase_len(stack: Seq<u8>, ch: u8, drops: int)
    ensures
        pop_phase(stack, ch, drops).0.len() == stack.len() - (drops - pop_phase(
            stack,
            ch,
            drops,
        ).1),
        all_digits(stack) ==> all_digits(pop_phase(stack, ch, drops).0),
    decreases stack.len(),
{
    if drops > 0 && stack.len() > 0 && stack.last() < ch {
        assert(forall|i: int|
            all_digits(stack) && 0 <= i < stack.drop_last().len() ==> is_digit(
                #[trigger] stack.drop_last()[i],
            ));
        lemma_pop_phase_len(stack.drop_last(), ch, drops - 1);
    }
}

/// A row qualifies when it is all digits and long enough to keep `k`.
pub open spec fn row_ok(l: Seq<u8>, k: int) -> bool {
    all_digits(l) && l.len() >= k
}

pub open spec fn rows_all_ok(lines: Seq<Seq<u8>>, k: int) -> bool {
    forall|i: int|
        0 <= i < lines.len() ==> ((#[trigger] lines[i]).len() == 0 || row_ok(lines[i], k))
}

/// Sum of the rows' greedy numbers; `None` once the running sum leaves
/// `i64` range.
pub open spec fn sum_rows(lines: Seq<Seq<u8>>, k: int, acc: int) -> Option<int>
    decreases lines.len(),
{
    if lines.len() == 0 {
        Some(acc)
    } else {
        let l = lines.first();
        if l.len() == 0 {
            sum_rows(lines.drop_first(), k, acc)
        } else {
            let acc2 = acc + digits_val(largest_selection(l, k));
            if acc2 > i64::MAX {
                None
            } else {
                sum_rows(lines.drop_first(), k, acc2)
            }
        }
    }
}

/// Sums the largest `k`-digit numbers of all non-empty rows, where `k`
/// is 12 in the second part and 2 in the first. `None` exactly when some
/// non-empty row is not a long-enough digit row, or the sum overflows.
pub fn solve(data: &[u8], part2: bool) -> (r: Option<i64>)
    ensures
        ({
            let lines = spec_lines(data@);
            let k: int = if part2 {
                12
            } else {
                2
            };
            match r {
                Some(v) => rows_all_ok(lines, k) && Some(v as int) == sum_rows(lines, k, 0),
                None => !rows_all_ok(lines, k) || sum_rows(lines, k, 0) is None,
            }
        }),
{
    let k: usize = if part2 {
        12
    } else {
        2
    };
    let lines = split_lines(data);
    let ghost lv = spec_lines(data@);
    let mut acc: i64 = 0;
    let mut i: usize = 0;
    proof {
        assert(lv.skip(0) =~= lv);
    }
    while i < lines.len()
        invariant
            i <= lines@.len(),
            seq_views(lines@) == lv,
            lv == spec_lines(data@),
            k == (if part2 {
                12int
            } else {
                2int
            }),
            0 <= acc,
            sum_rows(lv, k as int, 0) == sum_rows(lv.skip(i as int), k as int, acc as int),
            forall|j: int|
                0 <= j < i ==> ((#[trigger] lv[j]).len() == 0 || row_ok(lv[j], k as int)),
        decreases lines@.len() - i,
    {
        proof {
            assert(lv.skip(i as int).drop_first() =~= lv.skip(i as int + 1));
            assert(lv.skip(i as int).first() == lv[i as int]);
            assert(lines@[i as int]@ == lv[i as int]);
        }
        let line = &lines[i];
        if line.len() > 0 {
            if line.len() < k {
                return None;
            }
            if !is_digits_exec(line.as_slice()) {
                return None;
            }
            let v = find_largest_k_digit_number(line.as_slice(), k);
            let acc2 = match acc.checked_add(v) {
                Some(x) => x,
                None => {
                    return None;
                },
            };
            acc = acc2;
        }
        i = i + 1;
    }
    proof {
        assert(lv.skip(lines@.len() as int) =~= Seq::<Seq<u8>>::empty());
    }
    Some(acc)
}

/// Sum with two digits kept per row.
pub fn solve_part1(input: &[u8]) -> (r: Option<i64>)
    ensures
        ({
            let lines = spec_lines(input@);
            match r {
                Some(v) => rows_all_ok(lines, 2) && Some(v as int) == sum_rows(lines, 2, 0),
                None => !rows_all_ok(lines, 2) || sum_rows(lines, 2, 0) is None,
            }
        }),
{
    solve(input, false)
}

/// Sum with twelve digits kept per row.
pub fn solve_part2(input: &[u8]) -> (r: Option<i64>)
    ensures
        ({
            let lines = spec_lines(input@);
            match r {
                Some(v) => rows_all_ok(lines, 12) && Some(v as int) == sum_rows(lines, 12, 0),
                None => !rows_all_ok(lines, 12) || sum_rows(lines, 12, 0) is None,
            }
        }),
{
    solve(input, true)
}

} // verus!
