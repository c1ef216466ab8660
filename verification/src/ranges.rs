//! Ingredient-range puzzle: a block of `start-end` ranges followed by a
//! blank line and a block of ingredient numbers. Count the ingredients
//! falling in some range, or measure the total coverage of the ranges.

use vstd::prelude::*;
use crate::parsing::{
    digits_val, int_str_val, is_int_str, is_uint_str, parse_i64, parse_u64, seq_views, spec_lines,
    spec_split, split_bytes, split_lines,
};

verus! {

/// A range line: two dash-separated digit runs, the end strictly below
/// the extreme of `i64`.
pub open spec fn range_line_ok(l: Seq<u8>) -> bool {
    let fs = spec_split(l, 45);
    &&& fs.len() == 2
    &&& is_uint_str(fs[0])
    &&& is_uint_str(fs[1])
    &&& digits_val(fs[0]) <= i64::MAX
    &&& digits_val(fs[1]) < i64::MAX
}

pub open spec fn line_range(l: Seq<u8>) -> (int, int) {
    let fs = spec_split(l, 45);
    (digits_val(fs[0]), digits_val(fs[1]))
}

/// The ranges of the block's non-empty lines, in line order.
pub open spec fn ranges_of(lines: Seq<Seq<u8>>) -> Seq<(int, int)>
    decreases lines.len(),
{
    if lines.len() == 0 {
        Seq::<(int, int)>::empty()
    } else if lines.last().len() == 0 {
        ranges_of(lines.drop_last())
    } else {
        ranges_of(lines.drop_last()).push(line_range(lines.last()))
    }
}

pub open spec fn range_lines_ok(lines: Seq<Seq<u8>>) -> bool {
    forall|i: int|
        0 <= i < lines.len() ==> ((#[trigger] lines[i]).len() == 0 || range_line_ok(lines[i]))
}

/// Ranges ordered by start, ties by end.
pub open spec fn pair_leq() -> spec_fn((int, int), (int, int)) -> bool {
    |x: (int, int), y: (int, int)| x.0 < y.0 || (x.0 == y.0 && x.1 <= y.1)
}

pub proof fn lemma_pair_le_total()
    ensures
        vstd::relations::total_ordering(pair_leq()),
{
}

pub open spec fn to_pairs(s: Seq<(i64, i64)>) -> Seq<(int, int)> {
    s.map_values(|p: (i64, i64)| (p.0 as int, p.1 as int))
}

/// The block's ranges sorted ascending by start (ties by end).
pub open spec fn sorted_ranges_of(lines: Seq<Seq<u8>>) -> Seq<(int, int)> {
    ranges_of(lines).sort_by(pair_leq())
}

fn pair_insert_pos(r: &Vec<(i64, i64)>, e: (i64, i64)) -> (p: usize)
    ensures
        p <= r@.len(),
        forall|q: int| 0 <= q < p ==> pair_leq()(to_pairs(r@)[q], (e.0 as int, e.1 as int)),
        (p as int) < r@.len() ==> !pair_leq()(to_pairs(r@)[p as int], (e.0 as int, e.1 as int)),
{
    let mut p: usize = 0;
    while p < r.len()
        invariant
            p <= r@.len(),
            forall|q: int| 0 <= q < p ==> pair_leq()(to_pairs(r@)[q], (e.0 as int, e.1 as int)),
        decreases r@.len() - p,
    {
        let c = r[p];
        if c.0 > e.0 || (c.0 == e.0 && c.1 > e.1) {
            proof {
                assert(to_pairs(r@)[p as int] == (c.0 as int, c.1 as int));
            }
            return p;
        }
        proof {
            assert(to_pairs(r@)[p as int] == (c.0 as int, c.1 as int));
        }
        p = p + 1;
    }
    p
}

/// Parses the range block: one range per non-empty line, returned sorted
/// ascending by start (ties by end). `None` exactly when some non-empty
/// line is not a range line.
pub fn parse_ranges(block: &[u8]) -> (r: Option<Vec<(i64, i64)>>)
    ensures
        match r {
            Some(v) => range_lines_ok(spec_lines(block@)) && to_pairs(v@) == sorted_ranges_of(
                spec_lines(block@),
            ),
            None => !range_lines_ok(spec_lines(block@)),
        },
{
    broadcast use vstd::seq_lib::group_to_multiset_ensures;

    let lines = split_lines(block);
    let ghost lv = spec_lines(block@);
    let mut out: Vec<(i64, i64)> = Vec::new();
    let mut i: usize = 0;
    proof {
        assert(lv.take(0) =~= Seq::<Seq<u8>>::empty());
        assert(to_pairs(out@) =~= Seq::<(int, int)>::empty());
        assert(to_pairs(out@).to_multiset() =~= ranges_of(lv.take(0)).to_multiset());
    }
    while i < lines.len()
        invariant
            i <= lines@.len(),
            seq_views(lines@) == lv,
            lv == spec_lines(block@),
            vstd::relations::sorted_by(to_pairs(out@), pair_leq()),
            to_pairs(out@).to_multiset() == ranges_of(lv.take(i as int)).to_multiset(),
            forall|j: int|
                0 <= j < i ==> ((#[trigger] lv[j]).len() == 0 || range_line_ok(lv[j])),
        decreases lines@.len() - i,
    {
        proof {
            assert(lv.take(i as int + 1).drop_last() =~= lv.take(i as int));
            assert(lv.take(i as int + 1).last() == lv[i as int]);
            assert(lines@[i as int]@ == lv[i as int]);
        }
        let line = &lines[i];
        if line.len() > 0 {
            let fields = split_bytes(line.as_slice(), 45);
            proof {
                assert(seq_views(fields@) == spec_split(lv[i as int], 45));
            }
            if fields.len() != 2 {
                return None;
            }
            proof {
                assert(fields@[0]@ == spec_split(lv[i as int], 45)[0]);
                assert(fields@[1]@ == spec_split(lv[i as int], 45)[1]);
            }
            let s = match parse_u64(fields[0].as_slice()) {
                Some(m) => {
                    if m <= i64::MAX as u64 {
                        m as i64
                    } else {
                        return None;
                    }
                },
                None => {
                    return None;
                },
            };
            let e = match parse_u64(fields[1].as_slice()) {
                Some(m) => {
                    if m < i64::MAX as u64 {
                        m as i64
                    } else {
                        return None;
                    }
                },
                None => {
                    return None;
                },
            };
            let pr = (s, e);
            let p = pair_insert_pos(&out, pr);
            let ghost r0 = out@;
            out.insert(p, pr);
            proof {
                let m0 = to_pairs(r0);
                let m1 = to_pairs(r0.insert(p as int, pr));
                let ep = (pr.0 as int, pr.1 as int);
                assert(out@ == r0.insert(p as int, pr));
                assert(m1 =~= m0.insert(p as int, ep));
                assert(forall|k: int| 0 <= k < p ==> m1[k] == m0[k]);
                assert(m1[p as int] == ep);
                assert(forall|k: int| p < k < m1.len() ==> m1[k] == m0[k - 1]);
                assert forall|u: int, x: int| 0 <= u < x < m1.len() implies pair_leq()(
                    m1[u],
                    m1[x],
                ) by {
                    if x < p as int {
                        assert(pair_leq()(m0[u], m0[x]));
                    } else if u < p as int && x == p as int {
                        assert(pair_leq()(m0[u], ep));
                    } else if u < p as int && x > p as int {
                        if u < x - 1 {
                            assert(pair_leq()(m0[u], m0[x - 1]));
                        }
                        assert(pair_leq()(m0[u], ep));
                        assert(!pair_leq()(m0[p as int], ep));
                    } else if u == p as int {
                        assert(!pair_leq()(m0[p as int], ep));
                        if (p as int) < x - 1 {
                            assert(pair_leq()(m0[p as int], m0[x - 1]));
                        }
                    } else {
                        assert(pair_leq()(m0[u - 1], m0[x - 1]));
                    }
                }
                assert(line_range(lv[i as int]) == ep);
                assert(ranges_of(lv.take(i as int + 1)) =~= ranges_of(lv.take(i as int)).push(ep));
                vstd::seq_lib::to_multiset_insert(m0, p as int, ep);
                vstd::seq_lib::to_multiset_build(ranges_of(lv.take(i as int)), ep);
                assert(m1.to_multiset() =~= m0.to_multiset().insert(ep));
            }
        }
        i = i + 1;
    }
    proof {
        assert(lv.take(lines@.len() as int) =~= lv);
        lemma_pair_le_total();
        ranges_of(lv).lemma_sort_by_ensures(pair_leq());
        vstd::seq_lib::lemma_sorted_unique(to_pairs(out@), sorted_ranges_of(lv), pair_leq());
        assert(to_pairs(out@) =~= sorted_ranges_of(lv));
    }
    Some(out)
}

/// Some range contains the value.
pub open spec fn contained(x: int, rs: Seq<(int, int)>) -> bool {
    exists|k: int| 0 <= k < rs.len() && (#[trigger] rs[k]).0 <= x <= rs[k].1
}

/// Containment is a property of the ranges as a collection, not of
/// their order.
pub proof fn lemma_contained_perm(x: int, a: Seq<(int, int)>, b: Seq<(int, int)>)
    requires
        a.to_multiset() == b.to_multiset(),
    ensures
        contained(x, a) == contained(x, b),
{
    broadcast use vstd::seq_lib::group_to_multiset_ensures;

    if contained(x, a) {
        let k = choose|k: int| 0 <= k < a.len() && (#[trigger] a[k]).0 <= x <= a[k].1;
        assert(a.to_multiset().contains(a[k]));
        assert(b.contains(a[k]));
    }
    if contained(x, b) {
        let k = choose|k: int| 0 <= k < b.len() && (#[trigger] b[k]).0 <= x <= b[k].1;
        assert(b.to_multiset().contains(b[k]));
        assert(a.contains(b[k]));
    }
}

/// Whether the ingredient lies in some range; the scan stops at the
/// first range starting beyond it, which is sound because the ranges
/// are sorted by start.
pub fn ingredient_in_range(ingredient: i64, ranges: &[(i64, i64)]) -> (r: bool)
    requires
        vstd::relations::sorted_by(to_pairs(ranges@), pair_leq()),
    ensures
        r == contained(ingredient as int, to_pairs(ranges@)),
{
    let n: usize = ranges.len();
    let mut k: usize = 0;
    while k < n
        invariant
            k <= n,
            n == ranges@.len(),
            vstd::relations::sorted_by(to_pairs(ranges@), pair_leq()),
            forall|q: int|
                0 <= q < k ==> !((#[trigger] to_pairs(ranges@)[q]).0 <= ingredient as int
                    <= to_pairs(ranges@)[q].1),
        decreases n - k,
    {
        let c = ranges[k];
        proof {
            assert(to_pairs(ranges@)[k as int] == (c.0 as int, c.1 as int));
        }
        if ingredient < c.0 {
            proof {
                assert forall|q: int| 0 <= q < n implies !((#[trigger] to_pairs(ranges@)[q]).0
                    <= ingredient as int <= to_pairs(ranges@)[q].1) by {
                    if q >= k as int {
                        if q > k as int {
                            assert(pair_leq()(to_pairs(ranges@)[k as int], to_pairs(ranges@)[q]));
                        }
                    }
                }
            }
            return false;
        }
        if ingredient >= c.0 && ingredient <= c.1 {
            return true;
        }
        k = k + 1;
    }
    false
}

/// Index of the first empty line at or after `from`.
pub open spec fn first_empty(lines: Seq<Seq<u8>>, from: int) -> int
    decreases lines.len() - from,
{
    if from < 0 || from >= lines.len() {
        lines.len() as int
    } else if lines[from].len() == 0 {
        from
    } else {
        first_empty(lines, from + 1)
    }
}

pub open spec fn ing_line_ok(l: Seq<u8>) -> bool {
    is_int_str(l) && i64::MIN <= int_str_val(l) <= i64::MAX
}

/// How many of the lines in `[lo, hi)` hold a number some range contains.
pub open spec fn count_in(lines: Seq<Seq<u8>>, lo: int, hi: int, rs: Seq<(int, int)>) -> int
    decreases hi - lo,
{
    if lo < 0 || lo >= hi {
        0
    } else {
        (if contained(int_str_val(lines[lo]), rs) {
            1int
        } else {
            0int
        }) + count_in(lines, lo + 1, hi, rs)
    }
}

/// Counts the ingredients of the second block that fall inside some
/// range of the first block. `None` exactly when a range line or an
/// ingredient line is malformed.
pub fn solve_part1(input: &[u8]) -> (r: Option<i64>)
    ensures
        ({
            let lines = spec_lines(input@);
            let e = first_empty(lines, 0);
            let f = first_empty(lines, e + 1);
            match r {
                Some(v) => (forall|j: int| 0 <= j < e ==> range_line_ok(#[trigger] lines[j])) && (
                forall|j: int| e < j < f ==> ing_line_ok(#[trigger] lines[j])) && v as int
                    == count_in(lines, e + 1, f, ranges_of(lines.take(e))) && 0 <= v,
                None => !((forall|j: int| 0 <= j < e ==> range_line_ok(#[trigger] lines[j])) && (
                forall|j: int| e < j < f ==> ing_line_ok(#[trigger] lines[j]))) || count_in(
                    lines,
                    e + 1,
                    f,
                    ranges_of(lines.take(e)),
                ) > i64::MAX,
            }
        }),
{
    let lines = split_lines(input);
    let ghost lv = spec_lines(input@);
    let ghost e = first_empty(lv, 0);
    let ghost f = first_empty(lv, e + 1);
    let n = lines.len();
    // find the end of the range block
    let mut eb: usize = 0;
    while eb < n && lines[eb].len() > 0
        invariant
            eb <= n,
            n == lines@.len(),
            seq_views(lines@) == lv,
            lv == spec_lines(input@),
            first_empty(lv, 0) == first_empty(lv, eb as int),
            forall|j: int| 0 <= j < eb ==> (#[trigger] lv[j]).len() > 0,
        decreases n - eb,
    {
        proof {
            assert(lines@[eb as int]@ == lv[eb as int]);
        }
        eb = eb + 1;
    }
    proof {
        if (eb as int) < lv.len() {
            assert(lines@[eb as int]@ == lv[eb as int]);
        }
        assert(e == eb as int);
    }
    // collect the range block bytes back into one slice-by-slice parse:
    // parse lines [0, eb) as ranges, sorted.
    let mut rvec: Vec<(i64, i64)> = Vec::new();
    {
        let mut i: usize = 0;
        proof {
            assert(lv.take(0) =~= Seq::<Seq<u8>>::empty());
            assert(to_pairs(rvec@) =~= Seq::<(int, int)>::empty());
        }
        while i < eb
            invariant
                i <= eb,
                eb <= lines@.len(),
                seq_views(lines@) == lv,
                lv == spec_lines(input@),
                e == eb as int,
                e == first_empty(lv, 0),
                vstd::relations::sorted_by(to_pairs(rvec@), pair_leq()),
                to_pairs(rvec@).to_multiset() == ranges_of(lv.take(i as int)).to_multiset(),
                forall|j: int| 0 <= j < i ==> range_line_ok(#[trigger] lv[j]),
                forall|j: int| 0 <= j < eb ==> (#[trigger] lv[j]).len() > 0,
            decreases eb - i,
        {
            proof {
                assert(lv.take(i as int + 1).drop_last() =~= lv.take(i as int));
                assert(lv.take(i as int + 1).last() == lv[i as int]);
                assert(lines@[i as int]@ == lv[i as int]);
            }
            let line = &lines[i];
            let fields = split_bytes(line.as_slice(), 45);
            proof {
                assert(seq_views(fields@) == spec_split(lv[i as int], 45));
            }
            if fields.len() != 2 {
                return None;
            }
            proof {
                assert(fields@[0]@ == spec_split(lv[i as int], 45)[0]);
                assert(fields@[1]@ == spec_split(lv[i as int], 45)[1]);
            }
            let s = match parse_u64(fields[0].as_slice()) {
                Some(m) => {
                    if m <= i64::MAX as u64 {
                        m as i64
                    } else {
                        return None;
                    }
                },
                None => {
                    return None;
                },
            };
            let ee = match parse_u64(fields[1].as_slice()) {
                Some(m) => {
                    if m < i64::MAX as u64 {
                        m as i64
                    } else {
                        return None;
                    }
                },
                None => {
                    return None;
                },
            };
            let pr = (s, ee);
            let p = pair_insert_pos(&rvec, pr);
            let ghost r0 = rvec@;
            rvec.insert(p, pr);
            proof {
                broadcast use vstd::seq_lib::group_to_multiset_ensures;

                let m0 = to_pairs(r0);
                let m1 = to_pairs(r0.insert(p as int, pr));
                let ep = (pr.0 as int, pr.1 as int);
                assert(rvec@ == r0.insert(p as int, pr));
                assert(m1 =~= m0.insert(p as int, ep));
                assert(forall|k: int| 0 <= k < p ==> m1[k] == m0[k]);
                assert(m1[p as int] == ep);
                assert(forall|k: int| p < k < m1.len() ==> m1[k] == m0[k - 1]);
                assert forall|u: int, x: int| 0 <= u < x < m1.len() implies pair_leq()(
                    m1[u],
                    m1[x],
                ) by {
                    if x < p as int {
                        assert(pair_leq()(m0[u], m0[x]));
                    } else if u < p as int && x == p as int {
                        assert(pair_leq()(m0[u], ep));
                    } else if u < p as int && x > p as int {
                        if u < x - 1 {
                            assert(pair_leq()(m0[u], m0[x - 1]));
                        }
                        assert(pair_leq()(m0[u], ep));
                        assert(!pair_leq()(m0[p as int], ep));
                    } else if u == p as int {
                        assert(!pair_leq()(m0[p as int], ep));
                        if (p as int) < x - 1 {
                            assert(pair_leq()(m0[p as int], m0[x - 1]));
                        }
                    } else {
                        assert(pair_leq()(m0[u - 1], m0[x - 1]));
                    }
                }
                assert(line_range(lv[i as int]) == ep);
                assert(ranges_of(lv.take(i as int + 1)) =~= ranges_of(lv.take(i as int)).push(ep));
                vstd::seq_lib::to_multiset_insert(m0, p as int, ep);
                vstd::seq_lib::to_multiset_build(ranges_of(lv.take(i as int)), ep);
                assert(m1.to_multiset() =~= m0.to_multiset().insert(ep));
            }
            i = i + 1;
        }
    }
    // count the ingredient block: the lines strictly between the blocks
    let mut cnt: usize = 0;
    let ghost rsu = ranges_of(lv.take(e));
    if eb >= n {
        proof {
            lemma_first_empty_le(lv, e + 1);
        }
        return Some(0);
    }
    let mut i: usize = eb + 1;
    proof {
        lemma_first_empty_le(lv, e + 1);
        assert(count_in(lv, i as int, f, rsu) == count_in(lv, e + 1, f, rsu));
    }
    while i < n && lines[i].len() > 0
        invariant
            e + 1 <= i as int,
            i as int <= f,
            first_empty(lv, i as int) == f,
            n == lines@.len(),
            seq_views(lines@) == lv,
            lv == spec_lines(input@),
            e == eb as int,
            e == first_empty(lv, 0),
            f == first_empty(lv, e + 1),
            f <= n as int,
            rsu == ranges_of(lv.take(e)),
            to_pairs(rvec@).to_multiset() == rsu.to_multiset(),
            vstd::relations::sorted_by(to_pairs(rvec@), pair_leq()),
            cnt as int + count_in(lv, i as int, f, rsu) == count_in(lv, e + 1, f, rsu),
            cnt as int <= i as int,
            forall|j: int| 0 <= j < e ==> range_line_ok(#[trigger] lv[j]),
            forall|j: int| e < j < i ==> ing_line_ok(#[trigger] lv[j]),
        decreases n - i,
    {
        proof {
            assert(lines@[i as int]@ == lv[i as int]);
            lemma_first_empty_le(lv, i as int + 1);
            assert(first_empty(lv, i as int) == first_empty(lv, i as int + 1));
            assert((i as int) < f);
        }
        let line = &lines[i];
        let x = match parse_i64(line.as_slice()) {
            Some(v) => v,
            None => {
                return None;
            },
        };
        let inr = ingredient_in_range(x, rvec.as_slice());
        proof {
            lemma_contained_perm(x as int, to_pairs(rvec@), rsu);
        }
        if inr {
            cnt = cnt + 1;
        }
        i = i + 1;
    }
    proof {
        if i < n {
            assert(lines@[i as int]@ == lv[i as int]);
        }
        assert(count_in(lv, i as int, f, rsu) == 0);
    }
    if cnt as u64 <= i64::MAX as u64 {
        Some((cnt as u64) as i64)
    } else {
        None
    }
}

/// The first empty line at or after `from` is at most the line count,
/// and no earlier than `from` itself.
pub proof fn lemma_first_empty_le(lines: Seq<Seq<u8>>, from: int)
    ensures
        first_empty(lines, from) <= lines.len(),
        0 <= from <= lines.len() ==> from <= first_empty(lines, from),
    decreases lines.len() - from,
{
    if 0 <= from < lines.len() && lines[from].len() != 0 {
        lemma_first_empty_le(lines, from + 1);
    }
}

/// Total coverage swept left to right over the sorted ranges; `None`
/// once the running total leaves `i64` range.
pub open spec fn sweep(rs: Seq<(int, int)>, covered: int, acc: int) -> Option<int>
    decreases rs.len(),
{
    if rs.len() == 0 {
        Some(acc)
    } else {
        let c = rs.first();
        if c.1 <= covered {
            sweep(rs.drop_first(), covered, acc)
        } else {
            let ns = if c.0 > covered + 1 {
                c.0
            } else {
                covered + 1
            };
            let acc2 = acc + (c.1 + 1 - ns);
            if acc2 > i64::MAX || acc2 < i64::MIN {
                None
            } else {
                sweep(rs.drop_first(), c.1, acc2)
            }
        }
    }
}

/// Measures the coverage of the range block: the sweep total over the
/// sorted ranges. `None` exactly when a range line of the first block is
/// malformed or the total leaves `i64` range.
pub fn solve_part2(input: &[u8]) -> (r: Option<i64>)
    ensures
        ({
            let lines = spec_lines(input@);
            let e = first_empty(lines, 0);
            match r {
                Some(v) => (forall|j: int| 0 <= j < e ==> range_line_ok(#[trigger] lines[j]))
                    && Some(v as int) == sweep(sorted_ranges_of(lines.take(e)), -1, 0),
                None => !(forall|j: int| 0 <= j < e ==> range_line_ok(#[trigger] lines[j])) || sweep(
                    sorted_ranges_of(lines.take(e)),
                    -1,
                    0,
                ) is None,
            }
        }),
{
    broadcast use vstd::seq_lib::group_to_multiset_ensures;

    let lines = split_lines(input);
    let ghost lv = spec_lines(input@);
    let ghost e = first_empty(lv, 0);
    let n = lines.len();
    let mut eb: usize = 0;
    while eb < n && lines[eb].len() > 0
        invariant
            eb <= n,
            n == lines@.len(),
            seq_views(lines@) == lv,
            lv == spec_lines(input@),
            first_empty(lv, 0) == first_empty(lv, eb as int),
            forall|j: int| 0 <= j < eb ==> (#[trigger] lv[j]).len() > 0,
        decreases n - eb,
    {
        proof {
            assert(lines@[eb as int]@ == lv[eb as int]);
        }
        eb = eb + 1;
    }
    proof {
        if (eb as int) < lv.len() {
            assert(lines@[eb as int]@ == lv[eb as int]);
        }
        assert(e == eb as int);
    }
    let mut rvec: Vec<(i64, i64)> = Vec::new();
    let mut i: usize = 0;
    proof {
        assert(lv.take(0) =~= Seq::<Seq<u8>>::empty());
        assert(to_pairs(rvec@) =~= Seq::<(int, int)>::empty());
    }
    while i < eb
        invariant
            i <= eb,
            eb <= lines@.len(),
            seq_views(lines@) == lv,
            lv == spec_lines(input@),
            e == eb as int,
            e == first_empty(lv, 0),
            vstd::relations::sorted_by(to_pairs(rvec@), pair_leq()),
            to_pairs(rvec@).to_multiset() == ranges_of(lv.take(i as int)).to_multiset(),
            forall|j: int| 0 <= j < i ==> range_line_ok(#[trigger] lv[j]),
            forall|q: int|
                0 <= q < rvec@.len() ==> 0 <= (#[trigger] rvec@[q]).0 && rvec@[q].1 < i64::MAX,
        decreases eb - i,
    {
        proof {
            assert(lv.take(i as int + 1).drop_last() =~= lv.take(i as int));
            assert(lv.take(i as int + 1).last() == lv[i as int]);
            assert(lines@[i as int]@ == lv[i as int]);
        }
        let line = &lines[i];
        if line.len() == 0 {
            return None;
        }
        let fields = split_bytes(line.as_slice(), 45);
        proof {
            assert(seq_views(fields@) == spec_split(lv[i as int], 45));
        }
        if fields.len() != 2 {
            return None;
        }
        proof {
            assert(fields@[0]@ == spec_split(lv[i as int], 45)[0]);
            assert(fields@[1]@ == spec_split(lv[i as int], 45)[1]);
        }
        let s = match parse_u64(fields[0].as_slice()) {
            Some(m) => {
                if m <= i64::MAX as u64 {
                    m as i64
                } else {
                    return None;
                }
            },
            None => {
                return None;
            },
        };
        let ee = match parse_u64(fields[1].as_slice()) {
            Some(m) => {
                if m < i64::MAX as u64 {
                    m as i64
                } else {
                    return None;
                }
            },
            None => {
                return None;
            },
        };
        let pr = (s, ee);
        let p = pair_insert_pos(&rvec, pr);
        let ghost r0 = rvec@;
        rvec.insert(p, pr);
        proof {
            let m0 = to_pairs(r0);
            let m1 = to_pairs(r0.insert(p as int, pr));
            let ep = (pr.0 as int, pr.1 as int);
            assert(rvec@ == r0.insert(p as int, pr));
            assert(m1 =~= m0.insert(p as int, ep));
            assert(forall|k: int| 0 <= k < p ==> m1[k] == m0[k]);
            assert(m1[p as int] == ep);
            assert(forall|k: int| p < k < m1.len() ==> m1[k] == m0[k - 1]);
            assert forall|u: int, x: int| 0 <= u < x < m1.len() implies pair_leq()(
                m1[u],
                m1[x],
            ) by {
                if x < p as int {
                    assert(pair_leq()(m0[u], m0[x]));
                } else if u < p as int && x == p as int {
                    assert(pair_leq()(m0[u], ep));
                } else if u < p as int && x > p as int {
                    if u < x - 1 {
                        assert(pair_leq()(m0[u], m0[x - 1]));
                    }
                    assert(pair_leq()(m0[u], ep));
                    assert(!pair_leq()(m0[p as int], ep));
                } else if u == p as int {
                    assert(!pair_leq()(m0[p as int], ep));
                    if (p as int) < x - 1 {
                        assert(pair_leq()(m0[p as int], m0[x - 1]));
                    }
                } else {
                    assert(pair_leq()(m0[u - 1], m0[x - 1]));
                }
            }
            assert(line_range(lv[i as int]) == ep);
            assert(ranges_of(lv.take(i as int + 1)) =~= ranges_of(lv.take(i as int)).push(ep));
            vstd::seq_lib::to_multiset_insert(m0, p as int, ep);
            vstd::seq_lib::to_multiset_build(ranges_of(lv.take(i as int)), ep);
            assert(m1.to_multiset() =~= m0.to_multiset().insert(ep));
            assert(forall|q: int|
                0 <= q < rvec@.len() ==> 0 <= (#[trigger] rvec@[q]).0 && rvec@[q].1 < i64::MAX);
        }
        i = i + 1;
    }
    let ghost ss = sorted_ranges_of(lv.take(e));
    proof {
        lemma_pair_le_total();
        ranges_of(lv.take(e)).lemma_sort_by_ensures(pair_leq());
        vstd::seq_lib::lemma_sorted_unique(to_pairs(rvec@), ss, pair_leq());
        assert(to_pairs(rvec@) =~= ss);
        assert(ss.skip(0) =~= ss);
    }
    let mut covered: i64 = -1;
    let mut acc: i64 = 0;
    let mut k: usize = 0;
    while k < rvec.len()
        invariant
            k <= rvec@.len(),
            -1 <= covered < i64::MAX,
            ss == sorted_ranges_of(lv.take(e)),
            to_pairs(rvec@) == ss,
            lv == spec_lines(input@),
            e == first_empty(lv, 0),
            forall|q: int|
                0 <= q < rvec@.len() ==> 0 <= (#[trigger] rvec@[q]).0 && rvec@[q].1 < i64::MAX,
            sweep(ss, -1, 0) == sweep(ss.skip(k as int), covered as int, acc as int),
        decreases rvec@.len() - k,
    {
        let c = rvec[k];
        proof {
            assert(ss.skip(k as int).first() == (c.0 as int, c.1 as int));
            assert(ss.skip(k as int).drop_first() =~= ss.skip(k as int + 1));
        }
        if c.1 > covered {
            let ns: i64 = if c.0 > covered + 1 {
                c.0
            } else {
                covered + 1
            };
            let diff: i64 = c.1 + 1 - ns;
            let acc2 = match acc.checked_add(diff) {
                Some(v) => v,
                None => {
                    return None;
                },
            };
            acc = acc2;
            covered = c.1;
        }
        k = k + 1;
    }
    proof {
        assert(ss.skip(rvec@.len() as int) =~= Seq::<(int, int)>::empty());
    }
    Some(acc)
}

} // verus!
