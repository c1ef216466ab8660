//! Repeated-pattern puzzle: sum the numbers in comma-separated ranges
//! whose decimal representation is two identical halves, or — in the
//! second part — any whole number of identical chunks.

use vstd::prelude::*;
use crate::parsing::{
    digits_val, is_uint_str, parse_u64, seq_views, spec_split, spec_trim, split_bytes, trim_bytes,
};

verus! {

/// Two identical halves, neither starting with a zero digit.
pub open spec fn rep_halves(s: Seq<u8>) -> bool {
    let n = s.len() as int;
    let mid = n / 2;
    &&& n % 2 == 0
    &&& (n == 0 || (s[0] != 48 && s[mid] != 48))
    &&& s.take(mid) == s.skip(mid)
}

/// Whether every byte is a repeat of the one `p` places earlier.
pub open spec fn periodic(s: Seq<u8>, p: int) -> bool {
    forall|i: int| p <= i < s.len() ==> s[i] == #[trigger] s[i - p]
}

/// Some chunk size `p` dividing the length tiles the string.
pub open spec fn rep_chunks(s: Seq<u8>) -> bool {
    exists|p: int|
        1 <= p <= s.len() as int / 2 && s.len() as int % p == 0 && #[trigger] periodic(s, p)
}

/// Whether the string is two identical halves with no leading zeros.
pub fn has_repeated_halves(s: &[u8]) -> (r: bool)
    ensures
        r == rep_halves(s@),
{
    let n: usize = s.len();
    if n % 2 != 0 {
        return false;
    }
    let mid: usize = n / 2;
    if mid > 0 && (s[0] == 48 || s[mid] == 48) {
        return false;
    }
    let mut i: usize = 0;
    while i < mid
        invariant
            i <= mid,
            mid == s@.len() as int / 2,
            n == s@.len(),
            n % 2 == 0,
            forall|j: int| 0 <= j < i ==> s@[j] == #[trigger] s@[mid as int + j],
        decreases mid - i,
    {
        if s[i] != s[mid + i] {
            proof {
                assert(s@.take(mid as int)[i as int] != s@.skip(mid as int)[i as int]);
            }
            return false;
        }
        i = i + 1;
    }
    proof {
        assert forall|j: int| 0 <= j < mid as int implies s@.take(mid as int)[j] == s@.skip(
            mid as int,
        )[j] by {
            assert(s@[mid as int + j] == s@[j]);
        }
        assert(s@.take(mid as int) =~= s@.skip(mid as int));
    }
    true
}

/// Whether the string tiles by some chunk of at most half its length.
pub fn has_repeated_chunks(s: &[u8]) -> (r: bool)
    ensures
        r == rep_chunks(s@),
{
    let n: usize = s.len();
    let mut p: usize = 1;
    while p <= n / 2
        invariant
            1 <= p,
            n == s@.len(),
            forall|q: int|
                1 <= q < p ==> !(n as int % q == 0 && #[trigger] periodic(s@, q)),
        decreases n / 2 + 1 - p,
    {
        if n % p == 0 {
            let mut i: usize = p;
            let mut good: bool = true;
            while i < n
                invariant
                    p <= i <= n,
                    1 <= p,
                    n == s@.len(),
                    good == (forall|j: int| p <= j < i ==> s@[j] == #[trigger] s@[j - p]),
                decreases n - i,
            {
                if s[i] != s[i - p] {
                    good = false;
                    proof {
                        assert(!(forall|j: int|
                            p <= j < i as int + 1 ==> s@[j] == #[trigger] s@[j - p]));
                    }
                }
                i = i + 1;
            }
            if good {
                proof {
                    assert(periodic(s@, p as int));
                }
                return true;
            }
        }
        p = p + 1;
    }
    false
}

/// The decimal digits of a number, most significant first.
pub open spec fn digits_of(x: nat) -> Seq<u8>
    decreases x,
{
    if x < 10 {
        seq![(48 + x) as u8]
    } else {
        digits_of(x / 10).push((48 + x % 10) as u8)
    }
}

fn int_to_digits(x: i64) -> (r: Vec<u8>)
    requires
        0 <= x,
    ensures
        r@ == digits_of(x as nat),
    decreases x,
{
    if x < 10 {
        let mut v: Vec<u8> = Vec::new();
        v.push(48 + (x as u8));
        proof {
            assert(v@ =~= digits_of(x as nat));
        }
        v
    } else {
        let mut v = int_to_digits(x / 10);
        v.push(48 + ((x % 10) as u8));
        proof {
            assert(v@ =~= digits_of(x as nat));
        }
        v
    }
}

/// Whether a number's decimal form qualifies for the sum.
pub open spec fn qualifies(x: int, part2: bool) -> bool {
    let d = digits_of(
        if x >= 0 {
            x as nat
        } else {
            0nat
        },
    );
    rep_halves(d) || (part2 && rep_chunks(d))
}

/// Sum of the qualifying numbers in `[x, b]`; `None` once the running
/// sum leaves `i64` range.
pub open spec fn span_sum(x: int, b: int, part2: bool, acc: int) -> Option<int>
    decreases b - x + 1,
{
    if x > b {
        Some(acc)
    } else {
        let acc2 = acc + if qualifies(x, part2) {
            x
        } else {
            0int
        };
        if acc2 > i64::MAX || acc2 < i64::MIN {
            None
        } else {
            span_sum(x + 1, b, part2, acc2)
        }
    }
}

/// A range piece: after trimming, two dash-separated runs of digits,
/// the second strictly below the extreme of `i64`.
pub open spec fn piece_ok(piece: Seq<u8>) -> bool {
    let p = spec_trim(piece);
    let fs = spec_split(p, 45);
    &&& fs.len() == 2
    &&& is_uint_str(fs[0])
    &&& is_uint_str(fs[1])
    &&& digits_val(fs[0]) <= i64::MAX
    &&& digits_val(fs[1]) < i64::MAX
}

pub open spec fn pieces_all_ok(pieces: Seq<Seq<u8>>) -> bool {
    forall|i: int| 0 <= i < pieces.len() ==> piece_ok(#[trigger] pieces[i])
}

/// Sum of the qualifying numbers over all the ranges, in order.
pub open spec fn range_sum(pieces: Seq<Seq<u8>>, part2: bool, acc: int) -> Option<int>
    decreases pieces.len(),
{
    if pieces.len() == 0 {
        Some(acc)
    } else {
        let fs = spec_split(spec_trim(pieces.first()), 45);
        match span_sum(digits_val(fs[0]), digits_val(fs[1]), part2, acc) {
            Some(acc2) => range_sum(pieces.drop_first(), part2, acc2),
            None => None,
        }
    }
}

/// Sums the qualifying numbers of every comma-separated range. `None`
/// exactly when some piece is not a well-formed range or the sum leaves
/// `i64` range.
pub fn solve(input: &[u8], part2: bool) -> (r: Option<i64>)
    ensures
        ({
            let pieces = spec_split(input@, 44);
            match r {
                Some(v) => pieces_all_ok(pieces) && Some(v as int) == range_sum(
                    pieces,
                    part2,
                    0,
                ),
                None => !pieces_all_ok(pieces) || range_sum(pieces, part2, 0) is None,
            }
        }),
{
    let pieces = split_bytes(input, 44);
    let ghost pv = spec_split(input@, 44);
    let mut acc: i64 = 0;
    let mut i: usize = 0;
    proof {
        assert(pv.skip(0) =~= pv);
    }
    while i < pieces.len()
        invariant
            i <= pieces@.len(),
            seq_views(pieces@) == pv,
            pv == spec_split(input@, 44),
            range_sum(pv, part2, 0) == range_sum(pv.skip(i as int), part2, acc as int),
            forall|j: int| 0 <= j < i ==> piece_ok(#[trigger] pv[j]),
        decreases pieces@.len() - i,
    {
        proof {
            assert(pv.skip(i as int).drop_first() =~= pv.skip(i as int + 1));
            assert(pv.skip(i as int).first() == pv[i as int]);
            assert(pieces@[i as int]@ == pv[i as int]);
        }
        let piece = &pieces[i];
        let t = trim_bytes(piece.as_slice());
        let fields = split_bytes(t, 45);
        proof {
            assert(seq_views(fields@) == spec_split(spec_trim(pv[i as int]), 45));
        }
        if fields.len() != 2 {
            return None;
        }
        proof {
            assert(fields@[0]@ == spec_split(spec_trim(pv[i as int]), 45)[0]);
            assert(fields@[1]@ == spec_split(spec_trim(pv[i as int]), 45)[1]);
        }
        let a = match parse_u64(fields[0].as_slice()) {
            Some(m) => {
                if m <= i64::MAX as u64 {
                    m as i64
                } else {
                    return None;
                }
            },
            None => {
                return None;
            },
        };
        let b = match parse_u64(fields[1].as_slice()) {
            Some(m) => {
                if m < i64::MAX as u64 {
                    m as i64
                } else {
                    return None;
                }
            },
            None => {
                return None;
            },
        };
        let mut x: i64 = a;
        while x <= b
            invariant
                0 <= a <= x,
                x <= b + 1 || x == a,
                0 <= b < i64::MAX,
                pv == spec_split(input@, 44),
                range_sum(pv, part2, 0) == (match span_sum(x as int, b as int, part2, acc as int) {
                    Some(acc2) => range_sum(pv.skip(i as int + 1), part2, acc2),
                    None => None,
                }),
            decreases b + 1 - x,
        {
            let digits = int_to_digits(x);
            let q1 = has_repeated_halves(digits.as_slice());
            let q = if q1 {
                true
            } else if part2 {
                has_repeated_chunks(digits.as_slice())
            } else {
                false
            };
            proof {
                assert(q == qualifies(x as int, part2));
            }
            let add: i64 = if q {
                x
            } else {
                0
            };
            let acc2 = match acc.checked_add(add) {
                Some(v) => v,
                None => {
                    return None;
                },
            };
            acc = acc2;
            x = x + 1;
        }
        i = i + 1;
    }
    proof {
        assert(pv.skip(pieces@.len() as int) =~= Seq::<Seq<u8>>::empty());
    }
    Some(acc)
}

/// Sum counting only the two-identical-halves pattern.
pub fn solve_part1(input: &[u8]) -> (r: Option<i64>)
    ensures
        ({
            let pieces = spec_split(input@, 44);
            match r {
                Some(v) => pieces_all_ok(pieces) && Some(v as int) == range_sum(pieces, false, 0),
                None => !pieces_all_ok(pieces) || range_sum(pieces, false, 0) is None,
            }
        }),
{
    solve(input, false)
}

/// Sum counting repeated halves or any repeated chunk.
pub fn solve_part2(input: &[u8]) -> (r: Option<i64>)
    ensures
        ({
            let pieces = spec_split(input@, 44);
            match r {
                Some(v) => pieces_all_ok(pieces) && Some(v as int) == range_sum(pieces, true, 0),
                None => !pieces_all_ok(pieces) || range_sum(pieces, true, 0) is None,
            }
        }),
{
    solve(input, true)
}

} // verus!
