//! Byte-level parsing of the line-oriented puzzle inputs: decimal integers
//! and splitting on a separator byte, each pinned to a spec-level model.

use vstd::prelude::*;
use vstd::slice::slice_subrange;

verus! {

pub open spec fn is_digit(b: u8) -> bool {
    48 <= b && b <= 57
}

pub open spec fn all_digits(s: Seq<u8>) -> bool {
    forall|i: int| 0 <= i < s.len() ==> is_digit(#[trigger] s[i])
}

/// Value of a string of decimal digits, most significant digit first.
pub open spec fn digits_val(s: Seq<u8>) -> int
    decreases s.len(),
{
    if s.len() == 0 {
        0
    } else {
        digits_val(s.drop_last()) * 10 + (s.last() - 48)
    }
}

/// A non-empty run of decimal digits.
pub open spec fn is_uint_str(s: Seq<u8>) -> bool {
    s.len() > 0 && all_digits(s)
}

/// An integer literal: an optional leading minus sign, then digits.
pub open spec fn is_int_str(s: Seq<u8>) -> bool {
    if s.len() > 0 && s[0] == 45 {
        is_uint_str(s.skip(1))
    } else {
        is_uint_str(s)
    }
}

pub open spec fn int_str_val(s: Seq<u8>) -> int {
    if s.len() > 0 && s[0] == 45 {
        -digits_val(s.skip(1))
    } else {
        digits_val(s)
    }
}

pub proof fn lemma_digits_val_nonneg(s: Seq<u8>)
    requires
        all_digits(s),
    ensures
        digits_val(s) >= 0,
    decreases s.len(),
{
    if s.len() > 0 {
        assert(forall|i: int| 0 <= i < s.drop_last().len() ==> is_digit(#[trigger] s.drop_last()[i]));
        lemma_digits_val_nonneg(s.drop_last());
    }
}

/// Appending digits never shrinks the value: any prefix of a digit string
/// is worth at most the whole string.
pub proof fn lemma_digits_val_prefix(s: Seq<u8>, i: int)
    requires
        all_digits(s),
        0 <= i <= s.len(),
    ensures
        digits_val(s.take(i)) <= digits_val(s),
    decreases s.len() - i,
{
    if i < s.len() {
        assert(s.take(i + 1).drop_last() =~= s.take(i));
        assert(s.take(i + 1).last() == s[i]);
        assert(forall|j: int| 0 <= j < s.take(i).len() ==> is_digit(#[trigger] s.take(i)[j]));
        lemma_digits_val_nonneg(s.take(i));
        assert(digits_val(s.take(i + 1)) >= digits_val(s.take(i)));
        lemma_digits_val_prefix(s, i + 1);
    } else {
        assert(s.take(i) =~= s);
    }
}

pub open spec fn pow10(n: nat) -> int
    decreases n,
{
    if n == 0 {
        1
    } else {
        10 * pow10((n - 1) as nat)
    }
}

pub proof fn lemma_pow10_pos(n: nat)
    ensures
        pow10(n) >= 1,
    decreases n,
{
    if n > 0 {
        lemma_pow10_pos((n - 1) as nat);
    }
}

pub proof fn lemma_pow10_mono(a: nat, b: nat)
    requires
        a <= b,
    ensures
        pow10(a) <= pow10(b),
    decreases b,
{
    if a < b {
        lemma_pow10_mono(a, (b - 1) as nat);
        lemma_pow10_pos((b - 1) as nat);
    }
}

pub proof fn lemma_pow10_18()
    ensures
        pow10(18) == 1_000_000_000_000_000_000,
{
    assert(pow10(0) == 1);
    assert(pow10(1) == 10);
    assert(pow10(2) == 100);
    assert(pow10(3) == 1000);
    assert(pow10(4) == 10000);
    assert(pow10(5) == 100000);
    assert(pow10(6) == 1000000);
    assert(pow10(7) == 10000000);
    assert(pow10(8) == 100000000);
    assert(pow10(9) == 1000000000);
    assert(pow10(10) == 10000000000);
    assert(pow10(11) == 100000000000);
    assert(pow10(12) == 1000000000000);
    assert(pow10(13) == 10000000000000);
    assert(pow10(14) == 100000000000000);
    assert(pow10(15) == 1000000000000000);
    assert(pow10(16) == 10000000000000000);
    assert(pow10(17) == 100000000000000000);
    assert(pow10(18) == 1000000000000000000);
}

/// A digit string of length `n` is worth less than ten to the `n`.
pub proof fn lemma_digits_val_lt_pow10(s: Seq<u8>)
    requires
        all_digits(s),
    ensures
        0 <= digits_val(s) < pow10(s.len()),
    decreases s.len(),
{
    if s.len() > 0 {
        assert(forall|i: int|
            0 <= i < s.drop_last().len() ==> is_digit(#[trigger] s.drop_last()[i]));
        lemma_digits_val_lt_pow10(s.drop_last());
    }
}

/// Whether every byte of `s` is a decimal digit.
pub fn is_digits_exec(s: &[u8]) -> (r: bool)
    ensures
        r == all_digits(s@),
{
    let n: usize = s.len();
    let mut i: usize = 0;
    while i < n
        invariant
            i <= n,
            n == s@.len(),
            forall|j: int| 0 <= j < i ==> is_digit(#[trigger] s@[j]),
        decreases n - i,
    {
        let b = s[i];
        if b < 48 || b > 57 {
            return false;
        }
        i = i + 1;
    }
    true
}

/// Parses a non-empty run of decimal digits as a `u64`.
pub fn parse_u64(s: &[u8]) -> (r: Option<u64>)
    ensures
        match r {
            Some(v) => is_uint_str(s@) && v as int == digits_val(s@),
            None => !is_uint_str(s@) || digits_val(s@) > u64::MAX,
        },
{
    let n: usize = s.len();
    if n == 0 {
        return None;
    }
    let mut val: u64 = 0;
    let mut i: usize = 0;
    proof {
        assert(s@.take(0) =~= Seq::<u8>::empty());
    }
    while i < n
        invariant
            i <= n,
            n == s@.len(),
            all_digits(s@.take(i as int)),
            val as int == digits_val(s@.take(i as int)),
        decreases n - i,
    {
        let b = s[i];
        if b < 48 || b > 57 {
            assert(!is_digit(s@[i as int]));
            return None;
        }
        let d: u64 = (b - 48) as u64;
        proof {
            assert(s@.take(i as int + 1).drop_last() =~= s@.take(i as int));
            assert(s@.take(i as int + 1).last() == s@[i as int]);
            assert(forall|j: int| 0 <= j < i as int + 1 ==> is_digit(#[trigger] s@.take(
                i as int + 1)[j]));
        }
        let v10 = match val.checked_mul(10) {
            Some(x) => x,
            None => {
                proof {
                    if all_digits(s@) {
                        lemma_digits_val_nonneg(s@.take(i as int));
                        assert(digits_val(s@.take(i as int + 1)) > u64::MAX);
                        lemma_digits_val_prefix(s@, i as int + 1);
                    }
                }
                return None;
            },
        };
        let v = match v10.checked_add(d) {
            Some(x) => x,
            None => {
                proof {
                    if all_digits(s@) {
                        assert(digits_val(s@.take(i as int + 1)) > u64::MAX);
                        lemma_digits_val_prefix(s@, i as int + 1);
                    }
                }
                return None;
            },
        };
        val = v;
        i = i + 1;
    }
    proof {
        assert(s@.take(n as int) =~= s@);
    }
    Some(val)
}

/// Parses an optionally signed decimal integer as an `i64`.
pub fn parse_i64(s: &[u8]) -> (r: Option<i64>)
    ensures
        match r {
            Some(v) => is_int_str(s@) && v as int == int_str_val(s@),
            None => !is_int_str(s@) || int_str_val(s@) < i64::MIN || i64::MAX < int_str_val(s@),
        },
{
    let n: usize = s.len();
    if n > 0 && s[0] == 45 {
        let rest = slice_subrange(s, 1, n);
        proof {
            assert(rest@ =~= s@.skip(1));
        }
        match parse_u64(rest) {
            Some(m) => {
                if m <= i64::MAX as u64 {
                    Some(0i64 - (m as i64))
                } else if m == (i64::MAX as u64) + 1 {
                    Some(i64::MIN)
                } else {
                    None
                }
            },
            None => {
                proof {
                    if is_uint_str(s@.skip(1)) {
                        assert(digits_val(s@.skip(1)) > u64::MAX);
                    }
                }
                None
            },
        }
    } else {
        match parse_u64(s) {
            Some(m) => {
                if m <= i64::MAX as u64 {
                    Some(m as i64)
                } else {
                    None
                }
            },
            None => None,
        }
    }
}

pub open spec fn seq_views(vs: Seq<Vec<u8>>) -> Seq<Seq<u8>> {
    vs.map_values(|v: Vec<u8>| v@)
}

/// The pieces of `s` between occurrences of `sep`, in order; always at least
/// one piece, and empty pieces are kept (two adjacent separators yield one).
pub open spec fn spec_split(s: Seq<u8>, sep: u8) -> Seq<Seq<u8>>
    decreases s.len(),
{
    if s.len() == 0 {
        seq![Seq::<u8>::empty()]
    } else if s[0] == sep {
        seq![Seq::<u8>::empty()] + spec_split(s.drop_first(), sep)
    } else {
        let rest = spec_split(s.drop_first(), sep);
        seq![seq![s[0]] + rest[0]] + rest.drop_first()
    }
}

pub proof fn lemma_spec_split_nonempty(s: Seq<u8>, sep: u8)
    ensures
        spec_split(s, sep).len() >= 1,
    decreases s.len(),
{
    if s.len() > 0 {
        lemma_spec_split_nonempty(s.drop_first(), sep);
    }
}

/// Splits a byte string on a separator byte.
pub fn split_bytes(s: &[u8], sep: u8) -> (r: Vec<Vec<u8>>)
    ensures
        seq_views(r@) == spec_split(s@, sep),
{
    let n: usize = s.len();
    let mut acc: Vec<Vec<u8>> = Vec::new();
    let mut cur: Vec<u8> = Vec::new();
    let mut i: usize = 0;
    proof {
        assert(s@.skip(0) =~= s@);
        lemma_spec_split_nonempty(s@, sep);
        assert(seq_views(acc@) =~= Seq::<Seq<u8>>::empty());
        assert(cur@ =~= Seq::<u8>::empty());
        assert(seq_views(acc@) + seq![cur@ + spec_split(s@.skip(0), sep)[0]] + spec_split(
            s@.skip(0),
            sep,
        ).drop_first() =~~= spec_split(s@, sep));
    }
    while i < n
        invariant
            i <= n,
            n == s@.len(),
            spec_split(s@.skip(i as int), sep).len() >= 1,
            seq_views(acc@) + seq![cur@ + spec_split(s@.skip(i as int), sep)[0]] + spec_split(
                s@.skip(i as int),
                sep,
            ).drop_first() == spec_split(s@, sep),
        decreases n - i,
    {
        let ghost rem = s@.skip(i as int);
        let ghost rem2 = s@.skip(i as int + 1);
        proof {
            lemma_spec_split_nonempty(rem2, sep);
            assert(rem.len() > 0);
            assert(rem.drop_first() =~= rem2);
            assert(rem[0] == s@[i as int]);
        }
        let b = s[i];
        if b == sep {
            let ghost old_acc = acc@;
            let ghost old_cur = cur@;
            let prev = cur;
            cur = Vec::new();
            acc.push(prev);
            proof {
                assert(spec_split(rem, sep) =~= seq![Seq::<u8>::empty()] + spec_split(rem2, sep));
                assert(seq_views(acc@) =~~= seq_views(old_acc).push(old_cur));
                assert(old_cur + spec_split(rem, sep)[0] =~= old_cur);
                assert(spec_split(rem2, sep) =~= seq![spec_split(rem2, sep)[0]] + spec_split(
                    rem2,
                    sep,
                ).drop_first());
                assert(cur@ =~= Seq::<u8>::empty());
                assert(cur@ + spec_split(rem2, sep)[0] =~= spec_split(rem2, sep)[0]);
                assert(seq_views(acc@) + seq![cur@ + spec_split(rem2, sep)[0]] + spec_split(
                    rem2,
                    sep,
                ).drop_first() =~~= spec_split(s@, sep));
            }
        } else {
            let ghost old_cur = cur@;
            cur.push(b);
            proof {
                assert(spec_split(rem, sep) =~= seq![seq![rem[0]] + spec_split(rem2, sep)[0]]
                    + spec_split(rem2, sep).drop_first());
                assert(cur@ =~= old_cur + seq![rem[0]]);
                assert(cur@ + spec_split(rem2, sep)[0] =~= old_cur + (seq![rem[0]] + spec_split(
                    rem2,
                    sep,
                )[0]));
                assert(seq_views(acc@) + seq![cur@ + spec_split(rem2, sep)[0]] + spec_split(
                    rem2,
                    sep,
                ).drop_first() =~~= spec_split(s@, sep));
            }
        }
        i = i + 1;
    }
    let ghost old_acc = acc@;
    let ghost old_cur = cur@;
    acc.push(cur);
    proof {
        assert(s@.skip(n as int) =~= Seq::<u8>::empty());
        assert(spec_split(s@.skip(n as int), sep) =~= seq![Seq::<u8>::empty()]);
        assert(old_cur + spec_split(s@.skip(n as int), sep)[0] =~= old_cur);
        assert(seq_views(acc@) =~~= seq_views(old_acc).push(old_cur));
        assert(seq_views(acc@) =~~= spec_split(s@, sep));
    }
    acc
}

pub open spec fn is_space(b: u8) -> bool {
    b == 32 || b == 9 || b == 10 || b == 13
}

pub open spec fn trim_front(s: Seq<u8>) -> Seq<u8>
    decreases s.len(),
{
    if s.len() > 0 && is_space(s[0]) {
        trim_front(s.drop_first())
    } else {
        s
    }
}

pub open spec fn trim_back(s: Seq<u8>) -> Seq<u8>
    decreases s.len(),
{
    if s.len() > 0 && is_space(s.last()) {
        trim_back(s.drop_last())
    } else {
        s
    }
}

/// ASCII whitespace stripped from both ends.
pub open spec fn spec_trim(s: Seq<u8>) -> Seq<u8> {
    trim_back(trim_front(s))
}

/// Strips ASCII whitespace from both ends of a byte string.
pub fn trim_bytes<'a>(s: &'a [u8]) -> (r: &'a [u8])
    ensures
        r@ == spec_trim(s@),
{
    let n: usize = s.len();
    let mut i: usize = 0;
    proof {
        assert(s@.skip(0) =~= s@);
    }
    while i < n && (s[i] == 32 || s[i] == 9 || s[i] == 10 || s[i] == 13)
        invariant
            i <= n,
            n == s@.len(),
            trim_front(s@) == trim_front(s@.skip(i as int)),
        decreases n - i,
    {
        proof {
            assert(s@.skip(i as int).drop_first() =~= s@.skip(i as int + 1));
            assert(s@.skip(i as int)[0] == s@[i as int]);
        }
        i = i + 1;
    }
    proof {
        if i < n {
            assert(s@.skip(i as int)[0] == s@[i as int]);
        }
        assert(trim_front(s@) == s@.skip(i as int));
    }
    let mut j: usize = n;
    while j > i && (s[j - 1] == 32 || s[j - 1] == 9 || s[j - 1] == 10 || s[j - 1] == 13)
        invariant
            i <= j <= n,
            n == s@.len(),
            trim_front(s@) == s@.skip(i as int),
            trim_back(s@.skip(i as int)) == trim_back(s@.subrange(i as int, j as int)),
        decreases j,
    {
        proof {
            assert(s@.subrange(i as int, j as int).drop_last() =~= s@.subrange(
                i as int,
                j as int - 1,
            ));
            assert(s@.subrange(i as int, j as int).last() == s@[j as int - 1]);
        }
        j = j - 1;
    }
    proof {
        if j > i {
            assert(s@.subrange(i as int, j as int).last() == s@[j as int - 1]);
        }
        assert(trim_back(s@.subrange(i as int, j as int)) == s@.subrange(i as int, j as int));
    }
    slice_subrange(s, i, j)
}

/// The lines of an input document: pieces between newline bytes.
pub open spec fn spec_lines(s: Seq<u8>) -> Seq<Seq<u8>> {
    spec_split(s, 10)
}

pub fn split_lines(s: &[u8]) -> (r: Vec<Vec<u8>>)
    ensures
        seq_views(r@) == spec_lines(s@),
{
    split_bytes(s, 10)
}

} // verus!
