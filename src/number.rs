//! Decimal text of integers, both ways.
use vstd::prelude::*;

verus! {

/// The digit character of `d`, for `d` below ten.
pub open spec fn digit_char(d: int) -> char {
    if d == 0 { '0' } else if d == 1 { '1' } else if d == 2 { '2' } else if d == 3 { '3' }
    else if d == 4 { '4' } else if d == 5 { '5' } else if d == 6 { '6' } else if d == 7 { '7' }
    else if d == 8 { '8' } else { '9' }
}

/// The decimal digits of `n`, without leading zeros.
pub open spec fn nat_text(n: nat) -> Seq<char>
    decreases n,
{
    if n < 10 {
        seq![digit_char(n as int)]
    } else {
        nat_text(n / 10) + seq![digit_char((n % 10) as int)]
    }
}

/// The decimal text of `n`, with a leading `-` when it is negative.
pub open spec fn int_text(n: int) -> Seq<char> {
    if n < 0 { seq!['-'] + nat_text((-n) as nat) } else { nat_text(n as nat) }
}

pub open spec fn is_digit(c: char) -> bool {
    '0' <= c <= '9'
}

pub open spec fn digit_value(c: char) -> int {
    c as int - '0' as int
}

pub open spec fn all_digits(s: Seq<char>) -> bool {
    forall|i: int| 0 <= i < s.len() ==> is_digit(#[trigger] s[i])
}

/// The number that a run of decimal digits denotes.
pub open spec fn digits_value(s: Seq<char>) -> int
    decreases s.len(),
{
    if s.len() == 0 {
        0
    } else {
        digits_value(s.drop_last()) * 10 + digit_value(s.last())
    }
}

/// The integer that `s` writes: an optional sign and at least one decimal digit.
pub open spec fn signed_value(s: Seq<char>) -> Option<int> {
    if s.len() > 1 && s[0] == '-' && all_digits(s.drop_first()) {
        Some(-digits_value(s.drop_first()))
    } else if s.len() > 1 && s[0] == '+' && all_digits(s.drop_first()) {
        Some(digits_value(s.drop_first()))
    } else if s.len() > 0 && all_digits(s) {
        Some(digits_value(s))
    } else {
        None
    }
}

pub open spec fn fits_i128(n: int) -> bool {
    i128::MIN <= n <= i128::MAX
}

/// What `s` reads as a 128-bit signed integer: its value where it writes one
/// that fits, else zero.
pub open spec fn int_of(s: Seq<char>) -> int {
    match signed_value(s) {
        Some(n) => if fits_i128(n) { n } else { 0 },
        None => 0,
    }
}

fn digit_of(d: u128) -> (c: char)
    requires
        d < 10,
    ensures
        c == digit_char(d as int),
{
    if d == 0 { '0' } else if d == 1 { '1' } else if d == 2 { '2' } else if d == 3 { '3' }
    else if d == 4 { '4' } else if d == 5 { '5' } else if d == 6 { '6' } else if d == 7 { '7' }
    else if d == 8 { '8' } else { '9' }
}

fn push_nat(out: &mut Vec<char>, m: u128)
    ensures
        final(out)@ == old(out)@ + nat_text(m as nat),
    decreases m,
{
    if m >= 10 {
        push_nat(out, m / 10);
    }
    out.push(digit_of(m % 10));
    assert(final(out)@ =~= old(out)@ + nat_text(m as nat));
}

/// Appends the decimal text of `n` to `out`.
pub fn push_int_text(out: &mut Vec<char>, n: i128)
    ensures
        final(out)@ == old(out)@ + int_text(n as int),
{
    if n < 0 {
        out.push('-');
        let m: u128 = ((-(n + 1)) as u128) + 1;
        push_nat(out, m);
        assert(final(out)@ =~= old(out)@ + int_text(n as int));
    } else {
        push_nat(out, n as u128);
    }
}

proof fn lemma_digits_monotone(s: Seq<char>, i: int, j: int)
    requires
        0 <= i <= j <= s.len(),
        all_digits(s),
    ensures
        digits_value(s.take(i)) <= digits_value(s.take(j)),
        0 <= digits_value(s.take(i)),
    decreases j - i + j,
{
    if i < j {
        lemma_digits_monotone(s, i, j - 1);
        assert(s.take(j).drop_last() =~= s.take(j - 1));
        assert(is_digit(s[j - 1]));
    } else if i > 0 {
        lemma_digits_monotone(s, i - 1, i - 1);
        assert(s.take(i).drop_last() =~= s.take(i - 1));
        assert(is_digit(s[i - 1]));
    } else {
        assert(s.take(0).len() == 0);
    }
}

proof fn lemma_prefix_too_large(d: Seq<char>, k: int)
    requires
        0 <= k <= d.len(),
        digits_value(d.take(k)) > 0x8000_0000_0000_0000_0000_0000_0000_0000,
    ensures
        all_digits(d) ==> digits_value(d) > 0x8000_0000_0000_0000_0000_0000_0000_0000,
{
    if all_digits(d) {
        lemma_digits_monotone(d, k, d.len() as int);
        assert(d.take(d.len() as int) =~= d);
    }
}

/// The magnitude written by the digits `s[start..]`, where it is at most 2^127.
fn magnitude(s: &Vec<char>, start: usize) -> (r: Option<u128>)
    requires
        start <= s@.len(),
    ensures
        ({
            let d = s@.subrange(start as int, s@.len() as int);
            match r {
                Some(m) => all_digits(d) && d.len() > 0 && m == digits_value(d)
                    && m <= 0x8000_0000_0000_0000_0000_0000_0000_0000,
                None => !(all_digits(d) && d.len() > 0)
                    || digits_value(d) > 0x8000_0000_0000_0000_0000_0000_0000_0000,
            }
        }),
{
    let ghost d = s@.subrange(start as int, s@.len() as int);
    if start == s.len() {
        return None;
    }
    let mut m: u128 = 0;
    let mut i: usize = start;
    while i < s.len()
        invariant
            start <= i <= s@.len(),
            d == s@.subrange(start as int, s@.len() as int),
            all_digits(d.take(i - start)),
            m == digits_value(d.take(i - start)),
            m <= 0x8000_0000_0000_0000_0000_0000_0000_0000,
        decreases s@.len() - i,
    {
        let c = s[i];
        if !('0' <= c && c <= '9') {
            assert(d[i - start] == c);
            return None;
        }
        let dv: u128 = (c as u32 - '0' as u32) as u128;
        assert(d.take(i + 1 - start).drop_last() =~= d.take(i - start));
        assert(all_digits(d.take(i + 1 - start)));
        if m > 17014118346046923173168730371588410572 {
            assert(m * 10 + dv > 0x8000_0000_0000_0000_0000_0000_0000_0000) by (nonlinear_arith)
                requires
                    m > 17014118346046923173168730371588410572,
                    dv >= 0,
            ;
            proof {
                lemma_prefix_too_large(d, i + 1 - start);
            }
            return None;
        }
        m = m * 10 + dv;
        if m > 0x8000_0000_0000_0000_0000_0000_0000_0000 {
            proof {
                lemma_prefix_too_large(d, i + 1 - start);
            }
            return None;
        }
        i = i + 1;
    }
    assert(d.take(i - start) =~= d);
    Some(m)
}

/// Reads `s` as a 128-bit signed integer; zero where it writes none that fits.
pub fn parse_int(s: &Vec<char>) -> (r: i128)
    ensures
        r as int == int_of(s@),
{
    if s.len() == 0 {
        return 0;
    }
    let neg = s[0] == '-';
    let start: usize = if s[0] == '-' || s[0] == '+' { 1 } else { 0 };
    if start == 1 && s.len() == 1 {
        return 0;
    }
    assert(start == 1 ==> s@.drop_first() =~= s@.subrange(1, s@.len() as int));
    assert(start == 0 ==> s@ =~= s@.subrange(0, s@.len() as int));
    match magnitude(s, start) {
        Some(m) => {
            if neg {
                if m == 0x8000_0000_0000_0000_0000_0000_0000_0000 {
                    i128::MIN
                } else {
                    -(m as i128)
                }
            } else if m > 0x7fff_ffff_ffff_ffff_ffff_ffff_ffff_ffff {
                0
            } else {
                m as i128
            }
        },
        None => {
            0
        },
    }
}

} // verus!
