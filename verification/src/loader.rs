use vstd::prelude::*;
use vstd::arithmetic::div_mod::{
    lemma_basic_div,
    lemma_div_decreases,
    lemma_div_denominator,
    lemma_div_multiples_vanish,
    lemma_fundamental_div_mod,
    lemma_multiply_divide_lt,
    lemma_small_mod,
};
use crate::errors::AnalysisError;
use crate::interval::SCALE;

verus! {

/// An ASCII decimal digit.
pub open spec fn is_ascii_digit(b: u8) -> bool {
    48 <= b && b <= 57
}

/// Every byte of the sequence is an ASCII decimal digit.
pub open spec fn all_digits(s: Seq<u8>) -> bool {
    forall|i: int| 0 <= i < s.len() ==> is_ascii_digit(#[trigger] s[i])
}

/// The number a digit string denotes, most significant digit first.
pub open spec fn digits_value(s: Seq<u8>) -> int
    decreases s.len(),
{
    if s.len() == 0 {
        0
    } else {
        digits_value(s.drop_last()) * 10 + (s.last() - 48)
    }
}

/// Ten to the power e.
pub open spec fn pow10(e: nat) -> int
    decreases e,
{
    if e == 0 {
        1
    } else {
        10 * pow10((e - 1) as nat)
    }
}

pub proof fn lemma_pow10_pos(e: nat)
    ensures
        pow10(e) >= 1,
    decreases e,
{
    if e > 0 {
        lemma_pow10_pos((e - 1) as nat);
    }
}

pub proof fn lemma_pow10_mono(a: nat, b: nat)
    requires
        a <= b,
    ensures
        pow10(a) <= pow10(b),
    decreases b,
{
    if a < b {
        lemma_pow10_mono(a, (b - 1) as nat);
        lemma_pow10_pos((b - 1) as nat);
    }
}

pub proof fn lemma_pow10_add(a: nat, b: nat)
    ensures
        pow10(a) * pow10(b) == pow10(a + b),
    decreases a,
{
    if a == 0 {
        assert(pow10(0) * pow10(b) == pow10(b)) by (nonlinear_arith)
            requires
                pow10(0) == 1,
        ;
    } else {
        lemma_pow10_add((a - 1) as nat, b);
        assert((10 * pow10((a - 1) as nat)) * pow10(b) == 10 * (pow10((a - 1) as nat) * pow10(
            b,
        ))) by (nonlinear_arith);
    }
}

/// A digit string of length l denotes a value below ten to the power l.
pub proof fn lemma_digits_value_bound(s: Seq<u8>)
    requires
        all_digits(s),
    ensures
        0 <= digits_value(s) < pow10(s.len()),
    decreases s.len(),
{
    if s.len() > 0 {
        assert(all_digits(s.drop_last()));
        lemma_digits_value_bound(s.drop_last());
    }
}

/// Position k splits the byte string into a well-formed integer part, a
/// decimal point, and a well-formed fraction part: one to nine digits on
/// each side.
pub open spec fn split_at_dot_ok(s: Seq<u8>, k: int) -> bool {
    &&& 0 <= k < s.len()
    &&& s[k] == 46
    &&& 1 <= k <= 9
    &&& 1 <= s.len() - 1 - k <= 9
    &&& all_digits(s.subrange(0, k))
    &&& all_digits(s.subrange(k + 1, s.len() as int))
}

/// The fixed-point value of a byte string split at the decimal point k: the
/// integer part in whole units plus the fraction digits padded out to the
/// nine carried decimal places.
pub open spec fn fractional_value(s: Seq<u8>, k: int) -> int {
    digits_value(s.subrange(0, k)) * SCALE + digits_value(
        s.subrange(k + 1, s.len() as int),
    ) * pow10((9 - (s.len() - 1 - k)) as nat)
}

/// The fixed-point value an unsigned decimal byte string denotes: either one
/// to nine digits, or such a digit string on each side of one decimal point.
/// Anything else denotes nothing.
pub open spec fn spec_unsigned_price(s: Seq<u8>) -> Option<int> {
    if 1 <= s.len() <= 9 && all_digits(s) {
        Some(digits_value(s) * SCALE)
    } else if exists|k: int| split_at_dot_ok(s, k) {
        Some(fractional_value(s, choose|k: int| split_at_dot_ok(s, k)))
    } else {
        None
    }
}

/// The fixed-point value a decimal byte string denotes, with an optional
/// leading minus sign.
pub open spec fn spec_price(s: Seq<u8>) -> Option<int> {
    if s.len() > 0 && s[0] == 45 {
        match spec_unsigned_price(s.skip(1)) {
            Some(v) => Some(-v),
            None => None,
        }
    } else {
        spec_unsigned_price(s)
    }
}

/// Only one position can split a string into digits, a dot, and digits: any
/// other dot would sit among the digits of one side.
pub proof fn lemma_split_unique(s: Seq<u8>, k1: int, k2: int)
    requires
        split_at_dot_ok(s, k1),
        split_at_dot_ok(s, k2),
    ensures
        k1 == k2,
{
    if k1 < k2 {
        assert(s.subrange(0, k2)[k1] == s[k1]);
        assert(is_ascii_digit(s.subrange(0, k2)[k1]));
    } else if k2 < k1 {
        assert(s.subrange(0, k1)[k2] == s[k2]);
        assert(is_ascii_digit(s.subrange(0, k1)[k2]));
    }
}

/// The index of the first decimal point, or the length when there is none.
fn find_first_dot(s: &Vec<u8>) -> (r: usize)
    ensures
        r <= s@.len(),
        r < s@.len() ==> s@[r as int] == 46,
        forall|j: int| 0 <= j < r ==> s@[j] != 46,
{
    let mut i: usize = 0;
    while i < s.len()
        invariant
            i <= s@.len(),
            forall|j: int| 0 <= j < i ==> s@[j] != 46,
        decreases s@.len() - i,
    {
        if s[i] == 46 {
            return i;
        }
        i += 1;
    }
    i
}

/// Decides whether every byte in [from, to) is an ASCII decimal digit.
fn check_digits(s: &Vec<u8>, from: usize, to: usize) -> (r: bool)
    requires
        from <= to <= s@.len(),
    ensures
        r == all_digits(s@.subrange(from as int, to as int)),
{
    let mut i: usize = from;
    while i < to
        invariant
            from <= i <= to <= s@.len(),
            forall|j: int| from <= j < i ==> is_ascii_digit(#[trigger] s@[j]),
        decreases to - i,
    {
        let b = s[i];
        if b < 48 || b > 57 {
            proof {
                assert(s@.subrange(from as int, to as int)[i - from] == s@[i as int]);
            }
            return false;
        }
        i += 1;
    }
    proof {
        assert forall|j: int|
            0 <= j < to - from implies is_ascii_digit(
            #[trigger] s@.subrange(from as int, to as int)[j],
        ) by {
            assert(s@.subrange(from as int, to as int)[j] == s@[from + j]);
        }
    }
    true
}

/// The number the digits in [from, to) denote; at most nine of them, so the
/// value stays below SCALE.
fn digits_to_value(s: &Vec<u8>, from: usize, to: usize) -> (v: i64)
    requires
        from <= to <= s@.len(),
        to - from <= 9,
        all_digits(s@.subrange(from as int, to as int)),
    ensures
        v == digits_value(s@.subrange(from as int, to as int)),
        0 <= v < 1_000_000_000,
{
    proof {
        reveal_with_fuel(pow10, 11);
    }
    let mut acc: i64 = 0;
    let mut i: usize = from;
    while i < to
        invariant
            from <= i <= to <= s@.len(),
            to - from <= 9,
            all_digits(s@.subrange(from as int, to as int)),
            acc == digits_value(s@.subrange(from as int, i as int)),
            0 <= acc < pow10((i - from) as nat),
        decreases to - i,
    {
        proof {
            assert(s@.subrange(from as int, i as int + 1).drop_last() =~= s@.subrange(
                from as int,
                i as int,
            ));
            assert(s@.subrange(from as int, i as int + 1).last() == s@[i as int]);
            assert(s@.subrange(from as int, to as int)[i - from] == s@[i as int]);
            lemma_pow10_mono((i - from) as nat, 8);
            reveal_with_fuel(pow10, 11);
            assert(pow10(8) == 100_000_000);
            assert(pow10(((i - from) + 1) as nat) == 10 * pow10((i - from) as nat));
        }
        let b = s[i];
        acc = acc * 10 + ((b - 48) as i64);
        i += 1;
    }
    proof {
        assert(pow10((to - from) as nat) <= pow10(9)) by {
            lemma_pow10_mono((to - from) as nat, 9);
        }
        assert(pow10(9) == 1_000_000_000);
    }
    acc
}

/// Ten to the power e as a machine integer, for e up to nine.
fn pow10_exec(e: usize) -> (r: i64)
    requires
        e <= 9,
    ensures
        r == pow10(e as nat),
        1 <= r <= 1_000_000_000,
{
    proof {
        reveal_with_fuel(pow10, 11);
    }
    let mut r: i64 = 1;
    let mut i: usize = 0;
    while i < e
        invariant
            i <= e <= 9,
            r == pow10(i as nat),
            1 <= r,
        decreases e - i,
    {
        proof {
            lemma_pow10_mono(i as nat, 8);
            reveal_with_fuel(pow10, 11);
            assert(pow10(8) == 100_000_000);
            assert(pow10((i + 1) as nat) == 10 * pow10(i as nat));
        }
        r = r * 10;
        i += 1;
    }
    proof {
        lemma_pow10_mono(e as nat, 9);
        assert(pow10(9) == 1_000_000_000);
    }
    r
}

/// Parses an unsigned plain decimal byte string into fixed-point units:
/// one to nine digits, optionally followed by a decimal point and one to
/// nine fraction digits. Anything else is refused as non-numeric.
fn parse_unsigned_price(s: &Vec<u8>) -> (r: Result<i64, AnalysisError>)
    ensures
        (r is Ok) <==> spec_unsigned_price(s@) is Some,
        r matches Ok(v) ==> 0 <= v && Some(v as int) == spec_unsigned_price(s@),
        (r is Err) ==> r == Err::<i64, AnalysisError>(AnalysisError::NonNumeric),
{
    let n = s.len();
    let dot = find_first_dot(s);
    if dot == n {
        if 1 <= n && n <= 9 && check_digits(s, 0, n) {
            let d = digits_to_value(s, 0, n);
            proof {
                assert(s@.subrange(0, n as int) =~= s@);
                assert(d * SCALE < 1_000_000_000_000_000_000) by (nonlinear_arith)
                    requires
                        0 <= d < 1_000_000_000,
                        SCALE == 1_000_000_000,
                ;
            }
            Ok(d * SCALE)
        } else {
            proof {
                assert(s@.subrange(0, n as int) =~= s@);
                assert(forall|k: int| !split_at_dot_ok(s@, k));
            }
            Err(AnalysisError::NonNumeric)
        }
    } else {
        let frac_len = n - dot - 1;
        if 1 <= dot && dot <= 9 && 1 <= frac_len && frac_len <= 9 && check_digits(s, 0, dot)
            && check_digits(s, dot + 1, n) {
            let ip = digits_to_value(s, 0, dot);
            let fp = digits_to_value(s, dot + 1, n);
            let mult = pow10_exec(9 - frac_len);
            proof {
                assert(split_at_dot_ok(s@, dot as int));
                let kc = choose|k: int| split_at_dot_ok(s@, k);
                lemma_split_unique(s@, kc, dot as int);
                lemma_digits_value_bound(s@.subrange(dot as int + 1, n as int));
                lemma_pow10_add(frac_len as nat, (9 - frac_len) as nat);
                assert(pow10(9) == 1_000_000_000) by {
                    reveal_with_fuel(pow10, 11);
                }
                assert(fp * mult < 1_000_000_000) by (nonlinear_arith)
                    requires
                        0 <= fp < pow10(frac_len as nat),
                        1 <= mult,
                        mult == pow10((9 - frac_len) as nat),
                        pow10(frac_len as nat) * pow10((9 - frac_len) as nat)
                            == 1_000_000_000,
                ;
                assert(0 <= ip * SCALE <= 999_999_999_000_000_000) by (nonlinear_arith)
                    requires
                        0 <= ip < 1_000_000_000,
                        SCALE == 1_000_000_000,
                ;
            }
            Ok(ip * SCALE + fp * mult)
        } else {
            proof {
                assert(s@[dot as int] == 46 && !is_ascii_digit(46));
                assert(!all_digits(s@));
                assert forall|k: int| !split_at_dot_ok(s@, k) by {
                    if split_at_dot_ok(s@, k) {
                        lemma_split_unique_first(s@, k, dot as int);
                    }
                }
            }
            Err(AnalysisError::NonNumeric)
        }
    }
}

/// A well-formed split must sit at the first decimal point.
proof fn lemma_split_unique_first(s: Seq<u8>, k: int, dot: int)
    requires
        split_at_dot_ok(s, k),
        0 <= dot < s.len(),
        s[dot] == 46,
        forall|j: int| 0 <= j < dot ==> s[j] != 46,
    ensures
        k == dot,
{
    if k < dot {
        assert(s[k] == 46);
    } else if dot < k {
        assert(s.subrange(0, k)[dot] == s[dot]);
        assert(is_ascii_digit(s.subrange(0, k)[dot]));
    }
}

/// Parses a plain decimal byte string, with an optional leading minus sign,
/// into fixed-point units. Exactly the strings of the documented form are
/// accepted; everything else is refused as non-numeric.
pub fn parse_price(text: &Vec<u8>) -> (r: Result<i64, AnalysisError>)
    ensures
        (r is Ok) <==> spec_price(text@) is Some,
        r matches Ok(v) ==> Some(v as int) == spec_price(text@),
        (r is Err) ==> r == Err::<i64, AnalysisError>(AnalysisError::NonNumeric),
{
    if text.len() > 0 && text[0] == 45 {
        let mut body: Vec<u8> = Vec::new();
        let mut i: usize = 1;
        while i < text.len()
            invariant
                1 <= i <= text@.len(),
                body@ == text@.subrange(1, i as int),
            decreases text@.len() - i,
        {
            proof {
                assert(text@.subrange(1, i as int + 1) =~= text@.subrange(1, i as int).push(
                    text@[i as int],
                ));
            }
            body.push(text[i]);
            i += 1;
        }
        proof {
            assert(body@ =~= text@.skip(1));
        }
        match parse_unsigned_price(&body) {
            Ok(v) => Ok(-v),
            Err(e) => Err(e),
        }
    } else {
        parse_unsigned_price(text)
    }
}

/// One decimal digit relates a value's quotients by adjacent powers of ten.
proof fn lemma_digit_step(x: int, p: int)
    requires
        x >= 0,
        p >= 1,
    ensures
        (x / (10 * p)) * 10 + (x / p) % 10 == x / p,
{
    let y = x / p;
    lemma_fundamental_div_mod(y, 10);
    lemma_div_denominator(x, p, 10);
    assert(p * 10 == 10 * p);
}

/// Appends the nd digits of x, most significant first, zero-padded to nd.
fn push_digits(out: &mut Vec<u8>, x: u64, nd: usize)
    requires
        1 <= nd <= 9,
        x < pow10(nd as nat),
    ensures
        final(out)@.len() == old(out)@.len() + nd,
        final(out)@.subrange(0, old(out)@.len() as int) == old(out)@,
        all_digits(final(out)@.subrange(old(out)@.len() as int, final(out)@.len() as int)),
        digits_value(final(out)@.subrange(old(out)@.len() as int, final(out)@.len() as int))
            == x,
{
    let ghost base = out@.len() as int;
    proof {
        lemma_pow10_pos(nd as nat);
        lemma_basic_div(x as int, pow10(nd as nat));
        assert(out@.subrange(base, base) =~= Seq::<u8>::empty());
    }
    let mut k: usize = 0;
    while k < nd
        invariant
            1 <= nd <= 9,
            x < pow10(nd as nat),
            k <= nd,
            out@.len() == base + k,
            base == old(out)@.len(),
            out@.subrange(0, base) == old(out)@,
            all_digits(out@.subrange(base, out@.len() as int)),
            digits_value(out@.subrange(base, out@.len() as int)) == (x as int) / pow10(
                (nd - k) as nat,
            ),
        decreases nd - k,
    {
        let p = pow10_exec(nd - 1 - k) as u64;
        let d = (x / p) % 10;
        let ghost before = out@;
        out.push(48 + d as u8);
        proof {
            let piece = out@.subrange(base, base + k + 1);
            let prev = before.subrange(base, base + k as int);
            assert(piece =~= prev.push((48 + d) as u8));
            assert(piece.drop_last() =~= prev);
            assert(piece.last() == (48 + d) as u8);
            assert(digits_value(piece) == digits_value(prev) * 10 + d);
            assert(pow10((nd - k) as nat) == 10 * pow10((nd - 1 - k) as nat));
            lemma_digit_step(x as int, p as int);
            assert(digits_value(piece) == (x as int) / pow10((nd - k - 1) as nat));
            assert forall|j: int| 0 <= j < piece.len() implies is_ascii_digit(
                #[trigger] piece[j],
            ) by {
                if j < k {
                    assert(piece[j] == prev[j]);
                }
            }
            assert(out@.subrange(0, base) =~= before.subrange(0, base));
        }
        k += 1;
    }
    proof {
        lemma_div_multiples_vanish(x as int, 1);
        assert((x as int) / pow10(0) == x);
    }
}

/// Formats a nonnegative fixed-point value as an unsigned plain decimal
/// text: the whole units, then, unless the value is whole, a decimal point
/// and the fraction digits with trailing zeros removed.
fn format_unsigned_price(m: u64) -> (body: Vec<u8>)
    requires
        m <= 999_999_999_999_999_999,
    ensures
        spec_unsigned_price(body@) == Some(m as int),
        body@.len() > 0,
        is_ascii_digit(body@[0]),
{
    let ip: u64 = m / 1_000_000_000;
    let fp: u64 = m % 1_000_000_000;
    proof {
        lemma_fundamental_div_mod(m as int, 1_000_000_000);
        assert(1_000_000_000 * 1_000_000_000 == 1_000_000_000_000_000_000)
            by (nonlinear_arith);
        lemma_multiply_divide_lt(m as int, 1_000_000_000, 1_000_000_000);
    }
    let nd: usize = if ip < 10 {
        1
    } else if ip < 100 {
        2
    } else if ip < 1_000 {
        3
    } else if ip < 10_000 {
        4
    } else if ip < 100_000 {
        5
    } else if ip < 1_000_000 {
        6
    } else if ip < 10_000_000 {
        7
    } else if ip < 100_000_000 {
        8
    } else {
        9
    };
    proof {
        reveal_with_fuel(pow10, 11);
        assert(ip < pow10(nd as nat));
    }
    let mut body: Vec<u8> = Vec::new();
    push_digits(&mut body, ip, nd);
    let ghost int_digits = body@;
    proof {
        assert(int_digits =~= int_digits.subrange(0, nd as int));
        assert(all_digits(int_digits) && digits_value(int_digits) == ip);
    }
    if fp == 0 {
        proof {
            assert(digits_value(body@) * SCALE == m) by (nonlinear_arith)
                requires
                    digits_value(body@) == ip,
                    SCALE == 1_000_000_000,
                    m == ip * 1_000_000_000,
            ;
        }
        return body;
    }
    let mut fq: u64 = fp;
    let mut zeros: usize = 0;
    proof {
        assert(pow10(0) == 1);
    }
    while fq % 10 == 0
        invariant
            1 <= fq,
            zeros <= 8,
            fq * pow10(zeros as nat) == fp,
            0 < fp < 1_000_000_000,
        decreases fq,
    {
        proof {
            if fq < 10 {
                lemma_small_mod(fq as nat, 10);
            }
            assert(fq >= 10);
            lemma_fundamental_div_mod(fq as int, 10);
            lemma_div_decreases(fq as int, 10);
            lemma_pow10_pos(zeros as nat);
            assert((fq as int / 10) * (10 * pow10(zeros as nat)) == ((fq as int / 10) * 10)
                * pow10(zeros as nat)) by (nonlinear_arith);
            assert(pow10((zeros + 1) as nat) == 10 * pow10(zeros as nat));
            assert((fq as int / 10) * pow10((zeros + 1) as nat) == fp);
            // The stripped value keeps the count of removed zeros below nine:
            // ten to that power still divides a fraction below one billion.
            assert(pow10((zeros + 1) as nat) <= fp) by (nonlinear_arith)
                requires
                    (fq as int / 10) * pow10((zeros + 1) as nat) == fp,
                    fq as int / 10 >= 1,
                    pow10((zeros + 1) as nat) >= 1,
            ;
            if zeros + 1 > 8 {
                lemma_pow10_mono(9, (zeros + 1) as nat);
                assert(pow10(9) == 1_000_000_000) by {
                    reveal_with_fuel(pow10, 11);
                }
                assert(false);
            }
        }
        fq = fq / 10;
        zeros += 1;
    }
    let fl: usize = 9 - zeros;
    proof {
        lemma_pow10_add(fl as nat, zeros as nat);
        lemma_pow10_pos(zeros as nat);
        assert(pow10(9) == 1_000_000_000) by {
            reveal_with_fuel(pow10, 11);
        }
        assert(fq < pow10(fl as nat)) by (nonlinear_arith)
            requires
                fq * pow10(zeros as nat) == fp,
                fp < pow10(fl as nat) * pow10(zeros as nat),
                1 <= pow10(zeros as nat),
                1 <= fq,
        ;
    }
    body.push(46);
    let ghost with_dot = body@;
    push_digits(&mut body, fq, fl);
    proof {
        let s = body@;
        let k = nd as int;
        assert(with_dot =~= int_digits.push(46));
        assert(s.subrange(0, with_dot.len() as int) == with_dot);
        assert(s.subrange(0, k) =~= with_dot.subrange(0, k));
        assert(with_dot.subrange(0, k) =~= int_digits);
        assert(s.subrange(0, k) == int_digits);
        assert(s[k] == with_dot[k] && with_dot[k] == 46);
        let frac = s.subrange(with_dot.len() as int, s.len() as int);
        assert(all_digits(frac) && digits_value(frac) == fq);
        assert(s.subrange(k + 1, s.len() as int) =~= frac);
        assert(s.len() - 1 - k == fl);
        assert(split_at_dot_ok(s, k));
        let kc = choose|kk: int| split_at_dot_ok(s, kk);
        assert(split_at_dot_ok(s, kc));
        lemma_split_unique(s, kc, k);
        assert(!(1 <= s.len() <= 9 && all_digits(s))) by {
            if s.len() <= 9 && all_digits(s) {
                assert(is_ascii_digit(s[k]));
            }
        }
        assert(fractional_value(s, k) == digits_value(s.subrange(0, k)) * SCALE
            + digits_value(s.subrange(k + 1, s.len() as int)) * pow10(
            (9 - (s.len() - 1 - k)) as nat,
        ));
        assert(fractional_value(s, k) == m) by (nonlinear_arith)
            requires
                digits_value(s.subrange(0, k)) == ip,
                digits_value(s.subrange(k + 1, s.len() as int)) == fq,
                SCALE == 1_000_000_000,
                m == ip * 1_000_000_000 + fp,
                fq * pow10(zeros as nat) == fp,
                fractional_value(s, k) == digits_value(s.subrange(0, k)) * SCALE
                    + digits_value(s.subrange(k + 1, s.len() as int)) * pow10(
                    (9 - (s.len() - 1 - k)) as nat,
                ),
                pow10((9 - (s.len() - 1 - k)) as nat) == pow10(zeros as nat),
        ;
        assert(s.subrange(0, k)[0] == s[0]);
        assert(is_ascii_digit(int_digits[0]));
    }
    body
}

/// Formats a fixed-point value as the plain decimal text that parses back
/// to it: an optional minus sign, the whole units, and the fraction digits
/// with trailing zeros removed. The value must be one the nine-digit
/// decimal form can denote.
pub fn format_price(v: i64) -> (r: Vec<u8>)
    requires
        -999_999_999_999_999_999 <= v <= 999_999_999_999_999_999,
    ensures
        spec_price(r@) == Some(v as int),
{
    if v >= 0 {
        let body = format_unsigned_price(v as u64);
        proof {
            assert(body@[0] != 45);
        }
        body
    } else {
        let body = format_unsigned_price((-v) as u64);
        let mut r: Vec<u8> = Vec::new();
        r.push(45);
        let mut i: usize = 0;
        while i < body.len()
            invariant
                i <= body@.len(),
                r@.len() == i + 1,
                r@[0] == 45,
                r@.subrange(1, r@.len() as int) == body@.subrange(0, i as int),
            decreases body@.len() - i,
        {
            r.push(body[i]);
            proof {
                assert(r@.subrange(1, r@.len() as int) =~= body@.subrange(0, i as int + 1));
            }
            i += 1;
        }
        proof {
            assert(r@.skip(1) =~= body@);
        }
        r
    }
}

/// The bytes of the header label Date.
pub open spec fn spec_is_date_label(s: Seq<u8>) -> bool {
    s.len() == 4 && s[0] == 68 && s[1] == 97 && s[2] == 116 && s[3] == 101
}

/// The bytes of the header label Close.
pub open spec fn spec_is_close_label(s: Seq<u8>) -> bool {
    s.len() == 5 && s[0] == 67 && s[1] == 108 && s[2] == 111 && s[3] == 115 && s[4] == 101
}

/// Decides whether the bytes spell the header label Date.
fn is_date_label(h: &Vec<u8>) -> (r: bool)
    ensures
        r == spec_is_date_label(h@),
{
    h.len() == 4 && h[0] == 68 && h[1] == 97 && h[2] == 116 && h[3] == 101
}

/// Decides whether the bytes spell the header label Close.
fn is_close_label(h: &Vec<u8>) -> (r: bool)
    ensures
        r == spec_is_close_label(h@),
{
    h.len() == 5 && h[0] == 67 && h[1] == 108 && h[2] == 111 && h[3] == 115 && h[4] == 101
}

/// Finds the Date and Close columns in a header row: the first column with
/// each label, in the header's own order. Refused when either label is
/// absent.
pub fn find_columns(headers: &Vec<Vec<u8>>) -> (r: Result<(usize, usize), AnalysisError>)
    ensures
        (r is Ok) <==> ((exists|i: int|
            0 <= i < headers@.len() && spec_is_date_label(#[trigger] headers@[i]@)) && (
        exists|i: int|
            0 <= i < headers@.len() && spec_is_close_label(#[trigger] headers@[i]@))),
        (r is Err) ==> r == Err::<(usize, usize), AnalysisError>(AnalysisError::MissingColumn),
        r matches Ok(p) ==> {
            &&& p.0 < headers@.len()
            &&& spec_is_date_label(headers@[p.0 as int]@)
            &&& forall|j: int| 0 <= j < p.0 ==> !spec_is_date_label(#[trigger] headers@[j]@)
            &&& p.1 < headers@.len()
            &&& spec_is_close_label(headers@[p.1 as int]@)
            &&& forall|j: int| 0 <= j < p.1 ==> !spec_is_close_label(#[trigger] headers@[j]@)
        },
{
    let n = headers.len();
    let date_col = find_date_column(headers);
    if date_col == n {
        return Err(AnalysisError::MissingColumn);
    }
    let close_col = find_close_column(headers);
    if close_col == n {
        return Err(AnalysisError::MissingColumn);
    }
    Ok((date_col, close_col))
}

/// The index of the first Date column, or the header count when none exists.
fn find_date_column(headers: &Vec<Vec<u8>>) -> (r: usize)
    ensures
        r <= headers@.len(),
        r < headers@.len() ==> spec_is_date_label(headers@[r as int]@),
        forall|j: int| 0 <= j < r ==> !spec_is_date_label(#[trigger] headers@[j]@),
{
    let mut i: usize = 0;
    while i < headers.len()
        invariant
            i <= headers@.len(),
            forall|j: int| 0 <= j < i ==> !spec_is_date_label(#[trigger] headers@[j]@),
        decreases headers@.len() - i,
    {
        if is_date_label(&headers[i]) {
            return i;
        }
        i += 1;
    }
    i
}

/// The index of the first Close column, or the header count when none
/// exists.
fn find_close_column(headers: &Vec<Vec<u8>>) -> (r: usize)
    ensures
        r <= headers@.len(),
        r < headers@.len() ==> spec_is_close_label(headers@[r as int]@),
        forall|j: int| 0 <= j < r ==> !spec_is_close_label(#[trigger] headers@[j]@),
{
    let mut k: usize = 0;
    while k < headers.len()
        invariant
            k <= headers@.len(),
            forall|j: int| 0 <= j < k ==> !spec_is_close_label(#[trigger] headers@[j]@),
        decreases headers@.len() - k,
    {
        if is_close_label(&headers[k]) {
            return k;
        }
        k += 1;
    }
    k
}

} // verus!
