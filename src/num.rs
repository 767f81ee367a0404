//! A fixed-precision unsigned decimal number.
use vstd::prelude::*;
use vstd::std_specs::ops::{AddSpec, SubSpec};

verus! {

/// The largest precision that the decimal type can represent.
pub const MAX_N: u8 = 19;

/// `10^n`.
pub open spec fn pow10(n: nat) -> nat
    decreases n,
{
    if n == 0 {
        1
    } else {
        10 * pow10((n - 1) as nat)
    }
}

proof fn lemma_pow10_positive(n: nat)
    ensures
        pow10(n) >= 1,
    decreases n,
{
    if n > 0 {
        lemma_pow10_positive((n - 1) as nat);
    }
}

proof fn lemma_pow10_monotonic(a: nat, b: nat)
    requires
        a <= b,
    ensures
        pow10(a) <= pow10(b),
    decreases b,
{
    if a < b {
        lemma_pow10_monotonic(a, (b - 1) as nat);
        lemma_pow10_positive((b - 1) as nat);
    }
}

proof fn lemma_pow10_add(a: nat, b: nat)
    ensures
        pow10(a + b) == pow10(a) * pow10(b),
    decreases b,
{
    if b == 0 {
        assert(pow10(0) == 1);
    } else {
        lemma_pow10_add(a, (b - 1) as nat);
        assert(pow10(a + b) == 10 * pow10((a + b - 1) as nat));
        assert(pow10(a) * (10 * pow10((b - 1) as nat)) == 10 * (pow10(a) * pow10((b - 1) as nat)))
            by (nonlinear_arith);
    }
}

proof fn lemma_pow10_19()
    ensures
        pow10(19) == 10_000_000_000_000_000_000nat,
        pow10(19) <= u64::MAX,
{
    reveal_with_fuel(pow10, 20);
}

/// Computes `10^n` for a precision that fits the decimal type.
fn pow10_u64(n: u8) -> (r: u64)
    requires
        n <= MAX_N,
    ensures
        r == pow10(n as nat),
{
    let mut i: u8 = 0;
    let mut r: u64 = 1;
    while i < n
        invariant
            i <= n <= MAX_N,
            r == pow10(i as nat),
        decreases n - i,
    {
        proof {
            lemma_pow10_monotonic((i + 1) as nat, 19);
            lemma_pow10_19();
        }
        r = r * 10;
        i = i + 1;
    }
    r
}
/// The number of decimal digits of `x` (one for zero).
pub open spec fn num_digits(x: nat) -> nat
    decreases x,
{
    if x < 10 {
        1
    } else {
        1 + num_digits(x / 10)
    }
}

/// `a / b` rounded half away from zero.
pub open spec fn round_div(a: nat, b: nat) -> nat
    recommends
        b > 0,
{
    if (a % b) * 2 >= b {
        a / b + 1
    } else {
        a / b
    }
}

/// The fractional units that a fraction given as the integer `frac` stands
/// for at precision `n`: kept as is when it has at most `n` digits, else
/// rounded half away from zero to its first `n` digits. At precision zero
/// the fraction is dropped.
pub open spec fn round_frac(n: nat, frac: nat) -> nat {
    if n == 0 {
        0
    } else if frac < pow10(n) {
        frac
    } else {
        round_div(frac, pow10((num_digits(frac) - n) as nat))
    }
}

proof fn lemma_num_digits_upper(x: nat, k: nat)
    requires
        x < pow10(k),
        k >= 1,
    ensures
        num_digits(x) <= k,
    decreases k,
{
    if x >= 10 {
        assert(k >= 2) by {
            if k == 1 {
                reveal_with_fuel(pow10, 2);
            }
        }
        assert(x / 10 < pow10((k - 1) as nat));
        lemma_num_digits_upper(x / 10, (k - 1) as nat);
    }
}

proof fn lemma_num_digits_lower(x: nat, k: nat)
    requires
        x >= pow10(k),
    ensures
        num_digits(x) >= k + 1,
    decreases k,
{
    if k > 0 {
        lemma_pow10_positive((k - 1) as nat);
        assert(x / 10 >= pow10((k - 1) as nat));
        lemma_num_digits_lower(x / 10, (k - 1) as nat);
    }
}

/// The character of a decimal digit.
pub open spec fn digit_char(d: nat) -> char {
    if d == 0 {
        '0'
    } else if d == 1 {
        '1'
    } else if d == 2 {
        '2'
    } else if d == 3 {
        '3'
    } else if d == 4 {
        '4'
    } else if d == 5 {
        '5'
    } else if d == 6 {
        '6'
    } else if d == 7 {
        '7'
    } else if d == 8 {
        '8'
    } else {
        '9'
    }
}

/// The decimal digits of `x`, with no leading zero (`"0"` for zero).
pub open spec fn digits_of(x: nat) -> Seq<char>
    decreases x,
{
    if x < 10 {
        seq![digit_char(x)]
    } else {
        digits_of(x / 10).push(digit_char(x % 10))
    }
}

/// `k` zeros.
pub open spec fn zeros(k: nat) -> Seq<char> {
    Seq::new(k, |i: int| '0')
}

/// The digits of `x`, left-padded with zeros to `width` characters.
pub open spec fn padded(x: nat, width: nat) -> Seq<char> {
    let d = digits_of(x);
    if d.len() >= width {
        d
    } else {
        zeros((width - d.len()) as nat) + d
    }
}

/// `s` without its trailing zeros.
pub open spec fn strip_zeros(s: Seq<char>) -> Seq<char>
    decreases s.len(),
{
    if s.len() > 0 && s.last() == '0' {
        strip_zeros(s.drop_last())
    } else {
        s
    }
}

/// The full form of `v` units at precision `n`: the integer part, a point,
/// and the fraction on `n` digits.
pub open spec fn format_full(v: nat, n: nat) -> Seq<char> {
    digits_of(v / pow10(n)) + seq!['.'] + padded(v % pow10(n), n)
}

/// The compact form of `v` units at precision `n`: the integer part, and
/// where the fraction is not zero, a point and the fraction on `n` digits
/// without its trailing zeros.
pub open spec fn format_compact(v: nat, n: nat) -> Seq<char> {
    if v % pow10(n) == 0 {
        digits_of(v / pow10(n))
    } else {
        digits_of(v / pow10(n)) + seq!['.'] + strip_zeros(padded(v % pow10(n), n))
    }
}

/// Relies on `String::push`: appends one character to the string.
#[verifier::external_body]
fn push_char(s: &mut String, c: char)
    ensures
        final(s)@ == old(s)@.push(c),
{
    s.push(c);
}

/// The string of the given characters.
fn string_of(chars: &Vec<char>) -> (r: String)
    ensures
        r@ == chars@,
{
    let mut s = String::new();
    let mut i: usize = 0;
    while i < chars.len()
        invariant
            i <= chars@.len(),
            s@ == chars@.take(i as int),
        decreases chars.len() - i,
    {
        assert(chars@.take(i + 1) == chars@.take(i as int).push(chars@[i as int]));
        push_char(&mut s, chars[i]);
        i = i + 1;
    }
    assert(chars@.take(chars@.len() as int) == chars@);
    s
}

/// The character of digit `d`.
fn digit_to_char(d: u64) -> (r: char)
    requires
        d < 10,
    ensures
        r == digit_char(d as nat),
{
    match d {
        0 => '0',
        1 => '1',
        2 => '2',
        3 => '3',
        4 => '4',
        5 => '5',
        6 => '6',
        7 => '7',
        8 => '8',
        _ => '9',
    }
}

/// Appends the digits of `x`.
fn push_digits(out: &mut Vec<char>, x: u64)
    ensures
        final(out)@ == old(out)@ + digits_of(x as nat),
    decreases x,
{
    if x >= 10 {
        push_digits(out, x / 10);
    }
    out.push(digit_to_char(x % 10));
    proof {
        assert(digits_of(x as nat) == if x < 10 {
            seq![digit_char(x as nat)]
        } else {
            digits_of((x / 10) as nat).push(digit_char((x % 10) as nat))
        });
    }
}

/// Appends the characters of `src`.
fn push_all(out: &mut Vec<char>, src: &Vec<char>)
    ensures
        final(out)@ == old(out)@ + src@,
{
    let ghost start = out@;
    let mut i: usize = 0;
    while i < src.len()
        invariant
            i <= src@.len(),
            out@ == start + src@.take(i as int),
        decreases src.len() - i,
    {
        assert(src@.take(i + 1) == src@.take(i as int).push(src@[i as int]));
        out.push(src[i]);
        i = i + 1;
    }
    assert(src@.take(src@.len() as int) == src@);
}

/// The digits of `x` left-padded with zeros to `width` characters.
fn padded_digits(x: u64, width: u8) -> (r: Vec<char>)
    ensures
        r@ == padded(x as nat, width as nat),
{
    let mut d: Vec<char> = Vec::new();
    push_digits(&mut d, x);
    assert(d@ == digits_of(x as nat));
    if d.len() >= width as usize {
        d
    } else {
        let mut out: Vec<char> = Vec::new();
        let pad = width as usize - d.len();
        let mut i: usize = 0;
        while i < pad
            invariant
                i <= pad,
                out@ == zeros(i as nat),
            decreases pad - i,
        {
            out.push('0');
            i = i + 1;
            assert(out@ =~= zeros(i as nat));
        }
        push_all(&mut out, &d);
        out
    }
}

/// Drops the trailing zeros of `v`.
fn pop_zeros(v: &mut Vec<char>)
    ensures
        final(v)@ == strip_zeros(old(v)@),
{
    while v.len() > 0 && v[v.len() - 1] == '0'
        invariant
            strip_zeros(v@) == strip_zeros(old(v)@),
        decreases v@.len(),
    {
        let ghost prev = v@;
        v.pop();
        assert(v@ == prev.drop_last());
    }
}

/// Whether `c` is an ASCII decimal digit.
pub open spec fn is_digit(c: char) -> bool {
    '0' <= c && c <= '9'
}

/// Whether every character of `s` is a decimal digit.
pub open spec fn all_digits(s: Seq<char>) -> bool {
    forall|i: int| 0 <= i < s.len() ==> is_digit(#[trigger] s[i])
}

/// The number that the digits `s` write (zero for no digits).
pub open spec fn digits_value(s: Seq<char>) -> nat
    decreases s.len(),
{
    if s.len() == 0 {
        0
    } else {
        digits_value(s.drop_last()) * 10 + (s.last() as nat - '0' as nat) as nat
    }
}

/// The fractional units at precision `n` of the fraction digits `f` (with no
/// trailing zero), or `None` where they cannot be read. Up to `n` digits
/// stand for themselves followed by zeros; more digits that start with a
/// zero are cut to `n + 1` and rounded to `n`; more digits that start
/// otherwise are read as one integer and rounded as `round_frac` does.
pub open spec fn frac_units(f: Seq<char>, n: nat) -> Option<nat> {
    if f.len() <= n {
        Some(digits_value(f) * pow10((n - f.len()) as nat))
    } else if f[0] == '0' {
        Some(round_div(digits_value(f.take((n + 1) as int)), 10))
    } else if digits_value(f) > u64::MAX {
        None
    } else {
        Some(round_frac(n, digits_value(f)))
    }
}

/// The number of units at precision `n` that the integer digits `u` and the
/// fraction digits `f` write, or `None` where they write no decimal of that
/// precision.
pub open spec fn parts_value(u: Seq<char>, f: Seq<char>, n: nat) -> Option<nat> {
    if u.len() == 0 || digits_value(u) > u64::MAX {
        None
    } else {
        match frac_units(strip_zeros(f), n) {
            None => None,
            Some(fr) => if fr < pow10(n) && digits_value(u) * pow10(n) + fr <= u64::MAX {
                Some(digits_value(u) * pow10(n) + fr)
            } else {
                None
            },
        }
    }
}

/// Whether `s` is digits, a point at `i`, and digits.
pub open spec fn point_at(s: Seq<char>, i: int) -> bool {
    &&& 0 <= i < s.len()
    &&& s[i] == '.'
    &&& all_digits(s.take(i))
    &&& all_digits(s.skip(i + 1))
}

/// The number of units at precision `n` that the text `s` writes: `U`, `U.`
/// or `U.F` with `U` and `F` decimal digits, `U` not empty; `None` where `s`
/// is none of these or its value cannot be represented.
pub open spec fn parse_units(s: Seq<char>, n: nat) -> Option<nat> {
    if all_digits(s) {
        parts_value(s, Seq::empty(), n)
    } else if exists|i: int| point_at(s, i) {
        let i = choose|i: int| point_at(s, i);
        parts_value(s.take(i), s.skip(i + 1), n)
    } else {
        None
    }
}

proof fn lemma_digits_value_append(a: Seq<char>, b: Seq<char>)
    ensures
        digits_value(a + b) == digits_value(a) * pow10(b.len()) + digits_value(b),
    decreases b.len(),
{
    if b.len() == 0 {
        assert(a + b == a);
        assert(pow10(0) == 1);
    } else {
        assert((a + b).drop_last() == a + b.drop_last());
        assert((a + b).last() == b.last());
        lemma_digits_value_append(a, b.drop_last());
        let d = digits_value(b) - digits_value(b.drop_last()) * 10;
        let p = pow10((b.len() - 1) as nat);
        assert(pow10(b.len()) == p * 10);
        assert(digits_value(a + b) == (digits_value(a) * p + digits_value(b.drop_last())) * 10
            + d);
        assert((digits_value(a) * p + digits_value(b.drop_last())) * 10 + d == digits_value(a) * (
        p * 10) + digits_value(b.drop_last()) * 10 + d) by (nonlinear_arith);
    }
}

proof fn lemma_digits_value_zero()
    ensures
        digits_value(seq!['0']) == 0,
{
    let z = seq!['0'];
    assert(z.drop_last() =~= Seq::<char>::empty());
    assert(digits_value(Seq::<char>::empty()) == 0);
    assert(z.last() == '0');
}

proof fn lemma_digits_value_bound(s: Seq<char>)
    requires
        all_digits(s),
    ensures
        digits_value(s) < pow10(s.len()),
    decreases s.len(),
{
    if s.len() > 0 {
        assert(all_digits(s.drop_last()));
        lemma_digits_value_bound(s.drop_last());
        assert(is_digit(s[s.len() - 1]));
        let p = pow10((s.len() - 1) as nat);
        assert(digits_value(s.drop_last()) * 10 + 9 < p * 10) by (nonlinear_arith)
            requires
                digits_value(s.drop_last()) < p,
        ;
    }
}

/// The characters of `s`.
pub(crate) fn chars_of(s: &str) -> (r: Vec<char>)
    ensures
        r@ == s@,
{
    let mut out: Vec<char> = Vec::new();
    for c in it: s.chars()
        invariant
            out@ == it.seq().take(it.index() as int),
            it.seq() == s@,
    {
        assert(it.seq().take(it.index() + 1) == it.seq().take(it.index() as int).push(c));
        out.push(c);
    }
    assert(s@.take(s@.len() as int) == s@);
    out
}

/// Whether `c[lo..hi]` are all decimal digits.
fn all_digits_in(c: &Vec<char>, lo: usize, hi: usize) -> (r: bool)
    requires
        lo <= hi <= c@.len(),
    ensures
        r == all_digits(c@.subrange(lo as int, hi as int)),
{
    let mut i: usize = lo;
    while i < hi
        invariant
            lo <= i <= hi <= c@.len(),
            all_digits(c@.subrange(lo as int, i as int)),
        decreases hi - i,
    {
        if !(c[i] >= '0' && c[i] <= '9') {
            assert(c@.subrange(lo as int, hi as int)[i - lo] == c@[i as int]);
            return false;
        }
        i = i + 1;
        assert forall|j: int| 0 <= j < i - lo implies is_digit(
            #[trigger] c@.subrange(lo as int, i as int)[j],
        ) by {
            if j < i - 1 - lo {
                assert(c@.subrange(lo as int, i as int)[j] == c@.subrange(lo as int, i - 1)[j]);
            }
        }
    }
    true
}

/// The number that the digits `c[lo..hi]` write, or `None` where it exceeds
/// 64 bits.
fn digits_u64(c: &Vec<char>, lo: usize, hi: usize) -> (r: Option<u64>)
    requires
        lo <= hi <= c@.len(),
        all_digits(c@.subrange(lo as int, hi as int)),
    ensures
        r is Some <==> digits_value(c@.subrange(lo as int, hi as int)) <= u64::MAX,
        r matches Some(v) ==> v == digits_value(c@.subrange(lo as int, hi as int)),
{
    let ghost whole = c@.subrange(lo as int, hi as int);
    let mut acc: u64 = 0;
    let mut i: usize = lo;
    while i < hi
        invariant
            lo <= i <= hi <= c@.len(),
            whole == c@.subrange(lo as int, hi as int),
            all_digits(whole),
            acc == digits_value(c@.subrange(lo as int, i as int)),
        decreases hi - i,
    {
        assert(whole[i - lo] == c@[i as int]);
        let d = (c[i] as u32 - '0' as u32) as u64;
        let ghost next = c@.subrange(lo as int, i + 1);
        assert(next.drop_last() == c@.subrange(lo as int, i as int));
        assert(digits_value(next) == acc * 10 + d);
        if acc > (u64::MAX - d) / 10 {
            proof {
                assert(acc * 10 + d > u64::MAX) by (nonlinear_arith)
                    requires
                        acc > (u64::MAX - d) / 10,
                        d <= 9,
                ;
                assert(whole == next + c@.subrange(i + 1, hi as int));
                lemma_digits_value_append(next, c@.subrange(i + 1, hi as int));
                lemma_pow10_positive((hi - i - 1) as nat);
                assert(digits_value(next) * pow10((hi - i - 1) as nat) >= digits_value(next))
                    by (nonlinear_arith)
                    requires
                        pow10((hi - i - 1) as nat) >= 1,
                ;
            }
            return None;
        }
        acc = acc * 10 + d;
        i = i + 1;
    }
    Some(acc)
}

/// The error of a text that writes no decimal of the precision asked for.
#[derive(Clone, Copy, Debug, PartialEq, Eq, Structural)]
pub struct ParseDecimalError;

/// A decimal with up to `N` places past the decimal point, held as a number
/// of units of `10^-N`.
#[derive(Clone, Copy, Debug)]
pub struct Decimal<const N: u8> {
    raw: u64,
}

impl<const N: u8> View for Decimal<N> {
    type V = nat;

    /// The number of units of `10^-N` that this decimal holds.
    closed spec fn view(&self) -> nat {
        self.raw as nat
    }
}

/// Every decimal fits in 64 bits.
pub broadcast proof fn lemma_decimal_bounded<const N: u8>(d: Decimal<N>)
    ensures
        #[trigger] d@ <= u64::MAX,
{
}

/// A decimal built from a number of units holds that number.
pub broadcast proof fn lemma_from_units<const N: u8>(v: nat)
    requires
        v <= u64::MAX,
    ensures
        #[trigger] Decimal::<N>::from_units(v)@ == v,
{
}

/// Two decimals that hold the same number of units are the same.
pub proof fn lemma_decimal_ext<const N: u8>(a: Decimal<N>, b: Decimal<N>)
    requires
        a@ == b@,
    ensures
        a == b,
{
}

pub broadcast group group_decimal {
    lemma_decimal_bounded,
    lemma_from_units,
}

impl<const N: u8> Decimal<N> {
    /// The decimal of `v` units (where `v` fits in 64 bits).
    pub closed spec fn from_units(v: nat) -> Self {
        Decimal { raw: v as u64 }
    }

    /// The number of units in one.
    pub open spec fn scale() -> nat {
        pow10(N as nat)
    }

    /// Whether `new(uint, frac)` can represent its value.
    pub open spec fn fits(uint: nat, frac: nat) -> bool {
        &&& round_frac(N as nat, frac) < Self::scale()
        &&& uint * Self::scale() + round_frac(N as nat, frac) <= u64::MAX
    }

    /// A decimal of `v` units.
    pub fn raw(v: u64) -> (r: Self)
        ensures
            r@ == v,
    {
        Decimal { raw: v }
    }

    /// The largest value that this type can represent.
    pub fn max_value() -> (r: Self)
        ensures
            r@ == u64::MAX,
    {
        Decimal { raw: u64::MAX }
    }

    /// The smallest value that this type can represent.
    pub fn min_value() -> (r: Self)
        ensures
            r@ == 0,
    {
        Decimal { raw: 0 }
    }

    /// The number of units in one.
    fn frac_unit() -> (r: u64)
        requires
            N <= MAX_N,
        ensures
            r == Self::scale(),
            r >= 1,
    {
        proof {
            lemma_pow10_positive(N as nat);
        }
        pow10_u64(N)
    }

    /// The largest integer part that this type can represent.
    pub fn max_uint() -> (r: u64)
        requires
            N <= MAX_N,
        ensures
            r == u64::MAX as nat / Self::scale(),
    {
        u64::MAX / Self::frac_unit()
    }

    /// The largest fractional part, in units.
    pub fn max_frac() -> (r: u64)
        requires
            N <= MAX_N,
        ensures
            r == Self::scale() - 1,
    {
        Self::frac_unit() - 1
    }

    /// Rounds a fraction given as an integer to `N` digits.
    fn round_frac_exec(frac: u64) -> (r: u64)
        requires
            N <= MAX_N,
        ensures
            r == round_frac(N as nat, frac as nat),
    {
        let unit = Self::frac_unit();
        if N == 0 {
            0
        } else if frac < unit {
            frac
        } else {
            proof {
                lemma_num_digits_lower(frac as nat, N as nat);
                reveal_with_fuel(pow10, 21);
                lemma_num_digits_upper(frac as nat, 20);
            }
            let mut x: u64 = frac;
            let mut extra: u8 = 0;
            while x >= 10
                invariant
                    num_digits(frac as nat) == extra + num_digits(x as nat),
                    x <= u64::MAX,
                    extra <= 20,
                    extra + num_digits(x as nat) <= 20,
                decreases x,
            {
                x = x / 10;
                extra = extra + 1;
            }
            proof {
                lemma_pow10_monotonic(1, (extra + 1 - N) as nat);
                reveal_with_fuel(pow10, 2);
            }
            let p = pow10_u64(extra + 1 - N);
            let q = frac / p;
            let rem = frac % p;
            assert(q <= u64::MAX / 10) by (nonlinear_arith)
                requires
                    q == frac / p,
                    p >= 10,
            ;
            if rem >= p - rem {
                q + 1
            } else {
                q
            }
        }
    }

    /// Creates a decimal from its integer part and a fraction given as an
    /// integer (see `round_frac`).
    pub fn new(uint: u64, frac: u64) -> (r: Self)
        requires
            N <= MAX_N,
            Self::fits(uint as nat, frac as nat),
        ensures
            r@ == uint * Self::scale() + round_frac(N as nat, frac as nat),
    {
        let unit = Self::frac_unit();
        let f = Self::round_frac_exec(frac);
        assert(uint * unit <= u64::MAX - f);
        Decimal { raw: uint * unit + f }
    }

    /// Like `new`, or `None` where the value cannot be represented.
    pub fn checked_new(uint: u64, frac: u64) -> (r: Option<Self>)
        requires
            N <= MAX_N,
        ensures
            r is Some <==> Self::fits(uint as nat, frac as nat),
            r matches Some(d) ==> d@ == uint * Self::scale() + round_frac(N as nat, frac as nat),
    {
        let unit = Self::frac_unit();
        let f = Self::round_frac_exec(frac);
        if f >= unit {
            return None;
        }
        let bound = (u64::MAX - f) / unit;
        if uint > bound {
            assert(uint * unit > u64::MAX - f) by (nonlinear_arith)
                requires
                    uint > bound,
                    bound as int == (u64::MAX - f) as int / unit as int,
                    unit >= 1,
            ;
            None
        } else {
            assert(uint * unit <= u64::MAX - f) by (nonlinear_arith)
                requires
                    uint <= bound,
                    bound as int == (u64::MAX - f) as int / unit as int,
                    unit >= 1,
            ;
            Some(Self::new(uint, frac))
        }
    }

    /// A decimal with integer part `uint` and no fraction.
    pub fn from_uint(uint: u64) -> (r: Self)
        requires
            N <= MAX_N,
            uint * Self::scale() <= u64::MAX,
        ensures
            r@ == uint * Self::scale(),
    {
        proof {
            lemma_pow10_positive(N as nat);
        }
        Self::new(uint, 0)
    }

    /// Splits this decimal into its integer part and its fractional units.
    pub fn split(&self) -> (r: (u64, u64))
        requires
            N <= MAX_N,
        ensures
            r.0 == self@ / Self::scale(),
            r.1 == self@ % Self::scale(),
    {
        let unit = Self::frac_unit();
        (self.raw / unit, self.raw % unit)
    }

    /// Parses `U`, `U.` or `U.F` (see `parse_units`): trailing zeros of the
    /// fraction are dropped, a fraction of up to `N` digits is exact, and a
    /// longer one is rounded half away from zero.
    pub fn parse(s: &str) -> (r: Result<Self, ParseDecimalError>)
        requires
            N <= MAX_N,
        ensures
            match parse_units(s@, N as nat) {
                Some(v) => r matches Ok(d) && d@ == v,
                None => r is Err,
            },
    {
        let c = chars_of(s);
        let len = c.len();
        let mut i: usize = 0;
        while i < len && c[i] != '.'
            invariant
                i <= len == c@.len(),
                forall|j: int| 0 <= j < i ==> c@[j] != '.',
            decreases len - i,
        {
            i = i + 1;
        }
        let start_f = if i < len {
            i + 1
        } else {
            len
        };
        let ghost u = c@.subrange(0, i as int);
        let ghost f = c@.subrange(start_f as int, len as int);
        proof {
            if i < len {
                assert(u == s@.take(i as int));
                assert(f == s@.skip(i + 1));
                assert forall|j: int| point_at(s@, j) implies j == i by {
                    if j < i {
                        assert(c@[j] != '.');
                    } else if j > i {
                        assert(s@.take(j)[i as int] == '.');
                    }
                }
                assert(!all_digits(s@)) by {
                    assert(!is_digit(s@[i as int]));
                }
            } else {
                assert(u == s@);
                assert(f == Seq::<char>::empty());
                assert forall|j: int| !point_at(s@, j) by {
                    if 0 <= j < len {
                        assert(c@[j] != '.');
                    }
                }
            }
        }
        if i == 0 || !all_digits_in(&c, 0, i) || !all_digits_in(&c, start_f, len) {
            proof {
                if i < len {
                    if point_at(s@, i as int) {
                        assert(s@.take(i as int) == u);
                    }
                }
            }
            return Err(ParseDecimalError);
        }
        assert(i < len ==> point_at(s@, i as int));
        assert(parse_units(s@, N as nat) == parts_value(u, f, N as nat));
        let uint = match digits_u64(&c, 0, i) {
            Some(v) => v,
            None => {
                return Err(ParseDecimalError);
            },
        };
        let mut hi = len;
        while hi > start_f && c[hi - 1] == '0'
            invariant
                start_f <= hi <= len == c@.len(),
                strip_zeros(f) == strip_zeros(c@.subrange(start_f as int, hi as int)),
            decreases hi,
        {
            assert(c@.subrange(start_f as int, hi as int).drop_last() == c@.subrange(
                start_f as int,
                hi - 1,
            ));
            hi = hi - 1;
        }
        let ghost g = c@.subrange(start_f as int, hi as int);
        assert(strip_zeros(f) == g);
        assert(all_digits(g)) by {
            assert forall|j: int| 0 <= j < g.len() implies is_digit(#[trigger] g[j]) by {
                assert(g[j] == f[j]);
            }
        }
        let frac = match Self::fraction_units(&c, start_f, hi) {
            Some(frac) => frac,
            None => {
                return Err(ParseDecimalError);
            },
        };
        match Self::checked_new(uint, frac) {
            Some(d) => Ok(d),
            None => Err(ParseDecimalError),
        }
    }

    /// The fraction, as `new` takes it, that the fraction digits `c[lo..hi]`
    /// (with no trailing zero) write: rounded as `new` rounds, it is their
    /// units at precision `N`.
    fn fraction_units(c: &Vec<char>, start_f: usize, hi: usize) -> (r: Option<u64>)
        requires
            N <= MAX_N,
            start_f <= hi <= c@.len(),
            all_digits(c@.subrange(start_f as int, hi as int)),
        ensures
            r is Some <==> frac_units(c@.subrange(start_f as int, hi as int), N as nat) is Some,
            r matches Some(x) ==> round_frac(N as nat, x as nat) == frac_units(
                c@.subrange(start_f as int, hi as int),
                N as nat,
            )->Some_0,
    {
        let ghost g = c@.subrange(start_f as int, hi as int);
        let n = N as usize;
        let flen = hi - start_f;
        if flen <= n {
            proof {
                lemma_digits_value_bound(g);
                lemma_pow10_monotonic(flen as nat, 19);
                lemma_pow10_19();
            }
            let v = match digits_u64(c, start_f, hi) {
                Some(v) => v,
                None => {
                    return None;
                },
            };
            let p = pow10_u64(N - flen as u8);
            proof {
                lemma_pow10_positive((n - flen) as nat);
                lemma_pow10_monotonic(N as nat, 19);
            }
            assert(v * p < pow10(N as nat)) by {
                assert(pow10(N as nat) == pow10(flen as nat) * p) by {
                    lemma_pow10_add(flen as nat, (n - flen) as nat);
                }
                assert(v * p < pow10(flen as nat) * p) by (nonlinear_arith)
                    requires
                        v < pow10(flen as nat),
                        p >= 1,
                ;
            }
            Some(v * p)
        } else if c[start_f] == '0' {
            assert(g[0] == '0');
            let ghost h = c@.subrange(start_f as int, start_f + n + 1);
            assert(h == g.take((n + 1) as int));
            assert(all_digits(h)) by {
                assert forall|j: int| 0 <= j < h.len() implies is_digit(#[trigger] h[j]) by {
                    assert(h[j] == g[j]);
                }
            }
            proof {
                assert(h == seq!['0'] + h.skip(1));
                lemma_digits_value_append(seq!['0'], h.skip(1));
                lemma_digits_value_zero();
                assert(all_digits(h.skip(1))) by {
                    assert forall|j: int| 0 <= j < h.skip(1).len() implies is_digit(
                        #[trigger] h.skip(1)[j],
                    ) by {
                        assert(h.skip(1)[j] == h[j + 1]);
                    }
                }
                lemma_digits_value_bound(h.skip(1));
                lemma_pow10_monotonic(n as nat, 19);
                lemma_pow10_19();
            }
            let v = match digits_u64(c, start_f, start_f + n + 1) {
                Some(v) => v,
                None => {
                    return None;
                },
            };
            if v % 10 >= 5 {
                Some(v / 10 + 1)
            } else {
                Some(v / 10)
            }
        } else {
            digits_u64(c, start_f, hi)
        }
    }

    /// The compact form: no fractional part where it is zero, else the
    /// fraction without its trailing zeros.
    pub fn to_string(&self) -> (r: String)
        requires
            N <= MAX_N,
        ensures
            r@ == format_compact(self@, N as nat),
    {
        let (uint, frac) = self.split();
        let mut out: Vec<char> = Vec::new();
        push_digits(&mut out, uint);
        if frac > 0 {
            out.push('.');
            let mut f = padded_digits(frac, N);
            pop_zeros(&mut f);
            push_all(&mut out, &f);
        }
        string_of(&out)
    }

    /// The full form: always `N` fractional digits.
    pub fn to_full_string(&self) -> (r: String)
        requires
            N <= MAX_N,
        ensures
            r@ == format_full(self@, N as nat),
    {
        let (uint, frac) = self.split();
        let mut out: Vec<char> = Vec::new();
        push_digits(&mut out, uint);
        out.push('.');
        let f = padded_digits(frac, N);
        push_all(&mut out, &f);
        string_of(&out)
    }

    /// `self + o`, or `None` where it exceeds the largest value.
    pub fn checked_add(self, o: Self) -> (r: Option<Self>)
        ensures
            r is Some <==> self@ + o@ <= u64::MAX,
            r matches Some(d) ==> d@ == self@ + o@,
    {
        if self.raw <= u64::MAX - o.raw {
            Some(Decimal { raw: self.raw + o.raw })
        } else {
            None
        }
    }

    /// `self - o`, or `None` where `o` is the larger.
    pub fn checked_sub(self, o: Self) -> (r: Option<Self>)
        ensures
            r is Some <==> o@ <= self@,
            r matches Some(d) ==> d@ == self@ - o@,
    {
        if o.raw <= self.raw {
            Some(Decimal { raw: self.raw - o.raw })
        } else {
            None
        }
    }
}

impl<const N: u8> Default for Decimal<N> {
    fn default() -> (r: Self)
        ensures
            r@ == 0,
    {
        Decimal { raw: 0 }
    }
}

impl<const N: u8> core::str::FromStr for Decimal<N> {
    type Err = ParseDecimalError;

    /// Parses as `parse` does; no precision beyond `MAX_N` parses.
    fn from_str(s: &str) -> (r: Result<Self, ParseDecimalError>)
        ensures
            N <= MAX_N ==> match parse_units(s@, N as nat) {
                Some(v) => r matches Ok(d) && d@ == v,
                None => r is Err,
            },
            N > MAX_N ==> r is Err,
    {
        if N > MAX_N {
            Err(ParseDecimalError)
        } else {
            Self::parse(s)
        }
    }
}

impl<const N: u8> PartialEq for Decimal<N> {
    fn eq(&self, o: &Self) -> (r: bool) {
        self.raw == o.raw
    }
}

impl<const N: u8> vstd::std_specs::cmp::PartialEqSpecImpl for Decimal<N> {
    open spec fn obeys_eq_spec() -> bool {
        true
    }

    open spec fn eq_spec(&self, o: &Self) -> bool {
        self@ == o@
    }
}

impl<const N: u8> Eq for Decimal<N> {

}

impl<const N: u8> core::ops::Add for Decimal<N> {
    type Output = Self;

    fn add(self, o: Self) -> (r: Self) {
        Decimal { raw: self.raw + o.raw }
    }
}

impl<const N: u8> vstd::std_specs::ops::AddSpecImpl for Decimal<N> {
    open spec fn obeys_add_spec() -> bool {
        true
    }

    open spec fn add_req(self, o: Self) -> bool {
        self@ + o@ <= u64::MAX
    }

    open spec fn add_spec(self, o: Self) -> Self {
        Self::from_units(self@ + o@)
    }
}

impl<const N: u8> core::ops::Sub for Decimal<N> {
    type Output = Self;

    fn sub(self, o: Self) -> (r: Self) {
        Decimal { raw: self.raw - o.raw }
    }
}

impl<const N: u8> vstd::std_specs::ops::SubSpecImpl for Decimal<N> {
    open spec fn obeys_sub_spec() -> bool {
        true
    }

    open spec fn sub_req(self, o: Self) -> bool {
        o@ <= self@
    }

    open spec fn sub_spec(self, o: Self) -> Self {
        Self::from_units((self@ - o@) as nat)
    }
}

proof fn lemma_digit_char(d: nat)
    requires
        d < 10,
    ensures
        digit_char(d) as nat - '0' as nat == d,
        is_digit(digit_char(d)),
{
}

proof fn lemma_digits_of(x: nat)
    ensures
        all_digits(digits_of(x)),
        digits_value(digits_of(x)) == x,
        1 <= digits_of(x).len() <= num_digits(x),
        digits_of(x).len() == num_digits(x),
    decreases x,
{
    if x < 10 {
        lemma_digit_char(x);
        assert(digits_of(x).drop_last() == Seq::<char>::empty());
        assert(digits_of(x).last() == digit_char(x));
        assert(digits_value(Seq::<char>::empty()) == 0);
    } else {
        lemma_digits_of(x / 10);
        lemma_digit_char(x % 10);
        let d = digits_of(x / 10);
        assert(digits_of(x).drop_last() == d);
        assert(digits_of(x).last() == digit_char(x % 10));
        assert(digits_value(digits_of(x)) == (x / 10) * 10 + x % 10);
        assert forall|i: int| 0 <= i < digits_of(x).len() implies is_digit(
            #[trigger] digits_of(x)[i],
        ) by {
            if i < d.len() {
                assert(digits_of(x)[i] == d[i]);
            }
        }
    }
}

proof fn lemma_zeros_value(k: nat)
    ensures
        digits_value(zeros(k)) == 0,
        all_digits(zeros(k)),
    decreases k,
{
    if k > 0 {
        assert(zeros(k).drop_last() == zeros((k - 1) as nat));
        lemma_zeros_value((k - 1) as nat);
    }
}

proof fn lemma_padded(x: nat, w: nat)
    requires
        x < pow10(w),
        w >= 1,
    ensures
        padded(x, w).len() == w,
        all_digits(padded(x, w)),
        digits_value(padded(x, w)) == x,
{
    lemma_digits_of(x);
    lemma_num_digits_upper(x, w);
    let d = digits_of(x);
    if d.len() < w {
        let z = zeros((w - d.len()) as nat);
        lemma_zeros_value((w - d.len()) as nat);
        lemma_digits_value_append(z, d);
        assert(digits_value(z) * pow10(d.len()) == 0);
        assert(padded(x, w) == z + d);
        assert forall|i: int| 0 <= i < padded(x, w).len() implies is_digit(
            #[trigger] padded(x, w)[i],
        ) by {
            if i >= z.len() {
                assert(padded(x, w)[i] == d[i - z.len()]);
            }
        }
    }
}

proof fn lemma_strip_zeros(s: Seq<char>)
    requires
        all_digits(s),
    ensures
        strip_zeros(s).len() <= s.len(),
        all_digits(strip_zeros(s)),
        strip_zeros(strip_zeros(s)) == strip_zeros(s),
        digits_value(strip_zeros(s)) * pow10((s.len() - strip_zeros(s).len()) as nat)
            == digits_value(s),
    decreases s.len(),
{
    if s.len() > 0 && s.last() == '0' {
        let t = s.drop_last();
        assert(all_digits(t)) by {
            assert forall|i: int| 0 <= i < t.len() implies is_digit(#[trigger] t[i]) by {
                assert(t[i] == s[i]);
            }
        }
        lemma_strip_zeros(t);
        assert(strip_zeros(s) == strip_zeros(t));
        assert(digits_value(s) == digits_value(t) * 10);
        let k = (t.len() - strip_zeros(t).len()) as nat;
        assert(pow10(k + 1) == 10 * pow10(k));
        assert(digits_value(strip_zeros(t)) * pow10(k + 1) == digits_value(strip_zeros(t))
            * pow10(k) * 10) by (nonlinear_arith)
            requires
                pow10(k + 1) == 10 * pow10(k),
        ;
        assert((s.len() - strip_zeros(s).len()) as nat == k + 1);
        assert(digits_value(strip_zeros(t)) * pow10(k) * 10 == digits_value(t) * 10);
    } else {
        assert(pow10(0) == 1);
        assert(strip_zeros(s) == s);
        assert(digits_value(s) * 1 == digits_value(s));
    }
}

/// Formatting a decimal in its compact form and parsing the text back gives
/// the same decimal.
pub proof fn lemma_parse_format_round_trip<const N: u8>(d: Decimal<N>)
    requires
        N <= MAX_N,
    ensures
        parse_units(format_compact(d@, N as nat), N as nat) == Some(d@),
{
    let n = N as nat;
    let p = pow10(n);
    lemma_pow10_positive(n);
    let q = d@ / p;
    let r = d@ % p;
    lemma_digits_of(q);
    let u = digits_of(q);
    assert(q * p + r == d@) by (nonlinear_arith)
        requires
            q == d@ / p,
            r == d@ % p,
            p >= 1,
    ;
    assert(q <= d@) by (nonlinear_arith)
        requires
            q == d@ / p,
            p >= 1,
    ;
    if r == 0 {
        assert(strip_zeros(Seq::<char>::empty()) == Seq::<char>::empty());
        assert(digits_value(Seq::<char>::empty()) == 0);
        assert(0 * p == 0);
        assert(frac_units(Seq::<char>::empty(), n) == Some(0nat));
    } else {
        assert(n >= 1) by {
            if n == 0 {
                assert(pow10(0) == 1);
            }
        }
        lemma_padded(r, n);
        let pd = padded(r, n);
        lemma_strip_zeros(pd);
        let f = strip_zeros(pd);
        let s = u + seq!['.'] + f;
        let i = u.len() as int;
        assert(s.take(i) == u);
        assert(s.skip(i + 1) == f);
        assert(point_at(s, i));
        assert(!all_digits(s)) by {
            assert(!is_digit(s[i]));
        }
        assert forall|j: int| point_at(s, j) implies j == i by {
            if j < i {
                assert(s[j] == u[j]);
                assert(is_digit(u[j]));
            } else if j > i {
                assert(s.take(j)[i] == '.');
            }
        }
        assert(frac_units(f, n) == Some(r));
    }
}

/// Adding then subtracting the same decimal gives back the first one.
pub proof fn lemma_add_sub_round_trip<const N: u8>(a: Decimal<N>, b: Decimal<N>)
    requires
        a@ + b@ <= u64::MAX,
    ensures
        a.add_req(b),
        a.add_spec(b).sub_req(b),
        a.add_spec(b).sub_spec(b) == a,
{
}

} // verus!
