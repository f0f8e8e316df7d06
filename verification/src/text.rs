//! Text building blocks: decimal numerals, human-readable byte sizes,
//! thousands separators and size arguments with unit suffixes.

use vstd::prelude::*;

verus! {

/// Appends one character to a string.
///
/// Trusted: `String::push` appends exactly the given character.
#[verifier::external_body]
pub(crate) fn push_char(s: &mut String, c: char)
    ensures
        final(s)@ == old(s)@.push(c),
{
    s.push(c);
}

/// The ASCII character of a decimal digit.
pub open spec fn digit_char(d: int) -> char {
    seq!['0', '1', '2', '3', '4', '5', '6', '7', '8', '9'][d]
}

/// The decimal numeral of `n`, most significant digit first, without leading zeros.
pub open spec fn dec_str(n: nat) -> Seq<char>
    decreases n,
{
    if n < 10 {
        seq![digit_char(n as int)]
    } else {
        dec_str(n / 10).push(digit_char((n % 10) as int))
    }
}

pub(crate) fn digit(d: u64) -> (c: char)
    requires
        d < 10,
    ensures
        c == digit_char(d as int),
{
    match d {
        0 => '0',
        1 => '1',
        2 => '2',
        3 => '3',
        4 => '4',
        5 => '5',
        6 => '6',
        7 => '7',
        8 => '8',
        _ => '9',
    }
}

/// Appends the decimal numeral of `n`.
pub(crate) fn push_decimal(out: &mut String, n: u64)
    ensures
        final(out)@ == old(out)@ + dec_str(n as nat),
    decreases n,
{
    if n >= 10 {
        push_decimal(out, n / 10);
    }
    let c = digit(n % 10);
    push_char(out, c);
    proof {
        if n >= 10 {
            assert(old(out)@ + dec_str(n as nat) =~= old(out)@ + dec_str((n / 10) as nat) + seq![c]);
        }
    }
}

/// Appends the decimal numeral of a 128-bit `n`.
pub(crate) fn push_decimal_wide(out: &mut String, n: u128)
    ensures
        final(out)@ == old(out)@ + dec_str(n as nat),
    decreases n,
{
    if n >= 10 {
        push_decimal_wide(out, n / 10);
    }
    let c = digit((n % 10) as u64);
    push_char(out, c);
    proof {
        if n >= 10 {
            assert(old(out)@ + dec_str(n as nat) =~= old(out)@ + dec_str((n / 10) as nat) + seq![c]);
        }
    }
}

/// The binary unit a byte count is shown in: 0 for bytes, 1 for KiB, ... 5 for PiB.
/// A unit is chosen as long as the count reaches 1024 of it, up to PiB.
pub open spec fn unit_index(bytes: nat) -> nat {
    if bytes < 0x400 {
        0
    } else if bytes < 0x10_0000 {
        1
    } else if bytes < 0x4000_0000 {
        2
    } else if bytes < 0x100_0000_0000 {
        3
    } else if bytes < 0x4_0000_0000_0000 {
        4
    } else {
        5
    }
}

/// The number of bytes in one unit of index `k`: 1024 to the power `k`.
pub open spec fn unit_bytes(k: nat) -> nat
    decreases k,
{
    if k == 0 {
        1
    } else {
        1024 * unit_bytes((k - 1) as nat)
    }
}

/// The symbol of the binary unit of index `k`.
pub open spec fn unit_symbol(k: nat) -> Seq<char> {
    if k == 0 {
        seq!['B']
    } else if k == 1 {
        seq!['K', 'i', 'B']
    } else if k == 2 {
        seq!['M', 'i', 'B']
    } else if k == 3 {
        seq!['G', 'i', 'B']
    } else if k == 4 {
        seq!['T', 'i', 'B']
    } else {
        seq!['P', 'i', 'B']
    }
}

/// `num / den` rounded to the nearest integer, ties to the even neighbour.
pub open spec fn round_half_even(num: nat, den: nat) -> nat
    recommends
        den > 0,
{
    let q = num / den;
    let r = num % den;
    if 2 * r > den || (2 * r == den && q % 2 == 1) {
        q + 1
    } else {
        q
    }
}

/// `a` and `p` doubled together until `a` is at least 2^52 times `b`: the
/// quotient `a / b` brought up into the significand range of a double.
pub open spec fn scale_up(a: nat, b: nat, p: nat) -> (nat, nat)
    decreases (if a < 0x10_0000_0000_0000 * b { 0x10_0000_0000_0000 * b - a } else { 0 }),
{
    if a == 0 || a >= 0x10_0000_0000_0000 * b {
        (a, p)
    } else {
        scale_up(2 * a, b, 2 * p)
    }
}

/// `b` and `q` doubled together until `a` is below 2^53 times `b`: the
/// quotient `a / b` brought down into the significand range of a double.
pub open spec fn scale_down(a: nat, b: nat, q: nat) -> (nat, nat)
    decreases (if a >= 0x20_0000_0000_0000 * b { a - 0x20_0000_0000_0000 * b + 1 } else { 0 }),
{
    if b == 0 || a < 0x20_0000_0000_0000 * b {
        (b, q)
    } else {
        scale_down(a, 2 * b, 2 * q)
    }
}

/// The double nearest to `a / b` (ties to an even significand), as a triple
/// `(m, p, q)` standing for `m * q / p`: `a / b` is scaled by a power of two
/// into [2^52, 2^53), up by `p` or down by `q`, and rounded to an integer `m`.
pub open spec fn nearest_double(a: nat, b: nat) -> (nat, nat, nat) {
    let (a1, p) = scale_up(a, b, 1);
    let (b1, q) = scale_down(a1, b, 1);
    (round_half_even(a1, b1), p, q)
}

/// The value of the double nearest to the whole number `x`: `x` itself below
/// 2^53, else `x` rounded to 53 significant bits, ties to even.
pub open spec fn double_of(x: nat) -> nat {
    let (b, q) = scale_down(x, 1, 1);
    round_half_even(x, b) * b
}

/// Two decimal digits of `x` (which is below 100), with a leading zero.
pub open spec fn two_digits(x: nat) -> Seq<char> {
    seq![digit_char((x / 10) as int), digit_char((x % 10) as int)]
}

/// Human-readable size: whole bytes below 1 KiB (`"512 B"`), otherwise the
/// value in the largest binary unit up to PiB, rounded to two decimals, ties
/// to even (`"1.50 KiB"`). The value is that of the count as a double, which
/// is the count itself below 2^53 and the count rounded to 53 significant
/// bits above.
pub open spec fn format_size_spec(bytes: u64) -> Seq<char> {
    let r = double_of(bytes as nat);
    let k = unit_index(r);
    if k == 0 {
        dec_str(bytes as nat) + seq![' ', 'B']
    } else {
        let h = round_half_even(r * 100, unit_bytes(k));
        dec_str(h / 100) + seq!['.'] + two_digits(h % 100) + seq![' '] + unit_symbol(k)
    }
}

/// `num / den` rounded to the nearest integer, ties to the even neighbour.
pub(crate) fn round_half_even_exec(num: u128, den: u128) -> (r: u128)
    requires
        0 < den <= 0x100_0000_0000_0000_0000_0000_0000_0000,
        num <= 0x100_0000_0000_0000_0000_0000_0000_0000,
    ensures
        r == round_half_even(num as nat, den as nat),
        r * den <= num + den,
        r * den + den >= num,
        r >= num / den,
        num == 0 ==> r == 0,
        den == 1 ==> r == num,
{
    let q = num / den;
    let rem = num % den;
    assert(q * den + rem == num && rem < den) by (nonlinear_arith)
        requires
            q == num / den,
            rem == num % den,
            den > 0,
    ;
    assert(q <= num) by (nonlinear_arith)
        requires
            q * den + rem == num,
            den > 0,
    ;
    let r: u128 = if 2 * rem > den || (2 * rem == den && q % 2 == 1) {
        q + 1
    } else {
        q
    };
    assert(r * den <= num + den && r * den + den >= num) by (nonlinear_arith)
        requires
            q * den + rem == num,
            rem < den,
            r == q || r == q + 1,
    ;
    r
}

/// The value of the double nearest to `x`.
pub(crate) fn double_of_exec(x: u128) -> (r: u128)
    requires
        x <= 0x80_0000_0000_0000_0000_0000_0000_0000,
    ensures
        r == double_of(x as nat),
        r <= 2 * x,
        2 * r >= x,
        x > 0 ==> r >= 1,
        x < 0x20_0000_0000_0000 ==> r == x,
{
    let mut b: u128 = 1;
    while x >= 0x20_0000_0000_0000 * b
        invariant
            b >= 1,
            x <= 0x80_0000_0000_0000_0000_0000_0000_0000,
            b == 1 || 0x10_0000_0000_0000 * b <= x,
            scale_down(x as nat, 1, 1) == scale_down(x as nat, b as nat, b as nat),
        decreases x - b,
    {
        b = 2 * b;
    }
    assert(b <= x || x < 0x20_0000_0000_0000);
    assert(x >= 0x20_0000_0000_0000 ==> 0x10_0000_0000_0000 * b <= x);
    let m = round_half_even_exec(x, b);
    assert(m * b <= 2 * x || x == 0) by (nonlinear_arith)
        requires
            m * b <= x + b,
            b <= x || b == 1,
    ;
    assert(x > 0 ==> m >= 1) by (nonlinear_arith)
        requires
            m >= x / b,
            b <= x || b == 1,
            b >= 1,
    ;
    assert(2 * (m * b) >= x) by (nonlinear_arith)
        requires
            m * b + b >= x,
            b == 1 || 0x10_0000_0000_0000 * b <= x,
            x < 0x20_0000_0000_0000 ==> b == 1,
            x < 0x20_0000_0000_0000 ==> m == x,
    ;
    m * b
}

fn unit_bytes_exec(k: u64) -> (r: u128)
    requires
        1 <= k <= 5,
    ensures
        r == unit_bytes(k as nat),
        1024 <= r <= 0x4_0000_0000_0000,
{
    proof {
        reveal_with_fuel(unit_bytes, 6);
    }
    if k == 1 {
        0x400
    } else if k == 2 {
        0x10_0000
    } else if k == 3 {
        0x4000_0000
    } else if k == 4 {
        0x100_0000_0000
    } else {
        0x4_0000_0000_0000
    }
}

fn push_unit_symbol(out: &mut String, k: u64)
    requires
        1 <= k <= 5,
    ensures
        final(out)@ == old(out)@ + unit_symbol(k as nat),
{
    let first = if k == 1 {
        'K'
    } else if k == 2 {
        'M'
    } else if k == 3 {
        'G'
    } else if k == 4 {
        'T'
    } else {
        'P'
    };
    push_char(out, first);
    push_char(out, 'i');
    push_char(out, 'B');
    assert(final(out)@ =~= old(out)@ + unit_symbol(k as nat));
}

/// The double nearest to `a / b`, as `nearest_double` describes it.
pub(crate) fn nearest_double_exec(a: u128, b: u128) -> (r: (u128, u128, u128))
    requires
        1 <= b <= 0x4_0000_0000_0000_0000,
        a <= 0x80_0000_0000_0000_0000_0000_0000_0000,
    ensures
        (r.0 as nat, r.1 as nat, r.2 as nat) == nearest_double(a as nat, b as nat),
        r.0 <= 0x20_0000_0000_0000,
        1 <= r.1 < 0x20_0000_0000_0000 * b || r.1 == 1,
        1 <= r.2,
        r.2 == 1 || 0x10_0000_0000_0000 * r.2 <= a,
        r.1 == 1 || r.2 == 1,
{
    let mut a1 = a;
    let mut p: u128 = 1;
    while a1 > 0 && a1 < 0x10_0000_0000_0000 * b
        invariant
            1 <= b <= 0x4_0000_0000_0000_0000,
            a <= 0x80_0000_0000_0000_0000_0000_0000_0000,
            scale_up(a as nat, b as nat, 1) == scale_up(a1 as nat, b as nat, p as nat),
            a1 <= a || a1 < 0x20_0000_0000_0000 * b,
            1 <= p,
            p == 1 || (p <= a1 && a1 < 0x20_0000_0000_0000 * b),
            p == 1 || a1 > 0,
            p > 1 || a1 == a,
            p <= a1 || p == 1,
        decreases (if a1 < 0x10_0000_0000_0000 * b { 0x10_0000_0000_0000 * b - a1 } else { 0 }),
    {
        a1 = 2 * a1;
        p = 2 * p;
    }
    let mut b1 = b;
    let mut q: u128 = 1;
    while a1 >= 0x20_0000_0000_0000 * b1
        invariant
            1 <= b <= 0x4_0000_0000_0000_0000,
            a <= 0x80_0000_0000_0000_0000_0000_0000_0000,
            a1 <= a || a1 < 0x20_0000_0000_0000 * b,
            scale_down(a1 as nat, b as nat, 1) == scale_down(a1 as nat, b1 as nat, q as nat),
            1 <= q <= b1,
            p == 1 || (p <= a1 && a1 < 0x20_0000_0000_0000 * b),
            p > 1 || a1 == a,
            1 <= p,
            b <= b1,
            q == 1 || (0x10_0000_0000_0000 * b1 <= a1 && p == 1),
            q > 1 || b1 == b,
        decreases a1 - b1,
    {
        b1 = 2 * b1;
        q = 2 * q;
    }
    let m = round_half_even_exec(a1, b1);
    assert(m <= 0x20_0000_0000_0000) by (nonlinear_arith)
        requires
            m * b1 <= a1 + b1,
            a1 < 0x20_0000_0000_0000 * b1,
            b1 >= 1,
    ;
    (m, p, q)
}

/// Formats a byte count as a human-readable size with binary units.
pub fn format_size(bytes: u64) -> (s: String)
    ensures
        s@ == format_size_spec(bytes),
{
    let mut out = String::new();
    let r = double_of_exec(bytes as u128);
    let k: u64 = if r < 0x400 {
        0
    } else if r < 0x10_0000 {
        1
    } else if r < 0x4000_0000 {
        2
    } else if r < 0x100_0000_0000 {
        3
    } else if r < 0x4_0000_0000_0000 {
        4
    } else {
        5
    };
    assert(k == unit_index(r as nat));
    if k == 0 {
        assert(r == bytes);
        push_decimal(&mut out, bytes);
        push_char(&mut out, ' ');
        push_char(&mut out, 'B');
        assert(out@ =~= format_size_spec(bytes));
        return out;
    }
    let den = unit_bytes_exec(k);
    let h = round_half_even_exec(r * 100, den);
    assert(h <= 0x8000_0000_0000_0000) by (nonlinear_arith)
        requires
            h * den <= r * 100 + den,
            den >= 1024,
            r <= 0x2_0000_0000_0000_0000,
    ;
    assert(h == round_half_even(double_of(bytes as nat) * 100, unit_bytes(k as nat)));
    let whole = (h / 100) as u64;
    let frac = (h % 100) as u64;
    push_decimal(&mut out, whole);
    push_char(&mut out, '.');
    let d1 = digit(frac / 10);
    let d2 = digit(frac % 10);
    push_char(&mut out, d1);
    push_char(&mut out, d2);
    push_char(&mut out, ' ');
    push_unit_symbol(&mut out, k);
    assert(out@ =~= format_size_spec(bytes));
    out
}

/// Three decimal digits of `x` (which is below 1000), with leading zeros.
pub open spec fn three_digits(x: nat) -> Seq<char> {
    seq![
        digit_char((x / 100) as int),
        digit_char((x / 10 % 10) as int),
        digit_char((x % 10) as int),
    ]
}

/// The decimal numeral of `n` with a comma between each group of three
/// digits, counted from the right (`1234567` gives `"1,234,567"`).
pub open spec fn with_commas(n: nat) -> Seq<char>
    decreases n,
{
    if n < 1000 {
        dec_str(n)
    } else {
        with_commas(n / 1000) + seq![','] + three_digits(n % 1000)
    }
}

/// Appends `n` with thousands separators.
fn push_with_commas(out: &mut String, n: u64)
    ensures
        final(out)@ == old(out)@ + with_commas(n as nat),
    decreases n,
{
    if n < 1000 {
        push_decimal(out, n);
    } else {
        push_with_commas(out, n / 1000);
        push_char(out, ',');
        let g = n % 1000;
        let a = digit(g / 100);
        let b = digit(g / 10 % 10);
        let c = digit(g % 10);
        push_char(out, a);
        push_char(out, b);
        push_char(out, c);
        assert(final(out)@ =~= old(out)@ + with_commas(n as nat));
    }
}

/// Formats a count with commas between groups of three digits.
pub fn format_with_commas(n: u64) -> (s: String)
    ensures
        s@ == with_commas(n as nat),
{
    let mut out = String::new();
    push_with_commas(&mut out, n);
    assert(out@ =~= with_commas(n as nat));
    out
}

/// The characters of `s` other than commas, in order.
pub open spec fn without_commas(s: Seq<char>) -> Seq<char>
    decreases s.len(),
{
    if s.len() == 0 {
        s
    } else if s.last() == ',' {
        without_commas(s.drop_last())
    } else {
        without_commas(s.drop_last()).push(s.last())
    }
}

proof fn lemma_without_commas_concat(a: Seq<char>, b: Seq<char>)
    ensures
        without_commas(a + b) == without_commas(a) + without_commas(b),
    decreases b.len(),
{
    if b.len() == 0 {
        assert(a + b =~= a);
        assert(without_commas(a) + without_commas(b) =~= without_commas(a));
    } else {
        assert((a + b).drop_last() =~= a + b.drop_last());
        lemma_without_commas_concat(a, b.drop_last());
        if b.last() != ',' {
            assert(without_commas(a) + without_commas(b) =~= (without_commas(a) + without_commas(b.drop_last())).push(b.last()));
        }
    }
}

proof fn lemma_digit_not_comma(d: int)
    requires
        0 <= d < 10,
    ensures
        digit_char(d) != ',',
{
    let s = seq!['0', '1', '2', '3', '4', '5', '6', '7', '8', '9'];
    assert(s[d] == '0' || s[d] == '1' || s[d] == '2' || s[d] == '3' || s[d] == '4' || s[d] == '5'
        || s[d] == '6' || s[d] == '7' || s[d] == '8' || s[d] == '9');
}

proof fn lemma_dec_str_no_commas(n: nat)
    ensures
        without_commas(dec_str(n)) == dec_str(n),
    decreases n,
{
    let s = dec_str(n);
    if n >= 10 {
        lemma_dec_str_no_commas(n / 10);
        lemma_digit_not_comma((n % 10) as int);
        assert(s.drop_last() =~= dec_str(n / 10));
        assert(s.last() == digit_char((n % 10) as int));
        assert(without_commas(s) == without_commas(s.drop_last()).push(s.last()));
        assert(without_commas(s) =~= s);
    } else {
        lemma_digit_not_comma(n as int);
        assert(s.drop_last() =~= Seq::<char>::empty());
        assert(without_commas(s.drop_last()) =~= Seq::<char>::empty());
        assert(without_commas(s) == without_commas(s.drop_last()).push(s.last()));
        assert(without_commas(s) =~= s);
    }
}

proof fn lemma_dec_str_split(a: nat, b: nat)
    requires
        a >= 1,
        b < 1000,
    ensures
        dec_str(a * 1000 + b) == dec_str(a) + three_digits(b),
{
    let n = a * 1000 + b;
    assert(n / 10 == a * 100 + b / 10 && n % 10 == b % 10) by (nonlinear_arith)
        requires n == a * 1000 + b, b < 1000;
    let m = n / 10;
    assert(m / 10 == a * 10 + b / 100 && m % 10 == b / 10 % 10) by (nonlinear_arith)
        requires m == a * 100 + b / 10, b < 1000;
    let l = m / 10;
    assert(l / 10 == a && l % 10 == b / 100) by (nonlinear_arith)
        requires l == a * 10 + b / 100, b < 1000;
    assert(l >= 10) by (nonlinear_arith)
        requires l == a * 10 + b / 100, a >= 1;
    assert(dec_str(l) == dec_str(a).push(digit_char((b / 100) as int)));
    assert(dec_str(m) == dec_str(l).push(digit_char((b / 10 % 10) as int)));
    assert(dec_str(n) == dec_str(m).push(digit_char((b % 10) as int)));
    assert(dec_str(n) =~= dec_str(a) + three_digits(b));
}

/// Dropping the separators from a number written with commas gives back its
/// plain decimal numeral: the commas only group the digits.
pub proof fn lemma_commas_are_separators(n: nat)
    ensures
        without_commas(with_commas(n)) == dec_str(n),
    decreases n,
{
    if n < 1000 {
        lemma_dec_str_no_commas(n);
    } else {
        let a = n / 1000;
        let b = n % 1000;
        lemma_commas_are_separators(a);
        lemma_dec_str_split(a, b);
        lemma_without_commas_concat(with_commas(a) + seq![','], three_digits(b));
        lemma_without_commas_concat(with_commas(a), seq![',']);
        assert(seq![','].drop_last() =~= Seq::<char>::empty());
        let t = three_digits(b);
        lemma_digit_not_comma((b / 100) as int);
        lemma_digit_not_comma((b / 10 % 10) as int);
        lemma_digit_not_comma((b % 10) as int);
        let t1 = t.drop_last();
        let t2 = t1.drop_last();
        assert(t2.drop_last() =~= Seq::<char>::empty());
        assert(without_commas(t2.drop_last()) =~= Seq::<char>::empty());
        assert(without_commas(t2) == without_commas(t2.drop_last()).push(t2.last()));
        assert(without_commas(t2) =~= t2);
        assert(without_commas(t1) =~= t1);
        assert(without_commas(t) =~= t);
        assert(without_commas(with_commas(n)) =~= dec_str(n));
    }
}

/// The characters of a string slice, in order.
pub fn chars_of(s: &str) -> (v: Vec<char>)
    ensures
        v@ == s@,
{
    let mut v: Vec<char> = Vec::new();
    for c in it: s.chars()
        invariant
            v@ == it.seq().take(it.index() as int),
            it.seq() == s@,
    {
        v.push(c);
    }
    v
}

/// Unicode white space, as trimmed by `str::trim`: the characters with the
/// `White_Space` property.
pub open spec fn is_space(c: char) -> bool {
    let x = c as u32;
    x == 0x20 || (0x09 <= x <= 0x0d) || x == 0x85 || x == 0xa0 || x == 0x1680 || (0x2000 <= x
        <= 0x200a) || x == 0x2028 || x == 0x2029 || x == 0x202f || x == 0x205f || x == 0x3000
}

fn is_space_exec(c: char) -> (b: bool)
    ensures
        b == is_space(c),
{
    let x = c as u32;
    x == 0x20 || (0x09 <= x && x <= 0x0d) || x == 0x85 || x == 0xa0 || x == 0x1680 || (0x2000 <= x
        && x <= 0x200a) || x == 0x2028 || x == 0x2029 || x == 0x202f || x == 0x205f || x == 0x3000
}

/// `s` without its leading white space.
pub open spec fn trim_start(s: Seq<char>) -> Seq<char>
    decreases s.len(),
{
    if s.len() > 0 && is_space(s[0]) {
        trim_start(s.drop_first())
    } else {
        s
    }
}

/// `s` without its trailing white space.
pub open spec fn trim_end(s: Seq<char>) -> Seq<char>
    decreases s.len(),
{
    if s.len() > 0 && is_space(s.last()) {
        trim_end(s.drop_last())
    } else {
        s
    }
}

/// `s` without leading and trailing white space.
pub open spec fn trim(s: Seq<char>) -> Seq<char> {
    trim_end(trim_start(s))
}

pub open spec fn is_digit(c: char) -> bool {
    48 <= (c as u32) <= 57
}

/// The value of a string of decimal digits.
pub open spec fn digits_value(s: Seq<char>) -> nat
    decreases s.len(),
{
    if s.len() == 0 {
        0
    } else {
        digits_value(s.drop_last()) * 10 + ((s.last() as u32) - 48) as nat
    }
}

/// `s` without one leading `+` sign, if it has one.
pub open spec fn without_plus(s: Seq<char>) -> Seq<char> {
    if s.len() > 0 && s[0] == '+' {
        s.drop_first()
    } else {
        s
    }
}

pub open spec fn all_digits(d: Seq<char>) -> bool {
    forall|i: int| 0 <= i < d.len() ==> is_digit(#[trigger] d[i])
}

/// What `u64::from_str` accepts: an optional `+` followed by at least one
/// ASCII digit, with a value that fits in 64 bits.
pub open spec fn parse_u64_spec(s: Seq<char>) -> Option<u64> {
    let d = without_plus(s);
    if d.len() > 0 && all_digits(d) && digits_value(d) <= u64::MAX {
        Some(digits_value(d) as u64)
    } else {
        None
    }
}

/// The factor of a size suffix: `K`, `M` or `G`, in either case.
pub open spec fn suffix_factor(c: char) -> Option<u64> {
    if c == 'K' || c == 'k' {
        Some(1024)
    } else if c == 'M' || c == 'm' {
        Some(0x10_0000)
    } else if c == 'G' || c == 'g' {
        Some(0x4000_0000)
    } else {
        None
    }
}

/// A size argument: after trimming white space, a decimal count with an
/// optional `K`, `M` or `G` suffix (case-insensitive) for KiB, MiB or GiB.
/// The product wraps around on overflow.
pub open spec fn parse_size_spec(s: Seq<char>) -> Option<u64> {
    let t = trim(s);
    if t.len() > 0 && suffix_factor(t.last()) is Some {
        match parse_u64_spec(t.drop_last()) {
            Some(n) => Some(n.wrapping_mul(suffix_factor(t.last())->0)),
            None => None,
        }
    } else {
        parse_u64_spec(t)
    }
}

proof fn lemma_digits_value_take(s: Seq<char>, i: int)
    requires
        0 <= i < s.len(),
    ensures
        digits_value(s.take(i + 1)) == digits_value(s.take(i)) * 10 + ((s[i] as u32) - 48) as nat,
{
    assert(s.take(i + 1).drop_last() =~= s.take(i));
}

/// Parses `v[from..to]` the way `u64::from_str` does.
fn parse_u64_range(v: &Vec<char>, from: usize, to: usize) -> (r: Option<u64>)
    requires
        from <= to <= v.len(),
    ensures
        r == parse_u64_spec(v@.subrange(from as int, to as int)),
{
    let ghost s = v@.subrange(from as int, to as int);
    let mut start = from;
    if from < to && v[from] == '+' {
        start = from + 1;
    }
    let ghost d = v@.subrange(start as int, to as int);
    assert(d =~= without_plus(s));
    if start == to {
        return None;
    }
    let mut value: u64 = 0;
    let mut i = start;
    while i < to
        invariant
            from <= start <= i <= to <= v.len(),
            d == v@.subrange(start as int, to as int),
            s == v@.subrange(from as int, to as int),
            d == without_plus(s),
            d.len() > 0,
            forall|j: int| 0 <= j < i - start ==> is_digit(#[trigger] d[j]),
            value == digits_value(d.take(i - start)),
        decreases to - i,
    {
        let c = v[i];
        let x = c as u32;
        if x < 48 || x > 57 {
            assert(!is_digit(d[i - start]));

            return None;
        }
        proof {
            lemma_digits_value_take(d, i - start);
        }
        let dv = (x - 48) as u64;
        if value > (u64::MAX - dv) / 10 {
            proof {
                assert(digits_value(d.take(i - start + 1)) > u64::MAX) by (nonlinear_arith)
                    requires
                        value > (u64::MAX - dv) / 10,
                        dv <= 9,
                        digits_value(d.take(i - start + 1)) == value * 10 + dv,
                ;
                if all_digits(d) {
                    lemma_digits_value_prefix(d, i - start + 1);
                }
            }
            return None;
        }
        value = value * 10 + dv;
        i = i + 1;
    }
    assert(d.take(d.len() as int) =~= d);
    Some(value)
}

proof fn lemma_digits_value_prefix(s: Seq<char>, k: int)
    requires
        0 <= k <= s.len(),
        forall|j: int| 0 <= j < s.len() ==> is_digit(#[trigger] s[j]),
    ensures
        digits_value(s.take(k)) <= digits_value(s),
    decreases s.len() - k,
{
    if k < s.len() {
        lemma_digits_value_take(s, k);
        lemma_digits_value_prefix(s, k + 1);
    } else {
        assert(s.take(k) =~= s);
    }
}

proof fn lemma_trim_start_skip(s: Seq<char>, i: int)
    requires
        0 <= i <= s.len(),
        forall|j: int| 0 <= j < i ==> is_space(#[trigger] s[j]),
    ensures
        trim_start(s) == trim_start(s.subrange(i, s.len() as int)),
    decreases i,
{
    if i > 0 {
        lemma_trim_start_skip(s.drop_first(), i - 1);
        assert(s.drop_first().subrange(i - 1, s.len() - 1) =~= s.subrange(i, s.len() as int));
    } else {
        assert(s.subrange(0, s.len() as int) =~= s);
    }
}

proof fn lemma_trim_end_cut(s: Seq<char>, k: int)
    requires
        0 <= k <= s.len(),
        forall|j: int| k <= j < s.len() ==> is_space(#[trigger] s[j]),
    ensures
        trim_end(s) == trim_end(s.subrange(0, k)),
    decreases s.len() - k,
{
    if k < s.len() {
        lemma_trim_end_cut(s.drop_last(), k);
        assert(s.drop_last().subrange(0, k) =~= s.subrange(0, k));
    } else {
        assert(s.subrange(0, k) =~= s);
    }
}

/// Parses the characters `v` the way `u64::from_str` does.
pub fn parse_u64_of(v: &Vec<char>) -> (r: Option<u64>)
    ensures
        r == parse_u64_spec(v@),
{
    let r = parse_u64_range(v, 0, v.len());
    assert(v@.subrange(0, v@.len() as int) =~= v@);
    r
}

/// Parses a size argument such as `"100"`, `"50M"` or `" 1g "`.
pub fn parse_size(s: &str) -> (r: Option<u64>)
    ensures
        r == parse_size_spec(s@),
{
    let v = chars_of(s);
    let n = v.len();
    let mut a: usize = 0;
    while a < n && is_space_exec(v[a])
        invariant
            a <= n == v.len(),
            forall|j: int| 0 <= j < a ==> is_space(#[trigger] v@[j]),
        decreases n - a,
    {
        a = a + 1;
    }
    let mut b: usize = n;
    while b > a && is_space_exec(v[b - 1])
        invariant
            a <= b <= n == v.len(),
            forall|j: int| b <= j < n ==> is_space(#[trigger] v@[j]),
        decreases b - a,
    {
        b = b - 1;
    }
    let ghost t = v@.subrange(a as int, b as int);
    proof {
        lemma_trim_start_skip(v@, a as int);
        let rest = v@.subrange(a as int, n as int);
        if a < n {
            assert(!is_space(rest[0]));
        }
        assert(trim_start(rest) == rest);
        lemma_trim_end_cut(rest, b - a);
        assert(rest.subrange(0, b - a) =~= t);
        if b > a {
            assert(!is_space(t.last()));
        }
        assert(trim_end(t) == t);
        assert(trim(s@) == t);
    }
    if b > a {
        let last = v[b - 1];
        let factor: u64 = if last == 'K' || last == 'k' {
            1024
        } else if last == 'M' || last == 'm' {
            1024 * 1024
        } else if last == 'G' || last == 'g' {
            1024 * 1024 * 1024
        } else {
            0
        };
        if factor != 0 {
            assert(v@.subrange(a as int, b - 1) =~= t.drop_last());
            return match parse_u64_range(&v, a, b - 1) {
                Some(x) => Some(x.wrapping_mul(factor)),
                None => None,
            };
        }
    }
    parse_u64_range(&v, a, b)
}

proof fn lemma_digit_code(d: int)
    requires
        0 <= d < 10,
    ensures
        digit_char(d) as u32 == 48 + d,
{
    let s = seq!['0', '1', '2', '3', '4', '5', '6', '7', '8', '9'];
    if d == 0 {
        assert(s[0] == '0');
    } else if d == 1 {
        assert(s[1] == '1');
    } else if d == 2 {
        assert(s[2] == '2');
    } else if d == 3 {
        assert(s[3] == '3');
    } else if d == 4 {
        assert(s[4] == '4');
    } else if d == 5 {
        assert(s[5] == '5');
    } else if d == 6 {
        assert(s[6] == '6');
    } else if d == 7 {
        assert(s[7] == '7');
    } else if d == 8 {
        assert(s[8] == '8');
    } else {
        assert(s[9] == '9');
    }
}

proof fn lemma_dec_str_digits(n: nat)
    ensures
        dec_str(n).len() > 0,
        all_digits(dec_str(n)),
        digits_value(dec_str(n)) == n,
        is_digit(dec_str(n)[0]),
    decreases n,
{
    let t = dec_str(n);
    lemma_digit_code((n % 10) as int);
    if n < 10 {
        assert(t.drop_last() =~= Seq::<char>::empty());
        assert(t[0] == digit_char(n as int));
        assert(t.last() == digit_char(n as int));
        assert(digits_value(t.drop_last()) == 0);
        assert(((t.last() as u32) - 48) as nat == n);
    } else {
        lemma_dec_str_digits(n / 10);
        let u = dec_str(n / 10);
        assert(t == u.push(digit_char((n % 10) as int)));
        assert(t.drop_last() =~= u);
        assert forall|i: int| 0 <= i < t.len() implies is_digit(#[trigger] t[i]) by {
            if i < u.len() {
                assert(t[i] == u[i]);
            }
        }
        assert(t[0] == u[0]);
        assert(t.last() == digit_char((n % 10) as int));
        assert(((t.last() as u32) - 48) as nat == n % 10);
        assert(digits_value(t) == digits_value(u) * 10 + n % 10);
    }
}

proof fn lemma_trim_unchanged(t: Seq<char>)
    requires
        t.len() > 0,
        !is_space(t[0]),
        !is_space(t.last()),
    ensures
        trim(t) == t,
{
    assert(trim_start(t) == t);
}

/// A size argument is read as its number times the unit its suffix names,
/// in either case: a number alone is that many bytes, and a number followed
/// by `K`, `M` or `G` (or `k`, `m`, `g`) is that many KiB, MiB or GiB (the
/// product wrapping around on overflow).
pub proof fn lemma_size_suffixes(n: u64)
    ensures
        parse_size_spec(dec_str(n as nat)) == Some(n),
        parse_size_spec(dec_str(n as nat) + seq!['K']) == Some(n.wrapping_mul(1024)),
        parse_size_spec(dec_str(n as nat) + seq!['k']) == Some(n.wrapping_mul(1024)),
        parse_size_spec(dec_str(n as nat) + seq!['M']) == Some(n.wrapping_mul(1048576)),
        parse_size_spec(dec_str(n as nat) + seq!['m']) == Some(n.wrapping_mul(1048576)),
        parse_size_spec(dec_str(n as nat) + seq!['G']) == Some(n.wrapping_mul(1073741824)),
        parse_size_spec(dec_str(n as nat) + seq!['g']) == Some(n.wrapping_mul(1073741824)),
{
    let d = dec_str(n as nat);
    lemma_dec_str_digits(n as nat);
    assert(is_digit(d.last())) by {
        assert(d.last() == d[d.len() - 1]);
    }
    lemma_trim_unchanged(d);
    assert(without_plus(d) == d);
    assert(parse_u64_spec(d) == Some(n));
    assert(suffix_factor(d.last()) is None);
    assert(parse_size_spec(d) == Some(n));
    let cs = seq!['K', 'k', 'M', 'm', 'G', 'g'];
    assert forall|i: int| 0 <= i < 6 implies {
        let t = #[trigger] (d + seq![cs[i]]);
        &&& trim(t) == t
        &&& t.drop_last() == d
        &&& parse_size_spec(t) == Some(n.wrapping_mul(suffix_factor(cs[i])->0))
    } by {
        let t = d + seq![cs[i]];
        assert(t[0] == d[0]);
        assert(t.last() == cs[i]);
        lemma_trim_unchanged(t);
        assert(t.drop_last() =~= d);
    }
    assert(cs[0] == 'K' && cs[1] == 'k' && cs[2] == 'M' && cs[3] == 'm' && cs[4] == 'G' && cs[5] == 'g');
}

/// The upper-case form of a size suffix letter; any other character as it is.
pub open spec fn upper_suffix(c: char) -> char {
    if c == 'k' {
        'K'
    } else if c == 'm' {
        'M'
    } else if c == 'g' {
        'G'
    } else {
        c
    }
}

proof fn lemma_trim_start_update_last(s: Seq<char>, c: char)
    requires
        s.len() > 0,
        !is_space(s.last()),
        !is_space(c),
    ensures
        trim_start(s.update(s.len() - 1, c)) == trim_start(s).update(trim_start(s).len() - 1, c),
        trim_start(s).len() > 0,
        trim_start(s).last() == s.last(),
    decreases s.len(),
{
    let u = s.update(s.len() - 1, c);
    if s.len() > 1 && is_space(s[0]) {
        assert(u[0] == s[0]);
        assert(u.drop_first() =~= s.drop_first().update(s.len() - 2, c));
        assert(s.drop_first().last() == s.last());
        lemma_trim_start_update_last(s.drop_first(), c);
    } else {
        if s.len() == 1 {
            assert(s[0] == s.last());
        }
        assert(trim_start(s) == s);
        assert(!is_space(u[0]) || s.len() > 1);
        if s.len() > 1 {
            assert(u[0] == s[0]);
        } else {
            assert(u[0] == c);
        }
        assert(trim_start(u) == u);
    }
}

/// The suffix of a size argument is read in either case: upper-casing its
/// last character never changes what it reads as.
pub proof fn lemma_suffix_case_insensitive(s: Seq<char>)
    requires
        s.len() > 0,
    ensures
        parse_size_spec(s) == parse_size_spec(s.update(s.len() - 1, upper_suffix(s.last()))),
{
    let c = upper_suffix(s.last());
    let u = s.update(s.len() - 1, c);
    if c == s.last() {
        assert(u =~= s);
    } else {
        assert(!is_space(s.last()) && !is_space(c));
        lemma_trim_start_update_last(s, c);
        let a = trim_start(s);
        let b = trim_start(u);
        assert(b == a.update(a.len() - 1, c));
        assert(trim_end(a) == a);
        assert(b.last() == c);
        assert(trim_end(b) == b);
        assert(trim(s) == a);
        assert(trim(u) == b);
        assert(b.drop_last() =~= a.drop_last());
        assert(suffix_factor(a.last()) == suffix_factor(c));
    }
}

} // verus!
