//! Numbers as text: the decimal and hexadecimal digits that keys are made of.

use vstd::prelude::*;

verus! {

/// `String::push` appends one character to the end of the string.
pub assume_specification[ String::push ](s: &mut String, ch: char)
    ensures
        final(s)@ == old(s)@.push(ch),
;

/// The character of one hexadecimal digit, in lower case.
pub open spec fn hex_digit(d: int) -> char {
    if d == 0 {
        '0'
    } else if d == 1 {
        '1'
    } else if d == 2 {
        '2'
    } else if d == 3 {
        '3'
    } else if d == 4 {
        '4'
    } else if d == 5 {
        '5'
    } else if d == 6 {
        '6'
    } else if d == 7 {
        '7'
    } else if d == 8 {
        '8'
    } else if d == 9 {
        '9'
    } else if d == 10 {
        'a'
    } else if d == 11 {
        'b'
    } else if d == 12 {
        'c'
    } else if d == 13 {
        'd'
    } else if d == 14 {
        'e'
    } else {
        'f'
    }
}

/// The character of the hexadecimal digit `d`.
pub fn hex_digit_char(d: u8) -> (c: char)
    requires
        d < 16,
    ensures
        c == hex_digit(d as int),
{
    if d == 0 {
        '0'
    } else if d == 1 {
        '1'
    } else if d == 2 {
        '2'
    } else if d == 3 {
        '3'
    } else if d == 4 {
        '4'
    } else if d == 5 {
        '5'
    } else if d == 6 {
        '6'
    } else if d == 7 {
        '7'
    } else if d == 8 {
        '8'
    } else if d == 9 {
        '9'
    } else if d == 10 {
        'a'
    } else if d == 11 {
        'b'
    } else if d == 12 {
        'c'
    } else if d == 13 {
        'd'
    } else if d == 14 {
        'e'
    } else {
        'f'
    }
}

/// The decimal digits of `n`, the most significant first, without leading
/// zeros: "0" for 0.
pub open spec fn decimal(n: nat) -> Seq<char>
    decreases n,
{
    if n < 10 {
        seq![hex_digit(n as int)]
    } else {
        decimal(n / 10).push(hex_digit((n % 10) as int))
    }
}

/// `digits` with zeros in front, up to `width` characters.
pub open spec fn zero_padded(digits: Seq<char>, width: nat) -> Seq<char> {
    if digits.len() >= width {
        digits
    } else {
        Seq::new((width - digits.len()) as nat, |i: int| '0') + digits
    }
}

/// The digit of `x` at position `i`, counted from the most significant of
/// its 32 hexadecimal digits.
pub open spec fn nibble(x: u128, i: int) -> int {
    ((x >> ((4 * (31 - i)) as u128)) & 0xf) as int
}

/// The 32 hexadecimal digits of `x`, the most significant first.
pub open spec fn hex_u128(x: u128) -> Seq<char> {
    Seq::new(32, |i: int| hex_digit(nibble(x, i)))
}

/// Appends the decimal digits of `n`.
pub fn push_digits(s: &mut String, n: u64)
    ensures
        final(s)@ == old(s)@ + decimal(n as nat),
    decreases n,
{
    if n >= 10 {
        push_digits(s, n / 10);
    }
    let ghost before = s@;
    s.push(hex_digit_char((n % 10) as u8));
    proof {
        if n >= 10 {
            assert(before.push(hex_digit((n % 10) as int)) =~= old(s)@ + decimal((n / 10) as nat).push(
                hex_digit((n % 10) as int),
            ));
        } else {
            assert(before.push(hex_digit(n as int)) =~= old(s)@ + seq![hex_digit(n as int)]);
        }
    }
}

/// The number of decimal digits of `n`.
pub fn digit_count(n: u64) -> (count: usize)
    ensures
        count == decimal(n as nat).len(),
        1 <= count <= 20,
    decreases n,
{
    if n >= 10 {
        let shorter = digit_count(n / 10);
        proof {
            lemma_decimal_len(n as nat);
        }
        shorter + 1
    } else {
        1
    }
}

/// A number of 64 bits has no more than 20 decimal digits.
proof fn lemma_decimal_len(n: nat)
    requires
        n <= u64::MAX,
    ensures
        decimal(n).len() <= 20,
{
    reveal_with_fuel(decimal, 21);
    assert(n / 10 / 10 / 10 / 10 / 10 / 10 / 10 / 10 / 10 / 10 / 10 / 10 / 10 / 10 / 10 / 10 / 10
        / 10 / 10 / 10 == 0);
}

/// Appends the decimal digits of `n`, with zeros in front up to `width`
/// characters.
pub fn push_decimal(s: &mut String, n: u64, width: usize)
    ensures
        final(s)@ == old(s)@ + zero_padded(decimal(n as nat), width as nat),
{
    let count = digit_count(n);
    let mut pad: usize = count;
    while pad < width
        invariant
            count <= pad,
            pad <= width || pad == count,
            s@ == old(s)@ + Seq::new((pad - count) as nat, |i: int| '0'),
        decreases width - pad,
    {
        s.push('0');
        pad += 1;
        assert(s@ =~= old(s)@ + Seq::new((pad - count) as nat, |i: int| '0'));
    }
    let ghost padded = s@;
    push_digits(s, n);
    proof {
        let digits = decimal(n as nat);
        if count >= width {
            assert(padded =~= old(s)@);
        } else {
            assert(padded + digits =~= old(s)@ + (Seq::new((width - count) as nat, |i: int| '0')
                + digits));
        }
    }
}


/// Appends the 32 hexadecimal digits of `x`.
pub fn push_hex_u128(s: &mut String, x: u128)
    ensures
        final(s)@ == old(s)@ + hex_u128(x),
{
    let mut i: u128 = 0;
    while i < 32
        invariant
            i <= 32,
            s@ == old(s)@ + hex_u128(x).take(i as int),
        decreases 32 - i,
    {
        let shift: u128 = 4 * (31 - i);
        let digit = (x >> shift) & 0xf;
        assert(digit < 16) by (bit_vector)
            requires
                digit == (x >> shift) & 0xf,
        ;
        s.push(hex_digit_char(digit as u8));
        i += 1;
        proof {
            assert(hex_u128(x).take(i as int) =~= hex_u128(x).take(i - 1).push(
                hex_digit(nibble(x, i - 1)),
            ));
            assert(s@ =~= old(s)@ + hex_u128(x).take(i as int));
        }
    }
    assert(hex_u128(x).take(32) =~= hex_u128(x));
}


/// Whether `c` is one of the ten decimal digits.
pub open spec fn is_decimal_digit(c: char) -> bool {
    exists|d: int| 0 <= d < 10 && c == #[trigger] hex_digit(d)
}

/// The decimal digits of a number are decimal digits, all of them.
pub proof fn lemma_decimal_is_digits(n: nat)
    ensures
        forall|i: int| 0 <= i < decimal(n).len() ==> is_decimal_digit(#[trigger] decimal(n)[i]),
    decreases n,
{
    if n < 10 {
        assert(is_decimal_digit(hex_digit(n as int)));
        assert forall|i: int| 0 <= i < decimal(n).len() implies is_decimal_digit(
            #[trigger] decimal(n)[i],
        ) by {
            assert(decimal(n)[i] == hex_digit(n as int));
        }
    } else {
        lemma_decimal_is_digits(n / 10);
        assert(is_decimal_digit(hex_digit((n % 10) as int)));
        assert forall|i: int| 0 <= i < decimal(n).len() implies is_decimal_digit(
            #[trigger] decimal(n)[i],
        ) by {
            if i < decimal(n / 10).len() {
                assert(decimal(n)[i] == decimal(n / 10)[i]);
            } else {
                assert(decimal(n)[i] == hex_digit((n % 10) as int));
            }
        }
    }
}

/// No two numbers have the same decimal digits.
pub proof fn lemma_decimal_injective(a: nat, b: nat)
    requires
        decimal(a) == decimal(b),
    ensures
        a == b,
    decreases a,
{
    if a < 10 && b < 10 {
        assert(decimal(a)[0] == hex_digit(a as int));
        assert(decimal(b)[0] == hex_digit(b as int));
    } else if a < 10 {
        assert(decimal(b).len() == decimal(b / 10).len() + 1);
        assert(decimal(b / 10).len() >= 1) by {
            lemma_decimal_not_empty(b / 10);
        }
    } else if b < 10 {
        assert(decimal(a).len() == decimal(a / 10).len() + 1);
        assert(decimal(a / 10).len() >= 1) by {
            lemma_decimal_not_empty(a / 10);
        }
    } else {
        let da = decimal(a / 10);
        let db = decimal(b / 10);
        assert(da =~= decimal(a).drop_last());
        assert(db =~= decimal(b).drop_last());
        lemma_decimal_injective(a / 10, b / 10);
        assert(decimal(a).last() == hex_digit((a % 10) as int));
        assert(decimal(b).last() == hex_digit((b % 10) as int));
        assert(a % 10 == b % 10);
    }
}

proof fn lemma_decimal_not_empty(n: nat)
    ensures
        decimal(n).len() >= 1,
    decreases n,
{
    if n >= 10 {
        lemma_decimal_not_empty(n / 10);
    }
}

/// Two texts that are equal, and each made of digits and then of a
/// remainder that begins with a character that is no digit, have the same
/// digits and the same remainder.
pub proof fn lemma_digits_end_where_they_end(
    digits_a: Seq<char>,
    rest_a: Seq<char>,
    digits_b: Seq<char>,
    rest_b: Seq<char>,
)
    requires
        digits_a + rest_a == digits_b + rest_b,
        forall|i: int| 0 <= i < digits_a.len() ==> is_decimal_digit(#[trigger] digits_a[i]),
        forall|i: int| 0 <= i < digits_b.len() ==> is_decimal_digit(#[trigger] digits_b[i]),
        rest_a.len() > 0 && !is_decimal_digit(rest_a[0]),
        rest_b.len() > 0 && !is_decimal_digit(rest_b[0]),
    ensures
        digits_a == digits_b,
        rest_a == rest_b,
{
    let whole = digits_a + rest_a;
    if digits_a.len() < digits_b.len() {
        assert(whole[digits_a.len() as int] == rest_a[0]);
        assert((digits_b + rest_b)[digits_a.len() as int] == digits_b[digits_a.len() as int]);
    } else if digits_b.len() < digits_a.len() {
        assert((digits_b + rest_b)[digits_b.len() as int] == rest_b[0]);
        assert(whole[digits_b.len() as int] == digits_a[digits_b.len() as int]);
    }
    assert(digits_a =~= whole.subrange(0, digits_a.len() as int));
    assert(digits_b =~= (digits_b + rest_b).subrange(0, digits_b.len() as int));
    assert(rest_a =~= whole.subrange(digits_a.len() as int, whole.len() as int));
    assert(rest_b =~= (digits_b + rest_b).subrange(digits_b.len() as int, whole.len() as int));
}


/// No two digits have the same character.
pub proof fn lemma_hex_digit_injective(a: int, b: int)
    requires
        0 <= a < 16,
        0 <= b < 16,
        hex_digit(a) == hex_digit(b),
    ensures
        a == b,
{
}

/// No two numbers have the same 32 hexadecimal digits.
pub proof fn lemma_hex_u128_injective(x: u128, y: u128)
    requires
        hex_u128(x) == hex_u128(y),
    ensures
        x == y,
{
    assert forall|i: int| 0 <= i < 32 implies nibble(x, i) == nibble(y, i) by {
        assert(hex_u128(x)[i] == hex_digit(nibble(x, i)));
        assert(hex_u128(y)[i] == hex_digit(nibble(y, i)));
        let a = x >> ((4 * (31 - i)) as u128);
        let b = y >> ((4 * (31 - i)) as u128);
        assert(a & 0xf < 16) by (bit_vector);
        assert(b & 0xf < 16) by (bit_vector);
        lemma_hex_digit_injective(nibble(x, i), nibble(y, i));
    }
    assert(nibble(x, 0) == nibble(y, 0) && nibble(x, 1) == nibble(y, 1) && nibble(x, 2) == nibble(y, 2)
        && nibble(x, 3) == nibble(y, 3) && nibble(x, 4) == nibble(y, 4) && nibble(x, 5) == nibble(y, 5)
        && nibble(x, 6) == nibble(y, 6) && nibble(x, 7) == nibble(y, 7) && nibble(x, 8) == nibble(y, 8)
        && nibble(x, 9) == nibble(y, 9) && nibble(x, 10) == nibble(y, 10) && nibble(x, 11) == nibble(
        y,
        11,
    ) && nibble(x, 12) == nibble(y, 12) && nibble(x, 13) == nibble(y, 13) && nibble(x, 14) == nibble(
        y,
        14,
    ) && nibble(x, 15) == nibble(y, 15));
    assert(nibble(x, 16) == nibble(y, 16) && nibble(x, 17) == nibble(y, 17) && nibble(x, 18) == nibble(
        y,
        18,
    ) && nibble(x, 19) == nibble(y, 19) && nibble(x, 20) == nibble(y, 20) && nibble(x, 21) == nibble(
        y,
        21,
    ) && nibble(x, 22) == nibble(y, 22) && nibble(x, 23) == nibble(y, 23) && nibble(x, 24) == nibble(
        y,
        24,
    ) && nibble(x, 25) == nibble(y, 25) && nibble(x, 26) == nibble(y, 26) && nibble(x, 27) == nibble(
        y,
        27,
    ) && nibble(x, 28) == nibble(y, 28) && nibble(x, 29) == nibble(y, 29) && nibble(x, 30) == nibble(
        y,
        30,
    ) && nibble(x, 31) == nibble(y, 31));
    assert(x == y) by (bit_vector)
        requires
            (x >> 124u128) & 0xf == (y >> 124u128) & 0xf,
            (x >> 120u128) & 0xf == (y >> 120u128) & 0xf,
            (x >> 116u128) & 0xf == (y >> 116u128) & 0xf,
            (x >> 112u128) & 0xf == (y >> 112u128) & 0xf,
            (x >> 108u128) & 0xf == (y >> 108u128) & 0xf,
            (x >> 104u128) & 0xf == (y >> 104u128) & 0xf,
            (x >> 100u128) & 0xf == (y >> 100u128) & 0xf,
            (x >> 96u128) & 0xf == (y >> 96u128) & 0xf,
            (x >> 92u128) & 0xf == (y >> 92u128) & 0xf,
            (x >> 88u128) & 0xf == (y >> 88u128) & 0xf,
            (x >> 84u128) & 0xf == (y >> 84u128) & 0xf,
            (x >> 80u128) & 0xf == (y >> 80u128) & 0xf,
            (x >> 76u128) & 0xf == (y >> 76u128) & 0xf,
            (x >> 72u128) & 0xf == (y >> 72u128) & 0xf,
            (x >> 68u128) & 0xf == (y >> 68u128) & 0xf,
            (x >> 64u128) & 0xf == (y >> 64u128) & 0xf,
            (x >> 60u128) & 0xf == (y >> 60u128) & 0xf,
            (x >> 56u128) & 0xf == (y >> 56u128) & 0xf,
            (x >> 52u128) & 0xf == (y >> 52u128) & 0xf,
            (x >> 48u128) & 0xf == (y >> 48u128) & 0xf,
            (x >> 44u128) & 0xf == (y >> 44u128) & 0xf,
            (x >> 40u128) & 0xf == (y >> 40u128) & 0xf,
            (x >> 36u128) & 0xf == (y >> 36u128) & 0xf,
            (x >> 32u128) & 0xf == (y >> 32u128) & 0xf,
            (x >> 28u128) & 0xf == (y >> 28u128) & 0xf,
            (x >> 24u128) & 0xf == (y >> 24u128) & 0xf,
            (x >> 20u128) & 0xf == (y >> 20u128) & 0xf,
            (x >> 16u128) & 0xf == (y >> 16u128) & 0xf,
            (x >> 12u128) & 0xf == (y >> 12u128) & 0xf,
            (x >> 8u128) & 0xf == (y >> 8u128) & 0xf,
            (x >> 4u128) & 0xf == (y >> 4u128) & 0xf,
            (x >> 0u128) & 0xf == (y >> 0u128) & 0xf,
    ;
}

/// A number of two digits or more does not begin with a zero.
pub proof fn lemma_decimal_leading_digit(n: nat)
    requires
        n >= 10,
    ensures
        decimal(n).len() >= 2,
        decimal(n)[0] != '0',
    decreases n,
{
    lemma_decimal_not_empty(n / 10);
    if n / 10 < 10 {
        assert(decimal(n / 10)[0] == hex_digit((n / 10) as int));
    } else {
        lemma_decimal_leading_digit(n / 10);
    }
    assert(decimal(n)[0] == decimal(n / 10)[0]);
}

/// No two numbers have the same digits when zeros are put in front up
/// to a width of two or more.
pub proof fn lemma_zero_padded_injective(a: nat, b: nat, width: nat)
    requires
        width >= 2,
        zero_padded(decimal(a), width) == zero_padded(decimal(b), width),
    ensures
        a == b,
{
    let da = decimal(a);
    let db = decimal(b);
    lemma_decimal_not_empty(a);
    lemma_decimal_not_empty(b);
    if a >= 10 {
        lemma_decimal_leading_digit(a);
    }
    if b >= 10 {
        lemma_decimal_leading_digit(b);
    }
    let pa = zero_padded(da, width);
    let pb = zero_padded(db, width);
    if da.len() >= width && db.len() >= width {
        lemma_decimal_injective(a, b);
    } else if da.len() >= width {
        // `b` is padded and begins with a zero; `a` has two digits or more
        assert(pb[0] == '0');
        assert(pa[0] == da[0]);
        assert(da.len() >= 2);
    } else if db.len() >= width {
        assert(pa[0] == '0');
        assert(pb[0] == db[0]);
        assert(db.len() >= 2);
    } else {
        let za = width - da.len();
        let zb = width - db.len();
        if za < zb {
            // the first digit of `a` stands where `b` has a zero
            assert(pa[za as int] == da[0]);
            assert(pb[za as int] == '0');
            assert(da.len() >= 2);
            assert(a >= 10);
        } else if zb < za {
            assert(pb[zb as int] == db[0]);
            assert(pa[zb as int] == '0');
            assert(db.len() >= 2);
            assert(b >= 10);
        } else {
            assert(da =~= pa.subrange(za as int, width as int));
            assert(db =~= pb.subrange(zb as int, width as int));
            lemma_decimal_injective(a, b);
        }
    }
}

} // verus!
