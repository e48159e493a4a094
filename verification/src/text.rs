//! Text: numbers and names as strings.

use vstd::arithmetic::power::{lemma_pow0, pow};
use vstd::prelude::*;

verus! {

/// `String::push`: appends a character to the end of the string.
pub assume_specification[ String::push ](s: &mut String, ch: char)
    ensures
        final(s)@ == old(s)@.push(ch),
;

/// The character of a digit below 16, in lower case.
pub open spec fn digit_char(d: int) -> char {
    if d < 10 {
        ('0' as u32 + d) as char
    } else {
        ('a' as u32 + (d - 10)) as char
    }
}

/// A number in decimal digits.
pub open spec fn decimal(n: nat) -> Seq<char>
    decreases n,
{
    if n < 10 {
        seq![digit_char(n as int)]
    } else {
        decimal(n / 10).push(digit_char((n % 10) as int))
    }
}

/// The lowest `k` hexadecimal digits of a number, zeros in front.
pub open spec fn hexadecimal(n: nat, k: nat) -> Seq<char>
    decreases k,
{
    if k == 0 {
        Seq::empty()
    } else {
        hexadecimal(n / 16, (k - 1) as nat).push(digit_char((n % 16) as int))
    }
}

/// The character of a digit below 16.
pub fn to_digit(d: u8) -> (c: char)
    requires
        d < 16,
    ensures
        c == digit_char(d as int),
{
    if d < 10 {
        (48 + d) as char
    } else {
        (97 + (d - 10)) as char
    }
}

/// Appends a number in decimal digits.
pub fn push_decimal(s: &mut String, n: u64)
    ensures
        final(s)@ == old(s)@ + decimal(n as nat),
    decreases n,
{
    if n >= 10 {
        push_decimal(s, n / 10);
    }
    s.push(to_digit((n % 10) as u8));
    assert(s@ =~= old(s)@ + decimal(n as nat));
}

/// Appends the lowest `k` hexadecimal digits of a number.
pub fn push_hex(s: &mut String, n: u64, k: usize)
    ensures
        final(s)@ == old(s)@ + hexadecimal(n as nat, k as nat),
    decreases k,
{
    if k > 0 {
        push_hex(s, n / 16, k - 1);
        s.push(to_digit((n % 16) as u8));
    }
    assert(s@ =~= old(s)@ + hexadecimal(n as nat, k as nat));
}

/// Appends a string.
pub fn push_text(s: &mut String, t: &str)
    ensures
        final(s)@ == old(s)@ + t@,
{
    s.append(t);
}

/// A string that holds the given text.
pub fn text_of(t: &str) -> (s: String)
    ensures
        s@ == t@,
{
    let mut s: String = String::new();
    push_text(&mut s, t);
    assert(s@ =~= t@);
    s
}

/// Whether two texts are the same.
pub fn same_text(a: &str, b: &str) -> (r: bool)
    ensures
        r == (a@ == b@),
{
    text_of(a) == text_of(b)
}

/// The number that decimal digits make.
pub open spec fn number_of(s: Seq<char>) -> int
    decreases s.len(),
{
    if s.len() == 0 {
        0
    } else {
        10 * number_of(s.drop_last()) + (s.last() as int - '0' as int)
    }
}

/// Decimal digits read back as the number: they are digits, without zeros in front
/// unless the number is 0.
pub proof fn decimals_read_back(n: nat)
    ensures
        number_of(decimal(n)) == n,
        decimal(n).len() > 0,
        forall|i: int| 0 <= i < decimal(n).len() ==> '0' <= #[trigger] decimal(n)[i] <= '9',
        n > 0 ==> decimal(n)[0] != '0',
        n == 0 ==> decimal(n).len() == 1,
    decreases n,
{
    let s = decimal(n);
    if n < 10 {
        assert(s.drop_last() =~= Seq::<char>::empty());
        assert(number_of(s.drop_last()) == 0);
    } else {
        decimals_read_back(n / 10);
        assert(s.drop_last() =~= decimal(n / 10));
    }
}

/// The value of a hexadecimal digit in lower case.
pub open spec fn hex_value(c: char) -> int {
    if '0' <= c <= '9' {
        c as int - '0' as int
    } else {
        c as int - 'a' as int + 10
    }
}

/// The number that hexadecimal digits make.
pub open spec fn hex_number_of(s: Seq<char>) -> int
    decreases s.len(),
{
    if s.len() == 0 {
        0
    } else {
        16 * hex_number_of(s.drop_last()) + hex_value(s.last())
    }
}

/// Hexadecimal digits read back as the number, as far as it fits them.
pub proof fn hexadecimals_read_back(n: nat, k: nat)
    requires
        n < pow(16, k),
    ensures
        hexadecimal(n, k).len() == k,
        hex_number_of(hexadecimal(n, k)) == n,
        forall|i: int|
            0 <= i < k ==> '0' <= #[trigger] hexadecimal(n, k)[i] <= '9' || 'a' <= hexadecimal(n, k)[i] <= 'f',
    decreases k,
{
    let s = hexadecimal(n, k);
    if k == 0 {
        lemma_pow0(16);
    } else {
        lemma_pow_step(k);
        hexadecimals_read_back(n / 16, (k - 1) as nat);
        assert(s.drop_last() =~= hexadecimal(n / 16, (k - 1) as nat));
    }
}

proof fn lemma_pow_step(k: nat)
    requires
        k > 0,
    ensures
        pow(16, k) == 16 * pow(16, (k - 1) as nat),
{
    reveal(pow);
}

} // verus!
