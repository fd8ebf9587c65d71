//! Typed lines and numbers written in decimal.
use vstd::arithmetic::power::{lemma_pow0, pow};
use vstd::prelude::*;

verus! {

/// The characters with the Unicode property `White_Space`.
pub open spec fn is_white_space(c: char) -> bool {
    let n = c as int;
    ||| 0x9 <= n <= 0xd
    ||| n == 0x20
    ||| n == 0x85
    ||| n == 0xa0
    ||| n == 0x1680
    ||| 0x2000 <= n <= 0x200a
    ||| n == 0x2028
    ||| n == 0x2029
    ||| n == 0x202f
    ||| n == 0x205f
    ||| n == 0x3000
}

/// `s` without the white space at its two ends.
pub open spec fn trimmed(s: Seq<char>) -> Seq<char>
    decreases s.len(),
{
    if s.len() > 0 && is_white_space(s.first()) {
        trimmed(s.drop_first())
    } else if s.len() > 0 && is_white_space(s.last()) {
        trimmed(s.drop_last())
    } else {
        s
    }
}

/// Calls `str::trim`, which takes away the leading and the trailing characters
/// that have the Unicode property `White_Space` and keeps all others.
#[verifier::external_body]
pub(crate) fn trim(text: &str) -> (r: &str)
    ensures
        r@ == trimmed(text@),
{
    text.trim()
}

/// An ASCII digit.
pub open spec fn is_digit(c: char) -> bool {
    '0' <= c <= '9'
}

/// Only ASCII digits.
pub open spec fn all_digits(s: Seq<char>) -> bool {
    forall|i: int| 0 <= i < s.len() ==> is_digit(#[trigger] s[i])
}

/// The number that a run of digits writes, the most significant digit first.
pub open spec fn digits_value(s: Seq<char>) -> nat
    decreases s.len(),
{
    if s.len() == 0 {
        0
    } else {
        10 * digits_value(s.drop_last()) + (s.last() as int - '0' as int) as nat
    }
}

/// `s` without one leading plus sign.
pub open spec fn without_plus(s: Seq<char>) -> Seq<char> {
    if s.len() > 0 && s[0] == '+' {
        s.drop_first()
    } else {
        s
    }
}

/// The number that `s` writes: digits, at least one, after an optional plus sign.
pub open spec fn decimal_value(s: Seq<char>) -> Option<nat> {
    let digits = without_plus(s);
    if digits.len() > 0 && all_digits(digits) {
        Some(digits_value(digits))
    } else {
        None
    }
}

/// The number that `s` writes, where it is at most `max`.
pub open spec fn bounded_decimal(s: Seq<char>, max: nat) -> Option<nat> {
    match decimal_value(s) {
        Some(v) => if v <= max {
            Some(v)
        } else {
            None
        },
        None => None,
    }
}

/// The digit that stands for `n`, a number under ten.
pub open spec fn digit_char(n: nat) -> char {
    ('0' as int + n) as char
}

/// `n` in decimal, without leading zeros.
pub open spec fn decimal_text(n: nat) -> Seq<char>
    decreases n,
{
    if n < 10 {
        seq![digit_char(n)]
    } else {
        decimal_text(n / 10).push(digit_char(n % 10))
    }
}

/// A run of digits is worth at least as much as any run it begins with.
proof fn lemma_digits_value_grows(s: Seq<char>, k: int)
    requires
        0 <= k <= s.len(),
    ensures
        digits_value(s.take(k)) <= digits_value(s),
    decreases s.len(),
{
    if k == s.len() {
        assert(s.take(k) =~= s);
    } else {
        lemma_digits_value_grows(s.drop_last(), k);
        assert(s.drop_last().take(k) =~= s.take(k));
    }
}

/// Reads a decimal number of at most `max`: digits after an optional plus sign.
pub fn parse_decimal(text: &str, max: u64) -> (r: Option<u64>)
    ensures
        bounded_decimal(text@, max as nat) == (match r {
            Some(v) => Some(v as nat),
            None => None,
        }),
{
    let len: usize = text.unicode_len();
    let start: usize = if len > 0 && text.get_char(0) == '+' {
        1
    } else {
        0
    };
    let ghost digits = without_plus(text@);
    assert(digits =~= text@.skip(start as int));
    if start == len {
        return None;
    }
    let mut value: u64 = 0;
    let mut i: usize = start;
    while i < len
        invariant
            start <= i <= len,
            len == text@.len(),
            start <= 1,
            digits == text@.skip(start as int),
            digits == without_plus(text@),
            all_digits(digits.take(i - start)),
            value == digits_value(digits.take(i - start)),
            value <= max,
        decreases len - i,
    {
        let c: char = text.get_char(i);
        proof {
            assert(digits[i - start] == c);
            assert(digits.take(i - start + 1).drop_last() =~= digits.take(i - start));
        }
        if !(c >= '0' && c <= '9') {
            return None;
        }
        let digit: u32 = c as u32 - '0' as u32;
        let next: u128 = value as u128 * 10 + digit as u128;
        proof {
            assert(next == digits_value(digits.take(i - start + 1)));
            lemma_digits_value_grows(digits, i - start + 1);
        }
        if next > max as u128 {
            return None;
        }
        value = next as u64;
        i = i + 1;
    }
    proof {
        assert(digits.take(len - start) =~= digits);
    }
    Some(value)
}

/// The text of one digit.
fn digit_text(digit: u64) -> (r: &'static str)
    requires
        digit < 10,
    ensures
        r@ =~= seq![digit_char(digit as nat)],
{
    proof {
        reveal_strlit("0");
        reveal_strlit("1");
        reveal_strlit("2");
        reveal_strlit("3");
        reveal_strlit("4");
        reveal_strlit("5");
        reveal_strlit("6");
        reveal_strlit("7");
        reveal_strlit("8");
        reveal_strlit("9");
    }
    match digit {
        0 => "0",
        1 => "1",
        2 => "2",
        3 => "3",
        4 => "4",
        5 => "5",
        6 => "6",
        7 => "7",
        8 => "8",
        _ => "9",
    }
}

/// Writes `n` in decimal at the end of `out`.
pub fn push_decimal(out: &mut String, n: u64)
    ensures
        final(out)@ == old(out)@ + decimal_text(n as nat),
    decreases n,
{
    if n >= 10 {
        push_decimal(out, n / 10);
    }
    let digit: &str = digit_text(n % 10);
    out.append(digit);
    assert(out@ =~= old(out)@ + decimal_text(n as nat));
}

/// A number in decimal holds nothing but digits, and its first character is one.
pub proof fn decimal_text_is_digits(n: nat)
    ensures
        decimal_text(n).len() > 0,
        all_digits(decimal_text(n)),
    decreases n,
{
    if n >= 10 {
        decimal_text_is_digits(n / 10);
    }
}

proof fn lemma_digits_value_of_text(n: nat)
    ensures
        digits_value(decimal_text(n)) == n,
    decreases n,
{
    reveal_with_fuel(digits_value, 2);
    if n >= 10 {
        lemma_digits_value_of_text(n / 10);
        assert(decimal_text(n).drop_last() =~= decimal_text(n / 10));
    } else {
        assert(decimal_text(n).drop_last() =~= Seq::<char>::empty());
    }
}

/// Reading a number back from its decimal text gives the number.
pub proof fn decimal_text_reads_back(n: nat)
    ensures
        decimal_value(decimal_text(n)) == Some(n),
{
    decimal_text_is_digits(n);
    lemma_digits_value_of_text(n);
    assert(is_digit(decimal_text(n)[0]));
}

/// A line that ends in a line break, as a terminal hands it over, trims to the
/// number typed on it.
pub proof fn typed_number_trims(n: nat)
    ensures
        trimmed(decimal_text(n).push('\n')) == decimal_text(n),
{
    let s = decimal_text(n);
    decimal_text_is_digits(n);
    assert(is_digit(s[0]) && is_digit(s.last()));
    assert(s.push('\n').first() == s[0]);
    assert(s.push('\n').drop_last() =~= s);
    reveal_with_fuel(trimmed, 3);
}

/// White space around a text makes no difference, whatever it is and on either side: what
/// is left is the text.
pub proof fn space_around_is_trimmed(a: Seq<char>, core: Seq<char>, b: Seq<char>)
    requires
        forall|i: int| 0 <= i < a.len() ==> is_white_space(#[trigger] a[i]),
        forall|i: int| 0 <= i < b.len() ==> is_white_space(#[trigger] b[i]),
        core.len() > 0 ==> !is_white_space(core.first()) && !is_white_space(core.last()),
    ensures
        trimmed(a + core + b) == core,
    decreases a.len() + b.len(),
{
    let s = a + core + b;
    if a.len() > 0 {
        assert(s.first() == a[0]);
        assert(s.drop_first() =~= a.drop_first() + core + b);
        assert forall|i: int| 0 <= i < a.drop_first().len() implies is_white_space(
            #[trigger] a.drop_first()[i],
        ) by {
            assert(a.drop_first()[i] == a[i + 1]);
        }
        space_around_is_trimmed(a.drop_first(), core, b);
    } else if b.len() > 0 {
        if core.len() > 0 {
            assert(s.first() == core.first());
            assert(s.last() == b.last());
            assert(b.last() == b[b.len() - 1]);
            assert(s.drop_last() =~= a + core + b.drop_last());
            assert forall|i: int| 0 <= i < b.drop_last().len() implies is_white_space(
                #[trigger] b.drop_last()[i],
            ) by {
                assert(b.drop_last()[i] == b[i]);
            }
            space_around_is_trimmed(a, core, b.drop_last());
        } else {
            assert(s.first() == b[0]);
            assert(s.drop_first() =~= a + core + b.drop_first());
            assert forall|i: int| 0 <= i < b.drop_first().len() implies is_white_space(
                #[trigger] b.drop_first()[i],
            ) by {
                assert(b.drop_first()[i] == b[i + 1]);
            }
            space_around_is_trimmed(a, core, b.drop_first());
        }
    } else {
        assert(s =~= core);
    }
}

/// What ends a typed line is white space, on every system, and no visible ASCII character
/// is.
pub proof fn line_ends_are_white_space(c: char)
    ensures
        c == '\n' || c == '\r' || c == '\t' || c == ' ' ==> is_white_space(c),
        '!' <= c <= '~' ==> !is_white_space(c),
{
}

/// Digits count by their place: a run behind which `b` stands is worth ten times as much
/// for each digit of `b`.
pub proof fn digits_count_by_place(a: Seq<char>, b: Seq<char>)
    ensures
        digits_value(a + b) == digits_value(a) * pow(10, b.len()) + digits_value(b),
    decreases b.len(),
{
    if b.len() == 0 {
        assert(a + b =~= a);
        lemma_pow0(10);
    } else {
        let head = b.drop_last();
        digits_count_by_place(a, head);
        assert((a + b).drop_last() =~= a + head);
        assert((a + b).last() == b.last());
        reveal(pow);
        let va = digits_value(a) as int;
        let p = pow(10, head.len());
        assert(pow(10, b.len()) == 10 * p);
        assert(10 * (va * p) == va * (10 * p)) by (nonlinear_arith);
        assert(digits_value(a + b) == 10 * digits_value(a + head) + (b.last() as int - '0' as int)
            as nat);
        assert(digits_value(b) == 10 * digits_value(head) + (b.last() as int - '0' as int) as nat);
    }
}

/// One digit is worth its number, from zero to nine.
pub proof fn digit_is_worth_its_number(d: nat)
    requires
        d < 10,
    ensures
        digits_value(seq![('0' as int + d) as char]) == d,
        is_digit(('0' as int + d) as char),
{
    reveal_with_fuel(digits_value, 2);
    let s = seq![('0' as int + d) as char];
    assert(s.drop_last() =~= Seq::<char>::empty());
}

/// Which texts write a number: those of ASCII digits, at least one, and those with one plus
/// sign in front of that. A number of more than the bound is not taken.
pub proof fn digits_make_numbers(s: Seq<char>, max: nat)
    ensures
        decimal_value(s) is Some <==> {
            ||| {
                &&& s.len() > 0
                &&& forall|i: int| 0 <= i < s.len() ==> '0' <= #[trigger] s[i] <= '9'
            }
            ||| {
                &&& s.len() > 1
                &&& s[0] == '+'
                &&& forall|i: int| 1 <= i < s.len() ==> '0' <= #[trigger] s[i] <= '9'
            }
        },
        match decimal_value(s) {
            Some(v) => bounded_decimal(s, max) == (if v <= max {
                Some(v)
            } else {
                None
            }),
            None => bounded_decimal(s, max) is None,
        },
{
    let digits = without_plus(s);
    if s.len() > 0 && s[0] == '+' {
        assert forall|i: int| 0 <= i < digits.len() implies #[trigger] digits[i] == s[i + 1] by {}
        if decimal_value(s) is Some {
            assert forall|i: int| 1 <= i < s.len() implies '0' <= #[trigger] s[i] <= '9' by {
                assert(is_digit(digits[i - 1]));
            }
        }
    } else if decimal_value(s) is Some {
        assert forall|i: int| 0 <= i < s.len() implies '0' <= #[trigger] s[i] <= '9' by {
            assert(is_digit(digits[i]));
        }
    }
}

/// A number is worth what its digits are worth; a plus sign in front, and zeros in front,
/// make no difference.
pub proof fn number_is_worth_its_digits(digits: Seq<char>)
    requires
        digits.len() > 0,
        forall|i: int| 0 <= i < digits.len() ==> '0' <= #[trigger] digits[i] <= '9',
    ensures
        decimal_value(digits) == Some(digits_value(digits)),
        decimal_value(seq!['+'] + digits) == Some(digits_value(digits)),
        decimal_value(seq!['0'] + digits) == Some(digits_value(digits)),
{
    assert(digits[0] != '+');
    assert(all_digits(digits));
    assert((seq!['+'] + digits).drop_first() =~= digits);
    let padded = seq!['0'] + digits;
    assert(padded[0] == '0');
    assert forall|i: int| 0 <= i < padded.len() implies is_digit(#[trigger] padded[i]) by {
        if i > 0 {
            assert(padded[i] == digits[i - 1]);
        }
    }
    digits_count_by_place(seq!['0'], digits);
    digit_is_worth_its_number(0);
    assert(digits_value(seq!['0']) == 0);
    assert(0 * pow(10, digits.len()) == 0) by (nonlinear_arith);
}

/// A number in decimal has no zero in front, but for zero itself.
pub proof fn decimal_text_has_no_leading_zero(n: nat)
    ensures
        decimal_text(n)[0] == '0' ==> n == 0 && decimal_text(n).len() == 1,
    decreases n,
{
    if n >= 10 {
        decimal_text_has_no_leading_zero(n / 10);
        decimal_text_is_digits(n / 10);
        assert(decimal_text(n)[0] == decimal_text(n / 10)[0]);
    } else {
        assert(decimal_text(n)[0] as int == '0' as int + n);
    }
}

} // verus!
