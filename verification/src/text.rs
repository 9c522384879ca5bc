//! Fixed-width positional text for numbers: the characters that the display
//! functions show for a number in base 10, 16 or 2, and the proof that those
//! characters read back as the number.
use vstd::prelude::*;
use crate::arith::{power, lemma_power_positive};

verus! {

/// The character of digit `d` (`0 <= d < 16`): `'0'..='9'`, then `'A'..='F'`.
pub open spec fn digit_char(d: int) -> char {
    if d < 10 {
        ('0' as int + d) as char
    } else {
        ('A' as int + d - 10) as char
    }
}

/// The digit that character `c` stands for; the inverse of `digit_char`.
pub open spec fn char_digit(c: char) -> int {
    if '0' <= c && c <= '9' {
        c as int - '0' as int
    } else {
        c as int - 'A' as int + 10
    }
}

/// The `len` lowest digits of `num` in base `radix`, most significant first,
/// padded with leading zeros.
pub open spec fn digits_text(num: nat, len: nat, radix: nat) -> Seq<char> {
    Seq::new(len, |i: int| digit_char(((num / power(radix as int, (len - 1 - i) as nat) as nat) % radix) as int))
}

/// The number that a text of digits spells in base `radix`.
pub open spec fn text_value(text: Seq<char>, radix: nat) -> int
    decreases text.len(),
{
    if text.len() == 0 {
        0
    } else {
        radix * text_value(text.drop_last(), radix) + char_digit(text.last())
    }
}

/// The sign character shown in front of a signed number.
pub open spec fn sign_char(num: int) -> char {
    if num >= 0 {
        '+'
    } else {
        '-'
    }
}

/// The magnitude of `num`.
pub open spec fn magnitude(num: int) -> nat {
    if num >= 0 {
        num as nat
    } else {
        (-num) as nat
    }
}

/// The text shown for a signed number: its sign, then `len` digits of its
/// magnitude.
pub open spec fn signed_text(num: int, len: nat) -> Seq<char> {
    seq![sign_char(num)] + digits_text(magnitude(num), len, 10)
}

/// Every character of a digit text is a digit of its radix.
pub proof fn lemma_digits_text_chars(num: nat, len: nat, radix: nat, i: int)
    requires
        2 <= radix <= 16,
        0 <= i < len,
    ensures
        ({
            let d = ((num / power(radix as int, (len - 1 - i) as nat) as nat) % radix) as int;
            &&& 0 <= d < radix
            &&& digits_text(num, len, radix)[i] == digit_char(d)
            &&& char_digit(digit_char(d)) == d
        }),
{
}

/// Dropping the last digit of the text of `num` gives the text of `num / radix`
/// one digit shorter; the last digit is `num % radix`.
proof fn lemma_digits_text_split(num: nat, len: nat, radix: nat)
    requires
        2 <= radix,
        len > 0,
    ensures
        digits_text(num, len, radix).drop_last() == digits_text(num / radix, (len - 1) as nat, radix),
        digits_text(num, len, radix).last() == digit_char((num % radix) as int),
{
    let t = digits_text(num, len, radix);
    let u = digits_text(num / radix, (len - 1) as nat, radix);
    assert forall|i: int| 0 <= i < len - 1 implies t[i] == u[i] by {
        let e = (len - 2 - i) as nat;
        lemma_power_positive(radix as int, e);
        let p = power(radix as int, e);
        assert(power(radix as int, (len - 1 - i) as nat) == radix * p);
        assert(num / (radix * p) as nat == (num / radix) / p as nat) by {
            vstd::arithmetic::div_mod::lemma_div_denominator(num as int, radix as int, p);
        }
    }
    assert(t.drop_last() =~= u);
    assert(power(radix as int, 0) == 1);
    assert(t.last() == t[len - 1]);
    assert(((len - 1 - (len - 1)) as nat) == 0);
    assert(num / (1int as nat) == num);
}

/// Reading back the digits shown for `num` gives `num` modulo `radix^len`;
/// when `num < radix^len` it gives `num` itself.
pub proof fn lemma_digits_text_value(num: nat, len: nat, radix: nat)
    requires
        2 <= radix <= 16,
    ensures
        text_value(digits_text(num, len, radix), radix) == num % (power(radix as int, len) as nat),
        num < power(radix as int, len) ==> text_value(digits_text(num, len, radix), radix) == num,
    decreases len,
{
    lemma_power_positive(radix as int, len);
    if len == 0 {
        assert(digits_text(num, len, radix) =~= Seq::<char>::empty());
    } else {
        let m = (len - 1) as nat;
        lemma_digits_text_split(num, len, radix);
        lemma_digits_text_value(num / radix, m, radix);
        lemma_power_positive(radix as int, m);
        let p = power(radix as int, m);
        assert(char_digit(digit_char((num % radix) as int)) == num % radix);
        vstd::arithmetic::div_mod::lemma_mod_breakdown(num as int, radix as int, p);
        assert(power(radix as int, len) == radix * p);
    }
    if num < power(radix as int, len) {
        vstd::arithmetic::div_mod::lemma_small_mod(num, power(radix as int, len) as nat);
    }
}

/// Reading back the text shown for a signed number, sign included, gives the
/// number when its magnitude fits in `len` digits.
pub proof fn lemma_signed_text_value(num: int, len: nat)
    requires
        magnitude(num) < power(10, len),
    ensures
        (if signed_text(num, len)[0] == '-' {
            -text_value(signed_text(num, len).drop_first(), 10)
        } else {
            text_value(signed_text(num, len).drop_first(), 10)
        }) == num,
{
    let t = signed_text(num, len);
    assert(t.drop_first() =~= digits_text(magnitude(num), len, 10));
    lemma_digits_text_value(magnitude(num), len, 10);
}

/// The character codes of a number's text: digit `i` (from the left) is
/// `d = (num / radix^(len - 1 - i)) % radix`, shown as `'0' + d` (code
/// 48 + d) below ten and as `'A' + d - 10` (code 55 + d) from ten on.
pub proof fn lemma_digits_text_codes(num: nat, len: nat, radix: nat)
    requires
        2 <= radix <= 16,
    ensures
        digits_text(num, len, radix).len() == len,
        forall|i: int|
            0 <= i < len ==> {
                let d = (num / power(radix as int, (len - 1 - i) as nat) as nat) % radix;
                #[trigger] digits_text(num, len, radix)[i] as int == if d < 10 {
                    48 + d
                } else {
                    55 + d
                }
            },
{
}

/// A signed number's text is its sign (`'+'` for zero and above, `'-'`
/// below), then the `len` digits of its magnitude `|num|`.
pub proof fn lemma_signed_text_parts(num: int, len: nat)
    ensures
        signed_text(num, len).len() == len + 1,
        signed_text(num, len)[0] == (if num >= 0 { '+' } else { '-' }),
        signed_text(num, len).drop_first() == digits_text((if num >= 0 { num } else { -num }) as nat, len, 10),
{
    assert(signed_text(num, len).drop_first() =~= digits_text(magnitude(num), len, 10));
}

} // verus!
