//! Decimal rendering of integers.

use vstd::prelude::*;
use vstd::string::*;
use crate::proc_status::digits_value;

verus! {

/// The character of a decimal digit.
pub open spec fn digit_char(d: nat) -> char {
    if d == 0 { '0' }
    else if d == 1 { '1' }
    else if d == 2 { '2' }
    else if d == 3 { '3' }
    else if d == 4 { '4' }
    else if d == 5 { '5' }
    else if d == 6 { '6' }
    else if d == 7 { '7' }
    else if d == 8 { '8' }
    else { '9' }
}

/// The decimal representation of a natural number: no sign, no leading zeros.
pub open spec fn decimal(n: nat) -> Seq<char>
    decreases n,
{
    if n < 10 {
        seq![digit_char(n)]
    } else {
        decimal(n / 10).push(digit_char(n % 10))
    }
}

/// The text of one decimal digit.
fn digit_text(d: u64) -> (r: &'static str)
    requires
        d < 10,
    ensures
        r@ == seq![digit_char(d as nat)],
{
    if d == 0 {
        proof { reveal_strlit("0"); }
        "0"
    } else if d == 1 {
        proof { reveal_strlit("1"); }
        "1"
    } else if d == 2 {
        proof { reveal_strlit("2"); }
        "2"
    } else if d == 3 {
        proof { reveal_strlit("3"); }
        "3"
    } else if d == 4 {
        proof { reveal_strlit("4"); }
        "4"
    } else if d == 5 {
        proof { reveal_strlit("5"); }
        "5"
    } else if d == 6 {
        proof { reveal_strlit("6"); }
        "6"
    } else if d == 7 {
        proof { reveal_strlit("7"); }
        "7"
    } else if d == 8 {
        proof { reveal_strlit("8"); }
        "8"
    } else {
        proof { reveal_strlit("9"); }
        "9"
    }
}

/// The decimal representation of a number, as `<u64 as ToString>::to_string`
/// writes it: digits only, no sign, no leading zeros.
pub(crate) fn u64_to_decimal(n: u64) -> (r: String)
    ensures
        r@ == decimal(n as nat),
    decreases n,
{
    if n < 10 {
        digit_text(n).to_owned()
    } else {
        let mut text = u64_to_decimal(n / 10);
        text.append(digit_text(n % 10));
        text
    }
}

/// Each digit character is one of `'0'..='9'` and stands for its value.
proof fn lemma_digit_char(d: nat)
    requires
        d < 10,
    ensures
        '0' <= digit_char(d) <= '9',
        (digit_char(d) as u32) - 48 == d,
        d != 0 ==> digit_char(d) != '0',
{
}

/// Decimal text reads back as its number: it is made of the characters
/// `'0'..='9'`, has no leading zero, has one digit more for every factor of
/// ten, and its digits taken in base 10 give the number back.
pub proof fn law_decimal_reads_back(n: nat)
    ensures
        decimal(n).len() >= 1,
        n >= 10 ==> decimal(n).len() >= 2,
        n >= 10 ==> decimal(n).len() == decimal(n / 10).len() + 1,
        forall|k: int| 0 <= k < decimal(n).len() ==> '0' <= #[trigger] decimal(n)[k] <= '9',
        decimal(n).len() > 1 ==> decimal(n)[0] != '0',
        digits_value(decimal(n)) == n,
    decreases n,
{
    if n < 10 {
        lemma_digit_char(n);
        assert(seq![digit_char(n)].drop_last() =~= Seq::<char>::empty());
        assert(digits_value(Seq::<char>::empty()) == 0);
        assert(decimal(n) == seq![digit_char(n)]);
        assert(digits_value(decimal(n)) == digits_value(Seq::<char>::empty()) * 10
            + ((digit_char(n) as u32) - 48) as nat);
    } else {
        law_decimal_reads_back(n / 10);
        lemma_digit_char(n % 10);
        let s = decimal(n / 10);
        let c = digit_char(n % 10);
        assert(decimal(n) == s.push(c));
        assert(s.push(c).drop_last() =~= s);
        assert(s.push(c).last() == c);
        vstd::arithmetic::div_mod::lemma_fundamental_div_mod(n as int, 10);
        assert(digits_value(decimal(n)) == digits_value(s) * 10 + ((c as u32) - 48) as nat);
        assert forall|k: int| 0 <= k < decimal(n).len() implies '0' <= #[trigger] decimal(n)[k] <= '9' by {
            if k < s.len() {
                assert(decimal(n)[k] == s[k]);
            }
        }
        assert(decimal(n)[0] == s[0]);
        if s.len() == 1 {
            assert(n / 10 < 10);
            assert(n / 10 >= 1);
            lemma_digit_char(n / 10);
        }
    }
}

} // verus!
