use vstd::prelude::*;

verus! {

use vstd::string::StringExecFns;

/// The character for one decimal digit value (0 through 9).
pub open spec fn spec_digit_char(d: int) -> char {
    if d == 0 {
        '0'
    } else if d == 1 {
        '1'
    } else if d == 2 {
        '2'
    } else if d == 3 {
        '3'
    } else if d == 4 {
        '4'
    } else if d == 5 {
        '5'
    } else if d == 6 {
        '6'
    } else if d == 7 {
        '7'
    } else if d == 8 {
        '8'
    } else {
        '9'
    }
}

/// The decimal text of a number: most significant digit first, no sign, no
/// leading zeros (except for the single digit of 0 itself).
pub open spec fn spec_dec_digits(n: nat) -> Seq<char>
    decreases n,
{
    if n < 10 {
        seq![spec_digit_char(n as int)]
    } else {
        spec_dec_digits(n / 10).push(spec_digit_char((n % 10) as int))
    }
}

/// The one-character text of a single decimal digit.
fn digit_str(d: u32) -> (r: &'static str)
    requires
        d < 10,
    ensures
        r@ == seq![spec_digit_char(d as int)],
{
    let r = match d {
        0 => "0",
        1 => "1",
        2 => "2",
        3 => "3",
        4 => "4",
        5 => "5",
        6 => "6",
        7 => "7",
        8 => "8",
        _ => "9",
    };
    proof {
        reveal_strlit("0");
        reveal_strlit("1");
        reveal_strlit("2");
        reveal_strlit("3");
        reveal_strlit("4");
        reveal_strlit("5");
        reveal_strlit("6");
        reveal_strlit("7");
        reveal_strlit("8");
        reveal_strlit("9");
        assert(r@ =~= seq![spec_digit_char(d as int)]);
    }
    r
}

/// The decimal text of `n` (see [`spec_dec_digits`]).
pub fn u32_to_decimal(n: u32) -> (r: String)
    ensures
        r@ == spec_dec_digits(n as nat),
    decreases n,
{
    if n < 10 {
        String::from_str(digit_str(n))
    } else {
        let mut s = u32_to_decimal(n / 10);
        s.append(digit_str(n % 10));
        s
    }
}

/// The decimal text of a number is never empty.
pub proof fn lemma_dec_digits_len(n: nat)
    ensures
        spec_dec_digits(n).len() >= 1,
    decreases n,
{
    if n >= 10 {
        lemma_dec_digits_len(n / 10);
    }
}

/// Distinct numbers have distinct decimal texts.
pub proof fn lemma_dec_digits_injective(a: nat, b: nat)
    requires
        a != b,
    ensures
        spec_dec_digits(a) != spec_dec_digits(b),
    decreases a + b,
{
    if a < 10 && b < 10 {
        assert(spec_dec_digits(a)[0] != spec_dec_digits(b)[0]);
    } else if a < 10 {
        lemma_dec_digits_len(b / 10);
        assert(spec_dec_digits(b).len() >= 2);
    } else if b < 10 {
        lemma_dec_digits_len(a / 10);
        assert(spec_dec_digits(a).len() >= 2);
    } else {
        if a % 10 != b % 10 {
            let la = spec_dec_digits(a).len();
            let lb = spec_dec_digits(b).len();
            assert(spec_dec_digits(a)[la - 1] == spec_digit_char((a % 10) as int));
            assert(spec_dec_digits(b)[lb - 1] == spec_digit_char((b % 10) as int));
            if spec_dec_digits(a) == spec_dec_digits(b) {
                assert(spec_dec_digits(a)[la - 1] == spec_dec_digits(b)[lb - 1]);
                assert(false);
            }
        } else {
            lemma_dec_digits_injective(a / 10, b / 10);
            if spec_dec_digits(a) == spec_dec_digits(b) {
                assert(spec_dec_digits(a).drop_last() =~= spec_dec_digits(a / 10));
                assert(spec_dec_digits(b).drop_last() =~= spec_dec_digits(b / 10));
                assert(false);
            }
        }
    }
}

} // verus!
