//! Decimal text of integers, as written in mail file names.
use vstd::prelude::*;

verus! {

/// The character of a decimal digit.
pub open spec fn digit_char(d: nat) -> char {
    if d == 0 {
        '0'
    } else if d == 1 {
        '1'
    } else if d == 2 {
        '2'
    } else if d == 3 {
        '3'
    } else if d == 4 {
        '4'
    } else if d == 5 {
        '5'
    } else if d == 6 {
        '6'
    } else if d == 7 {
        '7'
    } else if d == 8 {
        '8'
    } else {
        '9'
    }
}

pub open spec fn is_digit(c: char) -> bool {
    '0' <= c && c <= '9'
}

pub open spec fn all_digits(s: Seq<char>) -> bool {
    forall|i: int| 0 <= i < s.len() ==> is_digit(#[trigger] s[i])
}

/// The decimal text of `n`: no sign, no padding, no leading zeros.
pub open spec fn digits_of(n: nat) -> Seq<char>
    decreases n,
{
    if n < 10 {
        seq![digit_char(n)]
    } else {
        digits_of(n / 10).push(digit_char(n % 10))
    }
}

/// The decimal text of a signed integer: a `-` before the digits when negative.
pub open spec fn signed_text(v: int) -> Seq<char> {
    if v < 0 {
        seq!['-'] + digits_of((-v) as nat)
    } else {
        digits_of(v as nat)
    }
}

/// Decimal text is non-empty and made of digits only.
pub proof fn lemma_digits_shape(n: nat)
    ensures
        digits_of(n).len() >= 1,
        all_digits(digits_of(n)),
    decreases n,
{
    if n >= 10 {
        lemma_digits_shape(n / 10);
    }
}

/// Distinct numbers have distinct decimal texts.
pub proof fn lemma_digits_injective(n: nat, m: nat)
    requires
        digits_of(n) == digits_of(m),
    ensures
        n == m,
    decreases n,
{
    if n >= 10 {
        lemma_digits_shape(n / 10);
    }
    if m >= 10 {
        lemma_digits_shape(m / 10);
    }
    if n >= 10 && m >= 10 {
        let a = digits_of(n);
        assert(a.drop_last() =~= digits_of(n / 10));
        assert(digits_of(m).drop_last() =~= digits_of(m / 10));
        assert(a.last() == digit_char(n % 10));
        assert(digits_of(m).last() == digit_char(m % 10));
        lemma_digits_injective(n / 10, m / 10);
        assert(n % 10 == m % 10);
    } else if n < 10 && m >= 10 {
        assert(digits_of(m).len() >= 2);
    } else if n >= 10 && m < 10 {
        assert(digits_of(n).len() >= 2);
    } else {
        assert(digits_of(n)[0] == digit_char(n));
        assert(digits_of(m)[0] == digit_char(m));
    }
}

/// Signed text is non-empty and holds only digits and a leading `-`.
pub proof fn lemma_signed_shape(v: int)
    ensures
        signed_text(v).len() >= 1,
        forall|i: int|
            0 <= i < signed_text(v).len() ==> (is_digit(#[trigger] signed_text(v)[i]) || signed_text(v)[i]
                == '-'),
        v >= 0 ==> all_digits(signed_text(v)),
{
    if v < 0 {
        lemma_digits_shape((-v) as nat);
        let d = digits_of((-v) as nat);
        assert forall|i: int| 0 <= i < signed_text(v).len() implies (is_digit(
            #[trigger] signed_text(v)[i],
        ) || signed_text(v)[i] == '-') by {
            if i > 0 {
                assert(signed_text(v)[i] == d[i - 1]);
            }
        }
    } else {
        lemma_digits_shape(v as nat);
    }
}

/// Distinct integers have distinct signed texts.
pub proof fn lemma_signed_injective(a: int, b: int)
    requires
        signed_text(a) == signed_text(b),
    ensures
        a == b,
{
    lemma_digits_shape(if a < 0 { (-a) as nat } else { a as nat });
    lemma_digits_shape(if b < 0 { (-b) as nat } else { b as nat });
    if a < 0 && b < 0 {
        assert(digits_of((-a) as nat) =~= signed_text(a).subrange(1, signed_text(a).len() as int));
        assert(digits_of((-b) as nat) =~= signed_text(b).subrange(1, signed_text(b).len() as int));
        lemma_digits_injective((-a) as nat, (-b) as nat);
    } else if a >= 0 && b >= 0 {
        lemma_digits_injective(a as nat, b as nat);
    } else if a < 0 {
        assert(signed_text(a)[0] == '-');
        assert(is_digit(signed_text(b)[0]));
    } else {
        assert(signed_text(b)[0] == '-');
        assert(is_digit(signed_text(a)[0]));
    }
}

fn digit_str(d: u8) -> (r: &'static str)
    requires
        d < 10,
    ensures
        r@ == seq![digit_char(d as nat)],
{
    proof {
        reveal_strlit("0");
        reveal_strlit("1");
        reveal_strlit("2");
        reveal_strlit("3");
        reveal_strlit("4");
        reveal_strlit("5");
        reveal_strlit("6");
        reveal_strlit("7");
        reveal_strlit("8");
        reveal_strlit("9");
    }
    match d {
        0 => "0",
        1 => "1",
        2 => "2",
        3 => "3",
        4 => "4",
        5 => "5",
        6 => "6",
        7 => "7",
        8 => "8",
        _ => "9",
    }
}

/// Appends the decimal text of `n` to `s`.
pub fn append_decimal(s: &mut String, n: u128)
    ensures
        final(s)@ == old(s)@ + digits_of(n as nat),
    decreases n,
{
    if n >= 10 {
        append_decimal(s, n / 10);
    }
    s.append(digit_str((n % 10) as u8));
    proof {
        if n >= 10 {
            assert(old(s)@ + digits_of(n as nat) =~= old(s)@ + digits_of((n / 10) as nat) + seq![digit_char((n % 10) as nat)]);
        }
    }
}

/// Appends the decimal text of `v`, with its sign, to `s`.
pub fn append_signed(s: &mut String, v: i32)
    ensures
        final(s)@ == old(s)@ + signed_text(v as int),
{
    if v < 0 {
        proof {
            reveal_strlit("-");
        }
        s.append("-");
        let m: i64 = -(v as i64);
        append_decimal(s, m as u128);
        assert(s@ =~= old(s)@ + signed_text(v as int));
    } else {
        append_decimal(s, v as u128);
    }
}

} // verus!
