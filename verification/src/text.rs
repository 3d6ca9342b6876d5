//! Numbers as text.

use vstd::prelude::*;

verus! {

/// The character of a decimal digit.
pub open spec fn digit(d: nat) -> char {
    (48 + d) as char
}

/// `n` in decimal, with no leading zero.
pub open spec fn decimal(n: nat) -> Seq<char>
    decreases n,
{
    if n < 10 {
        seq![digit(n)]
    } else {
        decimal(n / 10).push(digit(n % 10))
    }
}

fn digit_text(d: u16) -> (r: &'static str)
    requires
        d < 10,
    ensures
        r@ == seq![digit(d as nat)],
{
    proof {
        reveal_strlit("0");
        reveal_strlit("1");
        reveal_strlit("2");
        reveal_strlit("3");
        reveal_strlit("4");
        reveal_strlit("5");
        reveal_strlit("6");
        reveal_strlit("7");
        reveal_strlit("8");
        reveal_strlit("9");
    }
    let r: &'static str = match d {
        0 => "0",
        1 => "1",
        2 => "2",
        3 => "3",
        4 => "4",
        5 => "5",
        6 => "6",
        7 => "7",
        8 => "8",
        _ => "9",
    };
    assert(r@ =~= seq![digit(d as nat)]);
    r
}

/// `out` with `n` in decimal behind it.
pub fn append_decimal(out: &mut String, n: u16)
    ensures
        final(out)@ == old(out)@ + decimal(n as nat),
    decreases n,
{
    if n >= 10 {
        append_decimal(out, n / 10);
    }
    out.append(digit_text(n % 10));
    assert(out@ =~= old(out)@ + decimal(n as nat));
}

/// The character is a decimal digit.
pub open spec fn is_digit(c: char) -> bool {
    '0' <= c <= '9'
}

/// A number in decimal is digits alone, one at least.
pub proof fn law_decimal_is_digits(n: nat)
    ensures
        decimal(n).len() >= 1,
        forall|i: int| 0 <= i < decimal(n).len() ==> is_digit(#[trigger] decimal(n)[i]),
    decreases n,
{
    if n >= 10 {
        law_decimal_is_digits(n / 10);
    }
}

/// Two numbers with the same digits are the same number.
pub proof fn law_decimal_is_injective(a: nat, b: nat)
    requires
        decimal(a) == decimal(b),
    ensures
        a == b,
    decreases a,
{
    law_decimal_is_digits(a / 10);
    law_decimal_is_digits(b / 10);
    assert(decimal(a).last() == digit(a % 10));
    assert(decimal(b).last() == digit(b % 10));
    if a >= 10 && b >= 10 {
        assert(decimal(a).drop_last() =~= decimal(a / 10));
        assert(decimal(b).drop_last() =~= decimal(b / 10));
        law_decimal_is_injective(a / 10, b / 10);
    }
}

/// A number in decimal behind a mark that ends in no digit can be told from
/// what is before it.
pub proof fn law_number_behind_a_mark(
    before: Seq<char>,
    other: Seq<char>,
    mark: Seq<char>,
    a: nat,
    b: nat,
)
    requires
        mark.len() > 0,
        !is_digit(mark.last()),
        before + mark + decimal(a) == other + mark + decimal(b),
    ensures
        a == b,
        before == other,
{
    let x = before + mark + decimal(a);
    let y = other + mark + decimal(b);
    let m = decimal(a).len();
    let n = decimal(b).len();
    let len = x.len() as int;
    law_decimal_is_digits(a);
    law_decimal_is_digits(b);
    if m < n {
        assert(x[len - m - 1] == mark.last());
        assert(y[len - m - 1] == decimal(b)[n - m - 1]);
    } else if n < m {
        assert(y[len - n - 1] == mark.last());
        assert(x[len - n - 1] == decimal(a)[m - n - 1]);
    }
    assert(decimal(a) =~= x.skip(len - m));
    assert(decimal(b) =~= y.skip(len - m));
    law_decimal_is_injective(a, b);
    assert(before =~= x.take(before.len() as int));
    assert(other =~= y.take(before.len() as int));
}

/// The number that the digits `s` stand for, each ten times the next.
pub open spec fn value_of(s: Seq<char>) -> int
    decreases s.len(),
{
    if s.len() == 0 {
        0
    } else {
        10 * value_of(s.drop_last()) + (s.last() as int - '0' as int)
    }
}

/// `s` is how one writes `n`: digits that stand for it, and no zero ahead of
/// others.
pub open spec fn writes(s: Seq<char>, n: int) -> bool {
    &&& s.len() > 0
    &&& forall|i: int| 0 <= i < s.len() ==> is_digit(#[trigger] s[i])
    &&& s.len() > 1 ==> s[0] != '0'
    &&& value_of(s) == n
}

/// A number in decimal is how one writes it.
pub proof fn law_decimal_writes_the_number(n: nat)
    ensures
        writes(decimal(n), n as int),
    decreases n,
{
    law_decimal_is_digits(n);
    if n < 10 {
        assert(decimal(n).drop_last() =~= Seq::empty());
        reveal_with_fuel(value_of, 2);
    } else {
        law_decimal_writes_the_number(n / 10);
        law_decimal_is_digits(n / 10);
        assert(decimal(n).drop_last() =~= decimal(n / 10));
        assert(decimal(n)[0] == decimal(n / 10)[0]);
        if decimal(n / 10).len() == 1 {
            reveal_with_fuel(value_of, 2);
            assert(decimal(n / 10).drop_last() =~= Seq::empty());
        }
    }
}

} // verus!
