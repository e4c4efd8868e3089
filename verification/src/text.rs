//! Rendering numbers into messages.
use vstd::prelude::*;
use vstd::string::*;

verus! {

/// The digit `d` in upper-case hexadecimal (and so, below ten, in decimal).
pub open spec fn digit(d: nat) -> char {
    if d < 10 {
        (48 + d) as char
    } else {
        (55 + d) as char
    }
}

/// `n` in decimal, without leading zeros.
pub open spec fn decimal(n: nat) -> Seq<char>
    decreases n,
{
    if n < 10 {
        seq![digit(n)]
    } else {
        decimal(n / 10).push(digit(n % 10))
    }
}

/// The last `width` hexadecimal digits of `n`.
pub open spec fn hex(n: nat, width: nat) -> Seq<char>
    decreases width,
{
    if width == 0 {
        Seq::empty()
    } else {
        hex(n / 16, (width - 1) as nat).push(digit(n % 16))
    }
}

/// The digit `d` as a string.
fn digit_str(d: u64) -> (s: &'static str)
    requires
        d < 16,
    ensures
        s@ == seq![digit(d as nat)],
{
    proof {
        reveal_strlit("0");
        reveal_strlit("1");
        reveal_strlit("2");
        reveal_strlit("3");
        reveal_strlit("4");
        reveal_strlit("5");
        reveal_strlit("6");
        reveal_strlit("7");
        reveal_strlit("8");
        reveal_strlit("9");
        reveal_strlit("A");
        reveal_strlit("B");
        reveal_strlit("C");
        reveal_strlit("D");
        reveal_strlit("E");
        reveal_strlit("F");
    }
    let s: &'static str = match d {
        0 => "0",
        1 => "1",
        2 => "2",
        3 => "3",
        4 => "4",
        5 => "5",
        6 => "6",
        7 => "7",
        8 => "8",
        9 => "9",
        10 => "A",
        11 => "B",
        12 => "C",
        13 => "D",
        14 => "E",
        _ => "F",
    };
    assert(s@ =~= seq![digit(d as nat)]);
    s
}

/// Appends `n` in decimal.
pub fn push_decimal(s: &mut String, n: u64)
    ensures
        final(s)@ == old(s)@ + decimal(n as nat),
    decreases n,
{
    if n >= 10 {
        push_decimal(s, n / 10);
    }
    s.append(digit_str(n % 10));
    assert(s@ =~= old(s)@ + decimal(n as nat));
}

/// Appends the last `width` hexadecimal digits of `n`.
pub fn push_hex(s: &mut String, n: u64, width: u32)
    ensures
        final(s)@ == old(s)@ + hex(n as nat, width as nat),
    decreases width,
{
    if width > 0 {
        push_hex(s, n / 16, width - 1);
        s.append(digit_str(n % 16));
    }
    assert(s@ =~= old(s)@ + hex(n as nat, width as nat));
}

/// What a digit stands for: '0' to '9', then 'A' to 'F'.
pub open spec fn digit_value(c: char) -> int {
    if c <= '9' {
        c as int - '0' as int
    } else {
        c as int - 'A' as int + 10
    }
}

/// A decimal digit.
pub open spec fn is_digit(c: char) -> bool {
    '0' <= c <= '9'
}

/// The number that digits stand for, to the given base.
pub open spec fn number(digits: Seq<char>, base: int) -> int
    decreases digits.len(),
{
    if digits.len() == 0 {
        0
    } else {
        number(digits.drop_last(), base) * base + digit_value(digits.last())
    }
}

/// A number in decimal stands for that number: it is made of digits, without leading zeros.
pub proof fn law_decimal(n: nat)
    ensures
        number(decimal(n), 10) == n,
        decimal(n).len() > 0,
        forall|i: int| 0 <= i < decimal(n).len() ==> is_digit(#[trigger] decimal(n)[i]),
        n > 0 ==> decimal(n)[0] != '0',
        n < 10 ==> decimal(n).len() == 1,
    decreases n,
{
    let s = decimal(n);
    if n >= 10 {
        law_decimal(n / 10);
        let less = decimal(n / 10);
        assert(s.drop_last() =~= less);
        assert forall|i: int| 0 <= i < s.len() implies is_digit(#[trigger] s[i]) by {
            if i < less.len() {
                assert(s[i] == less[i]);
            }
        }
    } else {
        assert(s.drop_last() =~= Seq::<char>::empty());
        assert(number(s.drop_last(), 10) == 0);
    }
}

/// Different numbers read differently in decimal.
pub proof fn law_decimal_tells_apart(a: nat, b: nat)
    requires
        a != b,
    ensures
        decimal(a) != decimal(b),
{
    law_decimal(a);
    law_decimal(b);
}

/// A 64-bit number in sixteen hexadecimal digits stands for that number; each digit is one of
/// '0' to '9' and 'A' to 'F'.
pub proof fn law_hex(n: u64)
    ensures
        number(hex(n as nat, 16), 16) == n,
        hex(n as nat, 16).len() == 16,
        forall|i: int|
            0 <= i < 16 ==> is_digit(#[trigger] hex(n as nat, 16)[i]) || 'A' <= hex(n as nat, 16)[i]
                <= 'F',
{
    lemma_hex(n as nat, 16);
    assert(0x1_0000_0000_0000_0000 == vstd::arithmetic::power::pow(16, 16)) by {
        reveal_with_fuel(vstd::arithmetic::power::pow, 17);
    }
}

proof fn lemma_hex(n: nat, width: nat)
    ensures
        n < vstd::arithmetic::power::pow(16, width) ==> number(hex(n, width), 16) == n,
        hex(n, width).len() == width,
        forall|i: int|
            0 <= i < width ==> is_digit(#[trigger] hex(n, width)[i]) || 'A' <= hex(n, width)[i]
                <= 'F',
    decreases width,
{
    if width > 0 {
        let less = (width - 1) as nat;
        lemma_hex(n / 16, less);
        let s = hex(n, width);
        assert(s.drop_last() =~= hex(n / 16, less));
        vstd::arithmetic::power::lemma_pow_adds(16, 1, less);
        vstd::arithmetic::power::lemma_pow1(16);
        assert forall|i: int| 0 <= i < width implies is_digit(#[trigger] s[i]) || 'A' <= s[i]
            <= 'F' by {
            if i < less {
                assert(s[i] == hex(n / 16, less)[i]);
            }
        }
    } else {
        vstd::arithmetic::power::lemma_pow0(16);
    }
}

/// Where a text goes on after a number with something else than a digit, the number and what
/// follows can be told.
pub proof fn lemma_number_ends(a: nat, rest: Seq<char>, b: nat, other: Seq<char>)
    requires
        rest.len() == 0 || !is_digit(rest[0]),
        other.len() == 0 || !is_digit(other[0]),
        decimal(a) + rest == decimal(b) + other,
    ensures
        a == b,
        rest == other,
{
    law_decimal(a);
    law_decimal(b);
    let x = decimal(a);
    let y = decimal(b);
    let s = x + rest;
    assert(s.len() == y.len() + other.len());
    if x.len() < y.len() {
        assert(s[x.len() as int] == rest[0]);
        assert(s[x.len() as int] == y[x.len() as int]);
    } else if y.len() < x.len() {
        assert(s[y.len() as int] == other[0]);
        assert(s[y.len() as int] == x[y.len() as int]);
    }
    assert(x =~= s.take(x.len() as int));
    assert(y =~= s.take(x.len() as int));
    assert(rest =~= s.skip(x.len() as int));
    assert(other =~= s.skip(x.len() as int));
    if a != b {
        law_decimal_tells_apart(a, b);
    }
}

/// Two texts that start with the same words go on the same exactly if they are the same.
pub proof fn lemma_same_start(words: Seq<char>, a: Seq<char>, b: Seq<char>)
    ensures
        words + a == words + b <==> a == b,
{
    assert((words + a).skip(words.len() as int) =~= a);
    assert((words + b).skip(words.len() as int) =~= b);
}

} // verus!
