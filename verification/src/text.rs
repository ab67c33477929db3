//! Text: decimal numerals, white space and the characters of a string.

use vstd::prelude::*;
use vstd::string::*;

verus! {

/// The characters of `s`, in order.
pub fn chars_of(s: &str) -> (chars: Vec<char>)
    ensures
        chars@ == s@,
{
    let mut chars: Vec<char> = Vec::new();
    for c in it: s.chars()
        invariant
            it.seq() == s@,
            chars@ == it.seq().take(it.index() as int),
    {
        chars.push(c);
        assert(chars@ =~= it.seq().take(it.index() + 1));
    }
    assert(chars@ =~= s@);
    chars
}

/// The texts of `lines`, in order.
pub open spec fn texts(lines: &Vec<String>) -> Seq<Seq<char>> {
    Seq::new(lines@.len(), |i: int| lines@[i]@)
}

/// The character for the decimal digit `n`.
pub open spec fn digit(n: nat) -> char {
    if n == 0 {
        '0'
    } else if n == 1 {
        '1'
    } else if n == 2 {
        '2'
    } else if n == 3 {
        '3'
    } else if n == 4 {
        '4'
    } else if n == 5 {
        '5'
    } else if n == 6 {
        '6'
    } else if n == 7 {
        '7'
    } else if n == 8 {
        '8'
    } else {
        '9'
    }
}

/// The decimal numeral of `n`, without leading zeros.
pub open spec fn decimal(n: nat) -> Seq<char>
    decreases n,
{
    if n < 10 {
        seq![digit(n)]
    } else {
        decimal(n / 10).push(digit(n % 10))
    }
}

/// The text of the decimal digit `n`.
fn digit_text(n: u32) -> (text: &'static str)
    requires
        n < 10,
    ensures
        text@ == seq![digit(n as nat)],
{
    proof {
        reveal_strlit("0");
        reveal_strlit("1");
        reveal_strlit("2");
        reveal_strlit("3");
        reveal_strlit("4");
        reveal_strlit("5");
        reveal_strlit("6");
        reveal_strlit("7");
        reveal_strlit("8");
        reveal_strlit("9");
    }
    let text = if n == 0 {
        "0"
    } else if n == 1 {
        "1"
    } else if n == 2 {
        "2"
    } else if n == 3 {
        "3"
    } else if n == 4 {
        "4"
    } else if n == 5 {
        "5"
    } else if n == 6 {
        "6"
    } else if n == 7 {
        "7"
    } else if n == 8 {
        "8"
    } else {
        "9"
    };
    assert(text@ =~= seq![digit(n as nat)]);
    text
}

/// Writes the decimal numeral of `n` at the end of `text`.
pub fn push_decimal(text: &mut String, n: u32)
    ensures
        final(text)@ == old(text)@ + decimal(n as nat),
    decreases n,
{
    if n >= 10 {
        push_decimal(text, n / 10);
    }
    text.append(digit_text(n % 10));
    assert(text@ =~= old(text)@ + decimal(n as nat));
}

/// White space: the characters with the Unicode property `White_Space`.
pub open spec fn is_white_space(c: char) -> bool {
    let u = c as u32;
    ||| 0x09 <= u <= 0x0D
    ||| u == 0x20
    ||| u == 0x85
    ||| u == 0xA0
    ||| u == 0x1680
    ||| 0x2000 <= u <= 0x200A
    ||| u == 0x2028
    ||| u == 0x2029
    ||| u == 0x202F
    ||| u == 0x205F
    ||| u == 0x3000
}

/// Decides whether `c` is white space.
pub fn white_space(c: char) -> (white: bool)
    ensures
        white == is_white_space(c),
{
    let u = c as u32;
    (0x09 <= u && u <= 0x0D) || u == 0x20 || u == 0x85 || u == 0xA0 || u == 0x1680 || (0x2000 <= u
        && u <= 0x200A) || u == 0x2028 || u == 0x2029 || u == 0x202F || u == 0x205F || u == 0x3000
}

/// `s` without the white space at its start.
pub open spec fn trim_start(s: Seq<char>) -> Seq<char>
    decreases s.len(),
{
    if s.len() > 0 && is_white_space(s[0]) {
        trim_start(s.drop_first())
    } else {
        s
    }
}

/// `s` without the white space at its end.
pub open spec fn trim_end(s: Seq<char>) -> Seq<char>
    decreases s.len(),
{
    if s.len() > 0 && is_white_space(s.last()) {
        trim_end(s.drop_last())
    } else {
        s
    }
}

/// `s` without the white space at its start and at its end.
pub open spec fn trimmed(s: Seq<char>) -> Seq<char> {
    trim_end(trim_start(s))
}

/// Finds the part of `chars[lo..hi]` that is left when the white space at its
/// start and at its end is taken away.
pub fn trim_bounds(chars: &Vec<char>, lo: usize, hi: usize) -> (bounds: (usize, usize))
    requires
        lo <= hi <= chars@.len(),
    ensures
        lo <= bounds.0 <= bounds.1 <= hi,
        chars@.subrange(bounds.0 as int, bounds.1 as int) == trimmed(
            chars@.subrange(lo as int, hi as int),
        ),
{
    let mut a: usize = lo;
    while a < hi && white_space(chars[a])
        invariant
            lo <= a <= hi <= chars@.len(),
            trim_start(chars@.subrange(lo as int, hi as int)) == trim_start(
                chars@.subrange(a as int, hi as int),
            ),
        decreases hi - a,
    {
        assert(chars@.subrange(a as int, hi as int).drop_first() =~= chars@.subrange(
            a + 1,
            hi as int,
        ));
        a += 1;
    }
    let mut b: usize = hi;
    while a < b && white_space(chars[b - 1])
        invariant
            a <= b <= hi <= chars@.len(),
            trim_end(chars@.subrange(a as int, hi as int)) == trim_end(
                chars@.subrange(a as int, b as int),
            ),
        decreases b - a,
    {
        assert(chars@.subrange(a as int, b as int).drop_last() =~= chars@.subrange(
            a as int,
            b - 1,
        ));
        b -= 1;
    }
    (a, b)
}

/// `c` is a decimal digit.
pub open spec fn is_digit(c: char) -> bool {
    48 <= c as u32 <= 57
}

/// Every character of `s` is a decimal digit.
pub open spec fn all_digits(s: Seq<char>) -> bool {
    forall|i: int| 0 <= i < s.len() ==> is_digit(#[trigger] s[i])
}

/// The number that the decimal digits `digits` stand for.
pub open spec fn number_value(digits: Seq<char>) -> nat
    decreases digits.len(),
{
    if digits.len() == 0 {
        0
    } else {
        (10 * number_value(digits.drop_last()) + (digits.last() as u32 - 48)) as nat
    }
}

/// The number that `s` is the numeral of: `s` is an optional `+` and then at
/// least one decimal digit and nothing else, and the number fits in 32 bits.
pub open spec fn parse_number(s: Seq<char>) -> Option<u32> {
    let digits = if s.len() > 0 && s[0] == '+' {
        s.drop_first()
    } else {
        s
    };
    if digits.len() > 0 && all_digits(digits) && number_value(digits) <= u32::MAX {
        Some(number_value(digits) as u32)
    } else {
        None
    }
}

/// The first digits of a numeral stand for no more than the whole numeral.
proof fn lemma_number_grows(digits: Seq<char>, n: int)
    requires
        all_digits(digits),
        0 <= n <= digits.len(),
    ensures
        number_value(digits.take(n)) <= number_value(digits),
    decreases digits.len(),
{
    if n < digits.len() {
        assert(digits.drop_last().take(n) =~= digits.take(n));
        assert(is_digit(digits[digits.len() - 1]));
        lemma_number_grows(digits.drop_last(), n);
    } else {
        assert(digits.take(n) =~= digits);
    }
}

/// Reads `chars[lo..hi]` as a number.
pub fn parse_number_in(chars: &Vec<char>, lo: usize, hi: usize) -> (number: Option<u32>)
    requires
        lo <= hi <= chars@.len(),
    ensures
        number == parse_number(chars@.subrange(lo as int, hi as int)),
{
    let ghost s = chars@.subrange(lo as int, hi as int);
    let start: usize = if lo < hi && chars[lo] == '+' {
        lo + 1
    } else {
        lo
    };
    let ghost digits = chars@.subrange(start as int, hi as int);
    assert(digits =~= (if s.len() > 0 && s[0] == '+' {
        s.drop_first()
    } else {
        s
    }));
    if start == hi {
        return None;
    }
    let mut value: u32 = 0;
    let mut i: usize = start;
    assert(digits.take(0) =~= Seq::<char>::empty());
    while i < hi
        invariant
            lo <= start <= i <= hi <= chars@.len(),
            start < hi,
            s == chars@.subrange(lo as int, hi as int),
            digits == chars@.subrange(start as int, hi as int),
            digits == (if s.len() > 0 && s[0] == '+' {
                s.drop_first()
            } else {
                s
            }),
            all_digits(digits.take(i - start)),
            value == number_value(digits.take(i - start)),
        decreases hi - i,
    {
        let u = chars[i] as u32;
        let ghost seen = digits.take(i - start);
        let ghost next = digits.take(i - start + 1);
        proof {
            assert(next.drop_last() =~= seen);
            assert(next.last() == chars@[i as int]);
        }
        if u < 48 || u > 57 {
            assert(!is_digit(digits[i - start]));
            return None;
        }
        assert(all_digits(next)) by {
            assert forall|k: int| 0 <= k < next.len() implies is_digit(#[trigger] next[k]) by {
                if k < seen.len() {
                    assert(is_digit(seen[k]));
                }
            }
        }
        let wide: u64 = value as u64 * 10 + (u - 48) as u64;
        if wide > u32::MAX as u64 {
            proof {
                if all_digits(digits) {
                    lemma_number_grows(digits, i - start + 1);
                }
            }
            return None;
        }
        value = wide as u32;
        i += 1;
    }
    assert(digits.take(i - start) =~= digits);
    Some(value)
}

} // verus!
