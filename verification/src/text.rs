//! The string operations that device strings, file names and version strings are read with,
//! stated over sequences of characters.
use vstd::prelude::*;

verus! {

/// Whether `c` has the Unicode `White_Space` property.
pub open spec fn white_space(c: char) -> bool {
    let code = c as int;
    ||| 0x9 <= code <= 0xd
    ||| code == 0x20
    ||| code == 0x85
    ||| code == 0xa0
    ||| code == 0x1680
    ||| 0x2000 <= code <= 0x200a
    ||| code == 0x2028
    ||| code == 0x2029
    ||| code == 0x202f
    ||| code == 0x205f
    ||| code == 0x3000
}

/// Whether `c` has the Unicode `White_Space` property.
pub fn is_white_space(c: char) -> (r: bool)
    ensures
        r == white_space(c),
{
    let code: u32 = c as u32;
    (0x9 <= code && code <= 0xd) || code == 0x20 || code == 0x85 || code == 0xa0 || code == 0x1680
        || (0x2000 <= code && code <= 0x200a) || code == 0x2028 || code == 0x2029 || code == 0x202f
        || code == 0x205f || code == 0x3000
}

/// `s` without its leading white space.
pub open spec fn trim_start_of(s: Seq<char>) -> Seq<char>
    decreases s.len(),
{
    if s.len() > 0 && white_space(s[0]) {
        trim_start_of(s.drop_first())
    } else {
        s
    }
}

/// `s` without its trailing white space.
pub open spec fn trim_end_of(s: Seq<char>) -> Seq<char>
    decreases s.len(),
{
    if s.len() > 0 && white_space(s.last()) {
        trim_end_of(s.drop_last())
    } else {
        s
    }
}

/// `s` without white space at either end.
pub open spec fn trim_of(s: Seq<char>) -> Seq<char> {
    trim_end_of(trim_start_of(s))
}

/// `s` without its leading white space.
pub fn trim_start(s: &str) -> (r: &str)
    ensures
        r@ == trim_start_of(s@),
{
    let n: usize = s.unicode_len();
    let mut from: usize = 0;
    proof {
        assert(s@.skip(0) =~= s@);
    }
    while from < n && is_white_space(s.get_char(from))
        invariant
            n == s@.len(),
            from <= n,
            trim_start_of(s@.skip(from as int)) == trim_start_of(s@),
        decreases n - from,
    {
        proof {
            assert(s@.skip(from as int).drop_first() =~= s@.skip(from + 1));
        }
        from = from + 1;
    }
    proof {
        assert(s@.skip(from as int) =~= s@.subrange(from as int, n as int));
    }
    s.substring_char(from, n)
}

/// `s` without its trailing white space.
pub fn trim_end(s: &str) -> (r: &str)
    ensures
        r@ == trim_end_of(s@),
{
    let mut to: usize = s.unicode_len();
    proof {
        assert(s@.take(to as int) =~= s@);
    }
    while to > 0 && is_white_space(s.get_char(to - 1))
        invariant
            to <= s@.len(),
            trim_end_of(s@.take(to as int)) == trim_end_of(s@),
        decreases to,
    {
        proof {
            assert(s@.take(to as int).drop_last() =~= s@.take(to - 1));
        }
        to = to - 1;
    }
    proof {
        assert(s@.take(to as int) =~= s@.subrange(0, to as int));
    }
    s.substring_char(0, to)
}

/// `s` without white space at either end.
pub fn trim(s: &str) -> (r: &str)
    ensures
        r@ == trim_of(s@),
{
    trim_end(trim_start(s))
}

/// Where `c` first occurs in `s`, or the length of `s` when it does not.
pub open spec fn position_of(s: Seq<char>, c: char) -> nat
    decreases s.len(),
{
    if s.len() == 0 || s[0] == c {
        0
    } else {
        1 + position_of(s.drop_first(), c)
    }
}

/// What stands before and after the first `c` in `s`.
pub open spec fn split_once_of(s: Seq<char>, c: char) -> Option<(Seq<char>, Seq<char>)> {
    let i = position_of(s, c) as int;
    if i < s.len() {
        Some((s.take(i), s.skip(i + 1)))
    } else {
        None
    }
}

/// The pieces of `s` between one `c` and the next.
pub open spec fn split_of(s: Seq<char>, c: char) -> Seq<Seq<char>>
    decreases s.len(),
{
    match split_once_of(s, c) {
        Some((head, tail)) => {
            proof {
                lemma_position_bound(s, c);
            }
            seq![head] + split_of(tail, c)
        },
        None => seq![s],
    }
}

/// The first occurrence lies within the sequence.
pub proof fn lemma_position_bound(s: Seq<char>, c: char)
    ensures
        position_of(s, c) <= s.len(),
    decreases s.len(),
{
    if s.len() != 0 && s[0] != c {
        lemma_position_bound(s.drop_first(), c);
    }
}

/// The first occurrence is where the character is found and was not found before.
pub proof fn lemma_position(s: Seq<char>, c: char)
    ensures
        position_of(s, c) <= s.len(),
        position_of(s, c) < s.len() ==> s[position_of(s, c) as int] == c,
        forall|i: int| 0 <= i < position_of(s, c) ==> s[i] != c,
    decreases s.len(),
{
    if s.len() != 0 && s[0] != c {
        let rest = s.drop_first();
        lemma_position(rest, c);
        assert forall|i: int| 0 <= i < position_of(s, c) implies s[i] != c by {
            if i > 0 {
                assert(s[i] == rest[i - 1]);
            }
        }
        if position_of(s, c) < s.len() {
            assert(s[position_of(s, c) as int] == rest[position_of(rest, c) as int]);
        }
    }
}

/// Where `c` first occurs in `s`, or the length of `s` when it does not.
pub fn position(s: &str, c: char) -> (r: usize)
    ensures
        r == position_of(s@, c),
        r <= s@.len(),
{
    let n: usize = s.unicode_len();
    let mut i: usize = 0;
    proof {
        assert(s@.skip(0) =~= s@);
    }
    while i < n && s.get_char(i) != c
        invariant
            n == s@.len(),
            i <= n,
            i + position_of(s@.skip(i as int), c) == position_of(s@, c),
        decreases n - i,
    {
        proof {
            assert(s@.skip(i as int).drop_first() =~= s@.skip(i + 1));
        }
        i = i + 1;
    }
    i
}

/// What stands before and after the first `c` in `s`.
pub fn split_once(s: &str, c: char) -> (r: Option<(&str, &str)>)
    ensures
        match r {
            Some((head, tail)) => split_once_of(s@, c) == Some((head@, tail@)),
            None => split_once_of(s@, c) is None,
        },
{
    let n: usize = s.unicode_len();
    let i: usize = position(s, c);
    if i < n {
        let head = s.substring_char(0, i);
        let tail = s.substring_char(i + 1, n);
        proof {
            assert(head@ =~= s@.take(i as int));
            assert(tail@ =~= s@.skip(i + 1));
        }
        Some((head, tail))
    } else {
        None
    }
}

/// The pieces of `s` between one `c` and the next.
pub fn split(s: &str, c: char) -> (r: Vec<&str>)
    ensures
        r@.len() == split_of(s@, c).len(),
        forall|i: int| 0 <= i < r@.len() ==> (#[trigger] r@[i])@ == split_of(s@, c)[i],
{
    let mut pieces: Vec<&str> = Vec::new();
    let mut rest: &str = s;
    let mut last: bool = false;
    while !last
        invariant
            !last ==> pieces@.len() + split_of(rest@, c).len() == split_of(s@, c).len(),
            last ==> pieces@.len() == split_of(s@, c).len(),
            forall|i: int| 0 <= i < pieces@.len() ==> (#[trigger] pieces@[i])@ == split_of(s@, c)[i],
            !last ==> forall|i: int|
                0 <= i < split_of(rest@, c).len() ==> #[trigger] split_of(rest@, c)[i] == split_of(
                    s@,
                    c,
                )[pieces@.len() + i],
        decreases
                if last {
                    0
                } else {
                    1 + rest@.len()
                },
    {
        let ghost whole = split_of(rest@, c);
        let ghost done = pieces@.len() as int;
        match split_once(rest, c) {
            Some((head, tail)) => {
                proof {
                    lemma_position_bound(rest@, c);
                    assert(whole[0] == head@);
                    assert forall|i: int| 0 <= i < split_of(tail@, c).len() implies
                        #[trigger] split_of(tail@, c)[i] == split_of(s@, c)[done + 1 + i] by {
                        assert(split_of(tail@, c)[i] == whole[i + 1]);
                    }
                }
                pieces.push(head);
                rest = tail;
            },
            None => {
                proof {
                    assert(whole[0] == rest@);
                }
                pieces.push(rest);
                last = true;
            },
        }
    }
    pieces
}

/// Whether two strings hold the same characters.
pub fn equal(a: &str, b: &str) -> (r: bool)
    ensures
        r == (a@ == b@),
{
    let n: usize = a.unicode_len();
    if n != b.unicode_len() {
        return false;
    }
    let mut i: usize = 0;
    while i < n
        invariant
            n == a@.len(),
            n == b@.len(),
            i <= n,
            forall|k: int| 0 <= k < i ==> a@[k] == b@[k],
        decreases n - i,
    {
        if a.get_char(i) != b.get_char(i) {
            return false;
        }
        i = i + 1;
    }
    proof {
        assert(a@ =~= b@);
    }
    true
}

/// What stands before `suffix`, when `s` ends in it.
pub open spec fn strip_suffix_of(s: Seq<char>, suffix: Seq<char>) -> Option<Seq<char>> {
    let head = s.len() - suffix.len();
    if head >= 0 && s.skip(head) == suffix {
        Some(s.take(head))
    } else {
        None
    }
}

/// What stands before `suffix`, when `s` ends in it.
pub fn strip_suffix<'a>(s: &'a str, suffix: &str) -> (r: Option<&'a str>)
    ensures
        match r {
            Some(head) => strip_suffix_of(s@, suffix@) == Some(head@),
            None => strip_suffix_of(s@, suffix@) is None,
        },
{
    let n: usize = s.unicode_len();
    let m: usize = suffix.unicode_len();
    if n < m {
        return None;
    }
    let tail = s.substring_char(n - m, n);
    proof {
        assert(tail@ =~= s@.skip(n - m));
    }
    if equal(tail, suffix) {
        let head = s.substring_char(0, n - m);
        proof {
            assert(head@ =~= s@.take(n - m));
        }
        Some(head)
    } else {
        None
    }
}

/// The character of a decimal digit.
pub open spec fn digit_char(d: nat) -> char
    recommends
        d < 10,
{
    (d + 48) as char
}

/// `n` in decimal, without leading zeros.
pub open spec fn decimal_of(n: nat) -> Seq<char>
    decreases n,
{
    if n < 10 {
        seq![digit_char(n)]
    } else {
        decimal_of(n / 10).push(digit_char(n % 10))
    }
}

/// One decimal digit as a string.
fn digit_text(d: usize) -> (r: &'static str)
    requires
        d < 10,
    ensures
        r@ == seq![digit_char(d as nat)],
{
    proof {
        reveal_strlit("0");
        reveal_strlit("1");
        reveal_strlit("2");
        reveal_strlit("3");
        reveal_strlit("4");
        reveal_strlit("5");
        reveal_strlit("6");
        reveal_strlit("7");
        reveal_strlit("8");
        reveal_strlit("9");
    }
    let text: &'static str = match d {
        0 => "0",
        1 => "1",
        2 => "2",
        3 => "3",
        4 => "4",
        5 => "5",
        6 => "6",
        7 => "7",
        8 => "8",
        _ => "9",
    };
    proof {
        assert(text@ =~= seq![digit_char(d as nat)]);
    }
    text
}

/// `n` in decimal, without leading zeros.
pub fn decimal(n: usize) -> (r: String)
    ensures
        r@ == decimal_of(n as nat),
    decreases n,
{
    if n < 10 {
        digit_text(n).to_owned()
    } else {
        let mut text: String = decimal(n / 10);
        let ghost head = text@;
        let digit = digit_text(n % 10);
        text.append(digit);
        proof {
            assert(text@ =~= head.push(digit_char((n % 10) as nat)));
        }
        text
    }
}

/// Whether `c` is a decimal digit.
pub open spec fn is_digit(c: char) -> bool {
    48 <= c as int <= 57
}

/// The number that a sequence of decimal digits writes.
pub open spec fn value_of(digits: Seq<char>) -> nat
    decreases digits.len(),
{
    if digits.len() == 0 {
        0
    } else {
        10 * value_of(digits.drop_last()) + (digits.last() as nat - 48) as nat
    }
}

/// The digits of a number that may carry a plus sign.
pub open spec fn unsigned_digits(s: Seq<char>) -> Seq<char> {
    if s.len() > 0 && s[0] == '+' {
        s.skip(1)
    } else {
        s
    }
}

/// The `u32` that `s` writes in decimal, if it writes one.
pub open spec fn parse_u32_of(s: Seq<char>) -> Option<u32> {
    let digits = unsigned_digits(s);
    if digits.len() > 0 && (forall|i: int| 0 <= i < digits.len() ==> is_digit(#[trigger] digits[i]))
        && value_of(digits) <= u32::MAX {
        Some(value_of(digits) as u32)
    } else {
        None
    }
}

/// More digits never write a smaller number.
proof fn lemma_value_grows(digits: Seq<char>, n: int)
    requires
        0 <= n <= digits.len(),
    ensures
        value_of(digits.take(n)) <= value_of(digits),
    decreases digits.len() - n,
{
    if n == digits.len() {
        assert(digits.take(n) =~= digits);
    } else {
        lemma_value_grows(digits, n + 1);
        assert(digits.take(n + 1).drop_last() =~= digits.take(n));
    }
}

/// The `u32` that `s` writes in decimal, if it writes one.
pub fn parse_u32(s: &str) -> (r: Option<u32>)
    ensures
        r == parse_u32_of(s@),
{
    let n: usize = s.unicode_len();
    let start: usize = if n > 0 && s.get_char(0) == '+' {
        1
    } else {
        0
    };
    let ghost digits = unsigned_digits(s@);
    proof {
        assert(digits =~= s@.skip(start as int));
    }
    if start == n {
        return None;
    }
    let mut value: u32 = 0;
    let mut i: usize = start;
    while i < n
        invariant
            n == s@.len(),
            start <= i <= n,
            digits == s@.skip(start as int),
            digits == unsigned_digits(s@),
            forall|k: int| 0 <= k < i - start ==> is_digit(#[trigger] digits[k]),
            value == value_of(digits.take(i - start)),
        decreases n - i,
    {
        let c: char = s.get_char(i);
        let code: u32 = c as u32;
        proof {
            assert(digits[i - start] == c);
        }
        if code < 48 || code > 57 {
            return None;
        }
        proof {
            assert(digits.take(i + 1 - start).drop_last() =~= digits.take(i - start));
            lemma_value_grows(digits, i + 1 - start);
        }
        let wide: u64 = 10 * (value as u64) + (code - 48) as u64;
        if wide > 0xffff_ffff {
            return None;
        }
        value = wide as u32;
        i = i + 1;
    }
    proof {
        assert(digits.take(n - start) =~= digits);
    }
    Some(value)
}

/// `head` followed by `tail`.
pub fn joined(head: &str, tail: &str) -> (r: String)
    ensures
        r@ == head@ + tail@,
{
    let mut text: String = head.to_owned();
    text.append(tail);
    text
}

} // verus!
