//! What taking strings apart and writing numbers comes to.
use crate::text::{
    decimal_of, digit_char, is_digit, lemma_position, lemma_position_bound, parse_u32_of,
    position_of, split_of, split_once_of, strip_suffix_of, trim_end_of, trim_of, trim_start_of,
    unsigned_digits, value_of, white_space,
};
use vstd::prelude::*;

verus! {

/// Whether a text is white space and nothing else.
pub open spec fn all_white(s: Seq<char>) -> bool {
    forall|i: int| 0 <= i < s.len() ==> white_space(#[trigger] s[i])
}

/// Whether a text is decimal digits and nothing else.
pub open spec fn all_digits(s: Seq<char>) -> bool {
    forall|i: int| 0 <= i < s.len() ==> is_digit(#[trigger] s[i])
}

/// The pieces in one text, with a separator between one and the next.
pub open spec fn rejoined(pieces: Seq<Seq<char>>, c: char) -> Seq<char>
    decreases pieces.len(),
{
    if pieces.len() == 0 {
        seq![]
    } else if pieces.len() == 1 {
        pieces[0]
    } else {
        pieces[0] + seq![c] + rejoined(pieces.drop_first(), c)
    }
}

/// Of the characters that ASCII has, the space, the tab and the line breaks are white space
/// and no other.
pub proof fn law_white_space_among_ascii(c: char)
    requires
        (c as int) < 128,
    ensures
        white_space(c) <==> c == ' ' || c == '\t' || c == '\n' || c == '\r' || c as int == 0xb
            || c as int == 0xc,
{
}

/// Trimming at the start takes white space off and leaves none there.
pub proof fn law_trim_start_takes_white_space_off(s: Seq<char>)
    ensures
        exists|lead: Seq<char>| #[trigger] all_white(lead) && s == lead + trim_start_of(s),
        trim_start_of(s).len() > 0 ==> !white_space(trim_start_of(s)[0]),
    decreases s.len(),
{
    if s.len() > 0 && white_space(s[0]) {
        let rest = s.drop_first();
        law_trim_start_takes_white_space_off(rest);
        let lead = choose|lead: Seq<char>|
            #[trigger] all_white(lead) && rest == lead + trim_start_of(rest);
        let longer = seq![s[0]] + lead;
        assert forall|i: int| 0 <= i < longer.len() implies white_space(#[trigger] longer[i]) by {
            if i > 0 {
                assert(longer[i] == lead[i - 1]);
            }
        }
        assert(all_white(longer));
        let left = trim_start_of(rest);
        assert(trim_start_of(s) == left);
        assert forall|i: int| 0 <= i < s.len() implies #[trigger] s[i] == (longer + left)[i] by {
            if i > 0 {
                assert(s[i] == rest[i - 1]);
                assert(rest[i - 1] == (lead + left)[i - 1]);
            }
        }
        assert(s.len() == rest.len() + 1);
        assert(s =~= longer + left);
    } else {
        assert(all_white(seq![]));
        assert(s =~= seq![] + trim_start_of(s));
    }
}

/// Trimming at the end takes white space off and leaves none there.
pub proof fn law_trim_end_takes_white_space_off(s: Seq<char>)
    ensures
        exists|trail: Seq<char>| #[trigger] all_white(trail) && s == trim_end_of(s) + trail,
        trim_end_of(s).len() > 0 ==> !white_space(trim_end_of(s).last()),
    decreases s.len(),
{
    if s.len() > 0 && white_space(s.last()) {
        let rest = s.drop_last();
        law_trim_end_takes_white_space_off(rest);
        let trail = choose|trail: Seq<char>|
            #[trigger] all_white(trail) && rest == trim_end_of(rest) + trail;
        let longer = trail.push(s.last());
        assert(all_white(longer));
        let left = trim_end_of(rest);
        assert(trim_end_of(s) == left);
        assert forall|i: int| 0 <= i < s.len() implies #[trigger] s[i] == (left + longer)[i] by {
            if i < rest.len() {
                assert(s[i] == rest[i]);
                assert(rest[i] == (left + trail)[i]);
            }
        }
        assert(s.len() == rest.len() + 1);
        assert(s =~= left + longer);
    } else {
        assert(all_white(seq![]));
        assert(s =~= trim_end_of(s) + seq![]);
    }
}

/// Trimming takes white space off both ends and leaves none at either.
pub proof fn law_trim_takes_white_space_off(s: Seq<char>)
    ensures
        exists|lead: Seq<char>, trail: Seq<char>|
            #[trigger] all_white(lead) && #[trigger] all_white(trail) && s == lead + trim_of(s)
                + trail,
        trim_of(s).len() > 0 ==> !white_space(trim_of(s)[0]) && !white_space(trim_of(s).last()),
{
    let started = trim_start_of(s);
    law_trim_start_takes_white_space_off(s);
    law_trim_end_takes_white_space_off(started);
    let lead = choose|lead: Seq<char>| #[trigger] all_white(lead) && s == lead + started;
    let trail = choose|trail: Seq<char>|
        #[trigger] all_white(trail) && started == trim_of(s) + trail;
    assert(s =~= lead + trim_of(s) + trail);
    if trim_of(s).len() > 0 {
        assert(trim_of(s)[0] == started[0]);
    }
}

/// What trimming gives is settled by what is taken off: a text that neither starts nor ends in
/// white space is what is left of it with white space around it.
pub proof fn law_trim_undoes_white_space_around(
    lead: Seq<char>,
    core: Seq<char>,
    trail: Seq<char>,
)
    requires
        all_white(lead),
        all_white(trail),
        core.len() > 0 ==> !white_space(core[0]) && !white_space(core.last()),
    ensures
        trim_of(lead + core + trail) == core,
{
    let s = lead + core + trail;
    if core.len() > 0 {
        lemma_trim_start_of(lead, core + trail);
        assert(s =~= lead + (core + trail));
        lemma_trim_end_of(core, trail);
    } else {
        assert forall|i: int| 0 <= i < s.len() implies white_space(#[trigger] s[i]) by {
            if i < lead.len() {
                assert(s[i] == lead[i]);
            } else {
                assert(s[i] == trail[i - lead.len()]);
            }
        }
        lemma_trim_start_of(s, seq![]);
        assert(s + seq![] =~= s);
        assert(trim_of(s) =~= core);
    }
}

/// White space before a text that does not start with any is all that is taken off it.
pub(crate) proof fn lemma_trim_start_of(lead: Seq<char>, rest: Seq<char>)
    requires
        all_white(lead),
        rest.len() > 0 ==> !white_space(rest[0]),
    ensures
        trim_start_of(lead + rest) == rest,
    decreases lead.len(),
{
    let s = lead + rest;
    if lead.len() > 0 {
        assert(s[0] == lead[0]);
        assert(s.drop_first() =~= lead.drop_first() + rest);
        lemma_trim_start_of(lead.drop_first(), rest);
    } else {
        assert(s =~= rest);
    }
}

/// White space after a text that does not end in any is all that is taken off it.
pub(crate) proof fn lemma_trim_end_of(rest: Seq<char>, trail: Seq<char>)
    requires
        all_white(trail),
        rest.len() > 0 ==> !white_space(rest.last()),
    ensures
        trim_end_of(rest + trail) == rest,
    decreases trail.len(),
{
    let s = rest + trail;
    if trail.len() > 0 {
        assert(s.last() == trail.last());
        assert(s.drop_last() =~= rest + trail.drop_last());
        lemma_trim_end_of(rest, trail.drop_last());
    } else {
        assert(s =~= rest);
    }
}

/// A text is split at the first occurrence of a character: what stands before holds none, and
/// the parts with the character between them are the text. A text without it is not split.
pub proof fn law_split_once_is_at_the_first(s: Seq<char>, c: char)
    ensures
        split_once_of(s, c) is None <==> !s.contains(c),
        split_once_of(s, c) matches Some((head, tail)) ==> !head.contains(c) && s == head + seq![c]
            + tail,
{
    let i = position_of(s, c) as int;
    lemma_position(s, c);
    if i < s.len() {
        assert(s[i] == c);
        assert(s =~= s.take(i) + seq![c] + s.skip(i + 1));
    }
}

/// A text that holds no separator, the separator and anything after it are split into the two.
pub proof fn law_split_once_finds_the_parts(head: Seq<char>, c: char, tail: Seq<char>)
    requires
        !head.contains(c),
    ensures
        split_once_of(head + seq![c] + tail, c) == Some((head, tail)),
{
    let s = head + seq![c] + tail;
    let i = position_of(s, c) as int;
    lemma_position(s, c);
    let n = head.len() as int;
    assert(s[n] == c);
    if i < n {
        assert(s[i] == head[i]);
        assert(head.contains(c));
    }
    if i > n {
        assert(s[n] != c);
    }
    assert(s.take(n) =~= head);
    assert(s.skip(n + 1) =~= tail);
}

/// The pieces of a text hold no separator and give the text again with one between each and
/// the next; there is always one.
pub proof fn law_pieces_give_the_text_again(s: Seq<char>, c: char)
    ensures
        split_of(s, c).len() > 0,
        rejoined(split_of(s, c), c) == s,
        forall|i: int|
            0 <= i < split_of(s, c).len() ==> !(#[trigger] split_of(s, c)[i]).contains(c),
    decreases s.len(),
{
    law_split_once_is_at_the_first(s, c);
    let pieces = split_of(s, c);
    match split_once_of(s, c) {
        Some((head, tail)) => {
            lemma_position_bound(s, c);
            assert(tail.len() < s.len());
            law_pieces_give_the_text_again(tail, c);
            let rest = split_of(tail, c);
            assert(pieces == seq![head] + rest);
            assert(pieces.drop_first() =~= rest);
            assert forall|i: int| 0 <= i < pieces.len() implies !(#[trigger] pieces[i]).contains(
                c,
            ) by {
                if i > 0 {
                    assert(pieces[i] == rest[i - 1]);
                }
            }
        },
        None => {},
    }
}

/// Pieces that hold no separator are what their text is split into.
pub proof fn law_split_finds_the_pieces(pieces: Seq<Seq<char>>, c: char)
    requires
        pieces.len() > 0,
        forall|i: int| 0 <= i < pieces.len() ==> !(#[trigger] pieces[i]).contains(c),
    ensures
        split_of(rejoined(pieces, c), c) == pieces,
    decreases pieces.len(),
{
    let s = rejoined(pieces, c);
    assert(!pieces[0].contains(c));
    law_split_once_is_at_the_first(s, c);
    if pieces.len() == 1 {
        assert(split_of(s, c) =~= pieces);
    } else {
        let rest = pieces.drop_first();
        assert forall|i: int| 0 <= i < rest.len() implies !(#[trigger] rest[i]).contains(c) by {
            assert(rest[i] == pieces[i + 1]);
        }
        law_split_finds_the_pieces(rest, c);
        law_split_once_finds_the_parts(pieces[0], c, rejoined(rest, c));
        lemma_position_bound(s, c);
        assert(split_of(s, c) =~= seq![pieces[0]] + rest);
        assert(split_of(s, c) =~= pieces);
    }
}

/// A suffix comes off exactly the texts that end in it, and what is left with the suffix is
/// the text.
pub proof fn law_a_suffix_comes_off(s: Seq<char>, head: Seq<char>, suffix: Seq<char>)
    ensures
        strip_suffix_of(head + suffix, suffix) == Some(head),
        strip_suffix_of(s, suffix) matches Some(left) ==> s == left + suffix,
        strip_suffix_of(s, suffix) is None ==> s != head + suffix,
{
    let whole = head + suffix;
    assert(whole.skip(head.len() as int) =~= suffix);
    assert(whole.take(head.len() as int) =~= head);
    if strip_suffix_of(s, suffix) is Some {
        assert(s =~= strip_suffix_of(s, suffix)->0 + suffix);
    }
}

/// No digits write zero, and one more digit is ten times as much and that digit.
pub proof fn law_one_more_digit_is_ten_times_as_much(digits: Seq<char>, d: nat)
    requires
        d < 10,
    ensures
        value_of(Seq::empty()) == 0,
        value_of(digits.push(digit_char(d))) == 10 * value_of(digits) + d,
        is_digit(digit_char(d)),
        digit_char(d) as int == '0' as int + d,
{
    assert(digits.push(digit_char(d)).drop_last() =~= digits);
}

/// A number in decimal is digits that write the number, with no zero before them.
pub proof fn law_decimals_write_their_number(n: nat)
    ensures
        value_of(decimal_of(n)) == n,
        all_digits(decimal_of(n)),
        decimal_of(n).len() > 0,
        decimal_of(n)[0] == '0' ==> n == 0,
        n == 0 ==> decimal_of(n) == seq!['0'],
    decreases n,
{
    law_one_more_digit_is_ten_times_as_much(Seq::empty(), n % 10);
    if n >= 10 {
        law_decimals_write_their_number(n / 10);
        law_one_more_digit_is_ten_times_as_much(decimal_of(n / 10), n % 10);
    } else {
        assert(decimal_of(n) =~= Seq::empty().push(digit_char(n)));
    }
}

/// What is read is what is written: a number in decimal is read as the number where it fits,
/// with a plus sign before it or zeros, and not at all where it does not fit.
pub proof fn law_numbers_are_read_as_written(n: nat)
    ensures
        n <= u32::MAX ==> parse_u32_of(decimal_of(n)) == Some(n as u32),
        n <= u32::MAX ==> parse_u32_of(seq!['+'] + decimal_of(n)) == Some(n as u32),
        n <= u32::MAX ==> parse_u32_of(seq!['0'] + decimal_of(n)) == Some(n as u32),
        n > u32::MAX ==> parse_u32_of(decimal_of(n)) is None,
{
    let digits = decimal_of(n);
    law_decimals_write_their_number(n);
    assert(is_digit(digits[0]));
    assert(unsigned_digits(digits) == digits);
    let signed = seq!['+'] + digits;
    assert(signed.skip(1) =~= digits);
    let padded = seq!['0'] + digits;
    assert(unsigned_digits(padded) == padded);
    lemma_leading_zero(digits);
    assert forall|i: int| 0 <= i < padded.len() implies is_digit(#[trigger] padded[i]) by {
        if i > 0 {
            assert(padded[i] == digits[i - 1]);
        }
    }
}

/// A zero before digits changes nothing.
proof fn lemma_leading_zero(digits: Seq<char>)
    ensures
        value_of(seq!['0'] + digits) == value_of(digits),
    decreases digits.len(),
{
    let padded = seq!['0'] + digits;
    if digits.len() > 0 {
        lemma_leading_zero(digits.drop_last());
        assert(padded.drop_last() =~= seq!['0'] + digits.drop_last());
        assert(padded.last() == digits.last());
    } else {
        assert(padded =~= seq!['0']);
        assert(padded.drop_last() =~= Seq::<char>::empty());
        assert(value_of(padded.drop_last()) == 0);
        assert(padded.last() == '0');
        assert('0' as nat == 48);
    }
}

/// Nothing is read from a text that has no digit, or anything but digits behind an optional
/// plus sign.
pub proof fn law_only_digits_are_read(s: Seq<char>)
    requires
        s.len() == 0 || s == seq!['+'] || (exists|i: int|
            0 <= i < s.len() && !is_digit(#[trigger] s[i]) && !(i == 0 && s[i] == '+')),
    ensures
        parse_u32_of(s) is None,
{
    let digits = unsigned_digits(s);
    if exists|i: int| 0 <= i < s.len() && !is_digit(#[trigger] s[i]) && !(i == 0 && s[i] == '+') {
        let i = choose|i: int|
            0 <= i < s.len() && !is_digit(#[trigger] s[i]) && !(i == 0 && s[i] == '+');
        if s[0] == '+' {
            assert(digits[i - 1] == s[i]);
        } else {
            assert(digits[i] == s[i]);
        }
    }
}

} // verus!
