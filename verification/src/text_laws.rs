//! What holds of words, numbers and their texts.
use vstd::arithmetic::power2::*;
use vstd::prelude::*;
use vstd::utf8::*;

use crate::binary64::Binary64;

verus! {

proof fn lemma_trim_front(s: Seq<char>) -> (n: int)
    ensures
        0 <= n <= s.len(),
        crate::text::trim_front(s) == s.skip(n),
        forall|i: int| 0 <= i < n ==> crate::text::is_space(#[trigger] s[i]),
        n < s.len() ==> !crate::text::is_space(s[n]),
    decreases s.len(),
{
    if s.len() > 0 && crate::text::is_space(s[0]) {
        let rest = s.skip(1);
        let m = lemma_trim_front(rest);
        assert(rest.skip(m) =~= s.skip(m + 1));
        assert forall|i: int| 0 <= i < m + 1 implies crate::text::is_space(#[trigger] s[i]) by {
            if i > 0 {
                assert(rest[i - 1] == s[i]);
            }
        }
        if m < rest.len() {
            assert(rest[m] == s[m + 1]);
        }
        m + 1
    } else {
        assert(s.skip(0) =~= s);
        0
    }
}

proof fn lemma_trim_back(s: Seq<char>) -> (n: int)
    ensures
        0 <= n <= s.len(),
        crate::text::trim_back(s) == s.take(n),
        forall|i: int| n <= i < s.len() ==> crate::text::is_space(#[trigger] s[i]),
        n > 0 ==> !crate::text::is_space(s[n - 1]),
    decreases s.len(),
{
    if s.len() > 0 && crate::text::is_space(s.last()) {
        let rest = s.drop_last();
        let n = lemma_trim_back(rest);
        assert(rest.take(n) =~= s.take(n));
        assert forall|i: int| n <= i < s.len() implies crate::text::is_space(#[trigger] s[i]) by {
            if i < rest.len() {
                assert(rest[i] == s[i]);
            }
        }
        n
    } else {
        assert(s.take(s.len() as int) =~= s);
        s.len() as int
    }
}

/// Trimming takes away the white space on both sides of a text and nothing else.
pub proof fn law_trimming_takes_the_white_space_around(s: Seq<char>)
    ensures
        exists|a: int, b: int|
            0 <= a <= b <= s.len() && crate::text::trimmed(s) == #[trigger] s.subrange(a, b) && (
            forall|i: int|
                (0 <= i < a || b <= i < s.len()) ==> crate::text::is_space(#[trigger] s[i])),
        crate::text::trimmed(s).len() > 0 ==> !crate::text::is_space(crate::text::trimmed(s)[0])
            && !crate::text::is_space(crate::text::trimmed(s).last()),
{
    let a = lemma_trim_front(s);
    let t = s.skip(a);
    let n = lemma_trim_back(t);
    let b = a + n;
    assert(t.take(n) =~= s.subrange(a, b));
    assert forall|i: int| (0 <= i < a || b <= i < s.len()) implies crate::text::is_space(
        #[trigger] s[i],
    ) by {
        if i >= b {
            assert(t[i - a] == s[i]);
        }
    }
    if n > 0 {
        assert(t[n - 1] == s[b - 1]);
        assert(s.subrange(a, b)[0] == s[a]);
        assert(s.subrange(a, b).last() == s[b - 1]);
    }
}

/// Whether a text is one word.
pub open spec fn is_word(s: Seq<char>) -> bool {
    s.len() > 0 && forall|i: int| 0 <= i < s.len() ==> !crate::text::is_space(#[trigger] s[i])
}

pub open spec fn are_words(parts: Seq<Seq<char>>) -> bool {
    forall|i: int| 0 <= i < parts.len() ==> is_word(#[trigger] parts[i])
}

proof fn lemma_word_len(word: Seq<char>, rest: Seq<char>)
    requires
        forall|i: int| 0 <= i < word.len() ==> !crate::text::is_space(#[trigger] word[i]),
        rest.len() > 0 ==> crate::text::is_space(rest[0]),
    ensures
        crate::text::word_len(word + rest) == word.len(),
    decreases word.len(),
{
    let s = word + rest;
    if word.len() > 0 {
        assert(s[0] == word[0]);
        assert(s.skip(1) =~= word.skip(1) + rest);
        assert forall|i: int| 0 <= i < word.skip(1).len() implies !crate::text::is_space(
            #[trigger] word.skip(1)[i],
        ) by {
            assert(word.skip(1)[i] == word[i + 1]);
        }
        lemma_word_len(word.skip(1), rest);
    } else if rest.len() > 0 {
        assert(s[0] == rest[0]);
    }
}

proof fn lemma_first_word(word: Seq<char>, rest: Seq<char>)
    requires
        is_word(word),
        rest.len() > 0 ==> crate::text::is_space(rest[0]),
    ensures
        crate::text::words(word + rest) == seq![word] + crate::text::words(rest),
{
    let s = word + rest;
    assert(s[0] == word[0]);
    assert(crate::text::trim_front(s) == s);
    lemma_word_len(word, rest);
    assert(s.take(word.len() as int) =~= word);
    assert(s.skip(word.len() as int) =~= rest);
}

proof fn lemma_space_before(rest: Seq<char>)
    ensures
        crate::text::words(seq![' '] + rest) == crate::text::words(rest),
{
    let s = seq![' '] + rest;
    assert(s[0] == ' ');
    assert(s.skip(1) =~= rest);
    assert(crate::text::trim_front(s) == crate::text::trim_front(rest));
}

proof fn lemma_joined_front(parts: Seq<Seq<char>>)
    requires
        parts.len() >= 2,
    ensures
        crate::text::joined(parts) == parts[0] + (seq![' '] + crate::text::joined(parts.skip(1))),
    decreases parts.len(),
{
    let front = parts.drop_last();
    let rest = parts.skip(1);
    if parts.len() == 2 {
        reveal_with_fuel(crate::text::joined, 3);
        assert(front.len() == 1 && rest.len() == 1);
        assert(front[0] == parts[0] && rest[0] == parts[1] && parts.last() == parts[1]);
        assert(crate::text::joined(parts) =~= parts[0] + (seq![' '] + rest[0]));
    } else {
        lemma_joined_front(front);
        assert(front.skip(1) =~= rest.drop_last());
        assert(rest.last() == parts.last());
        assert(crate::text::joined(parts) =~= parts[0] + (seq![' '] + (crate::text::joined(
            rest.drop_last(),
        ).push(' ') + rest.last())));
    }
}

/// Cutting words that are put together with spaces gives the words again, all of them.
pub proof fn law_words_come_apart(parts: Seq<Seq<char>>)
    requires
        are_words(parts),
    ensures
        crate::text::words(crate::text::joined(parts)) == parts,
    decreases parts.len(),
{
    if parts.len() == 0 {
        assert(crate::text::words(Seq::<char>::empty()) =~= parts);
    } else if parts.len() == 1 {
        assert(is_word(parts[0]));
        lemma_first_word(parts[0], Seq::empty());
        assert(parts[0] + Seq::<char>::empty() =~= parts[0]);
        assert(seq![parts[0]] + crate::text::words(Seq::<char>::empty()) =~= parts);
    } else {
        let rest = parts.skip(1);
        assert forall|i: int| 0 <= i < rest.len() implies is_word(#[trigger] rest[i]) by {
            assert(rest[i] == parts[i + 1]);
        }
        assert(is_word(parts[0]));
        law_words_come_apart(rest);
        lemma_joined_front(parts);
        lemma_first_word(parts[0], seq![' '] + crate::text::joined(rest));
        lemma_space_before(crate::text::joined(rest));
        assert(seq![parts[0]] + rest =~= parts);
    }
}

/// A line of a number, a name of one or more words and a power is the row of that process: with that
/// number and that whole name, and the power that the last word holds.
pub proof fn law_rows_are_read_word_by_word(pid: i32, name: Seq<Seq<char>>, power: Seq<char>)
    requires
        name.len() > 0,
        are_words(name),
        is_word(power),
    ensures
        ({
            let line = crate::text::joined(
                seq![crate::text::integer_text(pid as int)] + name + seq![power],
            );
            let row = crate::top_parse::parsed_row(line);
            &&& row is Some
            &&& row->0.pid == pid
            &&& row->0.process == crate::text::joined(name)
            &&& row->0.process_lc == crate::text::lowercase(crate::text::joined(name))
            &&& row->0.power_num == crate::top_parse::sanitized(
                crate::top_parse::numeric_value(power),
            )
            &&& row->0.power == crate::decimal::fixed_text(row->0.power_num, 1)
        }),
{
    let number = crate::text::integer_text(pid as int);
    let parts = seq![number] + name + seq![power];
    crate::text::law_integer_text_reads_back(pid);
    lemma_number_is_word(pid as int);
    assert forall|i: int| 0 <= i < parts.len() implies is_word(#[trigger] parts[i]) by {
        if 0 < i < parts.len() - 1 {
            assert(parts[i] == name[i - 1]);
        }
    }
    law_words_come_apart(parts);
    assert(parts[0] == number);
    assert(parts.last() == power);
    assert(parts.subrange(1, parts.len() - 1) =~= name);
}

proof fn lemma_number_is_word(n: int)
    ensures
        is_word(crate::text::integer_text(n)),
{
    let digits = crate::text::decimal_text(
        if n < 0 {
            (-n) as nat
        } else {
            n as nat
        },
    );
    crate::text::lemma_decimal_text(
        if n < 0 {
            (-n) as nat
        } else {
            n as nat
        },
    );
    let s = crate::text::integer_text(n);
    assert forall|i: int| 0 <= i < s.len() implies !crate::text::is_space(#[trigger] s[i]) by {
        if n < 0 {
            if i > 0 {
                assert(s[i] == digits[i - 1]);
                assert(crate::text::is_digit(digits[i - 1]));
            }
        } else {
            assert(crate::text::is_digit(digits[i]));
        }
    }
}

/// A line of fewer than three words is no row of a process, nor is one whose first word is no number.
pub proof fn law_other_lines_are_no_rows(line: Seq<char>)
    requires
        crate::text::words(line).len() < 3 || crate::text::parsed_i32(crate::text::words(line)[0])
            is None,
    ensures
        crate::top_parse::parsed_row(line) is None,
{
}

proof fn lemma_digits_kept(digits: Seq<char>, rest: Seq<char>, seen: bool, point: bool)
    requires
        crate::text::all_digits(digits),
    ensures
        crate::top_parse::number_text(digits + rest, seen, point) == digits
            + crate::top_parse::number_text(rest, seen || digits.len() > 0, point),
    decreases digits.len(),
{
    let s = digits + rest;
    if digits.len() == 0 {
        assert(s =~= rest);
        assert(digits + crate::top_parse::number_text(rest, seen, point)
            =~= crate::top_parse::number_text(rest, seen, point));
    } else {
        assert(crate::text::is_digit(digits[0]));
        assert(s[0] == digits[0]);
        assert(s.skip(1) =~= digits.skip(1) + rest);
        assert forall|i: int| 0 <= i < digits.skip(1).len() implies crate::text::is_digit(
            #[trigger] digits.skip(1)[i],
        ) by {
            assert(digits.skip(1)[i] == digits[i + 1]);
        }
        lemma_digits_kept(digits.skip(1), rest, true, point);
        let tail = crate::top_parse::number_text(rest, true, point);
        assert(seq![digits[0]] + (digits.skip(1) + tail) =~= digits + tail);
    }
}

proof fn lemma_trimmed_word(s: Seq<char>)
    requires
        is_word(s),
    ensures
        crate::text::trimmed(s) == s,
{
    assert(!crate::text::is_space(s[0]));
    assert(crate::text::trim_front(s) == s);
    assert(!crate::text::is_space(s[s.len() - 1]));
}

proof fn lemma_digits_are_word(digits: Seq<char>, rest: Seq<char>)
    requires
        crate::text::all_digits(digits),
        forall|i: int| 0 <= i < rest.len() ==> !crate::text::is_space(#[trigger] rest[i]),
    ensures
        forall|i: int|
            0 <= i < (digits + rest).len() ==> !crate::text::is_space(
                #[trigger] (digits + rest)[i],
            ),
{
    let s = digits + rest;
    assert forall|i: int| 0 <= i < s.len() implies !crate::text::is_space(#[trigger] s[i]) by {
        if i < digits.len() {
            assert(s[i] == digits[i]);
            assert(crate::text::is_digit(digits[i]));
        } else {
            assert(s[i] == rest[i - digits.len()]);
        }
    }
}

proof fn lemma_point_at(whole: Seq<char>, rest: Seq<char>)
    requires
        crate::text::all_digits(whole),
        rest.len() > 0 ==> rest[0] == '.',
    ensures
        crate::decimal::point_at(whole + rest) == whole.len(),
    decreases whole.len(),
{
    let s = whole + rest;
    if whole.len() > 0 {
        assert(crate::text::is_digit(whole[0]));
        assert(s[0] == whole[0]);
        assert(s.skip(1) =~= whole.skip(1) + rest);
        assert forall|i: int| 0 <= i < whole.skip(1).len() implies crate::text::is_digit(
            #[trigger] whole.skip(1)[i],
        ) by {
            assert(whole.skip(1)[i] == whole[i + 1]);
        }
        lemma_point_at(whole.skip(1), rest);
    } else if rest.len() > 0 {
        assert(s[0] == rest[0]);
    }
}

proof fn lemma_not_named(s: Seq<char>)
    requires
        s.len() > 0,
        crate::text::is_digit(s[0]),
    ensures
        !crate::decimal::names_infinity(s),
        !crate::decimal::names_nan(s),
{
    assert(crate::decimal::ascii_lower(s[0]) == s[0]);
}

proof fn lemma_magnitude(whole: Seq<char>, fraction: Seq<char>)
    requires
        whole.len() > 0,
        crate::text::all_digits(whole),
        crate::text::all_digits(fraction),
    ensures
        crate::decimal::parsed_magnitude(whole + (seq!['.'] + fraction)) == Some(
            crate::binary64::nearest(
                crate::text::decimal(whole + fraction) * pow2(1074),
                crate::decimal::ten_to(fraction.len()),
            ),
        ),
{
    let rest = seq!['.'] + fraction;
    let s = whole + rest;
    assert(rest[0] == '.');
    lemma_point_at(whole, rest);
    assert(s.take(whole.len() as int) =~= whole);
    assert(s.skip(whole.len() as int + 1) =~= fraction);
}

proof fn lemma_number_kept(whole: Seq<char>, fraction: Seq<char>)
    requires
        whole.len() > 0,
        crate::text::all_digits(whole),
        crate::text::all_digits(fraction),
    ensures
        ({
            let s = whole + (seq!['.'] + fraction);
            crate::top_parse::number_text(crate::text::trimmed(s), false, false) == s
        }),
{
    let none = Seq::<char>::empty();
    let rest = seq!['.'] + fraction;
    let s = whole + rest;
    assert(rest[0] == '.' && rest.skip(1) =~= fraction);
    lemma_digits_are_word(fraction, none);
    assert(fraction + none =~= fraction);
    assert forall|i: int| 0 <= i < rest.len() implies !crate::text::is_space(
        #[trigger] rest[i],
    ) by {
        if i > 0 {
            assert(rest[i] == fraction[i - 1]);
        }
    }
    lemma_digits_are_word(whole, rest);
    lemma_trimmed_word(s);
    lemma_digits_kept(whole, rest, false, false);
    lemma_digits_kept(fraction, none, true, true);
    assert(crate::top_parse::number_text(none, true, true) =~= none);
    assert(fraction + none =~= fraction);
    assert(crate::top_parse::number_text(rest, true, false) == seq!['.']
        + crate::top_parse::number_text(fraction, true, true));
}

/// Digits with a point among them stand for the nearest double to the decimal that they spell, all
/// digits counted.
pub proof fn law_decimals_are_read(whole: Seq<char>, fraction: Seq<char>)
    requires
        whole.len() > 0,
        crate::text::all_digits(whole),
        crate::text::all_digits(fraction),
    ensures
        crate::decimal::parsed(whole + (seq!['.'] + fraction)) == Some(
            Binary64 {
                bits: crate::binary64::nearest(
                    crate::text::decimal(whole + fraction) * pow2(1074),
                    crate::decimal::ten_to(fraction.len()),
                ),
            },
        ),
        crate::top_parse::numeric_value(whole + (seq!['.'] + fraction)) == (Binary64 {
            bits: crate::binary64::nearest(
                crate::text::decimal(whole + fraction) * pow2(1074),
                crate::decimal::ten_to(fraction.len()),
            ),
        }),
{
    let s = whole + (seq!['.'] + fraction);
    assert(crate::text::is_digit(whole[0]));
    assert(s[0] == whole[0]);
    lemma_not_named(s);
    lemma_magnitude(whole, fraction);
    lemma_number_kept(whole, fraction);
}

/// The same of digits without a point, and of a number with separating commas.
pub proof fn law_whole_numbers_are_read(whole: Seq<char>, more: Seq<char>)
    requires
        whole.len() > 0,
        crate::text::all_digits(whole),
        crate::text::all_digits(more),
    ensures
        crate::decimal::parsed(whole) == Some(
            Binary64 {
                bits: crate::binary64::nearest(
                    crate::text::decimal(whole) * pow2(1074),
                    1,
                ),
            },
        ),
        crate::top_parse::numeric_value(whole) == (Binary64 {
            bits: crate::binary64::nearest(crate::text::decimal(whole) * pow2(1074), 1),
        }),
        crate::top_parse::numeric_value(whole + (seq![','] + more))
            == crate::top_parse::numeric_value(whole + more),
{
    let none = Seq::<char>::empty();
    assert(whole + none =~= whole);
    assert(crate::text::is_digit(whole[0]));
    lemma_not_named(whole);
    lemma_point_at(whole, none);
    assert(whole.take(whole.len() as int) =~= whole);
    lemma_digits_are_word(whole, none);
    lemma_trimmed_word(whole);
    lemma_digits_kept(whole, none, false, false);
    assert(crate::top_parse::number_text(none, true, false) =~= none);
    let rest = seq![','] + more;
    let s = whole + rest;
    assert(rest[0] == ',' && rest.skip(1) =~= more);
    lemma_digits_are_word(more, none);
    assert(more + none =~= more);
    assert forall|i: int| 0 <= i < rest.len() implies !crate::text::is_space(
        #[trigger] rest[i],
    ) by {
        if i > 0 {
            assert(rest[i] == more[i - 1]);
        }
    }
    lemma_digits_are_word(whole, rest);
    lemma_trimmed_word(s);
    lemma_digits_are_word(whole, more);
    lemma_trimmed_word(whole + more);
    lemma_digits_kept(whole, rest, false, false);
    lemma_digits_kept(whole, more, false, false);
}

/// A number in text has one digit behind its point, and is off by half of one in that place at most.
pub proof fn law_figures_are_rounded_to_tenths(x: Binary64)
    requires
        x.finite(),
    ensures
        exists|tenths: nat|
            {
                let sign = if x.negative() {
                    seq!['-']
                } else {
                    Seq::empty()
                };
                &&& crate::decimal::fixed_text(x, 1) == sign + (#[trigger] crate::text::decimal_text(
                    tenths / 10,
                )).push('.').push(crate::text::digit_char(tenths % 10))
                &&& -pow2(1074) <= 2 * (tenths * pow2(1074) - 10 * crate::binary64::units(
                    x.magnitude() as nat,
                )) <= pow2(1074)
            },
{
    let p: nat = pow2(1074);
    lemma_pow2_pos(1074);
    let u: nat = crate::binary64::units(x.magnitude() as nat);
    assert(crate::decimal::ten_to(1) == 10) by {
        reveal_with_fuel(crate::decimal::ten_to, 2);
    }
    let tenths: nat = crate::binary64::round_half_even(u * 10, p);
    crate::binary64::lemma_half_even_error(u * 10, p);
    assert(crate::decimal::fixed_text(x, 1) == if x.negative() {
        seq!['-']
    } else {
        Seq::empty()
    } + crate::text::decimal_text(tenths / 10).push('.').push(
        crate::text::digit_char(tenths % 10),
    ));
}

/// A text comes before another where it is the front of it, or where at the first byte in which they
/// differ it has the smaller one.
pub proof fn law_texts_are_ordered_byte_by_byte(a: Seq<char>, b: Seq<char>)
    ensures
        crate::text::text_before(a, b) <==> comes_before(encode_utf8(a), encode_utf8(b)),
{
    reveal(crate::text::text_before);
    lemma_comes_before(encode_utf8(a), encode_utf8(b));
}

/// Whether bytes are the front of others, or smaller at the first place where both differ.
pub open spec fn comes_before(a: Seq<u8>, b: Seq<u8>) -> bool {
    exists|n: int|
        0 <= n <= a.len() && n < b.len() && #[trigger] a.take(n) == b.take(n) && (n == a.len()
            || a[n] < b[n])
}

proof fn lemma_comes_before(a: Seq<u8>, b: Seq<u8>)
    ensures
        crate::text::bytes_before(a, b) <==> comes_before(a, b),
    decreases b.len(),
{
    if b.len() > 0 && a.len() > 0 {
        let x = a.skip(1);
        let y = b.skip(1);
        lemma_comes_before(x, y);
        if a[0] == b[0] && comes_before(x, y) {
            let n = choose|n: int|
                0 <= n <= x.len() && n < y.len() && #[trigger] x.take(n) == y.take(n) && (n
                    == x.len() || x[n] < y[n]);
            assert(a.take(n + 1) =~= seq![a[0]] + x.take(n));
            assert(b.take(n + 1) =~= seq![b[0]] + y.take(n));
            assert(a.take(n + 1) == b.take(n + 1));
            if n < x.len() {
                assert(a[n + 1] == x[n] && b[n + 1] == y[n]);
            }
            assert(comes_before(a, b));
        }
        if a[0] < b[0] {
            assert(a.take(0) =~= b.take(0));
            assert(comes_before(a, b));
        }
        if comes_before(a, b) {
            let n = choose|n: int|
                0 <= n <= a.len() && n < b.len() && #[trigger] a.take(n) == b.take(n) && (n
                    == a.len() || a[n] < b[n]);
            if n > 0 {
                assert(a.take(n)[0] == a[0] && b.take(n)[0] == b[0]);
                assert(x.take(n - 1) =~= a.take(n).skip(1));
                assert(y.take(n - 1) =~= b.take(n).skip(1));
                assert(x.take(n - 1) == y.take(n - 1));
                if n < a.len() {
                    assert(a[n] == x[n - 1] && b[n] == y[n - 1]);
                }
                assert(comes_before(x, y));
            }
        }
    } else if b.len() > 0 {
        assert(a.take(0) =~= b.take(0));
        assert(comes_before(a, b));
    }
}

/// Texts with a line end between each two.
pub open spec fn with_line_ends(pieces: Seq<Seq<char>>) -> Seq<char>
    decreases pieces.len(),
{
    if pieces.len() == 0 {
        Seq::empty()
    } else if pieces.len() == 1 {
        pieces[0]
    } else {
        with_line_ends(pieces.drop_last()).push('\n') + pieces.last()
    }
}

/// A text is cut at every line end and nowhere else: put together again its lines are the text, and no
/// line holds a line end.
pub proof fn law_lines_make_up_the_text(s: Seq<char>)
    ensures
        with_line_ends(crate::text::lines(s)) == s,
        crate::text::lines(s).len() > 0,
        forall|i: int|
            0 <= i < crate::text::lines(s).len() ==> !(#[trigger] crate::text::lines(s)[i]).contains(
                '\n',
            ),
    decreases s.len(),
{
    let all = crate::text::lines(s);
    reveal_with_fuel(with_line_ends, 2);
    if s.len() == 0 {
        assert(all[0].len() == 0);
        assert(with_line_ends(all) =~= s);
    } else {
        let front = s.drop_last();
        let before = crate::text::lines(front);
        law_lines_make_up_the_text(front);
        let c = s.last();
        if c == '\n' {
            assert(all.drop_last() =~= before);
            assert(with_line_ends(all) =~= with_line_ends(before).push('\n'));
            assert(with_line_ends(all) =~= s);
        } else {
            let last = before.last().push(c);
            assert(all.drop_last() =~= before.drop_last());
            assert(all.last() == last);
            if before.len() == 1 {
                assert(with_line_ends(all) =~= with_line_ends(before).push(c));
            } else {
                assert(with_line_ends(all) =~= with_line_ends(before).push(c));
            }
            assert(with_line_ends(all) =~= s);
            assert forall|i: int| 0 <= i < all.len() implies !(#[trigger] all[i]).contains(
                '\n',
            ) by {
                if i < all.len() - 1 {
                    assert(all[i] == before[i]);
                } else if last.contains('\n') {
                    let k = choose|k: int| 0 <= k < last.len() && last[k] == '\n';
                    if k < last.len() - 1 {
                        assert(before.last()[k] == '\n');
                        assert(before[before.len() - 1].contains('\n'));
                    }
                }
            }
        }
    }
}

/// A threshold is shown as its figure in tenths, without the point where there are none.
pub proof fn law_thresholds_are_shown_short(x: Binary64, tenths: nat)
    requires
        x.finite(),
        !x.negative(),
        crate::decimal::fixed_text(x, 1) == crate::text::decimal_text(tenths / 10).push('.').push(
            crate::text::digit_char(tenths % 10),
        ),
    ensures
        tenths % 10 == 0 ==> crate::settings::setting_text(x) == crate::text::decimal_text(
            tenths / 10,
        ),
        tenths % 10 != 0 ==> crate::settings::setting_text(x) == crate::decimal::fixed_text(x, 1),
{
    let shown = crate::decimal::fixed_text(x, 1);
    let whole = crate::text::decimal_text(tenths / 10);
    crate::text::lemma_decimal_text(tenths / 10);
    let at = whole.len() as int;
    assert(shown[at] == '.');
    assert(shown.contains('.'));
    assert(shown.last() == crate::text::digit_char(tenths % 10));
    if tenths % 10 == 0 {
        assert(shown.last() == '0');
        let cut = shown.drop_last();
        assert(cut.last() == '.');
        reveal_with_fuel(crate::settings::without_trailing, 3);
        assert(crate::settings::without_trailing(shown, '0') == cut);
        assert(cut.drop_last() =~= whole);
    } else {
        assert(shown.last() != '0');
        assert(shown.last() != '.');
    }
}


/// Digits with an optional sign before them are read as the number that they spell, where an `i32`
/// holds it.
pub proof fn law_digits_are_read(digits: Seq<char>)
    requires
        digits.len() > 0,
        crate::text::all_digits(digits),
    ensures
        crate::text::parsed_i32(digits) == if crate::text::decimal(digits) <= 0x7fff_ffff {
            Some(crate::text::decimal(digits) as i32)
        } else {
            None
        },
        crate::text::parsed_i32(seq!['-'] + digits) == if crate::text::decimal(digits)
            <= 0x8000_0000 {
            Some((-(crate::text::decimal(digits) as int)) as i32)
        } else {
            None
        },
        crate::text::parsed_i32(seq!['+'] + digits) == crate::text::parsed_i32(digits),
{
    assert(crate::text::is_digit(digits[0]));
    assert((seq!['-'] + digits).skip(1) =~= digits);
    assert((seq!['+'] + digits).skip(1) =~= digits);
}

/// A text with anything but digits behind its sign is no number.
pub proof fn law_other_texts_are_no_numbers(s: Seq<char>, i: int)
    requires
        0 <= i < s.len(),
        !crate::text::is_digit(s[i]),
        i > 0 || (s[0] != '-' && s[0] != '+'),
    ensures
        crate::text::parsed_i32(s) is None,
{
    if s[0] == '-' || s[0] == '+' {
        assert(s.skip(1)[i - 1] == s[i]);
    }
}

/// Each further digit counts once, and those before it ten times as much.
pub proof fn law_digits_count_by_place(digits: Seq<char>, c: char)
    ensures
        crate::text::decimal(digits.push(c)) == 10 * crate::text::decimal(digits) + (c as int - '0'
            as int) || !('0' <= c <= '9'),
        crate::text::decimal(Seq::<char>::empty()) == 0,
{
    assert(digits.push(c).drop_last() =~= digits);
}

/// The digits of a number spell it, without needless zeros before them.
pub proof fn law_numbers_are_spelled(n: nat)
    ensures
        crate::text::decimal(crate::text::decimal_text(n)) == n,
        crate::text::all_digits(crate::text::decimal_text(n)),
        n >= 10 ==> crate::text::decimal_text(n)[0] != '0',
        n < 10 ==> crate::text::decimal_text(n).len() == 1,
    decreases n,
{
    crate::text::lemma_decimal_text(n);
    if n >= 10 {
        law_numbers_are_spelled(n / 10);
        assert(crate::text::decimal_text(n)[0] == crate::text::decimal_text(n / 10)[0]);
        if n / 10 < 10 {
            assert(crate::text::decimal_text(n / 10)[0] == crate::text::digit_char(n / 10));
        }
    }
}

/// A negative number has a minus before its digits.
pub proof fn law_negative_numbers_have_a_sign(n: nat)
    ensures
        crate::text::integer_text(n as int) == crate::text::decimal_text(n),
        n > 0 ==> crate::text::integer_text(-(n as int)) == seq!['-'] + crate::text::decimal_text(
            n,
        ),
{
}

/// Blanks, tabs and line ends are white space, and no letter, digit or sign is.
pub proof fn law_white_space(c: char)
    ensures
        c == ' ' || c == '\t' || c == '\n' || c == '\r' ==> crate::text::is_space(c),
        '!' <= c <= '~' ==> !crate::text::is_space(c),
{
}

/// What stands behind a number in the same word does not count.
pub proof fn law_units_behind_a_number_do_not_count(whole: Seq<char>, unit: Seq<char>)
    requires
        whole.len() > 0,
        crate::text::all_digits(whole),
        unit.len() > 0,
        forall|i: int| 0 <= i < unit.len() ==> !crate::text::is_space(#[trigger] unit[i]),
        !crate::text::is_digit(unit[0]) && unit[0] != ',' && unit[0] != '.',
    ensures
        crate::top_parse::numeric_value(whole + unit) == crate::top_parse::numeric_value(whole),
{
    let none = Seq::<char>::empty();
    lemma_digits_are_word(whole, unit);
    lemma_trimmed_word(whole + unit);
    lemma_digits_are_word(whole, none);
    assert(whole + none =~= whole);
    lemma_trimmed_word(whole);
    lemma_digits_kept(whole, unit, false, false);
    lemma_digits_kept(whole, none, false, false);
    assert(crate::top_parse::number_text(unit, true, false) =~= none);
    assert(crate::top_parse::number_text(none, true, false) =~= none);
}

/// A text without digits stands for nothing.
pub proof fn law_texts_without_digits_are_zero(s: Seq<char>)
    requires
        forall|i: int| 0 <= i < s.len() ==> !crate::text::is_digit(#[trigger] s[i]),
    ensures
        crate::top_parse::numeric_value(s) == (Binary64 { bits: 0 }),
{
    law_trimming_takes_the_white_space_around(s);
    let (a, b) = choose|a: int, b: int|
        0 <= a <= b <= s.len() && crate::text::trimmed(s) == #[trigger] s.subrange(a, b) && (
        forall|i: int|
            (0 <= i < a || b <= i < s.len()) ==> crate::text::is_space(#[trigger] s[i]));
    let t = s.subrange(a, b);
    assert forall|i: int| 0 <= i < t.len() implies !crate::text::is_digit(#[trigger] t[i]) by {
        assert(t[i] == s[a + i]);
    }
    lemma_no_digits(t, false);
    let none = Seq::<char>::empty();
    let point = seq!['.'];
    assert(crate::decimal::parsed_magnitude(none) is None);
    assert(point.take(0) =~= none);
    assert(point.skip(1) =~= none);
    assert(crate::decimal::point_at(point) == 0);
    assert(crate::decimal::parsed_magnitude(point) is None);
}

proof fn lemma_no_digits(s: Seq<char>, point: bool)
    requires
        forall|i: int| 0 <= i < s.len() ==> !crate::text::is_digit(#[trigger] s[i]),
    ensures
        ({
            let text = crate::top_parse::number_text(s, false, point);
            text == Seq::<char>::empty() || (!point && text == seq!['.'])
        }),
    decreases s.len(),
{
    if s.len() > 0 {
        let rest = s.skip(1);
        assert(!crate::text::is_digit(s[0]));
        assert forall|i: int| 0 <= i < rest.len() implies !crate::text::is_digit(
            #[trigger] rest[i],
        ) by {
            assert(rest[i] == s[i + 1]);
        }
        lemma_no_digits(rest, point);
        lemma_no_digits(rest, true);
        assert(seq!['.'] + Seq::<char>::empty() =~= seq!['.']);
    }
}

/// A number in text without places is the nearest whole one.
pub proof fn law_scales_are_rounded_to_wholes(x: Binary64)
    requires
        x.finite(),
        !x.negative(),
    ensures
        exists|n: nat|
            {
                &&& crate::decimal::fixed_text(x, 0) == #[trigger] crate::text::decimal_text(n)
                &&& -pow2(1074) <= 2 * (n * pow2(1074) - crate::binary64::units(
                    x.magnitude() as nat,
                )) <= pow2(1074)
            },
{
    let p: nat = pow2(1074);
    lemma_pow2_pos(1074);
    let u: nat = crate::binary64::units(x.magnitude() as nat);
    assert(u * crate::decimal::ten_to(0) == u) by (nonlinear_arith)
        requires
            crate::decimal::ten_to(0) == 1,
    ;
    let n: nat = crate::binary64::round_half_even(u, p);
    crate::binary64::lemma_half_even_error(u, p);
    assert(crate::decimal::fixed_text(x, 0) =~= crate::text::decimal_text(n));
}

} // verus!
