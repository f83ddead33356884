//! Text as sequences of characters: splitting, searching, ordering and decimal digits.
use vstd::prelude::*;
use vstd::utf8::*;

verus! {

/// `String::push` puts one character behind the others.
pub assume_specification[ String::push ](s: &mut String, c: char)
    ensures
        final(s)@ == old(s)@.push(c),
;

/// `String::pop` takes the last character away, if there is one.
pub assume_specification[ String::pop ](s: &mut String) -> (c: Option<char>)
    ensures
        old(s)@.len() == 0 ==> c is None && final(s)@ == old(s)@,
        old(s)@.len() > 0 ==> c == Some(old(s)@.last()) && final(s)@ == old(s)@.drop_last(),
;

/// The lower-case form of a text, as `str::to_lowercase` gives it.
pub uninterp spec fn lowercase(text: Seq<char>) -> Seq<char>;

/// Calls `str::to_lowercase`, whose result depends on the characters of the text alone.
#[verifier::external_body]
pub(crate) fn to_lowercase(text: &str) -> (lower: String)
    ensures
        lower@ == lowercase(text@),
{
    text.to_lowercase()
}

/// The characters that count as white space in Unicode.
pub open spec fn is_space(c: char) -> bool {
    ||| '\u{9}' <= c <= '\u{d}'
    ||| c == ' '
    ||| c == '\u{85}'
    ||| c == '\u{a0}'
    ||| c == '\u{1680}'
    ||| '\u{2000}' <= c <= '\u{200a}'
    ||| c == '\u{2028}'
    ||| c == '\u{2029}'
    ||| c == '\u{202f}'
    ||| c == '\u{205f}'
    ||| c == '\u{3000}'
}

/// Whether a character is one of the ten ASCII digits.
pub open spec fn is_digit(c: char) -> bool {
    '0' <= c <= '9'
}

/// A text without the white space in front of it.
pub open spec fn trim_front(s: Seq<char>) -> Seq<char>
    decreases s.len(),
{
    if s.len() > 0 && is_space(s[0]) {
        trim_front(s.skip(1))
    } else {
        s
    }
}

/// A text without the white space behind it.
pub open spec fn trim_back(s: Seq<char>) -> Seq<char>
    decreases s.len(),
{
    if s.len() > 0 && is_space(s.last()) {
        trim_back(s.drop_last())
    } else {
        s
    }
}

/// A text without the white space around it.
pub open spec fn trimmed(s: Seq<char>) -> Seq<char> {
    trim_back(trim_front(s))
}

/// The number of characters before the first white space.
pub open spec fn word_len(s: Seq<char>) -> nat
    decreases s.len(),
{
    if s.len() == 0 || is_space(s[0]) {
        0
    } else {
        1 + word_len(s.skip(1))
    }
}

pub proof fn lemma_word_len(s: Seq<char>)
    ensures
        word_len(s) <= s.len(),
        s.len() > 0 && !is_space(s[0]) ==> word_len(s) > 0,
    decreases s.len(),
{
    if s.len() > 0 && !is_space(s[0]) {
        lemma_word_len(s.skip(1));
    }
}

pub proof fn lemma_trim_front(s: Seq<char>)
    ensures
        trim_front(s).len() <= s.len(),
        trim_front(s).len() > 0 ==> !is_space(trim_front(s)[0]),
    decreases s.len(),
{
    if s.len() > 0 && is_space(s[0]) {
        lemma_trim_front(s.skip(1));
    }
}

/// The pieces of a text between white space.
pub open spec fn words(s: Seq<char>) -> Seq<Seq<char>>
    decreases s.len(),
{
    let t = trim_front(s);
    if t.len() == 0 {
        Seq::empty()
    } else {
        proof {
            lemma_trim_front(s);
            lemma_word_len(t);
        }
        seq![t.take(word_len(t) as int)] + words(t.skip(word_len(t) as int))
    }
}

/// Texts with one space between each two.
pub open spec fn joined(parts: Seq<Seq<char>>) -> Seq<char>
    decreases parts.len(),
{
    if parts.len() == 0 {
        Seq::empty()
    } else if parts.len() == 1 {
        parts[0]
    } else {
        joined(parts.drop_last()).push(' ') + parts.last()
    }
}

/// Whether one text occurs within another.
pub open spec fn has_part(s: Seq<char>, part: Seq<char>) -> bool {
    exists|i: int|
        0 <= i <= s.len() - part.len() && #[trigger] s.subrange(i, i + part.len()) == part
}

/// Whether a text starts with another.
pub open spec fn starts_with(s: Seq<char>, front: Seq<char>) -> bool {
    front.len() <= s.len() && s.take(front.len() as int) == front
}

/// Lexicographic order of byte sequences.
pub open spec fn bytes_before(a: Seq<u8>, b: Seq<u8>) -> bool
    decreases b.len(),
{
    if b.len() == 0 {
        false
    } else if a.len() == 0 {
        true
    } else if a[0] != b[0] {
        a[0] < b[0]
    } else {
        bytes_before(a.skip(1), b.skip(1))
    }
}

/// The order of texts, which is that of their UTF-8 bytes.
#[verifier::opaque]
pub open spec fn text_before(a: Seq<char>, b: Seq<char>) -> bool {
    bytes_before(encode_utf8(a), encode_utf8(b))
}

/// The number that a digit stands for.
pub open spec fn digit(c: char) -> nat {
    (c as u32 - '0' as u32) as nat
}

/// The digit that stands for a number below ten.
pub open spec fn digit_char(d: nat) -> char {
    ('0' as u32 + d) as char
}

pub open spec fn all_digits(s: Seq<char>) -> bool {
    forall|i: int| 0 <= i < s.len() ==> is_digit(#[trigger] s[i])
}

/// The number that decimal digits stand for.
pub open spec fn decimal(s: Seq<char>) -> nat
    decreases s.len(),
{
    if s.len() == 0 {
        0
    } else {
        10 * decimal(s.drop_last()) + digit(s.last())
    }
}

/// The decimal digits of a number.
pub open spec fn decimal_text(n: nat) -> Seq<char>
    decreases n,
{
    if n < 10 {
        seq![digit_char(n)]
    } else {
        decimal_text(n / 10).push(digit_char(n % 10))
    }
}

/// The decimal form of a whole number, with a sign where it is negative.
pub open spec fn integer_text(n: int) -> Seq<char> {
    if n < 0 {
        seq!['-'] + decimal_text((-n) as nat)
    } else {
        decimal_text(n as nat)
    }
}

/// The `i32` that a text stands for: digits, with an optional sign before them.
pub open spec fn parsed_i32(s: Seq<char>) -> Option<i32> {
    let signed = s.len() > 0 && (s[0] == '-' || s[0] == '+');
    let body = if signed {
        s.skip(1)
    } else {
        s
    };
    let value = if signed && s[0] == '-' {
        -(decimal(body) as int)
    } else {
        decimal(body) as int
    };
    if body.len() == 0 || !all_digits(body) || value < i32::MIN || value > i32::MAX {
        None
    } else {
        Some(value as i32)
    }
}

/// Whether a character is white space.
pub fn space(c: char) -> (b: bool)
    ensures
        b == is_space(c),
{
    ('\u{9}' <= c && c <= '\u{d}') || c == ' ' || c == '\u{85}' || c == '\u{a0}' || c == '\u{1680}'
        || ('\u{2000}' <= c && c <= '\u{200a}') || c == '\u{2028}' || c == '\u{2029}' || c
        == '\u{202f}' || c == '\u{205f}' || c == '\u{3000}'
}

/// The characters of a text.
pub fn chars_of(text: &str) -> (out: Vec<char>)
    ensures
        out@ == text@,
{
    let mut out: Vec<char> = Vec::new();
    for c in it: text.chars()
        invariant
            out@ == it.seq().take(it.index() as int),
            it.seq() == text@,
    {
        proof {
            assert(it.seq().take(it.index() + 1) =~= it.seq().take(it.index() as int).push(c));
        }
        out.push(c);
    }
    proof {
        assert(text@.take(text@.len() as int) =~= text@);
    }
    out
}

/// The text made of some characters.
pub fn string_of(chars: &Vec<char>) -> (text: String)
    ensures
        text@ == chars@,
{
    let mut text: String = String::new();
    let mut i: usize = 0;
    while i < chars.len()
        invariant
            i <= chars.len(),
            text@ == chars@.take(i as int),
        decreases chars.len() - i,
    {
        text.push(chars[i]);
        proof {
            assert(chars@.take(i + 1) =~= chars@.take(i as int).push(chars@[i as int]));
        }
        i = i + 1;
    }
    proof {
        assert(chars@.take(chars@.len() as int) =~= chars@);
    }
    text
}


/// The characters of `chars` from `from` up to `to`.
pub fn slice_chars(chars: &Vec<char>, from: usize, to: usize) -> (out: Vec<char>)
    requires
        from <= to <= chars@.len(),
    ensures
        out@ == chars@.subrange(from as int, to as int),
{
    let mut out: Vec<char> = Vec::new();
    let mut i: usize = from;
    while i < to
        invariant
            from <= i <= to <= chars@.len(),
            out@ == chars@.subrange(from as int, i as int),
        decreases to - i,
    {
        out.push(chars[i]);
        proof {
            assert(chars@.subrange(from as int, i + 1) =~= chars@.subrange(
                from as int,
                i as int,
            ).push(chars@[i as int]));
        }
        i = i + 1;
    }
    out
}

/// The characters without the white space around them.
pub fn trim_chars(chars: &Vec<char>) -> (out: Vec<char>)
    ensures
        out@ == trimmed(chars@),
{
    let mut from: usize = 0;
    proof {
        assert(chars@.skip(0) =~= chars@);
    }
    while from < chars.len() && space(chars[from])
        invariant
            from <= chars@.len(),
            trim_front(chars@) == trim_front(chars@.skip(from as int)),
        decreases chars@.len() - from,
    {
        proof {
            assert(chars@.skip(from as int).skip(1) =~= chars@.skip(from + 1));
        }
        from = from + 1;
    }
    let mut to: usize = chars.len();
    proof {
        assert(trim_front(chars@) == chars@.skip(from as int));
        assert(chars@.subrange(from as int, to as int) =~= chars@.skip(from as int));
    }
    while to > from && space(chars[to - 1])
        invariant
            from <= to <= chars@.len(),
            trimmed(chars@) == trim_back(chars@.subrange(from as int, to as int)),
        decreases to,
    {
        proof {
            assert(chars@.subrange(from as int, to as int).drop_last() =~= chars@.subrange(
                from as int,
                to - 1,
            ));
        }
        to = to - 1;
    }
    slice_chars(chars, from, to)
}

proof fn lemma_word_run(s: Seq<char>, n: int)
    requires
        0 <= n <= s.len(),
        forall|i: int| 0 <= i < n ==> !is_space(#[trigger] s[i]),
        n == s.len() || is_space(s[n]),
    ensures
        word_len(s) == n,
    decreases n,
{
    if n > 0 {
        lemma_word_run(s.skip(1), n - 1);
    }
}

/// The pieces of a text between white space.
pub fn words_of(chars: &Vec<char>) -> (out: Vec<Vec<char>>)
    ensures
        crate::lists::models(out@) == words(chars@),
{
    let mut out: Vec<Vec<char>> = Vec::new();
    let mut at: usize = 0;
    proof {
        assert(chars@.skip(0) =~= chars@);
        assert(crate::lists::models(out@) + words(chars@) =~= words(chars@));
    }
    while at < chars.len()
        invariant
            at <= chars@.len(),
            crate::lists::models(out@) + words(chars@.skip(at as int)) == words(chars@),
        decreases chars@.len() - at,
    {
        let ghost rest = chars@.skip(at as int);
        if space(chars[at]) {
            proof {
                assert(rest.skip(1) =~= chars@.skip(at + 1));
                assert(trim_front(rest) == trim_front(chars@.skip(at + 1)));
                assert(words(rest) == words(chars@.skip(at + 1)));
            }
            at = at + 1;
        } else {
            let mut to: usize = at;
            while to < chars.len() && !space(chars[to])
                invariant
                    at <= to <= chars@.len(),
                    forall|i: int| at <= i < to ==> !is_space(#[trigger] chars@[i]),
                decreases chars@.len() - to,
            {
                to = to + 1;
            }
            let word: Vec<char> = slice_chars(chars, at, to);
            proof {
                assert(trim_front(rest) == rest);
                assert forall|i: int| 0 <= i < to - at implies !is_space(#[trigger] rest[i]) by {
                    assert(!is_space(chars@[at + i]));
                }
                lemma_word_run(rest, to - at);
                assert(word@ =~= rest.take(to - at));
                assert(rest.skip(to - at) =~= chars@.skip(to as int));
                assert(words(rest) == seq![word@] + words(chars@.skip(to as int)));
                assert(crate::lists::models(out@.push(word)) =~= crate::lists::models(out@).push(word@));
                assert(crate::lists::models(out@).push(word@) + words(chars@.skip(to as int)) =~= crate::lists::models(out@) + (
                seq![word@] + words(chars@.skip(to as int))));
            }
            out.push(word);
            at = to;
        }
    }
    proof {
        assert(chars@.skip(at as int).len() == 0);
        assert(words(chars@.skip(at as int)) =~= Seq::empty());
        assert(crate::lists::models(out@) + Seq::<Seq<char>>::empty() =~= crate::lists::models(out@));
    }
    out
}

/// The words from `from` up to `to`, with one space between each two.
pub fn join_words(parts: &Vec<Vec<char>>, from: usize, to: usize) -> (out: Vec<char>)
    requires
        from <= to <= parts@.len(),
    ensures
        out@ == joined(crate::lists::models(parts@).subrange(from as int, to as int)),
{
    let mut out: Vec<char> = Vec::new();
    let mut i: usize = from;
    while i < to
        invariant
            from <= i <= to <= parts@.len(),
            out@ == joined(crate::lists::models(parts@).subrange(from as int, i as int)),
        decreases to - i,
    {
        let ghost before = crate::lists::models(parts@).subrange(from as int, i as int);
        let ghost after = crate::lists::models(parts@).subrange(from as int, i + 1);
        proof {
            assert(after.drop_last() =~= before);
            assert(after.last() == parts@[i as int]@);
        }
        if i > from {
            out.push(' ');
        }
        let ghost base = out@;
        let mut k: usize = 0;
        while k < parts[i].len()
            invariant
                i < parts@.len(),
                k <= parts@[i as int]@.len(),
                out@ == base + parts@[i as int]@.take(k as int),
            decreases parts@[i as int]@.len() - k,
        {
            out.push(parts[i][k]);
            proof {
                let word = parts@[i as int]@;
                assert(word.take(k + 1) =~= word.take(k as int).push(word[k as int]));
                assert(base + word.take(k + 1) =~= (base + word.take(k as int)).push(
                    word[k as int],
                ));
            }
            k = k + 1;
        }
        proof {
            let word = parts@[i as int]@;
            assert(word.take(word.len() as int) =~= word);
            if i == from {
                assert(base + word =~= word);
                assert(after.len() == 1);
                assert(after[0] == word);
            }
        }
        i = i + 1;
    }
    out
}

/// Whether one text occurs within another.
pub fn contains_chars(chars: &Vec<char>, part: &Vec<char>) -> (found: bool)
    ensures
        found == has_part(chars@, part@),
{
    let n: usize = chars.len();
    let m: usize = part.len();
    if m > n {
        return false;
    }
    let mut i: usize = 0;
    while i <= n - m
        invariant
            n == chars@.len(),
            m == part@.len(),
            m <= n,
            i <= n - m + 1,
            forall|j: int|
                0 <= j < i ==> #[trigger] chars@.subrange(j, j + part@.len()) != part@,
        decreases n - i,
    {
        let mut k: usize = 0;
        while k < m && chars[i + k] == part[k]
            invariant
                n == chars@.len(),
                m == part@.len(),
                i <= n - m,
                k <= m <= n,
                forall|j: int| 0 <= j < k ==> chars@[i + j] == #[trigger] part@[j],
            decreases m - k,
        {
            k = k + 1;
        }
        let ghost here = chars@.subrange(i as int, i + part@.len());
        if k == m {
            proof {
                assert(here =~= part@);
            }
            return true;
        }
        proof {
            assert(here[k as int] != part@[k as int]);
        }
        if i == n {
            return false;
        }
        i = i + 1;
    }
    false
}

/// Whether the characters start with the letters of a table header.
pub fn starts_with_chars(chars: &Vec<char>, front: &Vec<char>) -> (b: bool)
    ensures
        b == starts_with(chars@, front@),
{
    if front.len() > chars.len() {
        return false;
    }
    let mut i: usize = 0;
    while i < front.len()
        invariant
            i <= front@.len() <= chars@.len(),
            forall|j: int| 0 <= j < i ==> chars@[j] == #[trigger] front@[j],
        decreases front@.len() - i,
    {
        if chars[i] != front[i] {
            proof {
                assert(chars@.take(front@.len() as int)[i as int] != front@[i as int]);
            }
            return false;
        }
        i = i + 1;
    }
    proof {
        assert(chars@.take(front@.len() as int) =~= front@);
    }
    true
}

/// Whether one text orders before another.
pub fn is_before(a: &String, b: &String) -> (r: bool)
    ensures
        r == text_before(a@, b@),
{
    let x: &[u8] = a.as_str().as_bytes();
    let y: &[u8] = b.as_str().as_bytes();
    let mut i: usize = 0;
    proof {
        reveal(text_before);
        assert(x@.skip(0) =~= x@);
        assert(y@.skip(0) =~= y@);
    }
    while i < x.len() && i < y.len()
        invariant
            i <= x@.len(),
            i <= y@.len(),
            x@ == encode_utf8(a@),
            y@ == encode_utf8(b@),
            bytes_before(x@, y@) == bytes_before(x@.skip(i as int), y@.skip(i as int)),
        decreases x@.len() - i,
    {
        if x[i] != y[i] {
            proof {
                reveal(text_before);
            }
            return x[i] < y[i];
        }
        proof {
            assert(x@.skip(i as int).skip(1) =~= x@.skip(i + 1));
            assert(y@.skip(i as int).skip(1) =~= y@.skip(i + 1));
        }
        i = i + 1;
    }
    i < y.len()
}


proof fn lemma_bytes_order(a: Seq<u8>, b: Seq<u8>, c: Seq<u8>)
    ensures
        !bytes_before(a, a),
        !(bytes_before(a, b) && bytes_before(b, a)),
        a == b || bytes_before(a, b) || bytes_before(b, a),
        bytes_before(a, b) && bytes_before(b, c) ==> bytes_before(a, c),
    decreases a.len() + b.len() + c.len(),
{
    if a.len() > 0 || b.len() > 0 || c.len() > 0 {
        lemma_bytes_order(
            if a.len() > 0 {
                a.skip(1)
            } else {
                a
            },
            if b.len() > 0 {
                b.skip(1)
            } else {
                b
            },
            if c.len() > 0 {
                c.skip(1)
            } else {
                c
            },
        );
        if a.len() > 0 && b.len() > 0 && a[0] == b[0] && a.skip(1) == b.skip(1) {
            assert(a =~= seq![a[0]] + a.skip(1));
            assert(b =~= seq![b[0]] + b.skip(1));
        }
        if a.len() == 0 && b.len() == 0 {
            assert(a =~= b);
        }
    } else {
        assert(a =~= b);
    }
}

/// The order of texts is a strict total order.
pub proof fn law_text_order_is_total(a: Seq<char>, b: Seq<char>, c: Seq<char>)
    ensures
        !text_before(a, a),
        !(text_before(a, b) && text_before(b, a)),
        a == b || text_before(a, b) || text_before(b, a),
        text_before(a, b) && text_before(b, c) ==> text_before(a, c),
{
    reveal(text_before);
    lemma_bytes_order(encode_utf8(a), encode_utf8(b), encode_utf8(c));
    encode_utf8_decode_utf8(a);
    encode_utf8_decode_utf8(b);
}

/// The `i32` that a text stands for, if it does.
pub fn parse_i32(chars: &Vec<char>) -> (r: Option<i32>)
    ensures
        r == parsed_i32(chars@),
{
    let signed: bool = chars.len() > 0 && (chars[0] == '-' || chars[0] == '+');
    let negative: bool = chars.len() > 0 && chars[0] == '-';
    let from: usize = if signed {
        1
    } else {
        0
    };
    let ghost body = if signed {
        chars@.skip(1)
    } else {
        chars@
    };
    if from == chars.len() {
        return None;
    }
    let mut value: u64 = 0;
    let mut i: usize = from;
    proof {
        assert(body.take(0) =~= Seq::empty());
    }
    while i < chars.len()
        invariant
            from <= i <= chars@.len(),
            from == if signed { 1int } else { 0int },
            signed == (chars@.len() > 0 && (chars@[0] == '-' || chars@[0] == '+')),
            body == if signed { chars@.skip(1) } else { chars@ },
            body.len() == chars@.len() - from,
            all_digits(body.take(i - from)),
            value < 0x1_0000_0000 ==> value == decimal(body.take(i - from)),
            value >= 0x1_0000_0000 ==> value == 0x1_0000_0000 && decimal(body.take(i - from))
                >= 0x1_0000_0000,
            value <= 0x1_0000_0000,
        decreases chars@.len() - i,
    {
        let c: char = chars[i];
        proof {
            assert(body[i - from] == c);
            assert(body.take(i + 1 - from).drop_last() =~= body.take(i - from));
        }
        if !(c >= '0' && c <= '9') {
            return None;
        }
        let d: u64 = (c as u32 - '0' as u32) as u64;
        value = value * 10 + d;
        if value > 0x1_0000_0000 {
            value = 0x1_0000_0000;
        }
        i = i + 1;
        proof {
            assert forall|j: int| 0 <= j < i - from implies is_digit(
                #[trigger] body.take(i - from)[j],
            ) by {
                if j < i - 1 - from {
                    assert(body.take(i - 1 - from)[j] == body[j]);
                }
            }
        }
    }
    proof {
        assert(body.take(i - from) =~= body);
    }
    if negative {
        if value > 0x8000_0000 {
            None
        } else {
            Some((-(value as i64)) as i32)
        }
    } else if value > 0x7fff_ffff {
        None
    } else {
        Some(value as i32)
    }
}

/// The character of a digit.
pub fn digit_to_char(d: u8) -> (c: char)
    requires
        d < 10,
    ensures
        c == digit_char(d as nat),
{
    match d {
        0 => '0',
        1 => '1',
        2 => '2',
        3 => '3',
        4 => '4',
        5 => '5',
        6 => '6',
        7 => '7',
        8 => '8',
        _ => '9',
    }
}

/// The decimal digits of a number.
pub fn decimal_chars(n: u64) -> (out: Vec<char>)
    ensures
        out@ == decimal_text(n as nat),
    decreases n,
{
    if n < 10 {
        let mut out: Vec<char> = Vec::new();
        out.push(digit_to_char(n as u8));
        proof {
            assert(out@ =~= seq![digit_char(n as nat)]);
        }
        out
    } else {
        let mut out: Vec<char> = decimal_chars(n / 10);
        out.push(digit_to_char((n % 10) as u8));
        out
    }
}

/// The decimal form of an `i32`.
pub fn i32_chars(n: i32) -> (out: Vec<char>)
    ensures
        out@ == integer_text(n as int),
{
    if n < 0 {
        let mut digits: Vec<char> = decimal_chars((-(n as i64)) as u64);
        digits.insert(0, '-');
        proof {
            assert(digits@ =~= integer_text(n as int));
        }
        digits
    } else {
        decimal_chars(n as u64)
    }
}

/// The decimal digits of a number are digits, and stand for it.
pub proof fn lemma_decimal_text(n: nat)
    ensures
        decimal(decimal_text(n)) == n,
        all_digits(decimal_text(n)),
        decimal_text(n).len() > 0,
    decreases n,
{
    if n < 10 {
        let s = decimal_text(n);
        assert(s.drop_last() =~= Seq::empty());
        assert(decimal(s.drop_last()) == 0);
        assert(s.last() == digit_char(n));
    } else {
        lemma_decimal_text(n / 10);
        let s = decimal_text(n);
        assert(s.drop_last() =~= decimal_text(n / 10));
        assert(s.last() == digit_char(n % 10));
        assert forall|i: int| 0 <= i < s.len() implies is_digit(#[trigger] s[i]) by {
            if i < s.len() - 1 {
                assert(s[i] == decimal_text(n / 10)[i]);
            }
        }
    }
}

/// Reading back the decimal form of an `i32` gives the number.
pub proof fn law_integer_text_reads_back(n: i32)
    ensures
        parsed_i32(integer_text(n as int)) == Some(n),
{
    let s = integer_text(n as int);
    if n < 0 {
        lemma_decimal_text((-(n as int)) as nat);
        assert(s.skip(1) =~= decimal_text((-(n as int)) as nat));
    } else {
        lemma_decimal_text(n as nat);
        assert(is_digit(decimal_text(n as nat)[0]));
    }
}

/// Puts a text behind some characters.
pub fn append_text(out: &mut Vec<char>, text: &str)
    ensures
        final(out)@ == old(out)@ + text@,
{
    let mut more: Vec<char> = chars_of(text);
    out.append(&mut more);
}

/// Puts a number's digits behind some characters.
pub fn append_number(out: &mut Vec<char>, n: u64)
    ensures
        final(out)@ == old(out)@ + decimal_text(n as nat),
{
    let mut more: Vec<char> = decimal_chars(n);
    out.append(&mut more);
}

/// The pieces of a text between its line ends.
pub open spec fn lines(s: Seq<char>) -> Seq<Seq<char>>
    decreases s.len(),
{
    if s.len() == 0 {
        seq![Seq::empty()]
    } else {
        let before = lines(s.drop_last());
        if s.last() == '\n' {
            before.push(Seq::empty())
        } else {
            before.drop_last().push(before.last().push(s.last()))
        }
    }
}

/// Cuts a text at its line ends.
pub fn lines_of(chars: &Vec<char>) -> (out: Vec<Vec<char>>)
    ensures
        crate::lists::models(out@) == lines(chars@),
{
    let mut out: Vec<Vec<char>> = Vec::new();
    let mut piece: Vec<char> = Vec::new();
    let mut i: usize = 0;
    proof {
        assert(chars@.take(0) =~= Seq::empty());
        assert(crate::lists::models(out@).push(piece@) =~= lines(chars@.take(0)));
    }
    while i < chars.len()
        invariant
            i <= chars@.len(),
            crate::lists::models(out@).push(piece@) == lines(chars@.take(i as int)),
        decreases chars@.len() - i,
    {
        let c: char = chars[i];
        let ghost before = lines(chars@.take(i as int));
        proof {
            assert(chars@.take(i + 1).drop_last() =~= chars@.take(i as int));
            assert(before.last() == piece@);
            assert(before.drop_last() =~= crate::lists::models(out@));
        }
        if c == '\n' {
            let ghost done = out@;
            out.push(piece);
            piece = Vec::new();
            proof {
                assert(crate::lists::models(out@) =~= before);
                assert(piece@ =~= Seq::empty());
            }
        } else {
            piece.push(c);
        }
        i = i + 1;
    }
    let ghost done = out@;
    let ghost last = piece@;
    out.push(piece);
    proof {
        assert(chars@.take(i as int) =~= chars@);
        assert(crate::lists::models(out@) =~= crate::lists::models(done).push(last));
    }
    out
}

/// The characters of a text that may be missing.
pub open spec fn text_of(text: Option<String>) -> Option<Seq<char>> {
    match text {
        Some(text) => Some(text@),
        None => None,
    }
}

/// Whether a text has no characters.
pub fn is_empty(text: &str) -> (empty: bool)
    ensures
        empty == (text@.len() == 0),
{
    chars_of(text).len() == 0
}

} // verus!
