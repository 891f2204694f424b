//! Texts: comparison, splitting, trimming and number formatting over the
//! characters of a string.

use vstd::prelude::*;

verus! {

/// `String::push` appends one character.
pub assume_specification[ String::push ](text: &mut String, ch: char)
    ensures
        final(text)@ == old(text)@.push(ch),
;

/// The characters of a text, in order.
pub fn chars_of(text: &str) -> (chars: Vec<char>)
    ensures
        chars@ == text@,
{
    let mut chars: Vec<char> = Vec::new();
    for ch in iter: text.chars()
        invariant
            chars@ == text@.take(iter.index() as int),
            iter.seq() == text@,
    {
        chars.push(ch);
    }
    chars
}

/// Whether two texts spell the same characters.
pub fn same(a: &str, b: &str) -> (r: bool)
    ensures
        r == (a@ == b@),
{
    let x = chars_of(a);
    let y = chars_of(b);
    if x.len() != y.len() {
        return false;
    }
    for i in 0..x.len()
        invariant
            x@ == a@,
            y@ == b@,
            x.len() == y.len(),
            forall|j: int| 0 <= j < i ==> a@[j] == b@[j],
    {
        if x[i] != y[i] {
            return false;
        }
    }
    assert(a@ =~= b@);
    true
}


/// Whether `a` comes before `b` in dictionary order over code points.
pub open spec fn text_less(a: Seq<char>, b: Seq<char>) -> bool
    decreases a.len(),
{
    if b.len() == 0 {
        false
    } else if a.len() == 0 {
        true
    } else if a[0] != b[0] {
        (a[0] as int) < (b[0] as int)
    } else {
        text_less(a.drop_first(), b.drop_first())
    }
}

/// No text comes before itself.
pub proof fn lemma_text_less_irreflexive(a: Seq<char>)
    ensures
        !text_less(a, a),
    decreases a.len(),
{
    if a.len() > 0 {
        lemma_text_less_irreflexive(a.drop_first());
    }
}

/// Dictionary order is transitive.
pub proof fn lemma_text_less_transitive(a: Seq<char>, b: Seq<char>, c: Seq<char>)
    requires
        text_less(a, b),
        text_less(b, c),
    ensures
        text_less(a, c),
    decreases a.len(),
{
    if a.len() > 0 && b.len() > 0 && c.len() > 0 && a[0] == b[0] && b[0] == c[0] {
        lemma_text_less_transitive(a.drop_first(), b.drop_first(), c.drop_first());
    }
}

/// Of two texts, one comes first or they are the same.
pub proof fn lemma_text_less_total(a: Seq<char>, b: Seq<char>)
    ensures
        text_less(a, b) || text_less(b, a) || a == b,
    decreases a.len(),
{
    if a.len() == 0 || b.len() == 0 {
        if a.len() == 0 && b.len() == 0 {
            assert(a =~= b);
        }
    } else if a[0] == b[0] {
        lemma_text_less_total(a.drop_first(), b.drop_first());
        if a.drop_first() == b.drop_first() {
            assert(a =~= seq![a[0]] + a.drop_first());
            assert(b =~= seq![b[0]] + b.drop_first());
        }
    }
}

/// Two texts never each come before the other.
pub proof fn lemma_text_less_asymmetric(a: Seq<char>, b: Seq<char>)
    requires
        text_less(a, b),
    ensures
        !text_less(b, a),
        a != b,
{
    if text_less(b, a) {
        lemma_text_less_transitive(a, b, a);
    }
    lemma_text_less_irreflexive(a);
}

/// Whether `a` comes before `b` in dictionary order.
pub fn less(a: &str, b: &str) -> (r: bool)
    ensures
        r == text_less(a@, b@),
{
    let x = chars_of(a);
    let y = chars_of(b);
    let mut i: usize = 0;
    assert(a@.skip(0) =~= a@ && b@.skip(0) =~= b@);
    while i < x.len() && i < y.len()
        invariant
            x@ == a@,
            y@ == b@,
            i <= x.len(),
            i <= y.len(),
            text_less(a@, b@) == text_less(a@.skip(i as int), b@.skip(i as int)),
        decreases x.len() - i,
    {
        if x[i] != y[i] {
            return x[i] < y[i];
        }
        assert(a@.skip(i as int).drop_first() =~= a@.skip(i + 1));
        assert(b@.skip(i as int).drop_first() =~= b@.skip(i + 1));
        i += 1;
    }
    i < y.len()
}

// ---------------------------------------------------------------------------
// Numbers as text
// ---------------------------------------------------------------------------

/// The character of a digit below sixteen, letters in lower case.
pub open spec fn digit_char(d: int) -> char {
    if 0 <= d < 10 {
        ('0' as int + d) as char
    } else {
        ('a' as int + (d - 10)) as char
    }
}

/// The character of a digit.
pub fn digit(d: u8) -> (c: char)
    requires
        d < 16,
    ensures
        c == digit_char(d as int),
{
    if d < 10 {
        (48 + d) as char
    } else {
        (87 + d) as char
    }
}

/// A natural number in decimal, with no leading zero.
pub open spec fn decimal_text(n: nat) -> Seq<char>
    decreases n,
{
    if n < 10 {
        seq![digit_char(n as int)]
    } else {
        decimal_text(n / 10).push(digit_char((n % 10) as int))
    }
}

/// A whole number in decimal, with a leading minus sign when negative.
pub open spec fn integer_text(n: int) -> Seq<char> {
    if n < 0 {
        seq!['-'] + decimal_text((-n) as nat)
    } else {
        decimal_text(n as nat)
    }
}

/// Append a natural number in decimal.
pub fn push_decimal(out: &mut String, n: u64)
    ensures
        final(out)@ == old(out)@ + decimal_text(n as nat),
    decreases n,
{
    if n < 10 {
        out.push(digit(n as u8));
        assert(out@ =~= old(out)@ + decimal_text(n as nat));
    } else {
        push_decimal(out, n / 10);
        out.push(digit((n % 10) as u8));
        assert(out@ =~= old(out)@ + decimal_text(n as nat));
    }
}

/// Append a whole number in decimal.
pub fn push_integer(out: &mut String, n: i64)
    ensures
        final(out)@ == old(out)@ + integer_text(n as int),
{
    if n < 0 {
        out.push('-');
        let magnitude: u64 = (-(n + 1)) as u64 + 1;
        push_decimal(out, magnitude);
        assert(out@ =~= old(out)@ + integer_text(n as int));
    } else {
        push_decimal(out, n as u64);
    }
}

/// `count` hexadecimal digits of `n`, most significant first.
pub open spec fn hex_text(n: nat, count: nat) -> Seq<char>
    decreases count,
{
    if count == 0 {
        Seq::empty()
    } else {
        hex_text(n / 16, (count - 1) as nat).push(digit_char((n % 16) as int))
    }
}

/// Append `count` hexadecimal digits of `n`.
pub fn push_hex(out: &mut String, n: u64, count: u8)
    ensures
        final(out)@ == old(out)@ + hex_text(n as nat, count as nat),
    decreases count,
{
    if count == 0 {
        assert(out@ =~= old(out)@ + hex_text(n as nat, count as nat));
    } else {
        push_hex(out, n / 16, count - 1);
        out.push(digit((n % 16) as u8));
        assert(out@ =~= old(out)@ + hex_text(n as nat, count as nat));
    }
}

/// Bytes as pairs of hexadecimal digits.
pub open spec fn hex_bytes_text(bytes: Seq<u8>) -> Seq<char>
    decreases bytes.len(),
{
    if bytes.len() == 0 {
        Seq::empty()
    } else {
        hex_bytes_text(bytes.drop_last()) + hex_text(bytes.last() as nat, 2)
    }
}

/// Bytes as pairs of hexadecimal digits.
pub fn hex_of_bytes(bytes: &[u8]) -> (text: String)
    ensures
        text@ == hex_bytes_text(bytes@),
{
    let mut text: String = String::new();
    assert(text@ =~= hex_bytes_text(bytes@.take(0)));
    for i in 0..bytes.len()
        invariant
            text@ == hex_bytes_text(bytes@.take(i as int)),
    {
        push_hex(&mut text, bytes[i] as u64, 2);
        assert(bytes@.take(i + 1).drop_last() =~= bytes@.take(i as int));
    }
    assert(bytes@.take(bytes@.len() as int) =~= bytes@);
    text
}


/// The number a run of decimal digits spells.
pub open spec fn decimal_value(digits: Seq<char>) -> nat
    decreases digits.len(),
{
    if digits.len() == 0 {
        0
    } else {
        decimal_value(digits.drop_last()) * 10 + (digits.last() as int - '0' as int) as nat
    }
}

/// Whether a character is one of the ten decimal digits.
pub open spec fn is_decimal_digit(c: char) -> bool {
    '0' as int <= c as int <= '9' as int
}

/// Whether a text is one or more decimal digits.
pub open spec fn is_decimal(digits: Seq<char>) -> bool {
    digits.len() > 0 && forall|i: int| 0 <= i < digits.len() ==> is_decimal_digit(#[trigger] digits[i])
}

/// A text without one leading plus sign.
pub open spec fn without_plus(text: Seq<char>) -> Seq<char> {
    if text.len() > 0 && text[0] == '+' {
        text.drop_first()
    } else {
        text
    }
}

/// The unsigned 32-bit number a text spells: decimal digits, after an optional
/// plus sign.
pub open spec fn u32_of_text(text: Seq<char>) -> Option<u32> {
    let digits = without_plus(text);
    if is_decimal(digits) && decimal_value(digits) <= u32::MAX {
        Some(decimal_value(digits) as u32)
    } else {
        None
    }
}

proof fn lemma_decimal_value_grows(digits: Seq<char>, i: int)
    requires
        0 <= i <= digits.len(),
    ensures
        decimal_value(digits.take(i)) <= decimal_value(digits),
    decreases digits.len() - i,
{
    if i < digits.len() {
        assert(digits.take(i + 1).drop_last() =~= digits.take(i));
        lemma_decimal_value_grows(digits, i + 1);
    } else {
        assert(digits.take(i) =~= digits);
    }
}

/// Read an unsigned 32-bit number.
pub fn parse_u32(text: &str) -> (r: Option<u32>)
    ensures
        r == u32_of_text(text@),
{
    let chars = chars_of(text);
    let start: usize = if chars.len() > 0 && chars[0] == '+' { 1 } else { 0 };
    let ghost digits = without_plus(text@);
    assert(digits =~= text@.skip(start as int));
    if chars.len() == start {
        return None;
    }
    let mut value: u64 = 0;
    let mut i: usize = start;
    while i < chars.len()
        invariant
            chars@ == text@,
            start <= i <= chars.len(),
            start <= 1,
            digits == text@.skip(start as int),
            digits.len() > 0,
            digits.len() == chars.len() - start,
            forall|j: int| 0 <= j < i - start ==> is_decimal_digit(#[trigger] digits[j]),
            value == decimal_value(digits.take(i - start)),
            value <= u32::MAX,
            digits == without_plus(text@),
        decreases chars.len() - i,
    {
        let c = chars[i];
        assert(digits[i - start] == c);
        if c < '0' || c > '9' {
            assert(!is_decimal_digit(digits[i - start]));
            return None;
        }
        let d: u64 = c as u64 - 48;
        assert(digits.take(i - start + 1).drop_last() =~= digits.take(i - start));
        value = value * 10 + d;
        if value > 4294967295 {
            proof {
                lemma_decimal_value_grows(digits, i - start + 1);
            }
            return None;
        }
        i += 1;
    }
    assert(digits.take(digits.len() as int) =~= digits);
    Some(value as u32)
}

/// The signed 32-bit number a text spells: decimal digits, after an optional sign.
pub open spec fn i32_of_text(text: Seq<char>) -> Option<i32> {
    if text.len() > 0 && text[0] == '-' {
        let digits = text.drop_first();
        if is_decimal(digits) && decimal_value(digits) <= 0x8000_0000 {
            Some((-(decimal_value(digits) as int)) as i32)
        } else {
            None
        }
    } else {
        let digits = without_plus(text);
        if is_decimal(digits) && decimal_value(digits) < 0x8000_0000 {
            Some(decimal_value(digits) as i32)
        } else {
            None
        }
    }
}

/// Read a signed 32-bit number.
pub fn parse_i32(text: &str) -> (r: Option<i32>)
    ensures
        r == i32_of_text(text@),
{
    let chars = chars_of(text);
    if chars.len() > 0 && chars[0] == '-' {
        let digits = text.substring_char(1, chars.len());
        assert(digits@ =~= text@.drop_first());
        if chars.len() > 1 && chars[1] == '+' {
            assert(!is_decimal_digit(digits@[0]));
            return None;
        }
        match parse_u32(digits) {
            Some(value) => if value <= 0x8000_0000 {
                Some((-(value as i64)) as i32)
            } else {
                None
            },
            None => None,
        }
    } else {
        match parse_u32(text) {
            Some(value) => if value < 0x8000_0000 {
                Some(value as i32)
            } else {
                None
            },
            None => None,
        }
    }
}

/// A number in decimal is digits that spell it.
proof fn lemma_decimal_text_reads_back(n: nat)
    ensures
        is_decimal(decimal_text(n)),
        decimal_value(decimal_text(n)) == n,
    decreases n,
{
    reveal_with_fuel(decimal_value, 2);
    let text = decimal_text(n);
    if n >= 10 {
        lemma_decimal_text_reads_back(n / 10);
        assert(text.drop_last() =~= decimal_text(n / 10));
        assert forall|i: int| 0 <= i < text.len() implies is_decimal_digit(#[trigger] text[i]) by {
            if i < text.len() - 1 {
                assert(text[i] == decimal_text(n / 10)[i]);
            }
        }
    } else {
        assert(text.drop_last() =~= Seq::<char>::empty());
    }
}

/// A whole number in decimal reads back, and holds no comma.
pub proof fn law_integers_read_back(n: i32)
    ensures
        i32_of_text(integer_text(n as int)) == Some(n),
        !integer_text(n as int).contains(','),
{
    let text = integer_text(n as int);
    let magnitude: nat = (if n < 0 {
        -(n as int)
    } else {
        n as int
    }) as nat;
    let digits = decimal_text(magnitude);
    lemma_decimal_text_reads_back(magnitude);
    if n < 0 {
        assert(text.drop_first() =~= digits);
    } else {
        assert(is_decimal_digit(digits[0]));
        assert(without_plus(text) == digits);
    }
    assert forall|i: int| 0 <= i < text.len() implies text[i] != ',' by {
        if n < 0 && i > 0 {
            assert(text[i] == digits[i - 1]);
            assert(is_decimal_digit(digits[i - 1]));
        } else if n >= 0 {
            assert(is_decimal_digit(digits[i]));
        }
    }
}

// ---------------------------------------------------------------------------
// Splitting and trimming
// ---------------------------------------------------------------------------

/// The pieces of a text between occurrences of a separator.
pub open spec fn split_text(text: Seq<char>, separator: char) -> Seq<Seq<char>>
    decreases text.len(),
{
    if text.len() == 0 {
        seq![Seq::empty()]
    } else {
        let before = split_text(text.drop_last(), separator);
        if text.last() == separator {
            before.push(Seq::empty())
        } else {
            before.drop_last().push(before.last().push(text.last()))
        }
    }
}

/// The characters of each of a list of texts.
pub open spec fn texts_of(texts: Seq<&str>) -> Seq<Seq<char>> {
    Seq::new(texts.len(), |i: int| texts[i]@)
}

/// Split a text at every occurrence of a separator.
pub fn split<'a>(text: &'a str, separator: char) -> (pieces: Vec<&'a str>)
    ensures
        texts_of(pieces@) == split_text(text@, separator),
{
    let chars = chars_of(text);
    let mut pieces: Vec<&'a str> = Vec::new();
    let mut start: usize = 0;
    let mut i: usize = 0;
    assert(text@.subrange(0, 0) =~= Seq::<char>::empty());
    assert(texts_of(pieces@).push(text@.subrange(0, 0)) =~= split_text(text@.take(0), separator));
    while i < chars.len()
        invariant
            chars@ == text@,
            start <= i <= chars.len(),
            texts_of(pieces@).push(text@.subrange(start as int, i as int)) == split_text(
                text@.take(i as int),
                separator,
            ),
        decreases chars.len() - i,
    {
        let ghost before = split_text(text@.take(i as int), separator);
        let ghost old_pieces = pieces@;
        assert(text@.take(i + 1).drop_last() =~= text@.take(i as int));
        assert(text@.take(i + 1).last() == text@[i as int]);
        assert(before.drop_last() =~= texts_of(pieces@));
        assert(before.last() == text@.subrange(start as int, i as int));
        if chars[i] == separator {
            pieces.push(text.substring_char(start, i));
            start = i + 1;
            assert(texts_of(pieces@) =~= texts_of(old_pieces).push(before.last()));
            assert(before.drop_last().push(before.last()) =~= before);
            assert(text@.subrange(start as int, i + 1) =~= Seq::<char>::empty());
        } else {
            assert(text@.subrange(start as int, i + 1) =~= text@.subrange(
                start as int,
                i as int,
            ).push(text@[i as int]));
        }
        i += 1;
    }
    let ghost old_pieces = pieces@;
    pieces.push(text.substring_char(start, i));
    assert(text@.take(i as int) =~= text@);
    assert(texts_of(pieces@) =~= texts_of(old_pieces).push(text@.subrange(start as int, i as int)));
    pieces
}

/// A text behind a separator is the last piece, if it holds none itself.
pub proof fn law_pieces_are_split_at_separators(before: Seq<char>, last: Seq<char>, separator: char)
    requires
        !last.contains(separator),
    ensures
        split_text(last, separator) == seq![last],
        split_text(before.push(separator) + last, separator) == split_text(before, separator).push(last),
    decreases last.len(),
{
    let text = before.push(separator) + last;
    if last.len() == 0 {
        assert(text =~= before.push(separator));
        assert(text.drop_last() =~= before);
        assert(last =~= Seq::<char>::empty());
    } else {
        let shorter = last.drop_last();
        assert(last[last.len() - 1] == last.last());
        assert forall|c: char| shorter.contains(c) implies last.contains(c) by {
            let i = choose|i: int| 0 <= i < shorter.len() && shorter[i] == c;
            assert(last[i] == c);
        }
        law_pieces_are_split_at_separators(before, shorter, separator);
        assert(text.drop_last() =~= before.push(separator) + shorter);
        assert(text.last() == last.last());
        let pieces = split_text(before, separator).push(shorter);
        assert(pieces.drop_last() =~= split_text(before, separator));
        assert(shorter.push(last.last()) =~= last);
        assert(seq![shorter].drop_last().push(last) =~= seq![last]);
    }
}

/// Unicode's `White_Space` characters.
pub open spec fn is_white_space_char(c: char) -> bool {
    let n = c as int;
    0x09 <= n <= 0x0d || n == 0x20 || n == 0x85 || n == 0xa0 || n == 0x1680 || 0x2000 <= n <= 0x200a
        || n == 0x2028 || n == 0x2029 || n == 0x202f || n == 0x205f || n == 0x3000
}

/// Whether a character is white space.
pub fn is_white_space(c: char) -> (r: bool)
    ensures
        r == is_white_space_char(c),
{
    let n: u32 = c as u32;
    (0x09 <= n && n <= 0x0d) || n == 0x20 || n == 0x85 || n == 0xa0 || n == 0x1680 || (0x2000 <= n && n
        <= 0x200a) || n == 0x2028 || n == 0x2029 || n == 0x202f || n == 0x205f || n == 0x3000
}

/// A text without its leading white space.
pub open spec fn trim_start_text(text: Seq<char>) -> Seq<char>
    decreases text.len(),
{
    if text.len() > 0 && is_white_space_char(text[0]) {
        trim_start_text(text.drop_first())
    } else {
        text
    }
}

/// A text without its trailing white space.
pub open spec fn trim_end_text(text: Seq<char>) -> Seq<char>
    decreases text.len(),
{
    if text.len() > 0 && is_white_space_char(text.last()) {
        trim_end_text(text.drop_last())
    } else {
        text
    }
}

/// A text without leading and trailing white space.
pub open spec fn trim_text(text: Seq<char>) -> Seq<char> {
    trim_end_text(trim_start_text(text))
}

/// Drop leading and trailing white space.
pub fn trim<'a>(text: &'a str) -> (r: &'a str)
    ensures
        r@ == trim_text(text@),
{
    let chars = chars_of(text);
    let mut start: usize = 0;
    assert(text@.skip(0) =~= text@);
    while start < chars.len() && is_white_space(chars[start])
        invariant
            chars@ == text@,
            start <= chars.len(),
            trim_start_text(text@) == trim_start_text(text@.skip(start as int)),
        decreases chars.len() - start,
    {
        assert(text@.skip(start as int).drop_first() =~= text@.skip(start + 1));
        start += 1;
    }
    let mut end: usize = chars.len();
    assert(trim_start_text(text@) =~= text@.subrange(start as int, end as int));
    while end > start && is_white_space(chars[end - 1])
        invariant
            chars@ == text@,
            start <= end <= chars.len(),
            trim_text(text@) == trim_end_text(text@.subrange(start as int, end as int)),
        decreases end,
    {
        assert(text@.subrange(start as int, end as int).drop_last() =~= text@.subrange(
            start as int,
            end - 1,
        ));
        end -= 1;
    }
    text.substring_char(start, end)
}

/// The lower-case form of an ASCII letter; every other character unchanged.
pub open spec fn ascii_lower_char(c: char) -> char {
    if 'A' as int <= c as int <= 'Z' as int {
        (c as int + 32) as char
    } else {
        c
    }
}

/// A text with its ASCII letters in lower case.
pub open spec fn ascii_lower_text(text: Seq<char>) -> Seq<char> {
    text.map_values(|c: char| ascii_lower_char(c))
}

/// The lower-case form of an ASCII letter.
pub fn ascii_lower(c: char) -> (r: char)
    ensures
        r == ascii_lower_char(c),
{
    if c >= 'A' && c <= 'Z' {
        (c as u8 + 32) as char
    } else {
        c
    }
}

/// Whether two texts are the same but for the case of ASCII letters.
pub fn same_ignoring_ascii_case(a: &str, b: &str) -> (r: bool)
    ensures
        r == (ascii_lower_text(a@) == ascii_lower_text(b@)),
{
    let x = chars_of(a);
    let y = chars_of(b);
    if x.len() != y.len() {
        assert(ascii_lower_text(a@).len() != ascii_lower_text(b@).len());
        return false;
    }
    for i in 0..x.len()
        invariant
            x@ == a@,
            y@ == b@,
            x.len() == y.len(),
            forall|j: int| 0 <= j < i ==> ascii_lower_char(a@[j]) == ascii_lower_char(b@[j]),
    {
        if ascii_lower(x[i]) != ascii_lower(y[i]) {
            assert(ascii_lower_text(a@)[i as int] != ascii_lower_text(b@)[i as int]);
            return false;
        }
    }
    assert(ascii_lower_text(a@) =~= ascii_lower_text(b@));
    true
}

/// Whether two characters are the same, or the two cases of one ASCII letter.
pub open spec fn one_letter(a: char, b: char) -> bool {
    ||| a == b
    ||| ('A' as int <= a as int <= 'Z' as int && b as int == a as int + 32)
    ||| ('A' as int <= b as int <= 'Z' as int && a as int == b as int + 32)
}

/// Whether two texts are as long, and each place holds the same letter in either case.
pub open spec fn alike(a: Seq<char>, b: Seq<char>) -> bool {
    a.len() == b.len() && forall|i: int| 0 <= i < a.len() ==> one_letter(#[trigger] a[i], b[i])
}

/// Texts are the same but for the case of ASCII letters exactly if they are as long and
/// each place holds the same letter in either case.
pub proof fn law_case_is_all_that_is_ignored(a: Seq<char>, b: Seq<char>)
    ensures
        ascii_lower_text(a) == ascii_lower_text(b) <==> alike(a, b),
{
    let (x, y) = (ascii_lower_text(a), ascii_lower_text(b));
    assert(x.len() == a.len() && y.len() == b.len());
    if x == y {
        assert forall|i: int| 0 <= i < a.len() implies one_letter(#[trigger] a[i], b[i]) by {
            assert(x[i] == y[i]);
            assert(ascii_lower_char(a[i]) == ascii_lower_char(b[i]));
        }
    }
    if alike(a, b) {
        assert forall|i: int| 0 <= i < a.len() implies x[i] == y[i] by {
            assert(one_letter(a[i], b[i]));
        }
        assert(x =~= y);
    }
}


/// A number up to the largest reads back from its decimal digits, with a plus in front of them or
/// without one.
pub proof fn law_counts_read_back(n: u32)
    ensures
        u32_of_text(decimal_text(n as nat)) == Some(n),
        u32_of_text(seq!['+'] + decimal_text(n as nat)) == Some(n),
{
    let digits = decimal_text(n as nat);
    lemma_decimal_text_reads_back(n as nat);
    assert(is_decimal_digit(digits[0]));
    assert((seq!['+'] + digits).drop_first() =~= digits);
}

/// Numbers of so many hexadecimal digits are spelled apart.
pub proof fn law_hex_digits_tell_numbers_apart(a: nat, b: nat, count: nat)
    requires
        a < vstd::arithmetic::power::pow(16, count),
        b < vstd::arithmetic::power::pow(16, count),
        hex_text(a, count) == hex_text(b, count),
    ensures
        a == b,
    decreases count,
{
    reveal(vstd::arithmetic::power::pow);
    if count > 0 {
        let shorter = (count - 1) as nat;
        let (x, y) = (hex_text(a / 16, shorter), hex_text(b / 16, shorter));
        let (p, q) = (digit_char((a % 16) as int), digit_char((b % 16) as int));
        assert(x.push(p).last() == y.push(q).last());
        assert(x.push(p).drop_last() =~= x && y.push(q).drop_last() =~= y);
        assert(a / 16 < vstd::arithmetic::power::pow(16, shorter));
        law_hex_digits_tell_numbers_apart(a / 16, b / 16, shorter);
    }
}

/// Trimming leaves no white space at either end and touches nothing else: white space in front or
/// behind makes no difference, and a text without any at its ends is left as it is.
pub proof fn law_trimming_takes_the_white_space_at_the_ends(text: Seq<char>, c: char)
    requires
        is_white_space_char(c),
    ensures
        trim_text(seq![c] + text) == trim_text(text),
        trim_text(text).len() > 0 ==> !is_white_space_char(trim_text(text)[0])
            && !is_white_space_char(trim_text(text).last()),
        text.len() > 0 && !is_white_space_char(text[0]) && !is_white_space_char(text.last())
            ==> trim_text(text) == text,
        text.len() > 0 && !is_white_space_char(text[0]) ==> trim_text(text.push(c)) == trim_text(text),
{
    assert((seq![c] + text).drop_first() =~= text);
    lemma_start_is_trimmed(text);
    lemma_end_is_trimmed(trim_start_text(text));
    if text.len() > 0 && !is_white_space_char(text[0]) {
        assert(text.push(c).drop_last() =~= text);
        assert(text.push(c)[0] == text[0]);
    }
}

proof fn lemma_start_is_trimmed(text: Seq<char>)
    ensures
        trim_start_text(text).len() > 0 ==> !is_white_space_char(trim_start_text(text)[0]),
    decreases text.len(),
{
    if text.len() > 0 && is_white_space_char(text[0]) {
        lemma_start_is_trimmed(text.drop_first());
    }
}

proof fn lemma_end_is_trimmed(text: Seq<char>)
    ensures
        trim_end_text(text).len() > 0 ==> !is_white_space_char(trim_end_text(text).last())
            && trim_end_text(text)[0] == text[0],
    decreases text.len(),
{
    if text.len() > 0 && is_white_space_char(text.last()) {
        lemma_end_is_trimmed(text.drop_last());
    }
}


/// Texts stand in the order of a dictionary: the first place where two differ decides, by the smaller
/// character, and a text stands before every longer one that begins with it.
pub proof fn law_texts_stand_in_dictionary_order(
    common: Seq<char>,
    c: char,
    d: char,
    x: Seq<char>,
    y: Seq<char>,
)
    requires
        (c as int) < (d as int),
    ensures
        text_less(common + seq![c] + x, common + seq![d] + y),
        !text_less(common + seq![d] + y, common + seq![c] + x),
        text_less(common, common + seq![c] + x),
        !text_less(common + seq![c] + x, common),
        !text_less(common, common),
    decreases common.len(),
{
    let (a, b) = (common + seq![c] + x, common + seq![d] + y);
    if common.len() > 0 {
        let rest = common.drop_first();
        assert(a.drop_first() =~= rest + seq![c] + x);
        assert(b.drop_first() =~= rest + seq![d] + y);
        assert(a[0] == common[0] && b[0] == common[0]);
        law_texts_stand_in_dictionary_order(rest, c, d, x, y);
    } else {
        assert(a[0] == c && b[0] == d);
    }
}

}
