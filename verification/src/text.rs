//! Text: strings as sequences of characters, and the numbers and
//! fields in them.
use vstd::prelude::*;

verus! {

/// `String::push` appends one character.
pub assume_specification[ String::push ](s: &mut String, c: char)
    ensures
        final(s)@ == old(s)@.push(c),
;

/// `String::push_str` appends the characters of a string slice.
pub assume_specification[ String::push_str ](s: &mut String, t: &str)
    ensures
        final(s)@ == old(s)@ + t@,
;

/// A value that has a text form.
pub trait Textual {
    /// The text form of the value.
    spec fn text(&self) -> Seq<char>;

    /// Writes the text form of the value.
    fn to_string(&self) -> (r: String)
        ensures
            r@ == self.text(),
    ;
}

/// The characters of a string, in order.
pub fn chars_of(s: &str) -> (v: Vec<char>)
    ensures
        v@ == s@,
{
    let mut v: Vec<char> = Vec::new();
    for c in it: s.chars()
        invariant
            it.seq() == s@,
            v@ == s@.take(it.index() as int),
    {
        v.push(c);
        assert(s@.take(it.index() + 1) =~= s@.take(it.index() as int).push(c));
    }
    assert(s@.take(s@.len() as int) =~= s@);
    v
}

/// The string made of the given characters.
pub fn string_of(chars: &Vec<char>) -> (s: String)
    ensures
        s@ == chars@,
{
    let mut s = String::new();
    let mut i: usize = 0;
    while i < chars.len()
        invariant
            i <= chars@.len(),
            s@ == chars@.take(i as int),
        decreases chars@.len() - i,
    {
        s.push(chars[i]);
        assert(chars@.take(i + 1) =~= chars@.take(i as int).push(chars@[i as int]));
        i += 1;
    }
    assert(chars@.take(chars@.len() as int) =~= chars@);
    s
}

/// The character that stands for the digit `d`, in any base up to 16.
pub open spec fn digit_char(d: int) -> char {
    if d < 10 {
        (48 + d) as u8 as char
    } else {
        (87 + d) as u8 as char
    }
}

/// `c` is a decimal digit.
pub open spec fn is_digit(c: char) -> bool {
    '0' <= c && c <= '9'
}

/// The value of the decimal digit `c`.
pub open spec fn digit_value(c: char) -> int {
    c as u32 - 48
}

/// Every character of `s` is a decimal digit.
pub open spec fn all_digits(s: Seq<char>) -> bool {
    forall|i: int| 0 <= i < s.len() ==> is_digit(#[trigger] s[i])
}

/// The number that the decimal digits `s` spell.
pub open spec fn decimal_value(s: Seq<char>) -> nat
    decreases s.len(),
{
    if s.len() == 0 {
        0
    } else {
        (10 * decimal_value(s.drop_last()) + digit_value(s.last())) as nat
    }
}

/// The decimal digits of `n`, without leading zeros.
pub open spec fn decimal(n: nat) -> Seq<char>
    decreases n,
{
    if n < 10 {
        seq![digit_char(n as int)]
    } else {
        decimal(n / 10).push(digit_char((n % 10) as int))
    }
}

/// The first position at or after `from` that holds `sep`, or the
/// length of `s` where none does.
pub open spec fn field_end(s: Seq<char>, from: int, sep: char) -> int
    decreases s.len() - from,
{
    if from >= s.len() {
        s.len() as int
    } else if s[from] == sep {
        from
    } else {
        field_end(s, from + 1, sep)
    }
}

/// The last position that holds `sep`, if any does.
pub open spec fn last_position(s: Seq<char>, sep: char) -> Option<int>
    decreases s.len(),
{
    if s.len() == 0 {
        None
    } else if s.last() == sep {
        Some(s.len() - 1)
    } else {
        last_position(s.drop_last(), sep)
    }
}

/// The character of a digit below 16, in lower case.
pub fn digit_to_char(d: u8) -> (c: char)
    requires
        d < 16,
    ensures
        c == digit_char(d as int),
{
    if d < 10 {
        (48u8 + d) as char
    } else {
        (87u8 + d) as char
    }
}

/// Appends the decimal digits of `n`.
pub fn push_decimal(out: &mut Vec<char>, n: u8)
    ensures
        final(out)@ == old(out)@ + decimal(n as nat),
{
    if n >= 100 {
        out.push(digit_to_char(n / 100));
    }
    if n >= 10 {
        out.push(digit_to_char((n / 10) % 10));
    }
    out.push(digit_to_char(n % 10));
    proof {
        reveal_with_fuel(decimal, 3);
        assert(out@ =~= old(out)@ + decimal(n as nat));
    }
}

/// Finds the end of the field that starts at `from`.
pub fn find_field_end(s: &Vec<char>, from: usize, sep: char) -> (r: usize)
    requires
        from <= s@.len(),
    ensures
        r == field_end(s@, from as int, sep),
        from <= r <= s@.len(),
{
    let mut i = from;
    while i < s.len() && s[i] != sep
        invariant
            from <= i <= s@.len(),
            field_end(s@, i as int, sep) == field_end(s@, from as int, sep),
        decreases s@.len() - i,
    {
        i += 1;
    }
    i
}

/// Finds the last occurrence of `sep`.
pub fn find_last(s: &Vec<char>, sep: char) -> (r: Option<usize>)
    ensures
        r matches Some(pos) ==> pos < s@.len() && last_position(s@, sep) == Some(pos as int),
        r is None ==> last_position(s@, sep) is None,
{
    let mut i = s.len();
    assert(s@.take(i as int) =~= s@);
    while i > 0
        invariant
            i <= s@.len(),
            last_position(s@.take(i as int), sep) == last_position(s@, sep),
        decreases i,
    {
        if s[i - 1] == sep {
            return Some(i - 1);
        }
        assert(s@.take(i as int).drop_last() =~= s@.take(i - 1));
        i -= 1;
    }
    None
}

/// Copies the characters from position `from` up to `to`.
pub fn slice_of(s: &Vec<char>, from: usize, to: usize) -> (r: Vec<char>)
    requires
        from <= to <= s@.len(),
    ensures
        r@ == s@.subrange(from as int, to as int),
{
    let mut r: Vec<char> = Vec::new();
    let mut i = from;
    while i < to
        invariant
            from <= i <= to,
            to <= s@.len(),
            r@ == s@.subrange(from as int, i as int),
        decreases to - i,
    {
        r.push(s[i]);
        assert(s@.subrange(from as int, i + 1) =~= s@.subrange(from as int, i as int).push(
            s@[i as int],
        ));
        i += 1;
    }
    r
}

/// On digits the number spelt by a part from the start is at most the
/// number spelt by the whole.
pub proof fn lemma_decimal_value_grows(s: Seq<char>, i: int)
    requires
        all_digits(s),
        0 <= i <= s.len(),
    ensures
        decimal_value(s.take(i)) <= decimal_value(s),
    decreases s.len(),
{
    if i < s.len() {
        assert(is_digit(s[s.len() - 1]));
        assert(s.drop_last().take(i) =~= s.take(i));
        assert(all_digits(s.drop_last())) by {
            assert forall|j: int| 0 <= j < s.drop_last().len() implies is_digit(
                #[trigger] s.drop_last()[j],
            ) by {
                assert(s.drop_last()[j] == s[j]);
            }
        }
        lemma_decimal_value_grows(s.drop_last(), i);
    } else {
        assert(s.take(i) =~= s);
    }
}

/// The number below 256 that `s` spells in decimal digits, if it spells
/// one.
pub open spec fn small_number(s: Seq<char>) -> Option<u8> {
    if s.len() >= 1 && all_digits(s) && decimal_value(s) <= 255 {
        Some(decimal_value(s) as u8)
    } else {
        None
    }
}

/// Reads a decimal number below 256; leading zeros are accepted.
pub fn read_small_number(s: &Vec<char>) -> (r: Option<u8>)
    ensures
        r == small_number(s@),
{
    let n = s.len();
    if n == 0 {
        return None;
    }
    let mut value: u32 = 0;
    let mut i: usize = 0;
    assert(s@.take(0) =~= Seq::<char>::empty());
    while i < n
        invariant
            i <= n,
            n == s@.len(),
            all_digits(s@.take(i as int)),
            value == decimal_value(s@.take(i as int)),
            value <= 255,
        decreases n - i,
    {
        let c = s[i];
        if !(c >= '0' && c <= '9') {
            assert(!is_digit(s@[i as int]));
            return None;
        }
        assert(s@.take(i + 1).drop_last() =~= s@.take(i as int));
        assert(all_digits(s@.take(i + 1))) by {
            assert forall|j: int| 0 <= j < i + 1 implies is_digit(#[trigger] s@.take(i + 1)[j]) by {
                if j < i {
                    assert(s@.take(i as int)[j] == s@.take(i + 1)[j]);
                }
            }
        }
        value = value * 10 + (c as u32 - '0' as u32);
        i += 1;
        if value > 255 {
            proof {
                if all_digits(s@) {
                    lemma_decimal_value_grows(s@, i as int);
                }
            }
            return None;
        }
    }
    assert(s@.take(n as int) =~= s@);
    Some(value as u8)
}

/// `c` is a hexadecimal digit, in either case.
pub open spec fn is_hex_digit(c: char) -> bool {
    ('0' <= c && c <= '9') || ('a' <= c && c <= 'f') || ('A' <= c && c <= 'F')
}

/// The value of the hexadecimal digit `c`.
pub open spec fn hex_digit_value(c: char) -> int {
    if c <= '9' {
        c as u32 - 48
    } else if c >= 'a' {
        c as u32 - 87
    } else {
        c as u32 - 55
    }
}

/// Every character of `s` is a hexadecimal digit.
pub open spec fn all_hex_digits(s: Seq<char>) -> bool {
    forall|i: int| 0 <= i < s.len() ==> is_hex_digit(#[trigger] s[i])
}

/// The number that the hexadecimal digits `s` spell.
pub open spec fn hex_value(s: Seq<char>) -> nat
    decreases s.len(),
{
    if s.len() == 0 {
        0
    } else {
        (16 * hex_value(s.drop_last()) + hex_digit_value(s.last())) as nat
    }
}

/// The hexadecimal digits of `n` in lower case, without leading zeros.
pub open spec fn hexadecimal(n: nat) -> Seq<char>
    decreases n,
{
    if n < 16 {
        seq![digit_char(n as int)]
    } else {
        hexadecimal(n / 16).push(digit_char((n % 16) as int))
    }
}

/// The group of 16 bits that `s` spells: one to four hexadecimal
/// digits.
pub open spec fn hex_group(s: Seq<char>) -> Option<u16> {
    if 1 <= s.len() <= 4 && all_hex_digits(s) {
        Some(hex_value(s) as u16)
    } else {
        None
    }
}

/// Sixteen to the power of `n`.
pub open spec fn pow16(n: nat) -> nat
    decreases n,
{
    if n == 0 {
        1
    } else {
        16 * pow16((n - 1) as nat)
    }
}

/// Reads a group of one to four hexadecimal digits.
pub fn read_hex_group(s: &Vec<char>) -> (r: Option<u16>)
    ensures
        r == hex_group(s@),
{
    let n = s.len();
    if n == 0 || n > 4 {
        return None;
    }
    let mut value: u32 = 0;
    let mut i: usize = 0;
    assert(s@.take(0) =~= Seq::<char>::empty());
    assert(pow16(4) == 65536) by {
        reveal_with_fuel(pow16, 5);
    }
    while i < n
        invariant
            i <= n,
            n == s@.len(),
            n <= 4,
            all_hex_digits(s@.take(i as int)),
            value == hex_value(s@.take(i as int)),
            value < pow16(i as nat),
            pow16(i as nat) <= pow16(4),
            pow16(4) == 65536,
        decreases n - i,
    {
        let c = s[i];
        let d: u32 = if c >= '0' && c <= '9' {
            c as u32 - 48
        } else if c >= 'a' && c <= 'f' {
            c as u32 - 87
        } else if c >= 'A' && c <= 'F' {
            c as u32 - 55
        } else {
            assert(!is_hex_digit(s@[i as int]));
            return None;
        };
        assert(s@.take(i + 1).drop_last() =~= s@.take(i as int));
        assert(all_hex_digits(s@.take(i + 1))) by {
            assert forall|j: int| 0 <= j < i + 1 implies is_hex_digit(#[trigger] s@.take(i + 1)[j]) by {
                if j < i {
                    assert(s@.take(i as int)[j] == s@.take(i + 1)[j]);
                }
            }
        }
        proof {
            lemma_pow16_monotone((i + 1) as nat, 4);
        }
        value = value * 16 + d;
        i += 1;
    }
    assert(s@.take(n as int) =~= s@);
    Some(value as u16)
}

proof fn lemma_pow16_monotone(a: nat, b: nat)
    requires
        a <= b,
    ensures
        pow16(a) <= pow16(b),
    decreases b,
{
    if a < b {
        lemma_pow16_monotone(a, (b - 1) as nat);
    }
}

/// Appends the hexadecimal digits of `n`.
pub fn push_hexadecimal(out: &mut Vec<char>, n: u16)
    ensures
        final(out)@ == old(out)@ + hexadecimal(n as nat),
{
    if n >= 0x1000 {
        out.push(digit_to_char((n / 0x1000) as u8));
    }
    if n >= 0x100 {
        out.push(digit_to_char(((n / 0x100) % 16) as u8));
    }
    if n >= 0x10 {
        out.push(digit_to_char(((n / 0x10) % 16) as u8));
    }
    out.push(digit_to_char((n % 16) as u8));
    proof {
        reveal_with_fuel(hexadecimal, 4);
        assert(out@ =~= old(out)@ + hexadecimal(n as nat));
    }
}

/// The first position where two characters `sep` follow each other, if
/// there is one.
pub open spec fn double_position(s: Seq<char>, sep: char, from: int) -> Option<int>
    decreases s.len() - from,
{
    if from + 1 >= s.len() {
        None
    } else if s[from] == sep && s[from + 1] == sep {
        Some(from)
    } else {
        double_position(s, sep, from + 1)
    }
}

/// Finds the first place where two characters `sep` follow each other.
pub fn find_double(s: &Vec<char>, sep: char) -> (r: Option<usize>)
    ensures
        r matches Some(pos) ==> pos + 1 < s@.len() && double_position(s@, sep, 0) == Some(
            pos as int,
        ),
        r is None ==> double_position(s@, sep, 0) is None,
{
    let n = s.len();
    let mut i: usize = 0;
    while i < n && i + 1 < n
        invariant
            i <= n,
            n == s@.len(),
            double_position(s@, sep, i as int) == double_position(s@, sep, 0),
        decreases n - i,
    {
        if s[i] == sep && s[i + 1] == sep {
            return Some(i);
        }
        i += 1;
    }
    None
}

} // verus!
