use vstd::prelude::*;
use vstd::string::*;

verus! {

/// Whether two string slices hold the same characters: they do where they
/// have the same bytes, as a text is read back from its UTF-8 bytes.
pub(crate) fn str_eq(a: &str, b: &str) -> (same: bool)
    ensures
        same == (a@ == b@),
{
    let left = a.as_bytes();
    let right = b.as_bytes();
    proof {
        vstd::utf8::encode_utf8_decode_utf8(a@);
        vstd::utf8::encode_utf8_decode_utf8(b@);
    }
    if left.len() != right.len() {
        return false;
    }
    let mut i: usize = 0;
    while i < left.len()
        invariant
            i <= left.len(),
            left@ == a.spec_bytes(),
            right@ == b.spec_bytes(),
            left@.len() == right@.len(),
            forall|k: int| 0 <= k < i ==> left@[k] == right@[k],
        decreases left.len() - i,
    {
        if left[i] != right[i] {
            return false;
        }
        i += 1;
    }
    proof {
        assert(left@ =~= right@);
    }
    true
}

/// The string made of the given characters, in their order.
///
/// Calls `String::from_iter` through `collect`.
#[verifier::external_body]
pub(crate) fn string_from_chars(chars: &Vec<char>) -> (s: String)
    ensures
        s@ == chars@,
{
    chars.iter().collect()
}

/// The characters of a string slice, in their order.
pub fn chars_of(s: &str) -> (chars: Vec<char>)
    ensures
        chars@ == s@,
{
    let mut chars: Vec<char> = Vec::new();
    for c in it: s.chars()
        invariant
            it.seq() == s@,
            chars@ == it.seq().take(it.index() as int),
    {
        chars.push(c);
    }
    chars
}

/// The position of the last `c` in `s`, or -1 where `s` holds none.
pub open spec fn last_index_of(s: Seq<char>, c: char) -> int
    decreases s.len(),
{
    if s.len() == 0 {
        -1
    } else if s.last() == c {
        s.len() - 1
    } else {
        last_index_of(s.drop_last(), c)
    }
}

/// `last_index_of` names a position of `c` behind which no `c` follows.
pub proof fn lemma_last_index_of(s: Seq<char>, c: char)
    ensures
        -1 <= last_index_of(s, c) < s.len(),
        last_index_of(s, c) >= 0 ==> s[last_index_of(s, c)] == c,
        forall|i: int| last_index_of(s, c) < i < s.len() ==> s[i] != c,
    decreases s.len(),
{
    if s.len() > 0 && s.last() != c {
        let rest = s.drop_last();
        lemma_last_index_of(rest, c);
        assert forall|i: int| last_index_of(s, c) < i < s.len() implies s[i] != c by {
            if i < rest.len() {
                assert(rest[i] == s[i]);
            }
        }
    }
}

/// What follows the last `sep` of `s`; all of `s` where it holds no `sep`.
pub open spec fn last_segment(s: Seq<char>, sep: char) -> Seq<char> {
    s.skip(last_index_of(s, sep) + 1)
}

pub open spec fn starts_with(s: Seq<char>, prefix: Seq<char>) -> bool {
    prefix.len() <= s.len() && s.take(prefix.len() as int) == prefix
}

pub open spec fn ends_with(s: Seq<char>, suffix: Seq<char>) -> bool {
    suffix.len() <= s.len() && s.skip(s.len() - suffix.len()) == suffix
}

/// The position of the last `c` among the first `end` characters of `chars`.
pub fn rfind_char_before(chars: &Vec<char>, c: char, end: usize) -> (found: Option<usize>)
    requires
        end <= chars.len(),
    ensures
        match found {
            Some(i) => i < end && i as int == last_index_of(chars@.take(end as int), c),
            None => last_index_of(chars@.take(end as int), c) == -1,
        },
{
    let mut i: usize = end;
    while i > 0
        invariant
            i <= end <= chars.len(),
            last_index_of(chars@.take(end as int), c) == last_index_of(chars@.take(i as int), c),
        decreases i,
    {
        if chars[i - 1] == c {
            return Some(i - 1);
        }
        proof {
            assert(chars@.take(i as int).drop_last() == chars@.take(i - 1));
        }
        i -= 1;
    }
    None
}

/// The position of the last `c` in `chars`.
pub fn rfind_char(chars: &Vec<char>, c: char) -> (found: Option<usize>)
    ensures
        match found {
            Some(i) => i < chars.len() && i as int == last_index_of(chars@, c),
            None => last_index_of(chars@, c) == -1,
        },
{
    proof {
        assert(chars@.take(chars.len() as int) == chars@);
    }
    rfind_char_before(chars, c, chars.len())
}

/// What follows the last `sep` of `s`; all of `s` where it holds no `sep`.
pub fn last_segment_of<'a>(s: &'a str, sep: char) -> (part: &'a str)
    ensures
        part@ == last_segment(s@, sep),
{
    let chars = chars_of(s);
    let from: usize = match rfind_char(&chars, sep) {
        Some(i) => i + 1,
        None => 0,
    };
    proof {
        lemma_last_index_of(s@, sep);
        assert(s@.subrange(from as int, s@.len() as int) == s@.skip(from as int));
    }
    s.substring_char(from, chars.len())
}

/// The characters of `chars` from position `from` up to, not including, `to`.
pub fn slice_chars(chars: &Vec<char>, from: usize, to: usize) -> (part: Vec<char>)
    requires
        from <= to <= chars.len(),
    ensures
        part@ == chars@.subrange(from as int, to as int),
{
    let mut part: Vec<char> = Vec::new();
    let mut i: usize = from;
    while i < to
        invariant
            from <= i <= to <= chars.len(),
            part@ == chars@.subrange(from as int, i as int),
        decreases to - i,
    {
        part.push(chars[i]);
        i += 1;
    }
    part
}

/// Whether `chars` holds `prefix` from position `from` on.
pub fn has_prefix_at(chars: &Vec<char>, from: usize, prefix: &Vec<char>) -> (yes: bool)
    requires
        from <= chars.len(),
    ensures
        yes == starts_with(chars@.skip(from as int), prefix@),
{
    if prefix.len() > chars.len() - from {
        return false;
    }
    let ghost rest = chars@.skip(from as int);
    let mut i: usize = 0;
    while i < prefix.len()
        invariant
            i <= prefix.len() <= chars.len() - from,
            rest == chars@.skip(from as int),
            rest.take(i as int) == prefix@.take(i as int),
        decreases prefix.len() - i,
    {
        if chars[from + i] != prefix[i] {
            proof {
                assert(rest.take(prefix.len() as int)[i as int] != prefix@[i as int]);
            }
            return false;
        }
        proof {
            assert(rest.take(i + 1) == rest.take(i as int).push(rest[i as int]));
            assert(prefix@.take(i + 1) == prefix@.take(i as int).push(prefix@[i as int]));
        }
        i += 1;
    }
    proof {
        assert(prefix@.take(prefix.len() as int) == prefix@);
    }
    true
}

/// Whether `chars` begins with `prefix`.
pub fn has_prefix(chars: &Vec<char>, prefix: &Vec<char>) -> (yes: bool)
    ensures
        yes == starts_with(chars@, prefix@),
{
    proof {
        assert(chars@.skip(0) == chars@);
    }
    has_prefix_at(chars, 0, prefix)
}

/// Whether `chars` ends with `suffix`.
pub fn has_suffix(chars: &Vec<char>, suffix: &Vec<char>) -> (yes: bool)
    ensures
        yes == ends_with(chars@, suffix@),
{
    if suffix.len() > chars.len() {
        return false;
    }
    let offset: usize = chars.len() - suffix.len();
    let mut i: usize = 0;
    while i < suffix.len()
        invariant
            i <= suffix.len() <= chars.len(),
            offset == chars.len() - suffix.len(),
            forall|j: int| 0 <= j < i ==> chars@[offset + j] == suffix@[j],
        decreases suffix.len() - i,
    {
        if chars[offset + i] != suffix[i] {
            proof {
                assert(chars@.skip(offset as int)[i as int] != suffix@[i as int]);
            }
            return false;
        }
        i += 1;
    }
    proof {
        assert(chars@.skip(offset as int) =~= suffix@);
    }
    true
}

/// The decimal digit that stands for `d`, for `d` from 0 to 9.
pub open spec fn digit_char(d: int) -> char {
    if d == 0 {
        '0'
    } else if d == 1 {
        '1'
    } else if d == 2 {
        '2'
    } else if d == 3 {
        '3'
    } else if d == 4 {
        '4'
    } else if d == 5 {
        '5'
    } else if d == 6 {
        '6'
    } else if d == 7 {
        '7'
    } else if d == 8 {
        '8'
    } else {
        '9'
    }
}

/// The decimal numeral of `n`: no sign, no leading zero but for 0 itself.
pub open spec fn decimal_text(n: nat) -> Seq<char>
    decreases n,
{
    if n < 10 {
        seq![digit_char(n as int)]
    } else {
        decimal_text(n / 10).push(digit_char((n % 10) as int))
    }
}

fn digit_str(d: u64) -> (s: &'static str)
    requires
        d < 10,
    ensures
        s@ == seq![digit_char(d as int)],
{
    proof {
        reveal_strlit("0");
        reveal_strlit("1");
        reveal_strlit("2");
        reveal_strlit("3");
        reveal_strlit("4");
        reveal_strlit("5");
        reveal_strlit("6");
        reveal_strlit("7");
        reveal_strlit("8");
        reveal_strlit("9");
    }
    let s = if d == 0 {
        "0"
    } else if d == 1 {
        "1"
    } else if d == 2 {
        "2"
    } else if d == 3 {
        "3"
    } else if d == 4 {
        "4"
    } else if d == 5 {
        "5"
    } else if d == 6 {
        "6"
    } else if d == 7 {
        "7"
    } else if d == 8 {
        "8"
    } else {
        "9"
    };
    assert(s@ =~= seq![digit_char(d as int)]);
    s
}

/// The decimal numeral of `n`.
pub fn decimal_string(n: u64) -> (s: String)
    ensures
        s@ == decimal_text(n as nat),
    decreases n,
{
    if n < 10 {
        String::from_str(digit_str(n))
    } else {
        let mut s = decimal_string(n / 10);
        s.append(digit_str(n % 10));
        s
    }
}

pub open spec fn is_digit(c: char) -> bool {
    '0' as u32 <= c as u32 <= '9' as u32
}

pub open spec fn digit_value(c: char) -> nat {
    (c as u32 - '0' as u32) as nat
}

/// The number that a sequence of decimal digits stands for.
pub open spec fn digits_value(s: Seq<char>) -> nat
    decreases s.len(),
{
    if s.len() == 0 {
        0
    } else {
        10 * digits_value(s.drop_last()) + digit_value(s.last())
    }
}

/// At least one character, and decimal digits only.
pub open spec fn is_numeral(s: Seq<char>) -> bool {
    s.len() > 0 && forall|i: int| 0 <= i < s.len() ==> is_digit(#[trigger] s[i])
}

/// `s` without a plus sign in front.
pub open spec fn without_plus(s: Seq<char>) -> Seq<char> {
    if s.len() > 0 && s[0] == '+' {
        s.skip(1)
    } else {
        s
    }
}

/// What `s` stands for as a `u32`: an optional plus sign, then a numeral
/// whose value fits.
pub open spec fn parsed_u32(s: Seq<char>) -> Option<u32> {
    let digits = without_plus(s);
    if is_numeral(digits) && digits_value(digits) <= u32::MAX {
        Some(digits_value(digits) as u32)
    } else {
        None
    }
}

/// What `s` stands for as an `i64`: an optional sign, then a numeral whose
/// value, with the sign, fits.
pub open spec fn parsed_i64(s: Seq<char>) -> Option<i64> {
    if s.len() > 0 && s[0] == '-' {
        let digits = s.skip(1);
        if is_numeral(digits) && digits_value(digits) <= -(i64::MIN as int) {
            Some((-(digits_value(digits) as int)) as i64)
        } else {
            None
        }
    } else {
        let digits = without_plus(s);
        if is_numeral(digits) && digits_value(digits) <= i64::MAX {
            Some(digits_value(digits) as i64)
        } else {
            None
        }
    }
}

proof fn lemma_digits_value_grows(s: Seq<char>, n: int)
    requires
        0 <= n <= s.len(),
    ensures
        digits_value(s.take(n)) <= digits_value(s),
    decreases s.len(),
{
    if n == s.len() {
        assert(s.take(n) == s);
    } else {
        lemma_digits_value_grows(s.drop_last(), n);
        assert(s.drop_last().take(n) == s.take(n));
    }
}

/// The value of the numeral that `chars` holds from position `from` on,
/// where there is one and its value is at most `limit`.
fn numeral_up_to(chars: &Vec<char>, from: usize, limit: u64) -> (value: Option<u64>)
    requires
        from <= chars.len(),
        limit >= 9,
    ensures
        value == (if is_numeral(chars@.skip(from as int)) && digits_value(
            chars@.skip(from as int),
        ) <= limit {
            Some(digits_value(chars@.skip(from as int)) as u64)
        } else {
            None
        }),
{
    let ghost digits = chars@.skip(from as int);
    if from == chars.len() {
        return None;
    }
    let mut value: u64 = 0;
    let mut i: usize = from;
    proof {
        assert(digits.take(0) == Seq::<char>::empty());
    }
    while i < chars.len()
        invariant
            from <= i <= chars.len(),
            from < chars.len(),
            limit >= 9,
            digits == chars@.skip(from as int),
            value == digits_value(digits.take(i - from)),
            value <= limit,
            forall|j: int| 0 <= j < i - from ==> is_digit(#[trigger] digits[j]),
        decreases chars.len() - i,
    {
        let c = chars[i];
        assert(c == digits[i - from]);
        if (c as u32) < ('0' as u32) || (c as u32) > ('9' as u32) {
            assert(!is_digit(digits[i - from]));
            return None;
        }
        let d: u64 = (c as u32 - '0' as u32) as u64;
        proof {
            let longer = digits.take(i - from + 1);
            assert(longer.drop_last() == digits.take(i - from));
            assert(longer.last() == c);
            assert(digits_value(longer) == 10 * value + d);
            lemma_digits_value_grows(digits, i - from + 1);
        }
        if value > (limit - d) / 10 {
            return None;
        }
        value = value * 10 + d;
        i += 1;
    }
    proof {
        assert(digits.take(i - from) == digits);
    }
    Some(value)
}

/// Reads a `u32` as the standard library's `str::parse` does.
pub fn parse_u32(s: &str) -> (value: Option<u32>)
    ensures
        value == parsed_u32(s@),
{
    let chars = chars_of(s);
    parse_u32_chars(&chars)
}

/// Reads a `u32` from characters as the standard library's `str::parse` does.
pub fn parse_u32_chars(chars: &Vec<char>) -> (value: Option<u32>)
    ensures
        value == parsed_u32(chars@),
{
    let from: usize = if chars.len() > 0 && chars[0] == '+' {
        1
    } else {
        0
    };
    proof {
        assert(chars@.skip(0) == chars@);
    }
    match numeral_up_to(chars, from, 0xffff_ffff) {
        Some(value) => Some(value as u32),
        None => None,
    }
}

/// Reads an `i64` as the standard library's `str::parse` does.
pub fn parse_i64(s: &str) -> (value: Option<i64>)
    ensures
        value == parsed_i64(s@),
{
    let chars = chars_of(s);
    if chars.len() > 0 && chars[0] == '-' {
        match numeral_up_to(&chars, 1, 0x8000_0000_0000_0000) {
            Some(value) => if value == 0x8000_0000_0000_0000 {
                Some(i64::MIN)
            } else {
                Some(-(value as i64))
            },
            None => None,
        }
    } else {
        let from: usize = if chars.len() > 0 && chars[0] == '+' {
            1
        } else {
            0
        };
        proof {
            assert(chars@.skip(0) == chars@);
        }
        match numeral_up_to(&chars, from, 0x7fff_ffff_ffff_ffff) {
            Some(value) => Some(value as i64),
            None => None,
        }
    }
}

/// The decimal numeral of a number is read back as that number: it is
/// made of digits alone and stands for the number.
pub proof fn lemma_decimal_text_reads_back(n: nat)
    ensures
        is_numeral(decimal_text(n)),
        digits_value(decimal_text(n)) == n,
        without_plus(decimal_text(n)) == decimal_text(n),
    decreases n,
{
    let text = decimal_text(n);
    let last = digit_char((n % 10) as int);
    assert(is_digit(last) && digit_value(last) == n % 10);
    if n < 10 {
        assert(text.drop_last() =~= Seq::<char>::empty());
        assert(digits_value(text.drop_last()) == 0);
        assert(text.last() == last);
        assert(text[0] == last);
    } else {
        let front = decimal_text(n / 10);
        lemma_decimal_text_reads_back(n / 10);
        assert(text.drop_last() =~= front);
        assert(text.last() == last);
        assert forall|i: int| 0 <= i < text.len() implies is_digit(#[trigger] text[i]) by {
            if i < front.len() {
                assert(text[i] == front[i]);
            }
        }
        assert(text[0] == front[0]);
        assert(is_digit(front[0]));
    }
}

/// A number up to the largest `u32` is read back from its decimal numeral.
pub proof fn lemma_parse_of_decimal_text(n: u32)
    ensures
        parsed_u32(decimal_text(n as nat)) == Some(n),
{
    lemma_decimal_text_reads_back(n as nat);
}

/// What is put behind a text that is empty or ends with the separator, and
/// holds no separator itself, is the last segment of the whole.
pub proof fn lemma_last_segment_of_joined(front: Seq<char>, rest: Seq<char>, sep: char)
    requires
        front.len() == 0 || front.last() == sep,
        forall|i: int| 0 <= i < rest.len() ==> rest[i] != sep,
    ensures
        last_segment(front + rest, sep) == rest,
    decreases rest.len(),
{
    let whole = front + rest;
    if rest.len() == 0 {
        assert(whole =~= front);
        if front.len() == 0 {
            assert(whole.skip(0) =~= rest);
        } else {
            assert(whole.skip(whole.len() as int) =~= rest);
        }
    } else {
        let shorter = rest.drop_last();
        lemma_last_segment_of_joined(front, shorter, sep);
        assert(whole.drop_last() =~= front + shorter);
        assert(whole.last() == rest[rest.len() - 1]);
        let cut = last_index_of(front + shorter, sep);
        lemma_last_index_of(front + shorter, sep);
        assert((front + shorter).skip(cut + 1) == shorter);
        assert((front + shorter).len() - (cut + 1) == shorter.len());
        assert(whole.skip(cut + 1) =~= rest);
    }
}

} // verus!
