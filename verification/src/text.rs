//! String and UTF-8 helpers shared by the features.
//!
//! Offsets are byte offsets, as editors and parsers count them; contents are compared and
//! described character by character.
use vstd::prelude::*;
use vstd::std_specs::iter::IteratorSpec;
use vstd::string::StrSliceExecFns;
use vstd::utf8::{
    decode_utf8, encode_utf8, encode_utf8_decode_utf8, encode_utf8_valid_utf8, is_char_boundary,
    is_char_boundary_iff_not_is_continuation_byte,
    is_char_boundary_start_end_of_seq, is_continuation_byte, valid_utf8, valid_utf8_split,
};

verus! {

/// Bytes of a text.
pub open spec fn utf8(text: Seq<char>) -> Seq<u8> {
    encode_utf8(text)
}

/// Whether `index` is the start of a character of `text`, or its end.
pub open spec fn boundary(text: Seq<char>, index: int) -> bool {
    is_char_boundary(utf8(text), index)
}

/// Characters of `text` between two byte offsets.
pub open spec fn byte_slice(text: Seq<char>, start: int, end: int) -> Seq<char> {
    decode_utf8(utf8(text).subrange(start, end))
}

/// Order of strings: by the code points of the first character that differs, a prefix first.
pub open spec fn str_le(left: Seq<char>, right: Seq<char>) -> bool
    decreases left.len(),
{
    if left.len() == 0 {
        true
    } else if right.len() == 0 {
        false
    } else if left[0] != right[0] {
        left[0] < right[0]
    } else {
        str_le(left.drop_first(), right.drop_first())
    }
}

/// UTF-16 code units of one character.
pub open spec fn utf16_width(c: char) -> nat {
    if (c as u32) < 0x10000 {
        1
    } else {
        2
    }
}

/// UTF-16 code units of a text.
pub open spec fn utf16_units(text: Seq<char>) -> nat
    decreases text.len(),
{
    if text.len() == 0 {
        0
    } else {
        utf16_units(text.drop_last()) + utf16_width(text.last())
    }
}

/// The Unicode `White_Space` property of a character.
pub open spec fn white_space(c: char) -> bool {
    let code = c as u32;
    ||| 0x09 <= code <= 0x0d
    ||| code == 0x20
    ||| code == 0x85
    ||| code == 0xa0
    ||| code == 0x1680
    ||| 0x2000 <= code <= 0x200a
    ||| code == 0x2028
    ||| code == 0x2029
    ||| code == 0x202f
    ||| code == 0x205f
    ||| code == 0x3000
}

/// The Unicode `White_Space` property of a character.
pub fn is_whitespace(c: char) -> (res: bool)
    ensures
        res == white_space(c),
{
    let code: u32 = c as u32;
    (0x09 <= code && code <= 0x0d) || code == 0x20 || code == 0x85 || code == 0xa0 || code == 0x1680
        || (0x2000 <= code && code <= 0x200a) || code == 0x2028 || code == 0x2029 || code == 0x202f
        || code == 0x205f || code == 0x3000
}

/// Length of the longest run of white space that starts `text`.
pub open spec fn leading_space(text: Seq<char>) -> nat
    decreases text.len(),
{
    if text.len() > 0 && white_space(text[0]) {
        1 + leading_space(text.drop_first())
    } else {
        0
    }
}

/// Length of the longest run of white space that ends `text`.
pub open spec fn trailing_space(text: Seq<char>) -> nat
    decreases text.len(),
{
    if text.len() > 0 && white_space(text.last()) {
        1 + trailing_space(text.drop_last())
    } else {
        0
    }
}

/// `text` without the white space around it.
pub open spec fn trimmed(text: Seq<char>) -> Seq<char> {
    let rest = text.skip(leading_space(text) as int);
    rest.take(rest.len() - trailing_space(rest))
}

/// A text has as many UTF-16 units as its parts have together.
pub proof fn lemma_utf16_concat(left: Seq<char>, right: Seq<char>)
    ensures
        utf16_units(left + right) == utf16_units(left) + utf16_units(right),
    decreases right.len(),
{
    if right.len() == 0 {
        assert(left + right =~= left);
    } else {
        assert((left + right).drop_last() =~= left + right.drop_last());
        lemma_utf16_concat(left, right.drop_last());
    }
}

/// The bytes of a text are those of its first character, then those of the rest.
proof fn lemma_utf8_first(text: Seq<char>)
    requires
        text.len() > 0,
    ensures
        utf8(text) == vstd::utf8::encode_scalar(text[0] as u32) + utf8(text.drop_first()),
{
}

/// The bytes of two texts, one after the other, are those of the texts joined.
pub proof fn lemma_utf8_concat(left: Seq<char>, right: Seq<char>)
    ensures
        utf8(left + right) == utf8(left) + utf8(right),
    decreases left.len(),
{
    if left.len() == 0 {
        assert(left + right =~= right);
        assert(utf8(left) =~= Seq::<u8>::empty());
        assert(utf8(left) + utf8(right) =~= utf8(right));
    } else {
        lemma_utf8_first(left);
        lemma_utf8_first(left + right);
        assert((left + right).drop_first() =~= left.drop_first() + right);
        lemma_utf8_concat(left.drop_first(), right);
        assert(utf8(left + right) =~= utf8(left) + utf8(right));
    }
}

/// No text has more UTF-16 units than bytes.
pub proof fn lemma_utf16_within_utf8(text: Seq<char>)
    ensures
        utf16_units(text) <= utf8(text).len(),
    decreases text.len(),
{
    if text.len() > 0 {
        let first = text.take(1);
        let rest = text.drop_first();
        assert(text =~= first + rest);
        lemma_utf16_concat(first, rest);
        lemma_utf16_within_utf8(rest);
        lemma_utf8_first(text);
        assert(first.drop_last() =~= Seq::<char>::empty());
        assert(utf16_units(first.drop_last()) == 0);
        assert(utf16_units(first) == utf16_width(text[0]));
    }
}

/// An ASCII byte is a character of its own: it starts and ends at a boundary.
pub proof fn lemma_ascii_boundary(text: Seq<char>, index: int)
    requires
        0 <= index < utf8(text).len(),
        utf8(text)[index] < 0x80,
    ensures
        boundary(text, index),
        boundary(text, index + 1),
{
    let bytes = utf8(text);
    encode_utf8_valid_utf8(text);
    is_char_boundary_iff_not_is_continuation_byte(bytes, index);
    let b = bytes[index];
    assert(!is_continuation_byte(b));
    let tail = bytes.subrange(index, bytes.len() as int);
    valid_utf8_split(bytes, index);
    assert(tail[0] == b);
    assert(valid_utf8(tail));
    if index + 1 == bytes.len() {
        is_char_boundary_start_end_of_seq(bytes);
    } else {
        let rest = vstd::utf8::pop_first_scalar(tail);
        assert(valid_utf8(rest));
        assert(rest =~= bytes.subrange(index + 1, bytes.len() as int));
        is_char_boundary_start_end_of_seq(rest);
        is_char_boundary_iff_not_is_continuation_byte(rest, 0);
        assert(rest[0] == bytes[index + 1]);
        is_char_boundary_iff_not_is_continuation_byte(bytes, index + 1);
    }
}

/// Boundaries of a text are boundaries of the part of it that ends at one.
proof fn lemma_boundary_of_prefix(bytes: Seq<u8>, start: int, end: int)
    requires
        valid_utf8(bytes),
        is_char_boundary(bytes, start),
        is_char_boundary(bytes, end),
        0 <= start <= end <= bytes.len(),
    ensures
        is_char_boundary(bytes.subrange(0, end), start),
{
    let head = bytes.subrange(0, end);
    valid_utf8_split(bytes, end);
    if start == end {
        is_char_boundary_start_end_of_seq(head);
    } else {
        is_char_boundary_iff_not_is_continuation_byte(bytes, start);
        is_char_boundary_iff_not_is_continuation_byte(head, start);
        assert(head[start] == bytes[start]);
    }
}

/// A boundary lies within the text.
pub proof fn lemma_boundary_in_range(text: Seq<char>, index: int)
    requires
        boundary(text, index),
    ensures
        0 <= index <= utf8(text).len(),
{
    encode_utf8_valid_utf8(text);
    lemma_boundary_bytes_in_range(utf8(text), index);
}

proof fn lemma_boundary_bytes_in_range(bytes: Seq<u8>, index: int)
    requires
        valid_utf8(bytes),
        is_char_boundary(bytes, index),
    ensures
        0 <= index <= bytes.len(),
{
}

/// Whether two strings hold the same characters.
pub fn str_eq(left: &str, right: &str) -> (res: bool)
    ensures
        res == (left@ == right@),
{
    let mut left_chars = left.chars();
    let mut right_chars = right.chars();
    let ghost mut seen: int = 0;
    loop
        invariant
            0 <= seen <= left@.len(),
            seen <= right@.len(),
            left_chars.remaining() == left@.skip(seen),
            right_chars.remaining() == right@.skip(seen),
            left@.take(seen) == right@.take(seen),
        decreases left@.len() - seen,
    {
        match (left_chars.next(), right_chars.next()) {
            (None, None) => {
                assert(left@.take(seen) =~= left@);
                assert(right@.take(seen) =~= right@);
                return true;
            },
            (Some(a), Some(b)) => {
                assert(a == left@[seen] && b == right@[seen]);
                if a != b {
                    return false;
                }
                proof {
                    assert(left@.take(seen + 1) =~= left@.take(seen).push(a));
                    assert(right@.take(seen + 1) =~= right@.take(seen).push(b));
                    seen = seen + 1;
                }
            },
            _ => {
                return false;
            },
        }
    }
}

/// Whether `text` starts with `prefix`.
pub fn starts_with(text: &str, prefix: &str) -> (res: bool)
    ensures
        res == prefix@.is_prefix_of(text@),
{
    let mut text_chars = text.chars();
    let mut prefix_chars = prefix.chars();
    let ghost mut seen: int = 0;
    loop
        invariant
            0 <= seen <= prefix@.len(),
            seen <= text@.len(),
            text_chars.remaining() == text@.skip(seen),
            prefix_chars.remaining() == prefix@.skip(seen),
            prefix@.take(seen) == text@.take(seen),
        decreases prefix@.len() - seen,
    {
        match prefix_chars.next() {
            None => {
                return true;
            },
            Some(expected) => {
                match text_chars.next() {
                    None => {
                        return false;
                    },
                    Some(found) => {
                        if expected != found {
                            assert(prefix@[seen] != text@[seen]);
                            return false;
                        }
                        proof {
                            assert(prefix@.take(seen + 1) =~= prefix@.take(seen).push(expected));
                            assert(text@.take(seen + 1) =~= text@.take(seen).push(found));
                            seen = seen + 1;
                        }
                    },
                }
            },
        }
    }
}

/// Whether `left` sorts at or before `right`.
pub fn is_str_le(left: &str, right: &str) -> (res: bool)
    ensures
        res == str_le(left@, right@),
{
    let mut left_chars = left.chars();
    let mut right_chars = right.chars();
    let ghost mut seen: int = 0;
    assert(left@.skip(0) =~= left@);
    assert(right@.skip(0) =~= right@);
    loop
        invariant
            0 <= seen <= left@.len(),
            seen <= right@.len(),
            left_chars.remaining() == left@.skip(seen),
            right_chars.remaining() == right@.skip(seen),
            str_le(left@, right@) == str_le(left@.skip(seen), right@.skip(seen)),
        decreases left@.len() - seen,
    {
        match left_chars.next() {
            None => {
                return true;
            },
            Some(a) => {
                match right_chars.next() {
                    None => {
                        return false;
                    },
                    Some(b) => {
                        if a != b {
                            return a < b;
                        }
                        proof {
                            assert(left@.skip(seen).drop_first() =~= left@.skip(seen + 1));
                            assert(right@.skip(seen).drop_first() =~= right@.skip(seen + 1));
                            seen = seen + 1;
                        }
                    },
                }
            },
        }
    }
}

/// The characters of a text, by index.
pub fn char_vec(text: &str) -> (res: Vec<char>)
    ensures
        res@ == text@,
{
    let mut res: Vec<char> = Vec::new();
    for c in chars: text.chars()
        invariant
            chars.seq() == text@,
            res@ == text@.take(chars.index() as int),
    {
        res.push(c);
    }
    res
}

/// Number of UTF-16 code units of `text`.
pub fn utf16_len(text: &str) -> (res: usize)
    ensures
        res == utf16_units(text@),
{
    let mut units: usize = 0;
    let ghost limit: nat = utf8(text@).len();
    let bytes = text.as_bytes();
    assert(limit == bytes.len());
    for c in chars: text.chars()
        invariant
            chars.seq() == text@,
            units == utf16_units(text@.take(chars.index() as int)),
            utf8(text@).len() <= usize::MAX,
    {
        proof {
            let index = chars.index() as int;
            let longer = text@.take(index + 1);
            assert(longer.drop_last() =~= text@.take(index));
            assert(text@ =~= longer + text@.skip(index + 1));
            lemma_utf16_concat(longer, text@.skip(index + 1));
            lemma_utf16_within_utf8(text@);
        }
        let code: u32 = c as u32;
        if code < 0x10000 {
            units = units + 1;
        } else {
            units = units + 2;
        }
    }
    assert(text@.take(text@.len() as int) =~= text@);
    units
}

/// `text` without the white space around it.
pub fn trim(text: &str) -> (res: &str)
    ensures
        res@ == trimmed(text@),
{
    let chars = char_vec(text);
    let mut start: usize = 0;
    assert(text@.skip(0) =~= text@);
    while start < chars.len() && is_whitespace(chars[start])
        invariant
            chars@ == text@,
            start <= chars.len(),
            leading_space(text@) == start + leading_space(text@.skip(start as int)),
        decreases chars.len() - start,
    {
        assert(text@.skip(start as int).drop_first() =~= text@.skip(start + 1));
        start = start + 1;
    }
    let ghost rest = text@.skip(start as int);
    let mut end: usize = chars.len();
    assert(rest.take(rest.len() as int) =~= rest);
    while end > start && is_whitespace(chars[end - 1])
        invariant
            chars@ == text@,
            rest == text@.skip(start as int),
            start <= end <= chars.len(),
            trailing_space(rest) == chars.len() - end + trailing_space(rest.take(end - start)),
        decreases end,
    {
        assert(rest.take(end - start).drop_last() =~= rest.take(end - start - 1));
        end = end - 1;
    }
    assert(text@.subrange(start as int, end as int) =~= trimmed(text@));
    text.substring_char(start, end)
}

/// The part of `text` between two byte offsets.
pub fn slice<'a>(text: &'a str, start: usize, end: usize) -> (res: &'a str)
    requires
        start <= end,
        boundary(text@, start as int),
        boundary(text@, end as int),
    ensures
        res@ == byte_slice(text@, start as int, end as int),
        utf8(res@) == utf8(text@).subrange(start as int, end as int),
{
    proof {
        encode_utf8_valid_utf8(text@);
        lemma_boundary_in_range(text@, end as int);
        lemma_boundary_of_prefix(utf8(text@), start as int, end as int);
    }
    let head = text.split_at(end).0;
    let res = head.split_at(start).1;
    proof {
        assert(utf8(res@) =~= utf8(text@).subrange(start as int, end as int));
        encode_utf8_decode_utf8(res@);
    }
    res
}

} // verus!
