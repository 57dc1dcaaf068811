//! Byte offsets: where the characters of a text stand in its UTF-8 form.

use vstd::prelude::*;

use crate::text;

verus! {

/// The number of bytes that `c` takes in UTF-8.
pub open spec fn width(c: char) -> int {
    vstd::utf8::encode_scalar(c as u32).len() as int
}

/// The byte offset of the character at `i` in `s`.
pub open spec fn byte_offset(s: Seq<char>, i: int) -> int {
    vstd::utf8::encode_utf8(s.take(i)).len() as int
}

/// The number of bytes of `s`.
pub open spec fn byte_len(s: Seq<char>) -> int {
    vstd::utf8::encode_utf8(s).len() as int
}

/// The character at `i` starts at or after the byte `from`.
pub open spec fn starts_at_or_after(s: Seq<char>, from: int) -> spec_fn(int) -> bool {
    |i: int| byte_offset(s, i) >= from
}

/// The first character of `s` that starts at or after the byte `from`.
pub open spec fn char_at_or_after(s: Seq<char>, from: int) -> int {
    text::or_end(
        text::first_from(starts_at_or_after(s, from), 0, s.len() as int),
        s.len() as int,
    )
}

/// The character at `i` ends after the byte `from`.
pub open spec fn ends_after(s: Seq<char>, from: int) -> spec_fn(int) -> bool {
    |i: int| byte_offset(s, i + 1) > from
}

/// The first character of `s` that the byte `from`, or a later one, belongs to.
pub open spec fn char_containing(s: Seq<char>, from: int) -> int {
    text::or_end(text::first_from(ends_after(s, from), 0, s.len() as int), s.len() as int)
}

/// The UTF-8 form of a concatenation is the concatenation of the UTF-8 forms.
pub proof fn lemma_encode_concat(a: Seq<char>, b: Seq<char>)
    ensures
        vstd::utf8::encode_utf8(a + b) == vstd::utf8::encode_utf8(a) + vstd::utf8::encode_utf8(b),
    decreases a.len(),
{
    if a.len() == 0 {
        assert(a + b == b);
    } else {
        lemma_encode_concat(a.drop_first(), b);
        assert((a + b).drop_first() == a.drop_first() + b);
    }
}

/// A character takes one to four bytes.
pub proof fn lemma_width(c: char)
    ensures
        1 <= width(c) <= 4,
        width(c) == 1 <==> text::is_ascii_char(c),
{
}

/// The character after the one at `i` starts where that one ends.
pub proof fn lemma_offset_step(s: Seq<char>, i: int)
    requires
        0 <= i < s.len(),
    ensures
        byte_offset(s, i + 1) == byte_offset(s, i) + width(s[i]),
        byte_offset(s, i + 1) <= byte_len(s),
{
    reveal_with_fuel(vstd::utf8::encode_utf8, 2);
    assert(s.take(i + 1) == s.take(i) + seq![s[i]]);
    lemma_encode_concat(s.take(i), seq![s[i]]);
    assert(seq![s[i]].drop_first() == Seq::<char>::empty());
    assert(s == s.take(i + 1) + s.skip(i + 1));
    lemma_encode_concat(s.take(i + 1), s.skip(i + 1));
}

/// Later characters start at later bytes.
pub proof fn lemma_offset_increases(s: Seq<char>, i: int, j: int)
    requires
        0 <= i <= j <= s.len(),
    ensures
        byte_offset(s, i) + (j - i) <= byte_offset(s, j) <= byte_len(s),
    decreases j - i,
{
    if i < j {
        lemma_offset_increases(s, i, j - 1);
        lemma_offset_step(s, j - 1);
        lemma_width(s[j - 1]);
    } else {
        assert(s == s.take(i) + s.skip(i));
        lemma_encode_concat(s.take(i), s.skip(i));
    }
}

/// The first character starts at byte zero, and the end is after all bytes.
pub proof fn lemma_offset_ends(s: Seq<char>)
    ensures
        byte_offset(s, 0) == 0,
        byte_offset(s, s.len() as int) == byte_len(s),
{
    assert(s.take(0) == Seq::<char>::empty());
    assert(s.take(s.len() as int) == s);
}

/// The number of bytes that `c` takes in UTF-8.
pub fn char_width(c: char) -> (bytes: usize)
    ensures
        bytes == width(c),
{
    if c <= '\u{7f}' {
        1
    } else if c <= '\u{7ff}' {
        2
    } else if c <= '\u{ffff}' {
        3
    } else {
        4
    }
}

/// The byte offset of the character at `index`.
pub fn offset_of(chars: &[char], index: usize) -> (offset: usize)
    requires
        index <= chars@.len(),
        byte_len(chars@) <= usize::MAX,
    ensures
        offset == byte_offset(chars@, index as int),
{
    let mut offset: usize = 0;
    let mut i: usize = 0;
    proof {
        lemma_offset_ends(chars@);
    }
    while i < index
        invariant
            i <= index <= chars@.len(),
            byte_len(chars@) <= usize::MAX,
            offset == byte_offset(chars@, i as int),
        decreases index - i,
    {
        proof {
            lemma_offset_step(chars@, i as int);
        }
        offset += char_width(chars[i]);
        i += 1;
    }
    offset
}

/// The first character that starts at or after the byte `from`.
pub fn index_at_or_after(chars: &[char], from: usize) -> (index: usize)
    requires
        byte_len(chars@) <= usize::MAX,
    ensures
        index == char_at_or_after(chars@, from as int),
        index <= chars@.len(),
{
    let ghost p = starts_at_or_after(chars@, from as int);
    let mut offset: usize = 0;
    let mut i: usize = 0;
    proof {
        lemma_offset_ends(chars@);
    }
    while i < chars.len()
        invariant
            p == starts_at_or_after(chars@, from as int),
            i <= chars@.len(),
            byte_len(chars@) <= usize::MAX,
            offset == byte_offset(chars@, i as int),
            forall|j: int| 0 <= j < i ==> !#[trigger] p(j),
        decreases chars@.len() - i,
    {
        if offset >= from {
            proof {
                text::lemma_first_is(p, 0, chars@.len() as int, i as int);
            }
            return i;
        }
        proof {
            lemma_offset_step(chars@, i as int);
        }
        offset += char_width(chars[i]);
        i += 1;
    }
    proof {
        text::lemma_no_first(p, 0, chars@.len() as int);
    }
    i
}

/// The first character that the byte `from`, or a later one, belongs to.
pub fn index_containing(chars: &[char], from: usize) -> (index: usize)
    requires
        byte_len(chars@) <= usize::MAX,
    ensures
        index == char_containing(chars@, from as int),
        index <= chars@.len(),
{
    let ghost p = ends_after(chars@, from as int);
    let mut offset: usize = 0;
    let mut i: usize = 0;
    proof {
        lemma_offset_ends(chars@);
    }
    while i < chars.len()
        invariant
            p == ends_after(chars@, from as int),
            i <= chars@.len(),
            byte_len(chars@) <= usize::MAX,
            offset == byte_offset(chars@, i as int),
            forall|j: int| 0 <= j < i ==> !#[trigger] p(j),
        decreases chars@.len() - i,
    {
        proof {
            lemma_offset_step(chars@, i as int);
        }
        offset += char_width(chars[i]);
        if offset > from {
            proof {
                text::lemma_first_is(p, 0, chars@.len() as int, i as int);
            }
            return i;
        }
        i += 1;
    }
    proof {
        text::lemma_no_first(p, 0, chars@.len() as int);
    }
    i
}

}
