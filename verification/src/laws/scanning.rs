//! Laws of the scanner.

use vstd::prelude::*;

use crate::laws::splicing;
use crate::offsets;
use crate::scanner;
use crate::scanner::{Lexeme, Region};
use crate::text;

verus! {

/// Scanning a text again from a live character on finds the regions that
/// scanning all of it found there.
pub proof fn law_rescan_from_live_code(s: Seq<char>, k: int)
    requires
        scanner::is_live(s, k),
    ensures
        scanner::regions(s.skip(k)) == scanner::regions(s).skip(k),
        scanner::regions(s.skip(k + 1)) == scanner::regions(s).skip(k + 1),
        scanner::lexeme(s.skip(k)) is Code,
    decreases s.len(),
{
    let n = scanner::lexeme_len(s);
    let all = scanner::regions(s);
    scanner::lemma_lexeme_len(s);
    scanner::lemma_regions_len(s);
    if k < n {
        assert(all[k] == scanner::lexeme_region(s));
        assert(s.skip(0) == s);
        assert(all.skip(0) == all);
        assert(all.skip(1) == scanner::regions(s.skip(1)));
    } else {
        let rest = s.skip(n);
        assert(all.skip(n) == scanner::regions(rest));
        assert(scanner::regions(rest)[k - n] == all[k]);
        law_rescan_from_live_code(rest, k - n);
        assert(rest.skip(k - n) == s.skip(k));
        assert(rest.skip(k - n + 1) == s.skip(k + 1));
        assert(all.skip(n).skip(k - n) == all.skip(k));
        assert(all.skip(n).skip(k - n + 1) == all.skip(k + 1));
    }
}

/// A dollar-quoted literal that is never closed swallows the rest of the text:
/// from where it opens on, nothing is live code.
pub proof fn law_open_dollar_literal_swallows_the_rest(s: Seq<char>) -> (from: int)
    requires
        scanner::has_open_dollar_literal(s),
    ensures
        0 <= from < s.len(),
        s[from] == '$',
        forall|i: int| from <= i < s.len() ==> !#[trigger] scanner::is_live(s, i),
    decreases s.len(),
{
    let n = scanner::lexeme_len(s);
    let all = scanner::regions(s);
    scanner::lemma_lexeme_len(s);
    scanner::lemma_regions_len(s);
    if scanner::lexeme(s) matches Lexeme::Dollar(dollar) && !dollar.closed {
        assert(n == s.len());
        assert(all == Seq::new(n as nat, |i: int| Region::Quoted) + scanner::regions(s.skip(n)));
        0
    } else {
        let rest = s.skip(n);
        let from = law_open_dollar_literal_swallows_the_rest(rest);
        assert forall|i: int| from + n <= i < s.len() implies !#[trigger] scanner::is_live(s, i) by {
            assert(!scanner::is_live(rest, i - n));
            assert(all[i] == scanner::regions(rest)[i - n]);
        }
        from + n
    }
}

/// A character that every keyword is spelled with: an ASCII letter, a digit, or
/// an underscore.
pub open spec fn is_keyword_char(c: char) -> bool {
    text::is_ascii_letter(c) || text::is_ascii_digit(c) || c == '_'
}

/// A keyword that is found is live code from its first character to its last,
/// so one inside a literal or a comment is never mistaken for a keyword.
pub proof fn law_found_keyword_is_live(s: Seq<char>, keyword: Seq<char>, from: int, i: int)
    requires
        scanner::find_keyword_from(s, keyword, from) == Some(i),
        forall|j: int| 0 <= j < keyword.len() ==> is_keyword_char(#[trigger] keyword[j]),
    ensures
        from <= i,
        i + keyword.len() <= s.len(),
        text::same_ignoring_case(s.subrange(i, i + keyword.len()), keyword),
        forall|j: int| i <= j < i + keyword.len() ==> #[trigger] scanner::is_live(s, j),
{
    text::lemma_first_from(scanner::keyword_positions(s, keyword), from, s.len() as int);
    let window = s.subrange(i, i + keyword.len());
    assert forall|j: int| 0 <= j < keyword.len() implies is_keyword_char(#[trigger] window[j]) by {
        assert(is_keyword_char(keyword[j]));
        assert(text::ascii_lower(window[j]) == text::ascii_lower(keyword[j]));
    }
    lemma_word_stays_live(s, i, i + keyword.len());
}

/// Live code goes on as long as word characters do.
pub(crate) proof fn lemma_word_stays_live(s: Seq<char>, i: int, end: int)
    requires
        0 <= i < end <= s.len(),
        scanner::is_live(s, i),
        splicing::is_word(s.subrange(i, end)),
    ensures
        forall|j: int| i <= j < end ==> #[trigger] scanner::is_live(s, j),
{
    let word = s.subrange(i, end);
    law_rescan_from_live_code(s, i);
    splicing::lemma_word_is_code(word, s.skip(end));
    assert(s.skip(i) =~= word + s.skip(end));
    scanner::lemma_regions_len(s);
    assert forall|j: int| i <= j < end implies #[trigger] scanner::is_live(s, j) by {
        assert(scanner::regions(s.skip(i))[j - i] == scanner::regions(s)[j]);
    }
}

/// `s` holds a dollar-quoted literal.
pub open spec fn has_dollar_literal(s: Seq<char>) -> bool
    decreases s.len(),
{
    if s.len() == 0 {
        false
    } else {
        proof {
            scanner::lemma_lexeme_len(s);
        }
        ||| scanner::lexeme(s) is Dollar
        ||| has_dollar_literal(s.skip(scanner::lexeme_len(s)))
    }
}

/// Requoting copies everything but dollar-quoted literals: a text without one
/// is left as it is.
pub proof fn law_requoting_without_dollar_literal(s: Seq<char>)
    requires
        !has_dollar_literal(s),
    ensures
        scanner::requoted(s) == s,
    decreases s.len(),
{
    if s.len() > 0 {
        let n = scanner::lexeme_len(s);
        scanner::lemma_lexeme_len(s);
        law_requoting_without_dollar_literal(s.skip(n));
        assert(s.take(n) + s.skip(n) == s);
    }
}

/// The pieces that a separator splits a text into, put together with the
/// separator between them, are the text.
pub proof fn law_pieces_join_to_the_text(s: Seq<char>, c: char, from: int)
    requires
        0 <= from <= s.len(),
    ensures
        text::joined(scanner::live_pieces(s, c, from), seq![c]) == s.skip(from),
    decreases s.len() - from,
{
    match scanner::find_live_char(s, c, from) {
        Some(i) => {
            text::lemma_first_from(scanner::live_char(s, c), from, s.len() as int);
            law_pieces_join_to_the_text(s, c, i + 1);
            let rest = scanner::live_pieces(s, c, i + 1);
            lemma_joined_first(s.subrange(from, i), rest, seq![c]);
            assert(s.subrange(from, i) + seq![c] + s.skip(i + 1) == s.skip(from));
        },
        None => {
            assert(s.subrange(from, s.len() as int) == s.skip(from));
        },
    }
}

/// The first of several parts comes first in their join.
pub(crate) proof fn lemma_joined_first(first: Seq<char>, rest: Seq<Seq<char>>, separator: Seq<char>)
    requires
        rest.len() > 0,
    ensures
        text::joined(seq![first] + rest, separator) == first + separator + text::joined(
            rest,
            separator,
        ),
    decreases rest.len(),
{
    let all = seq![first] + rest;
    if rest.len() == 1 {
        assert(all.drop_last() == seq![first]);
        assert(text::joined(seq![first], separator) == first);
    } else {
        lemma_joined_first(first, rest.drop_last(), separator);
        assert(all.drop_last() == seq![first] + rest.drop_last());
        assert(all.last() == rest.last());
        assert(first + separator + text::joined(rest.drop_last(), separator) + separator
            + rest.last() == first + separator + (text::joined(rest.drop_last(), separator)
            + separator + rest.last()));
    }
}

/// The bytes of a character above ASCII are all above ASCII, and an ASCII
/// character is its own byte.
proof fn lemma_bytes_of(c: char, k: int)
    requires
        0 <= k < offsets::width(c),
    ensures
        text::is_ascii_char(c) ==> vstd::utf8::encode_scalar(c as u32)[k] == c as u8,
        !text::is_ascii_char(c) ==> vstd::utf8::encode_scalar(c as u32)[k] >= 128,
{
    let v = c as u32;
    assert(v < 128 ==> (v & 0x7F) as u8 == v as u8) by (bit_vector);
    assert(forall|x: u8| #[trigger] (0xC0u8 | x) >= 128) by (bit_vector);
    assert(forall|x: u8| #[trigger] (0xE0u8 | x) >= 128) by (bit_vector);
    assert(forall|x: u8| #[trigger] (0xF0u8 | x) >= 128) by (bit_vector);
    assert(forall|x: u8| #[trigger] (0x80u8 | x) >= 128) by (bit_vector);
}

/// ASCII characters with the same byte are the same.
proof fn lemma_same_byte(a: char, b: char)
    requires
        text::is_ascii_char(a),
        text::is_ascii_char(b),
        a as u8 == b as u8,
    ensures
        a == b,
{
}

/// The bytes of the character at `i` stand in the UTF-8 form of the text.
proof fn lemma_bytes_at(s: Seq<char>, i: int, k: int)
    requires
        0 <= i < s.len(),
        0 <= k < offsets::width(s[i]),
    ensures
        offsets::byte_offset(s, i) + k < offsets::byte_len(s),
        vstd::utf8::encode_utf8(s)[offsets::byte_offset(s, i) + k] == vstd::utf8::encode_scalar(
            s[i] as u32,
        )[k],
        scanner::byte_regions(s)[offsets::byte_offset(s, i) + k] == scanner::regions(s)[i],
{
    reveal_with_fuel(vstd::utf8::encode_utf8, 2);
    offsets::lemma_offset_step(s, i);
    let one = seq![s[i]];
    assert(one.drop_first() == Seq::<char>::empty());
    assert(s =~= s.take(i) + one + s.skip(i + 1));
    offsets::lemma_encode_concat(s.take(i), one);
    offsets::lemma_encode_concat(s.take(i) + one, s.skip(i + 1));
    scanner::lemma_char_containing(s, i, offsets::byte_offset(s, i) + k);
}

/// Searching the bytes of live code for an ASCII character finds the character
/// that searching the characters finds.
pub proof fn law_byte_search_finds_the_character(s: Seq<char>, c: char)
    requires
        text::is_ascii_char(c),
    ensures
        scanner::find_live_byte(s, c as u8) == (match scanner::find_live_char(s, c, 0) {
            Some(i) => Some(offsets::byte_offset(s, i)),
            None => None::<int>,
        }),
{
    let chars = scanner::live_char(s, c);
    let bytes = scanner::live_byte(s, c as u8);
    let len = offsets::byte_len(s);
    text::lemma_first_from(chars, 0, s.len() as int);
    // A byte that is found belongs to a character that is found.
    assert forall|k: int| #[trigger] bytes(k) implies ({
        let i = offsets::char_containing(s, k);
        chars(i) && k == offsets::byte_offset(s, i)
    }) by {
        let i = offsets::char_containing(s, k);
        lemma_byte_belongs(s, k);
        lemma_bytes_at(s, i, k - offsets::byte_offset(s, i));
        lemma_bytes_of(s[i], k - offsets::byte_offset(s, i));
        offsets::lemma_width(s[i]);
        assert((c as u8) < 128);
        lemma_same_byte(s[i], c);
    }
    match scanner::find_live_char(s, c, 0) {
        Some(i) => {
            offsets::lemma_width(s[i]);
            lemma_bytes_at(s, i, 0);
            lemma_bytes_of(s[i], 0);
            let at = offsets::byte_offset(s, i);
            offsets::lemma_offset_increases(s, 0, i);
            offsets::lemma_offset_ends(s);
            assert(bytes(at));
            assert forall|k: int| 0 <= k < at implies !#[trigger] bytes(k) by {
                if bytes(k) {
                    let j = offsets::char_containing(s, k);
                    assert(chars(j));
                    assert(j >= i);
                    offsets::lemma_offset_increases(s, i, j);
                }
            }
            text::lemma_first_is(bytes, 0, len, at);
        },
        None => {
            assert forall|k: int| 0 <= k < len implies !#[trigger] bytes(k) by {
                if bytes(k) {
                    assert(chars(offsets::char_containing(s, k)));
                }
            }
            text::lemma_no_first(bytes, 0, len);
        },
    }
}

/// Every byte belongs to a character.
proof fn lemma_byte_belongs(s: Seq<char>, k: int)
    requires
        0 <= k < offsets::byte_len(s),
    ensures
        0 <= offsets::char_containing(s, k) < s.len(),
        offsets::byte_offset(s, offsets::char_containing(s, k)) <= k,
        k < offsets::byte_offset(s, offsets::char_containing(s, k)) + offsets::width(
            s[offsets::char_containing(s, k)],
        ),
{
    let p = offsets::ends_after(s, k);
    offsets::lemma_offset_ends(s);
    text::lemma_first_from(p, 0, s.len() as int);
    let i = offsets::char_containing(s, k);
    if text::first_from(p, 0, s.len() as int) is None {
        if s.len() > 0 {
            assert(!p(s.len() - 1));
        }
    } else {
        offsets::lemma_offset_step(s, i);
        if i > 0 {
            assert(!p(i - 1));
        }
    }
}

}
