//! Laws of requoting: what becomes of a text whose dollar-quoted literals are
//! spelled as single-quoted ones.

use vstd::prelude::*;

use crate::laws::scanning;
use crate::laws::splicing;
use crate::scanner;
use crate::scanner::{Lexeme, Region};
use crate::text;

verus! {

/// From `i` on, a backslash in `inner` escapes the quote that follows it when
/// `inner` is spelled as a single-quoted literal: a quote of its own, or the
/// closing one.
///
/// A backslash is an ordinary character in a dollar-quoted literal, and escapes
/// the next character in a single-quoted one.
pub open spec fn escapes_quote(inner: Seq<char>, i: int) -> bool
    decreases inner.len() - i,
{
    if i >= inner.len() {
        false
    } else if inner[i] != '\\' {
        escapes_quote(inner, i + 1)
    } else if i + 1 == inner.len() || inner[i + 1] == '\'' {
        true
    } else {
        escapes_quote(inner, i + 2)
    }
}

/// No dollar-quoted literal in `s` holds a backslash that escapes a quote once
/// the literal is requoted.
pub open spec fn dollar_literals_escape_no_quote(s: Seq<char>) -> bool
    decreases s.len(),
{
    if s.len() == 0 {
        true
    } else {
        proof {
            scanner::lemma_lexeme_len(s);
        }
        &&& scanner::lexeme(s) matches Lexeme::Dollar(dollar) ==> !escapes_quote(
            s.subrange(dollar.inner_start, dollar.inner_end),
            0,
        )
        &&& dollar_literals_escape_no_quote(s.skip(scanner::lexeme_len(s)))
    }
}

/// A requoted text starts with a quote where a dollar-quoted literal stood, and
/// as before otherwise.
proof fn lemma_first_character(s: Seq<char>)
    requires
        s.len() > 0,
    ensures
        scanner::requoted(s).len() > 0,
        scanner::requoted(s)[0] == (if scanner::lexeme(s) is Dollar {
            '\''
        } else {
            s[0]
        }),
{
    scanner::lemma_lexeme_len(s);
}

/// The name characters that a requoted text starts with, and a dollar sign after
/// them, stood there before.
proof fn lemma_name_prefix(s: Seq<char>, k: int)
    requires
        0 <= k < scanner::requoted(s).len(),
        forall|i: int|
            0 <= i < k ==> text::is_name_char(#[trigger] scanner::requoted(s)[i]),
        scanner::requoted(s)[k] == '$' || text::is_name_char(scanner::requoted(s)[k]),
    ensures
        k < s.len(),
        forall|i: int| 0 <= i <= k ==> s[i] == #[trigger] scanner::requoted(s)[i],
    decreases k,
{
    let t = scanner::requoted(s);
    lemma_first_character(s);
    assert(t[0] == '$' || text::is_name_char(t[0]));
    assert(scanner::lexeme(s) is Code);
    let rest = s.skip(1);
    assert(t =~= s.take(1) + scanner::requoted(rest));
    if k > 0 {
        let tail = scanner::requoted(rest);
        assert forall|i: int| 0 <= i < k - 1 implies text::is_name_char(#[trigger] tail[i]) by {
            assert(tail[i] == t[i + 1]);
        }
        assert(tail[k - 1] == t[k]);
        lemma_name_prefix(rest, k - 1);
        assert forall|i: int| 0 <= i <= k implies s[i] == #[trigger] t[i] by {
            if i > 0 {
                assert(rest[i - 1] == tail[i - 1]);
            }
        }
    }
}

/// One character of live code stays one when what follows is requoted.
proof fn lemma_code_stays_code(s: Seq<char>)
    requires
        s.len() > 0,
        scanner::lexeme(s) is Code,
    ensures
        scanner::lexeme(scanner::requoted(s)) is Code,
{
    let t = scanner::requoted(s);
    let rest = s.skip(1);
    let tail = scanner::requoted(rest);
    assert(t =~= s.take(1) + tail);
    if rest.len() > 0 {
        lemma_first_character(rest);
        assert(t[1] == tail[0]);
    }
    if scanner::dollar_literal(t) is Some {
        let q = text::is_char_at(t, '$');
        text::lemma_first_from(q, 1, t.len() as int);
        let tag_end = text::find_char(t, '$', 1)->0;
        let tag = t.subrange(1, tag_end);
        assert forall|i: int| 0 <= i < tag_end - 1 implies text::is_name_char(
            #[trigger] tail[i],
        ) by {
            assert(tag[i] == tail[i]);
        }
        assert(tail[tag_end - 1] == t[tag_end]);
        lemma_name_prefix(rest, tag_end - 1);
        assert forall|i: int| 1 <= i <= tag_end implies #[trigger] s[i] == t[i] by {
            assert(rest[i - 1] == tail[i - 1]);
        }
        let p = text::is_char_at(s, '$');
        assert forall|j: int| 1 <= j < tag_end implies !#[trigger] p(j) by {
            assert(!q(j));
        }
        text::lemma_first_is(p, 1, s.len() as int, tag_end);
        assert(s.subrange(1, tag_end) =~= tag);
        assert(scanner::dollar_literal(s) is Some);
    }
}

/// Doubling the quotes of two texts put together doubles those of each.
proof fn lemma_doubled_concat(a: Seq<char>, b: Seq<char>)
    ensures
        scanner::quotes_doubled(a + b) == scanner::quotes_doubled(a) + scanner::quotes_doubled(b),
    decreases b.len(),
{
    if b.len() == 0 {
        assert(a + b =~= a);
    } else {
        lemma_doubled_concat(a, b.drop_last());
        assert((a + b).drop_last() =~= a + b.drop_last());
        assert((a + b).last() == b.last());
        assert(scanner::quotes_doubled(a + b) =~= scanner::quotes_doubled(a)
            + scanner::quotes_doubled(b));
    }
}

/// What one character becomes when quotes are doubled.
proof fn lemma_doubled_one(c: char)
    ensures
        scanner::quotes_doubled(seq![c]) == (if c == '\'' {
            seq!['\'', '\'']
        } else {
            seq![c]
        }),
{
    assert(seq![c].drop_last() =~= Seq::<char>::empty());
    assert(scanner::quotes_doubled(Seq::<char>::empty()) =~= Seq::<char>::empty());
}

/// A string that is open in front of doubled quotes is open behind them.
proof fn lemma_passes_doubled_quotes(front: Seq<char>, inner: Seq<char>, rest: Seq<char>)
    requires
        !escapes_quote(inner, 0),
    ensures
        scanner::single_quoted_end(
            front + scanner::quotes_doubled(inner) + rest,
            front.len() as int,
        ) == scanner::single_quoted_end(
            front + scanner::quotes_doubled(inner) + rest,
            (front + scanner::quotes_doubled(inner)).len() as int,
        ),
{
    assert(inner.skip(0) =~= inner);
    lemma_passes_from(front, inner, rest, 0);
    assert(scanner::quotes_doubled(inner.take(0)) =~= Seq::<char>::empty());
}

/// A string that is open in front of the doubled form of `inner` from `i` on is
/// open behind it.
proof fn lemma_passes_from(front: Seq<char>, inner: Seq<char>, rest: Seq<char>, i: int)
    requires
        0 <= i <= inner.len(),
        !escapes_quote(inner, i),
    ensures
        scanner::single_quoted_end(
            front + scanner::quotes_doubled(inner) + rest,
            front.len() as int + scanner::quotes_doubled(inner.take(i)).len(),
        ) == scanner::single_quoted_end(
            front + scanner::quotes_doubled(inner) + rest,
            (front + scanner::quotes_doubled(inner)).len() as int,
        ),
    decreases inner.len() - i,
{
    if i == inner.len() {
        assert(inner.take(i) =~= inner);
    } else {
        lemma_doubled_at(front, inner, rest, i);
        if inner[i] == '\\' {
            lemma_doubled_at(front, inner, rest, i + 1);
            lemma_passes_from(front, inner, rest, i + 2);
        } else {
            lemma_passes_from(front, inner, rest, i + 1);
        }
    }
}

/// Where the character at `i` of `inner` stands once quotes are doubled.
proof fn lemma_doubled_at(front: Seq<char>, inner: Seq<char>, rest: Seq<char>, i: int)
    requires
        0 <= i < inner.len(),
    ensures
        ({
            let all = front + scanner::quotes_doubled(inner) + rest;
            let k = front.len() as int + scanner::quotes_doubled(inner.take(i)).len();
            let next = front.len() as int + scanner::quotes_doubled(inner.take(i + 1)).len();
            &&& next <= all.len()
            &&& all[k] == inner[i]
            &&& inner[i] == '\'' ==> next == k + 2 && all[k + 1] == '\''
            &&& inner[i] != '\'' ==> next == k + 1
        }),
{
    let before = inner.take(i);
    let one = seq![inner[i]];
    let behind = inner.skip(i + 1);
    lemma_doubled_concat(before, one);
    assert(before + one =~= inner.take(i + 1));
    lemma_doubled_concat(inner.take(i + 1), behind);
    assert(inner.take(i + 1) + behind =~= inner);
    lemma_doubled_one(inner[i]);
}

/// A string ends as far behind its start, whatever stands before.
proof fn lemma_string_shift(front: Seq<char>, s: Seq<char>, k: int)
    requires
        0 <= k,
    ensures
        scanner::single_quoted_end(front + s, front.len() + k) == front.len()
            + scanner::single_quoted_end(s, k),
    decreases s.len() - k,
{
    if k < s.len() && !(s[k] == '\\' && k + 1 == s.len()) {
        if s[k] == '\\' {
            lemma_string_shift(front, s, k + 2);
        } else if s[k] != '\'' {
            lemma_string_shift(front, s, k + 1);
        } else if k + 1 < s.len() && s[k + 1] == '\'' {
            lemma_string_shift(front, s, k + 2);
        }
    }
}

/// A string that closes before the end of a text reaches its closing quote in
/// every text that shares its characters.
proof fn lemma_reaches_closing_quote(s: Seq<char>, t: Seq<char>, n: int, k: int)
    requires
        splicing::same_before(s, t, n),
        scanner::single_quoted_end(s, k) == n,
        n < s.len(),
        0 <= k,
    ensures
        k <= n - 1,
        s[n - 1] == '\'',
        s[n] != '\'',
        scanner::single_quoted_end(t, k) == scanner::single_quoted_end(t, n - 1),
    decreases s.len() - k,
{
    if k < s.len() && !(s[k] == '\\' && k + 1 == s.len()) {
        if s[k] == '\\' {
            lemma_reaches_closing_quote(s, t, n, k + 2);
        } else if s[k] != '\'' {
            lemma_reaches_closing_quote(s, t, n, k + 1);
        } else if k + 1 < s.len() && s[k + 1] == '\'' {
            lemma_reaches_closing_quote(s, t, n, k + 2);
        }
    }
}

/// A string that reaches its closing quote goes on into the strings right behind
/// it and ends with the last of them: what is left is a requoted text again, and
/// all that it passed over was quoted before.
proof fn lemma_adjacent_strings(front: Seq<char>, rest: Seq<char>) -> (left: Seq<char>)
    requires
        front.len() > 0,
        front.last() == '\'',
        dollar_literals_escape_no_quote(rest),
    ensures
        dollar_literals_escape_no_quote(left),
        left.len() <= rest.len(),
        splicing::live_text(left) == splicing::live_text(rest),
        front.len() <= scanner::single_quoted_end(
            front + scanner::requoted(rest),
            front.len() - 1,
        ) <= (front + scanner::requoted(rest)).len(),
        (front + scanner::requoted(rest)).skip(
            scanner::single_quoted_end(front + scanner::requoted(rest), front.len() - 1),
        ) == scanner::requoted(left),
    decreases rest.len(),
{
    let t = scanner::requoted(rest);
    let all = front + t;
    if rest.len() == 0 {
        assert(all =~= front);
        assert(all.skip(front.len() as int) =~= t);
        rest
    } else {
        lemma_first_character(rest);
        assert(all[front.len() as int] == t[0]);
        if t[0] != '\'' {
            assert(all.skip(front.len() as int) =~= t);
            rest
        } else {
            let n = scanner::lexeme_len(rest);
            scanner::lemma_lexeme_len(rest);
            scanner::lemma_dollar_literal(rest);
            let piece = scanner::requoted_lexeme(rest);
            let behind = rest.skip(n);
            splicing::lemma_selected_step(rest, Region::Code);
            assert(splicing::live_text(rest) =~= splicing::live_text(behind));
            assert(all =~= front + piece + scanner::requoted(behind));
            let longer = front + piece;
            let end = scanner::single_quoted_end(all, front.len() - 1);
            assert(end == scanner::single_quoted_end(all, front.len() as int + 1));
            if let Lexeme::Dollar(dollar) = scanner::lexeme(rest) {
                let inner = rest.subrange(dollar.inner_start, dollar.inner_end);
                lemma_passes_doubled_quotes(
                    front + seq!['\''],
                    inner,
                    seq!['\''] + scanner::requoted(behind),
                );
                assert(front + seq!['\''] + scanner::quotes_doubled(inner) + (seq!['\'']
                    + scanner::requoted(behind)) =~= all);
                assert(end == scanner::single_quoted_end(all, longer.len() - 1));
                lemma_adjacent_strings(longer, behind)
            } else if behind.len() == 0 {
                assert(t =~= rest);
                lemma_string_shift(front, rest, 1);
                assert(all.skip(end) =~= scanner::requoted(behind));
                behind
            } else {
                lemma_reaches_closing_quote(rest, t, n, 1);
                lemma_string_shift(front, t, 1);
                lemma_string_shift(front, t, n - 1);
                assert(end == scanner::single_quoted_end(all, longer.len() - 1));
                lemma_adjacent_strings(longer, behind)
            }
        }
    }
}

/// A comment or a quoted identifier is kept as it is in front of a requoted
/// text.
proof fn lemma_verbatim_kept(s: Seq<char>)
    requires
        s.len() > 0,
        scanner::lexeme(s) is Verbatim,
        s[0] != '\'',
        scanner::lexeme_len(s) < s.len(),
    ensures
        scanner::lexeme(scanner::requoted(s)) == scanner::lexeme(s),
{
    let n = scanner::lexeme_len(s);
    scanner::lemma_lexeme_len(s);
    let rest = s.skip(n);
    let tail = scanner::requoted(rest);
    let t = scanner::requoted(s);
    assert(t =~= s.take(n) + tail);
    lemma_first_character(rest);
    assert(t[n] == tail[0]);
    assert(splicing::same_before(s, t, n));
    if s[0] == '-' && s[1] == '-' {
        let p = text::is_char_at(s, '\n');
        let q = text::is_char_at(t, '\n');
        text::lemma_first_from(p, 2, s.len() as int);
        let end = text::find_char(s, '\n', 2)->0;
        assert forall|j: int| 2 <= j < end implies !#[trigger] q(j) by {
            assert(!p(j));
        }
        text::lemma_first_is(q, 2, t.len() as int, end);
    } else if s[0] == '/' && s[1] == '*' {
        splicing::lemma_block_comment_local(s, t, n, 2, 1);
    } else {
        lemma_no_quote_behind_identifier(s, 1);
        splicing::lemma_double_quoted_local(s, t, n, 1);
    }
}

/// No double quote stands right behind a quoted identifier.
proof fn lemma_no_quote_behind_identifier(s: Seq<char>, i: int)
    requires
        0 <= i,
        scanner::double_quoted_end(s, i) < s.len(),
    ensures
        0 <= scanner::double_quoted_end(s, i),
        s[scanner::double_quoted_end(s, i)] != '"',
    decreases s.len() - i,
{
    if i < s.len() {
        if s[i] != '"' {
            lemma_no_quote_behind_identifier(s, i + 1);
        } else if i + 1 < s.len() && s[i + 1] == '"' {
            lemma_no_quote_behind_identifier(s, i + 2);
        }
    }
}

/// Requoting leaves no dollar-quoted literal behind, and leaves live code as it
/// is: every rewrite that follows sees ordinary strings.
pub proof fn law_requoted_text_holds_no_dollar_literal(s: Seq<char>)
    requires
        dollar_literals_escape_no_quote(s),
    ensures
        !scanning::has_dollar_literal(scanner::requoted(s)),
        splicing::live_text(scanner::requoted(s)) == splicing::live_text(s),
    decreases s.len(),
{
    if s.len() > 0 {
        let t = scanner::requoted(s);
        let n = scanner::lexeme_len(s);
        let rest = s.skip(n);
        scanner::lemma_lexeme_len(s);
        scanner::lemma_dollar_literal(s);
        lemma_first_character(s);
        splicing::lemma_selected_step(s, Region::Code);
        splicing::lemma_selected_step(t, Region::Code);
        let piece = scanner::requoted_lexeme(s);
        assert(t =~= piece + scanner::requoted(rest));
        match scanner::lexeme(s) {
            Lexeme::Code => {
                lemma_code_stays_code(s);
                assert(t.skip(1) =~= scanner::requoted(rest));
                assert(t.take(1) =~= s.take(1));
                law_requoted_text_holds_no_dollar_literal(rest);
            },
            Lexeme::Dollar(dollar) => {
                let inner = s.subrange(dollar.inner_start, dollar.inner_end);
                lemma_passes_doubled_quotes(
                    seq!['\''],
                    inner,
                    seq!['\''] + scanner::requoted(rest),
                );
                assert(seq!['\''] + scanner::quotes_doubled(inner) + (seq!['\'']
                    + scanner::requoted(rest)) =~= t);
                let left = lemma_adjacent_strings(piece, rest);
                law_requoted_text_holds_no_dollar_literal(left);
            },
            Lexeme::Verbatim(_) => {
                if rest.len() == 0 {
                    assert(t =~= s);
                    assert(t.skip(n) =~= rest);
                    assert(!scanning::has_dollar_literal(rest));
                } else if s[0] == '\'' {
                    lemma_reaches_closing_quote(s, t, n, 1);
                    let left = lemma_adjacent_strings(piece, rest);
                    law_requoted_text_holds_no_dollar_literal(left);
                } else {
                    lemma_verbatim_kept(s);
                    assert(t.skip(n) =~= scanner::requoted(rest));
                    law_requoted_text_holds_no_dollar_literal(rest);
                }
            },
        }
    }
}

/// Requoting a requoted text changes nothing.
pub proof fn law_requoting_is_idempotent(s: Seq<char>)
    requires
        dollar_literals_escape_no_quote(s),
    ensures
        scanner::requoted(scanner::requoted(s)) == scanner::requoted(s),
{
    law_requoted_text_holds_no_dollar_literal(s);
    scanning::law_requoting_without_dollar_literal(scanner::requoted(s));
}

}
