//! Text: what it is taken apart into, and how numbers are written.
use vstd::prelude::*;

use crate::text::{
    all_digits, cut_at, decimal, digits_of, digits_value, integer, is_digit, joined, lemma_decimal,
    lemma_pieces_step, length_before, lowercase, pieces, same_letters, trimmed, unsigned, white,
    without_leading_space, without_trailing_space, word_length, words,
};

verus! {

/// What white space is: tab, line feed, vertical tab, form feed, carriage return, space, next line,
/// and the blanks and separators beyond ASCII.
pub proof fn law_what_white_space_is(c: char)
    ensures
        c as int <= 127 ==> (white(c) <==> 9 <= c as int <= 13 || c as int == 32),
        c as int > 127 ==> (white(c) <==> c as int == 0x85 || c as int == 0xa0 || c as int == 0x1680
            || 0x2000 <= c as int <= 0x200a || c as int == 0x2028 || c as int == 0x2029 || c as int
            == 0x202f || c as int == 0x205f || c as int == 0x3000),
{
}

/// Trimmed text is what is left between the white space at its ends, and has none at its own.
pub proof fn law_trimmed_text_is_the_middle(s: Seq<char>)
    ensures
        exists|i: int, j: int| #[trigger] is_middle(s, trimmed(s), i, j),
{
    let t = without_leading_space(s);
    lemma_leading(s);
    lemma_trailing(t);
    let i = s.len() - t.len();
    let u = trimmed(s);
    assert(s.skip(i) == t);
    assert(u == t.take(u.len() as int));
    assert(u == s.subrange(i, i + u.len()));
    assert forall|k: int| i + u.len() <= k < s.len() implies white(#[trigger] s[k]) by {
        assert(t[k - i] == s[k]);
    }
    if u.len() > 0 {
        assert(u[0] == t[0]);
        assert(u.last() == s[i + u.len() - 1]);
    }
    assert(is_middle(s, u, i, i + u.len() as int));
}

/// Whether `t` stands in `s` from place `i` up to place `j`, with white space alone around it and
/// none at its ends.
pub open spec fn is_middle(s: Seq<char>, t: Seq<char>, i: int, j: int) -> bool {
    &&& 0 <= i <= j <= s.len()
    &&& t == s.subrange(i, j)
    &&& forall|k: int| 0 <= k < i ==> white(#[trigger] s[k])
    &&& forall|k: int| j <= k < s.len() ==> white(#[trigger] s[k])
    &&& i < j ==> !white(s[i]) && !white(s[j - 1])
}

/// What is cut off at the start is white space.
proof fn lemma_leading(s: Seq<char>)
    ensures
        ({
            let t = without_leading_space(s);
            &&& t.len() <= s.len()
            &&& t == s.skip(s.len() - t.len())
            &&& forall|k: int| 0 <= k < s.len() - t.len() ==> white(#[trigger] s[k])
            &&& t.len() > 0 ==> !white(t[0])
        }),
    decreases s.len(),
{
    if s.len() > 0 && white(s[0]) {
        let rest = s.drop_first();
        lemma_leading(rest);
        let t = without_leading_space(s);
        assert(rest.skip(rest.len() - t.len()) == s.skip(s.len() - t.len()));
        assert forall|k: int| 0 <= k < s.len() - t.len() implies white(#[trigger] s[k]) by {
            if k > 0 {
                assert(rest[k - 1] == s[k]);
            }
        }
    } else {
        assert(s.skip(0) == s);
    }
}

/// What is cut off at the end is white space.
proof fn lemma_trailing(s: Seq<char>)
    ensures
        ({
            let t = without_trailing_space(s);
            &&& t.len() <= s.len()
            &&& t == s.take(t.len() as int)
            &&& forall|k: int| t.len() <= k < s.len() ==> white(#[trigger] s[k])
            &&& t.len() > 0 ==> !white(t.last())
        }),
    decreases s.len(),
{
    if s.len() > 0 && white(s.last()) {
        let rest = s.drop_last();
        lemma_trailing(rest);
        let t = without_trailing_space(s);
        assert(rest.take(t.len() as int) == s.take(t.len() as int));
        assert forall|k: int| t.len() <= k < s.len() implies white(#[trigger] s[k]) by {
            if k < rest.len() {
                assert(rest[k] == s[k]);
            }
        }
    } else {
        assert(s.take(s.len() as int) == s);
    }
}

/// Text is cut at the first of the characters: what stands before it has none of them, and with it
/// and what stands after makes up the text. It is not cut if there is none.
pub proof fn law_text_is_cut_at_the_first(s: Seq<char>, c: char)
    ensures
        match cut_at(s, c) {
            Some((before, after)) => s == before + seq![c] + after && !before.contains(c),
            None => !s.contains(c),
        },
{
    lemma_first_place(s, c);
    let n = length_before(s, c);
    if n < s.len() {
        assert(s == s.take(n) + seq![c] + s.skip(n + 1));
        assert(!s.take(n).contains(c));
    }
}

/// The first of the characters comes after as many others as are counted.
proof fn lemma_first_place(s: Seq<char>, c: char)
    ensures
        0 <= length_before(s, c) <= s.len(),
        forall|k: int| 0 <= k < length_before(s, c) ==> #[trigger] s[k] != c,
        length_before(s, c) < s.len() ==> s[length_before(s, c)] == c,
    decreases s.len(),
{
    if s.len() > 0 && s[0] != c {
        let rest = s.drop_first();
        lemma_first_place(rest, c);
        assert forall|k: int| 0 <= k < length_before(s, c) implies #[trigger] s[k] != c by {
            if k > 0 {
                assert(rest[k - 1] == s[k]);
            }
        }
    }
}

/// The pieces of a text, put together again with the separator between them, are the text, and none
/// of them has the separator.
pub proof fn law_pieces_make_up_the_text(s: Seq<char>, c: char)
    ensures
        pieces(s, c).len() >= 1,
        joined(pieces(s, c), seq![c]) == s,
        forall|i: int| 0 <= i < pieces(s, c).len() ==> !(#[trigger] pieces(s, c)[i]).contains(c),
    decreases s.len(),
{
    if s.len() == 0 {
        assert(pieces(s, c) == seq![s]);
    } else {
        let rest = s.drop_first();
        law_pieces_make_up_the_text(rest, c);
        lemma_pieces_step(s, c);
        let p = pieces(rest, c);
        if s[0] == c {
            lemma_joined_first(Seq::<char>::empty(), p, seq![c]);
            assert(Seq::<char>::empty() + seq![c] + rest == s);
        } else {
            lemma_joined_longer(p, s[0], seq![c]);
            assert(seq![s[0]] + rest == s);
            assert forall|i: int| 0 <= i < pieces(s, c).len() implies !(
            #[trigger] pieces(s, c)[i]).contains(c) by {
                if i == 0 {
                    let q = seq![s[0]] + p[0];
                    assert forall|k: int| 0 <= k < q.len() implies q[k] != c by {
                        if k > 0 {
                            assert(q[k] == p[0][k - 1]);
                            assert(p[0].contains(p[0][k - 1]));
                        }
                    }
                }
            }
        }
    }
}

/// Texts are joined one after the other: the first, the separator and the rest.
pub proof fn law_joined_texts(first: Seq<char>, rest: Seq<Seq<char>>, separator: Seq<char>)
    ensures
        joined(Seq::empty(), separator) == Seq::<char>::empty(),
        joined(seq![first], separator) == first,
        rest.len() > 0 ==> joined(seq![first] + rest, separator) == first + separator + joined(
            rest,
            separator,
        ),
{
    if rest.len() > 0 {
        lemma_joined_first(first, rest, separator);
    }
}

/// A text in front of others is joined to them with a separator.
proof fn lemma_joined_first(first: Seq<char>, rest: Seq<Seq<char>>, separator: Seq<char>)
    requires
        rest.len() > 0,
    ensures
        joined(seq![first] + rest, separator) == first + separator + joined(rest, separator),
    decreases rest.len(),
{
    let all = seq![first] + rest;
    if rest.len() == 1 {
        assert(all.drop_last() == seq![first]);
        assert(joined(seq![first], separator) == first);
        assert(all.last() == rest[0]);
        assert(joined(rest, separator) == rest[0]);
    } else {
        assert(all.drop_last() == seq![first] + rest.drop_last());
        lemma_joined_first(first, rest.drop_last(), separator);
        assert(all.last() == rest.last());
        assert(joined(all, separator) == first + separator + joined(rest.drop_last(), separator)
            + separator + rest.last());
        assert(first + separator + joined(rest.drop_last(), separator) + separator + rest.last()
            == first + separator + (joined(rest.drop_last(), separator) + separator + rest.last()));
    }
}

/// A longer first text makes the joined text longer.
proof fn lemma_joined_longer(parts: Seq<Seq<char>>, c: char, separator: Seq<char>)
    requires
        parts.len() > 0,
    ensures
        joined(parts.update(0, seq![c] + parts[0]), separator) == seq![c] + joined(
            parts,
            separator,
        ),
    decreases parts.len(),
{
    let longer = parts.update(0, seq![c] + parts[0]);
    if parts.len() > 1 {
        lemma_joined_longer(parts.drop_last(), c, separator);
        assert(longer.drop_last() == parts.drop_last().update(0, seq![c] + parts.drop_last()[0]));
        assert(joined(longer, separator) == seq![c] + joined(parts.drop_last(), separator)
            + separator + parts.last());
        assert(seq![c] + joined(parts.drop_last(), separator) + separator + parts.last() == seq![c]
            + (joined(parts.drop_last(), separator) + separator + parts.last()));
    }
}

/// Whether a text is a word: some characters, none of them white space.
pub open spec fn is_word(s: Seq<char>) -> bool {
    s.len() > 0 && forall|i: int| 0 <= i < s.len() ==> !white(#[trigger] s[i])
}

/// The words of a text are what white space separates: white space in front makes no difference,
/// and a word, with white space after it or at the end, is the first word.
pub proof fn law_words_are_separated_by_white_space(word: Seq<char>, w: char, rest: Seq<char>)
    requires
        is_word(word),
        white(w),
    ensures
        words(Seq::empty()) == Seq::<Seq<char>>::empty(),
        words(seq![w] + rest) == words(rest),
        words(word) == seq![word],
        words(word + seq![w] + rest) == seq![word] + words(rest),
{
    assert((seq![w] + rest).drop_first() == rest);
    assert(words(seq![w] + rest) == words(rest));
    assert(!white(word[0]));
    lemma_word_length(word, Seq::empty());
    assert(word + Seq::<char>::empty() == word);
    assert(word.take(word.len() as int) == word);
    assert(word.skip(word.len() as int) == Seq::<char>::empty());
    assert(words(word.skip(word.len() as int)) == Seq::<Seq<char>>::empty());
    assert(words(word) == seq![word]);
    let after = seq![w] + rest;
    let s = word + seq![w] + rest;
    assert(s == word + after);
    lemma_word_length(word, after);
    assert(s.take(word.len() as int) == word);
    assert(s.skip(word.len() as int) == after);
    assert(s[0] == word[0]);
}

/// A word ends where white space begins.
proof fn lemma_word_length(word: Seq<char>, after: Seq<char>)
    requires
        forall|i: int| 0 <= i < word.len() ==> !white(#[trigger] word[i]),
        after.len() == 0 || white(after[0]),
    ensures
        word_length(word + after) == word.len(),
    decreases word.len(),
{
    if word.len() == 0 {
        assert(word + after == after);
    } else {
        assert(!white(word[0]));
        assert((word + after).drop_first() == word.drop_first() + after);
        assert forall|i: int| 0 <= i < word.drop_first().len() implies !white(
            #[trigger] word.drop_first()[i],
        ) by {
            assert(!white(word[i + 1]));
        }
        lemma_word_length(word.drop_first(), after);
    }
}

/// Words with a space between each two are the words of what they are joined to.
pub proof fn law_joined_words_are_the_words(fields: Seq<Seq<char>>)
    requires
        forall|i: int| 0 <= i < fields.len() ==> is_word(#[trigger] fields[i]),
    ensures
        words(joined(fields, seq![' '])) == fields,
    decreases fields.len(),
{
    if fields.len() == 0 {
        assert(words(Seq::empty()) == fields);
    } else {
        let first = fields[0];
        let rest = fields.drop_first();
        assert forall|i: int| 0 <= i < rest.len() implies is_word(#[trigger] rest[i]) by {
            assert(is_word(fields[i + 1]));
        }
        law_joined_words_are_the_words(rest);
        assert(is_word(first));
        assert(fields == seq![first] + rest);
        law_words_are_separated_by_white_space(first, ' ', joined(rest, seq![' ']));
        if rest.len() > 0 {
            lemma_joined_first(first, rest, seq![' ']);
        } else {
            assert(fields == seq![first]);
        }
    }
}

/// A number is read as what it was written from, with or without a sign, if an `i32` can hold it.
/// Numbers that it cannot hold, and anything but digits after the sign, are not read.
pub proof fn law_written_numbers_are_read(n: int)
    ensures
        i32::MIN <= n <= i32::MAX ==> integer(decimal(n)) == Some(n),
        0 <= n <= i32::MAX ==> integer(seq!['+'] + decimal(n)) == Some(n),
        n > i32::MAX || n < i32::MIN ==> integer(decimal(n)) is None,
        n < 0 ==> decimal(n) == seq!['-'] + decimal(-n),
{
    let m = if n < 0 {
        -n
    } else {
        n
    };
    let d = decimal(m);
    lemma_decimal(m);
    assert(is_digit(d[0]));
    assert(unsigned(d) == d);
    assert((seq!['+'] + d).drop_first() == d);
    assert((seq!['-'] + d).drop_first() == d);
    if n < 0 {
        assert(decimal(n) == seq!['-'] + d);
    }
}

/// Nothing but digits, at least one, after at most one sign is read as a number. More digits are
/// worth ten times what the ones before are, and the last one.
pub proof fn law_only_digits_are_numbers(s: Seq<char>, c: char)
    ensures
        integer(s) is Some && (s[0] == '-' || s[0] == '+') ==> s.len() > 1,
        integer(s) is Some ==> s.len() > 0 && (is_digit(s[0]) || s[0] == '-' || s[0] == '+')
            && forall|i: int| 1 <= i < s.len() ==> is_digit(#[trigger] s[i]),
        digits_value(Seq::empty()) == 0,
        digits_value(s.push(c)) == 10 * digits_value(s) + (c as int - 48),
        is_digit(c) <==> 48 <= c as int <= 57,
{
    assert(s.push(c).drop_last() == s);
    if integer(s) is Some {
        let digits = unsigned(s);
        assert forall|i: int| 1 <= i < s.len() implies is_digit(#[trigger] s[i]) by {
            if digits == s {
                assert(is_digit(digits[i]));
            } else {
                assert(is_digit(digits[i - 1]));
            }
        }
        if digits == s {
            assert(is_digit(digits[0]));
        }
    }
}

/// A number is written with digits alone, the first of which is not 0 unless it is the only one.
pub proof fn law_numbers_are_written_in_full(n: int)
    requires
        n >= 0,
    ensures
        decimal(n).len() > 0,
        all_digits(decimal(n)),
        digits_value(decimal(n)) == n,
        n > 0 ==> decimal(n)[0] != '0',
        n == 0 ==> decimal(n) == seq!['0'],
    decreases n,
{
    lemma_decimal(n);
    if n >= 10 {
        law_numbers_are_written_in_full(n / 10);
        assert(digits_of(n as nat)[0] == digits_of((n / 10) as nat)[0]);
    }
}

/// Capital letters of ASCII have their small letters, and every other character is its own.
pub proof fn law_small_letters(c: char, s: Seq<char>, t: Seq<char>)
    ensures
        65 <= c as int <= 90 ==> lowercase(c) as int == c as int + 32,
        !(65 <= c as int <= 90) ==> lowercase(c) == c,
        same_letters(s, s),
        same_letters(s, t) <==> s.len() == t.len() && forall|i: int|
            0 <= i < s.len() ==> lowercase(#[trigger] s[i]) == lowercase(t[i]),
{
}

} // verus!
