//! Text, taken apart and put together character by character.
use vstd::prelude::*;
use vstd::slice::slice_subrange;

verus! {

// ---------------------------------------------------------------------------
// What the functions below compute
// ---------------------------------------------------------------------------

/// Whether `c` is white space (Unicode's property `White_Space`).
pub open spec fn white(c: char) -> bool {
    ||| '\u{9}' <= c <= '\u{d}'
    ||| c == ' '
    ||| c == '\u{85}'
    ||| c == '\u{a0}'
    ||| c == '\u{1680}'
    ||| '\u{2000}' <= c <= '\u{200a}'
    ||| c == '\u{2028}'
    ||| c == '\u{2029}'
    ||| c == '\u{202f}'
    ||| c == '\u{205f}'
    ||| c == '\u{3000}'
}

/// `s` without the white space at its start.
pub open spec fn without_leading_space(s: Seq<char>) -> Seq<char>
    decreases s.len(),
{
    if s.len() > 0 && white(s[0]) {
        without_leading_space(s.drop_first())
    } else {
        s
    }
}

/// `s` without the white space at its end.
pub open spec fn without_trailing_space(s: Seq<char>) -> Seq<char>
    decreases s.len(),
{
    if s.len() > 0 && white(s.last()) {
        without_trailing_space(s.drop_last())
    } else {
        s
    }
}

/// `s` without the white space at either end.
pub open spec fn trimmed(s: Seq<char>) -> Seq<char> {
    without_trailing_space(without_leading_space(s))
}

/// The number of characters of `s` before the first `c`; all of them if there is none.
pub open spec fn length_before(s: Seq<char>, c: char) -> int
    decreases s.len(),
{
    if s.len() == 0 || s[0] == c {
        0
    } else {
        1 + length_before(s.drop_first(), c)
    }
}

/// What stands before and after the first `c` of `s`, if there is one.
pub open spec fn cut_at(s: Seq<char>, c: char) -> Option<(Seq<char>, Seq<char>)> {
    let n = length_before(s, c);
    if n < s.len() {
        Some((s.take(n), s.skip(n + 1)))
    } else {
        None
    }
}

/// The pieces of `s` between the occurrences of `c`; one more than there are occurrences.
pub open spec fn pieces(s: Seq<char>, c: char) -> Seq<Seq<char>>
    decreases s.len(),
{
    let n = length_before(s, c);
    if 0 <= n < s.len() {
        seq![s.take(n)] + pieces(s.skip(n + 1), c)
    } else {
        seq![s]
    }
}

/// The number of characters of `s` before its first white space.
pub open spec fn word_length(s: Seq<char>) -> int
    decreases s.len(),
{
    if s.len() == 0 || white(s[0]) {
        0
    } else {
        1 + word_length(s.drop_first())
    }
}

/// The words of `s`: what white space separates.
pub open spec fn words(s: Seq<char>) -> Seq<Seq<char>>
    decreases s.len(),
{
    if s.len() == 0 {
        Seq::empty()
    } else if white(s[0]) {
        words(s.drop_first())
    } else {
        let n = word_length(s);
        if 0 < n <= s.len() {
            seq![s.take(n)] + words(s.skip(n))
        } else {
            Seq::empty()
        }
    }
}

/// Whether `c` is one of the digits 0 to 9.
pub open spec fn is_digit(c: char) -> bool {
    '0' <= c <= '9'
}

/// The number that a digit stands for.
pub open spec fn digit(c: char) -> int {
    c as int - '0' as int
}

/// The number that a row of decimal digits stands for.
pub open spec fn digits_value(s: Seq<char>) -> int
    decreases s.len(),
{
    if s.len() == 0 {
        0
    } else {
        digits_value(s.drop_last()) * 10 + digit(s.last())
    }
}

/// Whether `s` is made of digits only.
pub open spec fn all_digits(s: Seq<char>) -> bool {
    forall|i: int| 0 <= i < s.len() ==> is_digit(#[trigger] s[i])
}

/// `s` without a leading sign.
pub open spec fn unsigned(s: Seq<char>) -> Seq<char> {
    if s.len() > 0 && (s[0] == '-' || s[0] == '+') {
        s.drop_first()
    } else {
        s
    }
}

/// The number that `s` writes, an optional sign followed by decimal digits, if it is one that an
/// `i32` can hold.
pub open spec fn integer(s: Seq<char>) -> Option<int> {
    let digits = unsigned(s);
    let value = if s.len() > 0 && s[0] == '-' {
        -digits_value(digits)
    } else {
        digits_value(digits)
    };
    if digits.len() > 0 && all_digits(digits) && i32::MIN <= value <= i32::MAX {
        Some(value)
    } else {
        None
    }
}

/// The decimal digits of `n`.
pub open spec fn digits_of(n: nat) -> Seq<char>
    decreases n,
{
    if n < 10 {
        seq![(n + '0' as int) as char]
    } else {
        digits_of(n / 10).push((n % 10 + '0' as int) as char)
    }
}

/// How `n` is written in decimal.
pub open spec fn decimal(n: int) -> Seq<char> {
    if n < 0 {
        seq!['-'] + digits_of((-n) as nat)
    } else {
        digits_of(n as nat)
    }
}

/// The small letter of an ASCII capital; any other character itself.
pub open spec fn lowercase(c: char) -> char {
    if 'A' <= c <= 'Z' {
        (c as int + 32) as char
    } else {
        c
    }
}

/// Whether `s` and `t` have the same characters, capital and small ASCII letters taken as equal.
pub open spec fn same_letters(s: Seq<char>, t: Seq<char>) -> bool {
    s.len() == t.len() && forall|i: int|
        0 <= i < s.len() ==> lowercase(#[trigger] s[i]) == lowercase(t[i])
}

/// The texts of `parts`, with `separator` between each two.
pub open spec fn joined(parts: Seq<Seq<char>>, separator: Seq<char>) -> Seq<char>
    decreases parts.len(),
{
    if parts.len() == 0 {
        Seq::empty()
    } else if parts.len() == 1 {
        parts[0]
    } else {
        joined(parts.drop_last(), separator) + separator + parts.last()
    }
}

// ---------------------------------------------------------------------------
// Characters and strings
// ---------------------------------------------------------------------------

/// `std::string::String::push`: appends one character.
pub assume_specification[ String::push ](s: &mut String, c: char)
    ensures
        final(s)@ == old(s)@.push(c),
;

/// The characters of `s`.
pub fn characters(s: &str) -> (r: Vec<char>)
    ensures
        r@ == s@,
{
    let mut r: Vec<char> = Vec::new();
    for c in it: s.chars()
        invariant
            it.seq() == s@,
            r@ == s@.take(it.index()),
    {
        r.push(c);
    }
    assert(s@.take(s@.len() as int) == s@);
    r
}

/// The string of the given characters.
pub fn string_of(s: &[char]) -> (r: String)
    ensures
        r@ == s@,
{
    let mut r = String::new();
    let mut i: usize = 0;
    while i < s.len()
        invariant
            i <= s.len(),
            r@ == s@.take(i as int),
        decreases s.len() - i,
    {
        r.push(s[i]);
        i = i + 1;
        assert(s@.take(i as int) == s@.take(i - 1).push(s@[i - 1]));
    }
    assert(s@.take(s@.len() as int) == s@);
    r
}

/// Whether the characters are those of `text`.
pub fn reads(s: &[char], text: &str) -> (r: bool)
    ensures
        r == (s@ == text@),
{
    same_text(s, characters(text).as_slice())
}

/// Whether two strings are the same.
pub fn same_string(a: &str, b: &str) -> (r: bool)
    ensures
        r == (a@ == b@),
{
    reads(characters(a).as_slice(), b)
}

/// Whether two rows of characters are the same.
pub fn same_text(s: &[char], t: &[char]) -> (r: bool)
    ensures
        r == (s@ == t@),
{
    if s.len() != t.len() {
        return false;
    }
    let mut i: usize = 0;
    while i < s.len()
        invariant
            i <= s.len(),
            s.len() == t.len(),
            forall|j: int| 0 <= j < i ==> s@[j] == t@[j],
        decreases s.len() - i,
    {
        if s[i] != t[i] {
            return false;
        }
        i = i + 1;
    }
    assert(s@ =~= t@);
    true
}

// ---------------------------------------------------------------------------
// Taking text apart
// ---------------------------------------------------------------------------

/// Whether `c` is white space.
pub fn is_white(c: char) -> (r: bool)
    ensures
        r == white(c),
{
    ('\u{9}' <= c && c <= '\u{d}') || c == ' ' || c == '\u{85}' || c == '\u{a0}' || c == '\u{1680}'
        || ('\u{2000}' <= c && c <= '\u{200a}') || c == '\u{2028}' || c == '\u{2029}' || c
        == '\u{202f}' || c == '\u{205f}' || c == '\u{3000}'
}

/// The characters without the white space at either end.
pub fn trim(s: &[char]) -> (r: &[char])
    ensures
        r@ == trimmed(s@),
{
    let mut start: usize = 0;
    assert(s@.skip(0) == s@);
    while start < s.len() && is_white(s[start])
        invariant
            start <= s.len(),
            without_leading_space(s@) == without_leading_space(s@.skip(start as int)),
        decreases s.len() - start,
    {
        assert(s@.skip(start as int).drop_first() == s@.skip(start + 1));
        start = start + 1;
    }
    assert(without_leading_space(s@) == s@.skip(start as int));
    let mut end: usize = s.len();
    assert(s@.subrange(start as int, end as int) == s@.skip(start as int));
    while start < end && is_white(s[end - 1])
        invariant
            start <= end <= s.len(),
            trimmed(s@) == without_trailing_space(s@.subrange(start as int, end as int)),
        decreases end,
    {
        assert(s@.subrange(start as int, end as int).drop_last() == s@.subrange(
            start as int,
            end - 1,
        ));
        end = end - 1;
    }
    slice_subrange(s, start, end)
}

/// The place of the first character that `length_before` does not count.
pub(crate) proof fn lemma_length_before(s: Seq<char>, c: char, n: int)
    requires
        0 <= n <= s.len(),
        forall|j: int| 0 <= j < n ==> s[j] != c,
        n == s.len() || s[n] == c,
    ensures
        length_before(s, c) == n,
    decreases n,
{
    if n > 0 {
        lemma_length_before(s.drop_first(), c, n - 1);
    }
}

/// The number of characters before the first `c`; all of them if there is none.
pub fn find(s: &[char], c: char) -> (r: usize)
    ensures
        r == length_before(s@, c),
        r <= s@.len(),
        r < s@.len() ==> s@[r as int] == c,
        forall|j: int| 0 <= j < r ==> s@[j] != c,
{
    let mut i: usize = 0;
    while i < s.len() && s[i] != c
        invariant
            i <= s.len(),
            forall|j: int| 0 <= j < i ==> s@[j] != c,
        decreases s.len() - i,
    {
        i = i + 1;
    }
    proof {
        lemma_length_before(s@, c, i as int);
    }
    i
}

/// What stands before and after the first `c`, if there is one.
pub fn cut(s: &[char], c: char) -> (r: Option<(&[char], &[char])>)
    ensures
        r is Some <==> cut_at(s@, c) is Some,
        r matches Some((before, after)) ==> cut_at(s@, c) == Some((before@, after@)),
{
    let n: usize = find(s, c);
    if n < s.len() {
        let before = slice_subrange(s, 0, n);
        let after = slice_subrange(s, n + 1, s.len());
        assert(before@ == s@.take(n as int));
        assert(after@ == s@.skip(n + 1));
        Some((before, after))
    } else {
        None
    }
}

/// The texts that a vector of slices holds.
pub open spec fn texts(v: Seq<&[char]>) -> Seq<Seq<char>> {
    v.map_values(|t: &[char]| t@)
}

/// The pieces between the occurrences of `c`.
pub fn split(s: &[char], c: char) -> (r: Vec<&[char]>)
    ensures
        texts(r@) == pieces(s@, c),
{
    let mut r: Vec<&[char]> = Vec::new();
    let mut rest = s;
    let mut n: usize = find(rest, c);
    assert(texts(r@) + pieces(rest@, c) == pieces(s@, c));
    while n < rest.len()
        invariant
            n == length_before(rest@, c),
            texts(r@) + pieces(rest@, c) == pieces(s@, c),
        decreases rest.len(),
    {
        let ghost before = r@;
        let ghost old_rest = rest@;
        let piece = slice_subrange(rest, 0, n);
        r.push(piece);
        rest = slice_subrange(rest, n + 1, rest.len());
        proof {
            assert(piece@ == old_rest.take(n as int));
            assert(rest@ == old_rest.skip(n + 1));
            assert(texts(r@) == texts(before).push(piece@));
            assert(pieces(old_rest, c) == seq![piece@] + pieces(rest@, c));
            assert(texts(r@) + pieces(rest@, c) == texts(before) + pieces(old_rest, c));
        }
        n = find(rest, c);
    }
    let ghost before = r@;
    r.push(rest);
    assert(texts(r@) == texts(before) + seq![rest@]);
    r
}

/// The number of characters before the first white space.
fn find_white(s: &[char]) -> (r: usize)
    ensures
        r == word_length(s@),
        r <= s@.len(),
        s@.len() > 0 && !white(s@[0]) ==> r > 0,
{
    let mut i: usize = 0;
    assert(s@.skip(0) == s@);
    while i < s.len() && !is_white(s[i])
        invariant
            i <= s.len(),
            word_length(s@) == i + word_length(s@.skip(i as int)),
            i == 0 ==> s@.skip(0) == s@,
        decreases s.len() - i,
    {
        assert(s@.skip(i as int).drop_first() == s@.skip(i + 1));
        i = i + 1;
    }
    i
}

/// The words that white space separates.
pub fn split_words(s: &[char]) -> (r: Vec<&[char]>)
    ensures
        texts(r@) == words(s@),
{
    let mut r: Vec<&[char]> = Vec::new();
    let mut rest = s;
    assert(texts(r@) + words(rest@) == words(s@));
    while rest.len() > 0
        invariant
            texts(r@) + words(rest@) == words(s@),
        decreases rest.len(),
    {
        let ghost before = r@;
        let ghost old_rest = rest@;
        if is_white(rest[0]) {
            rest = slice_subrange(rest, 1, rest.len());
            assert(rest@ == old_rest.drop_first());
        } else {
            let n: usize = find_white(rest);
            let word = slice_subrange(rest, 0, n);
            r.push(word);
            rest = slice_subrange(rest, n, rest.len());
            proof {
                assert(word@ == old_rest.take(n as int));
                assert(rest@ == old_rest.skip(n as int));
                assert(texts(r@) == texts(before).push(word@));
                assert(words(old_rest) == seq![word@] + words(rest@));
                assert(texts(r@) + words(rest@) == texts(before) + words(old_rest));
            }
        }
    }
    assert(words(rest@) == Seq::<Seq<char>>::empty());
    assert(texts(r@) + words(rest@) == texts(r@));
    r
}

/// Whether `s` starts with `start`.
pub fn starts_with(s: &[char], start: &[char]) -> (r: bool)
    ensures
        r == start@.is_prefix_of(s@),
{
    start.len() <= s.len() && same_text(slice_subrange(s, 0, start.len()), start)
}

/// The small letter of an ASCII capital; any other character itself.
pub fn to_lowercase(c: char) -> (r: char)
    ensures
        r == lowercase(c),
{
    if 'A' <= c && c <= 'Z' {
        ((c as u8) + 32) as char
    } else {
        c
    }
}

/// Whether `s` has the characters of the start of `name`, capital and small letters taken as
/// equal.
pub fn abbreviates(s: &[char], name: &[char]) -> (r: bool)
    ensures
        r == (s@.len() <= name@.len() && same_letters(s@, name@.take(s@.len() as int))),
{
    if s.len() > name.len() {
        return false;
    }
    let mut i: usize = 0;
    while i < s.len()
        invariant
            i <= s.len() <= name.len(),
            forall|j: int| 0 <= j < i ==> lowercase(#[trigger] s@[j]) == lowercase(name@[j]),
        decreases s.len() - i,
    {
        if to_lowercase(s[i]) != to_lowercase(name[i]) {
            assert(lowercase(s@[i as int]) != lowercase(name@.take(s@.len() as int)[i as int]));
            return false;
        }
        i = i + 1;
    }
    true
}

// ---------------------------------------------------------------------------
// Numbers
// ---------------------------------------------------------------------------

/// A row of digits stands for at least as much as any row that it continues.
pub(crate) proof fn lemma_digits_grow(s: Seq<char>, n: int)
    requires
        all_digits(s),
        0 <= n <= s.len(),
    ensures
        0 <= digits_value(s.take(n)) <= digits_value(s),
    decreases s.len() - n, n,
{
    if n == s.len() {
        assert(s.take(n) == s);
        if n > 0 {
            lemma_digits_grow(s.drop_last(), n - 1);
            assert(s.drop_last().take(n - 1) == s.drop_last());
            assert(is_digit(s[n - 1]));
        }
    } else {
        lemma_digits_grow(s.drop_last(), n);
        assert(s.drop_last().take(n) == s.take(n));
        assert(is_digit(s[s.len() - 1]));
    }
}

/// The number that the characters write, if it is one that an `i32` can hold.
pub fn parse_integer(s: &[char]) -> (r: Option<i32>)
    ensures
        r is Some <==> integer(s@) is Some,
        r matches Some(v) ==> integer(s@) == Some(v as int),
{
    let negative = s.len() > 0 && s[0] == '-';
    let digits = if s.len() > 0 && (s[0] == '-' || s[0] == '+') {
        slice_subrange(s, 1, s.len())
    } else {
        s
    };
    assert(digits@ == unsigned(s@));
    if digits.len() == 0 {
        return None;
    }
    let mut value: i64 = 0;
    let mut i: usize = 0;
    while i < digits.len()
        invariant
            i <= digits.len(),
            digits@ == unsigned(s@),
            negative == (s@.len() > 0 && s@[0] == '-'),
            value == digits_value(digits@.take(i as int)),
            0 <= value <= 2_147_483_648,
            forall|j: int| 0 <= j < i ==> is_digit(#[trigger] digits@[j]),
        decreases digits.len() - i,
    {
        let c = digits[i];
        if !('0' <= c && c <= '9') {
            assert(!is_digit(digits@[i as int]));
            return None;
        }
        assert(digits@.take(i + 1).drop_last() == digits@.take(i as int));
        value = value * 10 + ((c as u32) - ('0' as u32)) as i64;
        if value > 2_147_483_648 {
            proof {
                if all_digits(digits@) {
                    lemma_digits_grow(digits@, i + 1);
                }
            }
            return None;
        }
        i = i + 1;
    }
    assert(digits@.take(digits@.len() as int) == digits@);
    if negative {
        Some((-value) as i32)
    } else if value <= 2_147_483_647 {
        Some(value as i32)
    } else {
        None
    }
}

/// The number, written in decimal.
pub fn decimal_string(n: i32) -> (r: String)
    ensures
        r@ == decimal(n as int),
{
    let mut backwards: Vec<char> = Vec::new();
    let mut rest: u64 = if n < 0 {
        (-(n as i64)) as u64
    } else {
        n as u64
    };
    let ghost whole = rest as nat;
    while rest >= 10
        invariant
            rest <= 2_147_483_648,
            digits_of(whole) == digits_of(rest as nat) + backwards@.reverse(),
        decreases rest,
    {
        let ghost before = backwards@;
        let ghost old_rest = rest as nat;
        let c = ('0' as u8 + (rest % 10) as u8) as char;
        backwards.push(c);
        rest = rest / 10;
        proof {
            assert(backwards@.reverse() == seq![c] + before.reverse());
            assert(digits_of(old_rest) == digits_of(rest as nat).push(c));
            assert(digits_of(rest as nat).push(c) + before.reverse() == digits_of(rest as nat) + (
            seq![c] + before.reverse()));
        }
    }
    let ghost before = backwards@;
    let c = ('0' as u8 + rest as u8) as char;
    backwards.push(c);
    assert(backwards@.reverse() == seq![c] + before.reverse());
    assert(digits_of(rest as nat) == seq![c]);
    assert(digits_of(whole) == backwards@.reverse());
    let mut r = String::new();
    if n < 0 {
        r.push('-');
    }
    let ghost sign = r@;
    let mut i: usize = backwards.len();
    while i > 0
        invariant
            i <= backwards.len(),
            r@ == sign + backwards@.reverse().take(backwards@.len() - i),
        decreases i,
    {
        i = i - 1;
        r.push(backwards[i]);
        assert(backwards@.reverse().take(backwards@.len() - i) == backwards@.reverse().take(
            backwards@.len() - i - 1,
        ).push(backwards@[i as int]));
    }
    assert(backwards@.reverse().take(backwards@.len() as int) == backwards@.reverse());
    assert(r@ == decimal(n as int));
    r
}

/// The texts of a vector of strings.
pub open spec fn strings(v: Seq<String>) -> Seq<Seq<char>> {
    v.map_values(|t: String| t@)
}

/// The texts of `parts`, with `separator` between each two.
pub fn join(parts: &Vec<String>, separator: &str) -> (r: String)
    ensures
        r@ == joined(strings(parts@), separator@),
{
    let mut r = String::new();
    let mut i: usize = 0;
    while i < parts.len()
        invariant
            i <= parts.len(),
            r@ == joined(strings(parts@).take(i as int), separator@),
        decreases parts.len() - i,
    {
        let ghost now = strings(parts@).take(i + 1);
        assert(now.drop_last() == strings(parts@).take(i as int));
        if i > 0 {
            r.append(separator);
        }
        r.append(parts[i].as_str());
        i = i + 1;
    }
    assert(strings(parts@).take(parts@.len() as int) == strings(parts@));
    r
}

// ---------------------------------------------------------------------------
// White space, pieces and digits
// ---------------------------------------------------------------------------

/// Text that neither starts nor ends with white space has none to cut off.
pub(crate) proof fn lemma_nothing_to_trim(s: Seq<char>)
    requires
        s.len() > 0 ==> !white(s[0]) && !white(s.last()),
    ensures
        trimmed(s) == s,
{
}

/// White space at the start is cut off in front of what follows.
pub(crate) proof fn lemma_leading_space(s: Seq<char>, t: Seq<char>)
    requires
        s.len() > 0,
        !white(s.last()),
    ensures
        without_leading_space(s + t) == without_leading_space(s) + t,
        without_leading_space(s).len() > 0,
        without_leading_space(s).last() == s.last(),
        trimmed(s) == without_leading_space(s),
    decreases s.len(),
{
    if white(s[0]) {
        assert((s + t).drop_first() == s.drop_first() + t);
        lemma_leading_space(s.drop_first(), t);
    }
}

/// White space at the end is cut off behind what comes before.
pub(crate) proof fn lemma_trailing_space(s: Seq<char>, t: Seq<char>)
    requires
        t.len() > 0,
        !white(t[0]),
    ensures
        without_trailing_space(s + t) == s + without_trailing_space(t),
        trimmed(t) == without_trailing_space(t),
    decreases t.len(),
{
    if white(t.last()) {
        assert((s + t).drop_last() == s + t.drop_last());
        lemma_trailing_space(s, t.drop_last());
    }
}

/// White space at the end makes no difference to trimmed text.
pub(crate) proof fn lemma_trim_pushed(s: Seq<char>, w: char)
    requires
        white(w),
    ensures
        trimmed(s.push(w)) == trimmed(s),
    decreases s.len(),
{
    if s.len() == 0 {
        assert(s.push(w).drop_first() == s);
    } else if white(s[0]) {
        assert(s.push(w).drop_first() == s.drop_first().push(w));
        lemma_trim_pushed(s.drop_first(), w);
    } else {
        assert(s.push(w).drop_last() == s);
    }
}

/// How the pieces of a text follow from those of the text without its first character.
pub(crate) proof fn lemma_pieces_step(s: Seq<char>, c: char)
    requires
        s.len() > 0,
    ensures
        ({
            let rest = pieces(s.drop_first(), c);
            &&& rest.len() > 0
            &&& s[0] == c ==> pieces(s, c) == seq![Seq::<char>::empty()] + rest
            &&& s[0] != c ==> pieces(s, c) == rest.update(0, seq![s[0]] + rest[0])
        }),
{
    let t = s.drop_first();
    let n = length_before(t, c);
    if s[0] == c {
        assert(s.take(0) == Seq::<char>::empty());
        assert(s.skip(1) == t);
    } else {
        lemma_length_is_bounded(t, c);
        assert(s.take(n + 1) == seq![s[0]] + t.take(n));
        if n < t.len() {
            assert(s.skip(n + 2) == t.skip(n + 1));
        }
        assert(s == seq![s[0]] + t);
        assert(pieces(s, c) == pieces(t, c).update(0, seq![s[0]] + pieces(t, c)[0]));
    }
}

/// There are at most all characters before the first of a kind.
proof fn lemma_length_is_bounded(s: Seq<char>, c: char)
    ensures
        0 <= length_before(s, c) <= s.len(),
    decreases s.len(),
{
    if s.len() > 0 && s[0] != c {
        lemma_length_is_bounded(s.drop_first(), c);
    }
}

/// The pieces of two texts with the separator between them are those of the one and then those
/// of the other.
pub(crate) proof fn lemma_pieces_of_both(s: Seq<char>, t: Seq<char>, c: char)
    ensures
        pieces(s + seq![c] + t, c) == pieces(s, c) + pieces(t, c),
    decreases s.len(),
{
    let both = s + seq![c] + t;
    lemma_pieces_step(both, c);
    if s.len() == 0 {
        assert(both.drop_first() == t);
        assert(s == Seq::<char>::empty());
        assert(pieces(s, c) == seq![s]);
    } else {
        assert(both.drop_first() == s.drop_first() + seq![c] + t);
        lemma_pieces_of_both(s.drop_first(), t, c);
        lemma_pieces_step(s, c);
        assert(pieces(both, c) == pieces(s, c) + pieces(t, c));
    }
}

/// A character at the end that is no separator belongs to the last piece.
proof fn lemma_pieces_pushed(s: Seq<char>, w: char, c: char)
    requires
        w != c,
    ensures
        pieces(s, c).len() > 0,
        pieces(s.push(w), c) == pieces(s, c).update(
            pieces(s, c).len() - 1,
            pieces(s, c).last().push(w),
        ),
    decreases s.len(),
{
    let longer = s.push(w);
    lemma_pieces_step(longer, c);
    if s.len() == 0 {
        assert(longer.drop_first() == s);
        assert(pieces(s, c) == seq![s]);
        assert(seq![w] + s == s.push(w));
    } else {
        assert(longer.drop_first() == s.drop_first().push(w));
        lemma_pieces_pushed(s.drop_first(), w, c);
        lemma_pieces_step(s, c);
        let rest = pieces(s.drop_first(), c);
        if s[0] != c && rest.len() == 1 {
            assert(seq![s[0]] + rest[0].push(w) == (seq![s[0]] + rest[0]).push(w));
        }
    }
}

/// Whether two rows of texts are the same but for white space at their ends.
pub(crate) open spec fn same_trimmed(a: Seq<Seq<char>>, b: Seq<Seq<char>>) -> bool {
    a.len() == b.len() && forall|i: int|
        0 <= i < a.len() ==> trimmed(#[trigger] a[i]) == trimmed(b[i])
}

/// White space at the start of a text makes no difference to its pieces, trimmed.
proof fn lemma_pieces_without_leading_space(s: Seq<char>, c: char)
    requires
        !white(c),
    ensures
        same_trimmed(pieces(s, c), pieces(without_leading_space(s), c)),
    decreases s.len(),
{
    if s.len() > 0 && white(s[0]) {
        lemma_pieces_without_leading_space(s.drop_first(), c);
        lemma_pieces_step(s, c);
        let first = pieces(s.drop_first(), c)[0];
        assert((seq![s[0]] + first).drop_first() == first);
    }
}

/// White space at the end of a text makes no difference to its pieces, trimmed.
proof fn lemma_pieces_without_trailing_space(s: Seq<char>, c: char)
    requires
        !white(c),
    ensures
        same_trimmed(pieces(s, c), pieces(without_trailing_space(s), c)),
    decreases s.len(),
{
    if s.len() > 0 && white(s.last()) {
        lemma_pieces_without_trailing_space(s.drop_last(), c);
        lemma_pieces_pushed(s.drop_last(), s.last(), c);
        assert(s.drop_last().push(s.last()) == s);
        lemma_trim_pushed(pieces(s.drop_last(), c).last(), s.last());
    }
}

/// White space at the ends of a text makes no difference to its pieces, trimmed.
pub(crate) proof fn lemma_pieces_trimmed(s: Seq<char>, c: char)
    requires
        !white(c),
    ensures
        same_trimmed(pieces(s, c), pieces(trimmed(s), c)),
{
    lemma_pieces_without_leading_space(s, c);
    lemma_pieces_without_trailing_space(without_leading_space(s), c);
}

/// A number that is not negative is written with digits that stand for it.
pub(crate) proof fn lemma_decimal(n: int)
    requires
        n >= 0,
    ensures
        decimal(n).len() > 0,
        all_digits(decimal(n)),
        digits_value(decimal(n)) == n,
    decreases n,
{
    let s = decimal(n);
    if n < 10 {
        assert(s.drop_last() == Seq::<char>::empty());
        assert(digits_value(s.drop_last()) == 0);
    } else {
        lemma_decimal(n / 10);
        assert(s.drop_last() == decimal(n / 10));
        assert(digits_value(s) == digits_value(s.drop_last()) * 10 + digit(s.last()));
    }
    assert(digit(s.last()) == n % 10);
}

} // verus!
