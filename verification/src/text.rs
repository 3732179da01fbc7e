//! Plain text: lengths, decimal numerals and the conversions between
//! strings and character vectors that the rest of the crate builds on.

use vstd::prelude::*;
use vstd::string::*;
use vstd::utf8::*;

verus! {

/// `String::push` of the standard library: the character is appended to the
/// end of the string and nothing else changes.
pub assume_specification[ String::push ](s: &mut String, c: char)
    ensures
        final(s)@ == old(s)@.push(c),
;

/// The number of bytes that a text takes in UTF-8.
pub open spec fn byte_len(s: Seq<char>) -> nat {
    encode_utf8(s).len()
}

/// The length of a string in bytes.
pub fn byte_length(s: &str) -> (n: usize)
    ensures
        n == byte_len(s@),
{
    s.as_bytes().len()
}

/// The characters of a string, in order.
pub fn to_chars(s: &str) -> (v: Vec<char>)
    ensures
        v@ == s@,
{
    let mut v: Vec<char> = Vec::new();
    for c in it: s.chars()
        invariant
            v@ == it.seq().take(it.index()),
            it.seq() == s@,
    {
        v.push(c);
    }
    v
}

/// The string made of the given characters, in order.
pub fn from_chars(v: &Vec<char>) -> (s: String)
    ensures
        s@ == v@,
{
    let mut s = String::new();
    let mut i: usize = 0;
    while i < v.len()
        invariant
            i <= v.len(),
            s@ == v@.take(i as int),
        decreases v.len() - i,
    {
        s.push(v[i]);
        i += 1;
    }
    s
}

/// The decimal digit for a value below ten.
pub open spec fn digit_char(d: int) -> char {
    if d == 0 {
        '0'
    } else if d == 1 {
        '1'
    } else if d == 2 {
        '2'
    } else if d == 3 {
        '3'
    } else if d == 4 {
        '4'
    } else if d == 5 {
        '5'
    } else if d == 6 {
        '6'
    } else if d == 7 {
        '7'
    } else if d == 8 {
        '8'
    } else {
        '9'
    }
}

/// The decimal digits of a natural number, most significant first, without
/// leading zeros; zero is the single digit `0`.
pub open spec fn digits(n: nat) -> Seq<char>
    decreases n,
{
    if n < 10 {
        seq![digit_char(n as int)]
    } else {
        digits(n / 10).push(digit_char((n % 10) as int))
    }
}

/// The decimal numeral of an integer: its digits, after a minus sign when it
/// is negative.
pub open spec fn decimal(n: int) -> Seq<char> {
    if n < 0 {
        seq!['-'] + digits((-n) as nat)
    } else {
        digits(n as nat)
    }
}

/// The digits that are still to be written in front of those already taken
/// off a number: none once the number has reached zero.
spec fn leading_digits(n: nat) -> Seq<char> {
    if n == 0 {
        Seq::empty()
    } else {
        digits(n)
    }
}

fn digit(d: u64) -> (c: char)
    requires
        d < 10,
    ensures
        c == digit_char(d as int),
{
    if d == 0 {
        '0'
    } else if d == 1 {
        '1'
    } else if d == 2 {
        '2'
    } else if d == 3 {
        '3'
    } else if d == 4 {
        '4'
    } else if d == 5 {
        '5'
    } else if d == 6 {
        '6'
    } else if d == 7 {
        '7'
    } else if d == 8 {
        '8'
    } else {
        '9'
    }
}

/// The decimal numeral of `n` as a string.
pub fn decimal_string(n: i64) -> (s: String)
    ensures
        s@ == decimal(n as int),
{
    let magnitude: u64 = if n < 0 {
        (-(n + 1)) as u64 + 1
    } else {
        n as u64
    };
    let mut low_first: Vec<char> = Vec::new();
    let mut rest: u64 = magnitude / 10;
    low_first.push(digit(magnitude % 10));
    while rest > 0
        invariant
            digits(magnitude as nat) == leading_digits(rest as nat) + low_first@.reverse(),
        decreases rest,
    {
        let ghost before = low_first@;
        low_first.push(digit(rest % 10));
        assert(low_first@.reverse() == seq![digit_char((rest % 10) as int)] + before.reverse());
        rest = rest / 10;
    }
    let mut s = String::new();
    if n < 0 {
        s.push('-');
    }
    let ghost sign = s@;
    let mut left: usize = low_first.len();
    while left > 0
        invariant
            left <= low_first.len(),
            s@ == sign + low_first@.reverse().take(low_first.len() - left),
        decreases left,
    {
        left -= 1;
        s.push(low_first[left]);
    }
    s
}

/// The pattern stands in the text at the place `at`.
pub open spec fn occurs_at(text: Seq<char>, pattern: Seq<char>, at: int) -> bool {
    &&& 0 <= at
    &&& at + pattern.len() <= text.len()
    &&& text.subrange(at, at + pattern.len()) == pattern
}

/// The first place at or after `from` where the pattern stands in the text.
pub open spec fn first_occurrence(text: Seq<char>, pattern: Seq<char>, from: int) -> Option<int>
    decreases text.len() - from + 1,
{
    if from < 0 || from + pattern.len() > text.len() {
        None
    } else if occurs_at(text, pattern, from) {
        Some(from)
    } else {
        first_occurrence(text, pattern, from + 1)
    }
}

/// The pattern stands somewhere in the text.
pub open spec fn contains(text: Seq<char>, pattern: Seq<char>) -> bool {
    first_occurrence(text, pattern, 0) is Some
}

/// The pieces into which the occurrences of the pattern cut the text from
/// the place `from` on. Occurrences are taken from left to right, each
/// search starting behind the occurrence before; an empty pattern cuts
/// nothing.
pub open spec fn split_from(text: Seq<char>, pattern: Seq<char>, from: int) -> Seq<Seq<char>>
    decreases text.len() - from,
{
    let found = first_occurrence(text, pattern, from);
    if found is Some && pattern.len() > 0 && from <= found->0 && found->0 + pattern.len()
        <= text.len() {
        seq![text.subrange(from, found->0)] + split_from(text, pattern, found->0 + pattern.len())
    } else {
        seq![text.subrange(from, text.len() as int)]
    }
}

/// The pieces of the text between the occurrences of the pattern; the text
/// itself is the one piece where the pattern does not occur.
pub open spec fn split(text: Seq<char>, pattern: Seq<char>) -> Seq<Seq<char>> {
    split_from(text, pattern, 0)
}

/// What `first_occurrence` finds is the least place, from `from` on, at
/// which the pattern stands; it finds none only where there is none.
pub proof fn lemma_first_occurrence(text: Seq<char>, pattern: Seq<char>, from: int)
    requires
        0 <= from,
    ensures
        match first_occurrence(text, pattern, from) {
            Some(at) => {
                &&& from <= at
                &&& occurs_at(text, pattern, at)
                &&& forall|k: int| from <= k < at ==> !occurs_at(text, pattern, k)
            },
            None => forall|k: int| from <= k ==> !occurs_at(text, pattern, k),
        },
    decreases text.len() - from + 1,
{
    if from + pattern.len() <= text.len() && !occurs_at(text, pattern, from) {
        lemma_first_occurrence(text, pattern, from + 1);
    }
}

/// The texts that the vectors hold, in order.
pub open spec fn texts(pieces: Seq<Vec<char>>) -> Seq<Seq<char>> {
    Seq::new(pieces.len(), |i: int| pieces[i]@)
}

/// A copy of the characters from `from` up to `to`.
pub(crate) fn copy_range(text: &Vec<char>, from: usize, to: usize) -> (piece: Vec<char>)
    requires
        from <= to <= text.len(),
    ensures
        piece@ == text@.subrange(from as int, to as int),
{
    let mut piece: Vec<char> = Vec::new();
    let mut i: usize = from;
    while i < to
        invariant
            from <= i <= to <= text.len(),
            piece@ == text@.subrange(from as int, i as int),
        decreases to - i,
    {
        piece.push(text[i]);
        assert(piece@ =~= text@.subrange(from as int, i + 1));
        i += 1;
    }
    piece
}

/// Whether the pattern stands in the text at `at`.
pub(crate) fn occurs(text: &Vec<char>, pattern: &Vec<char>, at: usize) -> (r: bool)
    requires
        at + pattern.len() <= text.len(),
    ensures
        r == occurs_at(text@, pattern@, at as int),
{
    let mut i: usize = 0;
    while i < pattern.len()
        invariant
            i <= pattern.len(),
            at + pattern.len() <= text.len(),
            text@.subrange(at as int, at + i) == pattern@.take(i as int),
        decreases pattern.len() - i,
    {
        if text[at + i] != pattern[i] {
            assert(text@.subrange(at as int, at + pattern.len())[i as int] != pattern@[i as int]);
            return false;
        }
        assert(text@.subrange(at as int, at + i + 1) =~= pattern@.take(i + 1)) by {
            assert(text@.subrange(at as int, at + i + 1) =~= text@.subrange(at as int, at + i).push(
                text@[at + i],
            ));
            assert(pattern@.take(i + 1) =~= pattern@.take(i as int).push(pattern@[i as int]));
        }
        i += 1;
    }
    assert(pattern@.take(pattern.len() as int) =~= pattern@);
    true
}

/// The first place at or after `from` where the pattern stands in the text.
pub(crate) fn find(text: &Vec<char>, pattern: &Vec<char>, from: usize) -> (found: Option<usize>)
    ensures
        match found {
            Some(at) => first_occurrence(text@, pattern@, from as int) == Some(at as int) && from
                <= at && at + pattern.len() <= text.len(),
            None => first_occurrence(text@, pattern@, from as int) is None,
        },
{
    if pattern.len() > text.len() {
        return None;
    }
    let last = text.len() - pattern.len();
    let mut at: usize = from;
    while at <= last
        invariant
            from <= at,
            last == text.len() - pattern.len(),
            first_occurrence(text@, pattern@, from as int) == first_occurrence(
                text@,
                pattern@,
                at as int,
            ),
        decreases last + 1 - at,
    {
        if occurs(text, pattern, at) {
            return Some(at);
        }
        if at == last {
            return None;
        }
        at += 1;
    }
    None
}

/// The pieces of the text between the occurrences of the pattern.
pub(crate) fn split_text(text: &Vec<char>, pattern: &Vec<char>) -> (pieces: Vec<Vec<char>>)
    ensures
        texts(pieces@) == split(text@, pattern@),
        pieces.len() >= 1,
{
    let mut pieces: Vec<Vec<char>> = Vec::new();
    let mut from: usize = 0;
    assert(texts(pieces@) + split_from(text@, pattern@, 0) =~= split(text@, pattern@));
    loop
        invariant
            from <= text.len(),
            split(text@, pattern@) == texts(pieces@) + split_from(text@, pattern@, from as int),
        decreases text.len() - from,
    {
        let ghost done = pieces@;
        let found = find(text, pattern, from);
        if found.is_some() && pattern.len() > 0 {
            let at = found.unwrap();
            pieces.push(copy_range(text, from, at));
            assert(texts(pieces@) =~= texts(done) + seq![text@.subrange(from as int, at as int)]);
            from = at + pattern.len();
        } else {
            pieces.push(copy_range(text, from, text.len()));
            assert(texts(pieces@) =~= texts(done) + seq![
                text@.subrange(from as int, text.len() as int),
            ]);
            return pieces;
        }
    }
}

/// White space as Unicode defines it (the property `White_Space`): the
/// characters that trimming removes.
pub open spec fn is_whitespace(c: char) -> bool {
    let code = c as u32;
    ||| 0x09 <= code <= 0x0D
    ||| code == 0x20
    ||| code == 0x85
    ||| code == 0xA0
    ||| code == 0x1680
    ||| 0x2000 <= code <= 0x200A
    ||| code == 0x2028
    ||| code == 0x2029
    ||| code == 0x202F
    ||| code == 0x205F
    ||| code == 0x3000
}

/// The text without the white space at its start.
pub open spec fn trim_start(text: Seq<char>) -> Seq<char>
    decreases text.len(),
{
    if text.len() > 0 && is_whitespace(text.first()) {
        trim_start(text.drop_first())
    } else {
        text
    }
}

/// The text without the white space at its end.
pub open spec fn trim_end(text: Seq<char>) -> Seq<char>
    decreases text.len(),
{
    if text.len() > 0 && is_whitespace(text.last()) {
        trim_end(text.drop_last())
    } else {
        text
    }
}

/// The text without the white space at its start and at its end.
pub open spec fn trim(text: Seq<char>) -> Seq<char> {
    trim_end(trim_start(text))
}

/// The test for a text that holds at least one character.
pub open spec fn is_word() -> spec_fn(Seq<char>) -> bool {
    |piece: Seq<char>| piece.len() > 0
}

/// The words of a text: what stands between its spaces, in order.
pub open spec fn words(text: Seq<char>) -> Seq<Seq<char>> {
    split(text, seq![' ']).filter(is_word())
}

/// The test for every character but `c`.
pub open spec fn is_not(c: char) -> spec_fn(char) -> bool {
    |other: char| other != c
}

/// The text with every occurrence of the character `c` taken out.
pub open spec fn without(text: Seq<char>, c: char) -> Seq<char> {
    text.filter(is_not(c))
}

/// Whether trimming removes the character.
pub fn is_space(c: char) -> (r: bool)
    ensures
        r == is_whitespace(c),
{
    let code = c as u32;
    (0x09 <= code && code <= 0x0D) || code == 0x20 || code == 0x85 || code == 0xA0 || code
        == 0x1680 || (0x2000 <= code && code <= 0x200A) || code == 0x2028 || code == 0x2029
        || code == 0x202F || code == 0x205F || code == 0x3000
}

/// The text without the white space at its start and at its end.
pub(crate) fn trim_text(text: &Vec<char>) -> (trimmed: Vec<char>)
    ensures
        trimmed@ == trim(text@),
{
    let mut start: usize = 0;
    assert(text@.skip(0) =~= text@);
    while start < text.len() && is_space(text[start])
        invariant
            start <= text.len(),
            trim_start(text@) == trim_start(text@.skip(start as int)),
        decreases text.len() - start,
    {
        assert(text@.skip(start as int).drop_first() =~= text@.skip(start + 1));
        start += 1;
    }
    let mut end: usize = text.len();
    assert(text@.skip(start as int) =~= text@.subrange(start as int, end as int));
    while end > start && is_space(text[end - 1])
        invariant
            start <= end <= text.len(),
            trim(text@) == trim_end(text@.subrange(start as int, end as int)),
        decreases end,
    {
        assert(text@.subrange(start as int, end as int).drop_last() =~= text@.subrange(
            start as int,
            end - 1,
        ));
        end -= 1;
    }
    copy_range(text, start, end)
}

/// The words of a text: what stands between its spaces, in order.
pub(crate) fn words_of(text: &Vec<char>) -> (found: Vec<Vec<char>>)
    ensures
        texts(found@) == words(text@),
{
    let mut space: Vec<char> = Vec::new();
    space.push(' ');
    assert(space@ =~= seq![' ']);
    let pieces = split_text(text, &space);
    let mut found: Vec<Vec<char>> = Vec::new();
    let mut i: usize = 0;
    assert(texts(pieces@).take(0) =~= Seq::<Seq<char>>::empty());
    assert(texts(found@) =~= texts(pieces@).take(0).filter(is_word())) by {
        Seq::<Seq<char>>::empty().lemma_filter_len(is_word());
    }
    while i < pieces.len()
        invariant
            i <= pieces.len(),
            texts(found@) == texts(pieces@).take(i as int).filter(is_word()),
        decreases pieces.len() - i,
    {
        let ghost before = texts(found@);
        proof {
            assert(texts(pieces@).take(i + 1) =~= texts(pieces@).take(i as int).push(pieces@[i as int]@));
            texts(pieces@).take(i as int).lemma_filter_push(pieces@[i as int]@, is_word());
        }
        if pieces[i].len() > 0 {
            found.push(copy_range(&pieces[i], 0, pieces[i].len()));
            assert(pieces@[i as int]@.subrange(0, pieces@[i as int]@.len() as int) =~= pieces@[i as int]@);
            assert(texts(found@) =~= before.push(pieces@[i as int]@));
        }
        i += 1;
    }
    assert(texts(pieces@).take(pieces.len() as int) =~= texts(pieces@));
    found
}

/// Appends the text, without the occurrences of the character `c`.
pub(crate) fn push_without(out: &mut String, text: &Vec<char>, upto: usize, c: char)
    requires
        upto <= text.len(),
    ensures
        final(out)@ == old(out)@ + without(text@.take(upto as int), c),
{
    let ghost before = out@;
    let mut i: usize = 0;
    proof {
        text@.take(0).lemma_filter_len(is_not(c));
        assert(out@ =~= before + without(text@.take(0), c));
    }
    while i < upto
        invariant
            i <= upto <= text.len(),
            out@ == before + without(text@.take(i as int), c),
        decreases upto - i,
    {
        proof {
            assert(text@.take(i + 1) =~= text@.take(i as int).push(text@[i as int]));
            text@.take(i as int).lemma_filter_push(text@[i as int], is_not(c));
        }
        if text[i] != c {
            out.push(text[i]);
            assert(out@ =~= before + without(text@.take(i + 1), c));
        }
        i += 1;
    }
}

} // verus!
