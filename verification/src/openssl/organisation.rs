//! The organisation that issued a certificate, as the lines written while
//! the certificate was fetched name it.
//!
//! Such a line gives the issuer's name as a list of attributes, either with
//! spaces, `C = US, O = Let's Encrypt, CN = R3`, or without them,
//! `C=US,O=Let's Encrypt,CN=R3`. A value that holds a comma stands between
//! double quotes.

use vstd::prelude::*;
use vstd::string::*;
use crate::text::{
    contains, copy_range, find, first_occurrence, occurs, occurs_at, push_without, split, split_text,
    texts, to_chars, without,
};

verus! {

/// A character that the key of an attribute may hold: any but a space, a
/// comma, an equals sign and a double quote.
pub open spec fn is_key_char(c: char) -> bool {
    c != ' ' && c != ',' && c != '=' && c != '"'
}

/// The place behind the key characters that stand in the text from `from` on.
pub open spec fn key_end(text: Seq<char>, from: int) -> int
    decreases text.len() - from,
{
    if 0 <= from < text.len() && is_key_char(text[from]) {
        key_end(text, from + 1)
    } else {
        from
    }
}

/// An attribute begins at the place `at` of a list with spaces: there stand
/// a comma and a space, a key of at least one character, and ` = `.
pub open spec fn attribute_at(text: Seq<char>, at: int) -> bool {
    let key = at + 2;
    &&& occurs_at(text, seq![',', ' '], at)
    &&& key_end(text, key) > key
    &&& occurs_at(text, seq![' ', '=', ' '], key_end(text, key))
}

/// What ends a value where it stands outside double quotes: in a list with
/// spaces the beginning of an attribute, whatever the length of its key; in a
/// list without spaces a comma.
pub open spec fn ends_value(text: Seq<char>, at: int, spaced: bool) -> bool {
    if spaced {
        attribute_at(text, at)
    } else {
        0 <= at < text.len() && text[at] == ','
    }
}

/// The place where the value ends that is read from `from` on: the first
/// place outside double quotes at which `ends_value` holds, and the end of
/// the text where there is none. `quoted` tells whether `from` stands inside
/// double quotes.
pub open spec fn value_end(text: Seq<char>, from: int, spaced: bool, quoted: bool) -> int
    decreases text.len() - from,
{
    if from < 0 || from >= text.len() {
        text.len() as int
    } else if !quoted && ends_value(text, from, spaced) {
        from
    } else {
        value_end(text, from + 1, spaced, quoted != (text[from] == '"'))
    }
}

/// The value that begins at `start`, without its double quotes.
pub open spec fn value_from(text: Seq<char>, start: int, spaced: bool) -> Seq<char> {
    without(text.subrange(start, value_end(text, start, spaced, false)), '"')
}

/// The organisation that a line names: the value of its attribute `O`.
///
/// Where the line holds `O = `, the value is what follows the first `O = `
/// up to the next attribute, or up to the end of the line where no attribute
/// follows. Where the line holds no `O = ` but `O=`, the value is what
/// follows the first `O=` up to the next comma, or up to the end of the line.
/// Nothing inside double quotes ends a value, and the double quotes are taken
/// out of it. A line with neither names no organisation, and the result is
/// empty.
pub open spec fn organisation_of(line: Seq<char>) -> Seq<char> {
    let spaced = first_occurrence(line, seq!['O', ' ', '=', ' '], 0);
    let tight = first_occurrence(line, seq!['O', '='], 0);
    if spaced is Some {
        value_from(line, spaced->0 + 4, true)
    } else if tight is Some {
        value_from(line, tight->0 + 2, false)
    } else {
        Seq::empty()
    }
}

/// The test for the lines that describe the issuer of a certificate: those
/// that hold `depth=1`.
pub open spec fn names_issuer() -> spec_fn(Seq<char>) -> bool {
    |line: Seq<char>| contains(line, seq!['d', 'e', 'p', 't', 'h', '=', '1'])
}

/// The organisation that the diagnostics of a fetch name: that of the last
/// of their lines that holds `depth=1`, and none where no line does.
pub open spec fn organisation_in(diagnostics: Seq<char>) -> Seq<char> {
    let issuers = split(diagnostics, seq!['\n']).filter(names_issuer());
    if issuers.len() > 0 {
        organisation_of(issuers.last())
    } else {
        Seq::empty()
    }
}

/// Whether the double quotes between `from` and `at` leave `at` inside
/// double quotes, `quoted` telling the same of `from`.
pub open spec fn in_quotes(text: Seq<char>, from: int, at: int, quoted: bool) -> bool
    decreases at - from,
{
    if at <= from {
        quoted
    } else {
        in_quotes(text, from, at - 1, quoted) != (text[at - 1] == '"')
    }
}

/// Reading the quotes from one place further on gives the same.
proof fn lemma_in_quotes_step(text: Seq<char>, from: int, at: int, quoted: bool)
    requires
        from < at,
    ensures
        in_quotes(text, from, at, quoted) == in_quotes(
            text,
            from + 1,
            at,
            quoted != (text[from] == '"'),
        ),
    decreases at - from,
{
    if at > from + 1 {
        lemma_in_quotes_step(text, from, at - 1, quoted);
    } else {
        assert(in_quotes(text, from, from, quoted) == quoted);
    }
}

/// A value ends at the first place outside double quotes at which something
/// ends it, and runs to the end of the text where there is no such place.
/// So the organisation of a line does not depend on what the attribute
/// behind it is called, nor on whether one stands behind it.
pub proof fn lemma_value_end(text: Seq<char>, from: int, spaced: bool, quoted: bool)
    requires
        0 <= from <= text.len(),
    ensures
        from <= value_end(text, from, spaced, quoted) <= text.len(),
        value_end(text, from, spaced, quoted) < text.len() ==> {
            &&& !in_quotes(text, from, value_end(text, from, spaced, quoted), quoted)
            &&& ends_value(text, value_end(text, from, spaced, quoted), spaced)
        },
        forall|k: int|
            from <= k < value_end(text, from, spaced, quoted) ==> in_quotes(text, from, k, quoted)
                || !ends_value(text, k, spaced),
    decreases text.len() - from,
{
    if from < text.len() && !(!quoted && ends_value(text, from, spaced)) {
        let next = quoted != (text[from] == '"');
        lemma_value_end(text, from + 1, spaced, next);
        let end = value_end(text, from, spaced, quoted);
        if end < text.len() {
            lemma_in_quotes_step(text, from, end, quoted);
        }
        assert forall|k: int| from <= k < end implies in_quotes(text, from, k, quoted)
            || !ends_value(text, k, spaced) by {
            if k > from {
                lemma_in_quotes_step(text, from, k, quoted);
            }
        }
    }
}

/// Whether the key of an attribute may hold the character.
fn is_key(c: char) -> (r: bool)
    ensures
        r == is_key_char(c),
{
    c != ' ' && c != ',' && c != '=' && c != '"'
}

/// The place behind the key characters that stand in the text from `from` on.
fn key_end_from(text: &Vec<char>, from: usize) -> (end: usize)
    requires
        from <= text.len(),
    ensures
        end == key_end(text@, from as int),
        from <= end <= text.len(),
{
    let mut end: usize = from;
    while end < text.len() && is_key(text[end])
        invariant
            from <= end <= text.len(),
            key_end(text@, from as int) == key_end(text@, end as int),
        decreases text.len() - end,
    {
        end += 1;
    }
    end
}

/// Whether an attribute begins at the place `at` of a list with spaces.
fn begins_attribute(text: &Vec<char>, at: usize, separator: &Vec<char>, assign: &Vec<char>) -> (r:
    bool)
    requires
        at < text.len(),
        separator@ == seq![',', ' '],
        assign@ == seq![' ', '=', ' '],
    ensures
        r == attribute_at(text@, at as int),
{
    if text.len() - at < 2 || !occurs(text, separator, at) {
        return false;
    }
    let key = at + 2;
    let end = key_end_from(text, key);
    end > key && text.len() - end >= 3 && occurs(text, assign, end)
}

/// The place where the value ends that begins at `start`.
fn value_end_from(text: &Vec<char>, start: usize, spaced: bool) -> (end: usize)
    requires
        start <= text.len(),
    ensures
        end == value_end(text@, start as int, spaced, false),
        start <= end <= text.len(),
{
    proof {
        reveal_strlit(", ");
        reveal_strlit(" = ");
    }
    let separator = to_chars(", ");
    let assign = to_chars(" = ");
    assert(separator@ =~= seq![',', ' ']);
    assert(assign@ =~= seq![' ', '=', ' ']);
    let mut at: usize = start;
    let mut quoted = false;
    while at < text.len()
        invariant
            start <= at <= text.len(),
            separator@ == seq![',', ' '],
            assign@ == seq![' ', '=', ' '],
            value_end(text@, start as int, spaced, false) == value_end(
                text@,
                at as int,
                spaced,
                quoted,
            ),
        decreases text.len() - at,
    {
        if !quoted {
            let ends = if spaced {
                begins_attribute(text, at, &separator, &assign)
            } else {
                text[at] == ','
            };
            if ends {
                return at;
            }
        }
        if text[at] == '"' {
            quoted = !quoted;
        }
        at += 1;
    }
    at
}

/// The organisation that the characters of a line name.
fn organisation_of_line(line: &Vec<char>) -> (organisation: String)
    ensures
        organisation@ == organisation_of(line@),
{
    proof {
        reveal_strlit("O = ");
        reveal_strlit("O=");
    }
    let with_spaces = to_chars("O = ");
    let without_spaces = to_chars("O=");
    assert(with_spaces@ =~= seq!['O', ' ', '=', ' ']);
    assert(without_spaces@ =~= seq!['O', '=']);
    let mut organisation = String::new();
    let (start, spaced) = match find(line, &with_spaces, 0) {
        Some(at) => (at + 4, true),
        None => match find(line, &without_spaces, 0) {
            Some(at) => (at + 2, false),
            None => {
                return organisation;
            },
        },
    };
    let end = value_end_from(line, start, spaced);
    let value = copy_range(line, start, end);
    push_without(&mut organisation, &value, value.len(), '"');
    assert(value@.take(value.len() as int) =~= value@);
    assert(organisation@ =~= without(value@, '"'));
    organisation
}

/// The organisation that a line of the form
/// `depth=1 C = US, O = Let's Encrypt, CN = R3` names: here `Let's Encrypt`.
pub fn get_organisation(i: &str) -> (organisation: String)
    ensures
        organisation@ == organisation_of(i@),
{
    organisation_of_line(&to_chars(i))
}

/// The organisation that the diagnostics of a fetch name.
pub fn organisation_from_diagnostics(diagnostics: &str) -> (organisation: String)
    ensures
        organisation@ == organisation_in(diagnostics@),
{
    proof {
        reveal_strlit("\n");
        reveal_strlit("depth=1");
    }
    let newline = to_chars("\n");
    let mark = to_chars("depth=1");
    assert(newline@ =~= seq!['\n']);
    assert(mark@ =~= seq!['d', 'e', 'p', 't', 'h', '=', '1']);
    let lines = split_text(&to_chars(diagnostics), &newline);
    let mut organisation = String::new();
    let mut i: usize = 0;
    proof {
        assert(texts(lines@).take(0) =~= Seq::<Seq<char>>::empty());
        texts(lines@).take(0).lemma_filter_len(names_issuer());
    }
    while i < lines.len()
        invariant
            i <= lines.len(),
            mark@ == seq!['d', 'e', 'p', 't', 'h', '=', '1'],
            ({
                let issuers = texts(lines@).take(i as int).filter(names_issuer());
                organisation@ == if issuers.len() > 0 {
                    organisation_of(issuers.last())
                } else {
                    Seq::empty()
                }
            }),
        decreases lines.len() - i,
    {
        proof {
            assert(texts(lines@).take(i + 1) =~= texts(lines@).take(i as int).push(lines@[i as int]@));
            texts(lines@).take(i as int).lemma_filter_push(lines@[i as int]@, names_issuer());
        }
        if find(&lines[i], &mark, 0).is_some() {
            organisation = organisation_of_line(&lines[i]);
        }
        i += 1;
    }
    assert(texts(lines@).take(lines.len() as int) =~= texts(lines@));
    organisation
}

} // verus!
