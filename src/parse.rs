//! Parsing of the sources that the dictionaries are built from: code points
//! written in hexadecimal, and the emoji image names that carry them.

use crate::text::push_char;
use crate::predict::string_views;
use vstd::prelude::*;
use vstd::utf8::is_scalar;

verus! {

#[verifier::external_type_specification]
#[verifier::external_body]
pub struct ExParseIntError(core::num::ParseIntError);

#[derive(Debug)]
pub enum InvalidParseError {
    Json(String),
    Hex(core::num::ParseIntError),
    Codepoint(u32),
    WordFreq(String),
}

/// The value of a hexadecimal digit of either case, or -1 for another character.
pub open spec fn hex_digit_value(c: char) -> int {
    if '0' <= c && c <= '9' {
        c as int - '0' as int
    } else if 'a' <= c && c <= 'f' {
        c as int - 'a' as int + 10
    } else if 'A' <= c && c <= 'F' {
        c as int - 'A' as int + 10
    } else {
        -1
    }
}

/// The number that the hexadecimal digits `s` write.
pub open spec fn hex_number(s: Seq<char>) -> nat
    decreases s.len(),
{
    if s.len() == 0 {
        0
    } else {
        hex_number(s.drop_last()) * 16 + hex_digit_value(s.last()) as nat
    }
}

/// `s` read as an optional `+` followed by one or more hexadecimal digits,
/// when that number fits in `u32`.
pub open spec fn parse_hex_u32(s: Seq<char>) -> Option<u32> {
    let d = if s.len() > 0 && s[0] == '+' {
        s.drop_first()
    } else {
        s
    };
    if d.len() > 0 && (forall|i: int| 0 <= i < d.len() ==> hex_digit_value(#[trigger] d[i]) >= 0)
        && hex_number(d) <= u32::MAX {
        Some(hex_number(d) as u32)
    } else {
        None
    }
}

/// Relies on `u32::from_str_radix` with radix 16: it accepts an optional `+`
/// and then hexadecimal digits only, of a value that fits in `u32`.
#[verifier::external_body]
fn hex_u32(s: &str) -> (r: Result<u32, core::num::ParseIntError>)
    ensures
        r is Ok <==> parse_hex_u32(s@) is Some,
        r matches Ok(v) ==> parse_hex_u32(s@) == Some(v),
{
    u32::from_str_radix(s, 16)
}

/// Relies on `char::from_u32`: a character exactly for Unicode scalar values.
#[verifier::external_body]
fn char_from_u32(v: u32) -> (r: Option<char>)
    ensures
        r is Some <==> is_scalar(v),
        r matches Some(c) ==> c as u32 == v,
{
    char::from_u32(v)
}

/// The character whose code point `s` writes in hexadecimal, if there is one.
pub open spec fn unicode_of(s: Seq<char>) -> Option<char> {
    match parse_hex_u32(s) {
        Some(v) => if is_scalar(v) {
            Some(v as char)
        } else {
            None
        },
        None => None,
    }
}

/// What reading `s` as a hexadecimal code point gives: the character, else
/// `Hex` for text that is not a `u32` in hexadecimal, else `Codepoint` for a
/// number that is no Unicode scalar value.
pub open spec fn unicode_outcome(s: Seq<char>, r: Result<char, InvalidParseError>) -> bool {
    &&& r is Ok <==> unicode_of(s) is Some
    &&& r matches Ok(c) ==> unicode_of(s) == Some(c)
    &&& r matches Err(e) ==> match parse_hex_u32(s) {
        Some(v) => e == InvalidParseError::Codepoint(v),
        None => e is Hex,
    }
}

pub fn parse_unicode(input: &str) -> (r: Result<char, InvalidParseError>)
    ensures
        unicode_outcome(input@, r),
{
    let unicode = match hex_u32(input) {
        Ok(v) => v,
        Err(e) => return Err(InvalidParseError::Hex(e)),
    };
    match char_from_u32(unicode) {
        Some(c) => {
            proof {
                vstd::utf8::char_u32_cast(c, unicode);
            }
            Ok(c)
        },
        None => Err(InvalidParseError::Codepoint(unicode)),
    }
}

/// The pieces of `s` between occurrences of `sep` (one more piece than there
/// are separators).
pub open spec fn split_on(s: Seq<char>, sep: char) -> Seq<Seq<char>>
    decreases s.len(),
{
    if s.len() == 0 {
        seq![Seq::empty()]
    } else {
        let r = split_on(s.drop_last(), sep);
        if s.last() == sep {
            r.push(Seq::empty())
        } else {
            r.update(r.len() - 1, r.last().push(s.last()))
        }
    }
}

pub proof fn lemma_split_on_nonempty(s: Seq<char>, sep: char)
    ensures
        split_on(s, sep).len() >= 1,
    decreases s.len(),
{
    if s.len() > 0 {
        lemma_split_on_nonempty(s.drop_last(), sep);
    }
}

/// The pieces of `s` between occurrences of `sep`.
pub fn split_str(s: &str, sep: char) -> (r: Vec<String>)
    ensures
        string_views(r@) == split_on(s@, sep),
{
    let n = s.unicode_len();
    let mut pieces: Vec<String> = Vec::new();
    let mut current = String::new();
    let mut i: usize = 0;
    assert(string_views(pieces@).push(current@) =~= split_on(s@.take(0), sep));
    while i < n
        invariant
            n == s@.len(),
            i <= n,
            string_views(pieces@).push(current@) == split_on(s@.take(i as int), sep),
        decreases n - i,
    {
        let c = s.get_char(i);
        let ghost prev = string_views(pieces@);
        proof {
            lemma_split_on_nonempty(s@.take(i as int), sep);
            assert(s@.take(i + 1).drop_last() =~= s@.take(i as int));
            assert(s@.take(i + 1).last() == c);
        }
        if c == sep {
            pieces.push(current);
            current = String::new();
            assert(string_views(pieces@) =~= prev.push(split_on(s@.take(i as int), sep).last()));
            assert(string_views(pieces@).push(current@) =~= split_on(s@.take(i + 1), sep));
        } else {
            let ghost before = current@;
            push_char(&mut current, c);
            assert(string_views(pieces@).push(current@) =~= split_on(s@.take(i + 1), sep));
        }
        i += 1;
    }
    pieces.push(current);
    assert(s@.take(n as int) =~= s@);
    pieces
}

/// The hexadecimal code points in the name of an emoji image: the last part
/// of the address, up to its first dot, split at dashes.
pub open spec fn emoji_code_points(url: Seq<char>) -> Seq<Seq<char>> {
    split_on(split_on(split_on(url, '/').last(), '.')[0], '-')
}

pub open spec fn decoded_code_points(pieces: Seq<Seq<char>>) -> Seq<char> {
    pieces.map_values(|p: Seq<char>| unicode_of(p)->Some_0)
}

/// What reading an emoji image address gives: the characters of its code
/// points, or the error of the first code point that does not read.
pub open spec fn emoji_outcome(url: Seq<char>, r: Result<String, InvalidParseError>) -> bool {
    let pieces = emoji_code_points(url);
    &&& r is Ok <==> forall|i: int| 0 <= i < pieces.len() ==> (#[trigger] unicode_of(pieces[i])) is Some
    &&& r matches Ok(t) ==> t@ == decoded_code_points(pieces)
    &&& r matches Err(e) ==> exists|i: int|
        0 <= i < pieces.len() && (forall|j: int| 0 <= j < i ==> (#[trigger] unicode_of(pieces[j])) is Some)
            && unicode_outcome(#[trigger] pieces[i], Err(e))
}

pub fn parse_github_emoji_url(url: &str) -> (r: Result<String, InvalidParseError>)
    ensures
        emoji_outcome(url@, r),
{
    let by_slash = split_str(url, '/');
    proof {
        lemma_split_on_nonempty(url@, '/');
    }
    let last = &by_slash[by_slash.len() - 1];
    assert(last@ == split_on(url@, '/').last());
    let by_dot = split_str(last.as_str(), '.');
    proof {
        lemma_split_on_nonempty(last@, '.');
    }
    let name = &by_dot[0];
    assert(name@ == split_on(last@, '.')[0]);
    let pieces = split_str(name.as_str(), '-');
    let ghost cps = emoji_code_points(url@);
    assert(string_views(pieces@) == cps);
    let mut out = String::new();
    let mut i: usize = 0;
    while i < pieces.len()
        invariant
            i <= pieces.len(),
            cps == emoji_code_points(url@),
            string_views(pieces@) == cps,
            forall|j: int| 0 <= j < i ==> (#[trigger] unicode_of(cps[j])) is Some,
            out@ == decoded_code_points(cps).take(i as int),
        decreases pieces.len() - i,
    {
        assert(pieces@[i as int]@ == cps[i as int]);
        match parse_unicode(pieces[i].as_str()) {
            Ok(c) => {
                push_char(&mut out, c);
                assert(out@ =~= decoded_code_points(cps).take(i + 1));
            },
            Err(e) => {
                return Err(e);
            },
        }
        i += 1;
    }
    assert(decoded_code_points(cps).take(pieces.len() as int) =~= decoded_code_points(cps));
    Ok(out)
}

} // verus!
