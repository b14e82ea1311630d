//! The grammar of the language, stated over sequences of characters.
//!
//! Each function models one production of the recursive-descent parser:
//! it consumes a prefix of its input and yields the parsed value together
//! with the remaining text, or the first syntactic failure.  The executable
//! parser in [`crate::parse`] is proved to return exactly these results.

use vstd::prelude::*;

use crate::model::{SpecCompound, SpecObject, SpecParseError};
use crate::text::{is_ident_char, lemma_prefix_len_le, lemma_trimmed_len, prefix_len, trimmed};

verus! {

/// The longest prefix of `p`-characters, and the text after it.
pub open spec fn scan_while(s: Seq<char>, p: spec_fn(char) -> bool) -> (Seq<char>, Seq<char>) {
    let n = prefix_len(s, p) as int;
    (s.subrange(0, n), s.subrange(n, s.len() as int))
}

/// Every character but `delimiter`: what a delimited scan runs over.
pub open spec fn not_char(delimiter: char) -> spec_fn(char) -> bool {
    |c: char| c != delimiter
}

/// The identifier character class, as a scanning predicate.
pub open spec fn ident_pred() -> spec_fn(char) -> bool {
    |c: char| is_ident_char(c)
}

/// The text after the leading `symbol`, or nothing if the text does not
/// start with it.
pub open spec fn skip_char_model(s: Seq<char>, symbol: char) -> Option<Seq<char>> {
    if s.len() > 0 && s[0] == symbol {
        Some(s.subrange(1, s.len() as int))
    } else {
        None
    }
}

/// Like [`skip_char_model`], but a missing `symbol` is a failure that names
/// the text at the point of failure.
pub open spec fn expect_char_model(s: Seq<char>, symbol: char) -> Result<
    Seq<char>,
    SpecParseError,
> {
    match skip_char_model(s, symbol) {
        Some(rest) => Ok(rest),
        None => Err(SpecParseError::UnexpectedSymbol { expected: Some(symbol), found: s }),
    }
}

/// [`skip_char_model`] after leading whitespace.
pub open spec fn skip_model(s: Seq<char>, symbol: char) -> Option<Seq<char>> {
    skip_char_model(trimmed(s), symbol)
}

/// [`expect_char_model`] after leading whitespace.
pub open spec fn expect_model(s: Seq<char>, symbol: char) -> Result<Seq<char>, SpecParseError> {
    expect_char_model(trimmed(s), symbol)
}

/// The text before the first `delimiter` and the text after it; input that
/// ends before a `delimiter` appears is a failure.
pub open spec fn scan_over_delimiter_model(s: Seq<char>, delimiter: char) -> Result<
    (Seq<char>, Seq<char>),
    SpecParseError,
> {
    let (parsed, rest) = scan_while(s, not_char(delimiter));
    match expect_char_model(rest, delimiter) {
        Ok(after) => Ok((parsed, after)),
        Err(_) => Err(SpecParseError::UnexpectedEndOfInput { expected: Some(delimiter) }),
    }
}

/// [`scan_over_delimiter_model`] after leading whitespace.
pub open spec fn parse_over_delimiter_model(s: Seq<char>, delimiter: char) -> Result<
    (Seq<char>, Seq<char>),
    SpecParseError,
> {
    scan_over_delimiter_model(trimmed(s), delimiter)
}

/// [`scan_while`] after leading whitespace.
pub open spec fn parse_while_model(s: Seq<char>, p: spec_fn(char) -> bool) -> (
    Seq<char>,
    Seq<char>,
) {
    scan_while(trimmed(s), p)
}

/// A string literal `'...'`, if the text (after whitespace) starts with a
/// quote: everything up to the next quote, taken verbatim.  Text without a
/// leading quote yields no literal and is left untouched; a quote that is
/// never closed is a failure.
pub open spec fn parse_string_literal_model(s: Seq<char>) -> Result<
    (Option<Seq<char>>, Seq<char>),
    SpecParseError,
> {
    match skip_model(s, '\'') {
        Some(opened) => match scan_over_delimiter_model(opened, '\'') {
            Ok((literal, rest)) => Ok((Some(literal), rest)),
            Err(e) => Err(e),
        },
        None => Ok((None, s)),
    }
}

/// An identifier: the longest run of identifier characters after leading
/// whitespace.  It may be empty.
pub open spec fn parse_identifier_model(s: Seq<char>) -> (Seq<char>, Seq<char>) {
    scan_while(trimmed(s), ident_pred())
}

/// The identifiers after the first one of a dotted reference: as long as a
/// dot follows, it is consumed together with the identifier after it; empty
/// identifiers are dropped.
pub open spec fn ref_tail_model(acc: Seq<Seq<char>>, s: Seq<char>) -> (Seq<Seq<char>>, Seq<char>)
    decreases s.len(),
{
    match skip_model(s, '.') {
        None => (acc, s),
        Some(after_dot) => {
            let (id, rest) = parse_identifier_model(after_dot);
            proof {
                lemma_skip_consumes(s, '.');
                lemma_parse_identifier_consumes(after_dot);
            }
            ref_tail_model(if id.len() > 0 {
                acc.push(id)
            } else {
                acc
            }, rest)
        },
    }
}

/// A dotted reference `a.b.c`: possibly no identifier at all (no prototype
/// written), else one identifier and any number of dot-separated ones.
pub open spec fn parse_reference_model(s: Seq<char>) -> (Seq<Seq<char>>, Seq<char>) {
    let (first, rest) = parse_identifier_model(s);
    if first.len() == 0 {
        (Seq::empty(), rest)
    } else {
        ref_tail_model(seq![first], rest)
    }
}

/// An object: a string literal, or else a compound made of an optional
/// prototype reference and an optional braced list of overrides.
pub open spec fn parse_object_model(s: Seq<char>) -> Result<(SpecObject, Seq<char>), SpecParseError>
    decreases s.len(), 1int,
{
    match parse_string_literal_model(s) {
        Err(e) => Err(e),
        Ok((Some(literal), rest)) => Ok((SpecObject::Literal(literal), rest)),
        Ok((None, _)) => {
            let (prototype, r1) = parse_reference_model(s);
            proof {
                lemma_parse_reference_consumes(s);
            }
            match parse_delimited_model(r1) {
                Err(e) => Err(e),
                Ok((overrides, r2)) => Ok(
                    (SpecObject::Compound(SpecCompound { prototype, overrides }), r2),
                ),
            }
        },
    }
}

/// A named object `name: object`.
pub open spec fn parse_named_object_model(s: Seq<char>) -> Result<
    ((Seq<char>, SpecObject), Seq<char>),
    SpecParseError,
>
    decreases s.len(), 2int,
{
    let (name, r1) = parse_identifier_model(s);
    match expect_model(r1, ':') {
        Err(e) => Err(e),
        Ok(r2) => {
            proof {
                lemma_parse_identifier_consumes(s);
                lemma_expect_consumes(r1, ':');
            }
            match parse_object_model(r2) {
                Err(e) => Err(e),
                Ok((object, r3)) => Ok(((name, object), r3)),
            }
        },
    }
}

/// A braced list of named objects `{ ... }`; text without an opening brace
/// yields an empty list and is left untouched.
pub open spec fn parse_delimited_model(s: Seq<char>) -> Result<
    (Seq<(Seq<char>, SpecObject)>, Seq<char>),
    SpecParseError,
>
    decreases s.len(), 0int,
{
    match skip_model(s, '{') {
        None => Ok((Seq::empty(), s)),
        Some(opened) => {
            proof {
                lemma_skip_consumes(s, '{');
            }
            parse_objects_until_close_model(Seq::empty(), opened)
        },
    }
}

/// Named objects up to the closing `}`; input that ends before the brace
/// closes is a failure.
pub open spec fn parse_objects_until_close_model(
    acc: Seq<(Seq<char>, SpecObject)>,
    s: Seq<char>,
) -> Result<(Seq<(Seq<char>, SpecObject)>, Seq<char>), SpecParseError>
    decreases s.len(), 3int,
{
    let t = trimmed(s);
    if t.len() == 0 {
        Err(SpecParseError::UnexpectedEndOfInput { expected: Some('}') })
    } else if t[0] == '}' {
        Ok((acc, t.subrange(1, t.len() as int)))
    } else {
        proof {
            lemma_trimmed_len(s);
        }
        match parse_named_object_model(t) {
            Err(e) => Err(e),
            Ok(((name, object), rest)) => {
                // A named object always consumes at least its `:`
                // (lemma_parse_named_object_consumes); this guard makes that
                // progress definitional, so the recursion visibly terminates.
                let bounded = if rest.len() < t.len() {
                    rest
                } else {
                    Seq::<char>::empty()
                };
                parse_objects_until_close_model(acc.push((name, object)), bounded)
            },
        }
    }
}

/// Named objects up to the end of the input.
pub open spec fn parse_remaining_model(acc: Seq<(Seq<char>, SpecObject)>, s: Seq<char>) -> Result<
    (Seq<(Seq<char>, SpecObject)>, Seq<char>),
    SpecParseError,
>
    decreases s.len(),
{
    let t = trimmed(s);
    if t.len() == 0 {
        Ok((acc, t))
    } else {
        match parse_named_object_model(t) {
            Err(e) => Err(e),
            Ok(((name, object), rest)) => {
                proof {
                    lemma_trimmed_len(s);
                    lemma_parse_named_object_consumes(t);
                }
                parse_remaining_model(acc.push((name, object)), rest)
            },
        }
    }
}

/// A whole document: its named objects in declaration order.
pub open spec fn parse_model(s: Seq<char>) -> Result<Seq<(Seq<char>, SpecObject)>, SpecParseError> {
    match parse_remaining_model(Seq::empty(), s) {
        Ok((entries, _)) => Ok(entries),
        Err(e) => Err(e),
    }
}

/// Scanning never lengthens the text: the rest is at most as long as the
/// input.
pub proof fn lemma_scan_while_consumes(s: Seq<char>, p: spec_fn(char) -> bool)
    ensures
        scan_while(s, p).1.len() <= s.len(),
{
    lemma_prefix_len_le(s, p);
}

/// A successful skip consumes the leading whitespace and the symbol.
pub proof fn lemma_skip_consumes(s: Seq<char>, symbol: char)
    ensures
        skip_model(s, symbol) matches Some(rest) ==> rest.len() < s.len(),
{
    lemma_trimmed_len(s);
}

/// A successful expect consumes the leading whitespace and the symbol.
pub proof fn lemma_expect_consumes(s: Seq<char>, symbol: char)
    ensures
        expect_model(s, symbol) matches Ok(rest) ==> rest.len() < s.len(),
{
    lemma_trimmed_len(s);
}

pub proof fn lemma_parse_identifier_consumes(s: Seq<char>)
    ensures
        parse_identifier_model(s).1.len() <= s.len(),
{
    lemma_trimmed_len(s);
    lemma_scan_while_consumes(trimmed(s), ident_pred());
}

pub proof fn lemma_scan_over_delimiter_consumes(s: Seq<char>, delimiter: char)
    ensures
        scan_over_delimiter_model(s, delimiter) matches Ok((parsed, rest)) ==> rest.len()
            <= s.len(),
{
    lemma_scan_while_consumes(s, not_char(delimiter));
}

pub proof fn lemma_parse_string_literal_consumes(s: Seq<char>)
    ensures
        parse_string_literal_model(s) matches Ok((literal, rest)) ==> rest.len() <= s.len(),
{
    lemma_skip_consumes(s, '\'');
    if let Some(opened) = skip_model(s, '\'') {
        lemma_scan_over_delimiter_consumes(opened, '\'');
    }
}

pub proof fn lemma_ref_tail_consumes(acc: Seq<Seq<char>>, s: Seq<char>)
    ensures
        ref_tail_model(acc, s).1.len() <= s.len(),
    decreases s.len(),
{
    if let Some(after_dot) = skip_model(s, '.') {
        lemma_skip_consumes(s, '.');
        lemma_parse_identifier_consumes(after_dot);
        let (id, rest) = parse_identifier_model(after_dot);
        lemma_ref_tail_consumes(if id.len() > 0 {
            acc.push(id)
        } else {
            acc
        }, rest);
    }
}

pub proof fn lemma_parse_reference_consumes(s: Seq<char>)
    ensures
        parse_reference_model(s).1.len() <= s.len(),
{
    lemma_parse_identifier_consumes(s);
    let (first, rest) = parse_identifier_model(s);
    if first.len() > 0 {
        lemma_ref_tail_consumes(seq![first], rest);
    }
}

/// A successfully parsed object leaves at most its input behind.
pub proof fn lemma_parse_object_consumes(s: Seq<char>)
    ensures
        parse_object_model(s) matches Ok((object, rest)) ==> rest.len() <= s.len(),
    decreases s.len(), 1int,
{
    lemma_parse_string_literal_consumes(s);
    lemma_parse_reference_consumes(s);
    if parse_string_literal_model(s) matches Ok((None, _)) {
        let (_, r1) = parse_reference_model(s);
        lemma_parse_delimited_consumes(r1);
    }
}

/// A successfully parsed named object consumes at least its `:`.
pub proof fn lemma_parse_named_object_consumes(s: Seq<char>)
    ensures
        parse_named_object_model(s) matches Ok((parsed, rest)) ==> rest.len() < s.len(),
    decreases s.len(), 2int,
{
    let (_, r1) = parse_identifier_model(s);
    lemma_parse_identifier_consumes(s);
    lemma_expect_consumes(r1, ':');
    if let Ok(r2) = expect_model(r1, ':') {
        lemma_parse_object_consumes(r2);
    }
}

pub proof fn lemma_parse_delimited_consumes(s: Seq<char>)
    ensures
        parse_delimited_model(s) matches Ok((entries, rest)) ==> rest.len() <= s.len(),
    decreases s.len(), 0int,
{
    lemma_skip_consumes(s, '{');
    if let Some(opened) = skip_model(s, '{') {
        lemma_parse_objects_until_close_consumes(Seq::empty(), opened);
    }
}

/// A successfully closed list consumes at least its `}`, and the progress
/// guard in [`parse_objects_until_close_model`] never fires.
pub proof fn lemma_parse_objects_until_close_consumes(
    acc: Seq<(Seq<char>, SpecObject)>,
    s: Seq<char>,
)
    ensures
        parse_objects_until_close_model(acc, s) matches Ok((entries, rest)) ==> rest.len()
            < s.len(),
    decreases s.len(), 3int,
{
    let t = trimmed(s);
    lemma_trimmed_len(s);
    if t.len() == 0 {
    } else if t[0] == '}' {
    } else {
        lemma_parse_named_object_consumes(t);
        if let Ok(((name, object), rest)) = parse_named_object_model(t) {
            lemma_parse_objects_until_close_consumes(acc.push((name, object)), rest);
        }
    }
}

/// In [`parse_objects_until_close_model`] the parsed named object really is
/// what continues the recursion: the progress guard never replaces it.
pub proof fn lemma_until_close_unfolds(acc: Seq<(Seq<char>, SpecObject)>, s: Seq<char>)
    requires
        trimmed(s).len() > 0,
        trimmed(s)[0] != '}',
        parse_named_object_model(trimmed(s)) matches Ok(_),
    ensures
        parse_objects_until_close_model(acc, s) == (match parse_named_object_model(trimmed(s)) {
            Ok(((name, object), rest)) => parse_objects_until_close_model(
                acc.push((name, object)),
                rest,
            ),
            Err(e) => Err(e),
        }),
{
    lemma_parse_named_object_consumes(trimmed(s));
}

} // verus!
