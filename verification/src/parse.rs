//! The abstract syntax tree and the parser.
//!
//! Parsing is a pure function of the input text: every sub-parse takes the
//! remaining text and returns the parsed value together with what is left,
//! or the first syntactic failure.  Each function is proved to return
//! exactly what the corresponding production of [`crate::grammar`] states.
//!
//! Resolving a dotted reference against a tree of named objects also lives
//! here: it needs nothing but the tree itself.

use vstd::prelude::*;
use vstd::slice::slice_subrange;
use vstd::string::StrSliceExecFns;

use crate::grammar::{expect_char_model, expect_model, ident_pred, lemma_expect_consumes,
    lemma_parse_identifier_consumes, lemma_parse_named_object_consumes,
    lemma_parse_reference_consumes, lemma_skip_consumes, lemma_until_close_unfolds, not_char,
    parse_delimited_model, parse_identifier_model, parse_model, parse_named_object_model,
    parse_object_model, parse_objects_until_close_model, parse_over_delimiter_model,
    parse_reference_model, parse_remaining_model, parse_string_literal_model, ref_tail_model,
    scan_over_delimiter_model, scan_while, skip_char_model, skip_model};
use crate::model::{lemma_lookup_found, lemma_lookup_none, ref_has_target,
    resolve_reference_model, SpecCompound, SpecObject, SpecParseError, SpecResolveError};
use crate::text::{is_ident_char, ident_char, lemma_prefix_len_split, lemma_trimmed_len, str_eq,
    trim_leading, trimmed};

verus! {

/// The text a parse works on: what remains of the input.
pub type Source<'s> = &'s str;

pub type ParseResult<'s, T> = Result<T, ParseError<'s>>;

pub type ResolveResult<'s, T> = Result<T, ResolveError<'s>>;

/// A parsed object: a string literal (which may be empty) or a compound.
#[derive(Eq, PartialEq, Debug)]
pub enum Object<'s> {
    StringLiteral(&'s str),
    Compound(Compound<'s>),
}

/// A parsed compound: the raw result of parsing, holding its prototype
/// reference (possibly empty) and its overrides.
#[derive(Eq, PartialEq, Debug)]
pub struct Compound<'s> {
    pub prototype: Reference<'s>,
    pub overrides: NamedObjects<'s>,
}

/// Named objects in declaration order.  A name may occur twice; lookup then
/// finds the first occurrence, and the later one is shadowed.
#[derive(Eq, PartialEq, Debug)]
pub struct NamedObjects<'s> {
    pub entries: Vec<(Identifier<'s>, Object<'s>)>,
}

/// The local, simple name of an object.
#[derive(Eq, PartialEq, Debug, Hash, Clone)]
pub struct Identifier<'s> {
    pub name: &'s str,
}

/// The absolute, dotted name of a prototype: before parsing, its entries
/// were separated by dots.
#[derive(Eq, PartialEq, Debug, Clone)]
pub struct Reference<'s> {
    pub identifiers: Vec<Identifier<'s>>,
}

/// A syntactic failure: the input broke off where a symbol was required, or
/// held another symbol in its place.
#[derive(Eq, PartialEq, Debug, Hash, Clone, Copy)]
pub enum ParseError<'s> {
    UnexpectedSymbol { expected: Option<char>, found: Source<'s> },
    UnexpectedEndOfInput { expected: Option<char> },
}

/// A semantic failure while resolving references.
#[derive(Eq, PartialEq, Debug, Hash, Clone)]
pub enum ResolveError<'s> {
    /// A reference segment names nothing in its scope.
    ReferenceNotFound(Identifier<'s>),
    /// A dotted reference tried to descend into a string literal.
    StringLiteralHasNoProperties,
    /// A chain of prototypes or aliases returned to an object it had
    /// already visited; following it further would never end.
    CyclicReference,
}

/// The names of a sequence of identifiers.
pub open spec fn names_of<'s>(ids: Seq<Identifier<'s>>) -> Seq<Seq<char>> {
    Seq::new(ids.len(), |i: int| ids[i].name@)
}

/// The model of a parsed object.
pub open spec fn object_model<'s>(o: Object<'s>) -> SpecObject
    decreases o,
{
    match o {
        Object::StringLiteral(text) => SpecObject::Literal(text@),
        Object::Compound(c) => SpecObject::Compound(compound_model(c)),
    }
}

/// The model of a parsed compound.
pub open spec fn compound_model<'s>(c: Compound<'s>) -> SpecCompound
    decreases c,
{
    SpecCompound {
        prototype: names_of(c.prototype.identifiers@),
        overrides: entries_model(c.overrides.entries@),
    }
}

/// The model of a list of named objects.
pub open spec fn entries_model<'s>(entries: Seq<(Identifier<'s>, Object<'s>)>) -> Seq<
    (Seq<char>, SpecObject),
>
    decreases entries,
{
    if entries.len() == 0 {
        Seq::empty()
    } else {
        seq![(entries[0].0.name@, object_model(entries[0].1))] + entries_model(
            entries.subrange(1, entries.len() as int),
        )
    }
}

/// [`entries_model`] maps the entries one for one.
pub proof fn lemma_entries_model<'s>(entries: Seq<(Identifier<'s>, Object<'s>)>)
    ensures
        entries_model(entries).len() == entries.len(),
        forall|i: int|
            0 <= i < entries.len() ==> entries_model(entries)[i] == (
                entries[i].0.name@,
                object_model(entries[i].1),
            ),
    decreases entries.len(),
{
    if entries.len() > 0 {
        let rest = entries.subrange(1, entries.len() as int);
        lemma_entries_model(rest);
        assert(forall|i: int|
            1 <= i < entries.len() ==> entries_model(entries)[i] == entries_model(rest)[i - 1]);
    }
}

impl<'s> View for Identifier<'s> {
    type V = Seq<char>;

    open spec fn view(&self) -> Seq<char> {
        self.name@
    }
}

impl<'s> View for Reference<'s> {
    type V = Seq<Seq<char>>;

    open spec fn view(&self) -> Seq<Seq<char>> {
        names_of(self.identifiers@)
    }
}

impl<'s> View for Object<'s> {
    type V = SpecObject;

    open spec fn view(&self) -> SpecObject {
        object_model(*self)
    }
}

impl<'s> View for Compound<'s> {
    type V = SpecCompound;

    open spec fn view(&self) -> SpecCompound {
        compound_model(*self)
    }
}

impl<'s> View for NamedObjects<'s> {
    type V = Seq<(Seq<char>, SpecObject)>;

    open spec fn view(&self) -> Seq<(Seq<char>, SpecObject)> {
        entries_model(self.entries@)
    }
}

impl<'s> View for ParseError<'s> {
    type V = SpecParseError;

    open spec fn view(&self) -> SpecParseError {
        match *self {
            ParseError::UnexpectedSymbol { expected, found } => SpecParseError::UnexpectedSymbol {
                expected,
                found: found@,
            },
            ParseError::UnexpectedEndOfInput { expected } => SpecParseError::UnexpectedEndOfInput {
                expected,
            },
        }
    }
}

impl<'s> View for ResolveError<'s> {
    type V = SpecResolveError;

    open spec fn view(&self) -> SpecResolveError {
        match *self {
            ResolveError::ReferenceNotFound(id) => SpecResolveError::ReferenceNotFound(id.name@),
            ResolveError::StringLiteralHasNoProperties => SpecResolveError::StringLiteralHasNoProperties,
            ResolveError::CyclicReference => SpecResolveError::CyclicReference,
        }
    }
}

impl<'s> Reference<'s> {
    /// Whether this reference names anything: false when it was an absent
    /// prototype, parsed from no text at all.
    pub fn has_target(&self) -> (r: bool)
        ensures
            r == ref_has_target(self@),
    {
        let n = self.identifiers.len();
        let mut i: usize = 0;
        while i < n
            invariant
                i <= n,
                n == self.identifiers@.len(),
                forall|j: int| 0 <= j < i ==> self.identifiers@[j].name@.len() == 0,
            ensures
                i <= n,
                forall|j: int| 0 <= j < i ==> self.identifiers@[j].name@.len() == 0,
                i < n ==> self.identifiers@[i as int].name@.len() > 0,
            decreases n - i,
        {
            if !self.identifiers[i].name.is_empty() {
                break;
            }
            i += 1;
        }
        proof {
            if i < n {
                assert(self@[i as int].len() > 0);
            } else {
                assert forall|j: int| 0 <= j < self@.len() implies self@[j].len() == 0 by {
                    assert(self@[j] == self.identifiers@[j].name@);
                }
            }
        }
        i < n
    }
}

impl<'s> NamedObjects<'s> {
    /// Follows a dotted reference through this tree of named objects; see
    /// [`resolve_reference_model`] for the scoping rule.
    ///
    /// The reference must have at least one segment; an absent prototype
    /// (see [`Reference::has_target`]) has nothing to resolve.
    pub fn resolve_reference<'o>(&'o self, reference: &'o Reference<'s>) -> (r: ResolveResult<
        's,
        &'o Object<'s>,
    >)
        requires
            reference.identifiers@.len() > 0,
        ensures
            match r {
                Ok(found) => resolve_reference_model(self@, reference@) == Ok::<
                    _,
                    SpecResolveError,
                >(found@),
                Err(e) => resolve_reference_model(self@, reference@) == Err::<SpecObject, _>(e@),
            },
    {
        self.resolve_reference_names(reference.identifiers.as_slice())
    }

    /// One step of reference resolution: the first identifier is looked up
    /// here, the remaining ones descend into the overrides of the compound
    /// just found.
    pub fn resolve_reference_names<'o>(&'o self, identifiers: &'o [Identifier<'s>]) -> (r:
        ResolveResult<'s, &'o Object<'s>>)
        requires
            identifiers@.len() > 0,
        ensures
            match r {
                Ok(found) => resolve_reference_model(self@, names_of(identifiers@)) == Ok::<
                    _,
                    SpecResolveError,
                >(found@),
                Err(e) => resolve_reference_model(self@, names_of(identifiers@)) == Err::<
                    SpecObject,
                    _,
                >(e@),
            },
        decreases identifiers@.len(),
    {
        let first = &identifiers[0];
        let ghost name = first.name@;
        let n = self.entries.len();
        let mut k: usize = 0;
        while k < n
            invariant
                k <= n,
                n == self.entries@.len(),
                name == first.name@,
                forall|j: int| 0 <= j < k ==> self.entries@[j].0.name@ != name,
            ensures
                k <= n,
                forall|j: int| 0 <= j < k ==> self.entries@[j].0.name@ != name,
                k < n ==> self.entries@[k as int].0.name@ == name,
            decreases n - k,
        {
            if str_eq(self.entries[k].0.name, first.name) {
                break;
            }
            k += 1;
        }
        proof {
            lemma_entries_model(self.entries@);
        }
        if k == n {
            proof {
                lemma_lookup_none(self@, name);
            }
            Err(ResolveError::ReferenceNotFound(Identifier { name: first.name }))
        } else {
            proof {
                lemma_lookup_found(self@, name, k as int);
            }
            let identified = &self.entries[k].1;
            if identifiers.len() == 1 {
                Ok(identified)
            } else {
                match identified {
                    Object::Compound(compound) => {
                        let sub = slice_subrange(identifiers, 1, identifiers.len());
                        proof {
                            assert(names_of(sub@) =~= names_of(identifiers@).subrange(
                                1,
                                identifiers@.len() as int,
                            ));
                        }
                        compound.overrides.resolve_reference_names(sub)
                    },
                    Object::StringLiteral(_) => Err(ResolveError::StringLiteralHasNoProperties),
                }
            }
        }
    }
}

/// Returns the remaining text if the very first character is the given
/// symbol; no whitespace is skipped.
pub fn skip_char<'s>(source: Source<'s>, symbol: char) -> (r: Option<Source<'s>>)
    ensures
        match r {
            Some(rest) => skip_char_model(source@, symbol) == Some(rest@),
            None => skip_char_model(source@, symbol) is None,
        },
{
    let len = source.unicode_len();
    if len > 0 && source.get_char(0) == symbol {
        Some(source.substring_char(1, len))
    } else {
        None
    }
}

/// Returns the remaining text after the required first character, or says
/// what stood in its place.
pub fn expect_char<'s>(source: Source<'s>, expected_symbol: char) -> (r: ParseResult<
    's,
    Source<'s>,
>)
    ensures
        match r {
            Ok(rest) => expect_char_model(source@, expected_symbol) == Ok::<_, SpecParseError>(
                rest@,
            ),
            Err(e) => expect_char_model(source@, expected_symbol) == Err::<Seq<char>, _>(e@),
        },
{
    match skip_char(source, expected_symbol) {
        Some(rest) => Ok(rest),
        None => Err(
            ParseError::UnexpectedSymbol { found: source, expected: Some(expected_symbol) },
        ),
    }
}

/// Splits the text at the longest prefix whose characters satisfy the
/// predicate.  Both parts may be empty.
pub fn parse_chars_while<'s, F: Fn(char) -> bool>(source: Source<'s>, predicate: F) -> (r: (
    &'s str,
    Source<'s>,
))
    requires
        forall|c: char| call_requires(predicate, (c,)),
    ensures
        source@ == r.0@ + r.1@,
        forall|j: int| 0 <= j < r.0@.len() ==> call_ensures(predicate, (r.0@[j],), true),
        r.1@.len() > 0 ==> call_ensures(predicate, (r.1@[0],), false),
{
    let len = source.unicode_len();
    let mut i: usize = 0;
    while i < len
        invariant
            i <= len,
            len == source@.len(),
            forall|c: char| call_requires(predicate, (c,)),
            forall|j: int| 0 <= j < i ==> call_ensures(predicate, (source@[j],), true),
        ensures
            i <= len,
            forall|j: int| 0 <= j < i ==> call_ensures(predicate, (source@[j],), true),
            i < len ==> call_ensures(predicate, (source@[i as int],), false),
        decreases len - i,
    {
        if !predicate(source.get_char(i)) {
            break;
        }
        i += 1;
    }
    let taken = source.substring_char(0, i);
    let rest = source.substring_char(i, len);
    proof {
        assert(source@ =~= taken@ + rest@);
    }
    (taken, rest)
}

/// Splits at the first occurrence of the delimiter, which is discarded;
/// input without the delimiter is a failure.  The parts may start with
/// whitespace.
pub fn parse_over_delimiter_char<'s>(source: Source<'s>, delimiter: char) -> (r: ParseResult<
    's,
    (&'s str, Source<'s>),
>)
    ensures
        match r {
            Ok((parsed, rest)) => scan_over_delimiter_model(source@, delimiter) == Ok::<
                _,
                SpecParseError,
            >((parsed@, rest@)),
            Err(e) => scan_over_delimiter_model(source@, delimiter) == Err::<
                (Seq<char>, Seq<char>),
                _,
            >(e@),
        },
{
    let (parsed, rest) = parse_chars_while(
        source,
        (|character: char| -> (keep: bool)
            ensures
                keep == (character != delimiter),
            { character != delimiter }),
    );
    proof {
        assert forall|j: int| 0 <= j < parsed@.len() implies not_char(delimiter)(
            parsed@[j],
        ) by {}
        lemma_prefix_len_split(parsed@, rest@, not_char(delimiter));
        assert(source@.subrange(0, parsed@.len() as int) =~= parsed@);
        assert(source@.subrange(parsed@.len() as int, source@.len() as int) =~= rest@);
        assert(scan_while(source@, not_char(delimiter)) == (parsed@, rest@));
    }
    match expect_char(rest, delimiter) {
        Ok(after) => Ok((parsed, after)),
        Err(_) => Err(ParseError::UnexpectedEndOfInput { expected: Some(delimiter) }),
    }
}

/// Skips whitespace, then the given symbol, if it is next.
pub fn skip<'s>(source: Source<'s>, symbol: char) -> (r: Option<Source<'s>>)
    ensures
        match r {
            Some(rest) => skip_model(source@, symbol) == Some(rest@),
            None => skip_model(source@, symbol) is None,
        },
{
    skip_char(trim_leading(source), symbol)
}

/// Skips whitespace, then requires the given symbol.
pub fn expect<'s>(source: Source<'s>, expected_symbol: char) -> (r: ParseResult<'s, Source<'s>>)
    ensures
        match r {
            Ok(rest) => expect_model(source@, expected_symbol) == Ok::<_, SpecParseError>(rest@),
            Err(e) => expect_model(source@, expected_symbol) == Err::<Seq<char>, _>(e@),
        },
{
    expect_char(trim_leading(source), expected_symbol)
}

/// Skips whitespace, then splits at the first occurrence of the delimiter.
pub fn parse_over_delimiter<'s>(source: Source<'s>, delimiter: char) -> (r: ParseResult<
    's,
    (&'s str, Source<'s>),
>)
    ensures
        match r {
            Ok((parsed, rest)) => parse_over_delimiter_model(source@, delimiter) == Ok::<
                _,
                SpecParseError,
            >((parsed@, rest@)),
            Err(e) => parse_over_delimiter_model(source@, delimiter) == Err::<
                (Seq<char>, Seq<char>),
                _,
            >(e@),
        },
{
    parse_over_delimiter_char(trim_leading(source), delimiter)
}

/// Skips whitespace, then splits at the longest prefix satisfying the
/// predicate.
pub fn parse_while<'s, F: Fn(char) -> bool>(source: Source<'s>, predicate: F) -> (r: (
    &'s str,
    Source<'s>,
))
    requires
        forall|c: char| call_requires(predicate, (c,)),
    ensures
        trimmed(source@) == r.0@ + r.1@,
        forall|j: int| 0 <= j < r.0@.len() ==> call_ensures(predicate, (r.0@[j],), true),
        r.1@.len() > 0 ==> call_ensures(predicate, (r.1@[0],), false),
{
    parse_chars_while(trim_leading(source), predicate)
}

/// Skips whitespace, then parses a string literal if one starts here:
/// `Ok(None)` when the text starts with no quote, an error when a literal
/// was opened but never closed.
pub fn parse_string_literal<'s>(source: Source<'s>) -> (r: ParseResult<
    's,
    (Option<&'s str>, Source<'s>),
>)
    ensures
        match r {
            Ok((literal, rest)) => parse_string_literal_model(source@) == Ok::<_, SpecParseError>(
                (
                    match literal {
                        Some(text) => Some(text@),
                        None => None::<Seq<char>>,
                    },
                    rest@,
                ),
            ),
            Err(e) => parse_string_literal_model(source@) == Err::<
                (Option<Seq<char>>, Seq<char>),
                _,
            >(e@),
        },
{
    if let Some(opened) = skip(source, '\'') {
        match parse_over_delimiter_char(opened, '\'') {
            Ok((literal, rest)) => Ok((Some(literal), rest)),
            Err(e) => Err(e),
        }
    } else {
        Ok((None, source))
    }
}

/// Skips whitespace, then takes the longest run of identifier characters,
/// which may be empty.
pub fn parse_identifier<'s>(source: Source<'s>) -> (r: (Identifier<'s>, Source<'s>))
    ensures
        parse_identifier_model(source@) == (r.0@, r.1@),
{
    let (name, rest) = parse_while(
        source,
        (|symbol: char| -> (keep: bool)
            ensures
                keep == is_ident_char(symbol),
            { ident_char(symbol) }),
    );
    proof {
        assert forall|j: int| 0 <= j < name@.len() implies ident_pred()(name@[j]) by {}
        lemma_prefix_len_split(name@, rest@, ident_pred());
        let t = trimmed(source@);
        assert(t.subrange(0, name@.len() as int) =~= name@);
        assert(t.subrange(name@.len() as int, t.len() as int) =~= rest@);
    }
    (Identifier { name }, rest)
}

/// Parses a dotted reference such as `label.dimensions.x`: possibly no
/// identifier at all, else identifiers separated by dots.
pub fn parse_reference<'s>(source: Source<'s>) -> (r: (Reference<'s>, Source<'s>))
    ensures
        parse_reference_model(source@) == (r.0@, r.1@),
{
    let (first_identifier, after_first) = parse_identifier(source);
    if first_identifier.name.is_empty() {
        proof {
            assert(names_of(Seq::<Identifier>::empty()) =~= Seq::<Seq<char>>::empty());
        }
        return (Reference { identifiers: Vec::new() }, after_first);
    }
    let ghost first_name = first_identifier.name@;
    let mut identifiers: Vec<Identifier<'s>> = Vec::new();
    identifiers.push(first_identifier);
    let mut remaining = after_first;
    proof {
        assert(names_of(identifiers@) =~= seq![first_name]);
    }
    loop
        invariant
            ref_tail_model(names_of(identifiers@), remaining@) == parse_reference_model(source@),
        ensures
            parse_reference_model(source@) == (names_of(identifiers@), remaining@),
        decreases remaining@.len(),
    {
        match skip(remaining, '.') {
            Some(after_dot) => {
                let (identifier, new_remaining) = parse_identifier(after_dot);
                proof {
                    lemma_skip_consumes(remaining@, '.');
                    lemma_parse_identifier_consumes(after_dot@);
                    if identifier.name@.len() > 0 {
                        assert(names_of(identifiers@.push(identifier)) =~= names_of(
                            identifiers@,
                        ).push(identifier.name@));
                    }
                }
                if !identifier.name.is_empty() {
                    identifiers.push(identifier);
                }
                remaining = new_remaining;
            },
            None => {
                break;
            },
        }
    }
    (Reference { identifiers }, remaining)
}

/// [`entries_model`] maps pushing an entry to pushing its model.
pub proof fn lemma_entries_model_push<'s>(
    entries: Seq<(Identifier<'s>, Object<'s>)>,
    entry: (Identifier<'s>, Object<'s>),
)
    ensures
        entries_model(entries.push(entry)) == entries_model(entries).push(
            (entry.0.name@, object_model(entry.1)),
        ),
{
    lemma_entries_model(entries.push(entry));
    lemma_entries_model(entries);
    assert(entries_model(entries.push(entry)) =~= entries_model(entries).push(
        (entry.0.name@, object_model(entry.1)),
    ));
}

/// Skips whitespace, then parses either a string literal or a compound:
/// an optional prototype reference followed by optional braced overrides.
pub fn parse_object<'s>(source: Source<'s>) -> (r: ParseResult<'s, (Object<'s>, Source<'s>)>)
    ensures
        match r {
            Ok((object, rest)) => parse_object_model(source@) == Ok::<_, SpecParseError>(
                (object@, rest@),
            ),
            Err(e) => parse_object_model(source@) == Err::<(SpecObject, Seq<char>), _>(e@),
        },
    decreases source@.len(), 1int,
{
    let (literal, after_literal) = match parse_string_literal(source) {
        Ok(pair) => pair,
        Err(e) => {
            return Err(e);
        },
    };
    if let Some(string_literal) = literal {
        Ok((Object::StringLiteral(string_literal), after_literal))
    } else {
        let (prototype, after_reference) = parse_reference(source);
        proof {
            lemma_parse_reference_consumes(source@);
        }
        match parse_delimited_named_objects(after_reference) {
            Ok((overrides, rest)) => Ok(
                (Object::Compound(Compound { prototype, overrides }), rest),
            ),
            Err(e) => Err(e),
        }
    }
}

/// Skips whitespace, then parses `name: object`.
pub fn parse_named_object<'s>(source: Source<'s>) -> (r: ParseResult<
    's,
    (Identifier<'s>, Object<'s>, Source<'s>),
>)
    ensures
        match r {
            Ok((name, object, rest)) => parse_named_object_model(source@) == Ok::<
                _,
                SpecParseError,
            >(((name@, object@), rest@)),
            Err(e) => parse_named_object_model(source@) == Err::<
                ((Seq<char>, SpecObject), Seq<char>),
                _,
            >(e@),
        },
    decreases source@.len(), 2int,
{
    let (name, after_name) = parse_identifier(source);
    let after_colon = match expect(after_name, ':') {
        Ok(rest) => rest,
        Err(e) => {
            return Err(e);
        },
    };
    proof {
        lemma_parse_identifier_consumes(source@);
        lemma_expect_consumes(after_name@, ':');
    }
    match parse_object(after_colon) {
        Ok((object, rest)) => Ok((name, object, rest)),
        Err(e) => Err(e),
    }
}

/// Skips whitespace, then parses braced overrides `{ ... }` up to the
/// closing brace; text without an opening brace yields no overrides and is
/// left untouched.  Input that ends inside the braces is a failure.
pub fn parse_delimited_named_objects<'s>(source: Source<'s>) -> (r: ParseResult<
    's,
    (NamedObjects<'s>, Source<'s>),
>)
    ensures
        match r {
            Ok((objects, rest)) => parse_delimited_model(source@) == Ok::<_, SpecParseError>(
                (objects@, rest@),
            ),
            Err(e) => parse_delimited_model(source@) == Err::<
                (Seq<(Seq<char>, SpecObject)>, Seq<char>),
                _,
            >(e@),
        },
    decreases source@.len(), 0int,
{
    let opened = match skip(source, '{') {
        Some(rest) => rest,
        None => {
            proof {
                assert(entries_model(Seq::<(Identifier, Object)>::empty())
                    =~= Seq::<(Seq<char>, SpecObject)>::empty());
            }
            return Ok((NamedObjects { entries: Vec::new() }, source));
        },
    };
    proof {
        lemma_skip_consumes(source@, '{');
    }
    let mut entries: Vec<(Identifier<'s>, Object<'s>)> = Vec::new();
    let mut remaining = opened;
    proof {
        assert(entries_model(entries@) =~= Seq::<(Seq<char>, SpecObject)>::empty());
    }
    loop
        invariant
            remaining@.len() < source@.len(),
            parse_delimited_model(source@) == parse_objects_until_close_model(
                entries_model(entries@),
                remaining@,
            ),
        decreases remaining@.len(),
    {
        let t = trim_leading(remaining);
        proof {
            lemma_trimmed_len(remaining@);
        }
        if t.is_empty() {
            return Err(ParseError::UnexpectedEndOfInput { expected: Some('}') });
        }
        match skip_char(t, '}') {
            Some(after_close) => {
                return Ok((NamedObjects { entries }, after_close));
            },
            None => {},
        }
        match parse_named_object(t) {
            Ok((name, object, new_remaining)) => {
                proof {
                    lemma_parse_named_object_consumes(t@);
                    lemma_until_close_unfolds(entries_model(entries@), remaining@);
                    lemma_entries_model_push(entries@, (name, object));
                }
                entries.push((name, object));
                remaining = new_remaining;
            },
            Err(e) => {
                return Err(e);
            },
        }
    }
}

/// Skips whitespace, then parses named objects up to the end of the input.
pub fn parse_remaining_named_objects<'s>(source: Source<'s>) -> (r: ParseResult<
    's,
    (NamedObjects<'s>, Source<'s>),
>)
    ensures
        match r {
            Ok((objects, rest)) => parse_remaining_model(Seq::empty(), source@) == Ok::<
                _,
                SpecParseError,
            >((objects@, rest@)),
            Err(e) => parse_remaining_model(Seq::empty(), source@) == Err::<
                (Seq<(Seq<char>, SpecObject)>, Seq<char>),
                _,
            >(e@),
        },
{
    let mut entries: Vec<(Identifier<'s>, Object<'s>)> = Vec::new();
    let mut remaining = source;
    proof {
        assert(entries_model(entries@) =~= Seq::<(Seq<char>, SpecObject)>::empty());
    }
    loop
        invariant
            parse_remaining_model(Seq::empty(), source@) == parse_remaining_model(
                entries_model(entries@),
                remaining@,
            ),
        decreases remaining@.len(),
    {
        let t = trim_leading(remaining);
        proof {
            lemma_trimmed_len(remaining@);
        }
        if t.is_empty() {
            return Ok((NamedObjects { entries }, t));
        }
        match parse_named_object(t) {
            Ok((name, object, new_remaining)) => {
                proof {
                    lemma_parse_named_object_consumes(t@);
                    lemma_entries_model_push(entries@, (name, object));
                }
                entries.push((name, object));
                remaining = new_remaining;
            },
            Err(e) => {
                return Err(e);
            },
        }
    }
}

/// Parses a whole document: its named objects, in declaration order.
pub fn parse<'s>(source: Source<'s>) -> (r: ParseResult<'s, NamedObjects<'s>>)
    ensures
        match r {
            Ok(objects) => parse_model(source@) == Ok::<_, SpecParseError>(objects@),
            Err(e) => parse_model(source@) == Err::<Seq<(Seq<char>, SpecObject)>, _>(e@),
        },
{
    match parse_remaining_named_objects(source) {
        Ok((objects, _rest)) => Ok(objects),
        Err(e) => Err(e),
    }
}

} // verus!
