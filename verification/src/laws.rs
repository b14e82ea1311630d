//! Laws that relate the parser and the flattening engine, proved once and
//! for all inputs they speak of.

use vstd::prelude::*;

use crate::grammar::{ident_pred, not_char, parse_identifier_model, parse_model,
    parse_named_object_model, parse_object_model, parse_remaining_model, scan_while, skip_model,
    parse_string_literal_model};
use crate::model::{deep_fill_model, entries_size, fill_model, flat_entries_wf, flat_wf,
    object_size, resolve_object_model, resolve_reference_model, resolve_world_model, world_fuel,
    SpecCompound, SpecFlat, SpecObject, SpecResolveError};
use crate::text::{is_space, lemma_prefix_len_split, trimmed};

verus! {

/// Whatever resolving one object yields is well formed.
proof fn lemma_resolve_object_wf(o: SpecObject, world: Seq<(Seq<char>, SpecObject)>, fuel: nat)
    ensures
        resolve_object_model(o, world, fuel) matches Ok(f) ==> flat_wf(f),
    decreases fuel, object_size(o), 2nat,
{
    match o {
        SpecObject::Literal(_) => {},
        SpecObject::Compound(c) => {
            if c.overrides.len() == 0 && crate::model::ref_has_target(c.prototype) {
                if fuel > 0 {
                    if let Ok(target) = resolve_reference_model(world, c.prototype) {
                        lemma_resolve_object_wf(target, world, (fuel - 1) as nat);
                    }
                }
            } else {
                lemma_deep_fill_wf(c, world, Seq::empty(), fuel);
            }
        },
    }
}

/// Deep-filling well-formed properties keeps them well formed.
proof fn lemma_deep_fill_wf(
    c: SpecCompound,
    world: Seq<(Seq<char>, SpecObject)>,
    acc: Seq<(Seq<char>, SpecFlat)>,
    fuel: nat,
)
    requires
        flat_entries_wf(acc),
    ensures
        deep_fill_model(c, world, acc, fuel) matches Ok(filled) ==> flat_entries_wf(filled),
    decreases fuel, entries_size(c.overrides) + 1, 1nat,
{
    lemma_fill_wf(c.overrides, world, acc, fuel);
    if let Ok(filled) = fill_model(c.overrides, world, acc, fuel) {
        if crate::model::ref_has_target(c.prototype) && fuel > 0 {
            if let Ok(SpecObject::Compound(proto)) = resolve_reference_model(world, c.prototype) {
                lemma_deep_fill_wf(proto, world, filled, (fuel - 1) as nat);
            }
        }
    }
}

/// Filling well-formed properties keeps them well formed: a name is only
/// ever inserted while it is still absent.
proof fn lemma_fill_wf(
    entries: Seq<(Seq<char>, SpecObject)>,
    world: Seq<(Seq<char>, SpecObject)>,
    acc: Seq<(Seq<char>, SpecFlat)>,
    fuel: nat,
)
    requires
        flat_entries_wf(acc),
    ensures
        fill_model(entries, world, acc, fuel) matches Ok(filled) ==> flat_entries_wf(filled),
    decreases fuel, entries_size(entries), 0nat,
{
    if entries.len() > 0 {
        let name = entries[0].0;
        let rest = entries.subrange(1, entries.len() as int);
        if crate::model::flat_has_key(acc, name) {
            lemma_fill_wf(rest, world, acc, fuel);
        } else {
            lemma_resolve_object_wf(entries[0].1, world, fuel);
            if let Ok(value) = resolve_object_model(entries[0].1, world, fuel) {
                let grown = acc.push((name, value));
                assert(forall|i: int| 0 <= i < acc.len() ==> acc[i].0 != name);
                assert(flat_entries_wf(grown));
                lemma_fill_wf(rest, world, grown, fuel);
            }
        }
    }
}

/// Every compound that resolution hands out holds each property name once,
/// at every depth: a resolved value never has a duplicated key.
pub proof fn lemma_resolution_wf(world: Seq<(Seq<char>, SpecObject)>, fuel: nat)
    ensures
        resolve_world_model(world, fuel) matches Ok(f) ==> flat_wf(f),
{
    lemma_fill_wf(world, world, Seq::empty(), fuel);
}

/// Resolving one object is insensitive to the hop budget as long as the
/// budget is not exhausted.
proof fn lemma_resolve_object_fuel(
    o: SpecObject,
    world: Seq<(Seq<char>, SpecObject)>,
    lean: nat,
    rich: nat,
)
    requires
        lean <= rich,
        resolve_object_model(o, world, lean) != Err::<SpecFlat, _>(
            SpecResolveError::CyclicReference,
        ),
    ensures
        resolve_object_model(o, world, rich) == resolve_object_model(o, world, lean),
    decreases lean, object_size(o), 2nat,
{
    match o {
        SpecObject::Literal(_) => {},
        SpecObject::Compound(c) => {
            if c.overrides.len() == 0 && crate::model::ref_has_target(c.prototype) {
                if let Ok(target) = resolve_reference_model(world, c.prototype) {
                    lemma_resolve_object_fuel(target, world, (lean - 1) as nat, (rich - 1) as nat);
                }
            } else {
                lemma_deep_fill_fuel(c, world, Seq::empty(), lean, rich);
            }
        },
    }
}

/// Deep-filling is insensitive to the hop budget as long as the budget is
/// not exhausted.
proof fn lemma_deep_fill_fuel(
    c: SpecCompound,
    world: Seq<(Seq<char>, SpecObject)>,
    acc: Seq<(Seq<char>, SpecFlat)>,
    lean: nat,
    rich: nat,
)
    requires
        lean <= rich,
        deep_fill_model(c, world, acc, lean) != Err::<Seq<(Seq<char>, SpecFlat)>, _>(
            SpecResolveError::CyclicReference,
        ),
    ensures
        deep_fill_model(c, world, acc, rich) == deep_fill_model(c, world, acc, lean),
    decreases lean, entries_size(c.overrides) + 1, 1nat,
{
    lemma_fill_fuel(c.overrides, world, acc, lean, rich);
    if let Ok(filled) = fill_model(c.overrides, world, acc, lean) {
        if crate::model::ref_has_target(c.prototype) {
            if let Ok(SpecObject::Compound(proto)) = resolve_reference_model(world, c.prototype) {
                lemma_deep_fill_fuel(proto, world, filled, (lean - 1) as nat, (rich - 1) as nat);
            }
        }
    }
}

/// Filling is insensitive to the hop budget as long as the budget is not
/// exhausted.
proof fn lemma_fill_fuel(
    entries: Seq<(Seq<char>, SpecObject)>,
    world: Seq<(Seq<char>, SpecObject)>,
    acc: Seq<(Seq<char>, SpecFlat)>,
    lean: nat,
    rich: nat,
)
    requires
        lean <= rich,
        fill_model(entries, world, acc, lean) != Err::<Seq<(Seq<char>, SpecFlat)>, _>(
            SpecResolveError::CyclicReference,
        ),
    ensures
        fill_model(entries, world, acc, rich) == fill_model(entries, world, acc, lean),
    decreases lean, entries_size(entries), 0nat,
{
    if entries.len() > 0 {
        let name = entries[0].0;
        let rest = entries.subrange(1, entries.len() as int);
        if crate::model::flat_has_key(acc, name) {
            lemma_fill_fuel(rest, world, acc, lean, rich);
        } else {
            lemma_resolve_object_fuel(entries[0].1, world, lean, rich);
            if let Ok(value) = resolve_object_model(entries[0].1, world, lean) {
                lemma_fill_fuel(rest, world, acc.push((name, value)), lean, rich);
            }
        }
    }
}

/// The hop budget is inert until it runs out: a resolution that does not
/// report a cycle returns the same result under any larger budget.  The
/// exact budget that [`crate::model::world_fuel`] grants can therefore
/// change no outcome but [`SpecResolveError::CyclicReference`] itself.
pub proof fn lemma_resolution_fuel_inert(
    world: Seq<(Seq<char>, SpecObject)>,
    lean: nat,
    rich: nat,
)
    requires
        lean <= rich,
        resolve_world_model(world, lean) != Err::<SpecFlat, _>(SpecResolveError::CyclicReference),
    ensures
        resolve_world_model(world, rich) == resolve_world_model(world, lean),
{
    lemma_fill_fuel(world, world, Seq::empty(), lean, rich);
}

/// Resolution has no hidden state: any two resolutions of the same
/// document, as [`crate::flat::FlatObject::build_from_parsed`] promises
/// them, are structurally equal.  Resolving twice with no mutation in
/// between cannot differ.
pub proof fn lemma_resolution_repeatable(
    world: Seq<(Seq<char>, SpecObject)>,
    first: Result<SpecFlat, SpecResolveError>,
    second: Result<SpecFlat, SpecResolveError>,
)
    requires
        first == resolve_world_model(world, world_fuel(world)),
        second == resolve_world_model(world, world_fuel(world)),
    ensures
        first == second,
{
}

/// Round trip on literals: for any text without an embedded quote, parsing
/// `name: '<text>'` and resolving the document yields exactly the compound
/// `{ name -> <text> }`.
pub proof fn lemma_literal_round_trip(text: Seq<char>)
    requires
        forall|i: int| 0 <= i < text.len() ==> text[i] != '\'',
    ensures
        ({
            let input = seq!['n', 'a', 'm', 'e', ':', ' ', '\''] + text + seq!['\''];
            let name = seq!['n', 'a', 'm', 'e'];
            &&& parse_model(input) == Ok::<_, crate::model::SpecParseError>(
                seq![(name, SpecObject::Literal(text))],
            )
            &&& resolve_world_model(
                seq![(name, SpecObject::Literal(text))],
                world_fuel(seq![(name, SpecObject::Literal(text))]),
            ) == Ok::<_, SpecResolveError>(
                SpecFlat::Compound(seq![(name, SpecFlat::Literal(text))]),
            )
        }),
{
    let head = seq!['n', 'a', 'm', 'e', ':', ' ', '\''];
    let tail = seq!['\''];
    let input = head + text + tail;
    let name = seq!['n', 'a', 'm', 'e'];

    // the input starts with an identifier: `name`
    assert(input.len() == text.len() + 8);
    assert(input[0] == 'n' && input[1] == 'a' && input[2] == 'm' && input[3] == 'e');
    assert(input[4] == ':' && input[5] == ' ' && input[6] == '\'');
    assert(trimmed(input) == input);
    assert(forall|j: int| 0 <= j < 4 ==> #[trigger] ident_pred()(input[j]));
    assert(!ident_pred()(input[4]));
    crate::text::lemma_prefix_len_at(input, ident_pred(), 4);
    let r1 = input.subrange(4, input.len() as int);
    assert(input.subrange(0, 4) =~= name);
    assert(parse_identifier_model(input) == (name, r1));

    // then its `:` separator
    assert(r1[0] == ':' && !is_space(':'));
    assert(trimmed(r1) == r1);
    let r2 = r1.subrange(1, r1.len() as int);
    assert(crate::grammar::expect_model(r1, ':') == Ok::<_, crate::model::SpecParseError>(r2));

    // then the quoted literal, whose text holds no quote
    assert(r2[0] == ' ' && is_space(' '));
    let r2t = r2.subrange(1, r2.len() as int);
    assert(trimmed(r2) == trimmed(r2t));
    assert(r2t[0] == '\'' && !is_space('\''));
    assert(trimmed(r2t) == r2t);
    let opened = r2t.subrange(1, r2t.len() as int);
    assert(skip_model(r2, '\'') == Some(opened));
    assert(opened =~= text + tail);
    assert(forall|j: int| 0 <= j < text.len() ==> #[trigger] not_char('\'')(text[j]));
    assert(!not_char('\'')(tail[0]));
    lemma_prefix_len_split(text, tail, not_char('\''));
    assert(opened.subrange(0, text.len() as int) =~= text);
    let closing = opened.subrange(text.len() as int, opened.len() as int);
    assert(closing =~= tail);
    assert(scan_while(opened, not_char('\'')) == (text, closing));
    let after = closing.subrange(1, 1);
    assert(after =~= Seq::<char>::empty());
    assert(parse_string_literal_model(r2) == Ok::<_, crate::model::SpecParseError>(
        (Some(text), after),
    ));

    // so the whole document is one named literal
    assert(parse_object_model(r2) == Ok::<_, crate::model::SpecParseError>(
        (SpecObject::Literal(text), after),
    ));
    assert(parse_named_object_model(input) == Ok::<_, crate::model::SpecParseError>(
        ((name, SpecObject::Literal(text)), after),
    ));
    assert(trimmed(after) == after);
    let world = seq![(name, SpecObject::Literal(text))];
    assert(Seq::<(Seq<char>, SpecObject)>::empty().push((name, SpecObject::Literal(text)))
        =~= world);
    assert(parse_remaining_model(world, after) == Ok::<_, crate::model::SpecParseError>(
        (world, after),
    ));
    assert(parse_remaining_model(Seq::empty(), input) == Ok::<_, crate::model::SpecParseError>(
        (world, after),
    ));

    // resolving it turns the one literal into the one property
    let fuel = world_fuel(world);
    assert(!crate::model::flat_has_key(Seq::empty(), name));
    assert(resolve_object_model(SpecObject::Literal(text), world, fuel) == Ok::<
        _,
        SpecResolveError,
    >(SpecFlat::Literal(text)));
    assert(world.subrange(1, 1) =~= Seq::<(Seq<char>, SpecObject)>::empty());
    assert(Seq::<(Seq<char>, SpecFlat)>::empty().push((name, SpecFlat::Literal(text)))
        =~= seq![(name, SpecFlat::Literal(text))]);
    assert(fill_model(
        Seq::<(Seq<char>, SpecObject)>::empty(),
        world,
        seq![(name, SpecFlat::Literal(text))],
        fuel,
    ) == Ok::<_, SpecResolveError>(seq![(name, SpecFlat::Literal(text))]));
    assert(fill_model(world, world, Seq::empty(), fuel) == Ok::<_, SpecResolveError>(
        seq![(name, SpecFlat::Literal(text))],
    ));
}

} // verus!
