//! The mathematical model of the language: ghost datatypes mirroring the
//! abstract syntax tree and the resolved value tree, and the rules by which a
//! tree of named objects is flattened into an inheritance-free value tree.
//!
//! The executable parser and resolver in [`crate::parse`] and [`crate::flat`]
//! are specified against these definitions.

use vstd::prelude::*;

verus! {

/// Model of a parsed object: a string literal, or a compound holding a
/// prototype reference and its overrides.
pub enum SpecObject {
    Literal(Seq<char>),
    Compound(SpecCompound),
}

/// Model of a compound object.
pub struct SpecCompound {
    /// The dotted path naming the prototype, one segment per identifier;
    /// empty when no prototype was written.
    pub prototype: Seq<Seq<char>>,
    /// The named overrides in declaration order.  Names may repeat; lookup
    /// always finds the first occurrence.
    pub overrides: Seq<(Seq<char>, SpecObject)>,
}

/// Model of a fully resolved value: no references and no prototypes remain.
pub enum SpecFlat {
    Literal(Seq<char>),
    Compound(Seq<(Seq<char>, SpecFlat)>),
}

/// Model of a syntactic failure.
pub enum SpecParseError {
    UnexpectedSymbol { expected: Option<char>, found: Seq<char> },
    UnexpectedEndOfInput { expected: Option<char> },
}

/// Model of a semantic failure during resolution.
pub enum SpecResolveError {
    ReferenceNotFound(Seq<char>),
    StringLiteralHasNoProperties,
    CyclicReference,
}

/// Structural size of an object model; the measure that bounds recursion
/// over the tree.
pub open spec fn object_size(o: SpecObject) -> nat
    decreases o,
{
    match o {
        SpecObject::Literal(_) => 1,
        SpecObject::Compound(c) => 1 + entries_size(c.overrides),
    }
}

/// Structural size of a sequence of named objects.
pub open spec fn entries_size(entries: Seq<(Seq<char>, SpecObject)>) -> nat
    decreases entries,
{
    if entries.len() == 0 {
        0
    } else {
        1 + object_size(entries[0].1) + entries_size(entries.subrange(1, entries.len() as int))
    }
}

/// Each named object weighs less than the whole sequence it belongs to.
pub proof fn lemma_entry_size_lt(entries: Seq<(Seq<char>, SpecObject)>, i: int)
    requires
        0 <= i < entries.len(),
    ensures
        object_size(entries[i].1) < entries_size(entries),
    decreases entries.len(),
{
    if i > 0 {
        let rest = entries.subrange(1, entries.len() as int);
        lemma_entry_size_lt(rest, i - 1);
    }
}

/// The object under the first occurrence of `name`, if any: later entries of
/// the same name are shadowed.
pub open spec fn lookup(entries: Seq<(Seq<char>, SpecObject)>, name: Seq<char>) -> Option<
    SpecObject,
>
    decreases entries.len(),
{
    if entries.len() == 0 {
        None
    } else if entries[0].0 == name {
        Some(entries[0].1)
    } else {
        lookup(entries.subrange(1, entries.len() as int), name)
    }
}

/// Lookup finds the first entry of the name: any match at `i` with no match
/// before it is the result.
pub proof fn lemma_lookup_found(entries: Seq<(Seq<char>, SpecObject)>, name: Seq<char>, i: int)
    requires
        0 <= i < entries.len(),
        entries[i].0 == name,
        forall|j: int| 0 <= j < i ==> entries[j].0 != name,
    ensures
        lookup(entries, name) == Some(entries[i].1),
    decreases i,
{
    if i > 0 {
        lemma_lookup_found(entries.subrange(1, entries.len() as int), name, i - 1);
    }
}

/// Lookup finds nothing when no entry has the name.
pub proof fn lemma_lookup_none(entries: Seq<(Seq<char>, SpecObject)>, name: Seq<char>)
    requires
        forall|j: int| 0 <= j < entries.len() ==> entries[j].0 != name,
    ensures
        lookup(entries, name) is None,
    decreases entries.len(),
{
    if entries.len() > 0 {
        lemma_lookup_none(entries.subrange(1, entries.len() as int), name);
    }
}

/// Whether a reference names anything at all: it must have at least one
/// segment, and not all segments may be empty.
pub open spec fn ref_has_target(names: Seq<Seq<char>>) -> bool {
    names.len() > 0 && exists|i: int| 0 <= i < names.len() && names[i].len() > 0
}

/// Following a dotted reference through the world: the first segment is
/// looked up among `entries`; every further segment descends into the
/// overrides that the found compound itself declares, never into what it
/// only inherits.
pub open spec fn resolve_reference_model(
    entries: Seq<(Seq<char>, SpecObject)>,
    names: Seq<Seq<char>>,
) -> Result<SpecObject, SpecResolveError>
    recommends
        names.len() > 0,
    decreases names.len(),
{
    match lookup(entries, names[0]) {
        None => Err(SpecResolveError::ReferenceNotFound(names[0])),
        Some(found) => if names.len() <= 1 {
            Ok(found)
        } else {
            match found {
                SpecObject::Literal(_) => Err(SpecResolveError::StringLiteralHasNoProperties),
                SpecObject::Compound(c) => resolve_reference_model(
                    c.overrides,
                    names.subrange(1, names.len() as int),
                ),
            }
        },
    }
}

/// Whether a resolved compound already holds a property of this name.
pub open spec fn flat_has_key(entries: Seq<(Seq<char>, SpecFlat)>, name: Seq<char>) -> bool {
    exists|i: int| 0 <= i < entries.len() && entries[i].0 == name
}

/// The value under `name` in a resolved compound, at its first occurrence.
pub open spec fn flat_lookup(entries: Seq<(Seq<char>, SpecFlat)>, name: Seq<char>) -> Option<
    SpecFlat,
>
    decreases entries.len(),
{
    if entries.len() == 0 {
        None
    } else if entries[0].0 == name {
        Some(entries[0].1)
    } else {
        flat_lookup(entries.subrange(1, entries.len() as int), name)
    }
}

/// No property name occurs twice.
pub open spec fn flat_keys_unique(entries: Seq<(Seq<char>, SpecFlat)>) -> bool {
    forall|i: int, j: int| 0 <= i < j < entries.len() ==> entries[i].0 != entries[j].0
}

/// A well-formed resolved value: every compound in it, at any depth, holds
/// each property name once.
pub open spec fn flat_wf(f: SpecFlat) -> bool
    decreases f,
{
    match f {
        SpecFlat::Literal(_) => true,
        SpecFlat::Compound(entries) => flat_entries_wf(entries),
    }
}

/// Well-formed entries of a resolved compound: unique names, well-formed
/// values.
pub open spec fn flat_entries_wf(entries: Seq<(Seq<char>, SpecFlat)>) -> bool
    decreases entries,
{
    flat_keys_unique(entries) && (forall|i: int|
        0 <= i < entries.len() ==> flat_wf(#[trigger] entries[i].1))
}

/// Resolving one object against the world.
///
/// A compound without overrides but with a prototype is a pure alias and
/// resolves to whatever its target resolves to; any other compound is
/// deep-filled from its own overrides and then from its prototype chain.
/// `fuel` bounds the number of alias and prototype hops a single recursion
/// path may take; a document whose references form a cycle exhausts it and
/// fails with [`SpecResolveError::CyclicReference`], where an unguarded
/// recursion would never return.
pub open spec fn resolve_object_model(
    o: SpecObject,
    world: Seq<(Seq<char>, SpecObject)>,
    fuel: nat,
) -> Result<SpecFlat, SpecResolveError>
    decreases fuel, object_size(o), 2nat,
{
    match o {
        SpecObject::Literal(text) => Ok(SpecFlat::Literal(text)),
        SpecObject::Compound(c) => {
            if c.overrides.len() == 0 && ref_has_target(c.prototype) {
                if fuel == 0 {
                    Err(SpecResolveError::CyclicReference)
                } else {
                    match resolve_reference_model(world, c.prototype) {
                        Err(e) => Err(e),
                        Ok(target) => resolve_object_model(target, world, (fuel - 1) as nat),
                    }
                }
            } else {
                match deep_fill_model(c, world, Seq::empty(), fuel) {
                    Err(e) => Err(e),
                    Ok(entries) => Ok(SpecFlat::Compound(entries)),
                }
            }
        },
    }
}

/// Deep-filling a compound: first its own overrides, then, if it has a
/// prototype, the prototype's properties, walking up the chain.  A property
/// is only ever inserted under a name that is still absent, so nearer
/// declarations win over farther ancestors.  A prototype that resolves to a
/// string literal contributes nothing.
pub open spec fn deep_fill_model(
    c: SpecCompound,
    world: Seq<(Seq<char>, SpecObject)>,
    acc: Seq<(Seq<char>, SpecFlat)>,
    fuel: nat,
) -> Result<Seq<(Seq<char>, SpecFlat)>, SpecResolveError>
    decreases fuel, entries_size(c.overrides) + 1, 1nat,
{
    match fill_model(c.overrides, world, acc, fuel) {
        Err(e) => Err(e),
        Ok(filled) => if ref_has_target(c.prototype) {
            if fuel == 0 {
                Err(SpecResolveError::CyclicReference)
            } else {
                match resolve_reference_model(world, c.prototype) {
                    Err(e) => Err(e),
                    Ok(SpecObject::Compound(proto)) => deep_fill_model(
                        proto,
                        world,
                        filled,
                        (fuel - 1) as nat,
                    ),
                    Ok(SpecObject::Literal(_)) => Ok(filled),
                }
            }
        } else {
            Ok(filled)
        },
    }
}

/// Filling properties from a list of named objects, in declaration order,
/// skipping names that the accumulating result already holds.
pub open spec fn fill_model(
    entries: Seq<(Seq<char>, SpecObject)>,
    world: Seq<(Seq<char>, SpecObject)>,
    acc: Seq<(Seq<char>, SpecFlat)>,
    fuel: nat,
) -> Result<Seq<(Seq<char>, SpecFlat)>, SpecResolveError>
    decreases fuel, entries_size(entries), 0nat,
{
    if entries.len() == 0 {
        Ok(acc)
    } else {
        let name = entries[0].0;
        let rest = entries.subrange(1, entries.len() as int);
        if flat_has_key(acc, name) {
            fill_model(rest, world, acc, fuel)
        } else {
            match resolve_object_model(entries[0].1, world, fuel) {
                Err(e) => Err(e),
                Ok(value) => fill_model(rest, world, acc.push((name, value)), fuel),
            }
        }
    }
}

/// The whole document resolved: every top-level named object flattened, with
/// the document itself as the world that references are resolved against.
pub open spec fn resolve_world_model(world: Seq<(Seq<char>, SpecObject)>, fuel: nat) -> Result<
    SpecFlat,
    SpecResolveError,
> {
    match fill_model(world, world, Seq::empty(), fuel) {
        Err(e) => Err(e),
        Ok(entries) => Ok(SpecFlat::Compound(entries)),
    }
}

/// A structural size, saturated so that it fits a machine word.
pub open spec fn clamped(n: nat) -> nat {
    if n <= u64::MAX {
        n
    } else {
        u64::MAX as nat
    }
}

/// The hop budget granted when resolving a document: two hops for every
/// object in it.  Two facts bound how far a resolution can need to go: a
/// run of prototype hops within one value repeats no compound unless it
/// repeats forever, since each hop is determined by the compound alone; and
/// one recursion path never starts resolving the same object as a fresh
/// value twice, since the inner resolution would repeat the outer one
/// without end.  A path may still pass through one compound more than once
/// between fresh values, so this budget is a policy, not a theorem: a
/// document whose chains stay within it resolves fully, and any other --
/// every cyclic one in particular -- is reported as
/// [`SpecResolveError::CyclicReference`] rather than pursued without end.
/// By `crate::laws::lemma_resolution_fuel_inert`, the exact figure can
/// change no outcome but that report.  Saturated at `u64::MAX` so the
/// executable resolver can carry it in a machine word.
pub open spec fn world_fuel(world: Seq<(Seq<char>, SpecObject)>) -> nat {
    if clamped(entries_size(world)) <= (u64::MAX - 2) / 2 {
        2 * clamped(entries_size(world)) + 2
    } else {
        u64::MAX as nat
    }
}

} // verus!
