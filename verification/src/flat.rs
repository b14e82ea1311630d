//! The flattening engine: turns a parsed tree of named objects into an
//! inheritance-free value tree.
//!
//! Every compound is merged with its whole prototype chain, every alias and
//! dotted reference is resolved against the document itself, and the result
//! holds nothing but string values and fully-merged mappings.  Each function
//! is proved to return exactly what the resolution model in
//! [`crate::model`] states.

use vstd::prelude::*;
use vstd::string::StrSliceExecFns;

use crate::grammar::parse_model;
use crate::model::{clamped, deep_fill_model, entries_size, fill_model, flat_has_key,
    lemma_entry_size_lt, object_size, resolve_object_model, resolve_world_model, world_fuel,
    SpecFlat, SpecObject, SpecResolveError};
use crate::parse::{entries_model, lemma_entries_model, object_model, Compound, Identifier,
    NamedObjects, Object, ParseResult, ResolveError, ResolveResult, Source};
use crate::text::str_eq;

verus! {

/// A fully resolved compound: property name to resolved value, every key
/// unique, in the order the properties were filled in.
pub type FlatCompound = Vec<(String, FlatObject)>;

/// A fully resolved value: a string, or a mapping with no references and no
/// prototypes left.
#[derive(Eq, PartialEq, Debug)]
pub enum FlatObject {
    StringLiteral(String),
    Compound(FlatCompound),
}

/// The model of a resolved value.
pub open spec fn flat_model(o: FlatObject) -> SpecFlat
    decreases o,
{
    match o {
        FlatObject::StringLiteral(text) => SpecFlat::Literal(text@),
        FlatObject::Compound(entries) => SpecFlat::Compound(flat_entries_model(entries@)),
    }
}

/// The model of a resolved compound's entries.
pub open spec fn flat_entries_model(entries: Seq<(String, FlatObject)>) -> Seq<
    (Seq<char>, SpecFlat),
>
    decreases entries,
{
    if entries.len() == 0 {
        Seq::empty()
    } else {
        seq![(entries[0].0@, flat_model(entries[0].1))] + flat_entries_model(
            entries.subrange(1, entries.len() as int),
        )
    }
}

/// [`flat_entries_model`] maps the entries one for one.
pub proof fn lemma_flat_entries_model(entries: Seq<(String, FlatObject)>)
    ensures
        flat_entries_model(entries).len() == entries.len(),
        forall|i: int|
            0 <= i < entries.len() ==> flat_entries_model(entries)[i] == (
                entries[i].0@,
                flat_model(entries[i].1),
            ),
    decreases entries.len(),
{
    if entries.len() > 0 {
        let rest = entries.subrange(1, entries.len() as int);
        lemma_flat_entries_model(rest);
        assert(forall|i: int|
            1 <= i < entries.len() ==> flat_entries_model(entries)[i] == flat_entries_model(
                rest,
            )[i - 1]);
    }
}

/// [`flat_entries_model`] maps pushing an entry to pushing its model.
pub proof fn lemma_flat_entries_model_push(
    entries: Seq<(String, FlatObject)>,
    entry: (String, FlatObject),
)
    ensures
        flat_entries_model(entries.push(entry)) == flat_entries_model(entries).push(
            (entry.0@, flat_model(entry.1)),
        ),
{
    lemma_flat_entries_model(entries.push(entry));
    lemma_flat_entries_model(entries);
    assert(flat_entries_model(entries.push(entry)) =~= flat_entries_model(entries).push(
        (entry.0@, flat_model(entry.1)),
    ));
}

/// A prefix of a prefix is a prefix.
proof fn lemma_prefix_transitive(
    a: Seq<(String, FlatObject)>,
    b: Seq<(String, FlatObject)>,
    c: Seq<(String, FlatObject)>,
)
    requires
        a.is_prefix_of(b),
        b.is_prefix_of(c),
    ensures
        a.is_prefix_of(c),
{
    assert(c.subrange(0, a.len() as int) =~= c.subrange(0, b.len() as int).subrange(
        0,
        a.len() as int,
    ));
}

impl View for FlatObject {
    type V = SpecFlat;

    open spec fn view(&self) -> SpecFlat {
        flat_model(*self)
    }
}

/// Saturating addition: the sum, clamped at `u64::MAX`.
fn sat_add(a: u64, b: u64) -> (r: u64)
    ensures
        r as nat == clamped(a as nat + b as nat),
{
    if a > u64::MAX - b {
        u64::MAX
    } else {
        a + b
    }
}

/// Structural weight of a parsed object, saturated at `u64::MAX`.
fn object_weight<'s>(o: &Object<'s>) -> (r: u64)
    ensures
        r as nat == clamped(object_size(o@)),
    decreases object_size(o@),
{
    match o {
        Object::StringLiteral(_) => 1,
        Object::Compound(c) => sat_add(1, entries_weight(&c.overrides.entries)),
    }
}

/// Structural weight of a list of named objects, saturated at `u64::MAX`.
fn entries_weight<'s>(entries: &Vec<(Identifier<'s>, Object<'s>)>) -> (r: u64)
    ensures
        r as nat == clamped(entries_size(entries_model(entries@))),
    decreases entries_size(entries_model(entries@)),
{
    let ghost om = entries_model(entries@);
    proof {
        lemma_entries_model(entries@);
    }
    let n = entries.len();
    let mut total: u64 = 0;
    let mut i: usize = n;
    proof {
        assert(om.subrange(n as int, n as int) =~= Seq::<(Seq<char>, SpecObject)>::empty());
    }
    while i > 0
        invariant
            i <= n,
            n == entries@.len(),
            om == entries_model(entries@),
            om.len() == n,
            forall|j: int| 0 <= j < n ==> om[j] == (entries@[j].0.name@, object_model(
                entries@[j].1,
            )),
            total as nat == clamped(entries_size(om.subrange(i as int, n as int))),
        decreases i,
    {
        i -= 1;
        proof {
            lemma_entry_size_lt(om, i as int);
        }
        let w = object_weight(&entries[i].1);
        total = sat_add(sat_add(1, w), total);
        proof {
            assert(om.subrange(i as int, n as int).subrange(1, (n - i) as int) =~= om.subrange(
                i as int + 1,
                n as int,
            ));
        }
    }
    proof {
        assert(om.subrange(0, n as int) =~= om);
    }
    total
}

/// The hop budget for resolving `parsed`; see [`world_fuel`].
fn resolution_fuel(parsed: &NamedObjects) -> (r: u64)
    ensures
        r as nat == world_fuel(parsed@),
{
    let weight = entries_weight(&parsed.entries);
    if weight <= (u64::MAX - 2) / 2 {
        2 * weight + 2
    } else {
        u64::MAX
    }
}

impl FlatObject {
    /// Parses a whole document and resolves it in one step.
    pub fn parse<'s>(source: Source<'s>) -> (r: ParseResult<'s, ResolveResult<'s, FlatObject>>)
        ensures
            match r {
                Ok(Ok(flat)) => parse_model(source@) matches Ok(world) && resolve_world_model(
                    world,
                    world_fuel(world),
                ) == Ok::<_, SpecResolveError>(flat@),
                Ok(Err(e)) => parse_model(source@) matches Ok(world) && resolve_world_model(
                    world,
                    world_fuel(world),
                ) == Err::<SpecFlat, _>(e@),
                Err(e) => parse_model(source@) == Err::<Seq<(Seq<char>, SpecObject)>, _>(e@),
            },
    {
        match crate::parse::parse(source) {
            Ok(parsed) => Ok(Self::build_from_parsed(&parsed)),
            Err(e) => Err(e),
        }
    }

    /// Resolves a parsed document: every top-level named object flattened,
    /// with the document itself as the world.
    pub fn build_from_parsed<'s>(parsed: &NamedObjects<'s>) -> (r: ResolveResult<'s, FlatObject>)
        ensures
            match r {
                Ok(flat) => resolve_world_model(parsed@, world_fuel(parsed@)) == Ok::<
                    _,
                    SpecResolveError,
                >(flat@),
                Err(e) => resolve_world_model(parsed@, world_fuel(parsed@)) == Err::<
                    SpecFlat,
                    _,
                >(e@),
            },
    {
        let fuel = resolution_fuel(parsed);
        match Self::build_from_parsed_named_objects(parsed, parsed, fuel) {
            Ok(objects) => Ok(FlatObject::Compound(objects)),
            Err(e) => Err(e),
        }
    }

    /// Fills properties from `objects` into `properties`, in declaration
    /// order, skipping names already present; not recursive over
    /// prototypes, so it adds no inherited properties.
    fn fill_named_objects<'s>(
        objects: &NamedObjects<'s>,
        world: &NamedObjects<'s>,
        properties: &mut FlatCompound,
        fuel: u64,
    ) -> (r: ResolveResult<'s, ()>)
        ensures
            match r {
                Ok(_) => fill_model(objects@, world@, flat_entries_model(old(properties)@), fuel as nat)
                    == Ok::<_, SpecResolveError>(flat_entries_model(final(properties)@)),
                Err(e) => fill_model(objects@, world@, flat_entries_model(old(properties)@), fuel as nat)
                    == Err::<Seq<(Seq<char>, SpecFlat)>, _>(e@),
            },
            // on success and on failure alike, properties are only ever
            // added: whatever was present at entry is still there, unmoved
            old(properties)@.is_prefix_of(final(properties)@),
        decreases fuel, entries_size(objects@), 0nat,
    {
        let ghost om = objects@;
        let ghost wm = world@;
        proof {
            lemma_entries_model(objects.entries@);
            assert(om.subrange(0, om.len() as int) =~= om);
        }
        let n = objects.entries.len();
        let mut i: usize = 0;
        while i < n
            invariant
                i <= n,
                n == objects.entries@.len(),
                om == objects@,
                wm == world@,
                om.len() == n,
                forall|j: int| 0 <= j < n ==> om[j] == (objects.entries@[j].0.name@, object_model(
                    objects.entries@[j].1,
                )),
                fill_model(om.subrange(i as int, n as int), wm, flat_entries_model(properties@), fuel as nat)
                    == fill_model(om, wm, flat_entries_model(old(properties)@), fuel as nat),
                old(properties)@.is_prefix_of(properties@),
            decreases n - i,
        {
            let name: &str = objects.entries[i].0.name;
            let ghost props_before = flat_entries_model(properties@);
            proof {
                lemma_flat_entries_model(properties@);
            }
            let m = properties.len();
            let mut k: usize = 0;
            while k < m
                invariant
                    k <= m,
                    m == properties@.len(),
                    name@ == om[i as int].0,
                    i < om.len(),
                    props_before == flat_entries_model(properties@),
                    props_before.len() == m,
                    forall|j: int| 0 <= j < m ==> props_before[j].0 == properties@[j].0@,
                    forall|j: int| 0 <= j < k ==> props_before[j].0 != name@,
                ensures
                    k <= m,
                    forall|j: int| 0 <= j < k ==> props_before[j].0 != name@,
                    k < m ==> props_before[k as int].0 == name@,
                decreases m - k,
            {
                if str_eq(properties[k].0.as_str(), name) {
                    break;
                }
                k += 1;
            }
            let ghost sub = om.subrange(i as int, n as int);
            proof {
                assert(sub[0] == om[i as int]);
                assert(sub.subrange(1, sub.len() as int) =~= om.subrange(i as int + 1, n as int));
            }
            if k == m {
                // the name is not yet present: resolve and insert
                proof {
                    assert(!flat_has_key(flat_entries_model(properties@), name@));
                    lemma_entry_size_lt(om, i as int);
                }
                let value = match Self::build_from_parsed_unnamed_object(
                    &objects.entries[i].1,
                    world,
                    fuel,
                ) {
                    Ok(value) => value,
                    Err(e) => {
                        return Err(e);
                    },
                };
                let ghost props_snapshot = properties@;
                properties.push((name.to_owned(), value));
                proof {
                    lemma_flat_entries_model_push(props_snapshot, properties@.last());
                    assert(props_snapshot.is_prefix_of(properties@));
                    lemma_prefix_transitive(old(properties)@, props_snapshot, properties@);
                }
            } else {
                proof {
                    assert(flat_entries_model(properties@)[k as int].0 == name@);
                    assert(flat_has_key(flat_entries_model(properties@), name@));
                }
            }
            i += 1;
        }
        proof {
            assert(om.subrange(n as int, n as int) =~= Seq::<(Seq<char>, SpecObject)>::empty());
        }
        Ok(())
    }

    /// Builds the fully merged properties of a list of named objects.
    fn build_from_parsed_named_objects<'s>(
        objects: &NamedObjects<'s>,
        world: &NamedObjects<'s>,
        fuel: u64,
    ) -> (r: ResolveResult<'s, FlatCompound>)
        ensures
            match r {
                Ok(properties) => fill_model(objects@, world@, Seq::empty(), fuel as nat) == Ok::<
                    _,
                    SpecResolveError,
                >(flat_entries_model(properties@)),
                Err(e) => fill_model(objects@, world@, Seq::empty(), fuel as nat) == Err::<
                    Seq<(Seq<char>, SpecFlat)>,
                    _,
                >(e@),
            },
    {
        let mut properties: FlatCompound = Vec::new();
        proof {
            assert(flat_entries_model(properties@) =~= Seq::<(Seq<char>, SpecFlat)>::empty());
        }
        match Self::fill_named_objects(objects, world, &mut properties, fuel) {
            Ok(_) => Ok(properties),
            Err(e) => Err(e),
        }
    }

    /// Deep-fills a compound: its own overrides first, then, walking up the
    /// prototype chain, every inherited property not yet present.
    fn deep_fill_parsed_compound<'s>(
        compound: &Compound<'s>,
        world: &NamedObjects<'s>,
        properties: &mut FlatCompound,
        fuel: u64,
    ) -> (r: ResolveResult<'s, ()>)
        ensures
            match r {
                Ok(_) => deep_fill_model(compound@, world@, flat_entries_model(old(properties)@), fuel as nat)
                    == Ok::<_, SpecResolveError>(flat_entries_model(final(properties)@)),
                Err(e) => deep_fill_model(compound@, world@, flat_entries_model(old(properties)@), fuel as nat)
                    == Err::<Seq<(Seq<char>, SpecFlat)>, _>(e@),
            },
            // on success and on failure alike, properties are only ever
            // added: whatever was present at entry is still there, unmoved
            old(properties)@.is_prefix_of(final(properties)@),
        decreases fuel, entries_size(compound@.overrides) + 1, 1nat,
    {
        match Self::fill_named_objects(&compound.overrides, world, properties, fuel) {
            Ok(_) => {},
            Err(e) => {
                return Err(e);
            },
        }
        let ghost after_own = properties@;
        if compound.prototype.has_target() {
            if fuel == 0 {
                return Err(ResolveError::CyclicReference);
            }
            match world.resolve_reference(&compound.prototype) {
                Ok(prototype) => match prototype {
                    Object::Compound(proto_compound) => {
                        let chained = Self::deep_fill_parsed_compound(
                            proto_compound,
                            world,
                            properties,
                            fuel - 1,
                        );
                        proof {
                            lemma_prefix_transitive(old(properties)@, after_own, properties@);
                        }
                        chained
                    },
                    Object::StringLiteral(_) => Ok(()),
                },
                Err(e) => Err(e),
            }
        } else {
            Ok(())
        }
    }

    /// Resolves one object: a literal verbatim, a reference-only compound
    /// by inlining its target, any other compound by deep-filling.
    fn build_from_parsed_unnamed_object<'s>(
        parsed: &Object<'s>,
        world: &NamedObjects<'s>,
        fuel: u64,
    ) -> (r: ResolveResult<'s, FlatObject>)
        ensures
            match r {
                Ok(flat) => resolve_object_model(parsed@, world@, fuel as nat) == Ok::<
                    _,
                    SpecResolveError,
                >(flat@),
                Err(e) => resolve_object_model(parsed@, world@, fuel as nat) == Err::<
                    SpecFlat,
                    _,
                >(e@),
            },
        decreases fuel, object_size(parsed@), 2nat,
    {
        match parsed {
            Object::StringLiteral(literal) => Ok(FlatObject::StringLiteral((*literal).to_owned())),
            Object::Compound(compound) => {
                proof {
                    lemma_entries_model(compound.overrides.entries@);
                }
                if compound.overrides.entries.len() == 0 && compound.prototype.has_target() {
                    // a pure alias: inline whatever its target resolves to
                    if fuel == 0 {
                        return Err(ResolveError::CyclicReference);
                    }
                    match world.resolve_reference(&compound.prototype) {
                        Ok(prototype) => Self::build_from_parsed_unnamed_object(
                            prototype,
                            world,
                            fuel - 1,
                        ),
                        Err(e) => Err(e),
                    }
                } else {
                    let mut properties: FlatCompound = Vec::new();
                    proof {
                        assert(flat_entries_model(properties@) =~= Seq::<
                            (Seq<char>, SpecFlat),
                        >::empty());
                    }
                    match Self::deep_fill_parsed_compound(compound, world, &mut properties, fuel) {
                        Ok(_) => Ok(FlatObject::Compound(properties)),
                        Err(e) => Err(e),
                    }
                }
            },
        }
    }
}

} // verus!
