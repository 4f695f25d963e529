//! Reference resolution: turns a raw schema document into a resolved,
//! cycle-capable schema graph.
//!
//! Resolution keeps a table from reference name to the arena index already
//! assigned to it. Meeting a reference for the first time reserves an arena
//! slot, records the name, and only then descends into the definition's
//! body, so a definition that references its own name (or an ancestor's) is
//! satisfied by a table lookup instead of endless recursion. The slot is
//! overwritten in place once the body is resolved; its index never changes.
//!
//! The whole algorithm is mirrored by fuel-bounded specification functions;
//! the executable resolver provably computes what the mirror converges to,
//! which makes resolution a mathematical function of the document alone.

use vstd::prelude::*;

verus! {

use crate::assoc::lookup_assoc;
use crate::assoc::lookup_pairs;
use crate::schema::NO_ITEMS;
use crate::schema::Schema;
use crate::schema::SourceTypeInfo;
use crate::schema::SpecSchema;
use crate::schema::SpecTypeInfo;
use crate::schema::TypeInfo;
use crate::schema::node_wf;
use crate::schema::pairs_view;
use crate::schema::props_size;
use crate::schema::schema_wf;
use crate::schema::size;
use crate::text::has_prefix;
use crate::text::str_has_prefix;
use crate::value::Type;

/// A fatal schema configuration error, found at resolution time.
#[derive(Debug, PartialEq, Eq)]
pub enum SchemaError {
    /// A reference string that does not have the `#/definitions/` form.
    MalformedRef(String),
    /// A reference whose name is absent from the document's definitions.
    UnknownDefinition(String),
}

/// The configuration errors at the specification level.
pub enum SpecError {
    Malformed(Seq<char>),
    Unknown(Seq<char>),
}

/// Whether a reported error carries the same information as the
/// specification-level error.
pub open spec fn err_matches(e: SchemaError, se: SpecError) -> bool {
    match (e, se) {
        (SchemaError::MalformedRef(s), SpecError::Malformed(q)) => s@ == q,
        (SchemaError::UnknownDefinition(s), SpecError::Unknown(q)) => s@ == q,
        _ => false,
    }
}

/// The required prefix of every reference string.
pub open spec fn ref_marker() -> Seq<char> {
    "#/definitions/"@
}

/// Resolution state: the arena built so far, and the table from reference
/// name to the arena index reserved for it.
#[verifier::ext_equal]
pub struct RState {
    pub types: Seq<SpecTypeInfo>,
    pub resolved: Seq<(Seq<char>, nat)>,
}

/// The state resolution starts from.
pub open spec fn init_state() -> RState {
    RState { types: Seq::empty(), resolved: Seq::empty() }
}

/// The placeholder stored in a freshly reserved arena slot until the
/// definition's body is resolved.
pub open spec fn placeholder() -> SpecTypeInfo {
    SpecTypeInfo { type_: Type::null, properties: Seq::empty(), items: None }
}

/// The outcome of a fuel-bounded resolution step: out of fuel, a fatal
/// configuration error, or a new state with the step's result.
pub enum Res<A> {
    Spent,
    Fail(SpecError),
    Done(RState, A),
}

/// Resolves one raw node to an arena index: an inline node is translated and
/// appended; a reference is served from the table when already known, and
/// otherwise reserves a slot before descending into its definition.
pub open spec fn spec_resolve(
    source: SourceTypeInfo,
    defs: Seq<(String, SourceTypeInfo)>,
    st: RState,
    fuel: nat,
) -> Res<nat>
    decreases fuel,
{
    if fuel == 0 {
        Res::Spent
    } else if source.ref_@.len() == 0 {
        match spec_translate(source, defs, st, (fuel - 1) as nat) {
            Res::Done(st1, node) => Res::Done(
                RState { types: st1.types.push(node), resolved: st1.resolved },
                st1.types.len(),
            ),
            Res::Fail(e) => Res::Fail(e),
            Res::Spent => Res::Spent,
        }
    } else if !has_prefix(source.ref_@, ref_marker()) {
        Res::Fail(SpecError::Malformed(source.ref_@))
    } else {
        let name = source.ref_@.skip(ref_marker().len() as int);
        match lookup_pairs(st.resolved, name) {
            Some(idx) => Res::Done(st, idx),
            None => match lookup_assoc(defs, name) {
                None => Res::Fail(SpecError::Unknown(name)),
                Some(def) => {
                    let idx = st.types.len();
                    let st1 = RState {
                        types: st.types.push(placeholder()),
                        resolved: st.resolved.push((name, idx)),
                    };
                    match spec_translate(def, defs, st1, (fuel - 1) as nat) {
                        Res::Done(st2, node) => Res::Done(
                            RState { types: st2.types.update(idx as int, node), resolved: st2.resolved },
                            idx,
                        ),
                        Res::Fail(e) => Res::Fail(e),
                        Res::Spent => Res::Spent,
                    }
                },
            },
        }
    }
}

/// Translates an inline node: its element type first, then its properties in
/// declaration order.
pub open spec fn spec_translate(
    source: SourceTypeInfo,
    defs: Seq<(String, SourceTypeInfo)>,
    st: RState,
    fuel: nat,
) -> Res<SpecTypeInfo>
    decreases fuel,
{
    if fuel == 0 {
        Res::Spent
    } else {
        match source.items {
            Some(b) => match spec_resolve(*b, defs, st, (fuel - 1) as nat) {
                Res::Done(st1, idx) => spec_finish_node(
                    source,
                    defs,
                    st1,
                    Some(idx),
                    (fuel - 1) as nat,
                ),
                Res::Fail(e) => Res::Fail(e),
                Res::Spent => Res::Spent,
            },
            None => spec_finish_node(source, defs, st, None, (fuel - 1) as nat),
        }
    }
}

/// Finishes an inline node once its element type is known: resolves the
/// properties and assembles the resolved node.
pub open spec fn spec_finish_node(
    source: SourceTypeInfo,
    defs: Seq<(String, SourceTypeInfo)>,
    st: RState,
    items: Option<nat>,
    fuel: nat,
) -> Res<SpecTypeInfo>
    decreases fuel,
{
    if fuel == 0 {
        Res::Spent
    } else {
        match spec_resolve_props(source.properties@, defs, st, (fuel - 1) as nat) {
            Res::Done(st1, props) => Res::Done(
                st1,
                SpecTypeInfo { type_: source.type_, properties: props, items },
            ),
            Res::Fail(e) => Res::Fail(e),
            Res::Spent => Res::Spent,
        }
    }
}

/// Resolves a property list, left to right, to name-and-index pairs.
pub open spec fn spec_resolve_props(
    props: Seq<(String, SourceTypeInfo)>,
    defs: Seq<(String, SourceTypeInfo)>,
    st: RState,
    fuel: nat,
) -> Res<Seq<(Seq<char>, nat)>>
    decreases fuel,
{
    if fuel == 0 {
        Res::Spent
    } else if props.len() == 0 {
        Res::Done(st, Seq::empty())
    } else {
        match spec_resolve_props(props.drop_last(), defs, st, (fuel - 1) as nat) {
            Res::Done(st1, rest) => match spec_resolve(props.last().1, defs, st1, (fuel - 1) as nat) {
                Res::Done(st2, idx) => Res::Done(st2, rest.push((props.last().0@, idx))),
                Res::Fail(e) => Res::Fail(e),
                Res::Spent => Res::Spent,
            },
            Res::Fail(e) => Res::Fail(e),
            Res::Spent => Res::Spent,
        }
    }
}

/// Once a resolution step converges, more fuel cannot change its outcome.
proof fn lemma_resolve_fuel(
    source: SourceTypeInfo,
    defs: Seq<(String, SourceTypeInfo)>,
    st: RState,
    fuel: nat,
    fuel2: nat,
)
    requires
        !(spec_resolve(source, defs, st, fuel) is Spent),
        fuel <= fuel2,
    ensures
        spec_resolve(source, defs, st, fuel2) == spec_resolve(source, defs, st, fuel),
    decreases fuel,
{
    if source.ref_@.len() == 0 {
        if !(spec_translate(source, defs, st, (fuel - 1) as nat) is Spent) {
            lemma_translate_fuel(source, defs, st, (fuel - 1) as nat, (fuel2 - 1) as nat);
        }
    } else if has_prefix(source.ref_@, ref_marker()) {
        let name = source.ref_@.skip(ref_marker().len() as int);
        if lookup_pairs(st.resolved, name) is None && lookup_assoc(defs, name) is Some {
            let def = lookup_assoc(defs, name)->Some_0;
            let st1 = RState {
                types: st.types.push(placeholder()),
                resolved: st.resolved.push((name, st.types.len())),
            };
            if !(spec_translate(def, defs, st1, (fuel - 1) as nat) is Spent) {
                lemma_translate_fuel(def, defs, st1, (fuel - 1) as nat, (fuel2 - 1) as nat);
            }
        }
    }
}

/// Once an inline translation converges, more fuel cannot change its
/// outcome.
proof fn lemma_translate_fuel(
    source: SourceTypeInfo,
    defs: Seq<(String, SourceTypeInfo)>,
    st: RState,
    fuel: nat,
    fuel2: nat,
)
    requires
        !(spec_translate(source, defs, st, fuel) is Spent),
        fuel <= fuel2,
    ensures
        spec_translate(source, defs, st, fuel2) == spec_translate(source, defs, st, fuel),
    decreases fuel,
{
    match source.items {
        Some(b) => {
            if !(spec_resolve(*b, defs, st, (fuel - 1) as nat) is Spent) {
                lemma_resolve_fuel(*b, defs, st, (fuel - 1) as nat, (fuel2 - 1) as nat);
                match spec_resolve(*b, defs, st, (fuel - 1) as nat) {
                    Res::Done(st1, idx) => {
                        if !(spec_finish_node(source, defs, st1, Some(idx), (fuel - 1) as nat)
                            is Spent) {
                            lemma_finish_fuel(
                                source,
                                defs,
                                st1,
                                Some(idx),
                                (fuel - 1) as nat,
                                (fuel2 - 1) as nat,
                            );
                        }
                    },
                    _ => {},
                }
            }
        },
        None => {
            if !(spec_finish_node(source, defs, st, None, (fuel - 1) as nat) is Spent) {
                lemma_finish_fuel(source, defs, st, None, (fuel - 1) as nat, (fuel2 - 1) as nat);
            }
        },
    }
}

/// Once node assembly converges, more fuel cannot change its outcome.
proof fn lemma_finish_fuel(
    source: SourceTypeInfo,
    defs: Seq<(String, SourceTypeInfo)>,
    st: RState,
    items: Option<nat>,
    fuel: nat,
    fuel2: nat,
)
    requires
        !(spec_finish_node(source, defs, st, items, fuel) is Spent),
        fuel <= fuel2,
    ensures
        spec_finish_node(source, defs, st, items, fuel2) == spec_finish_node(
            source,
            defs,
            st,
            items,
            fuel,
        ),
    decreases fuel,
{
    if !(spec_resolve_props(source.properties@, defs, st, (fuel - 1) as nat) is Spent) {
        lemma_props_fuel(source.properties@, defs, st, (fuel - 1) as nat, (fuel2 - 1) as nat);
    }
}

/// Once a property list's resolution converges, more fuel cannot change its
/// outcome.
proof fn lemma_props_fuel(
    props: Seq<(String, SourceTypeInfo)>,
    defs: Seq<(String, SourceTypeInfo)>,
    st: RState,
    fuel: nat,
    fuel2: nat,
)
    requires
        !(spec_resolve_props(props, defs, st, fuel) is Spent),
        fuel <= fuel2,
    ensures
        spec_resolve_props(props, defs, st, fuel2) == spec_resolve_props(props, defs, st, fuel),
    decreases fuel,
{
    if props.len() == 0 {
    } else {
        if !(spec_resolve_props(props.drop_last(), defs, st, (fuel - 1) as nat) is Spent) {
            lemma_props_fuel(props.drop_last(), defs, st, (fuel - 1) as nat, (fuel2 - 1) as nat);
            match spec_resolve_props(props.drop_last(), defs, st, (fuel - 1) as nat) {
                Res::Done(st1, rest) => {
                    if !(spec_resolve(props.last().1, defs, st1, (fuel - 1) as nat) is Spent) {
                        lemma_resolve_fuel(
                            props.last().1,
                            defs,
                            st1,
                            (fuel - 1) as nat,
                            (fuel2 - 1) as nat,
                        );
                    }
                },
                _ => {},
            }
        }
    }
}

/// How many definitions have no table entry yet: the quantity that shrinks
/// whenever a new reference name is recorded, which is what terminates
/// resolution of self-referential documents.
pub open spec fn unresolved_count(
    defs: Seq<(String, SourceTypeInfo)>,
    resolved: Seq<(Seq<char>, nat)>,
) -> nat
    decreases defs.len(),
{
    if defs.len() == 0 {
        0nat
    } else {
        (if lookup_pairs(resolved, defs[0].0@) is Some {
            0nat
        } else {
            1nat
        }) + unresolved_count(defs.drop_first(), resolved)
    }
}

/// A key found in a table is still found, unchanged, after the table grows
/// at its end.
proof fn lemma_lookup_pairs_extend<T>(r: Seq<(Seq<char>, T)>, ext: Seq<(Seq<char>, T)>, k: Seq<char>)
    requires
        lookup_pairs(r, k) is Some,
    ensures
        lookup_pairs(r + ext, k) == lookup_pairs(r, k),
    decreases r.len(),
{
    assert((r + ext).len() > 0);
    assert((r + ext)[0] == r[0]);
    if r[0].0 == k {
    } else {
        assert((r + ext).drop_first() =~= r.drop_first() + ext);
        lemma_lookup_pairs_extend(r.drop_first(), ext, k);
    }
}

/// A key appended to a table is found there when it was absent before.
proof fn lemma_lookup_pairs_push_new<T>(r: Seq<(Seq<char>, T)>, k: Seq<char>, v: T)
    requires
        lookup_pairs(r, k) is None,
    ensures
        lookup_pairs(r.push((k, v)), k) == Some(v),
    decreases r.len(),
{
    if r.len() == 0 {
        assert(r.push((k, v))[0] == (k, v));
    } else {
        assert(r.push((k, v))[0] == r[0]);
        assert(r.push((k, v)).drop_first() =~= r.drop_first().push((k, v)));
        lemma_lookup_pairs_push_new(r.drop_first(), k, v);
    }
}

/// Appending one key leaves every other key's lookup unchanged.
proof fn lemma_lookup_pairs_push_other<T>(r: Seq<(Seq<char>, T)>, k: Seq<char>, v: T, k2: Seq<char>)
    requires
        k2 != k,
    ensures
        lookup_pairs(r.push((k, v)), k2) == lookup_pairs(r, k2),
    decreases r.len(),
{
    if r.len() == 0 {
        assert(r.push((k, v))[0] == (k, v));
        assert(r.push((k, v)).drop_first() =~= Seq::<(Seq<char>, T)>::empty());
        assert(lookup_pairs(Seq::<(Seq<char>, T)>::empty(), k2) is None);
    } else {
        assert(r.push((k, v))[0] == r[0]);
        assert(r.push((k, v)).drop_first() =~= r.drop_first().push((k, v)));
        lemma_lookup_pairs_push_other(r.drop_first(), k, v, k2);
    }
}

/// Growing the table never increases the number of unresolved definitions.
proof fn lemma_unresolved_extend(
    defs: Seq<(String, SourceTypeInfo)>,
    r: Seq<(Seq<char>, nat)>,
    ext: Seq<(Seq<char>, nat)>,
)
    ensures
        unresolved_count(defs, r + ext) <= unresolved_count(defs, r),
    decreases defs.len(),
{
    if defs.len() == 0 {
    } else {
        if lookup_pairs(r, defs[0].0@) is Some {
            lemma_lookup_pairs_extend(r, ext, defs[0].0@);
        }
        lemma_unresolved_extend(defs.drop_first(), r, ext);
    }
}

/// Growing the table along a prefix never increases the number of
/// unresolved definitions.
proof fn lemma_unresolved_prefix(
    defs: Seq<(String, SourceTypeInfo)>,
    r1: Seq<(Seq<char>, nat)>,
    r2: Seq<(Seq<char>, nat)>,
)
    requires
        r1.is_prefix_of(r2),
    ensures
        unresolved_count(defs, r2) <= unresolved_count(defs, r1),
{
    assert(r2 =~= r1 + r2.skip(r1.len() as int));
    lemma_unresolved_extend(defs, r1, r2.skip(r1.len() as int));
}

/// Recording a definition's name for the first time strictly shrinks the
/// number of unresolved definitions.
proof fn lemma_unresolved_insert(
    defs: Seq<(String, SourceTypeInfo)>,
    r: Seq<(Seq<char>, nat)>,
    k: Seq<char>,
    v: nat,
)
    requires
        lookup_pairs(r, k) is None,
        lookup_assoc(defs, k) is Some,
    ensures
        unresolved_count(defs, r.push((k, v))) < unresolved_count(defs, r),
    decreases defs.len(),
{
    if defs[0].0@ == k {
        lemma_lookup_pairs_push_new(r, k, v);
        assert(r.push((k, v)) =~= r + seq![(k, v)]);
        lemma_unresolved_extend(defs.drop_first(), r, seq![(k, v)]);
    } else {
        lemma_lookup_pairs_push_other(r, k, v, defs[0].0@);
        lemma_unresolved_insert(defs.drop_first(), r, k, v);
    }
}

/// Every property's subtree is strictly smaller than the property list it
/// stands in.
proof fn lemma_props_size_elem(s: Seq<(String, SourceTypeInfo)>, j: int)
    requires
        0 <= j < s.len(),
    ensures
        size(s[j].1) < props_size(s),
    decreases j,
{
    if j == 0 {
    } else {
        lemma_props_size_elem(s.drop_first(), j - 1);
    }
}

/// A name-to-index table and its mathematical view find the same bindings.
proof fn lemma_table_lookup(t: Seq<(String, usize)>, k: Seq<char>)
    ensures
        match lookup_assoc(t, k) {
            Some(v) => lookup_pairs(pairs_view(t), k) == Some(v as nat),
            None => lookup_pairs(pairs_view(t), k) is None,
        },
    decreases t.len(),
{
    if t.len() == 0 {
    } else {
        assert(pairs_view(t)[0] == (t[0].0@, t[0].1 as nat));
        assert(pairs_view(t).drop_first() =~= pairs_view(t.drop_first()));
        lemma_table_lookup(t.drop_first(), k);
    }
}

/// A document resolves to this schema: the specification mirror, started on
/// the document and its definitions from the empty state, converges on the
/// schema's arena and root.
pub open spec fn resolves_doc(doc: SourceTypeInfo, s: SpecSchema) -> bool {
    exists|fuel: nat, table: Seq<(Seq<char>, nat)>|
        spec_resolve(doc, doc.definitions@, init_state(), fuel) == Res::<nat>::Done(
            RState { types: s.types, resolved: table },
            s.root,
        )
}

/// A document fails to resolve with this configuration error.
pub open spec fn fails_doc(doc: SourceTypeInfo, se: SpecError) -> bool {
    exists|fuel: nat| spec_resolve(doc, doc.definitions@, init_state(), fuel) == Res::<nat>::Fail(se)
}

/// Law: resolution has no hidden state. Two resolutions of the same
/// document yield structurally identical schemas: the same arena, node for
/// node and index for index, and the same root.
pub proof fn lemma_resolution_deterministic(doc: SourceTypeInfo, s1: SpecSchema, s2: SpecSchema)
    requires
        resolves_doc(doc, s1),
        resolves_doc(doc, s2),
    ensures
        s1 == s2,
{
    let (f1, t1) = choose|fuel: nat, table: Seq<(Seq<char>, nat)>|
        spec_resolve(doc, doc.definitions@, init_state(), fuel) == Res::<nat>::Done(
            RState { types: s1.types, resolved: table },
            s1.root,
        );
    let (f2, t2) = choose|fuel: nat, table: Seq<(Seq<char>, nat)>|
        spec_resolve(doc, doc.definitions@, init_state(), fuel) == Res::<nat>::Done(
            RState { types: s2.types, resolved: table },
            s2.root,
        );
    let m = if f1 >= f2 {
        f1
    } else {
        f2
    };
    lemma_resolve_fuel(doc, doc.definitions@, init_state(), f1, m);
    lemma_resolve_fuel(doc, doc.definitions@, init_state(), f2, m);
    assert(s1 =~= s2);
}

/// Law: a document cannot both resolve and fail.
pub proof fn lemma_resolution_consistent(doc: SourceTypeInfo, s: SpecSchema, se: SpecError)
    requires
        resolves_doc(doc, s),
    ensures
        !fails_doc(doc, se),
{
    let (f1, t1) = choose|fuel: nat, table: Seq<(Seq<char>, nat)>|
        spec_resolve(doc, doc.definitions@, init_state(), fuel) == Res::<nat>::Done(
            RState { types: s.types, resolved: table },
            s.root,
        );
    assert forall|fuel: nat|
        spec_resolve(doc, doc.definitions@, init_state(), fuel) != Res::<nat>::Fail(se) by {
        if spec_resolve(doc, doc.definitions@, init_state(), fuel) == Res::<nat>::Fail(se) {
            let m = if f1 >= fuel {
                f1
            } else {
                fuel
            };
            lemma_resolve_fuel(doc, doc.definitions@, init_state(), f1, m);
            lemma_resolve_fuel(doc, doc.definitions@, init_state(), fuel, m);
        }
    }
}

/// Law: sharing. Resolving a reference whose name the table already holds
/// returns the identical arena index that name was given before, and leaves
/// the state, in particular the arena, exactly as it was. Every repeated
/// reference to one definition is served by lookup, never by re-resolution,
/// so references never grow the arena beyond one node per definition.
pub proof fn lemma_shared_reference(
    source: SourceTypeInfo,
    defs: Seq<(String, SourceTypeInfo)>,
    st: RState,
    fuel: nat,
)
    requires
        has_prefix(source.ref_@, ref_marker()),
        lookup_pairs(st.resolved, source.ref_@.skip(ref_marker().len() as int)) is Some,
        fuel >= 1,
    ensures
        spec_resolve(source, defs, st, fuel) == Res::<nat>::Done(
            st,
            lookup_pairs(st.resolved, source.ref_@.skip(ref_marker().len() as int))->Some_0,
        ),
{
    reveal_strlit("#/definitions/");
    assert(source.ref_@.len() >= ref_marker().len());
    assert(ref_marker().len() == 14);
}

/// Law: resolution does not grow the arena without bound. However many
/// times the document references its definitions, directly or cyclically,
/// the arena holds at most one node per inline document node plus one per
/// definition node: its length is bounded by the document's weighted size
/// plus the definitions' total budget, both functions of the document alone.
pub proof fn lemma_arena_bounded(doc: SourceTypeInfo, s: SpecSchema)
    requires
        resolves_doc(doc, s),
    ensures
        s.types.len() <= size(doc) + defs_budget(doc.definitions@, Seq::empty()),
{
    let (f, table) = choose|fuel: nat, table: Seq<(Seq<char>, nat)>|
        spec_resolve(doc, doc.definitions@, init_state(), fuel) == Res::<nat>::Done(
            RState { types: s.types, resolved: table },
            s.root,
        );
    lemma_resolve_bound(doc, doc.definitions@, init_state(), f);
}

/// The weighted size of the definitions that have no table entry yet: each
/// unresolved definition may still cost one reserved slot plus the nodes of
/// its body.
pub open spec fn defs_budget(
    defs: Seq<(String, SourceTypeInfo)>,
    resolved: Seq<(Seq<char>, nat)>,
) -> nat
    decreases defs.len(),
{
    if defs.len() == 0 {
        0nat
    } else {
        (if lookup_pairs(resolved, defs[0].0@) is Some {
            0nat
        } else {
            1 + size(defs[0].1)
        }) + defs_budget(defs.drop_first(), resolved)
    }
}

/// Growing the table never increases the remaining budget.
proof fn lemma_budget_extend(
    defs: Seq<(String, SourceTypeInfo)>,
    r: Seq<(Seq<char>, nat)>,
    ext: Seq<(Seq<char>, nat)>,
)
    ensures
        defs_budget(defs, r + ext) <= defs_budget(defs, r),
    decreases defs.len(),
{
    if defs.len() == 0 {
    } else {
        if lookup_pairs(r, defs[0].0@) is Some {
            lemma_lookup_pairs_extend(r, ext, defs[0].0@);
        }
        lemma_budget_extend(defs.drop_first(), r, ext);
    }
}

/// Recording a definition's name for the first time releases that
/// definition's full budget.
proof fn lemma_budget_insert(
    defs: Seq<(String, SourceTypeInfo)>,
    r: Seq<(Seq<char>, nat)>,
    k: Seq<char>,
    v: nat,
)
    requires
        lookup_pairs(r, k) is None,
        lookup_assoc(defs, k) is Some,
    ensures
        defs_budget(defs, r.push((k, v))) + 1 + size(lookup_assoc(defs, k)->Some_0)
            <= defs_budget(defs, r),
    decreases defs.len(),
{
    if defs[0].0@ == k {
        lemma_lookup_pairs_push_new(r, k, v);
        assert(r.push((k, v)) =~= r + seq![(k, v)]);
        lemma_budget_extend(defs.drop_first(), r, seq![(k, v)]);
    } else {
        lemma_lookup_pairs_push_other(r, k, v, defs[0].0@);
        lemma_budget_insert(defs.drop_first(), r, k, v);
    }
}

/// The weighted size of a property list, peeled from the back.
proof fn lemma_props_size_snoc(s: Seq<(String, SourceTypeInfo)>)
    requires
        s.len() > 0,
    ensures
        props_size(s) == props_size(s.drop_last()) + 1 + size(s.last().1),
    decreases s.len(),
{
    if s.len() == 1 {
        assert(s.drop_first() =~= Seq::<(String, SourceTypeInfo)>::empty());
        assert(s.drop_last() =~= Seq::<(String, SourceTypeInfo)>::empty());
    } else {
        lemma_props_size_snoc(s.drop_first());
        assert(s.drop_first().drop_last() =~= s.drop_last().drop_first());
        assert(s.drop_first().last() == s.last());
        assert(s.drop_last()[0] == s[0]);
    }
}

/// A converged resolution step appends at most the weighted size of what it
/// traverses, less whatever budget the step released.
proof fn lemma_resolve_bound(
    source: SourceTypeInfo,
    defs: Seq<(String, SourceTypeInfo)>,
    st: RState,
    fuel: nat,
)
    requires
        spec_resolve(source, defs, st, fuel) is Done,
    ensures
        spec_resolve(source, defs, st, fuel)->Done_0.types.len() + defs_budget(
            defs,
            spec_resolve(source, defs, st, fuel)->Done_0.resolved,
        ) <= st.types.len() + defs_budget(defs, st.resolved) + size(source),
        spec_resolve(source, defs, st, fuel)->Done_0.types.len() >= st.types.len(),
    decreases fuel,
{
    if source.ref_@.len() == 0 {
        lemma_translate_bound(source, defs, st, (fuel - 1) as nat);
        let st1 = spec_translate(source, defs, st, (fuel - 1) as nat)->Done_0;
        assert(spec_resolve(source, defs, st, fuel)->Done_0.types.len() == st1.types.len() + 1);
        assert(spec_resolve(source, defs, st, fuel)->Done_0.resolved == st1.resolved);
    } else {
        let name = source.ref_@.skip(ref_marker().len() as int);
        match lookup_pairs(st.resolved, name) {
            Some(_) => {},
            None => {
                let def = lookup_assoc(defs, name)->Some_0;
                let st1 = RState {
                    types: st.types.push(placeholder()),
                    resolved: st.resolved.push((name, st.types.len())),
                };
                lemma_budget_insert(defs, st.resolved, name, st.types.len());
                assert(defs_budget(defs, st1.resolved) + 1 + size(def) <= defs_budget(
                    defs,
                    st.resolved,
                ));
                lemma_translate_bound(def, defs, st1, (fuel - 1) as nat);
                let st2 = spec_translate(def, defs, st1, (fuel - 1) as nat)->Done_0;
                assert(st2.types.len() + defs_budget(defs, st2.resolved) + 1 <= st1.types.len()
                    + defs_budget(defs, st1.resolved) + size(def));
                assert(spec_resolve(source, defs, st, fuel) == Res::<nat>::Done(
                    RState {
                        types: st2.types.update(
                            st.types.len() as int,
                            spec_translate(def, defs, st1, (fuel - 1) as nat)->Done_1,
                        ),
                        resolved: st2.resolved,
                    },
                    st.types.len(),
                ));
                assert(st2.types.update(
                    st.types.len() as int,
                    spec_translate(def, defs, st1, (fuel - 1) as nat)->Done_1,
                ).len() == st2.types.len());
                assert(spec_resolve(source, defs, st, fuel)->Done_0.types.len()
                    == st2.types.len());
                assert(spec_resolve(source, defs, st, fuel)->Done_0.resolved == st2.resolved);
                assert(st1.types.len() == st.types.len() + 1);
                assert(size(source) >= 1);
            },
        }
    }
}

/// A converged inline translation appends strictly fewer nodes than the
/// node's weighted size, less whatever budget it released.
proof fn lemma_translate_bound(
    source: SourceTypeInfo,
    defs: Seq<(String, SourceTypeInfo)>,
    st: RState,
    fuel: nat,
)
    requires
        spec_translate(source, defs, st, fuel) is Done,
    ensures
        spec_translate(source, defs, st, fuel)->Done_0.types.len() + defs_budget(
            defs,
            spec_translate(source, defs, st, fuel)->Done_0.resolved,
        ) + 1 <= st.types.len() + defs_budget(defs, st.resolved) + size(source),
        spec_translate(source, defs, st, fuel)->Done_0.types.len() >= st.types.len(),
    decreases fuel,
{
    match source.items {
        Some(b) => {
            lemma_resolve_bound(*b, defs, st, (fuel - 1) as nat);
            let st1 = spec_resolve(*b, defs, st, (fuel - 1) as nat)->Done_0;
            let idx = spec_resolve(*b, defs, st, (fuel - 1) as nat)->Done_1;
            lemma_finish_bound(source, defs, st1, Some(idx), (fuel - 1) as nat);
        },
        None => {
            lemma_finish_bound(source, defs, st, None, (fuel - 1) as nat);
        },
    }
}

/// Node assembly appends at most the weighted size of the node's property
/// list, less whatever budget it released.
proof fn lemma_finish_bound(
    source: SourceTypeInfo,
    defs: Seq<(String, SourceTypeInfo)>,
    st: RState,
    items: Option<nat>,
    fuel: nat,
)
    requires
        spec_finish_node(source, defs, st, items, fuel) is Done,
    ensures
        spec_finish_node(source, defs, st, items, fuel)->Done_0.types.len() + defs_budget(
            defs,
            spec_finish_node(source, defs, st, items, fuel)->Done_0.resolved,
        ) <= st.types.len() + defs_budget(defs, st.resolved) + props_size(source.properties@),
        spec_finish_node(source, defs, st, items, fuel)->Done_0.types.len() >= st.types.len(),
    decreases fuel,
{
    lemma_props_bound(source.properties@, defs, st, (fuel - 1) as nat);
}

/// Resolving a property list appends at most its weighted size, less
/// whatever budget it released.
proof fn lemma_props_bound(
    props: Seq<(String, SourceTypeInfo)>,
    defs: Seq<(String, SourceTypeInfo)>,
    st: RState,
    fuel: nat,
)
    requires
        spec_resolve_props(props, defs, st, fuel) is Done,
    ensures
        spec_resolve_props(props, defs, st, fuel)->Done_0.types.len() + defs_budget(
            defs,
            spec_resolve_props(props, defs, st, fuel)->Done_0.resolved,
        ) <= st.types.len() + defs_budget(defs, st.resolved) + props_size(props),
        spec_resolve_props(props, defs, st, fuel)->Done_0.types.len() >= st.types.len(),
    decreases fuel,
{
    if props.len() == 0 {
    } else {
        lemma_props_bound(props.drop_last(), defs, st, (fuel - 1) as nat);
        let st1 = spec_resolve_props(props.drop_last(), defs, st, (fuel - 1) as nat)->Done_0;
        lemma_resolve_bound(props.last().1, defs, st1, (fuel - 1) as nat);
        lemma_props_size_snoc(props);
    }
}

/// A binding found by lookup is one of the table's own entries.
proof fn lemma_lookup_pairs_element<T>(r: Seq<(Seq<char>, T)>, k: Seq<char>)
    requires
        lookup_pairs(r, k) is Some,
    ensures
        exists|i: int|
            0 <= i < r.len() && (#[trigger] r[i]).1 == lookup_pairs(r, k)->Some_0,
    decreases r.len(),
{
    if r.len() == 0 {
    } else if r[0].0 == k {
        assert(r[0].1 == lookup_pairs(r, k)->Some_0);
    } else {
        lemma_lookup_pairs_element(r.drop_first(), k);
        let i = choose|i: int|
            0 <= i < r.drop_first().len() && (#[trigger] r.drop_first()[i]).1 == lookup_pairs(
                r.drop_first(),
                k,
            )->Some_0;
        assert(r[i + 1].1 == lookup_pairs(r, k)->Some_0);
    }
}

/// A failing prefix of a property list makes the whole list fail the same
/// way.
proof fn lemma_props_fail_prefix(
    props: Seq<(String, SourceTypeInfo)>,
    k: int,
    defs: Seq<(String, SourceTypeInfo)>,
    st: RState,
    f: nat,
    se: SpecError,
)
    requires
        0 <= k <= props.len(),
        spec_resolve_props(props.subrange(0, k), defs, st, f) == Res::<
            Seq<(Seq<char>, nat)>,
        >::Fail(se),
    ensures
        exists|fuel: nat|
            spec_resolve_props(props, defs, st, fuel) == Res::<Seq<(Seq<char>, nat)>>::Fail(se),
    decreases props.len() - k,
{
    if k == props.len() {
        assert(props.subrange(0, k) =~= props);
    } else {
        assert(props.subrange(0, k + 1).drop_last() =~= props.subrange(0, k));
        assert(spec_resolve_props(props.subrange(0, k + 1), defs, st, f + 1) == Res::<
            Seq<(Seq<char>, nat)>,
        >::Fail(se));
        lemma_props_fail_prefix(props, k + 1, defs, st, f + 1, se);
    }
}

/// Prefixes compose.
proof fn lemma_prefix_trans<T>(s1: Seq<T>, s2: Seq<T>, s3: Seq<T>)
    requires
        s1.is_prefix_of(s2),
        s2.is_prefix_of(s3),
    ensures
        s1.is_prefix_of(s3),
{
    assert(s1 =~= s3.subrange(0, s1.len() as int));
}

/// The resolver's working state: the table from reference name to assigned
/// arena index, and the arena being built.
struct Translator {
    resolved: Vec<(String, usize)>,
    types: Vec<TypeInfo>,
}

impl View for Translator {
    type V = RState;

    closed spec fn view(&self) -> RState {
        RState {
            types: self.types@.map_values(|t: TypeInfo| t@),
            resolved: pairs_view(self.resolved@),
        }
    }
}

/// Mid-resolution well-formedness: every index a partial node or a table
/// entry holds is already inside the arena.
spec fn state_wf(st: RState) -> bool {
    &&& forall|i: int| 0 <= i < st.types.len() ==> node_wf(#[trigger] st.types[i], st.types.len())
    &&& forall|i: int|
        0 <= i < st.resolved.len() ==> (#[trigger] st.resolved[i]).1 < st.types.len()
}

impl Translator {
    /// Resolves one raw node to an arena index, as the specification mirror
    /// describes: an inline node is translated and appended; a reference is
    /// served from the table, or reserves its slot before descending into
    /// its definition and backfilling.
    fn resolve(&mut self, source: &SourceTypeInfo, defs: &Vec<(String, SourceTypeInfo)>) -> (r:
        Result<usize, SchemaError>)
        requires
            state_wf(old(self)@),
        ensures
            match r {
                Ok(idx) => {
                    &&& exists|fuel: nat|
                        spec_resolve(*source, defs@, old(self)@, fuel) == Res::<nat>::Done(
                            final (self)@,
                            idx as nat,
                        )
                    &&& old(self)@.resolved.is_prefix_of(final (self)@.resolved)
                    &&& old(self)@.types.len() <= final (self)@.types.len()
                    &&& (idx as nat) < final (self)@.types.len()
                    &&& state_wf(final (self)@)
                },
                Err(e) => exists|fuel: nat, se: SpecError|
                    spec_resolve(*source, defs@, old(self)@, fuel) == Res::<nat>::Fail(se)
                        && err_matches(e, se),
            },
        decreases unresolved_count(defs@, self@.resolved), size(*source), 2nat,
    {
        let ghost st0 = self@;
        if source.ref_.as_str().is_empty() {
            let node = match self.translate(source, defs) {
                Ok(n) => n,
                Err(e) => {
                    proof {
                        let (f, se) = choose|f: nat, se: SpecError|
                            spec_translate(*source, defs@, st0, f) == Res::<SpecTypeInfo>::Fail(se)
                                && err_matches(e, se);
                        assert(spec_resolve(*source, defs@, st0, f + 1) == Res::<nat>::Fail(se));
                    }
                    return Err(e);
                },
            };
            let ghost st1 = self@;
            let idx = self.types.len();
            self.types.push(node);
            proof {
                let f = choose|f: nat|
                    spec_translate(*source, defs@, st0, f) == Res::<SpecTypeInfo>::Done(st1, node@);
                assert(self@.types =~= st1.types.push(node@));
                assert(self@ =~= RState { types: st1.types.push(node@), resolved: st1.resolved });
                assert(idx as nat == st1.types.len());
                assert(spec_resolve(*source, defs@, st0, f + 1) == Res::<nat>::Done(
                    self@,
                    idx as nat,
                ));
                assert(state_wf(self@));
            }
            Ok(idx)
        } else {
            let marker = "#/definitions/";
            if !str_has_prefix(source.ref_.as_str(), marker) {
                let err = SchemaError::MalformedRef(source.ref_.clone());
                proof {
                    let se = SpecError::Malformed(source.ref_@);
                    assert(spec_resolve(*source, defs@, st0, 1) == Res::<nat>::Fail(se));
                    assert(err_matches(err, se));
                }
                return Err(err);
            }
            let ml = marker.unicode_len();
            let sl = source.ref_.as_str().unicode_len();
            let name_str = source.ref_.as_str().substring_char(ml, sl);
            let name = String::from_str(name_str);
            let ghost nm = source.ref_@.skip(ref_marker().len() as int);
            proof {
                assert(name@ =~= nm);
            }
            let cached: Option<usize> = match crate::assoc::get_assoc(&self.resolved, &name) {
                Some(i) => Some(*i),
                None => None,
            };
            proof {
                lemma_table_lookup(self.resolved@, name@);
            }
            match cached {
                Some(idx) => {
                    proof {
                        assert(lookup_pairs(st0.resolved, nm) == Some(idx as nat));
                        assert(spec_resolve(*source, defs@, st0, 1) == Res::<nat>::Done(
                            st0,
                            idx as nat,
                        ));
                        lemma_lookup_pairs_element(st0.resolved, nm);
                        assert(st0.resolved.is_prefix_of(st0.resolved)) by {
                            assert(st0.resolved =~= st0.resolved.subrange(
                                0,
                                st0.resolved.len() as int,
                            ));
                        }
                    }
                    Ok(idx)
                },
                None => {
                    let def = match crate::assoc::get_assoc(defs, &name) {
                        Some(d) => d,
                        None => {
                            let err = SchemaError::UnknownDefinition(name);
                            proof {
                                let se = SpecError::Unknown(nm);
                                assert(spec_resolve(*source, defs@, st0, 1) == Res::<nat>::Fail(se));
                                assert(err_matches(err, se));
                            }
                            return Err(err);
                        },
                    };
                    let idx = self.types.len();
                    let ph = TypeInfo { type_: Type::null, properties: Vec::new(), items: NO_ITEMS };
                    proof {
                        assert(ph@ =~= placeholder());
                    }
                    self.types.push(ph);
                    self.resolved.push((name, idx));
                    let ghost st1 = self@;
                    proof {
                        assert(st1.types =~= st0.types.push(placeholder()));
                        assert(st1.resolved =~= st0.resolved.push((nm, idx as nat)));
                        assert(st1 =~= RState {
                            types: st0.types.push(placeholder()),
                            resolved: st0.resolved.push((nm, idx as nat)),
                        });
                        lemma_unresolved_insert(defs@, st0.resolved, nm, idx as nat);
                        assert(state_wf(st1));
                    }
                    let node = match self.translate(def, defs) {
                        Ok(n) => n,
                        Err(e) => {
                            proof {
                                let (f, se) = choose|f: nat, se: SpecError|
                                    spec_translate(*def, defs@, st1, f) == Res::<
                                        SpecTypeInfo,
                                    >::Fail(se) && err_matches(e, se);
                                assert(spec_resolve(*source, defs@, st0, f + 1) == Res::<
                                    nat,
                                >::Fail(se));
                            }
                            return Err(e);
                        },
                    };
                    let ghost st2 = self@;
                    self.types[idx] = node;
                    proof {
                        let f = choose|f: nat|
                            spec_translate(*def, defs@, st1, f) == Res::<SpecTypeInfo>::Done(
                                st2,
                                node@,
                            );
                        assert(self@.types =~= st2.types.update(idx as int, node@));
                        assert(self@ =~= RState {
                            types: st2.types.update(idx as int, node@),
                            resolved: st2.resolved,
                        });
                        assert(spec_resolve(*source, defs@, st0, f + 1) == Res::<nat>::Done(
                            self@,
                            idx as nat,
                        ));
                        assert(st0.resolved.is_prefix_of(st1.resolved)) by {
                            assert(st0.resolved =~= st1.resolved.subrange(
                                0,
                                st0.resolved.len() as int,
                            ));
                        }
                        lemma_prefix_trans(st0.resolved, st1.resolved, st2.resolved);
                        assert(state_wf(self@));
                    }
                    Ok(idx)
                },
            }
        }
    }

    /// Translates an inline node: resolves its element type, then each
    /// property in declaration order, and assembles the resolved node.
    fn translate(&mut self, source: &SourceTypeInfo, defs: &Vec<(String, SourceTypeInfo)>) -> (r:
        Result<TypeInfo, SchemaError>)
        requires
            state_wf(old(self)@),
        ensures
            match r {
                Ok(node) => {
                    &&& exists|fuel: nat|
                        spec_translate(*source, defs@, old(self)@, fuel) == Res::<
                            SpecTypeInfo,
                        >::Done(final (self)@, node@)
                    &&& old(self)@.resolved.is_prefix_of(final (self)@.resolved)
                    &&& old(self)@.types.len() <= final (self)@.types.len()
                    &&& node_wf(node@, final (self)@.types.len())
                    &&& state_wf(final (self)@)
                },
                Err(e) => exists|fuel: nat, se: SpecError|
                    spec_translate(*source, defs@, old(self)@, fuel) == Res::<SpecTypeInfo>::Fail(
                        se,
                    ) && err_matches(e, se),
            },
        decreases unresolved_count(defs@, self@.resolved), size(*source), 1nat,
    {
        let ghost st0 = self@;
        let items: usize = match &source.items {
            Some(b) => {
                proof {
                    assert(size(*source.items->Some_0) < size(*source));
                }
                match self.resolve(&**b, defs) {
                    Ok(i) => i,
                    Err(e) => {
                        proof {
                            let (f, se) = choose|f: nat, se: SpecError|
                                spec_resolve(*source.items->Some_0, defs@, st0, f) == Res::<
                                    nat,
                                >::Fail(se) && err_matches(e, se);
                            assert(spec_translate(*source, defs@, st0, f + 1) == Res::<
                                SpecTypeInfo,
                            >::Fail(se));
                        }
                        return Err(e);
                    },
                }
            },
            None => NO_ITEMS,
        };
        let ghost st_items = self@;
        let ghost items_opt: Option<nat> = if source.items is Some {
            Some(items as nat)
        } else {
            None
        };
        proof {
            if source.items is Some {
                assert((items as nat) < st_items.types.len());
                assert(st_items.types.len() == self.types@.len());
                assert(self.types.len() == self.types@.len());
                assert(items != NO_ITEMS);
            }
            assert(st0.resolved.is_prefix_of(st_items.resolved)) by {
                if source.items is None {
                    assert(st0.resolved =~= st_items.resolved.subrange(
                        0,
                        st0.resolved.len() as int,
                    ));
                }
            }
        }
        proof {
            lemma_unresolved_prefix(defs@, st0.resolved, st_items.resolved);
        }
        let mut built: Vec<(String, usize)> = Vec::new();
        let ghost props = source.properties@;
        let mut j: usize = 0;
        let ghost mut fj: nat = 1;
        proof {
            assert(props.subrange(0, 0) =~= Seq::<(String, SourceTypeInfo)>::empty());
            assert(spec_resolve_props(props.subrange(0, 0), defs@, st_items, 1) == Res::<
                Seq<(Seq<char>, nat)>,
            >::Done(st_items, Seq::empty()));
            assert(pairs_view(built@) =~= Seq::<(Seq<char>, nat)>::empty());
        }
        while j < source.properties.len()
            invariant
                state_wf(self@),
                j <= source.properties@.len(),
                props == source.properties@,
                built@.len() == j,
                st0 == old(self)@,
                items_opt == (if source.items is Some {
                    Some(items as nat)
                } else {
                    None::<nat>
                }),
                source.items is Some ==> items != NO_ITEMS,
                source.items is None ==> st_items == st0,
                source.items is Some ==> exists|fuel: nat|
                    spec_resolve(*source.items->Some_0, defs@, st0, fuel) == Res::<nat>::Done(
                        st_items,
                        items as nat,
                    ),
                st0.resolved.is_prefix_of(st_items.resolved),
                st_items.resolved.is_prefix_of(self@.resolved),
                st0.types.len() <= st_items.types.len(),
                st_items.types.len() <= self@.types.len(),
                unresolved_count(defs@, self@.resolved) <= unresolved_count(defs@, st0.resolved),
                spec_resolve_props(props.subrange(0, j as int), defs@, st_items, fj) == Res::<
                    Seq<(Seq<char>, nat)>,
                >::Done(self@, pairs_view(built@)),
                forall|k: int|
                    0 <= k < built@.len() ==> (#[trigger] pairs_view(built@)[k]).1
                        < self@.types.len(),
                items_opt matches Some(i) ==> i < self@.types.len(),
            decreases source.properties@.len() - j,
        {
            let ghost st_j = self@;
            let entry = &source.properties[j];
            proof {
                lemma_props_size_elem(props, j as int);
                assert(size(props[j as int].1) < size(*source));
            }
            let cidx = match self.resolve(&entry.1, defs) {
                Ok(i) => i,
                Err(e) => {
                    proof {
                        let (f, se) = choose|f: nat, se: SpecError|
                            spec_resolve(props[j as int].1, defs@, st_j, f) == Res::<nat>::Fail(se)
                                && err_matches(e, se);
                        let m = if fj >= f {
                            fj
                        } else {
                            f
                        };
                        lemma_props_fuel(props.subrange(0, j as int), defs@, st_items, fj, m);
                        lemma_resolve_fuel(props[j as int].1, defs@, st_j, f, m);
                        assert(props.subrange(0, j + 1).drop_last() =~= props.subrange(
                            0,
                            j as int,
                        ));
                        assert(props.subrange(0, j + 1).last() == props[j as int]);
                        assert(spec_resolve_props(props.subrange(0, j + 1), defs@, st_items, m + 1)
                            == Res::<Seq<(Seq<char>, nat)>>::Fail(se));
                        lemma_props_fail_prefix(props, j + 1, defs@, st_items, m + 1, se);
                        let fp = choose|fuel: nat|
                            spec_resolve_props(props, defs@, st_items, fuel) == Res::<
                                Seq<(Seq<char>, nat)>,
                            >::Fail(se);
                        assert(spec_finish_node(*source, defs@, st_items, items_opt, fp + 1)
                            == Res::<SpecTypeInfo>::Fail(se));
                        if source.items is Some {
                            {
                                let fi = choose|fuel: nat|
                                    spec_resolve(*source.items->Some_0, defs@, st0, fuel) == Res::<
                                        nat,
                                    >::Done(st_items, items as nat);
                                let mm = if fi >= fp + 1 {
                                    fi
                                } else {
                                    fp + 1
                                };
                                lemma_resolve_fuel(*source.items->Some_0, defs@, st0, fi, mm);
                                lemma_finish_fuel(
                                    *source,
                                    defs@,
                                    st_items,
                                    items_opt,
                                    fp + 1,
                                    mm,
                                );
                                assert(spec_translate(*source, defs@, st0, mm + 1) == Res::<
                                    SpecTypeInfo,
                                >::Fail(se));
                            }
                        } else {
                            assert(spec_translate(*source, defs@, st0, fp + 2) == Res::<
                                SpecTypeInfo,
                            >::Fail(se));
                        }
                    }
                    return Err(e);
                },
            };
            let ghost built0 = built@;
            built.push((entry.0.clone(), cidx));
            proof {
                let f = choose|fuel: nat|
                    spec_resolve(props[j as int].1, defs@, st_j, fuel) == Res::<nat>::Done(
                        self@,
                        cidx as nat,
                    );
                let m = if fj >= f {
                    fj
                } else {
                    f
                };
                lemma_props_fuel(props.subrange(0, j as int), defs@, st_items, fj, m);
                lemma_resolve_fuel(props[j as int].1, defs@, st_j, f, m);
                assert(props.subrange(0, j + 1).drop_last() =~= props.subrange(0, j as int));
                assert(props.subrange(0, j + 1).last() == props[j as int]);
                assert(pairs_view(built@) =~= pairs_view(built0).push(
                    (props[j as int].0@, cidx as nat),
                ));
                assert(spec_resolve_props(props.subrange(0, j + 1), defs@, st_items, m + 1)
                    == Res::<Seq<(Seq<char>, nat)>>::Done(self@, pairs_view(built@)));
                fj = m + 1;
                lemma_prefix_trans(st_items.resolved, st_j.resolved, self@.resolved);
                lemma_prefix_trans(st0.resolved, st_items.resolved, self@.resolved);
                lemma_unresolved_prefix(defs@, st0.resolved, self@.resolved);
                assert forall|k: int|
                    0 <= k < built@.len() implies (#[trigger] pairs_view(built@)[k]).1
                    < self@.types.len() by {
                    if k < j {
                        assert(pairs_view(built@)[k] == pairs_view(built0)[k]);
                    } else {
                        assert(pairs_view(built@)[k] == (props[j as int].0@, cidx as nat));
                    }
                }
            }
            j = j + 1;
        }
        let node = TypeInfo { type_: source.type_, properties: built, items };
        proof {
            assert(props.subrange(0, props.len() as int) =~= props);
            assert(node@ =~= SpecTypeInfo {
                type_: source.type_,
                properties: pairs_view(built@),
                items: items_opt,
            });
            if source.items is Some {
                {
                    let fi = choose|fuel: nat|
                        spec_resolve(*source.items->Some_0, defs@, st0, fuel) == Res::<nat>::Done(
                            st_items,
                            items as nat,
                        );
                    let mm = if fi >= fj + 1 {
                        fi
                    } else {
                        fj + 1
                    };
                    lemma_resolve_fuel(*source.items->Some_0, defs@, st0, fi, mm);
                    assert(spec_finish_node(*source, defs@, st_items, items_opt, fj + 1) == Res::<
                        SpecTypeInfo,
                    >::Done(self@, node@));
                    lemma_finish_fuel(*source, defs@, st_items, items_opt, fj + 1, mm);
                    assert(spec_translate(*source, defs@, st0, mm + 1) == Res::<
                        SpecTypeInfo,
                    >::Done(self@, node@));
                }
            } else {
                assert(spec_finish_node(*source, defs@, st_items, items_opt, fj + 1) == Res::<
                    SpecTypeInfo,
                >::Done(self@, node@));
                assert(spec_translate(*source, defs@, st0, fj + 2) == Res::<
                    SpecTypeInfo,
                >::Done(self@, node@));
            }
            assert(node_wf(node@, self@.types.len()));
        }
        Ok(node)
    }
}

/// Resolves a raw schema document into a resolved schema: the document's
/// `definitions` are the reference namespace, and the document itself is the
/// root type. Succeeds exactly when the specification mirror converges, and
/// reports the first malformed or unknown reference otherwise.
pub fn translate(source: &SourceTypeInfo) -> (r: Result<Schema, SchemaError>)
    ensures
        match r {
            Ok(schema) => resolves_doc(*source, schema@) && schema_wf(schema@),
            Err(e) => exists|se: SpecError| fails_doc(*source, se) && err_matches(e, se),
        },
{
    let mut tx = Translator { resolved: Vec::new(), types: Vec::new() };
    proof {
        assert(tx@ =~= init_state());
        assert(state_wf(tx@));
    }
    let root = match tx.resolve(source, &source.definitions) {
        Ok(i) => i,
        Err(e) => {
            proof {
                let (f, se) = choose|f: nat, se: SpecError|
                    spec_resolve(*source, source.definitions@, init_state(), f) == Res::<
                        nat,
                    >::Fail(se) && err_matches(e, se);
                assert(fails_doc(*source, se));
            }
            return Err(e);
        },
    };
    let ghost txv = tx@;
    let schema = Schema { types: tx.types, root };
    proof {
        assert(schema@.types =~= txv.types);
        let f = choose|fuel: nat|
            spec_resolve(*source, source.definitions@, init_state(), fuel) == Res::<nat>::Done(
                txv,
                root as nat,
            );
        assert((RState { types: schema@.types, resolved: txv.resolved }) =~= txv);
        assert(spec_resolve(*source, source.definitions@, init_state(), f) == Res::<nat>::Done(
            RState { types: schema@.types, resolved: txv.resolved },
            schema@.root,
        ));
        assert(resolves_doc(*source, schema@));
        assert(schema_wf(schema@));
    }
    Ok(schema)
}

/// Every array-kinded node in this raw subtree declares an element type.
pub open spec fn items_declared(n: SourceTypeInfo) -> bool
    decreases n,
{
    &&& (n.type_ == Type::array ==> n.items is Some)
    &&& (match n.items {
        Some(b) => items_declared(*b),
        None => true,
    })
    &&& props_items_declared(n.properties@)
}

/// Every array-kinded node under these properties declares an element type.
pub open spec fn props_items_declared(s: Seq<(String, SourceTypeInfo)>) -> bool
    decreases s,
{
    s.len() == 0 || (items_declared(s[0].1) && props_items_declared(s.drop_first()))
}

/// Every array-kinded node in these definitions declares an element type.
pub open spec fn defs_items_declared(defs: Seq<(String, SourceTypeInfo)>) -> bool
    decreases defs,
{
    defs.len() == 0 || (items_declared(defs[0].1) && defs_items_declared(defs.drop_first()))
}

/// Every array-kinded node of the arena carries an element index.
spec fn seq_arrays_ok(types: Seq<SpecTypeInfo>) -> bool {
    forall|i: int|
        0 <= i < types.len() ==> ((#[trigger] types[i]).type_ == Type::array ==> types[i].items
            is Some)
}

/// A definition found by lookup inherits the declaredness of the whole
/// definition list.
proof fn lemma_defs_lookup_declared(defs: Seq<(String, SourceTypeInfo)>, name: Seq<char>)
    requires
        defs_items_declared(defs),
        lookup_assoc(defs, name) is Some,
    ensures
        items_declared(lookup_assoc(defs, name)->Some_0),
    decreases defs.len(),
{
    if defs.len() == 0 {
    } else if defs[0].0@ == name {
    } else {
        lemma_defs_lookup_declared(defs.drop_first(), name);
    }
}

/// An element of a declared property list is declared.
proof fn lemma_props_elem_declared(s: Seq<(String, SourceTypeInfo)>, j: int)
    requires
        props_items_declared(s),
        0 <= j < s.len(),
    ensures
        items_declared(s[j].1),
    decreases j,
{
    if j == 0 {
    } else {
        lemma_props_elem_declared(s.drop_first(), j - 1);
    }
}

/// Resolving a declared node keeps every array node of the arena supplied
/// with an element index.
proof fn lemma_resolve_arrays(
    source: SourceTypeInfo,
    defs: Seq<(String, SourceTypeInfo)>,
    st: RState,
    fuel: nat,
)
    requires
        spec_resolve(source, defs, st, fuel) is Done,
        items_declared(source),
        defs_items_declared(defs),
        seq_arrays_ok(st.types),
    ensures
        seq_arrays_ok(spec_resolve(source, defs, st, fuel)->Done_0.types),
    decreases fuel,
{
    if source.ref_@.len() == 0 {
        lemma_translate_arrays(source, defs, st, (fuel - 1) as nat);
        let st1 = spec_translate(source, defs, st, (fuel - 1) as nat)->Done_0;
        let node = spec_translate(source, defs, st, (fuel - 1) as nat)->Done_1;
        assert(seq_arrays_ok(st1.types.push(node))) by {
            assert(forall|i: int|
                0 <= i < st1.types.len() ==> st1.types.push(node)[i] == st1.types[i]);
            assert(st1.types.push(node)[st1.types.len() as int] == node);
        }
    } else {
        let name = source.ref_@.skip(ref_marker().len() as int);
        match lookup_pairs(st.resolved, name) {
            Some(_) => {},
            None => {
                let def = lookup_assoc(defs, name)->Some_0;
                let st1 = RState {
                    types: st.types.push(placeholder()),
                    resolved: st.resolved.push((name, st.types.len())),
                };
                lemma_defs_lookup_declared(defs, name);
                assert(seq_arrays_ok(st1.types)) by {
                    assert(forall|i: int|
                        0 <= i < st.types.len() ==> st1.types[i] == st.types[i]);
                    assert(st1.types[st.types.len() as int] == placeholder());
                }
                lemma_translate_arrays(def, defs, st1, (fuel - 1) as nat);
                lemma_translate_bound(def, defs, st1, (fuel - 1) as nat);
                let st2 = spec_translate(def, defs, st1, (fuel - 1) as nat)->Done_0;
                let node = spec_translate(def, defs, st1, (fuel - 1) as nat)->Done_1;
                let idx = st.types.len() as int;
                assert(0 <= idx < st2.types.len());
                let upd = st2.types.update(idx, node);
                assert forall|i: int|
                    0 <= i < upd.len() implies ((#[trigger] upd[i]).type_ == Type::array
                    ==> upd[i].items is Some) by {
                    if i == idx {
                        assert(upd[i] == node);
                    } else {
                        assert(upd[i] == st2.types[i]);
                    }
                }
                assert(seq_arrays_ok(upd));
            },
        }
    }
}

/// Translating a declared inline node yields a node that, when it expects
/// an array, carries an element index, and keeps the arena supplied.
proof fn lemma_translate_arrays(
    source: SourceTypeInfo,
    defs: Seq<(String, SourceTypeInfo)>,
    st: RState,
    fuel: nat,
)
    requires
        spec_translate(source, defs, st, fuel) is Done,
        items_declared(source),
        defs_items_declared(defs),
        seq_arrays_ok(st.types),
    ensures
        seq_arrays_ok(spec_translate(source, defs, st, fuel)->Done_0.types),
        spec_translate(source, defs, st, fuel)->Done_1.type_ == Type::array
            ==> spec_translate(source, defs, st, fuel)->Done_1.items is Some,
    decreases fuel,
{
    match source.items {
        Some(b) => {
            lemma_resolve_arrays(*b, defs, st, (fuel - 1) as nat);
            let st1 = spec_resolve(*b, defs, st, (fuel - 1) as nat)->Done_0;
            let idx = spec_resolve(*b, defs, st, (fuel - 1) as nat)->Done_1;
            lemma_finish_arrays(source, defs, st1, Some(idx), (fuel - 1) as nat);
        },
        None => {
            lemma_finish_arrays(source, defs, st, None, (fuel - 1) as nat);
        },
    }
}

/// Node assembly keeps the arena supplied, and the node itself carries the
/// element index it was given.
proof fn lemma_finish_arrays(
    source: SourceTypeInfo,
    defs: Seq<(String, SourceTypeInfo)>,
    st: RState,
    items: Option<nat>,
    fuel: nat,
)
    requires
        spec_finish_node(source, defs, st, items, fuel) is Done,
        items_declared(source),
        defs_items_declared(defs),
        seq_arrays_ok(st.types),
    ensures
        seq_arrays_ok(spec_finish_node(source, defs, st, items, fuel)->Done_0.types),
        spec_finish_node(source, defs, st, items, fuel)->Done_1.items == items,
        spec_finish_node(source, defs, st, items, fuel)->Done_1.type_ == source.type_,
    decreases fuel,
{
    lemma_props_arrays(source.properties@, defs, st, (fuel - 1) as nat);
}

/// Resolving a declared property list keeps the arena supplied.
proof fn lemma_props_arrays(
    props: Seq<(String, SourceTypeInfo)>,
    defs: Seq<(String, SourceTypeInfo)>,
    st: RState,
    fuel: nat,
)
    requires
        spec_resolve_props(props, defs, st, fuel) is Done,
        props_items_declared(props),
        defs_items_declared(defs),
        seq_arrays_ok(st.types),
    ensures
        seq_arrays_ok(spec_resolve_props(props, defs, st, fuel)->Done_0.types),
    decreases fuel,
{
    if props.len() == 0 {
    } else {
        assert(props_items_declared(props.drop_last())) by {
            lemma_props_declared_drop_last(props);
        }
        lemma_props_arrays(props.drop_last(), defs, st, (fuel - 1) as nat);
        let st1 = spec_resolve_props(props.drop_last(), defs, st, (fuel - 1) as nat)->Done_0;
        lemma_props_elem_declared(props, props.len() - 1);
        lemma_resolve_arrays(props.last().1, defs, st1, (fuel - 1) as nat);
    }
}

/// A declared property list stays declared when its last entry is dropped.
proof fn lemma_props_declared_drop_last(s: Seq<(String, SourceTypeInfo)>)
    requires
        props_items_declared(s),
        s.len() > 0,
    ensures
        props_items_declared(s.drop_last()),
    decreases s.len(),
{
    if s.len() == 1 {
        assert(s.drop_last() =~= Seq::<(String, SourceTypeInfo)>::empty());
    } else {
        lemma_props_declared_drop_last(s.drop_first());
        assert(s.drop_first().drop_last() =~= s.drop_last().drop_first());
        assert(s.drop_last()[0] == s[0]);
    }
}

/// Law: a document that declares an element type on every array node
/// resolves to a schema in which every array node carries one, which is
/// exactly what validation demands before it descends into arrays.
pub proof fn lemma_declared_items_resolve_arrays(doc: SourceTypeInfo, s: SpecSchema)
    requires
        resolves_doc(doc, s),
        items_declared(doc),
        defs_items_declared(doc.definitions@),
    ensures
        crate::schema::arrays_resolved(s),
{
    let (f, table) = choose|fuel: nat, table: Seq<(Seq<char>, nat)>|
        spec_resolve(doc, doc.definitions@, init_state(), fuel) == Res::<nat>::Done(
            RState { types: s.types, resolved: table },
            s.root,
        );
    lemma_resolve_arrays(doc, doc.definitions@, init_state(), f);
}

} // verus!
