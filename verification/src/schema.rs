//! The schema representation: raw nodes as a document declares them, and the
//! resolved arena-based graph that validation traverses.

use vstd::prelude::*;

verus! {

use crate::value::Type;

/// A raw schema node, as a schema document declares it, before reference
/// resolution.
///
/// Mappings are insertion-ordered lists of pairs, so that property order in
/// the document decides the order of reported errors.
pub struct SourceTypeInfo {
    /// The declared kind; `null` when the document omits it (a reference-only
    /// or unconstrained node).
    pub type_: Type,
    /// Property name to child node, meaningful when the kind is `object`.
    pub properties: Vec<(String, SourceTypeInfo)>,
    /// The element type, meaningful when the kind is `array`.
    pub items: Option<Box<SourceTypeInfo>>,
    /// A reference of the form `#/definitions/<name>`, or empty. When
    /// non-empty this node stands for the named definition and its own kind,
    /// properties and items are ignored.
    pub ref_: String,
    /// The reference namespace, meaningful only at the document root.
    pub definitions: Vec<(String, SourceTypeInfo)>,
}

/// The number of raw nodes in a subtree, weighted so that every child, items
/// or property alike, counts strictly less than its parent.
pub open spec fn size(n: SourceTypeInfo) -> nat
    decreases n,
{
    1 + (match n.items {
        Some(b) => size(*b),
        None => 0nat,
    }) + props_size(n.properties@)
}

/// The weighted size of a property list.
pub open spec fn props_size(s: Seq<(String, SourceTypeInfo)>) -> nat
    decreases s,
{
    if s.len() == 0 {
        0nat
    } else {
        1 + size(s[0].1) + props_size(s.drop_first())
    }
}

/// A resolved schema node: the unit stored in the arena. Children are arena
/// indices, never embedded nodes, which is what lets a node reach itself or
/// an ancestor without unbounded expansion.
#[derive(Debug)]
pub struct TypeInfo {
    /// The expected kind of a matching value.
    pub type_: Type,
    /// Property name to arena index, in declaration order.
    pub properties: Vec<(String, usize)>,
    /// Arena index of the element type, or [`NO_ITEMS`] when absent.
    pub items: usize,
}

/// Reserved sentinel marking a node without an element type.
pub const NO_ITEMS: usize = usize::MAX;

/// The mathematical content of a resolved node.
#[verifier::ext_equal]
pub struct SpecTypeInfo {
    pub type_: Type,
    pub properties: Seq<(Seq<char>, nat)>,
    pub items: Option<nat>,
}

/// The mathematical content of a list of name-and-index pairs.
pub open spec fn pairs_view(s: Seq<(String, usize)>) -> Seq<(Seq<char>, nat)> {
    s.map_values(|p: (String, usize)| (p.0@, p.1 as nat))
}

impl View for TypeInfo {
    type V = SpecTypeInfo;

    open spec fn view(&self) -> SpecTypeInfo {
        SpecTypeInfo {
            type_: self.type_,
            properties: pairs_view(self.properties@),
            items: if self.items == NO_ITEMS {
                None
            } else {
                Some(self.items as nat)
            },
        }
    }
}

/// A resolved schema: the arena of nodes and the root's index. Built once by
/// resolution and immutable afterwards.
#[derive(Debug)]
pub struct Schema {
    /// The arena: every resolved node, children linked by index.
    pub types: Vec<TypeInfo>,
    /// The arena index of the root node.
    pub root: usize,
}

/// The mathematical content of a resolved schema.
#[verifier::ext_equal]
pub struct SpecSchema {
    pub types: Seq<SpecTypeInfo>,
    pub root: nat,
}

impl View for Schema {
    type V = SpecSchema;

    open spec fn view(&self) -> SpecSchema {
        SpecSchema {
            types: self.types@.map_values(|t: TypeInfo| t@),
            root: self.root as nat,
        }
    }
}

/// Every index a node holds stays inside an arena of `n` nodes.
pub open spec fn node_wf(t: SpecTypeInfo, n: nat) -> bool {
    &&& forall|i: int| 0 <= i < t.properties.len() ==> (#[trigger] t.properties[i]).1 < n
    &&& (t.items matches Some(j) ==> j < n)
}

/// The resolved-schema invariant: the root and every index any node holds
/// are valid indices into the arena, so dereferencing never dangles.
pub open spec fn schema_wf(s: SpecSchema) -> bool {
    &&& s.root < s.types.len()
    &&& forall|i: int| 0 <= i < s.types.len() ==> node_wf(#[trigger] s.types[i], s.types.len())
}

/// Every node that expects an array also carries an element type. Documents
/// that give each `array` node an `items` entry resolve to such schemas, and
/// validation demands this before it descends into arrays.
pub open spec fn arrays_resolved(s: SpecSchema) -> bool {
    forall|i: int|
        0 <= i < s.types.len() ==> ((#[trigger] s.types[i]).type_ == Type::array
            ==> s.types[i].items is Some)
}

impl Schema {
    /// The index of the root node.
    pub fn root_index(&self) -> (r: usize)
        ensures
            r as nat == self@.root,
    {
        self.root
    }

    /// The root node of the schema graph.
    pub fn root(&self) -> (r: &TypeInfo)
        requires
            schema_wf(self@),
        ensures
            r@ == self@.types[self@.root as int],
    {
        proof {
            assert(self@.types[self.root as int] == self.types@.map_values(|t: TypeInfo| t@)[self.root as int]);
        }
        &self.types[self.root]
    }

    /// The node stored at a given arena index.
    pub fn type_info(&self, idx: usize) -> (r: &TypeInfo)
        requires
            (idx as nat) < self@.types.len(),
        ensures
            r@ == self@.types[idx as int],
    {
        proof {
            assert(self@.types[idx as int] == self.types@.map_values(|t: TypeInfo| t@)[idx as int]);
        }
        &self.types[idx]
    }

    /// Whether every array node carries an element type, as validation
    /// requires before it can descend into arrays.
    pub fn has_resolved_arrays(&self) -> (r: bool)
        ensures
            r == arrays_resolved(self@),
    {
        let ghost v = self@;
        let mut i: usize = 0;
        while i < self.types.len()
            invariant
                i <= self.types@.len(),
                v == self@,
                v.types.len() == self.types@.len(),
                forall|k: int|
                    0 <= k < i ==> ((#[trigger] v.types[k]).type_ == Type::array
                        ==> v.types[k].items is Some),
            decreases self.types@.len() - i,
        {
            proof {
                assert(v.types[i as int] == self.types@.map_values(|t: TypeInfo| t@)[i as int]);
            }
            let node = &self.types[i];
            if node.type_ == Type::array && node.items == NO_ITEMS {
                return false;
            }
            i = i + 1;
        }
        true
    }
}

} // verus!
