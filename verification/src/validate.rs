//! The validator: walks a data value guided by a resolved schema graph and
//! collects path-qualified kind-mismatch errors.
//!
//! A `null` value is deliberately valid against every node: schemas describe
//! the required shape of data when present, not its presence.

use vstd::prelude::*;

verus! {

use crate::assoc::lookup_assoc;
use crate::schema::NO_ITEMS;
use crate::schema::Schema;
use crate::schema::SpecSchema;
use crate::schema::arrays_resolved;
use crate::schema::node_wf;
use crate::schema::schema_wf;
use crate::text::decimal;
use crate::text::extend_path;
use crate::text::mismatch_message;
use crate::text::render_mismatch;
use crate::text::usize_to_string;
use crate::value::Type;
use crate::value::Value;
use crate::value::kind_of;
use crate::value::type_of;

/// The errors of matching `value` against the node at `idx`, with `path`
/// accumulated so far: empty for `null`, a single mismatch when the kinds
/// differ (descent stops), and otherwise the errors of the children in
/// declaration order.
pub open spec fn check_errors(s: SpecSchema, idx: nat, value: Value, path: Seq<char>) -> Seq<
    Seq<char>,
>
    decreases value, 1nat,
{
    if kind_of(value) == Type::null {
        Seq::empty()
    } else if kind_of(value) != s.types[idx as int].type_ {
        seq![mismatch_message(path, s.types[idx as int].type_, kind_of(value))]
    } else {
        match value {
            Value::Object(fields) => check_props(
                s,
                s.types[idx as int].properties,
                fields@,
                path,
            ),
            Value::Array(elems) => match s.types[idx as int].items {
                Some(item_idx) => check_items(s, item_idx, elems@, path),
                None => Seq::empty(),
            },
            _ => Seq::empty(),
        }
    }
}

/// The errors of the declared properties, in declaration order.
pub open spec fn check_props(
    s: SpecSchema,
    props: Seq<(Seq<char>, nat)>,
    fields: Seq<(String, Value)>,
    path: Seq<char>,
) -> Seq<Seq<char>>
    decreases fields, props.len(),
{
    if props.len() == 0 {
        Seq::empty()
    } else {
        check_props(s, props.drop_last(), fields, path) + check_prop(
            s,
            props.last().0,
            props.last().1,
            fields,
            path,
        )
    }
}

/// The errors of one declared property: the field of that name is checked
/// against the child node; an absent field stands for `null` and yields
/// nothing.
pub open spec fn check_prop(
    s: SpecSchema,
    name: Seq<char>,
    child_idx: nat,
    fields: Seq<(String, Value)>,
    path: Seq<char>,
) -> Seq<Seq<char>>
    decreases fields, 0nat,
{
    if fields.len() == 0 {
        Seq::empty()
    } else if fields[0].0@ == name {
        check_errors(s, child_idx, fields[0].1, path + "/"@ + name)
    } else {
        check_prop(s, name, child_idx, fields.drop_first(), path)
    }
}

/// The errors of the elements of an array value, in element order, each under
/// its decimal index.
pub open spec fn check_items(
    s: SpecSchema,
    item_idx: nat,
    elems: Seq<Value>,
    path: Seq<char>,
) -> Seq<Seq<char>>
    decreases elems, 0nat,
{
    if elems.len() == 0 {
        Seq::empty()
    } else {
        check_items(s, item_idx, elems.drop_last(), path) + check_errors(
            s,
            item_idx,
            elems.last(),
            path + "/"@ + decimal((elems.len() - 1) as nat),
        )
    }
}

/// The complete, ordered error list of validating `value` against `s`.
pub open spec fn validation_errors(s: SpecSchema, value: Value) -> Seq<Seq<char>> {
    check_errors(s, s.root, value, Seq::empty())
}

/// Checking one property equals looking its field up and, when present,
/// checking the field against the child node.
proof fn lemma_check_prop_lookup(
    s: SpecSchema,
    name: Seq<char>,
    child_idx: nat,
    fields: Seq<(String, Value)>,
    path: Seq<char>,
)
    ensures
        check_prop(s, name, child_idx, fields, path) == match lookup_assoc(fields, name) {
            Some(child) => check_errors(s, child_idx, child, path + "/"@ + name),
            None => Seq::<Seq<char>>::empty(),
        },
    decreases fields.len(),
{
    if fields.len() == 0 {
    } else if fields[0].0@ == name {
    } else {
        lemma_check_prop_lookup(s, name, child_idx, fields.drop_first(), path);
    }
}

/// A successful lookup returns one of the list's own values.
proof fn lemma_lookup_element<T>(fields: Seq<(String, T)>, name: Seq<char>)
    requires
        lookup_assoc(fields, name) is Some,
    ensures
        exists|i: int|
            0 <= i < fields.len() && (#[trigger] fields[i]).1 == lookup_assoc(
                fields,
                name,
            )->Some_0,
    decreases fields.len(),
{
    if fields.len() == 0 {
    } else if fields[0].0@ == name {
        assert(fields[0].1 == lookup_assoc(fields, name)->Some_0);
    } else {
        lemma_lookup_element(fields.drop_first(), name);
        let i = choose|i: int|
            0 <= i < fields.drop_first().len() && (#[trigger] fields.drop_first()[i]).1
                == lookup_assoc(fields.drop_first(), name)->Some_0;
        assert(fields[i + 1].1 == lookup_assoc(fields, name)->Some_0);
    }
}

/// Walks `value` against the node at `idx`, appending every mismatch under
/// `path` to `errors` in declaration order.
pub fn validate_inner(
    schema: &Schema,
    idx: usize,
    value: &Value,
    path: &String,
    errors: &mut Vec<String>,
)
    requires
        schema_wf(schema@),
        arrays_resolved(schema@),
        (idx as nat) < schema@.types.len(),
    ensures
        final (errors).deep_view() == old(errors).deep_view() + check_errors(
            schema@,
            idx as nat,
            *value,
            path@,
        ),
    decreases *value,
{
    let ghost sv = schema@;
    if let Value::Null = value {
        proof {
            assert(errors.deep_view() =~= old(errors).deep_view() + check_errors(
                sv,
                idx as nat,
                *value,
                path@,
            ));
        }
        return ;
    }
    let node = schema.type_info(idx);
    let actual = type_of(value);
    if actual != node.type_ {
        let msg = render_mismatch(path, &node.type_, &actual);
        errors.push(msg);
        proof {
            assert(errors.deep_view() =~= old(errors).deep_view() + check_errors(
                sv,
                idx as nat,
                *value,
                path@,
            ));
        }
        return ;
    }
    proof {
        assert(node_wf(sv.types[idx as int], sv.types.len()));
    }
    match value {
        Value::Object(fields) => {
            let ghost props = node@.properties;
            let mut j: usize = 0;
            proof {
                assert(props.subrange(0, 0) =~= Seq::<(Seq<char>, nat)>::empty());
            }
            while j < node.properties.len()
                invariant
                    schema_wf(sv),
                    arrays_resolved(sv),
                    sv == schema@,
                    (idx as nat) < sv.types.len(),
                    node@ == sv.types[idx as int],
                    props == node@.properties,
                    j <= node.properties@.len(),
                    props.len() == node.properties@.len(),
                    *value is Object,
                    fields == value->Object_0,
                    errors.deep_view() == old(errors).deep_view() + check_props(
                        sv,
                        props.subrange(0, j as int),
                        fields@,
                        path@,
                    ),
                decreases node.properties@.len() - j,
            {
                proof {
                    assert(props[j as int] == (node.properties@[j as int].0@, node.properties@[j as int].1 as nat));
                }
                let entry = &node.properties[j];
                let ghost errors_before = errors.deep_view();
                match crate::assoc::get_assoc(fields, &entry.0) {
                    Some(child) => {
                        let child_path = extend_path(path, entry.0.as_str());
                        proof {
                            lemma_lookup_element(fields@, entry.0@);
                            let i = choose|i: int|
                                0 <= i < fields@.len() && (#[trigger] fields@[i]).1
                                    == lookup_assoc(fields@, entry.0@)->Some_0;
                            assert(fields@[i].1 == *child);
                            assert(decreases_to!(*value => *fields));
                            assert(decreases_to!(*fields => fields@[i]));
                            assert(decreases_to!(fields@[i] => fields@[i].1));
                        }
                        validate_inner(schema, entry.1, child, &child_path, errors);
                    },
                    None => {},
                }
                proof {
                    lemma_check_prop_lookup(sv, props[j as int].0, props[j as int].1, fields@, path@);
                    assert(props.subrange(0, j + 1).drop_last() =~= props.subrange(0, j as int));
                    assert(props.subrange(0, j + 1).last() == props[j as int]);
                    assert(errors.deep_view() =~= old(errors).deep_view() + check_props(
                        sv,
                        props.subrange(0, j + 1),
                        fields@,
                        path@,
                    ));
                }
                j = j + 1;
            }
            proof {
                assert(props.subrange(0, props.len() as int) =~= props);
                assert(check_errors(sv, idx as nat, *value, path@) == check_props(
                    sv,
                    props,
                    fields@,
                    path@,
                ));
            }
        },
        Value::Array(elems) => {
            let item_idx = node.items;
            proof {
                assert(node@.items == Some(item_idx as nat));
            }
            let mut j: usize = 0;
            proof {
                assert(elems@.subrange(0, 0) =~= Seq::<Value>::empty());
            }
            while j < elems.len()
                invariant
                    schema_wf(sv),
                    arrays_resolved(sv),
                    sv == schema@,
                    (idx as nat) < sv.types.len(),
                    (item_idx as nat) < sv.types.len(),
                    item_idx != NO_ITEMS,
                    sv.types[idx as int].items == Some(item_idx as nat),
                    j <= elems@.len(),
                    *value is Array,
                    elems == value->Array_0,
                    errors.deep_view() == old(errors).deep_view() + check_items(
                        sv,
                        item_idx as nat,
                        elems@.subrange(0, j as int),
                        path@,
                    ),
                decreases elems@.len() - j,
            {
                let seg = usize_to_string(j);
                let child_path = extend_path(path, seg.as_str());
                proof {
                    assert(decreases_to!(*value => *elems));
                    assert(decreases_to!(*elems => elems@[j as int]));
                }
                validate_inner(schema, item_idx, &elems[j], &child_path, errors);
                proof {
                    assert(elems@.subrange(0, j + 1).drop_last() =~= elems@.subrange(0, j as int));
                    assert(elems@.subrange(0, j + 1).last() == elems@[j as int]);
                    assert(elems@.subrange(0, j + 1).len() == j + 1);
                    assert(errors.deep_view() =~= old(errors).deep_view() + check_items(
                        sv,
                        item_idx as nat,
                        elems@.subrange(0, j + 1),
                        path@,
                    ));
                }
                j = j + 1;
            }
            proof {
                assert(elems@.subrange(0, elems@.len() as int) =~= elems@);
                assert(check_errors(sv, idx as nat, *value, path@) == check_items(
                    sv,
                    item_idx as nat,
                    elems@,
                    path@,
                ));
            }
        },
        _ => {
            proof {
                assert(errors.deep_view() =~= old(errors).deep_view() + check_errors(
                    sv,
                    idx as nat,
                    *value,
                    path@,
                ));
            }
        },
    }
}

/// Validates a data value against a resolved schema, returning every
/// kind-mismatch error, path-qualified, in a pre-order, left-to-right,
/// depth-first traversal that follows the schema's own property and element
/// order. Deterministic: the result is a function of the schema and the
/// value alone.
pub fn validate(schema: &Schema, value: &Value) -> (r: Vec<String>)
    requires
        schema_wf(schema@),
        arrays_resolved(schema@),
    ensures
        r.deep_view() == validation_errors(schema@, *value),
{
    let mut errors: Vec<String> = Vec::new();
    let path = String::new();
    proof {
        assert(errors.deep_view() =~= Seq::<Seq<char>>::empty());
    }
    validate_inner(schema, schema.root_index(), value, &path, &mut errors);
    proof {
        assert(errors.deep_view() =~= validation_errors(schema@, *value));
    }
    errors
}

/// Law: a `null` value yields no error for its subtree, at the root or at
/// any node of any schema, whatever kind the node declares.
pub proof fn lemma_null_yields_no_errors(s: SpecSchema, idx: nat, path: Seq<char>)
    ensures
        check_errors(s, idx, Value::Null, path) == Seq::<Seq<char>>::empty(),
{
}

} // verus!
