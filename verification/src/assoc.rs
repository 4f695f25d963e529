//! Insertion-ordered association lists.
//!
//! Schema documents need insertion-ordered mappings (property order decides
//! error order), so mappings are kept as vectors of pairs; a lookup returns
//! the first binding with the sought key.

use vstd::prelude::*;

verus! {

/// The first binding for `key` in a list of string-keyed pairs, if any.
pub open spec fn lookup_assoc<T>(s: Seq<(String, T)>, key: Seq<char>) -> Option<T>
    decreases s.len(),
{
    if s.len() == 0 {
        None
    } else if s[0].0@ == key {
        Some(s[0].1)
    } else {
        lookup_assoc(s.drop_first(), key)
    }
}

/// The first binding for `key` in a list of pairs keyed by character
/// sequences, if any.
pub open spec fn lookup_pairs<T>(s: Seq<(Seq<char>, T)>, key: Seq<char>) -> Option<T>
    decreases s.len(),
{
    if s.len() == 0 {
        None
    } else if s[0].0 == key {
        Some(s[0].1)
    } else {
        lookup_pairs(s.drop_first(), key)
    }
}

/// Looks `key` up in an insertion-ordered association list.
pub fn get_assoc<'a, T>(list: &'a Vec<(String, T)>, key: &String) -> (r: Option<&'a T>)
    ensures
        match r {
            Some(v) => lookup_assoc(list@, key@) == Some(*v),
            None => lookup_assoc(list@, key@) is None,
        },
{
    proof {
        assert(list@.skip(0) =~= list@);
    }
    let mut i: usize = 0;
    while i < list.len()
        invariant
            i <= list@.len(),
            lookup_assoc(list@, key@) == lookup_assoc(list@.skip(i as int), key@),
        decreases list@.len() - i,
    {
        proof {
            assert(list@.skip(i as int).drop_first() =~= list@.skip(i + 1));
            assert(list@.skip(i as int)[0] == list@[i as int]);
        }
        if list[i].0 == *key {
            return Some(&list[i].1);
        }
        i = i + 1;
    }
    None
}

} // verus!
