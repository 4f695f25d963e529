//! Rendering of paths, kind names and error messages as character sequences.

use vstd::prelude::*;

verus! {

use crate::value::Type;

/// The decimal digit character for `d`, which must be below ten.
pub open spec fn digit_char(d: nat) -> char {
    if d == 0 {
        '0'
    } else if d == 1 {
        '1'
    } else if d == 2 {
        '2'
    } else if d == 3 {
        '3'
    } else if d == 4 {
        '4'
    } else if d == 5 {
        '5'
    } else if d == 6 {
        '6'
    } else if d == 7 {
        '7'
    } else if d == 8 {
        '8'
    } else {
        '9'
    }
}

/// The decimal representation of `n`, most significant digit first, with no
/// leading zeros (a single `'0'` for zero).
pub open spec fn decimal(n: nat) -> Seq<char>
    decreases n,
{
    if n < 10 {
        seq![digit_char(n)]
    } else {
        decimal(n / 10).push(digit_char(n % 10))
    }
}

/// The single-character string for the digit `d`.
fn digit_str(d: usize) -> (r: &'static str)
    requires
        d < 10,
    ensures
        r@ =~= seq![digit_char(d as nat)],
{
    proof {
        reveal_strlit("0");
        reveal_strlit("1");
        reveal_strlit("2");
        reveal_strlit("3");
        reveal_strlit("4");
        reveal_strlit("5");
        reveal_strlit("6");
        reveal_strlit("7");
        reveal_strlit("8");
        reveal_strlit("9");
    }
    match d {
        0 => "0",
        1 => "1",
        2 => "2",
        3 => "3",
        4 => "4",
        5 => "5",
        6 => "6",
        7 => "7",
        8 => "8",
        _ => "9",
    }
}

/// Renders `n` in decimal, as array element paths require.
pub fn usize_to_string(n: usize) -> (r: String)
    ensures
        r@ == decimal(n as nat),
    decreases n,
{
    let d = digit_str(n % 10);
    if n < 10 {
        String::from_str(d)
    } else {
        let mut s = usize_to_string(n / 10);
        s.append(d);
        proof {
            assert(decimal(n as nat) =~= decimal((n as nat) / 10) + seq![
                digit_char((n as nat) % 10),
            ]);
        }
        s
    }
}

/// The name of a kind, exactly as schema documents and error messages spell
/// it.
pub open spec fn kind_name(t: Type) -> Seq<char> {
    match t {
        Type::object => "object"@,
        Type::string => "string"@,
        Type::number => "number"@,
        Type::bool => "bool"@,
        Type::array => "array"@,
        Type::null => "null"@,
    }
}

/// Renders a kind's name.
pub fn kind_str(t: &Type) -> (r: &'static str)
    ensures
        r@ == kind_name(*t),
{
    match t {
        Type::object => "object",
        Type::string => "string",
        Type::number => "number",
        Type::bool => "bool",
        Type::array => "array",
        Type::null => "null",
    }
}

/// How a path is shown in an error: the root is written `/`, any other path
/// as accumulated.
pub open spec fn shown_path(path: Seq<char>) -> Seq<char> {
    if path.len() == 0 {
        "/"@
    } else {
        path
    }
}

/// The error string reported when a value's kind differs from the declared
/// one.
pub open spec fn mismatch_message(path: Seq<char>, expected: Type, actual: Type) -> Seq<char> {
    shown_path(path) + ": type mismatch, expected: "@ + kind_name(expected) + ", actual: "@
        + kind_name(actual)
}

/// Builds the kind-mismatch error string for the given path.
pub fn render_mismatch(path: &String, expected: &Type, actual: &Type) -> (r: String)
    ensures
        r@ == mismatch_message(path@, *expected, *actual),
{
    let mut s = if path.as_str().is_empty() {
        String::from_str("/")
    } else {
        path.clone()
    };
    s.append(": type mismatch, expected: ");
    s.append(kind_str(expected));
    s.append(", actual: ");
    s.append(kind_str(actual));
    s
}

/// Whether `p` is a prefix of `s`.
pub open spec fn has_prefix(s: Seq<char>, p: Seq<char>) -> bool {
    s.len() >= p.len() && s.subrange(0, p.len() as int) == p
}

/// Tests whether the string starts with the given prefix.
pub fn str_has_prefix(s: &str, p: &str) -> (r: bool)
    ensures
        r == has_prefix(s@, p@),
{
    let sl = s.unicode_len();
    let pl = p.unicode_len();
    if sl < pl {
        return false;
    }
    let mut i: usize = 0;
    while i < pl
        invariant
            i <= pl,
            sl == s@.len(),
            pl == p@.len(),
            sl >= pl,
            forall|k: int| 0 <= k < i ==> s@[k] == p@[k],
        decreases pl - i,
    {
        if s.get_char(i) != p.get_char(i) {
            proof {
                assert(s@.subrange(0, p@.len() as int)[i as int] == s@[i as int]);
            }
            return false;
        }
        i = i + 1;
    }
    proof {
        assert(s@.subrange(0, p@.len() as int) =~= p@);
    }
    true
}

/// Extends a path with a `/`-separated segment.
pub fn extend_path(path: &String, segment: &str) -> (r: String)
    ensures
        r@ == path@ + "/"@ + segment@,
{
    let mut s = path.clone();
    s.append("/");
    s.append(segment);
    s
}

} // verus!
