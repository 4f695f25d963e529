//! Capability-based plugin dispatch for greeters.
//!
//! A plugin is asked for its capabilities in a fixed order of preference: a
//! casual greeting first, a formal greeting second, a fixed fallback last.
//! Each capability is described by a specification function, so dispatch is
//! verified against whatever the plugin declares it can do.

use vstd::prelude::*;

verus! {

/// A greeter plugin. Implementations declare, through the two specification
/// functions, which greetings they support and what text each produces; the
/// executable methods must answer accordingly and must not change what the
/// plugin supports.
pub trait Plugin {
    /// The casual greeting this plugin gives for `name`, if it supports one.
    spec fn greet_spec(&self, name: Seq<char>) -> Option<Seq<char>>;

    /// The formal greeting this plugin gives, if it supports one.
    spec fn greet_formal_spec(&self, first_name: Seq<char>, last_name: Seq<char>) -> Option<
        Seq<char>,
    >;

    /// Attempts the casual greeting.
    fn try_greet(&mut self, name: &str) -> (r: Option<String>)
        ensures
            match r {
                Some(s) => old(self).greet_spec(name@) == Some(s@),
                None => old(self).greet_spec(name@) is None,
            },
            forall|n: Seq<char>| final (self).greet_spec(n) == old(self).greet_spec(n),
            forall|f: Seq<char>, l: Seq<char>|
                final (self).greet_formal_spec(f, l) == old(self).greet_formal_spec(f, l),
    ;

    /// Attempts the formal greeting.
    fn try_greet_formal(&mut self, first_name: &str, last_name: &str) -> (r: Option<String>)
        ensures
            match r {
                Some(s) => old(self).greet_formal_spec(first_name@, last_name@) == Some(s@),
                None => old(self).greet_formal_spec(first_name@, last_name@) is None,
            },
            forall|n: Seq<char>| final (self).greet_spec(n) == old(self).greet_spec(n),
            forall|f: Seq<char>, l: Seq<char>|
                final (self).greet_formal_spec(f, l) == old(self).greet_formal_spec(f, l),
    ;
}

/// The greeting `rsvp` settles on: the casual greeting when the plugin
/// supports one, else the formal greeting, else a fixed fallback.
pub open spec fn rsvp_spec<P: Plugin>(p: P, first_name: Seq<char>, last_name: Seq<char>) -> Seq<
    char,
> {
    match p.greet_spec(first_name) {
        Some(s) => s,
        None => match p.greet_formal_spec(first_name, last_name) {
            Some(s) => s,
            None => "Hello?"@,
        },
    }
}

/// Greets with the plugin's preferred capability: casually when it can,
/// formally otherwise, and with `"Hello?"` when it supports neither.
pub fn rsvp<P: Plugin>(first_name: &str, last_name: &str, plugin: &mut P) -> (r: String)
    ensures
        r@ == rsvp_spec(*old(plugin), first_name@, last_name@),
{
    if let Some(s) = plugin.try_greet(first_name) {
        return s;
    }
    if let Some(s) = plugin.try_greet_formal(first_name, last_name) {
        return s;
    }
    String::from_str("Hello?")
}

/// A greeter with a fixed salutation, supporting both the casual and the
/// formal greeting.
pub struct SimpleGreeter(pub String);

impl SimpleGreeter {
    /// The casual greeting: `"<salutation>, <name>!"`.
    pub fn greet(&self, name: &str) -> (r: String)
        ensures
            r@ == self.0@ + ", "@ + name@ + "!"@,
    {
        let mut s = self.0.clone();
        s.append(", ");
        s.append(name);
        s.append("!");
        s
    }

    /// The formal greeting: `"<salutation>, <first> <last>!"`.
    pub fn greet_formal(&self, first_name: &str, last_name: &str) -> (r: String)
        ensures
            r@ == self.0@ + ", "@ + first_name@ + " "@ + last_name@ + "!"@,
    {
        let mut s = self.0.clone();
        s.append(", ");
        s.append(first_name);
        s.append(" ");
        s.append(last_name);
        s.append("!");
        s
    }
}

impl Plugin for SimpleGreeter {
    open spec fn greet_spec(&self, name: Seq<char>) -> Option<Seq<char>> {
        Some(self.0@ + ", "@ + name + "!"@)
    }

    open spec fn greet_formal_spec(&self, first_name: Seq<char>, last_name: Seq<char>) -> Option<
        Seq<char>,
    > {
        Some(self.0@ + ", "@ + first_name + " "@ + last_name + "!"@)
    }

    fn try_greet(&mut self, name: &str) -> (r: Option<String>) {
        Some(self.greet(name))
    }

    fn try_greet_formal(&mut self, first_name: &str, last_name: &str) -> (r: Option<String>) {
        Some(self.greet_formal(first_name, last_name))
    }
}

/// A formal-only greeter that counts how many greetings it has produced.
pub struct CountingGreeter(pub usize);

impl CountingGreeter {
    /// The formal greeting, `"Greetings, <last> <first>."`, counted.
    pub fn greet_formal(&mut self, first_name: &str, last_name: &str) -> (r: String)
        ensures
            r@ == "Greetings, "@ + last_name@ + " "@ + first_name@ + "."@,
            final (self).0 == old(self).0.wrapping_add(1),
    {
        self.0 = self.0.wrapping_add(1);
        let mut s = String::from_str("Greetings, ");
        s.append(last_name);
        s.append(" ");
        s.append(first_name);
        s.append(".");
        s
    }
}

impl Plugin for CountingGreeter {
    open spec fn greet_spec(&self, name: Seq<char>) -> Option<Seq<char>> {
        None
    }

    open spec fn greet_formal_spec(&self, first_name: Seq<char>, last_name: Seq<char>) -> Option<
        Seq<char>,
    > {
        Some("Greetings, "@ + last_name + " "@ + first_name + "."@)
    }

    fn try_greet(&mut self, name: &str) -> (r: Option<String>) {
        None
    }

    fn try_greet_formal(&mut self, first_name: &str, last_name: &str) -> (r: Option<String>) {
        Some(self.greet_formal(first_name, last_name))
    }
}

} // verus!
