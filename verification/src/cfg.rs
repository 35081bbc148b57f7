//! Conditional compilation: `cfg` predicates and the options a build sets.
use vstd::prelude::*;
use crate::text::chars_of;

verus! {

/// A `cfg` predicate, as written in `#[cfg(..)]`.
#[derive(Debug)]
pub enum Cfg {
    /// A bare option, such as `test` or `unix`.
    Name(String),
    /// A key-value option, such as `feature = "extra"`.
    Pair(String, String),
    /// `not(..)`.
    Not(Box<Cfg>),
    /// `all(..)`: every predicate holds (true when there is none).
    All(Vec<Cfg>),
    /// `any(..)`: some predicate holds (false when there is none).
    Any(Vec<Cfg>),
}

/// The options set for a build: bare names and key-value pairs.
#[derive(Clone, Debug)]
pub struct CfgSet {
    pub names: Vec<String>,
    pub pairs: Vec<(String, String)>,
}

/// The bare option `n` is set.
pub open spec fn has_name(on: CfgSet, n: Seq<char>) -> bool {
    exists|i: int| 0 <= i < on.names.len() && (#[trigger] on.names@[i])@ == n
}

/// The key-value option `k = v` is set.
pub open spec fn has_pair(on: CfgSet, k: Seq<char>, v: Seq<char>) -> bool {
    exists|i: int|
        0 <= i < on.pairs.len() && (#[trigger] on.pairs@[i]).0@ == k && on.pairs@[i].1@ == v
}

/// The predicate `c` holds for the options `on`.
pub open spec fn cfg_holds(c: Cfg, on: CfgSet) -> bool
    decreases c,
{
    match c {
        Cfg::Name(n) => has_name(on, n@),
        Cfg::Pair(k, v) => has_pair(on, k@, v@),
        Cfg::Not(b) => !cfg_holds(*b, on),
        Cfg::All(v) => forall|i: int| 0 <= i < v.len() ==> cfg_holds(#[trigger] v@[i], on),
        Cfg::Any(v) => exists|i: int| 0 <= i < v.len() && cfg_holds(#[trigger] v@[i], on),
    }
}

fn same_text(a: &str, b: &str) -> (r: bool)
    ensures
        r == (a@ == b@),
{
    let x = chars_of(a);
    let y = chars_of(b);
    if x.len() != y.len() {
        return false;
    }
    let mut i: usize = 0;
    while i < x.len()
        invariant
            x@ == a@,
            y@ == b@,
            x.len() == y.len(),
            i <= x.len(),
            forall|j: int| 0 <= j < i ==> x@[j] == y@[j],
        decreases x.len() - i,
    {
        if x[i] != y[i] {
            return false;
        }
        i = i + 1;
    }
    assert(x@ =~= y@);
    true
}

/// Whether the bare option `n` is set.
fn name_set(on: &CfgSet, n: &String) -> (r: bool)
    ensures
        r == has_name(*on, n@),
{
    let mut i: usize = 0;
    while i < on.names.len()
        invariant
            i <= on.names.len(),
            forall|j: int| 0 <= j < i ==> (#[trigger] on.names@[j])@ != n@,
        decreases on.names.len() - i,
    {
        if same_text(on.names[i].as_str(), n.as_str()) {
            return true;
        }
        i = i + 1;
    }
    false
}

/// Whether the key-value option `k = v` is set.
fn pair_set(on: &CfgSet, k: &String, v: &String) -> (r: bool)
    ensures
        r == has_pair(*on, k@, v@),
{
    let mut i: usize = 0;
    while i < on.pairs.len()
        invariant
            i <= on.pairs.len(),
            forall|j: int|
                0 <= j < i ==> !((#[trigger] on.pairs@[j]).0@ == k@ && on.pairs@[j].1@ == v@),
        decreases on.pairs.len() - i,
    {
        let (a, b) = &on.pairs[i];
        if same_text(a.as_str(), k.as_str()) && same_text(b.as_str(), v.as_str()) {
            return true;
        }
        i = i + 1;
    }
    false
}

/// Whether the predicate `c` holds for the options `on`.
pub fn cfg_active(c: &Cfg, on: &CfgSet) -> (r: bool)
    ensures
        r == cfg_holds(*c, *on),
    decreases c,
{
    match c {
        Cfg::Name(n) => name_set(on, n),
        Cfg::Pair(k, v) => pair_set(on, k, v),
        Cfg::Not(b) => !cfg_active(b, on),
        Cfg::All(v) => {
            let mut i: usize = 0;
            while i < v.len()
                invariant
                    i <= v.len(),
                    *c == Cfg::All(*v),
                    forall|j: int| 0 <= j < i ==> cfg_holds(#[trigger] v@[j], *on),
                decreases v.len() - i,
            {
                assert(decreases_to!(*c => (*c)->All_0));
                assert(decreases_to!(*v => v@));
                assert(decreases_to!(v@ => v@[i as int]));
                assert(decreases_to!(*c => v@[i as int]));
                let holds = cfg_active(&v[i], on);
                if !holds {
                    assert(!cfg_holds(v@[i as int], *on));
                    return false;
                }
                i = i + 1;
            }
            true
        },
        Cfg::Any(v) => {
            let mut i: usize = 0;
            while i < v.len()
                invariant
                    i <= v.len(),
                    *c == Cfg::Any(*v),
                    forall|j: int| 0 <= j < i ==> !cfg_holds(#[trigger] v@[j], *on),
                decreases v.len() - i,
            {
                assert(decreases_to!(*c => (*c)->Any_0));
                assert(decreases_to!(*v => v@));
                assert(decreases_to!(v@ => v@[i as int]));
                assert(decreases_to!(*c => v@[i as int]));
                let holds = cfg_active(&v[i], on);
                if holds {
                    assert(cfg_holds(v@[i as int], *on));
                    return true;
                }
                i = i + 1;
            }
            false
        },
    }
}

/// `any(..)` holds exactly when one of its predicates holds, whichever it is.
pub proof fn lemma_any_holds(c: Cfg, on: CfgSet)
    ensures
        c matches Cfg::Any(v) ==> (cfg_holds(c, on) <==> exists|i: int|
            0 <= i < v@.len() && cfg_holds(v@[i], on)),
        c matches Cfg::Any(v) ==> forall|i: int|
            0 <= i < v@.len() && cfg_holds(v@[i], on) ==> cfg_holds(c, on),
        c matches Cfg::Any(v) && v@.len() == 0 ==> !cfg_holds(c, on),
{
    if let Cfg::Any(v) = c {
        assert forall|i: int| 0 <= i < v@.len() && cfg_holds(v@[i], on) implies cfg_holds(c, on) by {
            assert(cfg_holds(v@[i], on));
        }
    }
}

/// `all(..)` holds exactly when each of its predicates holds.
pub proof fn lemma_all_holds(c: Cfg, on: CfgSet)
    ensures
        c matches Cfg::All(v) ==> (cfg_holds(c, on) <==> forall|i: int|
            0 <= i < v@.len() ==> cfg_holds(v@[i], on)),
        c matches Cfg::All(v) ==> forall|i: int|
            0 <= i < v@.len() && !cfg_holds(v@[i], on) ==> !cfg_holds(c, on),
        c matches Cfg::All(v) && v@.len() == 0 ==> cfg_holds(c, on),
{
    if let Cfg::All(v) = c {
        assert forall|i: int| 0 <= i < v@.len() && !cfg_holds(v@[i], on) implies !cfg_holds(c, on) by {
            assert(!cfg_holds(v@[i], on));
        }
    }
}

/// `not(p)` holds exactly when `p` does not; a bare option holds exactly when it
/// is among the set names, and `key = "value"` exactly when that pair is set.
pub proof fn lemma_leaf_and_not_hold(c: Cfg, on: CfgSet)
    ensures
        c matches Cfg::Not(b) ==> (cfg_holds(c, on) <==> !cfg_holds(*b, on)),
        c matches Cfg::Name(n) ==> (cfg_holds(c, on) <==> exists|i: int|
            0 <= i < on.names@.len() && on.names@[i]@ == n@),
        c matches Cfg::Pair(k, v) ==> (cfg_holds(c, on) <==> exists|i: int|
            0 <= i < on.pairs@.len() && on.pairs@[i].0@ == k@ && on.pairs@[i].1@ == v@),
{
}

} // verus!
