//! The variables of an environment.

use vstd::prelude::*;
use crate::text::same;

verus! {

/// The variables that a list of names with values defines; of equal names the first one counts.
pub open spec fn definitions(pairs: Seq<(Seq<char>, Seq<char>)>) -> Map<Seq<char>, Seq<char>>
    decreases pairs.len(),
{
    if pairs.len() == 0 {
        Map::empty()
    } else {
        definitions(pairs.skip(1)).insert(pairs[0].0, pairs[0].1)
    }
}

/// The value of a variable, if it is set.
pub open spec fn lookup(vars: Map<Seq<char>, Seq<char>>, name: Seq<char>) -> Option<Seq<char>> {
    if vars.contains_key(name) {
        Some(vars[name])
    } else {
        None
    }
}

/// The variables of an environment, each a name with a value.
pub struct Vars {
    pairs: Vec<(String, String)>,
}

impl View for Vars {
    type V = Map<Seq<char>, Seq<char>>;

    closed spec fn view(&self) -> Map<Seq<char>, Seq<char>> {
        definitions(self.pairs.deep_view())
    }
}

impl Vars {
    /// The environment of the given variables.
    pub fn new(pairs: Vec<(String, String)>) -> (r: Self)
        ensures
            r@ == definitions(pairs.deep_view()),
    {
        Vars { pairs }
    }

    /// The value of a variable.
    pub fn get(&self, name: &str) -> (r: Option<String>)
        ensures
            match r {
                Some(v) => lookup(self@, name@) == Some(v@),
                None => lookup(self@, name@) is None,
            },
    {
        let ghost ps = self.pairs.deep_view();
        let mut i: usize = 0;
        assert(ps.skip(0) =~= ps);
        while i < self.pairs.len()
            invariant
                i <= self.pairs@.len(),
                ps == self.pairs.deep_view(),
                lookup(definitions(ps), name@) == lookup(definitions(ps.skip(i as int)), name@),
            decreases self.pairs@.len() - i,
        {
            let ghost rest = ps.skip(i as int);
            assert(rest[0] == ps[i as int]);
            assert(ps[i as int].0 == self.pairs@[i as int].0@);
            assert(ps[i as int].1 == self.pairs@[i as int].1@);
            if same(self.pairs[i].0.as_str(), name) {
                return Some(self.pairs[i].1.clone());
            }
            assert(rest.skip(1) =~= ps.skip(i + 1));
            i = i + 1;
        }
        None
    }
}

/// A variable has the value of the first pair with its name; without such a pair it is not set.
pub proof fn law_first_definition_counts(pairs: Seq<(Seq<char>, Seq<char>)>, name: Seq<char>)
    ensures
        match lookup(definitions(pairs), name) {
            Some(v) => exists|i: int|
                0 <= i < pairs.len() && #[trigger] pairs[i] == (name, v) && (forall|k: int|
                    0 <= k < i ==> (#[trigger] pairs[k]).0 != name),
            None => forall|i: int| 0 <= i < pairs.len() ==> (#[trigger] pairs[i]).0 != name,
        },
    decreases pairs.len(),
{
    if pairs.len() > 0 {
        let rest = pairs.skip(1);
        law_first_definition_counts(rest, name);
        if pairs[0].0 == name {
            assert(pairs[0] == (name, pairs[0].1));
        } else {
            assert(lookup(definitions(pairs), name) == lookup(definitions(rest), name));
            assert(forall|k: int| 1 <= k < pairs.len() ==> #[trigger] pairs[k] == rest[k - 1]);
            match lookup(definitions(rest), name) {
                Some(v) => {
                    let i = choose|i: int|
                        0 <= i < rest.len() && #[trigger] rest[i] == (name, v) && (forall|k: int|
                            0 <= k < i ==> (#[trigger] rest[k]).0 != name);
                    assert(pairs[i + 1] == (name, v));
                },
                None => {},
            }
        }
    }
}

} // verus!
