//! The intern table: the name each string id stands for.

use std::collections::HashMap;
use vstd::prelude::*;
use vstd::string::*;
use crate::protocol::StringId;

verus! {

broadcast use vstd::std_specs::hash::group_hash_axioms;

/// Names by string id, as registered so far.
#[derive(Debug)]
pub struct Names {
    table: HashMap<u32, String>,
}

impl View for Names {
    type V = Map<u32, Seq<char>>;

    closed spec fn view(&self) -> Map<u32, Seq<char>> {
        self.table@.map_values(|s: String| s@)
    }
}

impl Default for Names {
    fn default() -> (r: Self)
        ensures
            r@ == Map::<u32, Seq<char>>::empty(),
    {
        Names::new()
    }
}

/// The name an id stands for, if it was registered.
pub open spec fn name_in(names: Map<u32, Seq<char>>, id: StringId) -> Option<Seq<char>> {
    if names.contains_key(id.0) {
        Some(names[id.0])
    } else {
        None
    }
}

impl Names {
    /// The empty table.
    #[must_use]
    pub fn new() -> (r: Self)
        ensures
            r@ == Map::<u32, Seq<char>>::empty(),
    {
        let r = Names { table: HashMap::new() };
        proof {
            assert(r@ =~= Map::<u32, Seq<char>>::empty());
        }
        r
    }

    /// Let `id` stand for `name` from now on.
    pub fn register(&mut self, id: StringId, name: &str)
        ensures
            final(self)@ == old(self)@.insert(id.0, name@),
    {
        let _ = self.table.insert(id.0, name.to_owned());
        proof {
            assert(self@ =~= old(self)@.insert(id.0, name@));
        }
    }

    /// The name `id` stands for, or `None` where it was not registered yet.
    #[must_use]
    pub fn resolve(&self, id: StringId) -> (r: Option<String>)
        ensures
            match name_in(self@, id) {
                Some(name) => r is Some && (r->0)@ == name,
                None => r is None,
            },
    {
        match self.table.get(&id.0) {
            Some(name) => Some(name.clone()),
            None => None,
        }
    }
}

} // verus!
