//! The register table: which value each register name stands for.
//!
//! A name stands for one value at a time. Several names may stand for the
//! same value.

use crate::value_rc::{Store, Value};
use vstd::hash_map::StringHashMap;
use vstd::prelude::*;

verus! {

/// The register names with the handle of the value of each.
pub struct RegisterTable {
    names: StringHashMap<usize>,
}

/// Every handle in `names` is below `len`.
pub open spec fn handles_in_range(names: Map<Seq<char>, usize>, len: nat) -> bool {
    forall|name: Seq<char>| #[trigger] names.contains_key(name) ==> names[name] < len
}

/// The values after `name` was resolved: as before where the name is known,
/// else with a fresh value, of number zero and without a link, at the end.
pub open spec fn resolved_nodes(
    nodes: Seq<Value>,
    names: Map<Seq<char>, usize>,
    name: Seq<char>,
) -> Seq<Value> {
    if names.contains_key(name) {
        nodes
    } else {
        nodes.push(Value { number: 0, next: None })
    }
}

/// The names after `name` was resolved: as before where the name is known,
/// else with `name` standing for the fresh value.
pub open spec fn resolved_names(
    nodes: Seq<Value>,
    names: Map<Seq<char>, usize>,
    name: Seq<char>,
) -> Map<Seq<char>, usize> {
    if names.contains_key(name) {
        names
    } else {
        names.insert(name, nodes.len() as usize)
    }
}

impl View for RegisterTable {
    type V = Map<Seq<char>, usize>;

    closed spec fn view(&self) -> Map<Seq<char>, usize> {
        self.names@
    }
}

impl RegisterTable {
    /// A table without names.
    pub fn new() -> (table: RegisterTable)
        ensures
            table@ == Map::<Seq<char>, usize>::empty(),
    {
        RegisterTable { names: StringHashMap::new() }
    }

    /// The handle that `name` stands for, if the name is known. Nothing is
    /// created.
    pub fn lookup(&self, name: &String) -> (handle: Option<usize>)
        ensures
            handle == (if self@.contains_key(name@) {
                Some(self@[name@])
            } else {
                None
            }),
    {
        match self.names.get(name.as_str()) {
            Some(handle) => Some(*handle),
            None => None,
        }
    }

    /// The handle that `name` stands for. Where the name is not known yet, a
    /// fresh value is put into `store` and `name` stands for it from now on.
    pub fn resolve(&mut self, name: &String, store: &mut Store) -> (handle: usize)
        requires
            old(store).wf(),
            handles_in_range(old(self)@, old(store)@.len()),
        ensures
            final(store).wf(),
            handles_in_range(final(self)@, final(store)@.len()),
            final(store)@ == resolved_nodes(old(store)@, old(self)@, name@),
            final(self)@ == resolved_names(old(store)@, old(self)@, name@),
            final(self)@.contains_key(name@),
            handle == final(self)@[name@],
            handle < final(store)@.len(),
    {
        match self.lookup(name) {
            Some(handle) => handle,
            None => {
                let handle = Value::new_wrapped(store);
                self.names.insert(name.clone(), handle);
                handle
            },
        }
    }
}

} // verus!
