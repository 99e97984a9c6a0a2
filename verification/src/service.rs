//! Starting the service: its settings, and the state that it starts from.
use vstd::prelude::*;
use crate::init::{loaded_names, Registry};

verus! {

/// How the service is set up.
pub struct Settings {
    /// Where the database is.
    pub database_url: String,
}

/// A running service: its settings and its registry of projects.
pub struct Typhon {
    pub settings: Settings,
    pub registry: Registry,
}

/// The service started with `settings`, over the projects `names` that the database
/// holds: each stored project is registered, and the next new project gets a handle that
/// no stored project has.
pub fn typhon(settings: Settings, names: Vec<String>) -> (r: Typhon)
    requires
        names@.len() < u64::MAX,
    ensures
        r.settings == settings,
        r.registry.wf(),
        r.registry.next_handle() == names@.len(),
        forall|k: Seq<char>| r.registry@.contains_key(k)
            <==> exists|i: int| 0 <= i < names@.len() && #[trigger] names@[i]@ == k,
        forall|k: Seq<char>| #[trigger] r.registry@.contains_key(k) ==> r.registry@[k] is Some,
        forall|i: int|
            0 <= i < names@.len() && (forall|j: int| i < j < names@.len() ==> #[trigger] names@[j]@ != names@[i]@)
                ==> r.registry@[#[trigger] names@[i]@] == Some(i as u64),
        r.registry@.dom() == loaded_names(names@),
{
    let registry = Registry::load(names);
    Typhon { settings, registry }
}

} // verus!
