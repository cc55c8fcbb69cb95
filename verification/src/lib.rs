//! In-memory multi-collection key-value engine: typed scalar values with
//! optional expiry, a scalar store, a positional list store and a set store.

pub mod entry;
pub mod errors;
pub mod general;
pub mod list;
pub mod numeric;
pub mod set;
pub mod value;

use vstd::prelude::*;
use crate::entry::{Entry, EntryModel};
use crate::general::{GeneralStore, StoreMode};
use crate::list::ListStore;

verus! {

/// A key together with the entry to store under it.
pub type KVPair = (String, Entry);

/// The engine's stores bundled for a dispatcher: one scalar store and one
/// list store.
pub struct GranatStore {
    general: GeneralStore,
    list: ListStore,
}

impl GranatStore {
    /// Contents of the scalar store.
    pub closed spec fn general_model(&self) -> Map<Seq<char>, EntryModel> {
        self.general@
    }

    /// Contents of the list store.
    pub closed spec fn lists_model(&self) -> Map<Seq<char>, Seq<EntryModel>> {
        self.list@
    }

    /// Validity of both stores.
    pub closed spec fn wf(&self) -> bool {
        self.general.wf() && self.list.wf()
    }

    /// Both stores empty, the scalar store with normal (overwrite) writes.
    pub fn new() -> (s: GranatStore)
        ensures
            s.general_model() == Map::<Seq<char>, EntryModel>::empty(),
            s.lists_model() == Map::<Seq<char>, Seq<EntryModel>>::empty(),
            s.wf(),
    {
        let g = GeneralStore::new();
        proof {
            assert(g.spec_mode() == StoreMode::Normal);
        }
        GranatStore { general: g, list: ListStore::new() }
    }
}

} // verus!
