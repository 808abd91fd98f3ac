//! The cache manager facade: owns the record store, constructed once per
//! process, and drives every rebuild trigger.
//!
//! The surrounding process resolves the cache location, loads and persists
//! the store, lists the applications directory, and hands each rebuild
//! trigger a plain listing; the manager performs the verified part — the
//! rescan itself — and is stateless beyond the store it owns.

use vstd::prelude::*;

use crate::parser::Application;
use crate::parser::AppView;
use crate::rebuild::entry_views;
use crate::rebuild::rebuild_into;
use crate::rebuild::spec_rebuild;
use crate::rebuild::FileEntry;
use crate::store::unique_names;
use crate::store::RecordStore;

verus! {

/// The process-wide entry point of the application index cache.
pub struct CacheManager {
    store: RecordStore,
}

impl View for CacheManager {
    type V = Seq<AppView>;

    closed spec fn view(&self) -> Seq<AppView> {
        self.store@
    }
}

impl CacheManager {
    /// Well-formed: at most one record per name.
    pub open spec fn wf(&self) -> bool {
        unique_names(self@)
    }

    /// A manager over an empty store.
    pub fn new() -> (m: Self)
        ensures
            m.wf(),
            m@ == Seq::<AppView>::empty(),
    {
        CacheManager { store: RecordStore::new() }
    }

    /// A full rescan of the given directory listing: parses every regular
    /// file with the descriptor extension and stores each successful parse
    /// by insert-or-ignore. Repeatable: a second rescan of an unchanged
    /// listing changes nothing.
    pub fn rebuild(&mut self, entries: &Vec<FileEntry>)
        requires
            old(self).wf(),
        ensures
            final(self).wf(),
            final(self)@ == spec_rebuild(old(self)@, entry_views(entries@)),
    {
        rebuild_into(&mut self.store, entries);
    }

    /// Restores one record, by insert-or-ignore, into the store: the path by
    /// which the surrounding process reloads persisted records at startup.
    pub fn restore(&mut self, app: Application)
        requires
            old(self).wf(),
        ensures
            final(self).wf(),
            final(self)@ == crate::store::spec_insert_if_absent(old(self)@, app@),
    {
        self.store.insert_if_absent(app);
    }

    /// Every stored record, in store order. The order carries no meaning.
    pub fn get_all(&self) -> (r: &Vec<Application>)
        ensures
            r@.len() == self@.len(),
            forall|i: int| 0 <= i < self@.len() ==> #[trigger] r@[i]@ == self@[i],
    {
        self.store.get_all()
    }

    /// The number of stored records.
    pub fn len(&self) -> (n: usize)
        ensures
            n == self@.len(),
    {
        self.store.len()
    }
}

} // verus!
