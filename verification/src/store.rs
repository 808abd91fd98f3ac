//! The record store: a deduplicated collection of [`Application`] records
//! keyed by name.
//!
//! The store is append-mostly: records are only added, by an atomic
//! insert-or-ignore, and the first record seen for a name is the one kept.
//! Its invariant — at most one record per name — is preserved by every
//! operation, so any interleaving of insertions (for instance two rebuilds
//! running at once over the same directory) leaves the names unique.

use vstd::prelude::*;

use crate::parser::Application;
use crate::parser::AppView;

verus! {

/// Outcome of an insert-or-ignore.
#[derive(Debug, Clone, Copy, PartialEq, Eq, Structural)]
pub enum InsertOutcome {
    /// The record was added: no record of that name was present.
    Inserted,
    /// A record of that name was already present; the store is unchanged.
    AlreadyPresent,
}

/// Whether some record in `s` carries the name `n`.
pub open spec fn contains_name(s: Seq<AppView>, n: Seq<char>) -> bool {
    exists|i: int| 0 <= i < s.len() && (#[trigger] s[i]).name == n
}

/// No two records of `s` share a name.
pub open spec fn unique_names(s: Seq<AppView>) -> bool {
    forall|i: int, j: int|
        #![trigger s[i].name, s[j].name]
        0 <= i < j < s.len() ==> s[i].name != s[j].name
}

/// Insert-or-ignore: `s` unchanged when the name is taken, `s` with `a`
/// appended otherwise.
pub open spec fn spec_insert_if_absent(s: Seq<AppView>, a: AppView) -> Seq<AppView> {
    if contains_name(s, a.name) {
        s
    } else {
        s.push(a)
    }
}

/// Insert-or-ignore of every record of `apps` in order, starting from `s`.
pub open spec fn spec_insert_all(s: Seq<AppView>, apps: Seq<AppView>) -> Seq<AppView>
    decreases apps.len(),
{
    if apps.len() == 0 {
        s
    } else {
        spec_insert_all(spec_insert_if_absent(s, apps[0]), apps.drop_first())
    }
}

/// One insert-or-ignore keeps the names unique, makes the inserted name
/// present, and keeps every present name present.
pub proof fn lemma_insert_preserves_unique(s: Seq<AppView>, a: AppView)
    requires
        unique_names(s),
    ensures
        unique_names(spec_insert_if_absent(s, a)),
        contains_name(spec_insert_if_absent(s, a), a.name),
        forall|n: Seq<char>|
            #[trigger] contains_name(s, n) ==> contains_name(spec_insert_if_absent(s, a), n),
{
    let t = spec_insert_if_absent(s, a);
    if contains_name(s, a.name) {
    } else {
        assert(t[s.len() as int] == a);
        assert forall|i: int, j: int| 0 <= i < j < t.len() implies t[i].name != t[j].name by {
            if j < s.len() {
            } else {
                assert(t[i] == s[i]);
                assert(t[j] == a);
            }
        }
    }
    assert forall|n: Seq<char>| #[trigger] contains_name(s, n) implies contains_name(t, n) by {
        let i = choose|i: int| 0 <= i < s.len() && (#[trigger] s[i]).name == n;
        assert(t[i].name == n);
    }
}

/// Insert-or-ignore makes exactly the inserted name newly present: a name is
/// present afterwards when it was present before or is the name inserted.
pub proof fn lemma_insert_contains_name(s: Seq<AppView>, a: AppView, n: Seq<char>)
    ensures
        contains_name(spec_insert_if_absent(s, a), n) <==> (contains_name(s, n) || a.name == n),
{
    let t = spec_insert_if_absent(s, a);
    if contains_name(s, a.name) {
        if a.name == n {
            let i = choose|i: int| 0 <= i < s.len() && (#[trigger] s[i]).name == a.name;
            assert(s[i].name == n);
        }
    } else {
        if contains_name(t, n) {
            let i = choose|i: int| 0 <= i < t.len() && (#[trigger] t[i]).name == n;
            if i < s.len() {
                assert(s[i].name == n);
            } else {
                assert(t[i] == a);
            }
        }
        if contains_name(s, n) {
            let i = choose|i: int| 0 <= i < s.len() && (#[trigger] s[i]).name == n;
            assert(t[i].name == n);
        }
        if a.name == n {
            assert(t[s.len() as int].name == n);
        }
    }
}

/// Any sequence of insert-or-ignore operations — for example the interleaved
/// insertions of two rebuilds running at once — keeps the names unique:
/// however the race is ordered, no two records with the same name survive.
pub proof fn lemma_insert_all_preserves_unique(s: Seq<AppView>, apps: Seq<AppView>)
    requires
        unique_names(s),
    ensures
        unique_names(spec_insert_all(s, apps)),
    decreases apps.len(),
{
    if apps.len() > 0 {
        lemma_insert_preserves_unique(s, apps[0]);
        lemma_insert_all_preserves_unique(spec_insert_if_absent(s, apps[0]), apps.drop_first());
    }
}

/// The durable, deduplicated collection of records, keyed by name.
pub struct RecordStore {
    records: Vec<Application>,
}

impl View for RecordStore {
    type V = Seq<AppView>;

    closed spec fn view(&self) -> Seq<AppView> {
        Seq::new(self.records@.len(), |i: int| self.records@[i]@)
    }
}

impl RecordStore {
    /// Well-formed: at most one record per name.
    pub open spec fn wf(&self) -> bool {
        unique_names(self@)
    }

    /// An empty store.
    pub fn new() -> (s: Self)
        ensures
            s.wf(),
            s@ == Seq::<AppView>::empty(),
    {
        let s = RecordStore { records: Vec::new() };
        proof {
            assert(s@ =~= Seq::<AppView>::empty());
        }
        s
    }

    /// The number of records.
    pub fn len(&self) -> (n: usize)
        ensures
            n == self@.len(),
    {
        self.records.len()
    }

    /// Whether a record with this name is present.
    pub fn contains(&self, name: &String) -> (r: bool)
        ensures
            r == contains_name(self@, name@),
    {
        let n = self.records.len();
        let mut i: usize = 0;
        while i < n
            invariant
                n == self@.len(),
                n == self.records@.len(),
                i <= n,
                forall|t: int| 0 <= t < n ==> #[trigger] self@[t] == self.records@[t]@,
                forall|t: int| 0 <= t < i ==> (#[trigger] self@[t]).name != name@,
            decreases n - i,
        {
            if self.records[i].name == *name {
                proof {
                    assert(self@[i as int].name == name@);
                }
                return true;
            }
            i = i + 1;
        }
        false
    }

    /// Atomic insert-or-ignore: adds `app` unless a record of the same name
    /// is present, and says which of the two happened. The first record seen
    /// for a name is the one kept, so names stay unique.
    pub fn insert_if_absent(&mut self, app: Application) -> (r: InsertOutcome)
        requires
            old(self).wf(),
        ensures
            final(self).wf(),
            final(self)@ == spec_insert_if_absent(old(self)@, app@),
            (r is Inserted) == !contains_name(old(self)@, app@.name),
            contains_name(final(self)@, app@.name),
    {
        proof {
            lemma_insert_preserves_unique(old(self)@, app@);
        }
        if self.contains(&app.name) {
            InsertOutcome::AlreadyPresent
        } else {
            let ghost before = self@;
            self.records.push(app);
            proof {
                assert(self@ =~= before.push(app@));
            }
            InsertOutcome::Inserted
        }
    }

    /// Every record, in store order. The order carries no meaning.
    pub fn get_all(&self) -> (r: &Vec<Application>)
        ensures
            r@.len() == self@.len(),
            forall|i: int| 0 <= i < self@.len() ==> #[trigger] r@[i]@ == self@[i],
    {
        &self.records
    }
}

} // verus!
