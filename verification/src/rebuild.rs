//! The rebuild pass: a full rescan of a directory listing.
//!
//! The listing is handed in as plain values — one entry per directory entry,
//! with its file name, whether it is a regular file, and its text. The pass
//! filters the entries to regular files with the descriptor extension, parses
//! each candidate, and insert-or-ignores each successfully parsed record. A
//! parse failure skips that file and never aborts the scan.

use vstd::prelude::*;

use crate::parser::parse;
use crate::parser::spec_parse;
use crate::parser::AppView;
use crate::store::contains_name;
use crate::store::spec_insert_if_absent;
use crate::store::RecordStore;
use crate::text::range_eq_lit;
use crate::text::to_chars;

verus! {

/// Position of the last `'.'` in `s`, or `-1` when there is none.
pub open spec fn rfind_dot(s: Seq<char>) -> int
    decreases s.len(),
{
    if s.len() == 0 {
        -1
    } else if s[s.len() - 1] == '.' {
        s.len() - 1
    } else {
        rfind_dot(s.drop_last())
    }
}

/// A position with a dot (or `-1`) and no dot after it is exactly
/// `rfind_dot`.
pub proof fn lemma_rfind_dot_is(s: Seq<char>, k: int)
    requires
        -1 <= k < s.len(),
        k >= 0 ==> s[k] == '.',
        forall|j: int| k < j < s.len() ==> s[j] != '.',
    ensures
        rfind_dot(s) == k,
    decreases s.len(),
{
    if s.len() == 0 {
    } else if s[s.len() - 1] == '.' {
        assert(k == s.len() - 1);
    } else {
        assert(k < s.len() - 1);
        assert forall|j: int| k < j < s.drop_last().len() implies s.drop_last()[j] != '.' by {
            assert(s[j] != '.');
        }
        lemma_rfind_dot_is(s.drop_last(), k);
    }
}

/// The file name ends in the descriptor extension: a final `.desktop` whose
/// dot is not the first character.
pub open spec fn has_desktop_ext(name: Seq<char>) -> bool {
    rfind_dot(name) >= 1 && name.subrange(rfind_dot(name) + 1, name.len() as int) == "desktop"@
}

/// Whether this file name carries the descriptor extension.
pub fn is_descriptor_name(name: &str) -> (r: bool)
    ensures
        r == has_desktop_ext(name@),
{
    let cs = to_chars(name);
    let n = cs.len();
    let mut i: usize = n;
    while i > 0
        invariant
            i <= n,
            n == name@.len(),
            cs@ == name@,
            forall|j: int| i <= j < n ==> cs@[j] != '.',
        decreases i,
    {
        if cs[i - 1] == '.' {
            proof {
                lemma_rfind_dot_is(name@, i - 1);
            }
            if i - 1 >= 1 {
                let r = range_eq_lit(&cs, i, n, "desktop");
                return r;
            } else {
                return false;
            }
        }
        i = i - 1;
    }
    proof {
        lemma_rfind_dot_is(name@, -1);
    }
    false
}

/// One directory entry, as plain values: its file name, whether it is a
/// regular file, and its text.
pub struct FileEntry {
    pub name: String,
    pub is_file: bool,
    pub content: String,
}

/// The mathematical value of a [`FileEntry`].
#[verifier::ext_equal]
pub struct FileEntryView {
    pub name: Seq<char>,
    pub is_file: bool,
    pub content: Seq<char>,
}

impl View for FileEntry {
    type V = FileEntryView;

    open spec fn view(&self) -> FileEntryView {
        FileEntryView { name: self.name@, is_file: self.is_file, content: self.content@ }
    }
}

/// The values of a listing.
pub open spec fn entry_views(es: Seq<FileEntry>) -> Seq<FileEntryView> {
    Seq::new(es.len(), |i: int| es[i]@)
}

/// A candidate of the scan: a regular file with the descriptor extension.
/// No other entry is ever parsed or stored.
pub open spec fn is_candidate(e: FileEntryView) -> bool {
    e.is_file && has_desktop_ext(e.name)
}

/// The record an entry contributes: the parse of a candidate when it
/// succeeds, nothing otherwise.
pub open spec fn entry_record(e: FileEntryView) -> Option<AppView> {
    if is_candidate(e) && spec_parse(e.content) is Ok {
        Some(spec_parse(e.content)->Ok_0)
    } else {
        None
    }
}

/// The store contents after rescanning the listing `es` over the contents
/// `s`: every contributed record is insert-or-ignored, in listing order.
pub open spec fn spec_rebuild(s: Seq<AppView>, es: Seq<FileEntryView>) -> Seq<AppView>
    decreases es.len(),
{
    if es.len() == 0 {
        s
    } else {
        let s2 = match entry_record(es[0]) {
            Some(a) => spec_insert_if_absent(s, a),
            None => s,
        };
        spec_rebuild(s2, es.drop_first())
    }
}

/// Processing one more entry at the end of a listing is one more
/// insert-or-ignore after the rest.
proof fn lemma_rebuild_snoc(s: Seq<AppView>, es: Seq<FileEntryView>, e: FileEntryView)
    ensures
        spec_rebuild(s, es.push(e)) == (match entry_record(e) {
            Some(a) => spec_insert_if_absent(spec_rebuild(s, es), a),
            None => spec_rebuild(s, es),
        }),
    decreases es.len(),
{
    if es.len() == 0 {
        assert(es.push(e)[0] == e);
        assert(es.push(e).drop_first() =~= Seq::<FileEntryView>::empty());
        assert(spec_rebuild(s, es) == s);
        let s2 = match entry_record(e) {
            Some(a) => spec_insert_if_absent(s, a),
            None => s,
        };
        assert(spec_rebuild(s2, Seq::<FileEntryView>::empty()) == s2);
        assert(spec_rebuild(s, es.push(e)) == s2);
    } else {
        assert(es.push(e)[0] == es[0]);
        assert(es.push(e).drop_first() =~= es.drop_first().push(e));
        let s2 = match entry_record(es[0]) {
            Some(a) => spec_insert_if_absent(s, a),
            None => s,
        };
        lemma_rebuild_snoc(s2, es.drop_first(), e);
    }
}

/// The entry contributes a record named `n`.
pub open spec fn yields_name(e: FileEntryView, n: Seq<char>) -> bool {
    match entry_record(e) {
        Some(a) => a.name == n,
        None => false,
    }
}

/// A name is present after a rebuild exactly when it was present before, or
/// some entry of the listing contributes a record of that name — in whatever
/// order the listing comes: the set of stored names does not depend on it.
pub proof fn lemma_rebuild_names(s: Seq<AppView>, es: Seq<FileEntryView>, n: Seq<char>)
    ensures
        contains_name(spec_rebuild(s, es), n) <==> (contains_name(s, n) || exists|i: int|
            0 <= i < es.len() && yields_name(#[trigger] es[i], n)),
    decreases es.len(),
{
    if es.len() > 0 {
        let rest = es.drop_first();
        let s2 = match entry_record(es[0]) {
            Some(a) => spec_insert_if_absent(s, a),
            None => s,
        };
        match entry_record(es[0]) {
            Some(a) => crate::store::lemma_insert_contains_name(s, a, n),
            None => (),
        }
        assert(contains_name(s2, n) <==> (contains_name(s, n) || yields_name(es[0], n)));
        lemma_rebuild_names(s2, rest, n);
        assert((exists|i: int| 0 <= i < es.len() && yields_name(#[trigger] es[i], n)) <==> (
        yields_name(es[0], n) || exists|i: int|
            0 <= i < rest.len() && yields_name(#[trigger] rest[i], n))) by {
            if exists|i: int| 0 <= i < es.len() && yields_name(#[trigger] es[i], n) {
                let i = choose|i: int| 0 <= i < es.len() && yields_name(#[trigger] es[i], n);
                if i > 0 {
                    assert(rest[i - 1] == es[i]);
                    assert(yields_name(rest[i - 1], n));
                }
            }
            if exists|i: int| 0 <= i < rest.len() && yields_name(#[trigger] rest[i], n) {
                let i = choose|i: int| 0 <= i < rest.len() && yields_name(#[trigger] rest[i], n);
                assert(es[i + 1] == rest[i]);
                assert(yields_name(es[i + 1], n));
            }
        }
    }
}

/// The records the entries of a listing contribute, in listing order.
pub open spec fn contributed_records(es: Seq<FileEntryView>) -> Seq<AppView>
    decreases es.len(),
{
    if es.len() == 0 {
        Seq::<AppView>::empty()
    } else {
        match entry_record(es[0]) {
            Some(a) => seq![a] + contributed_records(es.drop_first()),
            None => contributed_records(es.drop_first()),
        }
    }
}

/// A rebuild is exactly the insert-or-ignore of its contributed records, in
/// listing order. So what holds of any sequence of insertions holds of a
/// rebuild — in particular, by `lemma_insert_all_preserves_unique`, any
/// interleaving of the insertions of two rebuilds racing over the same
/// directory keeps the stored names unique, and neither rebuild can fail on
/// the race: insert-or-ignore is total.
pub proof fn lemma_rebuild_is_insert_all(s: Seq<AppView>, es: Seq<FileEntryView>)
    ensures
        spec_rebuild(s, es) == crate::store::spec_insert_all(s, contributed_records(es)),
    decreases es.len(),
{
    if es.len() > 0 {
        let rest = es.drop_first();
        match entry_record(es[0]) {
            Some(a) => {
                assert((seq![a] + contributed_records(rest))[0] == a);
                assert((seq![a] + contributed_records(rest)).drop_first() =~= contributed_records(
                    rest,
                ));
                lemma_rebuild_is_insert_all(spec_insert_if_absent(s, a), rest);
            },
            None => {
                lemma_rebuild_is_insert_all(s, rest);
            },
        }
    }
}

/// A rebuild whose every contributed name is already stored changes nothing.
proof fn lemma_rebuild_noop(t: Seq<AppView>, es: Seq<FileEntryView>)
    requires
        forall|i: int|
            0 <= i < es.len() ==> (match entry_record(#[trigger] es[i]) {
                Some(a) => contains_name(t, a.name),
                None => true,
            }),
    ensures
        spec_rebuild(t, es) == t,
    decreases es.len(),
{
    if es.len() > 0 {
        let rest = es.drop_first();
        assert(match entry_record(es[0]) {
            Some(a) => contains_name(t, a.name),
            None => true,
        });
        assert forall|i: int| 0 <= i < rest.len() implies (match entry_record(
            #[trigger] rest[i],
        ) {
            Some(a) => contains_name(t, a.name),
            None => true,
        }) by {
            assert(rest[i] == es[i + 1]);
            assert(match entry_record(es[i + 1]) {
                Some(a) => contains_name(t, a.name),
                None => true,
            });
        }
        lemma_rebuild_noop(t, rest);
    }
}

/// Idempotence: rebuilding once more over an unchanged listing changes
/// nothing, so any number of rebuilds leaves exactly one record per
/// distinct name.
pub proof fn lemma_rebuild_idempotent(s: Seq<AppView>, es: Seq<FileEntryView>)
    ensures
        spec_rebuild(spec_rebuild(s, es), es) == spec_rebuild(s, es),
{
    let t = spec_rebuild(s, es);
    assert forall|i: int| 0 <= i < es.len() implies (match entry_record(#[trigger] es[i]) {
        Some(a) => contains_name(t, a.name),
        None => true,
    }) by {
        match entry_record(es[i]) {
            Some(a) => {
                lemma_rebuild_names(s, es, a.name);
                assert(yields_name(es[i], a.name));
            },
            None => (),
        }
    }
    lemma_rebuild_noop(t, es);
}

/// Provenance: every record after a rebuild either was stored before it or
/// is the successful parse of a candidate of the listing. An entry without
/// the descriptor extension, one that is no regular file, and one whose
/// parse fails contribute no record.
pub proof fn lemma_rebuild_provenance(s: Seq<AppView>, es: Seq<FileEntryView>, j: int)
    requires
        0 <= j < spec_rebuild(s, es).len(),
    ensures
        s.contains(spec_rebuild(s, es)[j]) || exists|i: int|
            0 <= i < es.len() && entry_record(#[trigger] es[i]) == Some(spec_rebuild(s, es)[j]),
    decreases es.len(),
{
    let r = spec_rebuild(s, es)[j];
    if es.len() == 0 {
        assert(s[j] == r);
    } else {
        let rest = es.drop_first();
        let s2 = match entry_record(es[0]) {
            Some(a) => spec_insert_if_absent(s, a),
            None => s,
        };
        lemma_rebuild_provenance(s2, rest, j);
        assert(spec_rebuild(s2, rest)[j] == r);
        if s2.contains(r) {
            let i = choose|i: int| 0 <= i < s2.len() && s2[i] == r;
            match entry_record(es[0]) {
                Some(a) => {
                    if contains_name(s, a.name) {
                        assert(s[i] == r);
                    } else {
                        if i < s.len() {
                            assert(s[i] == r);
                        } else {
                            assert(r == a);
                            assert(entry_record(es[0]) == Some(r));
                        }
                    }
                },
                None => {
                    assert(s[i] == r);
                },
            }
        } else {
            let i = choose|i: int|
                0 <= i < rest.len() && entry_record(#[trigger] rest[i]) == Some(r);
            assert(es[i + 1] == rest[i]);
            assert(entry_record(es[i + 1]) == Some(r));
        }
    }
}

/// Rescans the listing into the store: filters to regular files with the
/// descriptor extension, parses each, stores each successful parse by
/// insert-or-ignore, and skips every failure without aborting the scan.
pub fn rebuild_into(store: &mut RecordStore, entries: &Vec<FileEntry>)
    requires
        old(store).wf(),
    ensures
        final(store).wf(),
        final(store)@ == spec_rebuild(old(store)@, entry_views(entries@)),
{
    let ghost evs = entry_views(entries@);
    let n = entries.len();
    let mut k: usize = 0;
    proof {
        assert(evs.subrange(0, 0) =~= Seq::<FileEntryView>::empty());
    }
    while k < n
        invariant
            n == entries@.len(),
            n == evs.len(),
            evs == entry_views(entries@),
            k <= n,
            store.wf(),
            store@ == spec_rebuild(old(store)@, evs.subrange(0, k as int)),
        decreases n - k,
    {
        let e = &entries[k];
        proof {
            assert(evs[k as int] == entries@[k as int]@);
        }
        let ghost at_k = store@;
        let keep = if e.is_file {
            is_descriptor_name(e.name.as_str())
        } else {
            false
        };
        if keep {
            match parse(e.content.as_str()) {
                Ok(app) => {
                    store.insert_if_absent(app);
                },
                Err(_) => {},
            }
        }
        proof {
            lemma_rebuild_snoc(old(store)@, evs.subrange(0, k as int), evs[k as int]);
            assert(evs.subrange(0, k + 1) =~= evs.subrange(0, k as int).push(evs[k as int]));
        }
        k = k + 1;
    }
    proof {
        assert(evs.subrange(0, n as int) =~= evs);
    }
}

} // verus!
