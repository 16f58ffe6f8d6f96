//! Index: where stable IDs live.
//!
//! The store is the authoritative registry from IDs to paths and back; it cannot
//! be rebuilt from the documents. Keeping it behind a trait is deliberate: a
//! sidecar file, an in-memory map and a synchronised store are all valid homes.
//!
//! IDs are forever: deleting a document leaves a tombstone. The ID stops
//! resolving but is never forgotten, so it can never be minted again to mean
//! something else, and a dangling reference to it stays diagnosable.
use vstd::prelude::*;

use crate::error::{Failure, WorkspaceError};
use crate::identity::Id;
use crate::meta::{
    dict, entry, find_entry, keeps_null, kept_records, kept_text, lemma_text_keyed_is_plain,
    mapping_in, parse_mapping, reading, registry_text, registry_tree, serialize_records,
    text_keyed, tree, Format, MetaValue, Tree, REGISTRY,
};
use crate::path::{components, same_path, Comp};
use crate::table::{
    distinct, keyed, lemma_absent, lemma_entry, lemma_inserted, lemma_removed, lemma_table_len,
    lemma_updated, table,
};
use crate::text::{
    comes_before, lemma_precedes_strict, lemma_precedes_total, lemma_precedes_transitive, precedes,
    same,
};

verus! {

/// What a registry holds, as mathematical values.
#[verifier::ext_equal]
pub struct Registry {
    /// The path of each ID that resolves.
    pub live: Map<Seq<char>, Seq<char>>,
    /// The ID assigned to each path, paths being told apart by their components.
    pub owners: Map<Seq<Comp>, Seq<char>>,
    /// The IDs on record: those that resolve and those that are retired.
    pub known: Set<Seq<char>>,
}

/// Whether the two directions of a registry agree: every ID that resolves owns
/// the path it resolves to, and every path that has an owner is the path its
/// owner resolves to.
pub open spec fn agrees(r: Registry) -> bool {
    &&& forall|id: Seq<char>| #[trigger]
        r.live.contains_key(id) ==> r.owners.contains_key(components(r.live[id]))
            && r.owners[components(r.live[id])] == id
    &&& forall|p: Seq<Comp>| #[trigger]
        r.owners.contains_key(p) ==> r.live.contains_key(r.owners[p]) && components(
            r.live[r.owners[p]],
        ) == p
}

/// Somewhere IDs are persisted and queried.
pub trait IndexStore {
    /// What the store holds.
    spec fn registry(&self) -> Registry;

    /// Whether the store is laid out as its operations need it.
    spec fn wf(&self) -> bool;

    /// What the store holds after `register`.
    spec fn registered(&self, id: Seq<char>, path: Seq<char>) -> Registry;

    /// What the store holds after `set_path`.
    spec fn moved(&self, id: Seq<char>, path: Seq<char>) -> Registry;

    /// What the store holds after `unregister`.
    spec fn retired(&self, id: Seq<char>) -> Registry;

    /// Record that `id` names the document at `path`.
    fn register(&mut self, id: &Id, path: &str)
        requires
            old(self).wf(),
        ensures
            final(self).wf(),
            final(self).registry() == old(self).registered(id@, path@),
    ;

    /// Resolve an ID to its current path. `None` for unknown and for tombstoned
    /// IDs; `is_known` tells them apart.
    fn resolve(&self, id: &Id) -> (r: Option<String>)
        requires
            self.wf(),
        ensures
            match r {
                Some(path) => self.registry().live.contains_key(id@) && path@
                    == self.registry().live[id@],
                None => !self.registry().live.contains_key(id@),
            },
    ;

    /// The ID currently assigned to `path`, if any.
    fn id_for_path(&self, path: &str) -> (r: Option<Id>)
        requires
            self.wf(),
        ensures
            match r {
                Some(id) => self.registry().owners.contains_key(components(path@)) && id@
                    == self.registry().owners[components(path@)],
                None => !self.registry().owners.contains_key(components(path@)),
            },
    ;

    /// Update the path an ID points at (after a move or rename).
    fn set_path(&mut self, id: &Id, new_path: &str)
        requires
            old(self).wf(),
        ensures
            final(self).wf(),
            final(self).registry() == old(self).moved(id@, new_path@),
    ;

    /// Retire an ID (after a delete). A store with tombstones keeps the ID on
    /// record so it is never reissued; a plain store may forget it.
    fn unregister(&mut self, id: &Id)
        requires
            old(self).wf(),
        ensures
            final(self).wf(),
            final(self).registry() == old(self).retired(id@),
    ;

    /// Whether `id` has ever been issued, live or tombstoned. A fresh ID must
    /// not be known.
    fn is_known(&self, id: &Id) -> (r: bool)
        requires
            self.wf(),
        ensures
            r == self.registry().known.contains(id@),
    ;
}

/// No index, for workspaces without identity. Registers nothing, resolves
/// nothing.
#[derive(Debug, Clone, Copy)]
pub struct NoIndex;

/// The registry that holds nothing.
pub open spec fn empty_registry() -> Registry {
    Registry { live: Map::empty(), owners: Map::empty(), known: Set::empty() }
}

impl IndexStore for NoIndex {
    open spec fn registry(&self) -> Registry {
        empty_registry()
    }

    open spec fn wf(&self) -> bool {
        true
    }

    open spec fn registered(&self, id: Seq<char>, path: Seq<char>) -> Registry {
        empty_registry()
    }

    open spec fn moved(&self, id: Seq<char>, path: Seq<char>) -> Registry {
        empty_registry()
    }

    open spec fn retired(&self, id: Seq<char>) -> Registry {
        empty_registry()
    }

    fn register(&mut self, id: &Id, path: &str) {
    }

    fn resolve(&self, id: &Id) -> (r: Option<String>) {
        None
    }

    fn id_for_path(&self, path: &str) -> (r: Option<Id>) {
        None
    }

    fn set_path(&mut self, id: &Id, new_path: &str) {
    }

    fn unregister(&mut self, id: &Id) {
    }

    fn is_known(&self, id: &Id) -> (r: bool) {
        false
    }
}

// ---- the in-memory registry ----

/// The ID-to-path records, as plain values.
pub open spec fn records(list: Seq<(Id, String)>) -> Seq<(Seq<char>, Seq<char>)> {
    list.map_values(|e: (Id, String)| (e.0@, e.1@))
}

/// The path-to-ID records, as plain values.
pub open spec fn owner_records(list: Seq<(String, Id)>) -> Seq<(Seq<Comp>, Seq<char>)> {
    list.map_values(|e: (String, Id)| (components(e.0@), e.1@))
}

/// The IDs of some records.
pub open spec fn ids<V>(rs: Seq<(Seq<char>, V)>) -> Seq<Seq<char>> {
    rs.map_values(|e: (Seq<char>, V)| e.0)
}

/// Whether IDs are sorted, with no ID twice.
pub open spec fn ordered(ks: Seq<Seq<char>>) -> bool {
    forall|i: int, j: int| 0 <= i < j < ks.len() ==> precedes(#[trigger] ks[i], #[trigger] ks[j])
}

proof fn lemma_ordered_distinct<V>(rs: Seq<(Seq<char>, V)>)
    requires
        ordered(ids(rs)),
    ensures
        distinct(rs),
{
    assert forall|i: int, j: int| 0 <= i < j < rs.len() implies (#[trigger] rs[i]).0 != (
    #[trigger] rs[j]).0 by {
        assert(precedes(ids(rs)[i], ids(rs)[j]));
        lemma_precedes_strict(rs[i].0, rs[i].0);
    }
}

/// Where an ID stands among, or belongs between, sorted IDs.
spec fn belongs(ks: Seq<Seq<char>>, at: int, id: Seq<char>) -> bool {
    &&& 0 <= at <= ks.len()
    &&& forall|j: int| 0 <= j < at ==> precedes(#[trigger] ks[j], id)
    &&& at < ks.len() ==> !precedes(ks[at], id)
}

proof fn lemma_belongs(ks: Seq<Seq<char>>, at: int, id: Seq<char>)
    requires
        ordered(ks),
        belongs(ks, at, id),
    ensures
        forall|j: int| at < j < ks.len() ==> precedes(id, #[trigger] ks[j]),
        at < ks.len() && ks[at] != id ==> precedes(id, ks[at]),
        forall|j: int| 0 <= j < ks.len() && j != at ==> #[trigger] ks[j] != id,
{
    lemma_precedes_strict(id, id);
    if at < ks.len() {
        lemma_precedes_total(ks[at], id);
    }
    assert forall|j: int| at < j < ks.len() implies precedes(id, #[trigger] ks[j]) by {
        assert(precedes(ks[at], ks[j]));
        if ks[at] != id {
            lemma_precedes_transitive(id, ks[at], ks[j]);
        }
    }
}

proof fn lemma_ordered_insert(ks: Seq<Seq<char>>, at: int, id: Seq<char>)
    requires
        ordered(ks),
        belongs(ks, at, id),
        at < ks.len() ==> ks[at] != id,
    ensures
        ordered(ks.insert(at, id)),
{
    let ns = ks.insert(at, id);
    lemma_belongs(ks, at, id);
    assert forall|i: int, j: int| 0 <= i < j < ns.len() implies precedes(
        #[trigger] ns[i],
        #[trigger] ns[j],
    ) by {
        if i != at {
            assert(ns[i] == ks[if i < at {
                i
            } else {
                i - 1
            }]);
        }
        if j != at {
            assert(ns[j] == ks[if j < at {
                j
            } else {
                j - 1
            }]);
        }
    }
}

/// A simple in-memory registry, for tests and short-lived workspaces. No
/// tombstones: an unregistered ID is forgotten entirely.
#[derive(Debug, Clone)]
pub struct InMemoryIndex {
    forward: Vec<(Id, String)>,
    reverse: Vec<(String, Id)>,
}

/// The position of `id` in records sorted by ID, or where it belongs.
fn find_record(list: &Vec<(Id, String)>, id: &Id) -> (r: usize)
    requires
        ordered(ids(records(list@))),
    ensures
        belongs(ids(records(list@)), r as int, id@),
{
    let ghost ks = ids(records(list@));
    let mut i: usize = 0;
    while i < list.len()
        invariant
            i <= list@.len(),
            ks == ids(records(list@)),
            forall|j: int| 0 <= j < i ==> precedes(#[trigger] ks[j], id@),
        decreases list@.len() - i,
    {
        assert(ks[i as int] == list@[i as int].0@);
        if !comes_before(list[i].0.as_str(), id.as_str()) {
            return i;
        }
        i += 1;
    }
    i
}

/// The position of the record for `path`, if there is one.
fn find_owner(list: &Vec<(String, Id)>, path: &str) -> (r: Option<usize>)
    ensures
        match r {
            Some(i) => i < list@.len() && owner_records(list@)[i as int].0 == components(path@),
            None => forall|i: int|
                0 <= i < list@.len() ==> (#[trigger] owner_records(list@)[i]).0 != components(
                    path@,
                ),
        },
{
    let mut i: usize = 0;
    while i < list.len()
        invariant
            i <= list@.len(),
            forall|j: int|
                0 <= j < i ==> (#[trigger] owner_records(list@)[j]).0 != components(path@),
        decreases list@.len() - i,
    {
        assert(owner_records(list@)[i as int].0 == components(list@[i as int].0@));
        if same_path(list[i].0.as_str(), path) {
            return Some(i);
        }
        i += 1;
    }
    None
}

impl InMemoryIndex {
    /// An empty registry.
    pub fn new() -> (r: InMemoryIndex)
        ensures
            r.wf(),
            r.registry() == empty_registry(),
    {
        let r = InMemoryIndex { forward: Vec::new(), reverse: Vec::new() };
        assert(r.registry() =~= empty_registry());
        r
    }

    /// The number of registered IDs.
    pub fn len(&self) -> (r: usize)
        requires
            self.wf(),
        ensures
            r == self.registry().live.dom().len(),
    {
        proof {
            lemma_ordered_distinct(records(self.forward@));
            lemma_table_len(records(self.forward@));
        }
        self.forward.len()
    }

    /// Whether the registry is empty.
    pub fn is_empty(&self) -> (r: bool)
        requires
            self.wf(),
        ensures
            r == self.registry().live.dom().is_empty(),
    {
        proof {
            lemma_ordered_distinct(records(self.forward@));
            lemma_table_len(records(self.forward@));
            if self.forward@.len() > 0 {
                lemma_entry(records(self.forward@), 0);
            }
        }
        self.forward.len() == 0
    }

    /// The records, sorted by ID.
    pub fn records(&self) -> (r: Vec<(Id, String)>)
        requires
            self.wf(),
        ensures
            ordered(ids(records(r@))),
            table(records(r@)) == self.registry().live,
    {
        let mut out: Vec<(Id, String)> = Vec::new();
        let mut i: usize = 0;
        while i < self.forward.len()
            invariant
                i <= self.forward@.len(),
                records(out@) == records(self.forward@).take(i as int),
            decreases self.forward@.len() - i,
        {
            let ghost before = records(out@);
            out.push((self.forward[i].0.copy(), self.forward[i].1.clone()));
            i += 1;
            assert(records(out@) =~= before.push(records(self.forward@)[i - 1]));
            assert(records(out@) =~= records(self.forward@).take(i as int));
        }
        assert(records(out@) =~= records(self.forward@));
        out
    }

    /// Makes `id` resolve to `path`, and hands back the path it resolved to.
    fn put_forward(&mut self, id: &Id, path: &str) -> (r: Option<String>)
        requires
            old(self).wf(),
        ensures
            final(self).wf(),
            final(self).reverse == old(self).reverse,
            final(self).registry().live == old(self).registry().live.insert(id@, path@),
            match r {
                Some(p) => old(self).registry().live.contains_key(id@) && p@
                    == old(self).registry().live[id@],
                None => !old(self).registry().live.contains_key(id@),
            },
    {
        let ghost rs = records(self.forward@);
        let at = find_record(&self.forward, id);
        proof {
            assert(forall|j: int| 0 <= j < rs.len() ==> ids(rs)[j] == (#[trigger] rs[j]).0);
            lemma_belongs(ids(rs), at as int, id@);
            lemma_ordered_distinct(rs);
            if at < rs.len() {
                lemma_entry(rs, at as int);
            }
        }
        if at < self.forward.len() && same(self.forward[at].0.as_str(), id.as_str()) {
            let was = self.forward[at].1.clone();
            self.forward.set(at, (id.copy(), path.to_owned()));
            proof {
                lemma_updated(rs, at as int, path@);
                assert(records(self.forward@) =~= rs.update(at as int, (id@, path@)));
                assert(ids(records(self.forward@)) =~= ids(rs));
            }
            Some(was)
        } else {
            self.forward.insert(at, (id.copy(), path.to_owned()));
            proof {
                lemma_absent(rs, id@);
                lemma_inserted(rs, at as int, id@, path@);
                lemma_ordered_insert(ids(rs), at as int, id@);
                assert(ids(rs.insert(at as int, (id@, path@))) =~= ids(rs).insert(at as int, id@));
                assert(records(self.forward@) =~= rs.insert(at as int, (id@, path@)));
            }
            None
        }
    }

    /// Makes `id` the owner of `path`.
    fn put_reverse(&mut self, path: &str, id: &Id)
        requires
            old(self).wf(),
        ensures
            final(self).wf(),
            final(self).forward == old(self).forward,
            final(self).registry().owners == old(self).registry().owners.insert(
                components(path@),
                id@,
            ),
    {
        let ghost os = owner_records(self.reverse@);
        match find_owner(&self.reverse, path) {
            Some(at) => {
                self.reverse.set(at, (path.to_owned(), id.copy()));
                proof {
                    lemma_updated(os, at as int, id@);
                    assert(owner_records(self.reverse@) =~= os.update(
                        at as int,
                        (components(path@), id@),
                    ));
                }
            },
            None => {
                self.reverse.push((path.to_owned(), id.copy()));
                proof {
                    lemma_inserted(os, os.len() as int, components(path@), id@);
                    assert(owner_records(self.reverse@) =~= os.insert(
                        os.len() as int,
                        (components(path@), id@),
                    ));
                }
            },
        }
    }

    /// Leaves `path` without an owner.
    fn clear_reverse(&mut self, path: &str)
        requires
            old(self).wf(),
        ensures
            final(self).wf(),
            final(self).forward == old(self).forward,
            final(self).registry().owners == old(self).registry().owners.remove(components(path@)),
    {
        let ghost os = owner_records(self.reverse@);
        match find_owner(&self.reverse, path) {
            Some(at) => {
                self.reverse.remove(at);
                proof {
                    lemma_removed(os, at as int);
                    assert(owner_records(self.reverse@) =~= os.remove(at as int));
                }
            },
            None => {
                proof {
                    lemma_absent(os, components(path@));
                    assert(table(os).remove(components(path@)) =~= table(os));
                }
            },
        }
    }
}

/// What `register` makes of a plain registry: `id` is on record at `path`, and at no
/// other path it had before.
pub open spec fn plain_registered(r: Registry, id: Seq<char>, path: Seq<char>) -> Registry {
    plain_moved(r, id, path)
}

/// What `set_path` makes of a plain registry: the path that `id` had before is
/// left without an owner.
pub open spec fn plain_moved(r: Registry, id: Seq<char>, path: Seq<char>) -> Registry {
    let cleared = if r.live.contains_key(id) {
        r.owners.remove(components(r.live[id]))
    } else {
        r.owners
    };
    Registry {
        live: r.live.insert(id, path),
        owners: cleared.insert(components(path), id),
        known: r.known.insert(id),
    }
}

/// What `unregister` makes of a plain registry, the IDs on record apart.
pub open spec fn plain_retired(r: Registry, id: Seq<char>) -> Registry {
    Registry {
        live: r.live.remove(id),
        owners: if r.live.contains_key(id) {
            r.owners.remove(components(r.live[id]))
        } else {
            r.owners
        },
        known: r.known,
    }
}

impl IndexStore for InMemoryIndex {
    closed spec fn registry(&self) -> Registry {
        Registry {
            live: table(records(self.forward@)),
            owners: table(owner_records(self.reverse@)),
            known: table(records(self.forward@)).dom(),
        }
    }

    closed spec fn wf(&self) -> bool {
        &&& ordered(ids(records(self.forward@)))
        &&& distinct(owner_records(self.reverse@))
    }

    open spec fn registered(&self, id: Seq<char>, path: Seq<char>) -> Registry {
        plain_registered(self.registry(), id, path)
    }

    open spec fn moved(&self, id: Seq<char>, path: Seq<char>) -> Registry {
        plain_moved(self.registry(), id, path)
    }

    open spec fn retired(&self, id: Seq<char>) -> Registry {
        let r = plain_retired(self.registry(), id);
        Registry { known: r.known.remove(id), ..r }
    }

    fn register(&mut self, id: &Id, path: &str) {
        self.set_path(id, path);
    }

    fn resolve(&self, id: &Id) -> (r: Option<String>) {
        let ghost rs = records(self.forward@);
        let at = find_record(&self.forward, id);
        proof {
            assert(forall|j: int| 0 <= j < rs.len() ==> ids(rs)[j] == (#[trigger] rs[j]).0);
            lemma_belongs(ids(rs), at as int, id@);
            lemma_ordered_distinct(rs);
            if at < rs.len() {
                lemma_entry(rs, at as int);
            }
        }
        if at < self.forward.len() && same(self.forward[at].0.as_str(), id.as_str()) {
            Some(self.forward[at].1.clone())
        } else {
            proof {
                lemma_absent(rs, id@);
            }
            None
        }
    }

    fn id_for_path(&self, path: &str) -> (r: Option<Id>) {
        match find_owner(&self.reverse, path) {
            Some(at) => {
                proof {
                    lemma_entry(owner_records(self.reverse@), at as int);
                }
                Some(self.reverse[at].1.copy())
            },
            None => {
                proof {
                    lemma_absent(owner_records(self.reverse@), components(path@));
                }
                None
            },
        }
    }

    fn set_path(&mut self, id: &Id, new_path: &str) {
        let ghost before = self.registry();
        if let Some(was) = self.put_forward(id, new_path) {
            self.clear_reverse(was.as_str());
        }
        self.put_reverse(new_path, id);
        assert(self.registry() =~= plain_moved(before, id@, new_path@));
    }

    fn unregister(&mut self, id: &Id) {
        let ghost before = *self;
        let ghost rs = records(self.forward@);
        let at = find_record(&self.forward, id);
        proof {
            assert(forall|j: int| 0 <= j < rs.len() ==> ids(rs)[j] == (#[trigger] rs[j]).0);
            lemma_belongs(ids(rs), at as int, id@);
            lemma_ordered_distinct(rs);
            if at < rs.len() {
                lemma_entry(rs, at as int);
            }
        }
        if at < self.forward.len() && same(self.forward[at].0.as_str(), id.as_str()) {
            let (_, was) = self.forward.remove(at);
            proof {
                lemma_removed(rs, at as int);
                assert(records(self.forward@) =~= rs.remove(at as int));
                assert(ids(rs.remove(at as int)) =~= ids(rs).remove(at as int));
            }
            self.clear_reverse(was.as_str());
        } else {
            proof {
                lemma_absent(rs, id@);
            }
        }
        assert(self.registry() =~= before.retired(id@));
    }

    fn is_known(&self, id: &Id) -> (r: bool) {
        self.resolve(id).is_some()
    }
}

// ---- laws of a plain registry ----

/// Law: what is registered resolves both ways.
pub proof fn registered_resolves_both_ways(r: Registry, id: Seq<char>, path: Seq<char>)
    ensures
        plain_registered(r, id, path).live[id] == path,
        plain_registered(r, id, path).owners[components(path)] == id,
        plain_registered(r, id, path).live.contains_key(id),
        plain_registered(r, id, path).owners.contains_key(components(path)),
{
}

/// Law: a move updates the path and clears the stale reverse record.
pub proof fn move_clears_the_old_path(r: Registry, id: Seq<char>, path: Seq<char>)
    requires
        r.live.contains_key(id),
        components(r.live[id]) != components(path),
    ensures
        plain_moved(r, id, path).live[id] == path,
        plain_moved(r, id, path).owners[components(path)] == id,
        !plain_moved(r, id, path).owners.contains_key(components(r.live[id])),
{
}

/// Law: retiring an ID removes both directions.
pub proof fn retired_resolves_neither_way(r: Registry, id: Seq<char>)
    requires
        r.live.contains_key(id),
    ensures
        !plain_retired(r, id).live.contains_key(id),
        !plain_retired(r, id).owners.contains_key(components(r.live[id])),
{
}

/// Law: registering an ID, new or not, for a path that no other ID owns keeps the two
/// directions in agreement.
pub proof fn register_keeps_agreement(r: Registry, id: Seq<char>, path: Seq<char>)
    requires
        agrees(r),
        r.owners.contains_key(components(path)) ==> r.owners[components(path)] == id,
    ensures
        agrees(plain_registered(r, id, path)),
{
    move_keeps_agreement(r, id, path);
}

/// Whether every path that has an owner is the path its owner resolves to.
pub open spec fn owners_current(r: Registry) -> bool {
    forall|p: Seq<Comp>| #[trigger]
        r.owners.contains_key(p) ==> r.live.contains_key(r.owners[p]) && components(
            r.live[r.owners[p]],
        ) == p
}

/// Law: the ID found for a path is the one currently assigned to it. Whatever a registry is
/// asked to do, no path is left with an owner that resolves to another path or to none.
pub proof fn owners_stay_current(r: Registry, id: Seq<char>, path: Seq<char>)
    requires
        owners_current(r),
    ensures
        owners_current(plain_registered(r, id, path)),
        owners_current(plain_moved(r, id, path)),
        owners_current(plain_retired(r, id)),
{
    let moved = plain_moved(r, id, path);
    let retired = plain_retired(r, id);
    assert forall|p: Seq<Comp>| #[trigger] moved.owners.contains_key(p) implies moved.live.contains_key(
        moved.owners[p],
    ) && components(moved.live[moved.owners[p]]) == p by {
        if p != components(path) {
            assert(r.owners.contains_key(p));
        }
    }
    assert forall|p: Seq<Comp>| #[trigger]
        retired.owners.contains_key(p) implies retired.live.contains_key(retired.owners[p])
        && components(retired.live[retired.owners[p]]) == p by {
        assert(r.owners.contains_key(p));
    }
}

/// Law: retiring an ID undoes registering it. Where the ID did not resolve and the path had
/// no owner, the same IDs resolve and the same paths are owned as before.
pub proof fn retiring_undoes_registering(r: Registry, id: Seq<char>, path: Seq<char>)
    requires
        !r.live.contains_key(id),
        !r.owners.contains_key(components(path)),
    ensures
        plain_retired(plain_registered(r, id, path), id).live == r.live,
        plain_retired(plain_registered(r, id, path), id).owners == r.owners,
{
    let back = plain_retired(plain_registered(r, id, path), id);
    assert(back.live =~= r.live);
    assert(back.owners =~= r.owners);
}

/// Law: moving an ID to a path that no other ID owns keeps the two directions in
/// agreement.
pub proof fn move_keeps_agreement(r: Registry, id: Seq<char>, path: Seq<char>)
    requires
        agrees(r),
        r.owners.contains_key(components(path)) ==> r.owners[components(path)] == id,
    ensures
        agrees(plain_moved(r, id, path)),
{
    let after = plain_moved(r, id, path);
    assert forall|x: Seq<char>| #[trigger] after.live.contains_key(x) implies after.owners.contains_key(
        components(after.live[x]),
    ) && after.owners[components(after.live[x])] == x by {
        if x != id {
            assert(r.live.contains_key(x));
            assert(r.owners[components(r.live[x])] == x);
        }
    }
    assert forall|p: Seq<Comp>| #[trigger] after.owners.contains_key(p) implies after.live.contains_key(
        after.owners[p],
    ) && components(after.live[after.owners[p]]) == p by {
        if p != components(path) {
            assert(r.owners.contains_key(p));
            assert(r.live.contains_key(r.owners[p]));
        }
    }
}

/// Law: retiring an ID keeps the two directions in agreement.
pub proof fn retire_keeps_agreement(r: Registry, id: Seq<char>)
    requires
        agrees(r),
    ensures
        agrees(plain_retired(r, id)),
{
    let after = plain_retired(r, id);
    assert forall|x: Seq<char>| #[trigger] after.live.contains_key(x) implies after.owners.contains_key(
        components(after.live[x]),
    ) && after.owners[components(after.live[x])] == x by {
        assert(r.live.contains_key(x));
        if r.live.contains_key(id) {
            assert(r.owners[components(r.live[id])] == id);
        }
    }
    assert forall|p: Seq<Comp>| #[trigger] after.owners.contains_key(p) implies after.live.contains_key(
        after.owners[p],
    ) && components(after.live[after.owners[p]]) == p by {
        assert(r.owners.contains_key(p));
        assert(r.live.contains_key(r.owners[p]));
    }
}

// ---- the persistent registry ----

/// Whether `ks` are the members of `set`, sorted.
pub open spec fn enumerates(ks: Seq<Seq<char>>, set: Set<Seq<char>>) -> bool {
    &&& ordered(ks)
    &&& ks.to_set() == set
}

/// The members of `set`, sorted.
pub open spec fn sorted(set: Set<Seq<char>>) -> Seq<Seq<char>> {
    choose|ks: Seq<Seq<char>>| enumerates(ks, set)
}

/// The record of an ID: its path where it resolves, nothing where it is retired.
pub open spec fn record_of(r: Registry, id: Seq<char>) -> (Tree, Tree) {
    (
        Tree::Text(id),
        if r.live.contains_key(id) {
            Tree::Text(r.live[id])
        } else {
            Tree::Null
        },
    )
}

/// The records of the IDs `ks`.
pub open spec fn record_list(r: Registry, ks: Seq<Seq<char>>) -> Seq<(Tree, Tree)> {
    ks.map_values(|id: Seq<char>| record_of(r, id))
}

/// The records of a registry: one for each ID on record, sorted by ID.
pub open spec fn listing(r: Registry) -> Seq<(Tree, Tree)> {
    record_list(r, sorted(r.known))
}

/// What a registry is told whose record for `id` is neither a path nor nothing.
pub open spec fn bad_record(id: Seq<char>) -> Seq<char> {
    "registry entry `"@ + id + "` must be a path or null (tombstone)"@
}

/// The registry that records stand for, taken in order: a path registers the ID,
/// nothing retires it, and the first record that is neither is an error.
pub open spec fn loaded(entries: Seq<(Tree, Tree)>) -> Result<Registry, Failure>
    decreases entries.len(),
{
    if entries.len() == 0 {
        Ok(empty_registry())
    } else {
        match loaded(entries.drop_last()) {
            Ok(r) => match entries.last() {
                (Tree::Text(id), Tree::Null) => Ok(Registry { known: r.known.insert(id), ..r }),
                (Tree::Text(id), Tree::Text(path)) => Ok(plain_registered(r, id, path)),
                (Tree::Text(id), _) => Err(Failure::Structure(bad_record(id))),
                _ => Ok(r),
            },
            Err(e) => Err(e),
        }
    }
}

/// The registry that a mapping holds under its registry section; no section, or
/// one that is not a mapping, stands for an empty registry.
pub open spec fn registry_under(top: Seq<(Tree, Tree)>) -> Result<Registry, Failure> {
    match entry(top, REGISTRY@) {
        Some(Tree::Dict(entries)) => loaded(entries),
        _ => Ok(empty_registry()),
    }
}

/// The registry that `text` holds in `format`.
pub open spec fn registry_in(text: Seq<char>, format: Format) -> Result<Registry, Failure> {
    match mapping_in(text, format) {
        Ok(top) => registry_under(top),
        Err(e) => Err(e),
    }
}

/// Whether reading gave back a registry: the same IDs resolve to the same paths,
/// the same IDs are on record, and the owners are the same too where the two
/// directions agreed.
pub open spec fn restores(outcome: Result<Registry, Failure>, r: Registry) -> bool {
    &&& outcome matches Ok(q) && q.live == r.live && q.known == r.known && (agrees(r) ==> q == r)
}

/// Whether a registry reads back when it is written in `format`: every ID and every path is a
/// text that does, and so does every tombstone. In the `fig` dialect only the empty registry
/// is counted.
pub open spec fn kept_registry(r: Registry, format: Format) -> bool {
    &&& !(format is Zon)
    &&& format is Fig ==> forall|id: Seq<char>| !#[trigger] r.known.contains(id)
    &&& !keeps_null(format) ==> forall|id: Seq<char>| #[trigger]
        r.known.contains(id) ==> r.live.contains_key(id)
    &&& forall|id: Seq<char>| #[trigger] r.known.contains(id) ==> kept_text(id, format)
    &&& forall|id: Seq<char>| #[trigger] r.live.contains_key(id) ==> kept_text(r.live[id], format)
}

/// Two sorted enumerations of one set are the same.
proof fn lemma_sorted_unique(a: Seq<Seq<char>>, b: Seq<Seq<char>>)
    requires
        ordered(a),
        ordered(b),
        a.to_set() == b.to_set(),
    ensures
        a == b,
    decreases a.len(),
{
    if a.len() == 0 {
        if b.len() > 0 {
            assert(b.to_set().contains(b[0]));
            assert(a.to_set().contains(b[0]));
        }
        assert(a =~= b);
    } else {
        let x = a.last();
        assert(a.to_set().contains(x));
        assert(b.to_set().contains(x));
        let j = choose|j: int| 0 <= j < b.len() && b[j] == x;
        let y = b.last();
        assert(b.to_set().contains(y));
        assert(a.to_set().contains(y));
        let i = choose|i: int| 0 <= i < a.len() && a[i] == y;
        if x != y {
            assert(precedes(a[i], a[a.len() - 1]));
            assert(precedes(b[j], b[b.len() - 1]));
            lemma_precedes_strict(x, y);
        }
        let a1 = a.drop_last();
        let b1 = b.drop_last();
        lemma_precedes_strict(x, x);
        assert(!a1.contains(x)) by {
            if a1.contains(x) {
                let k = choose|k: int| 0 <= k < a1.len() && a1[k] == x;
                assert(precedes(a[k], a[a.len() - 1]));
            }
        }
        assert(!b1.contains(x)) by {
            if b1.contains(x) {
                let k = choose|k: int| 0 <= k < b1.len() && b1[k] == x;
                assert(precedes(b[k], b[b.len() - 1]));
            }
        }
        assert forall|z: Seq<char>| a1.to_set().contains(z) == b1.to_set().contains(z) by {
            if a1.contains(z) {
                let k = choose|k: int| 0 <= k < a1.len() && a1[k] == z;
                assert(a[k] == z);
                assert(a.to_set().contains(z));
                assert(b.to_set().contains(z));
                let m = choose|m: int| 0 <= m < b.len() && b[m] == z;
                assert(b1[m] == z);
            }
            if b1.contains(z) {
                let k = choose|k: int| 0 <= k < b1.len() && b1[k] == z;
                assert(b[k] == z);
                assert(b.to_set().contains(z));
                assert(a.to_set().contains(z));
                let m = choose|m: int| 0 <= m < a.len() && a[m] == z;
                assert(a1[m] == z);
            }
        }
        assert(a1.to_set() =~= b1.to_set());
        lemma_sorted_unique(a1, b1);
        assert(a =~= a1.push(x));
        assert(b =~= b1.push(y));
    }
}

proof fn lemma_sorted(ks: Seq<Seq<char>>, set: Set<Seq<char>>)
    requires
        enumerates(ks, set),
    ensures
        sorted(set) == ks,
{
    lemma_sorted_unique(ks, sorted(set));
}

/// What loading the first `n` records of a registry gives.
proof fn lemma_loaded_prefix(r: Registry, ks: Seq<Seq<char>>, n: int)
    requires
        enumerates(ks, r.known),
        r.live.dom().subset_of(r.known),
        0 <= n <= ks.len(),
    ensures
        loaded(record_list(r, ks.take(n))) matches Ok(q) && q.live =~= r.live.restrict(
            ks.take(n).to_set(),
        ) && q.known =~= ks.take(n).to_set() && (agrees(r) ==> q.owners =~= r.owners.restrict(
            Set::new(
                |p: Seq<Comp>| r.owners.contains_key(p) && ks.take(n).contains(r.owners[p]),
            ),
        )),
    decreases n,
{
    let es = record_list(r, ks.take(n));
    if n == 0 {
        assert(es.len() == 0);
    } else {
        lemma_loaded_prefix(r, ks, n - 1);
        let id = ks[n - 1];
        assert(es.drop_last() =~= record_list(r, ks.take(n - 1)));
        assert(es.last() == record_of(r, id));
        assert(ks.take(n) =~= ks.take(n - 1).push(id));
        let prev = ks.take(n - 1);
        assert forall|z: Seq<char>| #[trigger]
            ks.take(n).contains(z) <==> prev.contains(z) || z == id by {
            if prev.contains(z) {
                let k = choose|k: int| 0 <= k < prev.len() && prev[k] == z;
                assert(ks.take(n)[k] == z);
            }
            assert(ks.take(n)[n - 1] == id);
            if ks.take(n).contains(z) && z != id {
                let k = choose|k: int| 0 <= k < ks.take(n).len() && ks.take(n)[k] == z;
                assert(prev[k] == z);
            }
        }
        assert(ks.take(n).to_set() =~= ks.take(n - 1).to_set().insert(id));
        let q0 = loaded(es.drop_last())->Ok_0;
        let q = loaded(es)->Ok_0;
        if r.live.contains_key(id) {
            assert(q == plain_registered(q0, id, r.live[id]));
            assert(!prev.contains(id)) by {
                if prev.contains(id) {
                    let k = choose|k: int| 0 <= k < prev.len() && prev[k] == id;
                    assert(precedes(ks[k], ks[n - 1]));
                    lemma_precedes_strict(id, id);
                }
            }
            assert(!q0.live.contains_key(id));
            assert(q.live =~= r.live.restrict(ks.take(n).to_set()));
            if agrees(r) {
                let own = components(r.live[id]);
                assert(r.owners.contains_key(own) && r.owners[own] == id);
                assert forall|p: Seq<Comp>| #[trigger]
                    r.owners.contains_key(p) && r.owners[p] == id implies p == own by {}
                assert(q.owners =~= r.owners.restrict(
                    Set::new(
                        |p: Seq<Comp>| r.owners.contains_key(p) && ks.take(n).contains(r.owners[p]),
                    ),
                ));
            }
        } else {
            assert(q.live =~= r.live.restrict(ks.take(n).to_set()));
            if agrees(r) {
                assert(q.owners =~= r.owners.restrict(
                    Set::new(
                        |p: Seq<Comp>| r.owners.contains_key(p) && ks.take(n).contains(r.owners[p]),
                    ),
                ));
            }
        }
    }
}

/// Law: loading the records of a registry restores it.
pub proof fn listing_restores(r: Registry)
    requires
        exists|ks: Seq<Seq<char>>| enumerates(ks, r.known),
        r.live.dom().subset_of(r.known),
    ensures
        restores(loaded(listing(r)), r),
{
    let ks = sorted(r.known);
    assert(enumerates(ks, r.known));
    lemma_loaded_prefix(r, ks, ks.len() as int);
    assert(ks.take(ks.len() as int) =~= ks);
    let q = loaded(listing(r))->Ok_0;
    assert(q.live =~= r.live);
    assert(q.known =~= r.known);
    if agrees(r) {
        assert forall|p: Seq<Comp>| #[trigger] r.owners.contains_key(p) implies ks.contains(
            r.owners[p],
        ) by {
            assert(r.live.contains_key(r.owners[p]));
            assert(r.known.contains(r.owners[p]));
            assert(ks.to_set().contains(r.owners[p]));
        }
        assert(q.owners =~= r.owners);
        assert(q =~= r);
    }
}

/// Law: a registry whose text `fig` reads back as it was written is restored
/// from that text, in whatever format.
pub proof fn rendered_registry_is_restored(r: Registry, text: Seq<char>, format: Format)
    requires
        exists|ks: Seq<Seq<char>>| enumerates(ks, r.known),
        r.live.dom().subset_of(r.known),
        text.len() > 0,
        reading(text, format) == Ok::<Tree, Seq<char>>(registry_tree(listing(r))),
    ensures
        restores(registry_in(text, format), r),
{
    listing_restores(r);
    let es = listing(r);
    let top = registry_tree(es);
    assert forall|i: int| 0 <= i < es.len() implies (#[trigger] es[i]).0 is Text && text_keyed(
        es[i].1,
    ) by {
        assert(es[i] == record_of(r, sorted(r.known)[i]));
    }
    assert(text_keyed(Tree::Dict(es)));
    assert(text_keyed(top));
    lemma_text_keyed_is_plain(top);
    assert(top->Dict_0.last() == (Tree::Text(REGISTRY@), Tree::Dict(es)));
}

/// The persistent registry: a snapshot with tombstones, written through `fig` so
/// that its text form is any the workspace has.
///
/// The text is made for clean diffs: a single `registry` section, one record per
/// line, sorted by ID. A live record is `id: path`; a tombstone is `id: null`.
///
/// The type is pure, text in and text out, so any storage can host it; the caller
/// owns the I/O and can ask `is_dirty` to skip needless writes.
#[derive(Debug, Clone)]
pub struct FileIndex {
    live: InMemoryIndex,
    tombstones: Vec<Id>,
    format: Format,
    dirty: bool,
}

/// The IDs of a list, as plain values.
pub open spec fn id_views(list: Seq<Id>) -> Seq<Seq<char>> {
    list.map_values(|id: Id| id@)
}

/// Whether `id` is in `list`.
fn has_id(list: &Vec<Id>, id: &Id) -> (r: bool)
    ensures
        r == id_views(list@).to_set().contains(id@),
{
    let mut i: usize = 0;
    while i < list.len()
        invariant
            i <= list@.len(),
            forall|j: int| 0 <= j < i ==> (#[trigger] id_views(list@)[j]) != id@,
        decreases list@.len() - i,
    {
        assert(id_views(list@)[i as int] == list@[i as int]@);
        if same(list[i].as_str(), id.as_str()) {
            return true;
        }
        i += 1;
    }
    false
}

/// The position of `id` among entries sorted by key, or where it belongs.
fn find_entry_slot(list: &Vec<(String, MetaValue)>, id: &Id, Ghost(ks): Ghost<Seq<Seq<char>>>) -> (r:
    usize)
    requires
        ks.len() == list@.len(),
        forall|i: int| 0 <= i < ks.len() ==> list@[i].0@ == #[trigger] ks[i],
    ensures
        belongs(ks, r as int, id@),
{
    let mut i: usize = 0;
    while i < list.len()
        invariant
            i <= list@.len(),
            ks.len() == list@.len(),
            forall|i: int| 0 <= i < ks.len() ==> list@[i].0@ == #[trigger] ks[i],
            forall|j: int| 0 <= j < i ==> precedes(#[trigger] ks[j], id@),
        decreases list@.len() - i,
    {
        assert(ks[i as int] == list@[i as int].0@);
        if !comes_before(list[i].0.as_str(), id.as_str()) {
            return i;
        }
        i += 1;
    }
    i
}

impl FileIndex {
    /// The format the registry renders to.
    pub closed spec fn text_format(&self) -> Format {
        self.format
    }

    /// Whether the registry changed since it was read, created or marked clean.
    pub closed spec fn changed(&self) -> bool {
        self.dirty
    }

    /// An empty registry that renders to `format`.
    pub fn new(format: Format) -> (r: FileIndex)
        ensures
            r.wf(),
            r.registry() == empty_registry(),
            r.text_format() == format,
            !r.changed(),
    {
        let r = FileIndex {
            live: InMemoryIndex::new(),
            tombstones: Vec::new(),
            format,
            dirty: false,
        };
        assert(id_views(r.tombstones@).to_set() =~= Set::empty());
        assert(r.registry() =~= empty_registry());
        r
    }

    /// Takes up the records of a registry section, in order.
    pub fn from_records(entries: &Vec<(String, MetaValue)>, format: Format) -> (r: Result<
        FileIndex,
        WorkspaceError,
    >)
        ensures
            match r {
                Ok(ix) => {
                    &&& ix.wf()
                    &&& loaded(dict(entries@)) == Ok::<Registry, Failure>(ix.registry())
                    &&& ix.text_format() == format
                    &&& !ix.changed()
                },
                Err(e) => loaded(dict(entries@)) == Err::<Registry, Failure>(e@),
            },
    {
        let ghost all = dict(entries@);
        let mut index = FileIndex::new(format);
        let mut i: usize = 0;
        assert(all.take(0) =~= Seq::empty());
        while i < entries.len()
            invariant
                i <= entries@.len(),
                all == dict(entries@),
                index.wf(),
                loaded(all.take(i as int)) == Ok::<Registry, Failure>(index.registry()),
                index.format == format,
                !index.dirty,
            decreases entries@.len() - i,
        {
            assert(all.take(i + 1).drop_last() =~= all.take(i as int));
            assert(all.take(i + 1).last() == all[i as int]);
            assert(all[i as int] == (Tree::Text(entries@[i as int].0@), tree(entries@[i as int].1)));
            let ghost before = index.registry();
            let id = Id(entries[i].0.clone());
            if entries[i].1.is_null() {
                if !has_id(&index.tombstones, &id) {
                    index.bury(&id);
                }
                assert(index.registry() =~= (Registry {
                    known: before.known.insert(id@),
                    ..before
                }));
            } else if let Some(path) = entries[i].1.as_str() {
                index.live.register(&id, path);
                assert(index.registry() =~= plain_registered(before, id@, path@));
            } else {
                proof {
                    lemma_loaded_error(all, i + 1);
                }
                return Err(WorkspaceError::Structure(bad_record_text(&id)));
            }
            i += 1;
        }
        assert(all.take(i as int) =~= all);
        Ok(index)
    }

    /// Reads a registry from its `text` in `format`. An empty text is an empty
    /// registry.
    pub fn from_str(text: &str, format: Format) -> (r: Result<FileIndex, WorkspaceError>)
        ensures
            match r {
                Ok(ix) => {
                    &&& ix.wf()
                    &&& registry_in(text@, format) == Ok::<Registry, Failure>(ix.registry())
                    &&& ix.text_format() == format
                    &&& !ix.changed()
                },
                Err(e) => registry_in(text@, format) == Err::<Registry, Failure>(e@),
            },
            text@.len() == 0 ==> (r matches Ok(ix) && ix.registry() == empty_registry()),
    {
        match parse_mapping(text, format) {
            Ok(top) => {
                if let Some(section) = find_entry(&top, REGISTRY) {
                    if let Some(entries) = section.as_mapping() {
                        return FileIndex::from_records(entries, format);
                    }
                }
                Ok(FileIndex::new(format))
            },
            Err(e) => Err(e),
        }
    }

    /// Adds a tombstone that is not there yet.
    fn bury(&mut self, id: &Id)
        requires
            old(self).wf(),
        ensures
            final(self).wf(),
            final(self).live == old(self).live,
            final(self).format == old(self).format,
            final(self).dirty == old(self).dirty,
            final(self).registry() == (Registry {
                known: old(self).registry().known.insert(id@),
                ..old(self).registry()
            }),
    {
        let ghost before = *self;
        self.tombstones.push(id.copy());
        proof {
            let was = id_views(before.tombstones@);
            let now = id_views(self.tombstones@);
            assert(now =~= was.push(id@));
            assert forall|z: Seq<char>| now.to_set().contains(z) == was.to_set().insert(
                id@,
            ).contains(z) by {
                if was.contains(z) {
                    let k = choose|k: int| 0 <= k < was.len() && was[k] == z;
                    assert(now[k] == z);
                }
                assert(now[was.len() as int] == id@);
                if now.contains(z) && z != id@ {
                    let k = choose|k: int| 0 <= k < now.len() && now[k] == z;
                    assert(was[k] == z);
                }
            }
            assert(now.to_set() =~= was.to_set().insert(id@));
            assert(self.registry() =~= (Registry {
                known: before.registry().known.insert(id@),
                ..before.registry()
            }));
        }
    }

    /// The records: one for each ID on record, sorted by ID.
    pub fn entries(&self) -> (r: Vec<(String, MetaValue)>)
        requires
            self.wf(),
        ensures
            dict(r@) == listing(self.registry()),
            enumerates(sorted(self.registry().known), self.registry().known),
    {
        let ghost reg = self.registry();
        let live = self.live.records();
        let ghost rs = records(live@);
        let ghost mut ks = ids(rs);
        let mut out: Vec<(String, MetaValue)> = Vec::new();
        let mut i: usize = 0;
        proof {
            lemma_ordered_distinct(rs);
            assert(dict(out@) =~= record_list(reg, ks.take(0)));
        }
        while i < live.len()
            invariant
                i <= live@.len(),
                rs == records(live@),
                ks == ids(rs),
                distinct(rs),
                reg.live == table(rs),
                dict(out@) == record_list(reg, ks.take(i as int)),
            decreases live@.len() - i,
        {
            let ghost before = dict(out@);
            out.push((live[i].0.0.clone(), MetaValue::Text(live[i].1.clone())));
            proof {
                lemma_entry(rs, i as int);
                assert(rs[i as int] == (live@[i as int].0@, live@[i as int].1@));
                assert(ks[i as int] == rs[i as int].0);
                assert(dict(out@) =~= before.push(record_of(reg, ks[i as int])));
                assert(record_list(reg, ks.take(i + 1)) =~= record_list(reg, ks.take(i as int)).push(
                    record_of(reg, ks[i as int]),
                ));
            }
            i += 1;
        }
        let ghost graves = id_views(self.tombstones@);
        let mut j: usize = 0;
        proof {
            assert(ks.take(i as int) =~= ks);
            assert forall|z: Seq<char>| ks.contains(z) == reg.live.contains_key(z) by {
                if ks.contains(z) {
                    let k = choose|k: int| 0 <= k < ks.len() && ks[k] == z;
                    assert(rs[k].0 == z);
                    lemma_entry(rs, k);
                }
                if reg.live.contains_key(z) {
                    let k = choose|k: int| keyed(rs, z, k);
                    assert(keyed(rs, z, k));
                    assert(ks[k] == z);
                }
            }
            assert(ks.to_set() =~= reg.live.dom());
            assert(graves.take(0).to_set() =~= Set::empty());
            assert(ks.to_set() =~= reg.live.dom().union(graves.take(0).to_set()));
        }
        while j < self.tombstones.len()
            invariant
                j <= self.tombstones@.len(),
                self.wf(),
                reg == self.registry(),
                graves == id_views(self.tombstones@),
                ordered(ks),
                ks.to_set() == reg.live.dom().union(graves.take(j as int).to_set()),
                dict(out@) == record_list(reg, ks),
            decreases self.tombstones@.len() - j,
        {
            let id = self.tombstones[j].copy();
            proof {
                assert(graves[j as int] == id@);
                assert(dict(out@).len() == record_list(reg, ks).len());
                assert forall|k: int| 0 <= k < ks.len() implies out@[k].0@ == #[trigger] ks[k] by {
                    assert(record_list(reg, ks)[k] == record_of(reg, ks[k]));
                    assert(dict(out@)[k] == (Tree::Text(out@[k].0@), tree(out@[k].1)));
                }
            }
            let at = find_entry_slot(&out, &id, Ghost(ks));
            proof {
                lemma_belongs(ks, at as int, id@);
                assert(graves.take(j + 1) =~= graves.take(j as int).push(id@));
                lemma_push_set(graves.take(j as int), id@);
            }
            if at < out.len() && same(out[at].0.as_str(), id.as_str()) {
                proof {
                    assert(ks[at as int] == id@);
                    assert(ks.to_set().contains(id@));
                    assert(ks.to_set() =~= reg.live.dom().union(graves.take(j + 1).to_set()));
                }
            } else {
                let ghost before = dict(out@);
                proof {
                    assert(!ks.contains(id@));
                    assert(!ks.to_set().contains(id@));
                    assert(!reg.live.contains_key(id@));
                }
                out.insert(at, (id.0.clone(), MetaValue::Null));
                proof {
                    lemma_ordered_insert(ks, at as int, id@);
                    assert(dict(out@) =~= before.insert(at as int, record_of(reg, id@)));
                    assert(record_list(reg, ks.insert(at as int, id@)) =~= record_list(
                        reg,
                        ks,
                    ).insert(at as int, record_of(reg, id@)));
                    lemma_insert_set(ks, at as int, id@);
                    ks = ks.insert(at as int, id@);
                    assert(ks.to_set() =~= reg.live.dom().union(graves.take(j + 1).to_set()));
                }
            }
            j += 1;
        }
        proof {
            assert(graves.take(j as int) =~= graves);
            assert(ks.to_set() =~= reg.known);
            assert(enumerates(ks, reg.known));
            lemma_sorted(ks, reg.known);
        }
        out
    }

    /// Writes the registry: sorted, one record per line, tombstones as null.
    /// What is written restores the registry when it is read, where every ID and path
    /// is a text that the format keeps.
    pub fn render(&self) -> (r: Result<String, WorkspaceError>)
        requires
            self.wf(),
        ensures
            match r {
                Ok(t) => registry_text(listing(self.registry()), self.text_format()) == Ok::<
                    Seq<char>,
                    Failure,
                >(t@),
                Err(e) => registry_text(listing(self.registry()), self.text_format()) == Err::<
                    Seq<char>,
                    Failure,
                >(e@),
            },
            r matches Ok(t) ==> kept_registry(self.registry(), self.text_format()) ==> restores(
                registry_in(t@, self.text_format()),
                self.registry(),
            ),
    {
        let records = self.entries();
        let r = serialize_records(records, self.format);
        proof {
            let reg = self.registry();
            if kept_registry(reg, self.format) {
                lemma_kept_listing(reg, self.format);
                if r is Ok {
                    rendered_registry_is_restored(reg, r->Ok_0@, self.format);
                }
            }
        }
        r
    }

    /// Whether the registry changed since it was read or created, and so needs a
    /// write. Cleared by `mark_clean`.
    pub fn is_dirty(&self) -> (r: bool)
        ensures
            r == self.changed(),
    {
        self.dirty
    }

    /// Mark the registry as persisted.
    pub fn mark_clean(&mut self)
        ensures
            !final(self).changed(),
            final(self).registry() == old(self).registry(),
            final(self).text_format() == old(self).text_format(),
            old(self).wf() ==> final(self).wf(),
    {
        self.dirty = false;
    }

    /// The number of live (resolving) IDs.
    pub fn len(&self) -> (r: usize)
        requires
            self.wf(),
        ensures
            r == self.registry().live.dom().len(),
    {
        self.live.len()
    }

    /// Whether the registry has no live IDs.
    pub fn is_empty(&self) -> (r: bool)
        requires
            self.wf(),
        ensures
            r == self.registry().live.dom().is_empty(),
    {
        self.live.is_empty()
    }

    /// Whether `id` is retired: known but no longer resolving.
    pub fn is_tombstoned(&self, id: &Id) -> (r: bool)
        requires
            self.wf(),
        ensures
            r == (self.registry().known.contains(id@) && !self.registry().live.contains_key(id@)),
    {
        has_id(&self.tombstones, id) && self.live.resolve(id).is_none()
    }

    /// The live records as `(id, path)`, sorted by ID.
    pub fn iter(&self) -> (r: Vec<(Id, String)>)
        requires
            self.wf(),
        ensures
            ordered(ids(records(r@))),
            table(records(r@)) == self.registry().live,
    {
        self.live.records()
    }
}

proof fn lemma_push_set(s: Seq<Seq<char>>, x: Seq<char>)
    ensures
        s.push(x).to_set() == s.to_set().insert(x),
{
    lemma_insert_set(s, s.len() as int, x);
    assert(s.insert(s.len() as int, x) =~= s.push(x));
}

proof fn lemma_insert_set(s: Seq<Seq<char>>, at: int, x: Seq<char>)
    requires
        0 <= at <= s.len(),
    ensures
        s.insert(at, x).to_set() == s.to_set().insert(x),
{
    let t = s.insert(at, x);
    assert forall|z: Seq<char>| t.to_set().contains(z) == s.to_set().insert(x).contains(z) by {
        if s.contains(z) {
            let k = choose|k: int| 0 <= k < s.len() && s[k] == z;
            assert(t[if k < at {
                k
            } else {
                k + 1
            }] == z);
        }
        assert(t[at] == x);
        if t.contains(z) && z != x {
            let k = choose|k: int| 0 <= k < t.len() && t[k] == z;
            assert(s[if k < at {
                k
            } else {
                k - 1
            }] == z);
        }
    }
    assert(t.to_set() =~= s.to_set().insert(x));
}

proof fn lemma_kept_listing(r: Registry, format: Format)
    requires
        enumerates(sorted(r.known), r.known),
        kept_registry(r, format),
    ensures
        kept_records(listing(r), format),
{
    let ks = sorted(r.known);
    let es = listing(r);
    if es.len() > 0 {
        assert(ks.to_set().contains(ks[0]));
    }
    assert forall|i: int| 0 <= i < es.len() implies ((#[trigger] es[i]).0 matches Tree::Text(k)
        && kept_text(k, format) && ((es[i].1 is Null && keeps_null(format)) || (
    es[i].1 matches Tree::Text(v) && kept_text(v, format)))) by {
        assert(es[i] == record_of(r, ks[i]));
        assert(ks.to_set().contains(ks[i]));
    }
    assert forall|i: int, j: int| 0 <= i < j < es.len() implies (#[trigger] es[i]).0 != (
    #[trigger] es[j]).0 by {
        assert(es[i] == record_of(r, ks[i]) && es[j] == record_of(r, ks[j]));
        assert(precedes(ks[i], ks[j]));
        lemma_precedes_strict(ks[i], ks[i]);
    }
}

/// An error in a prefix of the records is the error of all of them.
proof fn lemma_loaded_error(es: Seq<(Tree, Tree)>, n: int)
    requires
        0 <= n <= es.len(),
        loaded(es.take(n)) is Err,
    ensures
        loaded(es) == loaded(es.take(n)),
    decreases es.len() - n,
{
    if n == es.len() {
        assert(es.take(n) =~= es);
    } else {
        assert(es.take(n + 1).drop_last() =~= es.take(n));
        lemma_loaded_error(es, n + 1);
    }
}

/// What a registry is told whose record for `id` is neither a path nor nothing.
fn bad_record_text(id: &Id) -> (r: String)
    ensures
        r@ == bad_record(id@),
{
    let mut out = "registry entry `".to_owned();
    out.append(id.as_str());
    out.append("` must be a path or null (tombstone)");
    out
}

impl IndexStore for FileIndex {
    closed spec fn registry(&self) -> Registry {
        Registry {
            known: self.live.registry().known.union(id_views(self.tombstones@).to_set()),
            ..self.live.registry()
        }
    }

    closed spec fn wf(&self) -> bool {
        &&& self.live.wf()
    }

    open spec fn registered(&self, id: Seq<char>, path: Seq<char>) -> Registry {
        plain_registered(self.registry(), id, path)
    }

    open spec fn moved(&self, id: Seq<char>, path: Seq<char>) -> Registry {
        plain_moved(self.registry(), id, path)
    }

    open spec fn retired(&self, id: Seq<char>) -> Registry {
        let r = plain_retired(self.registry(), id);
        Registry { known: r.known.insert(id), ..r }
    }

    fn register(&mut self, id: &Id, path: &str)
        ensures
            final(self).changed(),
            final(self).text_format() == old(self).text_format(),
    {
        let ghost before = *self;
        self.live.register(id, path);
        self.dirty = true;
        assert(self.registry() =~= before.registered(id@, path@));
    }

    fn resolve(&self, id: &Id) -> (r: Option<String>) {
        self.live.resolve(id)
    }

    fn id_for_path(&self, path: &str) -> (r: Option<Id>) {
        self.live.id_for_path(path)
    }

    fn set_path(&mut self, id: &Id, new_path: &str)
        ensures
            final(self).changed(),
            final(self).text_format() == old(self).text_format(),
    {
        let ghost before = *self;
        self.live.set_path(id, new_path);
        self.dirty = true;
        assert(self.registry() =~= before.moved(id@, new_path@));
    }

    /// Retire to a tombstone: the ID stops resolving but stays known forever.
    fn unregister(&mut self, id: &Id)
        ensures
            final(self).changed(),
            final(self).text_format() == old(self).text_format(),
    {
        let ghost before = *self;
        self.live.unregister(id);
        let ghost middle = *self;
        if !has_id(&self.tombstones, id) {
            self.bury(id);
        }
        self.dirty = true;
        proof {
            assert(middle.tombstones == before.tombstones);
            assert(self.registry() =~= before.retired(id@));
        }
    }

    fn is_known(&self, id: &Id) -> (r: bool) {
        self.live.resolve(id).is_some() || has_id(&self.tombstones, id)
    }
}

/// Law: IDs are forever. Whatever the persistent registry is asked to do, an ID
/// on record stays on record.
pub proof fn ids_are_forever(ix: FileIndex, known: Seq<char>, id: Seq<char>, path: Seq<char>)
    requires
        ix.registry().known.contains(known),
    ensures
        ix.registered(id, path).known.contains(known),
        ix.moved(id, path).known.contains(known),
        ix.retired(id).known.contains(known),
{
}

/// The first position among sorted IDs that `id` does not come behind.
spec fn slot(ks: Seq<Seq<char>>, id: Seq<char>) -> int
    decreases ks.len(),
{
    if ks.len() > 0 && !precedes(ks.last(), id) {
        slot(ks.drop_last(), id)
    } else {
        ks.len() as int
    }
}

proof fn lemma_slot(ks: Seq<Seq<char>>, id: Seq<char>)
    requires
        ordered(ks),
    ensures
        belongs(ks, slot(ks, id), id),
    decreases ks.len(),
{
    let front = ks.drop_last();
    if ks.len() > 0 && !precedes(ks.last(), id) {
        assert forall|i: int, j: int| 0 <= i < j < front.len() implies precedes(
            #[trigger] front[i],
            #[trigger] front[j],
        ) by {
            assert(precedes(ks[i], ks[j]));
        }
        lemma_slot(front, id);
        let at = slot(ks, id);
        assert forall|j: int| 0 <= j < at implies precedes(#[trigger] ks[j], id) by {
            assert(precedes(front[j], id));
        }
        if at < front.len() {
            assert(ks[at] == front[at]);
        }
    } else if ks.len() > 0 {
        assert forall|j: int| 0 <= j < ks.len() implies precedes(#[trigger] ks[j], id) by {
            if j < ks.len() - 1 {
                assert(precedes(ks[j], ks[ks.len() - 1]));
                lemma_precedes_transitive(ks[j], ks.last(), id);
            }
        }
    }
}

/// The members of a finite set can be listed in order.
proof fn lemma_sortable(set: Set<Seq<char>>)
    requires
        set.finite(),
    ensures
        enumerates(sorted(set), set),
    decreases set.len(),
{
    let ks = if set.is_empty() {
        Seq::empty()
    } else {
        let x = set.choose();
        let rest = set.remove(x);
        lemma_sortable(rest);
        let before = sorted(rest);
        let at = slot(before, x);
        lemma_slot(before, x);
        if at < before.len() {
            assert(before.to_set().contains(before[at]));
        }
        lemma_ordered_insert(before, at, x);
        lemma_insert_set(before, at, x);
        before.insert(at, x)
    };
    assert(ks.to_set() =~= set);
    assert(enumerates(ks, set));
}

/// Law: in a well-formed persistent registry every ID that resolves is on record, and the
/// IDs on record can be listed in order. So the laws on restoring a registry hold of it.
pub proof fn live_ids_are_on_record(ix: FileIndex)
    requires
        ix.wf(),
    ensures
        ix.registry().live.dom().subset_of(ix.registry().known),
        enumerates(sorted(ix.registry().known), ix.registry().known),
{
    let rs = records(ix.live.forward@);
    lemma_ordered_distinct(rs);
    lemma_table_len(rs);
    vstd::seq_lib::seq_to_set_is_finite(id_views(ix.tombstones@));
    lemma_sortable(ix.registry().known);
}

/// Law: a registry that is saved is restored, in whatever format. Where the text that was
/// written is read back as the mapping that was written, the registry read from it is the
/// one that was saved.
pub proof fn saved_registry_is_restored(ix: FileIndex, text: Seq<char>)
    requires
        ix.wf(),
        mapping_in(text, ix.text_format()) == Ok::<Seq<(Tree, Tree)>, Failure>(
            registry_tree(listing(ix.registry()))->Dict_0,
        ),
    ensures
        restores(registry_in(text, ix.text_format()), ix.registry()),
{
    let r = ix.registry();
    live_ids_are_on_record(ix);
    listing_restores(r);
    let top = registry_tree(listing(r))->Dict_0;
    assert(top.last() == (Tree::Text(REGISTRY@), Tree::Dict(listing(r))));
}

/// Law: an ID that is retired stops resolving and stays on record.
pub proof fn retired_is_tombstoned(ix: FileIndex, id: Seq<char>)
    ensures
        !ix.retired(id).live.contains_key(id),
        ix.retired(id).known.contains(id),
{
}

/// Law: identity is additive. A workspace without an index holds nothing, whatever it is
/// asked to keep.
pub proof fn no_index_is_untouched(ix: NoIndex, id: Seq<char>, path: Seq<char>)
    ensures
        ix.registered(id, path) == ix.registry(),
        ix.moved(id, path) == ix.registry(),
        ix.retired(id) == ix.registry(),
        ix.registry() == empty_registry(),
{
}

/// Law: a registry changes only where it is told to. Registering or moving an ID and retiring
/// one leave the path of every other ID, the owner of every path that the ID neither had nor
/// gets, and whether any other ID is on record, as they were.
pub proof fn registry_keeps_the_rest(
    r: Registry,
    id: Seq<char>,
    path: Seq<char>,
    other: Seq<char>,
    p: Seq<Comp>,
)
    requires
        other != id,
        p != components(path),
        r.live.contains_key(id) ==> p != components(r.live[id]),
    ensures
        forall|q: Registry|
            #![trigger q.live]
            q == plain_registered(r, id, path) || q == plain_moved(r, id, path) || q
                == plain_retired(r, id) ==> {
                &&& q.live.contains_key(other) == r.live.contains_key(other)
                &&& r.live.contains_key(other) ==> q.live[other] == r.live[other]
                &&& q.owners.contains_key(p) == r.owners.contains_key(p)
                &&& r.owners.contains_key(p) ==> q.owners[p] == r.owners[p]
                &&& q.known.contains(other) == r.known.contains(other)
            },
        plain_registered(r, id, path).known.contains(id),
        plain_moved(r, id, path).known.contains(id),
        plain_retired(r, id).known == r.known,
{
}

/// Law: the persistent registry does what a plain one does, but for keeping on record what it
/// retires, and nothing else.
pub proof fn persistent_registry_remembers(ix: FileIndex, id: Seq<char>, path: Seq<char>)
    ensures
        ix.registered(id, path) == plain_registered(ix.registry(), id, path),
        ix.moved(id, path) == plain_moved(ix.registry(), id, path),
        ix.retired(id).live == plain_retired(ix.registry(), id).live,
        ix.retired(id).owners == plain_retired(ix.registry(), id).owners,
        forall|other: Seq<char>| #[trigger]
            ix.retired(id).known.contains(other) <==> other == id || ix.registry().known.contains(
                other,
            ),
{
}

/// Whether no two records are of the same ID, and every record is of one.
pub open spec fn one_record_each(entries: Seq<(Tree, Tree)>) -> bool {
    &&& forall|i: int| 0 <= i < entries.len() ==> (#[trigger] entries[i]).0 is Text
    &&& forall|i: int, j: int|
        0 <= i < j < entries.len() ==> (#[trigger] entries[i]).0 != (#[trigger] entries[j]).0
}

/// Law: a registry that is read is what the records say: an ID resolves to the path on its
/// record, one without a path is on record and resolves to nothing, and nothing else is on
/// record. A record that is neither a path nor nothing is an error, and nothing else is.
pub proof fn records_are_taken_as_they_are(entries: Seq<(Tree, Tree)>)
    requires
        one_record_each(entries),
    ensures
        loaded(entries) is Err <==> exists|i: int|
            0 <= i < entries.len() && !((#[trigger] entries[i]).1 is Text) && !(entries[i].1 is Null),
        loaded(entries) matches Ok(r) ==> {
            &&& forall|i: int|
                0 <= i < entries.len() ==> r.known.contains((#[trigger] entries[i]).0->Text_0) && (
                match entries[i].1 {
                    Tree::Text(path) => r.live.contains_key(entries[i].0->Text_0)
                        && r.live[entries[i].0->Text_0] == path,
                    _ => !r.live.contains_key(entries[i].0->Text_0),
                })
            &&& forall|id: Seq<char>| #[trigger]
                r.known.contains(id) ==> exists|i: int|
                    0 <= i < entries.len() && #[trigger] entries[i].0 == Tree::Text(id)
            &&& forall|id: Seq<char>| #[trigger] r.live.contains_key(id) ==> r.known.contains(id)
        },
    decreases entries.len(),
{
    if entries.len() > 0 {
        let front = entries.drop_last();
        let last = entries.last();
        let n = entries.len() - 1;
        assert forall|i: int| 0 <= i < front.len() implies (#[trigger] front[i]).0 is Text by {
            assert(entries[i] == front[i]);
        }
        assert forall|i: int, j: int| 0 <= i < j < front.len() implies (#[trigger] front[i]).0 != (
        #[trigger] front[j]).0 by {
            assert(entries[i] == front[i] && entries[j] == front[j]);
        }
        records_are_taken_as_they_are(front);
        assert(entries[n] == last);
        let id = last.0->Text_0;
        match loaded(front) {
            Err(_) => {
                let i = choose|i: int|
                    0 <= i < front.len() && !((#[trigger] front[i]).1 is Text) && !(
                    front[i].1 is Null);
                assert(entries[i] == front[i]);
            },
            Ok(q) => {
                assert(!q.known.contains(id)) by {
                    if q.known.contains(id) {
                        let i = choose|i: int|
                            0 <= i < front.len() && #[trigger] front[i].0 == Tree::Text(id);
                        assert(entries[i] == front[i]);
                    }
                }
                if last.1 is Text || last.1 is Null {
                    let r = loaded(entries)->Ok_0;
                    assert forall|i: int| 0 <= i < entries.len() implies (last.1 is Text
                        || last.1 is Null) && ((#[trigger] entries[i]).1 is Text
                        || entries[i].1 is Null) by {
                        if i < n {
                            assert(entries[i] == front[i]);
                        }
                    }
                    assert forall|i: int| 0 <= i < entries.len() implies r.known.contains(
                        (#[trigger] entries[i]).0->Text_0,
                    ) && (match entries[i].1 {
                        Tree::Text(path) => r.live.contains_key(entries[i].0->Text_0)
                            && r.live[entries[i].0->Text_0] == path,
                        _ => !r.live.contains_key(entries[i].0->Text_0),
                    }) by {
                        if i < n {
                            assert(entries[i] == front[i]);
                            assert(entries[i].0 != last.0);
                        }
                    }
                    assert forall|x: Seq<char>| #[trigger] r.known.contains(x) implies exists|i: int|
                        0 <= i < entries.len() && #[trigger] entries[i].0 == Tree::Text(x) by {
                        if x == id {
                            assert(entries[n].0 == Tree::Text(x));
                        } else {
                            let i = choose|i: int|
                                0 <= i < front.len() && #[trigger] front[i].0 == Tree::Text(x);
                            assert(entries[i].0 == Tree::Text(x));
                        }
                    }
                } else {
                    assert(!(entries[n].1 is Text) && !(entries[n].1 is Null));
                }
            },
        }
    }
}

/// Whether a record is neither a path nor nothing.
pub open spec fn is_bad(record: (Tree, Tree)) -> bool {
    record.0 is Text && !(record.1 is Text) && !(record.1 is Null)
}

/// Law: of the records that are neither a path nor nothing the first is told, by its ID.
pub proof fn first_bad_record_is_told(entries: Seq<(Tree, Tree)>, i: int)
    requires
        0 <= i < entries.len(),
        is_bad(entries[i]),
        forall|k: int| 0 <= k < i ==> !is_bad(#[trigger] entries[k]),
    ensures
        loaded(entries) == Err::<Registry, Failure>(
            Failure::Structure(
                "registry entry `"@ + entries[i].0->Text_0
                    + "` must be a path or null (tombstone)"@,
            ),
        ),
    decreases entries.len(),
{
    let front = entries.drop_last();
    if i < entries.len() - 1 {
        assert(front[i] == entries[i]);
        assert forall|k: int| 0 <= k < i implies !is_bad(#[trigger] front[k]) by {
            assert(front[k] == entries[k]);
        }
        first_bad_record_is_told(front, i);
    } else {
        assert forall|k: int| 0 <= k < front.len() implies !is_bad(#[trigger] front[k]) by {
            assert(front[k] == entries[k]);
        }
        lemma_sound_records_load(front);
    }
}

proof fn lemma_sound_records_load(entries: Seq<(Tree, Tree)>)
    requires
        forall|k: int| 0 <= k < entries.len() ==> !is_bad(#[trigger] entries[k]),
    ensures
        loaded(entries) is Ok,
    decreases entries.len(),
{
    if entries.len() > 0 {
        let front = entries.drop_last();
        assert forall|k: int| 0 <= k < front.len() implies !is_bad(#[trigger] front[k]) by {
            assert(front[k] == entries[k]);
        }
        lemma_sound_records_load(front);
        assert(!is_bad(entries[entries.len() - 1]));
    }
}

/// Law: a path is owned by the ID of the last record that names it, and by none where no
/// record does.
pub proof fn last_record_owns_the_path(entries: Seq<(Tree, Tree)>, p: Seq<Comp>)
    requires
        one_record_each(entries),
        loaded(entries) is Ok,
    ensures
        ({
            let r = loaded(entries)->Ok_0;
            &&& r.owners.contains_key(p) ==> exists|i: int|
                0 <= i < entries.len() && (#[trigger] entries[i]).0 == Tree::Text(r.owners[p])
                    && names_path(entries[i], p)
            &&& forall|i: int|
                0 <= i < entries.len() && names_path(#[trigger] entries[i], p) && (forall|k: int|
                    i < k < entries.len() ==> !names_path(#[trigger] entries[k], p)) ==> {
                    &&& r.owners.contains_key(p)
                    &&& r.owners[p] == entries[i].0->Text_0
                }
        }),
    decreases entries.len(),
{
    if entries.len() > 0 {
        let front = entries.drop_last();
        let last = entries.last();
        let n = entries.len() - 1;
        assert(entries[n] == last);
        assert forall|i: int| 0 <= i < front.len() implies (#[trigger] front[i]).0 is Text by {
            assert(entries[i] == front[i]);
        }
        assert forall|i: int, j: int| 0 <= i < j < front.len() implies (#[trigger] front[i]).0 != (
        #[trigger] front[j]).0 by {
            assert(entries[i] == front[i] && entries[j] == front[j]);
        }
        last_record_owns_the_path(front, p);
        records_are_taken_as_they_are(front);
        let q = loaded(front)->Ok_0;
        let r = loaded(entries)->Ok_0;
        let id = last.0->Text_0;
        assert(!q.known.contains(id)) by {
            if q.known.contains(id) {
                let i = choose|i: int|
                    0 <= i < front.len() && #[trigger] front[i].0 == Tree::Text(id);
                assert(entries[i] == front[i]);
            }
        }
        assert(!q.live.contains_key(id));
        if names_path(last, p) {
            assert(r.owners.contains_key(p) && r.owners[p] == id);
            assert(names_path(entries[n], p));
        } else {
            assert(r.owners.contains_key(p) == q.owners.contains_key(p));
            if q.owners.contains_key(p) {
                assert(r.owners[p] == q.owners[p]);
                let i = choose|i: int|
                    0 <= i < front.len() && (#[trigger] front[i]).0 == Tree::Text(q.owners[p])
                        && names_path(front[i], p);
                assert(entries[i] == front[i]);
            }
            assert forall|i: int|
                0 <= i < entries.len() && names_path(#[trigger] entries[i], p) && (forall|k: int|
                    i < k < entries.len() ==> !names_path(#[trigger] entries[k], p)) implies {
                &&& r.owners.contains_key(p)
                &&& r.owners[p] == entries[i].0->Text_0
            } by {
                assert(front[i] == entries[i]);
                assert forall|k: int| i < k < front.len() implies !names_path(#[trigger] front[k], p) by {
                    assert(front[k] == entries[k]);
                }
            }
        }
    }
}

/// Whether a record gives its ID a path with these components.
pub open spec fn names_path(record: (Tree, Tree), p: Seq<Comp>) -> bool {
    record.1 matches Tree::Text(path) && components(path) == p
}

/// Law: a registry is read from the last section under its name, where that is a mapping, and
/// is empty where it is not or there is none. A text that holds no mapping is an error.
pub proof fn registry_is_read_from_its_section(text: Seq<char>, format: Format)
    ensures
        match mapping_in(text, format) {
            Err(e) => registry_in(text, format) == Err::<Registry, Failure>(e),
            Ok(top) => match entry(top, "registry"@) {
                Some(Tree::Dict(records)) => registry_in(text, format) == loaded(records),
                _ => registry_in(text, format) matches Ok(r) && r.live == Map::<
                    Seq<char>,
                    Seq<char>,
                >::empty() && r.known == Set::<Seq<char>>::empty() && r.owners == Map::<
                    Seq<Comp>,
                    Seq<char>,
                >::empty(),
            },
        },
{
}

} // verus!
