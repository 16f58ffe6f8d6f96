//! The workspace: a vocabulary, an identity policy and a registry.
//!
//! The workspace does no I/O of its own. Its operations say what to read and what
//! to write; whoever drives them owns the storage.
use vstd::prelude::*;

use crate::error::{Failure, WorkspaceError};
use crate::identity::{Id, IdentityPolicy, Trigger};
use crate::index::{
    persistent_registry_remembers, registered_resolves_both_ways, FileIndex, IndexStore, Registry,
};
use crate::link::{
    external_target, named_id, normalize, normalized, resolve, resolved, Link, LinkView, ID_SCHEME,
};
use crate::path::components;
use crate::relation::{diaryx_vocabulary, RelationSet};
use crate::text::same;

verus! {

/// Where a link leads.
#[derive(Debug, Clone, PartialEq, Eq)]
pub enum Target {
    /// Out of the workspace: a URL or the like.
    External,
    /// To an ID that the registry does not resolve.
    UnresolvedId(Id),
    /// To a workspace path, normalized.
    Path(String),
}

/// Where a link leads, as a mathematical value.
pub enum TargetView {
    /// See [`Target::External`].
    External,
    /// See [`Target::UnresolvedId`].
    UnresolvedId(Seq<char>),
    /// See [`Target::Path`].
    Path(Seq<char>),
}

impl View for Target {
    type V = TargetView;

    open spec fn view(&self) -> TargetView {
        match self {
            Target::External => TargetView::External,
            Target::UnresolvedId(id) => TargetView::UnresolvedId(id@),
            Target::Path(p) => TargetView::Path(p@),
        }
    }
}

/// Where a link in the document `doc` leads: out of the workspace, through the
/// registry, or to a path seen from the document.
pub open spec fn target_of(r: Registry, doc: Seq<char>, link: LinkView) -> TargetView {
    if external_target(link.target) {
        TargetView::External
    } else {
        match named_id(link.target) {
            Some(id) => if r.live.contains_key(id) {
                TargetView::Path(normalized(r.live[id]))
            } else {
                TargetView::UnresolvedId(id)
            },
            None => TargetView::Path(resolved(doc, link.target)),
        }
    }
}

impl Target {
    /// Whether the link leads to `path`.
    pub fn is_path(&self, path: &str) -> (r: bool)
        ensures
            r == (self@ == TargetView::Path(path@)),
    {
        match self {
            Target::Path(p) => same(p.as_str(), path),
            _ => false,
        }
    }
}

/// A self-describing set of documents.
#[derive(Debug)]
pub struct Workspace<IdP, Ix> {
    /// The directory that paths are relative to. Empty where it has no name of its own.
    pub root: String,
    /// The vocabulary of links.
    pub relations: RelationSet,
    /// When documents earn IDs, and what those look like.
    pub identity: IdP,
    /// The registry of IDs.
    pub index: Ix,
}

/// What a caller is told when every ID that was minted is taken.
pub const NO_UNUSED_ID: &'static str = "no unused ID could be minted";

/// How often minting is tried.
pub const MINT_ATTEMPTS: u64 = 0xffff_ffff_ffff_ffff;

/// What a caller is told whose event does not make the policy register `path`.
pub open spec fn not_registered(path: Seq<char>) -> Seq<char> {
    path + " has no ID, and the identity policy does not register on this event"@
}

/// What a caller is told whose event does not make the policy register `path`.
fn not_registered_text(path: &str) -> (r: String)
    ensures
        r@ == not_registered(path@),
{
    let mut out = path.to_owned();
    out.append(" has no ID, and the identity policy does not register on this event");
    out
}

/// Whether a registry has never known an ID that a policy may mint for `path`, so that
/// whatever is minted can be issued.
pub open spec fn all_free<IdP: IdentityPolicy>(r: Registry, path: Seq<char>) -> bool {
    forall|id: Seq<char>| #[trigger] IdP::may_mint(path, id) ==> !r.known.contains(id)
}

/// Whether `ids` may be minted for `path` and are all on record.
pub open spec fn all_known<IdP: IdentityPolicy>(
    r: Registry,
    path: Seq<char>,
    ids: Seq<Seq<char>>,
) -> bool {
    forall|i: int|
        0 <= i < ids.len() ==> IdP::may_mint(path, #[trigger] ids[i]) && r.known.contains(ids[i])
}

/// Whether minting for `path` can have been tried for as often as it is, and each time have
/// given an ID on record.
pub open spec fn exhausted<IdP: IdentityPolicy>(r: Registry, path: Seq<char>) -> bool {
    exists|ids: Seq<Seq<char>>|
        ids.len() == MINT_ATTEMPTS && #[trigger] all_known::<IdP>(r, path, ids)
}

/// Law: minting cannot fail where no ID that may be minted is on record.
pub proof fn free_ids_are_not_exhausted<IdP: IdentityPolicy>(r: Registry, path: Seq<char>)
    requires
        all_free::<IdP>(r, path),
    ensures
        !exhausted::<IdP>(r, path),
{
    if exhausted::<IdP>(r, path) {
        let ids = choose|ids: Seq<Seq<char>>|
            ids.len() == MINT_ATTEMPTS && #[trigger] all_known::<IdP>(r, path, ids);
        assert(IdP::may_mint(path, ids[0]) && r.known.contains(ids[0]));
    }
}

/// Whether an index has come to hold `id`, freshly minted for `path`, and is otherwise as it
/// was.
pub open spec fn issued<IdP: IdentityPolicy, Ix: IndexStore>(
    before: Ix,
    after: Ix,
    path: Seq<char>,
    id: Seq<char>,
) -> bool {
    &&& IdP::may_mint(path, id)
    &&& !before.registry().known.contains(id)
    &&& after.registry() == before.registered(id, path)
}

/// Whether `r` is what registering the document at `path` gives, and `after` what it makes of
/// a workspace: the ID that the document has, or a new one where the policy registers on
/// `trigger`.
pub open spec fn registers<IdP: IdentityPolicy, Ix: IndexStore>(
    before: Workspace<IdP, Ix>,
    after: Workspace<IdP, Ix>,
    path: Seq<char>,
    trigger: Trigger,
    r: Result<Id, WorkspaceError>,
) -> bool {
    let registry = before.index.registry();
    if registry.owners.contains_key(components(path)) {
        &&& (r matches Ok(id) && id@ == registry.owners[components(path)])
        &&& after == before
    } else if !before.identity.triggers().fires(trigger) {
        &&& (r matches Err(e) && e@ == Failure::Structure(not_registered(path)))
        &&& after == before
    } else {
        match r {
            Ok(id) => issued::<IdP, Ix>(before.index, after.index, path, id@),
            Err(e) => {
                &&& e@ == Failure::Structure(NO_UNUSED_ID@)
                &&& exhausted::<IdP>(registry, path)
                &&& !all_free::<IdP>(registry, path)
                &&& after.index == before.index
            },
        }
    }
}

impl<IdP: IdentityPolicy, Ix: IndexStore> Workspace<IdP, Ix> {
    /// A workspace with the diaryx vocabulary, in no directory of its own.
    pub fn new(identity: IdP, index: Ix) -> (r: Workspace<IdP, Ix>)
        ensures
            r.identity == identity,
            r.index == index,
            r.relations@ == diaryx_vocabulary(),
            r.root@ == Seq::<char>::empty(),
    {
        let root = String::new();
        assert(root@ =~= Seq::empty());
        Workspace { root, relations: RelationSet::diaryx(), identity, index }
    }

    /// This workspace, in the directory `root`.
    pub fn with_root(self, root: &str) -> (r: Workspace<IdP, Ix>)
        ensures
            r.root@ == root@,
            r.relations == self.relations,
            r.identity == self.identity,
            r.index == self.index,
    {
        Workspace {
            root: root.to_owned(),
            relations: self.relations,
            identity: self.identity,
            index: self.index,
        }
    }

    /// Where a link in the document `doc` leads.
    pub fn resolve_link(&self, doc: &str, link: &Link) -> (r: Target)
        requires
            self.index.wf(),
        ensures
            r@ == target_of(self.index.registry(), doc@, link@),
    {
        if link.is_external() {
            return Target::External;
        }
        match link.id_target() {
            Some(id) => match self.index.resolve(&id) {
                Some(path) => Target::Path(normalize(path.as_str())),
                None => Target::UnresolvedId(id),
            },
            None => Target::Path(resolve(doc, link.target.as_str())),
        }
    }

    /// Whether a minted ID may be issued: the registry must never have known it.
    pub fn admits(&self, id: &Id) -> (r: bool)
        requires
            self.index.wf(),
        ensures
            r == !self.index.registry().known.contains(id@),
    {
        !self.index.is_known(id)
    }

    /// Mints an ID for `path` that the registry does not know: mints again until one
    /// is admitted. It fails only when every one of so many attempts gave an ID on record;
    /// where the registry knows no ID that may be minted, it succeeds.
    pub fn mint_unique(&mut self, path: &str) -> (r: Result<Id, WorkspaceError>)
        requires
            old(self).index.wf(),
        ensures
            final(self).index == old(self).index,
            final(self).relations == old(self).relations,
            final(self).root == old(self).root,
            match r {
                Ok(id) => IdP::may_mint(path@, id@) && !old(self).index.registry().known.contains(
                    id@,
                ),
                Err(e) => e@ == Failure::Structure(NO_UNUSED_ID@) && exhausted::<IdP>(
                    old(self).index.registry(),
                    path@,
                ),
            },
            all_free::<IdP>(old(self).index.registry(), path@) ==> r is Ok,
    {
        let ghost mut tried: Seq<Seq<char>> = Seq::empty();
        let mut left: u64 = MINT_ATTEMPTS;
        while left > 0
            invariant
                self.index == old(self).index,
                self.relations == old(self).relations,
                self.root == old(self).root,
                self.index.wf(),
                left + tried.len() == MINT_ATTEMPTS,
                all_known::<IdP>(self.index.registry(), path@, tried),
            decreases left,
        {
            let id = self.identity.mint(path);
            if self.admits(&id) {
                return Ok(id);
            }
            proof {
                tried = tried.push(id@);
            }
            left -= 1;
        }
        proof {
            assert(exhausted::<IdP>(self.index.registry(), path@));
            if all_free::<IdP>(self.index.registry(), path@) {
                free_ids_are_not_exhausted::<IdP>(self.index.registry(), path@);
            }
        }
        Err(WorkspaceError::Structure(NO_UNUSED_ID.to_owned()))
    }

    /// Ensures that the document at `path` has an ID, and returns it: the one it
    /// has, or a new one where the policy registers on `trigger`.
    pub fn register(&mut self, path: &str, trigger: Trigger) -> (r: Result<Id, WorkspaceError>)
        requires
            old(self).index.wf(),
        ensures
            final(self).index.wf(),
            final(self).relations == old(self).relations,
            final(self).root == old(self).root,
            registers(*old(self), *final(self), normalized(path@), trigger, r),
    {
        let path = normalize(path);
        if let Some(id) = self.index.id_for_path(path.as_str()) {
            return Ok(id);
        }
        if !self.identity.registration().fires_on(trigger) {
            return Err(WorkspaceError::Structure(not_registered_text(path.as_str())));
        }
        match self.mint_unique(path.as_str()) {
            Ok(id) => {
                self.index.register(&id, path.as_str());
                Ok(id)
            },
            Err(e) => Err(e),
        }
    }
}

// ---- laws ----

/// Law: where a link leads. A link out of the workspace leads out whatever a registry says, a
/// link by ID leads to the path of the ID and nowhere else, or nowhere where the ID does not
/// resolve, and any other link leads to a path that depends on the document alone.
pub proof fn links_lead_where_they_say(r: Registry, other: Registry, doc: Seq<char>, link: LinkView)
    ensures
        external_target(link.target) <==> target_of(r, doc, link) is External,
        !external_target(link.target) ==> match named_id(link.target) {
            Some(id) => {
                &&& ID_SCHEME@ + id == link.target
                &&& r.live.contains_key(id) ==> target_of(r, doc, link) == TargetView::Path(
                    normalized(r.live[id]),
                )
                &&& !r.live.contains_key(id) ==> target_of(r, doc, link)
                    == TargetView::UnresolvedId(id)
            },
            None => {
                &&& !ID_SCHEME@.is_prefix_of(link.target)
                &&& target_of(r, doc, link) == target_of(other, doc, link)
                &&& target_of(r, doc, link) == TargetView::Path(resolved(doc, link.target))
            },
        },
{
    if let Some(id) = named_id(link.target) {
        assert(ID_SCHEME@ + id =~= link.target);
    }
}

/// Law: registering a document gives an ID by which it is found, and by whose path it is
/// found. It is the one it had, or one never on record before. All other IDs, and the whole
/// registry where none is given, stay as they were.
pub proof fn registered_document_is_found<IdP: IdentityPolicy>(
    before: Workspace<IdP, FileIndex>,
    after: Workspace<IdP, FileIndex>,
    path: Seq<char>,
    trigger: Trigger,
    r: Result<Id, WorkspaceError>,
    other: Seq<char>,
)
    requires
        registers(before, after, path, trigger, r),
    ensures
        ({
            let was = before.index.registry();
            let now = after.index.registry();
            let had = was.owners.contains_key(components(path));
            &&& r matches Ok(id) ==> {
                &&& now.owners.contains_key(components(path))
                &&& now.owners[components(path)] == id@
                &&& had ==> now == was
                &&& !had ==> {
                    &&& before.identity.triggers().fires(trigger)
                    &&& !was.known.contains(id@)
                    &&& IdP::may_mint(path, id@)
                    &&& now.live.contains_key(id@) && now.live[id@] == path
                    &&& now.known.contains(id@)
                }
                &&& other != id@ ==> {
                    &&& now.live.contains_key(other) == was.live.contains_key(other)
                    &&& was.live.contains_key(other) ==> now.live[other] == was.live[other]
                    &&& now.known.contains(other) == was.known.contains(other)
                }
            }
            &&& r is Err ==> now == was && !had
            &&& !had && !before.identity.triggers().fires(trigger) ==> r is Err
        }),
{
    if let Ok(id) = r {
        persistent_registry_remembers(before.index, id@, path);
        registered_resolves_both_ways(before.index.registry(), id@, path);
    }
}

/// Law: who is refused an ID is told of which document, and that the policy does not give one
/// out on the event.
pub proof fn refusal_names_the_document(path: Seq<char>)
    ensures
        not_registered(path) == path
            + " has no ID, and the identity policy does not register on this event"@,
{
}

} // verus!
