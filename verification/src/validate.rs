//! Validation: integrity findings over the workspace graph, from a root.
//!
//! A check walks the spanning tree and reports every violated invariant as a
//! [`Finding`]: data, not a panic. It looks for
//!
//! - broken links: a target that resolves to nothing on disk;
//! - case mismatches: a target that only resolves where the file system ignores
//!   case, found by comparing exact directory listings;
//! - cycles and duplicate containment: a spanning target that was already reached
//!   (the spanning relation must be a single-parent tree);
//! - missing inverses: a spanning child whose inverse field does not point back;
//! - unreadable documents;
//! - malformed and dangling IDs.
//!
//! Targets out of the workspace are never checked. The walk does no I/O of its
//! own: it names the documents and directories to read, one document at a time.
use vstd::prelude::*;

use crate::document::{document_in, Document, DocumentView};
use crate::error::{failure_text, Failure};
use crate::identity::{verify, well_formed_id, Id, IdentityPolicy};
use crate::index::{IndexStore, Registry};
use crate::link::{link_of, normalize, normalized, Link};
use crate::path::{components, file_name, join_paths, join_text, last_name};
use crate::relation::{
    edges_of, links_in, links_under, spanning_inverse, Edge, EdgeView, Vocabulary,
};
use crate::text::{chars_of, same, views};
use crate::workspace::{target_of, Target, TargetView, Workspace};

verus! {

/// One integrity finding. `doc` is always the document that declares the problem.
#[derive(Debug, Clone, PartialEq, Eq)]
pub enum Finding {
    /// `target` (declared under `relation`) resolves to nothing on disk.
    BrokenLink { doc: String, relation: String, target: String },
    /// `target` only resolves where case is ignored; the exact name on disk is
    /// `actual`. Portable workspaces need the exact name.
    CaseMismatch { doc: String, relation: String, target: String, actual: String },
    /// A spanning target that was already reached: a containment cycle or a second
    /// parent, either of which breaks the single-parent spanning tree.
    DuplicateContainment { doc: String, target: String },
    /// A spanning child whose inverse field does not link back to `doc`.
    MissingInverse { doc: String, child: String, inverse: String },
    /// A document that could not be read or parsed.
    Unreadable { doc: String, error: String },
    /// A link by ID whose ID fails the shape or check-character test: almost
    /// certainly a typo.
    MalformedId { doc: String, relation: String, target: String },
    /// A well-formed link by ID with no live registry entry. `tombstoned` tells
    /// "that document was deleted" from "this ID was never issued here".
    DanglingId { doc: String, relation: String, id: Id, tombstoned: bool },
}

/// A finding, as a mathematical value.
pub enum FindingView {
    /// See [`Finding::BrokenLink`].
    BrokenLink { doc: Seq<char>, relation: Seq<char>, target: Seq<char> },
    /// See [`Finding::CaseMismatch`].
    CaseMismatch { doc: Seq<char>, relation: Seq<char>, target: Seq<char>, actual: Seq<char> },
    /// See [`Finding::DuplicateContainment`].
    DuplicateContainment { doc: Seq<char>, target: Seq<char> },
    /// See [`Finding::MissingInverse`].
    MissingInverse { doc: Seq<char>, child: Seq<char>, inverse: Seq<char> },
    /// See [`Finding::Unreadable`].
    Unreadable { doc: Seq<char>, error: Seq<char> },
    /// See [`Finding::MalformedId`].
    MalformedId { doc: Seq<char>, relation: Seq<char>, target: Seq<char> },
    /// See [`Finding::DanglingId`].
    DanglingId { doc: Seq<char>, relation: Seq<char>, id: Seq<char>, tombstoned: bool },
}

impl View for Finding {
    type V = FindingView;

    open spec fn view(&self) -> FindingView {
        match self {
            Finding::BrokenLink { doc, relation, target } => FindingView::BrokenLink {
                doc: doc@,
                relation: relation@,
                target: target@,
            },
            Finding::CaseMismatch { doc, relation, target, actual } => FindingView::CaseMismatch {
                doc: doc@,
                relation: relation@,
                target: target@,
                actual: actual@,
            },
            Finding::DuplicateContainment { doc, target } => FindingView::DuplicateContainment {
                doc: doc@,
                target: target@,
            },
            Finding::MissingInverse { doc, child, inverse } => FindingView::MissingInverse {
                doc: doc@,
                child: child@,
                inverse: inverse@,
            },
            Finding::Unreadable { doc, error } => FindingView::Unreadable {
                doc: doc@,
                error: error@,
            },
            Finding::MalformedId { doc, relation, target } => FindingView::MalformedId {
                doc: doc@,
                relation: relation@,
                target: target@,
            },
            Finding::DanglingId { doc, relation, id, tombstoned } => FindingView::DanglingId {
                doc: doc@,
                relation: relation@,
                id: id@,
                tombstoned: *tombstoned,
            },
        }
    }
}

/// The text of a finding.
pub open spec fn finding_text(f: FindingView) -> Seq<char> {
    match f {
        FindingView::BrokenLink { doc, relation, target } => doc + ": broken "@ + relation
            + " link: "@ + target,
        FindingView::CaseMismatch { doc, relation, target, actual } => doc + ": case mismatch in "@
            + relation + " link: "@ + target + " is "@ + actual + " on disk"@,
        FindingView::DuplicateContainment { doc, target } => doc + ": "@ + target
            + " is already contained elsewhere (cycle or second parent)"@,
        FindingView::MissingInverse { doc, child, inverse } => doc + ": child "@ + child
            + " does not declare "@ + inverse + " back to it"@,
        FindingView::Unreadable { doc, error } => doc + ": unreadable: "@ + error,
        FindingView::MalformedId { doc, relation, target } => doc + ": malformed ID in "@ + relation
            + " link: "@ + target + " (bad shape or check character)"@,
        FindingView::DanglingId { doc, relation, id, tombstoned } => doc + ": dangling "@ + relation
            + " ID: colophon:"@ + id + " ("@ + (if tombstoned {
            "document was deleted"@
        } else {
            "never issued in this registry"@
        }) + ")"@,
    }
}

impl Finding {
    /// The finding as one line of text.
    pub fn message(&self) -> (r: String)
        ensures
            r@ == finding_text(self@),
    {
        let mut out = String::new();
        match self {
            Finding::BrokenLink { doc, relation, target } => {
                out.append(doc.as_str());
                out.append(": broken ");
                out.append(relation.as_str());
                out.append(" link: ");
                out.append(target.as_str());
            },
            Finding::CaseMismatch { doc, relation, target, actual } => {
                out.append(doc.as_str());
                out.append(": case mismatch in ");
                out.append(relation.as_str());
                out.append(" link: ");
                out.append(target.as_str());
                out.append(" is ");
                out.append(actual.as_str());
                out.append(" on disk");
            },
            Finding::DuplicateContainment { doc, target } => {
                out.append(doc.as_str());
                out.append(": ");
                out.append(target.as_str());
                out.append(" is already contained elsewhere (cycle or second parent)");
            },
            Finding::MissingInverse { doc, child, inverse } => {
                out.append(doc.as_str());
                out.append(": child ");
                out.append(child.as_str());
                out.append(" does not declare ");
                out.append(inverse.as_str());
                out.append(" back to it");
            },
            Finding::Unreadable { doc, error } => {
                out.append(doc.as_str());
                out.append(": unreadable: ");
                out.append(error.as_str());
            },
            Finding::MalformedId { doc, relation, target } => {
                out.append(doc.as_str());
                out.append(": malformed ID in ");
                out.append(relation.as_str());
                out.append(" link: ");
                out.append(target.as_str());
                out.append(" (bad shape or check character)");
            },
            Finding::DanglingId { doc, relation, id, tombstoned } => {
                out.append(doc.as_str());
                out.append(": dangling ");
                out.append(relation.as_str());
                out.append(" ID: colophon:");
                out.append(id.as_str());
                out.append(" (");
                if *tombstoned {
                    out.append("document was deleted");
                } else {
                    out.append("never issued in this registry");
                }
                out.append(")");
            },
        }
        assert(out@ =~= finding_text(self@));
        out
    }
}

// ---- exact names ----

/// How a name matches a directory listing.
#[derive(Debug, Clone, PartialEq, Eq)]
pub enum NameMatch {
    /// A name in the listing is the same.
    Exact,
    /// Names in the listing are the same but for the case of ASCII letters; this
    /// is the last of them.
    CaseOnly(String),
    /// No name in the listing is the same.
    Missing,
}

/// How a name matches a directory listing, as a mathematical value.
pub enum MatchView {
    /// See [`NameMatch::Exact`].
    Exact,
    /// See [`NameMatch::CaseOnly`].
    CaseOnly(Seq<char>),
    /// See [`NameMatch::Missing`].
    Missing,
}

impl View for NameMatch {
    type V = MatchView;

    open spec fn view(&self) -> MatchView {
        match self {
            NameMatch::Exact => MatchView::Exact,
            NameMatch::CaseOnly(n) => MatchView::CaseOnly(n@),
            NameMatch::Missing => MatchView::Missing,
        }
    }
}

/// The code of a character, ASCII letters in lower case.
pub open spec fn lower(c: char) -> int {
    let n = c as int;
    if 65 <= n <= 90 {
        n + 32
    } else {
        n
    }
}

/// Whether two texts are the same but for the case of ASCII letters.
pub open spec fn same_but_case(a: Seq<char>, b: Seq<char>) -> bool {
    a.len() == b.len() && forall|i: int|
        0 <= i < a.len() ==> lower(#[trigger] a[i]) == lower(b[i])
}

/// The last of `names` that is the same as `name` but for case.
pub open spec fn last_case_match(names: Seq<Seq<char>>, name: Seq<char>) -> Option<Seq<char>>
    decreases names.len(),
{
    if names.len() == 0 {
        None
    } else if same_but_case(names.last(), name) {
        Some(names.last())
    } else {
        last_case_match(names.drop_last(), name)
    }
}

/// How `name` matches `names`.
pub open spec fn match_of(names: Seq<Seq<char>>, name: Seq<char>) -> MatchView {
    if names.contains(name) {
        MatchView::Exact
    } else {
        match last_case_match(names, name) {
            Some(n) => MatchView::CaseOnly(n),
            None => MatchView::Missing,
        }
    }
}

/// How the end of `path` matches the listing of the directory that holds it: not at
/// all where the path ends in no name or the directory cannot be listed.
pub open spec fn exact_match(listing: Option<Seq<Seq<char>>>, path: Seq<char>) -> MatchView {
    match (listing, last_name(components(path))) {
        (Some(names), Some(name)) => match_of(names, name),
        _ => MatchView::Missing,
    }
}

/// The code of a character, ASCII letters in lower case.
fn lower_of(c: char) -> (r: u32)
    ensures
        r == lower(c),
{
    let n: u32 = c as u32;
    if n >= 65 && n <= 90 {
        n + 32
    } else {
        n
    }
}

/// Whether two texts are the same but for the case of ASCII letters.
fn equals_but_case(a: &str, b: &str) -> (r: bool)
    ensures
        r == same_but_case(a@, b@),
{
    let x = chars_of(a);
    let y = chars_of(b);
    if x.len() != y.len() {
        return false;
    }
    let mut i: usize = 0;
    while i < x.len()
        invariant
            i <= x@.len(),
            x@ == a@,
            y@ == b@,
            x@.len() == y@.len(),
            forall|j: int| 0 <= j < i ==> lower(#[trigger] x@[j]) == lower(y@[j]),
        decreases x@.len() - i,
    {
        if lower_of(x[i]) != lower_of(y[i]) {
            assert(lower(a@[i as int]) != lower(b@[i as int]));
            return false;
        }
        i += 1;
    }
    true
}

/// How the end of `path` matches the listing of the directory that holds it:
/// exactly, only where case is ignored (the portability hazard), or not at all.
fn name_in(listing: &Option<Vec<String>>, path: &str) -> (r: NameMatch)
    ensures
        r@ == exact_match(
            match listing {
                Some(names) => Some(views(names@)),
                None => None,
            },
            path@,
        ),
{
    let name = match file_name(path) {
        Some(n) => n,
        None => {
            return NameMatch::Missing;
        },
    };
    let names = match listing {
        Some(n) => n,
        None => {
            return NameMatch::Missing;
        },
    };
    let ghost all = views(names@);
    let mut case_only: Option<String> = None;
    let mut i: usize = 0;
    assert(all.take(0) =~= Seq::empty());
    while i < names.len()
        invariant
            i <= names@.len(),
            all == views(names@),
            forall|j: int| 0 <= j < i ==> #[trigger] all[j] != name@,
            last_name(components(path@)) == Some(name@),
            match case_only {
                Some(n) => last_case_match(all.take(i as int), name@) == Some(n@),
                None => last_case_match(all.take(i as int), name@) is None,
            },
            listing == Some(*names),
        decreases names@.len() - i,
    {
        assert(all[i as int] == names@[i as int]@);
        assert(all.take(i + 1).drop_last() =~= all.take(i as int));
        assert(all.take(i + 1).last() == all[i as int]);
        if same(names[i].as_str(), name.as_str()) {
            assert(all.contains(name@));
            return NameMatch::Exact;
        }
        if equals_but_case(names[i].as_str(), name.as_str()) {
            case_only = Some(names[i].clone());
        }
        i += 1;
    }
    assert(all.take(i as int) =~= all);
    assert(!all.contains(name@));
    match case_only {
        Some(actual) => NameMatch::CaseOnly(actual),
        None => NameMatch::Missing,
    }
}

// ---- the walk ----

/// What a check looks at: the registry, the vocabulary, and what the storage holds.
pub struct Ground {
    /// The directory that paths are relative to.
    pub root: Seq<char>,
    /// The registry.
    pub registry: Registry,
    /// The vocabulary.
    pub vocabulary: Vocabulary,
    /// The text of each path, or the text of the error it cannot be read with.
    pub texts: spec_fn(Seq<char>) -> Result<Seq<char>, Seq<char>>,
    /// The names in the directory that holds each path, where it can be listed.
    pub listings: spec_fn(Seq<char>) -> Option<Seq<Seq<char>>>,
}

/// How far a check is.
#[verifier::ext_equal]
pub struct Walk {
    /// The findings so far.
    pub findings: Seq<FindingView>,
    /// The documents that were visited.
    pub visited: Set<Seq<char>>,
    /// The documents still to visit; the last is next.
    pub queue: Seq<Seq<char>>,
}

/// How the name of a path matches the directory that holds it. The path is seen from the
/// root, so that the root itself is looked for in the directory above it.
pub open spec fn match_at(g: Ground, path: Seq<char>) -> MatchView {
    exact_match((g.listings)(path), join_text(g.root, path))
}

/// A document that was read, or the text of the error it cannot be read with.
pub open spec fn read_of(text: Result<Seq<char>, Seq<char>>) -> Result<DocumentView, Seq<char>> {
    match text {
        Err(m) => Err(m),
        Ok(t) => match document_in(t) {
            Ok(d) => Ok(d),
            Err(e) => Err(failure_text(e)),
        },
    }
}

/// The document at a path.
pub open spec fn document_at(g: Ground, path: Seq<char>) -> Result<DocumentView, Seq<char>> {
    read_of((g.texts)(path))
}

/// The edges that the document at a path declares.
pub open spec fn edges_at(g: Ground, path: Seq<char>) -> Seq<EdgeView> {
    match document_at(g, path) {
        Ok(d) => edges_of(g.vocabulary.relations, d.meta),
        Err(_) => Seq::empty(),
    }
}

/// Where an edge of the document at `doc` leads.
pub open spec fn lead(g: Ground, doc: Seq<char>, e: EdgeView) -> TargetView {
    target_of(g.registry, doc, link_of(e.target))
}

/// Whether some link of the document `d` at `child` under `inverse` leads to
/// `parent`.
pub open spec fn points_back(
    r: Registry,
    d: DocumentView,
    child: Seq<char>,
    inverse: Seq<char>,
    parent: Seq<char>,
) -> bool {
    exists|i: int|
        0 <= i < links_under(d.meta, inverse).len() && target_of(
            r,
            child,
            link_of(#[trigger] links_under(d.meta, inverse)[i]),
        ) == TargetView::Path(parent)
}

/// Whether the spanning child at `child` fails to declare the inverse back to
/// `parent`. A child that cannot be read or that has no metadata is not held to it.
pub open spec fn lacks_inverse(
    g: Ground,
    text: Result<Seq<char>, Seq<char>>,
    child: Seq<char>,
    parent: Seq<char>,
) -> bool {
    &&& spanning_inverse(g.vocabulary) matches Some(inverse)
    &&& read_of(text) matches Ok(d)
    &&& d.embed is Some
    &&& !points_back(g.registry, d, child, inverse, parent)
}

/// What the name of a target gives: a finding where it does not match exactly.
pub open spec fn name_findings(
    doc: Seq<char>,
    e: EdgeView,
    m: MatchView,
) -> Seq<FindingView> {
    let target = link_of(e.target).target;
    match m {
        MatchView::Exact => Seq::empty(),
        MatchView::CaseOnly(actual) => seq![
            FindingView::CaseMismatch { doc, relation: e.relation, target, actual },
        ],
        MatchView::Missing => seq![FindingView::BrokenLink { doc, relation: e.relation, target }],
    }
}

/// What an edge to an ID that does not resolve gives.
pub open spec fn id_finding(g: Ground, doc: Seq<char>, e: EdgeView, id: Seq<char>) -> FindingView {
    if well_formed_id(id) {
        FindingView::DanglingId {
            doc,
            relation: e.relation,
            id,
            tombstoned: g.registry.known.contains(id),
        }
    } else {
        FindingView::MalformedId { doc, relation: e.relation, target: link_of(e.target).target }
    }
}

/// How far the check is after looking at the edge `e` of the document at `doc`.
pub open spec fn after_edge(g: Ground, w: Walk, doc: Seq<char>, e: EdgeView) -> Walk {
    match lead(g, doc, e) {
        TargetView::External => w,
        TargetView::UnresolvedId(id) => Walk {
            findings: w.findings.push(id_finding(g, doc, e, id)),
            ..w
        },
        TargetView::Path(p) => {
            let m = match_at(g, p);
            let named = Walk { findings: w.findings + name_findings(doc, e, m), ..w };
            if m is Missing || Some(e.relation) != g.vocabulary.spanning {
                named
            } else if w.visited.contains(p) || w.queue.contains(p) {
                Walk {
                    findings: named.findings.push(
                        FindingView::DuplicateContainment { doc, target: link_of(e.target).target },
                    ),
                    ..w
                }
            } else if lacks_inverse(g, (g.texts)(p), p, doc) {
                Walk {
                    findings: named.findings.push(
                        FindingView::MissingInverse {
                            doc,
                            child: p,
                            inverse: spanning_inverse(g.vocabulary)->Some_0,
                        },
                    ),
                    queue: w.queue.push(p),
                    ..w
                }
            } else {
                Walk { queue: w.queue.push(p), ..named }
            }
        },
    }
}

/// How far the check is after looking at the first `n` edges of a document.
pub open spec fn after_edges(g: Ground, w: Walk, doc: Seq<char>, edges: Seq<EdgeView>, n: nat) -> Walk
    decreases n,
{
    if n == 0 {
        w
    } else {
        after_edge(g, after_edges(g, w, doc, edges, (n - 1) as nat), doc, edges[n - 1])
    }
}

/// How far the check is after the document at `doc` was taken up.
pub open spec fn after_document(g: Ground, w: Walk, doc: Seq<char>) -> Walk {
    match document_at(g, doc) {
        Err(m) => Walk {
            findings: w.findings.push(FindingView::Unreadable { doc, error: m }),
            ..w
        },
        Ok(_) => after_edges(g, w, doc, edges_at(g, doc), edges_at(g, doc).len()),
    }
}

/// How far the check is after one more turn: the next document is taken from the
/// queue and, unless it was visited, taken up.
pub open spec fn after_turn(g: Ground, w: Walk) -> Walk {
    if w.queue.len() == 0 {
        w
    } else {
        let doc = w.queue.last();
        let rest = w.queue.drop_last();
        if w.visited.contains(doc) {
            Walk { queue: rest, ..w }
        } else {
            after_document(g, Walk { visited: w.visited.insert(doc), queue: rest, ..w }, doc)
        }
    }
}

/// How far a check from `start` is after `n` turns.
pub open spec fn after_turns(g: Ground, start: Seq<char>, n: nat) -> Walk
    decreases n,
{
    if n == 0 {
        Walk { findings: Seq::empty(), visited: Set::empty(), queue: seq![start] }
    } else {
        after_turn(g, after_turns(g, start, (n - 1) as nat))
    }
}

// ---- laws ----

/// Whether a document can be reached from `start` over `n` spanning edges.
pub open spec fn reached(g: Ground, start: Seq<char>, doc: Seq<char>, n: nat) -> bool
    decreases n,
{
    if n == 0 {
        doc == start
    } else {
        exists|from: Seq<char>, i: int|
            reached(g, start, from, (n - 1) as nat) && #[trigger] spans(g, from, i, doc)
    }
}

/// Whether the `i`th edge of the document at `from` is a spanning edge that leads to
/// `doc`.
pub open spec fn spans(g: Ground, from: Seq<char>, i: int, doc: Seq<char>) -> bool {
    &&& 0 <= i < edges_at(g, from).len()
    &&& Some(edges_at(g, from)[i].relation) == g.vocabulary.spanning
    &&& lead(g, from, edges_at(g, from)[i]) == TargetView::Path(doc)
}

/// Whether an edge of the document at `doc` holds its invariants: it leads out of
/// the workspace, or to a path with exactly that name, and a spanning child that can
/// be read and has metadata declares the inverse back.
pub open spec fn sound_edge(g: Ground, doc: Seq<char>, e: EdgeView) -> bool {
    match lead(g, doc, e) {
        TargetView::External => true,
        TargetView::UnresolvedId(_) => false,
        TargetView::Path(p) => {
            &&& match_at(g, p) is Exact
            &&& Some(e.relation) == g.vocabulary.spanning ==> !lacks_inverse(
                g,
                (g.texts)(p),
                p,
                doc,
            )
        },
    }
}

/// Whether the document at `doc` holds its invariants: it can be read, and every
/// edge it declares is sound.
pub open spec fn sound_document(g: Ground, doc: Seq<char>) -> bool {
    &&& document_at(g, doc) is Ok
    &&& forall|i: int|
        0 <= i < edges_at(g, doc).len() ==> sound_edge(g, doc, #[trigger] edges_at(g, doc)[i])
}

/// Whether every spanning edge of the first `n` of a document leads to one that was
/// visited or is queued.
spec fn covered(g: Ground, w: Walk, doc: Seq<char>, edges: Seq<EdgeView>, n: nat) -> bool {
    forall|i: int|
        0 <= i < n && Some((#[trigger] edges[i]).relation) == g.vocabulary.spanning ==> match lead(
            g,
            doc,
            edges[i],
        ) {
            TargetView::Path(p) => w.visited.contains(p) || w.queue.contains(p),
            _ => true,
        }
}

/// Findings are only ever added, and nothing that was visited or queued is lost,
/// while the edges of one document are looked at.
proof fn lemma_edge_grows(g: Ground, w: Walk, doc: Seq<char>, e: EdgeView)
    ensures
        after_edge(g, w, doc, e).visited == w.visited,
        w.findings.is_prefix_of(after_edge(g, w, doc, e).findings),
        w.queue.is_prefix_of(after_edge(g, w, doc, e).queue),
        forall|p: Seq<char>| #[trigger]
            w.queue.contains(p) ==> after_edge(g, w, doc, e).queue.contains(p),
{
    let v = after_edge(g, w, doc, e);
    assert(v.queue == w.queue || (v.queue.len() == w.queue.len() + 1 && v.queue.drop_last()
        =~= w.queue));
    assert forall|p: Seq<char>| #[trigger] w.queue.contains(p) implies v.queue.contains(p) by {
        let k = choose|k: int| 0 <= k < w.queue.len() && w.queue[k] == p;
        assert(v.queue[k] == p);
    }
}

/// What looking at the first `n` edges of a document establishes, when nothing was
/// found.
proof fn lemma_edges(g: Ground, w: Walk, doc: Seq<char>, edges: Seq<EdgeView>, n: nat)
    requires
        n <= edges.len(),
    ensures
        after_edges(g, w, doc, edges, n).visited == w.visited,
        w.findings.is_prefix_of(after_edges(g, w, doc, edges, n).findings),
        forall|p: Seq<char>| #[trigger]
            w.queue.contains(p) ==> after_edges(g, w, doc, edges, n).queue.contains(p),
        after_edges(g, w, doc, edges, n).findings.len() == 0 ==> covered(
            g,
            after_edges(g, w, doc, edges, n),
            doc,
            edges,
            n,
        ) && forall|i: int| 0 <= i < n ==> sound_edge(g, doc, #[trigger] edges[i]),
    decreases n,
{
    if n > 0 {
        let before = after_edges(g, w, doc, edges, (n - 1) as nat);
        let after = after_edges(g, w, doc, edges, n);
        let e = edges[n - 1];
        lemma_edges(g, w, doc, edges, (n - 1) as nat);
        lemma_edge_grows(g, before, doc, e);
        if after.findings.len() == 0 {
            assert(before.findings.len() == 0);
            match lead(g, doc, e) {
                TargetView::Path(p) => {
                    let m = match_at(g, p);
                    assert(m is Exact) by {
                        if !(m is Exact) {
                            assert(name_findings(doc, e, m).len() == 1);
                        }
                    }
                    if Some(e.relation) == g.vocabulary.spanning {
                        assert(after.queue == before.queue.push(p));
                        assert(after.queue[before.queue.len() as int] == p);
                        assert(after.queue.contains(p));
                    }
                },
                _ => {},
            }
            assert(sound_edge(g, doc, e));
        }
    }
}

/// What holds of a check that has found nothing so far: the start is visited or
/// queued, every visited document is sound, and its spanning targets are visited or
/// queued.
spec fn clean(g: Ground, start: Seq<char>, w: Walk) -> bool {
    &&& w.visited.contains(start) || w.queue.contains(start)
    &&& forall|doc: Seq<char>| #[trigger]
        w.visited.contains(doc) ==> sound_document(g, doc) && covered(
            g,
            w,
            doc,
            edges_at(g, doc),
            edges_at(g, doc).len(),
        )
}

proof fn lemma_clean(g: Ground, start: Seq<char>, n: nat)
    requires
        after_turns(g, start, n).findings.len() == 0,
    ensures
        clean(g, start, after_turns(g, start, n)),
    decreases n,
{
    let after = after_turns(g, start, n);
    if n == 0 {
        assert(after.queue[0] == start);
    } else {
        let before = after_turns(g, start, (n - 1) as nat);
        if before.queue.len() == 0 {
            lemma_clean(g, start, (n - 1) as nat);
        } else {
            let doc = before.queue.last();
            let rest = before.queue.drop_last();
            let taken = Walk { visited: before.visited.insert(doc), queue: rest, ..before };
            assert forall|p: Seq<char>| #[trigger] before.queue.contains(p) implies p == doc
                || rest.contains(p) by {
                let k = choose|k: int| 0 <= k < before.queue.len() && before.queue[k] == p;
                if k < rest.len() {
                    assert(rest[k] == p);
                }
            }
            if before.visited.contains(doc) {
                lemma_clean(g, start, (n - 1) as nat);
            } else {
                let edges = edges_at(g, doc);
                if document_at(g, doc) is Ok {
                    lemma_edges(g, taken, doc, edges, edges.len());
                }
                assert(before.findings.len() == 0);
                lemma_clean(g, start, (n - 1) as nat);
                assert(after.visited == before.visited.insert(doc));
                assert(sound_document(g, doc));
                assert forall|d: Seq<char>| #[trigger]
                    after.visited.contains(d) implies sound_document(g, d) && covered(
                    g,
                    after,
                    d,
                    edges_at(g, d),
                    edges_at(g, d).len(),
                ) by {
                    if d != doc {
                        assert(before.visited.contains(d));
                    }
                }
            }
        }
    }
}

/// Law: an empty result means that the reachable graph holds its invariants. When a
/// check has run out of documents and found nothing, every document that can be
/// reached over spanning edges can be read, and every edge it declares is sound.
pub proof fn no_findings_means_sound(g: Ground, start: Seq<char>, n: nat, doc: Seq<char>, k: nat)
    requires
        after_turns(g, start, n).queue.len() == 0,
        after_turns(g, start, n).findings.len() == 0,
        reached(g, start, doc, k),
    ensures
        sound_document(g, doc),
{
    lemma_clean(g, start, n);
    lemma_visited(g, start, n, doc, k);
}

/// A check that has run out of documents and found nothing has visited every document
/// that can be reached.
proof fn lemma_visited(g: Ground, start: Seq<char>, n: nat, doc: Seq<char>, k: nat)
    requires
        after_turns(g, start, n).queue.len() == 0,
        clean(g, start, after_turns(g, start, n)),
        reached(g, start, doc, k),
    ensures
        after_turns(g, start, n).visited.contains(doc),
    decreases k,
{
    let w = after_turns(g, start, n);
    if k > 0 {
        let (from, i) = choose|from: Seq<char>, i: int|
            reached(g, start, from, (k - 1) as nat) && #[trigger] spans(g, from, i, doc);
        lemma_visited(g, start, n, from, (k - 1) as nat);
        assert(covered(g, w, from, edges_at(g, from), edges_at(g, from).len()));
        assert(Some(edges_at(g, from)[i].relation) == g.vocabulary.spanning);
    }
}

/// Whether a document was reached: visited, or queued to be.
pub open spec fn known_to(w: Walk, p: Seq<char>) -> bool {
    w.visited.contains(p) || w.queue.contains(p)
}

/// Whether the `i`th edge of `d` was looked at, when the check is at the `n`th edge
/// of `doc`.
spec fn looked(w: Walk, doc: Seq<char>, n: nat, d: Seq<char>, i: int) -> bool {
    if d == doc {
        i < n
    } else {
        w.visited.contains(d)
    }
}

/// Whether the spanning edges that were looked at make a single-parent tree under
/// `start`: none leads to the start, and no two lead to the same document.
spec fn single(g: Ground, start: Seq<char>, w: Walk, doc: Seq<char>, n: nat) -> bool {
    &&& forall|d: Seq<char>, i: int|
        looked(w, doc, n, d, i) ==> !#[trigger] spans(g, d, i, start)
    &&& forall|d: Seq<char>, i: int, e: Seq<char>, j: int, p: Seq<char>|
        looked(w, doc, n, d, i) && looked(w, doc, n, e, j) && #[trigger] spans(g, d, i, p)
            && #[trigger] spans(g, e, j, p) ==> d == e && i == j
}

/// Whether what the spanning edges that were looked at lead to was reached, the start
/// too.
spec fn gathered(g: Ground, start: Seq<char>, w: Walk, doc: Seq<char>, n: nat) -> bool {
    &&& known_to(w, start)
    &&& forall|d: Seq<char>, i: int, p: Seq<char>|
        looked(w, doc, n, d, i) && #[trigger] spans(g, d, i, p) ==> known_to(w, p)
}

proof fn lemma_single_edges(g: Ground, start: Seq<char>, w: Walk, doc: Seq<char>, n: nat)
    requires
        document_at(g, doc) is Ok,
        n <= edges_at(g, doc).len(),
        w.visited.contains(doc),
        single(g, start, w, doc, 0),
        gathered(g, start, w, doc, 0),
        after_edges(g, w, doc, edges_at(g, doc), n).findings.len() == 0,
    ensures
        single(g, start, after_edges(g, w, doc, edges_at(g, doc), n), doc, n),
        gathered(g, start, after_edges(g, w, doc, edges_at(g, doc), n), doc, n),
    decreases n,
{
    if n > 0 {
        let edges = edges_at(g, doc);
        let m = (n - 1) as nat;
        let before = after_edges(g, w, doc, edges, m);
        let after = after_edges(g, w, doc, edges, n);
        let e = edges[m as int];
        lemma_edges(g, w, doc, edges, m);
        lemma_edge_grows(g, before, doc, e);
        lemma_single_edges(g, start, w, doc, m);
        lemma_edges(g, w, doc, edges, n);
        assert(forall|p: Seq<char>| known_to(before, p) ==> #[trigger] known_to(after, p));
        assert forall|d: Seq<char>, i: int, p: Seq<char>|
            looked(after, doc, n, d, i) && #[trigger] spans(g, d, i, p) implies known_to(after, p) by {
            if !looked(before, doc, m, d, i) {
                assert(d == doc && i == m);
                assert(covered(g, after, doc, edges, n));
                assert(Some(edges[i].relation) == g.vocabulary.spanning);
            }
        }
        assert forall|p: Seq<char>| spans(g, doc, m as int, p) implies !known_to(before, p) by {
            assert(lead(g, doc, e) == TargetView::Path(p));
            assert(name_findings(doc, e, match_at(g, p)).len() == 0) by {
                assert(sound_edge(g, doc, edges[m as int]));
            }
        }
        assert forall|d: Seq<char>, i: int| looked(after, doc, n, d, i) implies !#[trigger] spans(
            g,
            d,
            i,
            start,
        ) by {
            if !looked(before, doc, m, d, i) {
                assert(d == doc && i == m);
            }
        }
        assert forall|d: Seq<char>, i: int, f: Seq<char>, j: int, p: Seq<char>|
            looked(after, doc, n, d, i) && looked(after, doc, n, f, j) && #[trigger] spans(
                g,
                d,
                i,
                p,
            ) && #[trigger] spans(g, f, j, p) implies d == f && i == j by {
            if !looked(before, doc, m, d, i) {
                assert(d == doc && i == m);
            }
            if !looked(before, doc, m, f, j) {
                assert(f == doc && j == m);
            }
        }
    }
}

/// Whether the spanning edges of the visited documents make a single-parent tree.
spec fn single_visited(g: Ground, start: Seq<char>, w: Walk) -> bool {
    &&& forall|d: Seq<char>, i: int|
        w.visited.contains(d) ==> !#[trigger] spans(g, d, i, start)
    &&& forall|d: Seq<char>, i: int, e: Seq<char>, j: int, p: Seq<char>|
        w.visited.contains(d) && w.visited.contains(e) && #[trigger] spans(g, d, i, p)
            && #[trigger] spans(g, e, j, p) ==> d == e && i == j
}

proof fn lemma_single(g: Ground, start: Seq<char>, n: nat)
    requires
        after_turns(g, start, n).findings.len() == 0,
    ensures
        single_visited(g, start, after_turns(g, start, n)),
    decreases n,
{
    let after = after_turns(g, start, n);
    if n > 0 {
        let before = after_turns(g, start, (n - 1) as nat);
        if before.queue.len() == 0 {
            lemma_single(g, start, (n - 1) as nat);
        } else {
            let doc = before.queue.last();
            let rest = before.queue.drop_last();
            let taken = Walk { visited: before.visited.insert(doc), queue: rest, ..before };
            if before.visited.contains(doc) {
                lemma_single(g, start, (n - 1) as nat);
            } else {
                let edges = edges_at(g, doc);
                if document_at(g, doc) is Ok {
                    lemma_edges(g, taken, doc, edges, edges.len());
                }
                assert(before.findings.len() == 0);
                lemma_single(g, start, (n - 1) as nat);
                lemma_clean(g, start, (n - 1) as nat);
                assert forall|p: Seq<char>| #[trigger] known_to(before, p) implies known_to(
                    taken,
                    p,
                ) by {
                    if before.queue.contains(p) {
                        let k = choose|k: int| 0 <= k < before.queue.len() && before.queue[k] == p;
                        if k < rest.len() {
                            assert(rest[k] == p);
                        }
                    }
                }
                assert forall|d: Seq<char>, i: int, p: Seq<char>|
                    looked(taken, doc, 0, d, i) && #[trigger] spans(g, d, i, p) implies known_to(
                    taken,
                    p,
                ) by {
                    if d == doc {
                        assert(i < 0);
                    } else {
                        assert(before.visited.contains(d));
                        assert(covered(g, before, d, edges_at(g, d), edges_at(g, d).len()));
                        assert(Some(edges_at(g, d)[i].relation) == g.vocabulary.spanning);
                        assert(known_to(before, p));
                    }
                }
                assert(known_to(before, start));
                assert(gathered(g, start, taken, doc, 0));
                assert(single(g, start, taken, doc, 0));
                lemma_single_edges(g, start, taken, doc, edges.len());
                assert forall|d: Seq<char>, i: int, p: Seq<char>|
                    after.visited.contains(d) && #[trigger] spans(g, d, i, p) implies looked(
                    after,
                    doc,
                    edges.len(),
                    d,
                    i,
                ) by {}
            }
        }
    }
}

/// Law: an empty result means that containment is a single-parent tree. When a check
/// has run out of documents and found nothing, no spanning edge of a document that can
/// be reached leads to the start, and no two such edges lead to the same document.
pub proof fn no_findings_means_single_parents(
    g: Ground,
    start: Seq<char>,
    n: nat,
    d: Seq<char>,
    i: int,
    k: nat,
    e: Seq<char>,
    j: int,
    m: nat,
    p: Seq<char>,
)
    requires
        after_turns(g, start, n).queue.len() == 0,
        after_turns(g, start, n).findings.len() == 0,
        reached(g, start, d, k),
        reached(g, start, e, m),
        spans(g, d, i, p),
        spans(g, e, j, p),
    ensures
        p != start,
        d == e && i == j,
{
    lemma_clean(g, start, n);
    lemma_visited(g, start, n, d, k);
    lemma_visited(g, start, n, e, m);
    lemma_single(g, start, n);
}

/// The document that declares a finding's problem.
pub open spec fn doc_of(f: FindingView) -> Seq<char> {
    match f {
        FindingView::BrokenLink { doc, .. } => doc,
        FindingView::CaseMismatch { doc, .. } => doc,
        FindingView::DuplicateContainment { doc, .. } => doc,
        FindingView::MissingInverse { doc, .. } => doc,
        FindingView::Unreadable { doc, .. } => doc,
        FindingView::MalformedId { doc, .. } => doc,
        FindingView::DanglingId { doc, .. } => doc,
    }
}

/// Whether the document at `p` is contained in another way than by the `i`th edge of
/// `doc`: it is the start, or another spanning edge leads to it.
pub open spec fn contained_elsewhere(
    g: Ground,
    start: Seq<char>,
    doc: Seq<char>,
    i: int,
    p: Seq<char>,
) -> bool {
    p == start || exists|d: Seq<char>, j: int| #[trigger]
        spans(g, d, j, p) && !(d == doc && j == i)
}

/// Whether a finding is true of the `i`th edge of the document that declares it.
pub open spec fn justified_by(g: Ground, start: Seq<char>, f: FindingView, i: int) -> bool {
    let doc = doc_of(f);
    let e = edges_at(g, doc)[i];
    &&& 0 <= i < edges_at(g, doc).len()
    &&& match f {
        FindingView::BrokenLink { relation, target, .. } => {
            &&& relation == e.relation
            &&& target == link_of(e.target).target
            &&& lead(g, doc, e) matches TargetView::Path(p)
            &&& match_at(g, p) is Missing
        },
        FindingView::CaseMismatch { relation, target, actual, .. } => {
            &&& relation == e.relation
            &&& target == link_of(e.target).target
            &&& lead(g, doc, e) matches TargetView::Path(p)
            &&& match_at(g, p) == MatchView::CaseOnly(actual)
        },
        FindingView::DuplicateContainment { target, .. } => {
            &&& target == link_of(e.target).target
            &&& lead(g, doc, e) matches TargetView::Path(p)
            &&& spans(g, doc, i, p)
            &&& contained_elsewhere(g, start, doc, i, p)
        },
        FindingView::MissingInverse { child, inverse, .. } => {
            &&& spans(g, doc, i, child)
            &&& spanning_inverse(g.vocabulary) == Some(inverse)
            &&& lacks_inverse(g, (g.texts)(child), child, doc)
        },
        FindingView::Unreadable { .. } => false,
        FindingView::MalformedId { relation, target, .. } => {
            &&& relation == e.relation
            &&& target == link_of(e.target).target
            &&& lead(g, doc, e) matches TargetView::UnresolvedId(id)
            &&& !well_formed_id(id)
        },
        FindingView::DanglingId { relation, id, tombstoned, .. } => {
            &&& relation == e.relation
            &&& lead(g, doc, e) == TargetView::UnresolvedId(id)
            &&& well_formed_id(id)
            &&& tombstoned == g.registry.known.contains(id)
        },
    }
}

/// Whether a finding is true.
pub open spec fn justified(g: Ground, start: Seq<char>, f: FindingView) -> bool {
    match f {
        FindingView::Unreadable { doc, error } => document_at(g, doc) == Err::<
            DocumentView,
            Seq<char>,
        >(error),
        _ => exists|i: int| justified_by(g, start, f, i),
    }
}

/// Whether every document that was reached is the start or was led to by an edge that
/// was looked at.
spec fn explained(g: Ground, start: Seq<char>, w: Walk, doc: Seq<char>, n: nat) -> bool {
    forall|p: Seq<char>| #[trigger]
        known_to(w, p) ==> p == start || exists|d: Seq<char>, i: int|
            looked(w, doc, n, d, i) && #[trigger] spans(g, d, i, p)
}

/// Whether every finding so far is true.
spec fn all_justified(g: Ground, start: Seq<char>, w: Walk) -> bool {
    forall|j: int| 0 <= j < w.findings.len() ==> justified(g, start, #[trigger] w.findings[j])
}

proof fn lemma_justified_edges(g: Ground, start: Seq<char>, w: Walk, doc: Seq<char>, n: nat)
    requires
        document_at(g, doc) is Ok,
        n <= edges_at(g, doc).len(),
        w.visited.contains(doc),
        explained(g, start, w, doc, 0),
        all_justified(g, start, w),
    ensures
        explained(g, start, after_edges(g, w, doc, edges_at(g, doc), n), doc, n),
        all_justified(g, start, after_edges(g, w, doc, edges_at(g, doc), n)),
    decreases n,
{
    if n > 0 {
        let edges = edges_at(g, doc);
        let m = (n - 1) as nat;
        let before = after_edges(g, w, doc, edges, m);
        let after = after_edges(g, w, doc, edges, n);
        let e = edges[m as int];
        lemma_edges(g, w, doc, edges, m);
        lemma_edge_grows(g, before, doc, e);
        lemma_justified_edges(g, start, w, doc, m);
        assert forall|p: Seq<char>| #[trigger] known_to(after, p) implies p == start || exists|
            d: Seq<char>,
            i: int,
        | looked(after, doc, n, d, i) && #[trigger] spans(g, d, i, p) by {
            if known_to(before, p) {
                if p != start {
                    let (d, i) = choose|d: Seq<char>, i: int|
                        looked(before, doc, m, d, i) && #[trigger] spans(g, d, i, p);
                    assert(looked(after, doc, n, d, i));
                }
            } else {
                let k = choose|k: int| 0 <= k < after.queue.len() && after.queue[k] == p;
                if k < before.queue.len() {
                    assert(before.queue[k] == p);
                }
                assert(after.queue.last() == p);
                assert(spans(g, doc, m as int, p));
                assert(looked(after, doc, n, doc, m as int));
            }
        }
        assert forall|j: int| 0 <= j < after.findings.len() implies justified(
            g,
            start,
            #[trigger] after.findings[j],
        ) by {
            let f = after.findings[j];
            if j < before.findings.len() {
                assert(before.findings[j] == f);
            } else {
                if let FindingView::DuplicateContainment { .. } = f {
                    let p = lead(g, doc, e)->Path_0;
                    assert(spans(g, doc, m as int, p));
                    assert(known_to(before, p));
                    if p != start {
                        let (d, i) = choose|d: Seq<char>, i: int|
                            looked(before, doc, m, d, i) && #[trigger] spans(g, d, i, p);
                        assert(!(d == doc && i == m));
                    }
                    assert(contained_elsewhere(g, start, doc, m as int, p));
                }
                assert(justified_by(g, start, f, m as int));
            }
        }
    }
}

proof fn lemma_justified(g: Ground, start: Seq<char>, n: nat)
    ensures
        all_justified(g, start, after_turns(g, start, n)),
        forall|p: Seq<char>| #[trigger]
            known_to(after_turns(g, start, n), p) ==> p == start || exists|d: Seq<char>, i: int|
                after_turns(g, start, n).visited.contains(d) && #[trigger] spans(g, d, i, p),
    decreases n,
{
    let after = after_turns(g, start, n);
    if n > 0 {
        let before = after_turns(g, start, (n - 1) as nat);
        lemma_justified(g, start, (n - 1) as nat);
        if before.queue.len() > 0 {
            let doc = before.queue.last();
            let rest = before.queue.drop_last();
            let taken = Walk { visited: before.visited.insert(doc), queue: rest, ..before };
            assert(before.queue.contains(doc));
            assert forall|p: Seq<char>| #[trigger] known_to(taken, p) implies known_to(before, p) by {
                if rest.contains(p) {
                    let k = choose|k: int| 0 <= k < rest.len() && rest[k] == p;
                    assert(before.queue[k] == p);
                }
            }
            if before.visited.contains(doc) {
                assert forall|p: Seq<char>| #[trigger] known_to(after, p) implies p == start
                    || exists|d: Seq<char>, i: int|
                    after.visited.contains(d) && #[trigger] spans(g, d, i, p) by {
                    assert(known_to(taken, p));
                    assert(known_to(before, p));
                }
            } else {
                let edges = edges_at(g, doc);
                assert forall|p: Seq<char>| #[trigger] known_to(taken, p) implies p == start
                    || exists|d: Seq<char>, i: int|
                    looked(taken, doc, 0, d, i) && #[trigger] spans(g, d, i, p) by {
                    assert(known_to(before, p));
                    if p != start {
                        let (d, i) = choose|d: Seq<char>, i: int|
                            before.visited.contains(d) && #[trigger] spans(g, d, i, p);
                        assert(looked(taken, doc, 0, d, i));
                    }
                }
                if document_at(g, doc) is Ok {
                    lemma_justified_edges(g, start, taken, doc, edges.len());
                    lemma_edges(g, taken, doc, edges, edges.len());
                    assert forall|p: Seq<char>| #[trigger] known_to(after, p) implies p == start
                        || exists|d: Seq<char>, i: int|
                        after.visited.contains(d) && #[trigger] spans(g, d, i, p) by {
                        if p != start {
                            let (d, i) = choose|d: Seq<char>, i: int|
                                looked(after, doc, edges.len(), d, i) && #[trigger] spans(
                                    g,
                                    d,
                                    i,
                                    p,
                                );
                            assert(after.visited.contains(d));
                        }
                    }
                } else {
                    assert forall|p: Seq<char>| #[trigger] known_to(after, p) implies p == start
                        || exists|d: Seq<char>, i: int|
                        after.visited.contains(d) && #[trigger] spans(g, d, i, p) by {
                        assert(known_to(taken, p));
                        assert(known_to(before, p));
                        if p != start {
                            let (d, i) = choose|d: Seq<char>, i: int|
                                before.visited.contains(d) && #[trigger] spans(g, d, i, p);
                            assert(after.visited.contains(d));
                        }
                    }
                }
            }
        }
    } else {
        assert forall|p: Seq<char>| #[trigger] known_to(after, p) implies p == start by {
            let k = choose|k: int| 0 <= k < after.queue.len() && after.queue[k] == p;
            assert(after.queue[k] == start);
        }
    }
}

/// Law: every finding is true. It names a document that cannot be read, or an edge
/// that violates the invariant the finding speaks of.
pub proof fn findings_are_true(g: Ground, start: Seq<char>, n: nat, j: int)
    requires
        0 <= j < after_turns(g, start, n).findings.len(),
    ensures
        justified(g, start, after_turns(g, start, n).findings[j]),
{
    lemma_justified(g, start, n);
}

// ---- running a check ----

/// What the storage told of one path: the names in the directory that holds it, where
/// that can be listed, and its text, or the text of the error it cannot be read with.
#[derive(Debug, PartialEq, Eq)]
pub struct Seen {
    /// The path.
    pub path: String,
    /// The names in its directory.
    pub names: Option<Vec<String>>,
    /// Its text.
    pub text: Result<String, String>,
}

/// What the storage told of one path, as a mathematical value.
pub struct SeenView {
    /// See [`Seen::path`].
    pub path: Seq<char>,
    /// See [`Seen::names`].
    pub names: Option<Seq<Seq<char>>>,
    /// See [`Seen::text`].
    pub text: Result<Seq<char>, Seq<char>>,
}

/// The view of a text that may not be readable.
pub open spec fn text_view(t: Result<String, String>) -> Result<Seq<char>, Seq<char>> {
    match t {
        Ok(t) => Ok(t@),
        Err(m) => Err(m@),
    }
}

/// The view of a listing.
pub open spec fn names_view(names: Option<Vec<String>>) -> Option<Seq<Seq<char>>> {
    match names {
        Some(n) => Some(views(n@)),
        None => None,
    }
}

impl View for Seen {
    type V = SeenView;

    open spec fn view(&self) -> SeenView {
        SeenView {
            path: self.path@,
            names: names_view(self.names),
            text: text_view(self.text),
        }
    }
}

/// The views of what the storage told.
pub open spec fn seen_views(seen: Seq<Seen>) -> Seq<SeenView> {
    seen.map_values(|s: Seen| s@)
}

/// The first that was told of a path.
pub open spec fn told_of(seen: Seq<SeenView>, path: Seq<char>) -> Option<SeenView>
    decreases seen.len(),
{
    if seen.len() == 0 {
        None
    } else if seen[0].path == path {
        Some(seen[0])
    } else {
        told_of(seen.drop_first(), path)
    }
}

/// The ground as far as it was told: of any other path nothing can be listed or read.
pub open spec fn told_ground(
    root: Seq<char>,
    registry: Registry,
    vocabulary: Vocabulary,
    doc: Seq<char>,
    text: Result<Seq<char>, Seq<char>>,
    seen: Seq<SeenView>,
) -> Ground {
    Ground {
        root,
        registry,
        vocabulary,
        texts: |p: Seq<char>|
            if p == doc {
                text
            } else {
                match told_of(seen, p) {
                    Some(s) => s.text,
                    None => Err(Seq::empty()),
                }
            },
        listings: |p: Seq<char>|
            match told_of(seen, p) {
                Some(s) => s.names,
                None => None,
            },
    }
}

/// A path to ask the storage about.
#[derive(Debug, Clone, PartialEq, Eq)]
pub struct Probe {
    /// The path. The names in the directory that holds it are needed.
    pub path: String,
    /// Whether its text is needed too.
    pub read: bool,
}

/// A path to ask about, as a mathematical value.
pub struct ProbeView {
    /// See [`Probe::path`].
    pub path: Seq<char>,
    /// See [`Probe::read`].
    pub read: bool,
}

impl View for Probe {
    type V = ProbeView;

    open spec fn view(&self) -> ProbeView {
        ProbeView { path: self.path@, read: self.read }
    }
}

/// The position of the path among those to ask about.
pub open spec fn probe_at(probes: Seq<ProbeView>, path: Seq<char>) -> Option<int>
    decreases probes.len(),
{
    if probes.len() == 0 {
        None
    } else if probes.last().path == path {
        Some(probes.len() - 1)
    } else {
        probe_at(probes.drop_last(), path)
    }
}

/// The paths to ask about with one more: a path that is there already is asked about once,
/// for its text where either asks for it.
pub open spec fn with_probe(probes: Seq<ProbeView>, path: Seq<char>, read: bool) -> Seq<ProbeView> {
    match probe_at(probes, path) {
        Some(i) => probes.update(i, ProbeView { path, read: probes[i].read || read }),
        None => probes.push(ProbeView { path, read }),
    }
}

/// The paths to ask about for the first `n` edges of the document at `doc`: those the
/// edges lead to, each once, with their texts where a spanning edge leads there.
pub open spec fn probes_of(
    r: Registry,
    vocabulary: Vocabulary,
    doc: Seq<char>,
    edges: Seq<EdgeView>,
    n: nat,
) -> Seq<ProbeView>
    decreases n,
{
    if n == 0 {
        Seq::empty()
    } else {
        let rest = probes_of(r, vocabulary, doc, edges, (n - 1) as nat);
        let e = edges[n - 1];
        match target_of(r, doc, link_of(e.target)) {
            TargetView::Path(path) => with_probe(
                rest,
                path,
                Some(e.relation) == vocabulary.spanning,
            ),
            _ => rest,
        }
    }
}

/// Whether what was told is what the ground holds, as far as it was asked for.
pub open spec fn told_truly(g: Ground, seen: Seq<SeenView>, probes: Seq<ProbeView>) -> bool {
    forall|i: int|
        0 <= i < probes.len() ==> (told_of(seen, (#[trigger] probes[i]).path) matches Some(s)
            && s.names == (g.listings)(probes[i].path) && (probes[i].read ==> s.text == (g.texts)(
            probes[i].path,
        )))
}

proof fn lemma_probe_at(probes: Seq<ProbeView>, path: Seq<char>)
    ensures
        match probe_at(probes, path) {
            Some(i) => 0 <= i < probes.len() && probes[i].path == path,
            None => forall|i: int| 0 <= i < probes.len() ==> (#[trigger] probes[i]).path != path,
        },
    decreases probes.len(),
{
    if probes.len() > 0 && probes.last().path != path {
        lemma_probe_at(probes.drop_last(), path);
        if probe_at(probes, path) is None {
            assert forall|i: int| 0 <= i < probes.len() implies (#[trigger] probes[i]).path
                != path by {
                if i < probes.len() - 1 {
                    assert(probes.drop_last()[i] == probes[i]);
                }
            }
        }
    }
}

/// Law: no path is asked about twice.
pub proof fn probes_are_distinct(
    r: Registry,
    vocabulary: Vocabulary,
    doc: Seq<char>,
    edges: Seq<EdgeView>,
    n: nat,
)
    requires
        n <= edges.len(),
    ensures
        forall|i: int, j: int|
            0 <= i < j < probes_of(r, vocabulary, doc, edges, n).len() ==> (#[trigger] probes_of(
                r,
                vocabulary,
                doc,
                edges,
                n,
            )[i]).path != (#[trigger] probes_of(r, vocabulary, doc, edges, n)[j]).path,
    decreases n,
{
    if n > 0 {
        probes_are_distinct(r, vocabulary, doc, edges, (n - 1) as nat);
        let rest = probes_of(r, vocabulary, doc, edges, (n - 1) as nat);
        let all = probes_of(r, vocabulary, doc, edges, n);
        if let TargetView::Path(path) = target_of(r, doc, link_of(edges[n - 1].target)) {
            lemma_probe_at(rest, path);
            assert forall|i: int, j: int| 0 <= i < j < all.len() implies (#[trigger] all[i]).path
                != (#[trigger] all[j]).path by {
                assert(all[i].path == if i < rest.len() {
                    rest[i].path
                } else {
                    path
                });
                assert(all[j].path == if j < rest.len() {
                    rest[j].path
                } else {
                    path
                });
            }
        }
    }
}

/// Whether each path was answered for, in order, with what the ground holds.
pub open spec fn answered(g: Ground, seen: Seq<SeenView>, probes: Seq<ProbeView>) -> bool {
    &&& seen.len() == probes.len()
    &&& forall|i: int|
        0 <= i < probes.len() ==> {
            &&& (#[trigger] seen[i]).path == probes[i].path
            &&& seen[i].names == (g.listings)(probes[i].path)
            &&& probes[i].read ==> seen[i].text == (g.texts)(probes[i].path)
        }
}

/// What was told first of a path that is told of once.
proof fn lemma_told_of(seen: Seq<SeenView>, i: int)
    requires
        0 <= i < seen.len(),
        forall|a: int, b: int|
            0 <= a < b < seen.len() ==> (#[trigger] seen[a]).path != (#[trigger] seen[b]).path,
    ensures
        told_of(seen, seen[i].path) == Some(seen[i]),
    decreases seen.len(),
{
    if i > 0 {
        let rest = seen.drop_first();
        assert forall|a: int, b: int| 0 <= a < b < rest.len() implies (#[trigger] rest[a]).path
            != (#[trigger] rest[b]).path by {
            assert(rest[a] == seen[a + 1] && rest[b] == seen[b + 1]);
        }
        assert(rest[i - 1] == seen[i]);
        lemma_told_of(rest, i - 1);
    }
}

/// Law: answering each path that is asked about, in order, tells the truth of all of them.
pub proof fn answering_tells_truly(
    g: Ground,
    doc: Seq<char>,
    edges: Seq<EdgeView>,
    seen: Seq<SeenView>,
)
    requires
        answered(g, seen, probes_of(g.registry, g.vocabulary, doc, edges, edges.len())),
    ensures
        told_truly(g, seen, probes_of(g.registry, g.vocabulary, doc, edges, edges.len())),
{
    let probes = probes_of(g.registry, g.vocabulary, doc, edges, edges.len());
    probes_are_distinct(g.registry, g.vocabulary, doc, edges, edges.len());
    assert forall|a: int, b: int| 0 <= a < b < seen.len() implies (#[trigger] seen[a]).path != (
    #[trigger] seen[b]).path by {
        assert(probes[a].path != probes[b].path);
    }
    assert forall|i: int| 0 <= i < probes.len() implies (told_of(
        seen,
        (#[trigger] probes[i]).path,
    ) matches Some(s) && s.names == (g.listings)(probes[i].path) && (probes[i].read ==> s.text == (
    g.texts)(probes[i].path))) by {
        assert(seen[i].path == probes[i].path);
        lemma_told_of(seen, i);
    }
}

/// A path that one of the first `n` edges leads to is among the paths to ask about, for its
/// text where the edge is a spanning one.
proof fn lemma_probe(
    r: Registry,
    vocabulary: Vocabulary,
    doc: Seq<char>,
    edges: Seq<EdgeView>,
    n: nat,
    i: int,
    p: Seq<char>,
)
    requires
        0 <= i < n,
        n <= edges.len(),
        target_of(r, doc, link_of(edges[i].target)) == TargetView::Path(p),
    ensures
        exists|k: int|
            0 <= k < probes_of(r, vocabulary, doc, edges, n).len() && asks(
                #[trigger] probes_of(r, vocabulary, doc, edges, n)[k],
                p,
                Some(edges[i].relation) == vocabulary.spanning,
            ),
    decreases n,
{
    let all = probes_of(r, vocabulary, doc, edges, n);
    let rest = probes_of(r, vocabulary, doc, edges, (n - 1) as nat);
    let read = Some(edges[i].relation) == vocabulary.spanning;
    if let TargetView::Path(path) = target_of(r, doc, link_of(edges[n - 1].target)) {
        lemma_probe_at(rest, path);
    }
    if i == n - 1 {
        match probe_at(rest, p) {
            Some(k) => {
                assert(asks(all[k], p, read));
            },
            None => {
                assert(asks(all[rest.len() as int], p, read));
            },
        }
    } else {
        lemma_probe(r, vocabulary, doc, edges, (n - 1) as nat, i, p);
        let k = choose|k: int| 0 <= k < rest.len() && asks(#[trigger] rest[k], p, read);
        assert(asks(all[k], p, read));
    }
}

/// Whether a path is asked about, for its text too where that is needed.
spec fn asks(probe: ProbeView, path: Seq<char>, read: bool) -> bool {
    probe.path == path && (read ==> probe.read)
}

/// Law: what a check asks for is enough. Taking up a document on what was told gives
/// what taking it up on the whole ground gives.
pub proof fn told_is_enough(g: Ground, w: Walk, doc: Seq<char>, seen: Seq<SeenView>)
    requires
        w.visited.contains(doc),
        told_truly(
            g,
            seen,
            probes_of(g.registry, g.vocabulary, doc, edges_at(g, doc), edges_at(g, doc).len()),
        ),
    ensures
        after_document(
            told_ground(g.root, g.registry, g.vocabulary, doc, (g.texts)(doc), seen),
            w,
            doc,
        ) == after_document(g, w, doc),
{
    let t = told_ground(g.root, g.registry, g.vocabulary, doc, (g.texts)(doc), seen);
    assert((t.texts)(doc) == (g.texts)(doc));
    assert(edges_at(t, doc) == edges_at(g, doc));
    if document_at(g, doc) is Ok {
        lemma_told_edges(g, w, doc, seen, edges_at(g, doc).len());
    }
}

proof fn lemma_told_edges(g: Ground, w: Walk, doc: Seq<char>, seen: Seq<SeenView>, n: nat)
    requires
        w.visited.contains(doc),
        n <= edges_at(g, doc).len(),
        told_truly(
            g,
            seen,
            probes_of(g.registry, g.vocabulary, doc, edges_at(g, doc), edges_at(g, doc).len()),
        ),
    ensures
        after_edges(
            told_ground(g.root, g.registry, g.vocabulary, doc, (g.texts)(doc), seen),
            w,
            doc,
            edges_at(g, doc),
            n,
        ) == after_edges(g, w, doc, edges_at(g, doc), n),
        after_edges(g, w, doc, edges_at(g, doc), n).visited == w.visited,
    decreases n,
{
    if n > 0 {
        let edges = edges_at(g, doc);
        let t = told_ground(g.root, g.registry, g.vocabulary, doc, (g.texts)(doc), seen);
        let m = (n - 1) as nat;
        lemma_told_edges(g, w, doc, seen, m);
        let before = after_edges(g, w, doc, edges, m);
        let e = edges[m as int];
        lemma_edge_grows(g, before, doc, e);
        match lead(g, doc, e) {
            TargetView::Path(p) => {
                lemma_probe(
                    g.registry,
                    g.vocabulary,
                    doc,
                    edges,
                    edges.len(),
                    m as int,
                    p,
                );
                let ps = probes_of(g.registry, g.vocabulary, doc, edges, edges.len());
                let read = Some(e.relation) == g.vocabulary.spanning;
                let k = choose|k: int| 0 <= k < ps.len() && asks(#[trigger] ps[k], p, read);
                assert(ps[k].path == p);
                assert((t.listings)(p) == (g.listings)(p));
                if Some(e.relation) == g.vocabulary.spanning && p != doc {
                    assert((t.texts)(p) == (g.texts)(p));
                }
            },
            _ => {},
        }
    }
}

/// A check under way.
#[derive(Debug, Clone)]
pub struct Check {
    findings: Vec<Finding>,
    visited: Vec<String>,
    queue: Vec<String>,
}

/// The views of findings.
pub open spec fn finding_views(list: Seq<Finding>) -> Seq<FindingView> {
    list.map_values(|f: Finding| f@)
}

impl View for Check {
    type V = Walk;

    closed spec fn view(&self) -> Walk {
        Walk {
            findings: finding_views(self.findings@),
            visited: views(self.visited@).to_set(),
            queue: views(self.queue@),
        }
    }
}

/// Whether `path` is in `list`.
fn holds(list: &Vec<String>, path: &str) -> (r: bool)
    ensures
        r == views(list@).contains(path@),
{
    let mut i: usize = 0;
    while i < list.len()
        invariant
            i <= list@.len(),
            forall|j: int| 0 <= j < i ==> #[trigger] views(list@)[j] != path@,
        decreases list@.len() - i,
    {
        assert(views(list@)[i as int] == list@[i as int]@);
        if same(list[i].as_str(), path) {
            return true;
        }
        i += 1;
    }
    false
}

impl Check {
    /// Whether the queue holds nothing that was visited, and nothing twice.
    pub open spec fn wf(&self) -> bool {
        fresh_queue(self@)
    }

    /// The next document to read, if there is one. It counts as visited from now on:
    /// read it and hand its text to [`Workspace::take_up`].
    pub fn next(&mut self) -> (r: Option<String>)
        requires
            old(self).wf(),
        ensures
            final(self).wf(),
            match r {
                Some(doc) => {
                    &&& old(self)@.queue.len() > 0
                    &&& doc@ == old(self)@.queue.last()
                    &&& !old(self)@.visited.contains(doc@)
                    &&& final(self)@ == (Walk {
                        visited: old(self)@.visited.insert(doc@),
                        queue: old(self)@.queue.drop_last(),
                        findings: old(self)@.findings,
                    })
                },
                None => old(self)@.queue.len() == 0 && final(self)@ == old(self)@,
            },
    {
        let ghost before = *self;
        match self.queue.pop() {
            None => None,
            Some(doc) => {
                self.visited.push(doc.clone());
                proof {
                    let was = views(before.visited@);
                    let now = views(self.visited@);
                    assert(now =~= was.push(doc@));
                    assert(before@.queue.last() == doc@);
                    assert(views(self.queue@) =~= before@.queue.drop_last());
                    assert(now.to_set() =~= was.to_set().insert(doc@)) by {
                        assert forall|z: Seq<char>| now.contains(z) == (was.contains(z) || z
                            == doc@) by {
                            if was.contains(z) {
                                let k = choose|k: int| 0 <= k < was.len() && was[k] == z;
                                assert(now[k] == z);
                            }
                            assert(now[was.len() as int] == doc@);
                            if now.contains(z) && z != doc@ {
                                let k = choose|k: int| 0 <= k < now.len() && now[k] == z;
                                assert(was[k] == z);
                            }
                        }
                    }
                    assert(before@.queue.contains(doc@));
                    assert forall|i: int| 0 <= i < self@.queue.len() implies !self@.visited.contains(
                        #[trigger] self@.queue[i],
                    ) by {
                        assert(self@.queue[i] == before@.queue[i]);
                    }
                    assert forall|i: int, j: int| 0 <= i < j < self@.queue.len() implies (
                    #[trigger] self@.queue[i]) != (#[trigger] self@.queue[j]) by {
                        assert(self@.queue[i] == before@.queue[i]);
                        assert(self@.queue[j] == before@.queue[j]);
                    }
                }
                Some(doc)
            },
        }
    }

    /// The findings so far: all of them once [`Check::next`] gives nothing.
    pub fn findings(&self) -> (r: &Vec<Finding>)
        ensures
            finding_views(r@) == self@.findings,
    {
        &self.findings
    }

    /// Adds a finding.
    fn report(&mut self, finding: Finding)
        requires
            old(self).wf(),
        ensures
            final(self).wf(),
            final(self)@ == (Walk { findings: old(self)@.findings.push(finding@), ..old(self)@ }),
    {
        let ghost before = *self;
        self.findings.push(finding);
        assert(finding_views(self.findings@) =~= finding_views(before.findings@).push(finding@));
        assert(self@.queue == before@.queue && self@.visited == before@.visited);
    }

    /// Queues a document that was not reached yet.
    fn queue_up(&mut self, path: &str)
        requires
            old(self).wf(),
            !old(self)@.visited.contains(path@),
            !old(self)@.queue.contains(path@),
        ensures
            final(self).wf(),
            final(self)@ == (Walk { queue: old(self)@.queue.push(path@), ..old(self)@ }),
    {
        let ghost before = *self;
        self.queue.push(path.to_owned());
        proof {
            assert(views(self.queue@) =~= views(before.queue@).push(path@));
            assert forall|i: int| 0 <= i < self@.queue.len() implies !self@.visited.contains(
                #[trigger] self@.queue[i],
            ) by {
                if i < before@.queue.len() {
                    assert(self@.queue[i] == before@.queue[i]);
                }
            }
            assert forall|i: int, j: int| 0 <= i < j < self@.queue.len() implies (
            #[trigger] self@.queue[i]) != (#[trigger] self@.queue[j]) by {
                assert(self@.queue[i] == before@.queue[i]);
                if j < before@.queue.len() {
                    assert(self@.queue[j] == before@.queue[j]);
                }
            }
        }
    }

    /// Whether a document was reached.
    fn reaches(&self, path: &str) -> (r: bool)
        ensures
            r == known_to(self@, path@),
    {
        holds(&self.visited, path) || holds(&self.queue, path)
    }
}

/// Whether a queue holds nothing that was visited, and nothing twice.
pub open spec fn fresh_queue(w: Walk) -> bool {
    &&& forall|i: int| 0 <= i < w.queue.len() ==> !w.visited.contains(#[trigger] w.queue[i])
    &&& forall|i: int, j: int|
        0 <= i < j < w.queue.len() ==> (#[trigger] w.queue[i]) != (#[trigger] w.queue[j])
}

/// What was told of a path.
fn find_seen<'a>(seen: &'a Vec<Seen>, path: &str) -> (r: Option<&'a Seen>)
    ensures
        match r {
            Some(s) => told_of(seen_views(seen@), path@) == Some(s@),
            None => told_of(seen_views(seen@), path@) is None,
        },
{
    let ghost all = seen_views(seen@);
    let mut i: usize = 0;
    assert(all.skip(0) =~= all);
    while i < seen.len()
        invariant
            i <= seen@.len(),
            all == seen_views(seen@),
            told_of(all, path@) == told_of(all.skip(i as int), path@),
        decreases seen@.len() - i,
    {
        assert(all[i as int] == seen@[i as int]@);
        assert(all.skip(i as int)[0] == all[i as int]);
        assert(all.skip(i as int).drop_first() =~= all.skip(i + 1));
        if same(seen[i].path.as_str(), path) {
            return Some(&seen[i]);
        }
        i += 1;
    }
    None
}

/// The paths to ask about, as mathematical values.
pub open spec fn probe_views(list: Seq<Probe>) -> Seq<ProbeView> {
    list.map_values(|p: Probe| p@)
}

/// Adds a path to those to ask about.
fn add_probe(list: &mut Vec<Probe>, path: String, read: bool)
    ensures
        probe_views(final(list)@) == with_probe(probe_views(old(list)@), path@, read),
{
    let ghost all = probe_views(list@);
    let mut i: usize = list.len();
    assert(all.take(i as int) =~= all);
    while i > 0
        invariant
            i <= list@.len(),
            *list == *old(list),
            all == probe_views(list@),
            probe_at(all, path@) == probe_at(all.take(i as int), path@),
        decreases i,
    {
        i -= 1;
        assert(all.take(i + 1).drop_last() =~= all.take(i as int));
        assert(all.take(i + 1).last() == all[i as int]);
        assert(all[i as int] == list@[i as int]@);
        if same(list[i].path.as_str(), path.as_str()) {
            let both = list[i].read || read;
            let probe = Probe { path, read: both };
            list.set(i, probe);
            assert(probe_views(list@) =~= all.update(i as int, probe@));
            return ;
        }
    }
    let probe = Probe { path, read };
    list.push(probe);
    assert(probe_views(list@) =~= all.push(probe@));
}

/// The document of a text that may not be readable.
fn read_document(text: &Result<String, String>) -> (r: Result<Document, String>)
    ensures
        match r {
            Ok(d) => read_of(text_view(*text)) == Ok::<DocumentView, Seq<char>>(d@),
            Err(m) => read_of(text_view(*text)) == Err::<DocumentView, Seq<char>>(m@),
        },
{
    match text {
        Err(m) => Err(m.clone()),
        Ok(t) => match Document::parse(t.as_str()) {
            Ok(d) => Ok(d),
            Err(e) => Err(e.message()),
        },
    }
}

impl<IdP: IdentityPolicy, Ix: IndexStore> Workspace<IdP, Ix> {
    /// Begins checking the workspace reachable from `start`. Read each document that
    /// [`Check::next`] names, ask the storage about its [`Workspace::probes`], and hand
    /// both to [`Workspace::take_up`]; when there is no next document,
    /// [`Check::findings`] holds every finding. An empty result means that the
    /// reachable graph holds its invariants.
    pub fn check(&self, start: &str) -> (r: Check)
        ensures
            r.wf(),
            r@ == (Walk {
                findings: Seq::empty(),
                visited: Set::empty(),
                queue: seq![normalized(start@)],
            }),
    {
        let mut queue: Vec<String> = Vec::new();
        queue.push(normalize(start));
        let r = Check { findings: Vec::new(), visited: Vec::new(), queue };
        assert(r@.queue =~= seq![normalized(start@)]);
        assert(r@.findings =~= Seq::empty());
        assert(views(r.visited@).to_set() =~= Set::empty());
        r
    }

    /// The paths to ask the storage about before the document at `doc` is taken up.
    pub fn probes(&self, doc: &str, text: &Result<String, String>) -> (r: Vec<Probe>)
        requires
            self.index.wf(),
        ensures
            probe_views(r@) == match read_of(text_view(*text)) {
                Ok(d) => {
                    let edges = edges_of(self.relations@.relations, d.meta);
                    probes_of(self.index.registry(), self.relations@, doc@, edges, edges.len())
                },
                Err(_) => Seq::empty(),
            },
    {
        let mut out: Vec<Probe> = Vec::new();
        assert(probe_views(out@) =~= Seq::empty());
        let document = match read_document(text) {
            Ok(d) => d,
            Err(_) => {
                return out;
            },
        };
        let edges = self.relations.edges(&document.meta);
        let ghost all = edges_of(self.relations@.relations, document@.meta);
        let mut i: usize = 0;
        while i < edges.len()
            invariant
                i <= edges@.len(),
                self.index.wf(),
                edges@.map_values(|e: Edge| e@) == all,
                probe_views(out@) == probes_of(
                    self.index.registry(),
                    self.relations@,
                    doc@,
                    all,
                    i as nat,
                ),
            decreases edges@.len() - i,
        {
            assert(all[i as int] == edges@[i as int]@);
            match self.resolve_link(doc, &Link::parse(edges[i].target.as_str())) {
                Target::Path(path) => {
                    let read = self.is_spanning(edges[i].relation.as_str());
                    add_probe(&mut out, path, read);
                },
                _ => {},
            }
            i += 1;
        }
        assert(all.len() == edges@.len());
        out
    }

    /// How the name of `path` matches the listing of the directory that holds it: exactly,
    /// only where case is ignored (the portability hazard), or not at all. The path is seen
    /// from the root.
    pub fn exact_name(&self, listing: &Option<Vec<String>>, path: &str) -> (r: NameMatch)
        ensures
            r@ == exact_match(names_view(*listing), join_text(self.root@, path@)),
    {
        name_in(listing, join_paths(self.root.as_str(), path).as_str())
    }

    /// Whether a relation is the spanning one.
    fn is_spanning(&self, relation: &str) -> (r: bool)
        ensures
            r == (Some(relation@) == self.relations@.spanning),
    {
        match self.relations.spanning_relation() {
            Some(s) => same(s, relation),
            None => false,
        }
    }

    /// The inverse that a spanning child fails to declare back to `doc`, if it does.
    fn missing_inverse(&self, text: &Result<String, String>, child: &str, doc: &str, Ghost(g): Ghost<
        Ground,
    >) -> (r: Option<String>)
        requires
            self.index.wf(),
            g.registry == self.index.registry(),
            g.vocabulary == self.relations@,
        ensures
            match r {
                Some(inverse) => lacks_inverse(g, text_view(*text), child@, doc@)
                    && spanning_inverse(g.vocabulary) == Some(inverse@),
                None => !lacks_inverse(g, text_view(*text), child@, doc@),
            },
    {
        let inverse = match self.relations.inverse() {
            Some(i) => i,
            None => {
                return None;
            },
        };
        let document = match read_document(text) {
            Ok(d) => d,
            Err(_) => {
                return None;
            },
        };
        if !document.has_meta() {
            return None;
        }
        let links = links_in(&document.meta, inverse.as_str());
        let ghost all = links_under(document@.meta, inverse@);
        let mut i: usize = 0;
        while i < links.len()
            invariant
                i <= links@.len(),
                views(links@) == all,
                all == links_under(document@.meta, inverse@),
                self.index.wf(),
                g.registry == self.index.registry(),
                g.vocabulary == self.relations@,
                spanning_inverse(g.vocabulary) == Some(inverse@),
                read_of(text_view(*text)) == Ok::<DocumentView, Seq<char>>(document@),
                forall|j: int|
                    0 <= j < i ==> target_of(g.registry, child@, link_of(#[trigger] all[j]))
                        != TargetView::Path(doc@),
            decreases links@.len() - i,
        {
            assert(all[i as int] == links@[i as int]@);
            if self.resolve_link(child, &Link::parse(links[i].as_str())).is_path(doc) {
                assert(points_back(g.registry, document@, child@, inverse@, doc@));
                return None;
            }
            i += 1;
        }
        assert(all.len() == links@.len());
        assert(!points_back(g.registry, document@, child@, inverse@, doc@));
        Some(inverse)
    }

    /// Looks at one edge of the document at `doc`.
    fn look_at(&self, check: &mut Check, doc: &str, edge: &Edge, seen: &Vec<Seen>, Ghost(g): Ghost<
        Ground,
    >)
        requires
            self.index.wf(),
            old(check).wf(),
            old(check)@.visited.contains(doc@),
            g.registry == self.index.registry(),
            g.vocabulary == self.relations@,
            g.root == self.root@,
            g == told_ground(
                g.root,
                g.registry,
                g.vocabulary,
                doc@,
                (g.texts)(doc@),
                seen_views(seen@),
            ),
        ensures
            final(check).wf(),
            final(check)@ == after_edge(g, old(check)@, doc@, edge@),
            final(check)@.visited == old(check)@.visited,
    {
        let ghost w = check@;
        let link = Link::parse(edge.target.as_str());
        let path = match self.resolve_link(doc, &link) {
            Target::External => {
                return ;
            },
            Target::UnresolvedId(id) => {
                if verify(id.as_str()) {
                    let tombstoned = self.index.is_known(&id);
                    check.report(
                        Finding::DanglingId {
                            doc: doc.to_owned(),
                            relation: edge.relation.clone(),
                            id,
                            tombstoned,
                        },
                    );
                } else {
                    check.report(
                        Finding::MalformedId {
                            doc: doc.to_owned(),
                            relation: edge.relation.clone(),
                            target: link.target.clone(),
                        },
                    );
                }
                return ;
            },
            Target::Path(p) => p,
        };
        let no_names: Option<Vec<String>> = None;
        let unread: Result<String, String> = Err(String::new());
        let told = find_seen(seen, path.as_str());
        let names = match told {
            Some(s) => &s.names,
            None => &no_names,
        };
        let text = match told {
            Some(s) => &s.text,
            None => &unread,
        };
        assert(names_view(*names) == (g.listings)(path@));
        assert(path@ != doc@ ==> text_view(*text) == (g.texts)(path@)) by {
            assert(unread->Err_0@ =~= Seq::empty());
        }
        let ghost m = match_at(g, path@);
        match self.exact_name(names, path.as_str()) {
            NameMatch::Exact => {
                assert(w.findings + name_findings(doc@, edge@, m) =~= w.findings);
            },
            NameMatch::CaseOnly(actual) => {
                check.report(
                    Finding::CaseMismatch {
                        doc: doc.to_owned(),
                        relation: edge.relation.clone(),
                        target: link.target.clone(),
                        actual,
                    },
                );
                assert(check@.findings =~= w.findings + name_findings(doc@, edge@, m));
            },
            NameMatch::Missing => {
                check.report(
                    Finding::BrokenLink {
                        doc: doc.to_owned(),
                        relation: edge.relation.clone(),
                        target: link.target.clone(),
                    },
                );
                assert(check@.findings =~= w.findings + name_findings(doc@, edge@, m));
                return ;
            },
        }
        if !self.is_spanning(edge.relation.as_str()) {
            return ;
        }
        if check.reaches(path.as_str()) {
            check.report(
                Finding::DuplicateContainment {
                    doc: doc.to_owned(),
                    target: link.target.clone(),
                },
            );
            return ;
        }
        if let Some(inverse) = self.missing_inverse(text, path.as_str(), doc, Ghost(g)) {
            check.report(
                Finding::MissingInverse { doc: doc.to_owned(), child: path.clone(), inverse },
            );
        }
        check.queue_up(path.as_str());
    }

    /// Takes up the document at `doc`: reports what is wrong with it and its edges, and
    /// queues the documents it contains.
    pub fn take_up(&self, check: &mut Check, doc: &str, text: &Result<String, String>, seen: &Vec<Seen>)
        requires
            self.index.wf(),
            old(check).wf(),
            old(check)@.visited.contains(doc@),
        ensures
            final(check).wf(),
            final(check)@ == after_document(
                told_ground(
                    self.root@,
                    self.index.registry(),
                    self.relations@,
                    doc@,
                    text_view(*text),
                    seen_views(seen@),
                ),
                old(check)@,
                doc@,
            ),
    {
        let ghost g = told_ground(
            self.root@,
            self.index.registry(),
            self.relations@,
            doc@,
            text_view(*text),
            seen_views(seen@),
        );
        let ghost w = check@;
        assert((g.texts)(doc@) == text_view(*text));
        let document = match read_document(text) {
            Ok(d) => d,
            Err(error) => {
                check.report(Finding::Unreadable { doc: doc.to_owned(), error });
                return ;
            },
        };
        let edges = self.relations.edges(&document.meta);
        let ghost all = edges_at(g, doc@);
        let mut i: usize = 0;
        while i < edges.len()
            invariant
                i <= edges@.len(),
                self.index.wf(),
                check.wf(),
                w.visited.contains(doc@),
                check@.visited == w.visited,
                all == edges_at(g, doc@),
                edges@.map_values(|e: Edge| e@) == all,
                g == told_ground(
                    self.root@,
                    self.index.registry(),
                    self.relations@,
                    doc@,
                    text_view(*text),
                    seen_views(seen@),
                ),
                (g.texts)(doc@) == text_view(*text),
                check@ == after_edges(g, w, doc@, all, i as nat),
            decreases edges@.len() - i,
        {
            assert(all[i as int] == edges@[i as int]@);
            self.look_at(check, doc, &edges[i], seen, Ghost(g));
            i += 1;
        }
        assert(all.len() == edges@.len());
    }
}

/// A fresh queue stays fresh while the edges of a document are looked at.
proof fn lemma_fresh_edges(g: Ground, w: Walk, doc: Seq<char>, edges: Seq<EdgeView>, n: nat)
    requires
        fresh_queue(w),
        n <= edges.len(),
    ensures
        fresh_queue(after_edges(g, w, doc, edges, n)),
    decreases n,
{
    if n > 0 {
        let before = after_edges(g, w, doc, edges, (n - 1) as nat);
        let after = after_edges(g, w, doc, edges, n);
        lemma_fresh_edges(g, w, doc, edges, (n - 1) as nat);
        lemma_edge_grows(g, before, doc, edges[n - 1]);
        if after.queue.len() > before.queue.len() {
            let p = after.queue.last();
            assert(!before.visited.contains(p) && !before.queue.contains(p));
            assert(after.queue =~= before.queue.push(p));
            assert forall|i: int| 0 <= i < after.queue.len() implies !after.visited.contains(
                #[trigger] after.queue[i],
            ) by {
                if i < before.queue.len() {
                    assert(after.queue[i] == before.queue[i]);
                }
            }
            assert forall|i: int, j: int| 0 <= i < j < after.queue.len() implies (
            #[trigger] after.queue[i]) != (#[trigger] after.queue[j]) by {
                assert(after.queue[i] == before.queue[i]);
                if j < before.queue.len() {
                    assert(after.queue[j] == before.queue[j]);
                } else {
                    assert(before.queue.contains(before.queue[i]));
                }
            }
        } else {
            assert(after.queue == before.queue);
        }
    }
}

/// What is queued while the edges of a document are looked at is what they lead to.
proof fn lemma_queue_grows(g: Ground, w: Walk, doc: Seq<char>, n: nat, p: Seq<char>)
    requires
        document_at(g, doc) is Ok,
        n <= edges_at(g, doc).len(),
        after_edges(g, w, doc, edges_at(g, doc), n).queue.contains(p),
    ensures
        w.queue.contains(p) || exists|i: int| #[trigger] spans(g, doc, i, p),
    decreases n,
{
    if n > 0 {
        let edges = edges_at(g, doc);
        let before = after_edges(g, w, doc, edges, (n - 1) as nat);
        let after = after_edges(g, w, doc, edges, n);
        lemma_edge_grows(g, before, doc, edges[n - 1]);
        if before.queue.contains(p) {
            lemma_queue_grows(g, w, doc, (n - 1) as nat, p);
        } else {
            let k = choose|k: int| 0 <= k < after.queue.len() && after.queue[k] == p;
            if k < before.queue.len() {
                assert(before.queue[k] == p);
            }
            assert(after.queue.last() == p);
            assert(spans(g, doc, n - 1, p));
        }
    }
}

/// Whether a document can be reached from `start` over spanning edges.
pub open spec fn reachable(g: Ground, start: Seq<char>, doc: Seq<char>) -> bool {
    exists|n: nat| reached(g, start, doc, n)
}

/// What holds of a check after so many turns: the queue is fresh, what was visited or is
/// queued can be reached, and unless the queue is empty each turn has visited a document.
proof fn lemma_turns(g: Ground, start: Seq<char>, n: nat)
    ensures
        fresh_queue(after_turns(g, start, n)),
        forall|p: Seq<char>| #[trigger]
            known_to(after_turns(g, start, n), p) ==> reachable(g, start, p),
        after_turns(g, start, n).visited.finite(),
        after_turns(g, start, n).queue.len() == 0 || after_turns(g, start, n).visited.len() == n,
    decreases n,
{
    let after = after_turns(g, start, n);
    if n == 0 {
        assert(reached(g, start, start, 0));
        assert forall|p: Seq<char>| #[trigger] known_to(after, p) implies reachable(
            g,
            start,
            p,
        ) by {
            let k = choose|k: int| 0 <= k < after.queue.len() && after.queue[k] == p;
            assert(after.queue[k] == start);
        }
    } else {
        let before = after_turns(g, start, (n - 1) as nat);
        lemma_turns(g, start, (n - 1) as nat);
        if before.queue.len() > 0 {
            let doc = before.queue.last();
            let rest = before.queue.drop_last();
            let taken = Walk { visited: before.visited.insert(doc), queue: rest, ..before };
            assert(before.queue.contains(doc));
            assert(before.queue[before.queue.len() - 1] == doc);
            assert(!before.visited.contains(doc));
            assert(known_to(before, doc));
            assert forall|i: int| 0 <= i < taken.queue.len() implies !taken.visited.contains(
                #[trigger] taken.queue[i],
            ) by {
                assert(taken.queue[i] == before.queue[i]);
            }
            assert forall|i: int, j: int| 0 <= i < j < taken.queue.len() implies (
            #[trigger] taken.queue[i]) != (#[trigger] taken.queue[j]) by {
                assert(taken.queue[i] == before.queue[i] && taken.queue[j] == before.queue[j]);
            }
            assert forall|p: Seq<char>| rest.contains(p) implies before.queue.contains(p) by {
                let k = choose|k: int| 0 <= k < rest.len() && rest[k] == p;
                assert(before.queue[k] == p);
            }
            if document_at(g, doc) is Ok {
                let edges = edges_at(g, doc);
                lemma_fresh_edges(g, taken, doc, edges, edges.len());
                lemma_edges(g, taken, doc, edges, edges.len());
                assert forall|p: Seq<char>| #[trigger] known_to(after, p) implies reachable(
                    g,
                    start,
                    p,
                ) by {
                    if after.visited.contains(p) {
                        assert(known_to(before, p));
                    } else {
                        lemma_queue_grows(g, taken, doc, edges.len(), p);
                        if rest.contains(p) {
                            assert(known_to(before, p));
                        } else {
                            let i = choose|i: int| #[trigger] spans(g, doc, i, p);
                            let k = choose|k: nat| reached(g, start, doc, k);
                            assert(reached(g, start, doc, ((k + 1) - 1) as nat) && spans(
                                g,
                                doc,
                                i,
                                p,
                            ));
                            assert(reached(g, start, p, k + 1));
                        }
                    }
                }
            } else {
                assert forall|p: Seq<char>| #[trigger] known_to(after, p) implies reachable(
                    g,
                    start,
                    p,
                ) by {
                    assert(known_to(before, p));
                }
            }
        }
    }
}

/// Law: a check ends. Where the documents that can be reached lie in a finite set, the queue
/// is empty after as many turns as the set has members, and stays so.
pub proof fn check_ends(g: Ground, start: Seq<char>, docs: Set<Seq<char>>, n: nat)
    requires
        docs.finite(),
        forall|doc: Seq<char>| #[trigger] reachable(g, start, doc) ==> docs.contains(doc),
        n >= docs.len(),
    ensures
        after_turns(g, start, n).queue.len() == 0,
{
    let w = after_turns(g, start, n);
    lemma_turns(g, start, n);
    if w.queue.len() > 0 {
        let p = w.queue.last();
        assert(w.queue.contains(p) && w.queue[w.queue.len() - 1] == p);
        assert(known_to(w, p));
        let all = w.visited.insert(p);
        assert forall|doc: Seq<char>| #[trigger] all.contains(doc) implies docs.contains(doc) by {
            assert(known_to(w, doc));
        }
        vstd::set_lib::lemma_len_subset(all, docs);
    }
}

/// Law: a turn of a check is the next document, taken up. While the queue is fresh, what
/// [`Check::next`] and [`Workspace::take_up`] do one after the other is one turn.
pub proof fn turn_takes_up_the_next(g: Ground, w: Walk)
    requires
        fresh_queue(w),
        w.queue.len() > 0,
    ensures
        ({
            let doc = w.queue.last();
            let taken = Walk {
                visited: w.visited.insert(doc),
                queue: w.queue.drop_last(),
                ..w
            };
            after_turn(g, w) == after_document(g, taken, doc)
        }),
{
}

// ---- laws of the words ----

/// Law: a finding says in which document it was found and what is wrong there: the link, the
/// name on disk, the child and the relation it lacks, the error, or whether an ID was retired
/// or never given out.
pub proof fn finding_says_where_and_what(f: FindingView)
    ensures
        match f {
            FindingView::BrokenLink { doc, relation, target } => finding_text(f) == doc
                + ": broken "@ + relation + " link: "@ + target,
            FindingView::CaseMismatch { doc, relation, target, actual } => finding_text(f) == doc
                + ": case mismatch in "@ + relation + " link: "@ + target + " is "@ + actual
                + " on disk"@,
            FindingView::DuplicateContainment { doc, target } => finding_text(f) == doc + ": "@
                + target + " is already contained elsewhere (cycle or second parent)"@,
            FindingView::MissingInverse { doc, child, inverse } => finding_text(f) == doc
                + ": child "@ + child + " does not declare "@ + inverse + " back to it"@,
            FindingView::Unreadable { doc, error } => finding_text(f) == doc + ": unreadable: "@
                + error,
            FindingView::MalformedId { doc, relation, target } => finding_text(f) == doc
                + ": malformed ID in "@ + relation + " link: "@ + target
                + " (bad shape or check character)"@,
            FindingView::DanglingId { doc, relation, id, tombstoned } => finding_text(f) == doc
                + ": dangling "@ + relation + " ID: colophon:"@ + id + (if tombstoned {
                " (document was deleted)"@
            } else {
                " (never issued in this registry)"@
            }),
        },
{
    if let FindingView::DanglingId { doc, relation, id, tombstoned } = f {
        reveal_strlit(" (");
        reveal_strlit(")");
        reveal_strlit("document was deleted");
        reveal_strlit("never issued in this registry");
        reveal_strlit(" (document was deleted)");
        reveal_strlit(" (never issued in this registry)");
        let head = doc + ": dangling "@ + relation + " ID: colophon:"@ + id;
        if tombstoned {
            assert(" ("@ + "document was deleted"@ + ")"@ =~= " (document was deleted)"@);
            assert(head + " ("@ + "document was deleted"@ + ")"@ =~= head + (" ("@
                + "document was deleted"@ + ")"@));
        } else {
            assert(" ("@ + "never issued in this registry"@ + ")"@
                =~= " (never issued in this registry)"@);
            assert(head + " ("@ + "never issued in this registry"@ + ")"@ =~= head + (" ("@
                + "never issued in this registry"@ + ")"@));
        }
    }
}

/// Whether one character is the other in lower case.
pub open spec fn is_lower_of(small: char, capital: char) -> bool {
    'A' <= capital <= 'Z' && small as int == capital as int + 32
}

/// Law: texts are the same but for case where they are of one length and each character of
/// the one is that of the other, or the other case of the same ASCII letter.
pub proof fn case_is_that_of_ascii_letters(a: Seq<char>, b: Seq<char>)
    ensures
        same_but_case(a, b) <==> a.len() == b.len() && (forall|i: int|
            0 <= i < a.len() ==> (#[trigger] a[i]) == b[i] || is_lower_of(a[i], b[i])
                || is_lower_of(b[i], a[i])),
{
    if a.len() == b.len() {
        assert forall|i: int| 0 <= i < a.len() implies (lower(#[trigger] a[i]) == lower(b[i]) <==> (
        a[i] == b[i] || is_lower_of(a[i], b[i]) || is_lower_of(b[i], a[i]))) by {}
    }
}

/// Law: a document that cannot be read is told with the words of whatever failed: those of the
/// storage where it gave no text, and those of the error where the text holds no document.
pub proof fn unreadable_in_its_own_words(text: Result<Seq<char>, Seq<char>>)
    ensures
        match text {
            Err(m) => read_of(text) == Err::<DocumentView, Seq<char>>(m),
            Ok(t) => match document_in(t) {
                Ok(d) => read_of(text) == Ok::<DocumentView, Seq<char>>(d),
                Err(Failure::Structure(m)) | Err(Failure::Io(_, m)) | Err(Failure::Fig(m)) => {
                    read_of(text) == Err::<DocumentView, Seq<char>>(m)
                },
            },
        },
{
}

/// Law: a path is looked up by its last component in the listing of its directory. It is
/// missing where it ends in no name, and where there is no listing.
pub proof fn path_is_looked_up_by_its_name(
    listing: Option<Seq<Seq<char>>>,
    path: Seq<char>,
    names: Seq<Seq<char>>,
)
    ensures
        ({
            let cs = components(path);
            let named = cs.len() > 0 && cs.last() is Name;
            &&& listing is None || !named ==> exact_match(listing, path) is Missing
            &&& listing == Some(names) && named ==> {
                &&& exact_match(listing, path) is Exact <==> names.contains(cs.last()->Name_0)
                &&& exact_match(listing, path) == match_of(names, cs.last()->Name_0)
            }
        }),
{
}

} // verus!
