//! What a check that has run out of documents has seen and said.
//!
//! The laws here are about the findings as a whole: that a check visits all that can be
//! reached, whatever it finds on the way, and that each document and each link it looked at
//! has its findings, no fewer and no more.
use vstd::prelude::*;

use crate::effects::{goes, is_said, links_are_the_texts, says};
use crate::identity::well_formed_id;
use crate::link::link_of;
use crate::meta::Tree;
use crate::relation::{edges_of, edges_under, links_under, spanning_inverse, EdgeView, RelationView};
use crate::validate::{
    after_document, after_edge, after_edges, after_turn, after_turns, document_at, edges_at,
    known_to, lacks_inverse, last_case_match, lead, match_at, match_of, name_findings, points_back,
    same_but_case, spans, FindingView, Ground, MatchView, Walk,
};
use crate::workspace::{target_of, TargetView};

verus! {

// ---- links ----

/// Law: the edges of metadata are what it says under the relations: every text under each of
/// them, and nothing else.
pub proof fn edges_are_what_is_said(relations: Seq<RelationView>, meta: Tree)
    ensures
        forall|k: int, raw: Seq<char>|
            0 <= k < relations.len() && #[trigger] is_said(meta, relations[k].name, raw)
                ==> edges_of(relations, meta).contains(
                EdgeView { relation: relations[k].name, target: raw },
            ),
        forall|i: int|
            0 <= i < edges_of(relations, meta).len() ==> is_edge(
                relations,
                meta,
                #[trigger] edges_of(relations, meta)[i],
            ),
    decreases relations.len(),
{
    if relations.len() > 0 {
        let front = relations.drop_last();
        let before = edges_of(front, meta);
        let all = edges_of(relations, meta);
        let name = relations.last().name;
        let own = edges_under(meta, name);
        let links = links_under(meta, name);
        edges_are_what_is_said(front, meta);
        links_are_the_texts(meta, name);
        assert forall|k: int, raw: Seq<char>|
            0 <= k < relations.len() && #[trigger] is_said(
                meta,
                relations[k].name,
                raw,
            ) implies all.contains(EdgeView { relation: relations[k].name, target: raw }) by {
            let e = EdgeView { relation: relations[k].name, target: raw };
            if k < front.len() {
                assert(front[k] == relations[k]);
                assert(is_said(meta, front[k].name, raw));
                let i = choose|i: int| 0 <= i < before.len() && before[i] == e;
                assert(all[i] == e);
            } else {
                let j = choose|j: int| #[trigger] says(meta, name, j, raw);
                assert(says(meta, name, j, raw));
                assert(links.contains(raw));
                let m = choose|m: int| 0 <= m < links.len() && links[m] == raw;
                assert(all[before.len() + m] == e);
            }
        }
        assert forall|i: int| 0 <= i < all.len() implies is_edge(
            relations,
            meta,
            #[trigger] all[i],
        ) by {
            if i < before.len() {
                assert(is_edge(front, meta, before[i]));
                let k = choose|k: int|
                    0 <= k < front.len() && (#[trigger] front[k]).name == before[i].relation;
                assert(relations[k] == front[k]);
            } else {
                let m = i - before.len();
                assert(all[i] == own[m]);
                assert(is_said(meta, name, links[m]));
                assert(relations[relations.len() - 1].name == name);
            }
        }
    }
}

/// Whether an edge is a text under one of the relations.
pub open spec fn is_edge(relations: Seq<RelationView>, meta: Tree, e: EdgeView) -> bool {
    &&& exists|k: int| 0 <= k < relations.len() && (#[trigger] relations[k]).name == e.relation
    &&& is_said(meta, e.relation, e.target)
}

// ---- names ----

/// Law: how a name matches a listing. It matches exactly where it is in it, only but for case
/// where it is not but a name is that differs from it in nothing else, the last of them if
/// there are more, and not at all where there is none.
pub proof fn name_is_matched(names: Seq<Seq<char>>, name: Seq<char>)
    ensures
        match match_of(names, name) {
            MatchView::Exact => names.contains(name),
            MatchView::CaseOnly(n) => {
                &&& !names.contains(name)
                &&& exists|i: int|
                    0 <= i < names.len() && #[trigger] names[i] == n && same_but_case(n, name)
                        && forall|k: int|
                        i < k < names.len() ==> !same_but_case(#[trigger] names[k], name)
            },
            MatchView::Missing => forall|i: int|
                0 <= i < names.len() ==> !same_but_case(#[trigger] names[i], name),
        },
{
    lemma_last_case_match(names, name);
    if match_of(names, name) is Missing {
        assert(last_case_match(names, name) is None);
    }
}

proof fn lemma_last_case_match(names: Seq<Seq<char>>, name: Seq<char>)
    ensures
        match last_case_match(names, name) {
            Some(n) => exists|i: int|
                0 <= i < names.len() && #[trigger] names[i] == n && same_but_case(n, name)
                    && forall|k: int|
                    i < k < names.len() ==> !same_but_case(#[trigger] names[k], name),
            None => forall|i: int|
                0 <= i < names.len() ==> !same_but_case(#[trigger] names[i], name),
        },
    decreases names.len(),
{
    if names.len() > 0 {
        let front = names.drop_last();
        if same_but_case(names.last(), name) {
            assert(names[names.len() - 1] == names.last());
        } else {
            lemma_last_case_match(front, name);
            match last_case_match(names, name) {
                Some(n) => {
                    let i = choose|i: int|
                        0 <= i < front.len() && #[trigger] front[i] == n && same_but_case(n, name)
                            && forall|k: int|
                            i < k < front.len() ==> !same_but_case(#[trigger] front[k], name);
                    assert(names[i] == n);
                    assert forall|k: int| i < k < names.len() implies !same_but_case(
                        #[trigger] names[k],
                        name,
                    ) by {
                        if k < front.len() {
                            assert(front[k] == names[k]);
                        }
                    }
                },
                None => {
                    assert forall|i: int| 0 <= i < names.len() implies !same_but_case(
                        #[trigger] names[i],
                        name,
                    ) by {
                        if i < front.len() {
                            assert(front[i] == names[i]);
                        }
                    }
                },
            }
        }
    }
}

// ---- findings ----

/// Whether the `i`th edge of the document at `from` is a spanning edge that leads to `doc`, and
/// something is there, if only where case is ignored.
pub open spec fn contains_at(g: Ground, from: Seq<char>, i: int, doc: Seq<char>) -> bool {
    spans(g, from, i, doc) && !(match_at(g, doc) is Missing)
}

/// Whether a document can be reached from `start` over `n` spanning edges to what is there.
pub open spec fn found_from(g: Ground, start: Seq<char>, doc: Seq<char>, n: nat) -> bool
    decreases n,
{
    if n == 0 {
        doc == start
    } else {
        exists|from: Seq<char>, i: int|
            found_from(g, start, from, (n - 1) as nat) && #[trigger] contains_at(g, from, i, doc)
    }
}

/// Whether the document at `child` has metadata and says no link under the inverse of the
/// spanning relation that leads to `parent`.
pub open spec fn unanswered(g: Ground, child: Seq<char>, parent: Seq<char>) -> bool {
    &&& spanning_inverse(g.vocabulary) matches Some(inverse)
    &&& document_at(g, child) matches Ok(d)
    &&& d.embed is Some
    &&& forall|raw: Seq<char>| #[trigger]
        is_said(d.meta, inverse, raw) ==> !goes(g.registry, child, raw, parent)
}

/// Whether some findings say that what is contained is contained elsewhere.
pub open spec fn tells_duplicate(found: Seq<FindingView>) -> bool {
    exists|k: int| 0 <= k < found.len() && #[trigger] found[k] is DuplicateContainment
}

/// Whether `found` are the findings of a link to an ID that does not resolve: one, that the ID
/// is malformed or that it dangles.
pub open spec fn tells_id(
    g: Ground,
    doc: Seq<char>,
    e: EdgeView,
    id: Seq<char>,
    found: Seq<FindingView>,
) -> bool {
    &&& found.len() == 1
    &&& if well_formed_id(id) {
        found[0] == (FindingView::DanglingId {
            doc,
            relation: e.relation,
            id,
            tombstoned: g.registry.known.contains(id),
        })
    } else {
        found[0] == (FindingView::MalformedId {
            doc,
            relation: e.relation,
            target: link_of(e.target).target,
        })
    }
}

/// Whether `found` are the findings of a link to a path. A link to nothing is broken. Where
/// case alone differs, that is the first. A spanning link to what is there is either contained
/// elsewhere too or answered, or else one of the two is said.
pub open spec fn tells_path(
    g: Ground,
    doc: Seq<char>,
    e: EdgeView,
    p: Seq<char>,
    found: Seq<FindingView>,
) -> bool {
    let target = link_of(e.target).target;
    let relation = e.relation;
    match match_at(g, p) {
        MatchView::Missing => found.len() == 1 && found[0] == (FindingView::BrokenLink {
            doc,
            relation,
            target,
        }),
        MatchView::CaseOnly(actual) => {
            &&& found.len() > 0
            &&& found[0] == (FindingView::CaseMismatch { doc, relation, target, actual })
            &&& tells_containment(g, doc, e, p, found.skip(1))
        },
        MatchView::Exact => tells_containment(g, doc, e, p, found),
    }
}

/// Whether `found` are the findings of a link to what is there, its name aside.
pub open spec fn tells_containment(
    g: Ground,
    doc: Seq<char>,
    e: EdgeView,
    p: Seq<char>,
    found: Seq<FindingView>,
) -> bool {
    if Some(e.relation) != g.vocabulary.spanning {
        found.len() == 0
    } else if tells_duplicate(found) {
        found.len() == 1 && found[0] == (FindingView::DuplicateContainment {
            doc,
            target: link_of(e.target).target,
        })
    } else if unanswered(g, p, doc) {
        found.len() == 1 && found[0] == (FindingView::MissingInverse {
            doc,
            child: p,
            inverse: spanning_inverse(g.vocabulary)->Some_0,
        })
    } else {
        found.len() == 0
    }
}

/// Whether `found` are the findings of an edge of the document at `doc`.
pub open spec fn tells_edge(g: Ground, doc: Seq<char>, e: EdgeView, found: Seq<FindingView>) -> bool {
    match target_of(g.registry, doc, link_of(e.target)) {
        TargetView::External => found.len() == 0,
        TargetView::UnresolvedId(id) => tells_id(g, doc, e, id, found),
        TargetView::Path(p) => tells_path(g, doc, e, p, found),
    }
}

/// Whether the findings of a document stand one edge after the other, each between two cuts: or
/// whether there is the one that it cannot be read.
pub open spec fn tells_document(
    g: Ground,
    doc: Seq<char>,
    findings: Seq<FindingView>,
    cuts: Seq<int>,
) -> bool {
    &&& cuts.len() > 1 || document_at(g, doc) is Ok
    &&& forall|i: int, j: int|
        0 <= i <= j < cuts.len() ==> 0 <= #[trigger] cuts[i] <= #[trigger] cuts[j] <= findings.len()
    &&& match document_at(g, doc) {
        Err(m) => {
            &&& cuts.len() == 2
            &&& cuts[1] == cuts[0] + 1
            &&& findings[cuts[0]] == (FindingView::Unreadable { doc, error: m })
        },
        Ok(_) => {
            &&& cuts.len() == edges_at(g, doc).len() + 1
            &&& forall|i: int|
                0 <= i < edges_at(g, doc).len() ==> tells_edge(
                    g,
                    doc,
                    #[trigger] edges_at(g, doc)[i],
                    findings.subrange(cuts[i], cuts[i + 1]),
                )
        },
    }
}

/// Whether the findings of an edge say that what it contains is contained elsewhere.
pub open spec fn duplicate_told(
    findings: Seq<FindingView>,
    cuts: Map<Seq<char>, Seq<int>>,
    doc: Seq<char>,
    i: int,
) -> bool {
    tells_duplicate(findings.subrange(cuts[doc][i], cuts[doc][i + 1]))
}

/// Whether the findings of a check are those of the documents that were visited: each has its
/// own, no two share one, and there is no other. Of the spanning edges to one document all but
/// one say that it is contained elsewhere, and all where it is the start.
pub open spec fn tells_all(
    g: Ground,
    start: Seq<char>,
    w: Walk,
    cuts: Map<Seq<char>, Seq<int>>,
) -> bool {
    &&& forall|doc: Seq<char>| #[trigger] w.visited.contains(doc) <==> cuts.contains_key(doc)
    &&& forall|doc: Seq<char>| #[trigger]
        cuts.contains_key(doc) ==> tells_document(g, doc, w.findings, cuts[doc])
    &&& forall|a: Seq<char>, b: Seq<char>|
        #![trigger cuts.contains_key(a), cuts.contains_key(b)]
        cuts.contains_key(a) && cuts.contains_key(b) && a != b ==> cuts[a].last() <= cuts[b][0]
            || cuts[b].last() <= cuts[a][0]
    &&& forall|k: int|
        0 <= k < w.findings.len() ==> told_by_one(cuts, #[trigger] w.findings[k], k)
    &&& forall|d: Seq<char>, i: int|
        w.visited.contains(d) && #[trigger] contains_at(g, d, i, start) ==> duplicate_told(
            w.findings,
            cuts,
            d,
            i,
        )
    &&& forall|d: Seq<char>, i: int, e: Seq<char>, j: int, p: Seq<char>|
        w.visited.contains(d) && w.visited.contains(e) && #[trigger] contains_at(g, d, i, p)
            && #[trigger] contains_at(g, e, j, p) && !(d == e && i == j) ==> duplicate_told(
            w.findings,
            cuts,
            d,
            i,
        ) || duplicate_told(w.findings, cuts, e, j)
}

/// Whether the finding at a position is one of a document that was visited.
pub open spec fn told_by_one(cuts: Map<Seq<char>, Seq<int>>, f: FindingView, k: int) -> bool {
    exists|doc: Seq<char>| #[trigger]
        cuts.contains_key(doc) && cuts[doc][0] <= k < cuts[doc].last()
}

// ---- proofs ----

proof fn lemma_unanswered(g: Ground, child: Seq<char>, parent: Seq<char>)
    ensures
        lacks_inverse(g, (g.texts)(child), child, parent) == unanswered(g, child, parent),
{
    if let Some(inverse) = spanning_inverse(g.vocabulary) {
        if let Ok(d) = document_at(g, child) {
            let links = links_under(d.meta, inverse);
            links_are_the_texts(d.meta, inverse);
            if points_back(g.registry, d, child, inverse, parent) {
                let i = choose|i: int|
                    0 <= i < links.len() && target_of(
                        g.registry,
                        child,
                        link_of(#[trigger] links[i]),
                    ) == TargetView::Path(parent);
                assert(is_said(d.meta, inverse, links[i]));
                assert(goes(g.registry, child, links[i], parent));
            } else {
                assert forall|raw: Seq<char>| #[trigger] is_said(d.meta, inverse, raw) implies !goes(
                    g.registry,
                    child,
                    raw,
                    parent,
                ) by {
                    let j = choose|j: int| #[trigger] says(d.meta, inverse, j, raw);
                    assert(says(d.meta, inverse, j, raw));
                    assert(links.contains(raw));
                    let i = choose|i: int| 0 <= i < links.len() && links[i] == raw;
                    assert(!(target_of(g.registry, child, link_of(links[i])) == TargetView::Path(
                        parent,
                    )));
                }
            }
        }
    }
}

/// What looking at one edge adds.
proof fn lemma_edge_told(g: Ground, w: Walk, doc: Seq<char>, e: EdgeView)
    ensures
        ({
            let v = after_edge(g, w, doc, e);
            let found = v.findings.subrange(
                w.findings.len() as int,
                v.findings.len() as int,
            );
            &&& v.visited == w.visited
            &&& w.findings.is_prefix_of(v.findings)
            &&& forall|p: Seq<char>| #[trigger] known_to(w, p) ==> known_to(v, p)
            &&& tells_edge(g, doc, e, found)
            &&& target_of(g.registry, doc, link_of(e.target)) matches TargetView::Path(p) ==> Some(
                e.relation,
            ) == g.vocabulary.spanning && !(match_at(g, p) is Missing) ==> known_to(v, p) && (
            known_to(w, p) ==> tells_duplicate(found))
        }),
{
    let v = after_edge(g, w, doc, e);
    let found = v.findings.subrange(w.findings.len() as int, v.findings.len() as int);
    assert(v.queue == w.queue || (v.queue.len() == w.queue.len() + 1 && v.queue.drop_last()
        =~= w.queue));
    assert forall|p: Seq<char>| #[trigger] known_to(w, p) implies known_to(v, p) by {
        if w.queue.contains(p) {
            let k = choose|k: int| 0 <= k < w.queue.len() && w.queue[k] == p;
            assert(v.queue[k] == p);
        }
    }
    match lead(g, doc, e) {
        TargetView::External => {},
        TargetView::UnresolvedId(id) => {},
        TargetView::Path(p) => {
            let m = match_at(g, p);
            let names = name_findings(doc, e, m);
            lemma_unanswered(g, p, doc);
            let rest = if m is CaseOnly {
                found.skip(1)
            } else {
                found
            };
            if m is Missing || Some(e.relation) != g.vocabulary.spanning {
                assert(found =~= names);
            } else if known_to(w, p) {
                let f = FindingView::DuplicateContainment { doc, target: link_of(e.target).target };
                assert(found =~= names.push(f));
                assert(rest =~= seq![f]);
                assert(rest[0] is DuplicateContainment);
                assert(found[names.len() as int] is DuplicateContainment);
            } else {
                assert(v.queue[w.queue.len() as int] == p);
                if unanswered(g, p, doc) {
                    let f = FindingView::MissingInverse {
                        doc,
                        child: p,
                        inverse: spanning_inverse(g.vocabulary)->Some_0,
                    };
                    assert(found =~= names.push(f));
                    assert(rest =~= seq![f]);
                } else {
                    assert(found =~= names);
                    assert(rest =~= Seq::empty());
                }
            }
        },
    }
}

/// How far a check is when it has looked at the first `i` edges of a document.
spec fn at_edge(g: Ground, w: Walk, doc: Seq<char>, i: int) -> Walk {
    after_edges(g, w, doc, edges_at(g, doc), i as nat)
}

/// The findings of the `i`th edge of a document, once its edges were looked at.
spec fn found_at(g: Ground, w: Walk, doc: Seq<char>, i: int) -> Seq<FindingView> {
    at_edge(g, w, doc, edges_at(g, doc).len() as int).findings.subrange(
        at_edge(g, w, doc, i).findings.len() as int,
        at_edge(g, w, doc, i + 1).findings.len() as int,
    )
}

/// Looking at more edges only adds.
proof fn lemma_between(g: Ground, w: Walk, doc: Seq<char>, i: int, n: int)
    requires
        0 <= i <= n,
    ensures
        at_edge(g, w, doc, n).visited == at_edge(g, w, doc, i).visited,
        at_edge(g, w, doc, i).findings.is_prefix_of(at_edge(g, w, doc, n).findings),
        forall|p: Seq<char>| #[trigger]
            known_to(at_edge(g, w, doc, i), p) ==> known_to(at_edge(g, w, doc, n), p),
    decreases n - i,
{
    if i < n {
        lemma_between(g, w, doc, i, n - 1);
        lemma_edge_told(g, at_edge(g, w, doc, n - 1), doc, edges_at(g, doc)[n - 1]);
    }
}

/// What looking at the `i`th edge of a document adds, seen from the end.
proof fn lemma_found_at(g: Ground, w: Walk, doc: Seq<char>, i: int)
    requires
        0 <= i < edges_at(g, doc).len(),
    ensures
        at_edge(g, w, doc, i).findings.len() <= at_edge(g, w, doc, i + 1).findings.len()
            <= at_edge(g, w, doc, edges_at(g, doc).len() as int).findings.len(),
        tells_edge(g, doc, edges_at(g, doc)[i], found_at(g, w, doc, i)),
        forall|p: Seq<char>| #[trigger]
            contains_at(g, doc, i, p) ==> known_to(at_edge(g, w, doc, i + 1), p) && (known_to(
                at_edge(g, w, doc, i),
                p,
            ) ==> tells_duplicate(found_at(g, w, doc, i))),
{
    let e = edges_at(g, doc)[i];
    let a = at_edge(g, w, doc, i);
    let b = at_edge(g, w, doc, i + 1);
    let v = at_edge(g, w, doc, edges_at(g, doc).len() as int);
    lemma_edge_told(g, a, doc, e);
    lemma_between(g, w, doc, i + 1, edges_at(g, doc).len() as int);
    assert(b == after_edge(g, a, doc, e));
    assert(found_at(g, w, doc, i) =~= b.findings.subrange(
        a.findings.len() as int,
        b.findings.len() as int,
    ));
}

/// What the spanning edges of visited documents lead to was reached, and so was the start.
spec fn all_known(g: Ground, start: Seq<char>, w: Walk) -> bool {
    &&& known_to(w, start)
    &&& forall|d: Seq<char>, i: int, p: Seq<char>|
        w.visited.contains(d) && #[trigger] contains_at(g, d, i, p) ==> known_to(w, p)
}

proof fn lemma_tells_more(
    g: Ground,
    doc: Seq<char>,
    a: Seq<FindingView>,
    b: Seq<FindingView>,
    cuts: Seq<int>,
)
    requires
        a.is_prefix_of(b),
        tells_document(g, doc, a, cuts),
    ensures
        tells_document(g, doc, b, cuts),
{
    assert forall|i: int, j: int| 0 <= i <= j < cuts.len() implies 0 <= #[trigger] cuts[i]
        <= #[trigger] cuts[j] <= b.len() by {
        assert(cuts[j] <= a.len());
    }
    if document_at(g, doc) is Ok {
        assert forall|i: int| 0 <= i < edges_at(g, doc).len() implies tells_edge(
            g,
            doc,
            #[trigger] edges_at(g, doc)[i],
            b.subrange(cuts[i], cuts[i + 1]),
        ) by {
            assert(cuts[i] <= cuts[i + 1] <= a.len());
            assert(b.subrange(cuts[i], cuts[i + 1]) =~= a.subrange(cuts[i], cuts[i + 1]));
        }
    } else {
        assert(cuts[0] <= cuts[1] <= a.len());
    }
}

/// Where the findings of the edges of a document are cut.
spec fn cuts_of(g: Ground, w: Walk, doc: Seq<char>) -> Seq<int> {
    Seq::new(
        edges_at(g, doc).len() + 1,
        |i: int| at_edge(g, w, doc, i).findings.len() as int,
    )
}

/// What taking up a document that can be read adds.
proof fn lemma_document_told(g: Ground, w: Walk, doc: Seq<char>)
    requires
        document_at(g, doc) is Ok,
    ensures
        ({
            let v = after_document(g, w, doc);
            let cuts = cuts_of(g, w, doc);
            &&& v.visited == w.visited
            &&& w.findings.is_prefix_of(v.findings)
            &&& forall|p: Seq<char>| #[trigger] known_to(w, p) ==> known_to(v, p)
            &&& cuts[0] == w.findings.len()
            &&& cuts.last() == v.findings.len()
            &&& tells_document(g, doc, v.findings, cuts)
            &&& forall|i: int, p: Seq<char>| #[trigger] contains_at(g, doc, i, p) ==> known_to(v, p)
        }),
{
    let n = edges_at(g, doc).len() as int;
    let v = after_document(g, w, doc);
    let cuts = cuts_of(g, w, doc);
    assert(at_edge(g, w, doc, 0) == w);
    assert(at_edge(g, w, doc, n) == v);
    lemma_between(g, w, doc, 0, n);
    assert forall|i: int, j: int| 0 <= i <= j < cuts.len() implies 0 <= #[trigger] cuts[i]
        <= #[trigger] cuts[j] <= v.findings.len() by {
        lemma_between(g, w, doc, i, j);
        lemma_between(g, w, doc, j, n);
    }
    assert forall|i: int| 0 <= i < n implies tells_edge(
        g,
        doc,
        #[trigger] edges_at(g, doc)[i],
        v.findings.subrange(cuts[i], cuts[i + 1]),
    ) by {
        lemma_found_at(g, w, doc, i);
    }
    assert forall|i: int, p: Seq<char>| #[trigger] contains_at(g, doc, i, p) implies known_to(
        v,
        p,
    ) by {
        lemma_found_at(g, w, doc, i);
        lemma_between(g, w, doc, i + 1, n);
    }
}

/// An edge to what was reached before says so.
proof fn lemma_duplicate_told(g: Ground, w: Walk, doc: Seq<char>, i: int, p: Seq<char>)
    requires
        document_at(g, doc) is Ok,
        contains_at(g, doc, i, p),
        known_to(w, p) || exists|k: int| 0 <= k < i && #[trigger] contains_at(g, doc, k, p),
    ensures
        tells_duplicate(
            after_document(g, w, doc).findings.subrange(
                cuts_of(g, w, doc)[i],
                cuts_of(g, w, doc)[i + 1],
            ),
        ),
{
    let n = edges_at(g, doc).len() as int;
    assert(at_edge(g, w, doc, 0) == w);
    assert(at_edge(g, w, doc, n) == after_document(g, w, doc));
    lemma_found_at(g, w, doc, i);
    if known_to(w, p) {
        lemma_between(g, w, doc, 0, i);
    } else {
        let k = choose|k: int| 0 <= k < i && #[trigger] contains_at(g, doc, k, p);
        lemma_found_at(g, w, doc, k);
        lemma_between(g, w, doc, k + 1, i);
    }
    assert(known_to(at_edge(g, w, doc, i), p));
    assert(found_at(g, w, doc, i) == after_document(g, w, doc).findings.subrange(
        cuts_of(g, w, doc)[i],
        cuts_of(g, w, doc)[i + 1],
    ));
}

/// What holds of the cuts of documents after one more was taken up, its edges aside.
proof fn lemma_cut_apart(
    g: Ground,
    a: Seq<FindingView>,
    b: Seq<FindingView>,
    cuts: Map<Seq<char>, Seq<int>>,
    doc: Seq<char>,
    own: Seq<int>,
)
    requires
        a.is_prefix_of(b),
        !cuts.contains_key(doc),
        forall|d: Seq<char>| #[trigger]
            cuts.contains_key(d) ==> tells_document(g, d, a, cuts[d]),
        forall|x: Seq<char>, y: Seq<char>|
            #![trigger cuts.contains_key(x), cuts.contains_key(y)]
            cuts.contains_key(x) && cuts.contains_key(y) && x != y ==> cuts[x].last() <= cuts[y][0]
                || cuts[y].last() <= cuts[x][0],
        forall|k: int| 0 <= k < a.len() ==> told_by_one(cuts, #[trigger] a[k], k),
        tells_document(g, doc, b, own),
        own.len() > 0,
        own[0] == a.len(),
        own.last() == b.len(),
    ensures
        ({
            let all = cuts.insert(doc, own);
            &&& forall|d: Seq<char>| #[trigger]
                all.contains_key(d) ==> tells_document(g, d, b, all[d])
            &&& forall|x: Seq<char>, y: Seq<char>|
                #![trigger all.contains_key(x), all.contains_key(y)]
                all.contains_key(x) && all.contains_key(y) && x != y ==> all[x].last() <= all[y][0]
                    || all[y].last() <= all[x][0]
            &&& forall|k: int| 0 <= k < b.len() ==> told_by_one(all, #[trigger] b[k], k)
        }),
{
    let all = cuts.insert(doc, own);
    assert forall|d: Seq<char>| #[trigger] all.contains_key(d) implies tells_document(
        g,
        d,
        b,
        all[d],
    ) by {
        if d != doc {
            assert(cuts.contains_key(d));
            lemma_tells_more(g, d, a, b, cuts[d]);
        }
    }
    assert forall|x: Seq<char>, y: Seq<char>|
        #![trigger all.contains_key(x), all.contains_key(y)]
        all.contains_key(x) && all.contains_key(y) && x != y implies all[x].last() <= all[y][0]
        || all[y].last() <= all[x][0] by {
        if x != doc {
            assert(cuts.contains_key(x));
            let c = cuts[x];
            assert(c.len() > 0);
            assert(c[c.len() - 1] <= a.len());
        }
        if y != doc {
            assert(cuts.contains_key(y));
            let c = cuts[y];
            assert(c.len() > 0);
            assert(c[c.len() - 1] <= a.len());
        }
    }
    assert forall|k: int| 0 <= k < b.len() implies told_by_one(all, #[trigger] b[k], k) by {
        if k < a.len() {
            assert(told_by_one(cuts, a[k], k));
            let d = choose|d: Seq<char>| #[trigger]
                cuts.contains_key(d) && cuts[d][0] <= k < cuts[d].last();
            assert(all.contains_key(d) && all[d] == cuts[d]);
        } else {
            assert(all.contains_key(doc) && all[doc] == own);
        }
    }
}

/// What a duplicate says is said still when there are more findings.
proof fn lemma_still_told(
    g: Ground,
    a: Seq<FindingView>,
    b: Seq<FindingView>,
    cuts: Map<Seq<char>, Seq<int>>,
    more: Map<Seq<char>, Seq<int>>,
    d: Seq<char>,
    i: int,
    p: Seq<char>,
)
    requires
        a.is_prefix_of(b),
        tells_document(g, d, a, cuts[d]),
        more[d] == cuts[d],
        contains_at(g, d, i, p),
        duplicate_told(a, cuts, d, i),
    ensures
        duplicate_told(b, more, d, i),
{
    let c = cuts[d];
    assert(document_at(g, d) is Ok);
    assert(c[i] <= c[i + 1] <= a.len());
    assert(b.subrange(c[i], c[i + 1]) =~= a.subrange(c[i], c[i + 1]));
}

/// One turn keeps a check's findings whole.
#[verifier::spinoff_prover]
#[verifier::rlimit(50)]
proof fn lemma_turn_told(
    g: Ground,
    start: Seq<char>,
    w: Walk,
    cuts: Map<Seq<char>, Seq<int>>,
) -> (more: Map<Seq<char>, Seq<int>>)
    requires
        tells_all(g, start, w, cuts),
        all_known(g, start, w),
    ensures
        tells_all(g, start, after_turn(g, w), more),
        all_known(g, start, after_turn(g, w)),
{
    let v = after_turn(g, w);
    if w.queue.len() == 0 {
        cuts
    } else {
        let doc = w.queue.last();
        let rest = w.queue.drop_last();
        let taken = Walk { visited: w.visited.insert(doc), queue: rest, ..w };
        assert forall|p: Seq<char>| #[trigger] known_to(w, p) implies p == doc || known_to(
            taken,
            p,
        ) by {
            if w.queue.contains(p) {
                let k = choose|k: int| 0 <= k < w.queue.len() && w.queue[k] == p;
                if k < rest.len() {
                    assert(rest[k] == p);
                }
            }
        }
        if w.visited.contains(doc) {
            assert forall|p: Seq<char>| #[trigger] known_to(w, p) implies known_to(v, p) by {
                if p != doc {
                    assert(known_to(taken, p));
                }
            }
            cuts
        } else {
            assert forall|p: Seq<char>| #[trigger] known_to(w, p) implies known_to(taken, p) by {}
            let a = w.findings;
            let b = v.findings;
            let own = if document_at(g, doc) is Ok {
                cuts_of(g, taken, doc)
            } else {
                seq![a.len() as int, a.len() as int + 1]
            };
            let more = cuts.insert(doc, own);
            if document_at(g, doc) is Ok {
                lemma_document_told(g, taken, doc);
            } else {
                assert(b == a.push(
                    FindingView::Unreadable { doc, error: document_at(g, doc)->Err_0 },
                ));
                assert(tells_document(g, doc, b, own));
                assert forall|p: Seq<char>| #[trigger] known_to(taken, p) implies known_to(v, p) by {}
            }
            lemma_cut_apart(g, a, b, cuts, doc, own);
            assert forall|d: Seq<char>| #[trigger] v.visited.contains(d) <==> more.contains_key(
                d,
            ) by {
                assert(w.visited.contains(d) <==> cuts.contains_key(d));
            }
            assert forall|d: Seq<char>, i: int, p: Seq<char>|
                v.visited.contains(d) && #[trigger] contains_at(g, d, i, p) implies known_to(v, p) by {
                if d != doc {
                    assert(w.visited.contains(d));
                    assert(known_to(w, p));
                    assert(known_to(taken, p));
                }
            }
            assert(known_to(taken, start));
            assert forall|d: Seq<char>, i: int|
                v.visited.contains(d) && #[trigger] contains_at(
                    g,
                    d,
                    i,
                    start,
                ) implies duplicate_told(b, more, d, i) by {
                if d != doc {
                    assert(w.visited.contains(d) && cuts.contains_key(d));
                    lemma_still_told(g, a, b, cuts, more, d, i, start);
                } else {
                    lemma_duplicate_told(g, taken, doc, i, start);
                }
            }
            assert forall|d: Seq<char>, i: int, e: Seq<char>, j: int, p: Seq<char>|
                v.visited.contains(d) && v.visited.contains(e) && #[trigger] contains_at(g, d, i, p)
                    && #[trigger] contains_at(g, e, j, p) && !(d == e && i == j) implies duplicate_told(
                b,
                more,
                d,
                i,
            ) || duplicate_told(b, more, e, j) by {
                if d != doc && e != doc {
                    assert(w.visited.contains(d) && w.visited.contains(e));
                    assert(cuts.contains_key(d) && cuts.contains_key(e));
                    if duplicate_told(a, cuts, d, i) {
                        lemma_still_told(g, a, b, cuts, more, d, i, p);
                    } else {
                        lemma_still_told(g, a, b, cuts, more, e, j, p);
                    }
                } else if d != doc {
                    assert(w.visited.contains(d));
                    assert(known_to(w, p));
                    assert(known_to(taken, p));
                    lemma_duplicate_told(g, taken, doc, j, p);
                } else if e != doc {
                    assert(w.visited.contains(e));
                    assert(known_to(w, p));
                    assert(known_to(taken, p));
                    lemma_duplicate_told(g, taken, doc, i, p);
                } else if i < j {
                    assert(contains_at(g, doc, i, p));
                    lemma_duplicate_told(g, taken, doc, j, p);
                } else {
                    assert(contains_at(g, doc, j, p));
                    lemma_duplicate_told(g, taken, doc, i, p);
                }
            }
            more
        }
    }
}

proof fn lemma_turns_told(g: Ground, start: Seq<char>, n: nat) -> (cuts: Map<
    Seq<char>,
    Seq<int>,
>)
    ensures
        tells_all(g, start, after_turns(g, start, n), cuts),
        all_known(g, start, after_turns(g, start, n)),
    decreases n,
{
    if n == 0 {
        let w = after_turns(g, start, 0);
        assert(w.queue[0] == start);
        Map::empty()
    } else {
        let cuts = lemma_turns_told(g, start, (n - 1) as nat);
        lemma_turn_told(g, start, after_turns(g, start, (n - 1) as nat), cuts)
    }
}

// ---- laws ----

/// Law: a check says of every document it visited all there is to say, whatever else it found.
/// A document that cannot be read has one finding, and otherwise each link of it has its own:
/// a broken link, a name that differs in case, an ID that is malformed or dangles, a document
/// contained elsewhere too, a child that does not point back. There is no other finding, and
/// no two documents share one.
pub proof fn every_fault_is_told(g: Ground, start: Seq<char>, n: nat)
    ensures
        exists|cuts: Map<Seq<char>, Seq<int>>| #[trigger]
            tells_all(g, start, after_turns(g, start, n), cuts),
{
    let cuts = lemma_turns_told(g, start, n);
    assert(tells_all(g, start, after_turns(g, start, n), cuts));
}

/// Law: a check that has run out of documents has visited everything that can be reached from
/// the start over spanning links to what is there, whatever it found on the way.
pub proof fn all_that_can_be_found_is_visited(
    g: Ground,
    start: Seq<char>,
    n: nat,
    doc: Seq<char>,
    k: nat,
)
    requires
        after_turns(g, start, n).queue.len() == 0,
        found_from(g, start, doc, k),
    ensures
        after_turns(g, start, n).visited.contains(doc),
    decreases k,
{
    let w = after_turns(g, start, n);
    let cuts = lemma_turns_told(g, start, n);
    if k > 0 {
        let (from, i) = choose|from: Seq<char>, i: int|
            found_from(g, start, from, (k - 1) as nat) && #[trigger] contains_at(g, from, i, doc);
        all_that_can_be_found_is_visited(g, start, n, from, (k - 1) as nat);
        assert(known_to(w, doc));
    } else {
        assert(known_to(w, start));
    }
}

/// Law: a check visits nothing but what can be reached from the start over spanning links to
/// what is there.
pub proof fn only_what_can_be_found_is_visited(g: Ground, start: Seq<char>, n: nat, doc: Seq<char>)
    requires
        known_to(after_turns(g, start, n), doc),
    ensures
        exists|k: nat| #[trigger] found_from(g, start, doc, k),
    decreases n,
{
    if n == 0 {
        assert(found_from(g, start, doc, 0));
    } else {
        let w = after_turns(g, start, (n - 1) as nat);
        if known_to(w, doc) {
            only_what_can_be_found_is_visited(g, start, (n - 1) as nat, doc);
        } else {
            let from = w.queue.last();
            let rest = w.queue.drop_last();
            let taken = Walk { visited: w.visited.insert(from), queue: rest, ..w };
            assert(w.queue[w.queue.len() - 1] == from);
            only_what_can_be_found_is_visited(g, start, (n - 1) as nat, from);
            assert(!known_to(taken, doc)) by {
                if rest.contains(doc) {
                    let k = choose|k: int| 0 <= k < rest.len() && rest[k] == doc;
                    assert(w.queue[k] == doc);
                }
            }
            let i = lemma_reached_by(g, taken, from, doc, edges_at(g, from).len());
            let k = choose|k: nat| #[trigger] found_from(g, start, from, k);
            assert(contains_at(g, from, i, doc));
            assert(found_from(g, start, doc, k + 1));
        }
    }
}

/// What looking at edges reaches, one of them leads to.
proof fn lemma_reached_by(g: Ground, w: Walk, from: Seq<char>, doc: Seq<char>, n: nat) -> (i: int)
    requires
        n <= edges_at(g, from).len(),
        !known_to(w, doc),
        known_to(at_edge(g, w, from, n as int), doc),
    ensures
        contains_at(g, from, i, doc),
    decreases n,
{
    if n == 0 {
        0
    } else {
        let before = at_edge(g, w, from, n - 1);
        if known_to(before, doc) {
            lemma_reached_by(g, w, from, doc, (n - 1) as nat)
        } else {
            let after = at_edge(g, w, from, n as int);
            lemma_edge_told(g, before, from, edges_at(g, from)[n - 1]);
            let k = choose|k: int| 0 <= k < after.queue.len() && after.queue[k] == doc;
            if k < before.queue.len() {
                assert(before.queue[k] == doc);
            }
            n - 1
        }
    }
}

} // verus!
