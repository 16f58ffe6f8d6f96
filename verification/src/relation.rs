//! Relations: the vocabulary of links that documents declare in their metadata.
//!
//! A relation is a metadata field whose values are links. One relation may be the
//! spanning one: the containment tree follows it, and its inverse points back.
use vstd::prelude::*;

use crate::meta::{field, link_texts, MetaValue, Tree};
use crate::text::{same, views};

verus! {

/// One relation of the vocabulary.
#[derive(Debug, Clone, PartialEq, Eq)]
pub struct Relation {
    /// The metadata field that declares it.
    pub name: String,
    /// The field that declares its inverse, if it has one.
    pub inverse: Option<String>,
}

/// A relation, as a mathematical value.
pub struct RelationView {
    /// See [`Relation::name`].
    pub name: Seq<char>,
    /// See [`Relation::inverse`].
    pub inverse: Option<Seq<char>>,
}

impl View for Relation {
    type V = RelationView;

    open spec fn view(&self) -> RelationView {
        RelationView {
            name: self.name@,
            inverse: match self.inverse {
                Some(i) => Some(i@),
                None => None,
            },
        }
    }
}

/// The vocabulary of a workspace.
#[derive(Debug, Clone, PartialEq, Eq)]
pub struct RelationSet {
    /// The relations, in declared order.
    pub relations: Vec<Relation>,
    /// The name of the spanning relation, if there is one.
    pub spanning: Option<String>,
}

/// A vocabulary, as a mathematical value.
pub struct Vocabulary {
    /// See [`RelationSet::relations`].
    pub relations: Seq<RelationView>,
    /// See [`RelationSet::spanning`].
    pub spanning: Option<Seq<char>>,
}

impl View for RelationSet {
    type V = Vocabulary;

    open spec fn view(&self) -> Vocabulary {
        Vocabulary {
            relations: self.relations@.map_values(|r: Relation| r@),
            spanning: match self.spanning {
                Some(s) => Some(s@),
                None => None,
            },
        }
    }
}

/// A link a document declares.
#[derive(Debug, Clone, PartialEq, Eq)]
pub struct Edge {
    /// The relation that declares it.
    pub relation: String,
    /// The link as it is written.
    pub target: String,
}

/// A declared link, as a mathematical value.
pub struct EdgeView {
    /// See [`Edge::relation`].
    pub relation: Seq<char>,
    /// See [`Edge::target`].
    pub target: Seq<char>,
}

impl View for Edge {
    type V = EdgeView;

    open spec fn view(&self) -> EdgeView {
        EdgeView { relation: self.relation@, target: self.target@ }
    }
}

/// The links that `meta` declares under `key`.
pub open spec fn links_under(meta: Tree, key: Seq<char>) -> Seq<Seq<char>> {
    match field(meta, key) {
        Some(v) => link_texts(v),
        None => Seq::empty(),
    }
}

/// The edges that `meta` declares under one relation.
pub open spec fn edges_under(meta: Tree, relation: Seq<char>) -> Seq<EdgeView> {
    links_under(meta, relation).map_values(|t: Seq<char>| EdgeView { relation, target: t })
}

/// The edges that `meta` declares, relation by relation.
pub open spec fn edges_of(relations: Seq<RelationView>, meta: Tree) -> Seq<EdgeView>
    decreases relations.len(),
{
    if relations.len() == 0 {
        Seq::empty()
    } else {
        edges_of(relations.drop_last(), meta) + edges_under(meta, relations.last().name)
    }
}

/// The links of the spanning relation that `meta` declares.
pub open spec fn children_of(vocabulary: Vocabulary, meta: Tree) -> Seq<Seq<char>> {
    match vocabulary.spanning {
        Some(s) => links_under(meta, s),
        None => Seq::empty(),
    }
}

/// The inverse of the first relation named `name`.
pub open spec fn inverse_named(relations: Seq<RelationView>, name: Seq<char>) -> Option<Seq<char>>
    decreases relations.len(),
{
    if relations.len() == 0 {
        None
    } else if relations[0].name == name {
        relations[0].inverse
    } else {
        inverse_named(relations.drop_first(), name)
    }
}

/// The inverse of the spanning relation.
pub open spec fn spanning_inverse(vocabulary: Vocabulary) -> Option<Seq<char>> {
    match vocabulary.spanning {
        Some(s) => inverse_named(vocabulary.relations, s),
        None => None,
    }
}

/// The view of an optional text.
pub open spec fn option_view(o: Option<String>) -> Option<Seq<char>> {
    match o {
        Some(s) => Some(s@),
        None => None,
    }
}

/// The links that `meta` declares under `key`.
pub fn links_in(meta: &MetaValue, key: &str) -> (r: Vec<String>)
    ensures
        views(r@) == links_under(meta@, key@),
{
    match meta.get(key) {
        Some(v) => v.link_strings(),
        None => {
            let none: Vec<String> = Vec::new();
            assert(views(none@) =~= Seq::empty());
            none
        },
    }
}

/// The diaryx vocabulary: `contents` spans, `part_of` is its inverse.
pub open spec fn diaryx_vocabulary() -> Vocabulary {
    Vocabulary {
        relations: seq![
            RelationView { name: "contents"@, inverse: Some("part_of"@) },
            RelationView { name: "part_of"@, inverse: Some("contents"@) },
        ],
        spanning: Some("contents"@),
    }
}

impl RelationSet {
    /// The diaryx vocabulary: `contents` spans, `part_of` is its inverse.
    pub fn diaryx() -> (r: RelationSet)
        ensures
            r@ == diaryx_vocabulary(),
    {
        let contents = Relation {
            name: "contents".to_owned(),
            inverse: Some("part_of".to_owned()),
        };
        let part_of = Relation {
            name: "part_of".to_owned(),
            inverse: Some("contents".to_owned()),
        };
        let mut relations: Vec<Relation> = Vec::new();
        relations.push(contents);
        relations.push(part_of);
        let r = RelationSet { relations, spanning: Some("contents".to_owned()) };
        assert(r@.relations =~= diaryx_vocabulary().relations);
        r
    }

    /// The name of the spanning relation.
    pub fn spanning_relation(&self) -> (r: Option<&str>)
        ensures
            match r {
                Some(s) => self@.spanning == Some(s@),
                None => self@.spanning is None,
            },
    {
        match &self.spanning {
            Some(s) => Some(s.as_str()),
            None => None,
        }
    }

    /// The inverse of the spanning relation.
    pub fn inverse(&self) -> (r: Option<String>)
        ensures
            option_view(r) == spanning_inverse(self@),
    {
        let name = match &self.spanning {
            Some(s) => s,
            None => {
                return None;
            },
        };
        let ghost all = self@.relations;
        let mut i: usize = 0;
        assert(all.skip(0) =~= all);
        while i < self.relations.len()
            invariant
                i <= self.relations@.len(),
                all == self@.relations,
                self@.spanning == Some(name@),
                spanning_inverse(self@) == inverse_named(all.skip(i as int), name@),
            decreases self.relations@.len() - i,
        {
            assert(all[i as int] == self.relations@[i as int]@);
            assert(all.skip(i as int)[0] == all[i as int]);
            assert(all.skip(i as int).drop_first() =~= all.skip(i + 1));
            if same(self.relations[i].name.as_str(), name.as_str()) {
                return self.relations[i].inverse.clone();
            }
            i += 1;
        }
        None
    }

    /// The links of the spanning relation that `meta` declares, in order.
    pub fn children(&self, meta: &MetaValue) -> (r: Vec<String>)
        ensures
            views(r@) == children_of(self@, meta@),
    {
        match &self.spanning {
            Some(s) => links_in(meta, s.as_str()),
            None => {
                let none: Vec<String> = Vec::new();
                assert(views(none@) =~= Seq::empty());
                none
            },
        }
    }

    /// Every link that `meta` declares, in the vocabulary's declared order.
    pub fn edges(&self, meta: &MetaValue) -> (r: Vec<Edge>)
        ensures
            r@.map_values(|e: Edge| e@) == edges_of(self@.relations, meta@),
    {
        let ghost all = self@.relations;
        let mut out: Vec<Edge> = Vec::new();
        let mut i: usize = 0;
        assert(all.take(0) =~= Seq::empty());
        assert(out@.map_values(|e: Edge| e@) =~= edges_of(all.take(0), meta@));
        while i < self.relations.len()
            invariant
                i <= self.relations@.len(),
                all == self@.relations,
                out@.map_values(|e: Edge| e@) == edges_of(all.take(i as int), meta@),
            decreases self.relations@.len() - i,
        {
            let name = &self.relations[i].name;
            let links = links_in(meta, name.as_str());
            let ghost before = out@.map_values(|e: Edge| e@);
            let ghost found = edges_under(meta@, name@);
            let mut j: usize = 0;
            assert(found.take(0) =~= Seq::empty());
            while j < links.len()
                invariant
                    j <= links@.len(),
                    views(links@) == links_under(meta@, name@),
                    found == edges_under(meta@, name@),
                    out@.map_values(|e: Edge| e@) =~= before + found.take(j as int),
                decreases links@.len() - j,
            {
                let ghost was = out@.map_values(|e: Edge| e@);
                out.push(Edge { relation: name.clone(), target: links[j].clone() });
                assert(views(links@)[j as int] == links@[j as int]@);
                assert(found[j as int] == (EdgeView {
                    relation: name@,
                    target: links@[j as int]@,
                }));
                assert(out@.map_values(|e: Edge| e@) =~= was.push(found[j as int]));
                assert(found.take(j + 1) =~= found.take(j as int).push(found[j as int]));
                j += 1;
            }
            assert(views(links@).len() == found.len());
            assert(found.take(j as int) =~= found);
            assert(all[i as int] == self.relations@[i as int]@);
            assert(all.take(i + 1).drop_last() =~= all.take(i as int));
            assert(all.take(i + 1).last() == all[i as int]);
            i += 1;
        }
        assert(all.take(i as int) =~= all);
        out
    }
}

// ---- laws ----

/// Law: the links of a document are told relation by relation, in the declared order, and
/// within a relation in the order of the document.
pub proof fn edges_follow_the_vocabulary(relations: Seq<RelationView>, meta: Tree)
    ensures
        edges_of(relations, meta) == relations.map_values(
            |r: RelationView|
                links_under(meta, r.name).map_values(
                    |t: Seq<char>| EdgeView { relation: r.name, target: t },
                ),
        ).flatten(),
    decreases relations.len(),
{
    let told = |r: RelationView|
        links_under(meta, r.name).map_values(
            |t: Seq<char>| EdgeView { relation: r.name, target: t },
        );
    let parts = relations.map_values(told);
    parts.lemma_flatten_and_flatten_alt_are_equivalent();
    if relations.len() > 0 {
        let front = relations.drop_last();
        edges_follow_the_vocabulary(front, meta);
        front.map_values(told).lemma_flatten_and_flatten_alt_are_equivalent();
        assert(parts.drop_last() =~= front.map_values(told));
        assert(parts.last() =~= edges_under(meta, relations.last().name));
    }
}

/// Law: the inverse of a relation is that of the first relation under its name, and a name
/// that is not declared has none.
pub proof fn first_declaration_gives_the_inverse(relations: Seq<RelationView>, name: Seq<char>)
    ensures
        forall|i: int|
            0 <= i < relations.len() && (#[trigger] relations[i]).name == name && (forall|k: int|
                0 <= k < i ==> (#[trigger] relations[k]).name != name) ==> inverse_named(
                relations,
                name,
            ) == relations[i].inverse,
        (forall|k: int| 0 <= k < relations.len() ==> (#[trigger] relations[k]).name != name)
            ==> inverse_named(relations, name) is None,
    decreases relations.len(),
{
    if relations.len() > 0 && relations[0].name != name {
        let rest = relations.drop_first();
        first_declaration_gives_the_inverse(rest, name);
        assert forall|i: int|
            0 <= i < relations.len() && (#[trigger] relations[i]).name == name && (forall|k: int|
                0 <= k < i ==> (#[trigger] relations[k]).name != name) implies inverse_named(
            relations,
            name,
        ) == relations[i].inverse by {
            assert(rest[i - 1] == relations[i]);
            assert forall|k: int| 0 <= k < i - 1 implies (#[trigger] rest[k]).name != name by {
                assert(rest[k] == relations[k + 1]);
            }
        }
        if forall|k: int| 0 <= k < relations.len() ==> (#[trigger] relations[k]).name != name {
            assert forall|k: int| 0 <= k < rest.len() implies (#[trigger] rest[k]).name != name by {
                assert(rest[k] == relations[k + 1]);
            }
        }
    }
}

/// Law: the inverse of the spanning relation is the one its declaration names, where its name
/// is declared, and a vocabulary that spans nothing has none.
pub proof fn spanning_relation_has_the_declared_inverse(vocabulary: Vocabulary, i: int)
    requires
        0 <= i < vocabulary.relations.len(),
        forall|k: int|
            0 <= k < i ==> Some((#[trigger] vocabulary.relations[k]).name) != vocabulary.spanning,
    ensures
        vocabulary.spanning is None ==> spanning_inverse(vocabulary) is None,
        vocabulary.spanning == Some(vocabulary.relations[i].name) ==> spanning_inverse(vocabulary)
            == vocabulary.relations[i].inverse,
{
    first_declaration_gives_the_inverse(
        vocabulary.relations,
        vocabulary.relations[i].name,
    );
}

} // verus!
