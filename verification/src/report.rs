//! The texts that the command line prints.
use vstd::prelude::*;

use crate::document::{Document, DocumentView};
use crate::edit::typed;
use crate::effects::{heard, links_are_the_texts};
use crate::embed::format_of;
use crate::error::{Failure, WorkspaceError};
use crate::identity::Id;
use crate::index::{FileIndex, IndexStore};
use crate::link::ID_SCHEME;
use crate::meta::{dict, field, Format, MetaValue, Tree};
use crate::relation::{
    children_of, edges_of, Edge, EdgeView, Relation, RelationSet, RelationView, Vocabulary,
};
use crate::text::{decimal, decimal_of, digits, digits_of, same, strip_prefix, views};
use crate::tree::title_of;
use crate::validate::{finding_text, finding_views, Finding, FindingView};

verus! {

/// Some texts as an indented list, one per line.
pub open spec fn item_lines(items: Seq<Seq<char>>) -> Seq<char>
    decreases items.len(),
{
    if items.len() == 0 {
        Seq::empty()
    } else {
        item_lines(items.drop_last()) + ("    - "@ + items.last() + "\n"@)
    }
}

/// The targets of the edges of one relation, in order.
pub open spec fn targets_under(edges: Seq<EdgeView>, name: Seq<char>) -> Seq<Seq<char>>
    decreases edges.len(),
{
    if edges.len() == 0 {
        Seq::empty()
    } else if edges.last().relation == name {
        targets_under(edges.drop_last(), name).push(edges.last().target)
    } else {
        targets_under(edges.drop_last(), name)
    }
}

/// One relation that is not the spanning one: its name and its targets, or nothing where
/// it has none.
pub open spec fn overlay(
    relation: RelationView,
    spanning: Option<Seq<char>>,
    edges: Seq<EdgeView>,
) -> Seq<char> {
    let targets = targets_under(edges, relation.name);
    if Some(relation.name) == spanning || targets.len() == 0 {
        Seq::empty()
    } else {
        "  "@ + relation.name + ":\n"@ + item_lines(targets)
    }
}

/// The relations that are not the spanning one, in the vocabulary's declared order.
pub open spec fn overlays(
    relations: Seq<RelationView>,
    spanning: Option<Seq<char>>,
    edges: Seq<EdgeView>,
) -> Seq<char>
    decreases relations.len(),
{
    if relations.len() == 0 {
        Seq::empty()
    } else {
        overlays(relations.drop_last(), spanning, edges) + overlay(
            relations.last(),
            spanning,
            edges,
        )
    }
}

/// The summary of a document: its title, its spanning children and its other links.
pub open spec fn summary(file: Seq<char>, d: DocumentView, vocabulary: Vocabulary) -> Seq<char> {
    let head = file + "\n"@ + (match title_of(d.meta) {
        Some(t) => "  title: "@ + t + "\n"@,
        None => Seq::empty(),
    });
    if d.embed is None {
        head + "  (no embedded metadata)\n"@
    } else {
        let children = children_of(vocabulary, d.meta);
        let span = match vocabulary.spanning {
            Some(s) => "  "@ + s + " ("@ + digits(children.len()) + " children):\n"@ + item_lines(
                children,
            ),
            None => Seq::empty(),
        };
        head + span + overlays(
            vocabulary.relations,
            vocabulary.spanning,
            edges_of(vocabulary.relations, d.meta),
        )
    }
}

/// Some texts as an indented list, one per line.
fn list_text(items: &Vec<String>) -> (r: String)
    ensures
        r@ == item_lines(views(items@)),
{
    let ghost all = views(items@);
    let mut out = String::new();
    let mut i: usize = 0;
    assert(all.take(0) =~= Seq::empty());
    while i < items.len()
        invariant
            i <= items@.len(),
            all == views(items@),
            out@ == item_lines(all.take(i as int)),
        decreases items@.len() - i,
    {
        assert(all.take(i + 1).drop_last() =~= all.take(i as int));
        assert(all.take(i + 1).last() == items@[i as int]@);
        let ghost before = out@;
        out.append("    - ");
        out.append(items[i].as_str());
        out.append("\n");
        assert(out@ =~= before + ("    - "@ + items@[i as int]@ + "\n"@));
        i += 1;
    }
    assert(all.take(i as int) =~= all);
    out
}

/// The targets of the edges of one relation, in order.
fn targets_named(edges: &Vec<Edge>, name: &str) -> (r: Vec<String>)
    ensures
        views(r@) == targets_under(edges@.map_values(|e: Edge| e@), name@),
{
    let ghost all = edges@.map_values(|e: Edge| e@);
    let mut out: Vec<String> = Vec::new();
    let mut i: usize = 0;
    assert(all.take(0) =~= Seq::empty());
    assert(views(out@) =~= Seq::empty());
    while i < edges.len()
        invariant
            i <= edges@.len(),
            all == edges@.map_values(|e: Edge| e@),
            views(out@) == targets_under(all.take(i as int), name@),
        decreases edges@.len() - i,
    {
        assert(all[i as int] == edges@[i as int]@);
        assert(all.take(i + 1).drop_last() =~= all.take(i as int));
        assert(all.take(i + 1).last() == all[i as int]);
        let ghost before = views(out@);
        if same(edges[i].relation.as_str(), name) {
            out.push(edges[i].target.clone());
            assert(views(out@) =~= before.push(edges@[i as int].target@));
        }
        i += 1;
    }
    assert(all.take(i as int) =~= all);
    out
}

/// One relation that is not the spanning one.
fn overlay_text(relation: &Relation, set: &RelationSet, edges: &Vec<Edge>) -> (r: String)
    ensures
        r@ == overlay(relation@, set@.spanning, edges@.map_values(|e: Edge| e@)),
{
    let targets = targets_named(edges, relation.name.as_str());
    assert(views(targets@).len() == targets@.len());
    let spanning = match set.spanning_relation() {
        Some(s) => same(s, relation.name.as_str()),
        None => false,
    };
    if spanning || targets.len() == 0 {
        return String::new();
    }
    let mut out = "  ".to_owned();
    out.append(relation.name.as_str());
    out.append(":\n");
    out.append(list_text(&targets).as_str());
    out
}

/// The summary of a document: its title, its spanning children and its other links,
/// grouped in the vocabulary's declared order.
pub fn show(file: &str, doc: &Document, set: &RelationSet) -> (r: String)
    ensures
        r@ == summary(file@, doc@, set@),
{
    let mut out = file.to_owned();
    out.append("\n");
    let ghost first = out@;
    match doc.title() {
        Some(t) => {
            out.append("  title: ");
            out.append(t.as_str());
            out.append("\n");
            assert(out@ =~= first + ("  title: "@ + t@ + "\n"@));
        },
        None => {
            assert(out@ =~= first + Seq::<char>::empty());
        },
    }
    if !doc.has_meta() {
        out.append("  (no embedded metadata)\n");
        return out;
    }
    let ghost head = out@;
    let children = set.children(&doc.meta);
    assert(views(children@).len() == children@.len());
    let ghost mut span: Seq<char> = Seq::empty();
    match set.spanning_relation() {
        Some(s) => {
            let mut part = "  ".to_owned();
            part.append(s);
            part.append(" (");
            part.append(digits_of(children.len() as u64).as_str());
            part.append(" children):\n");
            part.append(list_text(&children).as_str());
            proof {
                span = part@;
            }
            out.append(part.as_str());
        },
        None => {
            assert(out@ =~= head + span);
        },
    }
    let edges = set.edges(&doc.meta);
    let ghost views_of = edges@.map_values(|e: Edge| e@);
    let ghost all = set@.relations;
    let mut i: usize = 0;
    assert(all.take(0) =~= Seq::empty());
    assert(out@ =~= head + span + overlays(all.take(0), set@.spanning, views_of));
    while i < set.relations.len()
        invariant
            i <= set.relations@.len(),
            all == set@.relations,
            views_of == edges@.map_values(|e: Edge| e@),
            out@ == head + span + overlays(all.take(i as int), set@.spanning, views_of),
        decreases set.relations@.len() - i,
    {
        assert(all[i as int] == set.relations@[i as int]@);
        assert(all.take(i + 1).drop_last() =~= all.take(i as int));
        assert(all.take(i + 1).last() == all[i as int]);
        out.append(overlay_text(&set.relations[i], set, &edges).as_str());
        i += 1;
        assert(out@ =~= head + span + overlays(all.take(i as int), set@.spanning, views_of));
    }
    assert(all.take(i as int) =~= all);
    out
}

/// The edges, one per line: the relation and the target, with a tab between; only those of
/// `wanted` where one is named.
pub open spec fn edge_lines(edges: Seq<EdgeView>, wanted: Option<Seq<char>>) -> Seq<char>
    decreases edges.len(),
{
    if edges.len() == 0 {
        Seq::empty()
    } else {
        let e = edges.last();
        let rest = edge_lines(edges.drop_last(), wanted);
        if wanted is None || wanted == Some(e.relation) {
            rest + (e.relation + "\t"@ + e.target + "\n"@)
        } else {
            rest
        }
    }
}

/// A document's links as `relation<TAB>target`, one per line.
pub fn links(doc: &Document, set: &RelationSet, wanted: Option<&str>) -> (r: String)
    ensures
        r@ == edge_lines(
            edges_of(set@.relations, doc@.meta),
            match wanted {
                Some(w) => Some(w@),
                None => None,
            },
        ),
{
    let ghost only = match wanted {
        Some(w) => Some(w@),
        None => None,
    };
    let edges = set.edges(&doc.meta);
    let ghost all = edges_of(set@.relations, doc@.meta);
    let mut out = String::new();
    let mut i: usize = 0;
    assert(all.take(0) =~= Seq::empty());
    while i < edges.len()
        invariant
            i <= edges@.len(),
            all == edges@.map_values(|e: Edge| e@),
            only == (match wanted {
                Some(w) => Some(w@),
                None => None,
            }),
            out@ == edge_lines(all.take(i as int), only),
        decreases edges@.len() - i,
    {
        assert(all[i as int] == edges@[i as int]@);
        assert(all.take(i + 1).drop_last() =~= all.take(i as int));
        assert(all.take(i + 1).last() == all[i as int]);
        let ghost before = out@;
        let keep = match wanted {
            Some(w) => same(w, edges[i].relation.as_str()),
            None => true,
        };
        if keep {
            out.append(edges[i].relation.as_str());
            out.append("\t");
            out.append(edges[i].target.as_str());
            out.append("\n");
            assert(out@ =~= before + (edges@[i as int].relation@ + "\t"@
                + edges@[i as int].target@ + "\n"@));
        }
        i += 1;
    }
    assert(all.len() == edges@.len());
    assert(all.take(i as int) =~= all);
    out
}

/// What is said of a document without metadata.
pub const NO_METADATA: &'static str = "document has no embedded metadata";

/// The format that a document's metadata is written in.
pub open spec fn own_format(d: DocumentView) -> Format {
    match d.embed {
        Some(kind) => format_of(kind),
        None => Format::Yaml,
    }
}

/// The format to print a document's metadata in: the one that is asked for, or else the
/// one the document uses.
pub fn print_format(doc: &Document, wanted: Option<Format>) -> (r: Format)
    ensures
        r == match wanted {
            Some(f) => f,
            None => own_format(doc@),
        },
{
    match wanted {
        Some(f) => f,
        None => match doc.embed {
            Some(kind) => kind.inner_format(),
            None => Format::Yaml,
        },
    }
}

/// The entries of a document's metadata, to be printed.
pub fn metadata(doc: &Document) -> (r: Result<&Vec<(String, MetaValue)>, WorkspaceError>)
    ensures
        match r {
            Ok(entries) => doc@.meta == Tree::Dict(dict(entries@)),
            Err(e) => !(doc@.meta is Dict) && e@ == Failure::Structure(NO_METADATA@),
        },
{
    match doc.meta.as_mapping() {
        Some(entries) => Ok(entries),
        None => Err(WorkspaceError::Structure(NO_METADATA.to_owned())),
    }
}

/// How a plain value is printed on a line of its own; other values are printed in the
/// document's format.
pub open spec fn plain_text(t: Tree) -> Option<Seq<char>> {
    match t {
        Tree::Null => Some("null"@),
        Tree::Bool(true) => Some("true"@),
        Tree::Bool(false) => Some("false"@),
        Tree::Int(n) => Some(decimal(n)),
        Tree::Text(s) => Some(s),
        _ => None,
    }
}

/// How a plain value is printed.
pub fn plain(v: &MetaValue) -> (r: Option<String>)
    ensures
        match r {
            Some(t) => plain_text(v@) == Some(t@),
            None => plain_text(v@) is None,
        },
{
    if v.is_null() {
        return Some("null".to_owned());
    }
    if let Some(s) = v.as_str() {
        return Some(s.to_owned());
    }
    if let Some(b) = v.as_bool() {
        return Some(
            if b {
                "true".to_owned()
            } else {
                "false".to_owned()
            },
        );
    }
    match v.as_int() {
        Some(n) => Some(decimal_of(n)),
        None => None,
    }
}

/// What is said when a document has nothing under a key.
pub open spec fn no_key(key: Seq<char>, file: Seq<char>) -> Seq<char> {
    "no `"@ + key + "` in "@ + file
}

/// What is said when a document has nothing under a key.
pub fn missing_key(key: &str, file: &str) -> (r: String)
    ensures
        r@ == no_key(key@, file@),
{
    let mut out = "no `".to_owned();
    out.append(key);
    out.append("` in ");
    out.append(file);
    out
}

/// The findings of a check, one per line, or word that there are none.
pub open spec fn check_lines(findings: Seq<FindingView>) -> Seq<char> {
    if findings.len() == 0 {
        "ok: no findings\n"@
    } else {
        finding_lines(findings)
    }
}

/// Findings, one per line.
pub open spec fn finding_lines(findings: Seq<FindingView>) -> Seq<char>
    decreases findings.len(),
{
    if findings.len() == 0 {
        Seq::empty()
    } else {
        finding_lines(findings.drop_last()) + (finding_text(findings.last()) + "\n"@)
    }
}

/// The findings of a check, one per line, or word that there are none.
pub fn check(findings: &Vec<Finding>) -> (r: String)
    ensures
        r@ == check_lines(finding_views(findings@)),
{
    let ghost all = finding_views(findings@);
    assert(all.len() == findings@.len());
    if findings.len() == 0 {
        return "ok: no findings\n".to_owned();
    }
    let mut out = String::new();
    let mut i: usize = 0;
    assert(all.take(0) =~= Seq::empty());
    while i < findings.len()
        invariant
            i <= findings@.len(),
            all == finding_views(findings@),
            out@ == finding_lines(all.take(i as int)),
        decreases findings@.len() - i,
    {
        assert(all.take(i + 1).drop_last() =~= all.take(i as int));
        assert(all.take(i + 1).last() == findings@[i as int]@);
        let ghost before = out@;
        out.append(findings[i].message().as_str());
        out.append("\n");
        assert(out@ =~= before + (finding_text(findings@[i as int]@) + "\n"@));
        i += 1;
    }
    assert(all.take(i as int) =~= all);
    out
}

/// How many findings there are.
pub fn tally(findings: &Vec<Finding>) -> (r: String)
    ensures
        r@ == digits(findings@.len()) + " finding(s)"@,
{
    let mut out = digits_of(findings.len() as u64);
    out.append(" finding(s)");
    out
}

/// What the registry says of an ID that a person typed.
#[derive(Debug, Clone, PartialEq, Eq)]
pub enum Resolution {
    /// The ID resolves to a path.
    Path(String),
    /// The ID is retired; the text says so.
    Tombstoned(String),
    /// The ID is not on record; the text says so.
    Unknown(String),
}

/// The ID in a text: the text without the scheme that marks a link by ID, if it has it.
pub open spec fn bare_id(t: Seq<char>) -> Seq<char> {
    if ID_SCHEME@.is_prefix_of(t) {
        t.skip(ID_SCHEME@.len() as int)
    } else {
        t
    }
}

/// Looks up an ID, with or without the scheme that marks a link by ID.
pub fn resolution(index: &FileIndex, text: &str) -> (r: Resolution)
    requires
        index.wf(),
    ensures
        ({
            let id = bare_id(text@);
            let reg = index.registry();
            match r {
                Resolution::Path(p) => reg.live.contains_key(id) && p@ == reg.live[id],
                Resolution::Tombstoned(m) => !reg.live.contains_key(id) && reg.known.contains(id)
                    && m@ == id + " is tombstoned — its document was deleted"@,
                Resolution::Unknown(m) => !reg.live.contains_key(id) && !reg.known.contains(id)
                    && m@ == id + " is not in this workspace's registry"@,
            }
        }),
{
    let id = match strip_prefix(text, ID_SCHEME) {
        Some(rest) => {
            assert(text@.skip(ID_SCHEME@.len() as int) =~= rest@);
            Id(rest)
        },
        None => Id(text.to_owned()),
    };
    match index.resolve(&id) {
        Some(path) => Resolution::Path(path),
        None => {
            let mut out = id.0.clone();
            if index.is_tombstoned(&id) {
                out.append(" is tombstoned — its document was deleted");
                Resolution::Tombstoned(out)
            } else {
                out.append(" is not in this workspace's registry");
                Resolution::Unknown(out)
            }
        },
    }
}

// ---- laws ----

/// The lines of a list: each text behind a dash, on a line of its own.
spec fn dashed(items: Seq<Seq<char>>) -> Seq<Seq<char>> {
    items.map_values(|t: Seq<char>| "    - "@ + t + "\n"@)
}

/// Law: a list has a line for each text, in order, and nothing else.
pub proof fn list_has_a_line_for_each(items: Seq<Seq<char>>)
    ensures
        item_lines(items) == items.map_values(|t: Seq<char>| "    - "@ + t + "\n"@).flatten(),
    decreases items.len(),
{
    dashed(items).lemma_flatten_and_flatten_alt_are_equivalent();
    if items.len() > 0 {
        list_has_a_line_for_each(items.drop_last());
        dashed(items.drop_last()).lemma_flatten_and_flatten_alt_are_equivalent();
        assert(dashed(items).drop_last() =~= dashed(items.drop_last()));
    }
}

/// Law: the targets told under a relation are those of its links, in order.
pub proof fn targets_are_those_of_the_relation(edges: Seq<EdgeView>, name: Seq<char>)
    ensures
        targets_under(edges, name) == edges.filter(
            |e: EdgeView| e.relation == name,
        ).map_values(|e: EdgeView| e.target),
    decreases edges.len(),
{
    reveal(Seq::filter);
    let own = |e: EdgeView| e.relation == name;
    let to = |e: EdgeView| e.target;
    if edges.len() > 0 {
        targets_are_those_of_the_relation(edges.drop_last(), name);
        let rest = edges.drop_last().filter(own);
        if edges.last().relation == name {
            assert(rest.push(edges.last()).map_values(to) =~= rest.map_values(to).push(
                edges.last().target,
            ));
        }
    }
    assert(targets_under(edges, name) =~= edges.filter(own).map_values(to));
}

/// Whether a relation is told apart from the spanning one: it has links, and is another.
pub open spec fn is_told(
    relation: RelationView,
    spanning: Option<Seq<char>>,
    edges: Seq<EdgeView>,
) -> bool {
    &&& spanning != Some(relation.name)
    &&& exists|i: int| 0 <= i < edges.len() && (#[trigger] edges[i]).relation == relation.name
}

/// Law: a relation that has links and is not the spanning one is told by its name and a list
/// of its targets, and any other is not told at all.
pub proof fn relation_is_told_with_its_links(
    relation: RelationView,
    spanning: Option<Seq<char>>,
    edges: Seq<EdgeView>,
)
    ensures
        !is_told(relation, spanning, edges) ==> overlay(relation, spanning, edges).len() == 0,
        is_told(relation, spanning, edges) ==> overlay(relation, spanning, edges) == "  "@
            + relation.name + ":\n"@ + edges.filter(
            |e: EdgeView| e.relation == relation.name,
        ).map_values(|e: EdgeView| "    - "@ + e.target + "\n"@).flatten(),
{
    let own = |e: EdgeView| e.relation == relation.name;
    targets_are_those_of_the_relation(edges, relation.name);
    let targets = targets_under(edges, relation.name);
    list_has_a_line_for_each(targets);
    assert(dashed(targets) =~= edges.filter(own).map_values(
        |e: EdgeView| "    - "@ + e.target + "\n"@,
    ));
    assert(dashed(targets) =~= targets.map_values(|t: Seq<char>| "    - "@ + t + "\n"@));
    if targets.len() > 0 {
        edges.lemma_filter_pred(own, 0);
        assert(edges.filter(own).contains(edges.filter(own)[0]));
        edges.lemma_filter_contains_rev(own, edges.filter(own)[0]);
    }
    if exists|i: int| 0 <= i < edges.len() && (#[trigger] edges[i]).relation == relation.name {
        let i = choose|i: int|
            0 <= i < edges.len() && (#[trigger] edges[i]).relation == relation.name;
        assert(own(edges[i]));
        edges.lemma_filter_contains(own, i);
    }
}

/// Law: the relations are told one after another, in the declared order.
pub proof fn relations_are_told_in_order(
    relations: Seq<RelationView>,
    spanning: Option<Seq<char>>,
    edges: Seq<EdgeView>,
)
    ensures
        overlays(relations, spanning, edges) == relations.map_values(
            |r: RelationView| overlay(r, spanning, edges),
        ).flatten(),
    decreases relations.len(),
{
    let told = |r: RelationView| overlay(r, spanning, edges);
    relations.map_values(told).lemma_flatten_and_flatten_alt_are_equivalent();
    if relations.len() > 0 {
        let front = relations.drop_last();
        relations_are_told_in_order(front, spanning, edges);
        front.map_values(told).lemma_flatten_and_flatten_alt_are_equivalent();
        assert(relations.map_values(told).drop_last() =~= front.map_values(told));
    }
}

/// Law: a summary begins with the file and its title, where it has one. Of a document without
/// metadata it says that, and of any other it counts and lists the spanning links, where a
/// relation spans, and ends with the other relations.
pub proof fn summary_tells_the_document(file: Seq<char>, d: DocumentView, vocabulary: Vocabulary)
    ensures
        ({
            let head = match field(d.meta, "title"@) {
                Some(Tree::Text(t)) => file + "\n"@ + "  title: "@ + t + "\n"@,
                _ => file + "\n"@,
            };
            let rest = overlays(
                vocabulary.relations,
                vocabulary.spanning,
                edges_of(vocabulary.relations, d.meta),
            );
            match (d.embed, vocabulary.spanning) {
                (None, _) => summary(file, d, vocabulary) == head + "  (no embedded metadata)\n"@,
                (Some(_), None) => summary(file, d, vocabulary) == head + rest,
                (Some(_), Some(s)) => summary(file, d, vocabulary) == head + "  "@ + s + " ("@
                    + digits(heard(d.meta, s).len()) + " children):\n"@ + heard(
                    d.meta,
                    s,
                ).map_values(|t: Seq<char>| "    - "@ + t + "\n"@).flatten() + rest,
            }
        }),
{
    match field(d.meta, "title"@) {
        Some(Tree::Text(t)) => {
            assert(file + "\n"@ + ("  title: "@ + t + "\n"@) =~= file + "\n"@ + "  title: "@ + t
                + "\n"@);
        },
        _ => {
            assert(file + "\n"@ + Seq::<char>::empty() =~= file + "\n"@);
        },
    }
    let head = file + "\n"@ + (match title_of(d.meta) {
        Some(t) => "  title: "@ + t + "\n"@,
        None => Seq::empty(),
    });
    let rest = overlays(
        vocabulary.relations,
        vocabulary.spanning,
        edges_of(vocabulary.relations, d.meta),
    );
    match vocabulary.spanning {
        Some(s) => {
            links_are_the_texts(d.meta, s);
            let said = heard(d.meta, s);
            list_has_a_line_for_each(said);
            let list = item_lines(said);
            assert(head + ("  "@ + s + " ("@ + digits(said.len()) + " children):\n"@ + list) + rest
                =~= head + "  "@ + s + " ("@ + digits(said.len()) + " children):\n"@ + list + rest);
        },
        None => {
            assert(head + Seq::<char>::empty() + rest =~= head + rest);
        },
    }
}

/// Law: a document's links are told one to a line, in order: all of them, or all those of the
/// relation that is asked for.
pub proof fn links_are_told_one_to_a_line(edges: Seq<EdgeView>, wanted: Option<Seq<char>>)
    ensures
        edge_lines(edges, wanted) == edges.filter(
            |e: EdgeView| wanted matches Some(w) ==> w == e.relation,
        ).map_values(|e: EdgeView| e.relation + "\t"@ + e.target + "\n"@).flatten(),
    decreases edges.len(),
{
    reveal(Seq::filter);
    let kept = |e: EdgeView| wanted matches Some(w) ==> w == e.relation;
    let line = |e: EdgeView| e.relation + "\t"@ + e.target + "\n"@;
    let lines = edges.filter(kept).map_values(line);
    lines.lemma_flatten_and_flatten_alt_are_equivalent();
    if edges.len() > 0 {
        let front = edges.drop_last();
        links_are_told_one_to_a_line(front, wanted);
        let before = front.filter(kept).map_values(line);
        before.lemma_flatten_and_flatten_alt_are_equivalent();
        if kept(edges.last()) {
            assert(lines.drop_last() =~= before);
        } else {
            assert(lines =~= before);
        }
    }
}

/// Law: a check tells its findings one to a line, in order, or that there are none.
pub proof fn findings_are_told_one_to_a_line(findings: Seq<FindingView>)
    ensures
        findings.len() > 0 ==> check_lines(findings) == findings.map_values(
            |f: FindingView| finding_text(f) + "\n"@,
        ).flatten(),
        findings.len() == 0 ==> check_lines(findings) == "ok: no findings\n"@,
{
    lemma_finding_lines(findings);
}

proof fn lemma_finding_lines(findings: Seq<FindingView>)
    ensures
        finding_lines(findings) == findings.map_values(
            |f: FindingView| finding_text(f) + "\n"@,
        ).flatten(),
    decreases findings.len(),
{
    let line = |f: FindingView| finding_text(f) + "\n"@;
    findings.map_values(line).lemma_flatten_and_flatten_alt_are_equivalent();
    if findings.len() > 0 {
        let front = findings.drop_last();
        lemma_finding_lines(front);
        front.map_values(line).lemma_flatten_and_flatten_alt_are_equivalent();
        assert(findings.map_values(line).drop_last() =~= front.map_values(line));
    }
}

/// Law: an ID is looked up the same with and without the scheme in front, and the scheme is
/// taken off once.
pub proof fn scheme_makes_no_difference(id: Seq<char>)
    ensures
        bare_id(ID_SCHEME@ + id) == id,
        !ID_SCHEME@.is_prefix_of(id) ==> bare_id(id) == id,
        bare_id(id) == id || ID_SCHEME@ + bare_id(id) == id,
{
    assert((ID_SCHEME@ + id).skip(ID_SCHEME@.len() as int) =~= id);
    if ID_SCHEME@.is_prefix_of(id) {
        assert(ID_SCHEME@ + bare_id(id) =~= id);
    }
}

/// Law: a plain value that is printed and typed again is the value that it was: texts as they
/// are, truth values by their words, numbers by their digits. Sequences, mappings and other
/// scalars are not plain.
pub proof fn plain_values_are_printed_as_typed(t: Tree)
    ensures
        plain_text(t) is Some <==> !(t is List || t is Dict || t is Scalar),
        t matches Tree::Text(s) ==> plain_text(t) == Some(s),
        t is Null || t is Bool ==> (plain_text(t) matches Some(s) ==> typed(s) == t),
        t matches Tree::Int(n) ==> plain_text(t) == Some(decimal(n)),
{
    reveal_strlit("null");
    reveal_strlit("true");
    reveal_strlit("false");
    assert("true"@.len() == 4 && "false"@.len() == 5 && "null"@[0] == 'n' && "true"@[0] == 't');
}

/// Law: metadata is printed in the format of its own block, and in YAML where it has none.
pub proof fn own_format_is_that_of_the_block(d: DocumentView)
    ensures
        match d.embed {
            Some(kind) => own_format(d) == format_of(kind),
            None => own_format(d) is Yaml,
        },
{
}

/// Law: what is said of a key that is not there names the key and the file.
pub proof fn missing_key_is_named(key: Seq<char>, file: Seq<char>)
    ensures
        no_key(key, file) == "no `"@ + key + "` in "@ + file,
{
}

} // verus!
