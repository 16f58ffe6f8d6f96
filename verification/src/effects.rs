//! What mutations do to a workspace, from the first question to the last write.
//!
//! The laws here are about the storage and the links in it: which documents are written when
//! one is created, moved or deleted, what is edited in each, and where its links lead then.
use vstd::prelude::*;

use crate::document::{document_in, embed_kind, DocumentView};
use crate::embed::{
    after, appending, edited, fresh, initiating, opening, outcome_of, rendering, Edit, EmbedKind, History, StepView,
};
use crate::error::{Failure, StorageErrorKind};
use crate::index::{empty_registry, Registry};
use crate::link::{
    dir_text, external_target, link_of, named_id, normalized, reaches, relative_resolves, relative_text, resolved,
};
use crate::meta::{field, texts, with_field, with_put, Tree};
use crate::mutate::{
    child_targets, children_relinked, creation_ops, deletion_ops, deletion_reads, entry_path,
    entry_position, extended_text, grown_list, items_of, leads, led_paths, lemma_edited,
    lemma_field_moved, lemma_position, lemma_put, lemma_replayed, lemma_rewrites_of_entries,
    lemma_with_entry, move_within_a_directory_leads_on, moved_text, moved_value, new_text,
    position_from, reads_as_path, relinked, removed_text, renaming_ops, replaced_text, replayed,
    retargeted_link, retargeted_link_leads, rewrites, same_dir,
    setting_the_grown_list_keeps_the_links, single_target_of, stem_of, with_all_replaced,
    LoadedView, OpView, Replacement,
};
use crate::operation::{
    answered, ask_of, first_phase, readable, with_children, AnswerView, AskView, PhaseView, TaskView,
};
use crate::path::{components, rooted};
use crate::relation::{children_of, links_under, RelationView, Vocabulary};
use crate::workspace::{target_of, TargetView};

verus! {

// ---- entries ----

/// The text at a position of a field. A text stands alone, and what is no text in a sequence
/// is passed over.
pub open spec fn said(v: Tree, j: int) -> Option<Seq<char>> {
    match v {
        Tree::Text(s) => if j == 0 {
            Some(s)
        } else {
            None
        },
        Tree::List(items) => if 0 <= j < items.len() {
            match items[j] {
                Tree::Text(s) => Some(s),
                _ => None,
            }
        } else {
            None
        },
        _ => None,
    }
}

/// Whether the metadata of the document at `doc` says `raw` at the position `j` under `key`.
pub open spec fn says(meta: Tree, key: Seq<char>, j: int, raw: Seq<char>) -> bool {
    field(meta, key) matches Some(v) && said(v, j) == Some(raw)
}

/// Whether a link text in the document at `doc` leads to `wanted`.
pub open spec fn goes(r: Registry, doc: Seq<char>, raw: Seq<char>, wanted: Seq<char>) -> bool {
    target_of(r, doc, link_of(raw)) == TargetView::Path(wanted)
}

/// Whether the link `raw` at the position `j` under `key` is the first there that leads to
/// `wanted`.
pub open spec fn first_to(
    r: Registry,
    doc: Seq<char>,
    meta: Tree,
    key: Seq<char>,
    wanted: Seq<char>,
    j: int,
    raw: Seq<char>,
) -> bool {
    &&& says(meta, key, j, raw)
    &&& goes(r, doc, raw, wanted)
    &&& forall|k: int, other: Seq<char>|
        0 <= k < j && #[trigger] says(meta, key, k, other) ==> !goes(r, doc, other, wanted)
}

/// Where the entry at a position under `key` stands in metadata.
pub open spec fn place_in(meta: Tree, key: Seq<char>, j: int) -> Seq<StepView> {
    if field(meta, key) matches Some(Tree::List(_)) {
        seq![StepView::Key(key), StepView::Index(j)]
    } else {
        seq![StepView::Key(key)]
    }
}

proof fn lemma_said(v: Tree, j: int)
    ensures
        0 <= j < items_of(v).len() ==> items_of(v)[j] == said(v, j),
        said(v, j) is Some ==> 0 <= j < items_of(v).len(),
{
}

/// The first item that leads somewhere, from a position on, and nothing before it does.
proof fn lemma_first(
    r: Registry,
    doc: Seq<char>,
    items: Seq<Option<Seq<char>>>,
    wanted: Seq<char>,
    n: nat,
    j: int,
)
    requires
        n <= j < items.len(),
        leads(r, doc, items[j], wanted),
        forall|k: int| n <= k < j ==> !leads(r, doc, #[trigger] items[k], wanted),
    ensures
        position_from(r, doc, items, wanted, n) == Some(j),
    decreases j - n,
{
    if n < j {
        assert(!leads(r, doc, items[n as int], wanted));
        lemma_first(r, doc, items, wanted, n + 1, j);
    }
}

proof fn lemma_none_before(
    r: Registry,
    doc: Seq<char>,
    items: Seq<Option<Seq<char>>>,
    wanted: Seq<char>,
    n: nat,
    k: int,
)
    requires
        n <= k < items.len(),
        position_from(r, doc, items, wanted, n) matches Some(i) ==> k < i,
    ensures
        !leads(r, doc, items[k], wanted),
    decreases k - n,
{
    if !leads(r, doc, items[n as int], wanted) && n < k {
        lemma_none_before(r, doc, items, wanted, n + 1, k);
    }
}

/// Law: the entry that an edit is about is the first under its key that leads where it should,
/// and there is none just where no link there does.
pub proof fn entry_is_the_first_that_leads(
    r: Registry,
    meta: Tree,
    key: Seq<char>,
    doc: Seq<char>,
    wanted: Seq<char>,
)
    ensures
        forall|j: int, raw: Seq<char>| #[trigger]
            first_to(r, doc, meta, key, wanted, j, raw) ==> entry_position(
                r,
                meta,
                key,
                doc,
                wanted,
            ) == Some(j),
        match entry_position(r, meta, key, doc, wanted) {
            Some(j) => exists|raw: Seq<char>| #[trigger]
                first_to(r, doc, meta, key, wanted, j, raw),
            None => forall|j: int, raw: Seq<char>| #[trigger]
                says(meta, key, j, raw) ==> !goes(r, doc, raw, wanted),
        },
{
    if let Some(v) = field(meta, key) {
        let items = items_of(v);
        assert forall|j: int, raw: Seq<char>| #[trigger]
            first_to(r, doc, meta, key, wanted, j, raw) implies entry_position(
            r,
            meta,
            key,
            doc,
            wanted,
        ) == Some(j) by {
            lemma_said(v, j);
            assert forall|k: int| 0 <= k < j implies !leads(r, doc, #[trigger] items[k], wanted) by {
                lemma_said(v, k);
                if let Some(other) = items[k] {
                    assert(says(meta, key, k, other));
                }
            }
            lemma_first(r, doc, items, wanted, 0, j);
        }
        match entry_position(r, meta, key, doc, wanted) {
            Some(j) => {
                lemma_position(r, doc, items, wanted, 0);
                lemma_said(v, j);
                let raw = items[j]->Some_0;
                assert forall|k: int, other: Seq<char>|
                    0 <= k < j && #[trigger] says(meta, key, k, other) implies !goes(
                    r,
                    doc,
                    other,
                    wanted,
                ) by {
                    lemma_said(v, k);
                    lemma_none_before(r, doc, items, wanted, 0, k);
                }
                assert(first_to(r, doc, meta, key, wanted, j, raw));
            },
            None => {
                assert forall|j: int, raw: Seq<char>| #[trigger]
                    says(meta, key, j, raw) implies !goes(r, doc, raw, wanted) by {
                    lemma_said(v, j);
                    lemma_none_before(r, doc, items, wanted, 0, j);
                }
            },
        }
    }
}

// ---- relinking ----

/// Whether a link written into the document at `doc` under a label can lead to `to`: both are
/// clean paths, one is in reach of the other, and the text is not read as another kind of link.
pub open spec fn can_lead(doc: Seq<char>, label: Option<Seq<char>>, to: Seq<char>) -> bool {
    &&& normalized(doc) == doc
    &&& normalized(to) == to
    &&& reaches(doc, to)
    &&& reads_as_path(label, relative_text(dir_text(doc), to))
}

/// Whether `now` is `was` made to lead to `to`, whatever a registry says: the label is kept.
pub open spec fn leads_anew(doc: Seq<char>, was: Seq<char>, now: Seq<char>, to: Seq<char>) -> bool {
    can_lead(doc, link_of(was).label, to) ==> {
        &&& link_of(now).label == link_of(was).label
        &&& forall|later: Registry| #[trigger] goes(later, doc, now, to)
    }
}

/// Whether `out` is the text of `doc` with the entry `raw` at `j` under `key` made to lead to
/// `to`, and nothing else asked for.
pub open spec fn entry_led(
    doc: LoadedView,
    d: DocumentView,
    key: Seq<char>,
    j: int,
    raw: Seq<char>,
    to: Seq<char>,
    out: Seq<char>,
) -> bool {
    exists|now: Seq<char>| #[trigger]
        leads_anew(doc.path, raw, now, to) && rendering(
            after(
                fresh(doc.text, embed_kind(d), false),
                Edit::Replace(place_in(d.meta, key, j), Tree::Text(now)),
            ),
        ) == Ok::<Seq<char>, Seq<char>>(out)
}

/// Whether a document has an entry to be changed when `from` moves: its first link under
/// `key` that leads there, unless that is a link by ID.
pub open spec fn to_relink(
    r: Registry,
    doc: LoadedView,
    key: Seq<char>,
    from: Seq<char>,
    j: int,
    raw: Seq<char>,
) -> bool {
    &&& document_in(doc.text) matches Ok(d)
    &&& first_to(r, doc.path, d.meta, key, from, j, raw)
    &&& named_id(link_of(raw).target) is None
}

/// Whether an operation writes a document with its entry for `from` made to lead to `to`.
pub open spec fn relinks(
    r: Registry,
    doc: LoadedView,
    key: Seq<char>,
    from: Seq<char>,
    to: Seq<char>,
    op: OpView,
) -> bool {
    exists|j: int, raw: Seq<char>| #[trigger]
        to_relink(r, doc, key, from, j, raw) && match op {
            OpView::Write(path, out) => path == doc.path && entry_led(
                doc,
                document_in(doc.text)->Ok_0,
                key,
                j,
                raw,
                to,
                out,
            ),
            _ => false,
        }
}

/// Whether a document has an entry to be changed when `from` moves.
pub open spec fn wants_relink(r: Registry, doc: LoadedView, key: Seq<char>, from: Seq<char>) -> bool {
    exists|j: int, raw: Seq<char>| #[trigger] to_relink(r, doc, key, from, j, raw)
}

/// Whether one of `ops` writes a document with its entry for `from` made to lead to `to`.
pub open spec fn written_anew(
    r: Registry,
    doc: LoadedView,
    key: Seq<char>,
    from: Seq<char>,
    to: Seq<char>,
    ops: Seq<OpView>,
) -> bool {
    exists|k: int| 0 <= k < ops.len() && relinks(r, doc, key, from, to, #[trigger] ops[k])
}

/// Whether `op` writes one of `docs` with its entry for `from` made to lead to `to`.
pub open spec fn relinks_one(
    r: Registry,
    docs: Seq<LoadedView>,
    key: Seq<char>,
    from: Seq<char>,
    to: Seq<char>,
    op: OpView,
) -> bool {
    exists|i: int| 0 <= i < docs.len() && relinks(r, #[trigger] docs[i], key, from, to, op)
}

/// Law: a document around one that moves is written once, with its entry for the old path made
/// to lead to the new one, or not at all where it has no such entry.
pub proof fn neighbour_is_relinked(
    r: Registry,
    key: Seq<char>,
    from: Seq<char>,
    to: Seq<char>,
    doc: LoadedView,
)
    ensures
        relinked(r, key, from, to, doc) matches Ok(ops) ==> if wants_relink(r, doc, key, from) {
            ops.len() == 1 && relinks(r, doc, key, from, to, ops[0])
        } else {
            ops.len() == 0
        },
{
    if let Ok(d) = document_in(doc.text) {
        entry_is_the_first_that_leads(r, d.meta, key, doc.path, from);
        match entry_position(r, d.meta, key, doc.path, from) {
            Some(i) => {
                let raw = choose|raw: Seq<char>| #[trigger]
                    first_to(r, doc.path, d.meta, key, from, i, raw);
                assert(first_to(r, doc.path, d.meta, key, from, i, raw));
                let v = field(d.meta, key)->Some_0;
                lemma_said(v, i);
                if named_id(link_of(raw).target) is None {
                    assert(to_relink(r, doc, key, from, i, raw));
                    let now = retargeted_link(doc.path, raw, to);
                    let edit = Replacement { path: entry_path(v, key, i), text: now };
                    assert(edit.path == place_in(d.meta, key, i));
                    let start = fresh(doc.text, embed_kind(d), false);
                    assert(seq![edit].drop_last() =~= Seq::empty());
                    assert(seq![edit].last() == edit);
                    assert(replayed(start, seq![edit].drop_last()) == Ok::<History, Seq<char>>(
                        start,
                    ));
                    if can_lead(doc.path, link_of(raw).label, to) {
                        assert forall|later: Registry| #[trigger] goes(later, doc.path, now, to) by {
                            retargeted_link_leads(later, doc.path, raw, to);
                        }
                        retargeted_link_leads(r, doc.path, raw, to);
                    }
                    assert(leads_anew(doc.path, raw, now, to));
                } else {
                    assert forall|j: int, other: Seq<char>| !(#[trigger] to_relink(
                        r,
                        doc,
                        key,
                        from,
                        j,
                        other,
                    )) by {
                        if to_relink(r, doc, key, from, j, other) {
                            assert(first_to(r, doc.path, d.meta, key, from, j, other));
                        }
                    }
                }
            },
            None => {
                assert forall|j: int, other: Seq<char>| !(#[trigger] to_relink(
                    r,
                    doc,
                    key,
                    from,
                    j,
                    other,
                )) by {
                    if to_relink(r, doc, key, from, j, other) {
                        assert(says(d.meta, key, j, other));
                    }
                }
            },
        }
    }
}

/// The path that an operation writes to.
pub open spec fn written_to(op: OpView) -> Option<Seq<char>> {
    match op {
        OpView::Write(path, _) => Some(path),
        _ => None,
    }
}

proof fn lemma_written_to(
    r: Registry,
    doc: LoadedView,
    key: Seq<char>,
    from: Seq<char>,
    to: Seq<char>,
    op: OpView,
)
    requires
        relinks(r, doc, key, from, to, op),
    ensures
        written_to(op) == Some(doc.path),
{
}

/// What one more child adds to the writes for the others.
proof fn lemma_one_more_child(
    r: Registry,
    key: Seq<char>,
    from: Seq<char>,
    to: Seq<char>,
    children: Seq<LoadedView>,
)
    requires
        children.len() > 0,
        children_relinked(r, key, from, to, children) is Ok,
    ensures
        ({
            let ops = children_relinked(r, key, from, to, children)->Ok_0;
            let last = children.last();
            &&& children_relinked(r, key, from, to, children.drop_last()) matches Ok(rest)
            &&& if wants_relink(r, last, key, from) {
                exists|op: OpView| ops == rest.push(op) && #[trigger] relinks(
                    r,
                    last,
                    key,
                    from,
                    to,
                    op,
                )
            } else {
                ops == rest
            }
        }),
{
    let ops = children_relinked(r, key, from, to, children)->Ok_0;
    let last = children.last();
    let rest = children_relinked(r, key, from, to, children.drop_last())->Ok_0;
    neighbour_is_relinked(r, key, from, to, last);
    if document_in(last.text) is Ok {
        let more = relinked(r, key, from, to, last)->Ok_0;
        if wants_relink(r, last, key, from) {
            assert(ops =~= rest.push(more[0]));
        } else {
            assert(ops =~= rest);
        }
    }
}

/// Law: every child of a document that moves is relinked, whatever becomes of the others. Each
/// child that has an entry for the old path is written with that entry leading to the new one,
/// nothing else is written, and no child is written twice.
pub proof fn every_child_is_relinked(
    r: Registry,
    key: Seq<char>,
    from: Seq<char>,
    to: Seq<char>,
    children: Seq<LoadedView>,
)
    ensures
        children_relinked(r, key, from, to, children) matches Ok(ops) ==> {
            &&& forall|i: int|
                0 <= i < children.len() && wants_relink(r, #[trigger] children[i], key, from)
                    ==> written_anew(r, children[i], key, from, to, ops)
            &&& forall|k: int|
                0 <= k < ops.len() ==> relinks_one(r, children, key, from, to, #[trigger] ops[k])
            &&& apart(children) ==> forall|a: int, b: int|
                0 <= a < b < ops.len() ==> written_to(#[trigger] ops[a]) != written_to(
                    #[trigger] ops[b],
                )
        },
    decreases children.len(),
{
    if children.len() > 0 && children_relinked(r, key, from, to, children) is Ok {
        let ops = children_relinked(r, key, from, to, children)->Ok_0;
        let front = children.drop_last();
        let last = children.last();
        lemma_one_more_child(r, key, from, to, children);
        every_child_is_relinked(r, key, from, to, front);
        let rest = children_relinked(r, key, from, to, front)->Ok_0;
        assert(forall|k: int| 0 <= k < rest.len() ==> #[trigger] ops[k] == rest[k]);
        assert forall|i: int|
            0 <= i < children.len() && wants_relink(
                r,
                #[trigger] children[i],
                key,
                from,
            ) implies written_anew(r, children[i], key, from, to, ops) by {
            if i < front.len() {
                assert(front[i] == children[i]);
                let k = choose|k: int|
                    0 <= k < rest.len() && relinks(r, front[i], key, from, to, #[trigger] rest[k]);
                assert(ops[k] == rest[k]);
            } else {
                assert(relinks(r, last, key, from, to, ops[rest.len() as int]));
            }
        }
        assert forall|k: int| 0 <= k < ops.len() implies relinks_one(
            r,
            children,
            key,
            from,
            to,
            #[trigger] ops[k],
        ) by {
            if k < rest.len() {
                assert(relinks_one(r, front, key, from, to, rest[k]));
                let i = choose|i: int|
                    0 <= i < front.len() && relinks(
                        r,
                        #[trigger] front[i],
                        key,
                        from,
                        to,
                        rest[k],
                    );
                assert(children[i] == front[i]);
            } else {
                assert(relinks(r, children[children.len() - 1], key, from, to, ops[k]));
            }
        }
        if apart(children) {
            assert(apart(front)) by {
                assert forall|a: int, b: int| 0 <= a < b < front.len() implies (
                #[trigger] front[a]).path != (#[trigger] front[b]).path by {
                    assert(children[a] == front[a] && children[b] == front[b]);
                }
            }
            assert forall|a: int, b: int| 0 <= a < b < ops.len() implies written_to(
                #[trigger] ops[a],
            ) != written_to(#[trigger] ops[b]) by {
                if b >= rest.len() {
                    assert(relinks_one(r, front, key, from, to, rest[a]));
                    let i = choose|i: int|
                        0 <= i < front.len() && relinks(
                            r,
                            #[trigger] front[i],
                            key,
                            from,
                            to,
                            rest[a],
                        );
                    lemma_written_to(r, front[i], key, from, to, rest[a]);
                    lemma_written_to(r, last, key, from, to, ops[b]);
                    assert(children[i] == front[i]);
                    assert(children[children.len() - 1] == last);
                }
            }
        }
    }
}

/// Whether documents are at paths of their own.
pub open spec fn apart(docs: Seq<LoadedView>) -> bool {
    forall|a: int, b: int|
        0 <= a < b < docs.len() ==> (#[trigger] docs[a]).path != (#[trigger] docs[b]).path
}

// ---- moving ----

/// Whether a link text may need a change when its document moves: it leads neither out of the
/// workspace nor by ID nor to a rooted path.
pub open spec fn moves_along(raw: Seq<char>) -> bool {
    let target = link_of(raw).target;
    !external_target(target) && named_id(target) is None && !rooted(components(target))
}

/// Whether the link text `now` in a document at `to` is what `was` was in it at `from`: it
/// leads to the same place under the same label, whatever a registry says, and is unchanged
/// where it does not depend on the place.
pub open spec fn kept_leading(from: Seq<char>, to: Seq<char>, was: Seq<char>, now: Seq<char>) -> bool {
    let link = link_of(was);
    if moves_along(was) {
        let place = resolved(from, link.target);
        can_lead(to, link.label, place) ==> {
            &&& link_of(now).label == link.label
            &&& forall|later: Registry| #[trigger] goes(later, to, now, place)
        }
    } else {
        now == was
    }
}

/// Whether a value is one of a document that moved: a text keeps leading, and anything else is
/// as it was.
pub open spec fn value_kept(from: Seq<char>, to: Seq<char>, was: Tree, now: Tree) -> bool {
    match was {
        Tree::Text(raw) => now matches Tree::Text(text) && kept_leading(from, to, raw, text),
        _ => now == was,
    }
}

/// Whether a field is one of a document that moved: every item of a sequence keeps its
/// position.
pub open spec fn field_kept(from: Seq<char>, to: Seq<char>, was: Option<Tree>, now: Option<Tree>) -> bool {
    match was {
        None => now is None,
        Some(Tree::List(items)) => now matches Some(Tree::List(new)) && new.len() == items.len()
            && forall|i: int|
            0 <= i < items.len() ==> value_kept(from, to, items[i], #[trigger] new[i]),
        Some(v) => now matches Some(new) && value_kept(from, to, v, new),
    }
}

/// Whether `meta` is the metadata `was` of a document that moved: every field of a relation
/// keeps leading, and every other field is as it was.
pub open spec fn all_kept(
    relations: Seq<RelationView>,
    from: Seq<char>,
    to: Seq<char>,
    was: Tree,
    meta: Tree,
) -> bool {
    forall|key: Seq<char>|
        if exists|k: int| 0 <= k < relations.len() && relations[k].name == key {
            field_kept(from, to, field(was, key), field(meta, key))
        } else {
            #[trigger] field(meta, key) == field(was, key)
        }
}

/// Whether `out` is the text of a document with edits that leave its metadata as `meta`, and
/// the text itself where there is nothing to edit.
pub open spec fn edited_into(
    text: Seq<char>,
    d: DocumentView,
    h: History,
    meta: Tree,
    out: Seq<char>,
) -> bool {
    &&& h.host == text
    &&& h.kind == embed_kind(d)
    &&& edited(d.meta, h) == Some(meta)
    &&& rendering(h) == Ok::<Seq<char>, Seq<char>>(out) || (h.edits.len() == 0 && out == text)
}

/// Whether `op` writes a document that moved to `to` with every link in it leading where it
/// led.
pub open spec fn rewrites_moved(
    relations: Seq<RelationView>,
    from: LoadedView,
    to: Seq<char>,
    op: OpView,
) -> bool {
    exists|d: DocumentView, h: History, meta: Tree, out: Seq<char>|
        document_in(from.text) == Ok::<DocumentView, Failure>(d) && op == OpView::Write(to, out)
            && #[trigger] edited_into(from.text, d, h, meta, out) && all_kept(
            relations,
            from.path,
            to,
            d.meta,
            meta,
        )
}

/// Whether `ops` move a document: the directory is made, the file moved and rewritten with
/// every link in it leading where it led, and then each document around it that has an entry
/// for the old path is written with that entry leading to the new one, and no other.
pub open spec fn moves(
    r: Registry,
    relations: Seq<RelationView>,
    spanning: Seq<char>,
    inverse: Seq<char>,
    from: LoadedView,
    to: Seq<char>,
    parent: Option<LoadedView>,
    children: Seq<LoadedView>,
    ops: Seq<OpView>,
) -> bool {
    &&& ops.len() >= 3
    &&& ops[0] == OpView::CreateDirAll(dir_text(to))
    &&& ops[1] == OpView::Rename(from.path, to)
    &&& rewrites_moved(relations, from, to, ops[2])
    &&& parent matches Some(p) ==> wants_relink(r, p, spanning, from.path) ==> written_anew(
        r,
        p,
        spanning,
        from.path,
        to,
        ops.skip(3),
    )
    &&& forall|i: int|
        0 <= i < children.len() && wants_relink(r, #[trigger] children[i], inverse, from.path)
            ==> written_anew(r, children[i], inverse, from.path, to, ops.skip(3))
    &&& forall|k: int|
        3 <= k < ops.len() ==> around(
            r,
            spanning,
            inverse,
            from.path,
            to,
            parent,
            children,
            #[trigger] ops[k],
        )
}

/// Whether an operation relinks the parent of a document that moves, or one of its children.
pub open spec fn around(
    r: Registry,
    spanning: Seq<char>,
    inverse: Seq<char>,
    from: Seq<char>,
    to: Seq<char>,
    parent: Option<LoadedView>,
    children: Seq<LoadedView>,
    op: OpView,
) -> bool {
    ||| parent matches Some(p) && relinks(r, p, spanning, from, to, op)
    ||| relinks_one(r, children, inverse, from, to, op)
}

proof fn lemma_moved_value(from: Seq<char>, to: Seq<char>, v: Tree)
    ensures
        value_kept(from, to, v, moved_value(v, from, to)),
{
    if let Tree::Text(raw) = v {
        let link = link_of(raw);
        if moves_along(raw) {
            let place = resolved(from, link.target);
            let now = retargeted_link(to, raw, place);
            if can_lead(to, link.label, place) {
                assert forall|later: Registry| #[trigger] goes(later, to, now, place) by {
                    retargeted_link_leads(later, to, raw, place);
                }
                retargeted_link_leads(empty_registry(), to, raw, place);
            }
        }
    }
}

proof fn lemma_same_dir_kept(from: Seq<char>, to: Seq<char>, v: Tree)
    requires
        same_dir(from, to),
    ensures
        value_kept(from, to, v, v),
{
    if let Tree::Text(raw) = v {
        let link = link_of(raw);
        if moves_along(raw) {
            assert forall|later: Registry| #[trigger]
                goes(later, to, raw, resolved(from, link.target)) by {
                move_within_a_directory_leads_on(later, link, from, to);
            }
        }
    }
}

/// The text that a document that moves is rewritten with.
proof fn lemma_moved_text(
    relations: Seq<RelationView>,
    from: Seq<char>,
    to: Seq<char>,
    text: Seq<char>,
    d: DocumentView,
) -> (w: (History, Tree))
    requires
        moved_text(relations, from, to, text, d) is Ok,
    ensures
        edited_into(text, d, w.0, w.1, moved_text(relations, from, to, text, d)->Ok_0),
        all_kept(relations, from, to, d.meta, w.1),
{
    let start = fresh(text, embed_kind(d), false);
    if same_dir(from, to) {
        assert forall|key: Seq<char>|
            if exists|k: int| 0 <= k < relations.len() && relations[k].name == key {
                field_kept(from, to, field(d.meta, key), field(d.meta, key))
            } else {
                #[trigger] field(d.meta, key) == field(d.meta, key)
            } by {
            if let Some(v) = field(d.meta, key) {
                lemma_same_dir_kept(from, to, v);
                if let Tree::List(items) = v {
                    assert forall|i: int| 0 <= i < items.len() implies value_kept(
                        from,
                        to,
                        items[i],
                        #[trigger] items[i],
                    ) by {
                        lemma_same_dir_kept(from, to, items[i]);
                    }
                }
            }
        }
        (start, d.meta)
    } else {
        let all = rewrites(relations, d.meta, from, to);
        let meta = with_all_replaced(d.meta, all);
        lemma_rewrites_of_entries(relations, d.meta, from, to);
        lemma_replayed(d.meta, start, all);
        assert forall|key: Seq<char>|
            if exists|k: int| 0 <= k < relations.len() && relations[k].name == key {
                field_kept(from, to, field(d.meta, key), field(meta, key))
            } else {
                #[trigger] field(meta, key) == field(d.meta, key)
            } by {
            lemma_field_moved(relations, d.meta, key, from, to);
            if let Some(v) = field(d.meta, key) {
                lemma_moved_value(from, to, v);
                if let Tree::List(items) = v {
                    assert forall|i: int| 0 <= i < items.len() implies value_kept(
                        from,
                        to,
                        items[i],
                        #[trigger] moved_value(items[i], from, to),
                    ) by {
                        lemma_moved_value(from, to, items[i]);
                    }
                }
            }
        }
        (replayed(start, all)->Ok_0, meta)
    }
}

proof fn lemma_written_behind(
    r: Registry,
    doc: LoadedView,
    key: Seq<char>,
    from: Seq<char>,
    to: Seq<char>,
    a: Seq<OpView>,
    b: Seq<OpView>,
    c: Seq<OpView>,
)
    requires
        written_anew(r, doc, key, from, to, b),
    ensures
        written_anew(r, doc, key, from, to, a + b + c),
{
    let k = choose|k: int|
        0 <= k < b.len() && relinks(r, doc, key, from, to, #[trigger] b[k]);
    assert((a + b + c)[a.len() + k] == b[k]);
}

/// Law: the plan of a move moves the document and keeps every affected link right: its own,
/// its parent's entry for it, and the link back of each of its children.
pub proof fn move_keeps_every_link_right(
    r: Registry,
    relations: Seq<RelationView>,
    spanning: Seq<char>,
    inverse: Seq<char>,
    from: LoadedView,
    to: Seq<char>,
    parent: Option<LoadedView>,
    children: Seq<LoadedView>,
)
    ensures
        renaming_ops(r, relations, spanning, inverse, from, to, parent, children) matches Ok(ops)
            ==> moves(r, relations, spanning, inverse, from, to, parent, children, ops),
{
    if let Ok(ops) = renaming_ops(r, relations, spanning, inverse, from, to, parent, children) {
        let d = document_in(from.text)->Ok_0;
        let none = Seq::<OpView>::empty();
        let up = match parent {
            Some(p) => relinked(r, spanning, from.path, to, p)->Ok_0,
            None => none,
        };
        let down = children_relinked(r, inverse, from.path, to, children)->Ok_0;
        let out = moved_text(relations, from.path, to, from.text, d)->Ok_0;
        let head = seq![
            OpView::CreateDirAll(dir_text(to)),
            OpView::Rename(from.path, to),
            OpView::Write(to, out),
        ];
        assert(ops == head + up + down);
        assert(ops.skip(3) =~= up + down);
        assert(ops.skip(3) =~= none + up + down);
        assert(ops.skip(3) =~= up + down + none);
        let (h, meta) = lemma_moved_text(relations, from.path, to, from.text, d);
        assert(edited_into(from.text, d, h, meta, out));
        assert(rewrites_moved(relations, from, to, ops[2]));
        every_child_is_relinked(r, inverse, from.path, to, children);
        if let Some(p) = parent {
            neighbour_is_relinked(r, spanning, from.path, to, p);
            if wants_relink(r, p, spanning, from.path) {
                assert(relinks(r, p, spanning, from.path, to, up[0]));
                lemma_written_behind(r, p, spanning, from.path, to, none, up, down);
            }
        }
        assert forall|i: int|
            0 <= i < children.len() && wants_relink(
                r,
                #[trigger] children[i],
                inverse,
                from.path,
            ) implies written_anew(r, children[i], inverse, from.path, to, ops.skip(3)) by {
            lemma_written_behind(r, children[i], inverse, from.path, to, up, down, none);
        }
        assert forall|k: int| 3 <= k < ops.len() implies around(
            r,
            spanning,
            inverse,
            from.path,
            to,
            parent,
            children,
            #[trigger] ops[k],
        ) by {
            if k < 3 + up.len() {
                assert(ops[k] == up[k - 3]);
            } else {
                assert(ops[k] == down[k - 3 - up.len()]);
            }
        }
    }
}

// ---- links ----

/// The texts that a field says, in order.
pub open spec fn heard(meta: Tree, key: Seq<char>) -> Seq<Seq<char>> {
    match field(meta, key) {
        Some(Tree::Text(s)) => seq![s],
        Some(Tree::List(items)) => items.filter(|t: Tree| t is Text).map_values(
            |t: Tree| t->Text_0,
        ),
        _ => Seq::empty(),
    }
}

/// Whether `raw` is one of the texts under `key`.
pub open spec fn is_said(meta: Tree, key: Seq<char>, raw: Seq<char>) -> bool {
    exists|j: int| #[trigger] says(meta, key, j, raw)
}

/// Whether `raw` is the first text under `key`.
pub open spec fn first_said(meta: Tree, key: Seq<char>, raw: Seq<char>) -> bool {
    exists|j: int| #[trigger]
        says(meta, key, j, raw) && forall|k: int, other: Seq<char>|
            0 <= k < j ==> !#[trigger] says(meta, key, k, other)
}

proof fn lemma_texts(items: Seq<Tree>)
    ensures
        texts(items) == items.filter(|t: Tree| t is Text).map_values(|t: Tree| t->Text_0),
        forall|j: int|
            0 <= j < items.len() && (#[trigger] items[j]) is Text ==> texts(items).contains(
                items[j]->Text_0,
            ),
        forall|n: int|
            0 <= n < texts(items).len() ==> exists|j: int|
                0 <= j < items.len() && #[trigger] items[j] == Tree::Text(
                    #[trigger] texts(items)[n],
                ),
        texts(items).len() > 0 ==> exists|j: int|
            0 <= j < items.len() && #[trigger] items[j] == Tree::Text(texts(items)[0]) && forall|
                k: int,
            |
                0 <= k < j ==> !((#[trigger] items[k]) is Text),
    decreases items.len(),
{
    reveal(Seq::filter);
    let test = |t: Tree| t is Text;
    let pick = |t: Tree| t->Text_0;
    if items.len() > 0 {
        let front = items.drop_last();
        let before = texts(front);
        let all = texts(items);
        lemma_texts(front);
        assert(all =~= items.filter(test).map_values(pick));
        assert forall|j: int| 0 <= j < items.len() && (#[trigger] items[j]) is Text implies all
            .contains(items[j]->Text_0) by {
            if j < front.len() {
                assert(front[j] == items[j]);
                let n = choose|n: int| 0 <= n < before.len() && before[n] == front[j]->Text_0;
                assert(all[n] == before[n]);
            } else {
                assert(all[all.len() - 1] == items[j]->Text_0);
            }
        }
        assert forall|n: int| 0 <= n < all.len() implies exists|j: int|
            0 <= j < items.len() && #[trigger] items[j] == Tree::Text(#[trigger] all[n]) by {
            if n < before.len() {
                assert(all[n] == before[n]);
                let j = choose|j: int|
                    0 <= j < front.len() && #[trigger] front[j] == Tree::Text(before[n]);
                assert(items[j] == front[j]);
            } else {
                assert(items[items.len() - 1] == Tree::Text(all[n]));
            }
        }
        if all.len() > 0 {
            if before.len() > 0 {
                let j = choose|j: int|
                    0 <= j < front.len() && #[trigger] front[j] == Tree::Text(before[0])
                        && forall|k: int| 0 <= k < j ==> !((#[trigger] front[k]) is Text);
                assert(items[j] == front[j]);
                assert forall|k: int| 0 <= k < j implies !((#[trigger] items[k]) is Text) by {
                    assert(front[k] == items[k]);
                }
            } else {
                assert forall|k: int| 0 <= k < front.len() implies !((#[trigger] items[k]) is Text) by {
                    assert(front[k] == items[k]);
                    if front[k] is Text {
                        assert(before.contains(front[k]->Text_0));
                    }
                }
                assert(items[items.len() - 1] == Tree::Text(all[0]));
            }
        }
    } else {
        assert(texts(items) =~= items.filter(test).map_values(pick));
    }
}

/// Law: the links under a key are the texts there, each of them and nothing else, in order.
pub proof fn links_are_the_texts(meta: Tree, key: Seq<char>)
    ensures
        links_under(meta, key) == heard(meta, key),
        forall|j: int, raw: Seq<char>| #[trigger]
            says(meta, key, j, raw) ==> links_under(meta, key).contains(raw),
        forall|n: int|
            0 <= n < links_under(meta, key).len() ==> is_said(
                meta,
                key,
                #[trigger] links_under(meta, key)[n],
            ),
        links_under(meta, key).len() > 0 ==> first_said(meta, key, links_under(meta, key)[0]),
{
    let links = links_under(meta, key);
    match field(meta, key) {
        Some(Tree::List(items)) => {
            lemma_texts(items);
            assert forall|j: int, raw: Seq<char>| #[trigger]
                says(meta, key, j, raw) implies links.contains(raw) by {
                assert(items[j] == Tree::Text(raw));
            }
            assert forall|n: int| 0 <= n < links.len() implies is_said(
                meta,
                key,
                #[trigger] links[n],
            ) by {
                let j = choose|j: int|
                    0 <= j < items.len() && #[trigger] items[j] == Tree::Text(texts(items)[n]);
                assert(says(meta, key, j, links[n]));
            }
            if links.len() > 0 {
                let j = choose|j: int|
                    0 <= j < items.len() && #[trigger] items[j] == Tree::Text(texts(items)[0])
                        && forall|k: int| 0 <= k < j ==> !((#[trigger] items[k]) is Text);
                assert(says(meta, key, j, links[0]));
            }
        },
        Some(Tree::Text(s)) => {
            assert(says(meta, key, 0, s));
            assert(links[0] == s);
            assert(links.contains(s));
            assert forall|n: int| 0 <= n < links.len() implies is_said(
                meta,
                key,
                #[trigger] links[n],
            ) by {
                assert(says(meta, key, 0, links[n]));
            }
        },
        _ => {},
    }
}

proof fn lemma_first_said(meta: Tree, key: Seq<char>, raw: Seq<char>)
    requires
        first_said(meta, key, raw),
    ensures
        links_under(meta, key).len() > 0,
        links_under(meta, key)[0] == raw,
{
    links_are_the_texts(meta, key);
    let first = links_under(meta, key)[0];
    let a = choose|j: int| #[trigger]
        says(meta, key, j, raw) && forall|k: int, other: Seq<char>|
            0 <= k < j ==> !#[trigger] says(meta, key, k, other);
    assert(links_under(meta, key).contains(raw));
    let b = choose|j: int| #[trigger]
        says(meta, key, j, first) && forall|k: int, other: Seq<char>|
            0 <= k < j ==> !#[trigger] says(meta, key, k, other);
    assert(says(meta, key, a, raw) && says(meta, key, b, first));
    assert(a >= 0 && b >= 0);
}

/// Whether `parent` is where the first link under `key` leads, if it leads to a path.
pub open spec fn first_leads(
    r: Registry,
    doc: Seq<char>,
    meta: Tree,
    key: Seq<char>,
    parent: Option<Seq<char>>,
) -> bool {
    match parent {
        Some(p) => exists|raw: Seq<char>| #[trigger]
            first_said(meta, key, raw) && goes(r, doc, raw, p),
        None => forall|raw: Seq<char>, p: Seq<char>| #[trigger]
            first_said(meta, key, raw) ==> !#[trigger] goes(r, doc, raw, p),
    }
}

/// Law: the parent of a document is where its first link back leads.
pub proof fn parent_is_where_the_first_link_leads(
    r: Registry,
    doc: Seq<char>,
    meta: Tree,
    key: Seq<char>,
)
    ensures
        first_leads(r, doc, meta, key, single_target_of(r, meta, key, doc)),
{
    links_are_the_texts(meta, key);
    match single_target_of(r, meta, key, doc) {
        Some(p) => {
            let raw = links_under(meta, key)[0];
            assert(first_said(meta, key, raw) && goes(r, doc, raw, p));
        },
        None => {
            assert forall|raw: Seq<char>, p: Seq<char>| #[trigger]
                first_said(meta, key, raw) implies !#[trigger] goes(r, doc, raw, p) by {
                lemma_first_said(meta, key, raw);
            }
        },
    }
}

/// Whether one of some links in the document at `doc` leads to `p`.
pub open spec fn some_goes(r: Registry, doc: Seq<char>, links: Seq<Seq<char>>, p: Seq<char>) -> bool {
    exists|n: int| 0 <= n < links.len() && #[trigger] goes(r, doc, links[n], p)
}

/// Law: the documents that are gathered for links are those that the links lead to: each of
/// them, and nothing else.
pub proof fn every_link_is_followed(r: Registry, doc: Seq<char>, links: Seq<Seq<char>>)
    ensures
        forall|n: int, p: Seq<char>|
            0 <= n < links.len() && #[trigger] goes(r, doc, links[n], p) ==> led_paths(
                r,
                doc,
                links,
            ).contains(p),
        forall|m: int|
            0 <= m < led_paths(r, doc, links).len() ==> some_goes(
                r,
                doc,
                links,
                #[trigger] led_paths(r, doc, links)[m],
            ),
    decreases links.len(),
{
    if links.len() > 0 {
        let front = links.drop_last();
        let before = led_paths(r, doc, front);
        let all = led_paths(r, doc, links);
        every_link_is_followed(r, doc, front);
        assert forall|n: int, p: Seq<char>|
            0 <= n < links.len() && #[trigger] goes(r, doc, links[n], p) implies all.contains(p) by {
            if n < front.len() {
                assert(front[n] == links[n]);
                assert(goes(r, doc, front[n], p));
                let m = choose|m: int| 0 <= m < before.len() && before[m] == p;
                assert(all[m] == before[m]);
            } else {
                assert(all[all.len() - 1] == p);
            }
        }
        assert forall|m: int| 0 <= m < all.len() implies some_goes(
            r,
            doc,
            links,
            #[trigger] all[m],
        ) by {
            if m < before.len() {
                assert(all[m] == before[m]);
                assert(some_goes(r, doc, front, before[m]));
                let n = choose|n: int|
                    0 <= n < front.len() && #[trigger] goes(r, doc, front[n], before[m]);
                assert(front[n] == links[n]);
                assert(goes(r, doc, links[n], all[m]));
            } else {
                assert(goes(r, doc, links[links.len() - 1], all[m]));
            }
        }
    }
}

// ---- creating ----

/// Whether a text written into the document at `doc` leads to `to` without a label, whatever a
/// registry says.
pub open spec fn leads_bare(doc: Seq<char>, text: Seq<char>, to: Seq<char>) -> bool {
    can_lead(doc, None, to) ==> link_of(text).label is None && forall|later: Registry| #[trigger]
        goes(later, doc, text, to)
}

/// Whether metadata says no more than a title and one link.
pub open spec fn says_only(meta: Tree, title: Seq<char>, key: Seq<char>, link: Seq<char>) -> bool {
    &&& field(meta, key) == Some(Tree::Text(link))
    &&& key != "title"@ ==> field(meta, "title"@) == Some(Tree::Text(title))
    &&& forall|other: Seq<char>|
        other != key && other != "title"@ ==> (#[trigger] field(meta, other)) is None
}

/// Whether `op` writes a new document at `path`, embedded as in `kind`, that says its title and
/// a link under `inverse` that leads to `parent`.
pub open spec fn writes_child(
    path: Seq<char>,
    parent: Seq<char>,
    inverse: Seq<char>,
    kind: EmbedKind,
    op: OpView,
) -> bool {
    exists|h: History, meta: Tree, up: Seq<char>, out: Seq<char>|
        op == OpView::Write(path, out) && #[trigger] begun_as(h, kind, meta, out)
            && #[trigger] leads_bare(path, up, parent) && says_only(
            meta,
            stem_of(path),
            inverse,
            up,
        )
}

/// Whether `out` is a document begun from nothing, in a kind of embed, with edits that make its
/// metadata `meta`.
pub open spec fn begun_as(h: History, kind: EmbedKind, meta: Tree, out: Seq<char>) -> bool {
    &&& h.host.len() == 0
    &&& h.init
    &&& h.kind == kind
    &&& edited(Tree::Dict(Seq::empty()), h) == Some(meta)
    &&& rendering(h) == Ok::<Seq<char>, Seq<char>>(out)
}

/// Whether `op` writes the parent with a link to `path` behind the links it had under
/// `spanning`, and everything else in its metadata as it was.
pub open spec fn writes_parent(
    parent: LoadedView,
    d: DocumentView,
    path: Seq<char>,
    spanning: Seq<char>,
    op: OpView,
) -> bool {
    exists|h: History, meta: Tree, down: Seq<char>, out: Seq<char>|
        op == OpView::Write(parent.path, out) && #[trigger] edited_into(
            parent.text,
            d,
            h,
            meta,
            out,
        ) && #[trigger] leads_bare(parent.path, down, path) && gains_link(
            d.meta,
            meta,
            spanning,
            down,
        )
}

/// Whether metadata says one text more under `key` than it did: those that were there stay in
/// front, in order, and every other field is as it was.
pub open spec fn gains_link(was: Tree, meta: Tree, key: Seq<char>, down: Seq<char>) -> bool {
    &&& heard(meta, key) == heard(was, key).push(down)
    &&& forall|other: Seq<char>|
        other != key ==> #[trigger] field(meta, other) == field(was, other)
}

/// Whether `ops` create a document: the directory is made, the document written, and then its
/// parent, each with a link to the other.
pub open spec fn creates(
    path: Seq<char>,
    parent: LoadedView,
    spanning: Seq<char>,
    inverse: Seq<char>,
    ops: Seq<OpView>,
) -> bool {
    &&& document_in(parent.text) matches Ok(d)
    &&& ops.len() == 3
    &&& ops[0] == OpView::CreateDirAll(dir_text(path))
    &&& writes_child(path, parent.path, inverse, embed_kind(d), ops[1])
    &&& writes_parent(parent, d, path, spanning, ops[2])
}

proof fn lemma_leads_bare(doc: Seq<char>, to: Seq<char>)
    ensures
        leads_bare(doc, relative_text(dir_text(doc), to), to),
{
    if can_lead(doc, None, to) {
        relative_resolves(doc, to);
    }
}

proof fn lemma_new_text(path: Seq<char>, parent: Seq<char>, inverse: Seq<char>, kind: EmbedKind)
    requires
        new_text(
            kind,
            stem_of(path),
            inverse,
            relative_text(dir_text(path), parent),
        ) is Ok,
    ensures
        writes_child(
            path,
            parent,
            inverse,
            kind,
            OpView::Write(
                path,
                new_text(
                    kind,
                    stem_of(path),
                    inverse,
                    relative_text(dir_text(path), parent),
                )->Ok_0,
            ),
        ),
{
    let up = relative_text(dir_text(path), parent);
    let title = Tree::Text(stem_of(path));
    let empty = Tree::Dict(Seq::empty());
    let h0 = fresh(Seq::empty(), kind, true);
    let put = Edit::Put(seq![StepView::Key("title"@)], title);
    let h1 = after(h0, put);
    let link = Edit::Put(seq![StepView::Key(inverse)], Tree::Text(up));
    let h2 = after(h1, link);
    let m1 = with_put(empty, "title"@, title);
    let m2 = with_put(m1, inverse, Tree::Text(up));
    let out = new_text(kind, stem_of(path), inverse, up)->Ok_0;
    lemma_edited(empty, h0, put);
    lemma_edited(empty, h1, link);
    assert(edited(empty, h2) == Some(m2));
    assert forall|other: Seq<char>| other != inverse && other != "title"@ implies (
    #[trigger] field(m2, other)) is None by {
        lemma_put(m1, inverse, Tree::Text(up), other);
        lemma_put(empty, "title"@, title, other);
    }
    lemma_put(m1, inverse, Tree::Text(up), "title"@);
    lemma_put(m1, inverse, Tree::Text(up), inverse);
    lemma_put(empty, "title"@, title, "title"@);
    assert(says_only(m2, stem_of(path), inverse, up));
    lemma_leads_bare(path, parent);
    assert(begun_as(h2, kind, m2, out));
    assert(leads_bare(path, up, parent));
}

proof fn lemma_put_grown(meta: Tree, key: Seq<char>, down: Seq<char>)
    ensures
        gains_link(meta, with_put(meta, key, grown_list(meta, key, down)), key, down),
{
    let list = grown_list(meta, key, down);
    let now = with_put(meta, key, list);
    setting_the_grown_list_keeps_the_links(meta, key, down);
    links_are_the_texts(meta, key);
    links_are_the_texts(now, key);
    assert forall|other: Seq<char>| other != key implies #[trigger] field(now, other) == field(
        meta,
        other,
    ) by {
        lemma_put(meta, key, list, other);
    }
}

proof fn lemma_appended(meta: Tree, key: Seq<char>, items: Seq<Tree>, down: Seq<char>)
    requires
        field(meta, key) == Some(Tree::List(items)),
    ensures
        gains_link(
            meta,
            with_field(meta, key, Tree::List(items.push(Tree::Text(down)))),
            key,
            down,
        ),
{
    let more = items.push(Tree::Text(down));
    let list = Tree::List(more);
    let now = with_field(meta, key, list);
    let entries = meta->Dict_0;
    lemma_with_entry(entries, key, list, key);
    assert(field(now, key) == Some(list));
    assert(more.drop_last() =~= items);
    assert(texts(more) == texts(items).push(down));
    links_are_the_texts(meta, key);
    links_are_the_texts(now, key);
    assert forall|other: Seq<char>| other != key implies #[trigger] field(now, other) == field(
        meta,
        other,
    ) by {
        lemma_with_entry(entries, key, list, other);
    }
}

proof fn lemma_extended_text(
    parent: LoadedView,
    d: DocumentView,
    path: Seq<char>,
    spanning: Seq<char>,
)
    requires
        extended_text(
            parent.text,
            embed_kind(d),
            d.meta,
            spanning,
            relative_text(dir_text(parent.path), path),
        ) is Ok,
    ensures
        writes_parent(
            parent,
            d,
            path,
            spanning,
            OpView::Write(
                parent.path,
                extended_text(
                    parent.text,
                    embed_kind(d),
                    d.meta,
                    spanning,
                    relative_text(dir_text(parent.path), path),
                )->Ok_0,
            ),
        ),
{
    let down = relative_text(dir_text(parent.path), path);
    let kind = embed_kind(d);
    let out = extended_text(parent.text, kind, d.meta, spanning, down)->Ok_0;
    let h0 = fresh(parent.text, kind, true);
    let p = seq![StepView::Key(spanning)];
    let append = Edit::Append(p, Tree::Text(down));
    let list = grown_list(d.meta, spanning, down);
    let put = Edit::Put(p, list);
    let h1 = after(h0, append);
    lemma_leads_bare(parent.path, path);
    assert(leads_bare(parent.path, down, path));
    lemma_edited(d.meta, h0, append);
    lemma_edited(d.meta, h0, put);
    lemma_edited(d.meta, h1, put);
    lemma_put_grown(d.meta, spanning, down);
    let put_meta = with_put(d.meta, spanning, list);
    match field(d.meta, spanning) {
        Some(Tree::List(items)) => {
            if appending(h0, p, Tree::Text(down)) is Ok {
                let meta = with_field(
                    d.meta,
                    spanning,
                    Tree::List(items.push(Tree::Text(down))),
                );
                lemma_appended(d.meta, spanning, items, down);
                assert(edited(d.meta, h1) == Some(meta));
                assert(edited_into(parent.text, d, h1, meta, out));
            } else {
                assert(edited_into(parent.text, d, after(h1, put), put_meta, out));
            }
        },
        _ => {
            assert(edited_into(parent.text, d, after(h0, put), put_meta, out));
        },
    }
}

/// Law: the plan of a creation writes the new document and its parent, each with a link to the
/// other, whatever kind of block the parent has. The links that the parent had are in front of
/// the new one.
pub proof fn creation_links_both_ways(
    path: Seq<char>,
    parent: LoadedView,
    spanning: Seq<char>,
    inverse: Seq<char>,
)
    ensures
        creation_ops(path, parent.path, spanning, inverse, parent.text) matches Ok(ops) ==> creates(
            path,
            parent,
            spanning,
            inverse,
            ops,
        ),
{
    if creation_ops(path, parent.path, spanning, inverse, parent.text) is Ok {
        let d = document_in(parent.text)->Ok_0;
        lemma_new_text(path, parent.path, inverse, embed_kind(d));
        lemma_extended_text(parent, d, path, spanning);
    }
}

// ---- deleting ----

/// Whether a field is `was` without the item at a position.
pub open spec fn drops_item(was: Seq<Tree>, now: Seq<Tree>, j: int) -> bool {
    &&& now.len() == was.len() - 1
    &&& forall|k: int|
        0 <= k < now.len() ==> #[trigger] now[k] == (if k < j {
            was[k]
        } else {
            was[k + 1]
        })
}

/// Whether `op` writes the parent without its entry at a position: an item of the sequence that
/// is there, or the field where it is one text. Everything else in its metadata is as it was.
pub open spec fn drops_entry(
    parent: LoadedView,
    d: DocumentView,
    spanning: Seq<char>,
    j: int,
    op: OpView,
) -> bool {
    exists|h: History, out: Seq<char>|
        op == OpView::Write(parent.path, out) && rendering(h) == Ok::<Seq<char>, Seq<char>>(out)
            && h.host == parent.text && h.kind == embed_kind(d) && #[trigger] asks_to_drop(
            d.meta,
            h,
            spanning,
            j,
            out,
        )
}

/// Whether edits take the entry at a position out of a field, and nothing else.
pub open spec fn asks_to_drop(
    meta: Tree,
    h: History,
    spanning: Seq<char>,
    j: int,
    out: Seq<char>,
) -> bool {
    match field(meta, spanning) {
        Some(Tree::List(items)) => {
            &&& edited(meta, h) matches Some(now)
            &&& field(now, spanning) matches Some(Tree::List(left))
            &&& drops_item(items, left, j)
            &&& forall|other: Seq<char>|
                other != spanning ==> #[trigger] field(now, other) == field(meta, other)
        },
        _ => h.edits == seq![Edit::Delete(seq![StepView::Key(spanning)])],
    }
}

/// Whether `ops` delete a document: its file is removed, and then its parent is written without
/// its first entry that leads to it, where it has one.
pub open spec fn deletes(
    r: Registry,
    spanning: Seq<char>,
    path: Seq<char>,
    parent: Option<LoadedView>,
    ops: Seq<OpView>,
) -> bool {
    &&& ops.len() > 0
    &&& ops[0] == OpView::RemoveFile(path)
    &&& match parent {
        None => ops.len() == 1,
        Some(p) => {
            &&& document_in(p.text) matches Ok(d)
            &&& if exists|j: int, raw: Seq<char>| #[trigger]
                first_to(r, p.path, d.meta, spanning, path, j, raw) {
                &&& ops.len() == 2
                &&& forall|j: int, raw: Seq<char>| #[trigger]
                    first_to(r, p.path, d.meta, spanning, path, j, raw) ==> drops_entry(
                        p,
                        d,
                        spanning,
                        j,
                        ops[1],
                    )
            } else {
                ops.len() == 1
            }
        },
    }
}

/// Law: the plan of a deletion removes the file and the parent's entry for it, and nothing
/// else.
pub proof fn deletion_removes_the_entry(
    r: Registry,
    spanning: Seq<char>,
    path: Seq<char>,
    parent: Option<LoadedView>,
)
    ensures
        deletion_ops(r, spanning, path, parent) matches Ok(ops) ==> deletes(
            r,
            spanning,
            path,
            parent,
            ops,
        ),
{
    if let Some(p) = parent {
        if deletion_ops(r, spanning, path, parent) is Ok {
            let ops = deletion_ops(r, spanning, path, parent)->Ok_0;
            let d = document_in(p.text)->Ok_0;
            entry_is_the_first_that_leads(r, d.meta, spanning, p.path, path);
            match entry_position(r, d.meta, spanning, p.path, path) {
                Some(i) => {
                    let raw = choose|raw: Seq<char>| #[trigger]
                        first_to(r, p.path, d.meta, spanning, path, i, raw);
                    assert(first_to(r, p.path, d.meta, spanning, path, i, raw));
                    lemma_said(field(d.meta, spanning)->Some_0, i);
                    lemma_dropped(p, d, spanning, i);
                },
                None => {
                    assert forall|j: int, raw: Seq<char>| !(#[trigger] first_to(
                        r,
                        p.path,
                        d.meta,
                        spanning,
                        path,
                        j,
                        raw,
                    )) by {
                        if first_to(r, p.path, d.meta, spanning, path, j, raw) {
                            assert(says(d.meta, spanning, j, raw));
                        }
                    }
                },
            }
        }
    }
}

proof fn lemma_dropped(p: LoadedView, d: DocumentView, spanning: Seq<char>, i: int)
    requires
        field(d.meta, spanning) is Some,
        0 <= i < items_of(field(d.meta, spanning)->Some_0).len(),
        removed_text(
            p.text,
            embed_kind(d),
            field(d.meta, spanning)->Some_0,
            spanning,
            i,
        ) is Ok,
    ensures
        drops_entry(
            p,
            d,
            spanning,
            i,
            OpView::Write(
                p.path,
                removed_text(
                    p.text,
                    embed_kind(d),
                    field(d.meta, spanning)->Some_0,
                    spanning,
                    i,
                )->Ok_0,
            ),
        ),
{
    let v = field(d.meta, spanning)->Some_0;
    let h0 = fresh(p.text, embed_kind(d), false);
    let at = seq![StepView::Key(spanning)];
    let out = removed_text(p.text, embed_kind(d), v, spanning, i)->Ok_0;
    match v {
        Tree::List(items) => {
            let edit = Edit::Remove(at, i);
            let h = after(h0, edit);
            let left = Tree::List(items.remove(i));
            lemma_edited(d.meta, h0, edit);
            let now = with_field(d.meta, spanning, left);
            let entries = d.meta->Dict_0;
            lemma_with_entry(entries, spanning, left, spanning);
            assert forall|other: Seq<char>| other != spanning implies #[trigger] field(now, other)
                == field(d.meta, other) by {
                lemma_with_entry(entries, spanning, left, other);
            }
            assert(asks_to_drop(d.meta, h, spanning, i, out));
        },
        _ => {
            let h = after(h0, Edit::Delete(at));
            assert(h.edits =~= seq![Edit::Delete(at)]);
            assert(asks_to_drop(d.meta, h, spanning, i, out));
        },
    }
}

/// Law: a document with children is not deleted unless that is forced. Without force a single
/// link under the spanning relation is enough for a refusal, and with force, or without such a
/// link, there is none: the parent to be read is where the first link back leads.
pub proof fn children_stop_a_deletion(
    r: Registry,
    vocabulary: Vocabulary,
    inverse: Seq<char>,
    doc: LoadedView,
    force: bool,
    d: DocumentView,
)
    requires
        document_in(doc.text) == Ok::<DocumentView, Failure>(d),
    ensures
        ({
            let outcome = deletion_reads(r, vocabulary, inverse, doc, force);
            let contains = vocabulary.spanning matches Some(s) && exists|raw: Seq<char>| #[trigger]
                is_said(d.meta, s, raw);
            if contains && !force {
                outcome matches Err(Failure::Structure(_))
            } else {
                outcome matches Ok(parent) && first_leads(r, doc.path, d.meta, inverse, parent)
            }
        }),
{
    parent_is_where_the_first_link_leads(r, doc.path, d.meta, inverse);
    if let Some(s) = vocabulary.spanning {
        let links = links_under(d.meta, s);
        links_are_the_texts(d.meta, s);
        assert(child_targets(vocabulary, d.meta).len() == links.len());
        if links.len() > 0 {
            assert(is_said(d.meta, s, links[0]));
        }
        assert forall|raw: Seq<char>| #[trigger] is_said(d.meta, s, raw) implies links.len() > 0 by {
            let j = choose|j: int| #[trigger] says(d.meta, s, j, raw);
            assert(says(d.meta, s, j, raw));
            assert(links.contains(raw));
        }
    } else {
        assert(child_targets(vocabulary, d.meta).len() == 0);
    }
}

// ---- whole operations ----

/// What a storage answers while an operation is under way.
pub struct Disk {
    /// Whether something is at a path.
    pub holds: spec_fn(Seq<char>) -> Result<bool, (StorageErrorKind, Seq<char>)>,
    /// The text at a path.
    pub texts: spec_fn(Seq<char>) -> Result<Seq<char>, (StorageErrorKind, Seq<char>)>,
}

/// What a storage answers to a question. What is to be carried out is carried out.
pub open spec fn told(disk: Disk, ask: AskView) -> AnswerView {
    match ask {
        AskView::Exists(p) => AnswerView::Exists((disk.holds)(p)),
        AskView::Load(p) => AnswerView::Text((disk.texts)(p)),
        AskView::Carry(_) => AnswerView::Carried(Ok(())),
    }
}

/// How far an operation is after `n` answers of a storage.
pub open spec fn phase_after(
    r: Registry,
    vocabulary: Vocabulary,
    task: TaskView,
    disk: Disk,
    n: nat,
) -> PhaseView
    decreases n,
{
    if n == 0 {
        first_phase(task)
    } else {
        let phase = phase_after(r, vocabulary, task, disk, (n - 1) as nat);
        match ask_of(task, phase) {
            Some(ask) => answered(r, vocabulary, task, phase, told(disk, ask)),
            None => phase,
        }
    }
}

/// What holds of a creation at each phase.
spec fn creating(disk: Disk, task: TaskView, phase: PhaseView) -> bool {
    match task {
        TaskView::Create { path, parent, spanning, inverse } => match phase {
            PhaseView::Place => true,
            PhaseView::Text => (disk.holds)(path) == Ok::<bool, (StorageErrorKind, Seq<char>)>(
                false,
            ),
            PhaseView::Carry { ops, done } => 0 <= done < ops.len() && created_whole(
                disk,
                path,
                parent,
                spanning,
                inverse,
                ops,
            ),
            PhaseView::Done(_) => true,
            _ => false,
        },
        _ => false,
    }
}

/// Whether `ops` create a document on a disk: nothing is at its path, and its parent can be
/// read.
pub open spec fn created_whole(
    disk: Disk,
    path: Seq<char>,
    parent: Seq<char>,
    spanning: Seq<char>,
    inverse: Seq<char>,
    ops: Seq<OpView>,
) -> bool {
    &&& (disk.holds)(path) == Ok::<bool, (StorageErrorKind, Seq<char>)>(false)
    &&& (disk.texts)(parent) matches Ok(text)
    &&& creates(path, LoadedView { path: parent, text }, spanning, inverse, ops)
}

/// Law: whatever an operation that creates a document has carried out creates it whole: both
/// documents are linked, where nothing was in the way.
pub proof fn creating_creates(
    r: Registry,
    vocabulary: Vocabulary,
    path: Seq<char>,
    parent: Seq<char>,
    spanning: Seq<char>,
    inverse: Seq<char>,
    disk: Disk,
    n: nat,
)
    ensures
        phase_after(
            r,
            vocabulary,
            TaskView::Create { path, parent, spanning, inverse },
            disk,
            n,
        ) matches PhaseView::Carry { ops, done } ==> 0 <= done < ops.len() && created_whole(
            disk,
            path,
            parent,
            spanning,
            inverse,
            ops,
        ),
{
    lemma_creating(r, vocabulary, path, parent, spanning, inverse, disk, n);
}

proof fn lemma_creating(
    r: Registry,
    vocabulary: Vocabulary,
    path: Seq<char>,
    parent: Seq<char>,
    spanning: Seq<char>,
    inverse: Seq<char>,
    disk: Disk,
    n: nat,
)
    ensures
        creating(
            disk,
            TaskView::Create { path, parent, spanning, inverse },
            phase_after(
                r,
                vocabulary,
                TaskView::Create { path, parent, spanning, inverse },
                disk,
                n,
            ),
        ),
    decreases n,
{
    let task = TaskView::Create { path, parent, spanning, inverse };
    if n > 0 {
        let phase = phase_after(r, vocabulary, task, disk, (n - 1) as nat);
        lemma_creating(r, vocabulary, path, parent, spanning, inverse, disk, (n - 1) as nat);
        if phase is Text {
            if let Ok(text) = (disk.texts)(parent) {
                creation_links_both_ways(
                    path,
                    LoadedView { path: parent, text },
                    spanning,
                    inverse,
                );
            }
        }
    }
}

/// Whether a document on a disk may be deleted: it can be read, and says no link under the
/// spanning relation unless that does not matter.
pub open spec fn deletable(vocabulary: Vocabulary, disk: Disk, path: Seq<char>, force: bool) -> bool {
    &&& (disk.texts)(path) matches Ok(text)
    &&& document_in(text) matches Ok(d)
    &&& force || !(vocabulary.spanning matches Some(s) && exists|raw: Seq<char>| #[trigger]
        is_said(d.meta, s, raw))
}

/// Whether `parent` is the document on a disk that the first link under `key` of the one at
/// `doc` leads to, if it leads to one.
pub open spec fn parent_read(
    r: Registry,
    disk: Disk,
    doc: Seq<char>,
    key: Seq<char>,
    parent: Option<LoadedView>,
) -> bool {
    &&& (disk.texts)(doc) matches Ok(text)
    &&& document_in(text) matches Ok(d)
    &&& match parent {
        Some(p) => first_leads(r, doc, d.meta, key, Some(p.path)) && (disk.texts)(p.path) == Ok::<
            Seq<char>,
            (StorageErrorKind, Seq<char>),
        >(p.text),
        None => first_leads(r, doc, d.meta, key, None),
    }
}

/// Whether `ops` delete a document on a disk: it may be deleted, and the entry that goes is
/// that of the parent it names.
pub open spec fn deleted_whole(
    r: Registry,
    vocabulary: Vocabulary,
    disk: Disk,
    path: Seq<char>,
    spanning: Seq<char>,
    inverse: Seq<char>,
    force: bool,
    ops: Seq<OpView>,
) -> bool {
    &&& deletable(vocabulary, disk, path, force)
    &&& exists|parent: Option<LoadedView>| #[trigger]
        deletes(r, spanning, path, parent, ops) && parent_read(r, disk, path, inverse, parent)
}

/// What holds of a deletion at each phase.
spec fn going(
    r: Registry,
    vocabulary: Vocabulary,
    disk: Disk,
    task: TaskView,
    phase: PhaseView,
) -> bool {
    match task {
        TaskView::Delete { path, spanning, inverse, force } => match phase {
            PhaseView::Text => true,
            PhaseView::Parent { text, parent, .. } => {
                &&& deletable(vocabulary, disk, path, force)
                &&& (disk.texts)(path) == Ok::<Seq<char>, (StorageErrorKind, Seq<char>)>(text)
                &&& first_leads(r, path, document_in(text)->Ok_0.meta, inverse, Some(parent))
            },
            PhaseView::Carry { ops, done } => 0 <= done < ops.len() && deleted_whole(
                r,
                vocabulary,
                disk,
                path,
                spanning,
                inverse,
                force,
                ops,
            ),
            PhaseView::Done(outcome) => outcome is Ok ==> deletable(vocabulary, disk, path, force),
            _ => false,
        },
        _ => false,
    }
}

/// Law: whatever an operation that deletes a document has carried out deletes it whole, and
/// one whose document has children ends in an error, with nothing carried out, unless it is
/// forced.
pub proof fn deleting_deletes(
    r: Registry,
    vocabulary: Vocabulary,
    path: Seq<char>,
    spanning: Seq<char>,
    inverse: Seq<char>,
    force: bool,
    disk: Disk,
    n: nat,
)
    ensures
        match phase_after(
            r,
            vocabulary,
            TaskView::Delete { path, spanning, inverse, force },
            disk,
            n,
        ) {
            PhaseView::Carry { ops, done } => 0 <= done < ops.len() && deleted_whole(
                r,
                vocabulary,
                disk,
                path,
                spanning,
                inverse,
                force,
                ops,
            ),
            PhaseView::Done(Ok(_)) => deletable(vocabulary, disk, path, force),
            _ => true,
        },
{
    lemma_going(r, vocabulary, path, spanning, inverse, force, disk, n);
}

proof fn lemma_going(
    r: Registry,
    vocabulary: Vocabulary,
    path: Seq<char>,
    spanning: Seq<char>,
    inverse: Seq<char>,
    force: bool,
    disk: Disk,
    n: nat,
)
    ensures
        going(
            r,
            vocabulary,
            disk,
            TaskView::Delete { path, spanning, inverse, force },
            phase_after(
                r,
                vocabulary,
                TaskView::Delete { path, spanning, inverse, force },
                disk,
                n,
            ),
        ),
    decreases n,
{
    let task = TaskView::Delete { path, spanning, inverse, force };
    if n > 0 {
        let phase = phase_after(r, vocabulary, task, disk, (n - 1) as nat);
        lemma_going(r, vocabulary, path, spanning, inverse, force, disk, (n - 1) as nat);
        match phase {
            PhaseView::Text => {
                if let Ok(text) = (disk.texts)(path) {
                    if let Ok(d) = document_in(text) {
                        let doc = LoadedView { path, text };
                        children_stop_a_deletion(r, vocabulary, inverse, doc, force, d);
                        deletion_removes_the_entry(r, spanning, path, None);
                        if let Ok(None) = deletion_reads(r, vocabulary, inverse, doc, force) {
                            assert(parent_read(r, disk, path, inverse, None));
                        }
                    }
                }
            },
            PhaseView::Parent { text, parent, .. } => {
                if let Ok(t) = (disk.texts)(parent) {
                    let read = Some(LoadedView { path: parent, text: t });
                    deletion_removes_the_entry(r, spanning, path, read);
                    assert(parent_read(r, disk, path, inverse, read));
                }
            },
            _ => {},
        }
    }
}

/// Whether `children` are the documents on a disk that the links of the one at `doc` under the
/// spanning relation lead to: each that can be read, and nothing else.
pub open spec fn children_read(
    r: Registry,
    vocabulary: Vocabulary,
    disk: Disk,
    doc: Seq<char>,
    children: Seq<LoadedView>,
) -> bool {
    &&& (disk.texts)(doc) matches Ok(text)
    &&& document_in(text) matches Ok(d)
    &&& forall|raw: Seq<char>, p: Seq<char>, t: Seq<char>|
        child_link(vocabulary, d.meta, raw) && #[trigger] goes(r, doc, raw, p) && (disk.texts)(p)
            == Ok::<Seq<char>, (StorageErrorKind, Seq<char>)>(t) ==> #[trigger] children.contains(
            LoadedView { path: p, text: t },
        )
    &&& forall|i: int|
        0 <= i < children.len() ==> is_child(
            r,
            vocabulary,
            disk,
            doc,
            d.meta,
            #[trigger] children[i],
        )
}

/// Whether metadata says `raw` under the spanning relation.
pub open spec fn child_link(vocabulary: Vocabulary, meta: Tree, raw: Seq<char>) -> bool {
    vocabulary.spanning matches Some(s) && is_said(meta, s, raw)
}

/// Whether a link under the spanning relation leads to a document on a disk.
pub open spec fn is_child(
    r: Registry,
    vocabulary: Vocabulary,
    disk: Disk,
    doc: Seq<char>,
    meta: Tree,
    child: LoadedView,
) -> bool {
    &&& (disk.texts)(child.path) == Ok::<Seq<char>, (StorageErrorKind, Seq<char>)>(child.text)
    &&& exists|raw: Seq<char>|
        child_link(vocabulary, meta, raw) && #[trigger] goes(r, doc, raw, child.path)
}

/// Whether `ops` move a document on a disk: it is there and nothing is at the new path, and the
/// documents that are relinked are the parent it names and the children it links to.
pub open spec fn moved_whole(
    r: Registry,
    vocabulary: Vocabulary,
    disk: Disk,
    from: Seq<char>,
    to: Seq<char>,
    spanning: Seq<char>,
    inverse: Seq<char>,
    ops: Seq<OpView>,
) -> bool {
    &&& (disk.holds)(from) == Ok::<bool, (StorageErrorKind, Seq<char>)>(true)
    &&& (disk.holds)(to) == Ok::<bool, (StorageErrorKind, Seq<char>)>(false)
    &&& (disk.texts)(from) matches Ok(text)
    &&& exists|parent: Option<LoadedView>, children: Seq<LoadedView>| #[trigger]
        moves(
            r,
            vocabulary.relations,
            spanning,
            inverse,
            LoadedView { path: from, text },
            to,
            parent,
            children,
            ops,
        ) && parent_read(r, disk, from, inverse, parent) && children_read(
            r,
            vocabulary,
            disk,
            from,
            children,
        )
}

proof fn lemma_readable(
    texts: spec_fn(Seq<char>) -> Result<Seq<char>, (StorageErrorKind, Seq<char>)>,
    paths: Seq<Seq<char>>,
)
    ensures
        forall|p: Seq<char>, t: Seq<char>|
            paths.contains(p) && texts(p) == Ok::<Seq<char>, (StorageErrorKind, Seq<char>)>(t)
                ==> #[trigger] readable(texts, paths).contains(LoadedView { path: p, text: t }),
        forall|i: int|
            0 <= i < readable(texts, paths).len() ==> paths.contains(
                (#[trigger] readable(texts, paths)[i]).path,
            ) && texts(readable(texts, paths)[i].path) == Ok::<
                Seq<char>,
                (StorageErrorKind, Seq<char>),
            >(readable(texts, paths)[i].text),
    decreases paths.len(),
{
    if paths.len() > 0 {
        let front = paths.drop_last();
        let before = readable(texts, front);
        let all = readable(texts, paths);
        lemma_readable(texts, front);
        assert forall|p: Seq<char>, t: Seq<char>|
            paths.contains(p) && texts(p) == Ok::<Seq<char>, (StorageErrorKind, Seq<char>)>(
                t,
            ) implies #[trigger] all.contains(LoadedView { path: p, text: t }) by {
            let i = choose|i: int| 0 <= i < paths.len() && paths[i] == p;
            if i < front.len() {
                assert(front[i] == p);
                assert(before.contains(LoadedView { path: p, text: t }));
                let k = choose|k: int|
                    0 <= k < before.len() && before[k] == (LoadedView { path: p, text: t });
                assert(all[k] == before[k]);
            } else {
                assert(all[all.len() - 1] == (LoadedView { path: p, text: t }));
            }
        }
        assert forall|i: int| 0 <= i < all.len() implies paths.contains((#[trigger] all[i]).path)
            && texts(all[i].path) == Ok::<Seq<char>, (StorageErrorKind, Seq<char>)>(
            all[i].text,
        ) by {
            if i < before.len() {
                assert(all[i] == before[i]);
                let k = choose|k: int| 0 <= k < front.len() && front[k] == before[i].path;
                assert(paths[k] == front[k]);
            } else {
                assert(paths[paths.len() - 1] == all[i].path);
            }
        }
    }
}

/// What was gathered for the links of a document are its children on the disk.
proof fn lemma_children_read(
    r: Registry,
    vocabulary: Vocabulary,
    disk: Disk,
    doc: Seq<char>,
    text: Seq<char>,
    d: DocumentView,
)
    requires
        (disk.texts)(doc) == Ok::<Seq<char>, (StorageErrorKind, Seq<char>)>(text),
        document_in(text) == Ok::<DocumentView, Failure>(d),
    ensures
        children_read(
            r,
            vocabulary,
            disk,
            doc,
            readable(disk.texts, led_paths(r, doc, children_of(vocabulary, d.meta))),
        ),
{
    let links = children_of(vocabulary, d.meta);
    let paths = led_paths(r, doc, links);
    let children = readable(disk.texts, paths);
    every_link_is_followed(r, doc, links);
    lemma_readable(disk.texts, paths);
    if let Some(s) = vocabulary.spanning {
        links_are_the_texts(d.meta, s);
    }
    assert forall|raw: Seq<char>, p: Seq<char>, t: Seq<char>|
        child_link(vocabulary, d.meta, raw) && #[trigger] goes(r, doc, raw, p) && (disk.texts)(p)
            == Ok::<Seq<char>, (StorageErrorKind, Seq<char>)>(
            t,
        ) implies #[trigger] children.contains(LoadedView { path: p, text: t }) by {
        let s = vocabulary.spanning->Some_0;
        let j = choose|j: int| #[trigger] says(d.meta, s, j, raw);
        assert(says(d.meta, s, j, raw));
        assert(links.contains(raw));
        let m = choose|m: int| 0 <= m < links.len() && links[m] == raw;
        assert(goes(r, doc, links[m], p));
        assert(paths.contains(p));
    }
    assert forall|i: int| 0 <= i < children.len() implies is_child(
        r,
        vocabulary,
        disk,
        doc,
        d.meta,
        #[trigger] children[i],
    ) by {
        let p = children[i].path;
        let m = choose|m: int| 0 <= m < paths.len() && paths[m] == p;
        assert(some_goes(r, doc, links, paths[m]));
        let k = choose|k: int| 0 <= k < links.len() && #[trigger] goes(r, doc, links[k], paths[m]);
        let raw = links[k];
        let s = vocabulary.spanning->Some_0;
        assert(is_said(d.meta, s, links_under(d.meta, s)[k]));
        assert(child_link(vocabulary, d.meta, raw) && goes(r, doc, raw, p));
    }
}

/// What holds of a move at each phase.
spec fn moving(
    r: Registry,
    vocabulary: Vocabulary,
    disk: Disk,
    task: TaskView,
    phase: PhaseView,
) -> bool {
    match task {
        TaskView::Rename { from, to, spanning, inverse } => {
            let there = (disk.holds)(from) == Ok::<bool, (StorageErrorKind, Seq<char>)>(true);
            let free = (disk.holds)(to) == Ok::<bool, (StorageErrorKind, Seq<char>)>(false);
            match phase {
                PhaseView::Source => true,
                PhaseView::Place => there,
                PhaseView::Text => there && free,
                PhaseView::Parent { text, parent, children } => {
                    &&& there && free
                    &&& (disk.texts)(from) == Ok::<Seq<char>, (StorageErrorKind, Seq<char>)>(text)
                    &&& document_in(text) matches Ok(d)
                    &&& first_leads(r, from, d.meta, inverse, Some(parent))
                    &&& children == led_paths(r, from, children_of(vocabulary, d.meta))
                },
                PhaseView::Child { text, parent, children, asked, loaded } => {
                    &&& there && free
                    &&& (disk.texts)(from) == Ok::<Seq<char>, (StorageErrorKind, Seq<char>)>(text)
                    &&& document_in(text) matches Ok(d)
                    &&& parent_read(r, disk, from, inverse, parent)
                    &&& children == led_paths(r, from, children_of(vocabulary, d.meta))
                    &&& 0 <= asked < children.len()
                    &&& loaded == readable(disk.texts, children.take(asked))
                },
                PhaseView::Carry { ops, done } => 0 <= done < ops.len() && moved_whole(
                    r,
                    vocabulary,
                    disk,
                    from,
                    to,
                    spanning,
                    inverse,
                    ops,
                ),
                PhaseView::Done(_) => true,
            }
        },
        _ => false,
    }
}

proof fn lemma_with_children(
    r: Registry,
    vocabulary: Vocabulary,
    disk: Disk,
    from: Seq<char>,
    to: Seq<char>,
    spanning: Seq<char>,
    inverse: Seq<char>,
    text: Seq<char>,
    parent: Option<LoadedView>,
    asked: int,
)
    requires
        (disk.holds)(from) == Ok::<bool, (StorageErrorKind, Seq<char>)>(true),
        (disk.holds)(to) == Ok::<bool, (StorageErrorKind, Seq<char>)>(false),
        (disk.texts)(from) == Ok::<Seq<char>, (StorageErrorKind, Seq<char>)>(text),
        document_in(text) is Ok,
        parent_read(r, disk, from, inverse, parent),
        0 <= asked <= led_paths(
            r,
            from,
            children_of(vocabulary, document_in(text)->Ok_0.meta),
        ).len(),
    ensures
        ({
            let task = TaskView::Rename { from, to, spanning, inverse };
            let children = led_paths(
                r,
                from,
                children_of(vocabulary, document_in(text)->Ok_0.meta),
            );
            let loaded = readable(disk.texts, children.take(asked));
            moving(
                r,
                vocabulary,
                disk,
                task,
                with_children(r, vocabulary, task, text, parent, children, asked, loaded),
            )
        }),
{
    let d = document_in(text)->Ok_0;
    let children = led_paths(r, from, children_of(vocabulary, d.meta));
    if asked == children.len() {
        assert(children.take(asked) =~= children);
        let loaded = readable(disk.texts, children);
        let doc = LoadedView { path: from, text };
        move_keeps_every_link_right(
            r,
            vocabulary.relations,
            spanning,
            inverse,
            doc,
            to,
            parent,
            loaded,
        );
        lemma_children_read(r, vocabulary, disk, from, text, d);
        if let Ok(ops) = renaming_ops(
            r,
            vocabulary.relations,
            spanning,
            inverse,
            doc,
            to,
            parent,
            loaded,
        ) {
            assert(moves(
                r,
                vocabulary.relations,
                spanning,
                inverse,
                doc,
                to,
                parent,
                loaded,
                ops,
            ));
        }
    }
}

proof fn lemma_moving(
    r: Registry,
    vocabulary: Vocabulary,
    from: Seq<char>,
    to: Seq<char>,
    spanning: Seq<char>,
    inverse: Seq<char>,
    disk: Disk,
    n: nat,
)
    ensures
        moving(
            r,
            vocabulary,
            disk,
            TaskView::Rename { from, to, spanning, inverse },
            phase_after(
                r,
                vocabulary,
                TaskView::Rename { from, to, spanning, inverse },
                disk,
                n,
            ),
        ),
    decreases n,
{
    let task = TaskView::Rename { from, to, spanning, inverse };
    if n > 0 {
        let phase = phase_after(r, vocabulary, task, disk, (n - 1) as nat);
        lemma_moving(r, vocabulary, from, to, spanning, inverse, disk, (n - 1) as nat);
        match phase {
            PhaseView::Text => {
                if let Ok(text) = (disk.texts)(from) {
                    if let Ok(d) = document_in(text) {
                        parent_is_where_the_first_link_leads(r, from, d.meta, inverse);
                        if single_target_of(r, d.meta, inverse, from) is None {
                            let children = led_paths(r, from, children_of(vocabulary, d.meta));
                            assert(parent_read(r, disk, from, inverse, None));
                            assert(readable(disk.texts, children.take(0)) =~= Seq::empty());
                            lemma_with_children(
                                r,
                                vocabulary,
                                disk,
                                from,
                                to,
                                spanning,
                                inverse,
                                text,
                                None,
                                0,
                            );
                        }
                    }
                }
            },
            PhaseView::Parent { text, parent, children } => {
                if let Ok(t) = (disk.texts)(parent) {
                    let read = Some(LoadedView { path: parent, text: t });
                    assert(parent_read(r, disk, from, inverse, read));
                    assert(readable(disk.texts, children.take(0)) =~= Seq::empty());
                    lemma_with_children(
                        r,
                        vocabulary,
                        disk,
                        from,
                        to,
                        spanning,
                        inverse,
                        text,
                        read,
                        0,
                    );
                }
            },
            PhaseView::Child { text, parent, children, asked, loaded } => {
                assert(children.take(asked + 1).drop_last() =~= children.take(asked));
                assert(children.take(asked + 1).last() == children[asked]);
                lemma_with_children(
                    r,
                    vocabulary,
                    disk,
                    from,
                    to,
                    spanning,
                    inverse,
                    text,
                    parent,
                    asked + 1,
                );
            },
            _ => {},
        }
    }
}

/// Law: whatever an operation that moves a document has carried out moves it whole: the
/// document, the parent it names and every child it links to are all rewritten as the move
/// needs it, where nothing was in the way.
pub proof fn moving_moves(
    r: Registry,
    vocabulary: Vocabulary,
    from: Seq<char>,
    to: Seq<char>,
    spanning: Seq<char>,
    inverse: Seq<char>,
    disk: Disk,
    n: nat,
)
    ensures
        phase_after(
            r,
            vocabulary,
            TaskView::Rename { from, to, spanning, inverse },
            disk,
            n,
        ) matches PhaseView::Carry { ops, done } ==> 0 <= done < ops.len() && moved_whole(
            r,
            vocabulary,
            disk,
            from,
            to,
            spanning,
            inverse,
            ops,
        ),
{
    lemma_moving(r, vocabulary, from, to, spanning, inverse, disk, n);
}

/// Law: an operation that ends well has had its whole plan carried out: every storage operation
/// of it was asked for, first to last.
pub proof fn success_means_carried_out(
    r: Registry,
    vocabulary: Vocabulary,
    task: TaskView,
    disk: Disk,
    n: nat,
)
    requires
        phase_after(r, vocabulary, task, disk, n) == PhaseView::Done(Ok::<(), Failure>(())),
    ensures
        exists|ops: Seq<OpView>, m: nat|
            ops.len() > 0 && #[trigger] carried_from(r, vocabulary, task, disk, ops, m),
    decreases n,
{
    if n > 0 {
        let before = (n - 1) as nat;
        let phase = phase_after(r, vocabulary, task, disk, before);
        match task {
            TaskView::Create { path, parent, spanning, inverse } => {
                lemma_creating(r, vocabulary, path, parent, spanning, inverse, disk, before);
                creating_creates(r, vocabulary, path, parent, spanning, inverse, disk, n);
            },
            TaskView::Rename { from, to, spanning, inverse } => {
                lemma_moving(r, vocabulary, from, to, spanning, inverse, disk, before);
            },
            TaskView::Delete { path, spanning, inverse, force } => {
                lemma_going(r, vocabulary, path, spanning, inverse, force, disk, before);
            },
        }
        match phase {
            PhaseView::Done(_) => {
                success_means_carried_out(r, vocabulary, task, disk, before);
            },
            PhaseView::Carry { ops, done } => {
                assert(done + 1 == ops.len());
                lemma_carried_so_far(r, vocabulary, task, disk, before, done as nat);
                let m = (before - done) as nat;
                assert(carried_from(r, vocabulary, task, disk, ops, m));
            },
            _ => {
                lemma_plans_are_not_empty(r, vocabulary, task, disk, before);
            },
        }
    }
}

/// Whether the storage operations `ops` were asked for one after the other, from the `m`th
/// question on.
pub open spec fn carried_from(
    r: Registry,
    vocabulary: Vocabulary,
    task: TaskView,
    disk: Disk,
    ops: Seq<OpView>,
    m: nat,
) -> bool {
    forall|k: nat|
        k < ops.len() ==> ask_of(
            task,
            #[trigger] phase_after(r, vocabulary, task, disk, m + k),
        ) == Some(AskView::Carry(ops[k as int])) && phase_after(
            r,
            vocabulary,
            task,
            disk,
            m + k,
        ) == (PhaseView::Carry { ops, done: k as int })
}

proof fn lemma_carried_so_far(
    r: Registry,
    vocabulary: Vocabulary,
    task: TaskView,
    disk: Disk,
    n: nat,
    done: nat,
)
    requires
        phase_after(r, vocabulary, task, disk, n) matches PhaseView::Carry { ops, done: d } && d
            == done && done < ops.len(),
    ensures
        done <= n,
        forall|k: nat|
            k <= done ==> #[trigger] phase_after(
                r,
                vocabulary,
                task,
                disk,
                (n - done + k) as nat,
            ) == (PhaseView::Carry {
                ops: phase_after(r, vocabulary, task, disk, n)->ops,
                done: k as int,
            }),
    decreases done,
{
    let ops = phase_after(r, vocabulary, task, disk, n)->ops;
    if done > 0 {
        lemma_carry_before(r, vocabulary, task, disk, n);
        let before = (n - 1) as nat;
        let less = (done - 1) as nat;
        lemma_carried_so_far(r, vocabulary, task, disk, before, less);
        assert forall|k: nat| k <= done implies #[trigger] phase_after(
            r,
            vocabulary,
            task,
            disk,
            (n - done + k) as nat,
        ) == (PhaseView::Carry { ops, done: k as int }) by {
            if k < done {
                assert((n - done + k) as nat == (before - less + k) as nat);
            } else {
                assert((n - done + k) as nat == n);
            }
        }
    } else {
        assert forall|k: nat| k <= done implies #[trigger] phase_after(
            r,
            vocabulary,
            task,
            disk,
            (n - done + k) as nat,
        ) == (PhaseView::Carry { ops, done: k as int }) by {
            assert((n - done + k) as nat == n);
        }
    }
}

/// An operation that has a storage operation carried out that is not the first of its plan had
/// the one before carried out before.
proof fn lemma_carry_before(
    r: Registry,
    vocabulary: Vocabulary,
    task: TaskView,
    disk: Disk,
    n: nat,
)
    requires
        phase_after(r, vocabulary, task, disk, n) matches PhaseView::Carry { done, .. } && done
            > 0,
    ensures
        n > 0,
        phase_after(r, vocabulary, task, disk, (n - 1) as nat) == (PhaseView::Carry {
            ops: phase_after(r, vocabulary, task, disk, n)->ops,
            done: phase_after(r, vocabulary, task, disk, n)->Carry_done - 1,
        }),
{
}

proof fn lemma_plans_are_not_empty(
    r: Registry,
    vocabulary: Vocabulary,
    task: TaskView,
    disk: Disk,
    n: nat,
)
    requires
        !(phase_after(r, vocabulary, task, disk, n) is Carry),
        !(phase_after(r, vocabulary, task, disk, n) is Done),
    ensures
        phase_after(r, vocabulary, task, disk, n + 1) != PhaseView::Done(Ok::<(), Failure>(())),
{
    let phase = phase_after(r, vocabulary, task, disk, n);
    match task {
        TaskView::Create { path, parent, spanning, inverse } => {
            lemma_creating(r, vocabulary, path, parent, spanning, inverse, disk, n);
            assert(phase is Place || phase is Text);
        },
        TaskView::Rename { .. } => {},
        TaskView::Delete { path, spanning, inverse, force } => {
            lemma_going(r, vocabulary, path, spanning, inverse, force, disk, n);
            assert(phase is Text || phase is Parent);
        },
    }
    let ask = ask_of(task, phase)->Some_0;
    lemma_no_empty_plan(r, vocabulary, task, phase, told(disk, ask));
}

/// No operation is over well with a step that carries nothing out.
#[verifier::spinoff_prover]
#[verifier::rlimit(50)]
proof fn lemma_no_empty_plan(
    r: Registry,
    vocabulary: Vocabulary,
    task: TaskView,
    phase: PhaseView,
    answer: AnswerView,
)
    requires
        !(phase is Carry),
        !(phase is Done),
        task is Create ==> phase is Place || phase is Text,
        task is Delete ==> phase is Text || phase is Parent,
    ensures
        answered(r, vocabulary, task, phase, answer) != PhaseView::Done(Ok::<(), Failure>(())),
{
}

// ---- refusals ----

/// Whether `fig` gave an error with these words.
pub open spec fn said_by_fig(m: Seq<char>) -> bool {
    ||| exists|t: Seq<char>, k: EmbedKind| #[trigger] opening(t, k) == Err::<(), Seq<char>>(m)
    ||| exists|t: Seq<char>, k: EmbedKind| #[trigger] initiating(t, k) == Err::<(), Seq<char>>(m)
    ||| exists|h: History, e: Edit| #[trigger] outcome_of(h, e) == Err::<(), Seq<char>>(m)
    ||| exists|h: History| #[trigger] rendering(h) == Err::<Seq<char>, Seq<char>>(m)
}

/// Whether an error is one that `fig` gave.
pub open spec fn is_figs(e: Failure) -> bool {
    e matches Failure::Fig(m) && said_by_fig(m)
}

proof fn lemma_replayed_refused(h: History, edits: Seq<Replacement>)
    requires
        replayed(h, edits) is Err,
    ensures
        said_by_fig(replayed(h, edits)->Err_0),
    decreases edits.len(),
{
    if edits.len() > 0 {
        match replayed(h, edits.drop_last()) {
            Ok(h1) => {
                let last = edits.last();
                let e = Edit::Replace(last.path, Tree::Text(last.text));
                assert(outcome_of(h1, e) == Err::<(), Seq<char>>(replayed(h, edits)->Err_0));
            },
            Err(_) => {
                lemma_replayed_refused(h, edits.drop_last());
            },
        }
    }
}

proof fn lemma_replaced_refused(text: Seq<char>, kind: EmbedKind, edits: Seq<Replacement>)
    ensures
        replaced_text(text, kind, edits) matches Err(e) ==> is_figs(e),
{
    let start = fresh(text, kind, false);
    if replayed(start, edits) is Err {
        lemma_replayed_refused(start, edits);
    }
}

proof fn lemma_new_refused(kind: EmbedKind, title: Seq<char>, inverse: Seq<char>, up: Seq<char>)
    ensures
        new_text(kind, title, inverse, up) matches Err(e) ==> is_figs(e),
{
    let h0 = fresh(Seq::empty(), kind, true);
    let a = Edit::Put(seq![StepView::Key("title"@)], Tree::Text(title));
    let b = Edit::Put(seq![StepView::Key(inverse)], Tree::Text(up));
    let x = outcome_of(h0, a);
    let y = outcome_of(after(h0, a), b);
    let z = rendering(after(after(h0, a), b));
}

proof fn lemma_extended_refused(
    text: Seq<char>,
    kind: EmbedKind,
    meta: Tree,
    spanning: Seq<char>,
    down: Seq<char>,
)
    ensures
        extended_text(text, kind, meta, spanning, down) matches Err(e) ==> is_figs(e),
{
    let h0 = fresh(text, kind, true);
    let p = seq![StepView::Key(spanning)];
    let h1 = after(h0, Edit::Append(p, Tree::Text(down)));
    let put = Edit::Put(p, grown_list(meta, spanning, down));
    let x = outcome_of(h0, put);
    let y = outcome_of(h1, put);
}

proof fn lemma_removed_refused(
    text: Seq<char>,
    kind: EmbedKind,
    v: Tree,
    spanning: Seq<char>,
    index: int,
)
    ensures
        removed_text(text, kind, v, spanning, index) matches Err(e) ==> is_figs(e),
{
    let h = fresh(text, kind, false);
    let p = seq![StepView::Key(spanning)];
    let x = outcome_of(h, Edit::Remove(p, index));
    let y = outcome_of(h, Edit::Delete(p));
}

/// Law: a creation is planned unless its parent cannot be parsed or `fig` refuses an edit.
pub proof fn creation_is_refused_for_cause(
    path: Seq<char>,
    parent: LoadedView,
    spanning: Seq<char>,
    inverse: Seq<char>,
)
    ensures
        creation_ops(path, parent.path, spanning, inverse, parent.text) matches Err(e)
            ==> document_in(parent.text) == Err::<DocumentView, Failure>(e) || (document_in(
            parent.text,
        ) is Ok && is_figs(e)),
{
    if let Ok(d) = document_in(parent.text) {
        let up = relative_text(dir_text(path), parent.path);
        let down = relative_text(dir_text(parent.path), path);
        lemma_new_refused(embed_kind(d), stem_of(path), inverse, up);
        lemma_extended_refused(parent.text, embed_kind(d), d.meta, spanning, down);
    }
}

/// Law: a deletion is planned unless the parent cannot be parsed or `fig` refuses an edit.
pub proof fn deletion_is_refused_for_cause(
    r: Registry,
    spanning: Seq<char>,
    path: Seq<char>,
    parent: Option<LoadedView>,
)
    ensures
        deletion_ops(r, spanning, path, parent) matches Err(e) ==> (parent matches Some(p) && (
        document_in(p.text) == Err::<DocumentView, Failure>(e) || (document_in(p.text) is Ok
            && is_figs(e)))),
{
    if let Some(p) = parent {
        if let Ok(d) = document_in(p.text) {
            if let Some(i) = entry_position(r, d.meta, spanning, p.path, path) {
                lemma_removed_refused(
                    p.text,
                    embed_kind(d),
                    field(d.meta, spanning)->Some_0,
                    spanning,
                    i,
                );
            }
        }
    }
}

proof fn lemma_relinked_refused(
    r: Registry,
    key: Seq<char>,
    from: Seq<char>,
    to: Seq<char>,
    doc: LoadedView,
)
    ensures
        relinked(r, key, from, to, doc) matches Err(e) ==> document_in(doc.text) == Err::<
            DocumentView,
            Failure,
        >(e) || (document_in(doc.text) is Ok && is_figs(e)),
{
    if let Ok(d) = document_in(doc.text) {
        if let Some(i) = entry_position(r, d.meta, key, doc.path, from) {
            let v = field(d.meta, key)->Some_0;
            let raw = items_of(v)[i]->Some_0;
            let edit = Replacement {
                path: entry_path(v, key, i),
                text: retargeted_link(doc.path, raw, to),
            };
            lemma_replaced_refused(doc.text, embed_kind(d), seq![edit]);
        }
    }
}

proof fn lemma_children_refused(
    r: Registry,
    key: Seq<char>,
    from: Seq<char>,
    to: Seq<char>,
    children: Seq<LoadedView>,
)
    ensures
        children_relinked(r, key, from, to, children) matches Err(e) ==> is_figs(e),
    decreases children.len(),
{
    if children.len() > 0 {
        lemma_children_refused(r, key, from, to, children.drop_last());
        lemma_relinked_refused(r, key, from, to, children.last());
    }
}

/// Law: a move is planned unless the document or its parent cannot be parsed or `fig` refuses an
/// edit. A child that cannot be parsed is no hindrance.
pub proof fn move_is_refused_for_cause(
    r: Registry,
    relations: Seq<RelationView>,
    spanning: Seq<char>,
    inverse: Seq<char>,
    from: LoadedView,
    to: Seq<char>,
    parent: Option<LoadedView>,
    children: Seq<LoadedView>,
)
    ensures
        renaming_ops(r, relations, spanning, inverse, from, to, parent, children) matches Err(e)
            ==> {
            ||| document_in(from.text) == Err::<DocumentView, Failure>(e)
            ||| parent matches Some(p) && document_in(p.text) == Err::<DocumentView, Failure>(e)
            ||| is_figs(e)
        },
{
    if let Some(p) = parent {
        lemma_relinked_refused(r, spanning, from.path, to, p);
    }
    lemma_children_refused(r, inverse, from.path, to, children);
    if let Ok(d) = document_in(from.text) {
        lemma_replaced_refused(
            from.text,
            embed_kind(d),
            rewrites(relations, d.meta, from.path, to),
        );
    }
}

/// Whether an error is that of a document on a disk, or of reading it.
pub open spec fn of_document(disk: Disk, e: Failure) -> bool {
    exists|p: Seq<char>|
        match #[trigger] (disk.texts)(p) {
            Ok(text) => document_in(text) == Err::<DocumentView, Failure>(e),
            Err(io) => e == Failure::Io(io.0, io.1),
        }
}

/// Whether an error is that of a disk asked whether something is there.
pub open spec fn of_question(disk: Disk, e: Failure) -> bool {
    exists|p: Seq<char>|
        match #[trigger] (disk.holds)(p) {
            Ok(_) => false,
            Err(io) => e == Failure::Io(io.0, io.1),
        }
}

/// Whether an operation may end in an error on a disk: something is in the way or not there,
/// the document has children, or the storage, a document or `fig` is at fault.
pub open spec fn has_cause(vocabulary: Vocabulary, task: TaskView, disk: Disk, e: Failure) -> bool {
    ||| of_document(disk, e)
    ||| of_question(disk, e)
    ||| is_figs(e)
    ||| match task {
        TaskView::Create { path, .. } => e is Structure && (disk.holds)(path) == Ok::<
            bool,
            (StorageErrorKind, Seq<char>),
        >(true),
        TaskView::Rename { from, to, .. } => e is Structure && ((disk.holds)(from) == Ok::<
            bool,
            (StorageErrorKind, Seq<char>),
        >(false) || (disk.holds)(to) == Ok::<bool, (StorageErrorKind, Seq<char>)>(true)),
        TaskView::Delete { path, force, .. } => e is Structure && !force && !deletable(
            vocabulary,
            disk,
            path,
            force,
        ),
    }
}

/// Law: an operation ends in an error only for cause.
pub proof fn operation_fails_for_cause(
    r: Registry,
    vocabulary: Vocabulary,
    task: TaskView,
    disk: Disk,
    n: nat,
)
    ensures
        phase_after(r, vocabulary, task, disk, n) matches PhaseView::Done(Err(e)) ==> has_cause(
            vocabulary,
            task,
            disk,
            e,
        ),
    decreases n,
{
    if n > 0 {
        let before = (n - 1) as nat;
        let phase = phase_after(r, vocabulary, task, disk, before);
        operation_fails_for_cause(r, vocabulary, task, disk, before);
        match task {
            TaskView::Create { path, parent, spanning, inverse } => {
                lemma_creating(r, vocabulary, path, parent, spanning, inverse, disk, before);
                let x = (disk.holds)(path);
                if phase is Text {
                    if let Ok(text) = (disk.texts)(parent) {
                        creation_is_refused_for_cause(
                            path,
                            LoadedView { path: parent, text },
                            spanning,
                            inverse,
                        );
                    }
                }
            },
            TaskView::Rename { from, to, spanning, inverse } => {
                lemma_moving(r, vocabulary, from, to, spanning, inverse, disk, before);
                let x = (disk.holds)(from);
                let y = (disk.holds)(to);
                let z = (disk.texts)(from);
                if !(phase is Done) {
                    lemma_move_cause(r, vocabulary, from, to, spanning, inverse, disk, phase);
                }
            },
            TaskView::Delete { path, spanning, inverse, force } => {
                lemma_going(r, vocabulary, path, spanning, inverse, force, disk, before);
                match phase {
                    PhaseView::Text => {
                        if let Ok(text) = (disk.texts)(path) {
                            if let Ok(d) = document_in(text) {
                                let doc = LoadedView { path, text };
                                children_stop_a_deletion(r, vocabulary, inverse, doc, force, d);
                                deletion_is_refused_for_cause(r, spanning, path, None);
                            }
                        }
                    },
                    PhaseView::Parent { parent, .. } => {
                        if let Ok(text) = (disk.texts)(parent) {
                            deletion_is_refused_for_cause(
                                r,
                                spanning,
                                path,
                                Some(LoadedView { path: parent, text }),
                            );
                        }
                    },
                    _ => {},
                }
            },
        }
    }
}

/// What a move that ends in an error after a phase ends in it for.
proof fn lemma_move_cause(
    r: Registry,
    vocabulary: Vocabulary,
    from: Seq<char>,
    to: Seq<char>,
    spanning: Seq<char>,
    inverse: Seq<char>,
    disk: Disk,
    phase: PhaseView,
)
    requires
        moving(r, vocabulary, disk, TaskView::Rename { from, to, spanning, inverse }, phase),
        !(phase is Done),
    ensures
        ({
            let task = TaskView::Rename { from, to, spanning, inverse };
            ask_of(task, phase) matches Some(ask) ==> (answered(
                r,
                vocabulary,
                task,
                phase,
                told(disk, ask),
            ) matches PhaseView::Done(Err(e)) ==> has_cause(vocabulary, task, disk, e))
        }),
{
    let x = (disk.holds)(from);
    let y = (disk.holds)(to);
    let z = (disk.texts)(from);
    match phase {
        PhaseView::Text => {
            if let Ok(text) = (disk.texts)(from) {
                if let Ok(d) = document_in(text) {
                    let doc = LoadedView { path: from, text };
                    move_is_refused_for_cause(
                        r,
                        vocabulary.relations,
                        spanning,
                        inverse,
                        doc,
                        to,
                        None,
                        Seq::empty(),
                    );
                }
            }
        },
        PhaseView::Parent { text, parent, .. } => {
            if let Ok(t) = (disk.texts)(parent) {
                move_is_refused_for_cause(
                    r,
                    vocabulary.relations,
                    spanning,
                    inverse,
                    LoadedView { path: from, text },
                    to,
                    Some(LoadedView { path: parent, text: t }),
                    Seq::empty(),
                );
            }
        },
        PhaseView::Child { text, parent, children, asked, loaded } => {
            let more = match (disk.texts)(children[asked]) {
                Ok(t) => loaded.push(LoadedView { path: children[asked], text: t }),
                Err(_) => loaded,
            };
            move_is_refused_for_cause(
                r,
                vocabulary.relations,
                spanning,
                inverse,
                LoadedView { path: from, text },
                to,
                parent,
                more,
            );
            if let Some(p) = parent {
                assert((disk.texts)(p.path) == Ok::<Seq<char>, (StorageErrorKind, Seq<char>)>(
                    p.text,
                ));
            }
        },
        _ => {},
    }
}

} // verus!
