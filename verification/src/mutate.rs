//! Mutation with link maintenance.
//!
//! Creating, moving and deleting a document are never single-file operations in a
//! linked workspace: the spanning relation and its inverse live in other
//! documents, and every touched link must keep pointing at the truth. Each
//! operation here says which documents it needs, computes every edit from their
//! texts, and only then hands out the storage operations to carry out, in order.
//! The `operation` module takes an operation through its steps.
//!
//! Identity is additive: everything works on paths and never requires an ID. When
//! there is a registry, each operation keeps it true, and a `colophon:<id>` entry
//! in another document is deliberately not rewritten by a move: the registry
//! keeps it resolving, which is the point of linking by ID.
use vstd::prelude::*;

use crate::document::{
    begun_document_reads_back, document_in, edited_document_reads_back, embed_kind, keeps_edits,
    Document, DocumentView,
};
use crate::embed::{
    after, appending, applied, deleting, edited, fresh, holds_json, initiating, is_item, is_key, opening,
    outcome_of, reads_back, removing, rendering, replacing, setting, steps, with_text_at, BlockEditor, Edit,
    EmbedKind, History, Step, StepView,
};
use crate::error::{fig_result, text_result, Failure, WorkspaceError};
use crate::identity::{Id, IdentityPolicy, Trigger};
use crate::index::{plain_moved, FileIndex, IndexStore, Registry};
use crate::link::{
    dir_of, dir_text, external_target, id_target_reads_back, labeled, lemma_dir_text_reads_back,
    link_of, link_text, named_id, normalize, normalized, reaches, relative, relative_resolves,
    relative_text, render_then_parse, resolve, resolve_is_normalized, resolved, Link, LinkView,
    ID_SCHEME,
};
use crate::meta::{
    entry, field, made_of_texts, single_keyed, texts, with_entry, with_field, with_item, with_put, MetaValue, Tree,
};
use crate::path::{components, dir_comps, file_name, is_rooted, last_name, rooted, same_path};
use crate::relation::{
    children_of, inverse_named, links_in, links_under, option_view, spanning_inverse, Relation,
    RelationView, Vocabulary,
};
use crate::text::{chars_of, digits, digits_of, join, joined, text_of, views};
use crate::workspace::{all_free, exhausted, issued, target_of, Target, TargetView, Workspace, NO_UNUSED_ID};

verus! {

/// One storage operation. Paths are relative to the workspace root.
#[derive(Debug, Clone, PartialEq, Eq)]
pub enum FsOp {
    /// Create a directory and all its parents.
    CreateDirAll(String),
    /// Write a text, replacing what is there.
    Write(String, String),
    /// Move a file.
    Rename(String, String),
    /// Remove a file.
    RemoveFile(String),
}

/// A storage operation, as a mathematical value.
pub enum OpView {
    /// See [`FsOp::CreateDirAll`].
    CreateDirAll(Seq<char>),
    /// See [`FsOp::Write`].
    Write(Seq<char>, Seq<char>),
    /// See [`FsOp::Rename`].
    Rename(Seq<char>, Seq<char>),
    /// See [`FsOp::RemoveFile`].
    RemoveFile(Seq<char>),
}

impl View for FsOp {
    type V = OpView;

    open spec fn view(&self) -> OpView {
        match self {
            FsOp::CreateDirAll(d) => OpView::CreateDirAll(d@),
            FsOp::Write(p, t) => OpView::Write(p@, t@),
            FsOp::Rename(a, b) => OpView::Rename(a@, b@),
            FsOp::RemoveFile(p) => OpView::RemoveFile(p@),
        }
    }
}

impl FsOp {
    /// A copy of this operation.
    pub fn copy(&self) -> (r: FsOp)
        ensures
            r@ == self@,
    {
        match self {
            FsOp::CreateDirAll(d) => FsOp::CreateDirAll(d.clone()),
            FsOp::Write(p, t) => FsOp::Write(p.clone(), t.clone()),
            FsOp::Rename(a, b) => FsOp::Rename(a.clone(), b.clone()),
            FsOp::RemoveFile(p) => FsOp::RemoveFile(p.clone()),
        }
    }
}

/// Storage operations, as mathematical values.
pub open spec fn ops_view(ops: Seq<FsOp>) -> Seq<OpView> {
    ops.map_values(|o: FsOp| o@)
}

/// The outcome of planning an operation.
pub open spec fn plan_view(r: Result<Vec<FsOp>, WorkspaceError>) -> Result<Seq<OpView>, Failure> {
    match r {
        Ok(ops) => Ok(ops_view(ops@)),
        Err(e) => Err(e@),
    }
}

/// A document that was read from the storage.
#[derive(Debug, Clone, PartialEq, Eq)]
pub struct Loaded {
    /// The document's path.
    pub path: String,
    /// The document's text.
    pub text: String,
}

/// A document that was read, as a mathematical value.
pub struct LoadedView {
    /// See [`Loaded::path`].
    pub path: Seq<char>,
    /// See [`Loaded::text`].
    pub text: Seq<char>,
}

impl View for Loaded {
    type V = LoadedView;

    open spec fn view(&self) -> LoadedView {
        LoadedView { path: self.path@, text: self.text@ }
    }
}

// ---- messages ----

/// What a caller is told whose vocabulary has no spanning relation.
pub const NO_SPANNING: &'static str = "no spanning relation configured";

/// What a caller is told whose spanning relation has no inverse.
pub open spec fn no_inverse(spanning: Seq<char>) -> Seq<char> {
    "spanning relation `"@ + spanning + "` has no inverse"@
}

/// What a caller is told who wants a path that is taken.
pub open spec fn already_exists(path: Seq<char>) -> Seq<char> {
    path + " already exists"@
}

/// What a caller is told who names a path with nothing there.
pub open spec fn does_not_exist(path: Seq<char>) -> Seq<char> {
    path + " does not exist"@
}

/// What a caller is told who deletes a document that has children.
pub open spec fn has_children(path: Seq<char>, children: Seq<Seq<char>>) -> Seq<char> {
    path + " contains "@ + digits(children.len()) + " document(s) ("@ + joined(children, ", "@)
        + "); delete them first or force"@
}

/// A text followed by another.
fn joined_text(a: &str, b: &str) -> (r: String)
    ensures
        r@ == a@ + b@,
{
    let mut out = a.to_owned();
    out.append(b);
    out
}

// ---- the vocabulary ----

/// The spanning relation and its inverse, which every mutation needs.
pub open spec fn pair_of(vocabulary: Vocabulary) -> Result<(Seq<char>, Seq<char>), Failure> {
    match vocabulary.spanning {
        None => Err(Failure::Structure(NO_SPANNING@)),
        Some(s) => match inverse_named(vocabulary.relations, s) {
            None => Err(Failure::Structure(no_inverse(s))),
            Some(i) => Ok((s, i)),
        },
    }
}

// ---- entries ----

/// The link texts of a field, item by item: a text stands alone, and an item of a
/// sequence that is not a text is no link.
pub open spec fn items_of(t: Tree) -> Seq<Option<Seq<char>>> {
    match t {
        Tree::Text(s) => seq![Some(s)],
        Tree::List(items) => items.map_values(
            |i: Tree|
                match i {
                    Tree::Text(s) => Some(s),
                    _ => None::<Seq<char>>,
                },
        ),
        _ => Seq::empty(),
    }
}

/// Whether a link text in `doc` leads to `wanted`.
pub open spec fn leads(r: Registry, doc: Seq<char>, item: Option<Seq<char>>, wanted: Seq<char>) -> bool {
    item matches Some(raw) && target_of(r, doc, link_of(raw)) == TargetView::Path(wanted)
}

/// The position of the first item from `n` on that leads to `wanted`.
pub open spec fn position_from(
    r: Registry,
    doc: Seq<char>,
    items: Seq<Option<Seq<char>>>,
    wanted: Seq<char>,
    n: nat,
) -> Option<int>
    decreases items.len() - n,
{
    if n >= items.len() {
        None
    } else if leads(r, doc, items[n as int], wanted) {
        Some(n as int)
    } else {
        position_from(r, doc, items, wanted, n + 1)
    }
}

/// The position of the entry in the field `key` of `doc` that leads to `wanted`.
pub open spec fn entry_position(
    r: Registry,
    meta: Tree,
    key: Seq<char>,
    doc: Seq<char>,
    wanted: Seq<char>,
) -> Option<int> {
    match field(meta, key) {
        Some(v) => position_from(r, doc, items_of(v), wanted, 0),
        None => None,
    }
}

/// The path that the first link in the field `key` of `doc` leads to.
pub open spec fn single_target_of(r: Registry, meta: Tree, key: Seq<char>, doc: Seq<char>) -> Option<
    Seq<char>,
> {
    let links = links_under(meta, key);
    if links.len() == 0 {
        None
    } else {
        match target_of(r, doc, link_of(links[0])) {
            TargetView::Path(p) => Some(p),
            _ => None,
        }
    }
}

/// A link text with its target changed so that it leads from `doc` to `new`. The
/// label stays.
pub open spec fn retargeted_link(doc: Seq<char>, raw: Seq<char>, new: Seq<char>) -> Seq<char> {
    link_text(
        LinkView { label: link_of(raw).label, target: relative_text(dir_text(doc), new) },
    )
}

// ---- edits ----

/// A replacement of the value at a path by a text.
pub struct Replacement {
    /// Where.
    pub path: Seq<StepView>,
    /// The new text.
    pub text: Seq<char>,
}

/// What replacing values one after the other makes of an embed, up to the first
/// that is refused.
pub open spec fn replayed(h: History, edits: Seq<Replacement>) -> Result<History, Seq<char>>
    decreases edits.len(),
{
    if edits.len() == 0 {
        Ok(h)
    } else {
        match replayed(h, edits.drop_last()) {
            Ok(h1) => {
                let last = edits.last();
                match replacing(h1, last.path, Tree::Text(last.text)) {
                    Ok(_) => Ok(after(h1, Edit::Replace(last.path, Tree::Text(last.text)))),
                    Err(m) => Err(m),
                }
            },
            Err(m) => Err(m),
        }
    }
}

/// A document's text with values of its metadata replaced.
pub open spec fn replaced_text(text: Seq<char>, kind: EmbedKind, edits: Seq<Replacement>) -> Result<
    Seq<char>,
    Failure,
> {
    match opening(text, kind) {
        Err(m) => Err(Failure::Fig(m)),
        Ok(_) => match replayed(fresh(text, kind, false), edits) {
            Err(m) => Err(Failure::Fig(m)),
            Ok(h) => fig_result(rendering(h)),
        },
    }
}

/// The path of an entry: the key alone for a field that is one text, the key and
/// the position for a sequence.
pub open spec fn entry_path(v: Tree, key: Seq<char>, index: int) -> Seq<StepView> {
    if v is List {
        seq![StepView::Key(key), StepView::Index(index)]
    } else {
        seq![StepView::Key(key)]
    }
}

/// The text of a document after its entry in the field `key` that leads to `old`
/// is made to lead to `new`. Nothing where no entry leads to `old`, or where the
/// entry is a link by ID: the registry keeps that resolving.
pub open spec fn retargeted(
    r: Registry,
    text: Seq<char>,
    d: DocumentView,
    key: Seq<char>,
    doc: Seq<char>,
    old_path: Seq<char>,
    new_path: Seq<char>,
) -> Result<Option<Seq<char>>, Failure> {
    match entry_position(r, d.meta, key, doc, old_path) {
        None => Ok(None),
        Some(i) => {
            let v = field(d.meta, key)->Some_0;
            let raw = items_of(v)[i]->Some_0;
            if named_id(link_of(raw).target) is Some {
                Ok(None)
            } else {
                let edit = Replacement {
                    path: entry_path(v, key, i),
                    text: retargeted_link(doc, raw, new_path),
                };
                match replaced_text(text, embed_kind(d), seq![edit]) {
                    Ok(t) => Ok(Some(t)),
                    Err(e) => Err(e),
                }
            }
        },
    }
}

/// The metadata of a document after its entry in the field `key` that leads to `old` is made
/// to lead to `new`.
pub open spec fn retargeted_meta(
    r: Registry,
    meta: Tree,
    key: Seq<char>,
    doc: Seq<char>,
    old_path: Seq<char>,
    new_path: Seq<char>,
) -> Tree {
    let i = entry_position(r, meta, key, doc, old_path)->Some_0;
    let v = field(meta, key)->Some_0;
    with_replaced(
        meta,
        Replacement {
            path: entry_path(v, key, i),
            text: retargeted_link(doc, items_of(v)[i]->Some_0, new_path),
        },
    )
}

/// The link text that keeps leading where `raw` leads when its document moves.
/// Nothing for links that do not depend on where the document lives: those out of the
/// workspace, those by ID and those to a rooted path.
pub open spec fn moved_link(raw: Seq<char>, from: Seq<char>, to: Seq<char>) -> Option<Seq<char>> {
    let link = link_of(raw);
    if external_target(link.target) || named_id(link.target) is Some || rooted(
        components(link.target),
    ) {
        None
    } else {
        Some(retargeted_link(to, raw, resolved(from, link.target)))
    }
}

/// The replacements for the first `n` items of a field whose document moves.
pub open spec fn item_rewrites(
    v: Tree,
    key: Seq<char>,
    from: Seq<char>,
    to: Seq<char>,
    n: nat,
) -> Seq<Replacement>
    decreases n,
{
    if n == 0 {
        Seq::empty()
    } else {
        let rest = item_rewrites(v, key, from, to, (n - 1) as nat);
        match items_of(v)[n - 1] {
            Some(raw) => match moved_link(raw, from, to) {
                Some(text) => rest.push(Replacement { path: entry_path(v, key, n - 1), text }),
                None => rest,
            },
            None => rest,
        }
    }
}

/// The replacements for one field of a document that moves.
pub open spec fn field_rewrites(meta: Tree, key: Seq<char>, from: Seq<char>, to: Seq<char>) -> Seq<
    Replacement,
> {
    match field(meta, key) {
        Some(v) => item_rewrites(v, key, from, to, items_of(v).len()),
        None => Seq::empty(),
    }
}

/// The replacements for every link a document declares, when it moves.
pub open spec fn rewrites(
    relations: Seq<RelationView>,
    meta: Tree,
    from: Seq<char>,
    to: Seq<char>,
) -> Seq<Replacement>
    decreases relations.len(),
{
    if relations.len() == 0 {
        Seq::empty()
    } else {
        rewrites(relations.drop_last(), meta, from, to) + field_rewrites(
            meta,
            relations.last().name,
            from,
            to,
        )
    }
}

// ---- the machinery ----

/// Link texts, item by item, as mathematical values.
pub open spec fn item_views(list: Seq<Option<String>>) -> Seq<Option<Seq<char>>> {
    list.map_values(|o: Option<String>| option_view(o))
}

/// The link texts of a field, item by item.
fn items_in(v: &MetaValue) -> (r: Vec<Option<String>>)
    ensures
        item_views(r@) == items_of(v@),
{
    let mut out: Vec<Option<String>> = Vec::new();
    if let Some(s) = v.as_str() {
        out.push(Some(s.to_owned()));
        assert(item_views(out@) =~= items_of(v@));
        return out;
    }
    if let Some(items) = v.as_sequence() {
        let ghost all = items_of(v@);
        let ghost trees = v@->List_0;
        let mut i: usize = 0;
        while i < items.len()
            invariant
                i <= items@.len(),
                v@ == Tree::List(trees),
                trees == items@.map_values(|v: MetaValue| v@),
                all == items_of(v@),
                item_views(out@) =~= all.take(i as int),
            decreases items@.len() - i,
        {
            let ghost before = item_views(out@);
            assert(trees[i as int] == items@[i as int]@);
            assert(all.take(i + 1) =~= all.take(i as int).push(all[i as int]));
            match items[i].as_str() {
                Some(s) => {
                    out.push(Some(s.to_owned()));
                    assert(item_views(out@) =~= before.push(Some(s@)));
                },
                None => {
                    out.push(None);
                    assert(item_views(out@) =~= before.push(None));
                },
            }
            i += 1;
        }
        assert(all.take(i as int) =~= all);
    } else {
        assert(item_views(out@) =~= Seq::empty());
    }
    out
}

/// A replacement to make: where, and the new text.
struct Rewrite {
    path: Vec<Step>,
    text: String,
}

/// Replacements, as mathematical values.
spec fn rewrite_views(list: Seq<Rewrite>) -> Seq<Replacement> {
    list.map_values(|w: Rewrite| Replacement { path: steps(w.path@), text: w.text@ })
}

/// A refusal among the first edits is the refusal of all of them.
proof fn lemma_replay_error(h: History, edits: Seq<Replacement>, n: int)
    requires
        0 <= n <= edits.len(),
        replayed(h, edits.take(n)) is Err,
    ensures
        replayed(h, edits) == replayed(h, edits.take(n)),
    decreases edits.len() - n,
{
    if n == edits.len() {
        assert(edits.take(n) =~= edits);
    } else {
        assert(edits.take(n + 1).drop_last() =~= edits.take(n));
        lemma_replay_error(h, edits, n + 1);
    }
}

/// Whether every replacement is of a field, or of an item of one.
pub open spec fn of_entries(edits: Seq<Replacement>) -> bool {
    forall|i: int|
        0 <= i < edits.len() ==> is_key((#[trigger] edits[i]).path) || is_item(edits[i].path)
}

/// What replacements that were all granted make of metadata in JSON.
pub(crate) proof fn lemma_replayed(meta: Tree, start: History, edits: Seq<Replacement>)
    requires
        start.edits.len() == 0,
        of_entries(edits),
        replayed(start, edits) is Ok,
    ensures
        ({
            let h = replayed(start, edits)->Ok_0;
            &&& edited(meta, h) == Some(with_all_replaced(meta, edits))
            &&& h == (History { edits: h.edits, ..start })
        }),
    decreases edits.len(),
{
    let h = replayed(start, edits)->Ok_0;
    if edits.len() > 0 {
        assert forall|i: int| 0 <= i < edits.drop_last().len() implies is_key(
            (#[trigger] edits.drop_last()[i]).path,
        ) || is_item(edits.drop_last()[i].path) by {
            assert(edits[i] == edits.drop_last()[i]);
        }
        lemma_replayed(meta, start, edits.drop_last());
        let h1 = replayed(start, edits.drop_last())->Ok_0;
        assert(edits[edits.len() - 1] == edits.last());
        assert(h.edits.drop_last() =~= h1.edits);
    }
}

/// A document in JSON is read back with the values replaced that were replaced.
proof fn lemma_replaced_reads_back(
    text: Seq<char>,
    d: DocumentView,
    edits: Seq<Replacement>,
    out: Seq<char>,
)
    requires
        document_in(text) == Ok::<DocumentView, Failure>(d),
        keeps_edits(d),
        of_entries(edits),
        replayed(fresh(text, embed_kind(d), false), edits) matches Ok(h) && reads_back(h, out),
    ensures
        document_in(out) == Ok::<DocumentView, Failure>(
            DocumentView { meta: with_all_replaced(d.meta, edits), ..d },
        ),
{
    let start = fresh(text, embed_kind(d), false);
    lemma_replayed(d.meta, start, edits);
    edited_document_reads_back(replayed(start, edits)->Ok_0, out, d);
}

/// Every replacement that a move asks for is of an entry.
pub(crate) proof fn lemma_rewrites_of_entries(
    relations: Seq<RelationView>,
    meta: Tree,
    from: Seq<char>,
    to: Seq<char>,
)
    ensures
        of_entries(rewrites(relations, meta, from, to)),
    decreases relations.len(),
{
    if relations.len() > 0 {
        lemma_rewrites_of_entries(relations.drop_last(), meta, from, to);
        let key = relations.last().name;
        if let Some(v) = field(meta, key) {
            lemma_items_of_entries(v, key, from, to, items_of(v).len());
        }
    }
}

proof fn lemma_items_of_entries(v: Tree, key: Seq<char>, from: Seq<char>, to: Seq<char>, n: nat)
    ensures
        of_entries(item_rewrites(v, key, from, to, n)),
    decreases n,
{
    if n > 0 {
        lemma_items_of_entries(v, key, from, to, (n - 1) as nat);
    }
}

/// A document's text with values of its metadata replaced.
fn replace_all(text: &str, kind: EmbedKind, edits: &Vec<Rewrite>) -> (r: Result<
    String,
    WorkspaceError,
>)
    ensures
        text_result(r) == replaced_text(text@, kind, rewrite_views(edits@)),
        r matches Ok(t) ==> (replayed(fresh(text@, kind, false), rewrite_views(edits@)) matches Ok(
            h,
        ) && reads_back(h, t@)),
{
    let ghost all = rewrite_views(edits@);
    let ghost start = fresh(text@, kind, false);
    let mut block = match BlockEditor::open(text, kind) {
        Ok(b) => b,
        Err(e) => {
            return Err(e);
        },
    };
    let mut i: usize = 0;
    assert(all.take(0) =~= Seq::empty());
    while i < edits.len()
        invariant
            i <= edits@.len(),
            all == rewrite_views(edits@),
            start == fresh(text@, kind, false),
            opening(text@, kind) is Ok,
            replayed(start, all.take(i as int)) == Ok::<History, Seq<char>>(block.past()),
        decreases edits@.len() - i,
    {
        assert(all.take(i + 1).drop_last() =~= all.take(i as int));
        assert(all.take(i + 1).last() == all[i as int]);
        let value = MetaValue::Text(edits[i].text.clone());
        match block.replace(&edits[i].path, &value) {
            Ok(_) => {},
            Err(e) => {
                proof {
                    lemma_replay_error(start, all, i + 1);
                }
                return Err(e);
            },
        }
        i += 1;
    }
    assert(all.take(i as int) =~= all);
    block.render()
}

/// A link text with its target changed so that it leads from `doc` to `new`.
fn retarget_link(doc: &str, link: &Link, new: &str) -> (r: String)
    ensures
        forall|raw: Seq<char>| link_of(raw) == link@ ==> r@ == #[trigger] retargeted_link(
            doc@,
            raw,
            new@,
        ),
{
    let target = relative(dir_of(doc).as_str(), new);
    link.with_target(target.as_str()).render()
}

/// The path of an entry.
fn path_to(v: &MetaValue, key: &str, index: usize) -> (r: Vec<Step>)
    ensures
        steps(r@) == entry_path(v@, key@, index as int),
{
    let mut path: Vec<Step> = Vec::new();
    path.push(Step::Key(key.to_owned()));
    if v.as_sequence().is_some() {
        path.push(Step::Index(index));
    }
    assert(steps(path@) =~= entry_path(v@, key@, index as int));
    path
}

/// The link text that keeps leading where `raw` leads when its document moves.
fn move_link(raw: &str, from: &str, to: &str) -> (r: Option<String>)
    ensures
        option_view(r) == moved_link(raw@, from@, to@),
{
    let link = Link::parse(raw);
    if link.is_external() || link.id_target().is_some() || is_rooted(link.target.as_str()) {
        return None;
    }
    let target = resolve(from, link.target.as_str());
    let text = retarget_link(to, &link, target.as_str());
    assert(text@ == retargeted_link(to@, raw@, target@));
    Some(text)
}

/// Recomputes every relative link a document declares so that it still leads where
/// it led after the document moves. Links out of the workspace, links by ID and links to a
/// rooted path are untouched: none depends on where the document lives.
pub fn rerelativize(text: &str, doc: &Document, relations: &Vec<Relation>, from: &str, to: &str) -> (r:
    Result<String, WorkspaceError>)
    ensures
        text_result(r) == replaced_text(
            text@,
            embed_kind(doc@),
            rewrites(relations@.map_values(|x: Relation| x@), doc@.meta, from@, to@),
        ),
        document_in(text@) == Ok::<DocumentView, Failure>(doc@) && keeps_edits(doc@) ==> (
        r matches Ok(out) ==> document_in(out@) == Ok::<DocumentView, Failure>(
            DocumentView {
                meta: with_all_replaced(
                    doc@.meta,
                    rewrites(relations@.map_values(|x: Relation| x@), doc@.meta, from@, to@),
                ),
                ..doc@
            },
        )),
{
    let ghost all = relations@.map_values(|x: Relation| x@);
    let mut edits: Vec<Rewrite> = Vec::new();
    let mut k: usize = 0;
    assert(all.take(0) =~= Seq::empty());
    assert(rewrite_views(edits@) =~= Seq::empty());
    while k < relations.len()
        invariant
            k <= relations@.len(),
            all == relations@.map_values(|x: Relation| x@),
            rewrite_views(edits@) == rewrites(all.take(k as int), doc@.meta, from@, to@),
        decreases relations@.len() - k,
    {
        let name = &relations[k].name;
        assert(all[k as int] == relations@[k as int]@);
        assert(all.take(k + 1).drop_last() =~= all.take(k as int));
        assert(all.take(k + 1).last() == all[k as int]);
        let ghost before = rewrite_views(edits@);
        if let Some(v) = doc.meta.get(name.as_str()) {
            let items = items_in(v);
            let ghost list = items_of(v@);
            let mut i: usize = 0;
            assert(rewrite_views(edits@) =~= before + item_rewrites(v@, name@, from@, to@, 0));
            while i < items.len()
                invariant
                    i <= items@.len(),
                    item_views(items@) == items_of(v@),
                    list == items_of(v@),
                    rewrite_views(edits@) =~= before + item_rewrites(
                        v@,
                        name@,
                        from@,
                        to@,
                        i as nat,
                    ),
                decreases items@.len() - i,
            {
                let ghost was = rewrite_views(edits@);
                assert(list[i as int] == option_view(items@[i as int]));
                if let Some(raw) = &items[i] {
                    if let Some(text) = move_link(raw.as_str(), from, to) {
                        let path = path_to(v, name.as_str(), i);
                        edits.push(Rewrite { path, text });
                        assert(rewrite_views(edits@) =~= was.push(
                            Replacement { path: entry_path(v@, name@, i as int), text: text@ },
                        ));
                    }
                }
                i += 1;
            }
            assert(list.len() == items@.len());
            assert(rewrite_views(edits@) =~= before + field_rewrites(
                doc@.meta,
                name@,
                from@,
                to@,
            ));
        } else {
            assert(rewrite_views(edits@) =~= before + field_rewrites(
                doc@.meta,
                name@,
                from@,
                to@,
            ));
        }
        k += 1;
    }
    assert(all.take(k as int) =~= all);
    let r = replace_all(text, doc.kind(), &edits);
    proof {
        lemma_rewrites_of_entries(all, doc@.meta, from@, to@);
        if let Ok(out) = &r {
            if document_in(text@) == Ok::<DocumentView, Failure>(doc@) && keeps_edits(doc@) {
                lemma_replaced_reads_back(text@, doc@, rewrite_views(edits@), out@);
            }
        }
    }
    r
}

impl<IdP: IdentityPolicy, Ix: IndexStore> Workspace<IdP, Ix> {
    /// The spanning relation's name and its inverse, which every mutation needs.
    pub fn spanning_pair(&self) -> (r: Result<(String, String), WorkspaceError>)
        ensures
            match r {
                Ok((s, i)) => pair_of(self.relations@) == Ok::<(Seq<char>, Seq<char>), Failure>(
                    (s@, i@),
                ),
                Err(e) => pair_of(self.relations@) == Err::<(Seq<char>, Seq<char>), Failure>(e@),
            },
    {
        let spanning = match self.relations.spanning_relation() {
            Some(s) => s.to_owned(),
            None => {
                return Err(WorkspaceError::Structure(NO_SPANNING.to_owned()));
            },
        };
        match self.relations.inverse() {
            Some(inverse) => Ok((spanning, inverse)),
            None => {
                let front = joined_text("spanning relation `", spanning.as_str());
                Err(WorkspaceError::Structure(joined_text(front.as_str(), "` has no inverse")))
            },
        }
    }

    /// The path that the first link in the field `key` of a document leads to, if
    /// it leads to one, by relative path or through the registry.
    pub fn single_target(&self, doc: &Document, key: &str, doc_path: &str) -> (r: Option<String>)
        requires
            self.index.wf(),
        ensures
            option_view(r) == single_target_of(
                self.index.registry(),
                doc@.meta,
                key@,
                doc_path@,
            ),
    {
        let links = links_in(&doc.meta, key);
        assert(views(links@).len() == links@.len());
        if links.len() == 0 {
            return None;
        }
        assert(views(links@)[0] == links@[0]@);
        match self.resolve_link(doc_path, &Link::parse(links[0].as_str())) {
            Target::Path(p) => Some(p),
            _ => None,
        }
    }

    /// The position of the first item that leads to `wanted`.
    fn position(&self, items: &Vec<Option<String>>, doc_path: &str, wanted: &str) -> (r: Option<
        usize,
    >)
        requires
            self.index.wf(),
        ensures
            match r {
                Some(i) => i < items@.len() && items@[i as int] is Some && position_from(
                    self.index.registry(),
                    doc_path@,
                    item_views(items@),
                    wanted@,
                    0,
                ) == Some(i as int),
                None => position_from(
                    self.index.registry(),
                    doc_path@,
                    item_views(items@),
                    wanted@,
                    0,
                ) is None,
            },
    {
        let ghost all = item_views(items@);
        let ghost reg = self.index.registry();
        let mut i: usize = 0;
        while i < items.len()
            invariant
                i <= items@.len(),
                all == item_views(items@),
                reg == self.index.registry(),
                self.index.wf(),
                position_from(reg, doc_path@, all, wanted@, 0) == position_from(
                    reg,
                    doc_path@,
                    all,
                    wanted@,
                    i as nat,
                ),
            decreases items@.len() - i,
        {
            assert(all[i as int] == option_view(items@[i as int]));
            if let Some(raw) = &items[i] {
                if self.resolve_link(doc_path, &Link::parse(raw.as_str())).is_path(wanted) {
                    return Some(i);
                }
            }
            i += 1;
        }
        None
    }

    /// The position of the entry in the field `key` of a document that leads to
    /// `wanted`, by relative path or through the registry.
    pub fn entry_index(&self, doc: &Document, key: &str, doc_path: &str, wanted: &str) -> (r: Option<
        usize,
    >)
        requires
            self.index.wf(),
        ensures
            match r {
                Some(i) => entry_position(
                    self.index.registry(),
                    doc@.meta,
                    key@,
                    doc_path@,
                    wanted@,
                ) == Some(i as int),
                None => entry_position(
                    self.index.registry(),
                    doc@.meta,
                    key@,
                    doc_path@,
                    wanted@,
                ) is None,
            },
    {
        match doc.meta.get(key) {
            Some(v) => self.position(&items_in(v), doc_path, wanted),
            None => None,
        }
    }

    /// Rewrites the entry in the field `key` of a document that leads to `old_path`
    /// so that it leads to `new_path`, keeping its label and the document's
    /// formatting. Nothing where no entry leads there, or where the entry is a link
    /// by ID: the registry keeps that resolving.
    pub fn retarget_entry(
        &self,
        text: &str,
        doc: &Document,
        key: &str,
        doc_path: &str,
        old_path: &str,
        new_path: &str,
    ) -> (r: Result<Option<String>, WorkspaceError>)
        requires
            self.index.wf(),
        ensures
            match r {
                Ok(t) => retargeted(
                    self.index.registry(),
                    text@,
                    doc@,
                    key@,
                    doc_path@,
                    old_path@,
                    new_path@,
                ) == Ok::<Option<Seq<char>>, Failure>(option_view(t)),
                Err(e) => retargeted(
                    self.index.registry(),
                    text@,
                    doc@,
                    key@,
                    doc_path@,
                    old_path@,
                    new_path@,
                ) == Err::<Option<Seq<char>>, Failure>(e@),
            },
            document_in(text@) == Ok::<DocumentView, Failure>(doc@) && keeps_edits(doc@) ==> (
            r matches Ok(Some(t)) ==> document_in(t@) == Ok::<DocumentView, Failure>(
                DocumentView {
                    meta: retargeted_meta(
                        self.index.registry(),
                        doc@.meta,
                        key@,
                        doc_path@,
                        old_path@,
                        new_path@,
                    ),
                    ..doc@
                },
            )),
    {
        let v = match doc.meta.get(key) {
            Some(v) => v,
            None => {
                return Ok(None);
            },
        };
        let items = items_in(v);
        let i = match self.position(&items, doc_path, old_path) {
            Some(i) => i,
            None => {
                return Ok(None);
            },
        };
        assert(items_of(v@)[i as int] == option_view(items@[i as int]));
        if let Some(raw) = &items[i] {
            let link = Link::parse(raw.as_str());
            if link.id_target().is_some() {
                return Ok(None);
            }
            let updated = retarget_link(doc_path, &link, new_path);
            assert(updated@ == retargeted_link(doc_path@, raw@, new_path@));
            let path = path_to(v, key, i);
            let mut edits: Vec<Rewrite> = Vec::new();
            edits.push(Rewrite { path, text: updated });
            assert(rewrite_views(edits@) =~= seq![
                Replacement { path: entry_path(v@, key@, i as int), text: updated@ },
            ]);
            match replace_all(text, doc.kind(), &edits) {
                Ok(t) => {
                    proof {
                        let all = rewrite_views(edits@);
                        if document_in(text@) == Ok::<DocumentView, Failure>(doc@) && keeps_edits(
                            doc@,
                        ) {
                            lemma_replaced_reads_back(text@, doc@, all, t@);
                            assert(all.drop_last() =~= Seq::empty());
                            assert(with_all_replaced(doc@.meta, all.drop_last()) == doc@.meta);
                        }
                    }
                    Ok(Some(t))
                },
                Err(e) => Err(e),
            }
        } else {
            Ok(None)
        }
    }
}

// ---- creating ----

/// The last position of a dot in a name, or a negative number.
pub open spec fn last_dot(name: Seq<char>) -> int
    decreases name.len(),
{
    if name.len() == 0 {
        -1
    } else if name.last() == '.' {
        name.len() - 1
    } else {
        last_dot(name.drop_last())
    }
}

/// A file name without its extension. A dot in front starts no extension.
pub open spec fn name_stem(name: Seq<char>) -> Seq<char> {
    if last_dot(name) > 0 {
        name.take(last_dot(name))
    } else {
        name
    }
}

/// The stem of a path's file name, or nothing where the path ends in no name.
pub open spec fn stem_of(path: Seq<char>) -> Seq<char> {
    match last_name(components(path)) {
        Some(name) => name_stem(name),
        None => Seq::empty(),
    }
}

/// The stem of a path's file name, or nothing where the path ends in no name.
fn stem(path: &str) -> (r: String)
    ensures
        r@ == stem_of(path@),
{
    let name = match file_name(path) {
        Some(name) => name,
        None => {
            return String::new();
        },
    };
    let cs = chars_of(name.as_str());
    let mut i: usize = cs.len();
    assert(name@.take(i as int) =~= name@);
    while i > 0
        invariant
            i <= cs@.len(),
            cs@ == name@,
            last_name(components(path@)) == Some(name@),
            last_dot(name@) == last_dot(name@.take(i as int)),
        decreases i,
    {
        i -= 1;
        assert(name@.take(i + 1).drop_last() =~= name@.take(i as int));
        assert(name@.take(i + 1).last() == name@[i as int]);
        if cs[i] == '.' {
            if i > 0 {
                let r = text_of(&cs, 0, i);
                assert(r@ =~= name@.take(i as int));
                return r;
            }
            return name;
        }
    }
    name
}

/// A document about to be created.
#[derive(Debug, Clone, PartialEq, Eq)]
pub struct Creation {
    /// The path of the new document, normalized. It must be free.
    pub path: String,
    /// The path of its parent, normalized. Its text is needed.
    pub parent: String,
    /// The spanning relation.
    pub spanning: String,
    /// The inverse of the spanning relation.
    pub inverse: String,
}

/// The text of a new document: a title and a link to its parent, in an otherwise
/// empty block.
pub open spec fn new_text(
    kind: EmbedKind,
    title: Seq<char>,
    inverse: Seq<char>,
    up: Seq<char>,
) -> Result<Seq<char>, Failure> {
    let h0 = fresh(Seq::empty(), kind, true);
    let p1 = seq![StepView::Key("title"@)];
    let p2 = seq![StepView::Key(inverse)];
    let h1 = after(h0, Edit::Put(p1, Tree::Text(title)));
    let h2 = after(h1, Edit::Put(p2, Tree::Text(up)));
    match initiating(Seq::empty(), kind) {
        Err(m) => Err(Failure::Fig(m)),
        Ok(_) => match setting(h0, p1, Tree::Text(title)) {
            Err(m) => Err(Failure::Fig(m)),
            Ok(_) => match setting(h1, p2, Tree::Text(up)) {
                Err(m) => Err(Failure::Fig(m)),
                Ok(_) => fig_result(rendering(h2)),
            },
        },
    }
}

/// The sequence of the link texts that a field holds and one more.
pub open spec fn grown_list(meta: Tree, key: Seq<char>, down: Seq<char>) -> Tree {
    Tree::List(links_under(meta, key).push(down).map_values(|t: Seq<char>| Tree::Text(t)))
}

/// A parent's text with one more entry in its spanning field: appended to the sequence that
/// the field holds. Where it holds none, or where appending is refused, the field is set to
/// the link texts it holds and the new one: a text that stands alone stays in front.
pub open spec fn extended_text(
    text: Seq<char>,
    kind: EmbedKind,
    meta: Tree,
    spanning: Seq<char>,
    down: Seq<char>,
) -> Result<Seq<char>, Failure> {
    let h0 = fresh(text, kind, true);
    let p = seq![StepView::Key(spanning)];
    let h1 = after(h0, Edit::Append(p, Tree::Text(down)));
    let list = grown_list(meta, spanning, down);
    let sequence = field(meta, spanning) matches Some(Tree::List(_));
    match initiating(text, kind) {
        Err(m) => Err(Failure::Fig(m)),
        Ok(_) => if sequence && appending(h0, p, Tree::Text(down)) is Ok {
            fig_result(rendering(h1))
        } else {
            let h = if sequence {
                h1
            } else {
                h0
            };
            match setting(h, p, list) {
                Err(m) => Err(Failure::Fig(m)),
                Ok(_) => fig_result(rendering(after(h, Edit::Put(p, list)))),
            }
        },
    }
}

/// A parent's metadata with one more entry in its spanning field, appended or, where appending
/// is refused, set.
pub open spec fn extension(
    text: Seq<char>,
    kind: EmbedKind,
    meta: Tree,
    spanning: Seq<char>,
    down: Seq<char>,
) -> Tree {
    let p = seq![StepView::Key(spanning)];
    if (field(meta, spanning) matches Some(Tree::List(_))) && appending(
        fresh(text, kind, true),
        p,
        Tree::Text(down),
    ) is Ok {
        extended_meta(meta, spanning, down)
    } else {
        with_put(meta, spanning, grown_list(meta, spanning, down))
    }
}

/// What one more edit makes of metadata in JSON.
pub(crate) proof fn lemma_edited(meta: Tree, h: History, edit: Edit)
    ensures
        edited(meta, after(h, edit)) == match edited(meta, h) {
            Some(t) => if outcome_of(h, edit) is Ok {
                applied(t, edit)
            } else {
                Some(t)
            },
            None => None,
        },
{
    let next = after(h, edit);
    assert(next.edits.drop_last() =~= h.edits);
    assert(next.edits.last() == edit);
}

/// Setting a field keeps the keys apart.
proof fn lemma_put_single_keyed(meta: Tree, key: Seq<char>, v: Tree)
    requires
        single_keyed(meta),
    ensures
        single_keyed(with_put(meta, key, v)),
{
    let entries = meta->Dict_0;
    lemma_with_entry_keys(entries, key, v);
    if entry(entries, key) is None {
        lemma_no_entry(entries, key);
    }
}

proof fn lemma_with_entry_keys(entries: Seq<(Tree, Tree)>, key: Seq<char>, v: Tree)
    ensures
        with_entry(entries, key, v).len() == entries.len(),
        forall|i: int|
            0 <= i < entries.len() ==> (#[trigger] with_entry(entries, key, v)[i]).0 == entries[i].0,
    decreases entries.len(),
{
    if entries.len() > 0 {
        lemma_with_entry_keys(entries.drop_last(), key, v);
        assert forall|i: int| 0 <= i < entries.len() implies (#[trigger] with_entry(
            entries,
            key,
            v,
        )[i]).0 == entries[i].0 by {
            if i < entries.len() - 1 {
                assert(entries.drop_last()[i] == entries[i]);
            }
        }
    }
}

proof fn lemma_no_entry(entries: Seq<(Tree, Tree)>, key: Seq<char>)
    requires
        entry(entries, key) is None,
    ensures
        forall|i: int|
            0 <= i < entries.len() ==> (#[trigger] entries[i]).0 != Tree::Text(key),
    decreases entries.len(),
{
    if entries.len() > 0 {
        lemma_no_entry(entries.drop_last(), key);
        assert forall|i: int| 0 <= i < entries.len() implies (#[trigger] entries[i]).0
            != Tree::Text(key) by {
            if i < entries.len() - 1 {
                assert(entries.drop_last()[i] == entries[i]);
            }
        }
    }
}

/// The storage operations that create `path` under `parent`.
pub open spec fn creation_ops(
    path: Seq<char>,
    parent: Seq<char>,
    spanning: Seq<char>,
    inverse: Seq<char>,
    parent_text: Seq<char>,
) -> Result<Seq<OpView>, Failure> {
    match document_in(parent_text) {
        Err(e) => Err(e),
        Ok(d) => {
            let kind = embed_kind(d);
            let up = relative_text(dir_text(path), parent);
            let down = relative_text(dir_text(parent), path);
            match new_text(kind, stem_of(path), inverse, up) {
                Err(e) => Err(e),
                Ok(child) => match extended_text(
                    parent_text,
                    kind,
                    d.meta,
                    spanning,
                    down,
                ) {
                    Err(e) => Err(e),
                    Ok(extended) => Ok(
                        seq![
                            OpView::CreateDirAll(dir_text(path)),
                            OpView::Write(path, child),
                            OpView::Write(parent, extended),
                        ],
                    ),
                },
            }
        },
    }
}

/// The path of one key.
fn key_path(key: &str) -> (r: Vec<Step>)
    ensures
        steps(r@) == seq![StepView::Key(key@)],
{
    let mut path: Vec<Step> = Vec::new();
    path.push(Step::Key(key.to_owned()));
    assert(steps(path@) =~= seq![StepView::Key(key@)]);
    path
}

/// The sequence of the link texts that a field holds and one more.
fn grow_list(meta: &MetaValue, key: &str, down: &str) -> (r: MetaValue)
    ensures
        r@ == grown_list(meta@, key@, down@),
{
    let links = links_in(meta, key);
    let ghost all = links_under(meta@, key@);
    let mut items: Vec<MetaValue> = Vec::new();
    let mut i: usize = 0;
    while i < links.len()
        invariant
            i <= links@.len(),
            views(links@) == all,
            items@.len() == i,
            forall|k: int| 0 <= k < i ==> (#[trigger] items@[k])@ == Tree::Text(all[k]),
        decreases links@.len() - i,
    {
        let item = MetaValue::Text(links[i].clone());
        assert(views(links@)[i as int] == links@[i as int]@);
        assert(item@ == Tree::Text(all[i as int]));
        items.push(item);
        i += 1;
    }
    let last = MetaValue::Text(down.to_owned());
    assert(last@ == Tree::Text(down@));
    items.push(last);
    let r = MetaValue::Sequence(items);
    assert(views(links@).len() == links@.len());
    assert(r@->List_0 =~= grown_list(meta@, key@, down@)->List_0);
    r
}

impl Creation {
    /// The text of the new document, in the parent's kind of embed.
    fn child_text(&self, kind: EmbedKind) -> (r: Result<String, WorkspaceError>)
        ensures
            text_result(r) == new_text(
                kind,
                stem_of(self.path@),
                self.inverse@,
                relative_text(dir_text(self.path@), self.parent@),
            ),
            holds_json(kind) ==> (r matches Ok(t) ==> document_in(t@) == Ok::<
                DocumentView,
                Failure,
            >(
                DocumentView {
                    meta: new_meta(
                        stem_of(self.path@),
                        self.inverse@,
                        relative_text(dir_text(self.path@), self.parent@),
                    ),
                    embed: Some(kind),
                    body: Seq::empty(),
                },
            )),
    {
        let title = MetaValue::Text(stem(self.path.as_str()));
        let up = MetaValue::Text(
            relative(dir_of(self.path.as_str()).as_str(), self.parent.as_str()),
        );
        let mut block = match BlockEditor::open_or_init("", kind) {
            Ok(b) => b,
            Err(e) => {
                proof {
                    reveal_strlit("");
                    assert(""@ =~= Seq::empty());
                }
                return Err(e);
            },
        };
        proof {
            reveal_strlit("");
            assert(""@ =~= Seq::empty());
        }
        match block.put(&key_path("title"), &title) {
            Ok(_) => {},
            Err(e) => {
                return Err(e);
            },
        }
        match block.put(&key_path(self.inverse.as_str()), &up) {
            Ok(_) => {},
            Err(e) => {
                return Err(e);
            },
        }
        let ghost h = block.past();
        let r = block.render();
        proof {
            let empty = Tree::Dict(Seq::empty());
            let h0 = fresh(Seq::empty(), kind, true);
            let put = Edit::Put(seq![StepView::Key("title"@)], title@);
            lemma_edited(empty, h0, put);
            lemma_edited(
                empty,
                after(h0, put),
                Edit::Put(seq![StepView::Key(self.inverse@)], up@),
            );
            assert(with_put(empty, "title"@, title@) == with_put(Tree::Null, "title"@, title@)) by {
                let only: Seq<(Tree, Tree)> = seq![(Tree::Text("title"@), title@)];
                assert(Seq::<(Tree, Tree)>::empty().push((Tree::Text("title"@), title@)) =~= only);
            }
            if let Ok(t) = &r {
                if holds_json(kind) {
                    begun_document_reads_back(h, t@);
                }
            }
        }
        r
    }

    /// The parent's text with an entry for the new document.
    fn parent_text(&self, text: &str, doc: &Document) -> (r: Result<String, WorkspaceError>)
        ensures
            text_result(r) == extended_text(
                text@,
                embed_kind(doc@),
                doc@.meta,
                self.spanning@,
                relative_text(dir_text(self.parent@), self.path@),
            ),
            document_in(text@) == Ok::<DocumentView, Failure>(doc@) && keeps_edits(doc@)
                && text@.len() > 0 ==> (r matches Ok(t) ==> document_in(t@) == Ok::<
                DocumentView,
                Failure,
            >(
                DocumentView {
                    meta: extension(
                        text@,
                        embed_kind(doc@),
                        doc@.meta,
                        self.spanning@,
                        relative_text(dir_text(self.parent@), self.path@),
                    ),
                    ..doc@
                },
            )),
    {
        let down = relative(dir_of(self.parent.as_str()).as_str(), self.path.as_str());
        let path = key_path(self.spanning.as_str());
        let mut block = match BlockEditor::open_or_init(text, doc.kind()) {
            Ok(b) => b,
            Err(e) => {
                return Err(e);
            },
        };
        let sequence = match doc.meta.get(self.spanning.as_str()) {
            Some(v) => v.as_sequence().is_some(),
            None => false,
        };
        let list = grow_list(&doc.meta, self.spanning.as_str(), down.as_str());
        let ghost json = document_in(text@) == Ok::<DocumentView, Failure>(doc@) && keeps_edits(
            doc@,
        ) && text@.len() > 0;
        let ghost h0 = block.past();
        let ghost append = Edit::Append(steps(path@), Tree::Text(down@));
        proof {
            lemma_edited(doc@.meta, h0, append);
        }
        if sequence && block.append(&path, &MetaValue::Text(down)).is_ok() {
            let ghost h = block.past();
            let r = block.render();
            proof {
                if let Ok(t) = &r {
                    if json {
                        edited_document_reads_back(h, t@, doc@);
                    }
                }
            }
            return r;
        }
        proof {
            lemma_edited(doc@.meta, block.past(), Edit::Put(steps(path@), list@));
        }
        match block.put(&path, &list) {
            Ok(_) => {
                let ghost h = block.past();
                let r = block.render();
                proof {
                    if let Ok(t) = &r {
                        if json {
                            edited_document_reads_back(h, t@, doc@);
                        }
                    }
                }
                r
            },
            Err(e) => Err(e),
        }
    }

    /// The storage operations that create the document, given its parent's text.
    pub fn plan(&self, parent_text: &str) -> (r: Result<Vec<FsOp>, WorkspaceError>)
        ensures
            plan_view(r) == creation_ops(
                self.path@,
                self.parent@,
                self.spanning@,
                self.inverse@,
                parent_text@,
            ),
            document_in(parent_text@) matches Ok(d) ==> keeps_edits(d) && parent_text@.len() > 0
                ==> (r matches Ok(ops) ==> ({
                let up = relative_text(dir_text(self.path@), self.parent@);
                let down = relative_text(dir_text(self.parent@), self.path@);
                &&& document_in(ops_view(ops@)[1]->Write_1) == Ok::<DocumentView, Failure>(
                    DocumentView {
                        meta: new_meta(stem_of(self.path@), self.inverse@, up),
                        embed: d.embed,
                        body: Seq::empty(),
                    },
                )
                &&& document_in(ops_view(ops@)[2]->Write_1) == Ok::<DocumentView, Failure>(
                    DocumentView {
                        meta: extension(
                            parent_text@,
                            embed_kind(d),
                            d.meta,
                            self.spanning@,
                            down,
                        ),
                        ..d
                    },
                )
            })),
    {
        let doc = match Document::parse(parent_text) {
            Ok(d) => d,
            Err(e) => {
                return Err(e);
            },
        };
        let child = match self.child_text(doc.kind()) {
            Ok(t) => t,
            Err(e) => {
                return Err(e);
            },
        };
        let extended = match self.parent_text(parent_text, &doc) {
            Ok(t) => t,
            Err(e) => {
                return Err(e);
            },
        };
        let mut ops: Vec<FsOp> = Vec::new();
        ops.push(FsOp::CreateDirAll(dir_of(self.path.as_str())));
        ops.push(FsOp::Write(self.path.clone(), child));
        ops.push(FsOp::Write(self.parent.clone(), extended));
        assert(ops_view(ops@) =~= seq![
            OpView::CreateDirAll(dir_text(self.path@)),
            OpView::Write(self.path@, child@),
            OpView::Write(self.parent@, extended@),
        ]);
        Ok(ops)
    }
}

impl<IdP: IdentityPolicy, Ix: IndexStore> Workspace<IdP, Ix> {
    /// Begins creating a document at `path` as a spanning child of `parent`: the
    /// new document will declare the inverse link back to the parent, in the
    /// parent's kind of embed, and the parent's spanning field will gain the path.
    /// The `operation` module takes it from there.
    pub fn create(&self, path: &str, parent: &str) -> (r: Result<Creation, WorkspaceError>)
        ensures
            match r {
                Ok(job) => {
                    &&& pair_of(self.relations@) == Ok::<(Seq<char>, Seq<char>), Failure>(
                        (job.spanning@, job.inverse@),
                    )
                    &&& job.path@ == normalized(path@)
                    &&& job.parent@ == normalized(parent@)
                },
                Err(e) => pair_of(self.relations@) == Err::<(Seq<char>, Seq<char>), Failure>(e@),
            },
    {
        match self.spanning_pair() {
            Ok((spanning, inverse)) => Ok(
                Creation { path: normalize(path), parent: normalize(parent), spanning, inverse },
            ),
            Err(e) => Err(e),
        }
    }

    /// Ends creating a document: an eager policy assigns it an ID from birth.
    pub fn finish_create(&mut self, job: &Creation) -> (r: Result<Option<Id>, WorkspaceError>)
        requires
            old(self).index.wf(),
        ensures
            final(self).index.wf(),
            final(self).relations == old(self).relations,
            final(self).root == old(self).root,
            if old(self).identity.triggers().fires(Trigger::Create) {
                match r {
                    Ok(Some(id)) => issued::<IdP, Ix>(
                        old(self).index,
                        final(self).index,
                        job.path@,
                        id@,
                    ),
                    Ok(None) => false,
                    Err(e) => {
                        &&& e@ == Failure::Structure(NO_UNUSED_ID@)
                        &&& exhausted::<IdP>(old(self).index.registry(), job.path@)
                        &&& !all_free::<IdP>(old(self).index.registry(), job.path@)
                        &&& final(self).index == old(self).index
                    },
                }
            } else {
                r == Ok::<Option<Id>, WorkspaceError>(None) && *final(self) == *old(self)
            },
    {
        if !self.identity.registration().fires_on(Trigger::Create) {
            return Ok(None);
        }
        match self.mint_unique(job.path.as_str()) {
            Ok(id) => {
                self.index.register(&id, job.path.as_str());
                Ok(Some(id))
            },
            Err(e) => Err(e),
        }
    }
}

// ---- moving ----

/// A document about to be moved.
#[derive(Debug, Clone, PartialEq, Eq)]
pub struct Renaming {
    /// The path of the document, normalized. It must exist, and its text is needed.
    pub from: String,
    /// The path to move it to, normalized. It must be free.
    pub to: String,
    /// The spanning relation.
    pub spanning: String,
    /// The inverse of the spanning relation.
    pub inverse: String,
}

/// The documents that a move must read besides the one that moves.
#[derive(Debug, Clone, PartialEq, Eq)]
pub struct RenameReads {
    /// The parent: the move fails where it cannot be read.
    pub parent: Option<String>,
    /// The children, in order: one that cannot be read is passed over.
    pub children: Vec<String>,
}

/// The paths that some links in `doc` lead to, in order.
pub open spec fn led_paths(r: Registry, doc: Seq<char>, links: Seq<Seq<char>>) -> Seq<Seq<char>>
    decreases links.len(),
{
    if links.len() == 0 {
        Seq::empty()
    } else {
        let rest = led_paths(r, doc, links.drop_last());
        match target_of(r, doc, link_of(links.last())) {
            TargetView::Path(p) => rest.push(p),
            _ => rest,
        }
    }
}

/// The parent's write when `from` moves to `to`: its entry for the document is
/// made to lead to the new path.
pub open spec fn relinked(
    r: Registry,
    key: Seq<char>,
    from: Seq<char>,
    to: Seq<char>,
    other: LoadedView,
) -> Result<Seq<OpView>, Failure> {
    match document_in(other.text) {
        Err(e) => Err(e),
        Ok(d) => match retargeted(r, other.text, d, key, other.path, from, to) {
            Err(e) => Err(e),
            Ok(None) => Ok(Seq::empty()),
            Ok(Some(t)) => Ok(seq![OpView::Write(other.path, t)]),
        },
    }
}

/// The children's writes when `from` moves to `to`: the inverse link of each is
/// made to lead to the new path. A child that is no document is passed over.
pub open spec fn children_relinked(
    r: Registry,
    key: Seq<char>,
    from: Seq<char>,
    to: Seq<char>,
    children: Seq<LoadedView>,
) -> Result<Seq<OpView>, Failure>
    decreases children.len(),
{
    if children.len() == 0 {
        Ok(Seq::empty())
    } else {
        match children_relinked(r, key, from, to, children.drop_last()) {
            Err(e) => Err(e),
            Ok(rest) => if document_in(children.last().text) is Err {
                Ok(rest)
            } else {
                match relinked(r, key, from, to, children.last()) {
                    Err(e) => Err(e),
                    Ok(more) => Ok(rest + more),
                }
            },
        }
    }
}

/// Whether two paths stand in the same directory.
pub open spec fn same_dir(a: Seq<char>, b: Seq<char>) -> bool {
    dir_comps(components(a)) == dir_comps(components(b))
}

/// The text of a document that moves: where its directory changes, every relative
/// link it declares is recomputed.
pub open spec fn moved_text(
    relations: Seq<RelationView>,
    from: Seq<char>,
    to: Seq<char>,
    text: Seq<char>,
    d: DocumentView,
) -> Result<Seq<char>, Failure> {
    if same_dir(from, to) {
        Ok(text)
    } else {
        replaced_text(text, embed_kind(d), rewrites(relations, d.meta, from, to))
    }
}

/// The metadata of a document that moves.
pub open spec fn moved_meta(
    relations: Seq<RelationView>,
    from: Seq<char>,
    to: Seq<char>,
    meta: Tree,
) -> Tree {
    if same_dir(from, to) {
        meta
    } else {
        with_all_replaced(meta, rewrites(relations, meta, from, to))
    }
}

/// The storage operations that move `from` to `to`.
pub open spec fn renaming_ops(
    r: Registry,
    relations: Seq<RelationView>,
    spanning: Seq<char>,
    inverse: Seq<char>,
    from: LoadedView,
    to: Seq<char>,
    parent: Option<LoadedView>,
    children: Seq<LoadedView>,
) -> Result<Seq<OpView>, Failure> {
    match document_in(from.text) {
        Err(e) => Err(e),
        Ok(d) => {
            let up = match parent {
                Some(p) => relinked(r, spanning, from.path, to, p),
                None => Ok(Seq::empty()),
            };
            match up {
                Err(e) => Err(e),
                Ok(up) => match children_relinked(r, inverse, from.path, to, children) {
                    Err(e) => Err(e),
                    Ok(down) => match moved_text(relations, from.path, to, from.text, d) {
                        Err(e) => Err(e),
                        Ok(text) => Ok(
                            seq![
                                OpView::CreateDirAll(dir_text(to)),
                                OpView::Rename(from.path, to),
                                OpView::Write(to, text),
                            ] + up + down,
                        ),
                    },
                },
            }
        },
    }
}

/// The views of documents that were read.
pub open spec fn loaded_views(list: Seq<Loaded>) -> Seq<LoadedView> {
    list.map_values(|l: Loaded| l@)
}

/// An error over the first children is the error over all of them.
proof fn lemma_children_error(
    r: Registry,
    key: Seq<char>,
    from: Seq<char>,
    to: Seq<char>,
    children: Seq<LoadedView>,
    n: int,
)
    requires
        0 <= n <= children.len(),
        children_relinked(r, key, from, to, children.take(n)) is Err,
    ensures
        children_relinked(r, key, from, to, children) == children_relinked(
            r,
            key,
            from,
            to,
            children.take(n),
        ),
    decreases children.len() - n,
{
    if n == children.len() {
        assert(children.take(n) =~= children);
    } else {
        assert(children.take(n + 1).drop_last() =~= children.take(n));
        lemma_children_error(r, key, from, to, children, n + 1);
    }
}

impl<IdP: IdentityPolicy, Ix: IndexStore> Workspace<IdP, Ix> {
    /// Begins moving the document at `from` to `to`, maintaining every affected
    /// link: the parent's spanning entry, each spanning child's inverse link and,
    /// where the directory changes, every relative link the document declares.
    /// Labels stay. Links by ID to the document are left alone: the registry keeps
    /// them resolving. The `operation` module takes it from there.
    pub fn rename(&self, from: &str, to: &str) -> (r: Result<Renaming, WorkspaceError>)
        ensures
            match r {
                Ok(job) => {
                    &&& pair_of(self.relations@) == Ok::<(Seq<char>, Seq<char>), Failure>(
                        (job.spanning@, job.inverse@),
                    )
                    &&& job.from@ == normalized(from@)
                    &&& job.to@ == normalized(to@)
                },
                Err(e) => pair_of(self.relations@) == Err::<(Seq<char>, Seq<char>), Failure>(e@),
            },
    {
        match self.spanning_pair() {
            Ok((spanning, inverse)) => Ok(
                Renaming { from: normalize(from), to: normalize(to), spanning, inverse },
            ),
            Err(e) => Err(e),
        }
    }

    /// The documents that a move must read, given the text of the document that
    /// moves.
    pub fn rename_reads(&self, job: &Renaming, text: &str) -> (r: Result<
        RenameReads,
        WorkspaceError,
    >)
        requires
            self.index.wf(),
        ensures
            match r {
                Ok(reads) => document_in(text@) matches Ok(d) && option_view(reads.parent)
                    == single_target_of(
                    self.index.registry(),
                    d.meta,
                    job.inverse@,
                    job.from@,
                ) && views(reads.children@) == led_paths(
                    self.index.registry(),
                    job.from@,
                    children_of(self.relations@, d.meta),
                ),
                Err(e) => document_in(text@) == Err::<DocumentView, Failure>(e@),
            },
    {
        let doc = match Document::parse(text) {
            Ok(d) => d,
            Err(e) => {
                return Err(e);
            },
        };
        let parent = self.single_target(&doc, job.inverse.as_str(), job.from.as_str());
        let links = self.relations.children(&doc.meta);
        let ghost all = views(links@);
        let ghost reg = self.index.registry();
        let mut children: Vec<String> = Vec::new();
        let mut i: usize = 0;
        assert(all.take(0) =~= Seq::empty());
        assert(views(children@) =~= Seq::empty());
        while i < links.len()
            invariant
                i <= links@.len(),
                all == views(links@),
                reg == self.index.registry(),
                self.index.wf(),
                views(children@) == led_paths(reg, job.from@, all.take(i as int)),
            decreases links@.len() - i,
        {
            let ghost before = views(children@);
            assert(all[i as int] == links@[i as int]@);
            assert(all.take(i + 1).drop_last() =~= all.take(i as int));
            assert(all.take(i + 1).last() == all[i as int]);
            match self.resolve_link(job.from.as_str(), &Link::parse(links[i].as_str())) {
                Target::Path(p) => {
                    children.push(p);
                    assert(views(children@) =~= before.push(p@));
                },
                _ => {},
            }
            i += 1;
        }
        assert(all.take(i as int) =~= all);
        Ok(RenameReads { parent, children })
    }

    /// A document's write when another moves.
    fn relink(&self, key: &str, from: &str, to: &str, other: &Loaded, doc: &Document) -> (r: Result<
        Option<FsOp>,
        WorkspaceError,
    >)
        requires
            self.index.wf(),
            document_in(other.text@) == Ok::<DocumentView, Failure>(doc@),
        ensures
            match r {
                Ok(None) => relinked(self.index.registry(), key@, from@, to@, other@) == Ok::<
                    Seq<OpView>,
                    Failure,
                >(Seq::empty()),
                Ok(Some(op)) => relinked(self.index.registry(), key@, from@, to@, other@) == Ok::<
                    Seq<OpView>,
                    Failure,
                >(seq![op@]),
                Err(e) => relinked(self.index.registry(), key@, from@, to@, other@) == Err::<
                    Seq<OpView>,
                    Failure,
                >(e@),
            },
    {
        match self.retarget_entry(other.text.as_str(), doc, key, other.path.as_str(), from, to) {
            Ok(None) => Ok(None),
            Ok(Some(t)) => Ok(Some(FsOp::Write(other.path.clone(), t))),
            Err(e) => Err(e),
        }
    }

    /// The storage operations that move the document, given its text and those of
    /// its parent and its children, as far as they could be read.
    pub fn rename_plan(
        &self,
        job: &Renaming,
        text: &str,
        parent: &Option<Loaded>,
        children: &Vec<Loaded>,
    ) -> (r: Result<Vec<FsOp>, WorkspaceError>)
        requires
            self.index.wf(),
        ensures
            plan_view(r) == renaming_ops(
                self.index.registry(),
                self.relations@.relations,
                job.spanning@,
                job.inverse@,
                (LoadedView { path: job.from@, text: text@ }),
                job.to@,
                match parent {
                    Some(p) => Some(p@),
                    None => None,
                },
                loaded_views(children@),
            ),
            document_in(text@) matches Ok(d) ==> keeps_edits(d) ==> (r matches Ok(ops) ==> (
            ops_view(ops@)[2] matches OpView::Write(_, t) && document_in(t) == Ok::<
                DocumentView,
                Failure,
            >(
                DocumentView {
                    meta: moved_meta(self.relations@.relations, job.from@, job.to@, d.meta),
                    ..d
                },
            ))),
    {
        let doc = match Document::parse(text) {
            Ok(d) => d,
            Err(e) => {
                return Err(e);
            },
        };
        let from = job.from.as_str();
        let to = job.to.as_str();
        let ghost reg = self.index.registry();
        let mut up: Vec<FsOp> = Vec::new();
        assert(ops_view(up@) =~= Seq::empty());
        if let Some(p) = parent {
            let parent_doc = match Document::parse(p.text.as_str()) {
                Ok(d) => d,
                Err(e) => {
                    return Err(e);
                },
            };
            match self.relink(job.spanning.as_str(), from, to, p, &parent_doc) {
                Ok(None) => {},
                Ok(Some(op)) => {
                    up.push(op);
                    assert(ops_view(up@) =~= seq![op@]);
                },
                Err(e) => {
                    return Err(e);
                },
            }
        }
        let ghost all = loaded_views(children@);
        let mut down: Vec<FsOp> = Vec::new();
        let mut i: usize = 0;
        assert(all.take(0) =~= Seq::empty());
        assert(ops_view(down@) =~= Seq::empty());
        while i < children.len()
            invariant
                i <= children@.len(),
                all == loaded_views(children@),
                reg == self.index.registry(),
                self.index.wf(),
                from@ == job.from@,
                to@ == job.to@,
                document_in(text@) is Ok,
                children_relinked(reg, job.inverse@, from@, to@, all.take(i as int)) == Ok::<
                    Seq<OpView>,
                    Failure,
                >(ops_view(down@)),
                parent matches Some(p) ==> relinked(reg, job.spanning@, from@, to@, p@) == Ok::<
                    Seq<OpView>,
                    Failure,
                >(ops_view(up@)),
                parent is None ==> ops_view(up@) == Seq::<OpView>::empty(),
            decreases children@.len() - i,
        {
            let ghost before = ops_view(down@);
            assert(all[i as int] == children@[i as int]@);
            assert(all.take(i + 1).drop_last() =~= all.take(i as int));
            assert(all.take(i + 1).last() == all[i as int]);
            match Document::parse(children[i].text.as_str()) {
                Err(_) => {},
                Ok(child_doc) => {
                    match self.relink(job.inverse.as_str(), from, to, &children[i], &child_doc) {
                        Ok(None) => {
                            assert(before + Seq::<OpView>::empty() =~= before);
                        },
                        Ok(Some(op)) => {
                            down.push(op);
                            assert(ops_view(down@) =~= before + seq![op@]);
                        },
                        Err(e) => {
                            proof {
                                lemma_children_error(
                                    reg,
                                    job.inverse@,
                                    from@,
                                    to@,
                                    all,
                                    i + 1,
                                );
                            }
                            return Err(e);
                        },
                    }
                },
            }
            i += 1;
        }
        assert(all.take(i as int) =~= all);
        proof {
            lemma_dir_text_reads_back(from@);
            lemma_dir_text_reads_back(to@);
        }
        let moved = if same_path(dir_of(from).as_str(), dir_of(to).as_str()) {
            text.to_owned()
        } else {
            match rerelativize(text, &doc, &self.relations.relations, from, to) {
                Ok(t) => t,
                Err(e) => {
                    return Err(e);
                },
            }
        };
        let mut ops: Vec<FsOp> = Vec::new();
        ops.push(FsOp::CreateDirAll(dir_of(to)));
        ops.push(FsOp::Rename(job.from.clone(), job.to.clone()));
        ops.push(FsOp::Write(job.to.clone(), moved));
        let ghost first = ops_view(ops@);
        assert(first =~= seq![
            OpView::CreateDirAll(dir_text(to@)),
            OpView::Rename(from@, to@),
            OpView::Write(to@, moved@),
        ]);
        let ghost ups = ops_view(up@);
        let ghost downs = ops_view(down@);
        let ghost front = ops@;
        let ghost up_ops = up@;
        let ghost down_ops = down@;
        ops.append(&mut up);
        ops.append(&mut down);
        proof {
            assert(ops@ =~= front + up_ops + down_ops);
            assert(ops_view(ops@) =~= first + ups + downs);
        }
        Ok(ops)
    }

    /// Ends moving a document: the registry follows, so that every link by ID to
    /// the document survives untouched.
    pub fn finish_rename(&mut self, job: &Renaming)
        requires
            old(self).index.wf(),
        ensures
            final(self).index.wf(),
            final(self).relations == old(self).relations,
            final(self).root == old(self).root,
            ({
                let before = old(self).index.registry();
                let own = components(job.from@);
                if before.owners.contains_key(own) {
                    final(self).index.registry() == old(self).index.moved(
                        before.owners[own],
                        job.to@,
                    )
                } else {
                    *final(self) == *old(self)
                }
            }),
    {
        if let Some(id) = self.index.id_for_path(job.from.as_str()) {
            self.index.set_path(&id, job.to.as_str());
        }
    }
}

// ---- deleting ----

/// A document about to be deleted.
#[derive(Debug, Clone, PartialEq, Eq)]
pub struct Deletion {
    /// The path of the document, normalized. Its text is needed.
    pub path: String,
    /// The spanning relation.
    pub spanning: String,
    /// The inverse of the spanning relation.
    pub inverse: String,
}

/// The targets of the spanning links that `meta` declares.
pub open spec fn child_targets(vocabulary: Vocabulary, meta: Tree) -> Seq<Seq<char>> {
    children_of(vocabulary, meta).map_values(|raw: Seq<char>| link_of(raw).target)
}

/// The parent that a deletion must read: refused where the document has children
/// and the deletion is not forced.
pub open spec fn deletion_reads(
    r: Registry,
    vocabulary: Vocabulary,
    inverse: Seq<char>,
    doc: LoadedView,
    force: bool,
) -> Result<Option<Seq<char>>, Failure> {
    match document_in(doc.text) {
        Err(e) => Err(e),
        Ok(d) => {
            let children = child_targets(vocabulary, d.meta);
            if children.len() > 0 && !force {
                Err(Failure::Structure(has_children(doc.path, children)))
            } else {
                Ok(single_target_of(r, d.meta, inverse, doc.path))
            }
        },
    }
}

/// A parent's text with an entry of its spanning field `v` removed: an item of the sequence
/// that is there, or the field where it is one text.
pub open spec fn removed_text(
    text: Seq<char>,
    kind: EmbedKind,
    v: Tree,
    spanning: Seq<char>,
    index: int,
) -> Result<Seq<char>, Failure> {
    let h = fresh(text, kind, false);
    let p = seq![StepView::Key(spanning)];
    match opening(text, kind) {
        Err(m) => Err(Failure::Fig(m)),
        Ok(_) => if v is List {
            match removing(h, p, index) {
                Err(m) => Err(Failure::Fig(m)),
                Ok(_) => fig_result(rendering(after(h, Edit::Remove(p, index)))),
            }
        } else {
            match deleting(h, p) {
                Err(m) => Err(Failure::Fig(m)),
                Ok(_) => fig_result(rendering(after(h, Edit::Delete(p)))),
            }
        },
    }
}

/// The storage operations that delete `path`.
pub open spec fn deletion_ops(
    r: Registry,
    spanning: Seq<char>,
    path: Seq<char>,
    parent: Option<LoadedView>,
) -> Result<Seq<OpView>, Failure> {
    match parent {
        None => Ok(seq![OpView::RemoveFile(path)]),
        Some(p) => match document_in(p.text) {
            Err(e) => Err(e),
            Ok(d) => match entry_position(r, d.meta, spanning, p.path, path) {
                None => Ok(seq![OpView::RemoveFile(path)]),
                Some(i) => match removed_text(
                    p.text,
                    embed_kind(d),
                    field(d.meta, spanning)->Some_0,
                    spanning,
                    i,
                ) {
                    Err(e) => Err(e),
                    Ok(t) => Ok(seq![OpView::RemoveFile(path), OpView::Write(p.path, t)]),
                },
            },
        },
    }
}

/// A document's text with an entry of the field `v` removed.
fn remove_entry(text: &str, kind: EmbedKind, v: &MetaValue, key: &str, index: usize) -> (r: Result<
    String,
    WorkspaceError,
>)
    ensures
        text_result(r) == removed_text(text@, kind, v@, key@, index as int),
        v@ is List ==> (r matches Ok(t) ==> reads_back(
            after(
                fresh(text@, kind, false),
                Edit::Remove(seq![StepView::Key(key@)], index as int),
            ),
            t@,
        )),
{
    let mut block = match BlockEditor::open(text, kind) {
        Ok(b) => b,
        Err(e) => {
            return Err(e);
        },
    };
    let done = if v.as_sequence().is_some() {
        block.remove(&key_path(key), index)
    } else {
        block.delete(&key_path(key))
    };
    match done {
        Ok(_) => block.render(),
        Err(e) => Err(e),
    }
}

/// What a caller is told who deletes a document that has children.
fn has_children_text(path: &str, children: &Vec<String>) -> (r: String)
    ensures
        r@ == has_children(path@, views(children@)),
{
    let mut out = path.to_owned();
    out.append(" contains ");
    out.append(digits_of(children.len() as u64).as_str());
    out.append(" document(s) (");
    out.append(join(children, ", ").as_str());
    out.append("); delete them first or force");
    out
}

impl<IdP: IdentityPolicy, Ix: IndexStore> Workspace<IdP, Ix> {
    /// Begins deleting the document at `path`, removing its parent's spanning entry
    /// for it. The `operation` module takes it from there.
    pub fn delete(&self, path: &str) -> (r: Result<Deletion, WorkspaceError>)
        ensures
            match r {
                Ok(job) => {
                    &&& pair_of(self.relations@) == Ok::<(Seq<char>, Seq<char>), Failure>(
                        (job.spanning@, job.inverse@),
                    )
                    &&& job.path@ == normalized(path@)
                },
                Err(e) => pair_of(self.relations@) == Err::<(Seq<char>, Seq<char>), Failure>(e@),
            },
    {
        match self.spanning_pair() {
            Ok((spanning, inverse)) => Ok(Deletion { path: normalize(path), spanning, inverse }),
            Err(e) => Err(e),
        }
    }

    /// The parent that a deletion must read, given the document's text. Refused
    /// where the document has children, which would be orphaned, unless `force` is
    /// set.
    pub fn delete_reads(&self, job: &Deletion, text: &str, force: bool) -> (r: Result<
        Option<String>,
        WorkspaceError,
    >)
        requires
            self.index.wf(),
        ensures
            ({
                let outcome = deletion_reads(
                    self.index.registry(),
                    self.relations@,
                    job.inverse@,
                    LoadedView { path: job.path@, text: text@ },
                    force,
                );
                match r {
                    Ok(p) => outcome == Ok::<Option<Seq<char>>, Failure>(option_view(p)),
                    Err(e) => outcome == Err::<Option<Seq<char>>, Failure>(e@),
                }
            }),
    {
        let doc = match Document::parse(text) {
            Ok(d) => d,
            Err(e) => {
                return Err(e);
            },
        };
        let links = self.relations.children(&doc.meta);
        let ghost all = child_targets(self.relations@, doc@.meta);
        let mut children: Vec<String> = Vec::new();
        let mut i: usize = 0;
        while i < links.len()
            invariant
                i <= links@.len(),
                views(links@) == children_of(self.relations@, doc@.meta),
                all == child_targets(self.relations@, doc@.meta),
                views(children@) =~= all.take(i as int),
            decreases links@.len() - i,
        {
            let ghost before = views(children@);
            assert(views(links@)[i as int] == links@[i as int]@);
            let target = Link::parse(links[i].as_str()).target;
            children.push(target);
            assert(views(children@) =~= before.push(target@));
            assert(all.take(i + 1) =~= all.take(i as int).push(all[i as int]));
            i += 1;
        }
        assert(views(links@).len() == all.len());
        assert(all.take(i as int) =~= all);
        assert(views(children@).len() == children@.len());
        if children.len() > 0 && !force {
            return Err(
                WorkspaceError::Structure(has_children_text(job.path.as_str(), &children)),
            );
        }
        Ok(self.single_target(&doc, job.inverse.as_str(), job.path.as_str()))
    }

    /// The storage operations that delete the document, given its parent's text.
    pub fn delete_plan(&self, job: &Deletion, parent: &Option<Loaded>) -> (r: Result<
        Vec<FsOp>,
        WorkspaceError,
    >)
        requires
            self.index.wf(),
        ensures
            plan_view(r) == deletion_ops(
                self.index.registry(),
                job.spanning@,
                job.path@,
                match parent {
                    Some(p) => Some(p@),
                    None => None,
                },
            ),
            parent matches Some(p) ==> (document_in(p.text@) matches Ok(d) ==> keeps_edits(d) && (
            field(d.meta, job.spanning@) matches Some(Tree::List(_))) ==> (entry_position(
                self.index.registry(),
                d.meta,
                job.spanning@,
                p.path@,
                job.path@,
            ) matches Some(i) ==> (r matches Ok(ops) ==> document_in(
                ops_view(ops@)[1]->Write_1,
            ) == Ok::<DocumentView, Failure>(
                DocumentView { meta: reduced_meta(d.meta, job.spanning@, i), ..d },
            )))),
    {
        let mut ops: Vec<FsOp> = Vec::new();
        ops.push(FsOp::RemoveFile(job.path.clone()));
        assert(ops_view(ops@) =~= seq![OpView::RemoveFile(job.path@)]);
        if let Some(p) = parent {
            let doc = match Document::parse(p.text.as_str()) {
                Ok(d) => d,
                Err(e) => {
                    return Err(e);
                },
            };
            let spanning = job.spanning.as_str();
            if let Some(v) = doc.meta.get(spanning) {
                let at = self.entry_index(&doc, spanning, p.path.as_str(), job.path.as_str());
                if let Some(i) = at {
                    match remove_entry(p.text.as_str(), doc.kind(), v, spanning, i) {
                        Ok(t) => {
                            ops.push(FsOp::Write(p.path.clone(), t));
                            assert(ops_view(ops@) =~= seq![
                                OpView::RemoveFile(job.path@),
                                OpView::Write(p.path@, t@),
                            ]);
                            proof {
                                if keeps_edits(doc@) && v@ is List {
                                    let start = fresh(p.text@, embed_kind(doc@), false);
                                    let edit = Edit::Remove(
                                        seq![StepView::Key(spanning@)],
                                        i as int,
                                    );
                                    lemma_position(
                                        self.index.registry(),
                                        p.path@,
                                        items_of(v@),
                                        job.path@,
                                        0,
                                    );
                                    lemma_edited(doc@.meta, start, edit);
                                    edited_document_reads_back(after(start, edit), t@, doc@);
                                }
                            }
                        },
                        Err(e) => {
                            return Err(e);
                        },
                    }
                }
            }
        }
        Ok(ops)
    }

    /// Ends deleting a document: its ID is retired, and with a tombstoning store it
    /// is never minted again to mean something else.
    pub fn finish_delete(&mut self, job: &Deletion)
        requires
            old(self).index.wf(),
        ensures
            final(self).index.wf(),
            final(self).relations == old(self).relations,
            final(self).root == old(self).root,
            ({
                let before = old(self).index.registry();
                let own = components(job.path@);
                if before.owners.contains_key(own) {
                    final(self).index.registry() == old(self).index.retired(before.owners[own])
                } else {
                    *final(self) == *old(self)
                }
            }),
    {
        if let Some(id) = self.index.id_for_path(job.path.as_str()) {
            self.index.unregister(&id);
        }
    }
}

// ---- laws ----

/// Whether the target `t`, written under `label`, is read as a path: it is not
/// taken for a URL, a link by ID, or a label and a target.
pub open spec fn reads_as_path(label: Option<Seq<char>>, t: Seq<char>) -> bool {
    &&& !external_target(t)
    &&& named_id(t) is None
    &&& label is None ==> forall|l: Seq<char>, x: Seq<char>| !labeled(t, l, x)
}

/// A link text with a new target is read back as the old label and that target.
proof fn lemma_relabel(raw: Seq<char>, t: Seq<char>)
    requires
        link_of(raw).label is None ==> forall|l: Seq<char>, x: Seq<char>| !labeled(t, l, x),
    ensures
        link_of(link_text(LinkView { label: link_of(raw).label, target: t })) == (LinkView {
            label: link_of(raw).label,
            target: t,
        }),
{
    let link = link_of(raw);
    match link.label {
        Some(label) => {
            assert(exists|l: Seq<char>, x: Seq<char>| labeled(raw, l, x));
            let (l, x) = choose|l: Seq<char>, x: Seq<char>| labeled(raw, l, x);
            assert(labeled(raw, l, x));
            assert(label == l);
        },
        None => {},
    }
    render_then_parse(LinkView { label: link.label, target: t });
}

/// Law: a link that is retargeted leads to the new path and keeps its label. This
/// leaves out new paths that cannot be reached by a relative target, or whose
/// target would be read as something else than a path.
pub proof fn retargeted_link_leads(r: Registry, doc: Seq<char>, raw: Seq<char>, new_path: Seq<char>)
    requires
        normalized(doc) == doc,
        normalized(new_path) == new_path,
        reaches(doc, new_path),
        reads_as_path(link_of(raw).label, relative_text(dir_text(doc), new_path)),
    ensures
        target_of(r, doc, link_of(retargeted_link(doc, raw, new_path))) == TargetView::Path(
            new_path,
        ),
        link_of(retargeted_link(doc, raw, new_path)).label == link_of(raw).label,
{
    relative_resolves(doc, new_path);
    lemma_relabel(raw, relative_text(dir_text(doc), new_path));
}

/// Law: when a document moves, a link that was rewritten leads from the new place
/// where it led from the old one, and keeps its label.
pub proof fn moved_link_leads_on(r: Registry, raw: Seq<char>, from: Seq<char>, to: Seq<char>)
    requires
        normalized(to) == to,
        moved_link(raw, from, to) is Some,
        reaches(to, resolved(from, link_of(raw).target)),
        reads_as_path(
            link_of(raw).label,
            relative_text(dir_text(to), resolved(from, link_of(raw).target)),
        ),
    ensures
        target_of(r, to, link_of(moved_link(raw, from, to)->Some_0)) == target_of(
            r,
            from,
            link_of(raw),
        ),
        link_of(moved_link(raw, from, to)->Some_0).label == link_of(raw).label,
{
    let target = resolved(from, link_of(raw).target);
    resolve_is_normalized(from, link_of(raw).target);
    retargeted_link_leads(r, to, raw, target);
}

/// Law: a link that a move does not rewrite leads to the same place from
/// everywhere. Among these are the links to a rooted path.
pub proof fn untouched_link_leads_on(r: Registry, raw: Seq<char>, from: Seq<char>, to: Seq<char>)
    requires
        moved_link(raw, from, to) is None,
    ensures
        target_of(r, to, link_of(raw)) == target_of(r, from, link_of(raw)),
{
}

/// Law: a move leaves a link to a rooted path as it is, and the link leads on.
pub proof fn rooted_link_is_untouched(r: Registry, raw: Seq<char>, from: Seq<char>, to: Seq<char>)
    requires
        rooted(components(link_of(raw).target)),
    ensures
        moved_link(raw, from, to) is None,
        target_of(r, to, link_of(raw)) == target_of(r, from, link_of(raw)),
{
    untouched_link_leads_on(r, raw, from, to);
}

/// Law: creating a document links both directions. The link written into the new
/// document leads to its parent, and the entry written into the parent leads to the
/// new document.
pub proof fn created_links_lead_both_ways(r: Registry, path: Seq<char>, parent: Seq<char>)
    requires
        normalized(path) == path,
        normalized(parent) == parent,
        reaches(path, parent),
        reaches(parent, path),
        reads_as_path(None, relative_text(dir_text(path), parent)),
        reads_as_path(None, relative_text(dir_text(parent), path)),
    ensures
        target_of(r, path, link_of(relative_text(dir_text(path), parent))) == TargetView::Path(
            parent,
        ),
        target_of(r, parent, link_of(relative_text(dir_text(parent), path))) == TargetView::Path(
            path,
        ),
{
    relative_resolves(path, parent);
    relative_resolves(parent, path);
}

/// Law: between two paths that are made of names alone, a relative target can be
/// found.
pub proof fn names_reach_each_other(doc: Seq<char>, to: Seq<char>)
    requires
        forall|i: int| 0 <= i < components(doc).len() ==> #[trigger] components(doc)[i] is Name,
        forall|i: int| 0 <= i < components(to).len() ==> #[trigger] components(to)[i] is Name,
    ensures
        reaches(doc, to),
{
    let d = dir_comps(components(doc));
    assert forall|i: int| 0 <= i < d.len() implies #[trigger] d[i] is Name by {
        assert(d[i] == components(doc)[i]);
    }
}

/// Law: a link by ID survives a move without an edit. Once the registry has
/// followed, the link leads to the new path, whatever document it stands in.
pub proof fn id_links_follow_a_move(r: Registry, id: Seq<char>, to: Seq<char>, doc: Seq<char>)
    requires
        normalized(to) == to,
        !external_target(ID_SCHEME@ + id),
    ensures
        target_of(plain_moved(r, id, to), doc, link_of(ID_SCHEME@ + id)) == TargetView::Path(to),
{
    id_target_reads_back(id);
}

/// Law: a link by another ID is not disturbed by a move.
pub proof fn other_id_links_stay(
    r: Registry,
    id: Seq<char>,
    other: Seq<char>,
    to: Seq<char>,
    doc: Seq<char>,
)
    requires
        other != id,
    ensures
        target_of(plain_moved(r, id, to), doc, link_of(ID_SCHEME@ + other)) == target_of(
            r,
            doc,
            link_of(ID_SCHEME@ + other),
        ),
{
    id_target_reads_back(other);
}

/// Law: a link by the ID of a deleted document is diagnosable. It leads nowhere,
/// and the persistent registry still knows the ID.
pub proof fn deleted_id_is_diagnosable(ix: FileIndex, id: Seq<char>, doc: Seq<char>)
    requires
        !external_target(ID_SCHEME@ + id),
    ensures
        target_of(ix.retired(id), doc, link_of(ID_SCHEME@ + id)) == TargetView::UnresolvedId(id),
        ix.retired(id).known.contains(id),
{
    id_target_reads_back(id);
}

// ---- laws of what is read back ----

pub(crate) proof fn lemma_with_entry(entries: Seq<(Tree, Tree)>, key: Seq<char>, v: Tree, other: Seq<char>)
    ensures
        entry(entries, key) is Some ==> entry(with_entry(entries, key, v), key) == Some(v),
        other != key ==> entry(with_entry(entries, key, v), other) == entry(entries, other),
    decreases entries.len(),
{
    if entries.len() > 0 {
        lemma_with_entry(entries.drop_last(), key, v, other);
        let new = with_entry(entries, key, v);
        if entries.last().0 == Tree::Text(key) {
            assert(new.drop_last() =~= entries.drop_last());
        } else {
            assert(new.drop_last() =~= with_entry(entries.drop_last(), key, v));
        }
    }
}

/// What a position from `n` on says of the item there.
pub(crate) proof fn lemma_position(
    r: Registry,
    doc: Seq<char>,
    items: Seq<Option<Seq<char>>>,
    wanted: Seq<char>,
    n: nat,
)
    ensures
        position_from(r, doc, items, wanted, n) matches Some(i) ==> n <= i < items.len() && leads(
            r,
            doc,
            items[i],
            wanted,
        ),
    decreases items.len() - n,
{
    if n < items.len() && !leads(r, doc, items[n as int], wanted) {
        lemma_position(r, doc, items, wanted, n + 1);
    }
}

/// Law: after a move, the documents around it lead to the new path. Where a document that
/// was relinked is read back with the one value replaced that was to be replaced, the
/// entry that led to the old path leads to the new one, every other entry of the field and
/// every other field is as it was. This holds whatever the registry has become.
pub proof fn relinked_document_leads_to_the_new_path(
    r: Registry,
    later: Registry,
    meta: Tree,
    key: Seq<char>,
    doc: Seq<char>,
    old_path: Seq<char>,
    new_path: Seq<char>,
)
    requires
        normalized(doc) == doc,
        normalized(new_path) == new_path,
        reaches(doc, new_path),
        entry_position(r, meta, key, doc, old_path) is Some,
        ({
            let i = entry_position(r, meta, key, doc, old_path)->Some_0;
            let raw = items_of(field(meta, key)->Some_0)[i]->Some_0;
            reads_as_path(link_of(raw).label, relative_text(dir_text(doc), new_path))
        }),
    ensures
        ({
            let i = entry_position(r, meta, key, doc, old_path)->Some_0;
            let v = field(meta, key)->Some_0;
            let raw = items_of(v)[i]->Some_0;
            let read = with_field(
                meta,
                key,
                with_item(v, i, retargeted_link(doc, raw, new_path)),
            );
            &&& field(read, key) is Some
            &&& items_of(field(read, key)->Some_0).len() == items_of(v).len()
            &&& leads(later, doc, items_of(field(read, key)->Some_0)[i], new_path)
            &&& forall|j: int|
                0 <= j < items_of(v).len() && j != i ==> #[trigger] items_of(
                    field(read, key)->Some_0,
                )[j] == items_of(v)[j]
            &&& forall|other: Seq<char>|
                other != key ==> #[trigger] field(read, other) == field(meta, other)
        }),
{
    let v = field(meta, key)->Some_0;
    lemma_position(r, doc, items_of(v), old_path, 0);
    let i = entry_position(r, meta, key, doc, old_path)->Some_0;
    let raw = items_of(v)[i]->Some_0;
    let text = retargeted_link(doc, raw, new_path);
    let entries = meta->Dict_0;
    let item = with_item(v, i, text);
    let read = with_field(meta, key, item);
    lemma_with_entry(entries, key, item, key);
    assert forall|other: Seq<char>| other != key implies #[trigger] field(read, other) == field(
        meta,
        other,
    ) by {
        lemma_with_entry(entries, key, item, other);
    }
    assert(field(read, key) == Some(item));
    assert(items_of(item)[i] == Some(text));
    retargeted_link_leads(later, doc, raw, new_path);
}

/// Law: a created document points back at its parent. Where the new document is read back
/// with the link that was written into it, its inverse field leads to the parent.
pub proof fn created_document_points_back(
    r: Registry,
    meta: Tree,
    inverse: Seq<char>,
    path: Seq<char>,
    parent: Seq<char>,
)
    requires
        normalized(path) == path,
        normalized(parent) == parent,
        reaches(path, parent),
        reads_as_path(None, relative_text(dir_text(path), parent)),
        field(meta, inverse) == Some(Tree::Text(relative_text(dir_text(path), parent))),
    ensures
        single_target_of(r, meta, inverse, path) == Some(parent),
{
    relative_resolves(path, parent);
    let up = relative_text(dir_text(path), parent);
    assert(links_under(meta, inverse) =~= seq![up]);
}

/// The link texts in the field `key`, item by item.
pub open spec fn entries_under(meta: Tree, key: Seq<char>) -> Seq<Option<Seq<char>>> {
    match field(meta, key) {
        Some(v) => items_of(v),
        None => Seq::empty(),
    }
}

/// Entries without those under `key`.
pub open spec fn without_entry(entries: Seq<(Tree, Tree)>, key: Seq<char>) -> Seq<(Tree, Tree)>
    decreases entries.len(),
{
    if entries.len() == 0 {
        entries
    } else if entries.last().0 == Tree::Text(key) {
        without_entry(entries.drop_last(), key)
    } else {
        without_entry(entries.drop_last(), key).push(entries.last())
    }
}

/// Metadata without `key`.
pub open spec fn without_field(meta: Tree, key: Seq<char>) -> Tree {
    match meta {
        Tree::Dict(entries) => Tree::Dict(without_entry(entries, key)),
        other => other,
    }
}

/// A parent's metadata with one more entry in its spanning field.
pub open spec fn extended_meta(meta: Tree, spanning: Seq<char>, down: Seq<char>) -> Tree {
    match field(meta, spanning) {
        Some(Tree::List(items)) => with_put(
            meta,
            spanning,
            Tree::List(items.push(Tree::Text(down))),
        ),
        _ => with_put(meta, spanning, grown_list(meta, spanning, down)),
    }
}

/// A parent's metadata with an entry of its spanning field removed.
pub open spec fn reduced_meta(meta: Tree, spanning: Seq<char>, index: int) -> Tree {
    match field(meta, spanning) {
        Some(Tree::List(items)) => with_put(meta, spanning, Tree::List(items.remove(index))),
        _ => without_field(meta, spanning),
    }
}

pub(crate) proof fn lemma_put(meta: Tree, key: Seq<char>, v: Tree, other: Seq<char>)
    ensures
        field(with_put(meta, key, v), key) == Some(v),
        other != key ==> field(with_put(meta, key, v), other) == field(meta, other),
{
    let put = with_put(meta, key, v);
    match meta {
        Tree::Dict(entries) => {
            lemma_with_entry(entries, key, v, key);
            lemma_with_entry(entries, key, v, other);
            assert(entries.push((Tree::Text(key), v)).drop_last() =~= entries);
        },
        _ => {
            let entries = put->Dict_0;
            assert(entries.drop_last() =~= Seq::empty());
            assert(entry(entries.drop_last(), other) is None);
        },
    }
}

proof fn lemma_without_entry(entries: Seq<(Tree, Tree)>, key: Seq<char>, other: Seq<char>)
    ensures
        entry(without_entry(entries, key), key) is None,
        other != key ==> entry(without_entry(entries, key), other) == entry(entries, other),
    decreases entries.len(),
{
    if entries.len() > 0 {
        lemma_without_entry(entries.drop_last(), key, other);
        if entries.last().0 != Tree::Text(key) {
            let front = without_entry(entries.drop_last(), key);
            assert(front.push(entries.last()).drop_last() =~= front);
        }
    }
}

/// Whether metadata is read as `meta` with one more entry under `key`: the entries that were
/// there are as they were, and so is every other field.
pub open spec fn gains(meta: Tree, read: Tree, key: Seq<char>, down: Seq<char>) -> bool {
    &&& entries_under(read, key) == entries_under(meta, key).push(Some(down))
    &&& forall|other: Seq<char>|
        other != key ==> #[trigger] field(read, other) == field(meta, other)
}

/// Whether metadata is read as `meta` without the entry at a position under `key`: the other
/// entries are as they were, and so is every other field.
pub open spec fn loses(meta: Tree, read: Tree, key: Seq<char>, index: int) -> bool {
    &&& entries_under(read, key) == entries_under(meta, key).remove(index)
    &&& forall|other: Seq<char>|
        other != key ==> #[trigger] field(read, other) == field(meta, other)
}

/// Law: what creating asks for in the parent is one more entry: the entries that were there,
/// a text that stood alone among them, stay in front of it, and the other fields stay as
/// they were.
pub proof fn extending_adds_an_entry(meta: Tree, spanning: Seq<char>, down: Seq<char>)
    ensures
        gains(meta, extended_meta(meta, spanning, down), spanning, down),
{
    let held = field(meta, spanning);
    let before = entries_under(meta, spanning);
    let items = match held {
        Some(Tree::List(items)) => items.push(Tree::Text(down)),
        _ => grown_list(meta, spanning, down)->List_0,
    };
    let read = extended_meta(meta, spanning, down);
    lemma_put(meta, spanning, Tree::List(items), spanning);
    assert(read == with_put(meta, spanning, Tree::List(items)));
    match held {
        Some(Tree::List(_)) => {},
        Some(Tree::Text(s)) => {
            assert(links_under(meta, spanning) =~= seq![s]);
        },
        _ => {
            assert(links_under(meta, spanning) =~= Seq::empty());
        },
    }
    assert(items_of(Tree::List(items)) =~= before.push(Some(down)));
    assert forall|other: Seq<char>| other != spanning implies #[trigger] field(read, other)
        == field(meta, other) by {
        lemma_put(meta, spanning, Tree::List(items), other);
    }
}

pub(crate) proof fn lemma_texts_of_texts(ts: Seq<Seq<char>>)
    ensures
        texts(ts.map_values(|t: Seq<char>| Tree::Text(t))) == ts,
    decreases ts.len(),
{
    let list = ts.map_values(|t: Seq<char>| Tree::Text(t));
    if ts.len() > 0 {
        assert(list.drop_last() =~= ts.drop_last().map_values(|t: Seq<char>| Tree::Text(t)));
        lemma_texts_of_texts(ts.drop_last());
        assert(ts.drop_last().push(ts.last()) =~= ts);
    } else {
        assert(list =~= Seq::empty());
    }
}

/// Law: where appending is refused no link is lost. The field is set to the links it held, in
/// order, and the new one.
pub proof fn setting_the_grown_list_keeps_the_links(
    meta: Tree,
    spanning: Seq<char>,
    down: Seq<char>,
)
    ensures
        links_under(with_put(meta, spanning, grown_list(meta, spanning, down)), spanning)
            == links_under(meta, spanning).push(down),
{
    lemma_put(meta, spanning, grown_list(meta, spanning, down), spanning);
    lemma_texts_of_texts(links_under(meta, spanning).push(down));
}

pub(crate) proof fn lemma_texts_of_list(items: Seq<Tree>)
    requires
        made_of_texts(Tree::List(items)),
    ensures
        texts(items).map_values(|t: Seq<char>| Tree::Text(t)) == items,
    decreases items.len(),
{
    let again = texts(items).map_values(|t: Seq<char>| Tree::Text(t));
    if items.len() > 0 {
        let front = items.drop_last();
        assert forall|i: int| 0 <= i < front.len() implies (#[trigger] front[i]) is Text by {
            assert(items[i] == front[i]);
        }
        lemma_texts_of_list(front);
        assert(items[items.len() - 1] is Text);
        assert(again =~= texts(front).map_values(|t: Seq<char>| Tree::Text(t)).push(items.last()));
        assert(front.push(items.last()) =~= items);
    } else {
        assert(again =~= items);
    }
}

/// Law: where a parent's spanning field holds nothing but texts, it has one entry more after
/// a document was created under it, whether the entry was appended or the field was set. No
/// key comes twice that did not before.
pub proof fn extension_adds_an_entry(
    text: Seq<char>,
    kind: EmbedKind,
    meta: Tree,
    spanning: Seq<char>,
    down: Seq<char>,
)
    requires
        field(meta, spanning) matches Some(Tree::List(items)) ==> made_of_texts(Tree::List(items)),
    ensures
        gains(meta, extension(text, kind, meta, spanning, down), spanning, down),
        single_keyed(meta) ==> single_keyed(extension(text, kind, meta, spanning, down)),
{
    extending_adds_an_entry(meta, spanning, down);
    if let Some(Tree::List(items)) = field(meta, spanning) {
        lemma_texts_of_list(items);
        let links = texts(items);
        assert(links_under(meta, spanning) == links);
        assert(links.push(down).map_values(|t: Seq<char>| Tree::Text(t)) =~= items.push(
            Tree::Text(down),
        ));
    }
    if single_keyed(meta) {
        lemma_put_single_keyed(meta, spanning, grown_list(meta, spanning, down));
        if let Some(Tree::List(items)) = field(meta, spanning) {
            lemma_put_single_keyed(meta, spanning, Tree::List(items.push(Tree::Text(down))));
        }
    }
}

/// Law: what deleting asks for in the parent is one entry less, and nothing else changed.
pub proof fn reducing_removes_an_entry(meta: Tree, spanning: Seq<char>, index: int)
    requires
        0 <= index < entries_under(meta, spanning).len(),
    ensures
        loses(meta, reduced_meta(meta, spanning, index), spanning, index),
{
    let before = entries_under(meta, spanning);
    let back = reduced_meta(meta, spanning, index);
    match field(meta, spanning)->Some_0 {
        Tree::List(items) => {
            let left = Tree::List(items.remove(index));
            lemma_put(meta, spanning, left, spanning);
            assert(items_of(left) =~= before.remove(index));
            assert forall|other: Seq<char>| other != spanning implies #[trigger] field(back, other)
                == field(meta, other) by {
                lemma_put(meta, spanning, left, other);
            }
        },
        _ => {
            lemma_without_entry(meta->Dict_0, spanning, spanning);
            assert(before.remove(index) =~= Seq::empty());
            assert forall|other: Seq<char>| other != spanning implies #[trigger] field(back, other)
                == field(meta, other) by {
                lemma_without_entry(meta->Dict_0, spanning, other);
            }
        },
    }
}

/// Law: a parent contains what was created under it. Where the parent is read back with the
/// entry that was added, the last entry of its spanning field leads to the new document.
pub proof fn extended_parent_leads_to_the_child(
    r: Registry,
    meta: Tree,
    read: Tree,
    spanning: Seq<char>,
    path: Seq<char>,
    parent: Seq<char>,
)
    requires
        normalized(path) == path,
        normalized(parent) == parent,
        reaches(parent, path),
        reads_as_path(None, relative_text(dir_text(parent), path)),
        gains(meta, read, spanning, relative_text(dir_text(parent), path)),
    ensures
        entries_under(read, spanning).len() == entries_under(meta, spanning).len() + 1,
        leads(r, parent, entries_under(read, spanning).last(), path),
{
    relative_resolves(parent, path);
}

/// The position of one more entry that leads to a path to which none led before.
proof fn lemma_position_of_last(
    r: Registry,
    doc: Seq<char>,
    items: Seq<Option<Seq<char>>>,
    last: Option<Seq<char>>,
    wanted: Seq<char>,
    n: nat,
)
    requires
        n <= items.len(),
        position_from(r, doc, items, wanted, n) is None,
        leads(r, doc, last, wanted),
    ensures
        position_from(r, doc, items.push(last), wanted, n) == Some(items.len() as int),
    decreases items.len() - n,
{
    if n < items.len() {
        assert(items.push(last)[n as int] == items[n as int]);
        lemma_position_of_last(r, doc, items, last, wanted, n + 1);
    } else {
        assert(items.push(last)[n as int] == last);
    }
}

/// Law: deleting undoes creating. Where a parent did not contain the document, and is read
/// back first with the entry that creating adds and then without the one that deleting
/// removes, the document's file is removed, the entry removed is the one that was added, and
/// the parent has the entries and the other fields it had.
pub proof fn deleting_undoes_creating(
    r: Registry,
    spanning: Seq<char>,
    inverse: Seq<char>,
    path: Seq<char>,
    parent: LoadedView,
    created: Seq<OpView>,
    deleted: Seq<OpView>,
    before: DocumentView,
    between: DocumentView,
    now: DocumentView,
)
    requires
        normalized(path) == path,
        normalized(parent.path) == parent.path,
        reaches(parent.path, path),
        reads_as_path(None, relative_text(dir_text(parent.path), path)),
        document_in(parent.text) == Ok::<DocumentView, Failure>(before),
        entry_position(r, before.meta, spanning, parent.path, path) is None,
        creation_ops(path, parent.path, spanning, inverse, parent.text) == Ok::<
            Seq<OpView>,
            Failure,
        >(created),
        document_in(created[2]->Write_1) == Ok::<DocumentView, Failure>(between),
        gains(
            before.meta,
            between.meta,
            spanning,
            relative_text(dir_text(parent.path), path),
        ),
        deletion_ops(
            r,
            spanning,
            path,
            Some(LoadedView { path: parent.path, text: created[2]->Write_1 }),
        ) == Ok::<Seq<OpView>, Failure>(deleted),
        document_in(deleted[1]->Write_1) == Ok::<DocumentView, Failure>(now),
        loses(
            between.meta,
            now.meta,
            spanning,
            entry_position(r, between.meta, spanning, parent.path, path)->Some_0,
        ),
    ensures
        created[1] matches OpView::Write(p, _) && p == path,
        created[2] matches OpView::Write(p, _) && p == parent.path,
        deleted.len() == 2,
        deleted[0] == OpView::RemoveFile(path),
        deleted[1] matches OpView::Write(p, _) && p == parent.path,
        entry_position(r, between.meta, spanning, parent.path, path) == Some(
            entries_under(before.meta, spanning).len() as int,
        ),
        entries_under(now.meta, spanning) == entries_under(before.meta, spanning),
        forall|other: Seq<char>|
            other != spanning ==> #[trigger] field(now.meta, other) == field(before.meta, other),
{
    let down = relative_text(dir_text(parent.path), path);
    let entries = entries_under(before.meta, spanning);
    relative_resolves(parent.path, path);
    assert(position_from(r, parent.path, entries, path, 0) is None);
    lemma_position_of_last(r, parent.path, entries, Some(down), path, 0);
    assert(entries_under(between.meta, spanning).len() > 0);
    assert(entry_position(r, between.meta, spanning, parent.path, path) == Some(
        entries.len() as int,
    ));
    assert(entries.push(Some(down)).remove(entries.len() as int) =~= entries);
    assert forall|other: Seq<char>| other != spanning implies #[trigger] field(now.meta, other)
        == field(before.meta, other) by {
        assert(field(between.meta, other) == field(before.meta, other));
    }
}

/// Law: deleting undoes creating under a parent in JSON whose spanning field holds nothing but
/// texts. The readings in between are those that [`Creation::plan`] and
/// [`Workspace::delete_plan`] promise of such a parent: they keep promising, for what creating
/// wrote keeps its edits, and the parent ends with the entries, the other fields and the body
/// it had.
pub proof fn deleting_undoes_creating_in_json(
    r: Registry,
    spanning: Seq<char>,
    inverse: Seq<char>,
    path: Seq<char>,
    parent: LoadedView,
    created: Seq<OpView>,
    deleted: Seq<OpView>,
    before: DocumentView,
)
    requires
        normalized(path) == path,
        normalized(parent.path) == parent.path,
        reaches(parent.path, path),
        reads_as_path(None, relative_text(dir_text(parent.path), path)),
        document_in(parent.text) == Ok::<DocumentView, Failure>(before),
        keeps_edits(before),
        field(before.meta, spanning) matches Some(v) ==> v is List && made_of_texts(v),
        entry_position(r, before.meta, spanning, parent.path, path) is None,
        creation_ops(path, parent.path, spanning, inverse, parent.text) == Ok::<
            Seq<OpView>,
            Failure,
        >(created),
        ({
            let text = created[2]->Write_1;
            let between = DocumentView {
                meta: extension(
                    parent.text,
                    embed_kind(before),
                    before.meta,
                    spanning,
                    relative_text(dir_text(parent.path), path),
                ),
                ..before
            };
            let at = entry_position(r, between.meta, spanning, parent.path, path);
            &&& document_in(text) == Ok::<DocumentView, Failure>(between)
            &&& deletion_ops(r, spanning, path, Some(LoadedView { path: parent.path, text })) == Ok::<
                Seq<OpView>,
                Failure,
            >(deleted)
            &&& keeps_edits(between) && (field(between.meta, spanning) matches Some(Tree::List(_)))
                && at is Some ==> document_in(deleted[1]->Write_1) == Ok::<DocumentView, Failure>(
                DocumentView {
                    meta: reduced_meta(between.meta, spanning, at->Some_0),
                    ..between
                },
            )
        }),
    ensures
        deleted.len() == 2,
        deleted[0] == OpView::RemoveFile(path),
        deleted[1] matches OpView::Write(p, _) && p == parent.path,
        document_in(deleted[1]->Write_1) matches Ok(now) && {
            &&& now.body == before.body
            &&& now.embed == before.embed
            &&& entries_under(now.meta, spanning) == entries_under(before.meta, spanning)
            &&& forall|other: Seq<char>|
                other != spanning ==> #[trigger] field(now.meta, other) == field(
                    before.meta,
                    other,
                )
        },
{
    let down = relative_text(dir_text(parent.path), path);
    let meta = extension(parent.text, embed_kind(before), before.meta, spanning, down);
    let between = DocumentView { meta, ..before };
    let entries = entries_under(before.meta, spanning);
    extension_adds_an_entry(parent.text, embed_kind(before), before.meta, spanning, down);
    relative_resolves(parent.path, path);
    assert(position_from(r, parent.path, entries, path, 0) is None);
    lemma_position_of_last(r, parent.path, entries, Some(down), path, 0);
    let at = entries.len() as int;
    assert(entries_under(meta, spanning).len() > 0);
    assert(entry_position(r, meta, spanning, parent.path, path) == Some(at));
    lemma_put(before.meta, spanning, grown_list(before.meta, spanning, down), spanning);
    if let Some(Tree::List(items)) = field(before.meta, spanning) {
        lemma_put(
            before.meta,
            spanning,
            Tree::List(items.push(Tree::Text(down))),
            spanning,
        );
    }
    let now = DocumentView { meta: reduced_meta(meta, spanning, at), ..between };
    assert(document_in(deleted[1]->Write_1) == Ok::<DocumentView, Failure>(now));
    reducing_removes_an_entry(meta, spanning, at);
    deleting_undoes_creating(
        r,
        spanning,
        inverse,
        path,
        parent,
        created,
        deleted,
        before,
        between,
        now,
    );
}

/// The metadata of a new document: a title and a link to its parent.
pub open spec fn new_meta(title: Seq<char>, inverse: Seq<char>, up: Seq<char>) -> Tree {
    with_put(with_put(Tree::Null, "title"@, Tree::Text(title)), inverse, Tree::Text(up))
}

/// Law: a document that was just created can be deleted without force. Where it is read
/// back as it was written, it has no children, and the parent to be read for the deletion
/// is the one it was created under.
pub proof fn created_document_can_be_deleted(
    r: Registry,
    vocabulary: Vocabulary,
    inverse: Seq<char>,
    path: Seq<char>,
    parent: Seq<char>,
    text: Seq<char>,
    d: DocumentView,
    force: bool,
)
    requires
        normalized(path) == path,
        normalized(parent) == parent,
        reaches(path, parent),
        reads_as_path(None, relative_text(dir_text(path), parent)),
        vocabulary.spanning matches Some(s) ==> s != inverse && s != "title"@,
        document_in(text) == Ok::<DocumentView, Failure>(d),
        d.meta == new_meta(stem_of(path), inverse, relative_text(dir_text(path), parent)),
    ensures
        deletion_reads(r, vocabulary, inverse, LoadedView { path, text }, force) == Ok::<
            Option<Seq<char>>,
            Failure,
        >(Some(parent)),
{
    let up = relative_text(dir_text(path), parent);
    let titled = with_put(Tree::Null, "title"@, Tree::Text(stem_of(path)));
    lemma_put(titled, inverse, Tree::Text(up), inverse);
    if let Some(s) = vocabulary.spanning {
        lemma_put(titled, inverse, Tree::Text(up), s);
        lemma_put(Tree::Null, "title"@, Tree::Text(stem_of(path)), s);
        assert(children_of(vocabulary, d.meta) =~= Seq::empty());
    }
    created_document_points_back(r, d.meta, inverse, path, parent);
}

// ---- laws of a document that moves ----

/// Metadata with one value replaced by a text.
pub open spec fn with_replaced(meta: Tree, edit: Replacement) -> Tree {
    with_text_at(meta, edit.path, edit.text)
}

/// Metadata with values replaced by texts, one after the other.
pub open spec fn with_all_replaced(meta: Tree, edits: Seq<Replacement>) -> Tree
    decreases edits.len(),
{
    if edits.len() == 0 {
        meta
    } else {
        with_replaced(with_all_replaced(meta, edits.drop_last()), edits.last())
    }
}

/// A value of a field whose document moves: a link text that keeps leading where it led.
pub open spec fn moved_value(v: Tree, from: Seq<char>, to: Seq<char>) -> Tree {
    match v {
        Tree::Text(raw) => match moved_link(raw, from, to) {
            Some(text) => Tree::Text(text),
            None => v,
        },
        _ => v,
    }
}

/// Whether `now` is the field `v` with its first `n` items, and perhaps more of them, as they
/// are once the document has moved.
spec fn partly_moved(v: Tree, now: Tree, from: Seq<char>, to: Seq<char>, n: nat) -> bool {
    match v {
        Tree::List(items) => {
            &&& now matches Tree::List(new)
            &&& new.len() == items.len()
            &&& forall|i: int|
                0 <= i < items.len() ==> (#[trigger] new[i] == moved_value(items[i], from, to) || (i
                    >= n && new[i] == items[i]))
        },
        Tree::Text(_) => now == moved_value(v, from, to) || (n == 0 && now == v),
        _ => now == v,
    }
}

proof fn lemma_all_replaced(meta: Tree, a: Seq<Replacement>, b: Seq<Replacement>)
    ensures
        with_all_replaced(meta, a + b) == with_all_replaced(with_all_replaced(meta, a), b),
    decreases b.len(),
{
    if b.len() == 0 {
        assert(a + b =~= a);
    } else {
        lemma_all_replaced(meta, a, b.drop_last());
        assert((a + b).drop_last() =~= a + b.drop_last());
        assert((a + b).last() == b.last());
    }
}

/// What replacing the first `n` items of the field `v` makes of metadata that holds `now`
/// under `key`.
proof fn lemma_items_moved(
    meta: Tree,
    key: Seq<char>,
    v: Tree,
    now: Tree,
    from: Seq<char>,
    to: Seq<char>,
    n: nat,
)
    requires
        field(meta, key) == Some(now),
        partly_moved(v, now, from, to, 0),
        n <= items_of(v).len(),
    ensures
        ({
            let read = with_all_replaced(meta, item_rewrites(v, key, from, to, n));
            &&& field(read, key) matches Some(new) && partly_moved(v, new, from, to, n)
            &&& forall|other: Seq<char>|
                other != key ==> #[trigger] field(read, other) == field(meta, other)
        }),
    decreases n,
{
    if n > 0 {
        let rest = item_rewrites(v, key, from, to, (n - 1) as nat);
        let all = item_rewrites(v, key, from, to, n);
        lemma_items_moved(meta, key, v, now, from, to, (n - 1) as nat);
        let before = with_all_replaced(meta, rest);
        let read = with_all_replaced(meta, all);
        let was = field(before, key)->Some_0;
        match items_of(v)[n - 1] {
            Some(raw) => match moved_link(raw, from, to) {
                Some(text) => {
                    let edit = Replacement { path: entry_path(v, key, n - 1), text };
                    assert(all.drop_last() =~= rest);
                    assert(all.last() == edit);
                    assert(read == with_replaced(before, edit));
                    let new = with_item(was, n - 1, text);
                    assert(read == with_field(before, key, new));
                    lemma_with_entry(before->Dict_0, key, new, key);
                    assert forall|other: Seq<char>| other != key implies #[trigger] field(
                        read,
                        other,
                    ) == field(meta, other) by {
                        assert(field(before, other) == field(meta, other));
                        lemma_with_entry(before->Dict_0, key, new, other);
                    }
                    assert(partly_moved(v, new, from, to, n));
                },
                None => {
                    assert(partly_moved(v, was, from, to, n));
                },
            },
            None => {
                assert(partly_moved(v, was, from, to, n));
            },
        }
    }
}

/// What the replacements for a document that moves make of the field `key`.
proof fn lemma_document_moved(
    relations: Seq<RelationView>,
    meta: Tree,
    key: Seq<char>,
    from: Seq<char>,
    to: Seq<char>,
)
    ensures
        ({
            let read = with_all_replaced(meta, rewrites(relations, meta, from, to));
            let named = exists|k: int| 0 <= k < relations.len() && #[trigger] relations[k].name == key;
            match field(meta, key) {
                None => field(read, key) is None,
                Some(v) => if named {
                    field(read, key) matches Some(new) && partly_moved(
                        v,
                        new,
                        from,
                        to,
                        items_of(v).len(),
                    )
                } else {
                    field(read, key) == Some(v)
                },
            }
        }),
    decreases relations.len(),
{
    if relations.len() > 0 {
        let front = relations.drop_last();
        let name = relations.last().name;
        let a = rewrites(front, meta, from, to);
        let b = field_rewrites(meta, name, from, to);
        lemma_document_moved(front, meta, key, from, to);
        lemma_document_moved(front, meta, name, from, to);
        lemma_all_replaced(meta, a, b);
        let before = with_all_replaced(meta, a);
        let read = with_all_replaced(meta, a + b);
        assert(relations[relations.len() - 1].name == name);
        assert forall|k: int| 0 <= k < front.len() implies relations[k] == front[k] by {}
        assert((exists|k: int| 0 <= k < relations.len() && #[trigger] relations[k].name == key)
            <==> (name == key || exists|k: int|
            0 <= k < front.len() && #[trigger] front[k].name == key)) by {
            if exists|k: int| 0 <= k < front.len() && #[trigger] front[k].name == key {
                let k = choose|k: int| 0 <= k < front.len() && #[trigger] front[k].name == key;
                assert(relations[k].name == key);
            }
            if exists|k: int| 0 <= k < relations.len() && #[trigger] relations[k].name == key {
                let k = choose|k: int|
                    0 <= k < relations.len() && #[trigger] relations[k].name == key;
                if k < front.len() {
                    assert(front[k].name == key);
                }
            }
        }
        match field(meta, name) {
            Some(v) => {
                let was = field(before, name)->Some_0;
                assert(partly_moved(v, was, from, to, 0));
                lemma_items_moved(before, name, v, was, from, to, items_of(v).len());
            },
            None => {},
        }
    }
}

/// What the replacements for a document that moves make of a field, item by item.
pub(crate) proof fn lemma_field_moved(
    relations: Seq<RelationView>,
    meta: Tree,
    key: Seq<char>,
    from: Seq<char>,
    to: Seq<char>,
)
    ensures
        ({
            let read = with_all_replaced(meta, rewrites(relations, meta, from, to));
            let named = exists|k: int| 0 <= k < relations.len() && #[trigger] relations[k].name == key;
            match field(meta, key) {
                None => field(read, key) is None,
                Some(Tree::List(items)) => if named {
                    field(read, key) matches Some(Tree::List(new)) && new.len() == items.len()
                        && forall|i: int|
                        0 <= i < items.len() ==> #[trigger] new[i] == moved_value(
                            items[i],
                            from,
                            to,
                        )
                } else {
                    field(read, key) == field(meta, key)
                },
                Some(v) => if named {
                    field(read, key) == Some(moved_value(v, from, to))
                } else {
                    field(read, key) == Some(v)
                },
            }
        }),
{
    lemma_document_moved(relations, meta, key, from, to);
}

/// Whether an entry of a document that moved from `from` to `to` leads on: where the old
/// entry led, under the old label, and unchanged where it needs no change.
pub open spec fn leads_on(
    r: Registry,
    from: Seq<char>,
    to: Seq<char>,
    was: Option<Seq<char>>,
    now: Option<Seq<char>>,
) -> bool {
    match was {
        None => now is None,
        Some(raw) => {
            &&& now is Some
            &&& target_of(r, to, link_of(now->Some_0)) == target_of(r, from, link_of(raw))
            &&& link_of(now->Some_0).label == link_of(raw).label
            &&& moved_link(raw, from, to) is None ==> now == was
        },
    }
}

/// Whether an entry of a document can be made to lead on when the document moves: what it
/// leads to can be reached by a relative target, which is read as a path.
pub open spec fn can_lead_on(from: Seq<char>, to: Seq<char>, entry: Option<Seq<char>>) -> bool {
    entry matches Some(raw) ==> moved_link(raw, from, to) is Some ==> {
        let target = resolved(from, link_of(raw).target);
        &&& reaches(to, target)
        &&& reads_as_path(link_of(raw).label, relative_text(dir_text(to), target))
    }
}

/// Law: when a document moves, every entry of every relation it declares keeps leading where
/// it led. Where the document is read back with the values replaced that were to be
/// replaced, each field of a relation has the entries it had, in order, each leading on
/// under its label, and every other field is as it was. This holds of the entries that can
/// be made to lead on. [`rerelativize`] promises this reading of a document in JSON.
pub proof fn moved_document_leads_on(
    r: Registry,
    relations: Seq<RelationView>,
    meta: Tree,
    key: Seq<char>,
    from: Seq<char>,
    to: Seq<char>,
)
    requires
        normalized(to) == to,
        forall|j: int|
            0 <= j < entries_under(meta, key).len() ==> #[trigger] can_lead_on(
                from,
                to,
                entries_under(meta, key)[j],
            ),
    ensures
        ({
            let read = with_all_replaced(meta, rewrites(relations, meta, from, to));
            let was = entries_under(meta, key);
            let now = entries_under(read, key);
            if exists|k: int| 0 <= k < relations.len() && #[trigger] relations[k].name == key {
                &&& now.len() == was.len()
                &&& forall|j: int|
                    0 <= j < was.len() ==> #[trigger] leads_on(r, from, to, was[j], now[j])
            } else {
                field(read, key) == field(meta, key)
            }
        }),
{
    lemma_document_moved(relations, meta, key, from, to);
    let read = with_all_replaced(meta, rewrites(relations, meta, from, to));
    let was = entries_under(meta, key);
    let now = entries_under(read, key);
    if exists|k: int| 0 <= k < relations.len() && #[trigger] relations[k].name == key {
        assert forall|j: int| 0 <= j < was.len() implies #[trigger] leads_on(
            r,
            from,
            to,
            was[j],
            now[j],
        ) by {
            let v = field(meta, key)->Some_0;
            let new = field(read, key)->Some_0;
            assert(can_lead_on(from, to, was[j]));
            match v {
                Tree::List(items) => {
                    assert(new->List_0[j] == moved_value(items[j], from, to));
                },
                _ => {},
            }
            if let Some(raw) = was[j] {
                if moved_link(raw, from, to) is Some {
                    moved_link_leads_on(r, raw, from, to);
                } else {
                    untouched_link_leads_on(r, raw, from, to);
                }
            }
        }
    }
}

/// Law: a move within a directory needs no edit of the document: every link leads from the
/// new path where it led from the old one.
pub proof fn move_within_a_directory_leads_on(
    r: Registry,
    link: LinkView,
    from: Seq<char>,
    to: Seq<char>,
)
    requires
        same_dir(from, to),
    ensures
        target_of(r, to, link) == target_of(r, from, link),
{
}

// ---- laws of names and words ----

/// Law: the stem of a name is what stands before its last dot. A name without a dot, or whose
/// one dot is in front, is its own stem.
pub proof fn stem_ends_at_the_last_dot(name: Seq<char>, i: int)
    requires
        -1 <= i < name.len(),
        i >= 0 ==> name[i] == '.',
        forall|k: int| i < k < name.len() ==> #[trigger] name[k] != '.',
    ensures
        i > 0 ==> name_stem(name) == name.take(i),
        i <= 0 ==> name_stem(name) == name,
{
    lemma_last_dot_at(name, i);
}

proof fn lemma_last_dot_at(name: Seq<char>, i: int)
    requires
        -1 <= i < name.len(),
        i >= 0 ==> name[i] == '.',
        forall|k: int| i < k < name.len() ==> #[trigger] name[k] != '.',
    ensures
        last_dot(name) == i,
    decreases name.len(),
{
    if name.len() > 0 && i < name.len() - 1 {
        assert(name[name.len() - 1] != '.');
        let front = name.drop_last();
        assert forall|k: int| i < k < front.len() implies #[trigger] front[k] != '.' by {
            assert(front[k] == name[k]);
        }
        lemma_last_dot_at(front, i);
    }
}

/// Law: the stem of a path is that of its last component, where that is a name, and nothing
/// where it is not.
pub proof fn stem_is_that_of_the_name(path: Seq<char>)
    ensures
        ({
            let cs = components(path);
            if cs.len() > 0 && cs.last() is Name {
                stem_of(path) == name_stem(cs.last()->Name_0)
            } else {
                stem_of(path).len() == 0
            }
        }),
{
}

/// Law: a mutation needs a spanning relation whose first declaration names an inverse, and is
/// refused for the lack of either.
pub proof fn mutations_need_both_directions(vocabulary: Vocabulary, s: Seq<char>)
    ensures
        vocabulary.spanning is None ==> pair_of(vocabulary) == Err::<
            (Seq<char>, Seq<char>),
            Failure,
        >(Failure::Structure(NO_SPANNING@)),
        vocabulary.spanning == Some(s) && spanning_inverse(vocabulary) is None ==> pair_of(
            vocabulary,
        ) == Err::<(Seq<char>, Seq<char>), Failure>(
            Failure::Structure("spanning relation `"@ + s + "` has no inverse"@),
        ),
        vocabulary.spanning == Some(s) ==> (spanning_inverse(vocabulary) matches Some(i) ==> pair_of(
            vocabulary,
        ) == Ok::<(Seq<char>, Seq<char>), Failure>((s, i))),
{
}

/// Law: a refusal names the path it is about, and one for the sake of children says how many
/// they are and names each.
pub proof fn refusals_name_the_path(path: Seq<char>, children: Seq<Seq<char>>)
    ensures
        already_exists(path) == path + " already exists"@,
        does_not_exist(path) == path + " does not exist"@,
        has_children(path, children) == path + " contains "@ + digits(children.len())
            + " document(s) ("@ + joined(children, ", "@) + "); delete them first or force"@,
{
}

} // verus!
