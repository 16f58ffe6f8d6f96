//! Embeds: the metadata block inside a document's text, and edits to it.
//!
//! Where the block stands, how it is fenced and how an edit leaves every other
//! byte alone is the business of the `fig` crate.
use fig::EmbedType;
use vstd::prelude::*;

use crate::error::{done, fig_result, text_result, Failure, WorkspaceError};
use crate::meta::{
    describe, error_text, field, made_of_texts, mapping_in, single_keyed, text_keyed, to_fig,
    tree_of, with_field, with_item, with_put, Format, MetaValue, Tree,
};
use crate::text::occurs;

verus! {

/// How a metadata block is embedded in a document.
#[derive(Debug, Clone, Copy, PartialEq, Eq, Structural)]
pub enum EmbedKind {
    /// `---` bare YAML frontmatter.
    FrontmatterYaml,
    /// `;;;` JSON frontmatter.
    FrontmatterJson,
    /// YAML in a trailing ` ```endmatter ` code block.
    EndmatterYaml,
    /// A ` ```fig ` fenced block.
    FrontmatterFig,
    /// `+++` TOML frontmatter.
    PlusToml,
    /// A ` ```yaml ` fenced block.
    FencedYaml,
    /// A ` ```json ` fenced block.
    FencedJson,
    /// A ` ```toml ` fenced block.
    FencedToml,
    /// `---json` frontmatter.
    MdFrontmatterJson,
    /// `---toml` frontmatter.
    MdFrontmatterToml,
    /// `---fig` frontmatter.
    MdFrontmatterFig,
    /// A `<script>` data island in the fig dialect.
    HtmlScriptFig,
    /// A `<script>` data island in YAML.
    HtmlScriptYaml,
    /// A `<script>` data island in JSON.
    HtmlScriptJson,
    /// A `<script>` data island in TOML.
    HtmlScriptToml,
    /// A visible HTML code block in the fig dialect.
    HtmlCodeFig,
    /// A visible HTML code block in YAML.
    HtmlCodeYaml,
    /// A visible HTML code block in JSON.
    HtmlCodeJson,
    /// A visible HTML code block in TOML.
    HtmlCodeToml,
}

/// Every kind of embed, in the order of their declaration.
const KINDS: [EmbedKind; 19] = [
    EmbedKind::FrontmatterYaml, EmbedKind::FrontmatterJson, EmbedKind::EndmatterYaml,
    EmbedKind::FrontmatterFig, EmbedKind::PlusToml, EmbedKind::FencedYaml,
    EmbedKind::FencedJson, EmbedKind::FencedToml, EmbedKind::MdFrontmatterJson,
    EmbedKind::MdFrontmatterToml, EmbedKind::MdFrontmatterFig, EmbedKind::HtmlScriptFig,
    EmbedKind::HtmlScriptYaml, EmbedKind::HtmlScriptJson, EmbedKind::HtmlScriptToml,
    EmbedKind::HtmlCodeFig, EmbedKind::HtmlCodeYaml, EmbedKind::HtmlCodeJson,
    EmbedKind::HtmlCodeToml,
];

/// `fig`'s kind of embed.
#[verifier::external_type_specification]
#[verifier::external_body]
pub struct ExEmbedType(fig::EmbedType);

/// The library's kind for a kind of `fig`.
pub uninterp spec fn kind_of(kind: fig::EmbedType) -> EmbedKind;

/// The kind of embed that `fig` recognizes in a text.
pub uninterp spec fn detected(text: Seq<char>) -> Option<EmbedKind>;

/// The metadata block and the body that `fig` finds in a text for a kind of
/// embed, or the text of an error.
pub uninterp spec fn extracted(text: Seq<char>, kind: EmbedKind) -> Result<
    (Seq<char>, Seq<char>),
    Seq<char>,
>;

/// The format of the block of a kind of embed.
pub open spec fn format_of(kind: EmbedKind) -> Format {
    match kind {
        EmbedKind::FrontmatterYaml
        | EmbedKind::EndmatterYaml
        | EmbedKind::FencedYaml
        | EmbedKind::HtmlScriptYaml
        | EmbedKind::HtmlCodeYaml => Format::Yaml,
        EmbedKind::FrontmatterJson
        | EmbedKind::FencedJson
        | EmbedKind::MdFrontmatterJson
        | EmbedKind::HtmlScriptJson
        | EmbedKind::HtmlCodeJson => Format::Json,
        EmbedKind::FrontmatterFig
        | EmbedKind::MdFrontmatterFig
        | EmbedKind::HtmlScriptFig
        | EmbedKind::HtmlCodeFig => Format::Fig,
        EmbedKind::PlusToml
        | EmbedKind::FencedToml
        | EmbedKind::MdFrontmatterToml
        | EmbedKind::HtmlScriptToml
        | EmbedKind::HtmlCodeToml => Format::Toml,
    }
}

/// The kind of [`fig::EmbedType`] with the same name: the two are declared in
/// the same order.
#[verifier::external_body]
fn kind_from(kind: fig::EmbedType) -> (r: EmbedKind)
    ensures
        r == kind_of(kind),
{
    KINDS[kind as usize]
}

/// The [`fig::EmbedType`] with the same name: the two are declared in the same
/// order.
#[verifier::external_body]
fn fig_kind(kind: EmbedKind) -> (r: fig::EmbedType)
    ensures
        kind_of(r) == kind,
{
    [
        EmbedType::FrontmatterYaml, EmbedType::FrontmatterJson, EmbedType::EndmatterYaml,
        EmbedType::FrontmatterFig, EmbedType::PlusToml, EmbedType::FencedYaml,
        EmbedType::FencedJson, EmbedType::FencedToml, EmbedType::MdFrontmatterJson,
        EmbedType::MdFrontmatterToml, EmbedType::MdFrontmatterFig, EmbedType::HtmlScriptFig,
        EmbedType::HtmlScriptYaml, EmbedType::HtmlScriptJson, EmbedType::HtmlScriptToml,
        EmbedType::HtmlCodeFig, EmbedType::HtmlCodeYaml, EmbedType::HtmlCodeJson,
        EmbedType::HtmlCodeToml,
    ][kind as usize]
}

/// [`fig::detect`]: recognizes a kind of embed by how its block opens.
#[verifier::external_body]
fn detect(text: &str) -> (r: Option<fig::EmbedType>)
    ensures
        match r {
            Some(k) => detected(text@) == Some(kind_of(k)),
            None => detected(text@) is None,
        },
{
    fig::detect(text)
}

/// [`fig::EmbedType::inner_format`]: the format that a kind of embed is written
/// in.
#[verifier::external_body]
fn inner_format(kind: fig::EmbedType) -> (r: Format)
    ensures
        r == format_of(kind_of(kind)),
{
    match kind.inner_format() {
        fig::Format::Json => Format::Json,
        fig::Format::Jsonc => Format::Jsonc,
        fig::Format::Json5 => Format::Json5,
        fig::Format::Yaml => Format::Yaml,
        fig::Format::Toml => Format::Toml,
        fig::Format::Zon => Format::Zon,
        fig::Format::Fig => Format::Fig,
    }
}

/// [`fig::Embed::extract`]: the text between the fences, and the text outside
/// them. Both are stretches of the document's text.
#[verifier::external_body]
fn extract(text: &str, kind: fig::EmbedType) -> (r: Result<(String, String), fig::Error>)
    ensures
        match r {
            Ok((content, body)) => extracted(text@, kind_of(kind)) == Ok::<
                (Seq<char>, Seq<char>),
                Seq<char>,
            >((content@, body@)) && occurs(text@, content@) && occurs(text@, body@),
            Err(e) => extracted(text@, kind_of(kind)) == Err::<(Seq<char>, Seq<char>), Seq<char>>(
                error_text(e),
            ),
        },
{
    let found = fig::Embed::extract(text, kind)?;
    Ok((found.content().to_owned(), found.body().to_owned()))
}

/// A document's text, cut at its metadata block.
pub struct Cut {
    /// How the block is embedded.
    pub kind: EmbedKind,
    /// The block, without fences.
    pub content: String,
    /// The rest.
    pub body: String,
}

/// A cut text, as a mathematical value.
pub struct CutView {
    /// See [`Cut::kind`].
    pub kind: EmbedKind,
    /// See [`Cut::content`].
    pub content: Seq<char>,
    /// See [`Cut::body`].
    pub body: Seq<char>,
}

impl View for Cut {
    type V = CutView;

    open spec fn view(&self) -> CutView {
        CutView { kind: self.kind, content: self.content@, body: self.body@ }
    }
}

/// Where `text` is cut: nowhere when it opens no block, an error when the block
/// it opens is not there.
pub open spec fn cut_of(text: Seq<char>) -> Result<Option<CutView>, Failure> {
    match detected(text) {
        None => Ok(None),
        Some(kind) => match extracted(text, kind) {
            Ok((content, body)) => Ok(Some(CutView { kind, content, body })),
            Err(m) => Err(Failure::Fig(m)),
        },
    }
}

/// Cuts `text` at its metadata block.
pub fn cut(text: &str) -> (r: Result<Option<Cut>, WorkspaceError>)
    ensures
        match r {
            Ok(Some(c)) => cut_of(text@) == Ok::<Option<CutView>, Failure>(Some(c@)) && occurs(
                text@,
                c@.content,
            ) && occurs(text@, c@.body),
            Ok(None) => cut_of(text@) == Ok::<Option<CutView>, Failure>(None),
            Err(e) => cut_of(text@) == Err::<Option<CutView>, Failure>(e@),
        },
{
    match detect(text) {
        None => Ok(None),
        Some(kind) => match extract(text, kind) {
            Ok((content, body)) => Ok(Some(Cut { kind: kind_from(kind), content, body })),
            Err(e) => Err(WorkspaceError::Fig(describe(&e))),
        },
    }
}

impl EmbedKind {
    /// The format of the block.
    pub fn inner_format(self) -> (r: Format)
        ensures
            r == format_of(self),
    {
        inner_format(fig_kind(self))
    }
}

// ---- edits ----

/// One step of a path into metadata.
#[derive(Debug, Clone, PartialEq, Eq)]
pub enum Step {
    /// A mapping key.
    Key(String),
    /// A position in a sequence.
    Index(usize),
}

/// A step, as a mathematical value.
pub enum StepView {
    /// See [`Step::Key`].
    Key(Seq<char>),
    /// See [`Step::Index`].
    Index(int),
}

impl View for Step {
    type V = StepView;

    open spec fn view(&self) -> StepView {
        match self {
            Step::Key(k) => StepView::Key(k@),
            Step::Index(i) => StepView::Index(*i as int),
        }
    }
}

/// A path, as a mathematical value.
pub open spec fn steps(path: Seq<Step>) -> Seq<StepView> {
    path.map_values(|s: Step| s@)
}

/// An edit to a metadata block.
pub enum Edit {
    /// Set the value at a path, inserting the last key where it is absent.
    Put(Seq<StepView>, Tree),
    /// Append a value to the sequence at a path.
    Append(Seq<StepView>, Tree),
    /// Replace the value at a path.
    Replace(Seq<StepView>, Tree),
    /// Remove the item at a position from the sequence at a path.
    Remove(Seq<StepView>, int),
    /// Delete the entry at a path.
    Delete(Seq<StepView>),
}

/// What an open embed has been through: the text it was opened on, and the edits
/// that were asked of it, granted or not.
pub struct History {
    /// The document's text.
    pub host: Seq<char>,
    /// The kind of embed.
    pub kind: EmbedKind,
    /// Whether an empty block was put in where there was none.
    pub init: bool,
    /// The edits asked for, in order.
    pub edits: Seq<Edit>,
}

/// `fig`'s embed editor.
#[verifier::external_type_specification]
#[verifier::external_body]
pub struct ExEmbed(fig::Embed);

/// What an open embed has been through.
pub uninterp spec fn history(e: fig::Embed) -> History;

/// How opening an embed ends.
pub uninterp spec fn opening(text: Seq<char>, kind: EmbedKind) -> Result<(), Seq<char>>;

/// How opening an embed that may be absent ends.
pub uninterp spec fn initiating(text: Seq<char>, kind: EmbedKind) -> Result<(), Seq<char>>;

/// How setting a value ends, after what the embed has been through.
pub uninterp spec fn setting(h: History, path: Seq<StepView>, value: Tree) -> Result<(), Seq<char>>;

/// How appending a value ends, after what the embed has been through.
pub uninterp spec fn appending(h: History, path: Seq<StepView>, value: Tree) -> Result<
    (),
    Seq<char>,
>;

/// How replacing a value ends, after what the embed has been through.
pub uninterp spec fn replacing(h: History, path: Seq<StepView>, value: Tree) -> Result<
    (),
    Seq<char>,
>;

/// How removing an item ends, after what the embed has been through.
pub uninterp spec fn removing(h: History, path: Seq<StepView>, index: int) -> Result<(), Seq<char>>;

/// How deleting an entry ends, after what the embed has been through.
pub uninterp spec fn deleting(h: History, path: Seq<StepView>) -> Result<(), Seq<char>>;

/// The text an embed renders to, after what it has been through.
pub uninterp spec fn rendering(h: History) -> Result<Seq<char>, Seq<char>>;

/// The outcome of a call of `fig`, its error as a text.
pub open spec fn outcome(r: Result<(), fig::Error>) -> Result<(), Seq<char>> {
    match r {
        Ok(_) => Ok(()),
        Err(e) => Err(error_text(e)),
    }
}

/// A history with one more edit.
pub open spec fn after(h: History, edit: Edit) -> History {
    History { edits: h.edits.push(edit), ..h }
}

/// How an edit ends, after what the embed has been through.
pub open spec fn outcome_of(h: History, edit: Edit) -> Result<(), Seq<char>> {
    match edit {
        Edit::Put(path, v) => setting(h, path, v),
        Edit::Append(path, v) => appending(h, path, v),
        Edit::Replace(path, v) => replacing(h, path, v),
        Edit::Remove(path, i) => removing(h, path, i),
        Edit::Delete(path) => deleting(h, path),
    }
}

/// Metadata with the value at a path replaced by a text. The path is a key, or a key and a
/// position.
pub open spec fn with_text_at(meta: Tree, path: Seq<StepView>, text: Seq<char>) -> Tree {
    match path[0] {
        StepView::Key(key) => if path.len() == 1 {
            with_field(meta, key, Tree::Text(text))
        } else {
            match (field(meta, key), path[1]) {
                (Some(v), StepView::Index(i)) => with_field(meta, key, with_item(v, i, text)),
                _ => meta,
            }
        },
        StepView::Index(_) => meta,
    }
}

/// Whether a path is a key.
pub open spec fn is_key(path: Seq<StepView>) -> bool {
    path.len() == 1 && path[0] is Key
}

/// Whether a path is a key and a position.
pub open spec fn is_item(path: Seq<StepView>) -> bool {
    path.len() == 2 && path[0] is Key && path[1] is Index
}

/// What an edit that is granted makes of metadata in JSON. Nothing is said of edits deeper in
/// the metadata, of values other than texts and sequences of texts, and of deleting an entry.
pub open spec fn applied(meta: Tree, edit: Edit) -> Option<Tree> {
    match edit {
        Edit::Put(path, v) => if is_key(path) && made_of_texts(v) {
            Some(with_put(meta, path[0]->Key_0, v))
        } else {
            None
        },
        Edit::Replace(path, Tree::Text(text)) => if is_key(path) || is_item(path) {
            Some(with_text_at(meta, path, text))
        } else {
            None
        },
        Edit::Append(path, Tree::Text(text)) => if is_key(path) {
            match field(meta, path[0]->Key_0) {
                Some(Tree::List(items)) => Some(
                    with_field(
                        meta,
                        path[0]->Key_0,
                        Tree::List(items.push(Tree::Text(text))),
                    ),
                ),
                _ => None,
            }
        } else {
            None
        },
        Edit::Remove(path, i) => if is_key(path) {
            match field(meta, path[0]->Key_0) {
                Some(Tree::List(items)) => if 0 <= i < items.len() {
                    Some(with_field(meta, path[0]->Key_0, Tree::List(items.remove(i))))
                } else {
                    None
                },
                _ => None,
            }
        } else {
            None
        },
        _ => None,
    }
}

/// What the edits that an embed has been through make of metadata in JSON: those that were
/// refused leave it as it is.
pub open spec fn edited(meta: Tree, h: History) -> Option<Tree>
    decreases h.edits.len(),
{
    if h.edits.len() == 0 {
        Some(meta)
    } else {
        let before = History { edits: h.edits.drop_last(), ..h };
        match edited(meta, before) {
            Some(t) => if outcome_of(before, h.edits.last()) is Ok {
                applied(t, h.edits.last())
            } else {
                Some(t)
            },
            None => None,
        }
    }
}

/// Whether a kind of embed holds JSON as it stands, between fences that are lines of their
/// own. No line of a JSON text is such a fence.
pub open spec fn holds_json(kind: EmbedKind) -> bool {
    kind is FrontmatterJson || kind is FencedJson || kind is MdFrontmatterJson
        || kind is HtmlScriptJson
}

/// The metadata and the body of a text that an embed in JSON was opened on. An empty text,
/// where an empty block may be put in, has neither.
pub open spec fn opened_on(h: History) -> Option<(Tree, Seq<char>)> {
    if h.init && h.host.len() == 0 {
        Some((Tree::Dict(Seq::empty()), Seq::empty()))
    } else {
        match extracted(h.host, h.kind) {
            Ok((content, body)) => match mapping_in(content, Format::Json) {
                Ok(entries) => Some((Tree::Dict(entries), body)),
                Err(_) => None,
            },
            Err(_) => None,
        }
    }
}

/// Whether a text that an embed in JSON rendered to holds the metadata with the edits made,
/// and the body as it was, and opens the same kind of block.
pub open spec fn reads_back(h: History, t: Seq<char>) -> bool {
    match opened_on(h) {
        Some((meta, body)) => holds_json(h.kind) && single_keyed(meta) ==> match edited(meta, h) {
            Some(now) => {
                &&& match extracted(t, h.kind) {
                    Ok((content, rest)) => rest == body && match mapping_in(
                        content,
                        Format::Json,
                    ) {
                        Ok(entries) => now == Tree::Dict(entries),
                        Err(_) => false,
                    },
                    Err(_) => false,
                }
                &&& detected(h.host) == Some(h.kind) || h.host.len() == 0 ==> detected(t) == Some(
                    h.kind,
                )
            },
            None => true,
        },
        None => true,
    }
}

/// [`fig::Embed::open`]: opens the block of a text for editing.
#[verifier::external_body]
fn open(text: &str, kind: fig::EmbedType) -> (r: Result<fig::Embed, fig::Error>)
    ensures
        match r {
            Ok(e) => opening(text@, kind_of(kind)) is Ok && history(e) == (History {
                host: text@,
                kind: kind_of(kind),
                init: false,
                edits: Seq::empty(),
            }),
            Err(e) => opening(text@, kind_of(kind)) == Err::<(), Seq<char>>(error_text(e)),
        },
{
    fig::Embed::open(text.as_bytes(), kind)
}

/// [`fig::Embed::open_or_init`]: opens the block of a text for editing, putting
/// in an empty one where there is none.
#[verifier::external_body]
fn open_or_init(text: &str, kind: fig::EmbedType) -> (r: Result<fig::Embed, fig::Error>)
    ensures
        match r {
            Ok(e) => initiating(text@, kind_of(kind)) is Ok && history(e) == (History {
                host: text@,
                kind: kind_of(kind),
                init: true,
                edits: Seq::empty(),
            }),
            Err(e) => initiating(text@, kind_of(kind)) == Err::<(), Seq<char>>(error_text(e)),
        },
{
    fig::Embed::open_or_init(text.as_bytes(), kind)
}

/// [`fig::Embed::set_value`]: sets the value at a path. Asking leaves its mark on
/// what the embed has been through, whether it is granted or not.
/// Not claimed: when it is granted. Tables that repeat a key in TOML, for one, cannot be set.
#[verifier::external_body]
fn set_value(e: &mut fig::Embed, path: &Vec<Step>, value: fig::Value) -> (r: Result<(), fig::Error>)
    requires
        text_keyed(tree_of(value)),
    ensures
        outcome(r) == setting(history(*old(e)), steps(path@), tree_of(value)),
        history(*final(e)) == after(history(*old(e)), Edit::Put(steps(path@), tree_of(value))),
{
    let path: Vec<fig::Segment> = path.iter().map(
        |s| match s {
            Step::Key(k) => fig::Segment::Key(k.as_str()),
            Step::Index(i) => fig::Segment::Index(*i),
        },
    ).collect();
    e.set_value(&path, value)
}

/// [`fig::Embed::append_value`]: appends to the sequence at a path. Asking leaves its mark on
/// what the embed has been through, whether it is granted or not.
/// Not claimed: when it is granted. A YAML flow sequence behind a tag, for one, takes no item.
#[verifier::external_body]
fn append_value(e: &mut fig::Embed, path: &Vec<Step>, value: fig::Value) -> (r: Result<(), fig::Error>)
    requires
        text_keyed(tree_of(value)),
    ensures
        outcome(r) == appending(history(*old(e)), steps(path@), tree_of(value)),
        history(*final(e)) == after(history(*old(e)), Edit::Append(steps(path@), tree_of(value))),
{
    let path: Vec<fig::Segment> = path.iter().map(
        |s| match s {
            Step::Key(k) => fig::Segment::Key(k.as_str()),
            Step::Index(i) => fig::Segment::Index(*i),
        },
    ).collect();
    e.append_value(&path, value)
}

/// [`fig::Embed::replace_value`]: replaces the value at a path. Asking leaves its mark on
/// what the embed has been through, whether it is granted or not.
/// Not claimed: when it is granted.
#[verifier::external_body]
fn replace_value(e: &mut fig::Embed, path: &Vec<Step>, value: fig::Value) -> (r: Result<(), fig::Error>)
    requires
        text_keyed(tree_of(value)),
    ensures
        outcome(r) == replacing(history(*old(e)), steps(path@), tree_of(value)),
        history(*final(e)) == after(history(*old(e)), Edit::Replace(steps(path@), tree_of(value))),
{
    let path: Vec<fig::Segment> = path.iter().map(
        |s| match s {
            Step::Key(k) => fig::Segment::Key(k.as_str()),
            Step::Index(i) => fig::Segment::Index(*i),
        },
    ).collect();
    e.replace_value(&path, value)
}

/// [`fig::Embed::remove_item`]: removes an item of the sequence at a path. Asking leaves its mark on
/// what the embed has been through, whether it is granted or not.
/// Not claimed: when it is granted. The last item of a JSON array whose lines end in a carriage
/// return and a line feed, for one, cannot be removed.
#[verifier::external_body]
fn remove_item(e: &mut fig::Embed, path: &Vec<Step>, index: usize) -> (r: Result<(), fig::Error>)
    ensures
        outcome(r) == removing(history(*old(e)), steps(path@), index as int),
        history(*final(e)) == after(history(*old(e)), Edit::Remove(steps(path@), index as int)),
{
    let path: Vec<fig::Segment> = path.iter().map(
        |s| match s {
            Step::Key(k) => fig::Segment::Key(k.as_str()),
            Step::Index(i) => fig::Segment::Index(*i),
        },
    ).collect();
    e.remove_item(&path, index)
}

/// [`fig::Embed::delete`]: deletes the entry at a path. Asking leaves its mark on
/// what the embed has been through, whether it is granted or not.
/// Not claimed: when it is granted.
#[verifier::external_body]
fn delete_entry(e: &mut fig::Embed, path: &Vec<Step>) -> (r: Result<(), fig::Error>)
    ensures
        outcome(r) == deleting(history(*old(e)), steps(path@)),
        history(*final(e)) == after(history(*old(e)), Edit::Delete(steps(path@))),
{
    let path: Vec<fig::Segment> = path.iter().map(
        |s| match s {
            Step::Key(k) => fig::Segment::Key(k.as_str()),
            Step::Index(i) => fig::Segment::Index(*i),
        },
    ).collect();
    e.delete(&path)
}

/// [`fig::Embed::render`]: the document's text with the edited block spliced back
/// between its fences.
///
/// Of a block in JSON it is claimed that the text reads back: `fig` splices whole values into
/// the block, reads the block again as strict JSON after each splice and takes the splice back
/// where that fails. A key is looked up from the front, so keys must not repeat.
///
/// Not claimed: that the text reads back in another format. Mostly it does, but in YAML the
/// text `0o17` is put in without quotes and then read as a number, a text with a comma that is
/// put into a flow sequence comes back as two, and a mapping key is put in as it stands.
#[verifier::external_body]
fn render(e: &mut fig::Embed) -> (r: Result<String, fig::Error>)
    ensures
        match r {
            Ok(t) => rendering(history(*old(e))) == Ok::<Seq<char>, Seq<char>>(t@) && reads_back(
                history(*old(e)),
                t@,
            ),
            Err(x) => rendering(history(*old(e))) == Err::<Seq<char>, Seq<char>>(error_text(x)),
        },
        history(*final(e)) == history(*old(e)),
{
    Ok(e.render()?.to_owned())
}

/// What an embed has been through when it was just opened.
pub open spec fn fresh(text: Seq<char>, kind: EmbedKind, init: bool) -> History {
    History { host: text, kind, init, edits: Seq::empty() }
}

/// A metadata block open for editing. Comments, fences, format and every byte an
/// edit does not touch stay as they are.
pub struct BlockEditor {
    embed: fig::Embed,
}

/// The error of a call of `fig`.
fn failed(e: fig::Error) -> (r: WorkspaceError)
    ensures
        r@ == Failure::Fig(error_text(e)),
{
    WorkspaceError::Fig(describe(&e))
}

impl BlockEditor {
    /// What the block has been through.
    pub closed spec fn past(&self) -> History {
        history(self.embed)
    }

    /// Opens the block of a text.
    pub fn open(text: &str, kind: EmbedKind) -> (r: Result<BlockEditor, WorkspaceError>)
        ensures
            match r {
                Ok(b) => opening(text@, kind) is Ok && b.past() == fresh(text@, kind, false),
                Err(e) => fig_result(opening(text@, kind)) == Err::<(), Failure>(e@),
            },
    {
        match open(text, fig_kind(kind)) {
            Ok(embed) => Ok(BlockEditor { embed }),
            Err(e) => Err(failed(e)),
        }
    }

    /// Opens the block of a text, putting in an empty one where there is none.
    pub fn open_or_init(text: &str, kind: EmbedKind) -> (r: Result<BlockEditor, WorkspaceError>)
        ensures
            match r {
                Ok(b) => initiating(text@, kind) is Ok && b.past() == fresh(text@, kind, true),
                Err(e) => fig_result(initiating(text@, kind)) == Err::<(), Failure>(e@),
            },
    {
        match open_or_init(text, fig_kind(kind)) {
            Ok(embed) => Ok(BlockEditor { embed }),
            Err(e) => Err(failed(e)),
        }
    }

    /// Sets the value at a path, inserting the last key where it is absent.
    pub fn put(&mut self, path: &Vec<Step>, value: &MetaValue) -> (r: Result<(), WorkspaceError>)
        ensures
            done(r) == fig_result(setting(old(self).past(), steps(path@), value@)),
            final(self).past() == after(old(self).past(), Edit::Put(steps(path@), value@)),
    {
        match set_value(&mut self.embed, path, to_fig(value)) {
            Ok(_) => Ok(()),
            Err(e) => Err(failed(e)),
        }
    }

    /// Appends a value to the sequence at a path.
    pub fn append(&mut self, path: &Vec<Step>, value: &MetaValue) -> (r: Result<(), WorkspaceError>)
        ensures
            done(r) == fig_result(appending(old(self).past(), steps(path@), value@)),
            final(self).past() == after(old(self).past(), Edit::Append(steps(path@), value@)),
    {
        match append_value(&mut self.embed, path, to_fig(value)) {
            Ok(_) => Ok(()),
            Err(e) => Err(failed(e)),
        }
    }

    /// Replaces the value at a path.
    pub fn replace(&mut self, path: &Vec<Step>, value: &MetaValue) -> (r: Result<
        (),
        WorkspaceError,
    >)
        ensures
            done(r) == fig_result(replacing(old(self).past(), steps(path@), value@)),
            final(self).past() == after(old(self).past(), Edit::Replace(steps(path@), value@)),
    {
        match replace_value(&mut self.embed, path, to_fig(value)) {
            Ok(_) => Ok(()),
            Err(e) => Err(failed(e)),
        }
    }

    /// Removes an item of the sequence at a path.
    pub fn remove(&mut self, path: &Vec<Step>, index: usize) -> (r: Result<(), WorkspaceError>)
        ensures
            done(r) == fig_result(removing(old(self).past(), steps(path@), index as int)),
            final(self).past() == after(
                old(self).past(),
                Edit::Remove(steps(path@), index as int),
            ),
    {
        match remove_item(&mut self.embed, path, index) {
            Ok(_) => Ok(()),
            Err(e) => Err(failed(e)),
        }
    }

    /// Deletes the entry at a path.
    pub fn delete(&mut self, path: &Vec<Step>) -> (r: Result<(), WorkspaceError>)
        ensures
            done(r) == fig_result(deleting(old(self).past(), steps(path@))),
            final(self).past() == after(old(self).past(), Edit::Delete(steps(path@))),
    {
        match delete_entry(&mut self.embed, path) {
            Ok(_) => Ok(()),
            Err(e) => Err(failed(e)),
        }
    }

    /// The document's text with the block as it is now.
    pub fn render(&mut self) -> (r: Result<String, WorkspaceError>)
        ensures
            text_result(r) == fig_result(rendering(old(self).past())),
            r matches Ok(t) ==> reads_back(old(self).past(), t@),
            final(self).past() == old(self).past(),
    {
        match render(&mut self.embed) {
            Ok(t) => Ok(t),
            Err(e) => Err(failed(e)),
        }
    }
}

} // verus!
