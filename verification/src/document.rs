//! Documents: a text, its embedded metadata and its body.
use vstd::prelude::*;

use crate::embed::{
    cut, cut_of, detected, edited, extracted, format_of, holds_json, opened_on, reads_back, CutView,
    EmbedKind, History,
};
use crate::error::{Failure, WorkspaceError};
use crate::meta::{
    dict, mapping_in, parse_mapping, plain, reading, single_keyed, MetaValue, Tree, NOT_A_MAPPING,
};
use crate::text::{occurs, occurs_at};

verus! {

/// A document as its text describes it.
#[derive(Debug, PartialEq)]
pub struct Document {
    /// The metadata, or nothing when the text embeds none.
    pub meta: MetaValue,
    /// How the metadata is embedded.
    pub embed: Option<EmbedKind>,
    /// The text outside the metadata block.
    pub body: String,
}

/// A document, as a mathematical value.
pub struct DocumentView {
    /// See [`Document::meta`].
    pub meta: Tree,
    /// See [`Document::embed`].
    pub embed: Option<EmbedKind>,
    /// See [`Document::body`].
    pub body: Seq<char>,
}

impl View for Document {
    type V = DocumentView;

    open spec fn view(&self) -> DocumentView {
        DocumentView { meta: self.meta@, embed: self.embed, body: self.body@ }
    }
}

/// The document of a text that is cut as `c` says.
pub open spec fn document_of(text: Seq<char>, c: Option<CutView>) -> Result<DocumentView, Failure> {
    match c {
        None => Ok(DocumentView { meta: Tree::Null, embed: None, body: text }),
        Some(c) => match mapping_in(c.content, format_of(c.kind)) {
            Ok(entries) => Ok(
                DocumentView { meta: Tree::Dict(entries), embed: Some(c.kind), body: c.body },
            ),
            Err(e) => Err(e),
        },
    }
}

/// The document that a text describes.
pub open spec fn document_in(text: Seq<char>) -> Result<DocumentView, Failure> {
    match cut_of(text) {
        Ok(c) => document_of(text, c),
        Err(e) => Err(e),
    }
}

impl Document {
    /// Reads the document that a text describes. Its body is a stretch of the text.
    pub fn parse(text: &str) -> (r: Result<Document, WorkspaceError>)
        ensures
            match r {
                Ok(d) => document_in(text@) == Ok::<DocumentView, Failure>(d@) && occurs(
                    text@,
                    d@.body,
                ),
                Err(e) => document_in(text@) == Err::<DocumentView, Failure>(e@),
            },
    {
        match cut(text) {
            Err(e) => Err(e),
            Ok(None) => {
                assert(text@.subrange(0, text@.len() as int) =~= text@);
                assert(occurs_at(text@, text@, 0));
                Ok(Document { meta: MetaValue::Null, embed: None, body: text.to_owned() })
            },
            Ok(Some(c)) => match parse_mapping(c.content.as_str(), c.kind.inner_format()) {
                Ok(entries) => {
                    let meta = MetaValue::Mapping(entries);
                    assert(meta@->Dict_0 =~= dict(entries@));
                    Ok(Document { meta, embed: Some(c.kind), body: c.body })
                },
                Err(e) => Err(e),
            },
        }
    }

    /// Whether the text embeds metadata.
    pub fn has_meta(&self) -> (r: bool)
        ensures
            r == (self@.embed is Some),
    {
        self.embed.is_some()
    }

    /// How metadata of this document is embedded, or would be.
    pub fn kind(&self) -> (r: EmbedKind)
        ensures
            r == embed_kind(self@),
    {
        match self.embed {
            Some(kind) => kind,
            None => EmbedKind::FrontmatterYaml,
        }
    }
}

/// How metadata of a document is embedded, or would be: frontmatter in YAML where
/// there is none.
pub open spec fn embed_kind(d: DocumentView) -> EmbedKind {
    match d.embed {
        Some(kind) => kind,
        None => EmbedKind::FrontmatterYaml,
    }
}

/// Whether edits to the metadata of a document are known to read back: it is embedded as
/// JSON, and no key repeats.
pub open spec fn keeps_edits(d: DocumentView) -> bool {
    single_keyed(d.meta) && (d.embed matches Some(kind) && holds_json(kind))
}

/// Law: a document in JSON that was edited is read back with the edits made, and its body is
/// as it was.
pub proof fn edited_document_reads_back(h: History, t: Seq<char>, d: DocumentView)
    requires
        document_in(h.host) == Ok::<DocumentView, Failure>(d),
        d.embed == Some(h.kind),
        h.init ==> h.host.len() > 0,
        keeps_edits(d),
        reads_back(h, t),
        edited(d.meta, h) is Some,
    ensures
        document_in(t) == Ok::<DocumentView, Failure>(
            DocumentView { meta: edited(d.meta, h)->Some_0, ..d },
        ),
{
    assert(opened_on(h) == Some((d.meta, d.body)));
}

/// Law: a document in JSON that was begun from nothing is read back with what was put into
/// it, and has no body.
pub proof fn begun_document_reads_back(h: History, t: Seq<char>)
    requires
        h.host.len() == 0,
        h.init,
        holds_json(h.kind),
        reads_back(h, t),
        edited(Tree::Dict(Seq::empty()), h) is Some,
    ensures
        document_in(t) == Ok::<DocumentView, Failure>(
            DocumentView {
                meta: edited(Tree::Dict(Seq::empty()), h)->Some_0,
                embed: Some(h.kind),
                body: Seq::empty(),
            },
        ),
{
    assert(single_keyed(Tree::Dict(Seq::empty())));
}

/// Law: a document is what its text and its metadata block say. A text without a block is all
/// body. A block that cannot be found or read is an error with the words it was refused with.
/// An empty block, or one that holds nothing, has no entries, one that holds a mapping has the
/// entries of that mapping, and one that holds anything else is an error.
pub proof fn document_is_what_its_block_holds(text: Seq<char>)
    ensures
        match detected(text) {
            None => document_in(text) == Ok::<DocumentView, Failure>(
                DocumentView { meta: Tree::Null, embed: None, body: text },
            ),
            Some(kind) => match extracted(text, kind) {
                Err(m) => document_in(text) == Err::<DocumentView, Failure>(Failure::Fig(m)),
                Ok((content, body)) => match (content.len() == 0, reading(content, format_of(kind))) {
                    (false, Err(m)) => document_in(text) == Err::<DocumentView, Failure>(
                        Failure::Fig(m),
                    ),
                    (false, Ok(Tree::Dict(entries))) => document_in(text) == Ok::<
                        DocumentView,
                        Failure,
                    >(
                        DocumentView {
                            meta: plain(Tree::Dict(entries)),
                            embed: Some(kind),
                            body,
                        },
                    ),
                    (true, _) | (false, Ok(Tree::Null)) => document_in(text) == Ok::<
                        DocumentView,
                        Failure,
                    >(
                        DocumentView {
                            meta: Tree::Dict(Seq::empty()),
                            embed: Some(kind),
                            body,
                        },
                    ),
                    (false, Ok(_)) => document_in(text) == Err::<DocumentView, Failure>(
                        Failure::Structure(NOT_A_MAPPING@),
                    ),
                },
            },
        },
{
}

/// Law: metadata goes where it is, and into frontmatter in YAML where there is none.
pub proof fn kind_is_that_of_the_block(d: DocumentView)
    ensures
        d.embed matches Some(kind) ==> embed_kind(d) == kind,
        d.embed is None ==> embed_kind(d) is FrontmatterYaml,
{
}

} // verus!
