//! Metadata: the value tree a document's embedded block holds, and its text
//! forms.
//!
//! Reading and writing the text forms is the business of the `fig` crate. This
//! module turns `fig`'s values into the library's own, in which every mapping is
//! keyed by strings, and back.
use vstd::prelude::*;

use crate::error::{Failure, WorkspaceError};
use crate::text::{decimal, decimal_of, same, views};

verus! {

/// A text form of metadata.
#[derive(Debug, Clone, Copy, PartialEq, Eq, Structural)]
pub enum Format {
    /// JSON.
    Json,
    /// JSON with comments.
    Jsonc,
    /// JSON5.
    Json5,
    /// YAML.
    Yaml,
    /// TOML.
    Toml,
    /// Zig object notation.
    Zon,
    /// The native `fig` dialect.
    Fig,
}

/// `fig`'s value tree.
#[verifier::external_type_specification]
#[verifier::external_body]
pub struct ExFigValue(fig::Value);

/// `fig`'s error.
#[verifier::external_type_specification]
#[verifier::external_body]
pub struct ExFigError(fig::Error);

/// A value tree, as a mathematical value.
pub enum Tree {
    /// No value.
    Null,
    /// A truth value.
    Bool(bool),
    /// An integer.
    Int(int),
    /// A string.
    Text(Seq<char>),
    /// A sequence.
    List(Seq<Tree>),
    /// A mapping, in order.
    Dict(Seq<(Tree, Tree)>),
    /// Any other scalar: a float, an integer beyond the signed range, or a
    /// scalar only one format has.
    Scalar(fig::Value),
}

/// The tree a value of `fig` holds.
pub uninterp spec fn tree_of(v: fig::Value) -> Tree;

/// The text of an error of `fig`.
pub uninterp spec fn error_text(e: fig::Error) -> Seq<char>;

/// What `fig` reads from `text` in `format`: a tree, or the text of an error.
pub uninterp spec fn reading(text: Seq<char>, format: Format) -> Result<Tree, Seq<char>>;

/// What `fig` writes for `tree` in `format` within `width` columns: a text, or
/// the text of an error.
pub uninterp spec fn writing(tree: Tree, format: Format, width: int) -> Result<Seq<char>, Seq<char>>;

/// One level of a value of `fig`, its parts borrowed.
enum Level<'a> {
    Null,
    Bool(bool),
    Int(i64),
    Text(&'a String),
    List(&'a Vec<fig::Value>),
    Dict(&'a Vec<(fig::Value, fig::Value)>),
    Scalar(&'a fig::Value),
}

/// The tree a level of a value stands for.
spec fn level_tree(l: Level) -> Tree {
    match l {
        Level::Null => Tree::Null,
        Level::Bool(b) => Tree::Bool(b),
        Level::Int(n) => Tree::Int(n as int),
        Level::Text(s) => Tree::Text(s@),
        Level::List(items) => Tree::List(items@.map_values(|v: fig::Value| tree_of(v))),
        Level::Dict(entries) => Tree::Dict(
            entries@.map_values(|e: (fig::Value, fig::Value)| (tree_of(e.0), tree_of(e.1))),
        ),
        Level::Scalar(v) => Tree::Scalar(*v),
    }
}

/// Tells the variants of [`fig::Value`] apart. Claims that the tree of a value
/// is made of the value's own fields: a `Str` is its text, a `Seq` the trees of
/// its items, a `Map` the trees of its entries, and `Uint`, `Float` and
/// `Extended` are scalars the library does not look into.
#[verifier::external_body]
fn level_of<'a>(v: &'a fig::Value) -> (r: Level<'a>)
    ensures
        level_tree(r) == tree_of(*v),
        r matches Level::Scalar(s) ==> *s == *v,
{
    match v {
        fig::Value::Null => Level::Null,
        fig::Value::Bool(b) => Level::Bool(*b),
        fig::Value::Int(n) => Level::Int(*n),
        fig::Value::Str(s) => Level::Text(s),
        fig::Value::Seq(items) => Level::List(items),
        fig::Value::Map(entries) => Level::Dict(entries),
        fig::Value::Uint(_) => Level::Scalar(v),
        fig::Value::Float(_) => Level::Scalar(v),
        fig::Value::Extended { .. } => Level::Scalar(v),
    }
}

/// A scalar of `fig` the library carries through without looking inside.
#[derive(Debug, PartialEq)]
pub struct Scalar(fig::Value);

impl Scalar {
    /// A scalar holds no mapping and no sequence.
    #[verifier::type_invariant]
    spec fn is_scalar(&self) -> bool {
        tree_of(self.0) == Tree::Scalar(self.0)
    }

    /// The tree the scalar stands for.
    pub closed spec fn tree(self) -> Tree {
        tree_of(self.0)
    }

    /// The scalar as `fig` has it.
    pub fn value(&self) -> (r: &fig::Value)
        ensures
            tree_of(*r) == self.tree(),
    {
        &self.0
    }
}

/// A metadata value.
#[derive(Debug, PartialEq)]
pub enum MetaValue {
    /// No value.
    Null,
    /// A truth value.
    Bool(bool),
    /// An integer.
    Int(i64),
    /// A string.
    Text(String),
    /// A sequence.
    Sequence(Vec<MetaValue>),
    /// A mapping, in order. Where a key occurs twice the later entry counts.
    Mapping(Vec<(String, MetaValue)>),
    /// Any other scalar.
    Scalar(Scalar),
}

/// The tree a value stands for.
pub open spec fn tree(v: MetaValue) -> Tree
    decreases v,
{
    match v {
        MetaValue::Null => Tree::Null,
        MetaValue::Bool(b) => Tree::Bool(b),
        MetaValue::Int(n) => Tree::Int(n as int),
        MetaValue::Text(s) => Tree::Text(s@),
        MetaValue::Sequence(items) => Tree::List(
            Seq::new(
                items@.len(),
                |i: int|
                    if 0 <= i < items@.len() {
                        tree(items@[i])
                    } else {
                        Tree::Null
                    },
            ),
        ),
        MetaValue::Mapping(entries) => Tree::Dict(
            Seq::new(
                entries@.len(),
                |i: int|
                    if 0 <= i < entries@.len() {
                        (Tree::Text(entries@[i].0@), tree(entries@[i].1))
                    } else {
                        (Tree::Null, Tree::Null)
                    },
            ),
        ),
        MetaValue::Scalar(s) => s.tree(),
    }
}

impl View for MetaValue {
    type V = Tree;

    open spec fn view(&self) -> Tree {
        tree(*self)
    }
}

/// Whether every mapping in a tree is keyed by strings.
pub open spec fn text_keyed(t: Tree) -> bool
    decreases t,
{
    match t {
        Tree::List(items) => forall|i: int| 0 <= i < items.len() ==> text_keyed(#[trigger] items[i]),
        Tree::Dict(entries) => forall|i: int|
            0 <= i < entries.len() ==> (#[trigger] entries[i]).0 is Text && text_keyed(entries[i].1),
        _ => true,
    }
}

/// The string a mapping key is known by: strings as they are, integers in
/// decimal.
pub open spec fn key_text(key: Tree) -> Option<Seq<char>> {
    match key {
        Tree::Text(s) => Some(s),
        Tree::Int(n) => Some(decimal(n)),
        _ => None,
    }
}

/// The entries whose key is known by a string, in order, under that string.
pub open spec fn named(entries: Seq<(Tree, Tree)>) -> Seq<(Tree, Tree)>
    decreases entries.len(),
{
    if entries.len() == 0 {
        Seq::empty()
    } else {
        let rest = named(entries.drop_last());
        match key_text(entries.last().0) {
            Some(k) => rest.push((Tree::Text(k), entries.last().1)),
            None => rest,
        }
    }
}

/// A tree with every mapping keyed by strings: entries under any other key are
/// left out.
pub open spec fn plain(t: Tree) -> Tree
    decreases t, 1nat,
{
    match t {
        Tree::List(items) => Tree::List(
            Seq::new(
                items.len(),
                |i: int|
                    if 0 <= i < items.len() {
                        plain(items[i])
                    } else {
                        Tree::Null
                    },
            ),
        ),
        Tree::Dict(entries) => Tree::Dict(named(plain_entries(t))),
        other => other,
    }
}

/// The entries of a mapping, the value of each made [`plain`].
pub open spec fn plain_entries(t: Tree) -> Seq<(Tree, Tree)>
    decreases t, 0nat,
{
    match t {
        Tree::Dict(entries) => Seq::new(
            entries.len(),
            |i: int|
                if 0 <= i < entries.len() {
                    (entries[i].0, plain(entries[i].1))
                } else {
                    (Tree::Null, Tree::Null)
                },
        ),
        _ => Seq::empty(),
    }
}

/// `Display` of [`fig::Error`]: the error's own words.
#[verifier::external_body]
pub(crate) fn describe(e: &fig::Error) -> (r: String)
    ensures
        r@ == error_text(*e),
{
    e.to_string()
}

/// [`fig::Document::parse`], and [`fig::Document::to_value`] on what it gives: reads
/// `text` in `format` into a value. What comes back is a function of the two arguments;
/// on a refusal so is the error's text.
#[verifier::external_body]
fn read_value(text: &str, format: Format) -> (r: Result<fig::Value, fig::Error>)
    ensures
        match r {
            Ok(v) => reading(text@, format) == Ok::<Tree, Seq<char>>(tree_of(v)),
            Err(e) => reading(text@, format) == Err::<Tree, Seq<char>>(error_text(e)),
        },
{
    let format = match format {
        Format::Json => fig::Format::Json,
        Format::Jsonc => fig::Format::Jsonc,
        Format::Json5 => fig::Format::Json5,
        Format::Yaml => fig::Format::Yaml,
        Format::Toml => fig::Format::Toml,
        Format::Zon => fig::Format::Zon,
        Format::Fig => fig::Format::Fig,
    };
    fig::Document::parse(text.as_bytes(), format)?.to_value()
}

/// Whether a text is written like a number with the octal prefix of YAML.
pub open spec fn octal_text(s: Seq<char>) -> bool {
    &&& s.len() > 2
    &&& s[0] == '0'
    &&& s[1] == 'o'
    &&& forall|i: int| 2 <= i < s.len() ==> '0' <= #[trigger] s[i] <= '7'
}

/// Whether a text of a record, written in `format`, reads back as it was. In YAML all do but
/// an octal number, two spellings of infinity and a line break alone, which the printer
/// leaves without the quotes they need.
pub open spec fn kept_text(s: Seq<char>, format: Format) -> bool {
    match format {
        Format::Json | Format::Jsonc | Format::Json5 | Format::Toml => true,
        Format::Yaml => {
            &&& !octal_text(s)
            &&& s != seq!['+', '.', 'I', 'n', 'f']
            &&& s != seq!['+', '.', 'I', 'N', 'F']
            &&& s != seq!['\n']
        },
        _ => false,
    }
}

/// Whether `format` has a form for nothing under a key that reads back.
pub open spec fn keeps_null(format: Format) -> bool {
    format is Json || format is Jsonc || format is Json5 || format is Yaml
}

/// The columns within which `count` records are written in `format`: one, which keeps every
/// mapping in block form, but for no records at all in the `fig` dialect, where a mapping
/// without entries has no block form.
pub open spec fn records_width(count: nat, format: Format) -> u16 {
    if count == 0 && format is Fig {
        DEFAULT_WIDTH
    } else {
        1
    }
}

/// Whether `entries` are records that read back when written in `format`: distinct keys, and
/// a text or, where the format has a form for it, nothing under each. In the `fig` dialect
/// only no records at all are counted.
pub open spec fn kept_records(entries: Seq<(Tree, Tree)>, format: Format) -> bool {
    &&& !(format is Zon)
    &&& format is Fig ==> entries.len() == 0
    &&& forall|i: int|
        0 <= i < entries.len() ==> ((#[trigger] entries[i]).0 matches Tree::Text(k) && kept_text(
            k,
            format,
        ) && ((entries[i].1 is Null && keeps_null(format)) || (entries[i].1 matches Tree::Text(v)
            && kept_text(v, format))))
    &&& forall|i: int, j: int|
        0 <= i < j < entries.len() ==> (#[trigger] entries[i]).0 != (#[trigger] entries[j]).0
}

/// [`fig::Value::serialize_with`] on the default options with a column budget: writes a value
/// in `format`. What comes back is a function of the value's tree and the other arguments. A
/// mapping that is not keyed by strings is left out: some of `fig`'s printers take every key
/// for one. Within the columns of [`records_width`], a mapping from the one key `registry` to
/// records reads back as it was, as far as [`kept_records`] goes: in JSON and TOML every text
/// is quoted and escaped but for keys that need no quotes, in YAML every text that would be
/// misread is quoted but for the few that [`kept_text`] leaves out, and in the `fig` dialect
/// the mapping without records is written on one line with braces. TOML writes no null: it
/// refuses one. Not claimed: that any other tree, or other records in the `fig` dialect, or
/// any in ZON, read back.
#[verifier::external_body]
fn write_value(v: &fig::Value, format: Format, width: u16) -> (r: Result<String, fig::Error>)
    requires
        text_keyed(tree_of(*v)),
    ensures
        match r {
            Ok(t) => writing(tree_of(*v), format, width as int) == Ok::<Seq<char>, Seq<char>>(t@),
            Err(e) => writing(tree_of(*v), format, width as int) == Err::<Seq<char>, Seq<char>>(
                error_text(e),
            ),
        },
        match (r, tree_of(*v)) {
            (Ok(t), Tree::Dict(top)) => top.len() == 1 && top[0].0 == Tree::Text(
                seq!['r', 'e', 'g', 'i', 's', 't', 'r', 'y'],
            ) && (top[0].1 matches Tree::Dict(entries) && width == records_width(
                entries.len(),
                format,
            ) && kept_records(entries, format)) ==> t@.len() > 0
                && reading(t@, format) == Ok::<Tree, Seq<char>>(tree_of(*v)),
            _ => true,
        },
{
    let format = match format {
        Format::Json => fig::Format::Json,
        Format::Jsonc => fig::Format::Jsonc,
        Format::Json5 => fig::Format::Json5,
        Format::Yaml => fig::Format::Yaml,
        Format::Toml => fig::Format::Toml,
        Format::Zon => fig::Format::Zon,
        Format::Fig => fig::Format::Fig,
    };
    v.serialize_with(format, fig::SerializeOptions::default().width(width))
}

/// Builds one level of a value of `fig` out of its parts.
enum Parts {
    Null,
    Bool(bool),
    Int(i64),
    Text(String),
    List(Vec<fig::Value>),
    Dict(Vec<(fig::Value, fig::Value)>),
}

/// The tree some parts stand for.
spec fn parts_tree(p: Parts) -> Tree {
    match p {
        Parts::Null => Tree::Null,
        Parts::Bool(b) => Tree::Bool(b),
        Parts::Int(n) => Tree::Int(n as int),
        Parts::Text(s) => Tree::Text(s@),
        Parts::List(items) => Tree::List(items@.map_values(|v: fig::Value| tree_of(v))),
        Parts::Dict(entries) => Tree::Dict(
            entries@.map_values(|e: (fig::Value, fig::Value)| (tree_of(e.0), tree_of(e.1))),
        ),
    }
}

/// Builds a variant of [`fig::Value`]. Claims that the tree of the value is made
/// of the parts it was built from.
#[verifier::external_body]
fn value_from(parts: Parts) -> (r: fig::Value)
    ensures
        tree_of(r) == parts_tree(parts),
{
    match parts {
        Parts::Null => fig::Value::Null,
        Parts::Bool(b) => fig::Value::Bool(b),
        Parts::Int(n) => fig::Value::Int(n),
        Parts::Text(s) => fig::Value::Str(s),
        Parts::List(items) => fig::Value::Seq(items),
        Parts::Dict(entries) => fig::Value::Map(entries),
    }
}

/// `Clone` of [`fig::Value`], which is derived: the copy is the same value.
pub assume_specification[ <fig::Value as Clone>::clone ](v: &fig::Value) -> (r: fig::Value)
    ensures
        r == *v,
;

/// The string a key of `fig` is known by.
fn key_of(key: &fig::Value) -> (r: Option<String>)
    ensures
        match r {
            Some(k) => key_text(tree_of(*key)) == Some(k@),
            None => key_text(tree_of(*key)) is None,
        },
{
    match level_of(key) {
        Level::Text(s) => Some(s.clone()),
        Level::Int(n) => Some(decimal_of(n)),
        _ => None,
    }
}

/// The library's value for a value of `fig`.
fn from_fig(v: &fig::Value) -> (r: MetaValue)
    ensures
        r@ == plain(tree_of(*v)),
    decreases tree_of(*v),
{
    match level_of(v) {
        Level::Null => MetaValue::Null,
        Level::Bool(b) => MetaValue::Bool(b),
        Level::Int(n) => MetaValue::Int(n),
        Level::Text(s) => MetaValue::Text(s.clone()),
        Level::List(items) => {
            let ghost trees = tree_of(*v)->List_0;
            let mut out: Vec<MetaValue> = Vec::new();
            let mut i: usize = 0;
            while i < items.len()
                invariant
                    i <= items@.len(),
                    out@.len() == i,
                    tree_of(*v) == Tree::List(trees),
                    trees == items@.map_values(|v: fig::Value| tree_of(v)),
                    forall|j: int| 0 <= j < i ==> tree(#[trigger] out@[j]) == plain(trees[j]),
                decreases items@.len() - i,
            {
                assert(trees[i as int] == tree_of(items@[i as int]));
                assert(decreases_to!(trees => trees[i as int]));
                assert(tree_of(*v)->List_0 == trees);
                out.push(from_fig(&items[i]));
                i += 1;
            }
            let r = MetaValue::Sequence(out);
            assert(tree(r)->List_0 =~= plain(tree_of(*v))->List_0);
            r
        },
        Level::Dict(entries) => {
            let ghost trees = tree_of(*v)->Dict_0;
            let ghost inner = plain_entries(tree_of(*v));
            let mut out: Vec<(String, MetaValue)> = Vec::new();
            let mut i: usize = 0;
            assert(inner.take(0) =~= Seq::empty());
            assert(dict(out@) =~= named(inner.take(0)));
            while i < entries.len()
                invariant
                    i <= entries@.len(),
                    tree_of(*v) == Tree::Dict(trees),
                    trees == entries@.map_values(
                        |e: (fig::Value, fig::Value)| (tree_of(e.0), tree_of(e.1)),
                    ),
                    inner == plain_entries(tree_of(*v)),
                    dict(out@) == named(inner.take(i as int)),
                decreases entries@.len() - i,
            {
                assert(trees[i as int] == (tree_of(entries@[i as int].0), tree_of(
                    entries@[i as int].1,
                )));
                assert(decreases_to!(trees => trees[i as int]));
                assert(tree_of(*v)->Dict_0 == trees && trees[i as int].1 == tree_of(
                    entries@[i as int].1,
                ));
                let ghost before = dict(out@);
                match key_of(&entries[i].0) {
                    Some(k) => {
                        let value = from_fig(&entries[i].1);
                        out.push((k, value));
                        assert(dict(out@) =~= before.push((Tree::Text(k@), value@)));
                    },
                    None => {},
                }
                assert(inner.take(i + 1).drop_last() =~= inner.take(i as int));
                assert(inner.take(i + 1).last() == inner[i as int]);
                i += 1;
            }
            assert(inner.take(i as int) =~= inner);
            let r = MetaValue::Mapping(out);
            assert(tree(r)->Dict_0 =~= dict(out@));
            r
        },
        Level::Scalar(s) => {
            MetaValue::Scalar(Scalar(s.clone()))
        },
    }
}

/// The entries of a mapping, as mathematical values.
pub open spec fn dict(entries: Seq<(String, MetaValue)>) -> Seq<(Tree, Tree)> {
    entries.map_values(|e: (String, MetaValue)| (Tree::Text(e.0@), tree(e.1)))
}

/// `fig`'s value for a value of the library.
pub(crate) fn to_fig(v: &MetaValue) -> (r: fig::Value)
    ensures
        tree_of(r) == v@,
        text_keyed(v@),
    decreases v,
{
    match v {
        MetaValue::Null => value_from(Parts::Null),
        MetaValue::Bool(b) => value_from(Parts::Bool(*b)),
        MetaValue::Int(n) => value_from(Parts::Int(*n)),
        MetaValue::Text(s) => value_from(Parts::Text(s.clone())),
        MetaValue::Sequence(items) => {
            let mut out: Vec<fig::Value> = Vec::new();
            let mut i: usize = 0;
            while i < items.len()
                invariant
                    i <= items@.len(),
                    out@.len() == i,
                    *v == MetaValue::Sequence(*items),
                    forall|j: int|
                        0 <= j < i ==> tree_of(#[trigger] out@[j]) == tree(items@[j]) && text_keyed(
                            tree(items@[j]),
                        ),
                decreases items@.len() - i,
            {
                assert(decreases_to!(items => items[i as int]));
                assert(v->Sequence_0 == items);
                out.push(to_fig(&items[i]));
                i += 1;
            }
            assert(parts_tree(Parts::List(out))->List_0 =~= tree(*v)->List_0);
            assert forall|j: int| 0 <= j < items@.len() implies text_keyed(
                #[trigger] tree(*v)->List_0[j],
            ) by {
                assert(tree_of(out@[j]) == tree(items@[j]));
            }
            value_from(Parts::List(out))
        },
        MetaValue::Mapping(entries) => {
            assert(v->Mapping_0 == entries);
            assert(tree(*v)->Dict_0 =~= dict(entries@));
            mapping_to_fig(entries)
        },
        MetaValue::Scalar(s) => {
            proof {
                use_type_invariant(s);
            }
            s.0.clone()
        },
    }
}

/// `fig`'s value for a mapping of the library.
fn mapping_to_fig(entries: &Vec<(String, MetaValue)>) -> (r: fig::Value)
    ensures
        tree_of(r) == Tree::Dict(dict(entries@)),
        text_keyed(Tree::Dict(dict(entries@))),
    decreases entries,
{
    let mut out: Vec<(fig::Value, fig::Value)> = Vec::new();
    let mut i: usize = 0;
    while i < entries.len()
        invariant
            i <= entries@.len(),
            out@.len() == i,
            forall|j: int|
                0 <= j < i ==> tree_of((#[trigger] out@[j]).0) == Tree::Text(entries@[j].0@)
                    && tree_of(out@[j].1) == tree(entries@[j].1) && text_keyed(
                    tree(entries@[j].1),
                ),
        decreases entries@.len() - i,
    {
        assert(decreases_to!(entries => entries[i as int]));
        let key = value_from(Parts::Text(entries[i].0.clone()));
        out.push((key, to_fig(&entries[i].1)));
        i += 1;
    }
    assert(parts_tree(Parts::Dict(out))->Dict_0 =~= dict(entries@));
    assert forall|j: int| 0 <= j < entries@.len() implies (#[trigger] dict(entries@)[j]).0 is Text
        && text_keyed(dict(entries@)[j].1) by {
        assert(tree_of(out@[j].1) == tree(entries@[j].1));
    }
    value_from(Parts::Dict(out))
}

// ---- reading and writing ----

/// What a document is told whose metadata is not a mapping.
pub const NOT_A_MAPPING: &'static str = "metadata must be a mapping";

/// The column budget of `fig`'s default style.
pub const DEFAULT_WIDTH: u16 = 80;

/// The entries of what was read: nothing stands for no entries, and anything but
/// a mapping is refused.
pub open spec fn entries_of(t: Tree) -> Result<Seq<(Tree, Tree)>, Failure> {
    match t {
        Tree::Null => Ok(Seq::empty()),
        Tree::Dict(entries) => Ok(entries),
        _ => Err(Failure::Structure(NOT_A_MAPPING@)),
    }
}

/// The entries of the mapping that `text` holds in `format`. An empty text holds
/// no entries, in every format.
pub open spec fn mapping_in(text: Seq<char>, format: Format) -> Result<Seq<(Tree, Tree)>, Failure> {
    if text.len() == 0 {
        Ok(Seq::empty())
    } else {
        match reading(text, format) {
            Ok(t) => entries_of(plain(t)),
            Err(m) => Err(Failure::Fig(m)),
        }
    }
}

/// The entries of a value that was read.
pub fn into_mapping(v: MetaValue) -> (r: Result<Vec<(String, MetaValue)>, WorkspaceError>)
    ensures
        match r {
            Ok(entries) => entries_of(v@) == Ok::<Seq<(Tree, Tree)>, Failure>(dict(entries@)),
            Err(e) => entries_of(v@) == Err::<Seq<(Tree, Tree)>, Failure>(e@),
        },
{
    match v {
        MetaValue::Null => {
            let entries: Vec<(String, MetaValue)> = Vec::new();
            assert(dict(entries@) =~= Seq::empty());
            Ok(entries)
        },
        MetaValue::Mapping(entries) => {
            assert(tree(v)->Dict_0 =~= dict(entries@));
            Ok(entries)
        },
        MetaValue::Scalar(s) => {
            proof {
                use_type_invariant(&s);
            }
            Err(WorkspaceError::Structure(NOT_A_MAPPING.to_owned()))
        },
        _ => Err(WorkspaceError::Structure(NOT_A_MAPPING.to_owned())),
    }
}

/// Reads the mapping that `text` holds in `format`.
pub fn parse_mapping(text: &str, format: Format) -> (r: Result<
    Vec<(String, MetaValue)>,
    WorkspaceError,
>)
    ensures
        match r {
            Ok(entries) => mapping_in(text@, format) == Ok::<Seq<(Tree, Tree)>, Failure>(
                dict(entries@),
            ),
            Err(e) => mapping_in(text@, format) == Err::<Seq<(Tree, Tree)>, Failure>(e@),
        },
{
    if text.is_empty() {
        return into_mapping(MetaValue::Null);
    }
    match read_value(text, format) {
        Ok(v) => into_mapping(from_fig(&v)),
        Err(e) => Err(WorkspaceError::Fig(describe(&e))),
    }
}

/// What writing a tree gives: the text, or the error.
pub open spec fn written(t: Tree, format: Format, width: int) -> Result<Seq<char>, Failure> {
    match writing(t, format, width) {
        Ok(text) => Ok(text),
        Err(m) => Err(Failure::Fig(m)),
    }
}

/// Writes a value in `format`, in the default style.
pub fn serialize_value(v: &MetaValue, format: Format) -> (r: Result<String, WorkspaceError>)
    ensures
        match r {
            Ok(t) => written(v@, format, DEFAULT_WIDTH as int) == Ok::<Seq<char>, Failure>(t@),
            Err(e) => written(v@, format, DEFAULT_WIDTH as int) == Err::<Seq<char>, Failure>(e@),
        },
{
    match write_value(&to_fig(v), format, DEFAULT_WIDTH) {
        Ok(t) => Ok(t),
        Err(e) => Err(WorkspaceError::Fig(describe(&e))),
    }
}

/// Writes a mapping in `format`, in the default style.
pub fn serialize_mapping(entries: &Vec<(String, MetaValue)>, format: Format) -> (r: Result<
    String,
    WorkspaceError,
>)
    ensures
        match r {
            Ok(t) => written(Tree::Dict(dict(entries@)), format, DEFAULT_WIDTH as int) == Ok::<
                Seq<char>,
                Failure,
            >(t@),
            Err(e) => written(Tree::Dict(dict(entries@)), format, DEFAULT_WIDTH as int) == Err::<
                Seq<char>,
                Failure,
            >(e@),
        },
{
    match write_value(&mapping_to_fig(entries), format, DEFAULT_WIDTH) {
        Ok(t) => Ok(t),
        Err(e) => Err(WorkspaceError::Fig(describe(&e))),
    }
}

/// The name of the section that holds a registry's records.
pub const REGISTRY: &'static str = "registry";

/// A mapping from the registry section to `entries`.
pub open spec fn registry_tree(entries: Seq<(Tree, Tree)>) -> Tree {
    Tree::Dict(seq![(Tree::Text(REGISTRY@), Tree::Dict(entries))])
}

/// What writing records under the registry section gives: the text, or the error.
pub open spec fn registry_text(entries: Seq<(Tree, Tree)>, format: Format) -> Result<
    Seq<char>,
    Failure,
> {
    written(registry_tree(entries), format, records_width(entries.len(), format) as int)
}

/// Writes records under the registry section in `format`, one record per line
/// where the format has lines. Records that are kept read back.
pub fn serialize_records(entries: Vec<(String, MetaValue)>, format: Format) -> (r: Result<
    String,
    WorkspaceError,
>)
    ensures
        match r {
            Ok(t) => registry_text(dict(entries@), format) == Ok::<Seq<char>, Failure>(t@),
            Err(e) => registry_text(dict(entries@), format) == Err::<Seq<char>, Failure>(e@),
        },
        r matches Ok(t) ==> kept_records(dict(entries@), format) ==> t@.len() > 0 && reading(
            t@,
            format,
        ) == Ok::<Tree, Seq<char>>(registry_tree(dict(entries@))),
{
    let width: u16 = if entries.len() == 0 {
        match format {
            Format::Fig => DEFAULT_WIDTH,
            _ => 1,
        }
    } else {
        1
    };
    let ghost records = dict(entries@);
    let mut top: Vec<(String, MetaValue)> = Vec::new();
    let section = MetaValue::Mapping(entries);
    assert(tree(section)->Dict_0 =~= records);
    top.push((REGISTRY.to_owned(), section));
    assert(Tree::Dict(dict(top@))->Dict_0 =~= registry_tree(records)->Dict_0);
    proof {
        reveal_strlit("registry");
        assert(REGISTRY@ =~= seq!['r', 'e', 'g', 'i', 's', 't', 'r', 'y']);
    }
    match write_value(&mapping_to_fig(&top), format, width) {
        Ok(t) => Ok(t),
        Err(e) => Err(WorkspaceError::Fig(describe(&e))),
    }
}

/// A tree whose mappings are keyed by strings is plain already.
pub proof fn lemma_text_keyed_is_plain(t: Tree)
    requires
        text_keyed(t),
    ensures
        plain(t) == t,
    decreases t,
{
    match t {
        Tree::List(items) => {
            assert forall|i: int| 0 <= i < items.len() implies plain(#[trigger] items[i])
                == items[i] by {
                assert(decreases_to!(items => items[i]));
                lemma_text_keyed_is_plain(items[i]);
            }
            assert(plain(t)->List_0 =~= items);
        },
        Tree::Dict(entries) => {
            assert forall|i: int| 0 <= i < entries.len() implies plain((#[trigger] entries[i]).1)
                == entries[i].1 by {
                assert(decreases_to!(entries => entries[i]));
                lemma_text_keyed_is_plain(entries[i].1);
            }
            assert(plain_entries(t) =~= entries);
            lemma_text_keyed_is_named(entries);
        },
        _ => {},
    }
}

proof fn lemma_text_keyed_is_named(entries: Seq<(Tree, Tree)>)
    requires
        forall|i: int| 0 <= i < entries.len() ==> (#[trigger] entries[i]).0 is Text,
    ensures
        named(entries) == entries,
    decreases entries.len(),
{
    if entries.len() > 0 {
        lemma_text_keyed_is_named(entries.drop_last());
        assert(named(entries) =~= entries);
    }
}

// ---- looking inside ----

/// The value under `key`: the last entry counts.
pub open spec fn entry(entries: Seq<(Tree, Tree)>, key: Seq<char>) -> Option<Tree>
    decreases entries.len(),
{
    if entries.len() == 0 {
        None
    } else if entries.last().0 == Tree::Text(key) {
        Some(entries.last().1)
    } else {
        entry(entries.drop_last(), key)
    }
}

/// The value a tree has under `key`, if it is a mapping that has one.
pub open spec fn field(t: Tree, key: Seq<char>) -> Option<Tree> {
    match t {
        Tree::Dict(entries) => entry(entries, key),
        _ => None,
    }
}

/// Entries with the value under `key` replaced.
pub open spec fn with_entry(entries: Seq<(Tree, Tree)>, key: Seq<char>, v: Tree) -> Seq<(Tree, Tree)>
    decreases entries.len(),
{
    if entries.len() == 0 {
        entries
    } else if entries.last().0 == Tree::Text(key) {
        entries.drop_last().push((Tree::Text(key), v))
    } else {
        with_entry(entries.drop_last(), key, v).push(entries.last())
    }
}

/// Metadata with the value under `key` replaced.
pub open spec fn with_field(meta: Tree, key: Seq<char>, v: Tree) -> Tree {
    match meta {
        Tree::Dict(entries) => Tree::Dict(with_entry(entries, key, v)),
        other => other,
    }
}

/// A field with the link text at a position replaced.
pub open spec fn with_item(v: Tree, i: int, text: Seq<char>) -> Tree {
    match v {
        Tree::List(items) => Tree::List(items.update(i, Tree::Text(text))),
        _ => Tree::Text(text),
    }
}

/// Metadata with `key` set to a value, as its last entry where it is new.
pub open spec fn with_put(meta: Tree, key: Seq<char>, v: Tree) -> Tree {
    match meta {
        Tree::Dict(entries) => if entry(entries, key) is Some {
            with_field(meta, key, v)
        } else {
            Tree::Dict(entries.push((Tree::Text(key), v)))
        },
        _ => Tree::Dict(seq![(Tree::Text(key), v)]),
    }
}

/// Whether a tree is a mapping in which no two entries have one key.
pub open spec fn single_keyed(t: Tree) -> bool {
    t matches Tree::Dict(entries) && forall|i: int, j: int|
        0 <= i < j < entries.len() ==> (#[trigger] entries[i]).0 != (#[trigger] entries[j]).0
}

/// Whether a value is a text, or a sequence of texts.
pub open spec fn made_of_texts(v: Tree) -> bool {
    match v {
        Tree::Text(_) => true,
        Tree::List(items) => forall|i: int| 0 <= i < items.len() ==> (#[trigger] items[i]) is Text,
        _ => false,
    }
}

/// The texts among `items`, in order.
pub open spec fn texts(items: Seq<Tree>) -> Seq<Seq<char>>
    decreases items.len(),
{
    if items.len() == 0 {
        Seq::empty()
    } else {
        match items.last() {
            Tree::Text(s) => texts(items.drop_last()).push(s),
            _ => texts(items.drop_last()),
        }
    }
}

/// The link texts a value holds: a text itself, or the texts of a sequence.
pub open spec fn link_texts(t: Tree) -> Seq<Seq<char>> {
    match t {
        Tree::Text(s) => seq![s],
        Tree::List(items) => texts(items),
        _ => Seq::empty(),
    }
}

/// The value under `key`, the last entry counting.
pub fn find_entry<'a>(entries: &'a Vec<(String, MetaValue)>, key: &str) -> (r: Option<&'a MetaValue>)
    ensures
        match r {
            Some(v) => entry(dict(entries@), key@) == Some(v@),
            None => entry(dict(entries@), key@) is None,
        },
{
    let ghost all = dict(entries@);
    let mut i: usize = entries.len();
    assert(all.take(i as int) =~= all);
    while i > 0
        invariant
            i <= entries@.len(),
            all == dict(entries@),
            entry(all, key@) == entry(all.take(i as int), key@),
        decreases i,
    {
        i -= 1;
        assert(all.take(i + 1).drop_last() =~= all.take(i as int));
        assert(all.take(i + 1).last() == all[i as int]);
        assert(all[i as int] == (Tree::Text(entries@[i as int].0@), tree(entries@[i as int].1)));
        if same(entries[i].0.as_str(), key) {
            return Some(&entries[i].1);
        }
    }
    None
}

impl MetaValue {
    /// The value under `key`, if this is a mapping that has one.
    pub fn get(&self, key: &str) -> (r: Option<&MetaValue>)
        ensures
            match r {
                Some(v) => field(self@, key@) == Some(v@),
                None => field(self@, key@) is None,
            },
    {
        match self {
            MetaValue::Mapping(entries) => {
                assert(tree(*self)->Dict_0 =~= dict(entries@));
                find_entry(entries, key)
            },
            MetaValue::Scalar(s) => {
                proof {
                    use_type_invariant(s);
                }
                None
            },
            _ => None,
        }
    }

    /// Whether this is no value.
    pub fn is_null(&self) -> (r: bool)
        ensures
            r == (self@ is Null),
    {
        match self {
            MetaValue::Null => true,
            MetaValue::Scalar(s) => {
                proof {
                    use_type_invariant(s);
                }
                false
            },
            _ => false,
        }
    }

    /// The text, if this is one.
    pub fn as_str(&self) -> (r: Option<&str>)
        ensures
            match r {
                Some(s) => self@ == Tree::Text(s@),
                None => !(self@ is Text),
            },
    {
        match self {
            MetaValue::Text(s) => Some(s.as_str()),
            MetaValue::Scalar(s) => {
                proof {
                    use_type_invariant(s);
                }
                None
            },
            _ => None,
        }
    }

    /// The truth value, if this is one.
    pub fn as_bool(&self) -> (r: Option<bool>)
        ensures
            match r {
                Some(b) => self@ == Tree::Bool(b),
                None => !(self@ is Bool),
            },
    {
        match self {
            MetaValue::Bool(b) => Some(*b),
            MetaValue::Scalar(s) => {
                proof {
                    use_type_invariant(s);
                }
                None
            },
            _ => None,
        }
    }

    /// The integer, if this is one.
    pub fn as_int(&self) -> (r: Option<i64>)
        ensures
            match r {
                Some(n) => self@ == Tree::Int(n as int),
                None => !(self@ is Int),
            },
    {
        match self {
            MetaValue::Int(n) => Some(*n),
            MetaValue::Scalar(s) => {
                proof {
                    use_type_invariant(s);
                }
                None
            },
            _ => None,
        }
    }

    /// The items, if this is a sequence.
    pub fn as_sequence(&self) -> (r: Option<&Vec<MetaValue>>)
        ensures
            match r {
                Some(items) => self@ == Tree::List(items@.map_values(|v: MetaValue| v@)),
                None => !(self@ is List),
            },
    {
        match self {
            MetaValue::Sequence(items) => {
                assert(tree(*self)->List_0 =~= items@.map_values(|v: MetaValue| v@));
                Some(items)
            },
            MetaValue::Scalar(s) => {
                proof {
                    use_type_invariant(s);
                }
                None
            },
            _ => None,
        }
    }

    /// The entries, if this is a mapping.
    pub fn as_mapping(&self) -> (r: Option<&Vec<(String, MetaValue)>>)
        ensures
            match r {
                Some(entries) => self@ == Tree::Dict(dict(entries@)),
                None => !(self@ is Dict),
            },
    {
        match self {
            MetaValue::Mapping(entries) => {
                assert(tree(*self)->Dict_0 =~= dict(entries@));
                Some(entries)
            },
            MetaValue::Scalar(s) => {
                proof {
                    use_type_invariant(s);
                }
                None
            },
            _ => None,
        }
    }

    /// The link texts this value holds: a text itself, or the texts of a
    /// sequence.
    pub fn link_strings(&self) -> (r: Vec<String>)
        ensures
            views(r@) == link_texts(self@),
    {
        let mut out: Vec<String> = Vec::new();
        match self {
            MetaValue::Text(s) => {
                out.push(s.clone());
                assert(views(out@) =~= link_texts(self@));
            },
            MetaValue::Sequence(items) => {
                let ghost trees = tree(*self)->List_0;
                let mut i: usize = 0;
                assert(trees.take(0) =~= Seq::empty());
                assert(views(out@) =~= texts(trees.take(0)));
                while i < items.len()
                    invariant
                        i <= items@.len(),
                        *self == MetaValue::Sequence(*items),
                        trees == tree(*self)->List_0,
                        views(out@) == texts(trees.take(i as int)),
                    decreases items@.len() - i,
                {
                    let ghost before = views(out@);
                    assert(trees[i as int] == tree(items@[i as int]));
                    assert(trees.take(i + 1).drop_last() =~= trees.take(i as int));
                    assert(trees.take(i + 1).last() == trees[i as int]);
                    match items[i].as_str() {
                        Some(s) => {
                            out.push(s.to_owned());
                            assert(views(out@) =~= before.push(s@));
                        },
                        None => {},
                    }
                    i += 1;
                }
                assert(trees.take(i as int) =~= trees);
            },
            MetaValue::Scalar(s) => {
                proof {
                    use_type_invariant(s);
                    assert(views(out@) =~= Seq::empty());
                }
            },
            _ => {
                assert(views(out@) =~= Seq::empty());
            },
        }
        out
    }
}

// ---- laws of mappings ----

/// Law: the value under a key is that of the last entry under it, and a key without an entry
/// has none.
pub proof fn last_entry_counts(entries: Seq<(Tree, Tree)>, key: Seq<char>)
    ensures
        forall|i: int|
            0 <= i < entries.len() && (#[trigger] entries[i]).0 == Tree::Text(key) && (forall|k: int|
                i < k < entries.len() ==> (#[trigger] entries[k]).0 != Tree::Text(key)) ==> entry(
                entries,
                key,
            ) == Some(entries[i].1),
        (forall|k: int| 0 <= k < entries.len() ==> (#[trigger] entries[k]).0 != Tree::Text(key))
            ==> entry(entries, key) is None,
    decreases entries.len(),
{
    if entries.len() > 0 && entries.last().0 != Tree::Text(key) {
        let front = entries.drop_last();
        last_entry_counts(front, key);
        assert forall|i: int|
            0 <= i < entries.len() && (#[trigger] entries[i]).0 == Tree::Text(key) && (forall|k: int|
                i < k < entries.len() ==> (#[trigger] entries[k]).0 != Tree::Text(
                    key,
                )) implies entry(entries, key) == Some(entries[i].1) by {
            assert(front[i] == entries[i]);
            assert forall|k: int| i < k < front.len() implies (#[trigger] front[k]).0 != Tree::Text(
                key,
            ) by {
                assert(front[k] == entries[k]);
            }
        }
        if forall|k: int| 0 <= k < entries.len() ==> (#[trigger] entries[k]).0 != Tree::Text(key) {
            assert forall|k: int| 0 <= k < front.len() implies (#[trigger] front[k]).0 != Tree::Text(
                key,
            ) by {
                assert(front[k] == entries[k]);
            }
        }
    } else if entries.len() > 0 {
        assert(entries[entries.len() - 1] == entries.last());
    }
}

/// Law: a tree that is made plain keeps every item of a sequence and, in order, every entry
/// of a mapping whose key is a string or an integer, under that string or its digits, and the
/// values in them are made plain in turn. It is keyed by strings throughout, and to make it
/// plain again changes nothing.
pub proof fn plain_keeps_what_has_a_name(t: Tree)
    ensures
        text_keyed(plain(t)),
        plain(plain(t)) == plain(t),
        match t {
            Tree::List(items) => plain(t) == Tree::List(items.map_values(|i: Tree| plain(i))),
            Tree::Dict(entries) => plain(t) == Tree::Dict(
                entries.filter_map(
                    |e: (Tree, Tree)|
                        match e.0 {
                            Tree::Text(s) => Some((Tree::Text(s), plain(e.1))),
                            Tree::Int(n) => Some((Tree::Text(decimal(n)), plain(e.1))),
                            _ => None,
                        },
                ),
            ),
            other => plain(t) == other,
        },
    decreases t,
{
    match t {
        Tree::List(items) => {
            assert forall|i: int| 0 <= i < items.len() implies text_keyed(
                plain(#[trigger] items[i]),
            ) by {
                plain_keeps_what_has_a_name(items[i]);
            }
            assert(plain(t)->List_0 =~= items.map_values(|i: Tree| plain(i)));
            let made = plain(t)->List_0;
            assert forall|i: int| 0 <= i < made.len() implies text_keyed(#[trigger] made[i]) by {
                assert(text_keyed(plain(items[i])));
            }
        },
        Tree::Dict(entries) => {
            assert forall|i: int| 0 <= i < entries.len() implies text_keyed(
                plain((#[trigger] entries[i]).1),
            ) by {
                plain_keeps_what_has_a_name(entries[i].1);
            }
            lemma_named_entries(entries, plain_entries(t));
        },
        _ => {},
    }
    lemma_text_keyed_is_plain(plain(t));
}

proof fn lemma_named_entries(entries: Seq<(Tree, Tree)>, made: Seq<(Tree, Tree)>)
    requires
        made.len() == entries.len(),
        forall|i: int|
            0 <= i < entries.len() ==> made[i] == ((#[trigger] entries[i]).0, plain(entries[i].1)),
        forall|i: int| 0 <= i < entries.len() ==> text_keyed(plain((#[trigger] entries[i]).1)),
    ensures
        named(made) == entries.filter_map(
            |e: (Tree, Tree)|
                match e.0 {
                    Tree::Text(s) => Some((Tree::Text(s), plain(e.1))),
                    Tree::Int(n) => Some((Tree::Text(decimal(n)), plain(e.1))),
                    _ => None,
                },
        ),
        text_keyed(Tree::Dict(named(made))),
    decreases entries.len(),
{
    if entries.len() > 0 {
        let front = entries.drop_last();
        let rest = made.drop_last();
        assert forall|i: int| 0 <= i < front.len() implies rest[i] == (
            (#[trigger] front[i]).0,
            plain(front[i].1),
        ) && text_keyed(plain(front[i].1)) by {
            assert(front[i] == entries[i]);
        }
        lemma_named_entries(front, rest);
        let n = entries.len() - 1;
        assert(entries[n] == entries.last());
        assert(made.last() == (entries[n].0, plain(entries[n].1)));
        let all = named(made);
        let before = named(rest);
        assert forall|i: int| 0 <= i < all.len() implies (#[trigger] all[i]).0 is Text && text_keyed(
            all[i].1,
        ) by {
            if i < before.len() {
                assert(all[i] == before[i]);
            }
        }
    }
}

} // verus!
