//! The containment tree that unfolds from a root document, and how it is drawn.
use vstd::prelude::*;

use crate::document::{document_in, Document, DocumentView};
use crate::effects::{heard, links_are_the_texts};
use crate::error::failure_text;
use crate::identity::{Id, IdentityPolicy};
use crate::index::{IndexStore, Registry};
use crate::link::{id_target, link_of, Link, ID_SCHEME};
use crate::meta::{field, Tree};
use crate::relation::{children_of, option_view, Vocabulary};
use crate::text::{same, views};
use crate::workspace::{target_of, Target, TargetView, Workspace};

verus! {

/// What a node of the tree stands for.
#[derive(Debug, Clone, PartialEq, Eq)]
pub enum NodeKind {
    /// A document.
    Doc,
    /// Nothing: the path does not exist.
    Missing,
    /// A document that contains itself, directly or not.
    Cycle,
    /// A document that cannot be read.
    Unreadable(String),
    /// An ID that the registry does not resolve.
    UnresolvedId(Id),
}

/// A node of the containment tree.
#[derive(Debug, PartialEq, Eq)]
pub struct Node {
    /// The document's path.
    pub path: String,
    /// The document's title, if it declares one.
    pub title: Option<String>,
    /// The label of the link that led here, if it has one.
    pub label: Option<String>,
    /// What the node stands for.
    pub kind: NodeKind,
    /// What the document contains.
    pub children: Vec<Node>,
}

/// What is said of a node that is not a plain document.
pub open spec fn marker(kind: NodeKind) -> Seq<char> {
    match kind {
        NodeKind::Doc => Seq::empty(),
        NodeKind::Missing => " (missing)"@,
        NodeKind::Cycle => " (cycle!)"@,
        NodeKind::Unreadable(e) => " (unreadable: "@ + e@ + ")"@,
        NodeKind::UnresolvedId(id) => " (unresolved id: "@ + id@ + ")"@,
    }
}

/// The name of a node: its path, and its title or else its label.
pub open spec fn node_name(node: Node) -> Seq<char> {
    match (node.title, node.label) {
        (Some(t), _) => node.path@ + " — "@ + t@,
        (None, Some(l)) => node.path@ + " — "@ + l@,
        (None, None) => node.path@,
    }
}

/// What stands in front of a node that is not the root.
pub open spec fn connector(prefix: Seq<char>, last: bool) -> Seq<char> {
    prefix + (if last {
        "└── "@
    } else {
        "├── "@
    })
}

/// What stands in front of the children of a node that is not the root.
pub open spec fn child_prefix(prefix: Seq<char>, last: bool) -> Seq<char> {
    prefix + (if last {
        "    "@
    } else {
        "│   "@
    })
}

/// A node and what it contains, drawn one line per node: `front` stands before the node,
/// `below` before its children.
pub open spec fn node_text(node: Node, front: Seq<char>, below: Seq<char>) -> Seq<char>
    decreases node, node.children@.len() + 1,
{
    front + node_name(node) + marker(node.kind) + "\n"@ + children_text(
        node,
        below,
        node.children@.len(),
    )
}

/// The first `n` children of a node, drawn.
pub open spec fn children_text(node: Node, prefix: Seq<char>, n: nat) -> Seq<char>
    decreases node, n,
{
    if n == 0 || n > node.children@.len() {
        Seq::empty()
    } else {
        let last = n == node.children@.len();
        children_text(node, prefix, (n - 1) as nat) + node_text(
            node.children@[n - 1],
            connector(prefix, last),
            child_prefix(prefix, last),
        )
    }
}

/// The name of a node.
fn name_text(node: &Node) -> (r: String)
    ensures
        r@ == node_name(*node),
{
    let mut out = node.path.clone();
    match &node.title {
        Some(t) => {
            out.append(" — ");
            out.append(t.as_str());
        },
        None => match &node.label {
            Some(l) => {
                out.append(" — ");
                out.append(l.as_str());
            },
            None => {},
        },
    }
    out
}

/// What is said of a node that is not a plain document.
fn marker_text(kind: &NodeKind) -> (r: String)
    ensures
        r@ == marker(*kind),
{
    match kind {
        NodeKind::Doc => String::new(),
        NodeKind::Missing => " (missing)".to_owned(),
        NodeKind::Cycle => " (cycle!)".to_owned(),
        NodeKind::Unreadable(e) => {
            let mut out = " (unreadable: ".to_owned();
            out.append(e.as_str());
            out.append(")");
            out
        },
        NodeKind::UnresolvedId(id) => {
            let mut out = " (unresolved id: ".to_owned();
            out.append(id.as_str());
            out.append(")");
            out
        },
    }
}

/// Draws a node and what it contains.
fn draw(node: &Node, front: &str, below: &str) -> (r: String)
    ensures
        r@ == node_text(*node, front@, below@),
    decreases node,
{
    let mut out = front.to_owned();
    out.append(name_text(node).as_str());
    out.append(marker_text(&node.kind).as_str());
    out.append("\n");
    let ghost head = out@;
    let n = node.children.len();
    let mut i: usize = 0;
    assert(out@ =~= head + children_text(*node, below@, 0));
    while i < n
        invariant
            i <= n,
            n == node.children@.len(),
            head == front@ + node_name(*node) + marker(node.kind) + "\n"@,
            out@ == head + children_text(*node, below@, i as nat),
        decreases n - i,
    {
        let last = i + 1 == n;
        let mut first = below.to_owned();
        let mut rest = below.to_owned();
        if last {
            first.append("└── ");
            rest.append("    ");
        } else {
            first.append("├── ");
            rest.append("│   ");
        }
        assert(decreases_to!(node.children => node.children[i as int]));
        let ghost before = out@;
        out.append(draw(&node.children[i], first.as_str(), rest.as_str()).as_str());
        i += 1;
        assert(out@ =~= head + children_text(*node, below@, i as nat));
    }
    out
}

/// Draws the containment tree: `path — title (marker)` per node, with box-drawing
/// connectors.
pub fn render(root: &Node) -> (r: String)
    ensures
        r@ == node_text(*root, Seq::empty(), Seq::empty()),
        r@ == lines_text(lines_from(*root, Seq::empty())),
{
    proof {
        drawing_shows_the_levels(*root);
        reveal_strlit("");
        assert(""@ =~= Seq::empty());
    }
    draw(root, "", "")
}

// ---- laws of the drawing ----

/// A line of a drawing: its node, and for the node of each level on the way down to it, the
/// root's left out and its own the last, whether it is the last among its siblings.
pub struct Line {
    /// The node.
    pub node: Node,
    /// Whether the node of each level is the last of its siblings.
    pub lasts: Seq<bool>,
}

/// A node and all it contains, each node before what it contains.
pub open spec fn lines_from(node: Node, lasts: Seq<bool>) -> Seq<Line>
    decreases node, node.children@.len() + 1,
{
    seq![Line { node, lasts }] + lines_below(node, lasts, node.children@.len())
}

/// What the first `n` children of a node come to, with all they contain.
pub open spec fn lines_below(node: Node, lasts: Seq<bool>, n: nat) -> Seq<Line>
    decreases node, n,
{
    if n == 0 || n > node.children@.len() {
        Seq::empty()
    } else {
        lines_below(node, lasts, (n - 1) as nat) + lines_from(
            node.children@[n - 1],
            lasts.push(n == node.children@.len()),
        )
    }
}

/// The `k`th character before the name on a line, four to a level: on the level of the node
/// itself a corner where no sibling follows and a tee where one does, on a level above it the
/// line down to the next sibling, where there is one.
pub open spec fn drawn_at(lasts: Seq<bool>, k: int) -> char {
    let own = k / 4 + 1 == lasts.len();
    if own && k % 4 == 0 && lasts[k / 4] {
        '└'
    } else if own && k % 4 == 0 {
        '├'
    } else if own && k % 4 < 3 {
        '─'
    } else if !own && k % 4 == 0 && !lasts[k / 4] {
        '│'
    } else {
        ' '
    }
}

/// What stands before the name on a line.
pub open spec fn drawn_before(lasts: Seq<bool>) -> Seq<char> {
    Seq::new(4 * lasts.len(), |k: int| drawn_at(lasts, k))
}

/// A line, as it is drawn.
pub open spec fn line_text(line: Line) -> Seq<char> {
    drawn_before(line.lasts) + node_name(line.node) + marker(line.node.kind) + seq!['\n']
}

/// Lines, as they are drawn.
pub open spec fn lines_text(lines: Seq<Line>) -> Seq<char>
    decreases lines.len(),
{
    if lines.len() == 0 {
        Seq::empty()
    } else {
        lines_text(lines.drop_last()) + line_text(lines.last())
    }
}

/// What stands before the children of a node.
spec fn drawn_below(lasts: Seq<bool>) -> Seq<char> {
    Seq::new(
        4 * lasts.len(),
        |k: int|
            if k % 4 == 0 && !lasts[k / 4] {
                '│'
            } else {
                ' '
            },
    )
}

proof fn lemma_lines_text(a: Seq<Line>, b: Seq<Line>)
    ensures
        lines_text(a + b) == lines_text(a) + lines_text(b),
    decreases b.len(),
{
    if b.len() == 0 {
        assert(a + b =~= a);
        assert(lines_text(a) + lines_text(b) =~= lines_text(a));
    } else {
        assert((a + b).drop_last() =~= a + b.drop_last());
        assert((a + b).last() == b.last());
        lemma_lines_text(a, b.drop_last());
        assert(lines_text(a + b) =~= lines_text(a) + lines_text(b));
    }
}

proof fn lemma_one_line(line: Line)
    ensures
        lines_text(seq![line]) == line_text(line),
{
    assert(seq![line].drop_last() =~= Seq::empty());
    assert(lines_text(Seq::<Line>::empty()) =~= Seq::empty());
    assert(lines_text(seq![line]) =~= line_text(line));
}

proof fn lemma_columns(lasts: Seq<bool>, last: bool)
    ensures
        connector(drawn_below(lasts), last) == drawn_before(lasts.push(last)),
        child_prefix(drawn_below(lasts), last) == drawn_below(lasts.push(last)),
{
    reveal_strlit("└── ");
    reveal_strlit("├── ");
    reveal_strlit("    ");
    reveal_strlit("│   ");
    let more = lasts.push(last);
    assert(connector(drawn_below(lasts), last) =~= drawn_before(more));
    assert(child_prefix(drawn_below(lasts), last) =~= drawn_below(more));
}

proof fn lemma_drawn_node(node: Node, lasts: Seq<bool>)
    ensures
        node_text(node, drawn_before(lasts), drawn_below(lasts)) == lines_text(
            lines_from(node, lasts),
        ),
    decreases node, node.children@.len() + 1,
{
    reveal_strlit("\n");
    assert("\n"@ =~= seq!['\n']);
    lemma_drawn_children(node, lasts, node.children@.len());
    lemma_one_line(Line { node, lasts });
    lemma_lines_text(seq![Line { node, lasts }], lines_below(node, lasts, node.children@.len()));
}

proof fn lemma_drawn_children(node: Node, lasts: Seq<bool>, n: nat)
    requires
        n <= node.children@.len(),
    ensures
        children_text(node, drawn_below(lasts), n) == lines_text(lines_below(node, lasts, n)),
    decreases node, n,
{
    if n > 0 {
        let last = n == node.children@.len();
        lemma_drawn_children(node, lasts, (n - 1) as nat);
        lemma_columns(lasts, last);
        assert(decreases_to!(node.children => node.children@[n - 1]));
        lemma_drawn_node(node.children@[n - 1], lasts.push(last));
        lemma_lines_text(
            lines_below(node, lasts, (n - 1) as nat),
            lines_from(node.children@[n - 1], lasts.push(last)),
        );
    }
}

/// Law: a tree is drawn with one line for each node, and before the name on it four columns
/// for each level that the node is under the root. The columns of a level above the node are
/// those that every line under the same node of that level has, so that the depth of a node
/// and what contains it can be read from the lines.
pub proof fn drawing_shows_the_levels(root: Node)
    ensures
        node_text(root, Seq::empty(), Seq::empty()) == lines_text(
            lines_from(root, Seq::empty()),
        ),
{
    assert(drawn_before(Seq::empty()) =~= Seq::empty());
    assert(drawn_below(Seq::empty()) =~= Seq::empty());
    lemma_drawn_node(root, Seq::empty());
}

/// A spanning link of a document: where it leads, and its label.
#[derive(Debug, Clone, PartialEq, Eq)]
pub struct Branch {
    /// Where the link leads.
    pub target: Target,
    /// The label of the link.
    pub label: Option<String>,
}

/// A spanning link, as a mathematical value.
pub struct BranchView {
    /// See [`Branch::target`].
    pub target: TargetView,
    /// See [`Branch::label`].
    pub label: Option<Seq<char>>,
}

impl View for Branch {
    type V = BranchView;

    open spec fn view(&self) -> BranchView {
        BranchView { target: self.target@, label: option_view(self.label) }
    }
}

/// The spanning links of the document `d` at `doc`, in order.
pub open spec fn branches_of(
    r: Registry,
    vocabulary: Vocabulary,
    doc: Seq<char>,
    d: DocumentView,
) -> Seq<BranchView> {
    children_of(vocabulary, d.meta).map_values(
        |raw: Seq<char>|
            BranchView { target: target_of(r, doc, link_of(raw)), label: link_of(raw).label },
    )
}

/// The title that metadata declares.
pub open spec fn title_of(meta: Tree) -> Option<Seq<char>> {
    match field(meta, "title"@) {
        Some(Tree::Text(t)) => Some(t),
        _ => None,
    }
}

impl Document {
    /// The title that the document declares.
    pub fn title(&self) -> (r: Option<String>)
        ensures
            option_view(r) == title_of(self@.meta),
    {
        match self.meta.get("title") {
            Some(v) => match v.as_str() {
                Some(t) => Some(t.to_owned()),
                None => None,
            },
            None => None,
        }
    }
}

impl<IdP: IdentityPolicy, Ix: IndexStore> Workspace<IdP, Ix> {
    /// The spanning links of a document, in order.
    pub fn branches(&self, doc_path: &str, doc: &Document) -> (r: Vec<Branch>)
        requires
            self.index.wf(),
        ensures
            r@.map_values(|b: Branch| b@) == branches_of(
                self.index.registry(),
                self.relations@,
                doc_path@,
                doc@,
            ),
    {
        let links = self.relations.children(&doc.meta);
        let ghost all = branches_of(self.index.registry(), self.relations@, doc_path@, doc@);
        let mut out: Vec<Branch> = Vec::new();
        let mut i: usize = 0;
        while i < links.len()
            invariant
                i <= links@.len(),
                self.index.wf(),
                views(links@) == children_of(self.relations@, doc@.meta),
                all == branches_of(self.index.registry(), self.relations@, doc_path@, doc@),
                out@.map_values(|b: Branch| b@) =~= all.take(i as int),
            decreases links@.len() - i,
        {
            let ghost before = out@.map_values(|b: Branch| b@);
            assert(views(links@)[i as int] == links@[i as int]@);
            let link = Link::parse(links[i].as_str());
            let target = self.resolve_link(doc_path, &link);
            let branch = Branch { target, label: link.label };
            assert(branch@ == all[i as int]);
            out.push(branch);
            assert(out@.map_values(|b: Branch| b@) =~= before.push(branch@));
            assert(all.take(i + 1) =~= all.take(i as int).push(all[i as int]));
            i += 1;
        }
        assert(views(links@).len() == all.len());
        assert(all.take(i as int) =~= all);
        out
    }
}

/// What reading a path gave.
#[derive(Debug, Clone, PartialEq, Eq)]
pub enum Read {
    /// The text there.
    Text(String),
    /// Nothing is there.
    Nothing,
    /// Something is there that cannot be read, for a reason.
    Failed(String),
}

/// How a path grows into a node of the tree.
pub enum Growth {
    /// It is a node without children.
    Leaf(NodeKind),
    /// It is a document with a title, perhaps, and links to follow.
    Doc(Option<String>, Vec<Branch>),
}

/// A child to make of a spanning link.
#[derive(Debug, PartialEq, Eq)]
pub enum Sprout {
    /// A node without children.
    Leaf(Node),
    /// A path to grow, and the label of the link that leads to it.
    Path(String, Option<String>),
}

/// The spanning links that become children, in order: all but those that lead out of the
/// workspace.
pub open spec fn followed(branches: Seq<BranchView>) -> Seq<BranchView>
    decreases branches.len(),
{
    if branches.len() == 0 {
        Seq::empty()
    } else {
        let rest = followed(branches.drop_last());
        match branches.last().target {
            TargetView::External => rest,
            _ => rest.push(branches.last()),
        }
    }
}

/// Whether a node is a leaf at `path`, under a link's label.
pub open spec fn is_leaf(node: Node, path: Seq<char>, label: Option<Seq<char>>) -> bool {
    &&& node.path@ == path
    &&& node.title is None
    &&& option_view(node.label) == label
    &&& node.children@.len() == 0
}

/// Whether a child is what a spanning link becomes: an ID that does not resolve is a leaf
/// under its target, and a path is grown under the link's label.
pub open spec fn sprouts_from(sprout: Sprout, branch: BranchView) -> bool {
    match (sprout, branch.target) {
        (Sprout::Leaf(node), TargetView::UnresolvedId(id)) => {
            &&& is_leaf(node, ID_SCHEME@ + id, branch.label)
            &&& node.kind matches NodeKind::UnresolvedId(own)
            &&& own@ == id
        },
        (Sprout::Path(path, label), TargetView::Path(p)) => path@ == p && option_view(label)
            == branch.label,
        _ => false,
    }
}

/// A node without children.
pub fn leaf(path: String, label: Option<String>, kind: NodeKind) -> (r: Node)
    ensures
        is_leaf(r, path@, option_view(label)),
        r.kind == kind,
{
    Node { path, title: None, label, kind, children: Vec::new() }
}

/// The children to make of the spanning links of a document, in order.
pub fn sprouts(branches: Vec<Branch>) -> (r: Vec<Sprout>)
    ensures
        r@.len() == followed(branches@.map_values(|b: Branch| b@)).len(),
        forall|i: int|
            0 <= i < r@.len() ==> sprouts_from(
                #[trigger] r@[i],
                followed(branches@.map_values(|b: Branch| b@))[i],
            ),
{
    let ghost all = branches@.map_values(|b: Branch| b@);
    let mut out: Vec<Sprout> = Vec::new();
    let mut i: usize = 0;
    assert(all.take(0) =~= Seq::empty());
    while i < branches.len()
        invariant
            i <= branches@.len(),
            all == branches@.map_values(|b: Branch| b@),
            out@.len() == followed(all.take(i as int)).len(),
            forall|k: int|
                0 <= k < out@.len() ==> sprouts_from(
                    #[trigger] out@[k],
                    followed(all.take(i as int))[k],
                ),
        decreases branches@.len() - i,
    {
        assert(all.take(i + 1).drop_last() =~= all.take(i as int));
        assert(all.take(i + 1).last() == all[i as int]);
        assert(all[i as int] == branches@[i as int]@);
        let label = match &branches[i].label {
            Some(l) => Some(l.clone()),
            None => None,
        };
        assert(option_view(label) == all[i as int].label);
        let ghost before = followed(all.take(i as int));
        let sprout = match &branches[i].target {
            Target::External => None,
            Target::UnresolvedId(id) => Some(
                Sprout::Leaf(leaf(id_target(id), label, NodeKind::UnresolvedId(id.copy()))),
            ),
            Target::Path(p) => Some(Sprout::Path(p.clone(), label)),
        };
        if let Some(s) = sprout {
            assert(sprouts_from(s, all[i as int]));
            assert(followed(all.take(i + 1)) == before.push(all[i as int]));
            out.push(s);
        } else {
            assert(followed(all.take(i + 1)) == before);
        }
        i += 1;
    }
    assert(all.take(i as int) =~= all);
    out
}

/// Whether a path closes a cycle: it is one of those above it.
pub fn closes_cycle(path: &str, above: &Vec<String>) -> (r: bool)
    ensures
        r == views(above@).contains(path@),
{
    let mut i: usize = 0;
    while i < above.len()
        invariant
            i <= above@.len(),
            forall|j: int| 0 <= j < i ==> #[trigger] views(above@)[j] != path@,
        decreases above@.len() - i,
    {
        assert(views(above@)[i as int] == above@[i as int]@);
        if same(above[i].as_str(), path) {
            return true;
        }
        i += 1;
    }
    false
}

impl<IdP: IdentityPolicy, Ix: IndexStore> Workspace<IdP, Ix> {
    /// How a path grows into a node of the tree, given what reading it gave: nothing there
    /// is missing, what cannot be read or parsed is unreadable, and a document has its
    /// spanning links followed.
    pub fn grow(&self, path: &str, read: &Read) -> (r: Growth)
        requires
            self.index.wf(),
        ensures
            match (*read, r) {
                (Read::Nothing, Growth::Leaf(kind)) => kind is Missing,
                (Read::Failed(e), Growth::Leaf(kind)) => kind matches NodeKind::Unreadable(m)
                    && m@ == e@,
                (Read::Text(t), Growth::Leaf(kind)) => kind matches NodeKind::Unreadable(m) && (
                document_in(t@) matches Err(e) && m@ == failure_text(e)),
                (Read::Text(t), Growth::Doc(title, branches)) => document_in(t@) matches Ok(d)
                    && option_view(title) == title_of(d.meta) && branches@.map_values(
                    |b: Branch| b@,
                ) == branches_of(self.index.registry(), self.relations@, path@, d),
                _ => false,
            },
    {
        match read {
            Read::Nothing => Growth::Leaf(NodeKind::Missing),
            Read::Failed(e) => Growth::Leaf(NodeKind::Unreadable(e.clone())),
            Read::Text(t) => match Document::parse(t.as_str()) {
                Ok(doc) => Growth::Doc(doc.title(), self.branches(path, &doc)),
                Err(e) => Growth::Leaf(NodeKind::Unreadable(e.message())),
            },
        }
    }
}

// ---- laws of names and links ----

/// Law: the name of a node begins with its path and ends with its title, or with the label of
/// the link to it where it has no title, and is the path alone where it has neither.
pub proof fn name_says_path_and_title(node: Node)
    ensures
        node.path@.is_prefix_of(node_name(node)),
        match (node.title, node.label) {
            (Some(t), _) => {
                &&& t@.is_suffix_of(node_name(node))
                &&& node_name(node).len() == node.path@.len() + 3 + t@.len()
            },
            (None, Some(l)) => {
                &&& l@.is_suffix_of(node_name(node))
                &&& node_name(node).len() == node.path@.len() + 3 + l@.len()
            },
            (None, None) => node_name(node) == node.path@,
        },
{
    reveal_strlit(" — ");
    let name = node_name(node);
    match (node.title, node.label) {
        (Some(t), _) => {
            assert(name.subrange(name.len() - t@.len(), name.len() as int) =~= t@);
        },
        (None, Some(l)) => {
            assert(name.subrange(name.len() - l@.len(), name.len() as int) =~= l@);
        },
        _ => {},
    }
}

/// Law: what is said behind a name tells what its node stands for. Only a document has nothing
/// said of it, and no two kinds of node have the same said.
pub proof fn markers_tell_kinds_apart(a: NodeKind, b: NodeKind)
    ensures
        marker(a).len() == 0 <==> a is Doc,
        marker(a) == marker(b) ==> match (a, b) {
            (NodeKind::Doc, NodeKind::Doc) => true,
            (NodeKind::Missing, NodeKind::Missing) => true,
            (NodeKind::Cycle, NodeKind::Cycle) => true,
            (NodeKind::Unreadable(x), NodeKind::Unreadable(y)) => x@ == y@,
            (NodeKind::UnresolvedId(x), NodeKind::UnresolvedId(y)) => x@ == y@,
            _ => false,
        },
{
    reveal_strlit(" (missing)");
    reveal_strlit(" (cycle!)");
    reveal_strlit(" (unreadable: ");
    reveal_strlit(" (unresolved id: ");
    reveal_strlit(")");
    let m = marker(a);
    let k = marker(b);
    assert(m == k ==> (m.len() > 2 ==> m[2] == k[2]));
    assert(m == k ==> (m.len() > 6 ==> m[6] == k[6]));
    match (a, b) {
        (NodeKind::Unreadable(x), NodeKind::Unreadable(y)) => {
            assert(m.subrange(14, m.len() - 1) =~= x@);
            assert(k.subrange(14, k.len() - 1) =~= y@);
        },
        (NodeKind::UnresolvedId(x), NodeKind::UnresolvedId(y)) => {
            assert(m.subrange(17, m.len() - 1) =~= x@);
            assert(k.subrange(17, k.len() - 1) =~= y@);
        },
        _ => {},
    }
}

/// Law: the children of a node in the tree are its spanning links, in order, but for those that
/// lead out of the workspace.
pub proof fn only_links_out_are_left_out(branches: Seq<BranchView>)
    ensures
        followed(branches) == branches.filter(|b: BranchView| !(b.target is External)),
    decreases branches.len(),
{
    reveal(Seq::filter);
    if branches.len() > 0 {
        only_links_out_are_left_out(branches.drop_last());
    }
}

/// Law: a document has a branch for each text it says under the spanning relation, in order,
/// with the target and the label of that link.
pub proof fn branches_are_the_spanning_links(
    r: Registry,
    vocabulary: Vocabulary,
    doc: Seq<char>,
    d: DocumentView,
)
    ensures
        ({
            let said = match vocabulary.spanning {
                Some(s) => heard(d.meta, s),
                None => Seq::empty(),
            };
            let all = branches_of(r, vocabulary, doc, d);
            &&& all.len() == said.len()
            &&& forall|i: int|
                0 <= i < all.len() ==> (#[trigger] all[i]).target == target_of(
                    r,
                    doc,
                    link_of(said[i]),
                ) && all[i].label == link_of(said[i]).label
        }),
{
    if let Some(s) = vocabulary.spanning {
        links_are_the_texts(d.meta, s);
    }
}

/// Law: a spanning link becomes one child, with its label: an ID that does not resolve a leaf
/// that is named by the ID and says so, and a path the document to be found there. A link out
/// of the workspace becomes none.
pub proof fn link_becomes_one_child(sprout: Sprout, branch: BranchView)
    requires
        sprouts_from(sprout, branch),
    ensures
        match branch.target {
            TargetView::External => false,
            TargetView::Path(p) => sprout matches Sprout::Path(path, label) && path@ == p
                && option_view(label) == branch.label,
            TargetView::UnresolvedId(id) => sprout matches Sprout::Leaf(node) && node.path@
                == "colophon:"@ + id && option_view(node.label) == branch.label && (
            node.kind matches NodeKind::UnresolvedId(own) && own@ == id) && node.children@.len()
                == 0 && node.title is None,
        },
{
}

/// Law: the title of a document is the text under `title`, and nothing else is one.
pub proof fn title_is_the_text_under_its_key(meta: Tree, t: Seq<char>)
    ensures
        title_of(meta) == Some(t) <==> field(meta, "title"@) == Some(Tree::Text(t)),
{
}

} // verus!
