//! Link text: the raw strings a relation field holds, and the path arithmetic
//! around them.
//!
//! A link target as written in metadata is either a bare relative path
//! (`notes/a.md`) or a labeled link (`[Design](docs/design.md)`). Everything
//! here is lexical: no filesystem access, no symlink resolution.
use vstd::prelude::*;

use crate::identity::Id;
use crate::path;
use crate::path::{
    components, dir_comps, is_normal, lemma_components_well_formed, normal_form,
    join_appends_components, join_text, lemma_components_rootless, normal_form_is_normal,
    normal_form_of_normal, normalizing_before_a_join, path_text, path_text_reads_back, pieces,
    rooted, routable, route_is_empty_to_itself, route_is_shortest, route_text,
    route_text_arrives, route_text_is_clean, route_text_leads, target_comps, well_formed, Comp,
};
use crate::text::{
    chars_of, contains, find, occurs, occurs_at, stands_between, starts_with, strip_prefix, text_of,
    what_occurs_stands_between,
};

verus! {

/// The target scheme marking a link by ID: `colophon:<id>`.
pub const ID_SCHEME: &'static str = "colophon:";

/// A parsed link string: an optional human label and the target it points at.
#[derive(Debug, Clone, PartialEq, Eq)]
pub struct Link {
    /// The display label, when written as `[label](target)`.
    pub label: Option<String>,
    /// The target exactly as written.
    pub target: String,
}

/// A link as a mathematical value.
#[verifier::ext_equal]
pub struct LinkView {
    pub label: Option<Seq<char>>,
    pub target: Seq<char>,
}

impl View for Link {
    type V = LinkView;

    open spec fn view(&self) -> LinkView {
        LinkView {
            label: match self.label {
                Some(label) => Some(label@),
                None => None,
            },
            target: self.target@,
        }
    }
}

/// `[label](target)`.
pub open spec fn labeled_text(label: Seq<char>, target: Seq<char>) -> Seq<char> {
    seq!['['] + label + seq![']', '('] + target + seq![')']
}

/// Whether `raw` reads as `[label](target)`, split at its first `](`.
pub open spec fn labeled(raw: Seq<char>, label: Seq<char>, target: Seq<char>) -> bool {
    raw == labeled_text(label, target) && !occurs(label, seq![']', '('])
}

/// The link that `raw` stands for: labeled where it has that shape, bare
/// otherwise.
pub open spec fn link_of(raw: Seq<char>) -> LinkView {
    if exists|label: Seq<char>, target: Seq<char>| labeled(raw, label, target) {
        let (label, target) = choose|label: Seq<char>, target: Seq<char>|
            labeled(raw, label, target);
        LinkView { label: Some(label), target }
    } else {
        LinkView { label: None, target: raw }
    }
}

/// How a link is written.
pub open spec fn link_text(link: LinkView) -> Seq<char> {
    match link.label {
        Some(label) => labeled_text(label, link.target),
        None => link.target,
    }
}

/// Whether a target points off-workspace.
pub open spec fn external_target(target: Seq<char>) -> bool {
    ||| occurs(target, seq![':', '/', '/'])
    ||| "mailto:"@.is_prefix_of(target)
}

/// Whether a target names a document by ID.
pub open spec fn names_id(target: Seq<char>) -> bool {
    ID_SCHEME@.is_prefix_of(target)
}

/// The ID that a target of that form names.
pub open spec fn named_id(target: Seq<char>) -> Option<Seq<char>> {
    if names_id(target) {
        Some(target.skip(ID_SCHEME@.len() as int))
    } else {
        None
    }
}

/// The normalized text of a path.
pub open spec fn normalized(t: Seq<char>) -> Seq<char> {
    path_text(normal_form(components(t)))
}

/// The path reached by writing `target` in the document `doc`.
pub open spec fn resolved(doc: Seq<char>, target: Seq<char>) -> Seq<char> {
    path_text(target_comps(components(doc), components(target)))
}

/// The text that leads from the directory `from_dir` to `to`.
pub open spec fn relative_text(from_dir: Seq<char>, to: Seq<char>) -> Seq<char> {
    route_text(components(from_dir), components(to))
}

/// The directory that holds `doc`, as text.
pub open spec fn dir_text(doc: Seq<char>) -> Seq<char> {
    path_text(dir_comps(components(doc)))
}

/// A text that reads as a labeled link does so in one way only.
proof fn lemma_labeled_unique(
    raw: Seq<char>,
    l1: Seq<char>,
    t1: Seq<char>,
    l2: Seq<char>,
    t2: Seq<char>,
)
    requires
        labeled(raw, l1, t1),
        labeled(raw, l2, t2),
        l1.len() <= l2.len(),
    ensures
        l1 == l2,
        t1 == t2,
{
    let mid = seq![']', '('];
    let n = l1.len() as int;
    assert(raw[1 + n] == ']');
    assert(raw[2 + n] == '(');
    if l1.len() < l2.len() {
        assert(l2[n] == raw[1 + n]);
        if n + 1 < l2.len() {
            assert(l2[n + 1] == raw[2 + n]);
            assert(l2.subrange(n, n + 2) == mid);
            assert(occurs_at(l2, mid, n));
        } else {
            assert(raw[1 + l2.len() as int] == ']');
        }
        assert(false);
    }
    assert(labeled_text(l1, t1).len() == 4 + l1.len() + t1.len());
    assert(labeled_text(l2, t2).len() == 4 + l2.len() + t2.len());
    assert forall|i: int| 0 <= i < n implies l1[i] == l2[i] by {
        assert(raw[1 + i] == l1[i]);
        assert(raw[1 + i] == l2[i]);
    }
    assert(l1 == l2);
    assert forall|i: int| 0 <= i < t1.len() implies t1[i] == t2[i] by {
        assert(raw[3 + n + i] == t1[i]);
        assert(raw[3 + n + i] == t2[i]);
    }
    assert(t1 == t2);
}

/// The link that a text of labeled shape stands for.
pub proof fn lemma_link_of_labeled(raw: Seq<char>, label: Seq<char>, target: Seq<char>)
    requires
        labeled(raw, label, target),
    ensures
        link_of(raw) == (LinkView { label: Some(label), target }),
{
    let (l, t) = choose|l: Seq<char>, t: Seq<char>| labeled(raw, l, t);
    if l.len() <= label.len() {
        lemma_labeled_unique(raw, l, t, label, target);
    } else {
        lemma_labeled_unique(raw, label, target, l, t);
    }
}

/// Law: rendering a parsed link gives back the text it was parsed from.
pub proof fn parse_then_render(raw: Seq<char>)
    ensures
        link_text(link_of(raw)) == raw,
{
}

/// Law: a link whose label does not hold `](`, and a bare link whose target is
/// not itself of labeled shape, is read back as it was written.
pub proof fn render_then_parse(link: LinkView)
    requires
        match link.label {
            Some(label) => !occurs(label, seq![']', '(']),
            None => forall|l: Seq<char>, t: Seq<char>| !labeled(link.target, l, t),
        },
    ensures
        link_of(link_text(link)) == link,
{
    match link.label {
        Some(label) => {
            lemma_link_of_labeled(link_text(link), label, link.target);
        },
        None => {},
    }
}

/// Law: the target written for an ID is read back as a bare link to that ID.
pub proof fn id_target_reads_back(id: Seq<char>)
    ensures
        link_of(ID_SCHEME@ + id) == (LinkView { label: None, target: ID_SCHEME@ + id }),
        named_id(ID_SCHEME@ + id) == Some(id),
{
    reveal_strlit("colophon:");
    let raw = ID_SCHEME@ + id;
    assert(raw[0] == 'c');
    assert forall|l: Seq<char>, t: Seq<char>| !labeled(raw, l, t) by {
        assert(labeled_text(l, t)[0] == '[');
    }
    assert(raw.skip(ID_SCHEME@.len() as int) == id);
}

/// Law: normalizing twice is normalizing once, and what comes out holds no `.`
/// and no `..` after a name.
pub proof fn normalize_is_idempotent(t: Seq<char>)
    ensures
        normalized(normalized(t)) == normalized(t),
        is_normal(components(normalized(t))),
        components(normalized(t)) == normal_form(components(t)),
{
    lemma_components_well_formed(t);
    normal_form_is_normal(components(t));
    path_text_reads_back(normal_form(components(t)));
    normal_form_of_normal(normal_form(components(t)));
}

/// Law: what a target resolves to is normalized.
pub proof fn resolve_is_normalized(doc: Seq<char>, target: Seq<char>)
    ensures
        normalized(resolved(doc, target)) == resolved(doc, target),
        components(resolved(doc, target)) == target_comps(components(doc), components(target)),
{
    lemma_components_well_formed(doc);
    lemma_components_well_formed(target);
    let d = dir_comps(components(doc));
    let t = components(target);
    if rooted(t) {
        normal_form_is_normal(t);
    } else {
        assert(path::names_valid(d + t)) by {
            assert forall|i: int| 0 <= i < (d + t).len() implies match #[trigger] (d + t)[i] {
                Comp::Root => i == 0,
                Comp::Name(name) => path::valid_name(name),
                _ => true,
            } by {
                if i < d.len() {
                    assert((d + t)[i] == components(doc)[i]);
                } else {
                    assert((d + t)[i] == t[i - d.len()]);
                    if t[i - d.len()] == Comp::Root {
                        assert(i - d.len() == 0);
                        assert(t[0] == Comp::Root);
                    }
                }
            }
        }
        normal_form_is_normal(d + t);
    }
    let r = target_comps(components(doc), t);
    path_text_reads_back(r);
    normal_form_of_normal(r);
}

/// The text of a document's directory has the directory as its components.
pub proof fn lemma_dir_text_reads_back(doc: Seq<char>)
    ensures
        components(dir_text(doc)) == dir_comps(components(doc)),
{
    lemma_components_well_formed(doc);
    let d = dir_comps(components(doc));
    assert(well_formed(d)) by {
        assert forall|i: int| 0 <= i < d.len() implies match #[trigger] d[i] {
            Comp::Root => i == 0,
            Comp::Cur => i == 0,
            Comp::Up => true,
            Comp::Name(name) => path::valid_name(name),
        } by {
            assert(d[i] == components(doc)[i]);
        }
    }
    path_text_reads_back(d);
}

/// Whether the document `doc` can reach `to` by a relative target: both are
/// rooted or neither is, and the way up from `doc`'s directory crosses no `..`.
pub open spec fn reaches(doc: Seq<char>, to: Seq<char>) -> bool {
    routable(dir_comps(components(doc)), components(to))
}

/// Law: the relative target computed for `to` in a normalized document `doc`
/// resolves to `to`.
pub proof fn relative_resolves(doc: Seq<char>, to: Seq<char>)
    requires
        normalized(doc) == doc,
        normalized(to) == to,
        reaches(doc, to),
    ensures
        resolved(doc, relative_text(dir_text(doc), to)) == to,
{
    normalize_is_idempotent(doc);
    normalize_is_idempotent(to);
    lemma_dir_text_reads_back(doc);
    lemma_components_well_formed(to);
    let d = dir_comps(components(doc));
    assert(is_normal(d)) by {
        assert forall|i: int| 0 <= i < d.len() implies d[i] == components(doc)[i] by {}
        assert forall|i: int| 0 < i < d.len() && d[i] == Comp::Up implies !(
        #[trigger] d[i - 1] is Name) by {
            assert(components(doc)[i - 1] == d[i - 1]);
        }
    }
    route_text_arrives(components(doc), components(to));
}

/// Law: normalizing a path before a target is joined to it changes nothing in what is
/// reached.
pub proof fn normalizing_first_changes_nothing(path: Seq<char>, target: Seq<char>)
    ensures
        normalized(join_text(normalized(path), target)) == normalized(join_text(path, target)),
{
    normalizing_before_a_join(path, target);
}

/// Law: a target resolves to what is reached by joining it to the document's directory.
pub proof fn resolve_is_a_join(doc: Seq<char>, target: Seq<char>)
    ensures
        resolved(doc, target) == normalized(join_text(dir_text(doc), target)),
{
    lemma_dir_text_reads_back(doc);
    if rooted(components(target)) {
        if target.len() == 0 || target[0] != '/' {
            lemma_components_rootless(target);
        }
    } else {
        if target.len() > 0 && target[0] == '/' {
            assert(components(target)[0] == Comp::Root);
        }
        join_appends_components(dir_text(doc), target);
    }
}

/// Law: the relative text from a directory to a path, joined to the directory, reaches the
/// path.
pub proof fn relative_arrives(from_dir: Seq<char>, to: Seq<char>)
    requires
        normalized(from_dir) == from_dir,
        normalized(to) == to,
        routable(components(from_dir), components(to)),
    ensures
        normalized(join_text(from_dir, relative_text(from_dir, to))) == to,
{
    let from = components(from_dir);
    let dest = components(to);
    normalize_is_idempotent(from_dir);
    normalize_is_idempotent(to);
    lemma_components_well_formed(to);
    route_text_leads(from, dest);
    join_appends_components(from_dir, relative_text(from_dir, to));
}

/// Law: no relative text reaches a path from a directory in fewer components than the one
/// that is computed.
pub proof fn relative_is_shortest(from_dir: Seq<char>, to: Seq<char>, target: Seq<char>)
    requires
        normalized(from_dir) == from_dir,
        normalized(to) == to,
        from_dir != to,
        routable(components(from_dir), components(to)),
        !rooted(components(target)),
        normalized(join_text(from_dir, target)) == to,
    ensures
        components(relative_text(from_dir, to)).len() <= components(target).len(),
{
    let from = components(from_dir);
    let dest = components(to);
    normalize_is_idempotent(from_dir);
    normalize_is_idempotent(to);
    normalize_is_idempotent(join_text(from_dir, target));
    lemma_components_well_formed(to);
    join_appends_components(from_dir, target);
    route_is_shortest(from, dest, components(target));
    route_text_leads(from, dest);
    assert(from != dest) by {
        if from == dest {
            normal_form_of_normal(from);
            assert(normalized(from_dir) == normalized(to));
        }
    }
    route_is_empty_to_itself(from, dest);
}

/// Law: the relative text from a directory to a path is never empty, separates its
/// components by single slashes, and is `.` exactly where the path is the directory.
pub proof fn relative_is_clean(from_dir: Seq<char>, to: Seq<char>)
    requires
        normalized(from_dir) == from_dir,
        normalized(to) == to,
        rooted(components(from_dir)) == rooted(components(to)),
    ensures
        relative_text(from_dir, to).len() > 0,
        forall|i: int|
            0 <= i < pieces(relative_text(from_dir, to)).len() ==> (#[trigger] pieces(
                relative_text(from_dir, to),
            )[i]).len() > 0,
        relative_text(from_dir, to) == seq!['.'] <==> from_dir == to,
{
    let from = components(from_dir);
    let dest = components(to);
    normalize_is_idempotent(from_dir);
    normalize_is_idempotent(to);
    lemma_components_well_formed(to);
    route_text_is_clean(from, dest);
    if from == dest {
        assert(normalized(from_dir) == normalized(to));
    }
    let t = relative_text(from_dir, to);
    if t.len() == 0 {
        assert(pieces(t) == seq![Seq::<char>::empty()]);
        assert(pieces(t)[0].len() == 0);
    }
}

impl Link {
    /// Parse a raw link string. `[label](target)` yields both parts; anything
    /// else is a bare target with no label.
    pub fn parse(raw: &str) -> (r: Link)
        ensures
            r@ == link_of(raw@),
    {
        let cs = chars_of(raw);
        let n = cs.len();
        let mut mid: Vec<char> = Vec::new();
        mid.push(']');
        mid.push('(');
        assert(mid@ == seq![']', '(']);
        if n >= 2 && cs[0] == '[' && cs[n - 1] == ')' {
            let inner = chars_of(text_of(&cs, 1, n - 1).as_str());
            if let Some(k) = find(&inner, &mid) {
                let label = text_of(&inner, 0, k);
                let target = text_of(&inner, k + 2, inner.len());
                proof {
                    assert(inner@[k as int] == inner@.subrange(k as int, k + 2)[0]);
                    assert(inner@[k + 1] == inner@.subrange(k as int, k + 2)[1]);
                    assert(raw@ == labeled_text(label@, target@));
                    if occurs(label@, mid@) {
                        let at = choose|at: int| occurs_at(label@, mid@, at);
                        assert(inner@.subrange(at, at + 2) == label@.subrange(at, at + 2));
                        assert(occurs_at(inner@, mid@, at));
                    }
                    lemma_link_of_labeled(raw@, label@, target@);
                }
                return Link { label: Some(label), target };
            }
            proof {
                assert forall|l: Seq<char>, t: Seq<char>| !labeled(raw@, l, t) by {
                    if labeled(raw@, l, t) {
                        let at = l.len() as int;
                        assert(inner@.subrange(at, at + 2) == mid@) by {
                            assert(raw@[1 + at] == ']');
                            assert(raw@[2 + at] == '(');
                        }
                        assert(occurs_at(inner@, mid@, at));
                    }
                }
            }
        } else {
            proof {
                assert forall|l: Seq<char>, t: Seq<char>| !labeled(raw@, l, t) by {
                    if labeled(raw@, l, t) {
                        assert(raw@[0] == '[');
                        assert(raw@[raw@.len() - 1] == ')');
                    }
                }
            }
        }
        Link { label: None, target: raw.to_owned() }
    }

    /// Render back to the string form: labeled links keep their label, bare
    /// targets stay bare.
    pub fn render(&self) -> (r: String)
        ensures
            r@ == link_text(self@),
    {
        match &self.label {
            Some(label) => {
                let mut out = String::new();
                out.push('[');
                out.append(label.as_str());
                out.push(']');
                out.push('(');
                out.append(self.target.as_str());
                out.push(')');
                assert(out@ == labeled_text(label@, self.target@));
                out
            },
            None => self.target.clone(),
        }
    }

    /// This link with a different target, keeping the label.
    pub fn with_target(&self, target: &str) -> (r: Link)
        ensures
            r@ == (LinkView { label: self@.label, target: target@ }),
    {
        Link {
            label: match &self.label {
                Some(label) => Some(label.clone()),
                None => None,
            },
            target: target.to_owned(),
        }
    }

    /// Whether the target points off-workspace (a URL or mail address) rather
    /// than at a file.
    pub fn is_external(&self) -> (r: bool)
        ensures
            r == external_target(self.target@),
    {
        proof {
            reveal_strlit("://");
            assert("://"@ == seq![':', '/', '/']);
        }
        contains(self.target.as_str(), "://") || starts_with(self.target.as_str(), "mailto:")
    }

    /// The stable ID this link names, when the target uses the `colophon:<id>`
    /// scheme.
    pub fn id_target(&self) -> (r: Option<Id>)
        ensures
            match r {
                Some(id) => named_id(self.target@) == Some(id@),
                None => named_id(self.target@) is None,
            },
    {
        match strip_prefix(self.target.as_str(), ID_SCHEME) {
            Some(rest) => {
                assert(self.target@.skip(ID_SCHEME@.len() as int) == rest@);
                Some(Id(rest))
            },
            None => None,
        }
    }
}

/// Render an ID as a link target (`colophon:<id>`).
pub fn id_target(id: &Id) -> (r: String)
    ensures
        r@ == ID_SCHEME@ + id@,
{
    ID_SCHEME.to_owned().concat(id.as_str())
}

/// Lexically normalize a path: drop `.` components and fold `parent/..` pairs.
/// Leading `..` components are kept.
pub fn normalize(path: &str) -> (r: String)
    ensures
        r@ == normalized(path@),
{
    path::render(&path::normalize(&path::parse(path)))
}

/// Resolve a link target written in `doc` against `doc`'s directory, yielding a
/// normalized path. A rooted target stands for itself.
pub fn resolve(doc: &str, target: &str) -> (r: String)
    ensures
        r@ == resolved(doc@, target@),
{
    let mut to = path::parse(target);
    if to.len() > 0 && to[0].equals(&path::Component::RootDir) {
        return path::render(&path::normalize(&to));
    }
    let mut all = path::dir(&path::parse(doc));
    let ghost front = path::comps(all@);
    let ghost back = path::comps(to@);
    all.append(&mut to);
    assert(path::comps(all@) == front + back);
    path::render(&path::normalize(&all))
}

/// The relative path string that reaches `to` from `from_dir`, rendered with
/// forward slashes.
pub fn relative(from_dir: &str, to: &str) -> (r: String)
    ensures
        r@ == relative_text(from_dir@, to@),
{
    path::route_between(&path::parse(from_dir), &path::parse(to))
}

/// The directory that holds `doc`, as text.
pub fn dir_of(doc: &str) -> (r: String)
    ensures
        r@ == dir_text(doc@),
{
    path::render(&path::dir(&path::parse(doc)))
}

/// Law: a target leads out of the workspace where it holds `://` or begins with `mailto:`, and
/// nowhere else.
pub proof fn urls_and_mail_lead_out(target: Seq<char>, a: Seq<char>, b: Seq<char>)
    ensures
        external_target(a + seq![':', '/', '/'] + b),
        external_target("mailto:"@ + b),
        external_target(target) && !"mailto:"@.is_prefix_of(target) ==> occurs(
            target,
            seq![':', '/', '/'],
        ),
{
    let sign = seq![':', '/', '/'];
    what_occurs_stands_between(a + sign + b, sign);
    assert(stands_between(a + sign + b, a, sign, b));
}

/// Law: a text that is not of the form `[label](target)` is a bare link to itself, and one
/// that is has the label up to the first `](`.
pub proof fn links_are_read_by_their_form(raw: Seq<char>, label: Seq<char>, target: Seq<char>)
    ensures
        !occurs(label, seq![']', '(']) ==> link_of(
            seq!['['] + label + seq![']', '('] + target + seq![')'],
        ) == (LinkView { label: Some(label), target }),
        raw.len() == 0 || raw[0] != '[' || raw.last() != ')' || !occurs(raw, seq![']', '('])
            ==> link_of(raw) == (LinkView { label: None, target: raw }),
{
    if !occurs(label, seq![']', '(']) {
        lemma_link_of_labeled(labeled_text(label, target), label, target);
    }
    if raw.len() == 0 || raw[0] != '[' || raw.last() != ')' || !occurs(raw, seq![']', '(']) {
        assert forall|l: Seq<char>, t: Seq<char>| !labeled(raw, l, t) by {
            if labeled(raw, l, t) {
                let n = l.len() as int;
                assert(raw[0] == '[');
                assert(raw.last() == ')');
                assert(raw.subrange(1 + n, 3 + n) =~= seq![']', '(']);
                assert(occurs_at(raw, seq![']', '('], 1 + n));
            }
        }
    }
}

} // verus!
