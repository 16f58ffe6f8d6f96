//! Lexical path arithmetic over `/`-separated path text.
//!
//! A path is text; what it means is its list of components. Repeated and
//! trailing separators say nothing, and a `.` counts only at the very front.
use vstd::prelude::*;

use crate::text::{chars_of, join, joined, same, views};

verus! {

/// One component of a path, as a mathematical value.
pub enum Comp {
    Root,
    Cur,
    Up,
    Name(Seq<char>),
}

/// One component of a path.
#[derive(Debug, PartialEq, Eq)]
pub enum Component {
    /// The leading `/` of an absolute path.
    RootDir,
    /// A leading `.`.
    CurDir,
    /// `..`.
    ParentDir,
    /// A file or directory name.
    Normal(String),
}

impl View for Component {
    type V = Comp;

    open spec fn view(&self) -> Comp {
        match self {
            Component::RootDir => Comp::Root,
            Component::CurDir => Comp::Cur,
            Component::ParentDir => Comp::Up,
            Component::Normal(name) => Comp::Name(name@),
        }
    }
}

/// The components in `list`, as mathematical values.
pub open spec fn comps(list: Seq<Component>) -> Seq<Comp> {
    list.map_values(|c: Component| c@)
}

/// The stretches of `t` between its slashes: one more than there are slashes.
pub open spec fn pieces(t: Seq<char>) -> Seq<Seq<char>>
    decreases t.len(),
{
    if t.len() == 0 {
        seq![Seq::empty()]
    } else {
        let before = pieces(t.drop_last());
        if t.last() == '/' {
            before.push(Seq::empty())
        } else {
            before.drop_last().push(before.last().push(t.last()))
        }
    }
}

/// What one piece contributes: nothing for an empty piece or a `.` that is not
/// the first, one component otherwise.
pub open spec fn piece_comps(piece: Seq<char>, first: bool) -> Seq<Comp> {
    if piece.len() == 0 {
        Seq::empty()
    } else if piece == seq!['.'] {
        if first {
            seq![Comp::Cur]
        } else {
            Seq::empty()
        }
    } else if piece == seq!['.', '.'] {
        seq![Comp::Up]
    } else {
        seq![Comp::Name(piece)]
    }
}

/// The components that a list of pieces stands for.
pub open spec fn pieces_comps(ps: Seq<Seq<char>>) -> Seq<Comp>
    decreases ps.len(),
{
    if ps.len() == 0 {
        Seq::empty()
    } else {
        pieces_comps(ps.drop_last()) + piece_comps(ps.last(), ps.len() == 1)
    }
}

/// The components of the path text `t`.
pub open spec fn components(t: Seq<char>) -> Seq<Comp> {
    let root: Seq<Comp> = if t.len() > 0 && t[0] == '/' {
        seq![Comp::Root]
    } else {
        Seq::empty()
    };
    root + pieces_comps(pieces(t))
}

/// How one component is written.
pub open spec fn comp_text(c: Comp) -> Seq<char> {
    match c {
        Comp::Root => seq!['/'],
        Comp::Cur => seq!['.'],
        Comp::Up => seq!['.', '.'],
        Comp::Name(name) => name,
    }
}

/// How each component of `cs` is written.
pub open spec fn comp_texts(cs: Seq<Comp>) -> Seq<Seq<char>> {
    cs.map_values(|c: Comp| comp_text(c))
}

/// Whether `cs` begins at the root.
pub open spec fn rooted(cs: Seq<Comp>) -> bool {
    cs.len() > 0 && cs[0] == Comp::Root
}

/// The canonical text of a component list.
pub open spec fn path_text(cs: Seq<Comp>) -> Seq<char> {
    if rooted(cs) {
        seq!['/'] + joined(comp_texts(cs.drop_first()), seq!['/'])
    } else {
        joined(comp_texts(cs), seq!['/'])
    }
}

/// Whether `name` can stand as a name: not empty, no slash, not `.` or `..`.
pub open spec fn valid_name(name: Seq<char>) -> bool {
    &&& name.len() > 0
    &&& !name.contains('/')
    &&& name != seq!['.']
    &&& name != seq!['.', '.']
}

/// Whether `cs` can be the component list of some path: a root or a `.` only in
/// front, and every name valid.
pub open spec fn well_formed(cs: Seq<Comp>) -> bool {
    forall|i: int|
        0 <= i < cs.len() ==> match #[trigger] cs[i] {
            Comp::Root => i == 0,
            Comp::Cur => i == 0,
            Comp::Up => true,
            Comp::Name(name) => valid_name(name),
        }
}

/// `out` followed by `c`, with `.` dropped and a name cancelled by the `..`
/// after it.
pub open spec fn push_comp(out: Seq<Comp>, c: Comp) -> Seq<Comp> {
    match c {
        Comp::Cur => out,
        Comp::Up => if out.len() > 0 && out.last() is Name {
            out.drop_last()
        } else {
            out.push(c)
        },
        _ => out.push(c),
    }
}

/// The lexical normal form of a component list.
pub open spec fn normal_form(cs: Seq<Comp>) -> Seq<Comp>
    decreases cs.len(),
{
    if cs.len() == 0 {
        Seq::empty()
    } else {
        push_comp(normal_form(cs.drop_last()), cs.last())
    }
}

/// Whether a component list is in normal form: no `.`, and no `..` after a name.
pub open spec fn is_normal(cs: Seq<Comp>) -> bool {
    &&& forall|i: int| 0 <= i < cs.len() ==> cs[i] != Comp::Cur
    &&& forall|i: int|
        0 < i < cs.len() && cs[i] == Comp::Up ==> !(#[trigger] cs[i - 1] is Name)
}

/// The components of the directory that holds `cs`: all but the last, and none
/// where there is nothing to take away.
pub open spec fn dir_comps(cs: Seq<Comp>) -> Seq<Comp> {
    if cs.len() > 0 && cs.last() != Comp::Root {
        cs.drop_last()
    } else {
        Seq::empty()
    }
}

/// The name at the end of `cs`, if it ends in one.
pub open spec fn last_name(cs: Seq<Comp>) -> Option<Seq<char>> {
    if cs.len() > 0 {
        match cs.last() {
            Comp::Name(name) => Some(name),
            _ => None,
        }
    } else {
        None
    }
}

/// The number of components `a` and `b` share from the front.
pub open spec fn common_len(a: Seq<Comp>, b: Seq<Comp>) -> nat
    decreases a.len(),
{
    if a.len() > 0 && b.len() > 0 && a[0] == b[0] {
        1 + common_len(a.drop_first(), b.drop_first())
    } else {
        0
    }
}

/// `n` times `..`.
pub open spec fn ups(n: nat) -> Seq<Comp> {
    Seq::new(n, |i: int| Comp::Up)
}

/// The components that lead from the directory `from` to `to`.
pub open spec fn route(from: Seq<Comp>, to: Seq<Comp>) -> Seq<Comp> {
    let k = common_len(from, to);
    ups((from.len() - k) as nat) + to.skip(k as int)
}

/// The text of that route: `.` where there is nowhere to go.
pub open spec fn route_text(from: Seq<Comp>, to: Seq<Comp>) -> Seq<char> {
    let r = route(from, to);
    if r.len() == 0 {
        seq!['.']
    } else {
        joined(comp_texts(r), seq!['/'])
    }
}

/// The components reached by writing `target` in the document at `doc`.
pub open spec fn target_comps(doc: Seq<Comp>, target: Seq<Comp>) -> Seq<Comp> {
    if rooted(target) {
        normal_form(target)
    } else {
        normal_form(dir_comps(doc) + target)
    }
}

// ---- text and components ----

proof fn lemma_pieces_nonempty(t: Seq<char>)
    ensures
        pieces(t).len() > 0,
    decreases t.len(),
{
    if t.len() > 0 {
        lemma_pieces_nonempty(t.drop_last());
    }
}

/// No piece holds a slash.
proof fn lemma_pieces_slashless(t: Seq<char>)
    ensures
        forall|i: int| 0 <= i < pieces(t).len() ==> !(#[trigger] pieces(t)[i]).contains('/'),
    decreases t.len(),
{
    if t.len() > 0 {
        let before = pieces(t.drop_last());
        lemma_pieces_nonempty(t.drop_last());
        lemma_pieces_slashless(t.drop_last());
        assert forall|i: int| 0 <= i < pieces(t).len() implies !(#[trigger] pieces(
            t,
        )[i]).contains('/') by {
            if t.last() == '/' {
                if i < before.len() {
                    assert(pieces(t)[i] == before[i]);
                }
            } else if i < before.len() - 1 {
                assert(pieces(t)[i] == before[i]);
            } else {
                let b = before.last();
                assert(!before[before.len() - 1].contains('/'));
                assert forall|j: int| 0 <= j < b.push(t.last()).len() implies b.push(
                    t.last(),
                )[j] != '/' by {
                    if j < b.len() {
                        assert(b[j] != '/');
                    }
                }
            }
        }
    }
}

/// Appending slashless text only extends the last piece.
proof fn lemma_pieces_extend(x: Seq<char>, y: Seq<char>)
    requires
        !y.contains('/'),
    ensures
        pieces(x + y) == pieces(x).drop_last().push(pieces(x).last() + y),
    decreases y.len(),
{
    lemma_pieces_nonempty(x);
    if y.len() == 0 {
        assert(x + y == x);
        assert(pieces(x).last() + y == pieces(x).last());
        assert(pieces(x).drop_last().push(pieces(x).last()) == pieces(x));
    } else {
        let y0 = y.drop_last();
        assert(!y0.contains('/')) by {
            if y0.contains('/') {
                let j = choose|j: int| 0 <= j < y0.len() && y0[j] == '/';
                assert(y[j] == '/');
            }
        }
        lemma_pieces_extend(x, y0);
        assert((x + y).drop_last() == x + y0);
        assert((x + y).last() == y.last());
        assert(y[y.len() - 1] != '/');
        assert((pieces(x).last() + y0).push(y.last()) == pieces(x).last() + y);
        assert(pieces(x + y) == pieces(x).drop_last().push(pieces(x).last() + y));
    }
}

/// Splitting what was joined gives the list back.
proof fn lemma_pieces_of_joined(ts: Seq<Seq<char>>)
    requires
        ts.len() > 0,
        forall|i: int| 0 <= i < ts.len() ==> !(#[trigger] ts[i]).contains('/'),
    ensures
        pieces(joined(ts, seq!['/'])) == ts,
    decreases ts.len(),
{
    let e: Seq<char> = Seq::empty();
    if ts.len() == 1 {
        lemma_pieces_extend(e, ts[0]);
        assert(e + ts[0] == ts[0]);
        assert(pieces(e) == seq![e]);
        assert(pieces(ts[0]) == ts);
    } else {
        let front = ts.drop_last();
        let x = joined(front, seq!['/']);
        lemma_pieces_of_joined(front);
        let xs = x + seq!['/'];
        assert(xs.drop_last() == x);
        assert(pieces(xs) == pieces(x).push(e));
        lemma_pieces_extend(xs, ts.last());
        assert(e + ts.last() == ts.last());
        assert(pieces(xs).drop_last() == front);
        assert(front.push(ts.last()) == ts);
    }
}

/// The pieces of a well-formed rootless list stand for that list again.
proof fn lemma_pieces_comps_of_texts(pre: nat, cs: Seq<Comp>)
    requires
        well_formed(cs),
        !rooted(cs),
        pre <= 1,
        pre == 1 && cs.len() > 0 ==> cs[0] != Comp::Cur,
    ensures
        pieces_comps(Seq::new(pre, |i: int| Seq::<char>::empty()) + comp_texts(cs)) == cs,
    decreases cs.len(),
{
    let head = Seq::new(pre, |i: int| Seq::<char>::empty());
    let ps = head + comp_texts(cs);
    if cs.len() == 0 {
        assert(ps == head);
        if pre == 1 {
            assert(head.drop_last() == Seq::<Seq<char>>::empty());
            assert(pieces_comps(head) == pieces_comps(head.drop_last()) + piece_comps(
                head.last(),
                true,
            ));
        }
        assert(pieces_comps(ps) == cs);
    } else {
        let c = cs.last();
        assert(cs[cs.len() - 1] == c);
        assert(ps.drop_last() == head + comp_texts(cs.drop_last()));
        assert(ps.last() == comp_text(c));
        assert(well_formed(cs.drop_last())) by {
            assert forall|i: int| 0 <= i < cs.drop_last().len() implies match #[trigger] cs.drop_last()[i] {
                Comp::Root => i == 0,
                Comp::Cur => i == 0,
                Comp::Up => true,
                Comp::Name(name) => valid_name(name),
            } by {
                assert(cs.drop_last()[i] == cs[i]);
            }
        }
        lemma_pieces_comps_of_texts(pre, cs.drop_last());
        assert(c != Comp::Root);
        assert(c == Comp::Cur ==> ps.len() == 1);
        assert(piece_comps(comp_text(c), ps.len() == 1) == seq![c]) by {
            assert(seq!['.', '.'].len() == 2);
            assert(seq!['.'].len() == 1);
        }
        assert(cs.drop_last() + seq![c] == cs);
    }
}

proof fn lemma_texts_slashless(cs: Seq<Comp>)
    requires
        well_formed(cs),
        !rooted(cs),
    ensures
        forall|i: int|
            0 <= i < cs.len() ==> !(#[trigger] comp_texts(cs)[i]).contains('/') && comp_texts(
                cs,
            )[i].len() > 0,
{
    assert forall|i: int| 0 <= i < cs.len() implies !(#[trigger] comp_texts(cs)[i]).contains('/')
        && comp_texts(cs)[i].len() > 0 by {
        assert(comp_texts(cs)[i] == comp_text(cs[i]));
        match cs[i] {
            Comp::Root => {},
            Comp::Cur => {
                assert(seq!['.'][0] != '/');
            },
            Comp::Up => {
                assert(seq!['.', '.'][0] != '/' && seq!['.', '.'][1] != '/');
            },
            Comp::Name(name) => {},
        }
    }
}

/// The first character of joined nonempty texts is that of the first text.
proof fn lemma_joined_first(ts: Seq<Seq<char>>, sep: Seq<char>)
    requires
        ts.len() > 0,
        ts[0].len() > 0,
    ensures
        joined(ts, sep).len() > 0,
        joined(ts, sep)[0] == ts[0][0],
    decreases ts.len(),
{
    if ts.len() > 1 {
        lemma_joined_first(ts.drop_last(), sep);
    }
}

/// Joining an empty text in front puts one separator in front.
proof fn lemma_joined_empty_front(ts: Seq<Seq<char>>, sep: Seq<char>)
    requires
        ts.len() > 0,
    ensures
        joined(seq![Seq::<char>::empty()] + ts, sep) == sep + joined(ts, sep),
    decreases ts.len(),
{
    let all = seq![Seq::<char>::empty()] + ts;
    assert(all.drop_last() == seq![Seq::<char>::empty()] + ts.drop_last());
    assert(all.last() == ts.last());
    if ts.len() == 1 {
        assert(all.drop_last() == seq![Seq::<char>::empty()]);
        assert(joined(all.drop_last(), sep) == Seq::<char>::empty());
        assert(Seq::<char>::empty() + sep + ts[0] == sep + ts[0]);
    } else {
        lemma_joined_empty_front(ts.drop_last(), sep);
        assert((sep + joined(ts.drop_last(), sep)) + sep + ts.last() == sep + (joined(
            ts.drop_last(),
            sep,
        ) + sep + ts.last()));
    }
}

/// Law: the canonical text of a well-formed component list has that list as its
/// components.
pub proof fn path_text_reads_back(cs: Seq<Comp>)
    requires
        well_formed(cs),
    ensures
        components(path_text(cs)) == cs,
{
    let e: Seq<char> = Seq::empty();
    if rooted(cs) {
        let rest = cs.drop_first();
        assert forall|i: int| 0 <= i < rest.len() implies rest[i] == cs[i + 1] by {}
        assert(well_formed(rest) && (rest.len() > 0 ==> rest[0] != Comp::Cur && rest[0]
            != Comp::Root)) by {
            assert forall|i: int| 0 <= i < rest.len() implies match #[trigger] rest[i] {
                Comp::Root => false,
                Comp::Cur => false,
                Comp::Up => true,
                Comp::Name(name) => valid_name(name),
            } by {
                assert(rest[i] == cs[i + 1]);
            }
        }
        let t = path_text(cs);
        lemma_pieces_comps_of_texts(1, rest);
        let head = Seq::new(1, |i: int| Seq::<char>::empty());
        assert(head == seq![e]);
        assert(t[0] == '/');
        if rest.len() == 0 {
            assert(comp_texts(rest) == Seq::<Seq<char>>::empty());
            assert(t == seq!['/']);
            assert(t.drop_last() == e);
            assert(pieces(e) == seq![e]);
            assert(pieces(t) == seq![e, e]);
            assert(seq![e, e].drop_last() == seq![e]);
            assert(seq![e].drop_last() == Seq::<Seq<char>>::empty());
            assert(pieces_comps(seq![e]) == Seq::<Comp>::empty());
            assert(pieces_comps(pieces(t)) == Seq::<Comp>::empty());
        } else {
            lemma_texts_slashless(rest);
            let ts = seq![e] + comp_texts(rest);
            assert forall|i: int| 0 <= i < ts.len() implies !(#[trigger] ts[i]).contains('/') by {
                if i > 0 {
                    assert(ts[i] == comp_texts(rest)[i - 1]);
                }
            }
            lemma_joined_empty_front(comp_texts(rest), seq!['/']);
            lemma_pieces_of_joined(ts);
        }
        assert(seq![Comp::Root] + rest == cs);
    } else if cs.len() == 0 {
        assert(comp_texts(cs) == Seq::<Seq<char>>::empty());
        assert(path_text(cs) == e);
        assert(pieces(e) == seq![e]);
        assert(seq![e].drop_last() == Seq::<Seq<char>>::empty());
        reveal_with_fuel(pieces_comps, 2);
        assert(pieces_comps(seq![e]) == Seq::<Comp>::empty());
    } else {
        lemma_texts_slashless(cs);
        let ts = comp_texts(cs);
        assert(ts[0].len() > 0 && !ts[0].contains('/'));
        lemma_joined_first(ts, seq!['/']);
        assert(ts[0][0] != '/');
        lemma_pieces_of_joined(ts);
        lemma_pieces_comps_of_texts(0, cs);
        assert(Seq::new(0, |i: int| e) + ts == ts);
        assert(Seq::<Comp>::empty() + cs == cs);
    }
}

/// The components of any text are well-formed.
pub proof fn lemma_components_well_formed(t: Seq<char>)
    ensures
        well_formed(components(t)),
{
    lemma_pieces_slashless(t);
    lemma_pieces_comps_well_formed(pieces(t));
    let pc = pieces_comps(pieces(t));
    if t.len() > 0 && t[0] == '/' {
        lemma_pieces_first_empty(t);
        let ps = pieces(t);
        lemma_pieces_comps_no_cur(ps);
        assert forall|i: int| 0 <= i < components(t).len() implies match #[trigger] components(t)[i] {
            Comp::Root => i == 0,
            Comp::Cur => i == 0,
            Comp::Up => true,
            Comp::Name(name) => valid_name(name),
        } by {
            if i > 0 {
                assert(components(t)[i] == pc[i - 1]);
            }
        }
    } else {
        assert(components(t) == pc);
    }
}

/// Text that does not start with a slash has no root.
pub proof fn lemma_components_rootless(t: Seq<char>)
    requires
        t.len() == 0 || t[0] != '/',
    ensures
        !rooted(components(t)),
{
    lemma_pieces_slashless(t);
    lemma_pieces_comps_well_formed(pieces(t));
    assert(components(t) =~= pieces_comps(pieces(t)));
}

/// The first piece of text that starts with a slash is empty.
proof fn lemma_pieces_first_empty(t: Seq<char>)
    requires
        t.len() > 0,
        t[0] == '/',
    ensures
        pieces(t).len() > 1,
        pieces(t)[0].len() == 0,
    decreases t.len(),
{
    lemma_pieces_nonempty(t.drop_last());
    if t.len() == 1 {
        assert(t.drop_last() == Seq::<char>::empty());
        assert(pieces(t.drop_last()) == seq![Seq::<char>::empty()]);
    } else {
        lemma_pieces_first_empty(t.drop_last());
    }
}

/// Where the first piece is not a `.`, no component is.
proof fn lemma_pieces_comps_no_cur(ps: Seq<Seq<char>>)
    requires
        ps.len() > 0 ==> ps[0].len() == 0,
    ensures
        forall|i: int| 0 <= i < pieces_comps(ps).len() ==> pieces_comps(ps)[i] != Comp::Cur,
    decreases ps.len(),
{
    if ps.len() > 0 {
        lemma_pieces_comps_no_cur(ps.drop_last());
    }
}

/// Slashless pieces stand for a well-formed list without a root.
proof fn lemma_pieces_comps_well_formed(ps: Seq<Seq<char>>)
    requires
        forall|i: int| 0 <= i < ps.len() ==> !(#[trigger] ps[i]).contains('/'),
    ensures
        well_formed(pieces_comps(ps)),
        forall|i: int| 0 <= i < pieces_comps(ps).len() ==> pieces_comps(ps)[i] != Comp::Root,
    decreases ps.len(),
{
    if ps.len() > 0 {
        let front = ps.drop_last();
        assert forall|i: int| 0 <= i < front.len() implies !(#[trigger] front[i]).contains('/') by {
            assert(front[i] == ps[i]);
        }
        lemma_pieces_comps_well_formed(front);
        assert(!ps[ps.len() - 1].contains('/'));
        let a = pieces_comps(front);
        let b = piece_comps(ps.last(), ps.len() == 1);
        if ps.len() == 1 {
            assert(front.len() == 0);
            assert(a == Seq::<Comp>::empty());
        }
        assert forall|i: int| 0 <= i < (a + b).len() implies match #[trigger] (a + b)[i] {
            Comp::Root => false,
            Comp::Cur => i == 0,
            Comp::Up => true,
            Comp::Name(name) => valid_name(name),
        } by {
            if i < a.len() {
                assert((a + b)[i] == a[i]);
            } else {
                assert((a + b)[i] == b[i - a.len()]);
            }
        }
    }
}

// ---- normal form ----

/// Whether a root stands only in front, and every name is valid.
pub open spec fn names_valid(cs: Seq<Comp>) -> bool {
    forall|i: int|
        0 <= i < cs.len() ==> match #[trigger] cs[i] {
            Comp::Root => i == 0,
            Comp::Name(name) => valid_name(name),
            _ => true,
        }
}

/// Law: a normal form has no `.`, no `..` after a name, and is well-formed.
pub proof fn normal_form_is_normal(cs: Seq<Comp>)
    requires
        names_valid(cs),
    ensures
        is_normal(normal_form(cs)),
        well_formed(normal_form(cs)),
        normal_form(cs).len() <= cs.len(),
        rooted(normal_form(cs)) == rooted(cs),
    decreases cs.len(),
{
    if cs.len() > 0 {
        let front = cs.drop_last();
        let c = cs.last();
        assert(cs[cs.len() - 1] == c);
        assert(names_valid(front)) by {
            assert forall|i: int| 0 <= i < front.len() implies match #[trigger] front[i] {
                Comp::Root => i == 0,
                Comp::Name(name) => valid_name(name),
                _ => true,
            } by {
                assert(front[i] == cs[i]);
            }
        }
        normal_form_is_normal(front);
        let n = normal_form(front);
        let r = push_comp(n, c);
        assert(front.len() > 0 ==> front[0] == cs[0]);
        assert forall|i: int| 0 <= i < r.len() implies match #[trigger] r[i] {
            Comp::Root => i == 0,
            Comp::Cur => false,
            Comp::Up => true,
            Comp::Name(name) => valid_name(name),
        } by {
            if i < n.len() {
                assert(r[i] == n[i]);
            }
        }
        assert forall|i: int| 0 < i < r.len() && r[i] == Comp::Up implies !(#[trigger] r[i - 1] is Name) by {
            assert(r[i - 1] == n[i - 1]);
            if i < n.len() {
                assert(r[i] == n[i]);
            }
        }
        if c == Comp::Root {
            assert(cs.len() == 1);
        }
    }
}

/// Law: a list in normal form is its own normal form.
pub proof fn normal_form_of_normal(cs: Seq<Comp>)
    requires
        is_normal(cs),
    ensures
        normal_form(cs) == cs,
    decreases cs.len(),
{
    if cs.len() > 0 {
        let front = cs.drop_last();
        assert forall|i: int| 0 <= i < front.len() implies front[i] == cs[i] by {}
        assert forall|i: int| 0 < i < front.len() && front[i] == Comp::Up implies !(
        #[trigger] front[i - 1] is Name) by {
            assert(cs[i - 1] == front[i - 1] && cs[i] == front[i]);
        }
        normal_form_of_normal(front);
        assert(cs[cs.len() - 1] == cs.last());
        if front.len() > 0 {
            assert(cs[cs.len() - 1 - 1] == front.last());
        }
        assert(front.push(cs.last()) == cs);
    }
}

/// Normalizing goes on from the normal form of a prefix.
proof fn lemma_normal_form_append(a: Seq<Comp>, b: Seq<Comp>)
    ensures
        normal_form(a + b) == normal_form(normal_form(a) + b) || !is_normal(normal_form(a)),
    decreases b.len(),
{
    if is_normal(normal_form(a)) {
        if b.len() == 0 {
            assert(a + b == a);
            assert(normal_form(a) + b == normal_form(a));
            normal_form_of_normal(normal_form(a));
        } else {
            lemma_normal_form_append(a, b.drop_last());
            assert((a + b).drop_last() == a + b.drop_last());
            assert((normal_form(a) + b).drop_last() == normal_form(a) + b.drop_last());
        }
    }
}

// ---- routes ----

/// What is common stands at the front of both.
proof fn lemma_common(a: Seq<Comp>, b: Seq<Comp>)
    ensures
        common_len(a, b) <= a.len(),
        common_len(a, b) <= b.len(),
        a.take(common_len(a, b) as int) == b.take(common_len(a, b) as int),
    decreases a.len(),
{
    if a.len() > 0 && b.len() > 0 && a[0] == b[0] {
        let a1 = a.drop_first();
        let b1 = b.drop_first();
        lemma_common(a1, b1);
        let k = common_len(a1, b1);
        assert forall|i: int| 0 <= i < 1 + k implies a[i] == b[i] by {
            if i > 0 {
                assert(a[i] == a1.take(k as int)[i - 1]);
                assert(b[i] == b1.take(k as int)[i - 1]);
            }
        }
        assert(a.take(1 + k as int) == b.take(1 + k as int));
    } else {
        assert(a.take(0) == b.take(0));
    }
}

/// `m` times `..` take `m` names away.
proof fn lemma_ups_pop(base: Seq<Comp>, m: nat)
    requires
        is_normal(base),
        m <= base.len(),
        forall|i: int| base.len() - m <= i < base.len() ==> #[trigger] base[i] is Name,
    ensures
        normal_form(base + ups(m)) == base.take(base.len() - m),
    decreases m,
{
    if m == 0 {
        assert(base + ups(0) == base);
        assert(base.take(base.len() as int) == base);
        normal_form_of_normal(base);
    } else {
        let m1 = (m - 1) as nat;
        lemma_ups_pop(base, m1);
        let all = base + ups(m);
        assert(all.drop_last() == base + ups(m1));
        assert(all.last() == Comp::Up);
        let n = base.take(base.len() - m1);
        assert(n.last() == base[base.len() - m]);
        assert(n.drop_last() == base.take(base.len() - m));
    }
}

/// Appending the tail of a list in normal form to its front gives the list.
proof fn lemma_normal_form_rebuild(to: Seq<Comp>, k: int)
    requires
        is_normal(to),
        0 <= k <= to.len(),
    ensures
        normal_form(to.take(k) + to.skip(k)) == to,
{
    assert(to.take(k) + to.skip(k) == to);
    normal_form_of_normal(to);
}

/// Whether a route from the directory `from` can lead to `to`: what `from` has
/// beyond the common front is all names, and a root is reached only from a root.
pub open spec fn routable(from: Seq<Comp>, to: Seq<Comp>) -> bool {
    &&& rooted(from) == rooted(to)
    &&& forall|i: int| common_len(from, to) <= i < from.len() ==> #[trigger] from[i] is Name
}

/// Law: the route from a directory to a path leads there.
pub proof fn route_arrives(from: Seq<Comp>, to: Seq<Comp>)
    requires
        is_normal(from),
        is_normal(to),
        routable(from, to),
    ensures
        normal_form(from + route(from, to)) == to,
{
    let k = common_len(from, to);
    lemma_common(from, to);
    let m = (from.len() - k) as nat;
    let up = ups(m);
    let tail = to.skip(k as int);
    lemma_ups_pop(from, m);
    assert(from.take(from.len() - m) == to.take(k as int));
    assert(is_normal(to.take(k as int))) by {
        assert forall|i: int| 0 <= i < k implies to.take(k as int)[i] == to[i] by {}
        assert forall|i: int| 0 < i < k && to.take(k as int)[i] == Comp::Up implies !(
        #[trigger] to.take(k as int)[i - 1] is Name) by {
            assert(to[i - 1] == to.take(k as int)[i - 1]);
        }
    }
    lemma_normal_form_append(from + up, tail);
    lemma_normal_form_rebuild(to, k as int);
    assert(from + route(from, to) == (from + up) + tail);
}

/// The route to a normal path, from a directory it can be reached from, is
/// well-formed and has neither a root nor a `.`.
proof fn lemma_route_well_formed(from: Seq<Comp>, to: Seq<Comp>)
    requires
        is_normal(to),
        well_formed(to),
        rooted(from) == rooted(to),
    ensures
        well_formed(route(from, to)),
        !rooted(route(from, to)),
{
    let k = common_len(from, to);
    lemma_common(from, to);
    let m = (from.len() - k) as nat;
    let r = route(from, to);
    if rooted(to) {
        assert(from[0] == to[0]);
        assert(k >= 1);
    }
    assert forall|i: int| 0 <= i < r.len() implies match #[trigger] r[i] {
        Comp::Root => false,
        Comp::Cur => false,
        Comp::Up => true,
        Comp::Name(name) => valid_name(name),
    } by {
        if i >= m {
            assert(r[i] == to[i - m + k]);
        }
    }
}

/// The text of a route has the route as its components, but for the `.` that
/// stands for the empty route.
proof fn lemma_route_text_reads_back(from: Seq<Comp>, to: Seq<Comp>)
    requires
        is_normal(to),
        well_formed(to),
        rooted(from) == rooted(to),
    ensures
        components(route_text(from, to)) == if route(from, to).len() == 0 {
            seq![Comp::Cur]
        } else {
            route(from, to)
        },
{
    let r = route(from, to);
    lemma_route_well_formed(from, to);
    if r.len() == 0 {
        let dot = seq![Comp::Cur];
        assert(comp_texts(dot) == seq![seq!['.']]);
        assert(path_text(dot) == seq!['.']);
        path_text_reads_back(dot);
    } else {
        path_text_reads_back(r);
    }
}

/// Law: the text of a route read behind its directory reaches the path. It has no root, and
/// no component but those of the route.
pub proof fn route_text_leads(from: Seq<Comp>, to: Seq<Comp>)
    requires
        is_normal(from),
        is_normal(to),
        well_formed(to),
        routable(from, to),
    ensures
        normal_form(from + components(route_text(from, to))) == to,
        !rooted(components(route_text(from, to))),
        route(from, to).len() > 0 ==> components(route_text(from, to)) == route(from, to),
{
    lemma_route_text_reads_back(from, to);
    lemma_route_well_formed(from, to);
    route_arrives(from, to);
    if route(from, to).len() == 0 {
        assert(from + route(from, to) == from);
        assert((from + seq![Comp::Cur]).drop_last() == from);
        assert(normal_form(from + seq![Comp::Cur]) == normal_form(from));
    }
}

/// Law: writing the route from a document's directory to a path as a target in
/// that document reaches the path.
pub proof fn route_text_arrives(doc: Seq<Comp>, to: Seq<Comp>)
    requires
        is_normal(dir_comps(doc)),
        is_normal(to),
        well_formed(to),
        routable(dir_comps(doc), to),
    ensures
        target_comps(doc, components(route_text(dir_comps(doc), to))) == to,
{
    route_text_leads(dir_comps(doc), to);
}

/// A list is common with itself from end to end.
proof fn lemma_common_with_itself(a: Seq<Comp>)
    ensures
        common_len(a, a) == a.len(),
    decreases a.len(),
{
    if a.len() > 0 {
        lemma_common_with_itself(a.drop_first());
    }
}

/// Law: there is nowhere to go exactly from a directory to itself.
pub proof fn route_is_empty_to_itself(from: Seq<Comp>, to: Seq<Comp>)
    ensures
        route(from, to).len() == 0 <==> from == to,
{
    lemma_common(from, to);
    lemma_common_with_itself(from);
    if route(from, to).len() == 0 {
        assert(from.take(from.len() as int) =~= from);
        assert(to.take(to.len() as int) =~= to);
    }
}

/// Law: the text of a route is never empty, and neither is any stretch of it between
/// slashes. It is `.` exactly where there is nowhere to go.
pub proof fn route_text_is_clean(from: Seq<Comp>, to: Seq<Comp>)
    requires
        is_normal(to),
        well_formed(to),
        rooted(from) == rooted(to),
    ensures
        forall|i: int|
            0 <= i < pieces(route_text(from, to)).len() ==> (#[trigger] pieces(
                route_text(from, to),
            )[i]).len() > 0,
        route_text(from, to) == seq!['.'] <==> from == to,
{
    let r = route(from, to);
    route_is_empty_to_itself(from, to);
    lemma_route_well_formed(from, to);
    lemma_route_text_reads_back(from, to);
    let t = route_text(from, to);
    if r.len() == 0 {
        let ts = seq![seq!['.']];
        assert(ts[0][0] == '.');
        lemma_pieces_of_joined(ts);
        assert(joined(ts, seq!['/']) == seq!['.']);
    } else {
        lemma_texts_slashless(r);
        lemma_pieces_of_joined(comp_texts(r));
        if t == seq!['.'] {
            let dot = seq![Comp::Cur];
            assert(comp_texts(dot) == seq![seq!['.']]);
            assert(path_text(dot) == seq!['.']);
            path_text_reads_back(dot);
            assert(r[0] == Comp::Cur);
            let k = common_len(from, to);
            lemma_common(from, to);
            assert(false) by {
                if from.len() == k {
                    assert(r[0] == to[k as int]);
                }
            }
        }
    }
}

/// How many components a list has beyond what it shares with `to`, and `to` beyond what it
/// shares with the list.
spec fn distance(s: Seq<Comp>, to: Seq<Comp>) -> int {
    s.len() + to.len() - 2 * common_len(s, to)
}

/// One more component is shared, or not.
proof fn lemma_common_push(s: Seq<Comp>, c: Comp, to: Seq<Comp>)
    ensures
        common_len(s.push(c), to) == common_len(s, to) || (common_len(s, to) == s.len()
            && common_len(s.push(c), to) == s.len() + 1),
    decreases s.len(),
{
    let p = s.push(c);
    if s.len() == 0 {
        assert(p.drop_first() =~= Seq::empty());
        assert(common_len(p.drop_first(), to.drop_first()) == 0);
    } else {
        assert(p[0] == s[0]);
        assert(p.drop_first() =~= s.drop_first().push(c));
        if to.len() > 0 && s[0] == to[0] {
            lemma_common_push(s.drop_first(), c, to.drop_first());
        }
    }
}

/// A step takes a list at most one component nearer to `to`.
proof fn lemma_step(s: Seq<Comp>, c: Comp, to: Seq<Comp>)
    ensures
        distance(push_comp(s, c), to) >= distance(s, to) - 1,
{
    lemma_common_push(s, c, to);
    if s.len() > 0 {
        lemma_common_push(s.drop_last(), s.last(), to);
        assert(s.drop_last().push(s.last()) =~= s);
    }
}

/// So many components take a list at most so much nearer to `to`.
proof fn lemma_steps(from: Seq<Comp>, q: Seq<Comp>, to: Seq<Comp>)
    requires
        is_normal(from),
    ensures
        distance(normal_form(from + q), to) >= distance(from, to) - q.len(),
    decreases q.len(),
{
    if q.len() == 0 {
        assert(from + q =~= from);
        normal_form_of_normal(from);
    } else {
        lemma_steps(from, q.drop_last(), to);
        assert((from + q).drop_last() =~= from + q.drop_last());
        assert((from + q).last() == q.last());
        lemma_step(normal_form(from + q.drop_last()), q.last(), to);
    }
}

/// Law: no other components lead from a directory to a path in fewer steps than the route.
pub proof fn route_is_shortest(from: Seq<Comp>, to: Seq<Comp>, q: Seq<Comp>)
    requires
        is_normal(from),
        normal_form(from + q) == to,
    ensures
        route(from, to).len() <= q.len(),
{
    lemma_common(from, to);
    lemma_common_with_itself(to);
    lemma_steps(from, q, to);
}

// ---- joining ----

/// The text of `q` seen from `p`: `q` itself where it is rooted or `p` is empty, and otherwise
/// one behind the other with a slash between them.
pub open spec fn join_text(p: Seq<char>, q: Seq<char>) -> Seq<char> {
    if (q.len() > 0 && q[0] == '/') || p.len() == 0 {
        q
    } else if p.last() == '/' {
        p + q
    } else {
        p + seq!['/'] + q
    }
}

/// The pieces of two texts with a slash between them.
proof fn lemma_pieces_of_two(p: Seq<char>, q: Seq<char>)
    ensures
        pieces(p + seq!['/'] + q) == pieces(p) + pieces(q),
    decreases q.len(),
{
    let front = p + seq!['/'];
    lemma_pieces_nonempty(p);
    lemma_pieces_nonempty(q);
    if q.len() == 0 {
        assert(front + q =~= front);
        assert(front.drop_last() =~= p);
        assert(pieces(p) + pieces(q) =~= pieces(p).push(Seq::empty()));
    } else {
        let q0 = q.drop_last();
        lemma_pieces_of_two(p, q0);
        lemma_pieces_nonempty(q0);
        assert((front + q).drop_last() =~= front + q0);
        assert((front + q).last() == q.last());
        let a = pieces(p);
        let b = pieces(q0);
        assert((a + b).last() == b.last());
        assert((a + b).drop_last() =~= a + b.drop_last());
        if q.last() == '/' {
            assert((a + b).push(Seq::empty()) =~= a + b.push(Seq::empty()));
        } else {
            let last = b.last().push(q.last());
            assert((a + b.drop_last()).push(last) =~= a + b.drop_last().push(last));
        }
    }
}

/// Behind other pieces, pieces stand for what they stand for alone, but for a `.`.
proof fn lemma_pieces_behind(pre: Seq<Comp>, a: Seq<Seq<char>>, b: Seq<Seq<char>>)
    requires
        a.len() > 0,
    ensures
        normal_form(pre + pieces_comps(a + b)) == normal_form(
            pre + pieces_comps(a) + pieces_comps(b),
        ),
    decreases b.len(),
{
    let left = pre + pieces_comps(a + b);
    let right = pre + pieces_comps(a) + pieces_comps(b);
    if b.len() == 0 {
        assert(a + b =~= a);
        assert(right =~= pre + pieces_comps(a));
    } else {
        let b0 = b.drop_last();
        lemma_pieces_behind(pre, a, b0);
        assert((a + b).drop_last() =~= a + b0);
        assert((a + b).last() == b.last());
        let l0 = pre + pieces_comps(a + b0);
        let r0 = pre + pieces_comps(a) + pieces_comps(b0);
        let lc = piece_comps(b.last(), false);
        let rc = piece_comps(b.last(), b.len() == 1);
        assert(left =~= l0 + lc);
        assert(right =~= r0 + rc);
        if lc.len() == 0 {
            assert(left =~= l0);
            if rc.len() == 0 {
                assert(right =~= r0);
            } else {
                assert(rc == seq![Comp::Cur]);
                assert(right.drop_last() =~= r0);
                assert(right.last() == Comp::Cur);
            }
        } else {
            assert(lc == rc);
            assert(left.drop_last() =~= l0 && left.last() == lc[0]);
            assert(right.drop_last() =~= r0 && right.last() == rc[0]);
        }
    }
}

/// Law: joining texts is putting their components one behind the other, up to the normal
/// form.
pub proof fn join_appends_components(p: Seq<char>, q: Seq<char>)
    requires
        !rooted(components(q)),
    ensures
        normal_form(components(join_text(p, q))) == normal_form(components(p) + components(q)),
{
    let e: Seq<char> = Seq::empty();
    let t = join_text(p, q);
    let cq = pieces_comps(pieces(q));
    assert(components(q) =~= cq);
    lemma_pieces_nonempty(p);
    if p.len() == 0 {
        assert(p =~= e);
        assert(seq![e].drop_last() =~= Seq::empty());
        assert(pieces_comps(seq![e].drop_last()) =~= Seq::empty());
        assert(pieces_comps(pieces(p)) =~= Seq::empty());
        assert(components(p) + components(q) =~= components(q));
    } else {
        let root: Seq<Comp> = if p[0] == '/' {
            seq![Comp::Root]
        } else {
            Seq::empty()
        };
        let p0 = if p.last() == '/' {
            p.drop_last()
        } else {
            p
        };
        assert(t =~= p0 + seq!['/'] + q);
        assert(t[0] == p[0]);
        lemma_pieces_of_two(p0, q);
        lemma_pieces_nonempty(p0);
        lemma_pieces_behind(root, pieces(p0), pieces(q));
        assert(pieces_comps(pieces(p)) =~= pieces_comps(pieces(p0))) by {
            if p.last() == '/' {
                assert(pieces(p) == pieces(p0).push(e));
                assert(pieces(p).drop_last() =~= pieces(p0));
            }
        }
        assert(components(p) =~= root + pieces_comps(pieces(p0)));
    }
}

/// Law: normalizing before a join changes nothing, up to the normal form.
pub proof fn normalizing_before_a_join(p: Seq<char>, q: Seq<char>)
    ensures
        normal_form(components(join_text(path_text(normal_form(components(p))), q)))
            == normal_form(components(join_text(p, q))),
{
    let cp = components(p);
    let n = path_text(normal_form(cp));
    if q.len() == 0 || q[0] != '/' {
        lemma_components_rootless(q);
        lemma_components_well_formed(p);
        normal_form_is_normal(cp);
        path_text_reads_back(normal_form(cp));
        join_appends_components(p, q);
        join_appends_components(n, q);
        lemma_normal_form_append(cp, components(q));
    }
}

/// Behind other pieces, pieces end in the name they end in alone.
proof fn lemma_name_behind(a: Seq<Seq<char>>, b: Seq<Seq<char>>)
    requires
        a.len() > 0,
        last_name(pieces_comps(b)) is Some,
    ensures
        last_name(pieces_comps(a + b)) == last_name(pieces_comps(b)),
    decreases b.len(),
{
    let b0 = b.drop_last();
    assert((a + b).drop_last() =~= a + b0);
    assert((a + b).last() == b.last());
    let c = piece_comps(b.last(), b.len() == 1);
    if c.len() == 0 {
        assert(pieces_comps(b) =~= pieces_comps(b0));
        assert(pieces_comps(a + b) =~= pieces_comps(a + b0));
        lemma_name_behind(a, b0);
    } else {
        assert(pieces_comps(b).last() == c[0]);
        assert(c == piece_comps(b.last(), false));
        assert(pieces_comps(a + b).last() == c[0]);
    }
}

/// Law: a path that ends in a name ends in it wherever it is seen from, and nothing at all,
/// seen from a directory, goes by the name of the directory.
pub proof fn joined_path_keeps_its_name(p: Seq<char>, q: Seq<char>)
    ensures
        last_name(components(q)) is Some ==> last_name(components(join_text(p, q))) == last_name(
            components(q),
        ),
        q.len() == 0 ==> last_name(components(join_text(p, q))) == last_name(components(p)),
{
    let e: Seq<char> = Seq::empty();
    let t = join_text(p, q);
    if p.len() == 0 {
        assert(q.len() == 0 ==> q =~= p);
    } else if q.len() == 0 || q[0] != '/' {
        let p0 = if p.last() == '/' {
            p.drop_last()
        } else {
            p
        };
        assert(t =~= p0 + seq!['/'] + q);
        assert(t[0] == p[0]);
        lemma_pieces_of_two(p0, q);
        lemma_pieces_nonempty(p0);
        assert(components(q) =~= pieces_comps(pieces(q)));
        if last_name(components(q)) is Some {
            lemma_name_behind(pieces(p0), pieces(q));
            assert(components(t).last() == pieces_comps(pieces(t)).last());
        }
        if q.len() == 0 {
            assert(pieces(p0) + pieces(q) =~= pieces(p0).push(e));
            assert(pieces(t).drop_last() =~= pieces(p0));
            if p.last() == '/' {
                assert(pieces(p) == pieces(p0).push(e));
            }
            assert(pieces_comps(pieces(p)) =~= pieces_comps(pieces(p0))) by {
                if p.last() == '/' {
                    assert(pieces(p).drop_last() =~= pieces(p0));
                }
            }
            assert(components(t) =~= components(p));
        }
    }
}

// ---- executable ----

impl Component {
    /// A copy of this component.
    pub fn copy(&self) -> (r: Component)
        ensures
            r@ == self@,
    {
        match self {
            Component::RootDir => Component::RootDir,
            Component::CurDir => Component::CurDir,
            Component::ParentDir => Component::ParentDir,
            Component::Normal(name) => Component::Normal(name.clone()),
        }
    }

    /// Whether two components are the same.
    pub fn equals(&self, other: &Component) -> (r: bool)
        ensures
            r == (self@ == other@),
    {
        match (self, other) {
            (Component::RootDir, Component::RootDir) => true,
            (Component::CurDir, Component::CurDir) => true,
            (Component::ParentDir, Component::ParentDir) => true,
            (Component::Normal(a), Component::Normal(b)) => *a == *b,
            _ => false,
        }
    }

    /// How this component is written.
    pub fn written(&self) -> (r: String)
        ensures
            r@ == comp_text(self@),
    {
        proof {
            reveal_strlit("/");
            reveal_strlit(".");
            reveal_strlit("..");
        }
        match self {
            Component::RootDir => {
                let r = "/".to_owned();
                assert(r@ == seq!['/']);
                r
            },
            Component::CurDir => {
                let r = ".".to_owned();
                assert(r@ == seq!['.']);
                r
            },
            Component::ParentDir => {
                let r = "..".to_owned();
                assert(r@ == seq!['.', '.']);
                r
            },
            Component::Normal(name) => name.clone(),
        }
    }
}

/// The stretches of `path` between its slashes.
fn split(path: &str) -> (r: Vec<String>)
    ensures
        views(r@) == pieces(path@),
{
    let cs = chars_of(path);
    let mut out: Vec<String> = Vec::new();
    let mut cur = String::new();
    let mut i: usize = 0;
    assert(cs@.take(0) == Seq::<char>::empty());
    assert(views(out@).push(cur@) == pieces(cs@.take(0)));
    while i < cs.len()
        invariant
            i <= cs@.len(),
            views(out@).push(cur@) == pieces(cs@.take(i as int)),
        decreases cs.len() - i,
    {
        let c = cs[i];
        let ghost before = cs@.take(i as int);
        let ghost was = views(out@).push(cur@);
        assert(cs@.take(i + 1).drop_last() == before);
        assert(cs@.take(i + 1).last() == c);
        if c == '/' {
            let ghost done = cur@;
            out.push(cur);
            cur = String::new();
            assert(views(out@) == was);
        } else {
            cur.push(c);
            assert(was.drop_last() == views(out@));
        }
        i += 1;
    }
    assert(cs@.take(i as int) == path@);
    let ghost was = views(out@).push(cur@);
    out.push(cur);
    assert(views(out@) == was);
    out
}

/// The components of `path`.
pub fn parse(path: &str) -> (r: Vec<Component>)
    ensures
        comps(r@) == components(path@),
{
    proof {
        reveal_strlit(".");
        reveal_strlit("..");
        assert("."@ == seq!['.']);
        assert(".."@ == seq!['.', '.']);
    }
    let ps = split(path);
    let mut out: Vec<Component> = Vec::new();
    let ghost root: Seq<Comp> = if path@.len() > 0 && path@[0] == '/' {
        seq![Comp::Root]
    } else {
        Seq::empty()
    };
    if path.unicode_len() > 0 && path.get_char(0) == '/' {
        out.push(Component::RootDir);
    }
    assert(comps(out@) == root);
    let mut i: usize = 0;
    assert(views(ps@).take(0) == Seq::<Seq<char>>::empty());
    while i < ps.len()
        invariant
            i <= ps@.len(),
            "."@ == seq!['.'],
            ".."@ == seq!['.', '.'],
            comps(out@) == root + pieces_comps(views(ps@).take(i as int)),
        decreases ps.len() - i,
    {
        let ghost before = comps(out@);
        let p = &ps[i];
        assert(views(ps@).take(i + 1).drop_last() == views(ps@).take(i as int));
        assert(views(ps@).take(i + 1).last() == p@);
        if p.as_str().is_empty() {
            assert(before + Seq::<Comp>::empty() == before);
        } else if same(p.as_str(), ".") {
            if i == 0 {
                out.push(Component::CurDir);
                assert(comps(out@) == before.push(Comp::Cur));
            }
        } else if same(p.as_str(), "..") {
            out.push(Component::ParentDir);
            assert(comps(out@) == before.push(Comp::Up));
        } else {
            out.push(Component::Normal(p.clone()));
            assert(comps(out@) == before.push(Comp::Name(p@)));
        }
        i += 1;
        assert(comps(out@) == root + pieces_comps(views(ps@).take(i as int)));
    }
    assert(views(ps@).take(i as int) == views(ps@));
    out
}

/// The normal form of `list`.
pub fn normalize(list: &Vec<Component>) -> (r: Vec<Component>)
    ensures
        comps(r@) == normal_form(comps(list@)),
{
    let mut out: Vec<Component> = Vec::new();
    let mut i: usize = 0;
    let ghost all = comps(list@);
    assert(all.take(0) == Seq::<Comp>::empty());
    while i < list.len()
        invariant
            i <= list@.len(),
            all == comps(list@),
            comps(out@) == normal_form(all.take(i as int)),
        decreases list.len() - i,
    {
        let ghost before = comps(out@);
        let c = &list[i];
        assert(all.take(i + 1).drop_last() == all.take(i as int));
        assert(all.take(i + 1).last() == c@);
        match c {
            Component::CurDir => {},
            Component::ParentDir => {
                let folds = if out.len() > 0 {
                    match &out[out.len() - 1] {
                        Component::Normal(_) => true,
                        _ => false,
                    }
                } else {
                    false
                };
                assert(folds == (before.len() > 0 && before.last() is Name));
                if folds {
                    out.pop();
                    assert(comps(out@) == before.drop_last());
                } else {
                    out.push(Component::ParentDir);
                    assert(comps(out@) == before.push(Comp::Up));
                }
            },
            _ => {
                out.push(c.copy());
                assert(comps(out@) == before.push(c@));
            },
        }
        i += 1;
    }
    assert(all.take(i as int) == all);
    out
}

/// `list` from position `from` on, each component as it is written.
fn written_from(list: &Vec<Component>, from: usize) -> (r: Vec<String>)
    requires
        from <= list@.len(),
    ensures
        views(r@) == comp_texts(comps(list@).skip(from as int)),
{
    let mut out: Vec<String> = Vec::new();
    let mut i: usize = from;
    while i < list.len()
        invariant
            from <= i <= list@.len(),
            out@.len() == i - from,
            forall|j: int| 0 <= j < out@.len() ==> (#[trigger] out@[j])@ == comp_text(list@[from + j]@),
        decreases list.len() - i,
    {
        out.push(list[i].written());
        i += 1;
    }
    assert(views(out@) == comp_texts(comps(list@).skip(from as int)));
    out
}

/// The canonical text of `list`.
pub fn render(list: &Vec<Component>) -> (r: String)
    ensures
        r@ == path_text(comps(list@)),
{
    proof {
        reveal_strlit("/");
        assert("/"@ == seq!['/']);
    }
    let from_root = if list.len() > 0 {
        list[0].equals(&Component::RootDir)
    } else {
        false
    };
    if from_root {
        let rest = join(&written_from(list, 1), "/");
        assert(comps(list@).skip(1) == comps(list@).drop_first());
        let r = "/".to_owned().concat(rest.as_str());
        r
    } else {
        assert(comps(list@).skip(0) == comps(list@));
        join(&written_from(list, 0), "/")
    }
}

/// The components of the directory that holds the path `list`.
pub fn dir(list: &Vec<Component>) -> (r: Vec<Component>)
    ensures
        comps(r@) == dir_comps(comps(list@)),
{
    let mut out: Vec<Component> = Vec::new();
    if list.len() == 0 || list[list.len() - 1].equals(&Component::RootDir) {
        assert(comps(out@) == Seq::<Comp>::empty());
        return out;
    }
    let mut i: usize = 0;
    while i < list.len() - 1
        invariant
            list@.len() > 0,
            i <= list@.len() - 1,
            out@.len() == i,
            forall|j: int| 0 <= j < i ==> (#[trigger] out@[j])@ == list@[j]@,
        decreases list.len() - i,
    {
        out.push(list[i].copy());
        i += 1;
    }
    assert(comps(out@) == comps(list@).drop_last());
    out
}

/// Whether `a` and `b` have the same components.
pub fn same_components(a: &Vec<Component>, b: &Vec<Component>) -> (r: bool)
    ensures
        r == (comps(a@) == comps(b@)),
{
    if a.len() != b.len() {
        assert(comps(a@).len() != comps(b@).len());
        return false;
    }
    let mut i: usize = 0;
    while i < a.len()
        invariant
            i <= a@.len(),
            a@.len() == b@.len(),
            forall|j: int| 0 <= j < i ==> (#[trigger] a@[j])@ == b@[j]@,
        decreases a.len() - i,
    {
        if !a[i].equals(&b[i]) {
            assert(comps(a@)[i as int] != comps(b@)[i as int]);
            return false;
        }
        i += 1;
    }
    assert(comps(a@) == comps(b@));
    true
}

/// Whether `a` and `b` are the same path: the same components, however written.
pub fn same_path(a: &str, b: &str) -> (r: bool)
    ensures
        r == (components(a@) == components(b@)),
{
    same_components(&parse(a), &parse(b))
}

/// The number of components that `a` and `b` share from the front.
fn shared(a: &Vec<Component>, b: &Vec<Component>) -> (r: usize)
    ensures
        r == common_len(comps(a@), comps(b@)),
{
    let ghost ca = comps(a@);
    let ghost cb = comps(b@);
    let mut i: usize = 0;
    assert(ca.skip(0) == ca && cb.skip(0) == cb);
    while i < a.len() && i < b.len() && a[i].equals(&b[i])
        invariant
            ca == comps(a@),
            cb == comps(b@),
            i <= a@.len(),
            i <= b@.len(),
            common_len(ca, cb) == i + common_len(ca.skip(i as int), cb.skip(i as int)),
        decreases a.len() - i,
    {
        assert(ca.skip(i as int)[0] == a@[i as int]@);
        assert(cb.skip(i as int)[0] == b@[i as int]@);
        assert(ca.skip(i as int).drop_first() == ca.skip(i + 1));
        assert(cb.skip(i as int).drop_first() == cb.skip(i + 1));
        i += 1;
    }
    proof {
        if i < a.len() && i < b.len() {
            assert(ca.skip(i as int)[0] == a@[i as int]@);
            assert(cb.skip(i as int)[0] == b@[i as int]@);
        }
    }
    i
}

/// The text that leads from the directory `from` to `to`.
pub fn route_between(from: &Vec<Component>, to: &Vec<Component>) -> (r: String)
    ensures
        r@ == route_text(comps(from@), comps(to@)),
{
    proof {
        reveal_strlit("/");
        reveal_strlit(".");
        reveal_strlit("..");
        assert("/"@ == seq!['/']);
        assert("."@ == seq!['.']);
        assert(".."@ == seq!['.', '.']);
        lemma_common(comps(from@), comps(to@));
    }
    let k = shared(from, to);
    let ghost m = (from@.len() - k) as nat;
    let ghost tail = comps(to@).skip(k as int);
    let mut parts: Vec<String> = Vec::new();
    let mut i: usize = k;
    while i < from.len()
        invariant
            k <= i <= from@.len(),
            ".."@ == seq!['.', '.'],
            parts@.len() == i - k,
            forall|j: int| 0 <= j < parts@.len() ==> (#[trigger] parts@[j])@ == seq!['.', '.'],
        decreases from.len() - i,
    {
        parts.push("..".to_owned());
        i += 1;
    }
    let mut rest = written_from(to, k);
    let ghost rest_part = rest@;
    let ghost ups_part = parts@;
    parts.append(&mut rest);
    assert(parts@ == ups_part + rest_part);
    assert(views(rest_part).len() == tail.len());
    assert(views(parts@) == comp_texts(ups(m) + tail)) by {
        assert forall|j: int| 0 <= j < parts@.len() implies views(parts@)[j] == comp_texts(
            ups(m) + tail,
        )[j] by {
            if j < m {
                assert(parts@[j] == ups_part[j]);
            } else {
                assert(views(parts@)[j] == views(rest_part)[j - m]);
            }
        }
    }
    if parts.len() == 0 {
        ".".to_owned()
    } else {
        join(&parts, "/")
    }
}

/// The text of `q` seen from `p`.
pub fn join_paths(p: &str, q: &str) -> (r: String)
    ensures
        r@ == join_text(p@, q@),
{
    if p.unicode_len() == 0 || (q.unicode_len() > 0 && q.get_char(0) == '/') {
        return q.to_owned();
    }
    let mut out = p.to_owned();
    if p.get_char(p.unicode_len() - 1) != '/' {
        out.push('/');
        assert(out@ =~= p@ + seq!['/']);
    }
    out.append(q);
    out
}

/// Whether `path` begins at the root.
pub fn is_rooted(path: &str) -> (r: bool)
    ensures
        r == rooted(components(path@)),
{
    let list = parse(path);
    assert(comps(list@).len() == list@.len());
    if list.len() > 0 {
        list[0].equals(&Component::RootDir)
    } else {
        false
    }
}

/// The name at the end of `path`, if it ends in one.
pub fn file_name(path: &str) -> (r: Option<String>)
    ensures
        match r {
            Some(name) => last_name(components(path@)) == Some(name@),
            None => last_name(components(path@)) is None,
        },
{
    let list = parse(path);
    if list.len() == 0 {
        return None;
    }
    let ghost last = comps(list@).last();
    assert(last == list@[list@.len() - 1]@);
    match &list[list.len() - 1] {
        Component::Normal(name) => Some(name.clone()),
        _ => None,
    }
}

// ---- laws of what text says ----

/// A piece that says nothing can be left out between others.
proof fn lemma_piece_left_out(a: Seq<Seq<char>>, x: Seq<char>, b: Seq<Seq<char>>)
    requires
        a.len() > 0,
        piece_comps(x, false).len() == 0,
    ensures
        pieces_comps(a.push(x) + b) == pieces_comps(a + b),
    decreases b.len(),
{
    let long = a.push(x) + b;
    let short = a + b;
    if b.len() == 0 {
        assert(long.drop_last() =~= a);
        assert(short =~= a);
        assert(long.last() == x);
    } else {
        lemma_piece_left_out(a, x, b.drop_last());
        assert(long.drop_last() =~= a.push(x) + b.drop_last());
        assert(short.drop_last() =~= a + b.drop_last());
    }
}

/// A text without slashes is one piece.
proof fn lemma_pieces_of_name(name: Seq<char>)
    requires
        !name.contains('/'),
    ensures
        pieces(name) == seq![name],
{
    let e: Seq<char> = Seq::empty();
    lemma_pieces_extend(e, name);
    assert(e + name =~= name);
    assert(pieces(e) == seq![e]);
}

/// Law: a name behind a slash is one more component, and so is `..`.
pub proof fn names_stand_one_behind_the_other(p: Seq<char>, name: Seq<char>)
    requires
        p.len() > 0,
        valid_name(name),
    ensures
        components(p + seq!['/'] + name) == components(p).push(Comp::Name(name)),
        components(p + seq!['/', '.', '.']) == components(p).push(Comp::Up),
        components(name) == seq![Comp::Name(name)],
        components(seq!['/'] + name) == seq![Comp::Root, Comp::Name(name)],
{
    let up = seq!['.', '.'];
    assert(!up.contains('/'));
    lemma_pieces_of_name(name);
    lemma_pieces_of_name(up);
    lemma_pieces_of_two(p, name);
    lemma_pieces_of_two(p, up);
    lemma_pieces_nonempty(p);
    assert(p + seq!['/'] + up =~= p + seq!['/', '.', '.']);
    assert((pieces(p) + seq![name]).drop_last() =~= pieces(p));
    assert((pieces(p) + seq![up]).drop_last() =~= pieces(p));
    assert(components(p + seq!['/'] + name) =~= components(p).push(Comp::Name(name)));
    assert(components(p + seq!['/', '.', '.']) =~= components(p).push(Comp::Up));
    assert(seq![name].drop_last() =~= Seq::empty());
    assert(name[0] != '/') by {
        assert(name.contains(name[0]));
    }
    assert(pieces_comps(seq![name].drop_last()) =~= Seq::empty());
    assert(components(name) =~= seq![Comp::Name(name)]);
    let e: Seq<char> = Seq::empty();
    lemma_pieces_of_two(e, name);
    assert(e + seq!['/'] + name =~= seq!['/'] + name);
    assert((seq![e] + seq![name]).drop_last() =~= seq![e]);
    assert(seq![e].drop_last() =~= Seq::empty());
    assert(pieces_comps(seq![e].drop_last()) =~= Seq::empty());
    assert(pieces_comps(seq![e]) =~= Seq::empty());
    assert(components(seq!['/'] + name) =~= seq![Comp::Root, Comp::Name(name)]);
}

/// Law: a slash that is repeated or at the end says nothing, and neither does a `.` behind a
/// slash.
pub proof fn slashes_and_dots_say_nothing(p: Seq<char>, q: Seq<char>)
    requires
        p.len() > 0,
    ensures
        components(p + seq!['/']) == components(p),
        components(p + seq!['/', '/'] + q) == components(p + seq!['/'] + q),
        components(p + seq!['/', '.', '/'] + q) == components(p + seq!['/'] + q),
        components(Seq::empty()).len() == 0,
{
    let e: Seq<char> = Seq::empty();
    let dot = seq!['.'];
    assert(!dot.contains('/'));
    lemma_pieces_nonempty(p);
    lemma_pieces_of_two(p, q);
    lemma_pieces_of_two(p, e);
    assert(p + seq!['/'] + e =~= p + seq!['/']);
    assert((pieces(p) + seq![e]).drop_last() =~= pieces(p));
    assert(components(p + seq!['/']) =~= components(p));
    lemma_pieces_of_two(e, q);
    lemma_pieces_of_two(p, e + seq!['/'] + q);
    assert(p + seq!['/'] + (e + seq!['/'] + q) =~= p + seq!['/', '/'] + q);
    assert(pieces(p) + (seq![e] + pieces(q)) =~= pieces(p).push(e) + pieces(q));
    lemma_piece_left_out(pieces(p), e, pieces(q));
    lemma_pieces_of_name(dot);
    lemma_pieces_of_two(dot, q);
    lemma_pieces_of_two(p, dot + seq!['/'] + q);
    assert(p + seq!['/'] + (dot + seq!['/'] + q) =~= p + seq!['/', '.', '/'] + q);
    assert(pieces(p) + (seq![dot] + pieces(q)) =~= pieces(p).push(dot) + pieces(q));
    lemma_piece_left_out(pieces(p), dot, pieces(q));
    assert(pieces(e) =~= seq![e]);
    assert(seq![e].drop_last() =~= Seq::empty());
    assert(pieces_comps(seq![e].drop_last()) =~= Seq::empty());
    assert(pieces_comps(seq![e]) =~= Seq::empty());
}

/// Law: the directory of a path is the path without its last component, and holds a name that
/// was put into it.
pub proof fn directory_holds_its_names(dir: Seq<Comp>, name: Seq<char>)
    ensures
        dir_comps(dir.push(Comp::Name(name))) == dir,
        last_name(dir.push(Comp::Name(name))) == Some(name),
        last_name(dir.push(Comp::Up)) is None,
        last_name(Seq::empty()) is None,
        dir_comps(seq![Comp::Root]).len() == 0,
{
    assert(dir.push(Comp::Name(name)).drop_last() =~= dir);
}

/// Law: what two component lists share from the front is all that they share: it is the same
/// in both, and where both go on they part.
pub proof fn shared_front_is_all_that_is_shared(a: Seq<Comp>, b: Seq<Comp>)
    ensures
        ({
            let k = common_len(a, b);
            &&& k <= a.len() && k <= b.len()
            &&& a.take(k as int) == b.take(k as int)
            &&& k < a.len() && k < b.len() ==> a[k as int] != b[k as int]
        }),
    decreases a.len(),
{
    let k = common_len(a, b);
    if a.len() > 0 && b.len() > 0 && a[0] == b[0] {
        let x = a.drop_first();
        let y = b.drop_first();
        shared_front_is_all_that_is_shared(x, y);
        assert forall|i: int| 0 <= i < k implies a[i] == b[i] by {
            if i > 0 {
                assert(x.take(k - 1)[i - 1] == y.take(k - 1)[i - 1]);
                assert(a[i] == x[i - 1] && b[i] == y[i - 1]);
            }
        }
        if k < a.len() && k < b.len() {
            assert(a[k as int] == x[k - 1] && b[k as int] == y[k - 1]);
        }
    }
    assert(a.take(k as int) =~= b.take(k as int));
}

} // verus!
