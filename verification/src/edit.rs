//! Edits to one document's metadata, by dotted path.
use vstd::prelude::*;

use crate::document::{document_in, embed_kind, Document, DocumentView};
use crate::effects::is_figs;
use crate::embed::{
    after, deleting, fresh, initiating, opening, outcome_of, rendering, replacing, setting, steps,
    BlockEditor, Edit, EmbedKind, History, Step, StepView,
};
use crate::error::{fig_result, text_result, Failure, WorkspaceError};
use crate::meta::{field, MetaValue, Tree};
use crate::text::{
    all_digits, decimal, digits, digits_stand_for_their_number, joined, number_in, number_of,
    read_number, same, split, split_by, split_stretches_join, views,
};

verus! {

/// The step a segment of a dotted path stands for: a position where it is made of
/// digits alone, a key otherwise.
pub open spec fn step_of(part: Seq<char>) -> StepView {
    match number_in(part, usize::MAX as nat) {
        Some(n) => StepView::Index(n as int),
        None => StepView::Key(part),
    }
}

/// The steps a dotted path stands for.
pub open spec fn steps_of(key: Seq<char>) -> Seq<StepView> {
    split_by(key, '.').map_values(|p: Seq<char>| step_of(p))
}

/// The steps a dotted path stands for.
pub fn dotted(key: &str) -> (r: Vec<Step>)
    ensures
        steps(r@) == steps_of(key@),
{
    let parts = split(key, '.');
    let ghost all = steps_of(key@);
    let mut out: Vec<Step> = Vec::new();
    let mut i: usize = 0;
    while i < parts.len()
        invariant
            i <= parts@.len(),
            views(parts@) == split_by(key@, '.'),
            all == steps_of(key@),
            steps(out@) =~= all.take(i as int),
        decreases parts@.len() - i,
    {
        let ghost before = steps(out@);
        assert(views(parts@)[i as int] == parts@[i as int]@);
        assert(all[i as int] == step_of(parts@[i as int]@));
        match read_number(parts[i].as_str(), usize::MAX as u64) {
            Some(n) => {
                out.push(Step::Index(n as usize));
            },
            None => {
                out.push(Step::Key(parts[i].clone()));
            },
        }
        assert(steps(out@) =~= before.push(all[i as int]));
        assert(all.take(i + 1) =~= all.take(i as int).push(all[i as int]));
        i += 1;
    }
    assert(views(parts@).len() == all.len());
    assert(all.take(i as int) =~= all);
    out
}

/// The value at a path: a key looks into a mapping, a position into a sequence.
pub open spec fn value_at(t: Tree, path: Seq<StepView>) -> Option<Tree>
    decreases path.len(),
{
    if path.len() == 0 {
        Some(t)
    } else {
        match value_at(t, path.drop_last()) {
            Some(v) => match path.last() {
                StepView::Key(k) => field(v, k),
                StepView::Index(i) => match v {
                    Tree::List(items) => if 0 <= i < items.len() {
                        Some(items[i])
                    } else {
                        None
                    },
                    _ => None,
                },
            },
            None => None,
        }
    }
}

/// A path that leads nowhere half way leads nowhere.
proof fn lemma_nowhere(t: Tree, path: Seq<StepView>, n: int)
    requires
        0 <= n <= path.len(),
        value_at(t, path.take(n)) is None,
    ensures
        value_at(t, path) is None,
    decreases path.len() - n,
{
    if n == path.len() {
        assert(path.take(n) =~= path);
    } else {
        assert(path.take(n + 1).drop_last() =~= path.take(n));
        lemma_nowhere(t, path, n + 1);
    }
}

/// The value at a dotted path.
pub fn lookup<'a>(value: &'a MetaValue, key: &str) -> (r: Option<&'a MetaValue>)
    ensures
        match r {
            Some(v) => value_at(value@, steps_of(key@)) == Some(v@),
            None => value_at(value@, steps_of(key@)) is None,
        },
{
    let path = dotted(key);
    let ghost all = steps_of(key@);
    let mut at: &'a MetaValue = value;
    let mut i: usize = 0;
    assert(all.take(0) =~= Seq::empty());
    while i < path.len()
        invariant
            i <= path@.len(),
            steps(path@) == all,
            all == steps_of(key@),
            value_at(value@, all.take(i as int)) == Some(at@),
        decreases path@.len() - i,
    {
        assert(all[i as int] == path@[i as int]@);
        assert(all.take(i + 1).drop_last() =~= all.take(i as int));
        assert(all.take(i + 1).last() == all[i as int]);
        let next = match &path[i] {
            Step::Key(k) => at.get(k.as_str()),
            Step::Index(n) => match at.as_sequence() {
                Some(items) => if *n < items.len() {
                    assert(at@->List_0[*n as int] == items@[*n as int]@);
                    Some(&items[*n])
                } else {
                    None
                },
                None => None,
            },
        };
        match next {
            Some(v) => {
                at = v;
            },
            None => {
                proof {
                    lemma_nowhere(value@, all, i + 1);
                }
                return None;
            },
        }
        i += 1;
    }
    assert(steps(path@).len() == path@.len());
    assert(all.take(i as int) =~= all);
    Some(at)
}

/// The kind of embed that an edit of a document goes to.
pub open spec fn edit_kind(text: Seq<char>) -> Result<EmbedKind, Failure> {
    match document_in(text) {
        Ok(d) => Ok(embed_kind(d)),
        Err(e) => Err(e),
    }
}

/// A document's text with the value at a path set: an entry of a sequence is replaced,
/// a key is replaced or inserted, and the block is created where there is none.
pub open spec fn set_text(text: Seq<char>, path: Seq<StepView>, value: Tree) -> Result<
    Seq<char>,
    Failure,
> {
    match edit_kind(text) {
        Err(e) => Err(e),
        Ok(kind) => {
            let h = fresh(text, kind, true);
            match initiating(text, kind) {
                Err(m) => Err(Failure::Fig(m)),
                Ok(_) => if path.last() is Index {
                    match replacing(h, path, value) {
                        Err(m) => Err(Failure::Fig(m)),
                        Ok(_) => fig_result(rendering(after(h, Edit::Replace(path, value)))),
                    }
                } else {
                    match setting(h, path, value) {
                        Err(m) => Err(Failure::Fig(m)),
                        Ok(_) => fig_result(rendering(after(h, Edit::Put(path, value)))),
                    }
                },
            }
        },
    }
}

/// A document's text with the value at a path removed.
pub open spec fn unset_text(text: Seq<char>, path: Seq<StepView>) -> Result<Seq<char>, Failure> {
    match edit_kind(text) {
        Err(e) => Err(e),
        Ok(kind) => {
            let h = fresh(text, kind, false);
            match opening(text, kind) {
                Err(m) => Err(Failure::Fig(m)),
                Ok(_) => match deleting(h, path) {
                    Err(m) => Err(Failure::Fig(m)),
                    Ok(_) => fig_result(rendering(after(h, Edit::Delete(path)))),
                },
            }
        },
    }
}

/// Sets the value at a dotted path of a document's metadata, keeping comments and
/// formatting, and creating the block where the document has none.
pub fn set_in_text(text: &str, key: &str, value: &MetaValue) -> (r: Result<String, WorkspaceError>)
    ensures
        text_result(r) == set_text(text@, steps_of(key@), value@),
{
    let kind = match Document::parse(text) {
        Ok(d) => d.kind(),
        Err(e) => {
            return Err(e);
        },
    };
    let path = dotted(key);
    let mut block = match BlockEditor::open_or_init(text, kind) {
        Ok(b) => b,
        Err(e) => {
            return Err(e);
        },
    };
    proof {
        lemma_split_nonempty(key@, '.');
        assert(steps(path@).len() == split_by(key@, '.').len());
        assert(steps(path@).last() == path@.last()@);
    }
    let outcome = match &path[path.len() - 1] {
        Step::Index(_) => block.replace(&path, value),
        Step::Key(_) => block.put(&path, value),
    };
    match outcome {
        Ok(_) => block.render(),
        Err(e) => Err(e),
    }
}

proof fn lemma_split_nonempty(t: Seq<char>, sep: char)
    ensures
        split_by(t, sep).len() > 0,
    decreases t.len(),
{
    if t.len() > 0 {
        lemma_split_nonempty(t.drop_last(), sep);
    }
}

/// Removes the entry at a dotted path of a document's metadata, keeping comments and
/// formatting.
pub fn unset_in_text(text: &str, key: &str) -> (r: Result<String, WorkspaceError>)
    ensures
        text_result(r) == unset_text(text@, steps_of(key@)),
{
    let kind = match Document::parse(text) {
        Ok(d) => d.kind(),
        Err(e) => {
            return Err(e);
        },
    };
    let mut block = match BlockEditor::open(text, kind) {
        Ok(b) => b,
        Err(e) => {
            return Err(e);
        },
    };
    match block.delete(&dotted(key)) {
        Ok(_) => block.render(),
        Err(e) => Err(e),
    }
}

/// The integer that a text stands for: digits, with a minus sign in front of a negative
/// one, within the signed range.
pub open spec fn integer_in(t: Seq<char>) -> Option<int> {
    if t.len() > 0 && t[0] == '-' {
        match number_in(t.drop_first(), 0x8000_0000_0000_0000) {
            Some(n) => Some(-(n as int)),
            None => None,
        }
    } else {
        match number_in(t, 0x7fff_ffff_ffff_ffff) {
            Some(n) => Some(n as int),
            None => None,
        }
    }
}

/// The value that a text typed by a person stands for: truth values, nothing and
/// integers are typed, everything else is a text.
pub open spec fn typed(t: Seq<char>) -> Tree {
    if t == "true"@ {
        Tree::Bool(true)
    } else if t == "false"@ {
        Tree::Bool(false)
    } else if t == "null"@ {
        Tree::Null
    } else {
        match integer_in(t) {
            Some(n) => Tree::Int(n),
            None => Tree::Text(t),
        }
    }
}

/// The integer that a text stands for.
fn read_integer(t: &str) -> (r: Option<i64>)
    ensures
        match r {
            Some(n) => integer_in(t@) == Some(n as int),
            None => integer_in(t@) is None,
        },
{
    if t.unicode_len() > 0 && t.get_char(0) == '-' {
        let rest = t.substring_char(1, t.unicode_len());
        assert(rest@ =~= t@.drop_first());
        match read_number(rest, 0x8000_0000_0000_0000) {
            Some(n) => if n == 0x8000_0000_0000_0000 {
                Some(i64::MIN)
            } else {
                Some(-(n as i64))
            },
            None => None,
        }
    } else {
        match read_number(t, 0x7fff_ffff_ffff_ffff) {
            Some(n) => Some(n as i64),
            None => None,
        }
    }
}

/// The value that a text typed by a person stands for. A float is left to the caller: it
/// comes out as a text.
pub fn infer_scalar(t: &str) -> (r: MetaValue)
    ensures
        r@ == typed(t@),
{
    if same(t, "true") {
        MetaValue::Bool(true)
    } else if same(t, "false") {
        MetaValue::Bool(false)
    } else if same(t, "null") {
        MetaValue::Null
    } else {
        match read_integer(t) {
            Some(n) => MetaValue::Int(n),
            None => MetaValue::Text(t.to_owned()),
        }
    }
}

// ---- laws ----

/// Whether `step` is what a stretch of a dotted path stands for: a position where the stretch
/// is made of digits alone and fits, a key otherwise.
pub open spec fn stands_for(part: Seq<char>, step: StepView) -> bool {
    if all_digits(part) && number_of(part) <= usize::MAX {
        step == StepView::Index(number_of(part) as int)
    } else {
        step == StepView::Key(part)
    }
}

/// Law: a dotted path has a step for each stretch between its dots, in order, and nothing of it
/// is lost.
pub proof fn dotted_path_has_a_step_for_each_stretch(key: Seq<char>)
    ensures
        exists|parts: Seq<Seq<char>>|
            #![trigger joined(parts, seq!['.'])]
            {
                &&& joined(parts, seq!['.']) == key
                &&& parts.len() == steps_of(key).len()
                &&& forall|i: int|
                    0 <= i < parts.len() ==> !(#[trigger] parts[i]).contains('.') && stands_for(
                        parts[i],
                        steps_of(key)[i],
                    )
            },
        steps_of(key).len() > 0,
{
    let parts = split_by(key, '.');
    split_stretches_join(key, '.');
    assert(joined(parts, seq!['.']) == key);
    assert forall|i: int| 0 <= i < parts.len() implies !(#[trigger] parts[i]).contains('.')
        && stands_for(parts[i], steps_of(key)[i]) by {}
}

/// Law: a path is followed step by step: a path behind another leads on from where that one
/// leads, an empty one stays, and one step looks into a mapping or a sequence.
pub proof fn path_leads_on_from_path(t: Tree, a: Seq<StepView>, b: Seq<StepView>)
    ensures
        value_at(t, a + b) == (match value_at(t, a) {
            Some(v) => value_at(v, b),
            None => None,
        }),
        value_at(t, Seq::empty()) == Some(t),
        forall|k: Seq<char>| #[trigger] value_at(t, seq![StepView::Key(k)]) == field(t, k),
        forall|i: int| #[trigger]
            value_at(t, seq![StepView::Index(i)]) == (match t {
                Tree::List(items) => if 0 <= i < items.len() {
                    Some(items[i])
                } else {
                    None
                },
                _ => None,
            }),
    decreases b.len(),
{
    assert forall|k: Seq<char>| #[trigger] value_at(t, seq![StepView::Key(k)]) == field(t, k) by {
        assert(seq![StepView::Key(k)].drop_last() =~= Seq::empty());
    }
    assert forall|i: int| #[trigger]
        value_at(t, seq![StepView::Index(i)]) == (match t {
            Tree::List(items) => if 0 <= i < items.len() {
                Some(items[i])
            } else {
                None
            },
            _ => None,
        }) by {
        assert(seq![StepView::Index(i)].drop_last() =~= Seq::empty());
    }
    if b.len() == 0 {
        assert(a + b =~= a);
    } else {
        assert((a + b).drop_last() =~= a + b.drop_last());
        assert((a + b).last() == b.last());
        path_leads_on_from_path(t, a, b.drop_last());
    }
}

/// Law: setting a value asks for that one edit, at that path and with that value, in the block
/// the document has or would have: a position is replaced, and a key is replaced or put in. It
/// fails only where the document cannot be parsed or `fig` refuses.
pub proof fn setting_asks_for_one_edit(text: Seq<char>, path: Seq<StepView>, value: Tree)
    ensures
        match set_text(text, path, value) {
            Ok(out) => document_in(text) matches Ok(d) && exists|h: History|
                {
                    &&& #[trigger] rendering(h) == Ok::<Seq<char>, Seq<char>>(out)
                    &&& h.host == text
                    &&& h.kind == embed_kind(d)
                    &&& h.init
                    &&& h.edits.len() == 1
                    &&& h.edits[0] == (if path.last() is Index {
                        Edit::Replace(path, value)
                    } else {
                        Edit::Put(path, value)
                    })
                },
            Err(e) => document_in(text) == Err::<DocumentView, Failure>(e) || (document_in(
                text,
            ) is Ok && is_figs(e)),
        },
{
    if let Ok(d) = document_in(text) {
        let h = fresh(text, embed_kind(d), true);
        let edit = if path.last() is Index {
            Edit::Replace(path, value)
        } else {
            Edit::Put(path, value)
        };
        let x = outcome_of(h, edit);
        let y = rendering(after(h, edit));
    }
}

/// Law: unsetting asks for that one edit, at that path, in the block the document has. It fails
/// only where the document cannot be parsed or `fig` refuses.
pub proof fn unsetting_asks_for_one_edit(text: Seq<char>, path: Seq<StepView>)
    ensures
        match unset_text(text, path) {
            Ok(out) => document_in(text) matches Ok(d) && exists|h: History|
                {
                    &&& #[trigger] rendering(h) == Ok::<Seq<char>, Seq<char>>(out)
                    &&& h.host == text
                    &&& h.kind == embed_kind(d)
                    &&& !h.init
                    &&& h.edits.len() == 1
                    &&& h.edits[0] == Edit::Delete(path)
                },
            Err(e) => document_in(text) == Err::<DocumentView, Failure>(e) || (document_in(
                text,
            ) is Ok && is_figs(e)),
        },
{
    if let Ok(d) = document_in(text) {
        let h = fresh(text, embed_kind(d), false);
        let x = outcome_of(h, Edit::Delete(path));
        let y = rendering(after(h, Edit::Delete(path)));
    }
}

/// Law: what is typed reads back. A whole number in the signed range, written out, stands for
/// itself, and so do the truth values and nothing: what stands for none of these is the text
/// itself.
pub proof fn typed_scalars_read_back(t: Seq<char>, n: int)
    requires
        -0x8000_0000_0000_0000 <= n <= 0x7fff_ffff_ffff_ffff,
    ensures
        typed(decimal(n)) == Tree::Int(n),
        typed("true"@) == Tree::Bool(true),
        typed("false"@) == Tree::Bool(false),
        typed("null"@) == Tree::Null,
        match typed(t) {
            Tree::Bool(b) => t == (if b {
                "true"@
            } else {
                "false"@
            }),
            Tree::Null => t == "null"@,
            Tree::Int(k) => {
                &&& -0x8000_0000_0000_0000 <= k <= 0x7fff_ffff_ffff_ffff
                &&& if t[0] == '-' {
                    all_digits(t.drop_first()) && number_of(t.drop_first()) == -k
                } else {
                    all_digits(t) && number_of(t) == k
                }
            },
            Tree::Text(s) => {
                &&& s == t
                &&& !(all_digits(t) && number_of(t) <= 0x7fff_ffff_ffff_ffff)
                &&& !(t.len() > 0 && t[0] == '-' && all_digits(t.drop_first()) && number_of(
                    t.drop_first(),
                ) <= 0x8000_0000_0000_0000)
            },
            _ => false,
        },
{
    reveal_strlit("true");
    reveal_strlit("false");
    reveal_strlit("null");
    assert("true"@[0] == 't' && "false"@[0] == 'f' && "null"@[0] == 'n');
    assert("true"@.len() == 4 && "false"@.len() == 5);
    let w = decimal(n);
    if n < 0 {
        digits_stand_for_their_number((-n) as nat);
        assert(w[0] == '-');
        assert(w.drop_first() =~= digits((-n) as nat));
    } else {
        digits_stand_for_their_number(n as nat);
        assert('0' <= w[0] <= '9');
    }
    if all_digits(t) {
        assert('0' <= t[0] <= '9');
    }
}

} // verus!
