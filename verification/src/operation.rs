//! Mutations, step by step.
//!
//! An operation asks the storage one thing at a time and takes its answer: whether a path
//! exists, the text of a document, and, once every edit is computed, the storage operations
//! of its plan in order. Whoever drives it does the I/O and nothing else.
use vstd::prelude::*;

use crate::document::document_in;
use crate::error::{Failure, StorageError, StorageErrorKind, WorkspaceError};
use crate::identity::{Id, IdentityPolicy, Trigger};
use crate::index::{IndexStore, Registry};
use crate::link::{normalize, normalized};
use crate::mutate::{
    already_exists, creation_ops, deletion_ops, deletion_reads, does_not_exist, led_paths,
    loaded_views, ops_view, plan_view, renaming_ops, single_target_of, Creation, Deletion, FsOp,
    Loaded, LoadedView, OpView, Renaming,
};
use crate::path::components;
use crate::relation::{children_of, Vocabulary};
use crate::text::views;
use crate::workspace::{all_free, exhausted, issued, registers, Workspace, NO_UNUSED_ID};

verus! {

/// What an operation asks of the storage. Paths are relative to the workspace root.
#[derive(Debug, Clone, PartialEq, Eq)]
pub enum Ask {
    /// Whether something is at a path.
    Exists(String),
    /// The text at a path.
    Load(String),
    /// To carry out a storage operation.
    Carry(FsOp),
}

/// What an operation asks, as a mathematical value.
pub enum AskView {
    /// See [`Ask::Exists`].
    Exists(Seq<char>),
    /// See [`Ask::Load`].
    Load(Seq<char>),
    /// See [`Ask::Carry`].
    Carry(OpView),
}

impl View for Ask {
    type V = AskView;

    open spec fn view(&self) -> AskView {
        match self {
            Ask::Exists(p) => AskView::Exists(p@),
            Ask::Load(p) => AskView::Load(p@),
            Ask::Carry(op) => AskView::Carry(op@),
        }
    }
}

/// What the storage answers.
#[derive(Debug, PartialEq, Eq)]
pub enum Answer {
    /// Whether something is at the path.
    Exists(Result<bool, StorageError>),
    /// The text at the path.
    Text(Result<String, StorageError>),
    /// How the storage operation ended.
    Carried(Result<(), StorageError>),
}

/// What the storage answers, as a mathematical value.
pub enum AnswerView {
    /// See [`Answer::Exists`].
    Exists(Result<bool, (StorageErrorKind, Seq<char>)>),
    /// See [`Answer::Text`].
    Text(Result<Seq<char>, (StorageErrorKind, Seq<char>)>),
    /// See [`Answer::Carried`].
    Carried(Result<(), (StorageErrorKind, Seq<char>)>),
}

impl View for Answer {
    type V = AnswerView;

    open spec fn view(&self) -> AnswerView {
        match self {
            Answer::Exists(Ok(b)) => AnswerView::Exists(Ok(*b)),
            Answer::Exists(Err(e)) => AnswerView::Exists(Err((e.kind, e.message@))),
            Answer::Text(Ok(t)) => AnswerView::Text(Ok(t@)),
            Answer::Text(Err(e)) => AnswerView::Text(Err((e.kind, e.message@))),
            Answer::Carried(Ok(_)) => AnswerView::Carried(Ok(())),
            Answer::Carried(Err(e)) => AnswerView::Carried(Err((e.kind, e.message@))),
        }
    }
}

/// What is to be done.
#[derive(Debug, Clone, PartialEq, Eq)]
pub enum Task {
    /// Create a document.
    Create(Creation),
    /// Move a document.
    Rename(Renaming),
    /// Delete a document, whether or not it has children where the flag is set.
    Delete(Deletion, bool),
}

/// What is to be done, as a mathematical value.
pub enum TaskView {
    /// See [`Task::Create`].
    Create { path: Seq<char>, parent: Seq<char>, spanning: Seq<char>, inverse: Seq<char> },
    /// See [`Task::Rename`].
    Rename { from: Seq<char>, to: Seq<char>, spanning: Seq<char>, inverse: Seq<char> },
    /// See [`Task::Delete`].
    Delete { path: Seq<char>, spanning: Seq<char>, inverse: Seq<char>, force: bool },
}

impl View for Task {
    type V = TaskView;

    open spec fn view(&self) -> TaskView {
        match self {
            Task::Create(job) => TaskView::Create {
                path: job.path@,
                parent: job.parent@,
                spanning: job.spanning@,
                inverse: job.inverse@,
            },
            Task::Rename(job) => TaskView::Rename {
                from: job.from@,
                to: job.to@,
                spanning: job.spanning@,
                inverse: job.inverse@,
            },
            Task::Delete(job, force) => TaskView::Delete {
                path: job.path@,
                spanning: job.spanning@,
                inverse: job.inverse@,
                force: *force,
            },
        }
    }
}

/// How far an operation is.
#[derive(Debug, PartialEq, Eq)]
enum Phase {
    /// It asks whether the document that moves is there.
    Source,
    /// It asks whether the place for a document is free.
    Place,
    /// It asks for the text of the document it starts from.
    Text,
    /// It asks for the text of the parent of the document with this text. The children of a
    /// document that moves come next.
    Parent { text: String, parent: String, children: Vec<String> },
    /// It asks for the text of a child: the one after those that were asked for.
    Child {
        text: String,
        parent: Option<Loaded>,
        children: Vec<String>,
        asked: usize,
        loaded: Vec<Loaded>,
    },
    /// It has the storage operations of its plan carried out: the one after those that were.
    Carry { ops: Vec<FsOp>, done: usize },
    /// It is over.
    Done(Result<(), WorkspaceError>),
}

/// How far an operation is, as a mathematical value.
#[verifier::ext_equal]
pub enum PhaseView {
    /// It asks whether the document that moves is there.
    Source,
    /// It asks whether the place for a document is free.
    Place,
    /// It asks for the text of the document it starts from.
    Text,
    /// It asks for the text of the parent.
    Parent { text: Seq<char>, parent: Seq<char>, children: Seq<Seq<char>> },
    /// It asks for the text of a child.
    Child {
        text: Seq<char>,
        parent: Option<LoadedView>,
        children: Seq<Seq<char>>,
        asked: int,
        loaded: Seq<LoadedView>,
    },
    /// It has its plan carried out.
    Carry { ops: Seq<OpView>, done: int },
    /// It is over.
    Done(Result<(), Failure>),
}

/// The view of an optional document that was read.
pub open spec fn loaded_view(l: Option<Loaded>) -> Option<LoadedView> {
    match l {
        Some(l) => Some(l@),
        None => None,
    }
}

impl View for Phase {
    type V = PhaseView;

    closed spec fn view(&self) -> PhaseView {
        match self {
            Phase::Source => PhaseView::Source,
            Phase::Place => PhaseView::Place,
            Phase::Text => PhaseView::Text,
            Phase::Parent { text, parent, children } => PhaseView::Parent {
                text: text@,
                parent: parent@,
                children: views(children@),
            },
            Phase::Child { text, parent, children, asked, loaded } => PhaseView::Child {
                text: text@,
                parent: loaded_view(*parent),
                children: views(children@),
                asked: *asked as int,
                loaded: loaded_views(loaded@),
            },
            Phase::Carry { ops, done } => PhaseView::Carry {
                ops: ops_view(ops@),
                done: *done as int,
            },
            Phase::Done(Ok(_)) => PhaseView::Done(Ok(())),
            Phase::Done(Err(e)) => PhaseView::Done(Err(e@)),
        }
    }
}

/// The document an operation starts from: the one that moves or goes, or the parent of a new
/// one.
pub open spec fn start_of(task: TaskView) -> Seq<char> {
    match task {
        TaskView::Create { parent, .. } => parent,
        TaskView::Rename { from, .. } => from,
        TaskView::Delete { path, .. } => path,
    }
}

/// The place that must be free.
pub open spec fn place_of(task: TaskView) -> Seq<char> {
    match task {
        TaskView::Create { path, .. } => path,
        TaskView::Rename { to, .. } => to,
        TaskView::Delete { path, .. } => path,
    }
}

/// How far an operation is when it begins.
pub open spec fn first_phase(task: TaskView) -> PhaseView {
    match task {
        TaskView::Create { .. } => PhaseView::Place,
        TaskView::Rename { .. } => PhaseView::Source,
        TaskView::Delete { .. } => PhaseView::Text,
    }
}

/// What an operation asks next. Nothing when it is over.
pub open spec fn ask_of(task: TaskView, phase: PhaseView) -> Option<AskView> {
    match phase {
        PhaseView::Source => Some(AskView::Exists(start_of(task))),
        PhaseView::Place => Some(AskView::Exists(place_of(task))),
        PhaseView::Text => Some(AskView::Load(start_of(task))),
        PhaseView::Parent { parent, .. } => Some(AskView::Load(parent)),
        PhaseView::Child { children, asked, .. } => Some(AskView::Load(children[asked])),
        PhaseView::Carry { ops, done } => Some(AskView::Carry(ops[done])),
        PhaseView::Done(_) => None,
    }
}

/// How far an operation is once its plan is made: it has it carried out, or is over.
pub open spec fn planned(plan: Result<Seq<OpView>, Failure>) -> PhaseView {
    match plan {
        Err(e) => PhaseView::Done(Err(e)),
        Ok(ops) => if ops.len() == 0 {
            PhaseView::Done(Ok(()))
        } else {
            PhaseView::Carry { ops, done: 0 }
        },
    }
}

/// How far a move is once its parent is read and `asked` of its children were asked for.
pub open spec fn with_children(
    r: Registry,
    vocabulary: Vocabulary,
    task: TaskView,
    text: Seq<char>,
    parent: Option<LoadedView>,
    children: Seq<Seq<char>>,
    asked: int,
    loaded: Seq<LoadedView>,
) -> PhaseView {
    if asked < children.len() {
        PhaseView::Child { text, parent, children, asked, loaded }
    } else {
        match task {
            TaskView::Rename { from, to, spanning, inverse } => planned(
                renaming_ops(
                    r,
                    vocabulary.relations,
                    spanning,
                    inverse,
                    LoadedView { path: from, text },
                    to,
                    parent,
                    loaded,
                ),
            ),
            _ => PhaseView::Done(Ok(())),
        }
    }
}

/// How far an operation is once it has the text of the document it starts from.
pub open spec fn with_text(r: Registry, vocabulary: Vocabulary, task: TaskView, text: Seq<char>) -> PhaseView {
    match task {
        TaskView::Create { path, parent, spanning, inverse } => planned(
            creation_ops(path, parent, spanning, inverse, text),
        ),
        TaskView::Rename { from, inverse, .. } => match document_in(text) {
            Err(e) => PhaseView::Done(Err(e)),
            Ok(d) => {
                let children = led_paths(r, from, children_of(vocabulary, d.meta));
                match single_target_of(r, d.meta, inverse, from) {
                    Some(parent) => PhaseView::Parent { text, parent, children },
                    None => with_children(
                        r,
                        vocabulary,
                        task,
                        text,
                        None,
                        children,
                        0,
                        Seq::empty(),
                    ),
                }
            },
        },
        TaskView::Delete { path, spanning, inverse, force } => match deletion_reads(
            r,
            vocabulary,
            inverse,
            LoadedView { path, text },
            force,
        ) {
            Err(e) => PhaseView::Done(Err(e)),
            Ok(Some(parent)) => PhaseView::Parent { text, parent, children: Seq::empty() },
            Ok(None) => planned(deletion_ops(r, spanning, path, None)),
        },
    }
}

/// How far an operation is once it has the parent's text too.
pub open spec fn with_parent(
    r: Registry,
    vocabulary: Vocabulary,
    task: TaskView,
    text: Seq<char>,
    parent: LoadedView,
    children: Seq<Seq<char>>,
) -> PhaseView {
    match task {
        TaskView::Delete { path, spanning, .. } => planned(
            deletion_ops(r, spanning, path, Some(parent)),
        ),
        _ => with_children(r, vocabulary, task, text, Some(parent), children, 0, Seq::empty()),
    }
}

/// How far an operation is after an answer. An answer to something else than was asked is
/// passed over.
pub open spec fn answered(
    r: Registry,
    vocabulary: Vocabulary,
    task: TaskView,
    phase: PhaseView,
    answer: AnswerView,
) -> PhaseView {
    match (phase, answer) {
        (PhaseView::Source, AnswerView::Exists(Ok(found))) => if found {
            PhaseView::Place
        } else {
            PhaseView::Done(Err(Failure::Structure(does_not_exist(start_of(task)))))
        },
        (PhaseView::Source, AnswerView::Exists(Err(e))) => PhaseView::Done(
            Err(Failure::Io(e.0, e.1)),
        ),
        (PhaseView::Place, AnswerView::Exists(Ok(taken))) => if taken {
            PhaseView::Done(Err(Failure::Structure(already_exists(place_of(task)))))
        } else {
            PhaseView::Text
        },
        (PhaseView::Place, AnswerView::Exists(Err(e))) => PhaseView::Done(
            Err(Failure::Io(e.0, e.1)),
        ),
        (PhaseView::Text, AnswerView::Text(Ok(text))) => with_text(r, vocabulary, task, text),
        (PhaseView::Text, AnswerView::Text(Err(e))) => PhaseView::Done(Err(Failure::Io(e.0, e.1))),
        (PhaseView::Parent { text, parent, children }, AnswerView::Text(Ok(t))) => with_parent(
            r,
            vocabulary,
            task,
            text,
            LoadedView { path: parent, text: t },
            children,
        ),
        (PhaseView::Parent { .. }, AnswerView::Text(Err(e))) => PhaseView::Done(
            Err(Failure::Io(e.0, e.1)),
        ),
        (
            PhaseView::Child { text, parent, children, asked, loaded },
            AnswerView::Text(outcome),
        ) => with_children(
            r,
            vocabulary,
            task,
            text,
            parent,
            children,
            asked + 1,
            match outcome {
                Ok(t) => loaded.push(LoadedView { path: children[asked], text: t }),
                Err(_) => loaded,
            },
        ),
        (PhaseView::Carry { ops, done }, AnswerView::Carried(Ok(_))) => if done + 1 < ops.len() {
            PhaseView::Carry { ops, done: done + 1 }
        } else {
            PhaseView::Done(Ok(()))
        },
        (PhaseView::Carry { .. }, AnswerView::Carried(Err(e))) => PhaseView::Done(
            Err(Failure::Io(e.0, e.1)),
        ),
        _ => phase,
    }
}

/// An operation under way.
#[derive(Debug, PartialEq, Eq)]
pub struct Operation {
    task: Task,
    phase: Phase,
}

impl Operation {
    /// What is to be done.
    pub closed spec fn todo(&self) -> TaskView {
        self.task@
    }

    /// How far it is.
    pub closed spec fn stage(&self) -> PhaseView {
        self.phase@
    }

    /// Whether there is something left to ask for where something is asked for.
    pub closed spec fn wf(&self) -> bool {
        match self.phase {
            Phase::Child { children, asked, .. } => asked < children@.len(),
            Phase::Carry { ops, done } => done < ops@.len(),
            _ => true,
        }
    }

    /// Begins an operation.
    pub fn begin(task: Task) -> (r: Operation)
        ensures
            r.wf(),
            r.todo() == task@,
            r.stage() == first_phase(task@),
    {
        let phase = match &task {
            Task::Create(_) => Phase::Place,
            Task::Rename(_) => Phase::Source,
            Task::Delete(_, _) => Phase::Text,
        };
        Operation { task, phase }
    }

    /// What the operation asks next. Nothing when it is over.
    pub fn ask(&self) -> (r: Option<Ask>)
        requires
            self.wf(),
        ensures
            match r {
                Some(a) => ask_of(self.todo(), self.stage()) == Some(a@),
                None => ask_of(self.todo(), self.stage()) is None,
            },
    {
        match &self.phase {
            Phase::Source => Some(Ask::Exists(start(&self.task))),
            Phase::Place => Some(Ask::Exists(place(&self.task))),
            Phase::Text => Some(Ask::Load(start(&self.task))),
            Phase::Parent { parent, .. } => Some(Ask::Load(parent.clone())),
            Phase::Child { children, asked, .. } => {
                assert(views(children@)[*asked as int] == children@[*asked as int]@);
                Some(Ask::Load(children[*asked].clone()))
            },
            Phase::Carry { ops, done } => {
                assert(ops_view(ops@)[*done as int] == ops@[*done as int]@);
                Some(Ask::Carry(ops[*done].copy()))
            },
            Phase::Done(_) => None,
        }
    }
}

/// The document an operation starts from.
fn start(task: &Task) -> (r: String)
    ensures
        r@ == start_of(task@),
{
    match task {
        Task::Create(job) => job.parent.clone(),
        Task::Rename(job) => job.from.clone(),
        Task::Delete(job, _) => job.path.clone(),
    }
}

/// The place that must be free.
fn place(task: &Task) -> (r: String)
    ensures
        r@ == place_of(task@),
{
    match task {
        Task::Create(job) => job.path.clone(),
        Task::Rename(job) => job.to.clone(),
        Task::Delete(job, _) => job.path.clone(),
    }
}

/// How far an operation is once its plan is made.
fn carry(plan: Result<Vec<FsOp>, WorkspaceError>) -> (r: Phase)
    ensures
        r@ == planned(plan_view(plan)),
        r matches Phase::Carry { ops, done } ==> done < ops@.len(),
        !(r is Child),
{
    match plan {
        Err(e) => Phase::Done(Err(e)),
        Ok(ops) => {
            assert(ops_view(ops@).len() == ops@.len());
            if ops.len() == 0 {
                Phase::Done(Ok(()))
            } else {
                Phase::Carry { ops, done: 0 }
            }
        },
    }
}

impl<IdP: IdentityPolicy, Ix: IndexStore> Workspace<IdP, Ix> {
    /// How far a move is once its parent is read and `asked` of its children were asked for.
    fn gather(
        &self,
        task: &Task,
        text: String,
        parent: Option<Loaded>,
        children: Vec<String>,
        asked: usize,
        loaded: Vec<Loaded>,
    ) -> (r: Phase)
        requires
            self.index.wf(),
            asked <= children@.len(),
        ensures
            r@ == with_children(
                self.index.registry(),
                self.relations@,
                task@,
                text@,
                loaded_view(parent),
                views(children@),
                asked as int,
                loaded_views(loaded@),
            ),
            r matches Phase::Child { children, asked, .. } ==> asked < children@.len(),
            r matches Phase::Carry { ops, done } ==> done < ops@.len(),
    {
        assert(views(children@).len() == children@.len());
        if asked < children.len() {
            return Phase::Child { text, parent, children, asked, loaded };
        }
        match task {
            Task::Rename(job) => carry(self.rename_plan(job, text.as_str(), &parent, &loaded)),
            _ => Phase::Done(Ok(())),
        }
    }

    /// How far an operation is once it has the text of the document it starts from.
    fn take_text(&self, task: &Task, text: String) -> (r: Phase)
        requires
            self.index.wf(),
        ensures
            r@ == with_text(self.index.registry(), self.relations@, task@, text@),
            r matches Phase::Child { children, asked, .. } ==> asked < children@.len(),
            r matches Phase::Carry { ops, done } ==> done < ops@.len(),
    {
        match task {
            Task::Create(job) => carry(job.plan(text.as_str())),
            Task::Rename(job) => match self.rename_reads(job, text.as_str()) {
                Err(e) => Phase::Done(Err(e)),
                Ok(reads) => match reads.parent {
                    Some(parent) => Phase::Parent { text, parent, children: reads.children },
                    None => {
                        let loaded: Vec<Loaded> = Vec::new();
                        assert(loaded_views(loaded@) =~= Seq::empty());
                        self.gather(task, text, None, reads.children, 0, loaded)
                    },
                },
            },
            Task::Delete(job, force) => match self.delete_reads(job, text.as_str(), *force) {
                Err(e) => Phase::Done(Err(e)),
                Ok(Some(parent)) => {
                    let children: Vec<String> = Vec::new();
                    assert(views(children@) =~= Seq::empty());
                    Phase::Parent { text, parent, children }
                },
                Ok(None) => carry(self.delete_plan(job, &None)),
            },
        }
    }

    /// How far an operation is once it has the parent's text too.
    fn take_parent(&self, task: &Task, text: String, parent: Loaded, children: Vec<String>) -> (r:
        Phase)
        requires
            self.index.wf(),
        ensures
            r@ == with_parent(
                self.index.registry(),
                self.relations@,
                task@,
                text@,
                parent@,
                views(children@),
            ),
            r matches Phase::Child { children, asked, .. } ==> asked < children@.len(),
            r matches Phase::Carry { ops, done } ==> done < ops@.len(),
    {
        match task {
            Task::Delete(job, _) => carry(self.delete_plan(job, &Some(parent))),
            _ => {
                let loaded: Vec<Loaded> = Vec::new();
                assert(loaded_views(loaded@) =~= Seq::empty());
                self.gather(task, text, Some(parent), children, 0, loaded)
            },
        }
    }

    /// Takes the storage's answer to what an operation asked.
    pub fn answer(&self, operation: Operation, answer: Answer) -> (r: Operation)
        requires
            self.index.wf(),
            operation.wf(),
        ensures
            r.wf(),
            r.todo() == operation.todo(),
            r.stage() == answered(
                self.index.registry(),
                self.relations@,
                operation.todo(),
                operation.stage(),
                answer@,
            ),
    {
        let Operation { task, phase } = operation;
        let next = match (phase, answer) {
            (Phase::Source, Answer::Exists(Ok(found))) => if found {
                Phase::Place
            } else {
                Phase::Done(Err(missing(&task)))
            },
            (Phase::Source, Answer::Exists(Err(e))) => Phase::Done(Err(WorkspaceError::Io(e))),
            (Phase::Place, Answer::Exists(Ok(taken))) => if taken {
                Phase::Done(Err(occupied(&task)))
            } else {
                Phase::Text
            },
            (Phase::Place, Answer::Exists(Err(e))) => Phase::Done(Err(WorkspaceError::Io(e))),
            (Phase::Text, Answer::Text(Ok(text))) => self.take_text(&task, text),
            (Phase::Text, Answer::Text(Err(e))) => Phase::Done(Err(WorkspaceError::Io(e))),
            (Phase::Parent { text, parent, children }, Answer::Text(Ok(t))) => {
                let parent = Loaded { path: parent, text: t };
                self.take_parent(&task, text, parent, children)
            },
            (Phase::Parent { .. }, Answer::Text(Err(e))) => {
                Phase::Done(Err(WorkspaceError::Io(e)))
            },
            (Phase::Child { text, parent, children, asked, loaded }, Answer::Text(outcome)) => {
                let mut loaded = loaded;
                let ghost before = loaded_views(loaded@);
                let count = children.len();
                assert(asked < count);
                assert(views(children@)[asked as int] == children@[asked as int]@);
                match outcome {
                    Ok(t) => {
                        let one = Loaded { path: children[asked].clone(), text: t };
                        loaded.push(one);
                        assert(loaded_views(loaded@) =~= before.push(one@));
                    },
                    Err(_) => {},
                }
                self.gather(&task, text, parent, children, asked + 1, loaded)
            },
            (Phase::Carry { ops, done }, Answer::Carried(Ok(_))) => {
                let count = ops.len();
                assert(ops_view(ops@).len() == ops@.len());
                assert(done < count);
                if done + 1 < count {
                    Phase::Carry { ops, done: done + 1 }
                } else {
                    Phase::Done(Ok(()))
                }
            },
            (Phase::Carry { .. }, Answer::Carried(Err(e))) => {
                Phase::Done(Err(WorkspaceError::Io(e)))
            },
            (phase, _) => phase,
        };
        Operation { task, phase: next }
    }

    /// Ensures that the document at `path` has an ID, and returns it, given whether something
    /// is there: a path with nothing there gets no ID.
    pub fn register_found(
        &mut self,
        path: &str,
        trigger: Trigger,
        found: Result<bool, StorageError>,
    ) -> (r: Result<Id, WorkspaceError>)
        requires
            old(self).index.wf(),
        ensures
            final(self).index.wf(),
            final(self).relations == old(self).relations,
            final(self).root == old(self).root,
            match found {
                Ok(true) => registers(*old(self), *final(self), normalized(path@), trigger, r),
                Ok(false) => {
                    &&& (r matches Err(e) && e@ == Failure::Structure(
                        does_not_exist(normalized(path@)),
                    ))
                    &&& *final(self) == *old(self)
                },
                Err(e) => {
                    &&& (r matches Err(x) && x@ == WorkspaceError::Io(e)@)
                    &&& *final(self) == *old(self)
                },
            },
    {
        match found {
            Ok(true) => self.register(path, trigger),
            Ok(false) => {
                let mut out = normalize(path);
                out.append(" does not exist");
                Err(WorkspaceError::Structure(out))
            },
            Err(e) => Err(WorkspaceError::Io(e)),
        }
    }

    /// Ends an operation that is over: where it went well the registry follows, and how it
    /// ended is handed out.
    pub fn finish(&mut self, operation: Operation) -> (r: Result<(), WorkspaceError>)
        requires
            old(self).index.wf(),
            operation.stage() is Done,
        ensures
            final(self).index.wf(),
            final(self).relations == old(self).relations,
            final(self).root == old(self).root,
            match (operation.stage(), operation.todo()) {
                (PhaseView::Done(Err(e)), _) => (r matches Err(x) && x@ == e) && *final(self)
                    == *old(self),
                (_, TaskView::Create { path, .. }) => {
                    if old(self).identity.triggers().fires(Trigger::Create) {
                        match r {
                            Ok(_) => exists|id: Seq<char>| #[trigger]
                                issued::<IdP, Ix>(old(self).index, final(self).index, path, id),
                            Err(e) => {
                                &&& e@ == Failure::Structure(NO_UNUSED_ID@)
                                &&& exhausted::<IdP>(old(self).index.registry(), path)
                                &&& !all_free::<IdP>(old(self).index.registry(), path)
                                &&& final(self).index == old(self).index
                            },
                        }
                    } else {
                        r is Ok && *final(self) == *old(self)
                    }
                },
                (_, TaskView::Rename { from, to, .. }) => {
                    let before = old(self).index.registry();
                    &&& r is Ok
                    &&& if before.owners.contains_key(components(from)) {
                        final(self).index.registry() == old(self).index.moved(
                            before.owners[components(from)],
                            to,
                        )
                    } else {
                        *final(self) == *old(self)
                    }
                },
                (_, TaskView::Delete { path, .. }) => {
                    let before = old(self).index.registry();
                    &&& r is Ok
                    &&& if before.owners.contains_key(components(path)) {
                        final(self).index.registry() == old(self).index.retired(
                            before.owners[components(path)],
                        )
                    } else {
                        *final(self) == *old(self)
                    }
                },
            },
    {
        let ghost todo = operation.todo();
        match operation.phase {
            Phase::Done(Err(e)) => Err(e),
            _ => match operation.task {
                Task::Create(job) => match self.finish_create(&job) {
                    Ok(id) => {
                        assert(issued::<IdP, Ix>(
                            old(self).index,
                            self.index,
                            todo->Create_path,
                            id->Some_0@,
                        ) || !old(self).identity.triggers().fires(Trigger::Create));
                        Ok(())
                    },
                    Err(e) => {
                        assert(exhausted::<IdP>(old(self).index.registry(), todo->Create_path));
                        assert(!all_free::<IdP>(old(self).index.registry(), todo->Create_path));
                        Err(e)
                    },
                },
                Task::Rename(job) => {
                    self.finish_rename(&job);
                    Ok(())
                },
                Task::Delete(job, _) => {
                    self.finish_delete(&job);
                    Ok(())
                },
            },
        }
    }
}

/// What is said when the document that moves is not there.
fn missing(task: &Task) -> (r: WorkspaceError)
    ensures
        r@ == Failure::Structure(does_not_exist(start_of(task@))),
{
    let mut out = start(task);
    out.append(" does not exist");
    WorkspaceError::Structure(out)
}

/// What is said when the place for a document is taken.
fn occupied(task: &Task) -> (r: WorkspaceError)
    ensures
        r@ == Failure::Structure(already_exists(place_of(task@))),
{
    let mut out = place(task);
    out.append(" already exists");
    WorkspaceError::Structure(out)
}

// ---- laws ----

/// Law: nothing is written before everything is known. A storage operation is asked for only
/// while a plan is carried out, and a plan that is carried out ends well or with a failure of
/// the storage: no refusal of the library comes after a write.
pub proof fn no_refusal_after_a_write(
    r: Registry,
    vocabulary: Vocabulary,
    task: TaskView,
    phase: PhaseView,
    answer: AnswerView,
)
    ensures
        ask_of(task, phase) matches Some(AskView::Carry(_)) ==> phase is Carry,
        phase is Carry ==> match answered(r, vocabulary, task, phase, answer) {
            PhaseView::Carry { ops, .. } => ops == phase->ops,
            PhaseView::Done(Ok(_)) => true,
            PhaseView::Done(Err(Failure::Io(_, _))) => true,
            _ => false,
        },
{
}

/// Law: a plan is carried out whole and in order. While every storage operation ends well,
/// each is asked for once, first to last, and the operation is over after the last.
pub proof fn plan_is_carried_out_in_order(
    r: Registry,
    vocabulary: Vocabulary,
    task: TaskView,
    ops: Seq<OpView>,
    done: int,
)
    requires
        0 <= done < ops.len(),
    ensures
        ({
            let phase = PhaseView::Carry { ops, done };
            let next = answered(r, vocabulary, task, phase, AnswerView::Carried(Ok(())));
            &&& ask_of(task, phase) == Some(AskView::Carry(ops[done]))
            &&& if done + 1 < ops.len() {
                next == (PhaseView::Carry { ops, done: done + 1 })
            } else {
                next == PhaseView::Done(Ok(()))
            }
        }),
{
}

/// Law: an operation that is over stays as it ended.
pub proof fn over_is_over(
    r: Registry,
    vocabulary: Vocabulary,
    task: TaskView,
    outcome: Result<(), Failure>,
    answer: AnswerView,
)
    ensures
        answered(r, vocabulary, task, PhaseView::Done(outcome), answer) == PhaseView::Done(outcome),
        ask_of(task, PhaseView::Done(outcome)) is None,
{
}

/// The documents among `paths` that can be read, in order.
pub open spec fn readable(
    texts: spec_fn(Seq<char>) -> Result<Seq<char>, (StorageErrorKind, Seq<char>)>,
    paths: Seq<Seq<char>>,
) -> Seq<LoadedView>
    decreases paths.len(),
{
    if paths.len() == 0 {
        Seq::empty()
    } else {
        let rest = readable(texts, paths.drop_last());
        match texts(paths.last()) {
            Ok(text) => rest.push(LoadedView { path: paths.last(), text }),
            Err(_) => rest,
        }
    }
}

/// Law: a move gathers the children that can be read, in order, and passes over the others.
/// With the first `k` gathered, the answer for the next one leaves the first `k + 1` gathered.
pub proof fn children_are_gathered_in_order(
    r: Registry,
    vocabulary: Vocabulary,
    task: TaskView,
    text: Seq<char>,
    parent: Option<LoadedView>,
    children: Seq<Seq<char>>,
    texts: spec_fn(Seq<char>) -> Result<Seq<char>, (StorageErrorKind, Seq<char>)>,
    k: int,
)
    requires
        0 <= k < children.len(),
    ensures
        ({
            let phase = PhaseView::Child {
                text,
                parent,
                children,
                asked: k,
                loaded: readable(texts, children.take(k)),
            };
            &&& ask_of(task, phase) == Some(AskView::Load(children[k]))
            &&& answered(r, vocabulary, task, phase, AnswerView::Text(texts(children[k])))
                == with_children(
                r,
                vocabulary,
                task,
                text,
                parent,
                children,
                k + 1,
                readable(texts, children.take(k + 1)),
            )
        }),
{
    assert(children.take(k + 1).drop_last() =~= children.take(k));
    assert(children.take(k + 1).last() == children[k]);
}

} // verus!
