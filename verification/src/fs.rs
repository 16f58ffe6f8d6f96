//! Where documents live.
//!
//! The library is generic over where documents live. The workspace does no I/O of
//! its own; this module holds what the storages and those who drive them share: the
//! guarantees a storage declares, the entries and metadata it reports, and the
//! protocol that replaces a file atomically and durably over storages that keep very
//! different promises.
use vstd::prelude::*;

use crate::error::{StorageError, StorageErrorKind};
use crate::path::{
    self, components, dir_comps, last_name, lemma_components_well_formed, path_text,
    path_text_reads_back, valid_name, well_formed, Comp, Component,
};

verus! {

/// The durability guarantees a storage can make.
///
/// Rather than assume a guarantee and corrupt data on the storage that cannot keep
/// it, the library reads these and picks the strongest protocol the storage actually
/// supports.
#[derive(Debug, Clone, Copy, PartialEq, Eq, Structural)]
pub struct Capabilities {
    /// The storage can replace an existing file's contents in one indivisible step,
    /// so no crash exposes a half-written file.
    pub atomic_replace: bool,
    /// The storage can flush a write through, so that once it says so the bytes
    /// survive a power cut.
    pub durable_sync: bool,
    /// The storage commits changes to many objects as one indivisible unit.
    pub native_transactions: bool,
}

impl Capabilities {
    /// Promises nothing: the safe assumption for an unknown storage.
    #[verifier::allow_in_spec]
    pub fn none() -> Capabilities
        returns
            (Capabilities {
                atomic_replace: false,
                durable_sync: false,
                native_transactions: false,
            }),
    {
        Capabilities { atomic_replace: false, durable_sync: false, native_transactions: false }
    }

    /// A conventional local file system: atomic replacement by rename and durable
    /// flushing, but no transactions over many objects.
    #[verifier::allow_in_spec]
    pub fn local_fs() -> Capabilities
        returns
            (Capabilities {
                atomic_replace: true,
                durable_sync: true,
                native_transactions: false,
            }),
    {
        Capabilities { atomic_replace: true, durable_sync: true, native_transactions: false }
    }
}

/// A storage, as far as the library asks it anything itself: what it promises.
pub trait Storage {
    /// What durability guarantees this storage can make. A storage that does not say
    /// promises nothing, so that one which forgets to say is handled most defensively.
    fn capabilities(&self) -> (r: Capabilities)
        default_ensures
            r == Capabilities::none(),
    {
        Capabilities::none()
    }
}

/// The process file system.
#[derive(Debug, Clone, Copy)]
pub struct StdFs;

impl Storage for StdFs {
    /// Every system the library targets gives an atomic rename within one file
    /// system, and a flush.
    fn capabilities(&self) -> (r: Capabilities)
        ensures
            r == Capabilities::local_fs(),
    {
        Capabilities::local_fs()
    }
}

// ---- entries ----

/// The type of a storage entry.
#[derive(Debug, Clone, Copy, PartialEq, Eq, Structural)]
pub struct FileType {
    is_dir: bool,
    is_file: bool,
    is_symlink: bool,
}

/// What an entry can be.
pub enum EntryKind {
    /// A regular file.
    File,
    /// A directory.
    Dir,
    /// A symbolic link.
    Symlink,
}

impl FileType {
    /// Whether the type says that an entry is of a kind.
    pub closed spec fn says(self, kind: EntryKind) -> bool {
        match kind {
            EntryKind::File => self.is_file,
            EntryKind::Dir => self.is_dir,
            EntryKind::Symlink => self.is_symlink,
        }
    }

    /// A regular file.
    pub fn file() -> (r: FileType)
        ensures
            forall|k: EntryKind| r.says(k) == (k is File),
    {
        FileType { is_dir: false, is_file: true, is_symlink: false }
    }

    /// A directory.
    pub fn dir() -> (r: FileType)
        ensures
            forall|k: EntryKind| r.says(k) == (k is Dir),
    {
        FileType { is_dir: true, is_file: false, is_symlink: false }
    }

    /// A symbolic link.
    pub fn symlink() -> (r: FileType)
        ensures
            forall|k: EntryKind| r.says(k) == (k is Symlink),
    {
        FileType { is_dir: false, is_file: false, is_symlink: true }
    }

    /// The type of an entry that a storage tells directories and regular files of: what
    /// is neither is a symbolic link.
    pub fn of(is_dir: bool, is_file: bool) -> (r: FileType)
        ensures
            forall|k: EntryKind|
                r.says(k) == match k {
                    EntryKind::Dir => is_dir,
                    EntryKind::File => is_file && !is_dir,
                    EntryKind::Symlink => !is_dir && !is_file,
                },
    {
        if is_dir {
            FileType::dir()
        } else if is_file {
            FileType::file()
        } else {
            FileType::symlink()
        }
    }

    /// Whether this is a regular file.
    pub fn is_file(&self) -> (r: bool)
        ensures
            r == self.says(EntryKind::File),
    {
        self.is_file
    }

    /// Whether this is a directory.
    pub fn is_dir(&self) -> (r: bool)
        ensures
            r == self.says(EntryKind::Dir),
    {
        self.is_dir
    }

    /// Whether this is a symbolic link.
    pub fn is_symlink(&self) -> (r: bool)
        ensures
            r == self.says(EntryKind::Symlink),
    {
        self.is_symlink
    }
}

/// One entry of a directory.
#[derive(Debug, Clone, PartialEq, Eq)]
pub struct DirEntry {
    path: String,
    file_type: FileType,
}

impl DirEntry {
    /// The entry's path, as a mathematical value.
    pub closed spec fn text(&self) -> Seq<char> {
        self.path@
    }

    /// The entry's type, as a mathematical value.
    pub closed spec fn kind(&self) -> FileType {
        self.file_type
    }

    /// An entry from its path and type.
    pub fn new(path: String, file_type: FileType) -> (r: DirEntry)
        ensures
            r.text() == path@,
            r.kind() == file_type,
    {
        DirEntry { path, file_type }
    }

    /// The full path of the entry.
    pub fn path(&self) -> (r: &str)
        ensures
            r@ == self.text(),
    {
        self.path.as_str()
    }

    /// The final component of the entry's path.
    pub fn file_name(&self) -> (r: Option<String>)
        ensures
            match r {
                Some(name) => last_name(components(self.text())) == Some(name@),
                None => last_name(components(self.text())) is None,
            },
    {
        path::file_name(self.path.as_str())
    }

    /// The entry's type.
    pub fn file_type(&self) -> (r: FileType)
        ensures
            r == self.kind(),
    {
        self.file_type
    }
}

/// std's point in time.
#[verifier::external_type_specification]
#[verifier::external_body]
pub struct ExSystemTime(std::time::SystemTime);

/// Metadata about a storage entry, as far as the library needs it.
#[derive(Debug, Clone, Copy, PartialEq, Eq)]
pub struct Metadata {
    file_type: FileType,
    len: u64,
    modified: Option<std::time::SystemTime>,
}

/// What is said when a storage does not report when an entry was last modified.
pub const NO_MODIFIED_TIME: &'static str = "modified time unavailable";

impl Metadata {
    /// The entry's type, as a mathematical value.
    pub closed spec fn kind(&self) -> FileType {
        self.file_type
    }

    /// The entry's size, as a mathematical value.
    pub closed spec fn size(&self) -> u64 {
        self.len
    }

    /// When the entry was last modified, as a mathematical value.
    pub closed spec fn time(&self) -> Option<std::time::SystemTime> {
        self.modified
    }

    /// Metadata from its parts.
    pub fn new(file_type: FileType, len: u64, modified: Option<std::time::SystemTime>) -> (r:
        Metadata)
        ensures
            r.kind() == file_type,
            r.size() == len,
            r.time() == modified,
    {
        Metadata { file_type, len, modified }
    }

    /// The entry's type.
    pub fn file_type(&self) -> (r: FileType)
        ensures
            r == self.kind(),
    {
        self.file_type
    }

    /// Whether the entry is a regular file.
    pub fn is_file(&self) -> (r: bool)
        ensures
            r == self.kind().says(EntryKind::File),
    {
        self.file_type.is_file()
    }

    /// Whether the entry is a directory.
    pub fn is_dir(&self) -> (r: bool)
        ensures
            r == self.kind().says(EntryKind::Dir),
    {
        self.file_type.is_dir()
    }

    /// Size in bytes.
    pub fn len(&self) -> (r: u64)
        ensures
            r == self.size(),
    {
        self.len
    }

    /// Whether the entry is empty.
    pub fn is_empty(&self) -> (r: bool)
        ensures
            r == (self.size() == 0),
    {
        self.len == 0
    }

    /// When the entry was last modified, if the storage reports it.
    pub fn modified(&self) -> (r: Result<std::time::SystemTime, StorageError>)
        ensures
            match r {
                Ok(t) => self.time() == Some(t),
                Err(e) => self.time() is None && e.kind == StorageErrorKind::Unsupported
                    && e.message@ == NO_MODIFIED_TIME@,
            },
    {
        match self.modified {
            Some(t) => Ok(t),
            None => Err(
                StorageError {
                    kind: StorageErrorKind::Unsupported,
                    message: NO_MODIFIED_TIME.to_owned(),
                },
            ),
        }
    }
}

/// Whether a path exists, told from what asking for its metadata gave: it does when
/// there is metadata, it does not when nothing was found, and any other failure is a
/// failure of the question.
pub fn try_exists(metadata: Result<Metadata, StorageError>) -> (r: Result<bool, StorageError>)
    ensures
        match metadata {
            Ok(_) => r == Ok::<bool, StorageError>(true),
            Err(e) => if e.kind == StorageErrorKind::NotFound {
                r == Ok::<bool, StorageError>(false)
            } else {
                r == Err::<bool, StorageError>(e)
            },
        },
{
    match metadata {
        Ok(_) => Ok(true),
        Err(e) => if e.kind == StorageErrorKind::NotFound {
            Ok(false)
        } else {
            Err(e)
        },
    }
}

// ---- the atomic-write protocol ----

/// The name of a staging file for a file name.
pub open spec fn temp_name(name: Seq<char>) -> Seq<char> {
    seq!['.'] + name + ".colophon-tmp"@
}

/// The components of the staging file for a path: a sibling of the path's file, or a
/// child of a path that ends in no name.
pub open spec fn temp_comps(cs: Seq<Comp>) -> Seq<Comp> {
    match last_name(cs) {
        Some(name) => dir_comps(cs).push(Comp::Name(temp_name(name))),
        None => cs.push(Comp::Name(temp_name("document"@))),
    }
}

/// The staging file for a path.
pub open spec fn temp_text(target: Seq<char>) -> Seq<char> {
    path_text(temp_comps(components(target)))
}

/// The staging file's path has the components it was made of, and is not the path it
/// stands in for.
pub proof fn lemma_temp(target: Seq<char>)
    ensures
        components(temp_text(target)) == temp_comps(components(target)),
        components(temp_text(target)) != components(target),
{
    let cs = components(target);
    let ts = temp_comps(cs);
    lemma_components_well_formed(target);
    reveal_strlit(".colophon-tmp");
    reveal_strlit("document");
    let name = match last_name(cs) {
        Some(n) => n,
        None => "document"@,
    };
    if last_name(cs) is Some {
        assert(cs[cs.len() - 1] == Comp::Name(name));
    }
    assert(valid_name(name));
    let temp = temp_name(name);
    assert(temp.len() == name.len() + 14);
    assert forall|i: int| 0 <= i < temp.len() implies temp[i] != '/' by {
        if 0 < i <= name.len() {
            assert(temp[i] == name[i - 1]);
        }
    }
    assert(valid_name(temp));
    assert(well_formed(ts)) by {
        assert forall|i: int| 0 <= i < ts.len() implies match #[trigger] ts[i] {
            Comp::Root => i == 0,
            Comp::Cur => i == 0,
            Comp::Up => true,
            Comp::Name(n) => valid_name(n),
        } by {
            if i < ts.len() - 1 {
                assert(ts[i] == cs[i]);
            }
        }
    }
    path_text_reads_back(ts);
    if ts == cs {
        assert(ts.last() == Comp::Name(temp));
        assert(last_name(cs) == Some(temp));
    }
}

/// The staging file for a path: a dotted, suffixed name in the target's own directory,
/// so that it reads as plainly the library's, and the rename that follows never crosses
/// a file system boundary.
pub fn temp_sibling(target: &str) -> (r: String)
    ensures
        r@ == temp_text(target@),
{
    let list = path::parse(target);
    let mut name = String::new();
    name.push('.');
    let mut out: Vec<Component> = Vec::new();
    proof {
        assert(path::comps(out@) =~= Seq::empty());
    }
    match path::file_name(target) {
        Some(n) => {
            name.append(n.as_str());
            out = path::dir(&list);
        },
        None => {
            name.append("document");
            out = list;
        },
    }
    name.append(".colophon-tmp");
    let ghost before = path::comps(out@);
    out.push(Component::Normal(name));
    proof {
        assert(path::comps(out@) =~= before.push(Comp::Name(name@)));
        assert(path::comps(out@) =~= temp_comps(components(target@)));
    }
    path::render(&out)
}

/// One step of a write, for the storage to carry out.
#[derive(Debug, Clone, PartialEq, Eq)]
pub enum Action {
    /// Write the new contents to a path.
    Write(String),
    /// Flush a path, and the directory entry that names it.
    Sync(String),
    /// Rename a path over another.
    Rename(String, String),
    /// Remove a path.
    Remove(String),
}

/// A step of a write, as a mathematical value.
pub enum ActionView {
    /// See [`Action::Write`].
    Write(Seq<char>),
    /// See [`Action::Sync`].
    Sync(Seq<char>),
    /// See [`Action::Rename`].
    Rename(Seq<char>, Seq<char>),
    /// See [`Action::Remove`].
    Remove(Seq<char>),
}

impl View for Action {
    type V = ActionView;

    open spec fn view(&self) -> ActionView {
        match self {
            Action::Write(p) => ActionView::Write(p@),
            Action::Sync(p) => ActionView::Sync(p@),
            Action::Rename(a, b) => ActionView::Rename(a@, b@),
            Action::Remove(p) => ActionView::Remove(p@),
        }
    }
}

/// How far a write is.
#[derive(Debug, Clone, Copy, PartialEq, Eq, Structural)]
pub enum Stage {
    /// The new contents go to the staging file.
    Stage,
    /// The staging file is flushed, so that its bytes are on disk.
    Flush,
    /// The staging file is renamed over the target: the atomic instant.
    Swap,
    /// The staging file of a failed attempt is removed.
    Clean,
    /// The new contents go straight to the target.
    Direct,
    /// The target is flushed, which makes a rename durable.
    Settle,
    /// Nothing is left to do.
    Done,
}

/// A write that replaces a file's contents atomically and durably, over a storage that
/// can; a plain durable write over one that cannot.
///
/// The contents go to a staging file, which is flushed and then renamed over the
/// target; the target is flushed last. The staging file is removed on any failure, so
/// a torn attempt leaves the target exactly as it was and no litter behind. A storage
/// that cannot rename atomically gets a plain durable write instead, which makes no
/// claim to survive a crash.
#[derive(Debug, Clone, PartialEq, Eq)]
pub struct AtomicWrite {
    target: String,
    temp: String,
    stage: Stage,
    failure: Option<StorageError>,
}

/// A write under way, as a mathematical value.
pub struct WriteView {
    /// The path that is written.
    pub target: Seq<char>,
    /// How far the write is.
    pub stage: Stage,
    /// The failure the write ends with, if it failed.
    pub failure: Option<(StorageErrorKind, Seq<char>)>,
}

/// The view of a failure.
pub open spec fn failure_view(e: Option<StorageError>) -> Option<(StorageErrorKind, Seq<char>)> {
    match e {
        Some(e) => Some((e.kind, e.message@)),
        None => None,
    }
}

/// The failure of a step, if it failed.
pub open spec fn step_failure(r: Result<(), StorageError>) -> Option<
    (StorageErrorKind, Seq<char>),
> {
    match r {
        Ok(_) => None,
        Err(e) => Some((e.kind, e.message@)),
    }
}

/// The next step of a write.
pub open spec fn action_of(v: WriteView) -> Option<ActionView> {
    let temp = temp_text(v.target);
    match v.stage {
        Stage::Stage => Some(ActionView::Write(temp)),
        Stage::Flush => Some(ActionView::Sync(temp)),
        Stage::Swap => Some(ActionView::Rename(temp, v.target)),
        Stage::Clean => Some(ActionView::Remove(temp)),
        Stage::Direct => Some(ActionView::Write(v.target)),
        Stage::Settle => Some(ActionView::Sync(v.target)),
        Stage::Done => None,
    }
}

/// How far a write is after its next step, given the failure of that step.
pub open spec fn after_action(
    v: WriteView,
    failure: Option<(StorageErrorKind, Seq<char>)>,
) -> WriteView {
    match (v.stage, failure) {
        (Stage::Stage, None) => WriteView { stage: Stage::Flush, ..v },
        (Stage::Flush, None) => WriteView { stage: Stage::Swap, ..v },
        (Stage::Swap, None) => WriteView { stage: Stage::Settle, ..v },
        (Stage::Direct, None) => WriteView { stage: Stage::Settle, ..v },
        (Stage::Settle, None) => WriteView { stage: Stage::Done, ..v },
        (Stage::Stage, Some(_)) => WriteView { stage: Stage::Clean, failure, ..v },
        (Stage::Flush, Some(_)) => WriteView { stage: Stage::Clean, failure, ..v },
        (Stage::Swap, Some(_)) => WriteView { stage: Stage::Clean, failure, ..v },
        (Stage::Direct, Some(_)) => WriteView { stage: Stage::Done, failure, ..v },
        (Stage::Settle, Some(_)) => WriteView { stage: Stage::Done, failure, ..v },
        (Stage::Clean, _) => WriteView { stage: Stage::Done, ..v },
        (Stage::Done, _) => v,
    }
}

impl View for AtomicWrite {
    type V = WriteView;

    closed spec fn view(&self) -> WriteView {
        WriteView {
            target: self.target@,
            stage: self.stage,
            failure: failure_view(self.failure),
        }
    }
}

impl AtomicWrite {
    /// Whether the staging file is the target's.
    pub closed spec fn wf(&self) -> bool {
        self.temp@ == temp_text(self.target@)
    }

    /// Begins writing `target` over a storage with these capabilities.
    pub fn write_atomic(target: &str, capabilities: Capabilities) -> (r: AtomicWrite)
        ensures
            r.wf(),
            r@ == (WriteView {
                target: target@,
                stage: if capabilities.atomic_replace {
                    Stage::Stage
                } else {
                    Stage::Direct
                },
                failure: None,
            }),
    {
        AtomicWrite {
            target: target.to_owned(),
            temp: temp_sibling(target),
            stage: if capabilities.atomic_replace {
                Stage::Stage
            } else {
                Stage::Direct
            },
            failure: None,
        }
    }

    /// The next step to carry out, if one is left.
    pub fn action(&self) -> (r: Option<Action>)
        requires
            self.wf(),
        ensures
            match r {
                Some(a) => action_of(self@) == Some(a@),
                None => action_of(self@) is None,
            },
    {
        match self.stage {
            Stage::Stage => Some(Action::Write(self.temp.clone())),
            Stage::Flush => Some(Action::Sync(self.temp.clone())),
            Stage::Swap => Some(Action::Rename(self.temp.clone(), self.target.clone())),
            Stage::Clean => Some(Action::Remove(self.temp.clone())),
            Stage::Direct => Some(Action::Write(self.target.clone())),
            Stage::Settle => Some(Action::Sync(self.target.clone())),
            Stage::Done => None,
        }
    }

    /// Takes note of how the step that was next ended.
    pub fn advance(&mut self, outcome: Result<(), StorageError>)
        requires
            old(self).wf(),
        ensures
            final(self).wf(),
            final(self)@ == after_action(old(self)@, step_failure(outcome)),
    {
        match outcome {
            Ok(_) => {
                self.stage = match self.stage {
                    Stage::Stage => Stage::Flush,
                    Stage::Flush => Stage::Swap,
                    Stage::Swap => Stage::Settle,
                    Stage::Direct => Stage::Settle,
                    Stage::Settle => Stage::Done,
                    Stage::Clean => Stage::Done,
                    Stage::Done => Stage::Done,
                };
            },
            Err(e) => match self.stage {
                Stage::Stage | Stage::Flush | Stage::Swap => {
                    self.stage = Stage::Clean;
                    self.failure = Some(e);
                },
                Stage::Direct | Stage::Settle => {
                    self.stage = Stage::Done;
                    self.failure = Some(e);
                },
                Stage::Clean | Stage::Done => {
                    self.stage = Stage::Done;
                },
            },
        }
    }

    /// How the write ended.
    pub fn outcome(self) -> (r: Result<(), StorageError>)
        ensures
            step_failure(r) == self@.failure,
    {
        match self.failure {
            Some(e) => Err(e),
            None => Ok(()),
        }
    }
}

/// What the files of a storage hold, by the components of their paths.
pub type Files = Map<Seq<Comp>, Seq<u8>>;

/// What a file holds, if it is there.
pub open spec fn held(files: Files, path: Seq<char>) -> Option<Seq<u8>> {
    if files.contains_key(components(path)) {
        Some(files[components(path)])
    } else {
        None
    }
}

/// Whether a step that writes `new` can lead from one state of the files to another.
/// A write that fails can leave anything at its own path; a rename that fails changes
/// nothing, which is what a storage promises that replaces atomically.
pub open spec fn can_lead(
    before: Files,
    action: ActionView,
    failed: bool,
    after: Files,
    new: Seq<u8>,
) -> bool {
    match action {
        ActionView::Write(p) => if failed {
            after.remove(components(p)) == before.remove(components(p))
        } else {
            after == before.insert(components(p), new)
        },
        ActionView::Sync(_) => after == before,
        ActionView::Rename(a, b) => if failed {
            after == before
        } else {
            before.contains_key(components(a)) && after == before.remove(components(a)).insert(
                components(b),
                before[components(a)],
            )
        },
        ActionView::Remove(p) => if failed {
            after == before
        } else {
            after == before.remove(components(p))
        },
    }
}

/// What holds between the steps of an atomic write of `new` over a file that held
/// `was`: until the rename the target holds what it held, from then on the new contents.
pub open spec fn intact(v: WriteView, files: Files, was: Option<Seq<u8>>, new: Seq<u8>) -> bool {
    match v.stage {
        Stage::Stage => held(files, v.target) == was && v.failure is None,
        Stage::Flush | Stage::Swap => held(files, v.target) == was && held(
            files,
            temp_text(v.target),
        ) == Some(new) && v.failure is None,
        Stage::Clean => held(files, v.target) == was && v.failure is Some,
        Stage::Direct => false,
        Stage::Settle => held(files, v.target) == Some(new) && v.failure is None,
        Stage::Done => match v.failure {
            None => held(files, v.target) == Some(new),
            Some(_) => held(files, v.target) == was || held(files, v.target) == Some(new),
        },
    }
}

/// Law: an atomic write never tears the target. From its beginning, whatever each step
/// comes to, the target holds all of what it held or all of the new contents.
pub proof fn atomic_write_keeps_the_target_whole(
    v: WriteView,
    before: Files,
    failure: Option<(StorageErrorKind, Seq<char>)>,
    after: Files,
    was: Option<Seq<u8>>,
    new: Seq<u8>,
)
    requires
        intact(v, before, was, new),
        match action_of(v) {
            Some(a) => can_lead(before, a, failure is Some, after, new),
            None => after == before,
        },
    ensures
        intact(after_action(v, failure), after, was, new),
        held(after, v.target) == was || held(after, v.target) == Some(new),
{
    lemma_temp(v.target);
    let t = components(v.target);
    let x = components(temp_text(v.target));
    match action_of(v) {
        Some(ActionView::Write(p)) => {
            if failure is Some {
                assert(before.remove(x).contains_key(t) == after.remove(x).contains_key(t));
                if before.contains_key(t) {
                    assert(before.remove(x)[t] == after.remove(x)[t]);
                }
            }
        },
        _ => {},
    }
}

/// Law: an atomic write over a storage that promises atomic replacement begins intact.
pub proof fn atomic_write_begins_intact(target: Seq<char>, files: Files, new: Seq<u8>)
    ensures
        intact(
            WriteView { target, stage: Stage::Stage, failure: None },
            files,
            held(files, target),
            new,
        ),
{
}

/// Law: an attempt that fails before the target was replaced ends with the target as it
/// was, and without the staging file where that could be removed.
pub proof fn torn_attempt_leaves_no_litter(
    v: WriteView,
    before: Files,
    after: Files,
    was: Option<Seq<u8>>,
    new: Seq<u8>,
)
    requires
        v.stage == Stage::Clean,
        intact(v, before, was, new),
        action_of(v) matches Some(a) && can_lead(before, a, false, after, new),
    ensures
        after_action(v, None).stage == Stage::Done,
        after_action(v, None).failure == v.failure,
        held(after, v.target) == was,
        held(after, temp_text(v.target)) is None,
{
    lemma_temp(v.target);
}

/// Law: a write over a storage that does not promise atomic replacement never names a
/// staging file.
pub proof fn plain_write_names_the_target_alone(v: WriteView, failure: Option<(StorageErrorKind, Seq<char>)>)
    requires
        v.stage == Stage::Direct || v.stage == Stage::Settle || v.stage == Stage::Done,
    ensures
        match action_of(v) {
            Some(ActionView::Write(p)) => p == v.target,
            Some(ActionView::Sync(p)) => p == v.target,
            Some(_) => false,
            None => true,
        },
        ({
            let next = after_action(v, failure).stage;
            next == Stage::Settle || next == Stage::Done
        }),
{
}

/// Law: the staging file stands beside the target, under the target's name between a dot and
/// a suffix, or inside a target that ends in no name.
pub proof fn staging_file_stands_beside_the_target(target: Seq<char>)
    ensures
        ({
            let cs = components(target);
            let ts = components(temp_text(target));
            if cs.len() > 0 && cs.last() is Name {
                ts == cs.drop_last().push(
                    Comp::Name("."@ + cs.last()->Name_0 + ".colophon-tmp"@),
                )
            } else {
                ts == cs.push(Comp::Name(".document.colophon-tmp"@))
            }
        }),
{
    lemma_temp(target);
    let cs = components(target);
    reveal_strlit(".");
    reveal_strlit("document");
    reveal_strlit(".colophon-tmp");
    reveal_strlit(".document.colophon-tmp");
    if cs.len() > 0 && cs.last() is Name {
        let name = cs.last()->Name_0;
        assert(temp_name(name) =~= "."@ + name + ".colophon-tmp"@);
        assert(dir_comps(cs) =~= cs.drop_last());
    } else {
        assert(temp_name("document"@) =~= ".document.colophon-tmp"@);
    }
}

/// Law: the first failure of a write is the one it ends with. A failure of the cleaning up
/// after it is not told, and a step that succeeds tells of none. The target stays the same.
pub proof fn first_failure_is_told(v: WriteView, failure: Option<(StorageErrorKind, Seq<char>)>)
    requires
        v.stage == Stage::Clean <==> v.failure is Some && v.stage != Stage::Done,
    ensures
        after_action(v, failure).target == v.target,
        action_of(v) is Some && v.failure is None ==> after_action(v, failure).failure == failure,
        action_of(v) is None || v.failure is Some ==> after_action(v, failure).failure == v.failure,
{
}

/// Law: a file is renamed over the target only after its contents were written and then
/// flushed, and a write that has succeeded ended with a flush of the target. What fails before
/// the rename is cleaned up, and no more is written.
pub proof fn nothing_unflushed_takes_the_place(
    v: WriteView,
    failure: Option<(StorageErrorKind, Seq<char>)>,
)
    ensures
        ({
            let next = after_action(v, failure);
            let temp = temp_text(v.target);
            &&& action_of(next) matches Some(ActionView::Rename(a, b)) ==> {
                &&& failure is None
                &&& action_of(v) == Some(ActionView::Sync(a))
                &&& a == temp && b == v.target
            }
            &&& action_of(next) == Some(ActionView::Sync(temp)) && temp != v.target ==> {
                &&& failure is None
                &&& action_of(v) == Some(ActionView::Write(temp))
            }
            &&& action_of(next) is None && action_of(v) is Some && next.failure is None
                && v.stage != Stage::Clean ==> {
                &&& failure is None
                &&& action_of(v) == Some(ActionView::Sync(v.target))
            }
            &&& action_of(v) == Some(ActionView::Rename(temp, v.target)) && failure is None
                ==> action_of(next) == Some(ActionView::Sync(v.target))
            &&& failure is Some && (v.stage == Stage::Stage || v.stage == Stage::Flush || v.stage
                == Stage::Swap) ==> action_of(next) == Some(ActionView::Remove(temp))
            &&& failure is Some && !(v.stage == Stage::Stage || v.stage == Stage::Flush || v.stage
                == Stage::Swap) ==> action_of(next) is None
        }),
{
}

/// How many steps are left of a write at most.
pub open spec fn steps_left(stage: Stage) -> nat {
    match stage {
        Stage::Stage => 4,
        Stage::Flush => 3,
        Stage::Swap => 2,
        Stage::Direct => 2,
        Stage::Clean => 1,
        Stage::Settle => 1,
        Stage::Done => 0,
    }
}

/// Law: a write comes to an end: each step leaves fewer to be taken, and none is left to take
/// once it is over.
pub proof fn write_comes_to_an_end(v: WriteView, failure: Option<(StorageErrorKind, Seq<char>)>)
    ensures
        action_of(v) is Some <==> steps_left(v.stage) > 0,
        action_of(v) is Some ==> steps_left(after_action(v, failure).stage) < steps_left(v.stage),
{
}

} // verus!
