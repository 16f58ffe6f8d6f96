//! Errors.
use vstd::prelude::*;

verus! {

/// What kind of failure a storage reported.
#[derive(Debug, Clone, Copy, PartialEq, Eq, Structural)]
pub enum StorageErrorKind {
    /// Nothing exists at the path.
    NotFound,
    /// Something already exists at the path.
    AlreadyExists,
    /// The storage cannot do what was asked.
    Unsupported,
    /// Any other failure.
    Other,
}

/// A failure a storage reported.
#[derive(Debug, Clone, PartialEq, Eq)]
pub struct StorageError {
    /// What kind of failure it was.
    pub kind: StorageErrorKind,
    /// The storage's own words.
    pub message: String,
}

/// Everything that can go wrong in a workspace.
#[derive(Debug, Clone, PartialEq, Eq)]
pub enum WorkspaceError {
    /// The workspace or a document is not laid out as the operation needs it.
    Structure(String),
    /// The storage failed.
    Io(StorageError),
    /// Metadata could not be read, written or edited.
    Fig(String),
}

/// An error, as a mathematical value.
pub enum Failure {
    /// See [`WorkspaceError::Structure`].
    Structure(Seq<char>),
    /// See [`WorkspaceError::Io`].
    Io(StorageErrorKind, Seq<char>),
    /// See [`WorkspaceError::Fig`].
    Fig(Seq<char>),
}

impl View for WorkspaceError {
    type V = Failure;

    open spec fn view(&self) -> Failure {
        match self {
            WorkspaceError::Structure(m) => Failure::Structure(m@),
            WorkspaceError::Io(e) => Failure::Io(e.kind, e.message@),
            WorkspaceError::Fig(m) => Failure::Fig(m@),
        }
    }
}

/// The text of an error.
pub open spec fn failure_text(f: Failure) -> Seq<char> {
    match f {
        Failure::Structure(m) => m,
        Failure::Io(_, m) => m,
        Failure::Fig(m) => m,
    }
}

impl WorkspaceError {
    /// The text of the error.
    pub fn message(&self) -> (r: String)
        ensures
            r@ == failure_text(self@),
    {
        match self {
            WorkspaceError::Structure(m) => m.clone(),
            WorkspaceError::Io(e) => e.message.clone(),
            WorkspaceError::Fig(m) => m.clone(),
        }
    }
}

/// The outcome of an operation that gives nothing back.
pub open spec fn done(r: Result<(), WorkspaceError>) -> Result<(), Failure> {
    match r {
        Ok(_) => Ok(()),
        Err(e) => Err(e@),
    }
}

/// The outcome of an operation that gives a text back.
pub open spec fn text_result(r: Result<String, WorkspaceError>) -> Result<Seq<char>, Failure> {
    match r {
        Ok(t) => Ok(t@),
        Err(e) => Err(e@),
    }
}

/// An outcome of `fig`, its error text as an error of the workspace.
pub open spec fn fig_result<T>(r: Result<T, Seq<char>>) -> Result<T, Failure> {
    match r {
        Ok(x) => Ok(x),
        Err(m) => Err(Failure::Fig(m)),
    }
}

/// Law: the text of an error is the words it was made with, whatever kind it is.
pub proof fn errors_say_their_own_words(kind: StorageErrorKind, m: Seq<char>)
    ensures
        failure_text(Failure::Structure(m)) == m,
        failure_text(Failure::Io(kind, m)) == m,
        failure_text(Failure::Fig(m)) == m,
{
}

} // verus!
