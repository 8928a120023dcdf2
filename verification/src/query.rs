//! Results of workspace queries, the errors they report, and the plain
//! values that workspace operations take and return.
use vstd::prelude::*;
use crate::text::{chars_of, extend_chars, string_from_chars};

verus! {

/// Whether a query saw every document's current semantic records.
#[derive(Debug, Clone, Copy, PartialEq, Eq, Structural)]
pub enum QueryCompleteness {
    Complete,
    Partial,
}

/// Where a query's records came from.
#[derive(Debug, Clone, Copy, PartialEq, Eq, Structural)]
pub enum QueryProvenance {
    Memory,
    Persistent,
    PersistentWithOverlay,
}

/// Why a query failed: the persistent store reported an error (its
/// message), or a complete result was required and the result was partial.
#[derive(Debug, Clone, PartialEq, Eq)]
pub enum WorkspaceQueryError {
    Store(String),
    Incomplete,
}

/// The text of a query error.
pub open spec fn query_error_text(e: WorkspaceQueryError) -> Seq<char> {
    match e {
        WorkspaceQueryError::Store(message) => message@,
        WorkspaceQueryError::Incomplete => "workspace query result is incomplete"@,
    }
}

impl WorkspaceQueryError {
    /// The error as text.
    pub fn message(&self) -> (text: String)
        ensures
            text@ == query_error_text(*self),
    {
        match self {
            WorkspaceQueryError::Store(message) => message.clone(),
            WorkspaceQueryError::Incomplete => "workspace query result is incomplete".to_string(),
        }
    }
}

/// Why a task edit was refused.
#[derive(Debug, Clone, Copy, PartialEq, Eq, Structural)]
pub enum TaskEditError {
    StaleOrInvalidDocument,
    TaskNotFound,
    TaskAlreadyClosed,
    TaskBlocked,
    InvalidRecurrence,
    InvalidTimestamp,
    ListItemNotFound,
    TaskAlreadyExists,
    CreatedAlreadyExists,
    GeneratedInvalid,
    InvalidFocusHistory,
    ClockRegression,
}

/// The text of a task edit error.
pub open spec fn task_edit_error_text(e: TaskEditError) -> Seq<char> {
    match e {
        TaskEditError::StaleOrInvalidDocument => "task document is stale or invalid"@,
        TaskEditError::TaskNotFound => "task was not found"@,
        TaskEditError::TaskAlreadyClosed => "task is already closed"@,
        TaskEditError::TaskBlocked => "task is blocked by open dependencies"@,
        TaskEditError::InvalidRecurrence => "task recurrence is invalid"@,
        TaskEditError::InvalidTimestamp => "operation timestamp is invalid"@,
        TaskEditError::ListItemNotFound => "task list item was not found"@,
        TaskEditError::TaskAlreadyExists => "the list item is already a task"@,
        TaskEditError::CreatedAlreadyExists => "the task already has a created timestamp"@,
        TaskEditError::GeneratedInvalid => "the generated task edit is invalid"@,
        TaskEditError::InvalidFocusHistory => "task focus history is invalid"@,
        TaskEditError::ClockRegression => "the operation timestamp would violate focus interval ordering"@,
    }
}

impl TaskEditError {
    /// The error as text.
    pub fn message(self) -> (text: &'static str)
        ensures
            text@ == task_edit_error_text(self),
    {
        match self {
            TaskEditError::StaleOrInvalidDocument => "task document is stale or invalid",
            TaskEditError::TaskNotFound => "task was not found",
            TaskEditError::TaskAlreadyClosed => "task is already closed",
            TaskEditError::TaskBlocked => "task is blocked by open dependencies",
            TaskEditError::InvalidRecurrence => "task recurrence is invalid",
            TaskEditError::InvalidTimestamp => "operation timestamp is invalid",
            TaskEditError::ListItemNotFound => "task list item was not found",
            TaskEditError::TaskAlreadyExists => "the list item is already a task",
            TaskEditError::CreatedAlreadyExists => "the task already has a created timestamp",
            TaskEditError::GeneratedInvalid => "the generated task edit is invalid",
            TaskEditError::InvalidFocusHistory => "task focus history is invalid",
            TaskEditError::ClockRegression => "the operation timestamp would violate focus interval ordering",
        }
    }
}

/// A query's value with its completeness and provenance.
#[derive(Debug, Clone, PartialEq, Eq)]
pub struct QueryResult<T> {
    pub value: T,
    pub completeness: QueryCompleteness,
    pub provenance: QueryProvenance,
}

impl<T> QueryResult<T> {
    /// Whether the query saw everything.
    pub fn is_complete(&self) -> (complete: bool)
        ensures
            complete == (self.completeness == QueryCompleteness::Complete),
    {
        match self.completeness {
            QueryCompleteness::Complete => true,
            QueryCompleteness::Partial => false,
        }
    }

    /// The value of a complete result; a partial one is refused.
    pub fn require_complete(self) -> (result: Result<T, WorkspaceQueryError>)
        ensures
            self.completeness == QueryCompleteness::Complete ==> result == Ok::<T, WorkspaceQueryError>(
                self.value,
            ),
            self.completeness == QueryCompleteness::Partial ==> result == Err::<T, WorkspaceQueryError>(
                WorkspaceQueryError::Incomplete,
            ),
    {
        if self.is_complete() {
            Ok(self.value)
        } else {
            Err(WorkspaceQueryError::Incomplete)
        }
    }
}

/// The result a workspace builds for a query: memory alone, the persistent
/// store alone, or the store under open documents; partial while some valid
/// document has no current semantic records yet.
pub fn query_result<T>(
    value: T,
    has_store: bool,
    has_documents: bool,
    analysis_pending: bool,
) -> (result: QueryResult<T>)
    ensures
        result.value == value,
        result.completeness == (if analysis_pending {
            QueryCompleteness::Partial
        } else {
            QueryCompleteness::Complete
        }),
        result.provenance == (if !has_store {
            QueryProvenance::Memory
        } else if !has_documents {
            QueryProvenance::Persistent
        } else {
            QueryProvenance::PersistentWithOverlay
        }),
{
    let provenance = if !has_store {
        QueryProvenance::Memory
    } else if !has_documents {
        QueryProvenance::Persistent
    } else {
        QueryProvenance::PersistentWithOverlay
    };
    QueryResult {
        value,
        completeness: if analysis_pending {
            QueryCompleteness::Partial
        } else {
            QueryCompleteness::Complete
        },
        provenance,
    }
}

/// The files a workspace scan found and the errors it met on the way.
#[derive(Debug, Clone, PartialEq, Eq)]
pub struct WorkspaceScan {
    pub files: Vec<String>,
    pub errors: Vec<String>,
}

/// The texts joined with newlines between them.
pub open spec fn joined_lines(parts: Seq<Seq<char>>) -> Seq<char>
    decreases parts.len(),
{
    if parts.len() == 0 {
        seq![]
    } else if parts.len() == 1 {
        parts[0]
    } else {
        joined_lines(parts.drop_last()) + seq!['\n'] + parts.last()
    }
}

pub open spec fn texts(v: Seq<String>) -> Seq<Seq<char>> {
    v.map_values(|s: String| s@)
}

impl WorkspaceScan {
    /// Whether the scan met no error.
    pub fn is_complete(&self) -> (complete: bool)
        ensures
            complete == (self.errors.len() == 0),
    {
        self.errors.len() == 0
    }

    /// The files of a scan without errors, or all the errors, one per line.
    pub fn into_result(self) -> (result: Result<Vec<String>, String>)
        ensures
            self.errors.len() == 0 ==> (result matches Ok(files) && files@ == self.files@),
            self.errors.len() > 0 ==> (result matches Err(message) && message@ == joined_lines(
                texts(self.errors@),
            )),
    {
        if self.errors.len() == 0 {
            return Ok(self.files);
        }
        let mut message: Vec<char> = Vec::new();
        let mut i: usize = 0;
        while i < self.errors.len()
            invariant
                i <= self.errors.len(),
                message@ == joined_lines(texts(self.errors@).take(i as int)),
            decreases self.errors.len() - i,
        {
            if i > 0 {
                message.push('\n');
            }
            let part = chars_of(self.errors[i].as_str());
            extend_chars(&mut message, &part);
            proof {
                let t = texts(self.errors@);
                assert(t.take(i + 1).drop_last() == t.take(i as int));
                assert(t.take(i + 1).last() == self.errors@[i as int]@);
                if i == 0 {
                    assert(t.take(1)[0] == self.errors@[0]@);
                    assert(message@ =~= joined_lines(t.take(1)));
                }
            }
            i = i + 1;
        }
        assert(texts(self.errors@).take(self.errors.len() as int) == texts(self.errors@));
        Err(string_from_chars(&message))
    }
}

// ---------------------------------------------------------------------------
// Plain values of workspace operations.

/// Why an edit could not be applied to a document's source.
#[derive(Debug, Clone, Copy, PartialEq, Eq, Structural)]
pub enum ApplyDocumentEditError {
    DocumentNotEdited,
    RevisionMismatch,
    InvalidEdits,
}

/// A file-system operation that accompanies text edits.
#[derive(Debug, Clone, PartialEq, Eq)]
pub enum ResourceOperation {
    Rename { old_path: String, new_path: String },
}

/// An id that can be renamed, where it is written.
#[derive(Debug, PartialEq, Eq)]
pub struct RenameTarget {
    pub path: String,
    pub id: String,
    pub range: std::ops::Range<usize>,
}

/// Why a rename was refused.
#[derive(Debug, Clone, Copy, PartialEq, Eq, Structural)]
pub enum RenameError {
    NotRenameable,
    InvalidId,
    StaleOrInvalidDocument,
    OverlappingEdits,
    InvalidPath,
    TargetExists,
}

/// Why metadata could not be inserted.
#[derive(Debug, Clone, Copy, PartialEq, Eq, Structural)]
pub enum MetadataInsertError {
    StaleOrInvalidDocument,
    MetadataAlreadyExists,
    CursorNotAtDocumentStart,
    GeneratedInvalid,
}

/// Why an explicit id could not be added.
#[derive(Debug, Clone, Copy, PartialEq, Eq, Structural)]
pub enum ExplicitIdError {
    StaleOrInvalidDocument,
    BlockNotFound,
    IdAlreadyExists,
    GeneratedInvalid,
}

/// The fields of a task being written.
#[derive(Debug, Clone, PartialEq, Eq)]
pub struct TaskAuthoringInput {
    pub title: String,
    pub created: Option<String>,
    pub due: Option<String>,
    pub wait: Option<String>,
    pub recur: Option<String>,
    pub prev: Option<String>,
    pub depends: Vec<String>,
    pub priority: Option<i32>,
}

/// Where a new task goes: under a parent item, after a sibling.
#[derive(Debug, PartialEq, Eq)]
pub struct TaskPlacement {
    pub parent: Option<std::ops::Range<usize>>,
    pub after: Option<std::ops::Range<usize>>,
}

/// Changes to a task's fields; `None` leaves a field as it is.
#[derive(Debug, Clone, PartialEq, Eq)]
pub struct TaskAuthoringPatch {
    pub title: Option<String>,
    pub created: Option<Option<String>>,
    pub due: Option<Option<String>>,
    pub wait: Option<Option<String>>,
    pub recur: Option<Option<String>>,
    pub prev: Option<Option<String>>,
    pub depends: Option<Vec<String>>,
    pub priority: Option<Option<i32>>,
}

/// Why writing a task failed.
#[derive(Debug, Clone, Copy, PartialEq, Eq, Structural)]
pub enum TaskAuthoringError {
    StaleOrInvalidDocument,
    TaskNotFound,
    InvalidPlacement,
    InvalidDatetime,
    InvalidRecurrence,
    InvalidReference,
    UnresolvedReference,
    DependencyCycle,
    GeneratedInvalid,
}

/// A path written in a document that can be renamed.
#[derive(Debug, PartialEq, Eq)]
pub struct PathRenameTarget {
    pub old_path: String,
    pub range: std::ops::Range<usize>,
    pub input: PathRenameInput,
}

/// What the user types to rename a path: the whole path or the file stem.
#[derive(Debug, Clone, Copy, PartialEq, Eq, Structural)]
pub enum PathRenameInput {
    Path,
    FileStem,
}

/// One completion offered to the user.
#[derive(Debug, PartialEq, Eq)]
pub struct CompletionCandidate {
    pub label: String,
    pub detail: String,
    pub new_text: String,
    pub replace: std::ops::Range<usize>,
}

/// Where a document's metadata block is.
#[derive(Debug, PartialEq, Eq)]
pub struct DocumentMetadataTarget {
    pub range: std::ops::Range<usize>,
}

/// A reference to a whole document.
#[derive(Debug, PartialEq, Eq)]
pub struct DocumentReference {
    pub source_range: std::ops::Range<usize>,
    pub target_path: String,
}

/// Where a reference is written.
#[derive(Debug, PartialEq, Eq)]
pub struct ReferenceOccurrence {
    pub source_path: String,
    pub source_range: std::ops::Range<usize>,
}

/// The references to a document, and to each of its anchors by id.
#[derive(Debug, PartialEq, Eq)]
pub struct DocumentReverseReferences {
    pub document: Vec<ReferenceOccurrence>,
    pub anchors: Vec<(String, Vec<ReferenceOccurrence>)>,
}

/// A position in the event timeline: events without a sort instant come
/// last, then by instant, path and start offset.
#[derive(Debug, Clone, PartialEq, Eq)]
pub struct WorkspaceEventCursor {
    pub sort_millis: Option<i64>,
    pub path: String,
    pub start: usize,
}

/// A task named by its document and start offset.
#[derive(Debug, Clone, PartialEq, Eq)]
pub struct WorkspaceTaskKey {
    pub path: String,
    pub start: usize,
}

} // verus!
