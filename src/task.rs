use vstd::prelude::*;

verus! {

/// Fewest characters a title may have.
pub const TITLE_MIN_CHARS: usize = 1;

/// Most characters a title may have.
pub const TITLE_MAX_CHARS: usize = 255;

/// A title is acceptable when its length in characters lies in 1..=255.
pub open spec fn title_ok(title: Seq<char>) -> bool {
    TITLE_MIN_CHARS <= title.len() <= TITLE_MAX_CHARS
}

/// Checks the length rule for a title, counting characters.
pub fn validate_title(title: &String) -> (r: bool)
    ensures
        r == title_ok(title@),
{
    let n = title.as_str().unicode_len();
    TITLE_MIN_CHARS <= n && n <= TITLE_MAX_CHARS
}

/// One task record. Timestamps are microseconds since the Unix epoch.
#[derive(Debug, PartialEq, Eq)]
pub struct Task {
    pub id: u128,
    pub title: String,
    pub description: Option<String>,
    pub completed: bool,
    pub created_at: i64,
    pub updated_at: i64,
}

/// A copy of an optional text.
pub fn copy_text(s: &Option<String>) -> (r: Option<String>)
    ensures
        r == *s,
{
    match s {
        Some(t) => Some(t.clone()),
        None => None,
    }
}

impl Clone for Task {
    fn clone(&self) -> (r: Self)
        ensures
            r == *self,
    {
        Task {
            id: self.id,
            title: self.title.clone(),
            description: copy_text(&self.description),
            completed: self.completed,
            created_at: self.created_at,
            updated_at: self.updated_at,
        }
    }
}

/// What a request to the store can fail with.
#[derive(Debug, Clone, Copy, PartialEq, Eq, Structural)]
pub enum AppError {
    /// A title outside 1..=255 characters.
    Validation,
    /// No task has the requested identifier.
    NotFound,
    /// An unexpected failure, such as running out of fresh identifiers.
    Internal,
}

impl AppError {
    pub open spec fn spec_status_code(self) -> u16 {
        match self {
            AppError::Validation => 422,
            AppError::NotFound => 404,
            AppError::Internal => 500,
        }
    }

    /// The HTTP status that reports this error.
    pub fn status_code(&self) -> (r: u16)
        ensures
            r == self.spec_status_code(),
    {
        match self {
            AppError::Validation => 422,
            AppError::NotFound => 404,
            AppError::Internal => 500,
        }
    }

    /// A short human-readable description of the error.
    pub fn message(&self) -> (r: String)
        ensures
            *self == AppError::Validation ==> r@ == "Title must be between 1 and 255 characters"@,
            *self == AppError::NotFound ==> r@ == "Task not found"@,
            *self == AppError::Internal ==> r@ == "Internal server error"@,
    {
        match self {
            AppError::Validation => String::from_str("Title must be between 1 and 255 characters"),
            AppError::NotFound => String::from_str("Task not found"),
            AppError::Internal => String::from_str("Internal server error"),
        }
    }
}

/// The fields of a new task, as a caller supplies them.
#[derive(Debug)]
pub struct CreateTaskRequest {
    pub title: String,
    pub description: Option<String>,
}

/// The fields to change on a task; each one left `None` stays as it is.
#[derive(Debug)]
pub struct UpdateTaskRequest {
    pub title: Option<String>,
    pub description: Option<String>,
    pub completed: Option<bool>,
}

} // verus!
