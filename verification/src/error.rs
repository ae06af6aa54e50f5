//! The errors of the library, each with the text that describes it.

use vstd::prelude::*;
use vstd::string::StringExecFns;

verus! {

/// What can go wrong in an operation. `Io` and `Json` carry the text of a
/// failure of the storage layer.
#[derive(Debug)]
pub enum AppError {
    Io(String),
    Json(String),
    ServiceNotFound(String),
    EnvironmentNotFound(String),
    EnvironmentExists(String),
    InvalidPath(String),
    StateLock,
    RelationshipNotFound(String),
    DuplicateRelationship(String, String),
    ValidationError(String),
}

/// The mathematical value of an [`AppError`].
pub enum AppErrorView {
    Io(Seq<char>),
    Json(Seq<char>),
    ServiceNotFound(Seq<char>),
    EnvironmentNotFound(Seq<char>),
    EnvironmentExists(Seq<char>),
    InvalidPath(Seq<char>),
    StateLock,
    RelationshipNotFound(Seq<char>),
    DuplicateRelationship(Seq<char>, Seq<char>),
    ValidationError(Seq<char>),
}

impl DeepView for AppError {
    type V = AppErrorView;

    open spec fn deep_view(&self) -> AppErrorView {
        match self {
            AppError::Io(text) => AppErrorView::Io(text@),
            AppError::Json(text) => AppErrorView::Json(text@),
            AppError::ServiceNotFound(id) => AppErrorView::ServiceNotFound(id@),
            AppError::EnvironmentNotFound(name) => AppErrorView::EnvironmentNotFound(name@),
            AppError::EnvironmentExists(name) => AppErrorView::EnvironmentExists(name@),
            AppError::InvalidPath(path) => AppErrorView::InvalidPath(path@),
            AppError::StateLock => AppErrorView::StateLock,
            AppError::RelationshipNotFound(id) => AppErrorView::RelationshipNotFound(id@),
            AppError::DuplicateRelationship(source, target) => AppErrorView::DuplicateRelationship(
                source@,
                target@,
            ),
            AppError::ValidationError(text) => AppErrorView::ValidationError(text@),
        }
    }
}

/// The text that describes an error.
pub open spec fn error_message(error: AppErrorView) -> Seq<char> {
    match error {
        AppErrorView::Io(text) => "IO error: "@ + text,
        AppErrorView::Json(text) => "JSON parsing error: "@ + text,
        AppErrorView::ServiceNotFound(id) => "Service not found: "@ + id,
        AppErrorView::EnvironmentNotFound(name) => "Environment not found: "@ + name,
        AppErrorView::EnvironmentExists(name) => "Environment already exists: "@ + name,
        AppErrorView::InvalidPath(path) => "Invalid path: "@ + path,
        AppErrorView::StateLock => "State lock error"@,
        AppErrorView::RelationshipNotFound(id) => "Relationship not found: "@ + id,
        AppErrorView::DuplicateRelationship(source, target) => "Duplicate relationship: "@ + source
            + " -> "@ + target,
        AppErrorView::ValidationError(text) => "Validation error: "@ + text,
    }
}

fn labelled(label: &str, text: &String) -> (res: String)
    ensures
        res@ == label@ + text@,
{
    let mut out = String::from_str(label);
    out.append(text.as_str());
    out
}

impl AppError {
    /// Renders the error as the text shown to the user.
    pub fn message(&self) -> (res: String)
        ensures
            res@ == error_message(self.deep_view()),
    {
        match self {
            AppError::Io(text) => labelled("IO error: ", text),
            AppError::Json(text) => labelled("JSON parsing error: ", text),
            AppError::ServiceNotFound(id) => labelled("Service not found: ", id),
            AppError::EnvironmentNotFound(name) => labelled("Environment not found: ", name),
            AppError::EnvironmentExists(name) => labelled("Environment already exists: ", name),
            AppError::InvalidPath(path) => labelled("Invalid path: ", path),
            AppError::StateLock => String::from_str("State lock error"),
            AppError::RelationshipNotFound(id) => labelled("Relationship not found: ", id),
            AppError::DuplicateRelationship(source, target) => {
                let mut out = labelled("Duplicate relationship: ", source);
                out.append(" -> ");
                out.append(target.as_str());
                out
            },
            AppError::ValidationError(text) => labelled("Validation error: ", text),
        }
    }
}

} // verus!
