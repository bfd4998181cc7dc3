use vstd::prelude::*;

verus! {

/// The failure taxonomy shared by every store backend.
#[derive(Debug, PartialEq, Eq)]
pub enum RepositoryError {
    /// The referenced entity does not exist; holds the offending id.
    NotFound(i32),
    /// A label with the requested name already exists; holds the existing label's id.
    Duplicate(i32),
    /// An underlying storage failure not otherwise classified.
    Unexpected(String),
}

/// Spec-level mirror of `RepositoryError`, with the detail string as a
/// sequence of characters.
pub ghost enum ErrorView {
    NotFound(i32),
    Duplicate(i32),
    Unexpected(Seq<char>),
}

impl View for RepositoryError {
    type V = ErrorView;

    open spec fn view(&self) -> ErrorView {
        match self {
            RepositoryError::NotFound(id) => ErrorView::NotFound(*id),
            RepositoryError::Duplicate(id) => ErrorView::Duplicate(*id),
            RepositoryError::Unexpected(detail) => ErrorView::Unexpected(detail@),
        }
    }
}

} // verus!
