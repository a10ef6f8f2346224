//! The error kinds of the configuration engine.

use vstd::prelude::*;

verus! {

/// Spec-level image of a [`ProjectError`], with string fields as `Seq<char>`.
pub ghost enum ErrorView {
    UnsupportedFileFormat { ext: Seq<char> },
    ExistingFile { path: Seq<char> },
    FileParseError { path: Seq<char>, detail: Seq<char> },
    IncompatibleConfigType { key: Seq<char> },
    InvalidRunnerEntry { name: Seq<char> },
}

/// An error of the configuration engine. Every operation is fail-fast:
/// any of these aborts the enclosing load, merge or resolution.
#[derive(Debug)]
pub enum ProjectError {
    /// A document path does not carry the required extension; carries the
    /// extension (or, when there is none, the file name) that was found.
    UnsupportedFileFormat { ext: String },
    /// A file that was about to be created already exists.
    ExistingFile { path: String },
    /// The document reader could not parse a file; carries the path and the
    /// reader's diagnostic.
    FileParseError { path: String, detail: String },
    /// A merge tried to combine a map-valued and a scalar-valued config
    /// under the same key; carries that key.
    IncompatibleConfigType { key: String },
    /// A default runner entry or a resolution token matches no alias in the
    /// runner's `valid` table; carries the offending name.
    InvalidRunnerEntry { name: String },
}

impl View for ProjectError {
    type V = ErrorView;

    open spec fn view(&self) -> ErrorView {
        match self {
            ProjectError::UnsupportedFileFormat { ext } => ErrorView::UnsupportedFileFormat {
                ext: ext@,
            },
            ProjectError::ExistingFile { path } => ErrorView::ExistingFile { path: path@ },
            ProjectError::FileParseError { path, detail } => ErrorView::FileParseError {
                path: path@,
                detail: detail@,
            },
            ProjectError::IncompatibleConfigType { key } => ErrorView::IncompatibleConfigType {
                key: key@,
            },
            ProjectError::InvalidRunnerEntry { name } => ErrorView::InvalidRunnerEntry {
                name: name@,
            },
        }
    }
}

} // verus!
