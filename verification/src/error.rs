//! Why an operation on loader entries is refused.

use vstd::prelude::*;

verus! {

broadcast use vstd::string::group_string_axioms;

/// Why a text is not a loader entry, or why an entry carries no composefs digest.
#[derive(Debug, Clone, Copy, PartialEq, Eq, Structural)]
pub enum BlsError {
    /// The entry has no `version` field.
    MissingVersion,
    /// The entry has none of the fields `linux`, `efi` and `uki`.
    MissingKernel,
    /// The entry has both a `linux` field and an `efi` or `uki` field.
    ConflictingKernels,
    /// The entry has no kernel arguments.
    MissingOptions,
    /// The kernel arguments have no `composefs=` parameter.
    MissingDigest,
    /// The EFI program is not named like a composefs UKI.
    ForeignEfi,
    /// The entry is of no known type.
    UnknownType,
}

/// Why a change of kernel arguments is refused.
#[derive(Debug)]
pub enum Error {
    /// The source name is empty.
    EmptySourceName,
    /// The source name has a character that names cannot have.
    InvalidSourceName,
    /// A directory or a file in it could not be read.
    Unreadable {
        /// What the read reported.
        report: String,
    },
    /// An entry that belongs to this system, or its file name, is not text.
    NotText {
        /// The file name of the entry.
        file_name: String,
    },
    /// An entry that belongs to this system does not parse.
    MalformedEntry {
        /// The file name of the entry.
        file_name: String,
        /// What is wrong with it.
        error: BlsError,
    },
    /// The entry boots a UKI, whose kernel arguments are sealed.
    UkiEntry,
    /// The entry is of no known type.
    UnknownEntryType,
    /// No entry belongs to the deployment.
    NoEntry {
        /// Which deployment it is.
        deployment_kind: String,
    },
    /// More than one entry belongs to the deployment.
    MultipleEntries {
        /// Which deployment it is.
        deployment_kind: String,
    },
    /// A deployment is staged, but the staged entries are gone.
    MissingStagedEntries,
}

/// The view of an [`Error`].
pub enum ErrorView {
    EmptySourceName,
    InvalidSourceName,
    Unreadable { report: Seq<char> },
    NotText { file_name: Seq<char> },
    MalformedEntry { file_name: Seq<char>, error: BlsError },
    UkiEntry,
    UnknownEntryType,
    NoEntry { deployment_kind: Seq<char> },
    MultipleEntries { deployment_kind: Seq<char> },
    MissingStagedEntries,
}

impl View for Error {
    type V = ErrorView;

    open spec fn view(&self) -> ErrorView {
        match self {
            Error::EmptySourceName => ErrorView::EmptySourceName,
            Error::InvalidSourceName => ErrorView::InvalidSourceName,
            Error::Unreadable { report } => ErrorView::Unreadable { report: report@ },
            Error::NotText { file_name } => ErrorView::NotText { file_name: file_name@ },
            Error::MalformedEntry { file_name, error } => ErrorView::MalformedEntry {
                file_name: file_name@,
                error: *error,
            },
            Error::UkiEntry => ErrorView::UkiEntry,
            Error::UnknownEntryType => ErrorView::UnknownEntryType,
            Error::NoEntry { deployment_kind } => ErrorView::NoEntry {
                deployment_kind: deployment_kind@,
            },
            Error::MultipleEntries { deployment_kind } => ErrorView::MultipleEntries {
                deployment_kind: deployment_kind@,
            },
            Error::MissingStagedEntries => ErrorView::MissingStagedEntries,
        }
    }
}

/// What an error tells the user.
pub open spec fn error_text(e: ErrorView) -> Seq<char> {
    match e {
        ErrorView::EmptySourceName => "Source name must not be empty"@,
        ErrorView::InvalidSourceName =>
            "Source name must contain only alphanumeric characters, hyphens, or underscores"@,
        ErrorView::Unreadable { report } => report,
        ErrorView::NotText { file_name } => "Reading BLS entry "@ + file_name,
        ErrorView::MalformedEntry { file_name, .. } => "Parsing BLS entry "@ + file_name,
        ErrorView::UkiEntry =>
            "Changing kernel arguments is not supported for UKI (Type2) boot entries"@,
        ErrorView::UnknownEntryType => "Unknown BLS config type"@,
        ErrorView::NoEntry { deployment_kind } => "No BLS entry found for "@ + deployment_kind
            + " deployment"@,
        ErrorView::MultipleEntries { deployment_kind } => "Multiple BLS entries found for "@
            + deployment_kind + " deployment"@,
        ErrorView::MissingStagedEntries =>
            "Found staged deployment metadata without staged BLS entries"@,
    }
}

impl Error {
    /// What the error tells the user.
    pub fn to_string(&self) -> (r: String)
        ensures
            r@ == error_text(self@),
    {
        match self {
            Error::EmptySourceName => "Source name must not be empty".to_owned(),
            Error::InvalidSourceName =>
                "Source name must contain only alphanumeric characters, hyphens, or underscores".to_owned(),
            Error::Unreadable { report } => report.as_str().to_owned(),
            Error::NotText { file_name } => "Reading BLS entry ".to_owned().concat(
                file_name.as_str(),
            ),
            Error::MalformedEntry { file_name, .. } => "Parsing BLS entry ".to_owned().concat(
                file_name.as_str(),
            ),
            Error::UkiEntry =>
                "Changing kernel arguments is not supported for UKI (Type2) boot entries".to_owned(),
            Error::UnknownEntryType => "Unknown BLS config type".to_owned(),
            Error::NoEntry { deployment_kind } => "No BLS entry found for ".to_owned().concat(
                deployment_kind.as_str(),
            ).concat(" deployment"),
            Error::MultipleEntries { deployment_kind } =>
                "Multiple BLS entries found for ".to_owned().concat(deployment_kind.as_str()).concat(
                " deployment",
            ),
            Error::MissingStagedEntries =>
                "Found staged deployment metadata without staged BLS entries".to_owned(),
        }
    }
}

} // verus!
