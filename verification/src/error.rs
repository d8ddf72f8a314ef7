//! All errors related to Conventional Commits.

use vstd::prelude::*;

verus! {

/// All possible error kinds returned when parsing a conventional commit.
#[derive(Copy, Clone, Debug, PartialEq, Eq, Structural)]
pub enum ErrorKind {
    /// The commit type is missing from the commit message.
    MissingType,
    /// The scope has an invalid format.
    InvalidScope,
    /// The description of the commit is missing.
    MissingDescription,
    /// The body of the commit has an invalid format.
    InvalidBody,
    /// The footer of the commit has an invalid format.
    InvalidFooter,
    /// Any other part of the commit does not conform to the conventional
    /// commit spec.
    InvalidFormat,
}

impl ErrorKind {
    /// A human-readable description of the error kind.
    pub fn message(&self) -> (r: &'static str)
        ensures
            r@ == spec_kind_message(*self),
    {
        match self {
            ErrorKind::MissingType => "Missing type in the commit summary, expected `type: description`",
            ErrorKind::InvalidScope => "Incorrect scope syntax in commit summary, expected `type(scope): description`",
            ErrorKind::MissingDescription => "Missing description in commit summary, expected `type: description`",
            ErrorKind::InvalidBody => "Incorrect body syntax",
            ErrorKind::InvalidFooter => "Incorrect footer syntax",
            ErrorKind::InvalidFormat => "Incorrect conventional commit format",
        }
    }
}

/// The text that `ErrorKind::message` returns for each kind.
pub open spec fn spec_kind_message(k: ErrorKind) -> Seq<char> {
    match k {
        ErrorKind::MissingType => "Missing type in the commit summary, expected `type: description`"@,
        ErrorKind::InvalidScope => "Incorrect scope syntax in commit summary, expected `type(scope): description`"@,
        ErrorKind::MissingDescription => "Missing description in commit summary, expected `type: description`"@,
        ErrorKind::InvalidBody => "Incorrect body syntax"@,
        ErrorKind::InvalidFooter => "Incorrect footer syntax"@,
        ErrorKind::InvalidFormat => "Incorrect conventional commit format"@,
    }
}

/// The ghost model of an `Error`: its kind, its optional free-text context
/// and the commit text it was raised for.
pub struct ErrorView {
    pub kind: ErrorKind,
    pub context: Option<Seq<char>>,
    pub commit: Option<Seq<char>>,
}

/// The error returned when parsing a commit fails.
#[derive(Debug)]
pub struct Error {
    kind: ErrorKind,
    context: Option<String>,
    commit: Option<String>,
}

impl View for Error {
    type V = ErrorView;

    closed spec fn view(&self) -> ErrorView {
        ErrorView {
            kind: self.kind,
            context: match self.context {
                Some(ref c) => Some(c@),
                None => None,
            },
            commit: match self.commit {
                Some(ref c) => Some(c@),
                None => None,
            },
        }
    }
}

impl Error {
    /// Create a new error from an `ErrorKind`.
    pub(crate) fn new(kind: ErrorKind) -> (r: Self)
        ensures
            r@.kind == kind,
            r@.context is None,
            r@.commit is None,
    {
        Self { kind, context: None, commit: None }
    }

    /// Create a new error from an `ErrorKind`, keeping the commit text it
    /// was raised for.
    pub(crate) fn with_commit(kind: ErrorKind, commit: &str) -> (r: Self)
        ensures
            r@.kind == kind,
            r@.context is None,
            r@.commit == Some(commit@),
    {
        Self { kind, context: None, commit: Some(commit.to_owned()) }
    }

    /// Attach a free-text context to the error.
    pub(crate) fn set_context(self, context: String) -> (r: Self)
        ensures
            r@.kind == self@.kind,
            r@.context == Some(context@),
            r@.commit == self@.commit,
    {
        Self { kind: self.kind, context: Some(context), commit: self.commit }
    }

    /// The kind of error.
    pub fn kind(&self) -> (r: ErrorKind)
        ensures
            r == self@.kind,
    {
        self.kind
    }

    /// A human-readable description of the error: the kind's message,
    /// followed by the context when one was attached.
    pub fn message(&self) -> (r: String)
        ensures
            self@.context is None ==> r@ == spec_kind_message(self@.kind),
            self@.context matches Some(c) ==> r@ == spec_kind_message(self@.kind) + ": "@ + c,
    {
        let mut out = String::new();
        out.append(self.kind.message());
        match &self.context {
            Some(c) => {
                out.append(": ");
                out.append(c.as_str());
            }
            None => {}
        }
        out
    }
}

} // verus!
