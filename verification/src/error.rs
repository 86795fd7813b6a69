use vstd::prelude::*;
use vstd::string::*;

verus! {

/// Whether the system can go on after an error.
#[derive(Debug, Clone, Copy, PartialEq, Eq, Structural)]
pub enum ErrorKind {
    /// A single unit failed; it is reported and skipped.
    Recoverable,
    /// The plan itself is broken; going on is not safe.
    Unrecoverable,
}

/// An error with a fixed message.
#[derive(Debug)]
pub struct StaticError(pub &'static str);

/// An error whose message was computed when it was raised.
#[derive(Debug)]
pub struct WithError(pub String);

impl WithError {
    /// Builds the error from a function that produces its message.
    pub fn with<F: Fn() -> String>(e: F) -> (res: Self)
        requires
            e.requires(()),
        ensures
            e.ensures((), res.0),
    {
        WithError(e())
    }
}

/// The root cause carried by an [`Error`].
#[derive(Debug)]
pub enum Failure {
    /// The relations between the units contain a cycle.
    CyclicDependency,
    /// A unit needs another unit that is not among those to be ordered.
    MissingDependency(String),
    /// A unit of a level needs a unit that the catalogue does not hold.
    AbsentDependency(String),
    /// A unit was asked to enter the state it is already in.
    AlreadyInState,
    /// A unit was named that the database does not know.
    UnknownUnit,
    /// A value that had to be present was absent.
    Absent,
    /// A text that had to be a number is none.
    InvalidNumber,
    /// A failure described by a fixed message.
    Static(StaticError),
    /// A failure described by a computed message.
    With(WithError),
}

/// The mathematical content of a [`Failure`].
pub ghost enum FailureView {
    CyclicDependency,
    MissingDependency(Seq<char>),
    AbsentDependency(Seq<char>),
    AlreadyInState,
    UnknownUnit,
    Absent,
    InvalidNumber,
    Message(Seq<char>),
}

impl FailureView {
    /// The text a failure is reported with.
    pub open spec fn text(self) -> Seq<char> {
        match self {
            FailureView::CyclicDependency => "cyclic dependency detected"@,
            FailureView::MissingDependency(name) => "failed to find needed dependency `"@ + name
                + "`"@,
            FailureView::AbsentDependency(name) => "failed to find dependency `"@ + name + "`"@,
            FailureView::AlreadyInState => "unit already started/stopped"@,
            FailureView::UnknownUnit => "failed to find unit in database"@,
            FailureView::Absent => "attempted to unwrap 'None' value"@,
            FailureView::InvalidNumber => "invalid digit found in string"@,
            FailureView::Message(m) => m,
        }
    }
}

impl View for Failure {
    type V = FailureView;

    open spec fn view(&self) -> FailureView {
        match self {
            Failure::CyclicDependency => FailureView::CyclicDependency,
            Failure::MissingDependency(name) => FailureView::MissingDependency(name@),
            Failure::AbsentDependency(name) => FailureView::AbsentDependency(name@),
            Failure::AlreadyInState => FailureView::AlreadyInState,
            Failure::UnknownUnit => FailureView::UnknownUnit,
            Failure::Absent => FailureView::Absent,
            Failure::InvalidNumber => FailureView::InvalidNumber,
            Failure::Static(e) => FailureView::Message(e.0@),
            Failure::With(e) => FailureView::Message(e.0@),
        }
    }
}

impl Failure {
    /// The text this failure is reported with.
    pub fn to_string(&self) -> (res: String)
        ensures
            res@ == self@.text(),
    {
        match self {
            Failure::CyclicDependency => String::from_str("cyclic dependency detected"),
            Failure::MissingDependency(name) => {
                let res = String::from_str("failed to find needed dependency `").concat(
                    name.as_str(),
                ).concat("`");
                res
            },
            Failure::AbsentDependency(name) => {
                let res = String::from_str("failed to find dependency `").concat(
                    name.as_str(),
                ).concat("`");
                res
            },
            Failure::AlreadyInState => String::from_str("unit already started/stopped"),
            Failure::UnknownUnit => String::from_str("failed to find unit in database"),
            Failure::Absent => String::from_str("attempted to unwrap 'None' value"),
            Failure::InvalidNumber => String::from_str("invalid digit found in string"),
            Failure::Static(e) => String::from_str(e.0),
            Failure::With(e) => e.0.clone(),
        }
    }
}

/// An error of the init system: a cause, how grave it is, and optionally
/// what was being attempted when it arose.
#[derive(Debug)]
pub struct Error {
    pub kind: ErrorKind,
    pub context: Option<String>,
    pub original: Failure,
}

/// The mathematical content of an [`Error`].
pub ghost struct ErrorView {
    pub kind: ErrorKind,
    pub context: Option<Seq<char>>,
    pub original: FailureView,
}

impl ErrorView {
    /// The text an error is reported with: the context, where there is one,
    /// then the cause.
    pub open spec fn text(self) -> Seq<char> {
        match self.context {
            Some(c) => c + ": "@ + self.original.text(),
            None => self.original.text(),
        }
    }

    /// An unrecoverable error without context.
    pub open spec fn plain(original: FailureView) -> ErrorView {
        ErrorView { kind: ErrorKind::Unrecoverable, context: None, original }
    }

    /// An unrecoverable error raised in the course of `context`.
    pub open spec fn during(context: Seq<char>, original: FailureView) -> ErrorView {
        ErrorView { kind: ErrorKind::Unrecoverable, context: Some(context), original }
    }

    /// An unrecoverable error raised because a value was absent.
    pub open spec fn absent(context: Seq<char>) -> ErrorView {
        ErrorView {
            kind: ErrorKind::Unrecoverable,
            context: Some(context),
            original: FailureView::Absent,
        }
    }
}

impl View for Error {
    type V = ErrorView;

    open spec fn view(&self) -> ErrorView {
        ErrorView {
            kind: self.kind,
            context: match self.context {
                Some(c) => Some(c@),
                None => None,
            },
            original: self.original@,
        }
    }
}

impl Error {
    /// An error of these parts.
    pub fn new(kind: ErrorKind, context: Option<String>, original: Failure) -> (res: Self)
        ensures
            res.kind == kind,
            res.context == context,
            res.original == original,
    {
        Error { kind, context, original }
    }

    /// Whether the system may go on after this error.
    pub fn is_recoverable(&self) -> (res: bool)
        ensures
            res == (self.kind == ErrorKind::Recoverable),
    {
        match self.kind {
            ErrorKind::Recoverable => true,
            ErrorKind::Unrecoverable => false,
        }
    }

    /// The text this error is reported with.
    pub fn to_string(&self) -> (res: String)
        ensures
            res@ == self@.text(),
    {
        let cause = self.original.to_string();
        match &self.context {
            Some(c) => c.clone().concat(": ").concat(cause.as_str()),
            None => cause,
        }
    }
}

impl From<Failure> for Error {
    /// A bare failure is unrecoverable.
    fn from(original: Failure) -> (res: Self) {
        Error { kind: ErrorKind::Unrecoverable, context: None, original }
    }
}

impl vstd::std_specs::convert::FromSpecImpl<Failure> for Error {
    open spec fn obeys_from_spec() -> bool {
        true
    }

    open spec fn from_spec(original: Failure) -> Self {
        Error { kind: ErrorKind::Unrecoverable, context: None, original }
    }
}

impl From<StaticError> for Error {
    fn from(error: StaticError) -> (res: Self) {
        Error { kind: ErrorKind::Unrecoverable, context: None, original: Failure::Static(error) }
    }
}

impl vstd::std_specs::convert::FromSpecImpl<StaticError> for Error {
    open spec fn obeys_from_spec() -> bool {
        true
    }

    open spec fn from_spec(error: StaticError) -> Self {
        Error { kind: ErrorKind::Unrecoverable, context: None, original: Failure::Static(error) }
    }
}

impl From<WithError> for Error {
    fn from(error: WithError) -> (res: Self) {
        Error { kind: ErrorKind::Unrecoverable, context: None, original: Failure::With(error) }
    }
}

impl vstd::std_specs::convert::FromSpecImpl<WithError> for Error {
    open spec fn obeys_from_spec() -> bool {
        true
    }

    open spec fn from_spec(error: WithError) -> Self {
        Error { kind: ErrorKind::Unrecoverable, context: None, original: Failure::With(error) }
    }
}

/// Turning an absent value or a failure into an [`Error`] that says what was
/// being attempted.
pub trait Context<T>: Sized {
    /// Whether `self` holds a value.
    spec fn holds(&self) -> bool;

    /// The value held, where there is one.
    spec fn held(&self) -> T;

    /// The cause reported where there is no value.
    spec fn cause(&self) -> FailureView;

    /// Attaches a context and a gravity.
    fn context_kind(self, context: String, kind: ErrorKind) -> (res: Result<T, Error>)
        ensures
            self.holds() ==> res == Ok::<T, Error>(self.held()),
            !self.holds() ==> res is Err && res->Err_0@ == (ErrorView {
                kind,
                context: Some(context@),
                original: self.cause(),
            }),
    ;

    /// Attaches a context; the error is unrecoverable.
    fn context(self, context: String) -> (res: Result<T, Error>)
        ensures
            self.holds() ==> res == Ok::<T, Error>(self.held()),
            !self.holds() ==> res is Err && res->Err_0@ == (ErrorView {
                kind: ErrorKind::Unrecoverable,
                context: Some(context@),
                original: self.cause(),
            }),
    ;

    /// Attaches a gravity and no context.
    fn kind(self, kind: ErrorKind) -> (res: Result<T, Error>)
        ensures
            self.holds() ==> res == Ok::<T, Error>(self.held()),
            !self.holds() ==> res is Err && res->Err_0@ == (ErrorView {
                kind,
                context: None,
                original: self.cause(),
            }),
    ;
}

impl<T> Context<T> for Option<T> {
    open spec fn holds(&self) -> bool {
        self is Some
    }

    open spec fn held(&self) -> T {
        self->Some_0
    }

    open spec fn cause(&self) -> FailureView {
        FailureView::Absent
    }

    fn context_kind(self, context: String, kind: ErrorKind) -> (res: Result<T, Error>) {
        match self {
            Some(ok) => Ok(ok),
            None => Err(Error::new(kind, Some(context), Failure::Absent)),
        }
    }

    fn context(self, context: String) -> (res: Result<T, Error>) {
        self.context_kind(context, ErrorKind::Unrecoverable)
    }

    fn kind(self, kind: ErrorKind) -> (res: Result<T, Error>) {
        match self {
            Some(ok) => Ok(ok),
            None => Err(Error::new(kind, None, Failure::Absent)),
        }
    }
}

impl<T> Context<T> for Result<T, Failure> {
    open spec fn holds(&self) -> bool {
        self is Ok
    }

    open spec fn held(&self) -> T {
        self->Ok_0
    }

    open spec fn cause(&self) -> FailureView {
        self->Err_0@
    }

    fn context_kind(self, context: String, kind: ErrorKind) -> (res: Result<T, Error>) {
        match self {
            Ok(ok) => Ok(ok),
            Err(e) => Err(Error::new(kind, Some(context), e)),
        }
    }

    fn context(self, context: String) -> (res: Result<T, Error>) {
        self.context_kind(context, ErrorKind::Unrecoverable)
    }

    fn kind(self, kind: ErrorKind) -> (res: Result<T, Error>) {
        match self {
            Ok(ok) => Ok(ok),
            Err(e) => Err(Error::new(kind, None, e)),
        }
    }
}

} // verus!
