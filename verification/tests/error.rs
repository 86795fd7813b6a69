use kanit::error::{Context, Error, ErrorKind, Failure, StaticError, WithError};

#[test]
fn error_texts() {
    let plain = Error::new(ErrorKind::Unrecoverable, None, Failure::CyclicDependency);
    assert_eq!(plain.to_string(), "cyclic dependency detected");
    let in_context = Error::new(
        ErrorKind::Recoverable,
        Some("failed to get level".to_string()),
        Failure::Absent,
    );
    assert_eq!(
        in_context.to_string(),
        "failed to get level: attempted to unwrap 'None' value"
    );
    assert!(in_context.is_recoverable());
    assert!(!plain.is_recoverable());
    assert_eq!(Failure::AlreadyInState.to_string(), "unit already started/stopped");
    assert_eq!(Failure::UnknownUnit.to_string(), "failed to find unit in database");
    assert_eq!(Failure::InvalidNumber.to_string(), "invalid digit found in string");
    assert_eq!(
        Failure::MissingDependency("x".to_string()).to_string(),
        "failed to find needed dependency `x`"
    );
    assert_eq!(
        Failure::AbsentDependency("x".to_string()).to_string(),
        "failed to find dependency `x`"
    );
    assert_eq!(Failure::Static(StaticError("fixed")).to_string(), "fixed");
}

#[test]
fn with_error_takes_its_message_from_the_function() {
    let dep = "tty".to_string();
    let e = WithError::with(move || format!("failed to find dependency `{}`", dep));
    assert_eq!(e.0, "failed to find dependency `tty`");
    let error: Error = e.into();
    assert!(!error.is_recoverable());
    assert_eq!(error.to_string(), "failed to find dependency `tty`");
}

#[test]
fn bare_failures_are_unrecoverable() {
    let a: Error = StaticError("x").into();
    let b: Error = Failure::Absent.into();
    assert!(matches!(a.kind, ErrorKind::Unrecoverable));
    assert!(matches!(b.kind, ErrorKind::Unrecoverable));
    assert!(a.context.is_none() && b.context.is_none());
}

#[test]
fn context_on_options() {
    assert_eq!(Some(3).context("c".to_string()).unwrap(), 3);
    let e = None::<u8>.context("failed to get name".to_string()).unwrap_err();
    assert_eq!(
        e.to_string(),
        "failed to get name: attempted to unwrap 'None' value"
    );
    assert!(!e.is_recoverable());
    let e = None::<u8>
        .context_kind("c".to_string(), ErrorKind::Recoverable)
        .unwrap_err();
    assert!(e.is_recoverable());
    let e = None::<u8>.kind(ErrorKind::Recoverable).unwrap_err();
    assert!(e.is_recoverable());
    assert_eq!(e.to_string(), "attempted to unwrap 'None' value");
    assert_eq!(Some(1u8).kind(ErrorKind::Recoverable).unwrap(), 1);
}

#[test]
fn context_on_results() {
    let ok: Result<u8, Failure> = Ok(4);
    assert_eq!(ok.context("c".to_string()).unwrap(), 4);
    let failed: Result<u8, Failure> = Err(Failure::UnknownUnit);
    let e = failed
        .context_kind("failed to stop supervisor".to_string(), ErrorKind::Recoverable)
        .unwrap_err();
    assert!(e.is_recoverable());
    assert_eq!(
        e.to_string(),
        "failed to stop supervisor: failed to find unit in database"
    );
    let failed: Result<u8, Failure> = Err(Failure::CyclicDependency);
    let e = failed.kind(ErrorKind::Unrecoverable).unwrap_err();
    assert!(e.context.is_none());
    assert!(matches!(e.original, Failure::CyclicDependency));
}
