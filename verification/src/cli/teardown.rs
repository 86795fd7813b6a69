use crate::error::{Error, ErrorKind, ErrorView, Failure, FailureView, StaticError};
use vstd::prelude::*;
use vstd::string::*;

verus! {

/// How a machine is brought down for good.
#[derive(Debug, Clone, Copy, PartialEq, Eq, Structural)]
pub enum RebootMode {
    PowerOff,
    Autoboot,
    HaltSystem,
    Kexec,
}

/// The way of bringing the machine down that a word asks for.
pub open spec fn mode_of(cmd: Seq<char>) -> Option<RebootMode> {
    if cmd == "poweroff"@ {
        Some(RebootMode::PowerOff)
    } else if cmd == "reboot"@ {
        Some(RebootMode::Autoboot)
    } else if cmd == "halt"@ {
        Some(RebootMode::HaltSystem)
    } else if cmd == "kexec"@ {
        Some(RebootMode::Kexec)
    } else {
        None
    }
}

/// What has to be done to bring the machine down.
#[derive(Debug)]
pub struct Teardown {
    /// How to bring the machine down at once, where that was asked for.
    pub force: Option<RebootMode>,
    /// What to write to the control pipe of the running system.
    pub message: String,
}

fn same_text(a: &str, b: &str) -> (res: bool)
    ensures
        res == (a@ == b@),
{
    String::from_str(a) == String::from_str(b)
}

/// Works out how the machine is brought down on the word `cmd`. Only the
/// superuser may ask for this. Where `force` is set the machine is brought
/// down at once, and `cmd` has to be one of `poweroff`, `reboot`, `halt`
/// and `kexec`; in any case the word goes to the running system.
pub fn teardown(cmd: &str, force: bool, is_root: bool) -> (res: Result<Teardown, Error>)
    requires
        is_root && force ==> mode_of(cmd@) is Some,
    ensures
        match res {
            Ok(plan) => is_root && plan.message@ == cmd@ && plan.force == if force {
                mode_of(cmd@)
            } else {
                None
            },
            Err(e) => !is_root && e@ == ErrorView::plain(
                FailureView::Message("operation not permitted"@),
            ),
        },
{
    if !is_root {
        return Err(
            Error::new(
                ErrorKind::Unrecoverable,
                None,
                Failure::Static(StaticError("operation not permitted")),
            ),
        );
    }
    let mode = if !force {
        None
    } else if same_text(cmd, "poweroff") {
        Some(RebootMode::PowerOff)
    } else if same_text(cmd, "reboot") {
        Some(RebootMode::Autoboot)
    } else if same_text(cmd, "halt") {
        Some(RebootMode::HaltSystem)
    } else {
        Some(RebootMode::Kexec)
    };
    Ok(Teardown { force: mode, message: String::from_str(cmd) })
}

} // verus!
