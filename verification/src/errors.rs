//! Errors of the branch operations and the error codes of the filesystem operations.

use vstd::prelude::*;
use vstd::string::*;

use crate::text::{concat, Text};

verus! {

/// An error code that a filesystem operation answers with.
#[derive(Clone, Copy, Debug, PartialEq, Eq, Structural)]
pub enum Errno {
    Eperm,
    Enoent,
    Eio,
    Eexist,
    Exdev,
    Enotdir,
    Eisdir,
    Einval,
    Enotty,
    Efbig,
    Enospc,
    Erofs,
    Estale,
}

/// The numbers of the error codes on a system.
#[derive(Clone, Copy, Debug, PartialEq, Eq, Structural)]
pub struct ErrorNumbers {
    pub eperm: i32,
    pub enoent: i32,
    pub eio: i32,
    pub eexist: i32,
    pub exdev: i32,
    pub enotdir: i32,
    pub eisdir: i32,
    pub einval: i32,
    pub enotty: i32,
    pub efbig: i32,
    pub enospc: i32,
    pub erofs: i32,
    pub estale: i32,
}

impl ErrorNumbers {
    /// The number of a code.
    pub open spec fn of(self, code: Errno) -> i32 {
        match code {
            Errno::Eperm => self.eperm,
            Errno::Enoent => self.enoent,
            Errno::Eio => self.eio,
            Errno::Eexist => self.eexist,
            Errno::Exdev => self.exdev,
            Errno::Enotdir => self.enotdir,
            Errno::Eisdir => self.eisdir,
            Errno::Einval => self.einval,
            Errno::Enotty => self.enotty,
            Errno::Efbig => self.efbig,
            Errno::Enospc => self.enospc,
            Errno::Erofs => self.erofs,
            Errno::Estale => self.estale,
        }
    }
}

/// The number that a code has on every Linux, BSD and macOS system, if it is the same on all.
pub open spec fn common_number(code: Errno) -> Option<i32> {
    match code {
        Errno::Eperm => Some(1),
        Errno::Enoent => Some(2),
        Errno::Eio => Some(5),
        Errno::Eexist => Some(17),
        Errno::Exdev => Some(18),
        Errno::Enotdir => Some(20),
        Errno::Eisdir => Some(21),
        Errno::Einval => Some(22),
        Errno::Enotty => Some(25),
        Errno::Efbig => Some(27),
        Errno::Enospc => Some(28),
        Errno::Erofs => Some(30),
        Errno::Estale => None,
    }
}

/// The constants of the `libc` crate with the names of the codes, on Linux, the BSDs and macOS:
/// all but one are the same on each of these. `ESTALE` differs between them, so which number it is
/// is left unsaid; it is larger than all others.
#[verifier::external_body]
fn error_numbers() -> (r: ErrorNumbers)
    ensures
        forall|code: Errno|
            common_number(code) matches Some(n) ==> #[trigger] r.of(code) == n,
        r.estale > 30,
{
    ErrorNumbers {
        eperm: libc::EPERM,
        enoent: libc::ENOENT,
        eio: libc::EIO,
        eexist: libc::EEXIST,
        exdev: libc::EXDEV,
        enotdir: libc::ENOTDIR,
        eisdir: libc::EISDIR,
        einval: libc::EINVAL,
        enotty: libc::ENOTTY,
        efbig: libc::EFBIG,
        enospc: libc::ENOSPC,
        erofs: libc::EROFS,
        estale: libc::ESTALE,
    }
}

impl Errno {
    /// The number of the code on a system with these numbers.
    pub fn number_among(self, numbers: &ErrorNumbers) -> (r: i32)
        ensures
            r == numbers.of(self),
    {
        match self {
            Errno::Eperm => numbers.eperm,
            Errno::Enoent => numbers.enoent,
            Errno::Eio => numbers.eio,
            Errno::Eexist => numbers.eexist,
            Errno::Exdev => numbers.exdev,
            Errno::Enotdir => numbers.enotdir,
            Errno::Eisdir => numbers.eisdir,
            Errno::Einval => numbers.einval,
            Errno::Enotty => numbers.enotty,
            Errno::Efbig => numbers.efbig,
            Errno::Enospc => numbers.enospc,
            Errno::Erofs => numbers.erofs,
            Errno::Estale => numbers.estale,
        }
    }

    /// The number that stands for the code in an answer on this machine. The number of a stale
    /// file is up to the system; it is not that of any other code.
    pub fn number(self) -> (r: i32)
        ensures
            common_number(self) matches Some(n) ==> r == n,
            self == Errno::Estale ==> r > 30,
    {
        let numbers = error_numbers();
        self.number_among(&numbers)
    }
}

/// Why a branch operation was refused or failed.
#[derive(Debug)]
pub enum BranchError {
    NotFound(String),
    AlreadyExists(String),
    ParentNotFound(String),
    NotALeaf(String),
    CannotOperateOnMain,
    Invalid(String),
    MountNotFound(String),
    Conflict(String),
    Io(Errno),
}

pub enum ErrorView {
    NotFound(Text),
    AlreadyExists(Text),
    ParentNotFound(Text),
    NotALeaf(Text),
    CannotOperateOnMain,
    Invalid(Text),
    MountNotFound(Text),
    Conflict(Text),
    Io(Errno),
}

impl View for BranchError {
    type V = ErrorView;

    open spec fn view(&self) -> ErrorView {
        match self {
            BranchError::NotFound(s) => ErrorView::NotFound(s@),
            BranchError::AlreadyExists(s) => ErrorView::AlreadyExists(s@),
            BranchError::ParentNotFound(s) => ErrorView::ParentNotFound(s@),
            BranchError::NotALeaf(s) => ErrorView::NotALeaf(s@),
            BranchError::CannotOperateOnMain => ErrorView::CannotOperateOnMain,
            BranchError::Invalid(s) => ErrorView::Invalid(s@),
            BranchError::MountNotFound(s) => ErrorView::MountNotFound(s@),
            BranchError::Conflict(s) => ErrorView::Conflict(s@),
            BranchError::Io(e) => ErrorView::Io(*e),
        }
    }
}

/// What an error says. The cause of a failed input or output is said by the system.
pub open spec fn message_of(e: ErrorView) -> Text {
    match e {
        ErrorView::NotFound(s) => "Branch not found: "@ + s,
        ErrorView::AlreadyExists(s) => "Branch already exists: "@ + s,
        ErrorView::ParentNotFound(s) => "Parent branch not found: "@ + s,
        ErrorView::NotALeaf(s) => "Branch '"@ + s + "' is not a leaf (has children)"@,
        ErrorView::CannotOperateOnMain => "Cannot operate on main branch"@,
        ErrorView::Invalid(s) => "Invalid: "@ + s,
        ErrorView::MountNotFound(s) => "Mount not found: "@ + s,
        ErrorView::Conflict(s) => "Conflict: "@ + s,
        ErrorView::Io(_) => "IO error"@,
    }
}

impl BranchError {
    /// What the error says.
    pub fn message(&self) -> (r: String)
        ensures
            r@ == message_of(self@),
    {
        match self {
            BranchError::NotFound(s) => concat("Branch not found: ", s.as_str()),
            BranchError::AlreadyExists(s) => concat("Branch already exists: ", s.as_str()),
            BranchError::ParentNotFound(s) => concat("Parent branch not found: ", s.as_str()),
            BranchError::NotALeaf(s) => {
                let quoted = concat("Branch '", s.as_str());
                concat(quoted.as_str(), "' is not a leaf (has children)")
            },
            BranchError::CannotOperateOnMain => "Cannot operate on main branch".to_owned(),
            BranchError::Invalid(s) => concat("Invalid: ", s.as_str()),
            BranchError::MountNotFound(s) => concat("Mount not found: ", s.as_str()),
            BranchError::Conflict(s) => concat("Conflict: ", s.as_str()),
            BranchError::Io(_) => "IO error".to_owned(),
        }
    }
}

/// The code that an operation on a file answers with when a branch operation failed.
pub fn errno_of(e: &BranchError) -> (r: Errno)
    ensures
        r == (match e@ {
            ErrorView::Io(code) => code,
            _ => Errno::Eio,
        }),
{
    match e {
        BranchError::Io(code) => *code,
        _ => Errno::Eio,
    }
}

} // verus!
