//! The error kinds of the kernel (with their errno values) and of the file
//! systems, and how a file-system error becomes a kernel error.

use vstd::prelude::*;
use crate::text::{str_concat, str_to_string};

verus! {

/// What went wrong in a system call. Each kind has an errno value, from 1
/// for `NotPermitted` upwards in declaration order.
#[derive(Debug, Clone, Copy, PartialEq, Eq, Structural, Hash)]
pub enum SysErrorKind {
    NotPermitted,
    OutOfMemory,
    NoSys,
    NoSuchProcess,
    Interrupted,
    IOError,
    AlreadyExists,
    BadFileDescriptor,
    FileTooLarge,
    FileNameTooLong,
    NoSuchFileOrDirectory,
    IsADirectory,
    NotADirectory,
    NotEmpty,
    PermissionDenied,
    TooManyOpenFiles,
    NoSpaceLeft,
    NoSuchDev,
    NoExec,
    Pipe,
    ExDev,
    BadFs,
    NoTty,
    InvalidArgument,
    Unsupported,
    InvalidData,
    ExecFormat,
    Fault,
    InvalidUt8Str,
    TooManyTasks,
}

/// The errno value of each kind.
pub open spec fn spec_errno(k: SysErrorKind) -> u32 {
    match k {
        SysErrorKind::NotPermitted => 1,
        SysErrorKind::OutOfMemory => 2,
        SysErrorKind::NoSys => 3,
        SysErrorKind::NoSuchProcess => 4,
        SysErrorKind::Interrupted => 5,
        SysErrorKind::IOError => 6,
        SysErrorKind::AlreadyExists => 7,
        SysErrorKind::BadFileDescriptor => 8,
        SysErrorKind::FileTooLarge => 9,
        SysErrorKind::FileNameTooLong => 10,
        SysErrorKind::NoSuchFileOrDirectory => 11,
        SysErrorKind::IsADirectory => 12,
        SysErrorKind::NotADirectory => 13,
        SysErrorKind::NotEmpty => 14,
        SysErrorKind::PermissionDenied => 15,
        SysErrorKind::TooManyOpenFiles => 16,
        SysErrorKind::NoSpaceLeft => 17,
        SysErrorKind::NoSuchDev => 18,
        SysErrorKind::NoExec => 19,
        SysErrorKind::Pipe => 20,
        SysErrorKind::ExDev => 21,
        SysErrorKind::BadFs => 22,
        SysErrorKind::NoTty => 23,
        SysErrorKind::InvalidArgument => 24,
        SysErrorKind::Unsupported => 25,
        SysErrorKind::InvalidData => 26,
        SysErrorKind::ExecFormat => 27,
        SysErrorKind::Fault => 28,
        SysErrorKind::InvalidUt8Str => 29,
        SysErrorKind::TooManyTasks => 30,
    }
}

/// The text each kind is shown with.
pub open spec fn sys_kind_text(k: SysErrorKind) -> Seq<char> {
    match k {
        SysErrorKind::NotPermitted => "operation not permitted"@,
        SysErrorKind::OutOfMemory => "out of memory"@,
        SysErrorKind::NoSys => "unknown system call number"@,
        SysErrorKind::NoSuchProcess => "no such process"@,
        SysErrorKind::Interrupted => "interrupted system call"@,
        SysErrorKind::IOError => "io error"@,
        SysErrorKind::AlreadyExists => "already exists"@,
        SysErrorKind::BadFileDescriptor => "bad file descriptor"@,
        SysErrorKind::FileTooLarge => "file too large"@,
        SysErrorKind::FileNameTooLong => "file name too long"@,
        SysErrorKind::NoSuchFileOrDirectory => "no such file or directory"@,
        SysErrorKind::IsADirectory => "is a directory"@,
        SysErrorKind::NotADirectory => "not a directory"@,
        SysErrorKind::NotEmpty => "not empty"@,
        SysErrorKind::PermissionDenied => "Permission denied"@,
        SysErrorKind::TooManyOpenFiles => "too many open files"@,
        SysErrorKind::NoSpaceLeft => "no space left on device"@,
        SysErrorKind::NoSuchDev => "no such device"@,
        SysErrorKind::NoExec => "not an executable file"@,
        SysErrorKind::Pipe => "pipe error"@,
        SysErrorKind::ExDev => "invalid cross-device link"@,
        SysErrorKind::BadFs => "bad file system"@,
        SysErrorKind::NoTty => "inappropriate ioctl for device"@,
        SysErrorKind::InvalidArgument => "invalid argument"@,
        SysErrorKind::Unsupported => "Unsupported"@,
        SysErrorKind::InvalidData => "invalid data"@,
        SysErrorKind::ExecFormat => "executable format error"@,
        SysErrorKind::Fault => "address fault"@,
        SysErrorKind::InvalidUt8Str => "invalid ut8 string"@,
        SysErrorKind::TooManyTasks => "too many tasks"@,
    }
}

impl SysErrorKind {
    /// The errno value of the kind.
    pub fn errno(self) -> (r: u32)
        ensures
            r == spec_errno(self),
    {
        match self {
            SysErrorKind::NotPermitted => 1,
            SysErrorKind::OutOfMemory => 2,
            SysErrorKind::NoSys => 3,
            SysErrorKind::NoSuchProcess => 4,
            SysErrorKind::Interrupted => 5,
            SysErrorKind::IOError => 6,
            SysErrorKind::AlreadyExists => 7,
            SysErrorKind::BadFileDescriptor => 8,
            SysErrorKind::FileTooLarge => 9,
            SysErrorKind::FileNameTooLong => 10,
            SysErrorKind::NoSuchFileOrDirectory => 11,
            SysErrorKind::IsADirectory => 12,
            SysErrorKind::NotADirectory => 13,
            SysErrorKind::NotEmpty => 14,
            SysErrorKind::PermissionDenied => 15,
            SysErrorKind::TooManyOpenFiles => 16,
            SysErrorKind::NoSpaceLeft => 17,
            SysErrorKind::NoSuchDev => 18,
            SysErrorKind::NoExec => 19,
            SysErrorKind::Pipe => 20,
            SysErrorKind::ExDev => 21,
            SysErrorKind::BadFs => 22,
            SysErrorKind::NoTty => 23,
            SysErrorKind::InvalidArgument => 24,
            SysErrorKind::Unsupported => 25,
            SysErrorKind::InvalidData => 26,
            SysErrorKind::ExecFormat => 27,
            SysErrorKind::Fault => 28,
            SysErrorKind::InvalidUt8Str => 29,
            SysErrorKind::TooManyTasks => 30,
        }
    }

    /// The kind whose errno value is `n`, if any.
    pub fn try_from_primitive(n: u32) -> (r: Option<SysErrorKind>)
        ensures
            match r {
                Some(k) => spec_errno(k) == n,
                None => forall|k: SysErrorKind| spec_errno(k) != n,
            },
    {
        match n {
            1 => Some(SysErrorKind::NotPermitted),
            2 => Some(SysErrorKind::OutOfMemory),
            3 => Some(SysErrorKind::NoSys),
            4 => Some(SysErrorKind::NoSuchProcess),
            5 => Some(SysErrorKind::Interrupted),
            6 => Some(SysErrorKind::IOError),
            7 => Some(SysErrorKind::AlreadyExists),
            8 => Some(SysErrorKind::BadFileDescriptor),
            9 => Some(SysErrorKind::FileTooLarge),
            10 => Some(SysErrorKind::FileNameTooLong),
            11 => Some(SysErrorKind::NoSuchFileOrDirectory),
            12 => Some(SysErrorKind::IsADirectory),
            13 => Some(SysErrorKind::NotADirectory),
            14 => Some(SysErrorKind::NotEmpty),
            15 => Some(SysErrorKind::PermissionDenied),
            16 => Some(SysErrorKind::TooManyOpenFiles),
            17 => Some(SysErrorKind::NoSpaceLeft),
            18 => Some(SysErrorKind::NoSuchDev),
            19 => Some(SysErrorKind::NoExec),
            20 => Some(SysErrorKind::Pipe),
            21 => Some(SysErrorKind::ExDev),
            22 => Some(SysErrorKind::BadFs),
            23 => Some(SysErrorKind::NoTty),
            24 => Some(SysErrorKind::InvalidArgument),
            25 => Some(SysErrorKind::Unsupported),
            26 => Some(SysErrorKind::InvalidData),
            27 => Some(SysErrorKind::ExecFormat),
            28 => Some(SysErrorKind::Fault),
            29 => Some(SysErrorKind::InvalidUt8Str),
            30 => Some(SysErrorKind::TooManyTasks),
            _ => None,
        }
    }

    /// The text the kind is shown with.
    pub fn as_str(self) -> (r: &'static str)
        ensures
            r@ == sys_kind_text(self),
    {
        match self {
            SysErrorKind::NotPermitted => "operation not permitted",
            SysErrorKind::OutOfMemory => "out of memory",
            SysErrorKind::NoSys => "unknown system call number",
            SysErrorKind::NoSuchProcess => "no such process",
            SysErrorKind::Interrupted => "interrupted system call",
            SysErrorKind::IOError => "io error",
            SysErrorKind::AlreadyExists => "already exists",
            SysErrorKind::BadFileDescriptor => "bad file descriptor",
            SysErrorKind::FileTooLarge => "file too large",
            SysErrorKind::FileNameTooLong => "file name too long",
            SysErrorKind::NoSuchFileOrDirectory => "no such file or directory",
            SysErrorKind::IsADirectory => "is a directory",
            SysErrorKind::NotADirectory => "not a directory",
            SysErrorKind::NotEmpty => "not empty",
            SysErrorKind::PermissionDenied => "Permission denied",
            SysErrorKind::TooManyOpenFiles => "too many open files",
            SysErrorKind::NoSpaceLeft => "no space left on device",
            SysErrorKind::NoSuchDev => "no such device",
            SysErrorKind::NoExec => "not an executable file",
            SysErrorKind::Pipe => "pipe error",
            SysErrorKind::ExDev => "invalid cross-device link",
            SysErrorKind::BadFs => "bad file system",
            SysErrorKind::NoTty => "inappropriate ioctl for device",
            SysErrorKind::InvalidArgument => "invalid argument",
            SysErrorKind::Unsupported => "Unsupported",
            SysErrorKind::InvalidData => "invalid data",
            SysErrorKind::ExecFormat => "executable format error",
            SysErrorKind::Fault => "address fault",
            SysErrorKind::InvalidUt8Str => "invalid ut8 string",
            SysErrorKind::TooManyTasks => "too many tasks",
        }
    }
}

/// The text of an error: its kind's text, then `": "` and the message when
/// there is one.
pub open spec fn error_text(kind_text: Seq<char>, msg: Option<Seq<char>>) -> Seq<char> {
    match msg {
        Some(m) => kind_text + ": "@ + m,
        None => kind_text,
    }
}

/// A kernel error: a kind and an optional message.
#[derive(Debug)]
pub struct SysError {
    pub msg: Option<String>,
    pub kind: SysErrorKind,
}

/// The view of an optional owned string.
pub open spec fn opt_str_view(s: Option<String>) -> Option<Seq<char>> {
    match s {
        Some(s) => Some(s@),
        None => None,
    }
}

/// The view of an optional borrowed string.
pub open spec fn opt_ref_str_view(s: Option<&str>) -> Option<Seq<char>> {
    match s {
        Some(s) => Some(s@),
        None => None,
    }
}

fn join_message(kind: &str, msg: &Option<String>) -> (r: String)
    ensures
        r@ == error_text(kind@, opt_str_view(*msg)),
{
    match msg {
        Some(m) => {
            let head = str_concat(kind, ": ");
            proof {
                reveal_strlit(": ");
            }
            str_concat(head.as_str(), m.as_str())
        },
        None => str_to_string(kind),
    }
}

impl SysError {
    /// An error of `kind` with the message `msg`.
    pub fn with_fmt_args(kind: SysErrorKind, msg: &str) -> (r: Self)
        ensures
            r.kind == kind,
            opt_str_view(r.msg) == Some(msg@),
    {
        SysError { msg: Some(str_to_string(msg)), kind }
    }

    /// The kind of the error.
    pub fn kind(&self) -> (r: SysErrorKind)
        ensures
            r == self.kind,
    {
        self.kind
    }

    /// The message of the error, if any.
    pub fn msg(&self) -> (r: Option<&str>)
        ensures
            opt_ref_str_view(r) == opt_str_view(self.msg),
    {
        match &self.msg {
            Some(m) => Some(m.as_str()),
            None => None,
        }
    }

    /// The errno value of the error's kind.
    pub fn errno(&self) -> (r: u32)
        ensures
            r == spec_errno(self.kind),
    {
        self.kind.errno()
    }

    /// The error as text: `"<kind>: <msg>"`, or the kind's text alone.
    pub fn to_string(&self) -> (r: String)
        ensures
            r@ == error_text(sys_kind_text(self.kind), opt_str_view(self.msg)),
    {
        join_message(self.kind.as_str(), &self.msg)
    }
}

impl From<SysErrorKind> for SysError {
    fn from(kind: SysErrorKind) -> (r: Self) {
        SysError { msg: None, kind }
    }
}

impl vstd::std_specs::convert::FromSpecImpl<SysErrorKind> for SysError {
    open spec fn obeys_from_spec() -> bool {
        true
    }

    open spec fn from_spec(kind: SysErrorKind) -> SysError {
        SysError { msg: None, kind }
    }
}

/// What went wrong in a file system.
#[derive(Debug, Clone, Copy, PartialEq, Eq, Structural, Hash)]
pub enum FsErrorKind {
    OutOfMemory,
    IOError,
    AlreadyExists,
    FileTooLarge,
    FileNameTooLong,
    NoSuchFileOrDirectory,
    NoSuchDev,
    IsADirectory,
    NotADirectory,
    NotEmpty,
    PermissionDenied,
    NoSpaceLeft,
    ExDev,
    FileSystemCorruption,
    InvalidArgument,
    Unsupported,
    InvalidData,
    InvalidUt8Str,
}

/// The text each file-system error kind is shown with.
pub open spec fn fs_kind_text(k: FsErrorKind) -> Seq<char> {
    match k {
        FsErrorKind::OutOfMemory => "out of memory"@,
        FsErrorKind::IOError => "io error"@,
        FsErrorKind::AlreadyExists => "already exists"@,
        FsErrorKind::FileTooLarge => "file too large"@,
        FsErrorKind::FileNameTooLong => "file name too long"@,
        FsErrorKind::NoSuchFileOrDirectory => "no such file or directory"@,
        FsErrorKind::NoSuchDev => "no such dev"@,
        FsErrorKind::IsADirectory => "is a directory"@,
        FsErrorKind::NotADirectory => "not a directory"@,
        FsErrorKind::NotEmpty => "not empty"@,
        FsErrorKind::PermissionDenied => "permission denied"@,
        FsErrorKind::NoSpaceLeft => "no space left on device"@,
        FsErrorKind::ExDev => "invalid cross-device link"@,
        FsErrorKind::FileSystemCorruption => "file system corruption"@,
        FsErrorKind::InvalidArgument => "invalid argument"@,
        FsErrorKind::Unsupported => "Unsupported"@,
        FsErrorKind::InvalidData => "invalid data"@,
        FsErrorKind::InvalidUt8Str => "invalid ut8 string"@,
    }
}

/// The kernel error kind a file-system error kind is reported as.
pub open spec fn spec_sys_kind_of(k: FsErrorKind) -> SysErrorKind {
    match k {
        FsErrorKind::OutOfMemory => SysErrorKind::OutOfMemory,
        FsErrorKind::IOError => SysErrorKind::IOError,
        FsErrorKind::AlreadyExists => SysErrorKind::AlreadyExists,
        FsErrorKind::FileTooLarge => SysErrorKind::FileTooLarge,
        FsErrorKind::FileNameTooLong => SysErrorKind::FileNameTooLong,
        FsErrorKind::NoSuchFileOrDirectory => SysErrorKind::NoSuchFileOrDirectory,
        FsErrorKind::NoSuchDev => SysErrorKind::NoSuchDev,
        FsErrorKind::IsADirectory => SysErrorKind::IsADirectory,
        FsErrorKind::NotADirectory => SysErrorKind::NotADirectory,
        FsErrorKind::NotEmpty => SysErrorKind::NotEmpty,
        FsErrorKind::PermissionDenied => SysErrorKind::PermissionDenied,
        FsErrorKind::NoSpaceLeft => SysErrorKind::NoSpaceLeft,
        FsErrorKind::ExDev => SysErrorKind::ExDev,
        FsErrorKind::FileSystemCorruption => SysErrorKind::BadFs,
        FsErrorKind::InvalidArgument => SysErrorKind::InvalidArgument,
        FsErrorKind::Unsupported => SysErrorKind::Unsupported,
        FsErrorKind::InvalidData => SysErrorKind::InvalidData,
        FsErrorKind::InvalidUt8Str => SysErrorKind::InvalidUt8Str,
    }
}

impl FsErrorKind {
    /// The text the kind is shown with.
    pub fn as_str(self) -> (r: &'static str)
        ensures
            r@ == fs_kind_text(self),
    {
        match self {
            FsErrorKind::OutOfMemory => "out of memory",
            FsErrorKind::IOError => "io error",
            FsErrorKind::AlreadyExists => "already exists",
            FsErrorKind::FileTooLarge => "file too large",
            FsErrorKind::FileNameTooLong => "file name too long",
            FsErrorKind::NoSuchFileOrDirectory => "no such file or directory",
            FsErrorKind::NoSuchDev => "no such dev",
            FsErrorKind::IsADirectory => "is a directory",
            FsErrorKind::NotADirectory => "not a directory",
            FsErrorKind::NotEmpty => "not empty",
            FsErrorKind::PermissionDenied => "permission denied",
            FsErrorKind::NoSpaceLeft => "no space left on device",
            FsErrorKind::ExDev => "invalid cross-device link",
            FsErrorKind::FileSystemCorruption => "file system corruption",
            FsErrorKind::InvalidArgument => "invalid argument",
            FsErrorKind::Unsupported => "Unsupported",
            FsErrorKind::InvalidData => "invalid data",
            FsErrorKind::InvalidUt8Str => "invalid ut8 string",
        }
    }

    /// The kernel error kind this kind is reported as.
    pub fn to_sys_kind(self) -> (r: SysErrorKind)
        ensures
            r == spec_sys_kind_of(self),
    {
        match self {
            FsErrorKind::OutOfMemory => SysErrorKind::OutOfMemory,
            FsErrorKind::IOError => SysErrorKind::IOError,
            FsErrorKind::AlreadyExists => SysErrorKind::AlreadyExists,
            FsErrorKind::FileTooLarge => SysErrorKind::FileTooLarge,
            FsErrorKind::FileNameTooLong => SysErrorKind::FileNameTooLong,
            FsErrorKind::NoSuchFileOrDirectory => SysErrorKind::NoSuchFileOrDirectory,
            FsErrorKind::NoSuchDev => SysErrorKind::NoSuchDev,
            FsErrorKind::IsADirectory => SysErrorKind::IsADirectory,
            FsErrorKind::NotADirectory => SysErrorKind::NotADirectory,
            FsErrorKind::NotEmpty => SysErrorKind::NotEmpty,
            FsErrorKind::PermissionDenied => SysErrorKind::PermissionDenied,
            FsErrorKind::NoSpaceLeft => SysErrorKind::NoSpaceLeft,
            FsErrorKind::ExDev => SysErrorKind::ExDev,
            FsErrorKind::FileSystemCorruption => SysErrorKind::BadFs,
            FsErrorKind::InvalidArgument => SysErrorKind::InvalidArgument,
            FsErrorKind::Unsupported => SysErrorKind::Unsupported,
            FsErrorKind::InvalidData => SysErrorKind::InvalidData,
            FsErrorKind::InvalidUt8Str => SysErrorKind::InvalidUt8Str,
        }
    }
}

/// A file-system error: a kind and an optional message.
#[derive(Debug)]
pub struct FsError {
    pub msg: Option<String>,
    pub kind: FsErrorKind,
}

impl FsError {
    /// An error of `kind` with the message `msg`.
    pub fn with_fmt_args(kind: FsErrorKind, msg: &str) -> (r: Self)
        ensures
            r.kind == kind,
            opt_str_view(r.msg) == Some(msg@),
    {
        FsError { msg: Some(str_to_string(msg)), kind }
    }

    /// The kind of the error.
    pub fn kind(&self) -> (r: FsErrorKind)
        ensures
            r == self.kind,
    {
        self.kind
    }

    /// The message of the error, if any.
    pub fn msg(&self) -> (r: Option<&str>)
        ensures
            opt_ref_str_view(r) == opt_str_view(self.msg),
    {
        match &self.msg {
            Some(m) => Some(m.as_str()),
            None => None,
        }
    }

    /// The error as text: `"<kind>: <msg>"`, or the kind's text alone.
    pub fn to_string(&self) -> (r: String)
        ensures
            r@ == error_text(fs_kind_text(self.kind), opt_str_view(self.msg)),
    {
        join_message(self.kind.as_str(), &self.msg)
    }

    /// The kernel error this error is reported as: the matching kind, the
    /// same message.
    pub fn into_sys_error(self) -> (r: SysError)
        ensures
            r.kind == spec_sys_kind_of(self.kind),
            r.msg == self.msg,
    {
        SysError { kind: self.kind.to_sys_kind(), msg: self.msg }
    }
}

impl From<FsErrorKind> for FsError {
    fn from(kind: FsErrorKind) -> (r: Self) {
        FsError { msg: None, kind }
    }
}

impl vstd::std_specs::convert::FromSpecImpl<FsErrorKind> for FsError {
    open spec fn obeys_from_spec() -> bool {
        true
    }

    open spec fn from_spec(kind: FsErrorKind) -> FsError {
        FsError { msg: None, kind }
    }
}

impl From<FsError> for SysError {
    fn from(e: FsError) -> (r: Self) {
        e.into_sys_error()
    }
}

impl vstd::std_specs::convert::FromSpecImpl<FsError> for SysError {
    open spec fn obeys_from_spec() -> bool {
        true
    }

    open spec fn from_spec(e: FsError) -> SysError {
        SysError { kind: spec_sys_kind_of(e.kind), msg: e.msg }
    }
}

/// Every errno value names at most one kind, and `try_from_primitive` gives
/// back the kind of each errno value.
pub proof fn lemma_errno_round_trip(k: SysErrorKind, j: SysErrorKind)
    ensures
        spec_errno(k) == spec_errno(j) ==> k == j,
        1 <= spec_errno(k) <= 30,
{
}

} // verus!
