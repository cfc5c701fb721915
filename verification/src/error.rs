//! Structured error model and process exit codes.
//!
//! Every fallible operation returns [`Result<T>`]. Errors are grouped into a
//! small set of stable classes so that callers (and the JSON layer) can react
//! programmatically and so the process exit code communicates the class of
//! failure. No error path ever panics on malformed image data.
use vstd::prelude::*;

use crate::text;

verus! {

/// The machine-readable class of an error. The string form (`code`) is part of
/// the stable JSON contract.
#[derive(Debug, Clone, Copy, PartialEq, Eq, Structural)]
pub enum ErrorKind {
    /// Bad command-line usage (missing/contradictory options).
    Usage,
    /// The input image path does not exist.
    NotFound,
    /// The input image exists but cannot be opened (permissions).
    PermissionDenied,
    /// Generic underlying I/O failure while reading the image.
    Io,
    /// The container/image format is not one we support.
    UnsupportedFormat,
    /// A specific feature of an otherwise-supported format is unsupported.
    UnsupportedFeature,
    /// The image is structurally corrupt (bad magic, impossible geometry, ...).
    Corrupt,
    /// An APFS object's stored checksum did not validate.
    ChecksumFailed,
    /// An APFS object referenced by id/address could not be found.
    ObjectNotFound,
    /// A filesystem path could not be resolved.
    PathNotFound,
    /// A path component that should have been a directory was not.
    NotADirectory,
    /// Data is encrypted and plaintext access was refused.
    EncryptedUnsupported,
    /// Recovery completed only partially (some bytes/files missing).
    PartialRecovery,
    /// An internal invariant was violated — a bug, not bad input.
    Internal,
}

/// The stable lowercase identifier of each error class.
pub open spec fn kind_code(k: ErrorKind) -> Seq<char> {
    match k {
        ErrorKind::Usage => "usage"@,
        ErrorKind::NotFound => "not-found"@,
        ErrorKind::PermissionDenied => "permission-denied"@,
        ErrorKind::Io => "io"@,
        ErrorKind::UnsupportedFormat => "unsupported-format"@,
        ErrorKind::UnsupportedFeature => "unsupported-feature"@,
        ErrorKind::Corrupt => "corrupt"@,
        ErrorKind::ChecksumFailed => "checksum-failed"@,
        ErrorKind::ObjectNotFound => "object-not-found"@,
        ErrorKind::PathNotFound => "path-not-found"@,
        ErrorKind::NotADirectory => "not-a-directory"@,
        ErrorKind::EncryptedUnsupported => "encrypted-unsupported"@,
        ErrorKind::PartialRecovery => "partial-recovery"@,
        ErrorKind::Internal => "internal"@,
    }
}

/// The BSD-`sysexits.h`-flavoured exit code of each error class.
pub open spec fn kind_exit_code(k: ErrorKind) -> i32 {
    match k {
        ErrorKind::Usage => 64,
        ErrorKind::NotFound => 66,
        ErrorKind::PermissionDenied => 77,
        ErrorKind::Io => 74,
        ErrorKind::UnsupportedFormat => 65,
        ErrorKind::UnsupportedFeature => 69,
        ErrorKind::Corrupt => 65,
        ErrorKind::ChecksumFailed => 65,
        ErrorKind::ObjectNotFound => 65,
        ErrorKind::PathNotFound => 66,
        ErrorKind::NotADirectory => 65,
        ErrorKind::EncryptedUnsupported => 69,
        ErrorKind::PartialRecovery => 75,
        ErrorKind::Internal => 70,
    }
}

impl ErrorKind {
    /// Stable lowercase identifier used in JSON `error.code`.
    pub fn code(self) -> (r: &'static str)
        ensures
            r@ == kind_code(self),
    {
        match self {
            ErrorKind::Usage => "usage",
            ErrorKind::NotFound => "not-found",
            ErrorKind::PermissionDenied => "permission-denied",
            ErrorKind::Io => "io",
            ErrorKind::UnsupportedFormat => "unsupported-format",
            ErrorKind::UnsupportedFeature => "unsupported-feature",
            ErrorKind::Corrupt => "corrupt",
            ErrorKind::ChecksumFailed => "checksum-failed",
            ErrorKind::ObjectNotFound => "object-not-found",
            ErrorKind::PathNotFound => "path-not-found",
            ErrorKind::NotADirectory => "not-a-directory",
            ErrorKind::EncryptedUnsupported => "encrypted-unsupported",
            ErrorKind::PartialRecovery => "partial-recovery",
            ErrorKind::Internal => "internal",
        }
    }

    /// Process exit code for this class. Usage, I/O, unsupported, corrupt and
    /// partial-recovery failures are distinguishable by exit code.
    pub fn exit_code(self) -> (r: i32)
        ensures
            r == kind_exit_code(self),
    {
        match self {
            ErrorKind::Usage => 64,
            ErrorKind::NotFound => 66,
            ErrorKind::PermissionDenied => 77,
            ErrorKind::Io => 74,
            ErrorKind::UnsupportedFormat => 65,
            ErrorKind::UnsupportedFeature => 69,
            ErrorKind::Corrupt => 65,
            ErrorKind::ChecksumFailed => 65,
            ErrorKind::ObjectNotFound => 65,
            ErrorKind::PathNotFound => 66,
            ErrorKind::NotADirectory => 65,
            ErrorKind::EncryptedUnsupported => 69,
            ErrorKind::PartialRecovery => 75,
            ErrorKind::Internal => 70,
        }
    }
}

/// The five major failure classes (usage, I/O, unsupported feature, corrupt
/// data, partial recovery) have pairwise distinct exit codes.
pub proof fn major_exit_codes_distinct()
    ensures
        ({
            let c = seq![
                kind_exit_code(ErrorKind::Usage),
                kind_exit_code(ErrorKind::Io),
                kind_exit_code(ErrorKind::UnsupportedFeature),
                kind_exit_code(ErrorKind::Corrupt),
                kind_exit_code(ErrorKind::PartialRecovery),
            ];
            forall|i: int, j: int| 0 <= i < j < 5 ==> c[i] != c[j]
        }),
{
}

/// Distinct error classes have distinct identifiers, so a JSON `error.code`
/// names exactly one class.
pub proof fn kind_codes_distinct(a: ErrorKind, b: ErrorKind)
    requires
        a != b,
    ensures
        kind_code(a) != kind_code(b),
{
    reveal_strlit("usage");
    reveal_strlit("not-found");
    reveal_strlit("permission-denied");
    reveal_strlit("io");
    reveal_strlit("unsupported-format");
    reveal_strlit("unsupported-feature");
    reveal_strlit("corrupt");
    reveal_strlit("checksum-failed");
    reveal_strlit("object-not-found");
    reveal_strlit("path-not-found");
    reveal_strlit("not-a-directory");
    reveal_strlit("encrypted-unsupported");
    reveal_strlit("partial-recovery");
    reveal_strlit("internal");
    if kind_code(a).len() == kind_code(b).len() {
        assert(kind_code(a)[0] != kind_code(b)[0]);
    }
}

/// A structured error carrying an [`ErrorKind`] class and a human message.
#[derive(Debug, Clone)]
pub struct Error {
    pub kind: ErrorKind,
    pub message: String,
    /// Optional extra context (e.g. the OID or block that failed).
    pub context: Option<String>,
}

/// The text an error displays as: the message, then ` (context)` if present.
pub open spec fn display_text(e: Error) -> Seq<char> {
    match e.context {
        Some(c) => e.message@ + " ("@ + c@ + ")"@,
        None => e.message@,
    }
}

impl Error {
    pub fn new(kind: ErrorKind, message: String) -> (e: Error)
        ensures
            e.kind == kind,
            e.message@ == message@,
            e.context is None,
    {
        Error { kind, message, context: None }
    }

    pub fn with_context(self, context: String) -> (e: Error)
        ensures
            e.kind == self.kind,
            e.message@ == self.message@,
            e.context matches Some(c) && c@ == context@,
    {
        Error { kind: self.kind, message: self.message, context: Some(context) }
    }

    pub fn kind(&self) -> (k: ErrorKind)
        ensures
            k == self.kind,
    {
        self.kind
    }

    /// The human-readable rendering (`message`, then ` (context)` if any).
    pub fn to_display_string(&self) -> (s: String)
        ensures
            s@ == display_text(*self),
    {
        let mut s = String::new();
        text::push_str(&mut s, self.message.as_str());
        match &self.context {
            Some(c) => {
                text::push_str(&mut s, " (");
                text::push_str(&mut s, c.as_str());
                text::push_str(&mut s, ")");
            },
            None => {},
        }
        assert(s@ =~= display_text(*self));
        s
    }
}

pub type Result<T> = core::result::Result<T, Error>;

#[verifier::external_type_specification]
#[verifier::external_body]
pub struct ExIoError(std::io::Error);

/// The classes of I/O error this library tells apart.
#[derive(Debug, Clone, Copy, PartialEq, Eq, Structural)]
pub enum IoErrorClass {
    /// `std::io::ErrorKind::NotFound`.
    NotFound,
    /// `std::io::ErrorKind::PermissionDenied`.
    PermissionDenied,
    /// Any other kind.
    Other,
}

/// Calls `std::io::Error::kind` and tells apart the two kinds this library
/// distinguishes from all others. Nothing is stated of the result: the kind
/// of an `std::io::Error` is not visible to the verifier.
#[verifier::external_body]
fn io_error_class(e: &std::io::Error) -> (c: IoErrorClass) {
    match e.kind() {
        std::io::ErrorKind::NotFound => IoErrorClass::NotFound,
        std::io::ErrorKind::PermissionDenied => IoErrorClass::PermissionDenied,
        _ => IoErrorClass::Other,
    }
}

/// Calls `ToString::to_string` on an `std::io::Error` (its `Display` text,
/// which may carry an operating-system message); nothing is stated of it.
#[verifier::external_body]
fn io_error_text(e: &std::io::Error) -> (s: String) {
    e.to_string()
}

/// The error class of an I/O error of class `c`.
pub open spec fn io_class_kind(c: IoErrorClass) -> ErrorKind {
    match c {
        IoErrorClass::NotFound => ErrorKind::NotFound,
        IoErrorClass::PermissionDenied => ErrorKind::PermissionDenied,
        IoErrorClass::Other => ErrorKind::Io,
    }
}

/// The error for an I/O failure of class `class` with text `message`.
pub fn error_from_io(class: IoErrorClass, message: String) -> (e: Error)
    ensures
        e.kind == io_class_kind(class),
        e.message@ == message@,
        e.context is None,
{
    let kind = match class {
        IoErrorClass::NotFound => ErrorKind::NotFound,
        IoErrorClass::PermissionDenied => ErrorKind::PermissionDenied,
        IoErrorClass::Other => ErrorKind::Io,
    };
    Error::new(kind, message)
}

impl From<std::io::Error> for Error {
    /// An I/O error keeps its text; `NotFound` and `PermissionDenied` keep
    /// their class, every other kind becomes [`ErrorKind::Io`].
    fn from(e: std::io::Error) -> (r: Error) {
        let class = io_error_class(&e);
        error_from_io(class, io_error_text(&e))
    }
}

impl vstd::std_specs::convert::FromSpecImpl<std::io::Error> for Error {
    /// The class of an I/O error is not visible to the verifier, so no
    /// result is promised here; [`error_from_io`] states the mapping.
    open spec fn obeys_from_spec() -> bool {
        false
    }

    open spec fn from_spec(v: std::io::Error) -> Error {
        vstd::pervasive::arbitrary()
    }
}

/// `Corrupt` error.
pub fn corrupt(msg: String) -> (e: Error)
    ensures
        e.kind == ErrorKind::Corrupt,
        e.message@ == msg@,
        e.context is None,
{
    Error::new(ErrorKind::Corrupt, msg)
}

/// `ChecksumFailed` error.
pub fn checksum(msg: String) -> (e: Error)
    ensures
        e.kind == ErrorKind::ChecksumFailed,
        e.message@ == msg@,
        e.context is None,
{
    Error::new(ErrorKind::ChecksumFailed, msg)
}

/// `UnsupportedFeature` error.
pub fn unsupported(msg: String) -> (e: Error)
    ensures
        e.kind == ErrorKind::UnsupportedFeature,
        e.message@ == msg@,
        e.context is None,
{
    Error::new(ErrorKind::UnsupportedFeature, msg)
}

/// `ObjectNotFound` error.
pub fn not_found_obj(msg: String) -> (e: Error)
    ensures
        e.kind == ErrorKind::ObjectNotFound,
        e.message@ == msg@,
        e.context is None,
{
    Error::new(ErrorKind::ObjectNotFound, msg)
}

/// An error of class `kind` whose message is the literal `msg`.
pub fn err(kind: ErrorKind, msg: &str) -> (e: Error)
    ensures
        e.kind == kind,
        e.message@ == msg@,
        e.context is None,
{
    Error::new(kind, String::from_str(msg))
}

} // verus!
