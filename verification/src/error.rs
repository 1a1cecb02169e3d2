//! The error taxonomy and the translation of native status codes into it.
use vstd::prelude::*;
use vstd::string::*;

verus! {

/// Errors that journal operations report.
#[derive(Debug, Clone, PartialEq, Eq, Structural)]
pub enum JournalError {
    /// An argument was malformed.
    InvalidArgument,
    /// The journal object was used from another process or thread than its creator.
    CrossThreadUsage,
    /// The read pointer is not positioned at a valid entry.
    NotPositioned,
    /// The requested field or entry does not exist.
    NotFound,
    /// Memory allocation failed.
    OutOfMemory,
    /// A compressed entry is too large.
    BufferTooSmall,
    /// A data field is too large for this architecture.
    DataTooLarge,
    /// The journal uses an unsupported compression or feature.
    ProtocolNotSupported,
    /// The journal is corrupted.
    BadMessage,
    /// An I/O error occurred.
    IoError,
    /// A status code outside the taxonomy.
    Unknown(i32),
}

/// The numbers that the platform gives to the ten status codes of the taxonomy.
#[derive(Debug, Clone, Copy, PartialEq, Eq, Structural)]
pub struct ErrnoCodes {
    pub invalid_argument: i32,
    pub cross_thread_usage: i32,
    pub not_positioned: i32,
    pub not_found: i32,
    pub out_of_memory: i32,
    pub buffer_too_small: i32,
    pub data_too_large: i32,
    pub protocol_not_supported: i32,
    pub bad_message: i32,
    pub io_error: i32,
}

/// The magnitude of a status code: its negation, with `i32::MIN` left as it is.
pub open spec fn magnitude(errno: i32) -> i32 {
    if errno == i32::MIN {
        errno
    } else {
        (-errno) as i32
    }
}

/// The error that a status code stands for under a given numbering: the first
/// kind, in the order of the taxonomy, whose number is the code's magnitude.
pub open spec fn classify_spec(codes: ErrnoCodes, errno: i32) -> JournalError {
    let code = magnitude(errno);
    if code == codes.invalid_argument {
        JournalError::InvalidArgument
    } else if code == codes.cross_thread_usage {
        JournalError::CrossThreadUsage
    } else if code == codes.not_positioned {
        JournalError::NotPositioned
    } else if code == codes.not_found {
        JournalError::NotFound
    } else if code == codes.out_of_memory {
        JournalError::OutOfMemory
    } else if code == codes.buffer_too_small {
        JournalError::BufferTooSmall
    } else if code == codes.data_too_large {
        JournalError::DataTooLarge
    } else if code == codes.protocol_not_supported {
        JournalError::ProtocolNotSupported
    } else if code == codes.bad_message {
        JournalError::BadMessage
    } else if code == codes.io_error {
        JournalError::IoError
    } else {
        JournalError::Unknown(code)
    }
}

/// The text `text` describes the error `err`. An unknown code is named by its
/// number as `i32` prints it.
pub open spec fn describes(err: JournalError, text: Seq<char>) -> bool {
    match err {
        JournalError::InvalidArgument => text == "Invalid argument provided"@,
        JournalError::CrossThreadUsage => text == "Journal object used from different thread"@,
        JournalError::NotPositioned => text == "Read pointer not positioned at valid entry"@,
        JournalError::NotFound => text == "Requested field or entry not found"@,
        JournalError::OutOfMemory => text == "Memory allocation failed"@,
        JournalError::BufferTooSmall => text == "Compressed entry too large"@,
        JournalError::DataTooLarge => text == "Data field too large for architecture"@,
        JournalError::ProtocolNotSupported => text == "Unsupported compression or feature"@,
        JournalError::BadMessage => text == "Journal is corrupted"@,
        JournalError::IoError => text == "I/O error occurred"@,
        JournalError::Unknown(code) => exists|digits: String|
            #[trigger] to_string_from_display_ensures::<i32>(&code, digits) && text
                == "Unknown error code: "@ + digits@,
    }
}

/// The six numbers that every Linux target shares.
pub open spec fn common_codes(codes: ErrnoCodes) -> bool {
    &&& codes.invalid_argument == 22
    &&& codes.cross_thread_usage == 10
    &&& codes.not_found == 2
    &&& codes.out_of_memory == 12
    &&& codes.data_too_large == 7
    &&& codes.io_error == 5
}

/// `libc::EINVAL`, which libc sets to 22 on every Linux target.
#[verifier::external_body]
fn einval() -> (code: i32)
    ensures
        code == 22,
{
    libc::EINVAL
}

/// `libc::ECHILD`, which libc sets to 10 on every Linux target.
#[verifier::external_body]
fn echild() -> (code: i32)
    ensures
        code == 10,
{
    libc::ECHILD
}

/// `libc::ENOENT`, which libc sets to 2 on every Linux target.
#[verifier::external_body]
fn enoent() -> (code: i32)
    ensures
        code == 2,
{
    libc::ENOENT
}

/// `libc::ENOMEM`, which libc sets to 12 on every Linux target.
#[verifier::external_body]
fn enomem() -> (code: i32)
    ensures
        code == 12,
{
    libc::ENOMEM
}

/// `libc::E2BIG`, which libc sets to 7 on every Linux target.
#[verifier::external_body]
fn e2big() -> (code: i32)
    ensures
        code == 7,
{
    libc::E2BIG
}

/// `libc::EIO`, which libc sets to 5 on every Linux target.
#[verifier::external_body]
fn eio() -> (code: i32)
    ensures
        code == 5,
{
    libc::EIO
}

/// `libc::EADDRNOTAVAIL`. Its number differs between architectures, so
/// nothing is claimed of it.
#[verifier::external_body]
fn eaddrnotavail() -> i32 {
    libc::EADDRNOTAVAIL
}

/// `libc::ENOBUFS`. Its number differs between architectures, so nothing is
/// claimed of it.
#[verifier::external_body]
fn enobufs() -> i32 {
    libc::ENOBUFS
}

/// `libc::EPROTONOSUPPORT`. Its number differs between architectures, so
/// nothing is claimed of it.
#[verifier::external_body]
fn eprotonosupport() -> i32 {
    libc::EPROTONOSUPPORT
}

/// `libc::EBADMSG`. Its number differs between architectures, so nothing is
/// claimed of it.
#[verifier::external_body]
fn ebadmsg() -> i32 {
    libc::EBADMSG
}

impl ErrnoCodes {
    /// The numbering of the platform that the library was built for.
    pub fn platform() -> (codes: ErrnoCodes)
        ensures
            common_codes(codes),
    {
        ErrnoCodes {
            invalid_argument: einval(),
            cross_thread_usage: echild(),
            not_positioned: eaddrnotavail(),
            not_found: enoent(),
            out_of_memory: enomem(),
            buffer_too_small: enobufs(),
            data_too_large: e2big(),
            protocol_not_supported: eprotonosupport(),
            bad_message: ebadmsg(),
            io_error: eio(),
        }
    }
}

impl JournalError {
    /// Translates a status code under a given numbering.
    pub fn classify(codes: &ErrnoCodes, errno: i32) -> (err: JournalError)
        ensures
            err == classify_spec(*codes, errno),
    {
        let code: i32 = if errno == i32::MIN {
            errno
        } else {
            -errno
        };
        if code == codes.invalid_argument {
            JournalError::InvalidArgument
        } else if code == codes.cross_thread_usage {
            JournalError::CrossThreadUsage
        } else if code == codes.not_positioned {
            JournalError::NotPositioned
        } else if code == codes.not_found {
            JournalError::NotFound
        } else if code == codes.out_of_memory {
            JournalError::OutOfMemory
        } else if code == codes.buffer_too_small {
            JournalError::BufferTooSmall
        } else if code == codes.data_too_large {
            JournalError::DataTooLarge
        } else if code == codes.protocol_not_supported {
            JournalError::ProtocolNotSupported
        } else if code == codes.bad_message {
            JournalError::BadMessage
        } else if code == codes.io_error {
            JournalError::IoError
        } else {
            JournalError::Unknown(code)
        }
    }

    /// The description of the error for a reader.
    pub fn to_string(&self) -> (text: String)
        ensures
            describes(*self, text@),
    {
        match self {
            JournalError::InvalidArgument => "Invalid argument provided".to_owned(),
            JournalError::CrossThreadUsage => "Journal object used from different thread".to_owned(),
            JournalError::NotPositioned => "Read pointer not positioned at valid entry".to_owned(),
            JournalError::NotFound => "Requested field or entry not found".to_owned(),
            JournalError::OutOfMemory => "Memory allocation failed".to_owned(),
            JournalError::BufferTooSmall => "Compressed entry too large".to_owned(),
            JournalError::DataTooLarge => "Data field too large for architecture".to_owned(),
            JournalError::ProtocolNotSupported => "Unsupported compression or feature".to_owned(),
            JournalError::BadMessage => "Journal is corrupted".to_owned(),
            JournalError::IoError => "I/O error occurred".to_owned(),
            JournalError::Unknown(code) => {
                let digits = code.to_string();
                String::from_str("Unknown error code: ").concat(digits.as_str())
            },
        }
    }

    /// Translates a native status code, whose magnitude is an errno number,
    /// under the platform's numbering.
    pub fn from_errno(errno: i32) -> (err: JournalError)
        ensures
            translates(errno, err),
    {
        let codes = ErrnoCodes::platform();
        JournalError::classify(&codes, errno)
    }
}

/// The error `err` is what the status code stands for under some numbering
/// that has the six common numbers.
pub open spec fn translates(errno: i32, err: JournalError) -> bool {
    exists|codes: ErrnoCodes| common_codes(codes) && err == #[trigger] classify_spec(codes, errno)
}

/// What a native call reports with its status: a negative status is an
/// error, and any other is the call's answer.
pub fn check_status(status: i32) -> (outcome: Result<i32, JournalError>)
    ensures
        status >= 0 ==> outcome == Ok::<i32, JournalError>(status),
        status < 0 ==> (outcome matches Err(err) && translates(status, err)),
{
    if status < 0 {
        Err(JournalError::from_errno(status))
    } else {
        Ok(status)
    }
}

/// What a step forward reports with its status: whether the cursor came to
/// an entry, or the error of a negative status.
pub fn next_outcome(status: i32) -> (outcome: Result<bool, JournalError>)
    ensures
        status >= 0 ==> outcome == Ok::<bool, JournalError>(status > 0),
        status < 0 ==> (outcome matches Err(err) && translates(status, err)),
{
    match check_status(status) {
        Ok(answer) => Ok(answer > 0),
        Err(err) => Err(err),
    }
}

/// What the opening of a journal reports: the error of a negative status,
/// and the unknown code -1 where the status is good and yet no handle came.
pub fn open_outcome(status: i32, handle_is_null: bool) -> (outcome: Result<(), JournalError>)
    ensures
        status >= 0 && !handle_is_null ==> outcome is Ok,
        status >= 0 && handle_is_null ==> outcome == Err::<(), JournalError>(
            JournalError::Unknown((-1) as i32),
        ),
        status < 0 ==> (outcome matches Err(err) && translates(status, err)),
{
    match check_status(status) {
        Err(err) => Err(err),
        Ok(_) => {
            if handle_is_null {
                Err(JournalError::Unknown(-1))
            } else {
                Ok(())
            }
        },
    }
}

/// Whether a location can be handed to the journal: a path that holds a NUL
/// cannot, and is refused with `InvalidArgument`.
pub fn check_location(path: &str) -> (outcome: Result<(), JournalError>)
    ensures
        outcome is Ok <==> !path@.contains('\0'),
        outcome is Err ==> outcome == Err::<(), JournalError>(JournalError::InvalidArgument),
{
    if crate::text::has_nul(path) {
        Err(JournalError::InvalidArgument)
    } else {
        Ok(())
    }
}

} // verus!
