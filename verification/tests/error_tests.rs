use journald_query::error::{
    check_location, check_status, next_outcome, open_outcome, ErrnoCodes, JournalError,
};

#[test]
fn test_error_conversion() {
    assert_eq!(JournalError::from_errno(-libc::EINVAL), JournalError::InvalidArgument);
    assert_eq!(JournalError::from_errno(-libc::ECHILD), JournalError::CrossThreadUsage);
    assert_eq!(JournalError::from_errno(-libc::ENOENT), JournalError::NotFound);
    assert_eq!(JournalError::from_errno(-999), JournalError::Unknown(999));
}

#[test]
fn test_error_display() {
    let err = JournalError::InvalidArgument;
    assert_eq!(err.to_string(), "Invalid argument provided");
}

#[test]
fn test_error_handling() {
    let err = JournalError::from_errno(-libc::EINVAL);
    assert_eq!(err, JournalError::InvalidArgument);
}

#[test]
fn from_errno_gives_each_kind_of_the_taxonomy() {
    assert_eq!(JournalError::from_errno(-libc::EINVAL), JournalError::InvalidArgument);
    assert_eq!(JournalError::from_errno(-libc::ECHILD), JournalError::CrossThreadUsage);
    assert_eq!(JournalError::from_errno(-libc::EADDRNOTAVAIL), JournalError::NotPositioned);
    assert_eq!(JournalError::from_errno(-libc::ENOENT), JournalError::NotFound);
    assert_eq!(JournalError::from_errno(-libc::ENOMEM), JournalError::OutOfMemory);
    assert_eq!(JournalError::from_errno(-libc::ENOBUFS), JournalError::BufferTooSmall);
    assert_eq!(JournalError::from_errno(-libc::E2BIG), JournalError::DataTooLarge);
    assert_eq!(JournalError::from_errno(-libc::EPROTONOSUPPORT), JournalError::ProtocolNotSupported);
    assert_eq!(JournalError::from_errno(-libc::EBADMSG), JournalError::BadMessage);
    assert_eq!(JournalError::from_errno(-libc::EIO), JournalError::IoError);
}

#[test]
fn from_errno_takes_the_common_numbers() {
    assert_eq!(JournalError::from_errno(-22), JournalError::InvalidArgument);
    assert_eq!(JournalError::from_errno(-10), JournalError::CrossThreadUsage);
    assert_eq!(JournalError::from_errno(-2), JournalError::NotFound);
    assert_eq!(JournalError::from_errno(-12), JournalError::OutOfMemory);
    assert_eq!(JournalError::from_errno(-7), JournalError::DataTooLarge);
    assert_eq!(JournalError::from_errno(-5), JournalError::IoError);
}

#[test]
fn from_errno_keeps_codes_outside_the_taxonomy() {
    assert_eq!(JournalError::from_errno(0), JournalError::Unknown(0));
    assert_eq!(JournalError::from_errno(22), JournalError::Unknown(-22));
    assert_eq!(JournalError::from_errno(-1), JournalError::Unknown(1));
    assert_eq!(JournalError::from_errno(i32::MIN), JournalError::Unknown(i32::MIN));
    assert_eq!(JournalError::from_errno(i32::MAX), JournalError::Unknown(-i32::MAX));
}

#[test]
fn platform_codes_are_those_of_libc() {
    let codes = ErrnoCodes::platform();
    assert_eq!(codes.invalid_argument, libc::EINVAL);
    assert_eq!(codes.cross_thread_usage, libc::ECHILD);
    assert_eq!(codes.not_positioned, libc::EADDRNOTAVAIL);
    assert_eq!(codes.not_found, libc::ENOENT);
    assert_eq!(codes.out_of_memory, libc::ENOMEM);
    assert_eq!(codes.buffer_too_small, libc::ENOBUFS);
    assert_eq!(codes.data_too_large, libc::E2BIG);
    assert_eq!(codes.protocol_not_supported, libc::EPROTONOSUPPORT);
    assert_eq!(codes.bad_message, libc::EBADMSG);
    assert_eq!(codes.io_error, libc::EIO);
    assert_eq!(codes.invalid_argument, 22);
    assert_eq!(codes.cross_thread_usage, 10);
    assert_eq!(codes.not_found, 2);
    assert_eq!(codes.out_of_memory, 12);
    assert_eq!(codes.data_too_large, 7);
    assert_eq!(codes.io_error, 5);
}

#[test]
fn classify_goes_by_the_numbering_it_is_given() {
    let codes = ErrnoCodes {
        invalid_argument: 1,
        cross_thread_usage: 2,
        not_positioned: 3,
        not_found: 4,
        out_of_memory: 5,
        buffer_too_small: 6,
        data_too_large: 7,
        protocol_not_supported: 8,
        bad_message: 9,
        io_error: 10,
    };
    assert_eq!(JournalError::classify(&codes, -1), JournalError::InvalidArgument);
    assert_eq!(JournalError::classify(&codes, -3), JournalError::NotPositioned);
    assert_eq!(JournalError::classify(&codes, -6), JournalError::BufferTooSmall);
    assert_eq!(JournalError::classify(&codes, -8), JournalError::ProtocolNotSupported);
    assert_eq!(JournalError::classify(&codes, -9), JournalError::BadMessage);
    assert_eq!(JournalError::classify(&codes, -10), JournalError::IoError);
    assert_eq!(JournalError::classify(&codes, -11), JournalError::Unknown(11));
    let twice = ErrnoCodes { cross_thread_usage: 1, ..codes };
    assert_eq!(JournalError::classify(&twice, -1), JournalError::InvalidArgument);
}

#[test]
fn every_error_has_its_description() {
    assert_eq!(JournalError::InvalidArgument.to_string(), "Invalid argument provided");
    assert_eq!(
        JournalError::CrossThreadUsage.to_string(),
        "Journal object used from different thread"
    );
    assert_eq!(
        JournalError::NotPositioned.to_string(),
        "Read pointer not positioned at valid entry"
    );
    assert_eq!(JournalError::NotFound.to_string(), "Requested field or entry not found");
    assert_eq!(JournalError::OutOfMemory.to_string(), "Memory allocation failed");
    assert_eq!(JournalError::BufferTooSmall.to_string(), "Compressed entry too large");
    assert_eq!(JournalError::DataTooLarge.to_string(), "Data field too large for architecture");
    assert_eq!(
        JournalError::ProtocolNotSupported.to_string(),
        "Unsupported compression or feature"
    );
    assert_eq!(JournalError::BadMessage.to_string(), "Journal is corrupted");
    assert_eq!(JournalError::IoError.to_string(), "I/O error occurred");
    assert_eq!(JournalError::Unknown(999).to_string(), "Unknown error code: 999");
    assert_eq!(JournalError::Unknown(-4).to_string(), "Unknown error code: -4");
}

#[test]
fn a_status_is_an_answer_or_an_error() {
    assert_eq!(check_status(0), Ok(0));
    assert_eq!(check_status(7), Ok(7));
    assert_eq!(check_status(-2), Err(JournalError::NotFound));
    assert_eq!(check_status(-5), Err(JournalError::IoError));
    assert_eq!(check_status(i32::MIN), Err(JournalError::Unknown(i32::MIN)));

    assert_eq!(next_outcome(1), Ok(true));
    assert_eq!(next_outcome(2), Ok(true));
    assert_eq!(next_outcome(0), Ok(false));
    assert_eq!(next_outcome(-12), Err(JournalError::OutOfMemory));

    assert_eq!(open_outcome(0, false), Ok(()));
    assert_eq!(open_outcome(0, true), Err(JournalError::Unknown(-1)));
    assert_eq!(open_outcome(-2, true), Err(JournalError::NotFound));
    assert_eq!(open_outcome(-22, false), Err(JournalError::InvalidArgument));

    assert_eq!(check_location("/var/log/journal"), Ok(()));
    assert_eq!(check_location(""), Ok(()));
    assert_eq!(check_location("/var/log\0/journal"), Err(JournalError::InvalidArgument));
}
