use pv_cobra_redux::Error;

#[test]
fn status_codes_name_their_failures() {
    assert_eq!(Error::from(1), Error::OutOfMemory);
    assert_eq!(Error::from(2), Error::IoError);
    assert_eq!(Error::from(3), Error::InvalidArgument);
    assert_eq!(Error::from(4), Error::StopIteration);
    assert_eq!(Error::from(5), Error::KeyError);
    assert_eq!(Error::from(6), Error::InvalidState);
    assert_eq!(Error::from(7), Error::RuntimeError);
    assert_eq!(Error::from(8), Error::ActivationError);
    assert_eq!(Error::from(9), Error::ActivationLimitReached);
    assert_eq!(Error::from(10), Error::ActivationThrottled);
    assert_eq!(Error::from(11), Error::ActivationRefused);
}

#[test]
fn unlisted_status_codes_are_kept_as_numbers() {
    assert_eq!(Error::from(12), Error::UnknownError(12));
    assert_eq!(Error::from(0), Error::UnknownError(0));
    assert_eq!(Error::from(u32::MAX), Error::UnknownError(u32::MAX));
}

#[test]
fn status_constants_have_the_values_of_the_engine() {
    assert_eq!(pv_cobra_redux::error::STATUS_SUCCESS, 0);
    assert_eq!(pv_cobra_redux::error::STATUS_OUT_OF_MEMORY, 1);
    assert_eq!(pv_cobra_redux::error::STATUS_INVALID_ARGUMENT, 3);
    assert_eq!(pv_cobra_redux::error::STATUS_ACTIVATION_REFUSED, 11);
}

#[test]
fn messages_are_worded_per_failure() {
    assert_eq!(Error::NullValue.message(), "unexpected null value");
    assert_eq!(Error::OutOfMemory.message(), "out of memory");
    assert_eq!(Error::IoError.message(), "I/O error");
    assert_eq!(Error::InvalidArgument.message(), "invalid argument");
    assert_eq!(Error::StopIteration.message(), "stop iteration");
    assert_eq!(Error::KeyError.message(), "key error");
    assert_eq!(Error::InvalidState.message(), "invalid state");
    assert_eq!(Error::RuntimeError.message(), "runtime error");
    assert_eq!(Error::ActivationError.message(), "activation error");
    assert_eq!(Error::ActivationLimitReached.message(), "activation limit reached");
    assert_eq!(Error::ActivationThrottled.message(), "activation throttled");
    assert_eq!(Error::ActivationRefused.message(), "activation refused");
}

#[test]
fn unknown_status_is_written_in_decimal() {
    assert_eq!(Error::UnknownError(0).message(), "non-zero status returned: 0");
    assert_eq!(Error::UnknownError(7).message(), "non-zero status returned: 7");
    assert_eq!(Error::UnknownError(10).message(), "non-zero status returned: 10");
    assert_eq!(Error::UnknownError(42).message(), "non-zero status returned: 42");
    assert_eq!(Error::UnknownError(1000).message(), "non-zero status returned: 1000");
    assert_eq!(
        Error::UnknownError(u32::MAX).message(),
        "non-zero status returned: 4294967295"
    );
}

#[test]
fn decimal_notation_matches_the_standard_one() {
    let samples: [u64; 11] =
        [0, 1, 9, 10, 99, 100, 12345, 1_000_000_000, 4294967295, 4294967296, u64::MAX];
    for n in samples {
        let mut out = String::from("x");
        pv_cobra_redux::decimal::push_decimal(&mut out, n);
        assert_eq!(out, format!("x{}", n));
    }
}

#[test]
fn activation_failures_are_told_apart() {
    assert!(Error::ActivationError.is_activation());
    assert!(Error::ActivationLimitReached.is_activation());
    assert!(Error::ActivationThrottled.is_activation());
    assert!(Error::ActivationRefused.is_activation());
    assert!(!Error::NullValue.is_activation());
    assert!(!Error::OutOfMemory.is_activation());
    assert!(!Error::IoError.is_activation());
    assert!(!Error::InvalidArgument.is_activation());
    assert!(!Error::StopIteration.is_activation());
    assert!(!Error::KeyError.is_activation());
    assert!(!Error::InvalidState.is_activation());
    assert!(!Error::RuntimeError.is_activation());
    assert!(!Error::UnknownError(8).is_activation());
}
