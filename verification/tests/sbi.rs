use rv_kernel::io::serial::Serial;
use rv_kernel::sbi::{shutdown_call, SbiCall, SbiError, SbiRet, SBI_SUCCESS};

const ERRORS: [(SbiError, isize); 8] = [
    (SbiError::Failed, -1),
    (SbiError::NotSupported, -2),
    (SbiError::InvalidParam, -3),
    (SbiError::Denied, -4),
    (SbiError::InvalidAddress, -5),
    (SbiError::AlreadyAvailable, -6),
    (SbiError::AlreadyStarted, -7),
    (SbiError::AlreadyStopped, -8),
];

#[test]
fn every_error_has_its_code() {
    for (error, code) in ERRORS {
        assert_eq!(error.code(), code);
        assert_eq!(SbiError::from_code(code), Some(error));
    }
}

#[test]
fn other_codes_name_no_error() {
    assert_eq!(SbiError::from_code(0), None);
    assert_eq!(SbiError::from_code(1), None);
    assert_eq!(SbiError::from_code(-9), None);
    assert_eq!(SbiError::from_code(isize::MIN), None);
}

#[test]
fn a_successful_answer_has_a_value_and_no_error() {
    let ret = SbiRet::new(SBI_SUCCESS, 42).expect("success is an answer");
    assert!(ret.is_success());
    assert_eq!(ret.error(), None);
    assert_eq!(ret.value(), Some(42));
}

#[test]
fn a_failed_answer_has_an_error_and_no_value() {
    for (error, code) in ERRORS {
        let ret = SbiRet::new(code, 7).expect("a named error is an answer");
        assert!(!ret.is_success());
        assert_eq!(ret.error(), Some(error));
        assert_eq!(ret.value(), None);
    }
}

#[test]
fn an_unknown_code_is_no_answer() {
    assert!(SbiRet::new(-9, 0).is_none());
    assert!(SbiRet::new(1, 0).is_none());
}

#[test]
fn a_new_call_is_all_zero() {
    assert_eq!(SbiCall::new().registers(), [0; 8]);
    assert_eq!(SbiCall::default(), SbiCall::new());
}

#[test]
fn each_builder_sets_its_register() {
    let mut call = SbiCall::new();
    call.with_arg0(10)
        .with_arg1(11)
        .with_arg2(12)
        .with_arg3(13)
        .with_arg4(14)
        .with_arg5(15)
        .with_fid(16)
        .with_eid(17);
    assert_eq!(call.registers(), [10, 11, 12, 13, 14, 15, 16, 17]);

    let mut one = SbiCall::new();
    one.with_arg3(5);
    assert_eq!(one.registers(), [0, 0, 0, 5, 0, 0, 0, 0]);
    one.with_arg3(6).with_fid(1);
    assert_eq!(one.registers(), [0, 0, 0, 6, 0, 0, 1, 0]);
}

#[test]
fn shutdown_is_the_system_reset_extension() {
    assert_eq!(shutdown_call().registers(), [0, 0, 0, 0, 0, 0, 0, 0x53525354]);
}

#[test]
fn a_character_is_written_with_extension_one() {
    let serial = Serial::new();
    assert_eq!(serial.write_char_call('H').registers(), [72, 0, 0, 0, 0, 0, 0, 1]);
    assert_eq!(serial.write_char_call('\n').registers(), [10, 0, 0, 0, 0, 0, 0, 1]);
    assert_eq!(serial.write_char_call('é').registers(), [0xe9, 0, 0, 0, 0, 0, 0, 1]);
}
