use volatilum::liquidity::ExposureKind;
use volatilum::risk::RiskBoundKind;
use volatilum::state::LayoutVersion;
use volatilum::types::Error;
use volatilum::types::ErrorCode;
use volatilum::yield_mechanics::YieldMechanicsKind;

#[test]
fn error_new_carries_code_and_message_unchanged() {
    let codes = [
        ErrorCode::InvalidInput,
        ErrorCode::RpcError,
        ErrorCode::RpcSlotInconsistency,
        ErrorCode::MissingAccount,
        ErrorCode::MalformedAccountData,
        ErrorCode::LayoutVersionMismatch,
    ];
    for code in codes {
        let err = Error::new(code, "some failure");
        assert_eq!(err.code, code);
        assert_eq!(err.message, "some failure");
    }
}

#[test]
fn error_codes_are_distinguishable() {
    assert_ne!(ErrorCode::InvalidInput, ErrorCode::RpcError);
    assert_ne!(ErrorCode::RpcSlotInconsistency, ErrorCode::MissingAccount);
    assert_ne!(ErrorCode::MalformedAccountData, ErrorCode::LayoutVersionMismatch);
}

#[test]
fn layout_version_compares_by_major_and_minor() {
    let v1_0 = LayoutVersion { major: 1, minor: 0 };
    let v1_1 = LayoutVersion { major: 1, minor: 1 };
    let v2_0 = LayoutVersion { major: 2, minor: 0 };
    assert_eq!(v1_0, LayoutVersion { major: 1, minor: 0 });
    assert_ne!(v1_0, v1_1);
    assert_ne!(v1_0, v2_0);
}

#[test]
fn intent_kind_enums_are_constructible() {
    assert_eq!(ExposureKind::Unknown, ExposureKind::Unknown);
    assert_eq!(RiskBoundKind::Unknown, RiskBoundKind::Unknown);
    assert_eq!(YieldMechanicsKind::Unknown, YieldMechanicsKind::Unknown);
}
