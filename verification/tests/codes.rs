use sley_repo::compare::CompareErrorCode;
use sley_repo::exchange::ExchangeErrorCode;
use sley_repo::gc::GcErrorCode;
use sley_repo::merge::MergeErrorCode;
use sley_repo::pack::PackErrorCode;

#[test]
fn exchange_codes_are_closed_and_contiguous() {
    for (offset, code) in ExchangeErrorCode::all().into_iter().enumerate() {
        assert_eq!(code.numeric(), 54_000 + u32::try_from(offset).unwrap());
        assert!(code.as_str().starts_with("EXCHANGE_"));
    }
}

#[test]
fn compare_codes_are_closed_and_contiguous() {
    let all = CompareErrorCode::all();
    assert_eq!(all.len(), 11);
    for (offset, code) in all.into_iter().enumerate() {
        assert_eq!(code.numeric(), 51_000 + u32::try_from(offset).unwrap());
        assert!(code.as_str().starts_with("COMPARE_"));
    }
}

#[test]
fn merge_codes_are_closed_and_contiguous() {
    for (offset, code) in MergeErrorCode::all().into_iter().enumerate() {
        assert_eq!(code.numeric(), 52_000 + u32::try_from(offset).unwrap());
        assert!(code.as_str().starts_with("MERGE_"));
    }
}

#[test]
fn stable_gc_error_symbols_are_frozen() {
    assert_eq!(GcErrorCode::DryRunRequired.as_str(), "GC_DRY_RUN_REQUIRED");
    assert_eq!(
        GcErrorCode::ReachabilityViolation.as_str(),
        "GC_REACHABILITY_VIOLATION"
    );
}

#[test]
fn stable_reserved_error_symbol_exists() {
    assert_eq!(
        PackErrorCode::DecompressionLimit.as_str(),
        "PACK_DECOMPRESSION_LIMIT"
    );
}
