use sley_repo::index_cache::{classify_cached_record, CacheVerify};

#[test]
fn verify_distinguishes_missing_match_and_mismatch() {
    let fresh = b"record".to_vec();
    assert_eq!(
        classify_cached_record(Some(&fresh), &fresh, true),
        CacheVerify::Match
    );
    assert_eq!(
        classify_cached_record(Some(b"other"), &fresh, true),
        CacheVerify::Mismatch
    );
    assert_eq!(
        classify_cached_record(None, &fresh, false),
        CacheVerify::Missing
    );
    assert_eq!(
        classify_cached_record(None, &fresh, true),
        CacheVerify::Mismatch
    );
}
