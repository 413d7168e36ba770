use build_progress::store::TraceLock;
use build_progress::Error;

#[test]
fn second_contender_fails_immediately_with_resource_busy() {
    let mut lock = TraceLock::new();
    assert!(lock.try_acquire().is_ok());
    assert!(matches!(lock.try_acquire(), Err(Error::ResourceBusy)));
}

#[test]
fn lock_is_free_again_after_release() {
    let mut lock = TraceLock::new();
    assert!(lock.try_acquire().is_ok());
    lock.release();
    assert!(lock.try_acquire().is_ok());
}
