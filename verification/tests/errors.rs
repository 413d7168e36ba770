use build_progress::Error;

#[test]
fn each_error_kind_describes_itself() {
    assert_eq!(Error::IoError.describe(), "input/output failure");
    assert_eq!(
        Error::ResourceBusy.describe(),
        "trace is being accessed by another process"
    );
    assert_eq!(Error::TraceCorrupt.describe(), "stored trace is malformed");
    assert_eq!(
        Error::IdentityCollision.describe(),
        "fingerprint collision between different commands"
    );
    assert_eq!(Error::ChildSpawnFailed.describe(), "failed to execute process");
}
