//! The texts of errors.

use broodcasc::error::{IoError, IoErrorKind};
use broodcasc::CascError;

#[test]
fn every_error_describes_itself() {
    for (error, text) in [
        (
            CascError::Io(IoError {
                kind: IoErrorKind::Other,
                message: "disk on fire".to_string(),
            }),
            "I/O error: disk on fire",
        ),
        (
            CascError::malformed("root file", "no records"),
            "malformed root file: no records",
        ),
        (
            CascError::NotFound("a/b".to_string()),
            "file not found: a/b",
        ),
        (
            CascError::NotInstalled("a/b".to_string()),
            "file known but not installed locally: a/b",
        ),
        (
            CascError::unsupported("BLTE chunk", "mode 'E'"),
            "unsupported BLTE chunk: mode 'E'",
        ),
        (
            CascError::Transport {
                url: "http://host/x".to_string(),
                reason: "timeout".to_string(),
            },
            "transport error for http://host/x: timeout",
        ),
        (
            CascError::ChecksumMismatch("build config"),
            "checksum mismatch in build config",
        ),
        (
            CascError::limit("BLTE decoded output", 12),
            "BLTE decoded output exceeds configured limit (12)",
        ),
    ] {
        assert_eq!(error.message(), text);
    }
}
