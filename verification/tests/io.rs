//! Positioned reads.

use broodcasc::error::{IoError, IoErrorKind};
use broodcasc::io::ReadAt;
use broodcasc::CascError;

#[test]
fn slice_read_at() {
    let data: &[u8] = &[1, 2, 3, 4, 5];
    let mut buf = [0u8; 3];
    data.read_exact_at(1, &mut buf).unwrap();
    assert_eq!(buf, [2, 3, 4]);
    assert!(data.read_exact_at(3, &mut buf).is_err());
    assert!(data.read_exact_at(u64::MAX, &mut buf).is_err());
    assert_eq!(ReadAt::len(data).unwrap(), 5);
}

#[test]
fn failed_read_leaves_the_buffer_alone() {
    let data: &[u8] = &[1, 2, 3, 4, 5];
    let vec = data.to_vec();
    for offset in [3, 5, 6, u64::MAX] {
        let mut buf = [9u8; 3];
        let err = data.read_exact_at(offset, &mut buf).unwrap_err();
        assert!(matches!(
            err,
            CascError::Io(IoError {
                kind: IoErrorKind::UnexpectedEof,
                ..
            })
        ));
        assert_eq!(buf, [9; 3]);
        assert!(vec.read_exact_at(offset, &mut buf).is_err());
        assert_eq!(buf, [9; 3]);
    }
    let mut none = [0u8; 0];
    assert!(data.read_exact_at(5, &mut none).is_ok());
    assert!(data.read_exact_at(6, &mut none).is_err());
    assert_eq!(data.read_vec_at(1, 3).unwrap(), [2, 3, 4]);
    assert!(!ReadAt::is_empty(data).unwrap());
}
