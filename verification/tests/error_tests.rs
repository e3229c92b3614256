use tinydb::io_to_dberror;
use tinydb::path_to_dberror;
use tinydb::DatabaseError;

/// A successful I/O result passes through unchanged.
#[test]
fn io_ok_passes_through() {
    let r: Result<i32, std::io::Error> = Ok(5);
    assert_eq!(io_to_dberror(r).unwrap(), 5);
}

/// A failed I/O result is wrapped as `IOError`, keeping the cause.
#[test]
fn io_err_is_wrapped() {
    let e = std::io::Error::new(std::io::ErrorKind::PermissionDenied, "denied");
    let r: Result<i32, std::io::Error> = Err(e);
    match io_to_dberror(r) {
        Err(DatabaseError::IOError(cause)) => {
            assert_eq!(cause.kind(), std::io::ErrorKind::PermissionDenied);
        }
        other => panic!("expected IOError, got {:?}", other),
    }
}

/// A present path resolves to itself.
#[test]
fn path_present_resolves() {
    let p = String::from("db/test.bin");
    assert_eq!(path_to_dberror(Some(&p)).unwrap(), p);
}

/// An absent path is the dedicated `SavePathRequired` error.
#[test]
fn path_absent_is_error() {
    assert!(matches!(
        path_to_dberror(None),
        Err(DatabaseError::SavePathRequired)
    ));
}
