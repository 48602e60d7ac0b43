use bearclaw_proxy::project::{check_file_header, FileHeaderError, APPLICATION_ID, FILE_FORMAT_VERSION};

#[test]
fn file_header_of_this_application_is_accepted() {
    assert_eq!(APPLICATION_ID, 0xb34c14);
    assert_eq!(FILE_FORMAT_VERSION, 2);
    assert_eq!(check_file_header(0xb34c14, 2), Ok(()));
}

#[test]
fn file_header_with_other_application_id_is_refused() {
    assert_eq!(check_file_header(0, 2), Err(FileHeaderError::WrongApplicationId));
    // The id is checked before the version.
    assert_eq!(check_file_header(0x1234, 7), Err(FileHeaderError::WrongApplicationId));
}

#[test]
fn file_header_with_other_version_is_refused() {
    assert_eq!(check_file_header(0xb34c14, 1), Err(FileHeaderError::IncompatibleFileVersion));
    assert_eq!(check_file_header(0xb34c14, 3), Err(FileHeaderError::IncompatibleFileVersion));
}
