use iobeam::file_system::{FileSystemHandler, ServeDirError};
use iobeam::http::RequestPathError;

fn handler() -> FileSystemHandler {
    match FileSystemHandler::new("/srv/www", true) {
        Ok(h) => h,
        Err(_) => panic!("handler"),
    }
}

fn resolve(path: &str) -> Result<String, RequestPathError> {
    handler().construct_and_validate_decoded_path(path).map(|p| p.as_str().to_string())
}

#[test]
fn serve_dir_must_be_a_directory_that_fits() {
    assert!(matches!(FileSystemHandler::new("/srv/www", false), Err(ServeDirError::NotADirectory)));
    let long = "d".repeat(4097);
    assert!(matches!(FileSystemHandler::new(&long, true), Err(ServeDirError::TooLong)));
    assert!(FileSystemHandler::new(&"d".repeat(4096), true).is_ok());
}

#[test]
fn components_are_appended_under_the_base() {
    assert_eq!(resolve("a/b.txt"), Ok(String::from("/srv/www/a/b.txt")));
    assert_eq!(resolve(""), Ok(String::from("/srv/www")));
    assert_eq!(resolve("./a//b/./c/"), Ok(String::from("/srv/www/a/b/c")));
    assert_eq!(resolve("...x/..y"), Ok(String::from("/srv/www/...x/..y")));
}

#[test]
fn traversal_and_root_are_refused() {
    assert_eq!(resolve(".."), Err(RequestPathError::Traversal));
    assert_eq!(resolve("a/../b"), Err(RequestPathError::Traversal));
    assert_eq!(resolve("a/.."), Err(RequestPathError::Traversal));
    assert_eq!(resolve("/etc/passwd"), Err(RequestPathError::Traversal));
}

#[test]
fn paths_longer_than_path_max_are_refused() {
    let long = "x".repeat(4096);
    assert_eq!(resolve(&long), Err(RequestPathError::TooLong));
    let fits = "x".repeat(4096 - "/srv/www/".len());
    assert_eq!(resolve(&fits).map(|p| p.len()), Ok(4096));
    let wide = "é".repeat(2044);
    assert_eq!(resolve(&wide), Err(RequestPathError::TooLong));
}

#[test]
fn the_first_failure_decides() {
    let long = "x".repeat(5000);
    assert_eq!(resolve(&format!("{}/..", long)), Err(RequestPathError::TooLong));
    assert_eq!(resolve(&format!("../{}", long)), Err(RequestPathError::Traversal));
}
