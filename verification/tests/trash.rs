use image_browser::{trash_file, trash_image, ErrorKind};

#[test]
fn moved_file_is_a_success() {
    assert_eq!(trash_file("/pics/a.jpg", Ok(())), Ok(()));
    assert_eq!(trash_image("/pics/a.jpg", Ok(())), Ok(()));
}

#[test]
fn failed_move_carries_path_and_cause() {
    assert_eq!(
        trash_file("/pics/gone.jpg", Err("No such file or directory".to_string())),
        Err(ErrorKind::TrashFailure {
            path: "/pics/gone.jpg".to_string(),
            cause: "No such file or directory".to_string(),
        })
    );
}

#[test]
fn failed_move_is_reported_as_path_colon_cause() {
    assert_eq!(
        trash_image("/pics/gone.jpg", Err("No such file or directory".to_string())),
        Err("/pics/gone.jpg: No such file or directory".to_string())
    );
}

#[test]
fn failed_move_names_the_path() {
    let paths = ["/no/such/file.png", "/root/locked.jpg", "", "a: b", "/pics/\u{e9}.png"];
    for path in paths {
        let text = trash_image(path, Err("Permission denied".to_string())).unwrap_err();
        assert!(text.starts_with(path));
        assert!(text.contains(path));
        assert_eq!(text, format!("{}: Permission denied", path));
    }
}

#[test]
fn failed_move_with_an_empty_cause() {
    assert_eq!(trash_image("/pics/a.jpg", Err(String::new())), Err("/pics/a.jpg: ".to_string()));
}

#[test]
fn error_texts() {
    assert_eq!(ErrorKind::InvalidDirectory.message(), "Invalid directory");
    assert_eq!(
        ErrorKind::ReadFailure { path: "/pics".to_string() }.message(),
        "Failed to read directory /pics"
    );
    assert_eq!(
        ErrorKind::TrashFailure { path: "/pics/a.jpg".to_string(), cause: "busy".to_string() }
            .message(),
        "/pics/a.jpg: busy"
    );
}

#[test]
fn missing_file_cannot_be_moved_to_the_trash() {
    let path = "/no/such/directory/no-such-file.png";
    let answer = trash::delete(path).map_err(|err| err.to_string());
    assert!(answer.is_err());
    let cause = answer.clone().unwrap_err();
    let text = trash_image(path, answer).unwrap_err();
    assert_eq!(text, format!("/no/such/directory/no-such-file.png: {}", cause));
    assert!(text.contains(path));
}
