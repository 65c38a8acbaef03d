use tower_cache::utils::{is_valid_file, parent_dir};

#[test]
fn accepts_every_supported_extension() {
    for p in [
        "a.bmp", "a.gif", "a.jpeg", "a.jpg", "a.png", "a.tga", "a.tiff", "a.tif",
    ] {
        assert!(is_valid_file(p), "{p} should be accepted");
    }
}

#[test]
fn extension_match_is_case_insensitive() {
    assert!(is_valid_file("photo.PNG"));
    assert!(is_valid_file("photo.JpEg"));
    assert!(is_valid_file("/tmp/shots/Photo.TIF"));
}

#[test]
fn rejects_unsupported_extensions() {
    assert!(!is_valid_file("notes.txt"));
    assert!(!is_valid_file("archive.pngx"));
    assert!(!is_valid_file("a.jp"));
    assert!(!is_valid_file("movie.webm"));
}

#[test]
fn rejects_paths_without_a_real_extension() {
    assert!(!is_valid_file("noext"));
    assert!(!is_valid_file("ends-with-dot."));
    assert!(!is_valid_file(".png"));
    assert!(!is_valid_file("/tmp/.png"));
    assert!(!is_valid_file(""));
}

#[test]
fn extension_comes_from_the_last_component() {
    assert!(is_valid_file("/home/user/pics/cat.tar.png"));
    assert!(!is_valid_file("dir.png/file"));
}

#[test]
fn parent_dir_of_nested_path() {
    assert_eq!(parent_dir("/tmp/a.png"), "/tmp");
    assert_eq!(parent_dir("/tmp/sub/b.gif"), "/tmp/sub");
}

#[test]
fn parent_dir_of_bare_name_is_empty() {
    assert_eq!(parent_dir("a.png"), "");
    assert_eq!(parent_dir("/a.png"), "");
}
