use paro::files::{
    change_root_dir, file_name_of, is_hidden, is_same_file, lies_under, overwrite_symlink, parent_of, split_segments,
    Effect, FileId,
};
use paro::nix_helper::{config_files_in, get_default_config_files, get_user_home, remove_last_slash};
use paro::text::{from_chars, to_chars};

/// What following a path of the example tree finds.
fn identity(path: &str) -> Option<FileId> {
    match path {
        "tests/example-dotfiles/tag-um/file.txt" => Some(FileId { dev: 2049, ino: 1001 }),
        "tests/example-dotfiles/tag-um/.file.txt" => Some(FileId { dev: 2049, ino: 1002 }),
        _ => None,
    }
}

#[test]
fn test_is_same_file() {
    let path_1 = "tests/example-dotfiles/tag-um/file.txt";
    let path_2 = "tests/example-dotfiles/tag-um/file.txt";

    assert_eq!(is_same_file(identity(path_1), identity(path_2)), true);

    let path_1 = "tests/example-dotfiles/tag-um/file.txt";
    let path_2 = "tests/example-dotfiles/tag-um/.file.txt";

    assert_eq!(is_same_file(identity(path_1), identity(path_2)), false);

    let path_1 = "non-existing.txt";
    let path_2 = "tests/example-dotfiles/tag-um/file.txt";

    assert_eq!(is_same_file(identity(path_1), identity(path_2)), false);

    let path_1 = "tests/example-dotfiles/tag-um/file.txt";
    let path_2 = "non-existing.txt";

    assert_eq!(is_same_file(identity(path_1), identity(path_2)), false);
}

#[test]
fn same_file_needs_device_and_inode() {
    let a = Some(FileId { dev: 1, ino: 7 });
    assert!(is_same_file(a, Some(FileId { dev: 1, ino: 7 })));
    assert!(!is_same_file(a, Some(FileId { dev: 2, ino: 7 })));
    assert!(!is_same_file(a, Some(FileId { dev: 1, ino: 8 })));
    assert!(!is_same_file(None, None));
}

#[test]
fn test_change_root_dir() {
    // should change root
    let path = "/test/file.txt";
    assert_eq!(change_root_dir(path, &"/test".to_string(), &"/new".to_string(), false), "/new/file.txt");

    // should ignore if root is not in the current path
    let path2 = "/test/file.txt";
    assert_eq!(change_root_dir(path2, &"/non-root".to_string(), &"/new".to_string(), false), "/test/file.txt");

    // should change root and set it as hidden
    let path3 = "/test/file.txt";
    assert_eq!(change_root_dir(path3, &"/test".to_string(), &"/new".to_string(), true), "/new/.file.txt");
}

#[test]
fn change_root_dir_compares_whole_segments() {
    assert_eq!(change_root_dir("/testing/file.txt", &"/test".to_string(), &"/new".to_string(), false), "/testing/file.txt");
    assert_eq!(change_root_dir("test/file.txt", &"/test".to_string(), &"/new".to_string(), false), "test/file.txt");
}

#[test]
fn change_root_dir_of_the_root_itself() {
    assert_eq!(change_root_dir("pkg/", &"pkg/".to_string(), &"/destiny".to_string(), false), "/destiny/");
    assert_eq!(change_root_dir("pkg", &"pkg".to_string(), &"/destiny/".to_string(), false), "/destiny/");
    assert_eq!(change_root_dir("pkg", &"pkg".to_string(), &"/destiny".to_string(), true), "/destiny/");
}

#[test]
fn change_root_dir_passes_doubled_separators() {
    assert_eq!(change_root_dir("pkg/tag-um/file.txt", &"pkg//tag-um".to_string(), &"/d".to_string(), false), "/d/file.txt");
    assert_eq!(change_root_dir("pkg//a///b/", &"pkg".to_string(), &"/d".to_string(), false), "/d/a/b");
}

#[test]
fn change_root_dir_hides_the_first_segment_once() {
    assert_eq!(change_root_dir("/d/folder/x.txt", &"/d".to_string(), &"/d".to_string(), true), "/d/.folder/x.txt");
    assert_eq!(change_root_dir("/d/.folder/x.txt", &"/d".to_string(), &"/d".to_string(), true), "/d/.folder/x.txt");
}

#[test]
fn change_root_dir_from_the_empty_root() {
    assert_eq!(change_root_dir("file", &"".to_string(), &"/d".to_string(), false), "/d/file");
    assert_eq!(change_root_dir("file", &"".to_string(), &"".to_string(), false), "file");
    assert_eq!(change_root_dir("/file", &"".to_string(), &"/d".to_string(), false), "/file");
}

#[test]
fn test_is_hidden() {
    // the names of the first two nodes of a walk of tests/example-dotfiles/tag-um/
    assert_eq!(is_hidden(&file_name_of("tests/example-dotfiles/tag-um/")), false);
    assert_eq!(is_hidden(&file_name_of("tests/example-dotfiles/tag-um/.file.txt")), true);
}

#[test]
fn hidden_names() {
    assert!(is_hidden(".x"));
    assert!(is_hidden("."));
    assert!(!is_hidden(""));
    assert!(!is_hidden("x."));
}

#[test]
fn file_names() {
    assert_eq!(file_name_of("a/b/c.txt"), "c.txt");
    assert_eq!(file_name_of("a/b/"), "b");
    assert_eq!(file_name_of("/"), "/");
    assert_eq!(file_name_of(""), "");
}

#[test]
fn parents() {
    assert_eq!(parent_of("tests/example-dotfiles/.ignored-file"), "tests/example-dotfiles");
    assert_eq!(parent_of("/a/b"), "/a");
    assert_eq!(parent_of("/a"), "/");
    assert_eq!(parent_of("a"), "");
    assert_eq!(parent_of("/"), "/");
    assert_eq!(parent_of(""), "");
}

#[test]
fn segments_of_a_path() {
    let segs: Vec<String> = split_segments(&to_chars("/a//bc/d/")).iter().map(|s| from_chars(s)).collect();
    assert_eq!(segs, vec!["a", "bc", "d"]);
    assert!(split_segments(&to_chars("///")).is_empty());
}

#[test]
fn lies_under_its_root() {
    assert!(lies_under("/a/b/c", "/a/b"));
    assert!(lies_under("/a/b", "/a/b/"));
    assert!(!lies_under("/a/bc", "/a/b"));
    assert!(!lies_under("a/b", "/a"));
    assert!(lies_under("a/b", ""));
}

#[test]
fn overwriting_deletes_then_links() {
    assert_eq!(
        overwrite_symlink("src/file", "dst/.file"),
        vec![
            Effect::ForceDelete("dst/.file".to_string()),
            Effect::Symlink { origin: "src/file".to_string(), link: "dst/.file".to_string() },
        ]
    );
}

#[test]
fn test_remove_last_slash() {
    assert_eq!("", remove_last_slash("".to_string()));
    assert_eq!("folda_name", remove_last_slash("folda_name".to_string()));
    assert_eq!("folda_name", remove_last_slash("folda_name/".to_string()));
}

#[test]
fn remove_last_slash_takes_one() {
    assert_eq!("a/", remove_last_slash("a//".to_string()));
    assert_eq!("", remove_last_slash("/".to_string()));
}

#[test]
fn default_config_files() {
    assert_eq!(
        config_files_in("/home/u"),
        vec![
            "/home/u/.parorc",
            "/home/u/.config/paro/parorc",
            "/home/u/.dotfiles/parorc",
            "/home/u/.dotfiles/config/paro/parorc",
        ]
    );
}

#[test]
fn default_config_files_lie_in_the_home_directory() {
    match (get_user_home(), get_default_config_files()) {
        (Some(home), Some(files)) => assert_eq!(files, config_files_in(&home)),
        (None, None) => {}
        (home, files) => panic!("{:?} {:?}", home, files),
    }
}

#[test]
fn chars_round_trip() {
    assert_eq!(from_chars(&to_chars("héllo/wörld")), "héllo/wörld");
}
