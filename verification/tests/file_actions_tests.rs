use paro::file_actions::{
    in_special_folder, is_overlay_key, place_entry, to_file_entry, visit, DirWalk, FileActions, Visit, WalkEntry,
};
use paro::mapping::{FileEntry, FileKind};
use paro::pattern::PatternError;
use paro::settings::Settings;

fn node(path: &str, file_type: FileKind, depth: usize) -> WalkEntry {
    WalkEntry { path: path.to_string(), file_type, depth }
}

/// The walk of a tree whose nodes are given below its root, parents first.
fn walk_of(root: &str, below: Vec<(&str, FileKind, usize)>) -> DirWalk {
    let base = root.trim_end_matches('/');
    let mut entries = vec![node(root, FileKind::Dir, 0)];
    for (rest, file_type, depth) in below {
        entries.push(node(&format!("{}/{}", base, rest), file_type, depth));
    }
    DirWalk { root: root.to_string(), entries }
}

/// The example package: two overlays for tags, two for hosts, a folder, a
/// plain file, and hidden files that a walk meets but the selection passes over.
fn example_dotfiles(root: &str) -> DirWalk {
    walk_of(
        root,
        vec![
            (".ignored-file", FileKind::File, 1),
            ("folder", FileKind::Dir, 1),
            ("folder/something.txt", FileKind::File, 2),
            ("host-dois", FileKind::Dir, 1),
            ("host-dois/file.txt", FileKind::File, 2),
            ("host-um", FileKind::Dir, 1),
            ("host-um/file.txt", FileKind::File, 2),
            ("normal-file.txt", FileKind::File, 1),
            ("tag-dois", FileKind::Dir, 1),
            ("tag-dois/file.txt", FileKind::File, 2),
            ("tag-dois/file2.txt", FileKind::File, 2),
            ("tag-um", FileKind::Dir, 1),
            ("tag-um/.file.txt", FileKind::File, 2),
            ("tag-um/.file1.txt", FileKind::File, 2),
            ("tag-um/file.txt", FileKind::File, 2),
            ("tag-um/file1.txt", FileKind::File, 2),
        ],
    )
}

fn example_folder() -> DirWalk {
    walk_of("tests/example-dotfiles/folder", vec![("something.txt", FileKind::File, 1)])
}

fn example_tag_um() -> DirWalk {
    walk_of(
        "tests/example-dotfiles/tag-um",
        vec![
            (".file.txt", FileKind::File, 1),
            (".file1.txt", FileKind::File, 1),
            ("file.txt", FileKind::File, 1),
            ("file1.txt", FileKind::File, 1),
        ],
    )
}

fn example_ignored_file() -> DirWalk {
    DirWalk {
        root: "tests/example-dotfiles/.ignored-file".to_string(),
        entries: vec![node("tests/example-dotfiles/.ignored-file", FileKind::File, 0)],
    }
}

fn to_str_dest_files(files: &FileActions) -> Vec<String> {
    let mut str_dest_files: Vec<String> = files.actions.keys();
    str_dest_files.sort();
    str_dest_files
}

#[test]
fn test_select_files() {
    let mut settings = Settings::default();
    settings.directories = vec!["tests/example-dotfiles/".to_string()];
    settings.destination = "/destiny".to_string();
    let mut files: FileActions = FileActions::new(settings);

    files.select_files(&vec![example_dotfiles("tests/example-dotfiles/")]);

    let str_dest_files: Vec<String> = to_str_dest_files(&files);

    assert_eq!(str_dest_files.len(), 14);
    assert_eq!(
        str_dest_files,
        vec![
            "/destiny/",
            "/destiny/folder",
            "/destiny/folder/something.txt",
            "/destiny/host-dois",
            "/destiny/host-dois/file.txt",
            "/destiny/host-um",
            "/destiny/host-um/file.txt",
            "/destiny/normal-file.txt",
            "/destiny/tag-dois",
            "/destiny/tag-dois/file.txt",
            "/destiny/tag-dois/file2.txt",
            "/destiny/tag-um",
            "/destiny/tag-um/file.txt",
            "/destiny/tag-um/file1.txt",
        ]
    );
}

#[test]
fn test_hide_files() {
    let mut settings = Settings::default();
    settings.directories = vec!["tests/example-dotfiles/".to_string()];
    settings.destination = "/destiny".to_string();
    let mut files: FileActions = FileActions::new(settings);

    files.select_files(&vec![example_dotfiles("tests/example-dotfiles/")]);
    files.hide_files();

    let str_dest_files: Vec<String> = to_str_dest_files(&files);

    assert_eq!(str_dest_files.len(), 14);
    assert_eq!(
        str_dest_files,
        vec![
            "/destiny/",
            "/destiny/.folder",
            "/destiny/.folder/something.txt",
            "/destiny/.host-dois",
            "/destiny/.host-dois/file.txt",
            "/destiny/.host-um",
            "/destiny/.host-um/file.txt",
            "/destiny/.normal-file.txt",
            "/destiny/.tag-dois",
            "/destiny/.tag-dois/file.txt",
            "/destiny/.tag-dois/file2.txt",
            "/destiny/.tag-um",
            "/destiny/.tag-um/file.txt",
            "/destiny/.tag-um/file1.txt"
        ]
    );
}

#[test]
fn test_select_files_with_tag_host() {
    let mut settings = Settings::default();
    settings.directories = vec!["tests/example-dotfiles/".to_string()];
    settings.destination = "/destiny".to_string();
    settings.tags = vec!["um".to_string()];
    settings.hostname = "dois".to_string();
    let mut files: FileActions = FileActions::new(settings);

    files.select_files(&vec![example_dotfiles("tests/example-dotfiles/")]);
    files.cleanup_special_folders();

    let mut str_dest_files: Vec<String> = files
        .actions
        .keys()
        .into_iter()
        .map(|k| {
            let depth = files.actions.get(&k).unwrap().depth;
            k + ":" + &depth.to_string()
        })
        .collect();
    str_dest_files.sort();

    assert_eq!(str_dest_files.len(), 6);
    assert_eq!(
        str_dest_files,
        vec![
            "/destiny/:0",
            "/destiny/file.txt:1",
            "/destiny/file1.txt:1",
            "/destiny/folder/something.txt:2",
            "/destiny/folder:1",
            "/destiny/normal-file.txt:1",
        ]
    );
}

#[test]
fn test_exclude_files() {
    let mut settings = Settings::default();
    settings.directories =
        vec!["tests/example-dotfiles/folder".to_string(), "tests/example-dotfiles/tag-um".to_string()];
    settings.excludes = vec![
        "tests/example-dotfiles/folder*".to_string(),
        "tests/example-dotfiles/tag-um/.file.txt".to_string(),
        "tests/example-dotfiles/tag-um/.file1.txt".to_string(),
    ];
    settings.destination = "/destiny".to_string();
    let mut files: FileActions = FileActions::new(settings);

    files.select_files(&vec![example_folder(), example_tag_um()]);
    files.exclude_files().unwrap();

    let str_dest_files: Vec<String> = to_str_dest_files(&files);

    assert_eq!(str_dest_files.len(), 3);
    assert_eq!(str_dest_files, vec!["/destiny/", "/destiny/file.txt", "/destiny/file1.txt"]);
}

#[test]
fn test_include_files() {
    let mut settings = Settings::default();
    settings.directories =
        vec!["tests/example-dotfiles/folder".to_string(), "tests/example-dotfiles/tag-um".to_string()];
    settings.includes = vec!["tests/example-dotfiles/.ignored-file".to_string()];
    settings.destination = "/destiny".to_string();
    let mut files: FileActions = FileActions::new(settings);

    files.select_files(&vec![example_folder(), example_tag_um()]);
    files.include_files(&vec![example_ignored_file()]);
    files.hide_files();

    let str_dest_files: Vec<String> = to_str_dest_files(&files);

    assert_eq!(str_dest_files.len(), 5);
    assert_eq!(
        str_dest_files,
        vec![
            "/destiny/",
            "/destiny/.file.txt",
            "/destiny/.file1.txt",
            "/destiny/.ignored-file",
            "/destiny/.something.txt",
        ]
    );
}

#[test]
fn test_to_file_entry() {
    // the first two nodes of a walk of tests/example-dotfiles/tag-um/
    let walk = example_tag_um();
    let file_one = walk.entries[0].clone();
    let file_two = walk.entries[1].clone();

    assert_eq!(
        to_file_entry(&file_one, 2),
        FileEntry { path: file_one.path.clone(), file_type: file_one.file_type, depth: 2 }
    );

    assert_eq!(
        to_file_entry(&file_two, 0),
        FileEntry { path: file_two.path.clone(), file_type: file_two.file_type, depth: 1 }
    );
}

#[test]
fn to_file_entry_lifts() {
    let entry = node("pkg/tag-um/x", FileKind::File, 2);
    assert_eq!(to_file_entry(&entry, -1).depth, 1);
    assert_eq!(to_file_entry(&entry, -2).depth, 0);
}

#[test]
fn hidden_nodes_are_passed_over() {
    assert_eq!(visit(&node("pkg/.git", FileKind::Dir, 1)), Visit::Prune);
    assert_eq!(visit(&node("pkg/.gitignore", FileKind::File, 1)), Visit::Skip);
    assert_eq!(visit(&node("/home/u/.dotfiles", FileKind::Dir, 0)), Visit::Skip);
    assert_eq!(visit(&node("pkg/file", FileKind::File, 1)), Visit::Take);
    assert_eq!(visit(&node("pkg/dir", FileKind::Dir, 1)), Visit::Take);
}

#[test]
fn what_lies_in_a_hidden_directory_is_passed_over() {
    let walk = walk_of(
        "pkg",
        vec![
            (".git", FileKind::Dir, 1),
            (".git/config", FileKind::File, 2),
            (".git/objects", FileKind::Dir, 2),
            (".git/objects/ab", FileKind::File, 3),
            ("after", FileKind::File, 1),
            ("dir", FileKind::Dir, 1),
            ("dir/.hidden", FileKind::File, 2),
            ("dir/shown", FileKind::File, 2),
        ],
    );
    let mut settings = Settings::default();
    settings.destination = "/d".to_string();
    let mut files = FileActions::new(settings);
    files.select_files(&vec![walk]);
    assert_eq!(files.actions.keys(), vec!["/d/", "/d/after", "/d/dir", "/d/dir/shown"]);
}

#[test]
fn a_hidden_root_is_passed_over_but_walked() {
    let walk = walk_of("/home/u/.dotfiles", vec![("vimrc", FileKind::File, 1)]);
    let mut settings = Settings::default();
    settings.destination = "/home/u".to_string();
    let mut files = FileActions::new(settings);
    files.select_files(&vec![walk]);
    assert_eq!(files.actions.keys(), vec!["/home/u/vimrc"]);
}

#[test]
fn later_directories_win() {
    let first = walk_of("one", vec![("file", FileKind::File, 1)]);
    let second = walk_of("two", vec![("file", FileKind::File, 1)]);
    let mut settings = Settings::default();
    settings.destination = "/d".to_string();
    let mut files = FileActions::new(settings);
    files.select_files(&vec![first, second]);
    assert_eq!(files.actions.get("/d/file").unwrap().path, "two/file");
    assert_eq!(files.actions.len(), 2);
}

#[test]
fn overlay_found_among_the_folders() {
    let folders = vec!["tag-u".to_string(), "tag-um".to_string(), "host-box".to_string()];
    assert_eq!(
        in_special_folder(&node("pkg/tag-um/file", FileKind::File, 2), "pkg", &folders),
        Some("tag-um".to_string())
    );
    assert_eq!(in_special_folder(&node("pkg/tag-um", FileKind::Dir, 1), "pkg/", &folders), Some("tag-um".to_string()));
    assert_eq!(
        in_special_folder(&node("pkg/host-box/a/b", FileKind::File, 3), "pkg", &folders),
        Some("host-box".to_string())
    );
    assert_eq!(in_special_folder(&node("pkg/tag-umbrella/file", FileKind::File, 2), "pkg", &folders), None);
    assert_eq!(in_special_folder(&node("pkg/sub/tag-um/file", FileKind::File, 3), "pkg", &folders), None);
    assert_eq!(in_special_folder(&node("other/tag-um/file", FileKind::File, 2), "pkg", &folders), None);
    assert_eq!(in_special_folder(&node("pkg/tag-um/file", FileKind::File, 2), "pkg", &vec![]), None);
}

#[test]
fn placing_lifts_out_of_an_overlay() {
    let folders = vec!["tag-um".to_string()];
    let destination = "/d".to_string();
    let inside = node("pkg/tag-um/sub/file", FileKind::File, 3);
    let (key, entry) = place_entry(&inside, "pkg", &destination, &folders);
    assert_eq!(key, "/d/sub/file");
    assert_eq!(entry, FileEntry { path: "pkg/tag-um/sub/file".to_string(), file_type: FileKind::File, depth: 2 });

    let outside = node("pkg/notes-tag-um.txt", FileKind::File, 1);
    let (key, entry) = place_entry(&outside, "pkg", &destination, &folders);
    assert_eq!(key, "/d/notes-tag-um.txt");
    assert_eq!(entry.depth, 1);

    let (key, entry) = place_entry(&inside, "pkg", &destination, &vec![]);
    assert_eq!(key, "/d/tag-um/sub/file");
    assert_eq!(entry.depth, 3);
}

#[test]
fn a_tag_overlay_is_lifted_and_its_folder_is_gone() {
    let walk = walk_of("dotfiles", vec![("tag-um", FileKind::Dir, 1), ("tag-um/file.txt", FileKind::File, 2)]);
    let mut settings = Settings::default();
    settings.tags = vec!["um".to_string()];
    settings.destination = "dst".to_string();
    let mut files = FileActions::new(settings);
    files.build(&vec![walk], &vec![]).unwrap();
    assert_eq!(files.actions.keys(), vec!["dst/", "dst/.file.txt"]);
    assert_eq!(files.actions.get("dst/.file.txt").unwrap().path, "dotfiles/tag-um/file.txt");
    assert!(files.actions.get("dst/tag-um").is_none());
    assert!(files.actions.get("dst/.tag-um").is_none());
}

#[test]
fn an_overlay_that_is_not_active_is_removed() {
    let walk = walk_of("dotfiles", vec![("tag-um", FileKind::Dir, 1), ("tag-um/file.txt", FileKind::File, 2)]);
    let mut settings = Settings::default();
    settings.destination = "dst".to_string();
    let mut files = FileActions::new(settings);
    files.build(&vec![walk], &vec![]).unwrap();
    assert_eq!(files.actions.keys(), vec!["dst/"]);
}

#[test]
fn build_resolves_the_example() {
    let mut settings = Settings::default();
    settings.destination = "tests/destination".to_string();
    settings.tags = vec!["um".to_string()];
    let mut files = FileActions::new(settings);
    files.build(&vec![example_dotfiles("tests/example-dotfiles")], &vec![]).unwrap();
    assert_eq!(
        files.actions.keys(),
        vec![
            "tests/destination/",
            "tests/destination/.file.txt",
            "tests/destination/.file1.txt",
            "tests/destination/.folder",
            "tests/destination/.folder/something.txt",
            "tests/destination/.normal-file.txt",
        ]
    );
}

#[test]
fn inclusion_is_stronger_than_exclusion() {
    let mut settings = Settings::default();
    settings.destination = "/d".to_string();
    settings.excludes = vec!["normal-file".to_string()];
    let mut files = FileActions::new(settings);
    let extra = DirWalk {
        root: "tests/example-dotfiles/normal-file.txt".to_string(),
        entries: vec![node("tests/example-dotfiles/normal-file.txt", FileKind::File, 0)],
    };
    files.build(&vec![example_dotfiles("tests/example-dotfiles")], &vec![extra]).unwrap();
    assert!(files.actions.get("/d/normal-file.txt").is_some());
    assert!(files.actions.get("/d/.normal-file.txt").is_none());
}

#[test]
fn an_include_that_matches_nothing_changes_nothing() {
    let mut settings = Settings::default();
    settings.destination = "/d".to_string();
    let mut files = FileActions::new(settings);
    files.select_files(&vec![example_folder()]);
    let before = files.actions.keys();
    files.include_files(&vec![DirWalk { root: "nowhere".to_string(), entries: vec![] }]);
    assert_eq!(files.actions.keys(), before);
}

#[test]
fn a_malformed_pattern_is_refused_before_anything_changes() {
    let mut settings = Settings::default();
    settings.destination = "/d".to_string();
    settings.excludes = vec!["(".to_string()];
    let mut files = FileActions::new(settings);
    let res = files.build(&vec![example_folder()], &vec![]);
    assert!(matches!(res, Err(PatternError { .. })));
    assert!(!res.unwrap_err().message.is_empty());
    assert_eq!(files.actions.len(), 0);

    let mut files = FileActions::new(Settings { excludes: vec!["[".to_string()], ..Settings::default() });
    files.select_files(&vec![example_folder()]);
    let before = files.actions.keys();
    assert!(files.exclude_files().is_err());
    assert_eq!(files.actions.keys(), before);
}

#[test]
fn names_that_are_no_patterns_are_taken_as_they_are() {
    let walk = walk_of("pkg", vec![("tag-c++(", FileKind::Dir, 1), ("tag-c++(/file", FileKind::File, 2)]);
    let settings = Settings { tags: vec!["c++(".to_string()], destination: "/d(".to_string(), ..Settings::default() };
    let mut files = FileActions::new(settings);
    assert_eq!(files.build(&vec![walk], &vec![]), Ok(()));
    assert_eq!(files.actions.keys(), vec!["/d(/", "/d(/.file"]);
}

#[test]
fn without_exclude_patterns_nothing_is_removed() {
    let mut files = FileActions::new(Settings { destination: "/d".to_string(), ..Settings::default() });
    files.select_files(&vec![example_folder()]);
    let before = files.actions.keys();
    assert_eq!(files.exclude_files(), Ok(()));
    assert_eq!(files.actions.keys(), before);
}

#[test]
fn keys_come_in_rising_order_and_directories_first() {
    let mut settings = Settings::default();
    settings.destination = "/d".to_string();
    let mut files = FileActions::new(settings);
    let walk = walk_of(
        "pkg",
        vec![("z", FileKind::File, 1), ("a", FileKind::Dir, 1), ("a/b", FileKind::File, 2), ("a-b", FileKind::File, 1)],
    );
    files.select_files(&vec![walk]);
    assert_eq!(files.actions.keys(), vec!["/d/", "/d/a", "/d/a-b", "/d/a/b", "/d/z"]);
    assert_eq!(files.actions.key_at(1), "/d/a");
    assert_eq!(files.actions.entry_at(1).file_type, FileKind::Dir);
}

#[test]
fn removal_by_flags() {
    let mut settings = Settings::default();
    settings.destination = "/d".to_string();
    let mut files = FileActions::new(settings);
    files.select_files(&vec![walk_of("pkg", vec![("a", FileKind::File, 1), ("b", FileKind::File, 1)])]);
    files.actions.remove_flagged(&vec![false, true]);
    assert_eq!(files.actions.keys(), vec!["/d/", "/d/b"]);
}

#[test]
fn keys_in_overlay_folders() {
    assert!(is_overlay_key("/d/tag-um", "/d"));
    assert!(is_overlay_key("/d/tag-um/file", "/d/"));
    assert!(is_overlay_key("/d//host-x/file", "/d"));
    assert!(is_overlay_key("tag-", ""));
    assert!(!is_overlay_key("/d/.tag-um", "/d"));
    assert!(!is_overlay_key("/d/sub/tag-um", "/d"));
    assert!(!is_overlay_key("/d/tagged", "/d"));
    assert!(!is_overlay_key("/d", "/d"));
    assert!(!is_overlay_key("/e/tag-um", "/d"));
    assert!(!is_overlay_key("d/tag-um", "/d"));
}

#[test]
fn overlays_are_removed_whatever_slash_ends_the_destination() {
    for destination in ["tests/destination", "tests/destination/", "tests/destination//"] {
        let mut settings = Settings::default();
        settings.destination = destination.to_string();
        let mut files = FileActions::new(settings);
        files.build(&vec![example_dotfiles("tests/example-dotfiles")], &vec![]).unwrap();
        let keys: Vec<String> = files.actions.keys().iter().map(|k| k.replace("//", "/")).collect();
        assert_eq!(
            keys,
            vec![
                "tests/destination/",
                "tests/destination/.folder",
                "tests/destination/.folder/something.txt",
                "tests/destination/.normal-file.txt",
            ]
        );
    }
}
