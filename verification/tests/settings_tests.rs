use paro::settings::Settings;

fn to_string_vec(vector: Vec<&str>) -> Vec<String> {
    vector.into_iter().map(|e| e.to_string()).collect()
}

fn settings_one() -> Settings {
    Settings {
        tags: to_string_vec(vec!["t1", "t1"]),
        excludes: to_string_vec(vec!["e1", "e1"]),
        includes: to_string_vec(vec!["i1", "i1"]),
        directories: to_string_vec(vec!["d1", "d1"]),
        destination: "dn1".to_string(),
        hostname: "h1".to_string(),
        force: true,
        down: true,
        dry_run: true,
        verbose: 2,
    }
}

fn settings_two() -> Settings {
    Settings {
        tags: to_string_vec(vec!["t2", "t2"]),
        excludes: to_string_vec(vec!["e2", "e2"]),
        includes: to_string_vec(vec!["i2", "i2"]),
        directories: to_string_vec(vec!["d2", "d2"]),
        destination: "dn2".to_string(),
        hostname: "h2".to_string(),
        force: false,
        down: false,
        dry_run: false,
        verbose: 0,
    }
}

#[test]
fn test_with_defaults() {
    let settings_1 = settings_one();

    let settings_with_defaults = settings_1.clone().with_defaults().unwrap();
    assert_eq!(settings_with_defaults.tags, settings_1.tags);
    assert_eq!(settings_with_defaults.excludes, settings_1.excludes);
    assert_eq!(settings_with_defaults.includes, settings_1.includes);
    assert_eq!(settings_with_defaults.directories, settings_1.directories);
    assert_eq!(settings_with_defaults.destination, settings_1.destination);
    assert_eq!(settings_with_defaults.hostname, settings_1.hostname);
    assert_eq!(settings_with_defaults.force, settings_1.force);
    assert_eq!(settings_with_defaults.down, settings_1.down);
    assert_eq!(settings_with_defaults.dry_run, settings_1.dry_run);
    assert_eq!(settings_with_defaults.verbose, settings_1.verbose);
}

#[test]
fn settings_test_merge() {
    let settings_empty: Settings = Default::default();
    let settings_1 = settings_one();
    let settings_2 = settings_two();

    let merged_settings = settings_empty.merge(settings_1.clone());
    assert_eq!(merged_settings.tags, settings_1.tags);
    assert_eq!(merged_settings.excludes, settings_1.excludes);
    assert_eq!(merged_settings.includes, settings_1.includes);
    assert_eq!(merged_settings.directories, settings_1.directories);
    assert_eq!(merged_settings.destination, settings_1.destination);
    assert_eq!(merged_settings.hostname, settings_1.hostname);
    assert_eq!(merged_settings.force, settings_1.force);
    assert_eq!(merged_settings.down, settings_1.down);
    assert_eq!(merged_settings.dry_run, settings_1.dry_run);
    assert_eq!(merged_settings.verbose, settings_1.verbose);

    let merged2_settings = settings_1.clone().merge(settings_2.clone());
    assert_eq!(merged2_settings.tags, to_string_vec(vec!["t1", "t1", "t2", "t2"]));
    assert_eq!(merged2_settings.excludes, to_string_vec(vec!["e1", "e1", "e2", "e2"]));
    assert_eq!(merged2_settings.includes, to_string_vec(vec!["i1", "i1", "i2", "i2"]));
    assert_eq!(merged2_settings.directories, to_string_vec(vec!["d1", "d1", "d2", "d2"]));
    assert_eq!(merged2_settings.destination, settings_2.destination);
    assert_eq!(merged2_settings.hostname, settings_2.hostname);
    assert_eq!(merged2_settings.force, settings_1.force);
    assert_eq!(merged2_settings.down, settings_1.down);
    assert_eq!(merged2_settings.dry_run, settings_1.dry_run);
    assert_eq!(merged2_settings.verbose, settings_1.verbose);
}

#[test]
fn types_test_merge() {
    let settings_empty = Settings {
        tags: Vec::<String>::new(),
        excludes: Vec::<String>::new(),
        includes: Vec::<String>::new(),
        directories: Vec::<String>::new(),
        destination: "".to_string(),
        hostname: "".to_string(),
        force: false,
        down: false,
        dry_run: false,
        verbose: 0,
    };
    let settings_1 = Settings { verbose: 0, ..settings_one() };
    let settings_2 = settings_two();

    let merged_settings = settings_empty.merge(settings_1.clone());
    assert_eq!(merged_settings.tags, settings_1.tags);
    assert_eq!(merged_settings.excludes, settings_1.excludes);
    assert_eq!(merged_settings.includes, settings_1.includes);
    assert_eq!(merged_settings.directories, settings_1.directories);
    assert_eq!(merged_settings.destination, settings_1.destination);
    assert_eq!(merged_settings.hostname, settings_1.hostname);
    assert_eq!(merged_settings.force, settings_1.force);
    assert_eq!(merged_settings.down, settings_1.down);
    assert_eq!(merged_settings.dry_run, settings_1.dry_run);

    let merged2_settings = settings_1.clone().merge(settings_2.clone());
    assert_eq!(merged2_settings.tags, to_string_vec(vec!["t1", "t1", "t2", "t2"]));
    assert_eq!(merged2_settings.excludes, to_string_vec(vec!["e1", "e1", "e2", "e2"]));
    assert_eq!(merged2_settings.includes, to_string_vec(vec!["i1", "i1", "i2", "i2"]));
    assert_eq!(merged2_settings.directories, to_string_vec(vec!["d1", "d1", "d2", "d2"]));
    assert_eq!(merged2_settings.destination, settings_2.destination);
    assert_eq!(merged2_settings.hostname, settings_2.hostname);
    assert_eq!(merged2_settings.force, settings_1.force);
    assert_eq!(merged2_settings.down, settings_1.down);
    assert_eq!(merged2_settings.dry_run, settings_1.dry_run);
}

#[test]
fn with_defaults_fills_what_is_open() {
    let filled = Settings::default().with_defaults_from("/home/someone", "machine");
    assert_eq!(filled.directories, to_string_vec(vec!["/home/someone/.dotfiles"]));
    assert_eq!(filled.destination, "/home/someone");
    assert_eq!(filled.hostname, "machine");
    assert_eq!(filled.tags, Vec::<String>::new());
    assert_eq!(filled.force, false);
    assert_eq!(filled.verbose, 0);
}

#[test]
fn defaults_are_the_filled_empty_settings() {
    let defaults = Settings::defaults_from("/home/someone", "machine");
    assert_eq!(defaults, Settings::default().with_defaults_from("/home/someone", "machine"));
    assert_eq!(defaults.directories, to_string_vec(vec!["/home/someone/.dotfiles"]));
}

#[test]
fn merge_ors_the_verbosities() {
    let a = Settings { verbose: 1, ..Settings::default() };
    let b = Settings { verbose: 2, ..Settings::default() };
    assert_eq!(a.merge(b).verbose, 3);
}

#[test]
fn merge_keeps_destination_where_the_other_names_none() {
    let a = settings_one();
    let b = Settings::default();
    let merged = a.merge(b);
    assert_eq!(merged.destination, "dn1");
    assert_eq!(merged.hostname, "h1");
}

#[test]
fn special_folders_of_tags_and_host() {
    let settings = Settings {
        tags: to_string_vec(vec!["um", "dois"]),
        hostname: "box".to_string(),
        ..Settings::default()
    };
    assert_eq!(settings.special_folder_vec(), to_string_vec(vec!["tag-um", "tag-dois", "host-box"]));
}

#[test]
fn special_folders_without_host() {
    let settings = Settings { tags: to_string_vec(vec!["um"]), ..Settings::default() };
    assert_eq!(settings.special_folder_vec(), to_string_vec(vec!["tag-um"]));
    assert_eq!(Settings::default().special_folder_vec(), Vec::<String>::new());
}

#[test]
fn duplicate_is_equal() {
    let settings = settings_one();
    assert_eq!(settings.duplicate(), settings);
}

#[test]
fn with_defaults_keeps_what_is_set() {
    let partly = Settings { destination: "/d".to_string(), ..Settings::default() };
    let filled = partly.with_defaults_from("/home/someone", "machine");
    assert_eq!(filled.destination, "/d");
    assert_eq!(filled.directories, to_string_vec(vec!["/home/someone/.dotfiles"]));
    assert_eq!(filled.hostname, "machine");
}

#[test]
fn the_machine_is_asked_only_for_what_is_missing() {
    if let Some(filled) = Settings::default().with_defaults() {
        assert_eq!(filled.directories.len(), 1);
        assert!(filled.directories[0].ends_with("/.dotfiles"));
        assert_eq!(filled.directories[0], format!("{}/.dotfiles", filled.destination));
    }
    if let Some(defaults) = Settings::defaults() {
        assert_eq!(defaults.tags, Vec::<String>::new());
        assert_eq!(defaults.directories, vec![format!("{}/.dotfiles", defaults.destination)]);
    }
}
