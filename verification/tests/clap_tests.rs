use paro::parsers::clap::{to_count, to_string_unwrap, to_vec_string, ClapParser, ParseError};

#[test]
fn clap_parser_test_to_vec_string() {
    let matches = ClapParser::new()
        .clap
        .get_matches_from(vec!["paro", "-x", "file.txt", "-x", "file2.txt", "-x", "file3.txt"])
        .unwrap();
    assert_eq!(to_vec_string(&matches, "excludes"), ["file.txt", "file2.txt", "file3.txt"]);
}

#[test]
fn clap_parser_test_clap_defaults() {
    let settings = ClapParser::new().into_settings(vec!["paro"]).unwrap();
    assert_eq!(settings.tags, Vec::<String>::new());
    assert_eq!(settings.excludes, Vec::<String>::new());
    assert_eq!(settings.includes, Vec::<String>::new());
    assert_eq!(settings.directories, Vec::<String>::new());
    assert_eq!(settings.hostname, String::new());
    assert_eq!(settings.force, false);
    assert_eq!(settings.down, false);
    assert_eq!(settings.dry_run, false);
}

#[test]
fn clap_parser_test_clap_tags() {
    let settings = ClapParser::new().into_settings(vec!["paro", "-t", "linux1"]).unwrap();
    assert_eq!(settings.tags, ["linux1"]);
}

#[test]
fn clap_parser_test_clap_excludes() {
    let settings = ClapParser::new()
        .into_settings(vec!["paro", "-x", "file.txt", "-x", "file2.txt", "-x", "file3.txt"])
        .unwrap();
    assert_eq!(settings.excludes, ["file.txt", "file2.txt", "file3.txt"]);
}

#[test]
fn clap_parser_test_clap_includes() {
    let settings = ClapParser::new()
        .into_settings(vec!["paro", "-i", "file.txt", "-i", "file2.txt", "-i", "file3.txt"])
        .unwrap();
    assert_eq!(settings.includes, ["file.txt", "file2.txt", "file3.txt"]);
}

#[test]
fn clap_parser_test_clap_directories() {
    let settings =
        ClapParser::new().into_settings(vec!["paro", "-a", "home/", "-a", "dome/", "-a", "pombe/"]).unwrap();
    assert_eq!(settings.directories, ["home/", "dome/", "pombe/"]);
}

#[test]
fn clap_parser_test_clap_hostname() {
    let settings = ClapParser::new()
        .into_settings(vec!["paro", "-B", "my-machine", "-B", "will-override-my-machine"])
        .unwrap();
    assert_eq!(settings.hostname, "will-override-my-machine");
}

#[test]
fn clap_test_to_vec_string() {
    let matches = ClapParser::new()
        .clap
        .get_matches_from(vec!["paro", "-x", "file.txt", "-x", "file2.txt", "-x", "file3.txt"])
        .unwrap();
    assert_eq!(to_vec_string(&matches, "excludes"), ["file.txt", "file2.txt", "file3.txt"]);
}

#[test]
fn test_to_string_unwrap() {
    let matches = ClapParser::new().clap.get_matches_from(vec!["paro", "-n", "/super/dir"]).unwrap();
    assert_eq!(to_string_unwrap(&matches, "destination"), "/super/dir");
}

#[test]
fn clap_test_clap_defaults() {
    let settings = ClapParser::new().into_settings(vec!["paro"]).unwrap();
    assert_eq!(settings.tags, Vec::<String>::new());
    assert_eq!(settings.excludes, Vec::<String>::new());
    assert_eq!(settings.includes, Vec::<String>::new());
    assert_eq!(settings.directories, Vec::<String>::new());
    assert_eq!(settings.destination, String::new());
    assert_eq!(settings.hostname, String::new());
    assert_eq!(settings.force, false);
    assert_eq!(settings.down, false);
    assert_eq!(settings.dry_run, false);
    assert_eq!(settings.verbose, 0);
}

#[test]
fn clap_test_clap_tags() {
    let settings = ClapParser::new().into_settings(vec!["paro", "-t", "linux1"]).unwrap();
    assert_eq!(settings.tags, ["linux1"]);
}

#[test]
fn clap_test_clap_excludes() {
    let settings = ClapParser::new()
        .into_settings(vec!["paro", "-x", "file.txt", "-x", "file2.txt", "-x", "file3.txt"])
        .unwrap();
    assert_eq!(settings.excludes, ["file.txt", "file2.txt", "file3.txt"]);
}

#[test]
fn clap_test_clap_includes() {
    let settings = ClapParser::new()
        .into_settings(vec!["paro", "-i", "file.txt", "-i", "file2.txt", "-i", "file3.txt"])
        .unwrap();
    assert_eq!(settings.includes, ["file.txt", "file2.txt", "file3.txt"]);
}

#[test]
fn clap_test_clap_directories() {
    let settings =
        ClapParser::new().into_settings(vec!["paro", "-a", "home/", "-a", "dome/", "-a", "pombe/"]).unwrap();
    assert_eq!(settings.directories, ["home/", "dome/", "pombe/"]);
}

#[test]
fn clap_test_clap_hostname() {
    let settings = ClapParser::new()
        .into_settings(vec!["paro", "-B", "my-machine", "-B", "will-override-my-machine"])
        .unwrap();
    assert_eq!(settings.hostname, "will-override-my-machine");
}

#[test]
fn test_clap_destination() {
    let settings =
        ClapParser::new().into_settings(vec!["paro", "-n", "/new/home", "-n", "/new/home2"]).unwrap();
    assert_eq!(settings.destination, "/new/home2");
}

#[test]
fn test_clap_verbose() {
    let settings = ClapParser::new().into_settings(vec!["paro", "-vv"]).unwrap();
    assert_eq!(settings.verbose, 2);
}

#[test]
fn long_names_and_written_values() {
    let settings = ClapParser::new()
        .into_settings(vec![
            "paro",
            "--tag",
            "um",
            "--tag=dois",
            "--exclude=a.*",
            "--include",
            "b",
            "--add-dir=pkg",
            "--destination",
            "/dst",
            "--hostname=box",
            "--force",
            "--down",
            "--dry-run",
            "--verbose",
            "--verbose",
        ])
        .unwrap();
    assert_eq!(settings.tags, ["um", "dois"]);
    assert_eq!(settings.excludes, ["a.*"]);
    assert_eq!(settings.includes, ["b"]);
    assert_eq!(settings.directories, ["pkg"]);
    assert_eq!(settings.destination, "/dst");
    assert_eq!(settings.hostname, "box");
    assert!(settings.force);
    assert!(settings.down);
    assert!(settings.dry_run);
    assert_eq!(settings.verbose, 2);
}

#[test]
fn short_options_written_together() {
    let settings = ClapParser::new().into_settings(vec!["paro", "-fdDv", "-vtum", "-n=/dst"]).unwrap();
    assert!(settings.force);
    assert!(settings.down);
    assert!(settings.dry_run);
    assert_eq!(settings.verbose, 2);
    assert_eq!(settings.tags, ["um"]);
    assert_eq!(settings.destination, "/dst");
}

#[test]
fn no_arguments_at_all_ask_for_nothing() {
    let settings = ClapParser::new().into_settings(vec![]).unwrap();
    assert_eq!(settings, paro::settings::Settings::default());
}

#[test]
fn an_unknown_option_is_refused() {
    assert_eq!(
        ClapParser::new().into_settings(vec!["paro", "-q"]),
        Err(ParseError::UnexpectedArgument("-q".to_string()))
    );
    assert_eq!(
        ClapParser::new().into_settings(vec!["paro", "--quiet"]),
        Err(ParseError::UnexpectedArgument("--quiet".to_string()))
    );
    assert_eq!(
        ClapParser::new().into_settings(vec!["paro", "stray"]),
        Err(ParseError::UnexpectedArgument("stray".to_string()))
    );
    assert_eq!(
        ClapParser::new().into_settings(vec!["paro", "--", "stray"]),
        Err(ParseError::UnexpectedArgument("stray".to_string()))
    );
}

#[test]
fn a_missing_value_is_refused() {
    assert_eq!(ClapParser::new().into_settings(vec!["paro", "-t"]), Err(ParseError::MissingValue("-t".to_string())));
    assert_eq!(
        ClapParser::new().into_settings(vec!["paro", "--tag", "-f"]),
        Err(ParseError::MissingValue("--tag".to_string()))
    );
}

#[test]
fn a_value_for_a_switch_is_refused() {
    assert_eq!(
        ClapParser::new().into_settings(vec!["paro", "--force=yes"]),
        Err(ParseError::UnexpectedValue("--force=yes".to_string()))
    );
}

#[test]
fn help_and_version_are_told_apart() {
    assert_eq!(ClapParser::new().into_settings(vec!["paro", "-h"]), Err(ParseError::Help));
    assert_eq!(ClapParser::new().into_settings(vec!["paro", "--help"]), Err(ParseError::Help));
    assert_eq!(ClapParser::new().into_settings(vec!["paro", "-V"]), Err(ParseError::Version));
    assert_eq!(ClapParser::new().into_settings(vec!["paro", "--version"]), Err(ParseError::Version));
}

#[test]
fn the_terminator_ends_the_line() {
    let settings = ClapParser::new().into_settings(vec!["paro", "-f", "--"]).unwrap();
    assert!(settings.force);
}

#[test]
fn counts_stop_at_a_byte() {
    let mut args = vec!["paro"];
    for _ in 0..300 {
        args.push("-v");
    }
    let matches = ClapParser::new().clap.get_matches_from(args).unwrap();
    assert_eq!(to_count(&matches, "verbose"), 255);
    assert_eq!(to_count(&matches, "force"), 0);
    assert_eq!(to_vec_string(&matches, "no-such-option"), Vec::<String>::new());
}
