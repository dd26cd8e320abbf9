use paro::parsers::config::{apply, read_line, split_lines, ConfigError, ConfigParser, Line, Value};
use paro::settings::Settings;

/// What the file `tests/settings` holds.
const SETTINGS_FILE: &str = "\
tags = [\"linux1\", \"macos2\"]
excludes = [\"file.txt\", \"file2.txt\", \"file3.txt\"]
includes = [\"file.txt\", \"file2.txt\", \"file3.txt\"]
directories = [\"home/\", \"dome/\", \"pombe/\"]
destination = \"./tests\"
hostname = \"hostname-in-config\"
force = true
down = true
dry-run = true
verbose = 2
";

/// What the files of these names hold; a file that does not exist is left out.
fn read(names: Vec<&str>) -> Vec<String> {
    names.into_iter().filter(|name| *name == "tests/settings").map(|_| SETTINGS_FILE.to_string()).collect()
}

fn config_file() -> Vec<String> {
    read(vec!["tests/settings"])
}

#[test]
fn config_parser_test_config_defaults() {
    let settings = ConfigParser::new(&read(vec!["tests/non-exist"])).into_settings().unwrap();
    assert_eq!(settings.tags, Vec::<String>::new());
    assert_eq!(settings.excludes, Vec::<String>::new());
    assert_eq!(settings.includes, Vec::<String>::new());
    assert_eq!(settings.directories, Vec::<String>::new());
    assert_eq!(settings.hostname, String::new());
    assert_eq!(settings.force, false);
    assert_eq!(settings.down, false);
    assert_eq!(settings.dry_run, false);
}

#[test]
fn config_parser_test_config_tags() {
    let settings = ConfigParser::new(&read(vec!["tests/settings"])).into_settings().unwrap();
    assert_eq!(settings.tags, ["linux1", "macos2"]);
}

#[test]
fn config_parser_test_config_excludes() {
    let settings = ConfigParser::new(&read(vec!["tests/settings"])).into_settings().unwrap();
    assert_eq!(settings.excludes, ["file.txt", "file2.txt", "file3.txt"]);
}

#[test]
fn config_parser_test_config_includes() {
    let settings = ConfigParser::new(&read(vec!["tests/settings"])).into_settings().unwrap();
    assert_eq!(settings.includes, ["file.txt", "file2.txt", "file3.txt"]);
}

#[test]
fn config_parser_test_config_directories() {
    let settings = ConfigParser::new(&read(vec!["tests/settings"])).into_settings().unwrap();
    assert_eq!(settings.directories, ["home/", "dome/", "pombe/"]);
}

#[test]
fn config_parser_test_config_hostname() {
    let settings = ConfigParser::new(&read(vec!["tests/settings"])).into_settings().unwrap();
    assert_eq!(settings.hostname, "hostname-in-config");
}

#[test]
fn config_parser_test_config_force() {
    let settings = ConfigParser::new(&read(vec!["tests/settings"])).into_settings().unwrap();
    assert_eq!(settings.force, true);
}

#[test]
fn config_parser_test_config_down() {
    let settings = ConfigParser::new(&read(vec!["tests/settings"])).into_settings().unwrap();
    assert_eq!(settings.down, true);
}

#[test]
fn config_parser_test_config_dry_run() {
    let settings = ConfigParser::new(&read(vec!["tests/settings"])).into_settings().unwrap();
    assert_eq!(settings.dry_run, true);
}

#[test]
fn config_test_config_defaults() {
    let settings = ConfigParser::new(&read(vec!["tests/non-exist"])).into_settings().unwrap();
    assert_eq!(settings.tags, Vec::<String>::new());
    assert_eq!(settings.excludes, Vec::<String>::new());
    assert_eq!(settings.includes, Vec::<String>::new());
    assert_eq!(settings.directories, Vec::<String>::new());
    assert_eq!(settings.destination, String::new());
    assert_eq!(settings.hostname, String::new());
    assert_eq!(settings.force, false);
    assert_eq!(settings.down, false);
    assert_eq!(settings.dry_run, false);
    assert_eq!(settings.verbose, 0);
}

#[test]
fn config_test_config_tags() {
    let settings = ConfigParser::new(&config_file()).into_settings().unwrap();
    assert_eq!(settings.tags, ["linux1", "macos2"]);
}

#[test]
fn config_test_config_excludes() {
    let settings = ConfigParser::new(&config_file()).into_settings().unwrap();
    assert_eq!(settings.excludes, ["file.txt", "file2.txt", "file3.txt"]);
}

#[test]
fn config_test_config_includes() {
    let settings = ConfigParser::new(&config_file()).into_settings().unwrap();
    assert_eq!(settings.includes, ["file.txt", "file2.txt", "file3.txt"]);
}

#[test]
fn config_test_config_directories() {
    let settings = ConfigParser::new(&config_file()).into_settings().unwrap();
    assert_eq!(settings.directories, ["home/", "dome/", "pombe/"]);
}

#[test]
fn config_test_config_hostname() {
    let settings = ConfigParser::new(&config_file()).into_settings().unwrap();
    assert_eq!(settings.hostname, "hostname-in-config");
}

#[test]
fn config_test_config_force() {
    let settings = ConfigParser::new(&config_file()).into_settings().unwrap();
    assert_eq!(settings.force, true);
}

#[test]
fn config_test_config_down() {
    let settings = ConfigParser::new(&config_file()).into_settings().unwrap();
    assert_eq!(settings.down, true);
}

#[test]
fn config_test_config_dry_run() {
    let settings = ConfigParser::new(&config_file()).into_settings().unwrap();
    assert_eq!(settings.dry_run, true);
}

#[test]
fn test_config_verbose() {
    let settings = ConfigParser::new(&config_file()).into_settings().unwrap();
    assert_eq!(settings.verbose, 2);
}

#[test]
fn test_config_destination() {
    let settings = ConfigParser::new(&config_file()).into_settings().unwrap();

    let re = regex::Regex::new(r"/tests$").unwrap();
    assert!(re.is_match(settings.destination.as_str()));
}

#[test]
fn the_destination_is_read_as_it_is_written() {
    let settings = ConfigParser::new(&config_file()).into_settings().unwrap();
    assert_eq!(settings.destination, "./tests");
}

#[test]
fn a_later_file_wins_key_by_key() {
    let files = vec![
        SETTINGS_FILE.to_string(),
        "tags = [\"other\"]\nforce = false\n# a comment\n\nverbose = 3 # more\n".to_string(),
    ];
    let settings = ConfigParser::new(&files).into_settings().unwrap();
    assert_eq!(settings.tags, ["other"]);
    assert_eq!(settings.force, false);
    assert_eq!(settings.verbose, 3);
    assert_eq!(settings.down, true);
    assert_eq!(settings.hostname, "hostname-in-config");
}

#[test]
fn lines_and_what_they_say() {
    assert_eq!(read_line(""), Line::Nothing);
    assert_eq!(read_line("   \t "), Line::Nothing);
    assert_eq!(read_line("  # tags = 1"), Line::Nothing);
    assert_eq!(read_line("force=true"), Line::Entry("force".to_string(), Value::Flag(true)));
    assert_eq!(read_line("  down \t=  false  # no"), Line::Entry("down".to_string(), Value::Flag(false)));
    assert_eq!(read_line("verbose = 007"), Line::Entry("verbose".to_string(), Value::Number(7)));
    assert_eq!(read_line("n = 18446744073709551615"), Line::Entry("n".to_string(), Value::Number(u64::MAX)));
    assert_eq!(read_line("n = 18446744073709551616"), Line::Malformed);
    assert_eq!(read_line("name = \"a # b\""), Line::Entry("name".to_string(), Value::Text("a # b".to_string())));
    assert_eq!(
        read_line("name = \"q\\\"b\\\\s\\n\\t\\r\""),
        Line::Entry("name".to_string(), Value::Text("q\"b\\s\n\t\r".to_string()))
    );
    assert_eq!(read_line("l = []"), Line::Entry("l".to_string(), Value::List(vec![])));
    assert_eq!(read_line("l = [ ]"), Line::Entry("l".to_string(), Value::List(vec![])));
    assert_eq!(
        read_line("l = [ \"a\" ,\"b\", ]"),
        Line::Entry("l".to_string(), Value::List(vec!["a".to_string(), "b".to_string()]))
    );
}

#[test]
fn lines_that_are_malformed() {
    assert_eq!(read_line("force"), Line::Malformed);
    assert_eq!(read_line("= true"), Line::Malformed);
    assert_eq!(read_line("force = "), Line::Malformed);
    assert_eq!(read_line("force = yes"), Line::Malformed);
    assert_eq!(read_line("force = true false"), Line::Malformed);
    assert_eq!(read_line("name = \"open"), Line::Malformed);
    assert_eq!(read_line("name = \"bad \\x escape\""), Line::Malformed);
    assert_eq!(read_line("l = [\"a\" \"b\"]"), Line::Malformed);
    assert_eq!(read_line("l = [\"a\""), Line::Malformed);
    assert_eq!(read_line("l = [1]"), Line::Malformed);
    assert_eq!(read_line("[section]"), Line::Malformed);
    assert_eq!(read_line("a.b = 1"), Line::Malformed);
}

#[test]
fn faults_name_their_place() {
    let files = vec!["force = true\n".to_string(), "down = true\r\n\r\nnonsense\nforce = maybe\n".to_string()];
    assert_eq!(ConfigParser::new(&files).into_settings(), Err(ConfigError::Malformed { file: 1, line: 2 }));
    let files = vec!["tags = \"one\"\n".to_string()];
    assert_eq!(ConfigParser::new(&files).into_settings(), Err(ConfigError::WrongType { file: 0, line: 0 }));
    let files = vec!["\nverbose = 256".to_string()];
    assert_eq!(ConfigParser::new(&files).into_settings(), Err(ConfigError::WrongType { file: 0, line: 1 }));
    let files = vec!["verbose = 255".to_string()];
    assert_eq!(ConfigParser::new(&files).into_settings().unwrap().verbose, 255);
}

#[test]
fn a_key_that_is_not_known_changes_nothing() {
    let files = vec!["colour = \"blue\"\n".to_string()];
    assert_eq!(ConfigParser::new(&files).into_settings(), Ok(Settings::default()));
    let mut settings = Settings::default();
    assert!(apply(&mut settings, "colour", Value::Flag(true)));
    assert_eq!(settings, Settings::default());
    assert!(!apply(&mut settings, "force", Value::Number(1)));
    assert_eq!(settings, Settings::default());
    assert!(apply(&mut settings, "destination", Value::Text("/d".to_string())));
    assert_eq!(settings.destination, "/d");
}

#[test]
fn lines_of_a_file() {
    assert_eq!(split_lines(""), vec![""]);
    assert_eq!(split_lines("a\nb"), vec!["a", "b"]);
    assert_eq!(split_lines("a\r\nb\r\n"), vec!["a", "b", ""]);
    assert_eq!(split_lines("\n\n"), vec!["", "", ""]);
    assert_eq!(split_lines("a\rb\n"), vec!["a\rb", ""]);
}
