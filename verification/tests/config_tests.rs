use minigrep::config::{resolve, Config, ConfigError, MissingArg};

#[test]
fn it_works() {
    assert_eq!(2 + 2, 4);
}

#[test]
fn resolve_no_arguments_misses_query() {
    let args: Vec<String> = vec![];
    assert_eq!(
        resolve(&args, None),
        Err(ConfigError::MissingArgument(MissingArg::Query))
    );
}

#[test]
fn resolve_program_name_alone_misses_query() {
    let args = vec![String::from("minigrep")];
    assert_eq!(
        resolve(&args, None),
        Err(ConfigError::MissingArgument(MissingArg::Query))
    );
}

#[test]
fn resolve_one_positional_misses_source() {
    let args = vec![String::from("minigrep"), String::from("duct")];
    assert_eq!(
        resolve(&args, None),
        Err(ConfigError::MissingArgument(MissingArg::Source))
    );
}

#[test]
fn resolve_two_positionals_succeeds() {
    let args = vec![
        String::from("minigrep"),
        String::from("duct"),
        String::from("poem.txt"),
    ];
    let config = resolve(&args, None).unwrap();
    assert_eq!(config.query, "duct");
    assert_eq!(config.source, "poem.txt");
    assert!(!config.case_insensitive);
}

#[test]
fn resolve_override_presence_forces_insensitive() {
    let args = vec![
        String::from("minigrep"),
        String::from("q"),
        String::from("s"),
    ];
    assert!(resolve(&args, Some(true)).unwrap().case_insensitive);
    // The override's value is ignored: mere presence forces the mode.
    assert!(resolve(&args, Some(false)).unwrap().case_insensitive);
    assert!(!resolve(&args, None).unwrap().case_insensitive);
}

#[test]
fn resolve_copies_the_arguments() {
    let mut args = vec![
        String::from("minigrep"),
        String::from("duct"),
        String::from("poem.txt"),
    ];
    let config: Config = resolve(&args, None).unwrap();
    args[1] = String::from("changed");
    args[2].clear();
    assert_eq!(config.query, "duct");
    assert_eq!(config.source, "poem.txt");
}

#[test]
fn resolve_ignores_extra_arguments() {
    let args = vec![
        String::from("minigrep"),
        String::from("q"),
        String::from("s"),
        String::from("extra"),
    ];
    let config = resolve(&args, None).unwrap();
    assert_eq!(config.query, "q");
    assert_eq!(config.source, "s");
}
