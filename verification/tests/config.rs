use symlinks_database::config::{
    expand, lookup_message, Config, ConfigError, Environment, Paths, TOMLPaths, VarLookupError,
};

fn env() -> Environment {
    Environment::new(
        vec![
            ("VAR".to_string(), Some("/var/data".to_string())),
            ("BAD".to_string(), None),
        ],
        Some("/home/user".to_string()),
    )
}

#[test]
fn variables_and_tilde_are_expanded() {
    let e = env();
    assert_eq!(expand("$VAR/symlink_database/symlinks.db", &e).unwrap(), "/var/data/symlink_database/symlinks.db");
    assert_eq!(expand("${VAR}s", &e).unwrap(), "/var/datas");
    assert_eq!(expand("~/notes", &e).unwrap(), "/home/user/notes");
    assert_eq!(expand("~other/x", &e).unwrap(), "~other/x");
    assert_eq!(expand("/plain/path", &e).unwrap(), "/plain/path");
}

#[test]
fn unknown_variables_are_errors() {
    let e = env();
    match expand("$NOPE/x", &e) {
        Err(ConfigError::EnvVariableError { var_name, cause }) => {
            assert_eq!(var_name, "NOPE");
            assert_eq!(cause, VarLookupError::NotPresent);
        }
        _ => panic!("missing variable accepted"),
    }
    match expand("$BAD", &e) {
        Err(ConfigError::EnvVariableError { cause, .. }) => assert_eq!(cause, VarLookupError::NotUnicode),
        _ => panic!("non-unicode variable accepted"),
    }
}

#[test]
fn paths_are_expanded() {
    let e = env();
    let p = Paths::default(
        TOMLPaths { root: "~/data".to_string(), database: "$VAR/db.sqlite".to_string() },
        &e,
    )
    .unwrap();
    assert_eq!(p.root, "/home/user/data");
    assert_eq!(p.database, "/var/data/db.sqlite");
}

#[test]
fn config_compiles_skip_patterns() {
    let e = env();
    let c = Config::from_parts(
        TOMLPaths { root: "/r".to_string(), database: "/r.db".to_string() },
        &[".venv".to_string(), "target/".to_string()],
        &e,
    )
    .unwrap();
    assert!(c.skip.matches("a/.venv", true));
    assert!(c.skip.matches("target", true));
    assert!(!c.skip.matches("target", false));
    assert_eq!(c.paths.root, "/r");
}

#[test]
fn config_errors_describe_themselves() {
    let missing = ConfigError::EnvVariableError { var_name: "NOPE".to_string(), cause: VarLookupError::NotPresent };
    assert_eq!(
        missing.message(),
        "EnvVariableError: error looking key 'NOPE' up: environment variable not found"
    );
    assert_eq!(
        lookup_message("BAD", VarLookupError::NotUnicode),
        "error looking key 'BAD' up: environment variable was not valid unicode"
    );
    assert_eq!(
        ConfigError::ConfigFileNotFound("/c/config.toml".to_string()).message(),
        "Config file not found: /c/config.toml"
    );
    assert_eq!(ConfigError::ProjectDirsError.message(), "ProjectDirs error");
    assert_eq!(ConfigError::TOMLError("bad".to_string()).message(), "TOMLError: bad");
}
