use lazydot::config::{
    default_duplicate_behavior, default_on_delink_behavior, Config, Defaults, DuplicateBehavior,
    OnDelinkBehavior,
};
use lazydot::paths::mock_dotfile_paths;

const HOME: &str = "/home/tester";

fn default_config() -> Config {
    Config {
        defaults: Defaults {
            on_duplicate: default_duplicate_behavior(),
            on_delink: default_on_delink_behavior(),
        },
        dotfolder_path: "~/mydotfolder".to_string(),
        paths: vec!["~/.config/lazydot.toml".to_string()],
    }
}

fn init_config_with_paths() -> Config {
    let mut config = default_config();
    for path in mock_dotfile_paths(HOME) {
        config.add_path(path, HOME, HOME, true).expect("Failed to add path");
    }
    config
}

#[test]
fn test_path_normalization() {
    let config = init_config_with_paths();
    assert_eq!(
        config.paths,
        vec![
            "~/.config/lazydot.toml",
            "~/.bashrc",
            "~/.config/app1",
            "~/.config/app2/app_config2.toml"
        ]
    );
}

#[test]
fn test_add_invalid_paths() {
    let mut config = init_config_with_paths();

    let invalids = vec!["~/some_path", ".absolute_path", "~/nested/path/config.csv", "null"];
    for path in invalids {
        let err = config.add_path(path.to_string(), HOME, HOME, false).unwrap_err();
        assert!(err.contains("does not exist"), "Error: {}", err);
    }

    for path in vec!["~/", "", HOME] {
        let err = config.add_path(path.to_string(), HOME, HOME, true).unwrap_err();
        assert!(err.contains("home"), "Expected home path error, got: {}", err);
    }
}

#[test]
fn defaults_are_ask_and_remove() {
    assert_eq!(default_duplicate_behavior(), DuplicateBehavior::Ask);
    assert_eq!(default_on_delink_behavior(), OnDelinkBehavior::Remove);
}

#[test]
fn add_existing_path_is_a_no_op() {
    let mut config = init_config_with_paths();
    let before = config.paths.clone();
    assert_eq!(config.add_path("/home/tester/.bashrc".to_string(), HOME, HOME, true), Ok(false));
    assert_eq!(config.paths, before);
}

#[test]
fn rejected_paths_leave_config_unchanged() {
    let mut config = init_config_with_paths();
    let before = config.paths.clone();
    assert!(config.add_path("/etc/passwd".to_string(), HOME, HOME, true).is_err());
    assert!(config.add_path("~/".to_string(), HOME, HOME, true).is_err());
    assert_eq!(config.paths, before);
}

#[test]
fn path_inside_dotfolder_stands_for_home_counterpart() {
    let mut config = default_config();
    let added = config.add_path("~/mydotfolder/.vimrc".to_string(), HOME, HOME, true);
    assert_eq!(added, Ok(true));
    assert_eq!(config.paths.last().unwrap(), "~/.vimrc");
}

#[test]
fn remove_path_drops_the_entry() {
    let mut config = init_config_with_paths();
    assert_eq!(config.remove_path("~/.config/app1".to_string(), HOME, HOME), Ok(true));
    assert_eq!(
        config.paths,
        vec!["~/.config/lazydot.toml", "~/.bashrc", "~/.config/app2/app_config2.toml"]
    );
    assert_eq!(config.remove_path("~/.config/app1".to_string(), HOME, HOME), Ok(false));
    assert!(config.remove_path("/etc".to_string(), HOME, HOME).is_err());
}

#[test]
fn validate_config_rules() {
    let mut config = default_config();
    assert!(config.validate_config(HOME).is_ok());
    config.paths.push("relative/path".to_string());
    assert!(config.validate_config(HOME).is_err());
    let mut config = default_config();
    config.paths.push("/home/tester/x".to_string());
    assert!(config.validate_config(HOME).is_ok());
    config.paths.push("/opt/x".to_string());
    assert!(config.validate_config(HOME).is_err());
    config.paths.pop();
    config.paths.push("~/../x".to_string());
    assert!(config.validate_config(HOME).is_err());
    config.paths.pop();
    config.dotfolder_path = "/dots".to_string();
    assert!(config.validate_config(HOME).is_err());
}

#[test]
fn vanished_path_can_be_unregistered() {
    let mut config = init_config_with_paths();
    assert_eq!(config.remove_path("~/.bashrc".to_string(), HOME, HOME), Ok(true));
    assert!(!config.paths.contains(&"~/.bashrc".to_string()));
}
