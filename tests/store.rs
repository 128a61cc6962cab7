use lazydot::config::{
    choose_config_source, Config, ConfigSource, Defaults, DuplicateBehavior, OnDelinkBehavior,
};
use lazydot::store::SaveError;

const HOME: &str = "/home/tester";

const STORED: &str = r#"
# Path to the dotfiles folder (must start with ~/)
dotfolder_path = "~/mydotfolder"

# managed paths
paths = [
    "~/.config/lazydot.toml",
]

[defaults]
# what to do on duplicates
on_duplicate = "ask"
on_delink = "remove"
"#;

fn config() -> Config {
    Config {
        defaults: Defaults {
            on_duplicate: DuplicateBehavior::BackupHome,
            on_delink: OnDelinkBehavior::Keep,
        },
        dotfolder_path: "~/dots".to_string(),
        paths: vec!["~/.config/lazydot.toml".to_string(), "~/.bashrc".to_string()],
    }
}

#[test]
fn render_replaces_fields_and_keeps_comments() {
    let text = config().render(STORED, HOME).unwrap();
    assert!(text.contains("# Path to the dotfiles folder (must start with ~/)"));
    assert!(text.contains("# what to do on duplicates"));
    assert!(text.contains("dotfolder_path = \"~/dots\""));
    assert!(text.contains("\"~/.bashrc\""));
    assert!(text.contains("on_duplicate = \"backuphome\""));
    assert!(text.contains("on_delink = \"keep\""));
    assert!(!text.contains("mydotfolder"));
}

#[test]
fn render_adds_missing_defaults() {
    let text = config().render("dotfolder_path = \"~/x\"\npaths = []\n", HOME).unwrap();
    assert!(text.contains("backuphome"));
    assert!(text.contains("keep"));
}

#[test]
fn render_refuses_non_toml_text() {
    assert_eq!(config().render("this is = = not toml", HOME), Err(SaveError::NotToml));
}

#[test]
fn render_refuses_defaults_that_are_not_a_table() {
    assert_eq!(
        config().render("defaults = 3\n", HOME),
        Err(SaveError::DefaultsNotTable)
    );
}

#[test]
fn render_refuses_invalid_config() {
    let mut c = config();
    c.paths.push("relative".to_string());
    assert!(matches!(c.render(STORED, HOME), Err(SaveError::Invalid(_))));
}

#[test]
fn policy_names() {
    assert_eq!(DuplicateBehavior::OverwriteDotfile.name(), "overwritedotfile");
    assert_eq!(DuplicateBehavior::Ask.name(), "ask");
    assert_eq!(OnDelinkBehavior::Remove.name(), "remove");
}

#[test]
fn config_source_choice() {
    assert_eq!(choose_config_source(true, true), ConfigSource::Global);
    assert_eq!(choose_config_source(false, true), ConfigSource::Local);
    assert_eq!(choose_config_source(false, false), ConfigSource::CreateDefault);
}

#[test]
fn render_into_inline_defaults() {
    let text = config()
        .render("dotfolder_path = \"~/x\"\ndefaults = { on_duplicate = \"skip\" }\n", HOME)
        .unwrap();
    assert!(text.contains("backuphome"));
    assert!(!text.contains("skip"));
}
