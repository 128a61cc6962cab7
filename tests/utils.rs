use lazydot::paths::{
    backup_path, check_path, expand_path, get_home_and_dot_path, get_path_in_dotfolder,
    join, mock_dotfile_paths, path_segments,
};

const HOME: &str = "/home/tester";

#[test]
fn test_expand_path_with_tilde() {
    let expanded = expand_path("~/some/path", HOME, HOME);
    assert_eq!(expanded, "/home/tester/some/path");
}

#[test]
fn test_expand_path_relative() {
    let cwd = "/home/tester/work";
    let rel_path = "some/relative/path";
    let expanded = expand_path(rel_path, HOME, cwd);
    assert_eq!(expanded, join(cwd, rel_path));
    assert_eq!(expanded, "/home/tester/work/some/relative/path");
}

#[test]
fn test_check_path_valid() {
    let result = check_path("~/.testfile", HOME, HOME, true);
    assert!(result.is_ok());
    assert_eq!(result.unwrap(), "~/.testfile");
}

#[test]
fn test_check_path_invalid_outside_home() {
    let outside_path = "/etc/passwd";
    let result = check_path(outside_path, HOME, HOME, true);
    assert!(result.is_err());
    assert_eq!(result.err().unwrap(), "Path is outside of the home directory");
}

#[test]
fn expand_keeps_absolute_paths() {
    assert_eq!(expand_path("/etc/hosts", HOME, "/tmp"), "/etc/hosts");
}

#[test]
fn expand_relative_from_root_cwd() {
    assert_eq!(expand_path("a", HOME, "/"), "/a");
}

#[test]
fn check_path_missing_is_refused() {
    assert_eq!(check_path("~/nothing", HOME, HOME, false).unwrap_err(), "Path does not exist");
}

#[test]
fn check_path_home_itself_is_refused() {
    for p in ["~/", "", HOME, "/home/tester/", "/home/tester/./"] {
        assert_eq!(
            check_path(p, HOME, HOME, true).unwrap_err(),
            "You can't add your home as path"
        );
    }
}

#[test]
fn check_path_sibling_prefix_is_outside() {
    assert_eq!(
        check_path("/home/tester2/x", HOME, HOME, true).unwrap_err(),
        "Path is outside of the home directory"
    );
}

#[test]
fn check_path_normalizes_separators() {
    assert_eq!(check_path("/home/tester//a/./b/", HOME, "/", true).unwrap(), "~/a/b");
    assert_eq!(check_path("docs/x.txt", HOME, "/home/tester", true).unwrap(), "~/docs/x.txt");
}

#[test]
fn check_path_is_idempotent_on_examples() {
    for p in ["~/.bashrc", "/home/tester//a/./b/", "c/d"] {
        let once = check_path(p, HOME, HOME, true).unwrap();
        let twice = check_path(&once, HOME, HOME, true).unwrap();
        assert_eq!(once, twice);
    }
}

#[test]
fn segments_skip_empty_and_current() {
    assert_eq!(path_segments("//a/./b//c/"), vec!["a", "b", "c"]);
    assert_eq!(path_segments("a/../b"), vec!["a", "..", "b"]);
    assert!(path_segments("/").is_empty());
}

#[test]
fn dotfolder_counterpart_of_home_path() {
    let d = get_path_in_dotfolder("/home/tester/.config/app1", "~/mydotfolder", HOME, HOME).unwrap();
    assert_eq!(d, "/home/tester/mydotfolder/.config/app1");
    let err = get_path_in_dotfolder("/etc/passwd", "~/mydotfolder", HOME, HOME).unwrap_err();
    assert_eq!(err, "Path is outside of the home directory");
}

#[test]
fn pair_of_managed_path() {
    let (h, d) = get_home_and_dot_path("~/.bashrc", "~/dots/", HOME, HOME).unwrap();
    assert_eq!(h, "/home/tester/.bashrc");
    assert_eq!(d, "/home/tester/dots/.bashrc");
}

#[test]
fn backup_name_replaces_extension() {
    assert_eq!(backup_path("/home/tester/.bashrc"), "/home/tester/.bashrc.bak");
    assert_eq!(backup_path("/home/tester/app/config.toml"), "/home/tester/app/config.bak");
    assert_eq!(backup_path("/home/tester/a.b/file"), "/home/tester/a.b/file.bak");
    assert_eq!(backup_path("/home/tester/old.bak"), "/home/tester/old.bak.bak");
}

#[test]
fn mock_paths_in_each_notation() {
    assert_eq!(
        mock_dotfile_paths(HOME),
        vec!["~/.bashrc", ".config/app1", "/home/tester/.config/app2/app_config2.toml"]
    );
}

#[test]
fn parent_segments_are_resolved() {
    assert_eq!(
        check_path("~/../x", HOME, HOME, true).unwrap_err(),
        "Path is outside of the home directory"
    );
    assert_eq!(
        check_path("~/a/..", HOME, HOME, true).unwrap_err(),
        "You can't add your home as path"
    );
    assert_eq!(check_path("../b", HOME, "/home/tester/sub", true).unwrap(), "~/b");
    assert_eq!(check_path("~/a/./c/../d", HOME, HOME, true).unwrap(), "~/a/d");
}
