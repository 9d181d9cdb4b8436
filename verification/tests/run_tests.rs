use pane_layout::run::{PluginTag, PluginsConfigError, Run, RunCommand, RunPlugin, RunPluginLocation};
use url::Url;

fn command(cwd: Option<&str>, args: &[&str]) -> RunCommand {
    RunCommand {
        command: "editor".to_string(),
        args: args.iter().map(|a| a.to_string()).collect(),
        cwd: cwd.map(|c| c.to_string()),
        hold_on_close: false,
        hold_on_start: false,
    }
}

#[test]
fn merge_fully_specified_override_wins() {
    let base = Some(Run::Command(command(None, &[])));
    let other = Some(Run::Command(command(Some("/x"), &["a"])));
    let merged = Run::merge(&base, &other);
    assert_eq!(merged, Some(Run::Command(command(Some("/x"), &["a"]))));
}

#[test]
fn merge_inherits_cwd_and_args_from_base() {
    let base = Some(Run::Command(command(Some("/base"), &["b1", "b2"])));
    let other = Some(Run::Command(command(None, &[])));
    let merged = Run::merge(&base, &other);
    assert_eq!(merged, Some(Run::Command(command(Some("/base"), &["b1", "b2"]))));
}

#[test]
fn merge_cwd_always_overrides_command_cwd() {
    let base = Some(Run::Command(command(Some("/base"), &[])));
    let other = Some(Run::Cwd("/other".to_string()));
    let merged = Run::merge(&base, &other);
    assert_eq!(merged, Some(Run::Command(command(Some("/other"), &[]))));
}

#[test]
fn merge_cwd_base_fills_command_cwd() {
    let base = Some(Run::Cwd("/base".to_string()));
    let other = Some(Run::Command(command(None, &["a"])));
    let merged = Run::merge(&base, &other);
    assert_eq!(merged, Some(Run::Command(command(Some("/base"), &["a"]))));
}

#[test]
fn merge_edit_file_joins_base_cwd() {
    let base = Some(Run::Command(command(Some("/base"), &[])));
    let other = Some(Run::EditFile("notes.txt".to_string(), Some(7)));
    let merged = Run::merge(&base, &other);
    assert_eq!(merged, Some(Run::EditFile("/base/notes.txt".to_string(), Some(7))));
}

#[test]
fn merge_edit_file_keeps_absolute_path() {
    let base = Some(Run::Cwd("/base".to_string()));
    let other = Some(Run::EditFile("/abs/notes.txt".to_string(), None));
    let merged = Run::merge(&base, &other);
    assert_eq!(merged, Some(Run::EditFile("/abs/notes.txt".to_string(), None)));
}

#[test]
fn merge_fallbacks() {
    let plugin = Run::Plugin(RunPlugin {
        _allow_exec_host_cmd: false,
        location: RunPluginLocation::File("/p".to_string()),
    });
    assert_eq!(Run::merge(&None, &None), None);
    assert_eq!(Run::merge(&Some(plugin.clone()), &None), Some(plugin.clone()));
    assert_eq!(
        Run::merge(&None, &Some(Run::Cwd("/c".to_string()))),
        Some(Run::Cwd("/c".to_string()))
    );
    // No special case: the override wins outright.
    assert_eq!(
        Run::merge(&Some(Run::Cwd("/c".to_string())), &Some(plugin.clone())),
        Some(plugin)
    );
}

#[test]
fn add_cwd_joins_and_replaces() {
    let mut run = Run::Command(command(Some("rel"), &[]));
    run.add_cwd("/root");
    assert_eq!(run, Run::Command(command(Some("/root/rel"), &[])));

    let mut run = Run::Command(command(None, &[]));
    run.add_cwd("/root");
    assert_eq!(run, Run::Command(command(Some("/root"), &[])));

    let mut run = Run::EditFile("/abs.txt".to_string(), None);
    run.add_cwd("/root");
    assert_eq!(run, Run::EditFile("/abs.txt".to_string(), None));

    let mut run = Run::Cwd("sub".to_string());
    run.add_cwd("/root");
    assert_eq!(run, Run::Cwd("/root/sub".to_string()));
}

#[test]
fn add_args_only_non_empty() {
    let mut run = Run::Command(command(None, &["old"]));
    run.add_args(Some(vec![]));
    assert_eq!(run, Run::Command(command(None, &["old"])));
    run.add_args(Some(vec!["new".to_string()]));
    assert_eq!(run, Run::Command(command(None, &["new"])));
    run.add_args(None);
    assert_eq!(run, Run::Command(command(None, &["new"])));
}

#[test]
fn add_close_on_exit_and_start_suspended() {
    let mut run = Run::Command(command(None, &[]));
    run.add_close_on_exit(Some(true));
    if let Run::Command(c) = &run {
        assert!(!c.hold_on_close);
    } else {
        panic!("expected a command");
    }
    run.add_close_on_exit(Some(false));
    if let Run::Command(c) = &run {
        assert!(c.hold_on_close);
    } else {
        panic!("expected a command");
    }
    run.add_start_suspended(Some(true));
    if let Run::Command(c) = &run {
        assert!(c.hold_on_start);
    } else {
        panic!("expected a command");
    }
}

#[test]
fn same_category_and_terminal() {
    let cmd = Some(Run::Command(command(None, &[])));
    let cwd = Some(Run::Cwd("/c".to_string()));
    let plugin = Some(Run::Plugin(RunPlugin {
        _allow_exec_host_cmd: false,
        location: RunPluginLocation::Zellij(PluginTag::new("status-bar".to_string())),
    }));
    assert!(Run::is_same_category(&cmd, &cmd));
    assert!(!Run::is_same_category(&cmd, &cwd));
    assert!(!Run::is_same_category(&None, &None));
    assert!(Run::is_terminal(&cmd));
    assert!(Run::is_terminal(&None));
    assert!(!Run::is_terminal(&plugin));
}

#[test]
fn url_round_trip_for_file_location() {
    let url = Url::parse("file:/a/b").unwrap();
    let location = RunPluginLocation::try_from(url.clone()).unwrap();
    assert_eq!(location, RunPluginLocation::File("/a/b".to_string()));
    assert_eq!(location.url_string(), "file:/a/b");
    let back = location.to_url().unwrap();
    assert_eq!(back, url);
}

#[test]
fn url_round_trip_for_zellij_location() {
    let url = Url::parse("zellij:status-bar").unwrap();
    let location = RunPluginLocation::try_from(url.clone()).unwrap();
    assert_eq!(
        location,
        RunPluginLocation::Zellij(PluginTag::new("status-bar".to_string()))
    );
    assert_eq!(location.url_string(), "zellij:status-bar");
    assert_eq!(location.display_string(), "status-bar");
    let back = location.to_url().unwrap();
    assert_eq!(back, url);
}

#[test]
fn unknown_scheme_is_rejected_with_the_url() {
    let url = Url::parse("https://example.com/x").unwrap();
    match RunPluginLocation::try_from(url.clone()) {
        Err(PluginsConfigError::InvalidUrl(u)) => assert_eq!(u, url),
        other => panic!("expected an invalid-url error, got {:?}", other),
    }
}
