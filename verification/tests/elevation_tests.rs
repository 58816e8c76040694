use aether::elevation::{
    check_script_path, elevation_script, needs_password, passwordless, pkexec_outcome,
    probe_workspace, shell_escape, sudo_outcome, wgctl_args, CommandOutput, SudoOutcome,
    WgAction,
};
use aether::tray::{str_is, tray_action, tray_menu, TrayAction};

fn out(success: bool, stdout: &str, stderr: &str) -> CommandOutput {
    CommandOutput { success, stdout: stdout.to_string(), stderr: stderr.to_string() }
}

#[test]
fn action_arguments() {
    assert_eq!(wgctl_args(WgAction::Up(3)), vec!["up".to_string(), "3".to_string()]);
    assert_eq!(wgctl_args(WgAction::Down), vec!["down".to_string()]);
    assert_eq!(wgctl_args(WgAction::Restart(255)), vec!["restart".to_string(), "255".to_string()]);
    assert_eq!(wgctl_args(WgAction::Up(0)), vec!["up".to_string(), "0".to_string()]);
}

#[test]
fn password_prompts_are_recognised() {
    assert!(needs_password("sudo: a password is required\n"));
    assert!(needs_password("password is required"));
    assert!(needs_password("error: PasswordRequired"));
    assert!(!needs_password("wgctl: no such server"));
    assert!(!needs_password(""));
}

#[test]
fn sudo_success_returns_output() {
    match sudo_outcome(Some(out(true, "up\n", "a password is required"))) {
        SudoOutcome::Finished(Ok(s)) => assert_eq!(s, "up\n"),
        _ => panic!("expected success"),
    }
}

#[test]
fn sudo_real_failure_is_reported() {
    match sudo_outcome(Some(out(false, "out", "boom"))) {
        SudoOutcome::Finished(Err(e)) => assert_eq!(e, "boom"),
        _ => panic!("expected failure"),
    }
    match sudo_outcome(Some(out(false, "only stdout", ""))) {
        SudoOutcome::Finished(Err(e)) => assert_eq!(e, "only stdout"),
        _ => panic!("expected failure"),
    }
}

#[test]
fn sudo_falls_back_to_pkexec() {
    assert!(matches!(sudo_outcome(None), SudoOutcome::TryPkexec));
    assert!(matches!(
        sudo_outcome(Some(out(false, "", "sudo: a password is required"))),
        SudoOutcome::TryPkexec
    ));
}

#[test]
fn pkexec_results() {
    assert_eq!(pkexec_outcome(out(true, "ok", "warn")).unwrap(), "ok");
    assert_eq!(pkexec_outcome(out(false, "o", "e")).unwrap_err(), "e");
    assert_eq!(pkexec_outcome(out(false, "o", "")).unwrap_err(), "o");
}

#[test]
fn passwordless_probe() {
    assert!(passwordless(Some(String::new())));
    assert!(passwordless(Some("wgctl: workspace missing".to_string())));
    assert!(!passwordless(Some("sudo: a password is required".to_string())));
    assert!(passwordless(Some("PasswordRequired".to_string())));
    assert!(!passwordless(None));
    assert_eq!(probe_workspace(None), "/tmp");
    assert_eq!(probe_workspace(Some("/ws".to_string())), "/ws");
}

#[test]
fn shell_quoting() {
    assert_eq!(shell_escape("plain"), "'plain'");
    assert_eq!(shell_escape(""), "''");
    assert_eq!(shell_escape("it's"), "'it'\"'\"'s'");
    assert_eq!(shell_escape("''"), "''\"'\"''\"'\"''");
}

#[test]
fn script_path_with_space_is_refused() {
    assert!(check_script_path("/opt/aether/scripts/wgctl.sh").is_ok());
    assert_eq!(
        check_script_path("/opt/my apps/wgctl.sh").unwrap_err(),
        "wgctl.sh path contains spaces; move Aether to a path without spaces"
    );
}

#[test]
fn installer_text() {
    let s = elevation_script("/opt/a/wgctl.sh", "bob");
    assert!(s.starts_with("#!/bin/bash\nset -euo pipefail\nSCRIPT='/opt/a/wgctl.sh'\nUSER_NAME='bob'\nRULE_FILE=/etc/sudoers.d/aether-wgctl\n"));
    assert!(s.contains("printf '%s ALL=(root) NOPASSWD: %s\\n' \"$USER_NAME\" \"$SCRIPT\" > \"$RULE_FILE\"\n"));
    assert!(s.contains("polkit.addRule(function(action, subject) {\n"));
    assert!(s.contains("        return polkit.Result.YES;\n    }\n});\nEOF\n"));
    assert!(s.ends_with("chmod 644 \"$POLKIT_FILE\"\necho OK\n"));
    let q = elevation_script("/x", "o'neil");
    assert!(q.contains("USER_NAME='o'\"'\"'neil'\n"));
}

#[test]
fn tray_actions() {
    assert!(matches!(tray_action("show"), TrayAction::ShowWindow));
    assert!(matches!(tray_action("quit"), TrayAction::Quit));
    assert!(matches!(tray_action("disconnect"), TrayAction::Disconnect));
    assert!(matches!(tray_action("connect1"), TrayAction::Connect(1)));
    assert!(matches!(tray_action("connect2"), TrayAction::Connect(2)));
    assert!(matches!(tray_action("connect3"), TrayAction::Connect(3)));
    assert!(matches!(tray_action("connect4"), TrayAction::Ignore));
    assert!(matches!(tray_action(""), TrayAction::Ignore));
    assert!(str_is("abc", "abc"));
    assert!(!str_is("abc", "abd"));
}

#[test]
fn tray_menu_entries() {
    let m = tray_menu();
    let ids: Vec<&str> = m.iter().map(|e| e.id.as_str()).collect();
    assert_eq!(ids, vec!["connect1", "connect2", "connect3", "disconnect", "show", "quit"]);
    let labels: Vec<&str> = m.iter().map(|e| e.label.as_str()).collect();
    assert_eq!(
        labels,
        vec!["Connect Server 1", "Connect Server 2", "Connect Server 3", "Disconnect", "Show Window", "Quit"]
    );
    for e in &m {
        assert!(!matches!(tray_action(&e.id), TrayAction::Ignore));
    }
}
