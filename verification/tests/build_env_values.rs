use kwui_cli::build_env::cmake_command;
use kwui_cli::build_env::force_kwui_binaries_download;
use kwui_cli::build_env::force_kwui_build;
use kwui_cli::build_env::kwui_binaries_url;
use kwui_cli::build_env::kwui_binaries_url_default;
use kwui_cli::build_env::link_libraries;
use kwui_cli::build_env::ninja_command;
use kwui_cli::build_env::use_system_libraries;

#[test]
fn env_decisions_follow_presence() {
    assert!(force_kwui_binaries_download(Some("1".to_string())));
    assert!(!force_kwui_binaries_download(None));
    assert!(force_kwui_build(Some(String::new())));
    assert!(!force_kwui_build(None));
    assert!(use_system_libraries(Some("yes".to_string())));
    assert!(!use_system_libraries(None));
}

#[test]
fn configured_commands_pass_through() {
    assert_eq!(
        kwui_binaries_url(Some("file:///tmp/x".to_string())),
        Some("file:///tmp/x".to_string())
    );
    assert_eq!(kwui_binaries_url(None), None);
    assert_eq!(ninja_command(Some("/usr/bin/ninja".to_string())), Some("/usr/bin/ninja".to_string()));
    assert_eq!(cmake_command(None), None);
    assert!(kwui_binaries_url_default().contains("{tag}"));
    assert!(kwui_binaries_url_default().contains("{key}"));
    assert!(link_libraries().is_empty());
}
