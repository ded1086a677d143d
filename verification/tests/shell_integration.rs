use zed_shell_marks::shell_integration::{
    bash_args, bash_rcfile_content, basename, fish_data_dirs, hooks_for_shell, inherited_value,
    setup_kind,
    shell_basename, zshenv_content, Shell, ShellSetup, BASH_OSC133_HOOKS, DEFAULT_XDG_DATA_DIRS,
    FISH_OSC133_HOOKS, ZSH_OSC133_HOOKS,
};

#[test]
fn hooks_for_known_shells() {
    assert_eq!(hooks_for_shell("zsh"), Some(ZSH_OSC133_HOOKS));
    assert_eq!(hooks_for_shell("bash"), Some(BASH_OSC133_HOOKS));
    assert_eq!(hooks_for_shell("fish"), Some(FISH_OSC133_HOOKS));
    assert_eq!(hooks_for_shell("nu"), None);
    assert_eq!(hooks_for_shell(""), None);
    assert_eq!(hooks_for_shell("zsh "), None);
}

#[test]
fn hooks_emit_all_four_marks() {
    for hooks in [ZSH_OSC133_HOOKS, BASH_OSC133_HOOKS, FISH_OSC133_HOOKS] {
        assert!(hooks.contains("133;A"));
        assert!(hooks.contains("133;C"));
        assert!(hooks.contains("133;D"));
    }
    assert!(ZSH_OSC133_HOOKS.contains("133;B"));
    assert!(BASH_OSC133_HOOKS.contains("133;B"));
}

#[test]
fn basename_takes_last_segment() {
    assert_eq!(basename("/bin/zsh"), "zsh");
    assert_eq!(basename("zsh"), "zsh");
    assert_eq!(basename("/usr/local/bin/fish"), "fish");
    assert_eq!(basename("/bin/"), "");
    assert_eq!(basename(""), "");
}

#[test]
fn shell_basename_of_each_kind() {
    assert_eq!(shell_basename(&Shell::System, Some("/bin/bash")), "bash");
    assert_eq!(shell_basename(&Shell::System, None), "");
    assert_eq!(shell_basename(&Shell::Program("/usr/bin/fish".to_string()), None), "fish");
    assert_eq!(
        shell_basename(
            &Shell::WithArguments {
                program: "/opt/zsh".to_string(),
                args: vec!["-l".to_string()],
            },
            Some("/bin/bash"),
        ),
        "zsh"
    );
}

#[test]
fn setup_kind_by_name() {
    assert_eq!(setup_kind("zsh"), ShellSetup::Zsh);
    assert_eq!(setup_kind("bash"), ShellSetup::Bash);
    assert_eq!(setup_kind("fish"), ShellSetup::Fish);
    assert_eq!(setup_kind("sh"), ShellSetup::Unsupported);
}

#[test]
fn zshenv_wrapper_text() {
    let text = zshenv_content("/home/me", "HOOKS");
    assert_eq!(
        text,
        "# Zed shell integration \u{2014} restore real ZDOTDIR then source hooks\n\
export ZDOTDIR=\"/home/me\"\n\
if [[ -f \"$ZDOTDIR/.zshenv\" ]]; then\n  source \"$ZDOTDIR/.zshenv\"\nfi\nHOOKS\n"
    );
}

#[test]
fn bash_wrapper_text_and_args() {
    let text = bash_rcfile_content("HOOKS");
    assert_eq!(
        text,
        "# Zed shell integration \u{2014} source user's bashrc then hooks\n\
if [[ -f ~/.bashrc ]]; then\n  source ~/.bashrc\nfi\nHOOKS\n"
    );
    assert_eq!(
        bash_args("/tmp/zed_bashrc"),
        vec!["--rcfile".to_string(), "/tmp/zed_bashrc".to_string()]
    );
}

#[test]
fn fish_data_dirs_prepends_vendor() {
    assert_eq!(
        fish_data_dirs("/cache/zed/shell-integration/fish", DEFAULT_XDG_DATA_DIRS),
        "/cache/zed/shell-integration/fish:/usr/local/share:/usr/share"
    );
}

#[test]
fn inherited_value_prefers_shell_env() {
    assert_eq!(inherited_value(Some("/a"), Some("/b"), "/c"), "/a");
    assert_eq!(inherited_value(None, Some("/b"), "/c"), "/b");
    assert_eq!(inherited_value(None, None, "/c"), "/c");
}
