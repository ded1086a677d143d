//! Shell integration scripts for OSC 133 semantic zones, and the text
//! and arguments that make bash, zsh and fish load them.
//!
//! Each shell's own startup mechanism loads the hooks: zsh through a
//! `ZDOTDIR` wrapper whose `.zshenv` restores the real `ZDOTDIR`, bash
//! through `--rcfile`, fish through a `vendor_conf.d` script on
//! `XDG_DATA_DIRS`. Writing the files and reading the environment is left
//! to the caller; this module decides what goes into them.

use vstd::prelude::*;
use crate::text::{chars_of, str_equals};

verus! {

/// A shell to start: the system's login shell, a program, or a program
/// with arguments.
#[derive(Debug, Clone, PartialEq, Eq)]
pub enum Shell {
    System,
    Program(String),
    WithArguments { program: String, args: Vec<String> },
}

/// Zsh shell integration for OSC 133 semantic zones.
///
/// precmd emits D (if a command ran) and embeds the A and B marks in PS1,
/// pattern-matched so they are never inserted twice; preexec strips them
/// again and emits C. Sourcing it twice is harmless.
pub const ZSH_OSC133_HOOKS: &'static str = r#"
if [[ -z "$ZSH_NAME" ]] ; then
  return 0 2>/dev/null || true
fi
if [[ $- != *i* ]] ; then
  return 0 2>/dev/null || true
fi
if [[ -n "$__ZED_OSC133_INSTALLED" ]] ; then
  return 0
fi
__ZED_OSC133_INSTALLED=1

# 0: no marks written yet
# 1: last C not yet closed with D
# 2: normal (D has been written or no command has run)
typeset -gi __zed_semantic_state=0

__zed_semantic_precmd() {
  local -i ret=$?
  builtin emulate -L zsh -o no_warn_create_global -o no_aliases

  if ! builtin zle 2>/dev/null; then
    if (( __zed_semantic_state == 1 )); then
      builtin printf '\e]133;D;%s\a' $ret
      (( __zed_semantic_state = 2 ))
    elif (( __zed_semantic_state == 2 )); then
      builtin printf '\e]133;D\a'
    fi
  fi

  local mark_a=$'%{\e]133;A\a%}'
  local mark_b=$'%{\e]133;B\a%}'

  if [[ -o prompt_percent ]]; then
    [[ $PS1 == *$mark_a* ]] || PS1=${mark_a}${PS1}
    [[ $PS1 == *$mark_b* ]] || PS1=${PS1}${mark_b}

    local mark_a_secondary=$'%{\e]133;A;k=s\a%}'
    if [[ $PS1 == ${mark_a}$'\n'* ]]; then
      local rest=${PS1#${mark_a}$'\n'}
      if [[ $rest == *$'\n'* ]]; then
        PS1=${mark_a}$'\n'${rest//$'\n'/$'\n'${mark_a_secondary}}
      fi
    elif [[ $PS1 == *$'\n'* ]]; then
      PS1=${PS1//$'\n'/$'\n'${mark_a_secondary}}
    fi

    [[ $PS2 == *$mark_a_secondary* ]] || PS2=${mark_a_secondary}${PS2}
    [[ $PS2 == *$mark_b* ]] || PS2=${PS2}${mark_b}

    (( __zed_semantic_state = 2 ))
  elif ! builtin zle 2>/dev/null; then
    builtin printf '\e]133;A\a'
    (( __zed_semantic_state = 2 ))
  fi
}

__zed_semantic_preexec() {
  builtin emulate -L zsh -o no_warn_create_global -o no_aliases

  PS1=${PS1//$'%{\e]133;A\a%}'}
  PS1=${PS1//$'%{\e]133;A;k=s\a%}'}
  PS1=${PS1//$'%{\e]133;B\a%}'}
  PS2=${PS2//$'%{\e]133;A;k=s\a%}'}
  PS2=${PS2//$'%{\e]133;B\a%}'}

  builtin printf '\e]133;C\a'
  (( __zed_semantic_state = 1 ))
}

precmd_functions+=(__zed_semantic_precmd)
preexec_functions+=(__zed_semantic_preexec)
"#;

/// Bash shell integration for OSC 133 semantic zones.
///
/// PROMPT_COMMAND emits A and D, a PS1 suffix emits B, and PS0 (bash 4.4+,
/// else a DEBUG trap) emits C; a sentinel keeps B from accumulating.
pub const BASH_OSC133_HOOKS: &'static str = r#"
if [[ -z "${BASH_VERSION-}" ]] ; then
  return 0 2>/dev/null || true
fi
if [[ $- != *i* ]] ; then
  return 0 2>/dev/null || true
fi
if [[ -n "$__ZED_OSC133_INSTALLED" ]] ; then
  return 0
fi
__ZED_OSC133_INSTALLED=1

__zed_semantic_prompt_command() {
  local ret="$?"
  if [[ -n "$__zed_semantic_executing" ]] ; then
    printf "\033]133;D;%s\007" "$ret"
  fi
  printf "\033]133;A\007"
  # Append B to PS1 only if our sentinel is not already present.
  if [[ "$PS1" != *$'\e]133;B\a'* ]] ; then
    PS1="$PS1"'\[\e]133;B\a\]'
  fi
  __zed_semantic_executing=""
}

# Use PS0 (bash 4.4+) to emit C after user input, before command runs.
if [[ "${BASH_VERSINFO[0]}" -ge 5 ]] || \
   [[ "${BASH_VERSINFO[0]}" -eq 4 && "${BASH_VERSINFO[1]}" -ge 4 ]] ; then
  PS0='\[\e]133;C\a\]'
  __zed_semantic_preexec_via_debug() {
    __zed_semantic_executing=1
  }
  trap '__zed_semantic_preexec_via_debug' DEBUG
else
  trap 'printf "\033]133;C\007"; __zed_semantic_executing=1' DEBUG
fi

PROMPT_COMMAND="__zed_semantic_prompt_command${PROMPT_COMMAND:+;$PROMPT_COMMAND}"
"#;

/// Fish shell integration for OSC 133 semantic zones, on fish's
/// `fish_prompt` and `fish_preexec` events.
pub const FISH_OSC133_HOOKS: &'static str = r#"
if not set -q _ZED_OSC133_INSTALLED
  set -g _ZED_OSC133_INSTALLED 1
  set -g __zed_semantic_state ""
  function __zed_semantic_precmd --on-event fish_prompt
    set -l ret $status
    if test -n "$__zed_semantic_state"
      printf '\e]133;D;%s\a' $ret
    end
    printf '\e]133;A\a'
    set -g __zed_semantic_state "prompt"
  end
  function __zed_semantic_preexec --on-event fish_preexec
    printf '\e]133;C\a'
    set -g __zed_semantic_state "exec"
  end
end
"#;

/// The hook script for a shell name: zsh, bash and fish have one.
pub open spec fn hooks_for(shell_name: Seq<char>) -> Option<&'static str> {
    if shell_name == "zsh"@ {
        Some(ZSH_OSC133_HOOKS)
    } else if shell_name == "bash"@ {
        Some(BASH_OSC133_HOOKS)
    } else if shell_name == "fish"@ {
        Some(FISH_OSC133_HOOKS)
    } else {
        None
    }
}

/// The OSC 133 hook script for the shell named `shell_name`, if there is one.
pub fn hooks_for_shell(shell_name: &str) -> (r: Option<&'static str>)
    ensures
        r == hooks_for(shell_name@),
{
    if str_equals(shell_name, "zsh") {
        Some(ZSH_OSC133_HOOKS)
    } else if str_equals(shell_name, "bash") {
        Some(BASH_OSC133_HOOKS)
    } else if str_equals(shell_name, "fish") {
        Some(FISH_OSC133_HOOKS)
    } else {
        None
    }
}

/// What follows the last `/` of `path` (all of it when there is none).
pub open spec fn last_segment(path: Seq<char>) -> Seq<char>
    decreases path.len(),
{
    if path.len() == 0 {
        path
    } else if path.last() == '/' {
        Seq::empty()
    } else {
        last_segment(path.drop_last()).push(path.last())
    }
}

/// The last `/`-separated segment of a program path, as `rsplit('/')`
/// yields it first.
pub fn basename(path: &str) -> (r: String)
    ensures
        r@ == last_segment(path@),
{
    let chars = chars_of(path);
    let n = chars.len();
    let mut start: usize = 0;
    let mut i: usize = 0;
    while i < n
        invariant
            n == chars@.len(),
            start <= i <= n,
            last_segment(chars@.subrange(0, i as int)) == chars@.subrange(start as int, i as int),
        decreases n - i,
    {
        let ghost prefix = chars@.subrange(0, i + 1);
        assert(prefix.drop_last() =~= chars@.subrange(0, i as int));
        if chars[i] == '/' {
            start = i + 1;
            assert(chars@.subrange(start as int, i + 1) =~= Seq::<char>::empty());
        } else {
            assert(chars@.subrange(start as int, i + 1) =~= chars@.subrange(start as int, i as int).push(
                chars@[i as int],
            ));
        }
        i = i + 1;
    }
    assert(chars@.subrange(0, n as int) =~= chars@);
    crate::text::string_from_chars(chars.as_slice(), start, n)
}

/// The name of the shell that `shell` starts: the last segment of its
/// program, or, for the system shell, of `system_shell` (the `SHELL`
/// variable), or empty when that is unset.
pub fn shell_basename(shell: &Shell, system_shell: Option<&str>) -> (r: String)
    ensures
        r@ == match shell {
            Shell::System => match system_shell {
                Some(s) => last_segment(s@),
                None => Seq::empty(),
            },
            Shell::Program(program) => last_segment(program@),
            Shell::WithArguments { program, .. } => last_segment(program@),
        },
{
    match shell {
        Shell::System => match system_shell {
            Some(s) => basename(s),
            None => String::new(),
        },
        Shell::Program(program) => basename(program.as_str()),
        Shell::WithArguments { program, .. } => basename(program.as_str()),
    }
}

/// How a shell is set up to load its hooks.
#[derive(Debug, Clone, Copy, PartialEq, Eq, Structural)]
pub enum ShellSetup {
    /// Redirect `ZDOTDIR` to a wrapper directory.
    Zsh,
    /// Pass `--rcfile` with a wrapper rc file.
    Bash,
    /// Prepend a vendor directory to `XDG_DATA_DIRS`.
    Fish,
    /// No integration for this shell.
    Unsupported,
}

/// The setup that a shell name calls for.
pub open spec fn setup_for(shell_name: Seq<char>) -> ShellSetup {
    if shell_name == "zsh"@ {
        ShellSetup::Zsh
    } else if shell_name == "bash"@ {
        ShellSetup::Bash
    } else if shell_name == "fish"@ {
        ShellSetup::Fish
    } else {
        ShellSetup::Unsupported
    }
}

/// Chooses the setup for a shell name: zsh, bash and fish each have their
/// own; any other shell gets none.
pub fn setup_kind(shell_name: &str) -> (r: ShellSetup)
    ensures
        r == setup_for(shell_name@),
{
    if str_equals(shell_name, "zsh") {
        ShellSetup::Zsh
    } else if str_equals(shell_name, "bash") {
        ShellSetup::Bash
    } else if str_equals(shell_name, "fish") {
        ShellSetup::Fish
    } else {
        ShellSetup::Unsupported
    }
}

/// The head of the zsh wrapper `.zshenv`, up to the real `ZDOTDIR`.
pub const ZSHENV_HEAD: &'static str = "# Zed shell integration \u{2014} restore real ZDOTDIR then source hooks\nexport ZDOTDIR=\"";

/// The part of the zsh wrapper `.zshenv` between the real `ZDOTDIR` and the hooks.
pub const ZSHENV_MIDDLE: &'static str = "\"\nif [[ -f \"$ZDOTDIR/.zshenv\" ]]; then\n  source \"$ZDOTDIR/.zshenv\"\nfi\n";

/// The head of the bash wrapper rc file, up to the hooks.
pub const BASHRC_HEAD: &'static str = "# Zed shell integration \u{2014} source user's bashrc then hooks\nif [[ -f ~/.bashrc ]]; then\n  source ~/.bashrc\nfi\n";

/// The zsh wrapper `.zshenv`: restore the real `ZDOTDIR`, source the
/// user's `.zshenv`, then the hooks.
pub fn zshenv_content(real_zdotdir: &str, hooks: &str) -> (r: String)
    ensures
        r@ == ZSHENV_HEAD@ + real_zdotdir@ + ZSHENV_MIDDLE@ + hooks@ + seq!['\n'],
{
    let mut out = String::new();
    out.push_str(ZSHENV_HEAD);
    out.push_str(real_zdotdir);
    out.push_str(ZSHENV_MIDDLE);
    out.push_str(hooks);
    out.push('\n');
    out
}

/// The bash wrapper rc file: source `~/.bashrc`, then the hooks.
pub fn bash_rcfile_content(hooks: &str) -> (r: String)
    ensures
        r@ == BASHRC_HEAD@ + hooks@ + seq!['\n'],
{
    let mut out = String::new();
    out.push_str(BASHRC_HEAD);
    out.push_str(hooks);
    out.push('\n');
    out
}

/// The extra bash arguments that load the wrapper rc file at `rcfile`.
pub fn bash_args(rcfile: &str) -> (r: Vec<String>)
    ensures
        r@.len() == 2,
        r@[0]@ == "--rcfile"@,
        r@[1]@ == rcfile@,
{
    let mut args: Vec<String> = Vec::new();
    let mut flag = String::new();
    flag.push_str("--rcfile");
    args.push(flag);
    let mut path = String::new();
    path.push_str(rcfile);
    args.push(path);
    args
}

/// `XDG_DATA_DIRS` with the fish vendor directory in front of the
/// existing value.
pub fn fish_data_dirs(vendor_dir: &str, existing: &str) -> (r: String)
    ensures
        r@ == vendor_dir@ + seq![':'] + existing@,
{
    let mut out = String::new();
    out.push_str(vendor_dir);
    out.push(':');
    out.push_str(existing);
    out
}

/// The `XDG_DATA_DIRS` used when neither the shell's environment nor the
/// process has one.
pub const DEFAULT_XDG_DATA_DIRS: &'static str = "/usr/local/share:/usr/share";

/// A variable's value for the shell being set up: what the shell's own
/// environment sets, else what the process inherited, else the fallback
/// (the home directory for `ZDOTDIR`, `DEFAULT_XDG_DATA_DIRS` for
/// `XDG_DATA_DIRS`).
pub fn inherited_value(shell_env: Option<&str>, process_env: Option<&str>, fallback: &str) -> (r:
    String)
    ensures
        r@ == match shell_env {
            Some(v) => v@,
            None => match process_env {
                Some(v) => v@,
                None => fallback@,
            },
        },
{
    let mut out = String::new();
    match shell_env {
        Some(v) => out.push_str(v),
        None => match process_env {
            Some(v) => out.push_str(v),
            None => out.push_str(fallback),
        },
    }
    out
}

} // verus!
