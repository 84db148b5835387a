use vstd::prelude::*;
use crate::text::{text_eq, chars_of, push_str_chars, string_from_chars};

verus! {

/// Supported shell types.
#[derive(Debug, Clone, Copy, PartialEq, Eq, Structural)]
pub enum Shell {
    Zsh,
    Bash,
    Fish,
}

/// The shell named by `name`, if it is one of the supported names.
pub open spec fn shell_named(name: Seq<char>) -> Option<Shell> {
    if name == "zsh"@ {
        Some(Shell::Zsh)
    } else if name == "bash"@ {
        Some(Shell::Bash)
    } else if name == "fish"@ {
        Some(Shell::Fish)
    } else {
        None
    }
}

/// The last component of a path, as `std::path::Path::file_name` gives it.
pub uninterp spec fn path_file_name(path: Seq<char>) -> Option<Seq<char>>;

/// Calls `std::path::Path::file_name` on `path`; the contract claims that the
/// result depends on the path alone. The name of a component of a `&str` is
/// valid UTF-8, so its conversion back to text does not fail.
#[verifier::external_body]
fn file_name_of(path: &str) -> (r: Option<String>)
    ensures
        match r {
            Some(n) => path_file_name(path@) == Some(n@),
            None => path_file_name(path@) is None,
        },
{
    match std::path::Path::new(path).file_name() {
        Some(n) => Some(n.to_string_lossy().into_owned()),
        None => None,
    }
}

/// The shell that `$SHELL` names, from the last component of its path.
pub open spec fn shell_of_path(shell_var: Option<Seq<char>>) -> Option<Shell> {
    match shell_var {
        Some(p) => match path_file_name(p) {
            Some(n) => shell_named(n),
            None => None,
        },
        None => None,
    }
}

impl Shell {
    /// Parse from a string (e.g. from `--shell` CLI arg).
    pub fn from_str(s: &str) -> (res: Option<Shell>)
        ensures
            res == shell_named(s@),
    {
        if text_eq(s, "zsh") {
            Some(Shell::Zsh)
        } else if text_eq(s, "bash") {
            Some(Shell::Bash)
        } else if text_eq(s, "fish") {
            Some(Shell::Fish)
        } else {
            None
        }
    }

    /// Detect the current shell from the value of the `$SHELL` environment
    /// variable (`None` when it is unset or not unicode).
    pub fn detect(shell_var: Option<&str>) -> (res: Option<Shell>)
        ensures
            res == shell_of_path(match shell_var {
                Some(p) => Some(p@),
                None => None,
            }),
    {
        match shell_var {
            Some(p) => match file_name_of(p) {
                Some(n) => Shell::from_str(n.as_str()),
                None => None,
            },
            None => None,
        }
    }
}

/// Integration script for Zsh.
pub const ZSH_SCRIPT: &'static str = r#"# clh — zsh integration
# Source this file in your .zshrc:
#   eval "$(clh setup)"

autoload -Uz add-zsh-hook

# Record every command to clh-server in the background (non-blocking)
_clh_add_history() {
  local last_cmd
  last_cmd=$(fc -ln -1)
  # Skip empty commands and the clh command itself
  [[ -z "$last_cmd" ]] && return
  [[ "$last_cmd" == clh* ]] && return
  # Skip commands prefixed with a space (intentionally hidden from history)
  [[ "$last_cmd" == " "* ]] && return
  clh add --hostname="${HOST:-$(hostname)}" --pwd="$PWD" --command="$last_cmd" &!
}
add-zsh-hook precmd _clh_add_history

# Ctrl+S: fuzzy search filtered to the current directory
_clh_search_pwd_widget() {
  local selected
  selected=$(clh search --pwd="$PWD" 2>/dev/tty)
  local ret=$?
  if [[ $ret -eq 0 && -n "$selected" ]]; then
    LBUFFER="$selected"
  fi
  zle reset-prompt
}
zle -N _clh_search_pwd_widget
bindkey '^S' _clh_search_pwd_widget

# Ctrl+T: fuzzy search across all history
_clh_search_all_widget() {
  local selected
  selected=$(clh search 2>/dev/tty)
  local ret=$?
  if [[ $ret -eq 0 && -n "$selected" ]]; then
    LBUFFER="$selected"
  fi
  zle reset-prompt
}
zle -N _clh_search_all_widget
bindkey '^T' _clh_search_all_widget
"#;

/// Integration script for Bash.
pub const BASH_SCRIPT: &'static str = r#"# clh — bash integration
# Add to your ~/.bashrc:
#   eval "$(clh setup)"

# Ctrl+S is traditionally XOFF — disable it so we can bind it
stty -ixon 2>/dev/null

# Record every command to clh-server in the background (non-blocking)
_clh_add_history() {
  local last_cmd
  last_cmd=$(HISTTIMEFORMAT='' history 1 | sed 's/^ *[0-9]* *//')
  [[ -z "$last_cmd" ]] && return
  [[ "$last_cmd" == clh* ]] && return
  # Skip commands prefixed with a space (intentionally hidden from history)
  [[ "$last_cmd" == " "* ]] && return
  clh add --hostname="${HOSTNAME:-$(hostname)}" --pwd="$PWD" --command="$last_cmd" &
}
PROMPT_COMMAND="_clh_add_history${PROMPT_COMMAND:+;$PROMPT_COMMAND}"

# Ctrl+S: fuzzy search filtered to the current directory
_clh_search_pwd() {
  local selected
  selected=$(clh search --pwd="$PWD" 2>/dev/tty)
  local ret=$?
  if [[ $ret -eq 0 && -n "$selected" ]]; then
    READLINE_LINE="$selected"
    READLINE_POINT=${#selected}
  fi
}
bind -x '"\C-s": _clh_search_pwd'

# Ctrl+T: fuzzy search across all history
_clh_search_all() {
  local selected
  selected=$(clh search 2>/dev/tty)
  local ret=$?
  if [[ $ret -eq 0 && -n "$selected" ]]; then
    READLINE_LINE="$selected"
    READLINE_POINT=${#selected}
  fi
}
bind -x '"\C-t": _clh_search_all'
"#;

/// Integration script for Fish.
pub const FISH_SCRIPT: &'static str = r#"# clh — fish integration
# Add to your ~/.config/fish/config.fish:
#   clh setup | source

# Record every command to clh-server in the background (non-blocking)
function _clh_add_history --on-event fish_postexec
    set last_cmd $argv[1]
    test -z "$last_cmd"; and return
    string match -q 'clh*' -- $last_cmd; and return
    # Skip commands prefixed with a space (intentionally hidden from history)
    string match -q ' *' -- $last_cmd; and return
    clh add --hostname=(hostname) --pwd=(pwd) --command="$last_cmd" &
end

# Ctrl+S: fuzzy search filtered to the current directory
function _clh_search_pwd
    set selected (clh search --pwd=(pwd) 2>/dev/tty)
    if test -n "$selected"
        commandline $selected
    end
    commandline -f repaint
end

# Ctrl+T: fuzzy search across all history
function _clh_search_all
    set selected (clh search 2>/dev/tty)
    if test -n "$selected"
        commandline $selected
    end
    commandline -f repaint
end

bind \cs _clh_search_pwd
bind \ct _clh_search_all
"#;

/// The integration script of `shell`.
pub open spec fn script_of(shell: Shell) -> Seq<char> {
    match shell {
        Shell::Zsh => ZSH_SCRIPT@,
        Shell::Bash => BASH_SCRIPT@,
        Shell::Fish => FISH_SCRIPT@,
    }
}

/// The integration script of `shell`.
pub fn script_for(shell: Shell) -> (s: &'static str)
    ensures
        s@ == script_of(shell),
{
    match shell {
        Shell::Zsh => ZSH_SCRIPT,
        Shell::Bash => BASH_SCRIPT,
        Shell::Fish => FISH_SCRIPT,
    }
}

/// Why no script can be given.
pub enum SetupError {
    /// `--shell` names a shell that is not supported.
    Unsupported { shell: String },
    /// No `--shell`, and `$SHELL` does not name a supported shell.
    Undetected,
}

/// The message of a setup error.
pub open spec fn setup_error_text(e: SetupError) -> Seq<char> {
    match e {
        SetupError::Unsupported { shell } => "Unsupported shell: "@ + shell@
            + ". Supported: zsh, bash, fish"@,
        SetupError::Undetected => "Could not detect shell from $SHELL. Use --shell <zsh|bash|fish> explicitly."@,
    }
}

impl SetupError {
    /// The message shown to the user.
    pub fn message(&self) -> (s: String)
        ensures
            s@ == setup_error_text(*self),
    {
        match self {
            SetupError::Unsupported { shell } => {
                let mut out = chars_of("Unsupported shell: ");
                push_str_chars(&mut out, shell.as_str());
                push_str_chars(&mut out, ". Supported: zsh, bash, fish");
                string_from_chars(&out)
            },
            SetupError::Undetected => {
                "Could not detect shell from $SHELL. Use --shell <zsh|bash|fish> explicitly.".to_owned()
            },
        }
    }
}

/// The shell that setup is for: the one `--shell` names when given, else the
/// one `$SHELL` names.
pub open spec fn resolve_shell(shell: Option<Seq<char>>, shell_var: Option<Seq<char>>) -> Result<
    Shell,
    Seq<char>,
> {
    match shell {
        Some(s) => match shell_named(s) {
            Some(sh) => Ok(sh),
            None => Err("Unsupported shell: "@ + s + ". Supported: zsh, bash, fish"@),
        },
        None => match shell_of_path(shell_var) {
            Some(sh) => Ok(sh),
            None => Err("Could not detect shell from $SHELL. Use --shell <zsh|bash|fish> explicitly."@),
        },
    }
}

/// The script is for the shell that `--shell` names when given, and otherwise
/// for the shell named by the last component of `$SHELL`; it is refused
/// exactly when the shell so named is not supported.
pub proof fn lemma_setup_follows_named_shell(shell: Option<Seq<char>>, shell_var: Option<Seq<char>>)
    ensures
        shell matches Some(s) ==> (match shell_named(s) {
            Some(sh) => resolve_shell(shell, shell_var) == Ok::<Shell, Seq<char>>(sh),
            None => resolve_shell(shell, shell_var) is Err,
        }),
        shell is None ==> (match shell_var {
            Some(p) => match path_file_name(p) {
                Some(n) => match shell_named(n) {
                    Some(sh) => resolve_shell(shell, shell_var) == Ok::<Shell, Seq<char>>(sh),
                    None => resolve_shell(shell, shell_var) is Err,
                },
                None => resolve_shell(shell, shell_var) is Err,
            },
            None => resolve_shell(shell, shell_var) is Err,
        }),
{
}

/// The integration script to print for `clh setup [--shell SHELL]`, where
/// `shell_var` is the value of `$SHELL`.
pub fn setup_script(shell: Option<&str>, shell_var: Option<&str>) -> (res: Result<&'static str, SetupError>)
    ensures
        match resolve_shell(
            match shell {
                Some(s) => Some(s@),
                None => None,
            },
            match shell_var {
                Some(p) => Some(p@),
                None => None,
            },
        ) {
            Ok(sh) => res matches Ok(s) && s@ == script_of(sh),
            Err(msg) => res matches Err(e) && setup_error_text(e) == msg,
        },
{
    let resolved = match shell {
        Some(s) => match Shell::from_str(s) {
            Some(sh) => sh,
            None => {
                return Err(SetupError::Unsupported { shell: s.to_owned() });
            },
        },
        None => match Shell::detect(shell_var) {
            Some(sh) => sh,
            None => {
                return Err(SetupError::Undetected);
            },
        },
    };
    Ok(script_for(resolved))
}

} // verus!
