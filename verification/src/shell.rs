//! The setup a user adds to a shell's startup file: the manager's command
//! completion for that shell (generated from the command-line definition by
//! the program) followed by the line, built here, that lets the shell find
//! the binaries the manager links.

use vstd::prelude::*;
use vstd::string::StringExecFns;

verus! {

/// A shell the manager writes setup lines for.
#[derive(Clone, Copy, Debug, PartialEq, Eq)]
pub enum Shell {
    Bash,
    Zsh,
    Fish,
    Nu,
}

/// The text of the setup line for `shell`, putting `bin` first on the
/// search path.
pub open spec fn setup_line(shell: Shell, bin: Seq<char>) -> Seq<char> {
    match shell {
        Shell::Bash | Shell::Zsh => "export PATH=\u{22}"@ + bin + ":$PATH\u{22}"@,
        Shell::Fish => "fish_add_path \u{22}"@ + bin + "\u{22}"@,
        Shell::Nu => "$env.PATH = \u{28}$env.PATH | split-row \u{28}char esep\u{29} | prepend \u{27}"@ + bin
            + "\u{27} | uniq\u{29}"@,
    }
}

/// The line that, run by `shell`, puts the directory `bin_path` first on
/// the search path; `init` prints it after the shell's completion script.
pub fn path_setup_line(shell: Shell, bin_path: &str) -> (res: String)
    ensures
        res@ == setup_line(shell, bin_path@),
{
    match shell {
        Shell::Bash | Shell::Zsh => {
            let mut line = "export PATH=\u{22}".to_owned();
            line.append(bin_path);
            line.append(":$PATH\u{22}");
            line
        },
        Shell::Fish => {
            let mut line = "fish_add_path \u{22}".to_owned();
            line.append(bin_path);
            line.append("\u{22}");
            line
        },
        Shell::Nu => {
            let mut line = "$env.PATH = \u{28}$env.PATH | split-row \u{28}char esep\u{29} | prepend \u{27}".to_owned();
            line.append(bin_path);
            line.append("\u{27} | uniq\u{29}");
            line
        },
    }
}

} // verus!
