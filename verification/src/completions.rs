//! How to set up shell completion.

use crate::text::lines_view;
use vstd::prelude::*;
use vstd::string::*;

verus! {

/// A shell for which completion can be set up.
#[derive(Clone, Copy, Debug, PartialEq, Eq, Structural)]
pub enum ShellType {
    Bash,
    Powershell,
    Zsh,
    Fish,
}

/// The instructions for one shell: where to put the set-up, and the
/// commands to put there.
pub open spec fn instructions(shell: ShellType) -> Seq<Seq<char>> {
    match shell {
        ShellType::Bash => seq![
            "# Add this to your ~/.bashrc:"@,
            "source <(COMPLETE=bash bn-loader)"@,
        ],
        ShellType::Zsh => seq![
            "# Add this to your ~/.zshrc:"@,
            "source <(COMPLETE=zsh bn-loader)"@,
        ],
        ShellType::Fish => seq![
            "# Add this to ~/.config/fish/config.fish:"@,
            "COMPLETE=fish bn-loader | source"@,
        ],
        ShellType::Powershell => seq![
            "# Add this to your $PROFILE:"@,
            "$env:COMPLETE = 'powershell'"@,
            "bn-loader | Out-String | Invoke-Expression"@,
            "Remove-Item Env:COMPLETE"@,
        ],
    }
}

/// The instructions for one shell, line by line.
pub fn print_instructions(shell: ShellType) -> (r: Vec<String>)
    ensures
        lines_view(r@) == instructions(shell),
{
    let mut r: Vec<String> = Vec::new();
    match shell {
        ShellType::Bash => {
            r.push(String::from_str("# Add this to your ~/.bashrc:"));
            r.push(String::from_str("source <(COMPLETE=bash bn-loader)"));
        },
        ShellType::Zsh => {
            r.push(String::from_str("# Add this to your ~/.zshrc:"));
            r.push(String::from_str("source <(COMPLETE=zsh bn-loader)"));
        },
        ShellType::Fish => {
            r.push(String::from_str("# Add this to ~/.config/fish/config.fish:"));
            r.push(String::from_str("COMPLETE=fish bn-loader | source"));
        },
        ShellType::Powershell => {
            r.push(String::from_str("# Add this to your $PROFILE:"));
            r.push(String::from_str("$env:COMPLETE = 'powershell'"));
            r.push(String::from_str("bn-loader | Out-String | Invoke-Expression"));
            r.push(String::from_str("Remove-Item Env:COMPLETE"));
        },
    }
    assert(lines_view(r@) =~= instructions(shell));
    r
}

} // verus!
