use vstd::prelude::*;
use vstd::string::StringExecFns;

use crate::agent::LaunchAgent;
use crate::agent::path_view;
use crate::text::contains_seq;
use crate::text::contains_str;
use crate::text::dec_view;
use crate::text::u32_dec;

verus! {

/// A `launchctl` subcommand line against the user's GUI session domain:
/// empty for an empty subcommand, otherwise the subcommand followed by
/// `gui/<uid>` and the single-quoted path.
pub open spec fn command_view(command: Seq<char>, uid: nat, path: Seq<char>) -> Seq<char> {
    if command.len() == 0 {
        Seq::<char>::empty()
    } else {
        "launchctl "@ + command + " gui/"@ + dec_view(uid) + " '"@ + path + "'"@
    }
}

/// The `launchctl` status-query line for a label in the user's GUI
/// session domain.
pub open spec fn print_command_view(uid: nat, label: Seq<char>) -> Seq<char> {
    "launchctl print gui/"@ + dec_view(uid) + "/"@ + label
}

impl LaunchAgent {
    /// Format a `launchctl` command against this agent's descriptor file
    /// in the GUI session domain of the user with the given effective
    /// user id and home directory. An empty subcommand yields an empty
    /// string. The path is single-quoted verbatim: embedded quotes are
    /// not escaped.
    pub fn format_command(&self, command: &str, uid: u32, home: &str) -> (r: String)
        ensures
            r@ == command_view(command@, uid as nat, path_view(home@, self@.label)),
    {
        if command.is_empty() {
            return String::new();
        }
        let mut r = String::from_str("launchctl ");
        r.append(command);
        r.append(" gui/");
        let u = u32_dec(uid);
        r.append(u.as_str());
        r.append(" '");
        let p = self.path(home);
        r.append(p.as_str());
        r.append("'");
        r
    }

    /// The command that registers this agent's descriptor file with the
    /// service manager.
    pub fn format_bootstrap_command(&self, uid: u32, home: &str) -> (r: String)
        ensures
            r@ == command_view("bootstrap"@, uid as nat, path_view(home@, self@.label)),
    {
        self.format_command("bootstrap", uid, home)
    }

    /// The command that unregisters this agent from the service manager.
    pub fn format_boot_out_command(&self, uid: u32, home: &str) -> (r: String)
        ensures
            r@ == command_view("bootout"@, uid as nat, path_view(home@, self@.label)),
    {
        self.format_command("bootout", uid, home)
    }

    /// The command that queries the service manager for this agent's
    /// status.
    pub fn format_print_command(&self, uid: u32) -> (r: String)
        ensures
            r@ == print_command_view(uid as nat, self@.label),
    {
        let mut r = String::from_str("launchctl print gui/");
        let u = u32_dec(uid);
        r.append(u.as_str());
        r.append("/");
        r.append(self.label.as_str());
        r
    }

    /// Whether status-query output reports the job as running: a single
    /// substring test for the literal `state = running`. Any other
    /// reported state, or output for an absent job, classifies as not
    /// running.
    pub fn check_is_running(output: &str) -> (r: bool)
        ensures
            r == contains_seq(output@, "state = running"@),
    {
        contains_str(output, "state = running")
    }
}

} // verus!
