//! The shell's own state: working directory, host, and user.
//!
//! The state is built once at startup and threaded through the dispatcher by
//! parameter. Discovering the host and user names and changing the process's
//! directory are the dispatcher's business; this module holds the state
//! itself and the prompt text derived from it.

use vstd::prelude::*;

verus! {

/// Process-wide shell state.
#[derive(Debug)]
pub struct State {
    /// The current working directory, as displayable text.
    pub pwd: String,
    /// The name of the machine running the shell.
    pub host: String,
    /// The name of the user that launched the shell.
    pub user: String,
}

impl Default for State {
    /// The state before discovery: every field empty.
    fn default() -> (r: Self)
        ensures
            r.pwd@.len() == 0,
            r.host@.len() == 0,
            r.user@.len() == 0,
    {
        State { pwd: String::new(), host: String::new(), user: String::new() }
    }
}

impl State {
    /// Builds the state from discovered host, user, and directory texts.
    pub fn new(pwd: String, host: String, user: String) -> (r: Self)
        ensures
            r.pwd@ == pwd@,
            r.host@ == host@,
            r.user@ == user@,
    {
        State { pwd, host, user }
    }

    /// Records a new working directory after a successful change of
    /// directory, leaving host and user untouched.
    pub fn set_pwd(&mut self, to: String)
        ensures
            final(self).pwd@ == to@,
            final(self).host@ == old(self).host@,
            final(self).user@ == old(self).user@,
    {
        self.pwd = to;
    }

    /// The prompt shown before each input line: `user@host:pwd % `.
    pub fn prompt(&self) -> (r: String)
        ensures
            r@ == self.user@ + "@"@ + self.host@ + ":"@ + self.pwd@ + " % "@,
    {
        let mut s = String::new();
        s.append(self.user.as_str());
        s.append("@");
        s.append(self.host.as_str());
        s.append(":");
        s.append(self.pwd.as_str());
        s.append(" % ");
        proof {
            assert(s@ =~= self.user@ + "@"@ + self.host@ + ":"@ + self.pwd@ + " % "@);
        }
        s
    }
}

/// The report for a command that is not found: `ysh: command not found: `
/// followed by the command name.
pub fn not_found_report(command: &str) -> (r: String)
    ensures
        r@ == "ysh: command not found: "@ + command@,
{
    let mut s = String::new();
    s.append("ysh: command not found: ");
    s.append(command);
    s
}

} // verus!
