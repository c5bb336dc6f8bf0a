//! The command errors that the workspace commands report, with their messages.
use vstd::prelude::*;
use crate::hermes::{message_of, HermesError};

verus! {

/// A command error: the command stops and exits with status 2.
pub enum CommandError {
    /// `--repo` names neither the context checkout nor a manifest repository.
    UnknownRepository(String),
    /// `$HOME` is unset or blank.
    HomeNotSet,
    /// The manifest declares no `agent.hermes.shared_skills`.
    NoSharedSkills,
    /// The declared shared skills directory is not there.
    SharedSkillsMissing(String),
    /// The Hermes configuration file does not exist.
    ConfigNotFound(String),
    /// The Hermes configuration file exists but could not be read.
    ConfigUnreadable(String, String),
    /// The editor refused to touch the configuration file at the given path.
    Refused(String, HermesError),
}

/// The message a command error is reported with.
pub open spec fn command_message(e: CommandError) -> Seq<char> {
    match e {
        CommandError::UnknownRepository(name) => "unknown repository: "@ + name@,
        CommandError::HomeNotSet => "cannot locate the hermes configuration: $HOME is not set"@,
        CommandError::NoSharedSkills => "manifest declares no agent.hermes.shared_skills; nothing to configure"@,
        CommandError::SharedSkillsMissing(dir) => "shared skills directory missing: "@ + dir@,
        CommandError::ConfigNotFound(path) => "hermes configuration not found: "@ + path@
            + " (run hermes once to create it)"@,
        CommandError::ConfigUnreadable(path, reason) => "cannot read "@ + path@ + ": "@ + reason@,
        CommandError::Refused(path, refusal) => path@ + ": "@ + message_of(refusal),
    }
}

impl CommandError {
    /// The message this error is reported with.
    pub fn message(&self) -> (r: String)
        ensures
            r@ == command_message(*self),
    {
        let mut r = String::new();
        match self {
            CommandError::UnknownRepository(name) => {
                r.append("unknown repository: ");
                r.append(name.as_str());
            },
            CommandError::HomeNotSet => r.append(
                "cannot locate the hermes configuration: $HOME is not set",
            ),
            CommandError::NoSharedSkills => r.append(
                "manifest declares no agent.hermes.shared_skills; nothing to configure",
            ),
            CommandError::SharedSkillsMissing(dir) => {
                r.append("shared skills directory missing: ");
                r.append(dir.as_str());
            },
            CommandError::ConfigNotFound(path) => {
                r.append("hermes configuration not found: ");
                r.append(path.as_str());
                r.append(" (run hermes once to create it)");
            },
            CommandError::ConfigUnreadable(path, reason) => {
                r.append("cannot read ");
                r.append(path.as_str());
                r.append(": ");
                r.append(reason.as_str());
            },
            CommandError::Refused(path, refusal) => {
                r.append(path.as_str());
                r.append(": ");
                let m = refusal.message();
                r.append(m.as_str());
            },
        }
        r
    }
}

} // verus!
