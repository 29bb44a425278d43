use vstd::prelude::*;
use vstd::string::StrSliceExecFns;
use vstd::string::StringExecFns;

use crate::text::contains_at;
use crate::text::match_at;

verus! {

/// Resource-scheduling hint for a launch agent, written into the
/// descriptor file as a lowercase token under the `ProcessType` key.
#[derive(Clone, Copy, Debug, PartialEq, Eq, Structural)]
pub enum ProcessType {
    /// Background jobs do work not directly requested by the user and run
    /// under resource limits meant to keep them from disrupting the user
    /// experience.
    Background,
    /// Standard jobs are equivalent to no scheduling class being set.
    Standard,
    /// Adaptive jobs move between Background and Interactive based on
    /// activity over XPC connections.
    Adaptive,
    /// Interactive jobs run with the same (absent) resource limits as
    /// apps; reserved for jobs a responsive user experience depends on.
    Interactive,
}

/// The lowercase token a scheduling class is written as.
pub open spec fn token_view(t: ProcessType) -> Seq<char> {
    match t {
        ProcessType::Background => "background"@,
        ProcessType::Standard => "standard"@,
        ProcessType::Adaptive => "adaptive"@,
        ProcessType::Interactive => "interactive"@,
    }
}

impl ProcessType {
    /// The lowercase token this class is serialized as.
    pub fn token(&self) -> (r: &'static str)
        ensures
            r@ == token_view(*self),
    {
        match self {
            ProcessType::Background => "background",
            ProcessType::Standard => "standard",
            ProcessType::Adaptive => "adaptive",
            ProcessType::Interactive => "interactive",
        }
    }
}

impl ProcessType {
    /// The scheduling class for a lowercase token. Exactly the four
    /// recognized tokens parse; any other string is refused, never
    /// mapped to a default.
    pub fn from_token(s: &str) -> (r: Option<ProcessType>)
        ensures
            r matches Some(t) ==> s@ == token_view(t),
            r is None ==> forall|t: ProcessType| s@ != token_view(t),
    {
        let n = s.unicode_len();
        proof {
            assert(s@.subrange(0, n as int) =~= s@);
        }
        if n == "background".unicode_len() && match_at(s, n, 0, "background") {
            Some(ProcessType::Background)
        } else if n == "standard".unicode_len() && match_at(s, n, 0, "standard") {
            Some(ProcessType::Standard)
        } else if n == "adaptive".unicode_len() && match_at(s, n, 0, "adaptive") {
            Some(ProcessType::Adaptive)
        } else if n == "interactive".unicode_len() && match_at(s, n, 0, "interactive") {
            Some(ProcessType::Interactive)
        } else {
            proof {
                assert forall|t: ProcessType| s@ != token_view(t) by {
                    if s@ == token_view(t) {
                        assert(contains_at(s@, token_view(t), 0)) by {
                            assert(s@.subrange(0, token_view(t).len() as int) =~= token_view(t));
                        }
                        assert(false);
                    }
                }
            }
            None
        }
    }
}

impl Default for ProcessType {
    /// The documented default scheduling class.
    fn default() -> (r: Self)
        ensures
            r == ProcessType::Standard,
    {
        ProcessType::Standard
    }
}

/// Launch Agent configuration.
///
/// A Launch Agent is a macOS mechanism for automatically starting
/// user-level processes at login or in response to specific events.
/// Launch Agents are described by plist files placed in the per-user
/// `~/Library/LaunchAgents` directory and are managed with `launchctl`.
///
/// The standard output and error paths are held as plain strings and
/// default to the null device.
#[derive(Debug, Clone)]
pub struct LaunchAgent {
    pub label: String,
    pub program_arguments: Vec<String>,
    pub standard_out_path: String,
    pub standard_error_path: String,
    pub keep_alive: bool,
    pub run_at_load: bool,
    pub process_type: ProcessType,
}

/// The mathematical value of a [`LaunchAgent`]: every string field as a
/// sequence of characters.
#[verifier::ext_equal]
pub ghost struct AgentView {
    pub label: Seq<char>,
    pub program_arguments: Seq<Seq<char>>,
    pub standard_out_path: Seq<char>,
    pub standard_error_path: Seq<char>,
    pub keep_alive: bool,
    pub run_at_load: bool,
    pub process_type: ProcessType,
}

impl View for LaunchAgent {
    type V = AgentView;

    open spec fn view(&self) -> AgentView {
        AgentView {
            label: self.label@,
            program_arguments: self.program_arguments.deep_view(),
            standard_out_path: self.standard_out_path@,
            standard_error_path: self.standard_error_path@,
            keep_alive: self.keep_alive,
            run_at_load: self.run_at_load,
            process_type: self.process_type,
        }
    }
}

/// The canonical descriptor file location for a label: the
/// `LaunchAgents` directory under the given home directory, with the
/// label as the file name stem.
pub open spec fn path_view(home: Seq<char>, label: Seq<char>) -> Seq<char> {
    home + "/Library/LaunchAgents/"@ + label + ".plist"@
}

impl LaunchAgent {
    /// Create a new Launch Agent configuration with the given label and
    /// every other field at its documented default.
    pub fn new(label: &str) -> (r: Self)
        ensures
            r@.label == label@,
            r@.program_arguments == Seq::<Seq<char>>::empty(),
            r@.standard_out_path == "/dev/null"@,
            r@.standard_error_path == "/dev/null"@,
            r@.keep_alive == false,
            r@.run_at_load == false,
            r@.process_type == ProcessType::Standard,
    {
        let r = LaunchAgent {
            label: label.to_owned(),
            program_arguments: Vec::new(),
            standard_out_path: "/dev/null".to_owned(),
            standard_error_path: "/dev/null".to_owned(),
            keep_alive: false,
            run_at_load: false,
            process_type: ProcessType::Standard,
        };
        proof {
            assert(r.program_arguments.deep_view() =~= Seq::<Seq<char>>::empty());
        }
        r
    }

    /// The path of the descriptor file for the given label under the
    /// given home directory. The label is not sanitized: path-hostile
    /// characters pass through verbatim.
    pub fn path_for(label: &str, home: &str) -> (r: String)
        ensures
            r@ == path_view(home@, label@),
    {
        let mut r = home.to_owned();
        r.append("/Library/LaunchAgents/");
        r.append(label);
        r.append(".plist");
        r
    }

    /// The path of this agent's descriptor file under the given home
    /// directory.
    pub fn path(&self, home: &str) -> (r: String)
        ensures
            r@ == path_view(home@, self@.label),
    {
        Self::path_for(self.label.as_str(), home)
    }
}

/// Error reported when an incrementally built descriptor is finalized
/// with a required field missing.
#[derive(Clone, Copy, Debug, PartialEq, Eq, Structural)]
pub enum BuilderError {
    /// The required `label` field was never supplied.
    MissingRequiredField,
}

/// Incremental builder for [`LaunchAgent`].
///
/// Accumulates fields one at a time; the label is required, every other
/// field falls back to its documented default at finalization.
pub struct LaunchAgentBuilder {
    pub label: Option<String>,
    pub program_arguments: Vec<String>,
    pub standard_out_path: Option<String>,
    pub standard_error_path: Option<String>,
    pub keep_alive: Option<bool>,
    pub run_at_load: Option<bool>,
    pub process_type: Option<ProcessType>,
}

impl LaunchAgentBuilder {
    /// What finalization will produce: `None` while the required label is
    /// missing, otherwise the finished descriptor's value with defaults
    /// filled in.
    pub open spec fn built_view(&self) -> Option<AgentView> {
        match self.label {
            None => None,
            Some(l) => Some(
                AgentView {
                    label: l@,
                    program_arguments: self.program_arguments.deep_view(),
                    standard_out_path: match self.standard_out_path {
                        Some(p) => p@,
                        None => "/dev/null"@,
                    },
                    standard_error_path: match self.standard_error_path {
                        Some(p) => p@,
                        None => "/dev/null"@,
                    },
                    keep_alive: match self.keep_alive {
                        Some(b) => b,
                        None => false,
                    },
                    run_at_load: match self.run_at_load {
                        Some(b) => b,
                        None => false,
                    },
                    process_type: match self.process_type {
                        Some(t) => t,
                        None => ProcessType::Standard,
                    },
                },
            ),
        }
    }

    /// A fresh builder with no field supplied.
    pub fn new() -> (r: Self)
        ensures
            r.label is None,
            r.program_arguments.deep_view() == Seq::<Seq<char>>::empty(),
            r.standard_out_path is None,
            r.standard_error_path is None,
            r.keep_alive is None,
            r.run_at_load is None,
            r.process_type is None,
            r.built_view() is None,
    {
        let r = LaunchAgentBuilder {
            label: None,
            program_arguments: Vec::new(),
            standard_out_path: None,
            standard_error_path: None,
            keep_alive: None,
            run_at_load: None,
            process_type: None,
        };
        proof {
            assert(r.program_arguments.deep_view() =~= Seq::<Seq<char>>::empty());
        }
        r
    }

    /// Supply the required label. Every other field is kept.
    pub fn label(self, value: &str) -> (r: Self)
        ensures
            r.label matches Some(l) && l@ == value@,
            r.program_arguments == self.program_arguments,
            r.standard_out_path == self.standard_out_path,
            r.standard_error_path == self.standard_error_path,
            r.keep_alive == self.keep_alive,
            r.run_at_load == self.run_at_load,
            r.process_type == self.process_type,
    {
        LaunchAgentBuilder { label: Some(value.to_owned()), ..self }
    }

    /// Append one command-line argument. Every other field is kept.
    pub fn arg(self, value: &str) -> (r: Self)
        ensures
            r.label == self.label,
            r.program_arguments.deep_view() == self.program_arguments.deep_view().push(value@),
            r.standard_out_path == self.standard_out_path,
            r.standard_error_path == self.standard_error_path,
            r.keep_alive == self.keep_alive,
            r.run_at_load == self.run_at_load,
            r.process_type == self.process_type,
    {
        let ghost old_args = self.program_arguments.deep_view();
        let mut r = self;
        r.program_arguments.push(value.to_owned());
        proof {
            assert(r.program_arguments.deep_view() =~= old_args.push(value@));
        }
        r
    }

    /// Replace the whole argument list. Every other field is kept.
    pub fn program_arguments(self, value: Vec<String>) -> (r: Self)
        ensures
            r.label == self.label,
            r.program_arguments == value,
            r.standard_out_path == self.standard_out_path,
            r.standard_error_path == self.standard_error_path,
            r.keep_alive == self.keep_alive,
            r.run_at_load == self.run_at_load,
            r.process_type == self.process_type,
    {
        LaunchAgentBuilder { program_arguments: value, ..self }
    }

    /// Set the standard output path. Every other field is kept.
    pub fn standard_out_path(self, value: &str) -> (r: Self)
        ensures
            r.label == self.label,
            r.program_arguments == self.program_arguments,
            r.standard_out_path matches Some(p) && p@ == value@,
            r.standard_error_path == self.standard_error_path,
            r.keep_alive == self.keep_alive,
            r.run_at_load == self.run_at_load,
            r.process_type == self.process_type,
    {
        LaunchAgentBuilder { standard_out_path: Some(value.to_owned()), ..self }
    }

    /// Set the standard error path. Every other field is kept.
    pub fn standard_error_path(self, value: &str) -> (r: Self)
        ensures
            r.label == self.label,
            r.program_arguments == self.program_arguments,
            r.standard_out_path == self.standard_out_path,
            r.standard_error_path matches Some(p) && p@ == value@,
            r.keep_alive == self.keep_alive,
            r.run_at_load == self.run_at_load,
            r.process_type == self.process_type,
    {
        LaunchAgentBuilder { standard_error_path: Some(value.to_owned()), ..self }
    }

    /// Set the restart-on-exit flag. Every other field is kept.
    pub fn keep_alive(self, value: bool) -> (r: Self)
        ensures
            r.label == self.label,
            r.program_arguments == self.program_arguments,
            r.standard_out_path == self.standard_out_path,
            r.standard_error_path == self.standard_error_path,
            r.keep_alive == Some(value),
            r.run_at_load == self.run_at_load,
            r.process_type == self.process_type,
    {
        LaunchAgentBuilder { keep_alive: Some(value), ..self }
    }

    /// Set the start-at-registration flag. Every other field is kept.
    pub fn run_at_load(self, value: bool) -> (r: Self)
        ensures
            r.label == self.label,
            r.program_arguments == self.program_arguments,
            r.standard_out_path == self.standard_out_path,
            r.standard_error_path == self.standard_error_path,
            r.keep_alive == self.keep_alive,
            r.run_at_load == Some(value),
            r.process_type == self.process_type,
    {
        LaunchAgentBuilder { run_at_load: Some(value), ..self }
    }

    /// Set the scheduling class. Every other field is kept.
    pub fn process_type(self, value: ProcessType) -> (r: Self)
        ensures
            r.label == self.label,
            r.program_arguments == self.program_arguments,
            r.standard_out_path == self.standard_out_path,
            r.standard_error_path == self.standard_error_path,
            r.keep_alive == self.keep_alive,
            r.run_at_load == self.run_at_load,
            r.process_type == Some(value),
    {
        LaunchAgentBuilder { process_type: Some(value), ..self }
    }

    /// Finalize the builder. Succeeds exactly when a label was supplied;
    /// otherwise reports the missing required field.
    pub fn build(self) -> (r: Result<LaunchAgent, BuilderError>)
        ensures
            r is Ok <==> self.built_view() is Some,
            r matches Ok(a) ==> Some(a@) == self.built_view(),
            r matches Err(e) ==> e == BuilderError::MissingRequiredField,
    {
        match self.label {
            None => Err(BuilderError::MissingRequiredField),
            Some(label) => {
                let standard_out_path = match self.standard_out_path {
                    Some(p) => p,
                    None => "/dev/null".to_owned(),
                };
                let standard_error_path = match self.standard_error_path {
                    Some(p) => p,
                    None => "/dev/null".to_owned(),
                };
                let keep_alive = match self.keep_alive {
                    Some(b) => b,
                    None => false,
                };
                let run_at_load = match self.run_at_load {
                    Some(b) => b,
                    None => false,
                };
                let process_type = match self.process_type {
                    Some(t) => t,
                    None => ProcessType::Standard,
                };
                Ok(
                    LaunchAgent {
                        label,
                        program_arguments: self.program_arguments,
                        standard_out_path,
                        standard_error_path,
                        keep_alive,
                        run_at_load,
                        process_type,
                    },
                )
            },
        }
    }
}

impl Default for LaunchAgentBuilder {
    /// Same as [`LaunchAgentBuilder::new`].
    fn default() -> (r: Self)
        ensures
            r.label is None,
            r.program_arguments.deep_view() == Seq::<Seq<char>>::empty(),
            r.standard_out_path is None,
            r.standard_error_path is None,
            r.keep_alive is None,
            r.run_at_load is None,
            r.process_type is None,
            r.built_view() is None,
    {
        LaunchAgentBuilder::new()
    }
}

} // verus!

