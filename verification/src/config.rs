//! A node's configuration, and loading its file: what to do after each attempt to read it.
use crate::keys::NodeState;
use vstd::prelude::*;
use vstd::string::StringExecFns;

verus! {

/// The control server used when the configuration names none.
pub const DEFAULT_CONTROL_SERVER: &'static str = "https://controlplane.tailscale.com/";

/// The host name of the machine, from `gethostname::gethostname`, if it is valid Unicode.
/// It depends on the machine, so nothing is promised of it.
#[verifier::external_body]
fn system_hostname() -> (r: Option<String>) {
    gethostname::gethostname().into_string().ok()
}

/// A node's configuration.
#[derive(Clone)]
pub struct Config {
    /// The key state for this node.
    pub key_state: NodeState,
    /// The control server to use.
    pub control_server_url: Option<String>,
    /// Override for this node's hostname.
    pub hostname: Option<String>,
}

/// What the control client is configured with.
pub struct ControlConfig {
    /// The control server to talk to.
    pub server_url: String,
    /// The hostname to announce, if any.
    pub hostname: Option<String>,
}

/// The views of an optional string.
pub open spec fn opt_view(s: Option<String>) -> Option<Seq<char>> {
    match s {
        Some(t) => Some(t@),
        None => None,
    }
}

fn clone_opt(s: &Option<String>) -> (r: Option<String>)
    ensures
        opt_view(r) == opt_view(*s),
{
    match s {
        Some(t) => Some(t.clone()),
        None => None,
    }
}

impl Default for Config {
    /// A configuration with fresh random keys and neither a control server nor a hostname set.
    fn default() -> (r: Config)
        ensures
            r.key_state.wf(),
            r.control_server_url is None,
            r.hostname is None,
    {
        Config { key_state: NodeState::generate(), control_server_url: None, hostname: None }
    }
}

impl Config {
    /// The control configuration, given the machine's hostname: the configured server, else
    /// the default one; the configured hostname, else the machine's.
    pub fn control_config_with(&self, system_hostname: Option<String>) -> (r: ControlConfig)
        ensures
            r.server_url@ == match self.control_server_url {
                Some(u) => u@,
                None => DEFAULT_CONTROL_SERVER@,
            },
            opt_view(r.hostname) == match self.hostname {
                Some(h) => Some(h@),
                None => opt_view(system_hostname),
            },
    {
        let server_url = match &self.control_server_url {
            Some(u) => u.clone(),
            None => String::from_str(DEFAULT_CONTROL_SERVER),
        };
        let hostname = match &self.hostname {
            Some(h) => Some(h.clone()),
            None => system_hostname,
        };
        ControlConfig { server_url, hostname }
    }

    /// Convert this configuration to a control configuration; without a configured hostname,
    /// the machine's is used.
    pub fn control_config(&self) -> (r: ControlConfig)
        ensures
            r.server_url@ == match self.control_server_url {
                Some(u) => u@,
                None => DEFAULT_CONTROL_SERVER@,
            },
            self.hostname is Some ==> opt_view(r.hostname) == opt_view(self.hostname),
    {
        let system = match &self.hostname {
            Some(_) => None,
            None => system_hostname(),
        };
        self.control_config_with(system)
    }
}

/// What an attempt to read and parse the configuration file gave.
pub enum ReadOutcome<C, E> {
    /// There is no file at the path.
    NotFound,
    /// Reading the file failed for another reason.
    Failed(E),
    /// The file was read but does not hold a valid configuration.
    Invalid,
    /// The file holds this configuration.
    Parsed(C),
}

/// What loading does next.
pub enum LoadAction<C, E> {
    /// Save the default configuration at the path (creating its directories), then read again.
    SaveDefaultAndRetry,
    /// Give up with this error.
    Fail(E),
    /// Loading is done: this is the configuration.
    Done(C),
}

/// The next step of loading a configuration: a missing or unreadable file is replaced by the
/// default configuration and read again; any other read error ends loading with that error;
/// a valid configuration ends it with that configuration.
pub fn next_load_action<C, E>(outcome: ReadOutcome<C, E>) -> (r: LoadAction<C, E>)
    ensures
        match outcome {
            ReadOutcome::NotFound => r is SaveDefaultAndRetry,
            ReadOutcome::Invalid => r is SaveDefaultAndRetry,
            ReadOutcome::Failed(e) => r == LoadAction::<C, E>::Fail(e),
            ReadOutcome::Parsed(c) => r == LoadAction::<C, E>::Done(c),
        },
{
    match outcome {
        ReadOutcome::NotFound => LoadAction::SaveDefaultAndRetry,
        ReadOutcome::Failed(e) => LoadAction::Fail(e),
        ReadOutcome::Invalid => LoadAction::SaveDefaultAndRetry,
        ReadOutcome::Parsed(c) => LoadAction::Done(c),
    }
}

} // verus!
