//! A policy-aware DNS resolver core: a domain pattern trie, a fake-IP
//! allocator, an answer cache, and the routing rules that pick the upstream
//! pool for each question. The network legs are left to the caller, which
//! carries out the plans this library hands back.

use vstd::prelude::*;

pub mod cache;
pub mod fakeip;
pub mod message;
pub mod resolver;
pub mod trie;

use crate::resolver::DnsConfig;

verus! {

#[verifier::external_type_specification]
#[verifier::external_body]
#[verifier::reject_recursive_types(T)]
pub struct ExSender<T>(tokio::sync::mpsc::Sender<T>);

/// The runtime a process is started on.
#[derive(Debug, Clone, Copy, PartialEq, Eq, Structural)]
pub enum TokioRuntime {
    MultiThread,
    SingleThread,
}

/// Where the configuration comes from.
pub enum Config {
    /// A configuration already read, as far as the resolver uses it.
    Internal(DnsConfig),
    /// The path of a configuration file.
    File(String),
    /// The text of a configuration.
    Str(String),
}

/// How a process is started.
pub struct Options {
    pub config: Config,
    pub cwd: Option<String>,
    pub rt: Option<TokioRuntime>,
    pub log_file: Option<String>,
}

impl Options {
    /// The runtime to start: the one asked for, else the multi-threaded one.
    pub fn runtime(&self) -> (r: TokioRuntime)
        ensures
            r == match self.rt {
                Some(k) => k,
                None => TokioRuntime::MultiThread,
            },
    {
        match self.rt {
            Some(k) => k,
            None => TokioRuntime::MultiThread,
        }
    }
}

/// The handle through which a running process is asked to stop.
pub struct RuntimeController {
    pub shutdown_tx: tokio::sync::mpsc::Sender<()>,
}

/// Relies on `tokio::sync::mpsc::Sender::try_send`: true when the signal was
/// queued, false when the channel is full or closed.
#[verifier::external_body]
fn send_signal(tx: &tokio::sync::mpsc::Sender<()>) -> (r: bool) {
    tx.try_send(()).is_ok()
}

/// Asks the process run under `ctl` to stop; true when the request was
/// handed over.
pub fn shutdown(ctl: &RuntimeController) -> (r: bool) {
    send_signal(&ctl.shutdown_tx)
}

} // verus!
