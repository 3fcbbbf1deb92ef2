//! The control client's side of the protocol: the parsed command line, the
//! client handle, and the decisions the client makes around its requests.

use vstd::prelude::*;
use crate::ipc::{DaemonRequest, DaemonResponse};

verus! {

/// The parsed command line of the control client.
pub struct Cli {
    pub command: Commands,
}

/// Subcommands of the control client.
pub enum Commands {
    /// Query daemon health and counters.
    Status,
    /// Fetch the most recent anomalies.
    Anomalies { tail: usize },
    /// Ask for an analysis of one anomaly; without an id, the most recent
    /// anomaly is looked up first.
    Investigate { id: Option<String> },
}

/// A client handle pointing at the daemon's control socket.
pub struct DaemonClient {
    pub socket_path: String,
}

impl DaemonClient {
    /// A client for the daemon listening at `socket_path`.
    pub fn new(socket_path: &str) -> (c: DaemonClient)
        ensures
            c.socket_path@ == socket_path@,
    {
        DaemonClient { socket_path: socket_path.to_owned() }
    }
}

/// The first request the client sends for a subcommand. An `Investigate`
/// without an id first fetches the single most recent anomaly.
pub fn initial_request(cmd: &Commands) -> (req: DaemonRequest)
    ensures
        match *cmd {
            Commands::Status => req == DaemonRequest::Status,
            Commands::Anomalies { tail } => req == (DaemonRequest::GetAnomalies { tail }),
            Commands::Investigate { id: None } => req == (DaemonRequest::GetAnomalies { tail: 1 }),
            Commands::Investigate { id: Some(id) } => match req {
                DaemonRequest::Investigate { id: rid } => rid@ == id@,
                _ => false,
            },
        },
{
    match cmd {
        Commands::Status => DaemonRequest::Status,
        Commands::Anomalies { tail } => DaemonRequest::GetAnomalies { tail: *tail },
        Commands::Investigate { id } => match id {
            Some(s) => DaemonRequest::Investigate { id: s.clone() },
            None => DaemonRequest::GetAnomalies { tail: 1 },
        },
    }
}

/// The id the preliminary fetch resolves to: the first record of the
/// returned list, if the reply is a non-empty anomaly list.
pub fn latest_anomaly_id(resp: &DaemonResponse) -> (r: Option<String>)
    ensures
        match *resp {
            DaemonResponse::AnomaliesList(list) => match r {
                Some(id) => list@.len() > 0 && id@ == list@[0]@.id,
                None => list@.len() == 0,
            },
            _ => r is None,
        },
{
    match resp {
        DaemonResponse::AnomaliesList(list) => {
            if list.len() > 0 {
                Some(list[0].id.clone())
            } else {
                None
            }
        },
        _ => None,
    }
}

} // verus!
