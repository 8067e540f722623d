//! What the command line asks the process to do.

use vstd::prelude::*;
use vstd::string::StringExecFns;

verus! {

/// How many complete transfers may wait for the consumer at one time.
pub const DELIVERY_CAPACITY: usize = 100;

/// What the command line gives a client.
#[derive(Debug, Clone)]
pub struct ClientArgs {
    pub ip: Option<String>,
    pub port: Option<String>,
    pub file: Option<String>,
}

/// What the command line gives a server.
#[derive(Debug, Clone)]
pub struct ServerArgs {
    pub port: Option<String>,
    pub download_directory: Option<String>,
}

/// The role to run in.
#[derive(Debug, Clone)]
pub enum Mode {
    Server(ServerArgs),
    Client(ClientArgs),
}

/// The command line.
#[derive(Debug)]
pub struct Args {
    pub mode: Mode,
}

/// A pair of endpoints in text, each a host and a port with a colon
/// between: where to bind, and the peer to send to.
#[derive(Debug, Clone)]
pub struct Addresses {
    pub local_address: String,
    pub remote_address: String,
}

/// What the process is to do.
#[derive(Debug)]
pub enum Plan {
    /// Receive transfers at `addresses.local_address` and store them under
    /// `download_directory`.
    Serve { addresses: Addresses, download_directory: String },
    /// Send the file at `file` to `addresses.remote_address`.
    Send { addresses: Addresses, file: String },
}

/// Why the command line gives nothing to do.
#[derive(Debug, Clone, Copy, PartialEq, Eq, Structural)]
pub enum UsageError {
    /// A server was asked for without a port.
    PortRequired,
    /// A client was asked for without a port, an address or a file.
    ClientFieldsRequired,
}

/// The address a server binds: every interface, at `port`.
pub open spec fn bind_address(port: Seq<char>) -> Seq<char> {
    "0.0.0.0:"@ + port
}

/// The address of the peer at `ip` and `port`.
pub open spec fn peer_address(ip: Seq<char>, port: Seq<char>) -> Seq<char> {
    ip + ":"@ + port
}

/// The address that stands for "any": the local end of a client, and the
/// unused remote end of a server.
pub open spec fn any_address() -> Seq<char> {
    "0.0.0.0:0"@
}

/// Whether `plan` is what a server's arguments ask for.
pub open spec fn serves(a: ServerArgs, plan: Plan) -> bool {
    match plan {
        Plan::Serve { addresses, download_directory } => {
            &&& a.port is Some
            &&& addresses.local_address@ == bind_address(a.port->0@)
            &&& addresses.remote_address@ == any_address()
            &&& download_directory@ == match a.download_directory {
                Some(dir) => dir@,
                None => "."@,
            }
        },
        Plan::Send { .. } => false,
    }
}

/// Whether `plan` is what a client's arguments ask for.
pub open spec fn sends(a: ClientArgs, plan: Plan) -> bool {
    match plan {
        Plan::Send { addresses, file } => {
            &&& a.ip is Some
            &&& a.port is Some
            &&& a.file is Some
            &&& addresses.local_address@ == any_address()
            &&& addresses.remote_address@ == peer_address(a.ip->0@, a.port->0@)
            &&& file@ == a.file->0@
        },
        Plan::Serve { .. } => false,
    }
}

impl UsageError {
    /// The line to show the user.
    pub fn message(&self) -> (text: String)
        ensures
            text@ == match *self {
                UsageError::PortRequired => "Port is required"@,
                UsageError::ClientFieldsRequired => "Port, IP and File are required"@,
            },
    {
        match self {
            UsageError::PortRequired => String::from_str("Port is required"),
            UsageError::ClientFieldsRequired => String::from_str("Port, IP and File are required"),
        }
    }
}

impl Args {
    /// What the command line asks for. A server needs a port; it binds
    /// every interface at that port and stores under the directory given,
    /// or under the current one. A client needs an address, a port and a
    /// file; it sends the file to that peer from any local port.
    pub fn plan(self) -> (r: Result<Plan, UsageError>)
        ensures
            match self.mode {
                Mode::Server(a) => match r {
                    Ok(plan) => serves(a, plan),
                    Err(e) => a.port is None && e == UsageError::PortRequired,
                },
                Mode::Client(a) => match r {
                    Ok(plan) => sends(a, plan),
                    Err(e) => (a.ip is None || a.port is None || a.file is None) && e
                        == UsageError::ClientFieldsRequired,
                },
            },
    {
        match self.mode {
            Mode::Server(a) => {
                let port = match a.port {
                    Some(port) => port,
                    None => {
                        return Err(UsageError::PortRequired);
                    },
                };
                let download_directory = match a.download_directory {
                    Some(dir) => dir,
                    None => String::from_str("."),
                };
                Ok(
                    Plan::Serve {
                        addresses: Addresses {
                            local_address: String::from_str("0.0.0.0:").concat(port.as_str()),
                            remote_address: String::from_str("0.0.0.0:0"),
                        },
                        download_directory,
                    },
                )
            },
            Mode::Client(a) => {
                match (a.ip, a.port, a.file) {
                    (Some(ip), Some(port), Some(file)) => Ok(
                        Plan::Send {
                            addresses: Addresses {
                                local_address: String::from_str("0.0.0.0:0"),
                                remote_address: ip.concat(":").concat(port.as_str()),
                            },
                            file,
                        },
                    ),
                    _ => Err(UsageError::ClientFieldsRequired),
                }
            },
        }
    }
}

} // verus!
