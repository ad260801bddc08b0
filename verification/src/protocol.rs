//! The messages of the broker channel.

use vstd::prelude::*;
use vstd::string::*;

use crate::environment::Environment;
use crate::facts::models;
use crate::text::texts;

verus! {

pub const PROTOCOL_VERSION: u32 = 4;

/// Longest frame body, in bytes, that either side of the channel accepts.
pub const MAX_FRAME_BYTES: usize = 1_048_576;

/// A request of the client.
#[derive(Debug, PartialEq, Eq)]
pub enum ClientRequest {
    Exec(ExecRequest),
    Cancel { id: String },
    WriteStdin { id: String, data_base64: String },
    Shutdown,
}

/// A request to run one command.
#[derive(Debug, PartialEq, Eq)]
pub struct ExecRequest {
    pub id: String,
    pub command: CommandSpec,
    pub cwd: String,
    pub env: Environment,
    pub timeout_ms: Option<u64>,
    pub interactive: bool,
    pub policy: SandboxPolicy,
}

/// A program and its arguments.
#[derive(Debug, PartialEq, Eq)]
pub struct CommandSpec {
    pub program: String,
    pub args: Vec<String>,
}

/// What a command may touch.
#[derive(Debug, PartialEq, Eq)]
pub struct SandboxPolicy {
    pub base_rights: Vec<FilesystemRight>,
    /// Validated rights from the project policy that is active for this command.
    pub grants: Vec<FilesystemRight>,
    pub denies: Vec<FilesystemDeny>,
    pub network: NetworkPolicy,
    /// Trusted machine-configured Unix socket paths. These never come from a
    /// command declaration or project config.
    pub unix_socket_roots: Vec<String>,
    pub output_limit_bytes: u64,
}

#[derive(Debug, PartialEq, Eq)]
pub struct FilesystemRight {
    pub access: Access,
    pub path: String,
    pub scope: PathScope,
    pub missing_path: MissingPathBehavior,
}

#[derive(Debug, PartialEq, Eq)]
pub struct FilesystemDeny {
    pub access: DeniedAccess,
    pub pattern: String,
    pub scope: DenyScope,
}

#[derive(Debug, Clone, Copy, PartialEq, Eq, Structural)]
pub enum Access {
    Read,
    Write,
}

#[derive(Debug, Clone, Copy, PartialEq, Eq, Structural)]
pub enum DeniedAccess {
    Read,
    Write,
    ReadWrite,
}

#[derive(Debug, Clone, Copy, PartialEq, Eq, Structural)]
pub enum PathScope {
    File,
    Tree,
}

#[derive(Debug, Clone, Copy, PartialEq, Eq, Structural)]
pub enum DenyScope {
    File,
    Tree,
    Glob,
}

#[derive(Debug, Clone, Copy, PartialEq, Eq, Structural)]
pub enum MissingPathBehavior {
    Reject,
    CreateFile,
    CreateTree,
}

#[derive(Debug, PartialEq, Eq)]
pub enum NetworkPolicy {
    Blocked,
    Loopback,
    Proxy { tcp_port: u16, unix_socket: String, allow_local_binding: bool },
}

/// An event of the broker.
#[allow(inconsistent_fields)]
#[derive(Debug, PartialEq, Eq)]
pub enum ServerEvent {
    Ready {
        version: u32,
        platform: String,
        backend: String,
        can_exec: bool,
        max_frame_bytes: u64,
    },
    Started { id: String, pid: u32 },
    Stdout { id: String, sequence: u64, data_base64: String },
    Stderr { id: String, sequence: u64, data_base64: String },
    Denials {
        id: String,
        items: Vec<Denial>,
        /// False on macOS because unified log collection is best effort.
        complete: bool,
    },
    Exit {
        id: String,
        code: Option<i32>,
        signal: Option<i32>,
        timed_out: bool,
        cancelled: bool,
        output_truncated: bool,
    },
    Error { id: Option<String>, code: ErrorCode, message: String },
}

/// One access that the sandbox refused.
#[derive(Debug, PartialEq, Eq)]
pub struct Denial {
    pub operation: String,
    pub path: Option<String>,
    pub process: Option<String>,
}

#[derive(Debug, Clone, Copy, PartialEq, Eq, Structural)]
pub enum ErrorCode {
    BackendUnavailable,
    DuplicateCommandId,
    InvalidRequest,
    PolicyRejected,
    CommandStartFailed,
    Cancelled,
    ProtocolError,
    NotFound,
}

/// A requested right.
pub struct RightRequest {
    pub access: Access,
    pub path: Seq<char>,
    pub scope: PathScope,
    pub missing_path: MissingPathBehavior,
}

/// A requested deny.
pub struct DenyRequest {
    pub access: DeniedAccess,
    pub pattern: Seq<char>,
    pub scope: DenyScope,
}

/// A requested network mode.
pub enum NetworkRequest {
    Blocked,
    Loopback,
    Proxy { tcp_port: u16, unix_socket: Seq<char>, allow_local_binding: bool },
}

/// A requested policy.
pub struct PolicyRequest {
    pub base_rights: Seq<RightRequest>,
    pub grants: Seq<RightRequest>,
    pub denies: Seq<DenyRequest>,
    pub network: NetworkRequest,
    pub unix_socket_roots: Seq<Seq<char>>,
    pub output_limit_bytes: u64,
}

/// A requested command.
pub struct CommandRequest {
    pub id: Seq<char>,
    pub program: Seq<char>,
    pub args: Seq<Seq<char>>,
    pub cwd: Seq<char>,
    pub env: Seq<(Seq<char>, Seq<char>)>,
    pub timeout_ms: Option<u64>,
    pub interactive: bool,
    pub policy: PolicyRequest,
}

impl View for FilesystemRight {
    type V = RightRequest;

    open spec fn view(&self) -> RightRequest {
        RightRequest {
            access: self.access,
            path: self.path@,
            scope: self.scope,
            missing_path: self.missing_path,
        }
    }
}

impl View for FilesystemDeny {
    type V = DenyRequest;

    open spec fn view(&self) -> DenyRequest {
        DenyRequest { access: self.access, pattern: self.pattern@, scope: self.scope }
    }
}

impl View for NetworkPolicy {
    type V = NetworkRequest;

    open spec fn view(&self) -> NetworkRequest {
        match *self {
            NetworkPolicy::Blocked => NetworkRequest::Blocked,
            NetworkPolicy::Loopback => NetworkRequest::Loopback,
            NetworkPolicy::Proxy { tcp_port, unix_socket, allow_local_binding } => {
                NetworkRequest::Proxy { tcp_port, unix_socket: unix_socket@, allow_local_binding }
            },
        }
    }
}

impl View for SandboxPolicy {
    type V = PolicyRequest;

    open spec fn view(&self) -> PolicyRequest {
        PolicyRequest {
            base_rights: models(self.base_rights@),
            grants: models(self.grants@),
            denies: models(self.denies@),
            network: self.network@,
            unix_socket_roots: texts(self.unix_socket_roots@),
            output_limit_bytes: self.output_limit_bytes,
        }
    }
}

impl View for ExecRequest {
    type V = CommandRequest;

    open spec fn view(&self) -> CommandRequest {
        CommandRequest {
            id: self.id@,
            program: self.command.program@,
            args: texts(self.command.args@),
            cwd: self.cwd@,
            env: self.env@,
            timeout_ms: self.timeout_ms,
            interactive: self.interactive,
            policy: self.policy@,
        }
    }
}

/// One access that the sandbox refused.
pub struct DenialModel {
    pub operation: Seq<char>,
    pub path: Option<Seq<char>>,
    pub process: Option<Seq<char>>,
}

/// The text of an optional string.
pub open spec fn text_option(text: Option<String>) -> Option<Seq<char>> {
    match text {
        Some(text) => Some(text@),
        None => None,
    }
}

impl View for Denial {
    type V = DenialModel;

    open spec fn view(&self) -> DenialModel {
        DenialModel {
            operation: self.operation@,
            path: text_option(self.path),
            process: text_option(self.process),
        }
    }
}

/// An event of the broker.
#[allow(inconsistent_fields)]
pub enum EventModel {
    Ready {
        version: u32,
        platform: Seq<char>,
        backend: Seq<char>,
        can_exec: bool,
        max_frame_bytes: u64,
    },
    Started { id: Seq<char>, pid: u32 },
    Stdout { id: Seq<char>, sequence: u64, data_base64: Seq<char> },
    Stderr { id: Seq<char>, sequence: u64, data_base64: Seq<char> },
    Denials { id: Seq<char>, items: Seq<DenialModel>, complete: bool },
    Exit {
        id: Seq<char>,
        code: Option<i32>,
        signal: Option<i32>,
        timed_out: bool,
        cancelled: bool,
        output_truncated: bool,
    },
    Error { id: Option<Seq<char>>, code: ErrorCode, message: Seq<char> },
}

impl View for ServerEvent {
    type V = EventModel;

    open spec fn view(&self) -> EventModel {
        match *self {
            ServerEvent::Ready { version, platform, backend, can_exec, max_frame_bytes } => {
                EventModel::Ready {
                    version,
                    platform: platform@,
                    backend: backend@,
                    can_exec,
                    max_frame_bytes,
                }
            },
            ServerEvent::Started { id, pid } => EventModel::Started { id: id@, pid },
            ServerEvent::Stdout { id, sequence, data_base64 } => EventModel::Stdout {
                id: id@,
                sequence,
                data_base64: data_base64@,
            },
            ServerEvent::Stderr { id, sequence, data_base64 } => EventModel::Stderr {
                id: id@,
                sequence,
                data_base64: data_base64@,
            },
            ServerEvent::Denials { id, items, complete } => EventModel::Denials {
                id: id@,
                items: models(items@),
                complete,
            },
            ServerEvent::Exit { id, code, signal, timed_out, cancelled, output_truncated } => {
                EventModel::Exit {
                    id: id@,
                    code,
                    signal,
                    timed_out,
                    cancelled,
                    output_truncated,
                }
            },
            ServerEvent::Error { id, code, message } => EventModel::Error {
                id: text_option(id),
                code,
                message: message@,
            },
        }
    }
}

impl Clone for FilesystemRight {
    fn clone(&self) -> (copy: FilesystemRight)
        ensures
            copy@ == self@,
    {
        FilesystemRight {
            access: self.access,
            path: self.path.clone(),
            scope: self.scope,
            missing_path: self.missing_path,
        }
    }
}

/// A copy of an optional string.
pub fn copy_option(text: &Option<String>) -> (copy: Option<String>)
    ensures
        text_option(copy) == text_option(*text),
{
    match text {
        Some(text) => Some(text.clone()),
        None => None,
    }
}

impl Clone for Denial {
    fn clone(&self) -> (copy: Denial)
        ensures
            copy@ == self@,
    {
        Denial {
            operation: self.operation.clone(),
            path: copy_option(&self.path),
            process: copy_option(&self.process),
        }
    }
}

} // verus!
