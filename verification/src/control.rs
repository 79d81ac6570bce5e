//! The local control socket of a daemon: what is asked over it, who may use
//! it, and when it is taken over.

use crate::ids::Id32;
use vstd::prelude::*;

verus! {

/// The version of the messages on the control socket.
pub const LOCAL_WIRE_FORMAT_VERSION: u16 = 1;

/// A directory that is backed up.
#[derive(Clone, Debug)]
pub struct ProtectedRoot {
    pub format_version: u16,
    pub root_id: u128,
    pub path: String,
    pub filesystem_device: u64,
}

/// How a node is.
#[derive(Clone, Debug)]
pub struct NodeStatus {
    pub format_version: u16,
    pub node_id: Id32,
    pub data_dir: String,
    pub protected_root: Option<ProtectedRoot>,
    pub checkpoint_count: u64,
}

/// What is asked of a daemon.
#[derive(Clone, Debug)]
pub enum LocalRequest {
    Status,
    AddRoot { path: String },
}

/// What a daemon answers.
#[derive(Clone, Debug)]
pub enum LocalResponse {
    Status(NodeStatus),
    RootAdded(ProtectedRoot),
    Error(String),
}

/// A request with the number by which its response is known.
pub struct LocalRequestEnvelope<T> {
    pub format_version: u16,
    pub request_id: [u8; 16],
    pub request: T,
}

/// A response, or an error, with the number of its request.
pub struct LocalResponseEnvelope<E> {
    pub format_version: u16,
    pub request_id: [u8; 16],
    pub result: Result<LocalResponse, E>,
}

/// The secret that unlocks a node. It is not shown.
pub struct UnlockSecret([u8; 32]);

impl UnlockSecret {
    pub closed spec fn view(&self) -> Seq<u8> {
        self.0@
    }

    pub fn new(bytes: [u8; 32]) -> (secret: Self)
        ensures
            secret@ == bytes@,
    {
        UnlockSecret(bytes)
    }

    /// The seed that the secret is.
    pub fn seed(&self) -> (seed: [u8; 32])
        ensures
            seed@ == self@,
    {
        self.0
    }

    /// What is shown in place of the secret.
    pub fn redacted(&self) -> (text: String)
        ensures
            text@ == "UnlockSecret(REDACTED)"@,
    {
        "UnlockSecret(REDACTED)".to_owned()
    }
}

/// What is known of the directory in which the socket stands.
#[derive(Clone, Copy, Debug)]
pub struct SocketDirectory {
    pub is_directory: bool,
    pub owner: u32,
    pub mode: u32,
}

/// The directory is the user's own, and nobody else has any right to it.
pub open spec fn directory_private(directory: SocketDirectory, user: u32) -> bool {
    directory.is_directory && directory.owner == user && directory.mode % 64 == 0
}

/// Whether a socket may stand in a directory.
pub fn is_private_directory(directory: &SocketDirectory, user: u32) -> (private: bool)
    ensures
        private == directory_private(*directory, user),
{
    let mode: u32 = directory.mode;
    assert(mode & 63 == mode % 64) by (bit_vector);
    directory.is_directory && directory.owner == user && mode & 63 == 0
}

/// What was found where the socket is to be.
#[derive(Clone, Copy, Debug, PartialEq, Eq, Structural)]
pub enum SocketProbe {
    Nothing,
    /// Something that is no socket.
    NoSocket,
    /// A socket on which somebody answers.
    Answered,
    /// A socket on which nobody listens any more.
    Refused,
    /// A socket that was gone when it was tried.
    Gone,
    /// A socket of which nothing could be learned.
    Unknown,
}

/// What is done to take the place of the socket.
#[derive(Clone, Copy, Debug, PartialEq, Eq, Structural)]
pub enum SocketStep {
    Bind,
    RemoveAndBind,
    RefuseNoSocket,
    RefuseAnswered,
    RefuseUnknown,
}

/// What is done to take the place of a socket: it is removed only where it is
/// known that nobody listens on it.
pub fn take_over(probe: SocketProbe) -> (step: SocketStep)
    ensures
        step == (match probe {
            SocketProbe::Nothing => SocketStep::Bind,
            SocketProbe::NoSocket => SocketStep::RefuseNoSocket,
            SocketProbe::Answered => SocketStep::RefuseAnswered,
            SocketProbe::Refused => SocketStep::RemoveAndBind,
            SocketProbe::Gone => SocketStep::RemoveAndBind,
            SocketProbe::Unknown => SocketStep::RefuseUnknown,
        }),
{
    match probe {
        SocketProbe::Nothing => SocketStep::Bind,
        SocketProbe::NoSocket => SocketStep::RefuseNoSocket,
        SocketProbe::Answered => SocketStep::RefuseAnswered,
        SocketProbe::Refused => SocketStep::RemoveAndBind,
        SocketProbe::Gone => SocketStep::RemoveAndBind,
        SocketProbe::Unknown => SocketStep::RefuseUnknown,
    }
}

/// What tells one file from another.
#[derive(Clone, Copy, Debug, PartialEq, Eq, Structural)]
pub struct FileIdentity {
    pub device: u64,
    pub inode: u64,
}

/// Whether a daemon that ends removes what stands where its socket was bound:
/// only where that is still the socket that it bound.
pub fn removes_socket(bound: FileIdentity, found: Option<FileIdentity>, is_socket: bool) -> (
    removes: bool)
    ensures
        removes == (found == Some(bound) && is_socket),
{
    match found {
        Some(found) => is_socket && found == bound,
        None => false,
    }
}

/// What a daemon answers when it has done, or could not do, what was asked.
pub fn local_response(result: Result<LocalResponse, String>) -> (response: LocalResponse)
    ensures
        response == (match result {
            Ok(response) => response,
            Err(message) => LocalResponse::Error(message),
        }),
{
    match result {
        Ok(response) => response,
        Err(message) => LocalResponse::Error(message),
    }
}

/// The message for a request that a daemon rejected.
pub open spec fn rejection(message: Seq<char>) -> Seq<char> {
    "daemon rejected request: "@ + message
}

/// What a caller is told of a daemon's answer.
pub fn local_result(response: LocalResponse) -> (result: Result<LocalResponse, String>)
    ensures
        match response {
            LocalResponse::Error(message) => result matches Err(text) && text@ == rejection(
                message@,
            ),
            _ => result == Ok::<LocalResponse, String>(response),
        },
{
    match response {
        LocalResponse::Error(message) => {
            let mut text = "daemon rejected request: ".to_owned();
            text.append(message.as_str());
            Err(text)
        },
        other => Ok(other),
    }
}

/// A socket may stand only in a directory of the user's own in which neither the
/// group nor others have any right.
pub proof fn nobody_else_has_a_right_to_the_directory(directory: SocketDirectory, user: u32)
    ensures
        directory_private(directory, user) <==> directory.is_directory && directory.owner == user
            && directory.mode % 8 == 0 && (directory.mode / 8) % 8 == 0,
        directory.is_directory && directory.owner == user && directory.mode == 0o700
            ==> directory_private(directory, user),
{
}

} // verus!
