//! The directories of the onion client: which may be used, and when they are
//! free.

use crate::ids::Id32;
use crate::paths::{directories_overlap, lies_in, path_components};
use tor_llcrypto::pk::ed25519::{ExpandedKeypair, Keypair};
use vstd::prelude::*;

verus! {

/// How long the onion service is given to end, in milliseconds.
pub const SERVICE_SHUTDOWN_TIMEOUT_MILLIS: u64 = 10_000;

/// What stands at a path.
#[derive(Clone, Copy, Debug, PartialEq, Eq, Structural)]
pub enum PathState {
    Missing,
    Directory { owner: u32 },
    /// A file, a link or something else.
    Other,
    /// It could not be learned.
    Unknown,
}

/// Why a directory is not used.
#[derive(Clone, Copy, Debug, PartialEq, Eq, Structural)]
pub enum DirectoryError {
    NoDirectory,
    OtherOwner,
    Unknown,
}

/// Whether a directory may be made private and used: it is the user's own, or
/// not there yet.
pub fn prepare_private_directory(state: PathState, user: u32) -> (result: Result<(), DirectoryError>)
    ensures
        result == (match state {
            PathState::Missing => Ok(()),
            PathState::Directory { owner } => if owner == user {
                Ok(())
            } else {
                Err(DirectoryError::OtherOwner)
            },
            PathState::Other => Err(DirectoryError::NoDirectory),
            PathState::Unknown => Err(DirectoryError::Unknown),
        }),
{
    match state {
        PathState::Missing => Ok(()),
        PathState::Directory { owner } => if owner == user {
            Ok(())
        } else {
            Err(DirectoryError::OtherOwner)
        },
        PathState::Other => Err(DirectoryError::NoDirectory),
        PathState::Unknown => Err(DirectoryError::Unknown),
    }
}

/// Whether a part of the onion client's state may be there as it is: it is a
/// directory, or missing.
pub fn validate_onion_service_state(state: PathState) -> (result: Result<(), DirectoryError>)
    ensures
        result == (match state {
            PathState::Missing => Ok(()),
            PathState::Directory { .. } => Ok(()),
            PathState::Other => Err(DirectoryError::NoDirectory),
            PathState::Unknown => Err(DirectoryError::Unknown),
        }),
{
    match state {
        PathState::Missing => Ok(()),
        PathState::Directory { .. } => Ok(()),
        PathState::Other => Err(DirectoryError::NoDirectory),
        PathState::Unknown => Err(DirectoryError::Unknown),
    }
}

/// What trying the lock of the onion service gave.
#[derive(Clone, Copy, Debug, PartialEq, Eq, Structural)]
pub enum LockProbe {
    Missing,
    NoFile,
    /// It was had, and given back.
    Had,
    HeldByOther,
    Unknown,
}

/// What waiting for the end of the onion service comes to.
#[derive(Clone, Copy, Debug, PartialEq, Eq, Structural)]
pub enum ShutdownStep {
    Ended,
    TryAgain,
    NoFile,
    TimedOut,
    Unknown,
}

/// What waiting for the end of the onion service comes to after its lock was
/// tried. Times are milliseconds of a steady clock.
pub fn wait_for_onion_service_shutdown(probe: LockProbe, started: u64, now: u64) -> (step:
    ShutdownStep)
    ensures
        step == (match probe {
            LockProbe::Missing => ShutdownStep::Ended,
            LockProbe::Had => ShutdownStep::Ended,
            LockProbe::NoFile => ShutdownStep::NoFile,
            LockProbe::Unknown => ShutdownStep::Unknown,
            LockProbe::HeldByOther => if now >= started.saturating_add(
                SERVICE_SHUTDOWN_TIMEOUT_MILLIS,
            ) {
                ShutdownStep::TimedOut
            } else {
                ShutdownStep::TryAgain
            },
        }),
{
    match probe {
        LockProbe::Missing => ShutdownStep::Ended,
        LockProbe::Had => ShutdownStep::Ended,
        LockProbe::NoFile => ShutdownStep::NoFile,
        LockProbe::Unknown => ShutdownStep::Unknown,
        LockProbe::HeldByOther => {
            if now >= started.saturating_add(SERVICE_SHUTDOWN_TIMEOUT_MILLIS) {
                ShutdownStep::TimedOut
            } else {
                ShutdownStep::TryAgain
            }
        },
    }
}

/// Why an onion service is not launched.
#[derive(Clone, Copy, Debug, PartialEq, Eq, Structural)]
pub enum LaunchError {
    NoStreams,
    Overlap,
    OtherIdentity,
}

/// Whether an onion service may be launched that admits so many streams at
/// once: it must admit one.
pub fn check_streams(max_inbound_streams: usize) -> (result: Result<(), LaunchError>)
    ensures
        result == (if max_inbound_streams == 0 {
            Err(LaunchError::NoStreams)
        } else {
            Ok(())
        }),
{
    if max_inbound_streams == 0 {
        Err(LaunchError::NoStreams)
    } else {
        Ok(())
    }
}

/// Whether an onion service may keep its state and its cache in two
/// directories: neither may lie in the other.
pub fn check_directories(state: &str, cache: &str) -> (result: Result<(), LaunchError>)
    ensures
        result == (if lies_in(path_components(state@), path_components(cache@)) || lies_in(
            path_components(cache@),
            path_components(state@),
        ) {
            Err(LaunchError::Overlap)
        } else {
            Ok(())
        }),
{
    if directories_overlap(state, cache) {
        Err(LaunchError::Overlap)
    } else {
        Ok(())
    }
}

/// Whether the public key of an onion service is that of the node.
pub fn check_key(service_key: &Id32, node: &Id32) -> (result: Result<(), LaunchError>)
    ensures
        result == (if service_key@ == node@ {
            Ok(())
        } else {
            Err(LaunchError::OtherIdentity)
        }),
{
    if service_key.equals(node) {
        Ok(())
    } else {
        Err(LaunchError::OtherIdentity)
    }
}

/// The public key that `ExpandedKeypair::public` of `tor_llcrypto` gives for
/// the key pair of a seed.
pub uninterp spec fn service_key_of(seed: Seq<u8>) -> Seq<u8>;

/// Makes a key pair of a seed with `Keypair::from_bytes` and
/// `ExpandedKeypair::from`, and takes its public key with
/// `ExpandedKeypair::public`. The contract names the result; it depends on
/// the seed alone.
#[verifier::external_body]
fn service_key(seed: &[u8; 32]) -> (key: [u8; 32])
    ensures
        key@ == service_key_of(seed@),
{
    let compact = Keypair::from_bytes(seed);
    let expanded = ExpandedKeypair::from(&compact);
    *expanded.public().as_bytes()
}

/// Whether the onion service whose key is made of a seed is that of the node.
pub fn check_service(identity_seed: &[u8; 32], node: &Id32) -> (result: Result<(), LaunchError>)
    ensures
        result == (if service_key_of(identity_seed@) == node@ {
            Ok(())
        } else {
            Err(LaunchError::OtherIdentity)
        }),
{
    check_key(&Id32(service_key(identity_seed)), node)
}

/// What is asked for over a rendezvous.
#[derive(Clone, Copy, Debug, PartialEq, Eq, Structural)]
pub enum StreamRequest {
    Begin { port: u16 },
    Other,
}

/// Whether a stream is accepted: only to the port of the service.
pub fn accepts_stream(request: StreamRequest) -> (accepts: bool)
    ensures
        accepts == (request == (StreamRequest::Begin { port: crate::tor::ONION_SERVICE_PORT })),
{
    match request {
        StreamRequest::Begin { port } => port == crate::tor::ONION_SERVICE_PORT,
        StreamRequest::Other => false,
    }
}

} // verus!
