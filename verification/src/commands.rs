//! What the rest of a node asks of its event loop.

use crate::address::{sorted_peers, Multiaddr, PeerId, PeerSet};
use crate::book::{LearnError, RecoveryAddressError};
use crate::ids::Id32;
use crate::listeners::{address_view, Listeners, ListenersModel, MappingError};
use crate::loop_state::{LoopModel, P2pEventLoop, PendingRequest};
use crate::ordered::TextSet;
use crate::policy::views;
use crate::queries::{DhtQuery, QueryModel};
use crate::requests::LOGICAL_REQUEST_TIMEOUT_MILLIS;
use crate::status::{tells, P2pStatus};
use crate::table::KeySet;
use vstd::prelude::*;

verus! {

/// A request to a peer, as it was signed.
#[derive(Clone, Copy, Debug)]
pub struct OutboundRequest {
    pub cancellation_id: u128,
    pub peer: PeerId,
    /// The node key that must sign the response.
    pub recipient: Id32,
    /// The node key that the response must name.
    pub response_recipient: Id32,
    pub request_id: u128,
    pub request_hash: Id32,
    pub request_bytes: u64,
    /// The caller still waits.
    pub wanted: bool,
}

/// What the event loop is asked for.
pub enum Command {
    AddLearnedAddress { peer: PeerId, address: Multiaddr },
    AddRecoveryAddresses { scope: u128, peer: PeerId, addresses: Vec<Multiaddr>, expires_at_unix: u64 },
    ClearRecoveryAddresses { scope: u128 },
    ReplaceLearnedAddresses { peer: PeerId, addresses: Vec<Multiaddr>, expires_at_unix: u64 },
    SetRelayMembers { members: KeySet<PeerId> },
    SetMappedExternalAddress { address: Option<Multiaddr> },
    Request { request: OutboundRequest },
    /// Tell of the network: what the transport listens on, and to which peers it
    /// has connections.
    Status { listen_addresses: Vec<String>, connected: PeerSet },
    PutRecord,
    GetRecord,
    StartProviding,
    GetProviders,
    Shutdown,
}

/// What the event loop answers.
pub enum CommandAnswer {
    Done,
    Learned(Result<(), LearnError>),
    Recovery(Result<(), RecoveryAddressError>),
    /// The mapped address that is no longer published.
    Mapped(Result<Option<Multiaddr>, MappingError>),
    /// A query of the DHT is begun, and this is what is known of it.
    Query(DhtQuery),
    Status(P2pStatus),
    Stop,
}

impl Command {
    pub open spec fn wf(&self) -> bool {
        &&& (self matches Command::SetRelayMembers { members } ==> members.wf())
        &&& (self matches Command::Status { connected, .. } ==> connected.wf())
    }
}

/// A request as the event loop takes it.
pub open spec fn pending_request(
    state: LoopModel,
    request: OutboundRequest,
    now: u64,
) -> PendingRequest {
    PendingRequest {
        cancellation_id: request.cancellation_id,
        peer: request.peer,
        recipient: request.recipient,
        response_recipient: request.response_recipient,
        request_id: request.request_id,
        request_hash: request.request_hash,
        request_bytes: request.request_bytes,
        transport_tier: state.tier(request.peer),
        attempts: 0,
        deadline: now.saturating_add(LOGICAL_REQUEST_TIMEOUT_MILLIS),
        started_at: now,
        waiting: true,
    }
}

impl LoopModel {
    /// The state after a command.
    pub open spec fn commanded(self, command: Command, now: u64, unix_now: u64) -> LoopModel {
        match command {
            Command::AddLearnedAddress { peer, address } => self.learned(peer, address@, now),
            Command::AddRecoveryAddresses { scope, peer, addresses, expires_at_unix } => {
                let (book, problem) = self.book.scoped(
                    scope,
                    peer,
                    views(addresses@),
                    expires_at_unix,
                    unix_now,
                    now,
                );
                if problem is Some {
                    self.with_book(book)
                } else {
                    self.with_book(book).reconciled(peer)
                }
            },
            Command::ClearRecoveryAddresses { scope } => self.recovery_cleared(scope),
            Command::ReplaceLearnedAddresses { peer, addresses, expires_at_unix } =>
                self.addresses_replaced(peer, views(addresses@), expires_at_unix, unix_now, now),
            Command::SetRelayMembers { members } => self.with_book(
                self.book.with_members(members@),
            ).each_history_forgotten(
                sorted_peers(self.transfers.dom().union(self.path_transfers.dom())),
            ),
            Command::Request { request } => if request.wanted {
                self.queued_or_dispatched(pending_request(self, request, now), now)
            } else {
                self
            },
            _ => self,
        }
    }
}

/// The listeners after a command.
pub open spec fn listeners_commanded(listeners: ListenersModel, command: Command) -> ListenersModel {
    match command {
        Command::SetMappedExternalAddress { address } => if listeners.mapping_problem(
            address_view(address),
        ) is None {
            listeners.with_mapped(address_view(address))
        } else {
            listeners
        },
        _ => listeners,
    }
}

/// The answer to a command.
pub open spec fn answers(
    answer: CommandAnswer,
    state: LoopModel,
    listeners: ListenersModel,
    command: Command,
    now: u64,
    unix_now: u64,
) -> bool {
    match command {
        Command::AddLearnedAddress { peer, address } => answer matches CommandAnswer::Learned(
            result,
        ) && (match result {
            Err(error) => Some(error),
            Ok(()) => None,
        }) == state.book.learn_problem(peer, address@),
        Command::AddRecoveryAddresses { scope, peer, addresses, expires_at_unix } =>
            answer matches CommandAnswer::Recovery(result) && (match result {
                Err(error) => Some(error),
                Ok(()) => None,
            }) == state.book.scoped(
                scope,
                peer,
                views(addresses@),
                expires_at_unix,
                unix_now,
                now,
            ).1,
        Command::ReplaceLearnedAddresses { peer, addresses, expires_at_unix } =>
            answer matches CommandAnswer::Learned(result) && (match result {
                Err(error) => Some(error),
                Ok(()) => None,
            }) == state.book.replace_problem(peer, views(addresses@), expires_at_unix, unix_now),
        Command::SetMappedExternalAddress { address } => answer matches CommandAnswer::Mapped(
            result,
        ) && match result {
            Err(error) => listeners.mapping_problem(address_view(address)) == Some(error),
            Ok(withdrawn) => listeners.mapping_problem(address_view(address)) is None
                && address_view(withdrawn) == (if address_view(address) == listeners.mapped {
                None
            } else {
                listeners.mapped
            }),
        },
        Command::Status { listen_addresses, connected } => answer matches CommandAnswer::Status(
            status,
        ) && tells(status, state, listeners, listen_addresses@, connected@),
        Command::PutRecord => answer matches CommandAnswer::Query(query) && query.wf() && query@
            == QueryModel::Put,
        Command::StartProviding => answer matches CommandAnswer::Query(query) && query.wf()
            && query@ == QueryModel::Provide,
        Command::GetRecord => answer matches CommandAnswer::Query(query) && query.wf() && query@
            == (QueryModel::Get { records: Seq::empty() }),
        Command::GetProviders => answer matches CommandAnswer::Query(query) && query.wf() && query@
            == (QueryModel::Providers { providers: Set::empty() }),
        Command::Shutdown => answer is Stop,
        _ => answer is Done,
    }
}

impl P2pEventLoop {
    /// Does what the event loop is asked for. Times are milliseconds of a
    /// steady clock, and seconds since 1970.
    pub fn handle_command(
        &mut self,
        listeners: &mut Listeners,
        command: Command,
        now: u64,
        unix_now: u64,
    ) -> (answer: CommandAnswer)
        requires
            old(self).wf(),
            old(listeners).wf(),
            command.wf(),
        ensures
            final(self).wf(),
            final(listeners).wf(),
            final(self)@ == old(self)@.commanded(command, now, unix_now),
            final(listeners)@ == listeners_commanded(old(listeners)@, command),
            answers(answer, old(self)@, old(listeners)@, command, now, unix_now),
    {
        match command {
            Command::AddLearnedAddress { peer, address } => {
                CommandAnswer::Learned(self.add_learned_address(peer, address, now))
            },
            Command::AddRecoveryAddresses { scope, peer, addresses, expires_at_unix } => {
                CommandAnswer::Recovery(
                    self.add_recovery_addresses(
                        scope,
                        peer,
                        &addresses,
                        expires_at_unix,
                        unix_now,
                        now,
                    ),
                )
            },
            Command::ClearRecoveryAddresses { scope } => {
                self.clear_recovery_addresses(scope);
                CommandAnswer::Done
            },
            Command::ReplaceLearnedAddresses { peer, addresses, expires_at_unix } => {
                CommandAnswer::Learned(
                    self.replace_learned_addresses(
                        peer,
                        &addresses,
                        expires_at_unix,
                        unix_now,
                        now,
                    ),
                )
            },
            Command::SetRelayMembers { members } => {
                self.set_relay_members(members);
                CommandAnswer::Done
            },
            Command::SetMappedExternalAddress { address } => {
                CommandAnswer::Mapped(listeners.replace_mapped_external_address(address))
            },
            Command::Request { request } => {
                if request.wanted {
                    self.submit_request(
                        request.cancellation_id,
                        request.peer,
                        request.recipient,
                        request.response_recipient,
                        request.request_id,
                        request.request_hash,
                        request.request_bytes,
                        now,
                    );
                }
                CommandAnswer::Done
            },
            Command::Status { listen_addresses, connected } => {
                CommandAnswer::Status(self.status(listeners, listen_addresses, &connected))
            },
            Command::PutRecord => CommandAnswer::Query(DhtQuery::Put),
            Command::GetRecord => {
                let query = DhtQuery::Get { records: Vec::new() };
                assert(query@ =~= (QueryModel::Get { records: Seq::empty() })) by {
                    assert(query@->records =~= Seq::empty());
                }
                CommandAnswer::Query(query)
            },
            Command::StartProviding => CommandAnswer::Query(DhtQuery::Provide),
            Command::GetProviders => {
                CommandAnswer::Query(DhtQuery::Providers { providers: TextSet::new() })
            },
            Command::Shutdown => CommandAnswer::Stop,
        }
    }
}

/// A request that a caller still wants is taken as it was signed, and its caller
/// waits for a minute and a half at most; one that nobody wants is dropped. What
/// is asked of the DHT, of the status or of the listeners changes nothing in the
/// loop, and no command but that of a mapped address changes the listeners.
pub proof fn commands_do_what_they_say(
    state: LoopModel,
    listeners: ListenersModel,
    request: OutboundRequest,
    command: Command,
    now: u64,
    unix_now: u64,
)
    ensures
        ({
            let taken = pending_request(state, request, now);
            &&& taken.deadline == now.saturating_add(90_000)
            &&& taken.started_at == now && taken.attempts == 0 && taken.waiting
            &&& taken.cancellation_id == request.cancellation_id && taken.peer == request.peer
            &&& taken.recipient == request.recipient && taken.response_recipient
                == request.response_recipient
            &&& taken.request_id == request.request_id && taken.request_hash
                == request.request_hash && taken.request_bytes == request.request_bytes
            &&& request.wanted ==> state.commanded(Command::Request { request }, now, unix_now)
                == state.queued_or_dispatched(taken, now)
            &&& !request.wanted ==> state.commanded(Command::Request { request }, now, unix_now)
                == state
        }),
        command is PutRecord || command is StartProviding || command is GetRecord || command
            is GetProviders || command is Status || command is Shutdown || command
            is SetMappedExternalAddress ==> state.commanded(command, now, unix_now) == state,
        !(command is SetMappedExternalAddress) ==> listeners_commanded(listeners, command)
            == listeners,
        command matches Command::SetMappedExternalAddress { address } ==> listeners_commanded(
            listeners,
            command,
        ).mapped == (if listeners.mapping_problem(address_view(address)) is None {
            address_view(address)
        } else {
            listeners.mapped
        }),
{
}

/// Who is a member is just what was said last: members' words on their own
/// addresses are taken, and no others'.
pub proof fn members_are_those_named_last(
    state: LoopModel,
    members: KeySet<PeerId>,
    now: u64,
    unix_now: u64,
)
    ensures
        state.commanded(Command::SetRelayMembers { members }, now, unix_now).book.relay_members
            == members@,
{
    let named = state.with_book(state.book.with_members(members@));
    lemma_forgetting_keeps_book(
        named,
        sorted_peers(state.transfers.dom().union(state.path_transfers.dom())),
    );
}

proof fn lemma_forgetting_keeps_book(state: LoopModel, peers: Seq<PeerId>)
    ensures
        state.each_history_forgotten(peers).book == state.book,
    decreases peers.len(),
{
    if peers.len() > 0 {
        lemma_forgetting_keeps_book(state, peers.drop_last());
    }
}

} // verus!
