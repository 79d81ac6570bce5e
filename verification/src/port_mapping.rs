//! Automatic gateway mapping of the QUIC listener: which listener is mapped,
//! and what the mapping loop does next.

use crate::address::{address_of_text, Component, Multiaddr, Protocol};
use crate::endpoints::{ipv4_is, texts};
use crate::policy::views;
use vstd::prelude::*;

verus! {

/// An IPv4 socket address.
#[derive(Clone, Copy, Debug)]
pub struct Ipv4Socket {
    pub ip: [u8; 4],
    pub port: u16,
}

impl Ipv4Socket {
    /// Whether two sockets are the same.
    pub fn same(&self, other: &Ipv4Socket) -> (result: bool)
        ensures
            result == (*self == *other),
    {
        let result = self.port == other.port && self.ip[0] == other.ip[0] && self.ip[1]
            == other.ip[1] && self.ip[2] == other.ip[2] && self.ip[3] == other.ip[3];
        proof {
            if result {
                assert(self.ip =~= other.ip);
            }
        }
        result
    }
}

/// An IPv4 QUIC listener that a gateway could expose: IPv4 address, UDP port,
/// QUIC, and nothing more. The address is no loopback, multicast or broadcast
/// one.
pub open spec fn mappable(address: Seq<Component>) -> bool {
    &&& address.len() == 3
    &&& address[0] matches Component::Ip4(octets) && octets.len() == 4 && octets[0] != 127 && !(224
        <= octets[0] <= 239) && octets != seq![255u8, 255u8, 255u8, 255u8]
    &&& address[1] is Udp
    &&& address[2] is QuicV1
}

/// The socket of an IPv4 QUIC listener.
pub fn ipv4_quic_listener(address: &Multiaddr) -> (socket: Option<Ipv4Socket>)
    ensures
        socket is Some == mappable(address@),
        socket matches Some(socket) ==> Component::Ip4(socket.ip@) == address@[0]
            && Component::Udp(socket.port) == address@[1],
{
    let n: usize = address.protocols.len();
    if n != 3 {
        return None;
    }
    assert(address@[0] == address.protocols@[0]@);
    assert(address@[1] == address.protocols@[1]@);
    assert(address@[2] == address.protocols@[2]@);
    let ip: [u8; 4] = match &address.protocols[0] {
        Protocol::Ip4(octets) => *octets,
        _ => {
            return None;
        },
    };
    if ip[0] == 127 || (224 <= ip[0] && ip[0] <= 239) || ipv4_is(&ip, 255) {
        return None;
    }
    let port: u16 = match &address.protocols[1] {
        Protocol::Udp(port) => *port,
        _ => {
            return None;
        },
    };
    match &address.protocols[2] {
        Protocol::QuicV1 => Some(Ipv4Socket { ip, port }),
        _ => None,
    }
}

/// The listeners can be mapped: exactly one of them is an IPv4 QUIC listener,
/// and it is bound to the wildcard address.
pub open spec fn listeners_mappable(addresses: Seq<Seq<Component>>) -> bool {
    exists|i: int|
        0 <= i < addresses.len() && mappable(#[trigger] addresses[i]) && addresses[i][0]
            == Component::Ip4(seq![0u8, 0u8, 0u8, 0u8]) && forall|j: int|
            0 <= j < addresses.len() && j != i ==> !mappable(#[trigger] addresses[j])
}

/// Whether the listeners can be mapped without ambiguity. The mapper uses the
/// default-route address, so a listener bound to another interface will not
/// do.
pub fn validate_port_mapping_listeners(addresses: &Vec<Multiaddr>) -> (valid: bool)
    ensures
        valid == listeners_mappable(views(addresses@)),
{
    let ghost all = views(addresses@);
    let mut found: Option<usize> = None;
    let mut wildcard: bool = false;
    let mut i: usize = 0;
    while i < addresses.len()
        invariant
            i <= addresses@.len(),
            all == views(addresses@),
            found is None ==> forall|k: int| 0 <= k < i ==> !mappable(#[trigger] all[k]),
            found matches Some(at) ==> {
                &&& at < i
                &&& mappable(all[at as int])
                &&& wildcard == (all[at as int][0] == Component::Ip4(seq![0u8, 0u8, 0u8, 0u8]))
                &&& forall|k: int| 0 <= k < i && k != at ==> !mappable(#[trigger] all[k])
            },
        decreases addresses@.len() - i,
    {
        assert(all[i as int] == addresses@[i as int]@);
        match ipv4_quic_listener(&addresses[i]) {
            Some(socket) => {
                if found.is_some() {
                    let ghost first = found->0 as int;
                    proof {
                        if listeners_mappable(all) {
                            let w = choose|w: int|
                                0 <= w < all.len() && mappable(#[trigger] all[w]) && all[w][0]
                                    == Component::Ip4(seq![0u8, 0u8, 0u8, 0u8]) && forall|j: int|
                                    0 <= j < all.len() && j != w ==> !mappable(#[trigger] all[j]);
                            assert(mappable(all[first]));
                            assert(mappable(all[i as int]));
                            assert(w == first && w == i);
                        }
                    }
                    return false;
                }
                found = Some(i);
                wildcard = ipv4_is(&socket.ip, 0);
            },
            None => {},
        }
        i += 1;
    }
    proof {
        if let Some(at) = found {
            if listeners_mappable(all) {
                let w = choose|w: int|
                    0 <= w < all.len() && mappable(#[trigger] all[w]) && all[w][0]
                        == Component::Ip4(seq![0u8, 0u8, 0u8, 0u8]) && forall|j: int|
                        0 <= j < all.len() && j != w ==> !mappable(#[trigger] all[j]);
                assert(w == at);
            }
        }
    }
    found.is_some() && wildcard
}

/// An address that a gateway has mapped and that other nodes can dial.
pub open spec fn mapped_address_valid(address: Seq<Component>) -> bool {
    &&& mappable(address)
    &&& address[0] != Component::Ip4(seq![0u8, 0u8, 0u8, 0u8])
    &&& address[1] != Component::Udp(0)
}

/// Whether other nodes can dial a mapped address.
pub fn valid_mapped_external_address(address: &Multiaddr) -> (valid: bool)
    ensures
        valid == mapped_address_valid(address@),
{
    match ipv4_quic_listener(address) {
        Some(socket) => !ipv4_is(&socket.ip, 0) && socket.port != 0,
        None => false,
    }
}

/// Why there is no listener to map.
#[derive(Clone, Copy, Debug, PartialEq, Eq, Structural)]
pub enum MappingListenerProblem {
    NoPort,
    Ambiguous,
}

/// The address that a text spells is an IPv4 QUIC listener.
pub open spec fn text_mappable(text: Seq<char>) -> bool {
    address_of_text(text) matches Some(address) && mappable(address)
}

/// The port of the one active IPv4 QUIC listener. The first one must have a
/// port, and there must be no second.
pub fn active_listener_port(listen_addresses: &Vec<String>) -> (port: Result<
    u16,
    MappingListenerProblem,
>)
    ensures
        ({
            let all = texts(listen_addresses@);
            match port {
                Ok(port) => port != 0 && exists|i: int|
                    0 <= i < all.len() && text_mappable(#[trigger] all[i]) && address_of_text(
                        all[i],
                    )->0[1] == Component::Udp(port) && forall|j: int|
                        0 <= j < all.len() && j != i ==> !text_mappable(#[trigger] all[j]),
                Err(MappingListenerProblem::NoPort) => (forall|i: int|
                    0 <= i < all.len() ==> !text_mappable(#[trigger] all[i])) || exists|i: int|
                    0 <= i < all.len() && text_mappable(#[trigger] all[i]) && address_of_text(
                        all[i],
                    )->0[1] == Component::Udp(0) && forall|j: int|
                        0 <= j < i ==> !text_mappable(#[trigger] all[j]),
                Err(MappingListenerProblem::Ambiguous) => exists|i: int, j: int|
                    0 <= i < j < all.len() && text_mappable(#[trigger] all[i]) && address_of_text(
                        all[i],
                    )->0[1] != Component::Udp(0) && text_mappable(#[trigger] all[j]) && forall|
                        k: int,
                    |
                        0 <= k < i ==> !text_mappable(#[trigger] all[k]),
            }
        }),
{
    let ghost all = texts(listen_addresses@);
    let mut first: Option<(usize, u16)> = None;
    let mut i: usize = 0;
    while i < listen_addresses.len()
        invariant
            i <= listen_addresses@.len(),
            all == texts(listen_addresses@),
            first is None ==> forall|k: int| 0 <= k < i ==> !text_mappable(#[trigger] all[k]),
            first matches Some((at, port)) ==> {
                &&& at < i
                &&& port != 0
                &&& text_mappable(all[at as int])
                &&& address_of_text(all[at as int])->0[1] == Component::Udp(port)
                &&& forall|k: int| 0 <= k < i && k != at ==> !text_mappable(#[trigger] all[k])
            },
        decreases listen_addresses@.len() - i,
    {
        assert(all[i as int] == listen_addresses@[i as int]@);
        if let Some(address) = Multiaddr::parse(listen_addresses[i].as_str()) {
            if let Some(socket) = ipv4_quic_listener(&address) {
                if let Some((at, _)) = first {
                    proof {
                        assert(text_mappable(all[at as int]));
                        assert(text_mappable(all[i as int]));
                    }
                    return Err(MappingListenerProblem::Ambiguous);
                }
                if socket.port == 0 {
                    assert(text_mappable(all[i as int]));
                    return Err(MappingListenerProblem::NoPort);
                }
                first = Some((i, socket.port));
            }
        }
        i += 1;
    }
    match first {
        Some((at, port)) => {
            assert(text_mappable(all[at as int]));
            Ok(port)
        },
        None => Err(MappingListenerProblem::NoPort),
    }
}

/// The address under which a mapped socket is published.
pub open spec fn socket_address(socket: Ipv4Socket) -> Seq<Component> {
    seq![Component::Ip4(socket.ip@), Component::Udp(socket.port), Component::QuicV1]
}

/// The address under which a mapped socket is published.
pub fn mapped_address(socket: &Ipv4Socket) -> (address: Multiaddr)
    ensures
        address@ == socket_address(*socket),
{
    let address = Multiaddr::empty().with(Protocol::Ip4(socket.ip)).with(
        Protocol::Udp(socket.port),
    ).with(Protocol::QuicV1);
    assert(address@ =~= socket_address(*socket));
    address
}

/// What the mapping loop has published.
#[derive(Clone, Copy, Debug)]
pub struct PortMapper {
    pub installed: Option<Ipv4Socket>,
}

/// What happened while the mapping loop waited.
#[derive(Clone, Copy, Debug, PartialEq, Eq, Structural)]
pub enum MapperEvent {
    /// The external address may have changed.
    Changed,
    /// The mapping service is gone.
    ServiceStopped,
    /// The shutdown signal changed, and says whether to stop.
    ShutdownChanged(bool),
    /// The holder of the shutdown signal is gone.
    ShutdownClosed,
    /// The retry interval passed.
    Retry,
}

/// What the mapping loop does next.
#[derive(Clone, Copy, Debug, PartialEq, Eq, Structural)]
pub enum MapperStep {
    /// Look at the external address again.
    Continue,
    /// Probe the gateway and ask for a mapping again.
    Reacquire,
    /// Withdraw the mapping; the service failed.
    Fail,
    /// Withdraw the mapping; all is well.
    Stop,
}

impl PortMapper {
    pub fn new() -> (mapper: Self)
        ensures
            mapper.installed is None,
    {
        PortMapper { installed: None }
    }

    /// What to publish for the current external address; nothing where it is
    /// published already.
    pub fn publication(&self, current: Option<Ipv4Socket>) -> (publish: Option<Option<Multiaddr>>)
        ensures
            publish is None == (current == self.installed),
            publish matches Some(address) ==> (match address {
                Some(address) => Some(address@),
                None => None,
            }) == (match current {
                Some(socket) => Some(socket_address(socket)),
                None => None,
            }),
    {
        match (current, self.installed) {
            (None, None) => None,
            (None, Some(_)) => Some(None),
            (Some(socket), None) => Some(Some(mapped_address(&socket))),
            (Some(socket), Some(installed)) => {
                if socket.same(&installed) {
                    None
                } else {
                    Some(Some(mapped_address(&socket)))
                }
            },
        }
    }

    /// Notes that the current external address is published.
    pub fn published(&mut self, current: Option<Ipv4Socket>)
        ensures
            final(self).installed == current,
    {
        self.installed = current;
    }

    /// Whether the loop waits for the retry interval: only without a mapping.
    pub fn waits_for_retry(&self) -> (waits: bool)
        ensures
            waits == self.installed is None,
    {
        self.installed.is_none()
    }

    /// What the loop does after an event.
    pub fn step(&self, event: MapperEvent) -> (step: MapperStep)
        ensures
            step == (match event {
                MapperEvent::Changed => MapperStep::Continue,
                MapperEvent::ServiceStopped => MapperStep::Fail,
                MapperEvent::ShutdownChanged(stop) => if stop {
                    MapperStep::Stop
                } else {
                    MapperStep::Continue
                },
                MapperEvent::ShutdownClosed => MapperStep::Stop,
                MapperEvent::Retry => if self.installed is None {
                    MapperStep::Reacquire
                } else {
                    MapperStep::Continue
                },
            }),
    {
        match event {
            MapperEvent::Changed => MapperStep::Continue,
            MapperEvent::ServiceStopped => MapperStep::Fail,
            MapperEvent::ShutdownChanged(stop) => if stop {
                MapperStep::Stop
            } else {
                MapperStep::Continue
            },
            MapperEvent::ShutdownClosed => MapperStep::Stop,
            MapperEvent::Retry => if self.waits_for_retry() {
                MapperStep::Reacquire
            } else {
                MapperStep::Continue
            },
        }
    }
}

/// What asking the mapping service whether it has let go of a mapping gave.
#[derive(Clone, Copy, Debug, PartialEq, Eq, Structural)]
pub enum ReleaseProbe {
    /// It answered, with or without a result.
    Answered,
    /// It had no room for the question, or is closed.
    NotAccepted,
    /// It is gone.
    Stopped,
    TimedOut,
}

/// Why a mapping is not known to be released.
#[derive(Clone, Copy, Debug, PartialEq, Eq, Structural)]
pub enum ReleaseError {
    NotAccepted,
    Stopped,
    TimedOut,
    /// The mapping may be released, but its address is still published.
    NotWithdrawn,
    /// What came was not what was asked for.
    OutOfOrder,
}

/// The mapping service has come so far that all that was asked of it before is
/// done.
pub open spec fn barrier(probe: ReleaseProbe) -> Result<(), ReleaseError> {
    match probe {
        ReleaseProbe::Answered => Ok(()),
        ReleaseProbe::NotAccepted => Err(ReleaseError::NotAccepted),
        ReleaseProbe::Stopped => Err(ReleaseError::Stopped),
        ReleaseProbe::TimedOut => Err(ReleaseError::TimedOut),
    }
}

/// Whether the mapping service has come so far that all that was asked of it
/// before is done.
pub fn release_barrier(probe: ReleaseProbe) -> (result: Result<(), ReleaseError>)
    ensures
        result == barrier(probe),
{
    match probe {
        ReleaseProbe::Answered => Ok(()),
        ReleaseProbe::NotAccepted => Err(ReleaseError::NotAccepted),
        ReleaseProbe::Stopped => Err(ReleaseError::Stopped),
        ReleaseProbe::TimedOut => Err(ReleaseError::TimedOut),
    }
}

/// The release of a mapping. Letting go may meet a full queue: the first probe
/// empties the queue, so that letting go again is sure of a place in it, and
/// the second probe tells that it was worked on. Whatever comes of that, the
/// mapped address is withdrawn.
#[derive(Clone, Copy, Debug, PartialEq, Eq)]
pub enum MappingRelease {
    /// Nothing was asked yet.
    Prepare,
    Release,
    /// The external address may be there still.
    Vanish,
    /// It was, and another is awaited.
    Await,
    /// The address is withdrawn; this came of the release.
    Withdraw(Result<(), ReleaseError>),
    Done(Result<(), ReleaseError>),
}

/// What a release needs next.
#[derive(Clone, Copy, Debug, PartialEq, Eq)]
pub enum ReleaseAction {
    /// Let go of the mapping, and probe the service.
    LetGo,
    /// Read whether there is an external address.
    ReadExternal,
    /// Wait until the external address has changed.
    AwaitChange,
    /// Withdraw the mapped address from the node.
    Withdraw,
    Done(Result<(), ReleaseError>),
}

/// What came of an action.
#[derive(Clone, Copy, Debug, PartialEq, Eq, Structural)]
pub enum ReleaseEvent {
    /// The service was probed or waited for.
    Probed(ReleaseProbe),
    /// Whether there is an external address.
    External(bool),
    /// Whether the mapped address was withdrawn.
    Withdrawn(bool),
}

impl MappingRelease {
    /// What is needed next.
    pub open spec fn action(self) -> ReleaseAction {
        match self {
            MappingRelease::Prepare | MappingRelease::Release => ReleaseAction::LetGo,
            MappingRelease::Vanish => ReleaseAction::ReadExternal,
            MappingRelease::Await => ReleaseAction::AwaitChange,
            MappingRelease::Withdraw(_) => ReleaseAction::Withdraw,
            MappingRelease::Done(result) => ReleaseAction::Done(result),
        }
    }

    /// The mapping is released, and its address is still to be withdrawn.
    pub open spec fn is_released(self) -> bool {
        self is Withdraw && self->Withdraw_0 is Ok
    }

    /// The mapping is released, and its address is withdrawn.
    pub open spec fn ends_well(self) -> bool {
        self is Done && self->Done_0 is Ok
    }

    /// What comes behind a barrier.
    pub open spec fn passed(probe: ReleaseProbe, next: MappingRelease) -> MappingRelease {
        match barrier(probe) {
            Ok(()) => next,
            Err(error) => MappingRelease::Withdraw(Err(error)),
        }
    }

    /// The release after an event.
    pub open spec fn after(self, event: ReleaseEvent) -> MappingRelease {
        match (self, event) {
            (MappingRelease::Done(_), _) => self,
            (MappingRelease::Prepare, ReleaseEvent::Probed(probe)) => Self::passed(
                probe,
                MappingRelease::Release,
            ),
            (MappingRelease::Release, ReleaseEvent::Probed(probe)) => Self::passed(
                probe,
                MappingRelease::Vanish,
            ),
            (MappingRelease::Vanish, ReleaseEvent::External(present)) => if present {
                MappingRelease::Await
            } else {
                MappingRelease::Withdraw(Ok(()))
            },
            (MappingRelease::Await, ReleaseEvent::Probed(probe)) => Self::passed(
                probe,
                MappingRelease::Vanish,
            ),
            (MappingRelease::Withdraw(result), ReleaseEvent::Withdrawn(withdrawn)) =>
                MappingRelease::Done(
                match result {
                    Err(error) => Err(error),
                    Ok(()) => if withdrawn {
                        Ok(())
                    } else {
                        Err(ReleaseError::NotWithdrawn)
                    },
                },
            ),
            (MappingRelease::Withdraw(_), _) => MappingRelease::Done(
                Err(ReleaseError::OutOfOrder),
            ),
            _ => MappingRelease::Withdraw(Err(ReleaseError::OutOfOrder)),
        }
    }

    /// What is needed next.
    pub fn next(&self) -> (action: ReleaseAction)
        ensures
            action == self.action(),
    {
        match *self {
            MappingRelease::Prepare | MappingRelease::Release => ReleaseAction::LetGo,
            MappingRelease::Vanish => ReleaseAction::ReadExternal,
            MappingRelease::Await => ReleaseAction::AwaitChange,
            MappingRelease::Withdraw(_) => ReleaseAction::Withdraw,
            MappingRelease::Done(result) => ReleaseAction::Done(result),
        }
    }

    fn pass(probe: ReleaseProbe, next: MappingRelease) -> (release: MappingRelease)
        ensures
            release == Self::passed(probe, next),
    {
        match release_barrier(probe) {
            Ok(()) => next,
            Err(error) => MappingRelease::Withdraw(Err(error)),
        }
    }

    /// Takes what came of the last action.
    pub fn take(&mut self, event: ReleaseEvent)
        ensures
            *final(self) == old(self).after(event),
    {
        let next = match (*self, event) {
            (MappingRelease::Done(result), _) => MappingRelease::Done(result),
            (MappingRelease::Prepare, ReleaseEvent::Probed(probe)) => Self::pass(
                probe,
                MappingRelease::Release,
            ),
            (MappingRelease::Release, ReleaseEvent::Probed(probe)) => Self::pass(
                probe,
                MappingRelease::Vanish,
            ),
            (MappingRelease::Vanish, ReleaseEvent::External(present)) => if present {
                MappingRelease::Await
            } else {
                MappingRelease::Withdraw(Ok(()))
            },
            (MappingRelease::Await, ReleaseEvent::Probed(probe)) => Self::pass(
                probe,
                MappingRelease::Vanish,
            ),
            (MappingRelease::Withdraw(result), ReleaseEvent::Withdrawn(withdrawn)) => {
                MappingRelease::Done(
                    match result {
                        Err(error) => Err(error),
                        Ok(()) => if withdrawn {
                            Ok(())
                        } else {
                            Err(ReleaseError::NotWithdrawn)
                        },
                    },
                )
            },
            (MappingRelease::Withdraw(_), _) => MappingRelease::Done(
                Err(ReleaseError::OutOfOrder),
            ),
            _ => MappingRelease::Withdraw(Err(ReleaseError::OutOfOrder)),
        };
        *self = next;
    }
}

/// Begins to release a mapping.
pub fn withdraw_gateway_mapping() -> (release: MappingRelease)
    ensures
        release == MappingRelease::Prepare,
{
    MappingRelease::Prepare
}

/// A release ends only behind the withdrawal of the mapped address, whatever
/// came of the rest; it ends well only where the address was withdrawn, and is
/// withdrawn as released only once there was no external address any more.
pub proof fn a_release_withdraws_the_address(release: MappingRelease, event: ReleaseEvent)
    ensures
        release.after(event) is Done && !(release is Done) ==> release is Withdraw,
        release.after(event).ends_well() && !release.ends_well() ==> release.is_released() && event
            == ReleaseEvent::Withdrawn(true),
        release.after(event).is_released() ==> release == MappingRelease::Vanish && event
            == ReleaseEvent::External(false),
{
}

/// The outcome of a task whose cleanup runs in any case: the task's own error
/// goes before that of the cleanup.
pub fn task_outcome<E>(outcome: Result<(), E>, cleanup: Result<(), E>) -> (result: Result<(), E>)
    ensures
        result == (match outcome {
            Err(error) => Err(error),
            Ok(()) => cleanup,
        }),
{
    match outcome {
        Err(error) => Err(error),
        Ok(()) => cleanup,
    }
}

/// A mapping can be published only for a listener that is fit for it, and a
/// published mapping is itself an address that other nodes can dial, where the
/// gateway gave one.
pub proof fn mapped_socket_is_dialable(socket: Ipv4Socket)
    requires
        socket.port != 0,
        socket.ip@ != seq![0u8, 0u8, 0u8, 0u8],
        socket.ip@ != seq![255u8, 255u8, 255u8, 255u8],
        socket.ip@[0] != 127,
        !(224 <= socket.ip@[0] <= 239),
    ensures
        mapped_address_valid(socket_address(socket)),
{
}

/// A mapping is let go of twice, each time with a probe behind it; then there
/// must be no external address any more, and as long as there is one its change
/// is awaited. Whatever fails on the way, the mapped address is withdrawn before
/// the release is done, and what failed first is what is told.
pub proof fn a_mapping_is_let_go_of_twice(error: ReleaseError, probe: ReleaseProbe)
    ensures
        ({
            let answered = ReleaseEvent::Probed(ReleaseProbe::Answered);
            let first = MappingRelease::Prepare;
            let second = first.after(answered);
            let third = second.after(answered);
            let waits = third.after(ReleaseEvent::External(true));
            let gone = third.after(ReleaseEvent::External(false));
            &&& first.action() == ReleaseAction::LetGo
            &&& second.action() == ReleaseAction::LetGo
            &&& third.action() == ReleaseAction::ReadExternal
            &&& waits.action() == ReleaseAction::AwaitChange
            &&& waits.after(answered).action() == ReleaseAction::ReadExternal
            &&& gone.action() == ReleaseAction::Withdraw
            &&& gone.after(ReleaseEvent::Withdrawn(true)).action() == ReleaseAction::Done(Ok(()))
            &&& gone.after(ReleaseEvent::Withdrawn(false)).action() == ReleaseAction::Done(
                Err(ReleaseError::NotWithdrawn),
            )
            &&& probe != ReleaseProbe::Answered ==> {
                let failed = match probe {
                    ReleaseProbe::NotAccepted => ReleaseError::NotAccepted,
                    ReleaseProbe::Stopped => ReleaseError::Stopped,
                    _ => ReleaseError::TimedOut,
                };
                &&& first.after(ReleaseEvent::Probed(probe)) == MappingRelease::Withdraw(
                    Err(failed),
                )
                &&& second.after(ReleaseEvent::Probed(probe)) == MappingRelease::Withdraw(
                    Err(failed),
                )
                &&& waits.after(ReleaseEvent::Probed(probe)) == MappingRelease::Withdraw(
                    Err(failed),
                )
            }
            &&& MappingRelease::Withdraw(Err(error)).action() == ReleaseAction::Withdraw
            &&& MappingRelease::Withdraw(Err(error)).after(ReleaseEvent::Withdrawn(true))
                == MappingRelease::Done(Err(error))
        }),
{
}

/// A gateway can lead only to a plain IPv4 QUIC listener, never to one on the
/// loopback, a multicast or the broadcast address; and others can dial only what
/// has an address and a port.
pub proof fn only_plain_listeners_are_mapped(ip: Seq<u8>, port: u16)
    requires
        ip.len() == 4,
    ensures
        ({
            let address = seq![Component::Ip4(ip), Component::Udp(port), Component::QuicV1];
            &&& mappable(address) <==> ip[0] != 127 && !(224 <= ip[0] <= 239) && !(ip[0] == 255
                && ip[1] == 255 && ip[2] == 255 && ip[3] == 255)
            &&& mapped_address_valid(address) <==> mappable(address) && port != 0 && !(ip[0] == 0
                && ip[1] == 0 && ip[2] == 0 && ip[3] == 0)
            &&& forall|more: Component| !mappable(#[trigger] address.push(more))
        }),
{
    let address = seq![Component::Ip4(ip), Component::Udp(port), Component::QuicV1];
    assert(address.len() == 3);
    if ip[0] == 255 && ip[1] == 255 && ip[2] == 255 && ip[3] == 255 {
        assert(ip =~= seq![255u8, 255u8, 255u8, 255u8]);
    }
    if ip[0] == 0 && ip[1] == 0 && ip[2] == 0 && ip[3] == 0 {
        assert(ip =~= seq![0u8, 0u8, 0u8, 0u8]);
    }
}

/// A gateway is led to the one listener that can be mapped, which is bound to every
/// address; with none, or with two, nothing is mapped.
pub proof fn just_one_listener_is_mapped(addresses: Seq<Seq<Component>>, i: int, j: int)
    requires
        0 <= i < addresses.len(),
        0 <= j < addresses.len(),
    ensures
        i != j && mappable(addresses[i]) && mappable(addresses[j]) ==> !listeners_mappable(
            addresses,
        ),
        mappable(addresses[i]) && addresses[i][0] != Component::Ip4(seq![0u8, 0u8, 0u8, 0u8])
            ==> !listeners_mappable(addresses),
        mappable(addresses[i]) && addresses[i][0] == Component::Ip4(seq![0u8, 0u8, 0u8, 0u8]) && (
        forall|k: int| 0 <= k < addresses.len() && k != i ==> !mappable(#[trigger] addresses[k]))
            ==> listeners_mappable(addresses),
        (forall|k: int| 0 <= k < addresses.len() ==> !mappable(#[trigger] addresses[k]))
            ==> !listeners_mappable(addresses),
{
}

} // verus!
