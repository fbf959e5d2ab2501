//! One connection to a peer: what is asked of it, and what follows from how it ends.
use vstd::prelude::*;

use crate::address::{PeerAddr, PeerIp};
use crate::config::{PEER_REACHABLE_TTL, PEER_UNREACHABLE_TTL};
use crate::peers::{lemma_filter_empty, lemma_filter_members, lemma_filter_step, PeerStatus};
use crate::rows::{ascending, lemma_found};

verus! {

/// A peer that another one told of: the IP address its host parses to, if it parses, and its
/// port.
#[derive(Debug, Clone, Copy, PartialEq, Eq, Structural)]
pub struct PeerInfo {
    pub ip: Option<PeerIp>,
    pub port: u16,
}

/// A peer to be marked in the table, for a number of seconds, and its status before.
#[derive(Debug, Clone, Copy, PartialEq, Eq, Structural)]
pub struct Mark {
    pub addr: PeerAddr,
    pub reachable: bool,
    pub duration: u64,
    pub previous: PeerStatus,
}

/// How far a connection has come.
#[derive(Debug)]
pub enum ProbePhase {
    /// It is being made.
    Connecting,
    /// The peer was asked for the peers it knows.
    Requesting,
    /// The peer told of these peers, and the connection is being closed.
    Closing(Vec<PeerAddr>),
    /// It is over.
    Finished,
}

/// What can happen to a connection.
#[derive(Debug)]
pub enum ProbeEvent {
    /// It was made.
    Connected,
    /// The peer, of the given address, told of these peers.
    Answered(PeerAddr, Vec<PeerInfo>),
    /// It was closed, in good order or not.
    Closed,
    /// It could not be made, or the peer did not answer.
    Failed,
    /// The time for all of it is over.
    TimedOut,
}

/// What follows from the end of a connection.
#[derive(Debug)]
pub struct ProbeEnd {
    /// The peer that is no longer under way.
    pub release: PeerAddr,
    /// The peers to put into the queue.
    pub enqueue: Vec<PeerAddr>,
    /// The mark to put on the peer.
    pub mark: Option<Mark>,
}

/// What is to be done next.
#[derive(Debug)]
pub enum ProbeAction {
    /// Ask the peer for the peers it knows.
    RequestPeers,
    /// Put the mark on the peer, and close the connection.
    MarkAndClose(Mark),
    /// Draw the consequences.
    Finish(ProbeEnd),
}

/// A connection to a peer of the given status.
#[derive(Debug)]
pub struct Probe {
    pub peer: PeerAddr,
    pub previous: PeerStatus,
    pub phase: ProbePhase,
}

/// The addresses of the peers whose host is an IP address.
pub open spec fn told_peers(list: Seq<PeerInfo>) -> Seq<PeerAddr> {
    list.filter(|info: PeerInfo| info.ip is Some).map_values(
        |info: PeerInfo| PeerAddr::of(info.ip->0, info.port),
    )
}

/// The addresses of the peers whose host is an IP address, in order.
pub fn new_peers(list: &Vec<PeerInfo>) -> (peers: Vec<PeerAddr>)
    ensures
        peers@ == told_peers(list@),
{
    let ghost named = |info: PeerInfo| info.ip is Some;
    let ghost addr = |info: PeerInfo| PeerAddr::of(info.ip->0, info.port);
    let mut peers: Vec<PeerAddr> = Vec::new();
    let mut i: usize = 0;
    proof {
        lemma_filter_empty(list@, named);
        assert(peers@ =~= list@.take(0).filter(named).map_values(addr));
    }
    while i < list.len()
        invariant
            i <= list.len(),
            named == |info: PeerInfo| info.ip is Some,
            addr == |info: PeerInfo| PeerAddr::of(info.ip->0, info.port),
            peers@ == list@.take(i as int).filter(named).map_values(addr),
        decreases list.len() - i,
    {
        let info = list[i];
        proof {
            lemma_filter_step(list@, named, i as int);
            let before = list@.take(i as int).filter(named);
            assert(before.push(info).map_values(addr) =~= before.map_values(addr).push(addr(info)));
        }
        if let Some(ip) = info.ip {
            peers.push(PeerAddr::new(ip, info.port));
        }
        i += 1;
    }
    assert(list@.take(i as int) =~= list@);
    peers
}

impl Probe {
    /// Whether the event can happen in this state.
    pub open spec fn accepts(self, event: ProbeEvent) -> bool {
        match self.phase {
            ProbePhase::Connecting => event is Connected || event is Failed || event is TimedOut,
            ProbePhase::Requesting => event is Answered || event is Failed || event is TimedOut,
            ProbePhase::Closing(_) => event is Closed || event is TimedOut,
            ProbePhase::Finished => false,
        }
    }

    /// The mark of the peer that answered from an address.
    pub open spec fn reachable_mark(self, addr: PeerAddr) -> Mark {
        Mark { addr, reachable: true, duration: PEER_REACHABLE_TTL, previous: self.previous }
    }

    /// The mark of the peer if it does not answer in time.
    pub open spec fn unreachable_mark(self) -> Mark {
        Mark {
            addr: self.peer,
            reachable: false,
            duration: PEER_UNREACHABLE_TTL,
            previous: self.previous,
        }
    }

    /// What an event leads to: the state after it, and what is to be done.
    pub open spec fn follows(self, event: ProbeEvent, next: Probe, action: ProbeAction) -> bool {
        &&& next.peer == self.peer
        &&& next.previous == self.previous
        &&& match event {
            ProbeEvent::Connected => next.phase is Requesting && action is RequestPeers,
            ProbeEvent::Answered(addr, list) => {
                &&& next.phase matches ProbePhase::Closing(told)
                &&& told@ == told_peers(list@)
                &&& action == ProbeAction::MarkAndClose(self.reachable_mark(addr))
            },
            ProbeEvent::Closed => {
                &&& next.phase is Finished
                &&& action matches ProbeAction::Finish(end)
                &&& end.release == self.peer
                &&& end.enqueue@ == self.phase->Closing_0@
                &&& end.mark is None
            },
            ProbeEvent::Failed | ProbeEvent::TimedOut => {
                &&& next.phase is Finished
                &&& action matches ProbeAction::Finish(end)
                &&& end.release == self.peer
                &&& end.enqueue@ == Seq::<PeerAddr>::empty()
                &&& end.mark == Some(self.unreachable_mark())
            },
        }
    }

    /// A connection to `peer`, of which the status is `previous`, that is being made.
    pub fn new(peer: PeerAddr, previous: PeerStatus) -> (probe: Probe)
        ensures
            probe.peer == peer,
            probe.previous == previous,
            probe.phase is Connecting,
    {
        Probe { peer, previous, phase: ProbePhase::Connecting }
    }

    /// Whether the event can happen in this state.
    pub fn can_take(&self, event: &ProbeEvent) -> (can: bool)
        ensures
            can == self.accepts(*event),
    {
        match (&self.phase, event) {
            (ProbePhase::Connecting, ProbeEvent::Connected) => true,
            (ProbePhase::Connecting, ProbeEvent::Failed) => true,
            (ProbePhase::Connecting, ProbeEvent::TimedOut) => true,
            (ProbePhase::Requesting, ProbeEvent::Answered(_, _)) => true,
            (ProbePhase::Requesting, ProbeEvent::Failed) => true,
            (ProbePhase::Requesting, ProbeEvent::TimedOut) => true,
            (ProbePhase::Closing(_), ProbeEvent::Closed) => true,
            (ProbePhase::Closing(_), ProbeEvent::TimedOut) => true,
            _ => false,
        }
    }

    /// Takes an event, and returns the new state and what is to be done.
    pub fn step(self, event: ProbeEvent) -> (next: (Probe, ProbeAction))
        requires
            self.accepts(event),
        ensures
            self.follows(event, next.0, next.1),
    {
        let Probe { peer, previous, phase } = self;
        match event {
            ProbeEvent::Connected => (
                Probe { peer, previous, phase: ProbePhase::Requesting },
                ProbeAction::RequestPeers,
            ),
            ProbeEvent::Answered(addr, list) => {
                let told = new_peers(&list);
                let mark = Mark { addr, reachable: true, duration: PEER_REACHABLE_TTL, previous };
                (
                    Probe { peer, previous, phase: ProbePhase::Closing(told) },
                    ProbeAction::MarkAndClose(mark),
                )
            },
            ProbeEvent::Closed => {
                let enqueue = match phase {
                    ProbePhase::Closing(told) => told,
                    _ => Vec::new(),
                };
                let end = ProbeEnd { release: peer, enqueue, mark: None };
                (
                    Probe { peer, previous, phase: ProbePhase::Finished },
                    ProbeAction::Finish(end),
                )
            },
            ProbeEvent::Failed | ProbeEvent::TimedOut => {
                let mark = Mark {
                    addr: peer,
                    reachable: false,
                    duration: PEER_UNREACHABLE_TTL,
                    previous,
                };
                let end = ProbeEnd { release: peer, enqueue: Vec::new(), mark: Some(mark) };
                (
                    Probe { peer, previous, phase: ProbePhase::Finished },
                    ProbeAction::Finish(end),
                )
            },
        }
    }
}

/// Whether a connection that is being made goes through the given states, where each event
/// leads from one state to the next and to one thing to be done.
pub open spec fn course(
    states: Seq<Probe>,
    events: Seq<ProbeEvent>,
    actions: Seq<ProbeAction>,
) -> bool {
    &&& states.len() == events.len() + 1
    &&& actions.len() == events.len()
    &&& states[0].phase is Connecting
    &&& forall|i: int|
        0 <= i < events.len() ==> {
            &&& states[i].accepts(#[trigger] events[i])
            &&& states[i].follows(events[i], states[i + 1], actions[i])
        }
}

/// A connection is over after three events at the latest.
pub proof fn law_probe_ends(
    states: Seq<Probe>,
    events: Seq<ProbeEvent>,
    actions: Seq<ProbeAction>,
)
    requires
        course(states, events, actions),
    ensures
        events.len() <= 3,
        events.len() == 3 ==> states[3].phase is Finished,
{
    if events.len() > 0 {
        assert(states[0].accepts(events[0]));
    }
    if events.len() > 1 {
        assert(states[1].accepts(events[1]));
    }
    if events.len() > 2 {
        assert(states[2].accepts(events[2]));
    }
    if events.len() > 3 {
        assert(states[3].accepts(events[3]));
    }
}

/// However a connection ends, its peer is released, once and as the last thing. Either the peer
/// was asked, answered and was left, and then it was marked as reachable and the peers that it
/// told of are put into the queue; or it is marked as unreachable, and nobody is.
pub proof fn law_probe_outcomes(
    states: Seq<Probe>,
    events: Seq<ProbeEvent>,
    actions: Seq<ProbeAction>,
)
    requires
        course(states, events, actions),
        states.last().phase is Finished,
    ensures
        forall|i: int| 0 <= i < actions.len() - 1 ==> !(#[trigger] actions[i] is Finish),
        actions.len() > 0,
        actions.last() matches ProbeAction::Finish(end) && {
            &&& end.release == states[0].peer
            &&& events.last() is Closed <==> end.mark is None
            &&& events.last() is Closed ==> {
                &&& events.len() == 3
                &&& events[1] matches ProbeEvent::Answered(addr, list)
                &&& actions[1] == ProbeAction::MarkAndClose(states[0].reachable_mark(addr))
                &&& end.enqueue@ == told_peers(list@)
            }
            &&& !(events.last() is Closed) ==> {
                &&& end.mark == Some(states[0].unreachable_mark())
                &&& end.enqueue@ == Seq::<PeerAddr>::empty()
            }
        },
{
    law_probe_ends(states, events, actions);
    if events.len() > 0 {
        assert(states[0].accepts(events[0]));
    }
    if events.len() > 1 {
        assert(states[1].accepts(events[1]));
    }
    if events.len() > 2 {
        assert(states[2].accepts(events[2]));
    }
}

/// When an event can happen: the connection can be made while it is being made, the peer can
/// answer once it was asked, the connection can be closed once the peer answered, it can fail
/// until the peer answered, and the time can be over as long as it is not.
pub proof fn law_probe_events(probe: Probe, event: ProbeEvent)
    ensures
        probe.accepts(event) <==> match event {
            ProbeEvent::Connected => probe.phase is Connecting,
            ProbeEvent::Answered(_, _) => probe.phase is Requesting,
            ProbeEvent::Closed => probe.phase is Closing,
            ProbeEvent::Failed => probe.phase is Connecting || probe.phase is Requesting,
            ProbeEvent::TimedOut => !(probe.phase is Finished),
        },
{
}

/// The peers that were told of are those entries of the list whose host is an IP address, in
/// order: each has the bits of its entry's address and the port of its entry.
pub proof fn law_told_peers_by_place(list: Seq<PeerInfo>) -> (places: Seq<int>)
    ensures
        ascending(places),
        places.len() == told_peers(list).len(),
        forall|i: int|
            0 <= i < list.len() ==> (#[trigger] places.contains(i) <==> list[i].ip is Some),
        forall|k: int|
            0 <= k < places.len() ==> 0 <= #[trigger] places[k] < list.len()
                && match list[places[k]].ip {
                Some(PeerIp::V4(bits)) => told_peers(list)[k] == (PeerAddr::V4 {
                    ip: bits,
                    port: list[places[k]].port,
                }),
                Some(PeerIp::V6(bits)) => told_peers(list)[k] == (PeerAddr::V6 {
                    ip: bits,
                    port: list[places[k]].port,
                    flowinfo: 0,
                    scope_id: 0,
                }),
                None => false,
            },
{
    let named = |info: PeerInfo| info.ip is Some;
    let places = lemma_found(list, named);
    assert forall|k: int| 0 <= k < places.len() implies list[#[trigger] places[k]].ip is Some by {
        assert(places.contains(places[k]));
        assert(named(list[places[k]]));
    }
    places
}

/// What was told is what is taken: an address is among the peers that were told of exactly if an
/// entry of the list has its bits and its port.
pub proof fn law_told_peers_are_those_of_the_list(list: Seq<PeerInfo>)
    ensures
        forall|ip: u32, port: u16| #[trigger]
            told_peers(list).contains(PeerAddr::V4 { ip, port }) <==> list.contains(
                PeerInfo { ip: Some(PeerIp::V4(ip)), port },
            ),
        forall|ip: u128, port: u16, flowinfo: u32, scope_id: u32| #[trigger]
            told_peers(list).contains(PeerAddr::V6 { ip, port, flowinfo, scope_id }) <==> flowinfo
                == 0 && scope_id == 0 && list.contains(
                PeerInfo { ip: Some(PeerIp::V6(ip)), port },
            ),
{
    let told = told_peers(list);
    let places = law_told_peers_by_place(list);
    assert forall|ip: u32, port: u16| #[trigger]
        told.contains(PeerAddr::V4 { ip, port }) <==> list.contains(
            PeerInfo { ip: Some(PeerIp::V4(ip)), port },
        ) by {
        let entry = PeerInfo { ip: Some(PeerIp::V4(ip)), port };
        if told.contains(PeerAddr::V4 { ip, port }) {
            let k = told.index_of(PeerAddr::V4 { ip, port });
            assert(list[places[k]] == entry);
        }
        if list.contains(entry) {
            let i = list.index_of(entry);
            assert(places.contains(i));
            let k = places.index_of(i);
            assert(places[k] == i);
            assert(told[k] == PeerAddr::V4 { ip, port });
        }
    }
    assert forall|ip: u128, port: u16, flowinfo: u32, scope_id: u32| #[trigger]
        told.contains(PeerAddr::V6 { ip, port, flowinfo, scope_id }) <==> flowinfo == 0 && scope_id
            == 0 && list.contains(PeerInfo { ip: Some(PeerIp::V6(ip)), port }) by {
        let entry = PeerInfo { ip: Some(PeerIp::V6(ip)), port };
        let addr = PeerAddr::V6 { ip, port, flowinfo, scope_id };
        if told.contains(addr) {
            let k = told.index_of(addr);
            assert(list[places[k]] == entry);
        }
        if flowinfo == 0 && scope_id == 0 && list.contains(entry) {
            let i = list.index_of(entry);
            assert(places.contains(i));
            let k = places.index_of(i);
            assert(places[k] == i);
            assert(told[k] == addr);
        }
    }
}

/// What each event leads to, whatever the peer and its status were. A connection that was made is
/// used to ask for peers. An answer marks the address it came from as reachable, for an hour, and
/// what it told of waits for the connection to be closed; then that is queued, and nothing is
/// marked. A failure or a timeout marks the peer itself as unreachable, for a day, and nothing is
/// queued. At the end the peer itself is released.
pub proof fn law_probe_step_by_field(
    before: Probe,
    event: ProbeEvent,
    after: Probe,
    action: ProbeAction,
)
    requires
        before.accepts(event),
        before.follows(event, after, action),
    ensures
        after.peer == before.peer,
        after.previous == before.previous,
        event is Connected ==> after.phase is Requesting && action is RequestPeers,
        event is Answered ==> {
            &&& action matches ProbeAction::MarkAndClose(mark)
            &&& mark.addr == event->Answered_0
            &&& mark.reachable
            &&& mark.duration == 3600
            &&& mark.previous == before.previous
            &&& after.phase matches ProbePhase::Closing(told)
            &&& told@.len() <= event->Answered_1@.len()
            &&& told@ == told_peers(event->Answered_1@)
        },
        event is Closed ==> {
            &&& after.phase is Finished
            &&& action matches ProbeAction::Finish(end)
            &&& end.release == before.peer
            &&& end.mark is None
            &&& before.phase matches ProbePhase::Closing(told)
            &&& end.enqueue@ == told@
        },
        event is Failed || event is TimedOut ==> {
            &&& after.phase is Finished
            &&& action matches ProbeAction::Finish(end)
            &&& end.release == before.peer
            &&& end.enqueue@.len() == 0
            &&& end.mark matches Some(mark)
            &&& mark.addr == before.peer
            &&& !mark.reachable
            &&& mark.duration == 86400
            &&& mark.previous == before.previous
        },
{
    if event is Answered {
        lemma_filter_members(event->Answered_1@, |info: PeerInfo| info.ip is Some);
    }
}

/// From the first moment to the last: a connection that ends by being closed had exactly one
/// answer, which marked the address it came from as reachable for an hour, and ends with queueing
/// the entries of that answer's list whose host is an IP address, at their ports. One that ends
/// otherwise marks the peer as unreachable for a day and queues nothing. Both release the peer.
pub proof fn law_probe_course_by_field(
    states: Seq<Probe>,
    events: Seq<ProbeEvent>,
    actions: Seq<ProbeAction>,
) -> (places: Seq<int>)
    requires
        course(states, events, actions),
        states.last().phase is Finished,
    ensures
        actions.len() > 0,
        actions.last() matches ProbeAction::Finish(end) && {
            &&& end.release == states[0].peer
            &&& events.last() is Failed || events.last() is TimedOut ==> {
                &&& end.enqueue@.len() == 0
                &&& end.mark matches Some(mark)
                &&& mark.addr == states[0].peer
                &&& !mark.reachable
                &&& mark.duration == 86400
                &&& mark.previous == states[0].previous
            }
            &&& !(events.last() is Failed || events.last() is TimedOut) ==> {
                &&& end.mark is None
                &&& events.len() == 3
                &&& events[1] matches ProbeEvent::Answered(addr, list)
                &&& actions[1] matches ProbeAction::MarkAndClose(mark)
                &&& mark.addr == addr
                &&& mark.reachable
                &&& mark.duration == 3600
                &&& mark.previous == states[0].previous
                &&& ascending(places)
                &&& places.len() == end.enqueue@.len()
                &&& forall|i: int|
                    0 <= i < list@.len() ==> (#[trigger] places.contains(i)
                        <==> list@[i].ip is Some)
                &&& forall|k: int|
                    0 <= k < places.len() ==> 0 <= #[trigger] places[k] < list@.len()
                        && match list@[places[k]].ip {
                        Some(PeerIp::V4(bits)) => end.enqueue@[k] == (PeerAddr::V4 {
                            ip: bits,
                            port: list@[places[k]].port,
                        }),
                        Some(PeerIp::V6(bits)) => end.enqueue@[k] == (PeerAddr::V6 {
                            ip: bits,
                            port: list@[places[k]].port,
                            flowinfo: 0,
                            scope_id: 0,
                        }),
                        None => false,
                    }
            }
        },
{
    law_probe_outcomes(states, events, actions);
    if events.len() > 0 {
        assert(states[0].accepts(events[0]));
    }
    if events.len() > 1 {
        assert(states[1].accepts(events[1]));
    }
    if events.len() > 2 {
        assert(states[2].accepts(events[2]));
    }
    law_probe_ends(states, events, actions);
    if events.len() == 3 && events[1] is Answered {
        law_told_peers_by_place(events[1]->Answered_1@)
    } else {
        Seq::empty()
    }
}

} // verus!
