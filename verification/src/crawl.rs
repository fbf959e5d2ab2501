//! The crawler: which peers from the queue are connected to, and how many at a time.
use vstd::prelude::*;

use crate::address::PeerAddr;
use crate::config::MAX_CONCURRENT_CONNECTIONS;
use crate::peers::PeerStatus;

verus! {

/// What the crawler is waiting for.
#[derive(Debug, Clone, Copy, PartialEq, Eq, Structural)]
pub enum CrawlPhase {
    /// The next peer of the queue, or the end of a connection.
    Listening,
    /// What is known of the peer that came out of the queue.
    Checking(PeerAddr),
    /// The end of a connection, before it takes another peer.
    Saturated,
    /// The end of the last connections, after which it stops.
    Draining,
    /// Nothing more.
    Stopped,
}

/// What can happen to the crawler.
#[derive(Debug, Clone, Copy, PartialEq, Eq, Structural)]
pub enum CrawlEvent {
    /// A peer came out of the queue.
    Received(PeerAddr),
    /// The status of the peer that came out of the queue was read.
    StatusRead(PeerStatus),
    /// A connection ended.
    TaskDone,
    /// The queue is closed.
    QueueClosed,
}

/// What is to be done next.
#[derive(Debug, Clone, Copy, PartialEq, Eq, Structural)]
pub enum CrawlAction {
    /// Wait for the queue and for the end of a connection, whichever comes first.
    Listen,
    /// Release the peer, which is not due, and then listen.
    Skip(PeerAddr),
    /// Read the status of the peer.
    ReadStatus(PeerAddr),
    /// Start a connection to the peer, of which the status is known, and then listen.
    Connect(PeerAddr, PeerStatus),
    /// Release the peer, for which there are too many connections, and then wait for the end of
    /// one.
    PassOver(PeerAddr),
    /// Wait for the end of a connection.
    AwaitTask,
    /// Stop.
    Stop,
}

/// The state of the crawler.
#[derive(Debug, Clone, Copy, PartialEq, Eq, Structural)]
pub struct Crawl {
    pub phase: CrawlPhase,
    /// The connections under way.
    pub in_flight: usize,
}

/// Whether a peer of the given status is due: nothing is known of it, or no longer.
pub open spec fn due(status: PeerStatus) -> bool {
    !(status is Reachable) && !(status is Unreachable)
}

impl Crawl {
    /// There are never more connections than allowed. None is under way when the crawler has
    /// stopped, and one at least where it waits for one to end.
    pub open spec fn well_formed(self) -> bool {
        &&& self.in_flight <= MAX_CONCURRENT_CONNECTIONS
        &&& (self.phase is Saturated || self.phase is Draining ==> self.in_flight > 0)
        &&& (self.phase is Stopped ==> self.in_flight == 0)
    }

    /// Whether the event can happen in this state.
    pub open spec fn accepts(self, event: CrawlEvent) -> bool {
        match self.phase {
            CrawlPhase::Listening => match event {
                CrawlEvent::Received(_) => true,
                CrawlEvent::QueueClosed => true,
                CrawlEvent::TaskDone => self.in_flight > 0,
                CrawlEvent::StatusRead(_) => false,
            },
            CrawlPhase::Checking(_) => event is StatusRead,
            CrawlPhase::Saturated => event is TaskDone,
            CrawlPhase::Draining => event is TaskDone,
            CrawlPhase::Stopped => false,
        }
    }

    /// The state after an event, and what is to be done.
    pub open spec fn next(self, event: CrawlEvent) -> (Crawl, CrawlAction) {
        match event {
            CrawlEvent::Received(peer) => (
                Crawl { phase: CrawlPhase::Checking(peer), ..self },
                CrawlAction::ReadStatus(peer),
            ),
            CrawlEvent::StatusRead(status) => if !due(status) {
                (
                    Crawl { phase: CrawlPhase::Listening, ..self },
                    CrawlAction::Skip(self.phase->Checking_0),
                )
            } else if self.in_flight < MAX_CONCURRENT_CONNECTIONS {
                (
                    Crawl {
                        phase: CrawlPhase::Listening,
                        in_flight: (self.in_flight + 1) as usize,
                    },
                    CrawlAction::Connect(self.phase->Checking_0, status),
                )
            } else {
                (
                    Crawl { phase: CrawlPhase::Saturated, ..self },
                    CrawlAction::PassOver(self.phase->Checking_0),
                )
            },
            CrawlEvent::TaskDone => {
                let in_flight = (self.in_flight - 1) as usize;
                if self.phase is Draining {
                    if in_flight == 0 {
                        (Crawl { phase: CrawlPhase::Stopped, in_flight }, CrawlAction::Stop)
                    } else {
                        (Crawl { phase: CrawlPhase::Draining, in_flight }, CrawlAction::AwaitTask)
                    }
                } else {
                    (Crawl { phase: CrawlPhase::Listening, in_flight }, CrawlAction::Listen)
                }
            },
            CrawlEvent::QueueClosed => if self.in_flight == 0 {
                (Crawl { phase: CrawlPhase::Stopped, ..self }, CrawlAction::Stop)
            } else {
                (Crawl { phase: CrawlPhase::Draining, ..self }, CrawlAction::AwaitTask)
            },
        }
    }

    /// A crawler that listens, with no connection under way.
    pub fn new() -> (crawl: Crawl)
        ensures
            crawl == (Crawl { phase: CrawlPhase::Listening, in_flight: 0 }),
            crawl.well_formed(),
    {
        Crawl { phase: CrawlPhase::Listening, in_flight: 0 }
    }

    /// Whether the event can happen in this state.
    pub fn can_take(&self, event: CrawlEvent) -> (can: bool)
        ensures
            can == self.accepts(event),
    {
        match self.phase {
            CrawlPhase::Listening => match event {
                CrawlEvent::Received(_) => true,
                CrawlEvent::QueueClosed => true,
                CrawlEvent::TaskDone => self.in_flight > 0,
                CrawlEvent::StatusRead(_) => false,
            },
            CrawlPhase::Checking(_) => match event {
                CrawlEvent::StatusRead(_) => true,
                _ => false,
            },
            CrawlPhase::Saturated | CrawlPhase::Draining => match event {
                CrawlEvent::TaskDone => true,
                _ => false,
            },
            CrawlPhase::Stopped => false,
        }
    }

    /// Takes an event, and returns what is to be done.
    pub fn step(&mut self, event: CrawlEvent) -> (action: CrawlAction)
        requires
            old(self).well_formed(),
            old(self).accepts(event),
        ensures
            (*final(self), action) == old(self).next(event),
            final(self).well_formed(),
    {
        match event {
            CrawlEvent::Received(peer) => {
                self.phase = CrawlPhase::Checking(peer);
                CrawlAction::ReadStatus(peer)
            },
            CrawlEvent::StatusRead(status) => {
                let peer = match self.phase {
                    CrawlPhase::Checking(peer) => peer,
                    _ => return CrawlAction::Listen,
                };
                self.phase = CrawlPhase::Listening;
                match status {
                    PeerStatus::Unreachable => CrawlAction::Skip(peer),
                    PeerStatus::Reachable => CrawlAction::Skip(peer),
                    _ => {
                        if self.in_flight < MAX_CONCURRENT_CONNECTIONS {
                            self.in_flight = self.in_flight + 1;
                            CrawlAction::Connect(peer, status)
                        } else {
                            self.phase = CrawlPhase::Saturated;
                            CrawlAction::PassOver(peer)
                        }
                    },
                }
            },
            CrawlEvent::TaskDone => {
                self.in_flight = self.in_flight - 1;
                match self.phase {
                    CrawlPhase::Draining => {
                        if self.in_flight == 0 {
                            self.phase = CrawlPhase::Stopped;
                            CrawlAction::Stop
                        } else {
                            CrawlAction::AwaitTask
                        }
                    },
                    _ => {
                        self.phase = CrawlPhase::Listening;
                        CrawlAction::Listen
                    },
                }
            },
            CrawlEvent::QueueClosed => {
                if self.in_flight == 0 {
                    self.phase = CrawlPhase::Stopped;
                    CrawlAction::Stop
                } else {
                    self.phase = CrawlPhase::Draining;
                    CrawlAction::AwaitTask
                }
            },
        }
    }
}

/// The state that a new crawler is in after a sequence of events.
pub open spec fn after(events: Seq<CrawlEvent>) -> Crawl
    decreases events.len(),
{
    if events.len() == 0 {
        Crawl { phase: CrawlPhase::Listening, in_flight: 0 }
    } else {
        after(events.drop_last()).next(events.last()).0
    }
}

/// Whether each of the events can happen when its turn comes.
pub open spec fn possible(events: Seq<CrawlEvent>) -> bool
    decreases events.len(),
{
    events.len() == 0 || {
        &&& possible(events.drop_last())
        &&& after(events.drop_last()).accepts(events.last())
    }
}

/// The number of connections that were started.
pub open spec fn started(events: Seq<CrawlEvent>) -> int
    decreases events.len(),
{
    if events.len() == 0 {
        0
    } else if after(events.drop_last()).next(events.last()).1 is Connect {
        started(events.drop_last()) + 1
    } else {
        started(events.drop_last())
    }
}

/// The number of connections that ended.
pub open spec fn ended(events: Seq<CrawlEvent>) -> int
    decreases events.len(),
{
    if events.len() == 0 {
        0
    } else if events.last() is TaskDone {
        ended(events.drop_last()) + 1
    } else {
        ended(events.drop_last())
    }
}

/// The number of peers that came out of the queue.
pub open spec fn received(events: Seq<CrawlEvent>) -> int
    decreases events.len(),
{
    if events.len() == 0 {
        0
    } else if events.last() is Received {
        received(events.drop_last()) + 1
    } else {
        received(events.drop_last())
    }
}

/// The number of peers that were released without a connection.
pub open spec fn let_go(events: Seq<CrawlEvent>) -> int
    decreases events.len(),
{
    if events.len() == 0 {
        0
    } else {
        let action = after(events.drop_last()).next(events.last()).1;
        if action is Skip || action is PassOver {
            let_go(events.drop_last()) + 1
        } else {
            let_go(events.drop_last())
        }
    }
}

/// No peer that came out of the queue is lost: it is being checked, or a connection to it was
/// started, or it was released.
pub proof fn law_no_peer_is_lost(events: Seq<CrawlEvent>)
    requires
        possible(events),
    ensures
        received(events) == started(events) + let_go(events) + if after(events).phase is Checking {
            1int
        } else {
            0
        },
    decreases events.len(),
{
    if events.len() > 0 {
        law_no_peer_is_lost(events.drop_last());
    }
}

/// The check of a peer ends with that peer: it is connected to if it is due and there is room,
/// and released otherwise.
pub proof fn law_checks_are_concluded(crawl: Crawl, peer: PeerAddr, status: PeerStatus)
    requires
        crawl.phase == CrawlPhase::Checking(peer),
    ensures
        crawl.next(CrawlEvent::StatusRead(status)).1 == if !due(status) {
            CrawlAction::Skip(peer)
        } else if crawl.in_flight < MAX_CONCURRENT_CONNECTIONS {
            CrawlAction::Connect(peer, status)
        } else {
            CrawlAction::PassOver(peer)
        },
{
}

/// Whatever happens, the connections that were started and have not ended are never more
/// than allowed, and the crawler's own count is their number.
pub proof fn law_connections_bounded(events: Seq<CrawlEvent>)
    requires
        possible(events),
    ensures
        0 <= started(events) - ended(events) <= MAX_CONCURRENT_CONNECTIONS,
        started(events) - ended(events) == after(events).in_flight,
        after(events).well_formed(),
    decreases events.len(),
{
    if events.len() > 0 {
        law_connections_bounded(events.drop_last());
    }
}

/// The crawler stops only when the queue is closed and every connection has ended.
pub proof fn law_stops_drained(events: Seq<CrawlEvent>)
    requires
        possible(events),
        after(events).phase is Stopped,
    ensures
        started(events) == ended(events),
        events.contains(CrawlEvent::QueueClosed),
{
    law_connections_bounded(events);
    lemma_drains_after_close(events);
}

/// The crawler drains or has stopped only after the queue was closed.
proof fn lemma_drains_after_close(events: Seq<CrawlEvent>)
    requires
        possible(events),
        after(events).phase is Stopped || after(events).phase is Draining,
    ensures
        events.contains(CrawlEvent::QueueClosed),
    decreases events.len(),
{
    if events.len() > 0 {
        let before = events.drop_last();
        if events.last() is QueueClosed {
            assert(events[events.len() - 1] == CrawlEvent::QueueClosed);
        } else {
            lemma_drains_after_close(before);
            let k = before.index_of(CrawlEvent::QueueClosed);
            assert(events[k] == CrawlEvent::QueueClosed);
        }
    }
}

/// A connection is started only to the peer that just came out of the queue, and only if its
/// status says that it is due.
pub proof fn law_connects_only_if_due(crawl: Crawl, event: CrawlEvent)
    requires
        crawl.accepts(event),
        crawl.next(event).1 is Connect,
    ensures
        event is StatusRead,
        due(event->StatusRead_0),
        crawl.phase == CrawlPhase::Checking(crawl.next(event).1->Connect_0),
        crawl.next(event).1->Connect_1 == event->StatusRead_0,
        crawl.in_flight < MAX_CONCURRENT_CONNECTIONS,
{
}

/// What can happen when: a crawler that listens takes any peer and the close of the queue, one
/// that checks a peer takes any status and nothing else, and a connection can end wherever one is
/// under way but during a check. Nothing happens to a crawler that has stopped.
pub proof fn law_crawl_events(crawl: Crawl, event: CrawlEvent)
    requires
        crawl.well_formed(),
    ensures
        crawl.accepts(event) <==> match event {
            CrawlEvent::Received(_) => crawl.phase is Listening,
            CrawlEvent::QueueClosed => crawl.phase is Listening,
            CrawlEvent::StatusRead(_) => crawl.phase is Checking,
            CrawlEvent::TaskDone => crawl.in_flight > 0 && !(crawl.phase is Checking),
        },
        crawl.in_flight <= 128,
{
}

/// Every peer that comes out of the queue is checked, whatever its address and however many
/// connections there are: its status is read, and nothing else changes.
pub proof fn law_received_peers_are_checked(crawl: Crawl, peer: PeerAddr)
    ensures
        crawl.accepts(CrawlEvent::Received(peer)) <==> crawl.phase is Listening,
        crawl.next(CrawlEvent::Received(peer)).0.phase == CrawlPhase::Checking(peer),
        crawl.next(CrawlEvent::Received(peer)).0.in_flight == crawl.in_flight,
        crawl.next(CrawlEvent::Received(peer)).1 == CrawlAction::ReadStatus(peer),
{
}

/// Peers that are known to be reachable or unreachable are not due; all others are.
pub proof fn law_due_by_status(status: PeerStatus)
    ensures
        due(status) <==> status is Unknown || status is ReachableExpired
            || status is UnreachableExpired,
{
}

/// What becomes of a received peer, whatever its address, goes by its status and by the number of
/// connections alone. One that is known to be reachable or unreachable is released. Any other is
/// connected to if there are fewer than 128 connections, which is one more then, and released if
/// there are 128, and then one has to end first.
pub proof fn law_received_peers_by_status(crawl: Crawl, peer: PeerAddr, status: PeerStatus)
    requires
        crawl.phase is Listening,
        crawl.in_flight <= 128,
    ensures
        ({
            let checking = crawl.next(CrawlEvent::Received(peer)).0;
            let (after, action) = checking.next(CrawlEvent::StatusRead(status));
            &&& checking.accepts(CrawlEvent::StatusRead(status))
            &&& status is Reachable || status is Unreachable ==> action == CrawlAction::Skip(peer)
                && after == crawl
            &&& status is Unknown || status is ReachableExpired || status is UnreachableExpired
                ==> if crawl.in_flight < 128 {
                &&& action == CrawlAction::Connect(peer, status)
                &&& after.phase is Listening
                &&& after.in_flight == crawl.in_flight + 1
            } else {
                &&& action == CrawlAction::PassOver(peer)
                &&& after.phase is Saturated
                &&& after.in_flight == 128
            }
        }),
{
}

/// When a connection ends, there is one less. A crawler that drains goes on with it until none is
/// left, and then stops; any other listens again.
pub proof fn law_ended_connections(crawl: Crawl)
    requires
        crawl.well_formed(),
        crawl.accepts(CrawlEvent::TaskDone),
    ensures
        ({
            let (after, action) = crawl.next(CrawlEvent::TaskDone);
            &&& after.in_flight == crawl.in_flight - 1
            &&& !(crawl.phase is Draining) ==> after.phase is Listening && action is Listen
            &&& crawl.phase is Draining && crawl.in_flight > 1 ==> after.phase is Draining
                && action is AwaitTask
            &&& crawl.phase is Draining && crawl.in_flight == 1 ==> after.phase is Stopped
                && action is Stop
        }),
{
}

/// When the queue is closed, the crawler stops at once if no connection is under way, and
/// otherwise waits for all of them.
pub proof fn law_closed_queue(crawl: Crawl)
    requires
        crawl.phase is Listening,
    ensures
        ({
            let (after, action) = crawl.next(CrawlEvent::QueueClosed);
            &&& after.in_flight == crawl.in_flight
            &&& crawl.in_flight == 0 ==> after.phase is Stopped && action is Stop
            &&& crawl.in_flight > 0 ==> after.phase is Draining && action is AwaitTask
        }),
{
}

} // verus!
