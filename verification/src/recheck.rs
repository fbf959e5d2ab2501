//! The periodic rounds that try expired peers again, and when they start.
use vstd::prelude::*;

use crate::address::PeerAddr;
use crate::config::{PEER_RECHECK_BATCH_SIZE, PEER_RECHECK_INTERVAL};
use crate::dns::{dropped_addresses, texts, PeerDiscoveryAuthority};
use crate::peer::{admitted, law_recheck_by_place, recheck_batch, sent_from, PeerProcessor};
use crate::peers::{expired_peers, kept_records, reachable_records, PeerRecord};
use crate::rows::{
    ascending, drawn_from, found_at, law_cleanup_by_row, law_expired_peers_by_row,
    law_reachable_count_by_row, rank,
};

verus! {

/// What a round did.
#[derive(Debug)]
pub struct RecheckRound {
    /// The addresses of the rows that were dropped.
    pub removed: Vec<String>,
    /// The number of reachable peers.
    pub reachable: usize,
    /// The number of them that have expired, as far as the round looks.
    pub expired: usize,
    /// The number of peers under way before the round.
    pub processing: usize,
    /// The peers to be sent to the crawler.
    pub sent: Vec<PeerAddr>,
}

/// The expired peers that a round looks at.
pub open spec fn round_peers(records: Seq<PeerRecord>, now: i64) -> Seq<PeerAddr> {
    expired_peers(records, PEER_RECHECK_BATCH_SIZE, now)
}

/// What a round at second `now` makes of the table and of the peers under way, and what it
/// reports.
pub open spec fn round_follows(
    before: Seq<PeerRecord>,
    under_way: Set<PeerAddr>,
    now: i64,
    after: Seq<PeerRecord>,
    under_way_after: Set<PeerAddr>,
    round: RecheckRound,
) -> bool {
    let batch = recheck_batch(round_peers(after, now), under_way.len());
    &&& after == kept_records(before, now)
    &&& texts(round.removed@) == dropped_addresses(before, now)
    &&& round.reachable == reachable_records(after, None).len()
    &&& round.expired == round_peers(after, now).len()
    &&& round.processing == under_way.len()
    &&& round.sent@ == admitted(under_way, batch)
    &&& under_way_after == under_way.union(batch.to_set())
}

/// A round at second `now`: drops the unreachable peers whose time is over, and takes
/// expired reachable peers under way again.
pub fn recheck_round<T, A>(
    authority: &mut PeerDiscoveryAuthority,
    processor: &mut PeerProcessor<T, A>,
    now: i64,
) -> (round: RecheckRound)
    requires
        old(processor).well_formed(),
    ensures
        final(processor).well_formed(),
        final(processor).setup() == old(processor).setup(),
        final(authority).records() == kept_records(old(authority).records(), now),
        final(authority).origin_labels() == old(authority).origin_labels(),
        texts(round.removed@) == dropped_addresses(old(authority).records(), now),
        round.reachable == reachable_records(final(authority).records(), None).len(),
        round.expired == round_peers(final(authority).records(), now).len(),
        round.processing == old(processor).processing().len(),
        round.sent@ == admitted(
            old(processor).processing(),
            recheck_batch(
                round_peers(final(authority).records(), now),
                old(processor).processing().len(),
            ),
        ),
        final(processor).processing() == old(processor).processing().union(
            recheck_batch(
                round_peers(final(authority).records(), now),
                old(processor).processing().len(),
            ).to_set(),
        ),
        round_follows(
            old(authority).records(),
            old(processor).processing(),
            now,
            final(authority).records(),
            final(processor).processing(),
            round,
        ),
{
    let removed = authority.cleanup_unreachable_peers(now);
    let peers = authority.get_expired_reachable_peers(PEER_RECHECK_BATCH_SIZE, now);
    let expired = peers.len();
    let processing = processor.processing_len();
    let reachable = authority.get_reachable_peer_count();
    let sent = processor.recheck(&peers);
    RecheckRound { removed, reachable, expired, processing, sent }
}

/// What the rechecker is to do next.
#[derive(Debug, Clone, Copy, PartialEq, Eq, Structural)]
pub enum RecheckAction {
    /// Do a round.
    Round,
    /// Sleep for a number of seconds.
    Sleep(u64),
}

/// When the rounds start.
#[derive(Debug, Clone, Copy, PartialEq, Eq, Structural)]
pub struct Rechecker {
    /// Whether a round is due, not a sleep.
    pub due: bool,
}

impl Rechecker {
    /// The state after the next action, and that action.
    pub open spec fn next(self) -> (Rechecker, RecheckAction) {
        if self.due {
            (Rechecker { due: false }, RecheckAction::Round)
        } else {
            (Rechecker { due: true }, RecheckAction::Sleep(PEER_RECHECK_INTERVAL))
        }
    }

    /// A rechecker whose first round is due at once.
    pub fn new() -> (rechecker: Rechecker)
        ensures
            rechecker == (Rechecker { due: true }),
    {
        Rechecker { due: true }
    }

    /// The next thing to do: a round, or the sleep between two of them.
    pub fn step(&mut self) -> (action: RecheckAction)
        ensures
            (*final(self), action) == old(self).next(),
    {
        if self.due {
            self.due = false;
            RecheckAction::Round
        } else {
            self.due = true;
            RecheckAction::Sleep(PEER_RECHECK_INTERVAL)
        }
    }
}

/// The state of a new rechecker after a number of actions.
pub open spec fn rechecker_after(count: nat) -> Rechecker
    decreases count,
{
    if count == 0 {
        Rechecker { due: true }
    } else {
        rechecker_after((count - 1) as nat).next().0
    }
}

/// What a new rechecker does after a number of actions.
pub open spec fn action_at(count: nat) -> RecheckAction {
    rechecker_after(count).next().1
}

/// The rounds among a number of first actions.
pub open spec fn rounds_before(count: nat) -> int
    decreases count,
{
    if count == 0 {
        0
    } else {
        rounds_before((count - 1) as nat) + if action_at((count - 1) as nat) is Round {
            1int
        } else {
            0
        }
    }
}

/// The seconds slept in a number of first actions.
pub open spec fn slept_before(count: nat) -> int
    decreases count,
{
    if count == 0 {
        0
    } else {
        slept_before((count - 1) as nat) + match action_at((count - 1) as nat) {
            RecheckAction::Round => 0,
            RecheckAction::Sleep(seconds) => seconds as int,
        }
    }
}

/// The first round starts at once, and each later one after a sleep of one interval; this goes
/// on without end. Rounds and sleeps take turns, and when a round starts, one interval was slept
/// for each round before it.
pub proof fn law_rounds_every_interval(count: nat)
    ensures
        action_at(0) is Round,
        action_at(count) is Round ==> action_at(count + 1) == RecheckAction::Sleep(
            PEER_RECHECK_INTERVAL,
        ),
        action_at(count) is Sleep ==> action_at(count + 1) is Round,
        action_at(count) is Round ==> slept_before(count) == rounds_before(count)
            * PEER_RECHECK_INTERVAL,
        rounds_before(count) == (count + 1) / 2,
{
    lemma_turns(count);
}

/// Whose turn it is, and what was done by then.
proof fn lemma_turns(count: nat)
    ensures
        rechecker_after(count).due <==> count % 2 == 0,
        rounds_before(count) == (count + 1) / 2,
        slept_before(count) == (count / 2) * PEER_RECHECK_INTERVAL,
    decreases count,
{
    if count > 0 {
        lemma_turns((count - 1) as nat);
    }
}

/// What a round does, row by row. It drops the rows that are marked with 0 and past their time,
/// names their addresses, and keeps all others. It counts the rows marked with 1 and the peers
/// that were under way. It looks at the first 1024 rows that are marked with 1 and past their
/// time, and reports how many peers these are. Of these peers it tries as many, from the first
/// on, as there are more of them than were under way: it sends those that were not under way.
pub proof fn law_round_by_row(
    before: Seq<PeerRecord>,
    under_way: Set<PeerAddr>,
    now: i64,
    after: Seq<PeerRecord>,
    under_way_after: Set<PeerAddr>,
    round: RecheckRound,
) -> (found: (Seq<int>, Seq<int>, Seq<int>, Seq<PeerAddr>, Seq<int>))
    requires
        round_follows(before, under_way, now, after, under_way_after, round),
    ensures
        found_at(
            before,
            |r: PeerRecord| r.is_reachable != 0 || r.expires_at > now,
            after,
            found.0,
        ),
        ascending(found.1),
        found.1.len() == round.removed@.len(),
        forall|k: int|
            0 <= k < found.1.len() ==> 0 <= #[trigger] found.1[k] < before.len()
                && before[found.1[k]].addr == round.removed@[k]@,
        forall|i: int|
            0 <= i < before.len() ==> (#[trigger] found.1.contains(i) <==> !found.0.contains(i)),
        round.reachable == rank(after, |r: PeerRecord| r.is_reachable == 1, after.len() as int),
        round.processing == under_way.len(),
        drawn_from(
            after,
            |r: PeerRecord| r.is_reachable == 1 && r.expires_at <= now,
            1024,
            found.3,
            found.2,
        ),
        round.expired == found.3.len(),
        sent_from(
            under_way,
            found.3,
            found.3.len() - under_way.len(),
            round.sent@,
            found.4,
        ),
        forall|p: PeerAddr| #[trigger]
            under_way_after.contains(p) <==> under_way.contains(p) || exists|k: int|
                0 <= k < found.3.len() - under_way.len() && #[trigger] found.3[k] == p,
{
    let (kept, dropped) = law_cleanup_by_row(before, now);
    law_reachable_count_by_row(after);
    let rows = law_expired_peers_by_row(after, PEER_RECHECK_BATCH_SIZE, now);
    let expired = round_peers(after, now);
    let places = law_recheck_by_place(under_way, expired);
    assert forall|k: int| 0 <= k < dropped.len() implies 0 <= #[trigger] dropped[k] < before.len()
        && before[dropped[k]].addr == round.removed@[k]@ by {
        assert(texts(round.removed@)[k] == round.removed@[k]@);
    }
    (kept, dropped, rows, expired, places)
}

} // verus!
