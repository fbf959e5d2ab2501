//! Which peers are under way, which are to be sent to the crawler, and what they are tried with.
use dashmap::DashSet;
use vstd::prelude::*;

use crate::address::{lemma_key_identifies, PeerAddr, PeerKey};
use crate::rows::ascending;

verus! {

/// A concurrent set of `dashmap`.
#[verifier::external_type_specification]
#[verifier::external_body]
#[verifier::reject_recursive_types(K)]
#[verifier::reject_recursive_types(S)]
pub struct ExDashSet<K, S>(DashSet<K, S>);

/// The keys that a concurrent set holds, as long as only its owner changes it.
pub uninterp spec fn set_keys(set: DashSet<PeerKey>) -> Set<PeerKey>;

/// `DashSet::new`: a set without keys.
#[verifier::external_body]
fn new_set() -> (set: DashSet<PeerKey>)
    ensures
        set_keys(set) == Set::<PeerKey>::empty(),
{
    DashSet::new()
}

/// `DashSet::insert`: adds the key, and tells whether it was not there before. The set is
/// borrowed for change, so that no other user can change it meanwhile.
#[verifier::external_body]
fn insert_key(set: &mut DashSet<PeerKey>, key: PeerKey) -> (inserted: bool)
    ensures
        set_keys(*final(set)) == set_keys(*old(set)).insert(key),
        inserted == !set_keys(*old(set)).contains(key),
{
    set.insert(key)
}

/// `DashSet::remove`: takes the key out, and returns it if it was there. The set is
/// borrowed for change, so that no other user can change it meanwhile.
#[verifier::external_body]
fn remove_key(set: &mut DashSet<PeerKey>, key: PeerKey) -> (removed: Option<PeerKey>)
    ensures
        set_keys(*final(set)) == set_keys(*old(set)).remove(key),
        removed == if set_keys(*old(set)).contains(key) {
            Some(key)
        } else {
            None
        },
{
    set.remove(&key)
}

/// `DashSet::len`: the number of keys.
#[verifier::external_body]
fn count_keys(set: &DashSet<PeerKey>) -> (count: usize)
    ensures
        count == set_keys(*set).len(),
{
    set.len()
}

/// Keeps track of the peers that wait to be tried or are being tried, and of what they are
/// tried with: `T` secures the connections, and `A` knows what became of earlier ones.
pub struct PeerProcessor<T, A> {
    processing: DashSet<PeerKey>,
    tls: T,
    authority: A,
    network_id: String,
}

/// What a connection to a peer is made with.
pub struct Connection<'a, T> {
    pub network_id: &'a String,
    pub tls: &'a T,
    pub peer: PeerAddr,
}

/// Those of the peers, in order, that are not under way yet, each once.
pub open spec fn admitted(processing: Set<PeerAddr>, peers: Seq<PeerAddr>) -> Seq<PeerAddr>
    decreases peers.len(),
{
    if peers.len() == 0 {
        Seq::empty()
    } else {
        let before = admitted(processing, peers.drop_last());
        if processing.contains(peers.last()) || before.contains(peers.last()) {
            before
        } else {
            before.push(peers.last())
        }
    }
}

/// The expired peers to try again in one round: so many from the front that, with the
/// `under_way` ones, there are no more than there are expired peers.
pub open spec fn recheck_batch(expired: Seq<PeerAddr>, under_way: nat) -> Seq<PeerAddr> {
    if under_way < expired.len() {
        expired.take(expired.len() - under_way)
    } else {
        Seq::empty()
    }
}

impl<T, A> PeerProcessor<T, A> {
    /// The peers that are under way.
    pub closed spec fn processing(self) -> Set<PeerAddr> {
        Set::new(|peer: PeerAddr| set_keys(self.processing).contains(peer.spec_key()))
    }

    /// The peers under way are finitely many, and the set holds a key for each of them and
    /// no other.
    pub closed spec fn well_formed(self) -> bool {
        &&& self.processing().finite()
        &&& set_keys(self.processing).finite()
        &&& self.processing().len() == set_keys(self.processing).len()
    }

    /// What peers are tried with: what secures the connections, the authority that knows their
    /// status and takes their marks, and the network's id.
    pub closed spec fn setup(self) -> (T, A, Seq<char>) {
        (self.tls, self.authority, self.network_id@)
    }

    /// A processor with no peer under way, for connections to the network secured by `tls`.
    pub fn new(tls: T, authority: A, network_id: String) -> (processor: PeerProcessor<T, A>)
        ensures
            processor.well_formed(),
            processor.setup() == (tls, authority, network_id@),
            processor.processing() == Set::<PeerAddr>::empty(),
    {
        let processor = PeerProcessor { processing: new_set(), tls, authority, network_id };
        assert(processor.processing() =~= Set::<PeerAddr>::empty());
        processor
    }

    /// Takes the peer under way, and tells whether it is to be sent to the crawler: only if
    /// it was not under way already.
    pub fn process(&mut self, peer: PeerAddr) -> (send: bool)
        requires
            old(self).well_formed(),
        ensures
            final(self).well_formed(),
            final(self).setup() == old(self).setup(),
            send == !old(self).processing().contains(peer),
            final(self).processing() == old(self).processing().insert(peer),
    {
        let ghost before = self.processing();
        let send = insert_key(&mut self.processing, peer.key());
        proof {
            assert forall|p: PeerAddr|
                self.processing().contains(p) == before.insert(peer).contains(p) by {
                lemma_key_identifies(p, peer);
            }
            assert(self.processing() =~= before.insert(peer));
        }
        send
    }

    /// Notes that the peer is no longer under way.
    pub fn release(&mut self, peer: PeerAddr)
        requires
            old(self).well_formed(),
        ensures
            final(self).well_formed(),
            final(self).setup() == old(self).setup(),
            final(self).processing() == old(self).processing().remove(peer),
    {
        let ghost before = self.processing();
        let removed = remove_key(&mut self.processing, peer.key());
        proof {
            assert forall|p: PeerAddr|
                self.processing().contains(p) == before.remove(peer).contains(p) by {
                lemma_key_identifies(p, peer);
            }
            assert(self.processing() =~= before.remove(peer));
        }
    }

    /// What a connection to the peer is made with: whatever peer it is, the network's id and
    /// the security that the processor was made with.
    pub fn connection(&self, peer: PeerAddr) -> (connection: Connection<'_, T>)
        ensures
            connection.peer == peer,
            *connection.tls == self.setup().0,
            connection.network_id@ == self.setup().2,
    {
        Connection { network_id: &self.network_id, tls: &self.tls, peer }
    }

    /// The authority that knows the status of peers and takes their marks.
    pub fn authority(&self) -> (authority: &A)
        ensures
            *authority == self.setup().1,
    {
        &self.authority
    }

    /// The number of peers under way.
    pub fn processing_len(&self) -> (len: usize)
        requires
            self.well_formed(),
        ensures
            len == self.processing().len(),
    {
        count_keys(&self.processing)
    }

    /// Takes the peers under way one after the other, and returns those to be sent to the
    /// crawler.
    pub fn process_all(&mut self, peers: &Vec<PeerAddr>) -> (sent: Vec<PeerAddr>)
        requires
            old(self).well_formed(),
        ensures
            final(self).well_formed(),
            final(self).setup() == old(self).setup(),
            sent@ == admitted(old(self).processing(), peers@),
            final(self).processing() == old(self).processing().union(peers@.to_set()),
    {
        self.process_first(peers, peers.len())
    }

    /// Takes the first `count` peers under way one after the other, and returns those to be
    /// sent to the crawler.
    fn process_first(&mut self, peers: &Vec<PeerAddr>, count: usize) -> (sent: Vec<PeerAddr>)
        requires
            old(self).well_formed(),
            count <= peers.len(),
        ensures
            final(self).well_formed(),
            final(self).setup() == old(self).setup(),
            sent@ == admitted(old(self).processing(), peers@.take(count as int)),
            final(self).processing() == old(self).processing().union(
                peers@.take(count as int).to_set(),
            ),
            count == peers.len() ==> peers@.take(count as int) == peers@,
    {
        let ghost before = self.processing();
        let ghost setup = self.setup();
        let mut sent: Vec<PeerAddr> = Vec::new();
        let mut i: usize = 0;
        assert(before.union(peers@.take(0).to_set()) =~= before);
        while i < count
            invariant
                i <= count <= peers.len(),
                self.well_formed(),
                self.setup() == setup,
                sent@ == admitted(before, peers@.take(i as int)),
                self.processing() == before.union(peers@.take(i as int).to_set()),
            decreases count - i,
        {
            let peer = peers[i];
            proof {
                let seen = peers@.take(i as int);
                assert(peers@.take(i + 1).drop_last() =~= seen);
                lemma_admitted(before, seen);
                assert(seen.to_set().contains(peer) <==> seen.contains(peer));
                assert(peers@.take(i + 1) =~= seen.push(peer));
                seen.lemma_push_to_set_commute(peer);
                assert(before.union(seen.to_set()).insert(peer) =~= before.union(
                    seen.push(peer).to_set(),
                ));
            }
            if self.process(peer) {
                sent.push(peer);
            }
            i += 1;
        }
        assert(count == peers.len() ==> peers@.take(count as int) =~= peers@);
        sent
    }

    /// Takes expired peers under way again, and returns those to be sent to the crawler:
    /// where fewer peers are under way than have expired, as many from the front as the
    /// difference.
    pub fn recheck(&mut self, expired: &Vec<PeerAddr>) -> (sent: Vec<PeerAddr>)
        requires
            old(self).well_formed(),
        ensures
            final(self).well_formed(),
            final(self).setup() == old(self).setup(),
            sent@ == admitted(
                old(self).processing(),
                recheck_batch(expired@, old(self).processing().len()),
            ),
            final(self).processing() == old(self).processing().union(
                recheck_batch(expired@, old(self).processing().len()).to_set(),
            ),
    {
        let under_way: usize = self.processing_len();
        if under_way < expired.len() {
            self.process_first(expired, expired.len() - under_way)
        } else {
            assert(self.processing().union(Seq::<PeerAddr>::empty().to_set())
                =~= self.processing());
            Vec::new()
        }
    }
}

/// What is admitted: the given peers that were not under way, each once.
pub proof fn lemma_admitted(processing: Set<PeerAddr>, peers: Seq<PeerAddr>)
    ensures
        admitted(processing, peers).no_duplicates(),
        admitted(processing, peers).len() <= peers.len(),
        forall|p: PeerAddr|
            #[trigger] admitted(processing, peers).contains(p) <==> peers.contains(p)
                && !processing.contains(p),
    decreases peers.len(),
{
    if peers.len() > 0 {
        let rest = peers.drop_last();
        let last = peers.last();
        let before = admitted(processing, rest);
        lemma_admitted(processing, rest);
        assert forall|p: PeerAddr|
            #[trigger] admitted(processing, peers).contains(p) <==> peers.contains(p)
                && !processing.contains(p) by {
            assert(before.contains(p) <==> rest.contains(p) && !processing.contains(p));
            assert(before.push(last)[before.len() as int] == last);
            if before.contains(p) {
                let k = before.index_of(p);
                assert(before.push(last)[k] == p);
            }
            if rest.contains(p) {
                let j = rest.index_of(p);
                assert(peers[j] == p);
            }
            if peers.contains(p) {
                let j = peers.index_of(p);
                if j < rest.len() {
                    assert(rest[j] == p);
                }
            }
        }
    }
}

/// Whether `places` are those among the first `count` peers at which one stands that is not under
/// way and did not stand before, and `sent` are these peers, in order.
pub open spec fn sent_from(
    processing: Set<PeerAddr>,
    peers: Seq<PeerAddr>,
    count: int,
    sent: Seq<PeerAddr>,
    places: Seq<int>,
) -> bool {
    &&& ascending(places)
    &&& places.len() == sent.len()
    &&& forall|k: int|
        0 <= k < places.len() ==> 0 <= #[trigger] places[k] < peers.len() && peers[places[k]]
            == sent[k]
    &&& forall|i: int|
        0 <= i < peers.len() ==> (#[trigger] places.contains(i) <==> i < count
            && !processing.contains(peers[i]) && !peers.take(i).contains(peers[i]))
}

/// Of a list of peers each is sent that is not under way, at its first place, in order, and no
/// other.
pub proof fn law_sent_by_place(processing: Set<PeerAddr>, peers: Seq<PeerAddr>) -> (places: Seq<
    int,
>)
    ensures
        sent_from(processing, peers, peers.len() as int, admitted(processing, peers), places),
    decreases peers.len(),
{
    if peers.len() == 0 {
        Seq::empty()
    } else {
        let rest = peers.drop_last();
        let last = peers.len() - 1;
        let peer = peers[last];
        let before = law_sent_by_place(processing, rest);
        lemma_admitted(processing, rest);
        let taken = !processing.contains(peer) && !rest.contains(peer);
        let places = if taken {
            before.push(last)
        } else {
            before
        };
        assert(peers.take(last) =~= rest);
        assert forall|i: int| 0 <= i < peers.len() implies (#[trigger] places.contains(i) <==> i
            < peers.len() && !processing.contains(peers[i]) && !peers.take(i).contains(
            peers[i],
        )) by {
            if before.contains(i) {
                let k = before.index_of(i);
                assert(places[k] == i);
            }
            if taken {
                assert(places[before.len() as int] == last);
            }
            if places.contains(i) {
                let k = places.index_of(i);
                if k < before.len() {
                    assert(before[k] == i);
                }
            }
            if i < last {
                assert(peers.take(i) =~= rest.take(i));
                assert(before.contains(i) <==> !processing.contains(rest[i]) && !rest.take(
                    i,
                ).contains(rest[i]));
            }
        }
        places
    }
}

/// A round tries as many expired peers, from the first on, as there are more of them than there
/// are peers under way, and none where there are not more. Of these, each that is not under way
/// is sent, in order and once, and all of them are under way afterwards, besides those that were.
pub proof fn law_recheck_by_place(processing: Set<PeerAddr>, expired: Seq<PeerAddr>) -> (places:
    Seq<int>)
    ensures
        recheck_batch(expired, processing.len()).len() == if processing.len() < expired.len() {
            expired.len() - processing.len()
        } else {
            0
        },
        forall|k: int|
            0 <= k < expired.len() - processing.len() ==> #[trigger] expired[k] == recheck_batch(
                expired,
                processing.len(),
            )[k],
        sent_from(
            processing,
            expired,
            expired.len() - processing.len(),
            admitted(processing, recheck_batch(expired, processing.len())),
            places,
        ),
        forall|p: PeerAddr| #[trigger]
            processing.union(recheck_batch(expired, processing.len()).to_set()).contains(p)
                <==> processing.contains(p) || exists|k: int|
                0 <= k < expired.len() - processing.len() && #[trigger] expired[k] == p,
{
    let batch = recheck_batch(expired, processing.len());
    let places = law_sent_by_place(processing, batch);
    assert forall|i: int| 0 <= i < expired.len() implies (#[trigger] places.contains(i) <==> i
        < expired.len() - processing.len() && !processing.contains(expired[i]) && !expired.take(
        i,
    ).contains(expired[i])) by {
        if i < batch.len() {
            assert(batch.take(i) =~= expired.take(i));
            assert(places.contains(i) <==> !processing.contains(batch[i]) && !batch.take(
                i,
            ).contains(batch[i]));
        } else if places.contains(i) {
            let k = places.index_of(i);
            assert(places[k] < batch.len());
        }
    }
    assert forall|p: PeerAddr| #[trigger]
        processing.union(batch.to_set()).contains(p) <==> processing.contains(p) || exists|k: int|
            0 <= k < expired.len() - processing.len() && #[trigger] expired[k] == p by {
        assert(batch.to_set().contains(p) <==> batch.contains(p));
        if batch.contains(p) {
            let k = batch.index_of(p);
            assert(expired[k] == p);
        }
        if exists|k: int| 0 <= k < expired.len() - processing.len() && #[trigger] expired[k] == p {
            let k = choose|k: int|
                0 <= k < expired.len() - processing.len() && #[trigger] expired[k] == p;
            assert(batch[k] == p);
        }
    }
    places
}

} // verus!
