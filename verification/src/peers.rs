//! What the seeder knows of each peer: whether it answered, and until when that holds.
use vstd::prelude::*;

use crate::address::PeerAddr;

verus! {

/// What is known of a peer at some moment.
#[derive(Debug, Clone, Copy, PartialEq, Eq, Structural)]
pub enum PeerStatus {
    Reachable,
    Unreachable,
    ReachableExpired,
    UnreachableExpired,
    Unknown,
}

/// One row of the peers table.
///
/// `addr` is the row's key, the text of a socket address, and `socket` is what that text
/// parses to, if it parses (see `coherent`). `is_reachable` is 1 for a peer that answered and
/// 0 for one that did not. `expires_at` is the second, counted from 1970, at which that
/// knowledge expires.
#[derive(Debug)]
pub struct PeerRow {
    pub addr: String,
    pub socket: Option<PeerAddr>,
    pub is_reachable: i64,
    pub expires_at: i64,
}

/// What a row of the peers table says.
pub ghost struct PeerRecord {
    pub addr: Seq<char>,
    pub socket: Option<PeerAddr>,
    pub is_reachable: i64,
    pub expires_at: i64,
}

impl View for PeerRow {
    type V = PeerRecord;

    open spec fn view(&self) -> PeerRecord {
        PeerRecord {
            addr: self.addr@,
            socket: self.socket,
            is_reachable: self.is_reachable,
            expires_at: self.expires_at,
        }
    }
}

/// Rows as records.
pub open spec fn records(rows: Seq<PeerRow>) -> Seq<PeerRecord> {
    rows.map_values(|row: PeerRow| row@)
}

/// The address is the key: no two records have the same one.
pub open spec fn keyed(records: Seq<PeerRecord>) -> bool {
    forall|i: int, j: int|
        0 <= i < j < records.len() ==> (#[trigger] records[i]).addr != (
        #[trigger] records[j]).addr
}

/// Whether some record has the address.
pub open spec fn known(records: Seq<PeerRecord>, addr: Seq<char>) -> bool {
    exists|i: int| 0 <= i < records.len() && (#[trigger] records[i]).addr == addr
}

/// The record of the address, if there is one.
pub open spec fn record_of(records: Seq<PeerRecord>, addr: Seq<char>) -> Option<PeerRecord> {
    if known(records, addr) {
        Some(records[choose|i: int| 0 <= i < records.len() && (#[trigger] records[i]).addr == addr])
    } else {
        None
    }
}

/// The record of an address is the one that stands in the table.
pub proof fn lemma_record_at(records: Seq<PeerRecord>, i: int)
    requires
        keyed(records),
        0 <= i < records.len(),
    ensures
        record_of(records, records[i].addr) == Some(records[i]),
{
    let addr = records[i].addr;
    assert(known(records, addr));
    let k = choose|k: int| 0 <= k < records.len() && (#[trigger] records[k]).addr == addr;
    if k < i {
        assert(records[k].addr != records[i].addr);
    } else if i < k {
        assert(records[i].addr != records[k].addr);
    }
}

impl PeerRecord {
    pub open spec fn expired(self, now: i64) -> bool {
        self.expires_at <= now
    }

    /// The peer answered when it was last tried.
    pub open spec fn reachable(self) -> bool {
        self.is_reachable == 1
    }

    /// The peer did not answer when it was last tried.
    pub open spec fn unreachable(self) -> bool {
        self.is_reachable == 0
    }
}

/// What a record, or the lack of one, says of its peer at a moment.
pub open spec fn status_at(record: Option<PeerRecord>, now: i64) -> PeerStatus {
    match record {
        Some(r) => if r.reachable() {
            if r.expired(now) {
                PeerStatus::ReachableExpired
            } else {
                PeerStatus::Reachable
            }
        } else if r.unreachable() {
            if r.expired(now) {
                PeerStatus::UnreachableExpired
            } else {
                PeerStatus::Unreachable
            }
        } else {
            PeerStatus::Unknown
        },
        None => PeerStatus::Unknown,
    }
}

/// The records with the one of `record`'s address replaced by `record`, or with `record`
/// added where there was none.
pub open spec fn upsert(records: Seq<PeerRecord>, record: PeerRecord) -> Seq<PeerRecord> {
    records.filter(|r: PeerRecord| r.addr != record.addr).push(record)
}

/// The socket addresses of the records that have one, in order.
pub open spec fn sockets(records: Seq<PeerRecord>) -> Seq<PeerAddr> {
    records.filter(|r: PeerRecord| r.socket is Some).map_values(|r: PeerRecord| r.socket->0)
}

/// The records of a given number at the front, or all where there are fewer.
pub open spec fn front(records: Seq<PeerRecord>, count: int) -> Seq<PeerRecord> {
    if count < records.len() {
        records.take(count)
    } else {
        records
    }
}

/// How many records a request for `max_records` can get: limits are signed numbers of 64
/// bits, and one that is larger gets nothing.
pub open spec fn limit(max_records: usize) -> int {
    if max_records <= i64::MAX {
        max_records as int
    } else {
        0
    }
}

/// A text with two colons or more: that of an IPv6 socket address.
pub open spec fn two_colons(text: Seq<char>) -> bool {
    exists|i: int, j: int| 0 <= i < j < text.len() && text[i] == ':' && text[j] == ':'
}

/// Whether an address text is of the wanted IP version: `v4`, `v6`, or anything else for
/// both.
pub open spec fn version_matches(addr: Seq<char>, ip_version: Option<Seq<char>>) -> bool {
    if ip_version == Some("v4"@) {
        !two_colons(addr)
    } else if ip_version == Some("v6"@) {
        two_colons(addr)
    } else {
        true
    }
}

/// The records of reachable peers of the wanted IP version.
pub open spec fn reachable_records(
    records: Seq<PeerRecord>,
    ip_version: Option<Seq<char>>,
) -> Seq<PeerRecord> {
    records.filter(|r: PeerRecord| r.reachable() && version_matches(r.addr, ip_version))
}

/// The records of reachable peers whose time is over.
pub open spec fn expired_records(records: Seq<PeerRecord>, now: i64) -> Seq<PeerRecord> {
    records.filter(|r: PeerRecord| r.reachable() && r.expired(now))
}

/// The records that stay when those of unreachable peers whose time is over go.
pub open spec fn kept_records(records: Seq<PeerRecord>, now: i64) -> Seq<PeerRecord> {
    records.filter(|r: PeerRecord| !(r.unreachable() && r.expired(now)))
}

/// The peers that a request for reachable ones of an IP version gets.
pub open spec fn served_peers(
    records: Seq<PeerRecord>,
    max_records: usize,
    ip_version: Option<Seq<char>>,
) -> Seq<PeerAddr> {
    sockets(front(reachable_records(records, ip_version), limit(max_records)))
}

/// The peers that a request for expired ones gets.
pub open spec fn expired_peers(
    records: Seq<PeerRecord>,
    max_records: usize,
    now: i64,
) -> Seq<PeerAddr> {
    sockets(front(expired_records(records, now), limit(max_records)))
}

/// The text and the socket address of a record are of one IP version, and the socket address
/// has nothing that its text cannot spell.
pub open spec fn spelled_out(record: PeerRecord) -> bool {
    record.socket matches Some(socket) ==> {
        &&& two_colons(record.addr) <==> socket is V6
        &&& socket == socket.spelled()
    }
}

/// Whether every record is spelled out.
pub open spec fn all_spelled_out(records: Seq<PeerRecord>) -> bool {
    forall|i: int| 0 <= i < records.len() ==> spelled_out(#[trigger] records[i])
}

/// No two records have the same socket address.
pub open spec fn apart(records: Seq<PeerRecord>) -> bool {
    forall|i: int, j: int|
        0 <= i < j < records.len() && (#[trigger] records[i]).socket is Some ==> records[i].socket
            != (#[trigger] records[j]).socket
}

/// The text and the socket address of each record are one address: they are of one IP version,
/// and different texts have different socket addresses.
pub open spec fn coherent(records: Seq<PeerRecord>) -> bool {
    &&& all_spelled_out(records)
    &&& apart(records)
}

/// The text and the socket address of a record are one address beside those of the other
/// records: no other text has that socket address.
pub open spec fn fits(records: Seq<PeerRecord>, record: PeerRecord) -> bool {
    &&& spelled_out(record)
    &&& forall|i: int|
        0 <= i < records.len() && (#[trigger] records[i]).socket is Some && records[i].socket
            == record.socket ==> records[i].addr == record.addr
}

/// Filtering a sequence up to and with an element, from filtering it up to the element.
pub proof fn lemma_filter_step<T>(s: Seq<T>, p: spec_fn(T) -> bool, i: int)
    requires
        0 <= i < s.len(),
    ensures
        s.take(i + 1).filter(p) == if p(s[i]) {
            s.take(i).filter(p).push(s[i])
        } else {
            s.take(i).filter(p)
        },
{
    reveal(Seq::filter);
    assert(s.take(i + 1).drop_last() =~= s.take(i));
}

/// An empty sequence stays empty.
pub proof fn lemma_filter_empty<T>(s: Seq<T>, p: spec_fn(T) -> bool)
    ensures
        s.take(0).filter(p) == Seq::<T>::empty(),
{
    reveal(Seq::filter);
    assert(s.take(0).filter(p) =~= Seq::<T>::empty());
}

/// The socket addresses of a sequence with one more record.
pub proof fn lemma_sockets_push(records: Seq<PeerRecord>, record: PeerRecord)
    ensures
        sockets(records.push(record)) == match record.socket {
            Some(socket) => sockets(records).push(socket),
            None => sockets(records),
        },
{
    reveal(Seq::filter);
    assert(records.push(record).drop_last() =~= records);
    assert(sockets(records.push(record)) =~= match record.socket {
        Some(socket) => sockets(records).push(socket),
        None => sockets(records),
    });
}

/// A filter that drops no element changes nothing.
pub proof fn lemma_filter_keeps<T>(s: Seq<T>, p: spec_fn(T) -> bool)
    requires
        forall|i: int| 0 <= i < s.len() ==> p(#[trigger] s[i]),
    ensures
        s.filter(p) == s,
    decreases s.len(),
{
    reveal(Seq::filter);
    if s.len() > 0 {
        lemma_filter_keeps(s.drop_last(), p);
        assert(s.drop_last().push(s.last()) =~= s);
    }
}

/// What a filter leaves: elements of the sequence that pass, and every one that does.
pub proof fn lemma_filter_members<T>(s: Seq<T>, p: spec_fn(T) -> bool)
    ensures
        forall|x: T| #[trigger] s.filter(p).contains(x) <==> s.contains(x) && p(x),
        forall|i: int| 0 <= i < s.filter(p).len() ==> p(#[trigger] s.filter(p)[i]),
        s.filter(p).len() <= s.len(),
    decreases s.len(),
{
    reveal(Seq::filter);
    if s.len() > 0 {
        let rest = s.drop_last();
        lemma_filter_members(rest, p);
        assert forall|x: T| #[trigger] s.filter(p).contains(x) <==> s.contains(x) && p(x) by {
            assert(rest.filter(p).contains(x) <==> rest.contains(x) && p(x));
            assert(rest.push(s.last()) =~= s);
            if rest.contains(x) {
                let k = rest.index_of(x);
                assert(s[k] == x);
            }
            if s.contains(x) {
                let k = s.index_of(x);
                if k < rest.len() {
                    assert(rest[k] == x);
                }
            }
            if p(s.last()) {
                assert(s.filter(p) =~= rest.filter(p).push(s.last()));
                assert(s.filter(p)[rest.filter(p).len() as int] == s.last());
                if rest.filter(p).contains(x) {
                    let k = rest.filter(p).index_of(x);
                    assert(s.filter(p)[k] == x);
                }
                if s.filter(p).contains(x) {
                    let k = s.filter(p).index_of(x);
                    if k < rest.filter(p).len() {
                        assert(rest.filter(p)[k] == x);
                    }
                }
            }
        }
    }
}

/// A filter keeps addresses apart.
pub proof fn lemma_filter_keyed(records: Seq<PeerRecord>, p: spec_fn(PeerRecord) -> bool)
    requires
        keyed(records),
    ensures
        keyed(records.filter(p)),
    decreases records.len(),
{
    reveal(Seq::filter);
    if records.len() > 0 {
        let rest = records.drop_last();
        lemma_filter_keyed(rest, p);
        lemma_filter_members(rest, p);
        assert forall|i: int| 0 <= i < rest.filter(p).len() implies (
        #[trigger] rest.filter(p)[i]).addr != records.last().addr by {
            assert(rest.filter(p).contains(rest.filter(p)[i]));
            let k = rest.index_of(rest.filter(p)[i]);
            assert(records[k] == rest.filter(p)[i]);
            assert(records[records.len() - 1] == records.last());
        }
    }
}

/// Putting a record in keeps addresses apart.
pub proof fn lemma_upsert_keyed(records: Seq<PeerRecord>, record: PeerRecord)
    requires
        keyed(records),
    ensures
        keyed(upsert(records, record)),
{
    let other = |r: PeerRecord| r.addr != record.addr;
    lemma_filter_keyed(records, other);
    lemma_filter_members(records, other);
}

/// Leaving out an address leaves out the one record that has it. `i` is where that record
/// stands, or the end where there is none.
pub proof fn lemma_filter_all_but(records: Seq<PeerRecord>, addr: Seq<char>, i: int)
    requires
        keyed(records),
        0 <= i <= records.len(),
        i < records.len() ==> records[i].addr == addr,
        forall|k: int| 0 <= k < i ==> (#[trigger] records[k]).addr != addr,
    ensures
        records.filter(|r: PeerRecord| r.addr != addr) == if i < records.len() {
            records.remove(i)
        } else {
            records
        },
    decreases records.len(),
{
    let other = |r: PeerRecord| r.addr != addr;
    if i == records.len() {
        lemma_filter_keeps(records, other);
    } else {
        reveal(Seq::filter);
        let rest = records.drop_last();
        if i == records.len() - 1 {
            lemma_filter_keeps(rest, other);
            assert(records.remove(i) =~= rest);
        } else {
            lemma_filter_all_but(rest, addr, i);
            assert(records[i].addr != records.last().addr);
            assert(records.remove(i) =~= rest.remove(i).push(records.last()));
        }
    }
}

/// Whether an address text holds two colons or more.
pub(crate) fn has_two_colons(text: &String) -> (found: bool)
    ensures
        found == two_colons(text@),
{
    let mut first: bool = false;
    let ghost mut at: int = 0;
    for c in it: text.as_str().chars()
        invariant
            it.seq() == text@,
            first ==> 0 <= at < it.index() && text@[at] == ':',
            !first ==> forall|k: int| 0 <= k < it.index() ==> text@[k] != ':',
            first ==> forall|k: int| 0 <= k < it.index() && k != at ==> text@[k] != ':',
    {
        if c == ':' {
            if first {
                assert(text@[at] == ':' && text@[it.index()] == ':');
                return true;
            }
            first = true;
            proof {
                at = it.index();
            }
        }
    }
    false
}

} // verus!
