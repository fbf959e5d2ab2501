//! What holds of the seeder as a whole.
use vstd::prelude::*;

use crate::address::{PeerAddr, PeerIp};
use crate::config::{
    DNS_RECORD_TTL, MAX_RECORDS_TO_RETURN, PEER_REACHABLE_TTL, PEER_UNREACHABLE_TTL,
};
use crate::crawl::due;
use crate::dns::{
    address_record, address_wanted, distinct, lemma_distinct, marked_record, queried_version,
    wanted_addresses, PeerDiscoveryAuthority, LATEST_EXPIRY,
};
use crate::peer::{admitted, lemma_admitted, recheck_batch};
use crate::peers::{
    all_spelled_out, apart, coherent, expired_peers, expired_records, fits, front, kept_records,
    keyed, lemma_filter_keeps, lemma_filter_keyed, lemma_filter_members, lemma_record_at,
    lemma_upsert_keyed, limit, reachable_records, record_of, served_peers, sockets, spelled_out,
    status_at, two_colons, upsert, version_matches, PeerRecord, PeerStatus,
};
use crate::records::{type_of, Labels, CLASS_IN, TYPE_A, TYPE_AAAA, TYPE_ANY};

verus! {

/// A record that is in the table is found under its address.
proof fn lemma_record_of_member(records: Seq<PeerRecord>, record: PeerRecord)
    requires
        keyed(records),
        records.contains(record),
    ensures
        record_of(records, record.addr) == Some(record),
{
    let i = records.index_of(record);
    lemma_record_at(records, i);
}

/// Where an address has a record, the record is in the table.
proof fn lemma_record_of_found(records: Seq<PeerRecord>, addr: Seq<char>)
    requires
        record_of(records, addr) is Some,
    ensures
        records.contains(record_of(records, addr)->0),
        (record_of(records, addr)->0).addr == addr,
{
    let i = choose|i: int| 0 <= i < records.len() && (#[trigger] records[i]).addr == addr;
    assert(records.contains(records[i]));
}

/// Two tables that agree on the records of an address find the same record for it.
proof fn lemma_record_of_same(a: Seq<PeerRecord>, b: Seq<PeerRecord>, addr: Seq<char>)
    requires
        keyed(a),
        keyed(b),
        forall|r: PeerRecord| r.addr == addr ==> (#[trigger] a.contains(r) <==> b.contains(r)),
    ensures
        record_of(a, addr) == record_of(b, addr),
{
    if record_of(a, addr) is Some {
        lemma_record_of_found(a, addr);
        lemma_record_of_member(b, record_of(a, addr)->0);
    } else if record_of(b, addr) is Some {
        lemma_record_of_found(b, addr);
        lemma_record_of_member(a, record_of(b, addr)->0);
    }
}

/// What is in the table after a record was put in.
proof fn lemma_upsert_members(records: Seq<PeerRecord>, record: PeerRecord)
    ensures
        upsert(records, record).contains(record),
        forall|r: PeerRecord| #[trigger]
            upsert(records, record).contains(r) <==> r == record || (records.contains(r) && r.addr
                != record.addr),
{
    let others = records.filter(|r: PeerRecord| r.addr != record.addr);
    lemma_filter_members(records, |r: PeerRecord| r.addr != record.addr);
    let all = upsert(records, record);
    assert(all[others.len() as int] == record);
    assert forall|r: PeerRecord| #[trigger]
        all.contains(r) <==> r == record || (records.contains(r) && r.addr != record.addr) by {
        assert(others.contains(r) <==> records.contains(r) && r.addr != record.addr);
        if others.contains(r) {
            let k = others.index_of(r);
            assert(all[k] == r);
        }
        if all.contains(r) {
            let k = all.index_of(r);
            if k < others.len() {
                assert(others[k] == r);
            }
        }
    }
}

/// What was marked is what is read: under the peer's address the table holds the mark.
/// Marking changes nothing of other peers, and no two rows share an address after it.
pub proof fn law_mark_is_read_back(records: Seq<PeerRecord>, record: PeerRecord)
    requires
        keyed(records),
    ensures
        keyed(upsert(records, record)),
        record_of(upsert(records, record), record.addr) == Some(record),
        forall|addr: Seq<char>|
            addr != record.addr ==> #[trigger] record_of(upsert(records, record), addr)
                == record_of(records, addr),
{
    lemma_upsert_keyed(records, record);
    lemma_upsert_members(records, record);
    lemma_record_of_member(upsert(records, record), record);
    assert forall|addr: Seq<char>| addr != record.addr implies #[trigger] record_of(
        upsert(records, record),
        addr,
    ) == record_of(records, addr) by {
        lemma_record_of_same(upsert(records, record), records, addr);
    }
}

/// A peer that was marked has the status of the mark until its time is over, and the expired
/// one from then on.
pub proof fn law_status_after_mark(
    records: Seq<PeerRecord>,
    addr: Seq<char>,
    socket: PeerAddr,
    reachable: bool,
    now: i64,
    duration: u64,
    later: i64,
)
    requires
        keyed(records),
        now + duration <= LATEST_EXPIRY,
    ensures
        status_at(
            record_of(upsert(records, marked_record(addr, socket, reachable, now, duration)), addr),
            later,
        ) == if later < now + duration {
            if reachable {
                PeerStatus::Reachable
            } else {
                PeerStatus::Unreachable
            }
        } else {
            if reachable {
                PeerStatus::ReachableExpired
            } else {
                PeerStatus::UnreachableExpired
            }
        },
{
    law_mark_is_read_back(records, marked_record(addr, socket, reachable, now, duration));
}

/// A peer that did not answer is not connected to before the time for unreachable peers has
/// passed, and may be from then on.
pub proof fn law_unreachable_peers_rest(
    records: Seq<PeerRecord>,
    addr: Seq<char>,
    socket: PeerAddr,
    now: i64,
    later: i64,
)
    requires
        keyed(records),
        now + PEER_UNREACHABLE_TTL <= LATEST_EXPIRY,
    ensures
        due(
            status_at(
                record_of(
                    upsert(records, marked_record(addr, socket, false, now, PEER_UNREACHABLE_TTL)),
                    addr,
                ),
                later,
            ),
        ) <==> later >= now + PEER_UNREACHABLE_TTL,
{
    law_status_after_mark(records, addr, socket, false, now, PEER_UNREACHABLE_TTL, later);
}

/// A peer that answered is among the expired peers, which a round looks at, from the time on
/// at which its mark expires, and not before; the crawler lets it be for exactly as long.
pub proof fn law_reachable_peers_come_back(
    records: Seq<PeerRecord>,
    addr: Seq<char>,
    socket: PeerAddr,
    now: i64,
    later: i64,
)
    requires
        keyed(records),
        now + PEER_REACHABLE_TTL <= LATEST_EXPIRY,
    ensures
        ({
            let record = marked_record(addr, socket, true, now, PEER_REACHABLE_TTL);
            let after = upsert(records, record);
            &&& expired_records(after, later).contains(record) <==> later >= now
                + PEER_REACHABLE_TTL
            &&& due(status_at(record_of(after, addr), later)) <==> later >= now
                + PEER_REACHABLE_TTL
        }),
{
    let record = marked_record(addr, socket, true, now, PEER_REACHABLE_TTL);
    law_status_after_mark(records, addr, socket, true, now, PEER_REACHABLE_TTL, later);
    lemma_upsert_members(records, record);
    lemma_filter_members(
        upsert(records, record),
        |r: PeerRecord| r.reachable() && r.expired(later),
    );
}

/// A peer is among those that answer queries exactly if it was reachable when last tried: a
/// mark puts it in, or takes it out.
pub proof fn law_mark_decides_service(records: Seq<PeerRecord>, record: PeerRecord)
    requires
        keyed(records),
    ensures
        forall|r: PeerRecord| #[trigger]
            reachable_records(upsert(records, record), None).contains(r) && r.addr == record.addr
                <==> r == record && record.reachable(),
{
    let after = upsert(records, record);
    lemma_upsert_members(records, record);
    lemma_filter_members(after, |r: PeerRecord| r.reachable() && version_matches(r.addr, None));
}

/// What has expired stays so.
pub proof fn law_expiry_is_for_good(record: PeerRecord, now: i64, later: i64)
    requires
        record.expired(now),
        now <= later,
    ensures
        record.expired(later),
{
}

/// Filtering by one test and then by another is filtering by both.
proof fn lemma_filter_both<T>(s: Seq<T>, p: spec_fn(T) -> bool, q: spec_fn(T) -> bool)
    ensures
        s.filter(p).filter(q) == s.filter(|x: T| p(x) && q(x)),
    decreases s.len(),
{
    reveal(Seq::filter);
    if s.len() > 0 {
        let rest = s.drop_last();
        lemma_filter_both(rest, p, q);
        if p(s.last()) {
            assert(rest.filter(p).push(s.last()).drop_last() =~= rest.filter(p));
        }
    }
}

/// Filtering by a test and then by a stricter one is filtering by the stricter one.
proof fn lemma_filter_through<T>(s: Seq<T>, p: spec_fn(T) -> bool, q: spec_fn(T) -> bool)
    requires
        forall|x: T| #[trigger] q(x) ==> p(x),
    ensures
        s.filter(p).filter(q) == s.filter(q),
{
    lemma_filter_both(s, p, q);
    assert((|x: T| p(x) && q(x)) =~= q);
}

/// A cleanup drops the unreachable peers whose time is over and nothing else. The peers that
/// answer queries, their number and the expired ones are as before. A second cleanup at the
/// same time finds nothing, and no two rows share an address.
pub proof fn law_cleanup_spares_reachable(
    records: Seq<PeerRecord>,
    now: i64,
    ip_version: Option<Seq<char>>,
)
    requires
        keyed(records),
    ensures
        keyed(kept_records(records, now)),
        reachable_records(kept_records(records, now), ip_version) == reachable_records(
            records,
            ip_version,
        ),
        expired_records(kept_records(records, now), now) == expired_records(records, now),
        kept_records(kept_records(records, now), now) == kept_records(records, now),
        forall|r: PeerRecord| #[trigger]
            kept_records(records, now).contains(r) <==> records.contains(r) && !(r.unreachable()
                && r.expired(now)),
{
    let keep = |r: PeerRecord| !(r.unreachable() && r.expired(now));
    lemma_filter_keyed(records, keep);
    lemma_filter_members(records, keep);
    lemma_filter_through(
        records,
        keep,
        |r: PeerRecord| r.reachable() && version_matches(r.addr, ip_version),
    );
    lemma_filter_through(records, keep, |r: PeerRecord| r.reachable() && r.expired(now));
    lemma_filter_through(records, keep, keep);
}

/// A cleanup changes for no peer whether it is due, then or later: it forgets only peers that
/// would be tried again anyway.
pub proof fn law_cleanup_keeps_dueness(
    records: Seq<PeerRecord>,
    addr: Seq<char>,
    now: i64,
    later: i64,
)
    requires
        keyed(records),
        now <= later,
    ensures
        due(status_at(record_of(kept_records(records, now), addr), later)) == due(
            status_at(record_of(records, addr), later),
        ),
{
    let kept = kept_records(records, now);
    law_cleanup_spares_reachable(records, now, None);
    if record_of(kept, addr) is Some {
        lemma_record_of_found(kept, addr);
        lemma_record_of_member(records, record_of(kept, addr)->0);
    } else if record_of(records, addr) is Some {
        let record = record_of(records, addr)->0;
        lemma_record_of_found(records, addr);
        if kept.contains(record) {
            lemma_record_of_member(kept, record);
        }
    }
}

/// The socket addresses of records are theirs, and no more than there are records.
proof fn lemma_sockets(records: Seq<PeerRecord>)
    ensures
        sockets(records).len() <= records.len(),
        forall|p: PeerAddr| #[trigger]
            sockets(records).contains(p) ==> exists|r: PeerRecord| #[trigger]
                records.contains(r) && r.socket == Some(p),
        forall|r: PeerRecord| #[trigger]
            records.contains(r) && r.socket is Some ==> sockets(records).contains(r.socket->0),
{
    let with = records.filter(|r: PeerRecord| r.socket is Some);
    lemma_filter_members(records, |r: PeerRecord| r.socket is Some);
    assert forall|p: PeerAddr| #[trigger] sockets(records).contains(p) implies exists|
        r: PeerRecord,
    | #[trigger] records.contains(r) && r.socket == Some(p) by {
        let k = sockets(records).index_of(p);
        assert(with.contains(with[k]));
        assert(records.contains(with[k]));
    }
    assert forall|r: PeerRecord| #[trigger]
        records.contains(r) && r.socket is Some implies sockets(records).contains(r.socket->0) by {
        assert(with.contains(r));
        let k = with.index_of(r);
        assert(sockets(records)[k] == r.socket->0);
    }
}

/// The records at the front are records.
proof fn lemma_front(records: Seq<PeerRecord>, count: int)
    requires
        0 <= count,
    ensures
        front(records, count).len() <= count,
        forall|r: PeerRecord| #[trigger]
            front(records, count).contains(r) ==> records.contains(r),
{
    assert forall|r: PeerRecord| #[trigger] front(records, count).contains(r) implies
        records.contains(r) by {
        let k = front(records, count).index_of(r);
        assert(records[k] == r);
    }
}

/// The peers that a request gets are no more than it asks for, and each stands in the table as
/// reachable, with an address of the wanted IP version.
pub proof fn law_served_peers_are_reachable(
    records: Seq<PeerRecord>,
    max_records: usize,
    ip_version: Option<Seq<char>>,
)
    ensures
        ({
            let served = served_peers(records, max_records, ip_version);
            &&& served.len() <= max_records
            &&& forall|p: PeerAddr| #[trigger]
                served.contains(p) ==> exists|r: PeerRecord| #[trigger]
                    records.contains(r) && r.socket == Some(p) && r.reachable()
                        && version_matches(r.addr, ip_version)
        }),
{
    let wanted = |r: PeerRecord| r.reachable() && version_matches(r.addr, ip_version);
    let chosen = front(reachable_records(records, ip_version), limit(max_records));
    lemma_filter_members(records, wanted);
    lemma_front(reachable_records(records, ip_version), limit(max_records));
    lemma_sockets(chosen);
    assert forall|p: PeerAddr| #[trigger] sockets(chosen).contains(p) implies exists|
        r: PeerRecord,
    | #[trigger]
        records.contains(r) && r.socket == Some(p) && r.reachable() && version_matches(
            r.addr,
            ip_version,
        ) by {
        let r = choose|r: PeerRecord| #[trigger] chosen.contains(r) && r.socket == Some(p);
        assert(reachable_records(records, ip_version).contains(r));
        assert(records.contains(r));
    }
}

/// Where there are more reachable peers than a request asks for, it gets as many as it asks
/// for, and otherwise all of them, as far as their addresses are socket addresses.
pub proof fn law_requests_are_filled(
    records: Seq<PeerRecord>,
    max_records: usize,
    ip_version: Option<Seq<char>>,
)
    requires
        max_records <= i64::MAX,
        forall|i: int| 0 <= i < records.len() ==> (#[trigger] records[i]).socket is Some,
    ensures
        ({
            let reachable = reachable_records(records, ip_version);
            let served = served_peers(records, max_records, ip_version);
            served.len() == if reachable.len() < max_records {
                reachable.len() as int
            } else {
                max_records as int
            }
        }),
{
    let wanted = |r: PeerRecord| r.reachable() && version_matches(r.addr, ip_version);
    let chosen = front(reachable_records(records, ip_version), limit(max_records));
    lemma_filter_members(records, wanted);
    lemma_front(reachable_records(records, ip_version), limit(max_records));
    assert forall|i: int| 0 <= i < chosen.len() implies (#[trigger] chosen[i]).socket is Some by {
        assert(chosen.contains(chosen[i]));
        assert(reachable_records(records, ip_version).contains(chosen[i]));
        let k = records.index_of(chosen[i]);
        assert(records[k].socket is Some);
    }
    lemma_filter_keeps(chosen, |r: PeerRecord| r.socket is Some);
}

/// Every answer is short and made of the zone's own records: no more than allowed, no address
/// twice, each owned by the zone's name, of class Internet and the fixed time to live, of the
/// queried type, and each the address of a peer that stands in the table as reachable.
pub proof fn law_answers(authority: PeerDiscoveryAuthority, name: Labels, rtype: u16)
    ensures
        ({
            let answer = authority.answer(name, rtype);
            &&& answer.len() <= MAX_RECORDS_TO_RETURN
            &&& forall|i: int, j: int|
                0 <= i < j < answer.len() ==> (#[trigger] answer[i]).ip != (
                #[trigger] answer[j]).ip
            &&& forall|i: int|
                0 <= i < answer.len() ==> {
                    let record = #[trigger] answer[i];
                    &&& record.owner == authority.origin_labels()
                    &&& record.class == CLASS_IN
                    &&& record.ttl == DNS_RECORD_TTL
                    &&& record.ip matches Some(ip)
                    &&& address_wanted(rtype, ip)
                    &&& served_address(authority.records(), ip)
                }
        }),
{
    if name == authority.origin_labels() {
        let peers = authority.queried_peers(rtype);
        let ips = peers.map_values(|p: PeerAddr| p.spec_ip());
        let wanted = wanted_addresses(rtype, peers);
        law_served_peers_are_reachable(
            authority.records(),
            MAX_RECORDS_TO_RETURN,
            queried_version(rtype),
        );
        lemma_filter_members(ips, |ip: PeerIp| address_wanted(rtype, ip));
        lemma_distinct(wanted);
        let answer = authority.answer(name, rtype);
        assert forall|i: int| 0 <= i < answer.len() implies {
            let record = #[trigger] answer[i];
            &&& record.owner == authority.origin_labels()
            &&& record.class == CLASS_IN
            &&& record.ttl == DNS_RECORD_TTL
            &&& record.ip matches Some(ip)
            &&& address_wanted(rtype, ip)
            &&& served_address(authority.records(), ip)
        } by {
            let ip = distinct(wanted)[i];
            assert(distinct(wanted).contains(ip));
            assert(wanted.contains(ip));
            let k = ips.index_of(ip);
            let peer = peers[k];
            assert(peers.contains(peer));
            let r = choose|r: PeerRecord| #[trigger]
                authority.records().contains(r) && r.socket == Some(peer) && r.reachable()
                    && version_matches(r.addr, queried_version(rtype));
            assert(authority.records().contains(r) && r.reachable() && r.socket == Some(peer));
        }
    }
}

/// The texts of the two IP versions are different.
proof fn lemma_versions_differ()
    ensures
        "v4"@ != "v6"@,
{
    reveal_strlit("v4");
    reveal_strlit("v6");
    assert("v4"@[1] != "v6"@[1]);
}

/// A filter keeps records spelled out.
proof fn lemma_filter_spelled_out(records: Seq<PeerRecord>, p: spec_fn(PeerRecord) -> bool)
    requires
        all_spelled_out(records),
    ensures
        all_spelled_out(records.filter(p)),
{
    lemma_filter_members(records, p);
    assert forall|i: int| 0 <= i < records.filter(p).len() implies spelled_out(
        #[trigger] records.filter(p)[i],
    ) by {
        assert(records.filter(p).contains(records.filter(p)[i]));
        assert(spelled_out(records[records.index_of(records.filter(p)[i])]));
    }
}

/// A filter keeps socket addresses apart.
proof fn lemma_filter_apart(records: Seq<PeerRecord>, p: spec_fn(PeerRecord) -> bool)
    requires
        apart(records),
    ensures
        apart(records.filter(p)),
    decreases records.len(),
{
    reveal(Seq::filter);
    if records.len() > 0 {
        let rest = records.drop_last();
        lemma_filter_apart(rest, p);
        lemma_filter_members(rest, p);
        assert forall|i: int|
            0 <= i < rest.filter(p).len() && (#[trigger] rest.filter(p)[i]).socket is Some implies
            rest.filter(p)[i].socket != records.last().socket by {
            assert(rest.filter(p).contains(rest.filter(p)[i]));
            let k = rest.index_of(rest.filter(p)[i]);
            assert(records[k] == rest.filter(p)[i]);
            assert(records[records.len() - 1] == records.last());
        }
    }
}

/// Records that are apart name no socket address twice.
proof fn lemma_sockets_distinct(records: Seq<PeerRecord>)
    requires
        apart(records),
    ensures
        sockets(records).no_duplicates(),
{
    let with = records.filter(|r: PeerRecord| r.socket is Some);
    lemma_filter_apart(records, |r: PeerRecord| r.socket is Some);
    lemma_filter_members(records, |r: PeerRecord| r.socket is Some);
    assert forall|i: int, j: int| 0 <= i < j < with.len() implies sockets(records)[i] != sockets(
        records,
    )[j] by {
        assert(with[i].socket is Some && with[j].socket is Some);
        assert(with[i].socket != with[j].socket);
    }
}

/// Records that are apart and have one socket address are one record.
proof fn lemma_socket_identifies(records: Seq<PeerRecord>, a: PeerRecord, b: PeerRecord)
    requires
        apart(records),
        records.contains(a),
        records.contains(b),
        a.socket is Some,
        a.socket == b.socket,
    ensures
        a == b,
{
    let i = records.index_of(a);
    let j = records.index_of(b);
    if i < j {
        assert(records[i].socket != records[j].socket);
    } else if j < i {
        assert(records[j].socket != records[i].socket);
    }
}

/// Texts and socket addresses stay one address each: a mark whose own text and socket address
/// are keeps them so, and so does a cleanup. An empty table has none that could differ.
pub proof fn law_tables_stay_coherent(records: Seq<PeerRecord>, record: PeerRecord, now: i64)
    requires
        coherent(records),
    ensures
        coherent(Seq::<PeerRecord>::empty()),
        fits(records, record) ==> coherent(upsert(records, record)),
        coherent(kept_records(records, now)),
{
    let keep = |r: PeerRecord| !(r.unreachable() && r.expired(now));
    lemma_filter_spelled_out(records, keep);
    lemma_filter_apart(records, keep);
    let other = |r: PeerRecord| r.addr != record.addr;
    let others = records.filter(other);
    lemma_filter_spelled_out(records, other);
    lemma_filter_apart(records, other);
    lemma_filter_members(records, other);
    if fits(records, record) {
        assert forall|i: int| 0 <= i < others.len() && (#[trigger] others[i]).socket is Some implies
            others[i].socket != record.socket by {
            assert(others.contains(others[i]));
            let k = records.index_of(others[i]);
            assert(records[k] == others[i]);
        }
    }
}

/// What passes a test is divided by any other test.
proof fn lemma_filter_divides<T>(s: Seq<T>, p: spec_fn(T) -> bool, q: spec_fn(T) -> bool)
    ensures
        s.filter(p).len() == s.filter(|x: T| p(x) && q(x)).len() + s.filter(
            |x: T| p(x) && !q(x),
        ).len(),
    decreases s.len(),
{
    reveal(Seq::filter);
    if s.len() > 0 {
        lemma_filter_divides(s.drop_last(), p, q);
    }
}

/// The reachable records of version four are those of both versions whose text has fewer than
/// two colons, and those of version six are the others.
proof fn lemma_versions(records: Seq<PeerRecord>)
    ensures
        reachable_records(records, Some("v4"@)) == reachable_records(records, None).filter(
            |r: PeerRecord| !two_colons(r.addr),
        ),
        reachable_records(records, Some("v6"@)) == reachable_records(records, None).filter(
            |r: PeerRecord| two_colons(r.addr),
        ),
        reachable_records(records, None).len() == reachable_records(records, Some("v4"@)).len()
            + reachable_records(records, Some("v6"@)).len(),
{
    lemma_versions_differ();
    let any = |r: PeerRecord| r.reachable() && version_matches(r.addr, None);
    let four = |r: PeerRecord| !two_colons(r.addr);
    let six = |r: PeerRecord| two_colons(r.addr);
    lemma_filter_both(records, any, four);
    lemma_filter_both(records, any, six);
    lemma_filter_divides(records, any, six);
    assert((|r: PeerRecord| any(r) && four(r)) =~= (|r: PeerRecord|
        r.reachable() && version_matches(r.addr, Some("v4"@))));
    assert((|r: PeerRecord| any(r) && six(r)) =~= (|r: PeerRecord|
        r.reachable() && version_matches(r.addr, Some("v6"@))));
    assert((|r: PeerRecord| any(r) && !six(r)) =~= (|r: PeerRecord| any(r) && four(r)));
}

/// The peers that a request for one version gets are of that version.
pub proof fn law_requests_keep_to_their_version(records: Seq<PeerRecord>, max_records: usize)
    requires
        all_spelled_out(records),
    ensures
        forall|p: PeerAddr| #[trigger]
            served_peers(records, max_records, Some("v4"@)).contains(p) ==> p is V4,
        forall|p: PeerAddr| #[trigger]
            served_peers(records, max_records, Some("v6"@)).contains(p) ==> p is V6,
{
    lemma_versions_differ();
    law_served_peers_are_reachable(records, max_records, Some("v4"@));
    law_served_peers_are_reachable(records, max_records, Some("v6"@));
    assert forall|r: PeerRecord| #[trigger] records.contains(r) implies spelled_out(r) by {
        assert(spelled_out(records[records.index_of(r)]));
    }
}

/// Requests for version four and for version six split the reachable peers, where no more are
/// known than the request asks for: each peer is given by the one for its version and not by the
/// other.
pub proof fn law_versions_split_the_peers(records: Seq<PeerRecord>, max_records: usize)
    requires
        all_spelled_out(records),
        reachable_records(records, None).len() <= max_records <= i64::MAX,
    ensures
        ({
            let all = served_peers(records, max_records, None);
            let four = served_peers(records, max_records, Some("v4"@));
            let six = served_peers(records, max_records, Some("v6"@));
            &&& all.len() == four.len() + six.len()
            &&& forall|p: PeerAddr| #[trigger] four.contains(p) <==> all.contains(p) && p is V4
            &&& forall|p: PeerAddr| #[trigger] six.contains(p) <==> all.contains(p) && p is V6
        }),
{
    let any = reachable_records(records, None);
    let colons = |r: PeerRecord| two_colons(r.addr);
    let few = |r: PeerRecord| !two_colons(r.addr);
    let some = |r: PeerRecord| r.socket is Some;
    lemma_versions(records);
    lemma_filter_spelled_out(
        records,
        |r: PeerRecord| r.reachable() && version_matches(r.addr, None),
    );
    assert forall|r: PeerRecord| #[trigger] any.contains(r) implies spelled_out(r) by {
        assert(spelled_out(any[any.index_of(r)]));
    }
    lemma_filter_members(any, colons);
    lemma_filter_members(any, few);
    lemma_sockets(any);
    lemma_sockets(any.filter(colons));
    lemma_sockets(any.filter(few));
    let four = sockets(any.filter(few));
    let six = sockets(any.filter(colons));
    assert forall|p: PeerAddr| #[trigger]
        four.contains(p) <==> sockets(any).contains(p) && p is V4 by {
        if four.contains(p) {
            let r = choose|r: PeerRecord| #[trigger]
                any.filter(few).contains(r) && r.socket == Some(p);
            assert(any.contains(r));
        }
        if sockets(any).contains(p) && p is V4 {
            let r = choose|r: PeerRecord| #[trigger] any.contains(r) && r.socket == Some(p);
            assert(any.filter(few).contains(r));
        }
    }
    assert forall|p: PeerAddr| #[trigger]
        six.contains(p) <==> sockets(any).contains(p) && p is V6 by {
        if six.contains(p) {
            let r = choose|r: PeerRecord| #[trigger]
                any.filter(colons).contains(r) && r.socket == Some(p);
            assert(any.contains(r));
        }
        if sockets(any).contains(p) && p is V6 {
            let r = choose|r: PeerRecord| #[trigger] any.contains(r) && r.socket == Some(p);
            assert(any.filter(colons).contains(r));
        }
    }
    lemma_filter_divides(any, some, colons);
    lemma_filter_both(any, colons, some);
    lemma_filter_both(any, few, some);
    assert((|r: PeerRecord| some(r) && colons(r)) =~= (|r: PeerRecord| colons(r) && some(r)));
    assert((|r: PeerRecord| some(r) && !colons(r)) =~= (|r: PeerRecord| few(r) && some(r)));
}

/// No request gets a peer twice.
pub proof fn law_no_peer_twice(
    records: Seq<PeerRecord>,
    max_records: usize,
    ip_version: Option<Seq<char>>,
    now: i64,
)
    requires
        apart(records),
    ensures
        served_peers(records, max_records, ip_version).no_duplicates(),
        expired_peers(records, max_records, now).no_duplicates(),
{
    lemma_filter_apart(
        records,
        |r: PeerRecord| r.reachable() && version_matches(r.addr, ip_version),
    );
    lemma_filter_apart(records, |r: PeerRecord| r.reachable() && r.expired(now));
    lemma_sockets_distinct(front(reachable_records(records, ip_version), limit(max_records)));
    lemma_sockets_distinct(front(expired_records(records, now), limit(max_records)));
}

/// A peer is among the expired ones only if its status is that of an expired reachable peer, and
/// always then, where no more have expired than the request asks for.
pub proof fn law_expired_peers_by_status(
    records: Seq<PeerRecord>,
    record: PeerRecord,
    peer: PeerAddr,
    max_records: usize,
    now: i64,
)
    requires
        keyed(records),
        apart(records),
        records.contains(record),
        record.socket == Some(peer),
    ensures
        ({
            let status = status_at(record_of(records, record.addr), now);
            let expired = expired_peers(records, max_records, now);
            &&& expired.contains(peer) ==> status is ReachableExpired
            &&& expired_records(records, now).len() <= limit(max_records) ==> (expired.contains(
                peer,
            ) <==> status is ReachableExpired)
        }),
{
    let chosen = front(expired_records(records, now), limit(max_records));
    lemma_record_of_member(records, record);
    lemma_filter_members(records, |r: PeerRecord| r.reachable() && r.expired(now));
    lemma_front(expired_records(records, now), limit(max_records));
    lemma_sockets(chosen);
    if sockets(chosen).contains(peer) {
        let r = choose|r: PeerRecord| #[trigger] chosen.contains(r) && r.socket == Some(peer);
        assert(expired_records(records, now).contains(r));
        lemma_socket_identifies(records, r, record);
    }
    if record.reachable() && record.expired(now) && expired_records(records, now).len() <= limit(
        max_records,
    ) {
        assert(expired_records(records, now).contains(record));
        assert(chosen =~= expired_records(records, now));
        assert(chosen.contains(record));
    }
}

/// Addresses of which none occurs twice are left as they are.
proof fn lemma_distinct_keeps(addresses: Seq<PeerIp>)
    requires
        addresses.no_duplicates(),
    ensures
        distinct(addresses) == addresses,
    decreases addresses.len(),
{
    if addresses.len() > 0 {
        let rest = addresses.drop_last();
        lemma_distinct_keeps(rest);
        if rest.contains(addresses.last()) {
            let k = rest.index_of(addresses.last());
            assert(addresses[k] == addresses[addresses.len() - 1]);
        }
        assert(rest.push(addresses.last()) =~= addresses);
    }
}

/// A query for addresses is answered with as many as fit: where every reachable peer of the
/// queried version has an IP address of its own, the answer has a record for each of them, up to
/// the number of records allowed.
pub proof fn law_answers_are_filled(authority: PeerDiscoveryAuthority, rtype: u16)
    requires
        all_spelled_out(authority.records()),
        rtype == TYPE_A || rtype == TYPE_AAAA,
        forall|i: int|
            0 <= i < reachable_records(authority.records(), queried_version(rtype)).len() ==> (
            #[trigger] reachable_records(
                authority.records(),
                queried_version(rtype),
            )[i]).socket is Some,
        forall|i: int, j: int|
            0 <= i < j < reachable_records(authority.records(), queried_version(rtype)).len()
                ==> ip_of(
                #[trigger] reachable_records(authority.records(), queried_version(rtype))[i],
            ) != ip_of(
                #[trigger] reachable_records(authority.records(), queried_version(rtype))[j],
            ),
    ensures
        ({
            let known = reachable_records(authority.records(), queried_version(rtype)).len();
            authority.answer(authority.origin_labels(), rtype).len() == if known
                < MAX_RECORDS_TO_RETURN {
                known as int
            } else {
                MAX_RECORDS_TO_RETURN as int
            }
        }),
{
    let version = queried_version(rtype);
    let reachable = reachable_records(authority.records(), version);
    let chosen = front(reachable, limit(MAX_RECORDS_TO_RETURN));
    lemma_versions_differ();
    lemma_filter_members(
        authority.records(),
        |r: PeerRecord| r.reachable() && version_matches(r.addr, version),
    );
    lemma_filter_spelled_out(
        authority.records(),
        |r: PeerRecord| r.reachable() && version_matches(r.addr, version),
    );
    lemma_filter_keeps(chosen, |r: PeerRecord| r.socket is Some);
    let peers = authority.queried_peers(rtype);
    let ips = peers.map_values(|p: PeerAddr| p.spec_ip());
    assert(peers.len() == chosen.len());
    assert forall|i: int| 0 <= i < ips.len() implies address_wanted(rtype, #[trigger] ips[i]) by {
        assert(peers[i] == reachable[i].socket->0);
        assert(spelled_out(reachable[i]));
        assert(version_matches(reachable[i].addr, version));
    }
    lemma_filter_keeps(ips, |ip: PeerIp| address_wanted(rtype, ip));
    assert forall|i: int, j: int| 0 <= i < j < ips.len() implies ips[i] != ips[j] by {
        assert(ip_of(reachable[i]) != ip_of(reachable[j]));
    }
    lemma_distinct_keeps(ips);
}

/// The IP address of a record that has a socket address.
pub open spec fn ip_of(record: PeerRecord) -> PeerIp {
    (record.socket->0).spec_ip()
}

/// Whether the table holds a reachable peer with the IP address.
pub open spec fn served_address(records: Seq<PeerRecord>, ip: PeerIp) -> bool {
    exists|r: PeerRecord| #[trigger]
        records.contains(r) && r.reachable() && (r.socket matches Some(peer) && peer.spec_ip()
            == ip)
}

/// A reachable peer is found by a query for addresses of its version, where the table has no
/// more such peers than fit into an answer.
pub proof fn law_reachable_peers_are_found(
    authority: PeerDiscoveryAuthority,
    record: PeerRecord,
    peer: PeerAddr,
    rtype: u16,
)
    requires
        authority.records().contains(record),
        record.reachable(),
        spelled_out(record),
        record.socket == Some(peer),
        rtype == type_of(peer.spec_ip()),
        reachable_records(authority.records(), queried_version(rtype)).len()
            <= MAX_RECORDS_TO_RETURN,
    ensures
        authority.answer(authority.origin_labels(), rtype).contains(
            address_record(peer.spec_ip(), authority.origin_labels()),
        ),
{
    let version = queried_version(rtype);
    let labels = authority.origin_labels();
    lemma_versions_differ();
    let chosen = reachable_records(authority.records(), version);
    lemma_filter_members(
        authority.records(),
        |r: PeerRecord| r.reachable() && version_matches(r.addr, version),
    );
    assert(chosen.contains(record));
    assert(front(chosen, limit(MAX_RECORDS_TO_RETURN)) =~= chosen);
    let with = chosen.filter(|r: PeerRecord| r.socket is Some);
    lemma_filter_members(chosen, |r: PeerRecord| r.socket is Some);
    assert(with.contains(record));
    let peers = authority.queried_peers(rtype);
    let k = with.index_of(record);
    assert(peers[k] == peer);
    let ips = peers.map_values(|p: PeerAddr| p.spec_ip());
    assert(ips[k] == peer.spec_ip());
    lemma_filter_members(ips, |ip: PeerIp| address_wanted(rtype, ip));
    assert(ips.contains(peer.spec_ip()));
    let wanted = wanted_addresses(rtype, peers);
    assert(wanted.contains(peer.spec_ip()));
    lemma_distinct(wanted);
    assert(distinct(wanted).contains(peer.spec_ip()));
    let j = distinct(wanted).index_of(peer.spec_ip());
    assert(authority.answer(labels, rtype)[j] == address_record(peer.spec_ip(), labels));
}

/// The address of a peer that was just marked as reachable is in the answer to a query for its
/// version, where the table has no more such peers than fit into an answer.
pub proof fn law_reachable_marks_are_answered(
    authority: PeerDiscoveryAuthority,
    records: Seq<PeerRecord>,
    addr: Seq<char>,
    socket: PeerAddr,
    now: i64,
    duration: u64,
    rtype: u16,
)
    requires
        spelled_out(marked_record(addr, socket, true, now, duration)),
        now + duration <= LATEST_EXPIRY,
        authority.records() == upsert(records, marked_record(addr, socket, true, now, duration)),
        rtype == type_of(socket.spec_ip()),
        reachable_records(authority.records(), queried_version(rtype)).len()
            <= MAX_RECORDS_TO_RETURN,
    ensures
        authority.answer(authority.origin_labels(), rtype).contains(
            address_record(socket.spec_ip(), authority.origin_labels()),
        ),
{
    let record = marked_record(addr, socket, true, now, duration);
    lemma_upsert_members(records, record);
    law_reachable_peers_are_found(authority, record, socket.spelled(), rtype);
}

/// Once a peer was marked as unreachable, whatever is answered is the address of another
/// reachable peer.
pub proof fn law_unreachable_marks_are_not_answered(
    authority: PeerDiscoveryAuthority,
    records: Seq<PeerRecord>,
    addr: Seq<char>,
    socket: PeerAddr,
    now: i64,
    duration: u64,
    name: Labels,
    rtype: u16,
)
    requires
        now + duration <= LATEST_EXPIRY,
        authority.records() == upsert(records, marked_record(addr, socket, false, now, duration)),
    ensures
        forall|i: int|
            0 <= i < authority.answer(name, rtype).len() ==> served_address(
                records.filter(|r: PeerRecord| r.addr != addr),
                (#[trigger] authority.answer(name, rtype)[i]).ip->0,
            ),
{
    let record = marked_record(addr, socket, false, now, duration);
    let others = records.filter(|r: PeerRecord| r.addr != addr);
    let answer = authority.answer(name, rtype);
    lemma_upsert_members(records, record);
    lemma_filter_members(records, |r: PeerRecord| r.addr != addr);
    law_answers(authority, name, rtype);
    assert forall|i: int| 0 <= i < answer.len() implies served_address(
        others,
        (#[trigger] answer[i]).ip->0,
    ) by {
        let ip = answer[i].ip->0;
        assert(served_address(authority.records(), ip));
        let r = choose|r: PeerRecord| #[trigger]
            authority.records().contains(r) && r.reachable() && (r.socket matches Some(peer)
                && peer.spec_ip() == ip);
        assert(r != record);
        assert(others.contains(r));
    }
}

/// A query for another name, or for a type that is no address type, is answered with nothing.
pub proof fn law_refused_queries(authority: PeerDiscoveryAuthority, name: Labels, rtype: u16)
    requires
        name != authority.origin_labels() || (rtype != TYPE_A && rtype != TYPE_AAAA && rtype
            != TYPE_ANY),
    ensures
        authority.answerable(name, rtype),
        authority.answer(name, rtype).len() == 0,
{
    law_answers(authority, name, rtype);
    let answer = authority.answer(name, rtype);
    if answer.len() > 0 {
        assert(address_wanted(rtype, answer[0].ip->0));
    }
}

/// A query for addresses of one version can always be answered.
pub proof fn law_address_queries_are_answerable(
    authority: PeerDiscoveryAuthority,
    name: Labels,
    rtype: u16,
)
    requires
        rtype == TYPE_A || rtype == TYPE_AAAA,
    ensures
        authority.answerable(name, rtype),
{
}

/// A peer that is not under way is sent; so, as long as nothing is under way, is any. One that is
/// under way is not sent again before it is released, and is once it was.
pub proof fn law_under_way_once(processing: Set<PeerAddr>, peer: PeerAddr)
    ensures
        !processing.contains(peer) ==> admitted(processing, seq![peer]) == seq![peer],
        admitted(Set::empty(), seq![peer]) == seq![peer],
        admitted(processing.insert(peer), seq![peer]) == Seq::<PeerAddr>::empty(),
        admitted(processing.insert(peer).remove(peer), seq![peer]) == seq![peer],
{
    lemma_admitted(processing.insert(peer), seq![peer]);
    let none = admitted(processing.insert(peer), seq![peer]);
    if none.len() > 0 {
        assert(none.contains(none[0]));
    }
    assert(none =~= Seq::<PeerAddr>::empty());
    reveal_with_fuel(admitted, 2);
    assert(!processing.contains(peer) ==> admitted(processing, seq![peer]) =~= seq![peer]);
    assert(admitted(Set::empty(), seq![peer]) =~= seq![peer]);
    assert(admitted(processing.insert(peer).remove(peer), seq![peer]) =~= seq![peer]);
}

/// A round never takes more peers under way than the larger of what was under way and what has
/// expired.
pub proof fn law_recheck_bounded(processing: Set<PeerAddr>, expired: Seq<PeerAddr>)
    requires
        processing.finite(),
    ensures
        ({
            let batch = recheck_batch(expired, processing.len());
            let after = processing.union(batch.to_set());
            &&& after.finite()
            &&& after.len() <= if processing.len() < expired.len() {
                expired.len()
            } else {
                processing.len()
            }
        }),
{
    let batch = recheck_batch(expired, processing.len());
    batch.lemma_cardinality_of_set();
    vstd::seq_lib::seq_to_set_is_finite(batch);
    vstd::set_lib::lemma_len_union(processing, batch.to_set());
    if processing.len() >= expired.len() {
        assert(processing.union(batch.to_set()) =~= processing);
    }
}

/// With nothing under way, a round tries every expired peer that it looks at.
pub proof fn law_idle_recheck_is_complete(expired: Seq<PeerAddr>)
    ensures
        recheck_batch(expired, 0) == expired,
        forall|p: PeerAddr| #[trigger]
            admitted(Set::empty(), recheck_batch(expired, 0)).contains(p) <==> expired.contains(p),
{
    assert(recheck_batch(expired, 0) =~= expired);
    lemma_admitted(Set::empty(), expired);
}

} // verus!
