//! The authority for the seeder's zone: the peers table and the answers made of it.
use trust_dns_server::authority::{AuthLookup, LookupOptions};
use trust_dns_server::proto::error::ProtoError;
use trust_dns_server::proto::rr::{LowerName, Name};
use vstd::prelude::*;

use crate::address::{PeerAddr, PeerIp};
use crate::config::{DNS_RECORD_TTL, MAX_RECORDS_TO_RETURN};
use crate::crawl::due;
use crate::peers::{
    expired_peers, front, has_two_colons, kept_records, keyed, lemma_filter_all_but,
    lemma_filter_empty, lemma_filter_keyed, lemma_filter_members, lemma_filter_step,
    lemma_record_at, lemma_sockets_push, lemma_upsert_keyed, limit, reachable_records, record_of,
    records, served_peers, sockets, status_at, two_colons, upsert, version_matches, PeerRecord,
    PeerRow, PeerStatus,
};
use crate::records::{
    answer_lookup, empty_lookup, encodable, insert_record, label_width, lookup_records, lower,
    lower_name, lower_name_labels, name_is_fqdn, name_labels, new_record_set, parse_name,
    parsed_labels, plain_char, record_set_owner, record_set_records, record_set_type, same_name,
    type_of, AnswerRecord, Labels, CLASS_IN, LONGEST_LABEL, TYPE_A, TYPE_AAAA, TYPE_ANY,
    WIDEST_CHAR,
};

verus! {

/// The last second that a time of expiry can be: the end of the year 9999.
pub const LATEST_EXPIRY: i64 = 253402300799;

/// The largest limit on the number of records.
const LARGEST_LIMIT: u64 = 0x7fff_ffff_ffff_ffff;

/// The authority for one zone, with the peers it knows.
pub struct PeerDiscoveryAuthority {
    origin: LowerName,
    rows: Vec<PeerRow>,
}

/// A text that was to name the zone and is no domain name.
#[derive(Debug)]
pub struct InvalidDomain {
    pub cause: ProtoError,
}

/// Whether `parse_domain` can read the text.
pub fn can_parse(domain: &str) -> (can: bool)
    ensures
        can == encodable(domain@),
{
    let mut plain: bool = true;
    let mut short: bool = true;
    let mut width: u64 = 0;
    let ghost mut bad: int = 0;
    let ghost mut long: int = 0;
    for c in it: domain.chars()
        invariant
            it.seq() == domain@,
            plain ==> forall|k: int| 0 <= k < it.index() ==> plain_char(#[trigger] domain@[k]),
            !plain ==> 0 <= bad < it.index() && !plain_char(domain@[bad]),
            short ==> width == label_width(domain@.take(it.index())) && width <= LONGEST_LABEL,
            short ==> forall|k: int|
                0 <= k <= it.index() ==> label_width(#[trigger] domain@.take(k)) <= LONGEST_LABEL,
            !short ==> 0 <= long <= it.index() && label_width(domain@.take(long)) > LONGEST_LABEL,
    {
        proof {
            assert(domain@.take(it.index() + 1).drop_last() =~= domain@.take(it.index()));
        }
        if c as u32 >= 128 || c == '-' || c == '\\' {
            plain = false;
            proof {
                bad = it.index();
            }
        }
        if short {
            width = if c == '.' {
                0
            } else if (c as u32) < 128 {
                width + 1
            } else {
                width + WIDEST_CHAR
            };
            if width > LONGEST_LABEL {
                short = false;
                proof {
                    long = it.index() + 1;
                }
            }
        }
    }
    plain || short
}

/// The zone's name, read from a text.
pub fn parse_domain(domain: &str) -> (name: Result<Name, InvalidDomain>)
    requires
        encodable(domain@),
    ensures
        name is Ok <==> parsed_labels(domain@) is Some,
        name matches Ok(n) ==> parsed_labels(domain@) == Some(name_labels(n)),
        name matches Ok(n) ==> name_is_fqdn(n) == (domain@.len() > 0 && domain@.last() == '.'),
{
    match parse_name(domain) {
        Ok(name) => Ok(name),
        Err(cause) => Err(InvalidDomain { cause }),
    }
}

/// Which IP versions a request for peers is for.
#[derive(Clone, Copy, PartialEq, Eq, Structural)]
enum IpFilter {
    V4,
    V6,
    Both,
}

/// Reads the wanted IP version: `v4`, `v6`, or anything else for both.
fn ip_filter(ip_version: Option<&str>) -> (filter: IpFilter)
    ensures
        filter is V4 <==> (ip_version matches Some(v) && v@ == "v4"@),
        filter is V6 <==> (ip_version matches Some(v) && v@ == "v6"@),
{
    proof {
        reveal_strlit("v4");
        reveal_strlit("v6");
        assert("v4"@[1] != "v6"@[1]);
    }
    match ip_version {
        Some(version) => {
            let version = version.to_owned();
            if version == "v4".to_owned() {
                IpFilter::V4
            } else if version == "v6".to_owned() {
                IpFilter::V6
            } else {
                IpFilter::Both
            }
        },
        None => IpFilter::Both,
    }
}

/// Which rows of the table a request is for.
#[derive(Clone, Copy, PartialEq, Eq, Structural)]
enum Selection {
    /// Those of reachable peers of the IP version.
    Reachable(IpFilter),
    /// Those of reachable peers whose time is over at a second.
    Expired(i64),
}

impl Selection {
    spec fn selects(self, record: PeerRecord) -> bool {
        record.reachable() && match self {
            Selection::Reachable(IpFilter::V4) => !two_colons(record.addr),
            Selection::Reachable(IpFilter::V6) => two_colons(record.addr),
            Selection::Reachable(IpFilter::Both) => true,
            Selection::Expired(now) => record.expired(now),
        }
    }

    /// Whether the request is for the row.
    fn takes(&self, row: &PeerRow) -> (taken: bool)
        ensures
            taken == self.selects(row@),
    {
        row.is_reachable == 1 && match *self {
            Selection::Reachable(IpFilter::V4) => !has_two_colons(&row.addr),
            Selection::Reachable(IpFilter::V6) => has_two_colons(&row.addr),
            Selection::Reachable(IpFilter::Both) => true,
            Selection::Expired(now) => row.expires_at <= now,
        }
    }
}

/// A peer that was just marked.
#[derive(Debug)]
pub struct MarkedPeer {
    /// The row to store.
    pub row: PeerRow,
    /// Whether the mark moved the peer into, or out of, the reachable ones.
    pub announce: bool,
}

/// Whether a mark moves a peer of the given status into, or out of, the reachable ones.
pub open spec fn announced(reachable: bool, previous_peer_status: PeerStatus) -> bool {
    if reachable {
        previous_peer_status is UnreachableExpired || previous_peer_status is Unknown
    } else {
        previous_peer_status is ReachableExpired
    }
}

/// The record of a peer that was tried at second `now`, good for `duration` seconds. Of the
/// socket address it holds what the text `addr` spells: all but the flow label.
pub open spec fn marked_record(
    addr: Seq<char>,
    socket: PeerAddr,
    reachable: bool,
    now: i64,
    duration: u64,
) -> PeerRecord {
    PeerRecord {
        addr,
        socket: Some(socket.spelled()),
        is_reachable: if reachable {
            1
        } else {
            0
        },
        expires_at: (now + duration) as i64,
    }
}

/// The addresses of records.
pub open spec fn addresses_of(records: Seq<PeerRecord>) -> Seq<Seq<char>> {
    records.map_values(|r: PeerRecord| r.addr)
}

/// The addresses of the unreachable peers whose time is over.
pub open spec fn dropped_addresses(records: Seq<PeerRecord>, now: i64) -> Seq<Seq<char>> {
    addresses_of(records.filter(|r: PeerRecord| r.unreachable() && r.expired(now)))
}

/// Texts as their characters.
pub open spec fn texts(texts: Seq<String>) -> Seq<Seq<char>> {
    texts.map_values(|t: String| t@)
}

/// An optional text as its characters.
pub open spec fn text_of(text: Option<&str>) -> Option<Seq<char>> {
    match text {
        Some(t) => Some(t@),
        None => None,
    }
}

impl PeerDiscoveryAuthority {
    /// The labels of the zone's name, in lower case.
    pub closed spec fn origin_labels(self) -> Labels {
        lower_name_labels(self.origin)
    }

    /// The records of the peers table, in the order in which they were read.
    pub closed spec fn records(self) -> Seq<PeerRecord> {
        records(self.rows@)
    }

    #[verifier::type_invariant]
    spec fn well_formed(self) -> bool {
        keyed(records(self.rows@))
    }

    /// An authority for the zone `origin` that knows no peers.
    pub fn new(origin: Name) -> (authority: PeerDiscoveryAuthority)
        ensures
            authority.origin_labels() == lower(name_labels(origin)),
            authority.records() == Seq::<PeerRecord>::empty(),
            keyed(authority.records()),
    {
        let rows: Vec<PeerRow> = Vec::new();
        let authority = PeerDiscoveryAuthority { origin: lower_name(&origin), rows };
        assert(authority.records() =~= Seq::<PeerRecord>::empty());
        authority
    }

    /// An authority for the zone `origin` that knows the peers of the given rows.
    pub fn with_rows(origin: Name, rows: Vec<PeerRow>) -> (authority: PeerDiscoveryAuthority)
        requires
            keyed(records(rows@)),
        ensures
            authority.origin_labels() == lower(name_labels(origin)),
            authority.records() == records(rows@),
    {
        PeerDiscoveryAuthority { origin: lower_name(&origin), rows }
    }

    /// The socket addresses of the selected rows, `max_records` rows at most, in the order of
    /// the table. A row whose address is no socket address counts, and yields nothing.
    fn selected(&self, max_records: usize, selection: Selection) -> (peers: Vec<PeerAddr>)
        ensures
            peers@ == sockets(
                front(
                    self.records().filter(|r: PeerRecord| selection.selects(r)),
                    limit(max_records),
                ),
            ),
    {
        let ghost wanted = |r: PeerRecord| selection.selects(r);
        let ghost all = self.records();
        let most: u64 = if max_records as u64 <= LARGEST_LIMIT {
            max_records as u64
        } else {
            0
        };
        let mut peers: Vec<PeerAddr> = Vec::new();
        let mut taken: u64 = 0;
        let mut i: usize = 0;
        proof {
            lemma_filter_empty(all, wanted);
            lemma_filter_empty(Seq::<PeerRecord>::empty(), |r: PeerRecord| r.socket is Some);
            assert(Seq::<PeerRecord>::empty().take(0) =~= Seq::<PeerRecord>::empty());
            assert(sockets(Seq::<PeerRecord>::empty()) =~= Seq::<PeerAddr>::empty());
        }
        while i < self.rows.len()
            invariant
                i <= self.rows.len(),
                all == records(self.rows@),
                wanted == |r: PeerRecord| selection.selects(r),
                most == limit(max_records),
                taken == front(all.take(i as int).filter(wanted), most as int).len(),
                peers@ == sockets(front(all.take(i as int).filter(wanted), most as int)),
            decreases self.rows.len() - i,
        {
            let row = &self.rows[i];
            let ghost before = all.take(i as int).filter(wanted);
            proof {
                lemma_filter_step(all, wanted, i as int);
                assert(all[i as int] == row@);
            }
            if selection.takes(row) && taken < most {
                proof {
                    assert(front(before, most as int) == before);
                    assert(front(before.push(row@), most as int) == before.push(row@));
                    lemma_sockets_push(before, row@);
                }
                taken += 1;
                if let Some(socket) = row.socket {
                    peers.push(socket);
                }
            } else {
                assert(wanted(row@) ==> front(before.push(row@), most as int) =~= front(
                    before,
                    most as int,
                ));
            }
            i += 1;
        }
        assert(all.take(i as int) =~= all);
        peers
    }

    /// The reachable peers of the wanted IP version, `max_records` at most, in the order
    /// of the table. A row whose address is no socket address counts, and yields nothing.
    pub fn get_peers(&self, max_records: usize, ip_version: Option<&str>) -> (peers: Vec<PeerAddr>)
        ensures
            peers@ == served_peers(self.records(), max_records, text_of(ip_version)),
    {
        let selection = Selection::Reachable(ip_filter(ip_version));
        let ghost version = text_of(ip_version);
        proof {
            let chosen = |r: PeerRecord| selection.selects(r);
            assert(chosen =~= |r: PeerRecord| r.reachable() && version_matches(r.addr, version));
        }
        self.selected(max_records, selection)
    }

    /// The reachable peers whose time is over, `max_records` at most, in the order of the
    /// table. A row whose address is no socket address counts, and yields nothing.
    pub fn get_expired_reachable_peers(&self, max_records: usize, now: i64) -> (peers: Vec<
        PeerAddr,
    >)
        ensures
            peers@ == expired_peers(self.records(), max_records, now),
    {
        let selection = Selection::Expired(now);
        proof {
            let chosen = |r: PeerRecord| selection.selects(r);
            assert(chosen =~= |r: PeerRecord| r.reachable() && r.expired(now));
        }
        self.selected(max_records, selection)
    }

    /// Puts a row in the place of the one with its address, or adds it where there is none.
    fn put(&mut self, row: PeerRow)
        ensures
            final(self).records() == upsert(old(self).records(), row@),
            keyed(final(self).records()),
            final(self).origin_labels() == old(self).origin_labels(),
    {
        proof {
            use_type_invariant(&*self);
        }
        let ghost all = self.records();
        let mut rows: Vec<PeerRow> = Vec::new();
        std::mem::swap(&mut rows, &mut self.rows);
        let mut i: usize = 0;
        while i < rows.len() && rows[i].addr != row.addr
            invariant
                i <= rows.len(),
                forall|k: int| 0 <= k < i ==> (#[trigger] rows@[k])@.addr != row@.addr,
            decreases rows.len() - i,
        {
            i += 1;
        }
        proof {
            assert(records(rows@) =~= all);
            assert forall|k: int| 0 <= k < i implies (#[trigger] all[k]).addr != row@.addr by {
                assert(all[k] == rows@[k]@);
            }
            lemma_filter_all_but(all, row@.addr, i as int);
            lemma_upsert_keyed(all, row@);
        }
        if i < rows.len() {
            let replaced = rows.remove(i);
        }
        rows.push(row);
        assert(records(rows@) =~= upsert(all, row@));
        self.rows = rows;
    }

    /// Puts the row of a peer that was tried at second `now` into the table, and returns it.
    fn mark(
        &mut self,
        addr: String,
        socket: PeerAddr,
        reachable: bool,
        duration: u64,
        now: i64,
    ) -> (row: PeerRow)
        requires
            now + duration <= LATEST_EXPIRY,
        ensures
            row@ == marked_record(addr@, socket, reachable, now, duration),
            final(self).records() == upsert(old(self).records(), row@),
            keyed(final(self).records()),
            final(self).origin_labels() == old(self).origin_labels(),
    {
        let socket: Option<PeerAddr> = Some(socket.without_flow_label());
        let is_reachable: i64 = if reachable {
            1
        } else {
            0
        };
        let expires_at: i64 = (now as i128 + duration as i128) as i64;
        self.put(PeerRow { addr: addr.clone(), socket, is_reachable, expires_at });
        PeerRow { addr, socket, is_reachable, expires_at }
    }

    /// Notes at second `now` that the peer answered, which holds for `duration` seconds.
    ///
    /// `addr` is the text of the socket address `socket`. Returns the row to store, and
    /// whether the peer is new among the reachable ones.
    pub fn mark_peer_reachable(
        &mut self,
        addr: String,
        socket: PeerAddr,
        duration: u64,
        previous_peer_status: PeerStatus,
        now: i64,
    ) -> (marked: MarkedPeer)
        requires
            now + duration <= LATEST_EXPIRY,
        ensures
            marked.row@ == marked_record(addr@, socket, true, now, duration),
            marked.announce == (previous_peer_status is UnreachableExpired
                || previous_peer_status is Unknown),
            marked.announce == announced(true, previous_peer_status),
            final(self).records() == upsert(old(self).records(), marked.row@),
            keyed(final(self).records()),
            final(self).origin_labels() == old(self).origin_labels(),
    {
        let row = self.mark(addr, socket, true, duration, now);
        let announce = previous_peer_status == PeerStatus::UnreachableExpired
            || previous_peer_status == PeerStatus::Unknown;
        MarkedPeer { row, announce }
    }

    /// Notes at second `now` that the peer did not answer, which holds for `duration`
    /// seconds.
    ///
    /// `addr` is the text of the socket address `socket`. Returns the row to store, and
    /// whether the peer was among the reachable ones.
    pub fn mark_peer_unreachable(
        &mut self,
        addr: String,
        socket: PeerAddr,
        duration: u64,
        previous_peer_status: PeerStatus,
        now: i64,
    ) -> (marked: MarkedPeer)
        requires
            now + duration <= LATEST_EXPIRY,
        ensures
            marked.row@ == marked_record(addr@, socket, false, now, duration),
            marked.announce == (previous_peer_status is ReachableExpired),
            marked.announce == announced(false, previous_peer_status),
            final(self).records() == upsert(old(self).records(), marked.row@),
            keyed(final(self).records()),
            final(self).origin_labels() == old(self).origin_labels(),
    {
        let row = self.mark(addr, socket, false, duration, now);
        let announce = previous_peer_status == PeerStatus::ReachableExpired;
        MarkedPeer { row, announce }
    }

    /// What the table says at second `now` of the peer with the address text `addr`.
    pub fn get_peer_status(&self, addr: &String, now: i64) -> (status: PeerStatus)
        ensures
            status == status_at(record_of(self.records(), addr@), now),
    {
        proof {
            use_type_invariant(self);
        }
        let ghost all = self.records();
        let mut i: usize = 0;
        while i < self.rows.len()
            invariant
                i <= self.rows.len(),
                all == records(self.rows@),
                keyed(all),
                forall|k: int| 0 <= k < i ==> (#[trigger] all[k]).addr != addr@,
            decreases self.rows.len() - i,
        {
            let row = &self.rows[i];
            assert(all[i as int] == row@);
            if row.addr == *addr {
                proof {
                    lemma_record_at(all, i as int);
                }
                let expired: bool = row.expires_at <= now;
                return if row.is_reachable == 1 {
                    if expired {
                        PeerStatus::ReachableExpired
                    } else {
                        PeerStatus::Reachable
                    }
                } else if row.is_reachable == 0 {
                    if expired {
                        PeerStatus::UnreachableExpired
                    } else {
                        PeerStatus::Unreachable
                    }
                } else {
                    PeerStatus::Unknown
                };
            }
            i += 1;
        }
        PeerStatus::Unknown
    }

    /// Drops the rows of unreachable peers whose time is over at second `now`, and returns
    /// their addresses.
    pub fn cleanup_unreachable_peers(&mut self, now: i64) -> (removed: Vec<String>)
        ensures
            final(self).records() == kept_records(old(self).records(), now),
            keyed(final(self).records()),
            texts(removed@) == dropped_addresses(old(self).records(), now),
            final(self).origin_labels() == old(self).origin_labels(),
    {
        proof {
            use_type_invariant(&*self);
        }
        let ghost all = self.records();
        let ghost keep = |r: PeerRecord| !(r.unreachable() && r.expired(now));
        let ghost goes = |r: PeerRecord| r.unreachable() && r.expired(now);
        let mut rows: Vec<PeerRow> = Vec::new();
        std::mem::swap(&mut rows, &mut self.rows);
        let ghost before = rows@;
        let mut kept: Vec<PeerRow> = Vec::new();
        let mut removed: Vec<String> = Vec::new();
        proof {
            assert(records(before) =~= all);
            lemma_filter_empty(all, keep);
            lemma_filter_empty(all, goes);
            assert(records(kept@) =~= all.take(0).filter(keep));
            assert(texts(removed@) =~= addresses_of(all.take(0).filter(goes)));
        }
        for row in it: rows
            invariant
                it.seq() == before,
                all == records(before),
                keep == |r: PeerRecord| !(r.unreachable() && r.expired(now)),
                goes == |r: PeerRecord| r.unreachable() && r.expired(now),
                records(kept@) == all.take(it.index()).filter(keep),
                texts(removed@) == addresses_of(all.take(it.index()).filter(goes)),
        {
            let ghost at = it.index();
            let ghost old_kept = kept@;
            let ghost old_removed = removed@;
            let ghost record = row@;
            proof {
                assert(all[at] == row@);
                lemma_filter_step(all, keep, at);
                lemma_filter_step(all, goes, at);
            }
            if row.is_reachable == 0 && row.expires_at <= now {
                removed.push(row.addr);
                assert(texts(removed@) =~= texts(old_removed).push(record.addr));
                assert(addresses_of(all.take(at).filter(goes).push(record)) =~= addresses_of(
                    all.take(at).filter(goes),
                ).push(record.addr));
            } else {
                kept.push(row);
                assert(records(kept@) =~= records(old_kept).push(record));
            }
        }
        proof {
            assert(all.take(all.len() as int) =~= all);
            lemma_filter_keyed(all, keep);
        }
        self.rows = kept;
        removed
    }

    /// The number of reachable peers, expired or not.
    pub fn get_reachable_peer_count(&self) -> (count: usize)
        ensures
            count == reachable_records(self.records(), None).len(),
    {
        let ghost all = self.records();
        let ghost wanted = |r: PeerRecord| r.reachable() && version_matches(r.addr, None);
        let mut count: usize = 0;
        let mut i: usize = 0;
        proof {
            lemma_filter_empty(all, wanted);
        }
        while i < self.rows.len()
            invariant
                i <= self.rows.len(),
                all == records(self.rows@),
                wanted == |r: PeerRecord| r.reachable() && version_matches(r.addr, None),
                count == all.take(i as int).filter(wanted).len(),
                count <= i,
            decreases self.rows.len() - i,
        {
            proof {
                lemma_filter_step(all, wanted, i as int);
                assert(all[i as int] == self.rows@[i as int]@);
            }
            if self.rows[i].is_reachable == 1 {
                count += 1;
            }
            i += 1;
        }
        assert(all.take(i as int) =~= all);
        count
    }

    /// The zone's name.
    pub fn origin(&self) -> (origin: &LowerName)
        ensures
            lower_name_labels(*origin) == self.origin_labels(),
    {
        &self.origin
    }

    /// Whether `name` is the zone's name, the only one that has records.
    pub fn is_origin(&self, name: &LowerName) -> (is_origin: bool)
        ensures
            is_origin == (lower_name_labels(*name) == self.origin_labels()),
    {
        same_name(name, &self.origin)
    }

    /// The peers from which a query of the given type is answered.
    pub open spec fn queried_peers(self, rtype: u16) -> Seq<PeerAddr> {
        served_peers(self.records(), MAX_RECORDS_TO_RETURN, queried_version(rtype))
    }

    /// Whether a query can be answered: one for the zone's name and every type cannot,
    /// unless there is nothing to answer, since a record set has a type of its own.
    pub open spec fn answerable(self, name: Labels, rtype: u16) -> bool {
        name == self.origin_labels() && rtype == TYPE_ANY ==> self.queried_peers(rtype).len() == 0
    }

    /// The records that answer a query.
    pub open spec fn answer(self, name: Labels, rtype: u16) -> Seq<AnswerRecord> {
        if name == self.origin_labels() {
            address_records(
                distinct(wanted_addresses(rtype, self.queried_peers(rtype))),
                self.origin_labels(),
            )
        } else {
            Seq::empty()
        }
    }

    /// The peers from which a query of the given type is answered.
    fn peers_for(&self, rtype: u16) -> (peers: Vec<PeerAddr>)
        ensures
            peers@ == self.queried_peers(rtype),
    {
        let ip_version: Option<&str> = if rtype == TYPE_A {
            Some("v4")
        } else if rtype == TYPE_AAAA {
            Some("v6")
        } else {
            None
        };
        self.get_peers(MAX_RECORDS_TO_RETURN, ip_version)
    }

    /// Whether `lookup` can answer the query.
    pub fn can_answer(&self, name: &LowerName, rtype: u16) -> (can: bool)
        ensures
            can == self.answerable(lower_name_labels(*name), rtype),
    {
        if !self.is_origin(name) || rtype != TYPE_ANY {
            return true;
        }
        let peers = self.peers_for(rtype);
        peers.len() == 0
    }

    /// Answers a query for the records of `name` of the type with the code `rtype`.
    pub fn lookup(&self, name: &LowerName, rtype: u16, options: LookupOptions) -> (lookup:
        AuthLookup)
        requires
            self.answerable(lower_name_labels(*name), rtype),
        ensures
            lookup_records(lookup) == self.answer(lower_name_labels(*name), rtype),
    {
        if !self.is_origin(name) {
            return empty_lookup();
        }
        let peers = self.peers_for(rtype);
        let addresses = addresses_for(rtype, &peers);
        let ghost labels = self.origin_labels();
        if addresses.len() == 0 {
            proof {
                lemma_distinct(addresses@);
                assert(address_records(distinct(addresses@), labels) =~= Seq::empty());
            }
            return empty_lookup();
        }
        let mut record_set = new_record_set(&self.origin, rtype, DNS_RECORD_TTL);
        let mut i: usize = 0;
        proof {
            lemma_wanted(rtype, peers@);
            assert(address_records(distinct(addresses@.take(0)), labels) =~= Seq::empty());
        }
        while i < addresses.len()
            invariant
                i <= addresses.len(),
                labels == lower_name_labels(self.origin),
                rtype != TYPE_ANY,
                forall|k: int|
                    0 <= k < addresses@.len() ==> address_wanted(rtype, #[trigger] addresses@[k]),
                record_set_records(record_set) == address_records(
                    distinct(addresses@.take(i as int)),
                    labels,
                ),
                record_set_owner(record_set) == labels,
                record_set_type(record_set) == rtype,
            decreases addresses.len() - i,
        {
            let ghost seen = distinct(addresses@.take(i as int));
            let ip = addresses[i];
            proof {
                assert(addresses@.take(i + 1).drop_last() =~= addresses@.take(i as int));
                assert(address_wanted(rtype, addresses@[i as int]));
                lemma_address_records_has(seen, labels, ip);
            }
            insert_record(&mut record_set, &self.origin, DNS_RECORD_TTL, ip, 0);
            proof {
                assert(address_records(seen.push(ip), labels) =~= address_records(
                    seen,
                    labels,
                ).push(address_record(ip, labels)));
            }
            i += 1;
        }
        proof {
            assert(addresses@.take(i as int) =~= addresses@);
            lemma_distinct(addresses@);
            assert forall|k: int| 0 <= k < record_set_records(record_set).len() implies {
                &&& (#[trigger] record_set_records(record_set)[k]).owner == labels
                &&& record_set_records(record_set)[k].ip matches Some(ip)
                &&& record_set_type(record_set) == type_of(ip)
            } by {
                let ip = distinct(addresses@)[k];
                assert(distinct(addresses@).contains(ip));
                assert(address_wanted(rtype, addresses@[addresses@.index_of(ip)]));
            }
        }
        answer_lookup(options, record_set, rtype, &self.origin)
    }

    /// Whether the zone may be transferred: never.
    pub fn is_axfr_allowed(&self) -> (allowed: bool)
        ensures
            !allowed,
    {
        false
    }

    /// Whether an update of the zone took effect: none does.
    pub fn update(&self) -> (updated: bool)
        ensures
            !updated,
    {
        false
    }

    /// The records that deny a name's existence: the zone has none.
    pub fn get_nsec_records(&self) -> (lookup: AuthLookup)
        ensures
            lookup_records(lookup) == Seq::<AnswerRecord>::empty(),
    {
        empty_lookup()
    }
}

/// The IP version of the peers that answer a query of the given type.
pub open spec fn queried_version(rtype: u16) -> Option<Seq<char>> {
    if rtype == TYPE_A {
        Some("v4"@)
    } else if rtype == TYPE_AAAA {
        Some("v6"@)
    } else {
        None
    }
}

/// Whether an address belongs into the answer to a query of the given type.
pub open spec fn address_wanted(rtype: u16, ip: PeerIp) -> bool {
    rtype == type_of(ip) || rtype == TYPE_ANY
}

/// The addresses of peers that belong into the answer to a query of the given type.
pub open spec fn wanted_addresses(rtype: u16, peers: Seq<PeerAddr>) -> Seq<PeerIp> {
    peers.map_values(|p: PeerAddr| p.spec_ip()).filter(|ip: PeerIp| address_wanted(rtype, ip))
}

/// The addresses without those that occurred before.
pub open spec fn distinct(addresses: Seq<PeerIp>) -> Seq<PeerIp>
    decreases addresses.len(),
{
    if addresses.len() == 0 {
        Seq::empty()
    } else {
        let before = distinct(addresses.drop_last());
        if before.contains(addresses.last()) {
            before
        } else {
            before.push(addresses.last())
        }
    }
}

/// The record of an address in an answer.
pub open spec fn address_record(ip: PeerIp, owner: Labels) -> AnswerRecord {
    AnswerRecord { owner, class: CLASS_IN, ttl: DNS_RECORD_TTL, ip: Some(ip) }
}

/// The records of addresses in an answer.
pub open spec fn address_records(addresses: Seq<PeerIp>, owner: Labels) -> Seq<AnswerRecord> {
    addresses.map_values(|ip: PeerIp| address_record(ip, owner))
}

/// What is left without repetitions: the same addresses, each once.
pub proof fn lemma_distinct(addresses: Seq<PeerIp>)
    ensures
        distinct(addresses).no_duplicates(),
        distinct(addresses).len() <= addresses.len(),
        forall|ip: PeerIp| #[trigger] distinct(addresses).contains(ip) <==> addresses.contains(ip),
    decreases addresses.len(),
{
    if addresses.len() > 0 {
        let rest = addresses.drop_last();
        let before = distinct(rest);
        let last = addresses.last();
        lemma_distinct(rest);
        assert forall|ip: PeerIp|
            #[trigger] distinct(addresses).contains(ip) <==> addresses.contains(ip) by {
            assert(before.contains(ip) <==> rest.contains(ip));
            assert(before.push(last)[before.len() as int] == last);
            if before.contains(ip) {
                let k = before.index_of(ip);
                assert(before.push(last)[k] == ip);
                let j = rest.index_of(ip);
                assert(addresses[j] == ip);
            }
            if addresses.contains(ip) {
                let j = addresses.index_of(ip);
                if j < rest.len() {
                    assert(rest[j] == ip);
                }
            }
        }
    }
}

/// Every address in an answer belongs into it.
proof fn lemma_wanted(rtype: u16, peers: Seq<PeerAddr>)
    ensures
        forall|k: int|
            0 <= k < wanted_addresses(rtype, peers).len() ==> address_wanted(
                rtype,
                #[trigger] wanted_addresses(rtype, peers)[k],
            ),
        wanted_addresses(rtype, peers).len() <= peers.len(),
{
    lemma_filter_members(
        peers.map_values(|p: PeerAddr| p.spec_ip()),
        |ip: PeerIp| address_wanted(rtype, ip),
    );
}

/// An answer has a record of an address exactly if the address is among its addresses.
proof fn lemma_address_records_has(addresses: Seq<PeerIp>, owner: Labels, ip: PeerIp)
    ensures
        addresses.contains(ip) <==> exists|i: int|
            0 <= i < address_records(addresses, owner).len() && (#[trigger] address_records(
                addresses,
                owner,
            )[i]).ip == Some(ip),
{
    if addresses.contains(ip) {
        let k = addresses.index_of(ip);
        assert(address_records(addresses, owner)[k].ip == Some(ip));
    }
}

/// The addresses of peers that belong into the answer to a query of the given type, in the
/// order of the peers.
pub fn addresses_for(rtype: u16, peers: &Vec<PeerAddr>) -> (addresses: Vec<PeerIp>)
    ensures
        addresses@ == wanted_addresses(rtype, peers@),
{
    let ghost ips = peers@.map_values(|p: PeerAddr| p.spec_ip());
    let ghost wanted = |ip: PeerIp| address_wanted(rtype, ip);
    let mut addresses: Vec<PeerIp> = Vec::new();
    let mut i: usize = 0;
    proof {
        lemma_filter_empty(ips, wanted);
    }
    while i < peers.len()
        invariant
            i <= peers.len(),
            ips == peers@.map_values(|p: PeerAddr| p.spec_ip()),
            wanted == |ip: PeerIp| address_wanted(rtype, ip),
            addresses@ == ips.take(i as int).filter(wanted),
        decreases peers.len() - i,
    {
        proof {
            lemma_filter_step(ips, wanted, i as int);
        }
        let ip = peers[i].ip();
        match ip {
            PeerIp::V4(_) => {
                if rtype == TYPE_A || rtype == TYPE_ANY {
                    addresses.push(ip);
                }
            },
            PeerIp::V6(_) => {
                if rtype == TYPE_AAAA || rtype == TYPE_ANY {
                    addresses.push(ip);
                }
            },
        }
        i += 1;
    }
    assert(ips.take(i as int) =~= ips);
    addresses
}

/// A peer that answered is announced if nothing was known of it, or only that it once did not
/// answer; one that did not answer is announced if it once did. So a peer that is due is announced
/// for one of the two, and one that is not due for neither.
pub proof fn law_announcements(status: PeerStatus)
    ensures
        announced(true, status) <==> status is Unknown || status is UnreachableExpired,
        announced(false, status) <==> status is ReachableExpired,
        due(status) <==> announced(true, status) != announced(false, status),
{
}

/// The width of a label is at least the length of a stretch without a dot that ends it, eighteen
/// times that if no character of the stretch is ASCII, and at most eighteen times the length of
/// the text, or just that if every character is ASCII.
proof fn lemma_stretch_width(text: Seq<char>, i: int, j: int)
    requires
        0 <= i <= j <= text.len(),
        forall|k: int| i <= k < j ==> text[k] != '.',
    ensures
        label_width(text.take(j)) >= j - i,
        (forall|k: int| i <= k < j ==> (#[trigger] text[k] as u32) >= 128) ==> label_width(
            text.take(j),
        ) >= 18 * (j - i),
        label_width(text.take(j)) <= 18 * j,
        (forall|k: int| 0 <= k < j ==> (#[trigger] text[k] as u32) < 128) ==> label_width(
            text.take(j),
        ) <= j,
    decreases j,
{
    if j > 0 {
        assert(text.take(j).drop_last() =~= text.take(j - 1));
        lemma_stretch_width(text, if i < j {
            i
        } else {
            j - 1
        }, j - 1);
    }
}

/// Whether the characters from `i` to before `j` stand in a row without a dot.
pub open spec fn dotless(text: Seq<char>, i: int, j: int) -> bool {
    0 <= i <= j <= text.len() && forall|k: int| i <= k < j ==> text[k] != '.'
}

/// Which texts can be read as a domain. Any of at most 214 characters can, so can any of ASCII with
/// at most 3855, and so can any of ASCII without hyphen and backslash. In any other that can, no
/// 3856 characters stand in a row without a dot, and no 215 of which none is ASCII.
pub proof fn law_domains_that_can_be_read(text: Seq<char>)
    ensures
        text.len() <= 214 ==> encodable(text),
        text.len() <= 3855 && (forall|k: int|
            0 <= k < text.len() ==> (#[trigger] text[k] as u32) < 128) ==> encodable(text),
        (forall|k: int|
            0 <= k < text.len() ==> (#[trigger] text[k] as u32) < 128 && text[k] != '-' && text[k]
                != '\\') ==> encodable(text),
        encodable(text) && (exists|k: int|
            0 <= k < text.len() && ((#[trigger] text[k] as u32) >= 128 || text[k] == '-' || text[k]
                == '\\')) ==> forall|i: int, j: int| #[trigger]
            dotless(text, i, j) ==> {
                &&& j - i <= 3855
                &&& (forall|k: int| i <= k < j ==> (#[trigger] text[k] as u32) >= 128) ==> j - i
                    <= 214
            },
{
    assert forall|j: int| 0 <= j <= text.len() implies label_width(#[trigger] text.take(j)) <= 18
        * j && ((forall|k: int| 0 <= k < j ==> (#[trigger] text[k] as u32) < 128) ==> label_width(
        text.take(j),
    ) <= j) by {
        lemma_stretch_width(text, j, j);
    }
    if encodable(text) && exists|k: int|
        0 <= k < text.len() && ((#[trigger] text[k] as u32) >= 128 || text[k] == '-' || text[k]
            == '\\') {
        let k = choose|k: int|
            0 <= k < text.len() && ((#[trigger] text[k] as u32) >= 128 || text[k] == '-' || text[k]
                == '\\');
        assert(!plain_char(text[k]));
        assert forall|i: int, j: int| #[trigger] dotless(text, i, j) implies {
            &&& j - i <= 3855
            &&& (forall|k: int| i <= k < j ==> (#[trigger] text[k] as u32) >= 128) ==> j - i <= 214
        } by {
            lemma_stretch_width(text, i, j);
            assert(label_width(text.take(j)) <= LONGEST_LABEL);
        }
    }
}

} // verus!
