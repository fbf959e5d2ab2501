//! What the table gives, row by row: requests, counts, marks, cleanups and answers, said in the
//! fields of the rows.
use vstd::prelude::*;

use crate::address::{PeerAddr, PeerIp};
use crate::dns::{
    address_wanted, distinct, dropped_addresses, lemma_distinct, marked_record, queried_version,
    text_of, texts, wanted_addresses, PeerDiscoveryAuthority, LATEST_EXPIRY,
};
use crate::peers::{
    expired_peers, front, kept_records, known, lemma_filter_members, lemma_sockets_push, limit,
    reachable_records, record_of, records, served_peers, sockets, status_at, two_colons, upsert,
    version_matches, PeerRecord, PeerRow,
};
use crate::records::{lower, Labels};

verus! {

/// Whether numbers stand in rising order.
pub open spec fn ascending(rows: Seq<int>) -> bool {
    forall|a: int, b: int| 0 <= a < b < rows.len() ==> #[trigger] rows[a] < #[trigger] rows[b]
}

/// How many of the elements before the `i`-th pass a test.
pub open spec fn rank<T>(s: Seq<T>, p: spec_fn(T) -> bool, i: int) -> int
    decreases i,
{
    if i <= 0 {
        0
    } else {
        rank(s, p, i - 1) + if p(s[i - 1]) {
            1int
        } else {
            0
        }
    }
}

/// Whether `rows` are the places of all elements that pass a test, and `found` is what stands
/// there, in order.
pub open spec fn found_at<T>(
    s: Seq<T>,
    p: spec_fn(T) -> bool,
    found: Seq<T>,
    rows: Seq<int>,
) -> bool {
    &&& ascending(rows)
    &&& rows.len() == found.len()
    &&& forall|k: int|
        0 <= k < rows.len() ==> 0 <= #[trigger] rows[k] < s.len() && s[rows[k]] == found[k]
    &&& forall|i: int| 0 <= i < s.len() ==> (#[trigger] rows.contains(i) <==> p(s[i]))
}

/// Whether `rows` are the places of the records that have a socket address among the first
/// `most` that pass a test, and `peers` are their socket addresses, in order.
pub open spec fn drawn_from(
    records: Seq<PeerRecord>,
    p: spec_fn(PeerRecord) -> bool,
    most: int,
    peers: Seq<PeerAddr>,
    rows: Seq<int>,
) -> bool {
    &&& ascending(rows)
    &&& rows.len() == peers.len()
    &&& forall|k: int|
        0 <= k < rows.len() ==> 0 <= #[trigger] rows[k] < records.len() && records[rows[k]].socket
            == Some(peers[k])
    &&& forall|i: int|
        0 <= i < records.len() ==> (#[trigger] rows.contains(i) <==> p(records[i])
            && records[i].socket is Some && rank(records, p, i) < most)
}

/// The number of colons in a text.
pub open spec fn colons(text: Seq<char>) -> int {
    rank(text, |c: char| c == ':', text.len() as int)
}

/// Whether a record is one that a request for reachable peers of a version is for.
pub open spec fn asked_for(record: PeerRecord, ip_version: Option<Seq<char>>) -> bool {
    &&& record.is_reachable == 1
    &&& ip_version == Some("v4"@) ==> colons(record.addr) < 2
    &&& ip_version == Some("v6"@) ==> colons(record.addr) >= 2
}

/// Whether a record is one that answers a query of a type, by the type's number.
pub open spec fn asked_by_query(record: PeerRecord, rtype: u16) -> bool {
    &&& record.is_reachable == 1
    &&& rtype == 1 ==> colons(record.addr) < 2
    &&& rtype == 28 ==> colons(record.addr) >= 2
}

/// Whether an IP address has the version and the bits of a socket address.
pub open spec fn same_bits(socket: PeerAddr, ip: PeerIp) -> bool {
    match ip {
        PeerIp::V4(bits) => socket is V4 && socket->V4_ip == bits,
        PeerIp::V6(bits) => socket is V6 && socket->V6_ip == bits,
    }
}

/// Places are counted by what stands before them.
proof fn lemma_rank_local<T>(s: Seq<T>, t: Seq<T>, p: spec_fn(T) -> bool, i: int)
    requires
        i <= s.len(),
        i <= t.len(),
        forall|k: int| 0 <= k < i ==> s[k] == t[k],
    ensures
        rank(s, p, i) == rank(t, p, i),
    decreases i,
{
    if i > 0 {
        lemma_rank_local(s, t, p, i - 1);
    }
}

/// What a filter leaves is as long as the number of elements that pass.
proof fn lemma_rank_filter<T>(s: Seq<T>, p: spec_fn(T) -> bool)
    ensures
        s.filter(p).len() == rank(s, p, s.len() as int),
    decreases s.len(),
{
    reveal(Seq::filter);
    if s.len() > 0 {
        let rest = s.drop_last();
        lemma_rank_filter(rest, p);
        lemma_rank_local(s, rest, p, rest.len() as int);
    }
}

/// A rank rises by at most one from place to place.
proof fn lemma_rank_bounds<T>(s: Seq<T>, p: spec_fn(T) -> bool, i: int)
    ensures
        0 <= rank(s, p, i),
        i >= 0 ==> rank(s, p, i) <= i,
    decreases i,
{
    if i > 0 {
        lemma_rank_bounds(s, p, i - 1);
    }
}

/// A text has two colons or more exactly if it has one before another.
proof fn lemma_colons(text: Seq<char>)
    ensures
        two_colons(text) <==> colons(text) >= 2,
        colons(text) >= 0,
        colons(text) == 0 <==> !text.contains(':'),
    decreases text.len(),
{
    let colon = |c: char| c == ':';
    lemma_rank_bounds(text, colon, text.len() as int);
    if text.len() > 0 {
        let rest = text.drop_last();
        let last = text.len() - 1;
        lemma_colons(rest);
        lemma_rank_local(text, rest, colon, last);
        if two_colons(rest) {
            let (i, j) = choose|i: int, j: int|
                0 <= i < j < rest.len() && rest[i] == ':' && rest[j] == ':';
            assert(text[i] == ':' && text[j] == ':');
        }
        if text[last] == ':' && rest.contains(':') {
            let i = rest.index_of(':');
            assert(text[i] == ':' && text[last] == ':');
        }
        if two_colons(text) {
            let (i, j) = choose|i: int, j: int|
                0 <= i < j < text.len() && text[i] == ':' && text[j] == ':';
            assert(rest[i] == ':');
            if j < last {
                assert(rest[j] == ':');
            }
        }
        if rest.contains(':') {
            let i = rest.index_of(':');
            assert(text[i] == ':');
        }
        if text.contains(':') {
            let i = text.index_of(':');
            if i < last {
                assert(rest[i] == ':');
            }
        }
    }
}

/// A filter leaves what stands at the places that pass.
pub proof fn lemma_found<T>(s: Seq<T>, p: spec_fn(T) -> bool) -> (rows: Seq<int>)
    ensures
        found_at(s, p, s.filter(p), rows),
    decreases s.len(),
{
    reveal(Seq::filter);
    if s.len() == 0 {
        Seq::empty()
    } else {
        let rest = s.drop_last();
        let last = s.len() - 1;
        let before = lemma_found(rest, p);
        let rows = if p(s[last]) {
            before.push(last)
        } else {
            before
        };
        assert forall|i: int| 0 <= i < s.len() implies (#[trigger] rows.contains(i) <==> p(
            s[i],
        )) by {
            if before.contains(i) {
                let k = before.index_of(i);
                assert(rows[k] == i);
            }
            if p(s[last]) {
                assert(rows[before.len() as int] == last);
            }
            if rows.contains(i) {
                let k = rows.index_of(i);
                if k < before.len() {
                    assert(before[k] == i);
                }
            }
            if i < last {
                assert(before.contains(i) <==> p(rest[i]));
            }
        }
        rows
    }
}

/// The socket addresses of the first records that pass are drawn from their places.
proof fn lemma_drawn(records: Seq<PeerRecord>, p: spec_fn(PeerRecord) -> bool, most: int) -> (rows:
    Seq<int>)
    requires
        0 <= most,
    ensures
        drawn_from(records, p, most, sockets(front(records.filter(p), most)), rows),
    decreases records.len(),
{
    reveal(Seq::filter);
    if records.len() == 0 {
        assert(sockets(front(records.filter(p), most)) =~= Seq::<PeerAddr>::empty());
        Seq::empty()
    } else {
        let rest = records.drop_last();
        let last = records.len() - 1;
        let record = records[last];
        let before = lemma_drawn(rest, p, most);
        let chosen = rest.filter(p);
        lemma_rank_filter(rest, p);
        lemma_rank_local(records, rest, p, last);
        assert forall|i: int| 0 <= i < last implies rank(records, p, i) == rank(rest, p, i) by {
            lemma_rank_local(records, rest, p, i);
        }
        let taken = p(record) && chosen.len() < most;
        if taken {
            assert(front(chosen, most) == chosen);
            assert(front(chosen.push(record), most) == chosen.push(record));
            lemma_sockets_push(chosen, record);
        } else {
            assert(front(records.filter(p), most) =~= front(chosen, most));
        }
        let rows = if taken && record.socket is Some {
            before.push(last)
        } else {
            before
        };
        assert forall|i: int| 0 <= i < records.len() implies (#[trigger] rows.contains(i) <==> p(
            records[i],
        ) && records[i].socket is Some && rank(records, p, i) < most) by {
            if before.contains(i) {
                let k = before.index_of(i);
                assert(rows[k] == i);
            }
            if taken && record.socket is Some {
                assert(rows[before.len() as int] == last);
            }
            if rows.contains(i) {
                let k = rows.index_of(i);
                if k < before.len() {
                    assert(before[k] == i);
                }
            }
            if i < last {
                assert(before.contains(i) <==> p(rest[i]) && rest[i].socket is Some && rank(
                    rest,
                    p,
                    i,
                ) < most);
            }
        }
        rows
    }
}

/// A request for reachable peers gets the socket addresses of the first rows, as many as it asks
/// for, that are marked with 1 and whose text is of the wanted version: fewer than two colons for
/// `v4`, two or more for `v6`. It gets each at its place and nothing else. A number beyond 64
/// signed bits gets nothing.
pub proof fn law_served_peers_by_row(
    records: Seq<PeerRecord>,
    max_records: usize,
    ip_version: Option<Seq<char>>,
) -> (rows: Seq<int>)
    ensures
        drawn_from(
            records,
            |r: PeerRecord| asked_for(r, ip_version),
            if max_records <= 0x7fff_ffff_ffff_ffff {
                max_records as int
            } else {
                0
            },
            served_peers(records, max_records, ip_version),
            rows,
        ),
{
    lemma_asked_for(ip_version);
    lemma_drawn(records, |r: PeerRecord| asked_for(r, ip_version), limit(max_records))
}

/// The test by which reachable records are selected.
proof fn lemma_asked_for(ip_version: Option<Seq<char>>)
    ensures
        (|r: PeerRecord| asked_for(r, ip_version)) == (|r: PeerRecord|
            r.reachable() && version_matches(r.addr, ip_version)),
{
    reveal_strlit("v4");
    reveal_strlit("v6");
    assert("v4"@[1] != "v6"@[1]);
    let selected = |r: PeerRecord| r.reachable() && version_matches(r.addr, ip_version);
    assert forall|r: PeerRecord| #[trigger] asked_for(r, ip_version) == selected(r) by {
        lemma_colons(r.addr);
    }
    assert((|r: PeerRecord| asked_for(r, ip_version)) =~= selected);
}

/// A request for expired peers gets the socket addresses of the first rows, as many as it asks
/// for, that are marked with 1 and whose time has come; each at its place and nothing else.
pub proof fn law_expired_peers_by_row(
    records: Seq<PeerRecord>,
    max_records: usize,
    now: i64,
) -> (rows: Seq<int>)
    ensures
        drawn_from(
            records,
            |r: PeerRecord| r.is_reachable == 1 && r.expires_at <= now,
            if max_records <= 0x7fff_ffff_ffff_ffff {
                max_records as int
            } else {
                0
            },
            expired_peers(records, max_records, now),
            rows,
        ),
{
    let test = |r: PeerRecord| r.is_reachable == 1 && r.expires_at <= now;
    assert(test =~= (|r: PeerRecord| r.reachable() && r.expired(now)));
    lemma_drawn(records, test, limit(max_records))
}

/// The reachable peers that are counted are the rows marked with 1, whatever else they hold.
pub proof fn law_reachable_count_by_row(records: Seq<PeerRecord>)
    ensures
        reachable_records(records, None).len() == rank(
            records,
            |r: PeerRecord| r.is_reachable == 1,
            records.len() as int,
        ),
{
    let test = |r: PeerRecord| r.is_reachable == 1;
    assert(test =~= (|r: PeerRecord| r.reachable() && version_matches(r.addr, None)));
    lemma_rank_filter(records, test);
}

/// A cleanup keeps, in order, the rows that are not both marked with 0 and past their time, and
/// names the addresses of the others, in order; every row is one or the other.
pub proof fn law_cleanup_by_row(records: Seq<PeerRecord>, now: i64) -> (rows: (Seq<int>, Seq<int>))
    ensures
        found_at(
            records,
            |r: PeerRecord| r.is_reachable != 0 || r.expires_at > now,
            kept_records(records, now),
            rows.0,
        ),
        ascending(rows.1),
        rows.1.len() == dropped_addresses(records, now).len(),
        forall|k: int|
            0 <= k < rows.1.len() ==> 0 <= #[trigger] rows.1[k] < records.len()
                && records[rows.1[k]].addr == dropped_addresses(records, now)[k],
        forall|i: int|
            0 <= i < records.len() ==> (#[trigger] rows.1.contains(i) <==> !rows.0.contains(i)),
{
    let keep = |r: PeerRecord| r.is_reachable != 0 || r.expires_at > now;
    let goes = |r: PeerRecord| r.unreachable() && r.expired(now);
    assert(keep =~= (|r: PeerRecord| !(r.unreachable() && r.expired(now))));
    let kept = lemma_found(records, keep);
    let dropped = lemma_found(records, goes);
    assert forall|i: int| 0 <= i < records.len() implies (#[trigger] dropped.contains(i)
        <==> !kept.contains(i)) by {
        assert(dropped.contains(i) <==> goes(records[i]));
        assert(kept.contains(i) <==> keep(records[i]));
    }
    (kept, dropped)
}

/// Under an address stands the one row that has it.
pub proof fn law_record_by_address(records: Seq<PeerRecord>, addr: Seq<char>)
    requires
        forall|i: int, j: int|
            0 <= i < j < records.len() ==> (#[trigger] records[i]).addr != (
            #[trigger] records[j]).addr,
    ensures
        forall|r: PeerRecord| #[trigger]
            records.contains(r) && r.addr == addr <==> record_of(records, addr) == Some(r),
        record_of(records, addr) is None <==> forall|i: int|
            0 <= i < records.len() ==> (#[trigger] records[i]).addr != addr,
{
    if known(records, addr) {
        let k = choose|k: int| 0 <= k < records.len() && (#[trigger] records[k]).addr == addr;
        assert(records.contains(records[k]));
        assert forall|r: PeerRecord| #[trigger]
            records.contains(r) && r.addr == addr <==> record_of(records, addr) == Some(r) by {
            if records.contains(r) && r.addr == addr {
                let j = records.index_of(r);
                if j < k {
                    assert(records[j].addr != records[k].addr);
                } else if k < j {
                    assert(records[k].addr != records[j].addr);
                }
            }
        }
    } else {
        assert forall|r: PeerRecord| records.contains(r) implies #[trigger] records.contains(r)
            && r.addr != addr by {
            assert(records[records.index_of(r)] == r);
        }
    }
}

/// What a status says of a row: whether it is marked with 1 or with 0, and whether its time is
/// still to come. Without a row, or with another mark, nothing is known.
pub proof fn law_status_by_field(record: PeerRecord, now: i64)
    ensures
        status_at(None, now) is Unknown,
        status_at(Some(record), now) is Reachable <==> record.is_reachable == 1 && now
            < record.expires_at,
        status_at(Some(record), now) is Unreachable <==> record.is_reachable == 0 && now
            < record.expires_at,
        status_at(Some(record), now) is ReachableExpired <==> record.is_reachable == 1 && now
            >= record.expires_at,
        status_at(Some(record), now) is UnreachableExpired <==> record.is_reachable == 0 && now
            >= record.expires_at,
        status_at(Some(record), now) is Unknown <==> record.is_reachable != 0
            && record.is_reachable != 1,
{
}

/// Putting a row in keeps every row of another address, in order, drops those of its own, and
/// puts the row itself behind them.
pub proof fn law_upsert_by_row(records: Seq<PeerRecord>, record: PeerRecord) -> (rows: Seq<int>)
    ensures
        upsert(records, record).len() > 0,
        upsert(records, record).last() == record,
        found_at(
            records,
            |r: PeerRecord| r.addr != record.addr,
            upsert(records, record).drop_last(),
            rows,
        ),
{
    let others = records.filter(|r: PeerRecord| r.addr != record.addr);
    assert(upsert(records, record).drop_last() =~= others);
    lemma_found(records, |r: PeerRecord| r.addr != record.addr)
}

/// A mark writes down the text as it is, the bits, the port and the scope of the socket address,
/// 1 for a peer that answered and 0 for one that did not, and the second at which it expires.
pub proof fn law_mark_by_field(
    addr: Seq<char>,
    socket: PeerAddr,
    reachable: bool,
    now: i64,
    duration: u64,
)
    requires
        now + duration <= LATEST_EXPIRY,
    ensures
        ({
            let record = marked_record(addr, socket, reachable, now, duration);
            &&& record.addr == addr
            &&& record.is_reachable == 1 <==> reachable
            &&& record.is_reachable == 0 <==> !reachable
            &&& record.expires_at == now + duration
            &&& record.socket matches Some(stored)
            &&& match socket {
                PeerAddr::V4 { ip, port } => stored == PeerAddr::V4 { ip, port },
                PeerAddr::V6 { ip, port, scope_id, .. } => stored is V6 && stored->V6_ip == ip
                    && stored->V6_port == port && stored->scope_id == scope_id
                    && stored->flowinfo == 0,
            }
        }),
{
}

/// The table says of each row what its fields hold, row for row.
pub proof fn law_rows_by_field(rows: Seq<PeerRow>)
    ensures
        records(rows).len() == rows.len(),
        forall|i: int|
            0 <= i < rows.len() ==> {
                let record = #[trigger] records(rows)[i];
                &&& record.addr == rows[i].addr@
                &&& record.socket == rows[i].socket
                &&& record.is_reachable == rows[i].is_reachable
                &&& record.expires_at == rows[i].expires_at
            },
{
}

/// Texts are taken character for character.
pub proof fn law_texts_by_character(list: Seq<String>, text: &str)
    ensures
        texts(list).len() == list.len(),
        forall|i: int| 0 <= i < list.len() ==> #[trigger] texts(list)[i] == list[i]@,
        text_of(Some(text)) == Some(text@),
        text_of(None) is None,
{
}

/// Domain names are compared without regard to the case of ASCII letters, and to nothing less.
pub proof fn law_names_without_case(a: Labels, b: Labels)
    ensures
        lower(a) == lower(b) <==> a.len() == b.len() && forall|i: int|
            0 <= i < a.len() ==> {
                &&& (#[trigger] a[i]).len() == b[i].len()
                &&& forall|j: int|
                    0 <= j < a[i].len() ==> {
                        let (x, y) = (#[trigger] a[i][j], b[i][j]);
                        ||| x == y
                        ||| x == y + 32 && 65 <= y <= 90
                        ||| y == x + 32 && 65 <= x <= 90
                    }
            },
{
    if lower(a) == lower(b) {
        assert(lower(a).len() == a.len() && lower(b).len() == b.len());
        assert forall|i: int| 0 <= i < a.len() implies {
            &&& (#[trigger] a[i]).len() == b[i].len()
            &&& forall|j: int|
                0 <= j < a[i].len() ==> {
                    let (x, y) = (#[trigger] a[i][j], b[i][j]);
                    ||| x == y
                    ||| x == y + 32 && 65 <= y <= 90
                    ||| y == x + 32 && 65 <= x <= 90
                }
        } by {
            assert(lower(a)[i] == lower(b)[i]);
            assert(lower(a)[i].len() == a[i].len() && lower(b)[i].len() == b[i].len());
            assert forall|j: int| 0 <= j < a[i].len() implies {
                let (x, y) = (#[trigger] a[i][j], b[i][j]);
                ||| x == y
                ||| x == y + 32 && 65 <= y <= 90
                ||| y == x + 32 && 65 <= x <= 90
            } by {
                assert(lower(a)[i][j] == lower(b)[i][j]);
            }
        }
    }
    if a.len() == b.len() && forall|i: int|
        0 <= i < a.len() ==> {
            &&& (#[trigger] a[i]).len() == b[i].len()
            &&& forall|j: int|
                0 <= j < a[i].len() ==> {
                    let (x, y) = (#[trigger] a[i][j], b[i][j]);
                    ||| x == y
                    ||| x == y + 32 && 65 <= y <= 90
                    ||| y == x + 32 && 65 <= x <= 90
                }
        } {
        assert forall|i: int| 0 <= i < a.len() implies #[trigger] lower(a)[i] == lower(b)[i] by {
            assert(a[i].len() == b[i].len());
            assert forall|j: int| 0 <= j < a[i].len() implies #[trigger] lower(a)[i][j] == lower(
                b,
            )[i][j] by {
                let (x, y) = (a[i][j], b[i][j]);
            }
            assert(lower(a)[i] =~= lower(b)[i]);
        }
        assert(lower(a) =~= lower(b));
    }
}

/// What a query is answered with. For the zone's name, the type's number selects among the first
/// 32 rows that are marked with 1 and, for type 1, have fewer than two colons in their text or,
/// for type 28, two or more. The answer has a record of an address exactly if one of these rows
/// has a socket address of those bits and the type is that of the address, or 255. No address is
/// there twice, and each record is the zone's own, of class 1, to be kept for 300 seconds. Other
/// names have no records.
pub proof fn law_answers_by_row(authority: PeerDiscoveryAuthority, name: Labels, rtype: u16) -> (
    rows: Seq<int>)
    ensures
        drawn_from(
            authority.records(),
            |r: PeerRecord| asked_by_query(r, rtype),
            32,
            authority.queried_peers(rtype),
            rows,
        ),
        name != authority.origin_labels() ==> authority.answer(name, rtype).len() == 0,
        ({
            let answer = authority.answer(authority.origin_labels(), rtype);
            &&& forall|k: int|
                0 <= k < answer.len() ==> {
                    &&& (#[trigger] answer[k]).owner == authority.origin_labels()
                    &&& answer[k].class == 1
                    &&& answer[k].ttl == 300
                    &&& answer[k].ip is Some
                }
            &&& forall|k: int, l: int|
                0 <= k < l < answer.len() ==> (#[trigger] answer[k]).ip != (#[trigger] answer[l]).ip
            &&& forall|k: int|
                0 <= k < answer.len() ==> exists|m: int|
                    0 <= m < rows.len() && same_bits(
                        authority.records()[#[trigger] rows[m]].socket->0,
                        (#[trigger] answer[k]).ip->0,
                    ) && (rtype == 255 || rtype == if answer[k].ip->0 is V4 {
                        1u16
                    } else {
                        28u16
                    })
            &&& forall|m: int, ip: PeerIp|
                0 <= m < rows.len() && #[trigger] same_bits(
                    authority.records()[#[trigger] rows[m]].socket->0,
                    ip,
                ) && (rtype == 255 || rtype == if ip is V4 {
                    1u16
                } else {
                    28u16
                }) ==> exists|k: int| 0 <= k < answer.len() && (#[trigger] answer[k]).ip == Some(ip)
        }),
        authority.answerable(name, rtype) <==> name != authority.origin_labels() || rtype != 255
            || rows.len() == 0,
{
    lemma_asked_for(queried_version(rtype));
    reveal_strlit("v4");
    reveal_strlit("v6");
    assert("v4"@[1] != "v6"@[1]);
    assert((|r: PeerRecord| asked_by_query(r, rtype)) =~= (|r: PeerRecord|
        asked_for(r, queried_version(rtype))));
    let all = authority.records();
    let rows = lemma_drawn(all, |r: PeerRecord| asked_by_query(r, rtype), 32);
    let peers = authority.queried_peers(rtype);
    let ips = peers.map_values(|p: PeerAddr| p.spec_ip());
    let wanted = wanted_addresses(rtype, peers);
    let answer = authority.answer(authority.origin_labels(), rtype);
    lemma_filter_members(ips, |ip: PeerIp| address_wanted(rtype, ip));
    lemma_distinct(wanted);
    assert forall|k: int| 0 <= k < answer.len() implies exists|m: int|
        0 <= m < rows.len() && same_bits(
            all[#[trigger] rows[m]].socket->0,
            (#[trigger] answer[k]).ip->0,
        ) && (rtype == 255 || rtype == if answer[k].ip->0 is V4 {
            1u16
        } else {
            28u16
        }) by {
        let ip = distinct(wanted)[k];
        assert(answer[k].ip == Some(ip));
        assert(distinct(wanted).contains(ip));
        assert(wanted.contains(ip));
        let m = ips.index_of(ip);
        assert(ips[m] == ip);
        assert(same_bits(all[rows[m]].socket->0, ip));
    }
    assert forall|m: int, ip: PeerIp|
        0 <= m < rows.len() && #[trigger] same_bits(all[#[trigger] rows[m]].socket->0, ip) && (rtype
            == 255 || rtype == if ip is V4 {
            1u16
        } else {
            28u16
        }) implies exists|k: int|
        0 <= k < answer.len() && (#[trigger] answer[k]).ip == Some(ip) by {
        assert(ips[m] == ip);
        assert(ips.contains(ip));
        assert(wanted.contains(ip));
        assert(distinct(wanted).contains(ip));
        let k = distinct(wanted).index_of(ip);
        assert(answer[k].ip == Some(ip));
    }
    rows
}

} // verus!
