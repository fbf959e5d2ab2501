use chia_seeder_light::address::PeerAddr;
use chia_seeder_light::config::{PEER_REACHABLE_TTL, PEER_UNREACHABLE_TTL};
use chia_seeder_light::dns::{parse_domain, PeerDiscoveryAuthority};
use chia_seeder_light::peers::{PeerRow, PeerStatus};

const NOW: i64 = 1_700_000_000;

fn v4(last: u8, port: u16) -> PeerAddr {
    PeerAddr::V4 { ip: u32::from_be_bytes([203, 0, 113, last]), port }
}

fn v6(last: u16) -> PeerAddr {
    PeerAddr::V6 { ip: last as u128, port: 8444, flowinfo: 0, scope_id: 0 }
}

fn row(addr: &str, socket: Option<PeerAddr>, is_reachable: i64, expires_at: i64) -> PeerRow {
    PeerRow { addr: addr.to_string(), socket, is_reachable, expires_at }
}

fn empty() -> PeerDiscoveryAuthority {
    PeerDiscoveryAuthority::new(parse_domain("seeder.dexie.space.").unwrap())
}

fn with(rows: Vec<PeerRow>) -> PeerDiscoveryAuthority {
    PeerDiscoveryAuthority::with_rows(parse_domain("seeder.dexie.space.").unwrap(), rows)
}

fn text(addr: &str) -> String {
    addr.to_string()
}

fn mixed() -> PeerDiscoveryAuthority {
    with(vec![
        row("203.0.113.1:8444", Some(v4(1, 8444)), 1, NOW + 10),
        row("[::1]:8444", Some(v6(1)), 1, NOW - 10),
        row("203.0.113.2:8444", Some(v4(2, 8444)), 0, NOW - 10),
        row("garbage", None, 1, NOW),
        row("203.0.113.3:8444", Some(v4(3, 8444)), 1, NOW),
        row("[::2]:8444", Some(v6(2)), 0, NOW + 10),
        row("203.0.113.4:8444", Some(v4(4, 8444)), 7, NOW - 10),
    ])
}

#[test]
fn a_new_table_knows_nobody() {
    let authority = empty();
    assert_eq!(authority.get_peer_status(&text("203.0.113.1:8444"), NOW), PeerStatus::Unknown);
    assert_eq!(authority.get_peers(10, None), vec![]);
    assert_eq!(authority.get_reachable_peer_count(), 0);
}

#[test]
fn statuses_of_rows() {
    let authority = mixed();
    let status = |addr: &str| authority.get_peer_status(&text(addr), NOW);
    assert_eq!(status("203.0.113.1:8444"), PeerStatus::Reachable);
    assert_eq!(status("[::1]:8444"), PeerStatus::ReachableExpired);
    assert_eq!(status("203.0.113.2:8444"), PeerStatus::UnreachableExpired);
    assert_eq!(status("203.0.113.3:8444"), PeerStatus::ReachableExpired);
    assert_eq!(status("[::2]:8444"), PeerStatus::Unreachable);
    assert_eq!(status("203.0.113.4:8444"), PeerStatus::Unknown);
    assert_eq!(status("203.0.113.5:8444"), PeerStatus::Unknown);
}

#[test]
fn reachable_peers_of_each_version() {
    let authority = mixed();
    assert_eq!(authority.get_peers(10, None), vec![v4(1, 8444), v6(1), v4(3, 8444)]);
    assert_eq!(authority.get_peers(10, Some("v4")), vec![v4(1, 8444), v4(3, 8444)]);
    assert_eq!(authority.get_peers(10, Some("v6")), vec![v6(1)]);
    assert_eq!(
        authority.get_peers(10, Some("v5")),
        vec![v4(1, 8444), v6(1), v4(3, 8444)]
    );
}

#[test]
fn limits_count_rows_before_parsing() {
    let authority = mixed();
    assert_eq!(authority.get_peers(0, None), vec![]);
    assert_eq!(authority.get_peers(1, None), vec![v4(1, 8444)]);
    assert_eq!(authority.get_peers(3, None), vec![v4(1, 8444), v6(1)]);
    assert_eq!(authority.get_peers(2, Some("v4")), vec![v4(1, 8444)]);
    assert_eq!(authority.get_peers(i64::MAX as usize, Some("v6")), vec![v6(1)]);
    assert_eq!(authority.get_peers(usize::MAX, None), vec![]);
}

#[test]
fn one_colon_is_version_four_and_two_are_version_six() {
    let authority = with(vec![
        row("a", Some(v4(1, 1)), 1, 0),
        row("a:b", Some(v4(2, 2)), 1, 0),
        row("a::", Some(v4(3, 3)), 1, 0),
        row("a:b:c:", Some(v4(4, 4)), 1, 0),
    ]);
    assert_eq!(authority.get_peers(9, Some("v4")), vec![v4(1, 1), v4(2, 2)]);
    assert_eq!(authority.get_peers(9, Some("v6")), vec![v4(3, 3), v4(4, 4)]);
}

#[test]
fn expired_peers_are_reachable_ones_whose_time_is_over() {
    let authority = mixed();
    assert_eq!(
        authority.get_expired_reachable_peers(1024, NOW),
        vec![v6(1), v4(3, 8444)]
    );
    assert_eq!(authority.get_expired_reachable_peers(2, NOW), vec![v6(1)]);
    assert_eq!(authority.get_expired_reachable_peers(1024, NOW - 1), vec![v6(1)]);
    assert_eq!(authority.get_expired_reachable_peers(1024, NOW - 11), vec![]);
    assert_eq!(authority.get_expired_reachable_peers(usize::MAX, NOW), vec![]);
}

#[test]
fn a_reachable_mark_is_read_back_until_it_expires() {
    let mut authority = empty();
    let addr = text("203.0.113.1:8444");
    let marked = authority.mark_peer_reachable(
        addr.clone(),
        v4(1, 8444),
        PEER_REACHABLE_TTL,
        PeerStatus::Unknown,
        NOW,
    );
    assert!(marked.announce);
    assert_eq!(marked.row.addr, addr);
    assert_eq!(marked.row.socket, Some(v4(1, 8444)));
    assert_eq!(marked.row.is_reachable, 1);
    assert_eq!(marked.row.expires_at, NOW + 3600);
    assert_eq!(authority.get_peer_status(&addr, NOW + 3599), PeerStatus::Reachable);
    assert_eq!(authority.get_peer_status(&addr, NOW + 3600), PeerStatus::ReachableExpired);
    assert_eq!(authority.get_expired_reachable_peers(9, NOW + 3599), vec![]);
    assert_eq!(authority.get_expired_reachable_peers(9, NOW + 3600), vec![v4(1, 8444)]);
    assert_eq!(authority.get_peers(9, None), vec![v4(1, 8444)]);
}

#[test]
fn an_unreachable_mark_takes_the_peer_out() {
    let mut authority = mixed();
    let addr = text("203.0.113.1:8444");
    let marked = authority.mark_peer_unreachable(
        addr.clone(),
        v4(1, 8444),
        PEER_UNREACHABLE_TTL,
        PeerStatus::ReachableExpired,
        NOW,
    );
    assert!(marked.announce);
    assert_eq!(marked.row.is_reachable, 0);
    assert_eq!(marked.row.expires_at, NOW + 86400);
    assert_eq!(authority.get_peer_status(&addr, NOW + 86399), PeerStatus::Unreachable);
    assert_eq!(authority.get_peer_status(&addr, NOW + 86400), PeerStatus::UnreachableExpired);
    assert_eq!(authority.get_peers(10, None), vec![v6(1), v4(3, 8444)]);
    assert_eq!(authority.get_reachable_peer_count(), 3);
    assert_eq!(
        authority.get_peer_status(&text("203.0.113.3:8444"), NOW),
        PeerStatus::ReachableExpired
    );
}

#[test]
fn which_marks_are_announced() {
    let all = [
        (PeerStatus::Reachable, false, false),
        (PeerStatus::Unreachable, false, false),
        (PeerStatus::ReachableExpired, false, true),
        (PeerStatus::UnreachableExpired, true, false),
        (PeerStatus::Unknown, true, false),
    ];
    for (previous, added, removed) in all {
        let mut authority = empty();
        let addr = text("203.0.113.1:8444");
        let marked = authority.mark_peer_reachable(addr.clone(), v4(1, 8444), 1, previous, NOW);
        assert_eq!(marked.announce, added);
        let marked = authority.mark_peer_unreachable(addr, v4(1, 8444), 1, previous, NOW);
        assert_eq!(marked.announce, removed);
    }
}

#[test]
fn a_mark_replaces_the_row_of_its_address() {
    let mut authority = empty();
    for now in [NOW, NOW + 1, NOW + 2] {
        authority.mark_peer_reachable(
            text("203.0.113.1:8444"),
            v4(1, 8444),
            10,
            PeerStatus::Unknown,
            now,
        );
    }
    authority.mark_peer_reachable(text("[::1]:8444"), v6(1), 10, PeerStatus::Unknown, NOW);
    assert_eq!(authority.get_reachable_peer_count(), 2);
    assert_eq!(
        authority.get_peer_status(&text("203.0.113.1:8444"), NOW + 11),
        PeerStatus::Reachable
    );
}

#[test]
fn the_last_time_of_expiry() {
    let mut authority = empty();
    let latest = 253_402_300_799;
    let marked = authority.mark_peer_reachable(
        text("203.0.113.1:8444"),
        v4(1, 8444),
        (latest - NOW) as u64,
        PeerStatus::Unknown,
        NOW,
    );
    assert_eq!(marked.row.expires_at, latest);
}

#[test]
fn a_cleanup_drops_expired_unreachable_rows_only() {
    let mut authority = mixed();
    assert_eq!(authority.cleanup_unreachable_peers(NOW), vec![text("203.0.113.2:8444")]);
    assert_eq!(
        authority.get_peer_status(&text("203.0.113.2:8444"), NOW),
        PeerStatus::Unknown
    );
    assert_eq!(authority.get_peers(10, None), vec![v4(1, 8444), v6(1), v4(3, 8444)]);
    assert_eq!(authority.get_reachable_peer_count(), 4);
    assert_eq!(authority.get_peer_status(&text("[::2]:8444"), NOW), PeerStatus::Unreachable);
    assert_eq!(authority.cleanup_unreachable_peers(NOW), Vec::<String>::new());
    assert_eq!(authority.cleanup_unreachable_peers(NOW + 10), vec![text("[::2]:8444")]);
}

#[test]
fn a_mark_keeps_no_flow_label() {
    let mut table = empty();
    let marked = PeerAddr::V6 { ip: 1, port: 8444, flowinfo: 5, scope_id: 3 };
    let spelled = PeerAddr::V6 { ip: 1, port: 8444, flowinfo: 0, scope_id: 3 };
    let addr = text("[::1%3]:8444");
    let row = table.mark_peer_reachable(addr, marked, 3600, PeerStatus::Unknown, 0).row;
    assert_eq!(row.socket, Some(spelled));
    assert_eq!(table.get_peers(8, None), vec![spelled]);
    assert_eq!(table.get_expired_reachable_peers(8, 3600), vec![spelled]);
    let addr = text("[::1%3]:8444");
    let row = table.mark_peer_unreachable(addr, marked, 1, PeerStatus::Reachable, 0).row;
    assert_eq!(row.socket, Some(spelled));
    assert_eq!(marked.without_flow_label(), spelled);
    assert_eq!(v4(1, 1).without_flow_label(), v4(1, 1));
}

#[test]
fn versions_split_the_reachable_peers() {
    let table = with(vec![
        row("203.0.113.1:8444", Some(v4(1, 8444)), 1, 100),
        row("[2001:db8::1]:8444", Some(v6(1)), 1, 50),
        row("203.0.113.2:8444", Some(v4(2, 8444)), 1, 50),
        row("203.0.113.3:8444", Some(v4(3, 8444)), 0, 50),
    ]);
    assert_eq!(table.get_peers(9, None), vec![v4(1, 8444), v6(1), v4(2, 8444)]);
    assert_eq!(table.get_peers(9, Some("v4")), vec![v4(1, 8444), v4(2, 8444)]);
    assert_eq!(table.get_peers(9, Some("v6")), vec![v6(1)]);
    let expired = table.get_expired_reachable_peers(9, 60);
    assert_eq!(expired, vec![v6(1), v4(2, 8444)]);
    for (addr, socket) in [
        ("203.0.113.1:8444", v4(1, 8444)),
        ("[2001:db8::1]:8444", v6(1)),
        ("203.0.113.2:8444", v4(2, 8444)),
        ("203.0.113.3:8444", v4(3, 8444)),
    ] {
        let status = table.get_peer_status(&text(addr), 60);
        assert_eq!(expired.contains(&socket), status == PeerStatus::ReachableExpired);
    }
}
