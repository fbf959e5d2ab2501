use chia_seeder_light::address::{PeerAddr, PeerIp};
use chia_seeder_light::config::{
    MAX_CONCURRENT_CONNECTIONS, PEER_RECHECK_INTERVAL, PEER_TIMEOUT,
};
use chia_seeder_light::crawl::{Crawl, CrawlAction, CrawlEvent, CrawlPhase};
use chia_seeder_light::dns::{parse_domain, PeerDiscoveryAuthority};
use chia_seeder_light::network::{select_network, NetworkId};
use chia_seeder_light::peer::PeerProcessor;
use chia_seeder_light::peers::{PeerRow, PeerStatus};
use chia_seeder_light::probe::{
    new_peers, Mark, PeerInfo, Probe, ProbeAction, ProbeEvent, ProbePhase,
};
use chia_seeder_light::recheck::{recheck_round, RecheckAction, Rechecker};

fn peer(ip: u32) -> PeerAddr {
    PeerAddr::V4 { ip, port: 8444 }
}

fn processor() -> PeerProcessor<u8, u8> {
    PeerProcessor::new(7, 9, "testnet11".to_string())
}

#[test]
fn connections_are_made_with_what_the_processor_was_given() {
    let mut processor = processor();
    assert_eq!(processor.processing_len(), 0);
    assert!(processor.process(peer(1)));
    processor.recheck(&vec![peer(2), peer(3)]);
    processor.release(peer(1));
    for ip in [1, 2, 8] {
        let connection = processor.connection(peer(ip));
        assert_eq!(connection.network_id, "testnet11");
        assert_eq!(*connection.tls, 7);
        assert_eq!(connection.peer, peer(ip));
    }
    assert_eq!(*processor.authority(), 9);
}

#[test]
fn rounds_start_at_once_and_then_every_interval() {
    let mut rechecker = Rechecker::new();
    for _ in 0..3 {
        assert_eq!(rechecker.step(), RecheckAction::Round);
        assert_eq!(rechecker.step(), RecheckAction::Sleep(300));
    }
}

#[test]
fn keys_tell_addresses_apart() {
    let addrs = [
        PeerAddr::V4 { ip: 1, port: 2 },
        PeerAddr::V4 { ip: 1, port: 3 },
        PeerAddr::V6 { ip: 1, port: 2, flowinfo: 0, scope_id: 0 },
        PeerAddr::V6 { ip: 1, port: 2, flowinfo: 1, scope_id: 0 },
        PeerAddr::V6 { ip: 1, port: 2, flowinfo: 0, scope_id: 1 },
    ];
    for a in addrs.iter() {
        for b in addrs.iter() {
            assert_eq!(a.key() == b.key(), a == b);
        }
    }
    assert_eq!(addrs[0].ip(), PeerIp::V4(1));
    assert_eq!(addrs[3].ip(), PeerIp::V6(1));
    assert_eq!(PeerAddr::new(PeerIp::V6(1), 2), addrs[2]);
    assert_eq!(PeerAddr::new(PeerIp::V4(1), 2), addrs[0]);
}

#[test]
fn a_peer_is_sent_once_until_it_is_released() {
    let mut processor = processor();
    assert_eq!(processor.processing_len(), 0);
    assert!(processor.process(peer(1)));
    assert!(!processor.process(peer(1)));
    assert!(processor.process(peer(2)));
    assert_eq!(processor.processing_len(), 2);
    processor.release(peer(1));
    assert_eq!(processor.processing_len(), 1);
    processor.release(peer(1));
    assert_eq!(processor.processing_len(), 1);
    assert!(processor.process(peer(1)));
    assert!(!processor.process(peer(2)));
}

#[test]
fn initial_peers_are_sent_without_repetition() {
    let mut processor = processor();
    assert!(processor.process(peer(3)));
    let sent = processor.process_all(&vec![peer(1), peer(2), peer(1), peer(3), peer(4)]);
    assert_eq!(sent, vec![peer(1), peer(2), peer(4)]);
    assert_eq!(processor.processing_len(), 4);
}

#[test]
fn a_recheck_leaves_room_for_what_is_under_way() {
    let expired = vec![peer(1), peer(2), peer(3), peer(4)];
    let mut idle = processor();
    assert_eq!(idle.recheck(&expired), expired);
    assert_eq!(idle.recheck(&expired), vec![]);
    let mut busy = processor();
    busy.process(peer(2));
    busy.process(peer(9));
    assert_eq!(busy.recheck(&expired), vec![peer(1)]);
    assert_eq!(busy.processing_len(), 3);
    let mut full = processor();
    full.process_all(&vec![peer(5), peer(6), peer(7), peer(8)]);
    assert_eq!(full.recheck(&expired), vec![]);
    assert_eq!(full.processing_len(), 4);
}

#[test]
fn a_round_cleans_up_and_rechecks() {
    let row = |ip: u32, is_reachable: i64, expires_at: i64| PeerRow {
        addr: format!("peer {ip}"),
        socket: Some(peer(ip)),
        is_reachable,
        expires_at,
    };
    let rows = vec![row(1, 1, 100), row(2, 0, 100), row(3, 1, 101), row(4, 1, 50), row(5, 0, 101)];
    let zone = parse_domain("seeder.dexie.space.").unwrap();
    let mut authority = PeerDiscoveryAuthority::with_rows(zone, rows);
    let mut processor = processor();
    processor.process(peer(7));
    let round = recheck_round(&mut authority, &mut processor, 100);
    assert_eq!(round.removed, vec!["peer 2".to_string()]);
    assert_eq!(round.reachable, 3);
    assert_eq!(round.expired, 2);
    assert_eq!(round.processing, 1);
    assert_eq!(round.sent, vec![peer(1)]);
    assert_eq!(processor.processing_len(), 2);
    assert_eq!(
        authority.get_peer_status(&"peer 2".to_string(), 100),
        PeerStatus::Unknown
    );
    assert_eq!(
        authority.get_peer_status(&"peer 5".to_string(), 100),
        PeerStatus::Unreachable
    );
}

#[test]
fn only_due_peers_are_connected_to() {
    let all = [
        (PeerStatus::Reachable, false),
        (PeerStatus::Unreachable, false),
        (PeerStatus::ReachableExpired, true),
        (PeerStatus::UnreachableExpired, true),
        (PeerStatus::Unknown, true),
    ];
    for (status, due) in all {
        let mut crawl = Crawl::new();
        assert_eq!(crawl.step(CrawlEvent::Received(peer(1))), CrawlAction::ReadStatus(peer(1)));
        assert_eq!(crawl.phase, CrawlPhase::Checking(peer(1)));
        let action = crawl.step(CrawlEvent::StatusRead(status));
        if due {
            assert_eq!(action, CrawlAction::Connect(peer(1), status));
            assert_eq!(crawl.in_flight, 1);
        } else {
            assert_eq!(action, CrawlAction::Skip(peer(1)));
            assert_eq!(crawl.in_flight, 0);
        }
        assert_eq!(crawl.phase, CrawlPhase::Listening);
    }
}

#[test]
fn a_skipped_peer_can_be_sent_again() {
    let mut processor = processor();
    let mut crawl = Crawl::new();
    assert!(processor.process(peer(1)));
    crawl.step(CrawlEvent::Received(peer(1)));
    match crawl.step(CrawlEvent::StatusRead(PeerStatus::Reachable)) {
        CrawlAction::Skip(skipped) => processor.release(skipped),
        _ => panic!("the peer is not due"),
    }
    assert_eq!(processor.processing_len(), 0);
    assert_eq!(processor.recheck(&vec![peer(1)]), vec![peer(1)]);
    crawl.step(CrawlEvent::Received(peer(1)));
    let status = PeerStatus::ReachableExpired;
    assert_eq!(
        crawl.step(CrawlEvent::StatusRead(status)),
        CrawlAction::Connect(peer(1), status)
    );
}

fn connect(crawl: &mut Crawl, ip: u32) -> CrawlAction {
    crawl.step(CrawlEvent::Received(peer(ip)));
    crawl.step(CrawlEvent::StatusRead(PeerStatus::Unknown))
}

#[test]
fn connections_are_bounded() {
    let mut crawl = Crawl::new();
    for ip in 0..128 {
        assert_eq!(connect(&mut crawl, ip), CrawlAction::Connect(peer(ip), PeerStatus::Unknown));
    }
    assert_eq!(crawl.in_flight, MAX_CONCURRENT_CONNECTIONS);
    assert_eq!(connect(&mut crawl, 128), CrawlAction::PassOver(peer(128)));
    assert_eq!(crawl.phase, CrawlPhase::Saturated);
    assert_eq!(crawl.in_flight, 128);
    assert!(!crawl.can_take(CrawlEvent::Received(peer(1))));
    assert_eq!(crawl.step(CrawlEvent::TaskDone), CrawlAction::Listen);
    assert_eq!(crawl.in_flight, 127);
    assert_eq!(connect(&mut crawl, 129), CrawlAction::Connect(peer(129), PeerStatus::Unknown));
}

#[test]
fn a_closed_queue_drains_the_connections() {
    let mut idle = Crawl::new();
    assert!(!idle.can_take(CrawlEvent::TaskDone));
    assert_eq!(idle.step(CrawlEvent::QueueClosed), CrawlAction::Stop);
    assert_eq!(idle.phase, CrawlPhase::Stopped);
    let mut crawl = Crawl::new();
    connect(&mut crawl, 1);
    connect(&mut crawl, 2);
    assert_eq!(crawl.step(CrawlEvent::QueueClosed), CrawlAction::AwaitTask);
    assert_eq!(crawl.step(CrawlEvent::TaskDone), CrawlAction::AwaitTask);
    assert_eq!(crawl.step(CrawlEvent::TaskDone), CrawlAction::Stop);
    assert_eq!(crawl.in_flight, 0);
    assert!(!crawl.can_take(CrawlEvent::TaskDone));
}

#[test]
fn told_peers_without_an_address_are_left_out() {
    let list = vec![
        PeerInfo { ip: Some(PeerIp::V4(1)), port: 8444 },
        PeerInfo { ip: None, port: 8445 },
        PeerInfo { ip: Some(PeerIp::V6(2)), port: 8446 },
    ];
    assert_eq!(
        new_peers(&list),
        vec![peer(1), PeerAddr::V6 { ip: 2, port: 8446, flowinfo: 0, scope_id: 0 }]
    );
}

#[test]
fn a_good_connection_marks_the_peer_and_enqueues_what_it_told() {
    let probe = Probe::new(peer(1), PeerStatus::Unknown);
    assert!(probe.can_take(&ProbeEvent::Connected));
    assert!(!probe.can_take(&ProbeEvent::Closed));
    let (probe, action) = probe.step(ProbeEvent::Connected);
    assert!(matches!(action, ProbeAction::RequestPeers));
    let list = vec![
        PeerInfo { ip: Some(PeerIp::V4(5)), port: 8444 },
        PeerInfo { ip: None, port: 8444 },
    ];
    let (probe, action) = probe.step(ProbeEvent::Answered(peer(2), list));
    let expected =
        Mark { addr: peer(2), reachable: true, duration: 3600, previous: PeerStatus::Unknown };
    assert!(matches!(action, ProbeAction::MarkAndClose(mark) if mark == expected));
    assert!(!probe.can_take(&ProbeEvent::Failed));
    let (probe, action) = probe.step(ProbeEvent::Closed);
    assert!(matches!(probe.phase, ProbePhase::Finished));
    match action {
        ProbeAction::Finish(end) => {
            assert_eq!(end.release, peer(1));
            assert_eq!(end.enqueue, vec![peer(5)]);
            assert_eq!(end.mark, None);
        }
        _ => panic!("the connection is not over"),
    }
}

fn check_unreachable(probe: Probe, event: ProbeEvent) {
    assert!(probe.can_take(&event));
    let expected = Mark {
        addr: peer(1),
        reachable: false,
        duration: 86400,
        previous: PeerStatus::ReachableExpired,
    };
    match probe.step(event).1 {
        ProbeAction::Finish(end) => {
            assert_eq!(end.release, peer(1));
            assert_eq!(end.enqueue, vec![]);
            assert_eq!(end.mark, Some(expected));
        }
        _ => panic!("the connection is not over"),
    }
}

#[test]
fn failures_and_timeouts_mark_the_peer_unreachable() {
    let start = || Probe::new(peer(1), PeerStatus::ReachableExpired);
    check_unreachable(start(), ProbeEvent::Failed);
    check_unreachable(start(), ProbeEvent::TimedOut);
    check_unreachable(start().step(ProbeEvent::Connected).0, ProbeEvent::Failed);
    check_unreachable(start().step(ProbeEvent::Connected).0, ProbeEvent::TimedOut);
    let told = vec![PeerInfo { ip: Some(PeerIp::V4(5)), port: 8444 }];
    let closing =
        start().step(ProbeEvent::Connected).0.step(ProbeEvent::Answered(peer(1), told)).0;
    check_unreachable(closing, ProbeEvent::TimedOut);
}

#[test]
fn networks_by_id() {
    assert_eq!(select_network("mainnet"), Some(NetworkId::Mainnet));
    assert_eq!(select_network("testnet11"), Some(NetworkId::Testnet11));
    assert_eq!(select_network("testnet10"), None);
    assert_eq!(select_network("Mainnet"), None);
    assert_eq!(select_network(""), None);
}

#[test]
fn fixed_intervals() {
    assert_eq!(PEER_RECHECK_INTERVAL, 300);
    assert_eq!(PEER_TIMEOUT, 8);
}
