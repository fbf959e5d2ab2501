use chia_seeder_light::address::{PeerAddr, PeerIp};
use chia_seeder_light::dns::{addresses_for, can_parse, parse_domain, PeerDiscoveryAuthority};
use chia_seeder_light::peers::{PeerRow, PeerStatus};
use chia_seeder_light::records::{TYPE_A, TYPE_AAAA, TYPE_ANY};
use trust_dns_server::authority::{AuthLookup, LookupOptions};
use trust_dns_server::proto::rr::rdata::{A, AAAA};
use trust_dns_server::proto::rr::{DNSClass, LowerName, Name, RData, RecordType};

const TYPE_MX: u16 = 15;

fn name(text: &str) -> LowerName {
    LowerName::from(Name::parse(text, None).unwrap())
}

fn bits4(last: u8) -> u32 {
    u32::from_be_bytes([203, 0, 113, last])
}

fn bits6(last: u16) -> u128 {
    0x2001_0db8_0000_0000_0000_0000_0000_0000 + last as u128
}

fn v4(last: u8, port: u16) -> PeerAddr {
    PeerAddr::V4 { ip: bits4(last), port }
}

fn v6(last: u16, port: u16) -> PeerAddr {
    PeerAddr::V6 { ip: bits6(last), port, flowinfo: 0, scope_id: 0 }
}

fn row(addr: String, socket: PeerAddr, is_reachable: i64) -> PeerRow {
    PeerRow { addr, socket: Some(socket), is_reachable, expires_at: 0 }
}

fn row4(last: u8, port: u16, is_reachable: i64) -> PeerRow {
    row(format!("203.0.113.{last}:{port}"), v4(last, port), is_reachable)
}

fn row6(last: u16, port: u16, is_reachable: i64) -> PeerRow {
    row(format!("[2001:db8::{last:x}]:{port}"), v6(last, port), is_reachable)
}

fn authority(rows: Vec<PeerRow>) -> PeerDiscoveryAuthority {
    PeerDiscoveryAuthority::with_rows(parse_domain("Seeder.Dexie.Space.").unwrap(), rows)
}

fn few() -> PeerDiscoveryAuthority {
    authority(vec![
        row4(1, 8444, 1),
        row6(1, 8444, 1),
        row4(2, 8444, 0),
        row4(3, 8444, 1),
        row4(1, 58444, 1),
        row6(2, 8444, 0),
    ])
}

fn answers(lookup: &AuthLookup) -> Vec<RData> {
    lookup.iter().map(|record| record.data().unwrap().clone()).collect()
}

fn a(last: u8) -> RData {
    RData::A(A::new(203, 0, 113, last))
}

fn aaaa(last: u16) -> RData {
    RData::AAAA(AAAA::new(0x2001, 0xdb8, 0, 0, 0, 0, 0, last))
}

#[test]
fn domains_parse_or_are_refused() {
    let parsed = parse_domain("Seeder.Dexie.Space.").unwrap();
    let labels: Vec<&[u8]> = parsed.iter().collect();
    assert_eq!(labels, vec![&b"seeder"[..], &b"dexie"[..], &b"space"[..]]);
    assert!(parsed.is_fqdn());
    assert!(parse_domain("a..b").is_err());
    assert!(parse_domain(&"a".repeat(64)).is_err());
}

#[test]
fn labels_that_the_encoder_cannot_count() {
    let long = format!("{}\u{1062cd}", "a".repeat(3999));
    assert!(!can_parse(&long));
    assert!(!can_parse(&format!("seeder.{long}.space.")));
    assert!(!can_parse(&"-".repeat(3856)));
    assert!(!can_parse(&"\u{fdfa}".repeat(215)));
    assert!(can_parse(&"-".repeat(3855)));
    assert!(can_parse(&"\u{fdfa}".repeat(214)));
    assert!(parse_domain(&"-".repeat(3855)).is_err());
    assert!(parse_domain(&"\u{fdfa}".repeat(214)).is_err());
    let plain = "a".repeat(5000);
    assert!(can_parse(&plain));
    assert!(parse_domain(&plain).is_err());
    let widest = format!("{}\u{10ffff}", "a".repeat(3837));
    assert!(can_parse(&widest));
    assert!(parse_domain(&widest).is_err());
    let escaped = "\\141".repeat(63);
    assert!(can_parse(&escaped));
    let labels: Vec<Vec<u8>> =
        parse_domain(&escaped).unwrap().iter().map(|label| label.to_vec()).collect();
    assert_eq!(labels, vec![vec![b'a'; 63]]);
}

#[test]
fn a_name_is_fully_qualified_by_its_last_dot() {
    for (domain, qualified) in
        [("seeder.dexie.space.", true), ("seeder.dexie.space", false), (".", true), ("", false)]
    {
        assert!(can_parse(domain));
        assert_eq!(parse_domain(domain).unwrap().is_fqdn(), qualified);
    }
}

#[test]
fn the_origin_is_in_lower_case() {
    let zone = Name::from_labels(vec![&b"SEEDER"[..], &b"Dexie"[..], &b"space"[..]]).unwrap();
    let authority = PeerDiscoveryAuthority::new(zone);
    assert_eq!(authority.origin().to_string(), "seeder.dexie.space.");
    assert!(authority.is_origin(&name("seeder.dexie.space.")));
    assert!(authority.is_origin(&name("seeder.dexie.space")));
    assert!(!authority.is_origin(&name("dexie.space.")));
    assert!(!authority.is_origin(&name("a.seeder.dexie.space.")));
}

#[test]
fn address_queries_are_answered_from_reachable_peers() {
    let authority = few();
    let origin = name("seeder.dexie.space.");
    let options = LookupOptions::default();
    let lookup = authority.lookup(&origin, TYPE_A, options);
    assert_eq!(answers(&lookup), vec![a(1), a(3)]);
    for record in lookup.iter() {
        assert_eq!(record.ttl(), 300);
        assert_eq!(record.record_type(), RecordType::A);
        assert_eq!(record.dns_class(), DNSClass::IN);
        assert_eq!(record.name(), &Name::from(origin.clone()));
    }
    let lookup = authority.lookup(&origin, TYPE_AAAA, options);
    assert_eq!(answers(&lookup), vec![aaaa(1)]);
    for record in lookup.iter() {
        assert_eq!(record.ttl(), 300);
        assert_eq!(record.record_type(), RecordType::AAAA);
    }
}

#[test]
fn queries_follow_marks() {
    let mut authority = authority(vec![row4(1, 8444, 1)]);
    let origin = name("seeder.dexie.space.");
    let options = LookupOptions::default();
    let addr = "203.0.113.2:8444".to_string();
    authority.mark_peer_reachable(addr.clone(), v4(2, 8444), 3600, PeerStatus::Unknown, 0);
    assert_eq!(answers(&authority.lookup(&origin, TYPE_A, options)), vec![a(1), a(2)]);
    authority.mark_peer_unreachable(addr, v4(2, 8444), 86400, PeerStatus::ReachableExpired, 0);
    assert_eq!(answers(&authority.lookup(&origin, TYPE_A, options)), vec![a(1)]);
}

#[test]
fn one_address_is_answered_once() {
    let authority = authority(vec![row4(1, 1, 1), row4(1, 2, 1), row4(2, 3, 1), row4(1, 4, 1)]);
    let lookup = authority.lookup(&name("seeder.dexie.space."), TYPE_A, LookupOptions::default());
    assert_eq!(answers(&lookup), vec![a(1), a(2)]);
}

#[test]
fn other_names_and_other_types_get_nothing() {
    let authority = few();
    let options = LookupOptions::default();
    let other = name("www.dexie.space.");
    assert!(authority.lookup(&other, TYPE_A, options).is_empty());
    assert!(authority.lookup(&other, TYPE_ANY, options).is_empty());
    assert!(authority.lookup(&name("seeder.dexie.space."), TYPE_MX, options).is_empty());
    assert!(authority.get_nsec_records().is_empty());
    assert!(!authority.is_axfr_allowed());
    assert!(!authority.update());
}

#[test]
fn queries_for_every_type() {
    let origin = name("seeder.dexie.space.");
    let other = name("www.dexie.space.");
    assert!(!few().can_answer(&origin, TYPE_ANY));
    assert!(few().can_answer(&other, TYPE_ANY));
    assert!(few().can_answer(&origin, TYPE_A));
    assert!(few().can_answer(&origin, TYPE_AAAA));
    assert!(few().can_answer(&origin, TYPE_MX));
    let nobody = authority(vec![row4(1, 1, 0)]);
    assert!(nobody.can_answer(&origin, TYPE_ANY));
    assert!(nobody.lookup(&origin, TYPE_ANY, LookupOptions::default()).is_empty());
}

#[test]
fn an_empty_table_answers_nothing() {
    let authority = authority(vec![]);
    let lookup = authority.lookup(&name("seeder.dexie.space."), TYPE_A, LookupOptions::default());
    assert!(lookup.is_empty());
}

#[test]
fn answers_hold_thirty_two_records_at_most() {
    let rows: Vec<PeerRow> = (1..=40).map(|last| row4(last, 8444, 1)).collect();
    let authority = authority(rows);
    let lookup = authority.lookup(&name("seeder.dexie.space."), TYPE_A, LookupOptions::default());
    let expected: Vec<RData> = (1..=32).map(a).collect();
    assert_eq!(answers(&lookup), expected);
}

#[test]
fn addresses_of_each_type() {
    let peers = vec![v4(1, 8444), v6(1, 8444), v4(2, 8444)];
    let first = PeerIp::V4(bits4(1));
    let second = PeerIp::V4(bits4(2));
    let sixth = PeerIp::V6(bits6(1));
    assert_eq!(addresses_for(TYPE_A, &peers), vec![first, second]);
    assert_eq!(addresses_for(TYPE_AAAA, &peers), vec![sixth]);
    assert_eq!(addresses_for(TYPE_ANY, &peers), vec![first, sixth, second]);
    assert_eq!(addresses_for(TYPE_MX, &peers), vec![]);
}
