//! Domain names, record sets and answers of the DNS server library.
//!
//! The types are those of `trust_dns_server`. Verified code sees of them what the
//! spec functions below name: the labels of a domain name, and the records that a record
//! set or an answer holds.
use trust_dns_server::authority::{AnyRecords, AuthLookup, LookupOptions, LookupRecords};
use trust_dns_server::proto::error::ProtoError;
use trust_dns_server::proto::rr::rdata::{A, AAAA};
use trust_dns_server::proto::rr::{LowerName, Name, RData, Record, RecordSet, RecordType};
use std::sync::Arc;
use vstd::prelude::*;

use crate::address::PeerIp;

verus! {

/// The type code of a record that holds an IPv4 address.
pub const TYPE_A: u16 = 1;

/// The type code of a record that holds an IPv6 address.
pub const TYPE_AAAA: u16 = 28;

/// The type code of a query for every type.
pub const TYPE_ANY: u16 = 255;

/// The class code of the Internet.
pub const CLASS_IN: u16 = 1;

/// The labels of a domain name, the leftmost first.
pub type Labels = Seq<Seq<u8>>;

/// A record: the name that owns it, its class, its time to live, and the address that it
/// holds, if it holds one.
pub ghost struct AnswerRecord {
    pub owner: Labels,
    pub class: u16,
    pub ttl: u32,
    pub ip: Option<PeerIp>,
}

/// The type code of the record that holds an address.
pub open spec fn type_of(ip: PeerIp) -> u16 {
    match ip {
        PeerIp::V4(_) => TYPE_A,
        PeerIp::V6(_) => TYPE_AAAA,
    }
}

/// A byte with an ASCII capital letter made small.
pub open spec fn lower_byte(b: u8) -> u8 {
    if 65 <= b <= 90 {
        (b + 32) as u8
    } else {
        b
    }
}

/// Labels with their ASCII capital letters made small.
pub open spec fn lower(labels: Labels) -> Labels {
    labels.map_values(|label: Seq<u8>| label.map_values(|b: u8| lower_byte(b)))
}

/// The length up to which the encoder of labels, which counts in 32 bits, cannot overflow
/// whatever characters a label has.
pub const LONGEST_LABEL: u64 = 3855;

/// The most characters that normalising makes of one character that is not ASCII.
pub const WIDEST_CHAR: u64 = 18;

/// The most characters that normalising makes of a character.
pub open spec fn char_width(c: char) -> int {
    if (c as u32) < 128 {
        1
    } else {
        WIDEST_CHAR as int
    }
}

/// The most characters that normalising makes of what stands behind the last dot.
pub open spec fn label_width(text: Seq<char>) -> int
    decreases text.len(),
{
    if text.len() == 0 || text.last() == '.' {
        0
    } else {
        label_width(text.drop_last()) + char_width(text.last())
    }
}

/// Whether a character stands for itself in a label and needs no encoding.
pub open spec fn plain_char(c: char) -> bool {
    (c as u32) < 128 && c != '-' && c != '\\'
}

/// Whether no label of the text can be too long for the encoder: none needs it, or each is
/// short enough.
pub open spec fn encodable(text: Seq<char>) -> bool {
    ||| forall|i: int| 0 <= i < text.len() ==> plain_char(#[trigger] text[i])
    ||| forall|i: int|
        0 <= i <= text.len() ==> label_width(#[trigger] text.take(i)) <= LONGEST_LABEL
}

/// A domain name of `trust_dns_server`.
#[verifier::external_type_specification]
#[verifier::external_body]
pub struct ExName(Name);

/// An error of `trust_dns_server`.
#[verifier::external_type_specification]
#[verifier::external_body]
pub struct ExProtoError(ProtoError);

/// A lower-case domain name of `trust_dns_server`.
#[verifier::external_type_specification]
#[verifier::external_body]
pub struct ExLowerName(LowerName);

/// A set of records of `trust_dns_server`.
#[verifier::external_type_specification]
#[verifier::external_body]
pub struct ExRecordSet(RecordSet);

/// The answer to a lookup of `trust_dns_server`.
#[verifier::external_type_specification]
#[verifier::external_body]
pub struct ExAuthLookup(AuthLookup);

/// The options of a lookup of `trust_dns_server`.
#[verifier::external_type_specification]
#[verifier::external_body]
pub struct ExLookupOptions(LookupOptions);

/// The labels that a domain name holds.
pub uninterp spec fn name_labels(name: Name) -> Seq<Seq<u8>>;

/// Whether a domain name is fully qualified.
pub uninterp spec fn name_is_fqdn(name: Name) -> bool;

/// The labels that a lower-case domain name holds.
pub uninterp spec fn lower_name_labels(name: LowerName) -> Seq<Seq<u8>>;

/// The records that a record set holds, in its order.
pub uninterp spec fn record_set_records(set: RecordSet) -> Seq<AnswerRecord>;

/// The labels of the name that a record set belongs to.
pub uninterp spec fn record_set_owner(set: RecordSet) -> Seq<Seq<u8>>;

/// The type code that a record set is for.
pub uninterp spec fn record_set_type(set: RecordSet) -> u16;

/// The serial number of a record set.
pub uninterp spec fn record_set_serial(set: RecordSet) -> u32;

/// The records that the answer to a lookup yields, in order.
pub uninterp spec fn lookup_records(lookup: AuthLookup) -> Seq<AnswerRecord>;

/// The labels of the domain name that a text spells, if it spells one, as `Name::parse` reads
/// it without an origin.
pub uninterp spec fn parsed_labels(text: Seq<char>) -> Option<Seq<Seq<u8>>>;

/// `Name::parse`, without an origin: reads a domain name, whose labels are a function of the
/// text, or fails where the text spells none. The name is fully qualified where the text ends
/// with a dot. Of the error nothing is said.
///
/// The outside function encodes labels that are not ASCII before it looks at their length. In a
/// build with overflow checks the encoder panics where its count leaves 32 bits, which takes a
/// label longer than the precondition admits. A backslash and a hyphen can bring characters
/// that are not ASCII into a label of ASCII text: one begins an escape, and two hyphens stand
/// in the prefix of an encoded label.
#[verifier::external_body]
pub(crate) fn parse_name(text: &str) -> (name: Result<Name, ProtoError>)
    requires
        encodable(text@),
    ensures
        name is Ok <==> parsed_labels(text@) is Some,
        name matches Ok(n) ==> parsed_labels(text@) == Some(name_labels(n)),
        name matches Ok(n) ==> name_is_fqdn(n) == (text@.len() > 0 && text@.last() == '.'),
{
    Name::parse(text, None)
}

/// `LowerName::new`: the name with its ASCII capital letters made small.
#[verifier::external_body]
pub(crate) fn lower_name(name: &Name) -> (lowered: LowerName)
    ensures
        lower_name_labels(lowered) == lower(name_labels(*name)),
{
    LowerName::new(name)
}

/// `PartialEq` of `LowerName`: two names are equal when their labels are, byte by
/// byte. Whether a name was written with its final dot plays no part.
#[verifier::external_body]
pub(crate) fn same_name(a: &LowerName, b: &LowerName) -> (same: bool)
    ensures
        same == (lower_name_labels(*a) == lower_name_labels(*b)),
{
    a == b
}

/// `RecordSet::new`: a record set without records, for one name and one type, at
/// the given serial number.
#[verifier::external_body]
pub(crate) fn new_record_set(owner: &LowerName, record_type: u16, serial: u32) -> (set: RecordSet)
    ensures
        record_set_records(set) == Seq::<AnswerRecord>::empty(),
        record_set_owner(set) == lower_name_labels(*owner),
        record_set_type(set) == record_type,
        record_set_serial(set) == serial,
{
    RecordSet::new(&owner.into(), RecordType::from(record_type), serial)
}

/// `RecordSet::insert`, of the record that `Record::from_rdata` makes of the
/// address: class Internet, the given owner and time to live.
///
/// The outside function asserts that the record has the set's name and type. It
/// compares records by everything but their time to live, and where the set holds an
/// equal record, the set stays as it is. That holds where the set's own records have
/// that owner and class, as the precondition says.
#[verifier::external_body]
pub(crate) fn insert_record(
    set: &mut RecordSet,
    owner: &LowerName,
    ttl: u32,
    ip: PeerIp,
    serial: u32,
) -> (inserted: bool)
    requires
        record_set_owner(*old(set)) == lower_name_labels(*owner),
        record_set_type(*old(set)) == type_of(ip),
        forall|i: int|
            0 <= i < record_set_records(*old(set)).len() ==> {
                &&& (#[trigger] record_set_records(*old(set))[i]).owner == lower_name_labels(*owner)
                &&& record_set_records(*old(set))[i].class == CLASS_IN
            },
    ensures
        inserted == !(exists|i: int|
            0 <= i < record_set_records(*old(set)).len() && (
            #[trigger] record_set_records(*old(set))[i]).ip == Some(ip)),
        record_set_records(*final(set)) == if inserted {
            record_set_records(*old(set)).push(
                (AnswerRecord {
                    owner: lower_name_labels(*owner),
                    class: CLASS_IN,
                    ttl,
                    ip: Some(ip),
                }),
            )
        } else {
            record_set_records(*old(set))
        },
        record_set_owner(*final(set)) == record_set_owner(*old(set)),
        record_set_type(*final(set)) == record_set_type(*old(set)),
        record_set_serial(*final(set)) == if inserted {
            serial
        } else {
            record_set_serial(*old(set))
        },
{
    let rdata = match ip {
        PeerIp::V4(bits) => RData::A(A(bits.into())),
        PeerIp::V6(bits) => RData::AAAA(AAAA(bits.into())),
    };
    set.insert(Record::from_rdata(owner.into(), ttl, rdata), serial)
}

/// `AuthLookup::default`: the answer without records.
#[verifier::external_body]
pub(crate) fn empty_lookup() -> (lookup: AuthLookup)
    ensures
        lookup_records(lookup) == Seq::<AnswerRecord>::empty(),
{
    AuthLookup::default()
}

/// `AuthLookup::answers`, of one record set and the query that `AnyRecords::new`
/// puts beside it. The answer yields the set's records that the queried name owns, without
/// those of the type SOA, in the set's order: here, where the set is for addresses and that
/// name owns every record, all of them. The options choose among signatures, which the
/// library yields only in a build with DNSSEC.
#[verifier::external_body]
pub(crate) fn answer_lookup(
    options: LookupOptions,
    set: RecordSet,
    record_type: u16,
    name: &LowerName,
) -> (lookup: AuthLookup)
    requires
        forall|i: int|
            0 <= i < record_set_records(set).len() ==> {
                &&& (#[trigger] record_set_records(set)[i]).owner == lower_name_labels(*name)
                &&& record_set_records(set)[i].ip matches Some(ip)
                &&& record_set_type(set) == type_of(ip)
            },
    ensures
        lookup_records(lookup) == record_set_records(set),
{
    let query_type = RecordType::from(record_type);
    let found = AnyRecords::new(options, vec![Arc::new(set)], query_type, name.clone());
    AuthLookup::answers(LookupRecords::AnyRecords(found), None)
}

} // verus!
