//! What a response says about the address of a host.

use crate::address::Ipv4Address;
use crate::dns_packet::dns_resource_record::{
    record_views, DnsResourceRecordData, RecordData, ResourceRecord,
};
use crate::dns_packet::{DnsPacket, Message};
use crate::rcodes::DNS_RCODE_NO_ERROR;
use crate::types::DNS_TYPE_A;
use vstd::prelude::*;

verus! {

/// Why a response gives no address.
#[derive(Debug, Clone, Copy, PartialEq, Eq, Structural)]
pub enum ResolveError {
    /// The server answered with this response code, which is not success.
    ResponseCode(u8),
    /// No record of the answer section has the type A.
    NoAddressRecord,
    /// The first record of type A in the answer section holds other data
    /// than an IPv4 address.
    NotAnAddress,
}

/// The index of the first record of type `rrtype`, or the number of records
/// where none has it.
pub open spec fn first_of_type(records: Seq<ResourceRecord>, rrtype: u16) -> int
    decreases records.len(),
{
    if records.len() == 0 || records[0].rrtype == rrtype {
        0
    } else {
        1 + first_of_type(records.skip(1), rrtype)
    }
}

/// The address that a response gives: the data of the first record of type
/// A in the answer section of a response with the response code of success.
pub open spec fn resolved_address(response: Message) -> Result<Seq<u8>, ResolveError> {
    if response.header.rcode != DNS_RCODE_NO_ERROR {
        Err(ResolveError::ResponseCode(response.header.rcode))
    } else {
        let at = first_of_type(response.answers, DNS_TYPE_A);
        if at >= response.answers.len() {
            Err(ResolveError::NoAddressRecord)
        } else {
            match response.answers[at].rdata {
                RecordData::A(octets) => Ok(octets),
                _ => Err(ResolveError::NotAnAddress),
            }
        }
    }
}

/// The first record of type `rrtype` is at `at` if no record before `at` has
/// the type and the record at `at` has it (or `at` is the number of records).
pub proof fn lemma_first_of_type_is(records: Seq<ResourceRecord>, rrtype: u16, at: int)
    requires
        0 <= at <= records.len(),
        forall|j: int| 0 <= j < at ==> (#[trigger] records[j]).rrtype != rrtype,
        at < records.len() ==> records[at].rrtype == rrtype,
    ensures
        first_of_type(records, rrtype) == at,
    decreases at,
{
    if at > 0 {
        let rest = records.skip(1);
        assert(records[0].rrtype != rrtype);
        assert forall|j: int| 0 <= j < at - 1 implies (#[trigger] rest[j]).rrtype != rrtype by {
            assert(rest[j] == records[j + 1]);
        }
        lemma_first_of_type_is(rest, rrtype, at - 1);
    }
}

/// The address that a response gives.
pub fn address_of_response(dns_response: &DnsPacket) -> (r: Result<Ipv4Address, ResolveError>)
    ensures
        match r {
            Ok(address) => resolved_address(dns_response@) == Ok::<Seq<u8>, ResolveError>(
                address@,
            ),
            Err(e) => resolved_address(dns_response@) == Err::<Seq<u8>, ResolveError>(e),
        },
{
    if dns_response.header.rcode != DNS_RCODE_NO_ERROR {
        return Err(ResolveError::ResponseCode(dns_response.header.rcode));
    }
    let ghost answers = record_views(dns_response.answer@);
    let mut position: usize = 0;
    while position < dns_response.answer.len() && dns_response.answer[position].rrtype
        != DNS_TYPE_A
        invariant
            position <= dns_response.answer@.len(),
            answers == record_views(dns_response.answer@),
            forall|j: int| 0 <= j < position ==> (#[trigger] answers[j]).rrtype != DNS_TYPE_A,
        decreases dns_response.answer@.len() - position,
    {
        position += 1;
    }
    proof {
        lemma_first_of_type_is(answers, DNS_TYPE_A, position as int);
    }
    if position == dns_response.answer.len() {
        return Err(ResolveError::NoAddressRecord);
    }
    match &dns_response.answer[position].rdata {
        DnsResourceRecordData::A(address) => Ok(*address),
        _ => Err(ResolveError::NotAnAddress),
    }
}

} // verus!
