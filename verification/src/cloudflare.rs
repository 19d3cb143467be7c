//! Data handed back by the record-publishing collaborator.
//!
//! The HTTP calls against the management API live in the surrounding
//! binary; this module holds the plain shapes of what they return and the
//! small decisions taken over them: both lookups use the first entry of the
//! answer, or report that none matched.

use vstd::prelude::*;

verus! {

/// One zone of the managed domain, as the lookup returns it.
pub struct Zone {
    pub id: String,
    pub name: String,
    pub status: String,
}

/// One managed record, as the lookup returns it.
pub struct DnsRecord {
    pub id: String,
    pub name: String,
    pub record_type: String,
    pub content: String,
    pub proxied: bool,
    pub ttl: u16,
}

/// The zone the name lookup settles on: the first answer, or none when the
/// lookup matched nothing.
pub fn first_zone_id(zones: Vec<Zone>) -> (r: Option<String>)
    ensures
        r is Some <==> zones@.len() > 0,
        zones@.len() > 0 ==> r.unwrap()@ == zones@[0].id@,
{
    let mut zones = zones;
    if zones.len() == 0 {
        None
    } else {
        let z = zones.remove(0);
        Some(z.id)
    }
}

/// The record the lookup settles on: the first answer, or none when the
/// lookup matched nothing.
pub fn first_record_id(records: Vec<DnsRecord>) -> (r: Option<String>)
    ensures
        r is Some <==> records@.len() > 0,
        records@.len() > 0 ==> r.unwrap()@ == records@[0].id@,
{
    let mut records = records;
    if records.len() == 0 {
        None
    } else {
        let rec = records.remove(0);
        Some(rec.id)
    }
}

} // verus!
