//! Loopback address allocation and static-hosts-file editing for a local
//! service forwarder: parse and serialize the hosts file while preserving
//! unrelated lines, own a sentinel-delimited managed region, allocate stable
//! loopback addresses for cluster service names, and reconcile service and
//! pod events into hosts entries and a service-to-pod routing table.

use vstd::prelude::*;

pub mod addr;
pub mod hostsfile;
pub mod laws;
pub mod reconcile;
pub mod service;

verus! {

/// Path of the static hosts database on Unix-like platforms.
pub fn hosts_path_for_platform() -> (path: &'static str)
    ensures
        path@ == "/etc/hosts"@,
{
    "/etc/hosts"
}

} // verus!
