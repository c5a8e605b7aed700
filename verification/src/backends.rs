//! The fixed list of cloud backend domains whose resolved addresses are the
//! blocking targets. Compiled in, read-only for the life of the process.

use vstd::prelude::*;

verus! {

/// The backend domain list, in resolution order.
pub fn sync_backends() -> (r: Vec<&'static str>)
    ensures
        r@.len() == 9,
        r@[0]@ == "hwr-production-dot-remarkable-production.appspot.com"@,
        r@[1]@ == "service-manager-production-dot-remarkable-production.appspot.com"@,
        r@[2]@ == "local.appspot.com"@,
        r@[3]@ == "my.remarkable.com"@,
        r@[4]@ == "ping.remarkable.com"@,
        r@[5]@ == "internal.cloud.remarkable.com"@,
        r@[6]@ == "ams15s41-in-f20.1e100.net"@,
        r@[7]@ == "ams15s48-in-f20.1e100.net"@,
        r@[8]@ == "206.137.117.34.bc.googleusercontent.com"@,
{
    let mut r: Vec<&'static str> = Vec::new();
    r.push("hwr-production-dot-remarkable-production.appspot.com");
    r.push("service-manager-production-dot-remarkable-production.appspot.com");
    r.push("local.appspot.com");
    r.push("my.remarkable.com");
    r.push("ping.remarkable.com");
    r.push("internal.cloud.remarkable.com");
    r.push("ams15s41-in-f20.1e100.net");
    r.push("ams15s48-in-f20.1e100.net");
    r.push("206.137.117.34.bc.googleusercontent.com");
    r
}

} // verus!
