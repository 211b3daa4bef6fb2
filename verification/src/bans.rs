use vstd::prelude::*;

verus! {

/// One aggregated ban record: an address in dotted-decimal form and how many
/// times it was banned. Counting happens upstream, in the ban-log store.
#[derive(PartialEq, Eq, Debug)]
pub struct BannedIp {
    pub ip: String,
    pub number_of_bans: u32,
}

impl Clone for BannedIp {
    fn clone(&self) -> (res: Self)
        ensures
            res == *self,
    {
        BannedIp { ip: self.ip.clone(), number_of_bans: self.number_of_bans }
    }
}

/// A ban record enriched with the country that owns its address.
/// Addresses that resolve to no country are dropped, not kept in a
/// "no country" form.
#[derive(PartialEq, Eq, Debug)]
pub struct LocatedBannedIp {
    pub ip: BannedIp,
    pub country_name: String,
}

impl Clone for LocatedBannedIp {
    fn clone(&self) -> (res: Self)
        ensures
            res == *self,
    {
        LocatedBannedIp { ip: self.ip.clone(), country_name: self.country_name.clone() }
    }
}

} // verus!
