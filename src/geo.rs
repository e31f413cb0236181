use vstd::prelude::*;

verus! {

/// Where the machine's public address is, as the geolocation service reports it.
/// Every field holds the service's text verbatim.
pub struct GeoLocation {
    pub ip: String,
    pub city: String,
    pub region: String,
    pub country: String,
    pub org: String,
    pub timezone: String,
}

impl GeoLocation {
    pub fn new(
        ip: String,
        city: String,
        region: String,
        country: String,
        org: String,
        timezone: String,
    ) -> (r: GeoLocation)
        ensures
            r.ip == ip,
            r.city == city,
            r.region == region,
            r.country == country,
            r.org == org,
            r.timezone == timezone,
    {
        GeoLocation { ip, city, region, country, org, timezone }
    }
}

} // verus!
