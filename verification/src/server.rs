//! Where the relay listens, and which browsers may talk to it.
use crate::request::{refusal, ClientLookup};
use crate::text::{concat3, lower, same_ignoring_case};
use crate::urls::{parse_url, parsed_url, HostView, UrlHost, UrlParts};
use vstd::prelude::*;
use vstd::string::*;

verus! {

/// Where a relay listens.
#[derive(Debug)]
pub struct RelayStartOutcome {
    pub bind_addr: String,
    pub base_url: String,
}

impl RelayStartOutcome {
    /// The same again.
    pub fn copy(&self) -> (outcome: Self)
        ensures
            outcome.bind_addr@ == self.bind_addr@,
            outcome.base_url@ == self.base_url@,
    {
        RelayStartOutcome { bind_addr: self.bind_addr.clone(), base_url: self.base_url.clone() }
    }
}

/// An address of the Internet Protocol.
#[derive(Debug, Clone, Copy, PartialEq, Eq, Structural)]
pub enum IpNumber {
    V4(u32),
    V6(u128),
}

/// Whether an address is one of the machine itself: 127.0.0.0/8 or ::1.
pub open spec fn loopback(address: IpNumber) -> bool {
    match address {
        IpNumber::V4(bits) => bits / 0x100_0000 == 127,
        IpNumber::V6(bits) => bits == 1,
    }
}

/// Whether an address is one of the machine itself.
pub fn is_loopback(address: IpNumber) -> (own: bool)
    ensures
        own == loopback(address),
{
    match address {
        IpNumber::V4(bits) => bits / 0x100_0000 == 127,
        IpNumber::V6(bits) => bits == 1,
    }
}

/// Whether the relay may listen at an address: where others can reach it, only
/// if it asks for keys.
pub fn validate_relay_bind_security(
    require_api_key: bool,
    address: IpNumber,
    address_text: &str,
) -> (result: Result<(), String>)
    ensures
        match result {
            Ok(_) => loopback(address) || require_api_key,
            Err(message) => !loopback(address) && !require_api_key && message@
                == "refusing unauthenticated non-loopback relay bind at "@ + address_text@
                + "; enable require_api_key or bind to loopback"@,
        },
{
    if !is_loopback(address) && !require_api_key {
        return Err(
            concat3(
                "refusing unauthenticated non-loopback relay bind at ",
                address_text,
                "; enable require_api_key or bind to loopback",
            ),
        );
    }
    Ok(())
}

/// Whether the relay asks for keys whatever its configuration says later: where
/// others can reach it.
pub fn enforces_api_key(address: IpNumber) -> (enforced: bool)
    ensures
        enforced == !loopback(address),
{
    !is_loopback(address)
}

/// Whether a host is the machine itself.
pub open spec fn own_host(host: HostView) -> bool {
    match host {
        HostView::Missing => false,
        HostView::Domain(name) => lower(name) == lower("localhost"@),
        HostView::Ipv4(bits) => loopback(IpNumber::V4(bits)),
        HostView::Ipv6(bits) => loopback(IpNumber::V6(bits)),
    }
}

/// Whether the host of a URL is the machine itself.
pub fn url_is_loopback(parts: &UrlParts) -> (own: bool)
    ensures
        own == own_host(parts@.host),
{
    match &parts.host {
        UrlHost::Missing => false,
        UrlHost::Domain(name) => same_ignoring_case(name.as_str(), "localhost"),
        UrlHost::Ipv4(bits) => is_loopback(IpNumber::V4(*bits)),
        UrlHost::Ipv6(bits) => is_loopback(IpNumber::V6(*bits)),
    }
}

/// Whether a page of a browser comes from the machine itself. An origin that is
/// not visible ASCII does not.
pub fn browser_origin_is_loopback(origin: Option<&str>) -> (own: bool)
    ensures
        own == (match origin {
            Some(address) => match parsed_url(address@) {
                Some(parts) => own_host(parts.host),
                None => false,
            },
            None => false,
        }),
{
    match origin {
        Some(address) => match parse_url(address) {
            Some(parts) => url_is_loopback(&parts),
            None => false,
        },
        None => false,
    }
}

/// A relay that others can reach lets no request pass without a known key,
/// whatever its configuration says.
pub proof fn law_reachable_relays_ask_for_keys(
    address: IpNumber,
    has_key: bool,
    lookup: ClientLookup,
    enforce_config_key: bool,
    require_api_key: bool,
    browser_origin: bool,
)
    requires
        !loopback(address),
    ensures
        refusal(
            has_key,
            lookup,
            !loopback(address) || (enforce_config_key && require_api_key) || browser_origin,
        ) is None <==> has_key && lookup is Known,
{
}

/// The machine itself is 127.0.0.0 to 127.255.255.255 or ::1, and no other
/// address.
pub proof fn law_only_the_machine_itself_is_loopback(four: u32, six: u128)
    ensures
        loopback(IpNumber::V4(four)) <==> 0x7f00_0000 <= four <= 0x7fff_ffff,
        loopback(IpNumber::V6(six)) <==> six == 1,
{
}

/// A page comes from the machine itself where its host is `localhost`, in any
/// case, or one of the machine's own addresses; a page without a host does not.
pub proof fn law_pages_of_the_machine_itself(name: Seq<char>, four: u32)
    ensures
        own_host(HostView::Domain(name)) <==> lower(name) == "localhost"@,
        own_host(HostView::Ipv4(four)) <==> 0x7f00_0000 <= four <= 0x7fff_ffff,
        !own_host(HostView::Missing),
{
    reveal_strlit("localhost");
    assert(lower("localhost"@) =~= "localhost"@);
}

} // verus!
