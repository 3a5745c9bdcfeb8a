use vstd::prelude::*;
use crate::ipv4::{ip_text, ip_to_string};
use crate::memory::u32_bytes;
use crate::pack_types::{spec_get_int, spec_get_str, ElementView, Pack};

verus! {

/// Network settings that a server hands a client, read from a pack.
#[derive(Debug, Clone)]
pub struct NetworkConfig {
    pub client_ip: String,
    pub client_ip_bytes: [u8; 4],
    pub subnet_mask: String,
    pub subnet_mask_bytes: [u8; 4],
    pub gateway_ip: String,
    pub gateway_ip_bytes: [u8; 4],
    pub dns_server1: String,
    pub dns_server2: String,
    pub dhcp_server: String,
    pub domain_name: String,
    pub mtu: u32,
    pub use_dhcp: bool,
    pub lease_time: u32,
}

/// Settings for bringing up a virtual network interface.
#[derive(Debug, Clone)]
pub struct TunTapConfig {
    pub interface_name: String,
    pub ip_address: String,
    pub subnet_mask: String,
    pub mtu: u32,
    pub gateway: String,
    pub dns_servers: Vec<String>,
    pub use_dhcp: bool,
}

/// DHCP options from a server response.
#[derive(Debug, Clone)]
pub struct DhcpOptions {
    pub subnet_mask: String,
    pub router: String,
    pub dns_servers: Vec<String>,
    pub domain_name: String,
    pub lease_time: u32,
    pub renewal_time: u32,
    pub rebinding_time: u32,
    pub broadcast_address: String,
}

/// Interface MTU used when the pack names none.
pub const DEFAULT_MTU: u32 = 1500;

/// The address in the integer element `name` (zero when absent).
pub open spec fn addr(es: Seq<ElementView>, name: &str) -> u32 {
    spec_get_int(es, name@, 0)
}

/// The non-zero addresses of `vs`, in order, each dropped when it repeats the one kept just before.
pub open spec fn kept_addrs(vs: Seq<u32>) -> Seq<u32>
    decreases vs.len(),
{
    if vs.len() == 0 {
        Seq::empty()
    } else {
        let k = kept_addrs(vs.drop_last());
        let v = vs.last();
        if v == 0 || (k.len() > 0 && k.last() == v) {
            k
        } else {
            k.push(v)
        }
    }
}

/// Whether `r` holds the dotted-quad texts of `vs`, in order.
pub open spec fn texts_of(r: Seq<String>, vs: Seq<u32>) -> bool {
    r.len() == vs.len() && forall|i: int| 0 <= i < r.len() ==> #[trigger] r[i]@ == ip_text(vs[i])
}

/// Texts of the addresses `vs` that `kept_addrs` keeps.
fn texts_of_kept(vs: &Vec<u32>) -> (r: Vec<String>)
    ensures
        texts_of(r@, kept_addrs(vs@)),
{
    let mut kept: Vec<u32> = Vec::new();
    let mut i: usize = 0;
    while i < vs.len()
        invariant
            0 <= i <= vs@.len(),
            kept@ == kept_addrs(vs@.subrange(0, i as int)),
        decreases vs@.len() - i,
    {
        let v = vs[i];
        proof {
            assert(vs@.subrange(0, i as int + 1).drop_last() =~= vs@.subrange(0, i as int));
        }
        let n = kept.len();
        if v != 0 && (n == 0 || kept[n - 1] != v) {
            kept.push(v);
        }
        i += 1;
    }
    assert(vs@.subrange(0, vs@.len() as int) =~= vs@);
    let mut out: Vec<String> = Vec::new();
    let mut j: usize = 0;
    while j < kept.len()
        invariant
            0 <= j <= kept@.len(),
            kept@ == kept_addrs(vs@),
            out@.len() == j,
            forall|k: int| 0 <= k < j ==> #[trigger] out@[k]@ == ip_text(kept@[k]),
        decreases kept@.len() - j,
    {
        out.push(ip_to_string(kept[j]));
        j += 1;
    }
    out
}

impl Pack {
    /// Client address, mask, gateway, DNS and DHCP servers, domain, MTU,
    /// DHCP use and lease time, each read through the getters.
    pub fn get_network_config(&self) -> (r: NetworkConfig)
        ensures
            r.client_ip@ == ip_text(addr(self@, "client_ip")),
            r.client_ip_bytes@ == u32_bytes(addr(self@, "client_ip")),
            r.subnet_mask@ == ip_text(addr(self@, "subnet_mask")),
            r.subnet_mask_bytes@ == u32_bytes(addr(self@, "subnet_mask")),
            r.gateway_ip@ == ip_text(addr(self@, "gateway_ip")),
            r.gateway_ip_bytes@ == u32_bytes(addr(self@, "gateway_ip")),
            r.dns_server1@ == ip_text(addr(self@, "dns_server1")),
            r.dns_server2@ == ip_text(addr(self@, "dns_server2")),
            r.dhcp_server@ == ip_text(addr(self@, "dhcp_server")),
            r.domain_name@ == spec_get_str(self@, "domain_name"@, 0),
            r.mtu == addr(self@, "mtu"),
            r.use_dhcp == (addr(self@, "use_dhcp") != 0),
            r.lease_time == addr(self@, "lease_time"),
    {
        NetworkConfig {
            client_ip: self.get_ip("client_ip"),
            client_ip_bytes: self.get_ip_as_bytes("client_ip"),
            subnet_mask: self.get_ip("subnet_mask"),
            subnet_mask_bytes: self.get_ip_as_bytes("subnet_mask"),
            gateway_ip: self.get_ip("gateway_ip"),
            gateway_ip_bytes: self.get_ip_as_bytes("gateway_ip"),
            dns_server1: self.get_ip("dns_server1"),
            dns_server2: self.get_ip("dns_server2"),
            dhcp_server: self.get_ip("dhcp_server"),
            domain_name: self.get_str("domain_name"),
            mtu: self.get_int("mtu"),
            use_dhcp: self.get_bool("use_dhcp"),
            lease_time: self.get_int("lease_time"),
        }
    }

    /// Interface settings: the given name, client address, mask, MTU (1500
    /// when unset), gateway, the set DNS servers among the two, DHCP use.
    pub fn get_tuntap_config(&self, interface_name: &str) -> (r: TunTapConfig)
        ensures
            r.interface_name@ == interface_name@,
            r.ip_address@ == ip_text(addr(self@, "client_ip")),
            r.subnet_mask@ == ip_text(addr(self@, "subnet_mask")),
            r.mtu == if addr(self@, "mtu") > 0 {
                addr(self@, "mtu")
            } else {
                DEFAULT_MTU
            },
            r.gateway@ == ip_text(addr(self@, "gateway_ip")),
            texts_of(
                r.dns_servers@,
                seq![addr(self@, "dns_server1"), addr(self@, "dns_server2")].filter(|v: u32| v != 0),
            ),
            r.use_dhcp == (addr(self@, "use_dhcp") != 0),
    {
        let net = self.get_network_config();
        let d1 = self.get_int("dns_server1");
        let d2 = self.get_int("dns_server2");
        let mut dns: Vec<String> = Vec::new();
        if d1 != 0 {
            dns.push(ip_to_string(d1));
        }
        if d2 != 0 {
            dns.push(ip_to_string(d2));
        }
        proof {
            let s = seq![d1, d2];
            reveal_with_fuel(vstd::seq::Seq::filter, 3);
            assert(s.drop_last() =~= seq![d1]);
            assert(seq![d1].drop_last() =~= Seq::<u32>::empty());
        }
        TunTapConfig {
            interface_name: interface_name.to_owned(),
            ip_address: net.client_ip,
            subnet_mask: net.subnet_mask,
            mtu: if net.mtu > 0 {
                net.mtu
            } else {
                DEFAULT_MTU
            },
            gateway: net.gateway_ip,
            dns_servers: dns,
            use_dhcp: net.use_dhcp,
        }
    }

    /// Whether the client address is set and is not the broadcast address.
    pub fn has_valid_client_ip(&self) -> (r: bool)
        ensures
            r == (addr(self@, "client_ip") != 0 && addr(self@, "client_ip") != 0xFFFF_FFFFu32),
    {
        let ip = self.get_int("client_ip");
        ip != 0 && ip != 0xFFFF_FFFFu32
    }

    /// DHCP mask, router, DNS servers, domain, lease, renewal and rebinding
    /// times, and broadcast address.
    pub fn extract_dhcp_options(&self) -> (r: DhcpOptions)
        ensures
            r.subnet_mask@ == ip_text(addr(self@, "dhcp_subnet_mask")),
            r.router@ == ip_text(addr(self@, "dhcp_router")),
            texts_of(
                r.dns_servers@,
                kept_addrs(
                    seq![
                        addr(self@, "dns_server1"),
                        addr(self@, "dns_server2"),
                        addr(self@, "dhcp_dns1"),
                        addr(self@, "dhcp_dns2"),
                    ],
                ),
            ),
            r.domain_name@ == spec_get_str(self@, "dhcp_domain_name"@, 0),
            r.lease_time == addr(self@, "dhcp_lease_time"),
            r.renewal_time == addr(self@, "dhcp_renewal_time"),
            r.rebinding_time == addr(self@, "dhcp_rebinding_time"),
            r.broadcast_address@ == ip_text(addr(self@, "dhcp_broadcast")),
    {
        DhcpOptions {
            subnet_mask: self.get_ip("dhcp_subnet_mask"),
            router: self.get_ip("dhcp_router"),
            dns_servers: self.extract_dns_servers(),
            domain_name: self.get_str("dhcp_domain_name"),
            lease_time: self.get_int("dhcp_lease_time"),
            renewal_time: self.get_int("dhcp_renewal_time"),
            rebinding_time: self.get_int("dhcp_rebinding_time"),
            broadcast_address: self.get_ip("dhcp_broadcast"),
        }
    }

    /// Texts of the set DNS servers among the standard and the DHCP ones, in
    /// that order, a server repeating the one before it dropped.
    fn extract_dns_servers(&self) -> (r: Vec<String>)
        ensures
            texts_of(
                r@,
                kept_addrs(
                    seq![
                        addr(self@, "dns_server1"),
                        addr(self@, "dns_server2"),
                        addr(self@, "dhcp_dns1"),
                        addr(self@, "dhcp_dns2"),
                    ],
                ),
            ),
    {
        let mut vs: Vec<u32> = Vec::new();
        vs.push(self.get_int("dns_server1"));
        vs.push(self.get_int("dns_server2"));
        vs.push(self.get_int("dhcp_dns1"));
        vs.push(self.get_int("dhcp_dns2"));
        assert(vs@ =~= seq![
            addr(self@, "dns_server1"),
            addr(self@, "dns_server2"),
            addr(self@, "dhcp_dns1"),
            addr(self@, "dhcp_dns2"),
        ]);
        texts_of_kept(&vs)
    }
}

} // verus!
