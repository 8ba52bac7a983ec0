//! The device model: the closed set of device kinds, one network definition,
//! and the mapping between kinds and the sections that group them in a
//! document.

use vstd::prelude::*;

use crate::chars::chars_eq_str;
use crate::value::{entries_view, Node, Value};

verus! {

/// The closed set of device kinds. Kinds read from a document that this
/// model does not know fail closed to `Unknown` rather than erroring, so
/// older tooling degrades gracefully.
#[derive(Clone, Copy, Debug, PartialEq, Eq, Structural)]
pub enum NetdefType {
    Unknown,
    Ethernet,
    Wifi,
    Modem,
    Bridge,
    Bond,
    Vlan,
    Tunnel,
    Port,
    Vrf,
    Nm,
    Dummy,
    Veth,
}

/// One network definition: its unique id, its kind, and its properties as an
/// ordered mapping.
pub struct Netdef {
    pub id: String,
    pub kind: NetdefType,
    pub properties: Value,
}

/// The mathematical view of a netdef.
#[verifier::ext_equal]
pub struct NetdefV {
    pub id: Seq<char>,
    pub kind: NetdefType,
    pub props: Node,
}

impl View for Netdef {
    type V = NetdefV;

    open spec fn view(&self) -> NetdefV {
        NetdefV { id: self.id@, kind: self.kind, props: self.properties@ }
    }
}

impl Netdef {
    /// A netdef built from the raw pieces a lower layer hands back: the id
    /// and the kind, with no properties yet.
    pub fn from_raw_netdef(id: String, kind: NetdefType) -> (r: Netdef)
        ensures
            r@.id == id@,
            r@.kind == kind,
            r@.props == Node::Mapping(Seq::<(Seq<char>, Node)>::empty()),
    {
        let entries: Vec<(Vec<char>, Value)> = Vec::new();
        proof {
            crate::value::lemma_entries_view(entries);
            assert(entries_view(entries@) =~= Seq::<(Seq<char>, Node)>::empty());
        }
        Netdef { id, kind, properties: Value::Mapping(entries) }
    }
}

/// The device kind grouped under a section name, or `None` for a section
/// this model does not know (such sections are tolerated and skipped).
pub open spec fn spec_kind_of_section(name: Seq<char>) -> Option<NetdefType> {
    if name == "ethernets"@ {
        Some(NetdefType::Ethernet)
    } else if name == "wifis"@ {
        Some(NetdefType::Wifi)
    } else if name == "modems"@ {
        Some(NetdefType::Modem)
    } else if name == "bridges"@ {
        Some(NetdefType::Bridge)
    } else if name == "bonds"@ {
        Some(NetdefType::Bond)
    } else if name == "vlans"@ {
        Some(NetdefType::Vlan)
    } else if name == "tunnels"@ {
        Some(NetdefType::Tunnel)
    } else if name == "vrfs"@ {
        Some(NetdefType::Vrf)
    } else if name == "nm-devices"@ {
        Some(NetdefType::Nm)
    } else if name == "dummy-devices"@ {
        Some(NetdefType::Dummy)
    } else if name == "virtual-ethernets"@ {
        Some(NetdefType::Veth)
    } else {
        None
    }
}

/// The section name a kind is grouped under in a document.
pub open spec fn spec_section_of_kind(kind: NetdefType) -> Seq<char> {
    match kind {
        NetdefType::Ethernet => "ethernets"@,
        NetdefType::Wifi => "wifis"@,
        NetdefType::Modem => "modems"@,
        NetdefType::Bridge => "bridges"@,
        NetdefType::Bond => "bonds"@,
        NetdefType::Vlan => "vlans"@,
        NetdefType::Tunnel => "tunnels"@,
        NetdefType::Vrf => "vrfs"@,
        NetdefType::Nm => "nm-devices"@,
        NetdefType::Dummy => "dummy-devices"@,
        NetdefType::Veth => "virtual-ethernets"@,
        NetdefType::Port => "ports"@,
        NetdefType::Unknown => "unknown"@,
    }
}

/// Whether a kind has a section of its own in documents; only such kinds can
/// appear in a merged state.
pub open spec fn kind_has_section(kind: NetdefType) -> bool {
    !(kind is Unknown || kind is Port)
}

/// The kind grouped under a section name.
pub fn kind_of_section(name: &Vec<char>) -> (r: Option<NetdefType>)
    ensures
        r == spec_kind_of_section(name@),
{
    if chars_eq_str(name, "ethernets") {
        Some(NetdefType::Ethernet)
    } else if chars_eq_str(name, "wifis") {
        Some(NetdefType::Wifi)
    } else if chars_eq_str(name, "modems") {
        Some(NetdefType::Modem)
    } else if chars_eq_str(name, "bridges") {
        Some(NetdefType::Bridge)
    } else if chars_eq_str(name, "bonds") {
        Some(NetdefType::Bond)
    } else if chars_eq_str(name, "vlans") {
        Some(NetdefType::Vlan)
    } else if chars_eq_str(name, "tunnels") {
        Some(NetdefType::Tunnel)
    } else if chars_eq_str(name, "vrfs") {
        Some(NetdefType::Vrf)
    } else if chars_eq_str(name, "nm-devices") {
        Some(NetdefType::Nm)
    } else if chars_eq_str(name, "dummy-devices") {
        Some(NetdefType::Dummy)
    } else if chars_eq_str(name, "virtual-ethernets") {
        Some(NetdefType::Veth)
    } else {
        None
    }
}

/// The section name a kind is grouped under.
pub fn section_of_kind(kind: NetdefType) -> (r: Vec<char>)
    ensures
        r@ == spec_section_of_kind(kind),
{
    match kind {
        NetdefType::Ethernet => crate::chars::str_to_chars("ethernets"),
        NetdefType::Wifi => crate::chars::str_to_chars("wifis"),
        NetdefType::Modem => crate::chars::str_to_chars("modems"),
        NetdefType::Bridge => crate::chars::str_to_chars("bridges"),
        NetdefType::Bond => crate::chars::str_to_chars("bonds"),
        NetdefType::Vlan => crate::chars::str_to_chars("vlans"),
        NetdefType::Tunnel => crate::chars::str_to_chars("tunnels"),
        NetdefType::Vrf => crate::chars::str_to_chars("vrfs"),
        NetdefType::Nm => crate::chars::str_to_chars("nm-devices"),
        NetdefType::Dummy => crate::chars::str_to_chars("dummy-devices"),
        NetdefType::Veth => crate::chars::str_to_chars("virtual-ethernets"),
        NetdefType::Port => crate::chars::str_to_chars("ports"),
        NetdefType::Unknown => crate::chars::str_to_chars("unknown"),
    }
}

/// The device kind a keyfile `connection.type` value names; types this model
/// does not know fall closed to the NetworkManager passthrough kind.
pub open spec fn spec_kind_of_connection_type(t: Seq<char>) -> NetdefType {
    if t == "ethernet"@ {
        NetdefType::Ethernet
    } else if t == "wifi"@ {
        NetdefType::Wifi
    } else if t == "gsm"@ || t == "cdma"@ {
        NetdefType::Modem
    } else if t == "bridge"@ {
        NetdefType::Bridge
    } else if t == "bond"@ {
        NetdefType::Bond
    } else if t == "vlan"@ {
        NetdefType::Vlan
    } else if t == "ip-tunnel"@ || t == "wireguard"@ {
        NetdefType::Tunnel
    } else if t == "vrf"@ {
        NetdefType::Vrf
    } else if t == "dummy"@ {
        NetdefType::Dummy
    } else if t == "veth"@ {
        NetdefType::Veth
    } else {
        NetdefType::Nm
    }
}

/// The device kind for a keyfile connection type.
pub fn kind_of_connection_type(t: &Vec<char>) -> (r: NetdefType)
    ensures
        r == spec_kind_of_connection_type(t@),
{
    if chars_eq_str(t, "ethernet") {
        NetdefType::Ethernet
    } else if chars_eq_str(t, "wifi") {
        NetdefType::Wifi
    } else if chars_eq_str(t, "gsm") || chars_eq_str(t, "cdma") {
        NetdefType::Modem
    } else if chars_eq_str(t, "bridge") {
        NetdefType::Bridge
    } else if chars_eq_str(t, "bond") {
        NetdefType::Bond
    } else if chars_eq_str(t, "vlan") {
        NetdefType::Vlan
    } else if chars_eq_str(t, "ip-tunnel") || chars_eq_str(t, "wireguard") {
        NetdefType::Tunnel
    } else if chars_eq_str(t, "vrf") {
        NetdefType::Vrf
    } else if chars_eq_str(t, "dummy") {
        NetdefType::Dummy
    } else if chars_eq_str(t, "veth") {
        NetdefType::Veth
    } else {
        NetdefType::Nm
    }
}

} // verus!
