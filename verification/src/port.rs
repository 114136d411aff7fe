//! One hardware port and what is known of it.

use crate::text::{chars_of, contains_chars, has_substring, trim, trimmed};
use vstd::prelude::*;

verus! {

/// A hardware port as contracts speak of it.
pub struct PortModel {
    /// The label of the port, such as "Wi-Fi".
    pub name: Seq<char>,
    /// The IPv4 address of the device; empty where it has none.
    pub ip_address: Seq<char>,
    /// The identifier of the device, such as "en0".
    pub device: Seq<char>,
    /// The link speed label; empty where the speed is unknown.
    pub speed: Seq<char>,
    /// The hardware address, as the registry gives it.
    pub mac_address: Seq<char>,
    /// The rank of the device in the service order; lower comes first.
    pub service_order: int,
}

impl PortModel {
    /// The port has an address.
    pub open spec fn is_active(self) -> bool {
        self.ip_address.len() > 0
    }

    /// The same port with another rank.
    pub open spec fn ranked(self, rank: int) -> PortModel {
        PortModel { service_order: rank, ..self }
    }
}

/// A hardware port of the host.
#[derive(Debug, Clone, Default, PartialEq, Eq)]
pub struct HardwarePort {
    pub name: String,
    pub ip_address: String,
    pub device: String,
    pub speed: String,
    pub mac_address: String,
    pub service_order: u8,
}

impl View for HardwarePort {
    type V = PortModel;

    open spec fn view(&self) -> PortModel {
        PortModel {
            name: self.name@,
            ip_address: self.ip_address@,
            device: self.device@,
            speed: self.speed@,
            mac_address: self.mac_address@,
            service_order: self.service_order as int,
        }
    }
}

/// The speed label for a link status text and an address. The first rule
/// that applies decides: "10G" in the status gives "10GbE"; "1000" gives
/// "1GbE"; "auto" gives "auto", but only where the address is not empty;
/// anything else gives the empty label.
pub open spec fn speed_label(link_status: Seq<char>, ip_address: Seq<char>) -> Seq<char> {
    if has_substring(link_status, "10G"@) {
        "10GbE"@
    } else if has_substring(link_status, "1000"@) {
        "1GbE"@
    } else if ip_address.len() > 0 && has_substring(link_status, "auto"@) {
        "auto"@
    } else {
        Seq::empty()
    }
}

/// The speed label looks at the address only to see whether it is empty:
/// two addresses that are both empty, or both not, give the same label for
/// the same status text.
pub proof fn lemma_speed_label_address(
    link_status: Seq<char>,
    first: Seq<char>,
    second: Seq<char>,
)
    requires
        (first.len() == 0) == (second.len() == 0),
    ensures
        speed_label(link_status, first) == speed_label(link_status, second),
{
}

/// A status text that names ten gigabit, or else gigabit, gets its label
/// whatever the address is; without either, an empty address gives the empty
/// label.
pub proof fn lemma_speed_label_precedence(link_status: Seq<char>, ip_address: Seq<char>)
    ensures
        has_substring(link_status, "10G"@) ==> speed_label(link_status, ip_address) == "10GbE"@,
        !has_substring(link_status, "10G"@) && has_substring(link_status, "1000"@) ==> speed_label(
            link_status,
            ip_address,
        ) == "1GbE"@,
        !has_substring(link_status, "10G"@) && !has_substring(link_status, "1000"@)
            && ip_address.len() == 0 ==> speed_label(link_status, ip_address) == Seq::<
            char,
        >::empty(),
{
}

impl HardwarePort {
    /// The port of one registry entry, with the address and the speed that
    /// follow from what the address query and the link status query gave for
    /// its device. The rank is zero until the service order is known.
    pub fn new(
        name: String,
        device: String,
        mac_address: String,
        ip_output: &str,
        link_status: &str,
    ) -> (port: HardwarePort)
        ensures
            port@ == (PortModel {
                name: name@,
                ip_address: trimmed(ip_output@),
                device: device@,
                speed: speed_label(link_status@, trimmed(ip_output@)),
                mac_address: mac_address@,
                service_order: 0,
            }),
    {
        let ip_address = HardwarePort::get_ipaddr(ip_output);
        let speed = HardwarePort::get_speed(link_status, ip_address.as_str());
        HardwarePort { name, ip_address, device, speed, mac_address, service_order: 0 }
    }

    /// The address in the output of the address query: the output without
    /// the white space around it. It is empty where the device has no
    /// address.
    pub fn get_ipaddr(ip_output: &str) -> (ip_address: String)
        ensures
            ip_address@ == trimmed(ip_output@),
    {
        trim(ip_output)
    }

    /// The speed label for a link status text and the address of the device.
    pub fn get_speed(link_status: &str, ip_address: &str) -> (speed: String)
        ensures
            speed@ == speed_label(link_status@, ip_address@),
    {
        let status = chars_of(link_status);
        if contains_chars(&status, &chars_of("10G")) {
            "10GbE".to_owned()
        } else if contains_chars(&status, &chars_of("1000")) {
            "1GbE".to_owned()
        } else if !ip_address.is_empty() && contains_chars(&status, &chars_of("auto")) {
            "auto".to_owned()
        } else {
            String::new()
        }
    }

    /// Whether the port has an address.
    pub fn is_active(&self) -> (active: bool)
        ensures
            active == self@.is_active(),
    {
        !self.ip_address.as_str().is_empty()
    }
}

} // verus!
