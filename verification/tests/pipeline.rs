use netports::{decode_output, get_hw_ports, HardwarePort, HardwarePortList, PortError};

const REGISTRY: &str = "\nHardware Port: Thunderbolt Ethernet\nDevice: en7\nEthernet Address: aa:aa:aa:aa:aa:aa\n\n\
Hardware Port: Wi-Fi\nDevice: en0\nEthernet Address: bb:bb:bb:bb:bb:bb\n\n\
Hardware Port: Thunderbolt Bridge\nDevice: bridge0\nEthernet Address: cc:cc:cc:cc:cc:cc\n\n\
VLAN Configurations\n===================\n";

const ORDER: &str = "(Hardware Port: Wi-Fi, Device: en0)\n\
(Hardware Port: Thunderbolt Ethernet, Device: en7)\n\
(Hardware Port: Thunderbolt Bridge, Device: bridge0)\n";

fn address_output(device: &str) -> &'static str {
    if device == "en7" {
        "10.0.0.5\n"
    } else {
        ""
    }
}

fn status_output(device: &str) -> &'static str {
    if device == "en7" {
        "\tmedia: autoselect (1000baseT <full-duplex>)\n"
    } else {
        "\tmedia: autoselect\n"
    }
}

fn enumerate(active_only: bool) -> Result<HardwarePortList, PortError> {
    let registry = decode_output(REGISTRY.as_bytes().to_vec())?;
    let entries = get_hw_ports(&registry);
    let addresses: Vec<String> =
        entries.iter().map(|e| address_output(&e.device).to_string()).collect();
    let statuses: Vec<String> =
        entries.iter().map(|e| status_output(&e.device).to_string()).collect();
    let order = decode_output(ORDER.as_bytes().to_vec())?;
    Ok(HardwarePortList::from_entries(entries, &addresses, &statuses)
        .in_service_order(&order)?
        .filter_ports(active_only))
}

fn row(port: &HardwarePort) -> Vec<String> {
    vec![
        port.name.clone(),
        port.ip_address.clone(),
        port.device.clone(),
        port.speed.clone(),
        port.mac_address.clone(),
    ]
}

#[test]
fn active_ports_end_to_end() {
    let list = match enumerate(true) {
        Ok(list) => list,
        Err(e) => panic!("enumeration failed: {:?}", e),
    };
    assert_eq!(list.ports.len(), 1);
    assert_eq!(
        row(&list.ports[0]),
        vec!["Thunderbolt Ethernet", "10.0.0.5", "en7", "1GbE", "aa:aa:aa:aa:aa:aa"]
    );
    assert_eq!(list.ports[0].service_order, 1);
}

#[test]
fn all_ports_end_to_end() {
    let list = match enumerate(false) {
        Ok(list) => list,
        Err(e) => panic!("enumeration failed: {:?}", e),
    };
    let rows: Vec<Vec<String>> = list.ports.iter().map(row).collect();
    assert_eq!(
        rows,
        vec![
            vec!["Wi-Fi", "", "en0", "", "bb:bb:bb:bb:bb:bb"],
            vec!["Thunderbolt Ethernet", "10.0.0.5", "en7", "1GbE", "aa:aa:aa:aa:aa:aa"],
            vec!["Thunderbolt Bridge", "", "bridge0", "", "cc:cc:cc:cc:cc:cc"],
        ]
    );
    let ranks: Vec<u8> = list.ports.iter().map(|p| p.service_order).collect();
    assert_eq!(ranks, vec![0, 1, 2]);
}

#[test]
fn end_to_end_example_by_device_name() {
    // Ports named after their devices: en7 with an address and a gigabit
    // link, en0 and bridge0 without address; en0 is first in service order.
    let registry = "Hardware Port: en7\nDevice: en7\nEthernet Address: aa:aa:aa:aa:aa:aa\n\n\
Hardware Port: en0\nDevice: en0\nEthernet Address: bb:bb:bb:bb:bb:bb\n\n\
Hardware Port: bridge0\nDevice: bridge0\nEthernet Address: cc:cc:cc:cc:cc:cc\n\n";
    let addresses = vec!["10.0.0.5".to_string(), String::new(), String::new()];
    let statuses = vec!["1000baseT".to_string(), String::new(), String::new()];
    let list = match HardwarePortList::new(registry, &addresses, &statuses).in_service_order("(x, Device: en0)\n(y, Device: en7)\n(z, Device: bridge0)\n") {
        Ok(list) => list.filter_ports(true),
        Err(e) => panic!("listing not read: {:?}", e),
    };
    assert_eq!(list.ports.len(), 1);
    assert_eq!(row(&list.ports[0]), vec!["en7", "10.0.0.5", "en7", "1GbE", "aa:aa:aa:aa:aa:aa"]);
}

#[test]
fn undecodable_output_stops_the_enumeration() {
    let outcome = decode_output(vec![b'H', 0x80]).map(|text| get_hw_ports(&text).len());
    assert_eq!(outcome, Err(PortError::ExternalCommandFailure));
}
