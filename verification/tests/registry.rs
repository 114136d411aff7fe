use netports::{get_hw_ports, PortEntry};

fn entry(name: &str, device: &str, mac_address: &str) -> PortEntry {
    PortEntry {
        name: name.to_string(),
        device: device.to_string(),
        mac_address: mac_address.to_string(),
    }
}

fn written(entries: &[PortEntry]) -> String {
    let mut text = String::new();
    for e in entries {
        text.push_str("Hardware Port: ");
        text.push_str(&e.name);
        text.push_str("\nDevice: ");
        text.push_str(&e.device);
        text.push_str("\nEthernet Address: ");
        text.push_str(&e.mac_address);
        text.push_str("\n\n");
    }
    text
}

fn three() -> Vec<PortEntry> {
    vec![
        entry("Thunderbolt Ethernet Slot 1", "en7", "aa:aa:aa:aa:aa:aa"),
        entry("Wi-Fi", "en0", "bb:bb:bb:bb:bb:bb"),
        entry("Thunderbolt Bridge", "bridge0", "cc:cc:cc:cc:cc:cc"),
    ]
}

#[test]
fn empty_text_has_no_entries() {
    assert_eq!(get_hw_ports(""), Vec::<PortEntry>::new());
}

#[test]
fn text_without_entries_has_none() {
    assert_eq!(get_hw_ports("VLAN Configurations\n===================\n"), Vec::<PortEntry>::new());
}

#[test]
fn one_entry_is_read() {
    let text = "Hardware Port: Wi-Fi\nDevice: en0\nEthernet Address: bb:bb:bb:bb:bb:bb\n\n";
    assert_eq!(get_hw_ports(text), vec![entry("Wi-Fi", "en0", "bb:bb:bb:bb:bb:bb")]);
}

#[test]
fn entries_come_in_document_order() {
    let entries = three();
    let found = get_hw_ports(&written(&entries));
    assert_eq!(found.len(), 3);
    assert_eq!(found, entries);
}

#[test]
fn written_entries_are_read_back() {
    for count in 0..6 {
        let entries: Vec<PortEntry> = (0..count)
            .map(|i| entry(&format!("Port {}", i), &format!("en{}", i), &format!("00:00:00:00:00:0{}", i)))
            .collect();
        assert_eq!(get_hw_ports(&written(&entries)), entries);
    }
}

#[test]
fn trailing_text_changes_nothing() {
    let entries = three();
    let mut text = written(&entries);
    text.push_str("VLAN Configurations\n===================\n");
    assert_eq!(get_hw_ports(&text), entries);
}

#[test]
fn unfinished_entry_at_the_end_is_passed_over() {
    let entries = three();
    let mut text = written(&entries);
    text.push_str("Hardware Port: Ethernet\nDevice: en9\n");
    assert_eq!(get_hw_ports(&text).len(), 3);
    assert_eq!(get_hw_ports(&text), entries);
}

#[test]
fn entry_without_empty_line_is_no_entry() {
    let text = "Hardware Port: Wi-Fi\nDevice: en0\nEthernet Address: bb:bb:bb:bb:bb:bb\n";
    assert_eq!(get_hw_ports(text), Vec::<PortEntry>::new());
}

#[test]
fn leading_text_is_passed_over() {
    let mut text = String::from("\nsome header\n\n");
    text.push_str(&written(&three()));
    assert_eq!(get_hw_ports(&text), three());
}

#[test]
fn text_between_entries_is_passed_over() {
    let entries = three();
    let mut text = written(&entries[..1]);
    text.push_str("noise\nDevice: lost\n\n");
    text.push_str(&written(&entries[1..]));
    assert_eq!(get_hw_ports(&text), entries);
}

#[test]
fn entry_may_begin_within_a_line() {
    let text = "xxHardware Port: Wi-Fi\nDevice: en0\nEthernet Address: bb\n\n";
    assert_eq!(get_hw_ports(text), vec![entry("Wi-Fi", "en0", "bb")]);
}

#[test]
fn name_runs_to_the_end_of_its_line() {
    let text = "Hardware Port: Hardware Port: inner\nDevice: en0\nEthernet Address: bb\n\n";
    assert_eq!(get_hw_ports(text), vec![entry("Hardware Port: inner", "en0", "bb")]);
}

#[test]
fn broken_beginning_does_not_hide_the_entry_behind_it() {
    let text = "Hardware Port: lost\nHardware Port: Wi-Fi\nDevice: en0\nEthernet Address: bb\n\n";
    assert_eq!(get_hw_ports(text), vec![entry("Wi-Fi", "en0", "bb")]);
}

#[test]
fn fields_may_be_empty() {
    let text = "Hardware Port: \nDevice: \nEthernet Address: \n\n";
    assert_eq!(get_hw_ports(text), vec![entry("", "", "")]);
}

#[test]
fn fields_keep_their_spaces_and_other_scripts() {
    let text = "Hardware Port:  R\u{e9}seau \u{7f51}\nDevice: en0 \nEthernet Address: N/A\n\n";
    assert_eq!(get_hw_ports(text), vec![entry(" R\u{e9}seau \u{7f51}", "en0 ", "N/A")]);
}

#[test]
fn carriage_returns_are_not_line_ends() {
    let text = "Hardware Port: Wi-Fi\r\nDevice: en0\r\nEthernet Address: bb\r\n\r\n";
    assert_eq!(get_hw_ports(text), Vec::<PortEntry>::new());
    let text = "Hardware Port: Wi-Fi\r\nDevice: en0\r\nEthernet Address: bb\n\n";
    assert_eq!(get_hw_ports(text), vec![entry("Wi-Fi\r", "en0\r", "bb")]);
}

#[test]
fn entries_share_no_line_feed() {
    // The empty line that ends the first entry cannot also begin the second.
    let text = "Hardware Port: a\nDevice: b\nEthernet Address: c\n\nHardware Port: d\nDevice: e\nEthernet Address: f\n\n\n";
    assert_eq!(get_hw_ports(text), vec![entry("a", "b", "c"), entry("d", "e", "f")]);
}

#[test]
fn labels_are_case_sensitive() {
    let text = "hardware port: Wi-Fi\nDevice: en0\nEthernet Address: bb\n\n";
    assert_eq!(get_hw_ports(text), Vec::<PortEntry>::new());
}

#[test]
fn device_found_twice_is_kept_twice() {
    let entries = vec![entry("First", "en0", "aa"), entry("Second", "en0", "bb")];
    assert_eq!(get_hw_ports(&written(&entries)), entries);
}
