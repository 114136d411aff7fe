use netports::HardwarePort;

#[test]
fn ten_gigabit_whatever_the_address() {
    assert_eq!(HardwarePort::get_speed("media: autoselect (10Gbase-T <full-duplex>)", "10.0.0.5"), "10GbE");
    assert_eq!(HardwarePort::get_speed("media: autoselect (10Gbase-T <full-duplex>)", ""), "10GbE");
    assert_eq!(HardwarePort::get_speed("10Gbase", ""), "10GbE");
}

#[test]
fn gigabit_whatever_the_address() {
    assert_eq!(HardwarePort::get_speed("\tmedia: autoselect (1000baseT <full-duplex>)\n", "10.0.0.5"), "1GbE");
    assert_eq!(HardwarePort::get_speed("\tmedia: autoselect (1000baseT <full-duplex>)\n", ""), "1GbE");
}

#[test]
fn ten_gigabit_comes_before_gigabit() {
    assert_eq!(HardwarePort::get_speed("1000baseT 10Gbase-T", "10.0.0.5"), "10GbE");
    assert_eq!(HardwarePort::get_speed("10Gbase-T 1000baseT auto", ""), "10GbE");
}

#[test]
fn gigabit_comes_before_auto() {
    assert_eq!(HardwarePort::get_speed("autoselect 1000baseT", "10.0.0.5"), "1GbE");
}

#[test]
fn auto_needs_an_address() {
    assert_eq!(HardwarePort::get_speed("autoselect", "10.0.0.5"), "auto");
    assert_eq!(HardwarePort::get_speed("autoselect", ""), "");
    assert_eq!(HardwarePort::get_speed("\tmedia: autoselect\n", "192.168.1.2"), "auto");
    assert_eq!(HardwarePort::get_speed("\tmedia: autoselect\n", ""), "");
}

#[test]
fn only_the_presence_of_the_address_counts() {
    for status in ["autoselect", "10G", "1000", "", "media: <unknown type>"] {
        assert_eq!(
            HardwarePort::get_speed(status, "10.0.0.5"),
            HardwarePort::get_speed(status, "x")
        );
    }
}

#[test]
fn unknown_status_has_no_label() {
    assert_eq!(HardwarePort::get_speed("", "10.0.0.5"), "");
    assert_eq!(HardwarePort::get_speed("", ""), "");
    assert_eq!(HardwarePort::get_speed("media: 100baseTX", "10.0.0.5"), "");
}

#[test]
fn labels_are_matched_by_case() {
    assert_eq!(HardwarePort::get_speed("10gbase", "10.0.0.5"), "");
    assert_eq!(HardwarePort::get_speed("AUTOSELECT", "10.0.0.5"), "");
}

#[test]
fn address_is_the_trimmed_output() {
    assert_eq!(HardwarePort::get_ipaddr("10.0.0.5\n"), "10.0.0.5");
    assert_eq!(HardwarePort::get_ipaddr("  192.168.1.20 \r\n"), "192.168.1.20");
    assert_eq!(HardwarePort::get_ipaddr(""), "");
    assert_eq!(HardwarePort::get_ipaddr("\n"), "");
    assert_eq!(HardwarePort::get_ipaddr(" \t\n"), "");
}

#[test]
fn new_port_has_address_speed_and_rank_zero() {
    let port = HardwarePort::new(
        "Ethernet".to_string(),
        "en7".to_string(),
        "aa:aa:aa:aa:aa:aa".to_string(),
        "10.0.0.5\n",
        "\tmedia: autoselect (1000baseT <full-duplex>)\n",
    );
    assert_eq!(port.name, "Ethernet");
    assert_eq!(port.device, "en7");
    assert_eq!(port.mac_address, "aa:aa:aa:aa:aa:aa");
    assert_eq!(port.ip_address, "10.0.0.5");
    assert_eq!(port.speed, "1GbE");
    assert_eq!(port.service_order, 0);
    assert!(port.is_active());
}

#[test]
fn new_port_without_address_has_no_auto_speed() {
    let port = HardwarePort::new(
        "Wi-Fi".to_string(),
        "en0".to_string(),
        "bb:bb:bb:bb:bb:bb".to_string(),
        "\n",
        "\tmedia: autoselect\n",
    );
    assert_eq!(port.ip_address, "");
    assert_eq!(port.speed, "");
    assert!(!port.is_active());
}

#[test]
fn new_port_with_address_has_auto_speed() {
    let port = HardwarePort::new(
        "Wi-Fi".to_string(),
        "en0".to_string(),
        "bb:bb:bb:bb:bb:bb".to_string(),
        " 10.0.0.9\n",
        "\tmedia: autoselect\n",
    );
    assert_eq!(port.ip_address, "10.0.0.9");
    assert_eq!(port.speed, "auto");
}
