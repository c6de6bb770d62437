use omarchy_hotspot::netif::{
    default_choice_index, default_gateway_interface, network_interface_list,
    suggested_internet_interface, suggested_wifi_interface, virtual_ap_interfaces,
    wireless_interfaces,
};

fn strings(v: &[&str]) -> Vec<String> {
    v.iter().map(|s| s.to_string()).collect()
}

const ROUTE_TABLE: &str = "Iface\tDestination\tGateway \tFlags\tRefCnt\tUse\tMetric\tMask\t\tMTU\tWindow\tIRTT\n\
wlan0\t0000A8C0\t00000000\t0001\t0\t0\t600\t00FFFFFF\t0\t0\t0\n\
wlan0\t00000000\t0100A8C0\t0003\t0\t0\t600\t00000000\t0\t0\t0\n\
eth0\t00000000\t0101A8C0\t0003\t0\t0\t100\t00000000\t0\t0\t0\n";

#[test]
fn gateway_is_first_default_route_after_header() {
    assert_eq!(default_gateway_interface(ROUTE_TABLE), Some("wlan0".to_string()));
}

#[test]
fn gateway_ignores_header_line() {
    let table = "x 00000000\neth1 00000000\n";
    assert_eq!(default_gateway_interface(table), Some("eth1".to_string()));
}

#[test]
fn gateway_absent_without_default_route() {
    let table = "Iface Destination\nwlan0 0000A8C0 00000000\n";
    assert_eq!(default_gateway_interface(table), None);
    assert_eq!(default_gateway_interface(""), None);
    assert_eq!(default_gateway_interface("header only"), None);
}

#[test]
fn gateway_handles_crlf_and_space_runs() {
    let table = "h\r\n  eth2   00000000  x\r\n";
    assert_eq!(default_gateway_interface(table), Some("eth2".to_string()));
}

#[test]
fn gateway_needs_exact_destination() {
    let table = "h\neth0 000000000\nwlan1 00000000\n";
    assert_eq!(default_gateway_interface(table), Some("wlan1".to_string()));
}

#[test]
fn interface_list_drops_loopback_and_sorts() {
    let r = network_interface_list(strings(&["wlan0", "lo", "eth0", "ap0", "enp3s0"]));
    assert_eq!(r, strings(&["ap0", "enp3s0", "eth0", "wlan0"]));
}

#[test]
fn interface_list_sorts_by_bytes() {
    let r = network_interface_list(strings(&["b", "B", "a1", "a", "é", "z"]));
    let mut expected = strings(&["b", "B", "a1", "a", "é", "z"]);
    expected.sort();
    assert_eq!(r, expected);
}

#[test]
fn interface_list_keeps_duplicates_and_loopback_like_names() {
    let r = network_interface_list(strings(&["lo0", "lo", "lo", "eth0", "eth0"]));
    assert_eq!(r, strings(&["eth0", "eth0", "lo0"]));
}

#[test]
fn interface_list_of_nothing_is_empty() {
    assert!(network_interface_list(Vec::new()).is_empty());
    assert!(network_interface_list(strings(&["lo"])).is_empty());
}

#[test]
fn ap_interfaces_are_those_starting_with_ap() {
    let r = virtual_ap_interfaces(&strings(&["ap0", "wlan0", "apx", "a", "eap0", "ap"]));
    assert_eq!(r, strings(&["ap0", "apx", "ap"]));
}

#[test]
fn wifi_suggestion_is_first_wlan() {
    assert_eq!(suggested_wifi_interface(&strings(&["eth0", "wlan1", "wlan0"])), "wlan1");
    assert_eq!(suggested_wifi_interface(&strings(&["eth0", "wlp2s0"])), "wlan0");
    assert_eq!(suggested_wifi_interface(&Vec::new()), "wlan0");
}

#[test]
fn internet_suggestion_defaults_to_wlan0() {
    assert_eq!(suggested_internet_interface(Some("eth0".to_string())), "eth0");
    assert_eq!(suggested_internet_interface(None), "wlan0");
}

#[test]
fn choice_index_is_first_match_or_zero() {
    let ifaces = strings(&["eth0", "wlan0", "wlan0"]);
    assert_eq!(default_choice_index(&ifaces, &"wlan0".to_string()), 1);
    assert_eq!(default_choice_index(&ifaces, &"eth0".to_string()), 0);
    assert_eq!(default_choice_index(&ifaces, &"usb0".to_string()), 0);
}

#[test]
fn wireless_choices_keep_flagged_order() {
    let ifaces = strings(&["eth0", "wlan0", "wlp2s0", "docker0"]);
    assert_eq!(
        wireless_interfaces(&ifaces, &vec![false, true, true, false]),
        strings(&["wlan0", "wlp2s0"])
    );
    assert!(wireless_interfaces(&ifaces, &vec![false; 4]).is_empty());
}
