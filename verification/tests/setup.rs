use omarchy_hotspot::setup::{
    answer_is_yes, create_ap_args, delete_interface_args, install_commands, join_with_spaces,
    missing_dependencies, needs_create_ap_patch, observe_create_ap_line, required_dependencies,
    validate_password,
};

fn strings(v: &[&str]) -> Vec<String> {
    v.iter().map(|s| s.to_string()).collect()
}

#[test]
fn yes_answers() {
    assert!(answer_is_yes(""));
    assert!(answer_is_yes("\n"));
    assert!(answer_is_yes("y\n"));
    assert!(answer_is_yes("  Y \r\n"));
    assert!(answer_is_yes("\u{3000}y\t"));
}

#[test]
fn no_answers() {
    assert!(!answer_is_yes("n\n"));
    assert!(!answer_is_yes("yes\n"));
    assert!(!answer_is_yes("y y"));
    assert!(!answer_is_yes("N"));
}

#[test]
fn patch_needed_only_without_marker() {
    assert!(needs_create_ap_patch("WIFI_IFACE_FREQ=$(iw dev | awk '{print $2}')"));
    assert!(!needs_create_ap_patch("x=$(awk '{print $2}' | cut -d. -f1)"));
    assert!(needs_create_ap_patch(""));
    assert!(needs_create_ap_patch("cut -d.-f1"));
}

#[test]
fn password_length_rule() {
    assert!(validate_password("1234567").is_err());
    assert_eq!(
        validate_password("short"),
        Err("Password must be at least 8 characters long")
    );
    assert!(validate_password("12345678").is_ok());
    assert!(validate_password("Tryh4ckm3;").is_ok());
    // the rule counts bytes: four two-byte characters are enough
    assert!(validate_password("éééé").is_ok());
    assert!(validate_password("ééé").is_err());
    assert!(validate_password("").is_err());
}

#[test]
fn monitor_echoes_until_enabled() {
    let e = observe_create_ap_line(false, "Config dir: /tmp/create_ap.wlan0.conf");
    assert!(e.echo && !e.show_dashboard && !e.ap_enabled);
    let e = observe_create_ap_line(false, "ap0: AP-ENABLED");
    assert!(e.echo && e.show_dashboard && e.ap_enabled);
    let e = observe_create_ap_line(true, "ap0: STA connected");
    assert!(!e.echo && !e.show_dashboard && e.ap_enabled);
    let e = observe_create_ap_line(true, "ap0: AP-ENABLED again");
    assert!(!e.echo && e.show_dashboard && e.ap_enabled);
    let e = observe_create_ap_line(false, "AP-ENABLE");
    assert!(!e.ap_enabled);
}

#[test]
fn create_ap_command_line() {
    assert_eq!(
        create_ap_args("wlan0", "eth0", "DCT_Linux", "Tryh4ckm3;"),
        strings(&["create_ap", "wlan0", "eth0", "DCT_Linux", "Tryh4ckm3;"])
    );
}

#[test]
fn delete_interface_command_line() {
    assert_eq!(delete_interface_args("ap0"), strings(&["iw", "dev", "ap0", "del"]));
}

#[test]
fn dependency_list() {
    assert_eq!(
        required_dependencies(),
        strings(&["create_ap", "hostapd", "dnsmasq", "imv", "iw"])
    );
}

#[test]
fn missing_dependencies_keep_order() {
    let deps = required_dependencies();
    assert_eq!(
        missing_dependencies(&deps, &vec![false, true, false, true, false]),
        strings(&["create_ap", "dnsmasq", "iw"])
    );
    assert!(missing_dependencies(&deps, &vec![true; 5]).is_empty());
}

#[test]
fn install_commands_split_official_and_aur() {
    assert_eq!(
        install_commands(&strings(&["create_ap", "hostapd", "iw"])),
        vec![
            strings(&["omarchy", "pkg", "add", "hostapd", "iw"]),
            strings(&["omarchy", "pkg", "aur", "add", "create_ap"]),
        ]
    );
    assert_eq!(
        install_commands(&strings(&["imv"])),
        vec![strings(&["omarchy", "pkg", "add", "imv"])]
    );
    assert_eq!(
        install_commands(&strings(&["create_ap"])),
        vec![strings(&["omarchy", "pkg", "aur", "add", "create_ap"])]
    );
    assert!(install_commands(&Vec::new()).is_empty());
}

#[test]
fn join_with_single_spaces() {
    assert_eq!(join_with_spaces(&strings(&["a", "b", "c"])), "a b c");
    assert_eq!(join_with_spaces(&strings(&["solo"])), "solo");
    assert_eq!(join_with_spaces(&Vec::new()), "");
    assert_eq!(join_with_spaces(&strings(&["hostapd", "imv"])), strings(&["hostapd", "imv"]).join(" "));
}
