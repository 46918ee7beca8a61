use mirror_rust_lib::devices::{
    adb_list, alive_hosts, connect_device, connect_target, disconnect_device, full_discover,
    mdns_list, pair_device, pair_target, parse_devices, split_serial, subnet_hosts, subnet_prefix,
    Device,
};

fn device(serial: &str, state: &str, source: &str) -> Device {
    let (ip, port) = split_serial(serial);
    Device {
        serial: serial.to_string(),
        ip,
        port,
        model: String::new(),
        state: state.to_string(),
        source: source.to_string(),
    }
}

fn ran(out: &str, err: &str, ok: bool) -> Result<(String, String, bool), String> {
    Ok((out.to_string(), err.to_string(), ok))
}

#[test]
fn splits_serials_at_the_last_colon() {
    assert_eq!(split_serial("192.168.1.42:5555"), ("192.168.1.42".to_string(), "5555".to_string()));
    assert_eq!(split_serial("R58M12ABCDE"), ("R58M12ABCDE".to_string(), String::new()));
    assert_eq!(split_serial("fe80::1:5555"), ("fe80::1".to_string(), "5555".to_string()));
    assert_eq!(split_serial("host:"), ("host".to_string(), String::new()));
    assert_eq!(split_serial(""), (String::new(), String::new()));
}

#[test]
fn a_split_serial_joins_back_into_the_connect_target() {
    for serial in ["192.168.1.42:5555", "R58M12ABCDE", "fe80::1:5555", "a:b:c"] {
        let (ip, port) = split_serial(serial);
        assert_eq!(connect_target(&ip, &port), serial);
    }
    let (ip, port) = split_serial("host:");
    assert_eq!(connect_target(&ip, &port), "host");
}

#[test]
fn skips_notices_wherever_they_stand() {
    let output = "List of devices attached\r\n* daemon started successfully\r\nSERIAL1\tdevice model:A_B\r\n\r\n   \r\nlonely\r\nSERIAL2   offline\n";
    let devices = parse_devices(output);
    assert_eq!(devices.len(), 2);
    assert_eq!(devices[0].serial, "SERIAL1");
    assert_eq!(devices[0].model, "A B");
    assert_eq!(devices[0].source, "adb");
    assert_eq!(devices[1].serial, "SERIAL2");
    assert_eq!(devices[1].state, "offline");
    assert_eq!(devices[1].model, "");
}

#[test]
fn reads_the_first_model_field_only() {
    let output = "X\tdevice product:p model:First_One model:Second\n";
    let devices = parse_devices(output);
    assert_eq!(devices[0].model, "First One");
    assert_eq!(parse_devices("").len(), 0);
    assert_eq!(parse_devices("X device").len(), 1);
}

#[test]
fn lists_devices_only_from_a_successful_run() {
    let listing = "List of devices attached\nABC\tdevice\n";
    assert_eq!(adb_list(&ran(listing, "", true)).len(), 1);
    assert!(adb_list(&ran(listing, "", false)).is_empty());
    assert!(adb_list(&Err("adb: not found".to_string())).is_empty());
}

#[test]
fn reads_mdns_services() {
    let out = "List of discovered mdns services\n192.168.1.9:37001\t_adb-tls-connect._tcp\nphone\t_adb._tcp\t10.0.0.2:5555\nprinter\t_ipp._tcp\n:4444 _adb._tcp\n";
    let devices = mdns_list(&ran(out, "", true));
    assert_eq!(devices.len(), 2);
    assert_eq!(devices[0].serial, "192.168.1.9:37001");
    assert_eq!(devices[0].ip, "192.168.1.9");
    assert_eq!(devices[0].port, "37001");
    assert_eq!(devices[0].state, "device");
    assert_eq!(devices[0].source, "mdns");
    assert_eq!(devices[0].model, "");
    assert_eq!(devices[1].serial, "phone");
    assert_eq!(devices[1].port, "");
    assert!(mdns_list(&ran(out, "", false)).is_empty());
    assert!(mdns_list(&Err("no adb".to_string())).is_empty());
}

#[test]
fn discovery_lists_usb_first_and_drops_known_addresses() {
    let adb = vec![
        device("USB1", "device", "adb"),
        device("10.0.0.5:5555", "device", "adb"),
        device("stray", "device", "mdns"),
    ];
    let mdns = vec![
        device("10.0.0.5:5555", "device", "mdns"),
        device("10.0.0.7:40000", "device", "mdns"),
        device("10.0.0.7:40000", "device", "mdns"),
    ];
    let found = full_discover(&adb, &mdns);
    let serials: Vec<&str> = found.iter().map(|d| d.serial.as_str()).collect();
    assert_eq!(serials, vec!["USB1", "10.0.0.5:5555", "10.0.0.7:40000"]);
    assert_eq!(found[1].source, "adb");
    assert_eq!(found[2].source, "mdns");
}

#[test]
fn builds_connect_and_pair_targets() {
    assert_eq!(connect_target("10.0.0.2", ""), "10.0.0.2");
    assert_eq!(connect_target("10.0.0.2", "5555"), "10.0.0.2:5555");
    assert_eq!(pair_target("10.0.0.2", "37099"), "10.0.0.2:37099");
}

#[test]
fn judges_connect_replies() {
    assert_eq!(
        connect_device(ran("connected to 10.0.0.2:5555", "", true)),
        Ok("connected to 10.0.0.2:5555".to_string())
    );
    assert_eq!(
        connect_device(ran("ALREADY Connected to 10.0.0.2:5555", "", true)),
        Ok("ALREADY Connected to 10.0.0.2:5555".to_string())
    );
    assert_eq!(
        connect_device(ran("", "done: CONNECTED", true)),
        Ok(String::new())
    );
    assert_eq!(
        connect_device(ran("failed to connect to 10.0.0.2:5555", "", true)),
        Err("failed to connect to 10.0.0.2:5555".to_string())
    );
    assert_eq!(connect_device(ran("connected", "", false)), Err("connected".to_string()));
    assert_eq!(connect_device(ran("", "no route", false)), Err("no route".to_string()));
    assert_eq!(connect_device(Err("adb missing".to_string())), Err("adb missing".to_string()));
}

#[test]
fn judges_pairing_replies() {
    let ok = pair_device(Ok((b"Enter pairing code: Successfully paired to 10.0.0.2:37099\n".to_vec(), Vec::new())));
    assert_eq!(ok, Ok("Enter pairing code: Successfully paired to 10.0.0.2:37099".to_string()));
    let bad = pair_device(Ok((b"Failed: Wrong password or connection was dropped.\n".to_vec(), b"\n".to_vec())));
    assert_eq!(bad, Err("Failed: Wrong password or connection was dropped.".to_string()));
    let lossy = pair_device(Ok((vec![0xff, b'P', b'A', b'I', b'R', b'E', b'D'], Vec::new())));
    assert_eq!(lossy, Ok("\u{fffd}PAIRED".to_string()));
    assert_eq!(pair_device(Err("spawn failed".to_string())), Err("spawn failed".to_string()));
}

#[test]
fn judges_disconnect_replies() {
    assert_eq!(disconnect_device(ran("disconnected 10.0.0.2", "", true)), Ok("disconnected 10.0.0.2".to_string()));
    assert_eq!(disconnect_device(ran("", "error: no such device", false)), Ok("error: no such device".to_string()));
    assert_eq!(disconnect_device(Err("x".to_string())), Err("x".to_string()));
}

#[test]
fn finds_the_subnet_prefix() {
    assert_eq!(subnet_prefix(Some("192.168.1.23".to_string())), Ok("192.168.1.".to_string()));
    assert_eq!(subnet_prefix(None), Err("could not determine the local IP".to_string()));
    assert_eq!(subnet_prefix(Some("fe80::1".to_string())), Err("unexpected local address".to_string()));
}

#[test]
fn sweeps_hosts_one_to_254() {
    let hosts = subnet_hosts("10.0.0.");
    assert_eq!(hosts.len(), 254);
    assert_eq!(hosts[0], "10.0.0.1");
    assert_eq!(hosts[9], "10.0.0.10");
    assert_eq!(hosts[99], "10.0.0.100");
    assert_eq!(hosts[253], "10.0.0.254");
}

#[test]
fn keeps_the_hosts_that_answered_in_order() {
    let pings = vec![
        Some(("10.0.0.1".to_string(), true)),
        Some(("10.0.0.2".to_string(), false)),
        None,
        Some(("10.0.0.4".to_string(), true)),
    ];
    assert_eq!(alive_hosts(pings), vec!["10.0.0.1".to_string(), "10.0.0.4".to_string()]);
}

#[test]
fn notices_in_front_of_a_listing_change_nothing() {
    let listing = "R58\tdevice model:X_1\n10.0.0.2:5555\toffline\n";
    let noisy = format!("* daemon not running\n* daemon started successfully\nList of devices attached\n\n{listing}");
    let plain = parse_devices(listing);
    let with_notices = parse_devices(&noisy);
    assert_eq!(plain.len(), with_notices.len());
    for (a, b) in plain.iter().zip(with_notices.iter()) {
        assert_eq!((&a.serial, &a.state, &a.model), (&b.serial, &b.state, &b.model));
    }
    let both = parse_devices(&format!("{listing}{listing}"));
    assert_eq!(both.len(), 2 * plain.len());
}

#[test]
fn a_final_line_break_adds_no_device() {
    for listing in ["A\tdevice\r", "A\tdevice\nB\toffline", "A\tdevice\n", ""] {
        let without = parse_devices(listing);
        let with = parse_devices(&format!("{listing}\n"));
        let a: Vec<(String, String)> = without.iter().map(|d| (d.serial.clone(), d.state.clone())).collect();
        let b: Vec<(String, String)> = with.iter().map(|d| (d.serial.clone(), d.state.clone())).collect();
        assert_eq!(a, b, "{:?}", listing);
    }
}
