use mirror_rust_lib::devices::{split_serial, Device};
use mirror_rust_lib::scrcpy::{choose_device, flags, mirror_args, mirror_message, needs_connect, presets};

fn device(serial: &str, state: &str, source: &str) -> Device {
    let (ip, port) = split_serial(serial);
    Device {
        serial: serial.to_string(),
        ip,
        port,
        model: String::new(),
        state: state.to_string(),
        source: source.to_string(),
    }
}

#[test]
fn presets_follow_the_quality_table() {
    let p = presets();
    let rows: Vec<(&str, &str, &str, &str)> =
        p.iter().map(|x| (x.name, x.resolution, x.fps, x.bitrate)).collect();
    assert_eq!(
        rows,
        vec![
            ("Low", "720", "15", "2M"),
            ("Medium", "720", "30", "4M"),
            ("High", "1080", "60", "8M"),
            ("Ultra", "", "", "50M"),
        ]
    );
    assert_eq!(p[3].description, "Native resolution · unlimited fps · 50 Mbps");
}

#[test]
fn preset_flags() {
    assert_eq!(flags("Low"), vec!["--max-size", "720", "--max-fps", "15", "--video-bit-rate", "2M"]);
    assert_eq!(flags("HIGH"), vec!["--max-size", "1080", "--max-fps", "60", "--video-bit-rate", "8M"]);
    assert_eq!(flags("ultra"), vec!["--video-bit-rate", "50M"]);
    assert_eq!(flags("bogus"), flags("Medium"));
    assert_eq!(flags(""), vec!["--max-size", "720", "--max-fps", "30", "--video-bit-rate", "4M"]);
}

#[test]
fn mirror_arguments_and_message() {
    assert_eq!(mirror_args("", "Ultra"), vec!["--video-bit-rate", "50M"]);
    assert_eq!(mirror_args("ABC", "ultra"), vec!["-s", "ABC", "--video-bit-rate", "50M"]);
    assert_eq!(mirror_message("ABC", "High", 4242), "mirroring ABC with High preset (pid 4242)");
    assert_eq!(mirror_message("", "x", 0), "mirroring  with x preset (pid 0)");
}

#[test]
fn picks_a_ready_adb_device_first() {
    assert_eq!(choose_device(&Vec::new()).unwrap_err(), "no devices found");
    let ds = vec![
        device("A", "offline", "adb"),
        device("10.0.0.3:5555", "device", "mdns"),
        device("B", "device", "adb"),
    ];
    assert_eq!(choose_device(&ds).unwrap().serial, "B");
    let ds = vec![device("A", "offline", "adb"), device("10.0.0.3:5555", "device", "mdns")];
    assert_eq!(choose_device(&ds).unwrap().serial, "10.0.0.3:5555");
    let ds = vec![device("A", "offline", "adb"), device("C", "unauthorized", "adb")];
    assert_eq!(choose_device(&ds).unwrap().serial, "A");
}

#[test]
fn connects_first_only_for_network_devices() {
    assert!(needs_connect(&device("10.0.0.3:5555", "device", "adb")));
    assert!(needs_connect(&device("phone", "device", "mdns")));
    assert!(!needs_connect(&device("R58M12ABCDE", "device", "adb")));
}
