use mirror_rust_lib::settings::Settings;
use mirror_rust_lib::tools::{choose_tool, exe_name, run, ToolLocation};

#[test]
fn run_output_is_decoded_and_trimmed() {
    let (out, err, ok) = run(b"  List of devices attached\n\n", b"\xffwarn \n", true);
    assert_eq!(out, "List of devices attached");
    assert_eq!(err, "\u{fffd}warn");
    assert!(ok);
    let (out, err, ok) = run(b"", b"", false);
    assert_eq!((out.as_str(), err.as_str(), ok), ("", "", false));
}

#[test]
fn names_tools_per_platform() {
    assert_eq!(exe_name("adb", true), "adb.exe");
    assert_eq!(exe_name("scrcpy", false), "scrcpy");
}

#[test]
fn takes_a_tool_from_the_first_place_it_exists() {
    assert!(matches!(choose_tool(&[false, true, true], true), ToolLocation::Resource(1)));
    assert!(matches!(choose_tool(&[true, false, false], false), ToolLocation::Resource(0)));
    assert!(matches!(choose_tool(&[false, false, false], true), ToolLocation::Development));
    assert!(matches!(choose_tool(&[], false), ToolLocation::OnPath));
}

#[test]
fn settings_defaults() {
    let s = Settings::default();
    assert_eq!(s.ip, "");
    assert_eq!(s.connect_port, "5555");
    assert_eq!(s.pair_port, "5555");
    assert_eq!(s.quality, "Medium");
    assert_eq!(s.theme, "dark");
    assert_eq!(s.accent, "pink");
    assert!(!s.auto_connect);
}
