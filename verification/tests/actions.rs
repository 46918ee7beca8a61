use mirror_rust_lib::actions::{
    capture_screen, clipboard_push, device_info, device_props, download_target, push_file,
    push_target, qr_for, qr_svg, read_clipboard, screenshot_name, send_clipboard, ClipboardAction,
    ClipboardStage,
};

fn ran(out: &str, err: &str, ok: bool) -> Result<(String, String, bool), String> {
    Ok((out.to_string(), err.to_string(), ok))
}

#[test]
fn qr_code_for_a_device() {
    assert_eq!(qr_for(""), Err("no device selected".to_string()));
    let svg = qr_for("10.0.0.2:5555").unwrap();
    assert!(svg.starts_with("<?xml"));
    assert!(svg.contains("<svg"));
    assert!(svg.contains("fill=\"#0a0a1a\""));
    assert!(svg.contains("fill=\"#ffffff\""));
    assert_eq!(qr_svg("adb connect 10.0.0.2:5555").unwrap(), svg);
    assert_ne!(qr_svg("something else").unwrap(), svg);
}

#[test]
fn qr_code_refuses_text_that_does_not_fit() {
    let long = "x".repeat(5000);
    let err = qr_svg(&long).unwrap_err();
    assert!(!err.is_empty());
    assert_ne!(err, long);
}

#[test]
fn judges_screen_captures() {
    assert_eq!(capture_screen(Ok((vec![1, 2, 3], Vec::new(), true))), Ok(vec![1, 2, 3]));
    assert_eq!(
        capture_screen(Ok((Vec::new(), b" error: device offline \n".to_vec(), true))),
        Err("error: device offline".to_string())
    );
    assert_eq!(capture_screen(Ok((vec![9], b"denied".to_vec(), false))), Err("denied".to_string()));
    assert_eq!(capture_screen(Err("not found".to_string())), Err("screencap failed: not found".to_string()));
    assert_eq!(screenshot_name(1700000000), "shot_1700000000.png");
    assert_eq!(screenshot_name(0), "shot_0.png");
}

#[test]
fn judges_clipboard_reads() {
    assert_eq!(read_clipboard(ran("hello", "", true)), Ok("hello".to_string()));
    assert_eq!(read_clipboard(ran(" \n", "", true)), Err("the device clipboard is empty".to_string()));
    assert_eq!(read_clipboard(ran("x", "", false)), Err("could not read the device clipboard".to_string()));
    assert_eq!(read_clipboard(ran("x", "boom", false)), Err("boom".to_string()));
    assert_eq!(read_clipboard(Err("gone".to_string())), Err("gone".to_string()));
}

#[test]
fn sends_the_clipboard_in_two_steps() {
    assert_eq!(
        clipboard_push("ABC", "/tmp/clipboard.txt"),
        vec!["-s", "ABC", "push", "/tmp/clipboard.txt", "/sdcard/mirror_rust_clipboard.txt"]
    );
    match send_clipboard(ClipboardStage::FilePushed, "ABC", ran("1 file pushed", "", true)) {
        ClipboardAction::RunAdb(args) => assert_eq!(
            args,
            vec![
                "-s",
                "ABC",
                "shell",
                "cmd",
                "clipboard",
                "set",
                "text",
                "\"$(cat /sdcard/mirror_rust_clipboard.txt)\""
            ]
        ),
        other => panic!("unexpected {:?}", other),
    }
    assert!(matches!(
        send_clipboard(ClipboardStage::TextSet, "ABC", ran("", "", true)),
        ClipboardAction::CleanUp
    ));
    match send_clipboard(ClipboardStage::FilePushed, "ABC", ran("", "no space", false)) {
        ClipboardAction::Fail(e) => assert_eq!(e, "no space"),
        other => panic!("unexpected {:?}", other),
    }
    match send_clipboard(ClipboardStage::TextSet, "ABC", Err("adb gone".to_string())) {
        ClipboardAction::Fail(e) => assert_eq!(e, "adb gone"),
        other => panic!("unexpected {:?}", other),
    }
}

#[test]
fn pushes_files_into_downloads() {
    assert_eq!(download_target(Some("a.txt".to_string())), "/sdcard/Download/a.txt");
    assert_eq!(download_target(None), "/sdcard/Download/file");
    assert_eq!(push_target("/home/me/photo.jpg"), "/sdcard/Download/photo.jpg");
    assert_eq!(push_target("/"), "/sdcard/Download/file");
    assert_eq!(push_target("notes.txt"), "/sdcard/Download/notes.txt");
    assert_eq!(push_target("dir/.."), "/sdcard/Download/file");
    let target = "/sdcard/Download/a.txt".to_string();
    assert_eq!(push_file(target.clone(), ran("", "", true)), Ok(target.clone()));
    assert_eq!(push_file(target.clone(), ran("out", "", false)), Err("out".to_string()));
    assert_eq!(push_file(target.clone(), ran("out", "err", false)), Err("err".to_string()));
    assert_eq!(push_file(target, Err("e".to_string())), Err("e".to_string()));
}

#[test]
fn summarises_device_properties() {
    assert_eq!(
        device_props(),
        ["ro.product.manufacturer", "ro.product.model", "ro.build.version.release", "ro.build.version.sdk"]
    );
    let replies = vec![
        ran(" samsung ", "", true),
        ran("SM-G973F", "", false),
        Err("x".to_string()),
        ran("34", "", true),
    ];
    assert_eq!(device_info(&replies), Ok("samsung · 34".to_string()));
    let blank = vec![ran("  ", "", true), ran("x", "", false)];
    assert_eq!(device_info(&blank), Err("no device info returned".to_string()));
}

#[test]
fn pushed_files_keep_their_names() {
    assert_eq!(push_target("/home/me/photo.jpg"), "/sdcard/Download/photo.jpg");
    assert_eq!(push_target("a/b/c.tar.gz"), "/sdcard/Download/c.tar.gz");
    assert_eq!(push_target("./notes"), "/sdcard/Download/notes");
    assert_eq!(push_target("x/.."), "/sdcard/Download/file");
    assert_eq!(push_target(""), "/sdcard/Download/file");
    let windows = push_target("C:\\Users\\me\\photo.jpg");
    assert!(windows.starts_with("/sdcard/Download/"));
    assert!(windows.ends_with("photo.jpg"));
}

#[test]
fn ordinary_paths_have_a_trailing_name() {
    let paths = [
        "photo.jpg", "/a/b", "a/b/c", "C:foo", "C:\\dir\\f.txt", "ab:c", "dir\\x", "/x/.y",
        "a b/c d", "/..a", "weird:name",
    ];
    for p in paths {
        let name = std::path::Path::new(p).file_name().map(|n| n.to_string_lossy().into_owned());
        let name = name.expect(p);
        assert!(!name.is_empty() && p.ends_with(&name) && !name.contains('/'), "{p}");
        assert_eq!(push_target(p), format!("/sdcard/Download/{name}"));
    }
}
