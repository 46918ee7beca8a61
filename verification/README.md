# mirror_rust_lib

The logic behind an Android screen-mirroring app built on adb and scrcpy,
written in Verus and proved against its contracts.

- `src/text.rs`: a model of the string functions the app relies on
  (`char::is_whitespace`, `trim`, `lines`, `split_whitespace`, substring
  search, joining, decimal formatting) as spec functions over `Seq<char>`,
  with executable versions proved equal to them.
- `src/devices.rs`: reading `adb devices -l` and `adb mdns services`,
  merging the two (USB entries first, no repeated address), and judging what
  adb answers to connect, pair and disconnect; the subnet sweep's addresses.
- `src/scrcpy.rs`: the quality presets, the scrcpy arguments they give, and
  which device one-click mirroring picks.
- `src/actions.rs`: QR codes for wireless connection (through the `qrcode`
  crate), screenshots, the clipboard in both directions, file pushes and the
  device summary.
- `src/tools.rs`: where a bundled tool is taken from, and what a finished
  tool run hands back.
- `src/settings.rs`: the remembered settings and their defaults.
- `app/`: the Tauri shell: command registration, process, network and file
  I/O, the dialog and opener plugins, and the serde forms of the records.
- `tests/`: the library's tests, including comparisons of the text model
  with the standard library on sample strings.
