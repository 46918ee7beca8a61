//! Mirroring quality presets, the scrcpy arguments they give, and which
//! discovered device a one-click mirror picks.

use vstd::prelude::*;

use crate::devices::{Device, DeviceView, device_views};
use crate::text::{chars_of, decimal, push_decimal, same_text, texts};

verus! {

/// A mirroring quality preset.
#[derive(Debug)]
pub struct Preset {
    pub name: &'static str,
    pub resolution: &'static str,
    pub fps: &'static str,
    pub bitrate: &'static str,
    pub description: &'static str,
}

/// The text of each field of a [`Preset`].
pub struct PresetView {
    pub name: Seq<char>,
    pub resolution: Seq<char>,
    pub fps: Seq<char>,
    pub bitrate: Seq<char>,
    pub description: Seq<char>,
}

impl View for Preset {
    type V = PresetView;

    open spec fn view(&self) -> PresetView {
        PresetView {
            name: self.name@,
            resolution: self.resolution@,
            fps: self.fps@,
            bitrate: self.bitrate@,
            description: self.description@,
        }
    }
}

impl Clone for Preset {
    fn clone(&self) -> (r: Self)
        ensures
            r == *self,
    {
        Preset {
            name: self.name,
            resolution: self.resolution,
            fps: self.fps,
            bitrate: self.bitrate,
            description: self.description,
        }
    }
}

/// The four presets: Low, Medium, High and Ultra.
pub open spec fn preset_table() -> Seq<PresetView> {
    seq![
        PresetView {
            name: "Low"@,
            resolution: "720"@,
            fps: "15"@,
            bitrate: "2M"@,
            description: "720p · 15fps · 2 Mbps"@,
        },
        PresetView {
            name: "Medium"@,
            resolution: "720"@,
            fps: "30"@,
            bitrate: "4M"@,
            description: "720p · 30fps · 4 Mbps"@,
        },
        PresetView {
            name: "High"@,
            resolution: "1080"@,
            fps: "60"@,
            bitrate: "8M"@,
            description: "1080p · 60fps · 8 Mbps"@,
        },
        PresetView {
            name: "Ultra"@,
            resolution: ""@,
            fps: ""@,
            bitrate: "50M"@,
            description: "Native resolution · unlimited fps · 50 Mbps"@,
        },
    ]
}

/// The quality presets, from lowest to highest.
pub fn presets() -> (r: [Preset; 4])
    ensures
        r@.map_values(|p: Preset| p@) == preset_table(),
{
    let r = [
        Preset {
            name: "Low",
            resolution: "720",
            fps: "15",
            bitrate: "2M",
            description: "720p · 15fps · 2 Mbps",
        },
        Preset {
            name: "Medium",
            resolution: "720",
            fps: "30",
            bitrate: "4M",
            description: "720p · 30fps · 4 Mbps",
        },
        Preset {
            name: "High",
            resolution: "1080",
            fps: "60",
            bitrate: "8M",
            description: "1080p · 60fps · 8 Mbps",
        },
        Preset {
            name: "Ultra",
            resolution: "",
            fps: "",
            bitrate: "50M",
            description: "Native resolution · unlimited fps · 50 Mbps",
        },
    ];
    assert(r@.map_values(|p: Preset| p@) =~= preset_table());
    r
}

/// The code of a character with ASCII capitals made small, as
/// `char::to_ascii_lowercase` does.
pub open spec fn lower_code(c: char) -> u32 {
    if 65 <= (c as u32) && (c as u32) <= 90 {
        (c as u32 + 32) as u32
    } else {
        c as u32
    }
}

/// `str::eq_ignore_ascii_case`.
pub open spec fn same_ignoring_case(a: Seq<char>, b: Seq<char>) -> bool {
    a.len() == b.len() && forall|i: int| 0 <= i < a.len() ==> lower_code(a[i]) == lower_code(b[i])
}

fn lower_code_of(c: char) -> (r: u32)
    ensures
        r == lower_code(c),
{
    let x = c as u32;
    if 65 <= x && x <= 90 {
        x + 32
    } else {
        x
    }
}

fn eq_ignore_case(a: &[char], b: &[char]) -> (r: bool)
    ensures
        r == same_ignoring_case(a@, b@),
{
    if a.len() != b.len() {
        return false;
    }
    let n = a.len();
    for i in 0..n
        invariant
            n == a@.len() == b@.len(),
            forall|j: int| 0 <= j < i ==> lower_code(a@[j]) == lower_code(b@[j]),
    {
        if lower_code_of(a[i]) != lower_code_of(b[i]) {
            return false;
        }
    }
    true
}

/// The index of the preset a name picks: the first whose name equals it
/// ignoring ASCII case; Medium when none does.
pub open spec fn preset_index(name: Seq<char>) -> int {
    let t = preset_table();
    if same_ignoring_case(t[0].name, name) {
        0
    } else if same_ignoring_case(t[1].name, name) {
        1
    } else if same_ignoring_case(t[2].name, name) {
        2
    } else if same_ignoring_case(t[3].name, name) {
        3
    } else {
        1
    }
}

/// The scrcpy arguments of a preset: `--max-size` and `--max-fps` where the
/// preset limits them, then `--video-bit-rate`.
pub open spec fn preset_flags(p: PresetView) -> Seq<Seq<char>> {
    (if p.resolution.len() > 0 {
        seq!["--max-size"@, p.resolution]
    } else {
        Seq::empty()
    }) + (if p.fps.len() > 0 {
        seq!["--max-fps"@, p.fps]
    } else {
        Seq::empty()
    }) + seq!["--video-bit-rate"@, p.bitrate]
}

/// The scrcpy arguments for the preset with this name (Medium for an
/// unknown name).
pub fn flags(preset: &str) -> (r: Vec<String>)
    ensures
        texts(r@) == preset_flags(preset_table()[preset_index(preset@)]),
{
    let table = presets();
    let wanted = chars_of(preset);
    let mut chosen: usize = 1;
    let mut found = false;
    let mut i: usize = 0;
    let ghost t = preset_table();
    assert(t == table@.map_values(|p: Preset| p@));
    while i < 4 && !found
        invariant
            i <= 4,
            t == preset_table(),
            t == table@.map_values(|p: Preset| p@),
            wanted@ == preset@,
            found ==> chosen < 4 && same_ignoring_case(t[chosen as int].name, preset@),
            found ==> forall|j: int| 0 <= j < chosen ==> !same_ignoring_case(t[j].name, preset@),
            !found ==> chosen == 1,
            !found ==> forall|j: int| 0 <= j < i ==> !same_ignoring_case(t[j].name, preset@),
        decreases 4 - i,
    {
        let name = chars_of(table[i].name);
        assert(table@[i as int]@ == t[i as int]);
        if eq_ignore_case(name.as_slice(), wanted.as_slice()) {
            chosen = i;
            found = true;
        }
        i += 1;
    }
    assert(chosen as int == preset_index(preset@));
    let p = &table[chosen];
    assert(p@ == t[chosen as int]);
    let mut args: Vec<String> = Vec::new();
    if !p.resolution.is_empty() {
        args.push(String::from_str("--max-size"));
        args.push(String::from_str(p.resolution));
    }
    if !p.fps.is_empty() {
        args.push(String::from_str("--max-fps"));
        args.push(String::from_str(p.fps));
    }
    args.push(String::from_str("--video-bit-rate"));
    args.push(String::from_str(p.bitrate));
    assert(texts(args@) =~= preset_flags(p@));
    args
}


/// The arguments scrcpy starts with: `-s serial` when a device is named,
/// then the preset's flags.
pub open spec fn mirror_args_of(serial: Seq<char>, preset: Seq<char>) -> Seq<Seq<char>> {
    (if serial.len() > 0 {
        seq!["-s"@, serial]
    } else {
        Seq::empty()
    }) + preset_flags(preset_table()[preset_index(preset)])
}

/// The arguments scrcpy starts with for a device and preset.
pub fn mirror_args(serial: &str, preset: &str) -> (r: Vec<String>)
    ensures
        texts(r@) == mirror_args_of(serial@, preset@),
{
    let mut args: Vec<String> = Vec::new();
    if !serial.is_empty() {
        args.push(String::from_str("-s"));
        args.push(String::from_str(serial));
    }
    let ghost head = texts(args@);
    let mut rest = flags(preset);
    args.append(&mut rest);
    assert(texts(args@) =~= head + preset_flags(preset_table()[preset_index(preset@)]));
    args
}

/// What starting the mirror reports: `mirroring <serial> with <preset>
/// preset (pid <pid>)`.
pub open spec fn mirror_message_of(serial: Seq<char>, preset: Seq<char>, pid: nat) -> Seq<char> {
    "mirroring "@ + serial + " with "@ + preset + " preset (pid "@ + decimal(pid) + ")"@
}

/// What starting the mirror reports, once scrcpy runs under `pid`.
pub fn mirror_message(serial: &str, preset: &str, pid: u32) -> (r: String)
    ensures
        r@ == mirror_message_of(serial@, preset@, pid as nat),
{
    let mut r = String::from_str("mirroring ");
    r.append(serial);
    r.append(" with ");
    r.append(preset);
    r.append(" preset (pid ");
    push_decimal(&mut r, pid as u64);
    r.append(")");
    r
}

/// A device adb reports as ready (state `device`), and when `over_adb` is
/// asked, one that adb itself listed.
pub open spec fn ready(d: DeviceView, over_adb: bool) -> bool {
    d.state == "device"@ && (!over_adb || d.source == "adb"@)
}

/// The index of the first ready device, or -1.
pub open spec fn first_ready(ds: Seq<DeviceView>, over_adb: bool) -> int
    decreases ds.len(),
{
    if ds.len() == 0 {
        -1
    } else if ready(ds[0], over_adb) {
        0
    } else {
        let rest = first_ready(ds.drop_first(), over_adb);
        if rest < 0 {
            -1
        } else {
            rest + 1
        }
    }
}

/// The index of the device one-click mirroring picks: the first ready adb
/// device, else the first ready device, else the first device.
pub open spec fn pick_index(ds: Seq<DeviceView>) -> int {
    let a = first_ready(ds, true);
    let b = first_ready(ds, false);
    if a >= 0 {
        a
    } else if b >= 0 {
        b
    } else {
        0
    }
}

pub proof fn lemma_first_ready(ds: Seq<DeviceView>, over_adb: bool)
    ensures
        -1 <= first_ready(ds, over_adb) < ds.len(),
        first_ready(ds, over_adb) >= 0 ==> ready(ds[first_ready(ds, over_adb)], over_adb),
        forall|j: int|
            0 <= j < ds.len() && (first_ready(ds, over_adb) < 0 || j < first_ready(ds, over_adb))
                ==> !ready(#[trigger] ds[j], over_adb),
    decreases ds.len(),
{
    if ds.len() > 0 && !ready(ds[0], over_adb) {
        lemma_first_ready(ds.drop_first(), over_adb);
        assert forall|j: int|
            0 <= j < ds.len() && (first_ready(ds, over_adb) < 0 || j < first_ready(
                ds,
                over_adb,
            )) implies !ready(#[trigger] ds[j], over_adb) by {
            if j > 0 {
                assert(ds[j] == ds.drop_first()[j - 1]);
            }
        }
    }
}

fn find_ready(devices: &Vec<Device>, over_adb: bool) -> (r: Option<usize>)
    ensures
        match r {
            Some(k) => k as int == first_ready(device_views(devices@), over_adb),
            None => first_ready(device_views(devices@), over_adb) == -1,
        },
{
    let ghost ds = device_views(devices@);
    let n = devices.len();
    let mut i: usize = 0;
    assert(ds.skip(0) == ds);
    while i < n
        invariant
            i <= n == devices@.len(),
            ds == device_views(devices@),
            first_ready(ds, over_adb) == (if first_ready(ds.skip(i as int), over_adb) < 0 {
                -1
            } else {
                first_ready(ds.skip(i as int), over_adb) + i
            }),
        decreases n - i,
    {
        let d = &devices[i];
        let hit = same_text(d.state.as_str(), "device") && (!over_adb || same_text(
            d.source.as_str(),
            "adb",
        ));
        assert(ds.skip(i as int)[0] == d@);
        if hit {
            return Some(i);
        }
        assert(ds.skip(i as int).drop_first() == ds.skip(i + 1));
        i += 1;
    }
    None
}

/// The device one-click mirroring uses: the first ready adb device, else
/// the first ready device, else the first device; an error when there is
/// none at all.
pub fn choose_device(devices: &Vec<Device>) -> (r: Result<Device, String>)
    ensures
        devices@.len() == 0 ==> (r matches Err(e) && e@ == "no devices found"@),
        devices@.len() > 0 ==> (r matches Ok(d) && d == devices@[pick_index(
            device_views(devices@),
        )]),
{
    if devices.len() == 0 {
        return Err(String::from_str("no devices found"));
    }
    proof {
        lemma_first_ready(device_views(devices@), true);
        lemma_first_ready(device_views(devices@), false);
    }
    let k = match find_ready(devices, true) {
        Some(k) => k,
        None => match find_ready(devices, false) {
            Some(k) => k,
            None => 0,
        },
    };
    Ok(devices[k].clone())
}

/// Whether one-click mirroring connects first: for an mDNS discovery, or a
/// device reached over the network (it has a port).
pub fn needs_connect(device: &Device) -> (r: bool)
    ensures
        r == (device.source@ == "mdns"@ || device.port@.len() > 0),
{
    same_text(device.source.as_str(), "mdns") || !device.port.as_str().is_empty()
}


// ---------------------------------------------------------------- laws

/// The scrcpy arguments are `-s` and the serial (when one is given)
/// followed by exactly the chosen preset's flags: `--max-size` with its
/// resolution and `--max-fps` with its frame rate where the preset limits
/// them, then `--video-bit-rate` with its bit rate.
pub proof fn lemma_mirror_args_are_serial_then_flags(serial: Seq<char>, preset: Seq<char>)
    ensures
        ({
            let a = mirror_args_of(serial, preset);
            let p = preset_table()[preset_index(preset)];
            let off: int = if serial.len() > 0 { 2 } else { 0 };
            let f = a.skip(off);
            let at_fps: int = if p.resolution.len() > 0 { 2 } else { 0 };
            &&& serial.len() > 0 ==> a[0] == "-s"@ && a[1] == serial
            &&& a.len() == off + f.len()
            &&& f == preset_flags(p)
            &&& f.len() == at_fps + (if p.fps.len() > 0 { 2int } else { 0 }) + 2
            &&& p.resolution.len() > 0 ==> f[0] == "--max-size"@ && f[1] == p.resolution
            &&& p.fps.len() > 0 ==> f[at_fps] == "--max-fps"@ && f[at_fps + 1] == p.fps
            &&& f[f.len() - 2] == "--video-bit-rate"@
            &&& f[f.len() - 1] == p.bitrate
        }),
{
    let a = mirror_args_of(serial, preset);
    let off: int = if serial.len() > 0 { 2 } else { 0 };
    let head: Seq<Seq<char>> = if serial.len() > 0 { seq!["-s"@, serial] } else { Seq::empty() };
    let p = preset_table()[preset_index(preset)];
    assert(a == head + preset_flags(p));
    assert(a.skip(off) =~= preset_flags(p));
}

/// Every preset's flags, laid out: `--max-size` and the resolution where
/// there is one, `--max-fps` and the frame rate where there is one, then
/// `--video-bit-rate` and the bit rate; High, for one, limits size to 1080
/// and frame rate to 60.
pub proof fn lemma_preset_flags_laid_out(p: PresetView)
    ensures
        ({
            let f = preset_flags(p);
            let at_fps: int = if p.resolution.len() > 0 { 2 } else { 0 };
            &&& f.len() == at_fps + (if p.fps.len() > 0 { 2int } else { 0 }) + 2
            &&& p.resolution.len() > 0 ==> f[0] == "--max-size"@ && f[1] == p.resolution
            &&& p.fps.len() > 0 ==> f[at_fps] == "--max-fps"@ && f[at_fps + 1] == p.fps
            &&& f[f.len() - 2] == "--video-bit-rate"@
            &&& f[f.len() - 1] == p.bitrate
        }),
{
}


/// Preset names are matched ignoring ASCII case: two names that differ only
/// in case pick the same preset.
pub proof fn lemma_preset_ignores_case(a: Seq<char>, b: Seq<char>)
    requires
        same_ignoring_case(a, b),
    ensures
        preset_index(a) == preset_index(b),
{
    let t = preset_table();
    assert forall|k: int| 0 <= k < 4 implies same_ignoring_case(t[k].name, a) == same_ignoring_case(
        t[k].name,
        b,
    ) by {
        if same_ignoring_case(t[k].name, a) {
            assert forall|i: int| 0 <= i < t[k].name.len() implies lower_code(t[k].name[i])
                == lower_code(b[i]) by {
                assert(lower_code(a[i]) == lower_code(b[i]));
            }
        }
        if same_ignoring_case(t[k].name, b) {
            assert forall|i: int| 0 <= i < t[k].name.len() implies lower_code(t[k].name[i])
                == lower_code(a[i]) by {
                assert(lower_code(a[i]) == lower_code(b[i]));
            }
        }
    }
}

/// A name that matches a preset's name, ignoring ASCII case, picks that
/// preset: `high`, `HIGH` and `High` all pick High.
pub proof fn lemma_named_preset_is_picked(name: Seq<char>, k: int)
    requires
        0 <= k < 4,
        same_ignoring_case(preset_table()[k].name, name),
    ensures
        preset_index(name) == k,
{
    reveal_strlit("Low");
    reveal_strlit("Medium");
    reveal_strlit("High");
    reveal_strlit("Ultra");
    let t = preset_table();
    assert(t[0].name.len() == 3);
    assert(t[1].name.len() == 6);
    assert(t[2].name.len() == 4);
    assert(t[3].name.len() == 5);
}

/// A name that is no preset's picks Medium.
pub proof fn lemma_unknown_preset_is_medium(name: Seq<char>)
    requires
        forall|k: int| 0 <= k < 4 ==> !same_ignoring_case(#[trigger] preset_table()[k].name, name),
    ensures
        preset_index(name) == 1,
{
    assert(!same_ignoring_case(preset_table()[0].name, name));
    assert(!same_ignoring_case(preset_table()[1].name, name));
    assert(!same_ignoring_case(preset_table()[2].name, name));
    assert(!same_ignoring_case(preset_table()[3].name, name));
}

/// The arguments of every preset come in flag and value pairs and end with
/// the preset's video bit rate.
pub proof fn lemma_flags_end_with_bit_rate(name: Seq<char>)
    ensures
        ({
            let p = preset_table()[preset_index(name)];
            let f = preset_flags(p);
            &&& f.len() % 2 == 0
            &&& f.len() >= 2
            &&& f[f.len() - 2] == "--video-bit-rate"@
            &&& f[f.len() - 1] == p.bitrate
        }),
{
}

/// A device whose state is `device` and which adb itself listed.
pub open spec fn usable_over_adb(d: DeviceView) -> bool {
    d.state == "device"@ && d.source == "adb"@
}

/// A device whose state is `device`.
pub open spec fn usable(d: DeviceView) -> bool {
    d.state == "device"@
}

/// One-click mirroring prefers a ready adb device: when there is one, the
/// first such is picked; else, when some device is ready, the first ready
/// one; else the first device.
pub proof fn lemma_pick_prefers_ready(ds: Seq<DeviceView>)
    requires
        ds.len() > 0,
    ensures
        0 <= pick_index(ds) < ds.len(),
        (exists|i: int| 0 <= i < ds.len() && usable_over_adb(#[trigger] ds[i])) ==> {
            &&& usable_over_adb(ds[pick_index(ds)])
            &&& forall|j: int| 0 <= j < pick_index(ds) ==> !usable_over_adb(#[trigger] ds[j])
        },
        (forall|i: int| 0 <= i < ds.len() ==> !usable_over_adb(#[trigger] ds[i])) && (exists|
            i: int,
        | 0 <= i < ds.len() && usable(#[trigger] ds[i])) ==> {
            &&& usable(ds[pick_index(ds)])
            &&& forall|j: int| 0 <= j < pick_index(ds) ==> !usable(#[trigger] ds[j])
        },
        (forall|i: int| 0 <= i < ds.len() ==> !usable(#[trigger] ds[i])) ==> pick_index(ds) == 0,
{
    assert forall|d: DeviceView| ready(d, true) == usable_over_adb(d) && ready(d, false) == usable(
        d,
    ) by {}
    lemma_first_ready(ds, true);
    lemma_first_ready(ds, false);
    if exists|i: int| 0 <= i < ds.len() && ready(ds[i], true) {
        let i = choose|i: int| 0 <= i < ds.len() && ready(ds[i], true);
        assert(ready(ds[i], true));
    }
    if exists|i: int| 0 <= i < ds.len() && ready(ds[i], false) {
        let i = choose|i: int| 0 <= i < ds.len() && ready(ds[i], false);
        assert(ready(ds[i], false));
    }
    if forall|i: int| 0 <= i < ds.len() ==> !ready(#[trigger] ds[i], false) {
        if first_ready(ds, true) >= 0 {
            assert(ready(ds[first_ready(ds, true)], false));
        }
    }
}

} // verus!
