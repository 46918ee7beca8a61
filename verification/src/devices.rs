//! Reading adb's device listings and mDNS discoveries into device records,
//! merging them, and judging what adb answered to connect, pair and
//! disconnect requests.

use vstd::prelude::*;

use crate::tools::RunResult;
use crate::text::{
    chars_of, contains, contains_chars, copy_range, find_last, has_prefix, has_prefix_chars, join,
    join_from, last_index, lemma_last_index_bounds, lines, lines_of, string_of, trim, trim_chars,
    views, words, words_of, text_result, lowercase_of, to_lowercase, utf8_lossy, decode_lossy,
    same_text, decimal, push_decimal, trim_text, lemma_words_are_words, is_ws,
    lemma_words_of_join, lemma_decimal_injective, lemma_lines_concat,
    lemma_lines_push_newline, lemma_trim_drop_ws_last, split_on, strip_cr,
};

verus! {

/// One device as adb or mDNS reported it.
#[derive(Debug)]
pub struct Device {
    pub serial: String,
    pub ip: String,
    pub port: String,
    pub model: String,
    pub state: String,
    pub source: String,
}

/// The text of each field of a [`Device`].
pub struct DeviceView {
    pub serial: Seq<char>,
    pub ip: Seq<char>,
    pub port: Seq<char>,
    pub model: Seq<char>,
    pub state: Seq<char>,
    pub source: Seq<char>,
}

impl View for Device {
    type V = DeviceView;

    open spec fn view(&self) -> DeviceView {
        DeviceView {
            serial: self.serial@,
            ip: self.ip@,
            port: self.port@,
            model: self.model@,
            state: self.state@,
            source: self.source@,
        }
    }
}

impl Clone for Device {
    fn clone(&self) -> (r: Self)
        ensures
            r == *self,
    {
        Device {
            serial: self.serial.clone(),
            ip: self.ip.clone(),
            port: self.port.clone(),
            model: self.model.clone(),
            state: self.state.clone(),
            source: self.source.clone(),
        }
    }
}

/// The views of a sequence of devices.
pub open spec fn device_views(v: Seq<Device>) -> Seq<DeviceView> {
    v.map_values(|d: Device| d@)
}

/// The view of a device that may be absent.
pub open spec fn opt_view(d: Option<Device>) -> Option<DeviceView> {
    match d {
        Some(x) => Some(x@),
        None => None,
    }
}

/// The values that are present, in order.
pub open spec fn somes<T>(s: Seq<Option<T>>) -> Seq<T>
    decreases s.len(),
{
    if s.len() == 0 {
        Seq::empty()
    } else {
        match s.last() {
            Some(x) => somes(s.drop_last()).push(x),
            None => somes(s.drop_last()),
        }
    }
}

// ---------------------------------------------------------------- model

/// Underscores turned into spaces.
pub open spec fn spaced(s: Seq<char>) -> Seq<char> {
    s.map_values(|c: char| if c == '_' { ' ' } else { c })
}

/// The model named by the first word that starts with `model:`, with
/// underscores as spaces; empty when no word does.
pub open spec fn first_model(ws: Seq<Seq<char>>) -> Seq<char>
    decreases ws.len(),
{
    if ws.len() == 0 {
        Seq::empty()
    } else if has_prefix(ws[0], "model:"@) {
        spaced(ws[0].skip("model:"@.len() as int))
    } else {
        first_model(ws.drop_first())
    }
}

/// The model that an adb info string such as `product:x model:SM_G973F`
/// names.
pub open spec fn info_model(info: Seq<char>) -> Seq<char> {
    first_model(words(info))
}

fn spaced_chars(s: &[char], start: usize) -> (r: String)
    requires
        start <= s@.len(),
    ensures
        r@ == spaced(s@.skip(start as int)),
{
    let n = s.len();
    let mut r = String::new();
    let mut i = start;
    while i < n
        invariant
            start <= i <= n == s@.len(),
            r@ == spaced(s@.subrange(start as int, i as int)),
        decreases n - i,
    {
        let c = s[i];
        if c == '_' {
            r.push(' ');
        } else {
            r.push(c);
        }
        assert(spaced(s@.subrange(start as int, i + 1)) =~= spaced(
            s@.subrange(start as int, i as int),
        ).push(if c == '_' { ' ' } else { c }));
        i += 1;
    }
    assert(s@.subrange(start as int, n as int) == s@.skip(start as int));
    r
}

fn model_of_chars(info: &[char]) -> (r: String)
    ensures
        r@ == info_model(info@),
{
    let ws = words_of(info);
    let key = chars_of("model:");
    let n = ws.len();
    let ghost all = views(ws@);
    let mut i: usize = 0;
    assert(all.skip(0) == all);
    while i < n
        invariant
            i <= n == ws@.len(),
            all == views(ws@),
            key@ == "model:"@,
            all == words(info@),
            first_model(all.skip(i as int)) == first_model(all),
        decreases n - i,
    {
        assert(all.skip(i as int)[0] == ws@[i as int]@);
        if has_prefix_chars(ws[i].as_slice(), key.as_slice()) {
            return spaced_chars(ws[i].as_slice(), key.len());
        }
        assert(all.skip(i as int).drop_first() == all.skip(i + 1));
        i += 1;
    }
    String::new()
}

/// The model an adb info string names (`model:SM_G973F` gives `SM G973F`),
/// or an empty string when it names none.
pub fn model_from_info(info: &str) -> (r: String)
    ensures
        r@ == info_model(info@),
{
    let chars = chars_of(info);
    model_of_chars(chars.as_slice())
}

// ---------------------------------------------------------------- serials

/// A serial split at its last `:` into address and port; a serial with no
/// `:` is all address.
pub open spec fn serial_parts(serial: Seq<char>) -> (Seq<char>, Seq<char>) {
    let k = last_index(serial, ':');
    if k >= 0 {
        (serial.take(k), serial.skip(k + 1))
    } else {
        (serial, Seq::empty())
    }
}

fn split_serial_chars(serial: &[char]) -> (r: (String, String))
    ensures
        (r.0@, r.1@) == serial_parts(serial@),
{
    proof {
        lemma_last_index_bounds(serial@, ':');
    }
    match find_last(serial, ':') {
        Some(k) => {
            let n = serial.len();
            assert(k < n);
            let ip = copy_range(serial, 0, k);
            let port = copy_range(serial, k + 1, n);
            assert(serial@.subrange(0, k as int) == serial@.take(k as int));
            assert(serial@.subrange(k + 1, serial@.len() as int) == serial@.skip(k + 1));
            (string_of(ip.as_slice()), string_of(port.as_slice()))
        },
        None => (string_of(serial), String::new()),
    }
}

/// Splits a serial such as `192.168.1.42:5555` at its last `:` into
/// address and port; a serial with no `:` is all address, with no port.
pub fn split_serial(serial: &str) -> (r: (String, String))
    ensures
        (r.0@, r.1@) == serial_parts(serial@),
{
    let chars = chars_of(serial);
    split_serial_chars(chars.as_slice())
}

// ---------------------------------------------------------------- adb devices -l

/// The device record one line of `adb devices -l` gives, if any: the line
/// is trimmed; blank lines, daemon notices (`* ...`), the header and lines
/// of fewer than two words give none.
pub open spec fn adb_entry(line: Seq<char>) -> Option<DeviceView> {
    let t = trim(line);
    if t.len() == 0 || t[0] == '*' || contains(t, "List of devices attached"@) {
        None
    } else {
        let ws = words(t);
        if ws.len() < 2 {
            None
        } else {
            let parts = serial_parts(ws[0]);
            Some(
                DeviceView {
                    serial: ws[0],
                    ip: parts.0,
                    port: parts.1,
                    model: info_model(join(ws.skip(2), " "@)),
                    state: ws[1],
                    source: "adb"@,
                },
            )
        }
    }
}

/// The devices `adb devices -l` lists, in order.
pub open spec fn adb_devices(output: Seq<char>) -> Seq<DeviceView> {
    somes(lines(output).map_values(|l: Seq<char>| adb_entry(l)))
}

fn adb_line(line: &[char], header: &[char]) -> (r: Option<Device>)
    requires
        header@ == "List of devices attached"@,
    ensures
        opt_view(r) == adb_entry(line@),
{
    let t = trim_chars(line);
    if t.len() == 0 || t[0] == '*' || contains_chars(t.as_slice(), header) {
        return None;
    }
    let ws = words_of(t.as_slice());
    if ws.len() < 2 {
        return None;
    }
    let space = chars_of(" ");
    let info = join_from(&ws, 2, space.as_slice());
    assert(views(ws@).subrange(2, ws@.len() as int) == views(ws@).skip(2));
    let (ip, port) = split_serial_chars(ws[0].as_slice());
    Some(
        Device {
            serial: string_of(ws[0].as_slice()),
            ip,
            port,
            model: model_of_chars(info.as_slice()),
            state: string_of(ws[1].as_slice()),
            source: String::from_str("adb"),
        },
    )
}

/// Parse `adb devices -l` into device records.
///
/// The header and any `* daemon ...` notices are skipped rather than assuming
/// they occupy exactly the first line: adb prints the daemon notices when it
/// has to start the server, pushing the header down.
pub fn parse_devices(output: &str) -> (r: Vec<Device>)
    ensures
        device_views(r@) == adb_devices(output@),
{
    let chars = chars_of(output);
    let ls = lines_of(chars.as_slice());
    let header = chars_of("List of devices attached");
    let ghost entries = lines(output@).map_values(|l: Seq<char>| adb_entry(l));
    let mut devices: Vec<Device> = Vec::new();
    let n = ls.len();
    for i in 0..n
        invariant
            n == ls@.len() == entries.len(),
            header@ == "List of devices attached"@,
            forall|j: int| 0 <= j < n ==> entries[j] == adb_entry(#[trigger] ls@[j]@),
            device_views(devices@) == somes(entries.take(i as int)),
    {
        let found = adb_line(ls[i].as_slice(), header.as_slice());
        assert(entries.take(i + 1).drop_last() == entries.take(i as int));
        match found {
            Some(d) => {
                devices.push(d);
            },
            None => {},
        }
        assert(device_views(devices@) =~= somes(entries.take(i + 1)));
    }
    assert(entries.take(n as int) == entries);
    devices
}


/// The devices a run of `adb devices -l` lists: none unless it succeeded.
pub open spec fn listed_devices(listing: RunResult) -> Seq<DeviceView> {
    match listing {
        Ok((out, _, true)) => adb_devices(out@),
        _ => Seq::empty(),
    }
}

/// The devices a run of `adb devices -l` lists: none unless the run
/// succeeded.
pub fn adb_list(listing: &RunResult) -> (r: Vec<Device>)
    ensures
        device_views(r@) == listed_devices(*listing),
{
    match listing {
        Ok((out, _, true)) => parse_devices(out.as_str()),
        _ => Vec::new(),
    }
}

// ---------------------------------------------------------------- mDNS

/// The device one line of `adb mdns services` advertises, if any: the line
/// must name `_adb-tls-connect` or `_adb._tcp`, and its first word is the
/// address, which must not start with `:`.
pub open spec fn mdns_entry(line: Seq<char>) -> Option<DeviceView> {
    if !contains(line, "_adb-tls-connect"@) && !contains(line, "_adb._tcp"@) {
        None
    } else {
        let ws = words(line);
        if ws.len() == 0 {
            None
        } else {
            let parts = serial_parts(ws[0]);
            if parts.0.len() == 0 {
                None
            } else {
                Some(
                    DeviceView {
                        serial: ws[0],
                        ip: parts.0,
                        port: parts.1,
                        model: Seq::empty(),
                        state: "device"@,
                        source: "mdns"@,
                    },
                )
            }
        }
    }
}

/// The devices that `adb mdns services` advertises, in order.
pub open spec fn mdns_devices(output: Seq<char>) -> Seq<DeviceView> {
    somes(lines(output).map_values(|l: Seq<char>| mdns_entry(l)))
}

/// The wireless devices a run of `adb mdns services` advertises: none
/// unless the run succeeded.
pub open spec fn advertised_devices(services: RunResult) -> Seq<DeviceView> {
    match services {
        Ok((out, _, true)) => mdns_devices(out@),
        _ => Seq::empty(),
    }
}

fn mdns_line(line: &[char], tls: &[char], tcp: &[char]) -> (r: Option<Device>)
    requires
        tls@ == "_adb-tls-connect"@,
        tcp@ == "_adb._tcp"@,
    ensures
        opt_view(r) == mdns_entry(line@),
{
    if !contains_chars(line, tls) && !contains_chars(line, tcp) {
        return None;
    }
    let ws = words_of(line);
    if ws.len() == 0 {
        return None;
    }
    let (ip, port) = split_serial_chars(ws[0].as_slice());
    if ip.as_str().is_empty() {
        return None;
    }
    Some(
        Device {
            serial: string_of(ws[0].as_slice()),
            ip,
            port,
            model: String::new(),
            state: String::from_str("device"),
            source: String::from_str("mdns"),
        },
    )
}

/// Ask the adb mDNS daemon for wireless devices advertising `_adb-tls-connect`:
/// the devices a run of `adb mdns services` lists, none unless it succeeded.
pub fn mdns_list(services: &RunResult) -> (r: Vec<Device>)
    ensures
        device_views(r@) == advertised_devices(*services),
{
    let out = match services {
        Ok((out, _, true)) => out,
        _ => {
            return Vec::new();
        },
    };
    let chars = chars_of(out.as_str());
    let ls = lines_of(chars.as_slice());
    let tls = chars_of("_adb-tls-connect");
    let tcp = chars_of("_adb._tcp");
    let ghost entries = lines(out@).map_values(|l: Seq<char>| mdns_entry(l));
    let mut devices: Vec<Device> = Vec::new();
    let n = ls.len();
    for i in 0..n
        invariant
            n == ls@.len() == entries.len(),
            tls@ == "_adb-tls-connect"@,
            tcp@ == "_adb._tcp"@,
            forall|j: int| 0 <= j < n ==> entries[j] == mdns_entry(#[trigger] ls@[j]@),
            device_views(devices@) == somes(entries.take(i as int)),
    {
        let found = mdns_line(ls[i].as_slice(), tls.as_slice(), tcp.as_slice());
        assert(entries.take(i + 1).drop_last() == entries.take(i as int));
        match found {
            Some(d) => {
                devices.push(d);
            },
            None => {},
        }
        assert(device_views(devices@) =~= somes(entries.take(i + 1)));
    }
    assert(entries.take(n as int) == entries);
    devices
}

// ---------------------------------------------------------------- discovery

/// The devices whose source is adb, in order.
pub open spec fn adb_sourced(ds: Seq<DeviceView>) -> Seq<DeviceView>
    decreases ds.len(),
{
    if ds.len() == 0 {
        Seq::empty()
    } else if ds.last().source == "adb"@ {
        adb_sourced(ds.drop_last()).push(ds.last())
    } else {
        adb_sourced(ds.drop_last())
    }
}

/// Some device in `ds` has this serial.
pub open spec fn has_serial(ds: Seq<DeviceView>, serial: Seq<char>) -> bool {
    exists|i: int| 0 <= i < ds.len() && ds[i].serial == serial
}

/// `found`, then each candidate in turn whose serial is not yet present.
pub open spec fn merge_new(found: Seq<DeviceView>, candidates: Seq<DeviceView>) -> Seq<DeviceView>
    decreases candidates.len(),
{
    if candidates.len() == 0 {
        found
    } else {
        let m = merge_new(found, candidates.drop_last());
        if has_serial(m, candidates.last().serial) {
            m
        } else {
            m.push(candidates.last())
        }
    }
}

/// What discovery reports: the adb entries, then the mDNS entries whose
/// address is not yet listed.
pub open spec fn discovered(adb: Seq<DeviceView>, mdns: Seq<DeviceView>) -> Seq<DeviceView> {
    merge_new(adb_sourced(adb), mdns)
}

fn any_serial(found: &Vec<Device>, serial: &String) -> (b: bool)
    ensures
        b == has_serial(device_views(found@), serial@),
{
    let n = found.len();
    for i in 0..n
        invariant
            n == found@.len(),
            forall|j: int| 0 <= j < i ==> found@[j].serial@ != serial@,
    {
        if same_text(found[i].serial.as_str(), serial.as_str()) {
            assert(device_views(found@)[i as int].serial == serial@);
            return true;
        }
    }
    false
}

/// USB entries first, then mDNS discoveries, de-duplicated by address.
pub fn full_discover(adb: &Vec<Device>, mdns: &Vec<Device>) -> (r: Vec<Device>)
    ensures
        device_views(r@) == discovered(device_views(adb@), device_views(mdns@)),
{
    let ghost av = device_views(adb@);
    let ghost mv = device_views(mdns@);
    let mut found: Vec<Device> = Vec::new();
    let n = adb.len();
    for i in 0..n
        invariant
            n == adb@.len(),
            av == device_views(adb@),
            device_views(found@) == adb_sourced(av.take(i as int)),
    {
        assert(av.take(i + 1).drop_last() == av.take(i as int));
        if same_text(adb[i].source.as_str(), "adb") {
            found.push(adb[i].clone());
        }
        assert(device_views(found@) =~= adb_sourced(av.take(i + 1)));
    }
    assert(av.take(n as int) == av);
    let m = mdns.len();
    for i in 0..m
        invariant
            m == mdns@.len(),
            mv == device_views(mdns@),
            device_views(found@) == merge_new(adb_sourced(av), mv.take(i as int)),
    {
        assert(mv.take(i + 1).drop_last() == mv.take(i as int));
        if !any_serial(&found, &mdns[i].serial) {
            found.push(mdns[i].clone());
        }
        assert(device_views(found@) =~= merge_new(adb_sourced(av), mv.take(i + 1)));
    }
    assert(mv.take(m as int) == mv);
    found
}

// ---------------------------------------------------------------- connect

/// The address adb connects to: the IP alone when there is no port, else
/// `ip:port`.
pub open spec fn target_of(ip: Seq<char>, port: Seq<char>) -> Seq<char> {
    if port.len() == 0 {
        ip
    } else {
        ip + seq![':'] + port
    }
}

/// The address adb connects to: the IP alone when there is no port, else
/// `ip:port`.
pub fn connect_target(ip: &str, port: &str) -> (r: String)
    ensures
        r@ == target_of(ip@, port@),
{
    let mut r = String::from_str(ip);
    if !port.is_empty() {
        r.push(':');
        r.append(port);
    }
    r
}

/// The answer to a connect request given adb's lowercased output: success
/// with adb's output when the run succeeded and said `connected` or
/// `already`; otherwise failure with adb's output, or its error text when
/// the output is empty.
pub open spec fn connect_reply(lowered: Seq<char>, out: Seq<char>, err: Seq<char>, ok: bool) -> Result<
    Seq<char>,
    Seq<char>,
> {
    if ok && (contains(lowered, "connected"@) || contains(lowered, "already"@)) {
        Ok(out)
    } else if out.len() == 0 {
        Err(err)
    } else {
        Err(out)
    }
}

/// Judges a connect request from `lowered`, the lowercased text of adb's
/// output and error joined by a space, and the run itself.
pub fn connect_verdict(lowered: &str, out: String, err: String, ok: bool) -> (r: Result<String, String>)
    ensures
        text_result(r) == connect_reply(lowered@, out@, err@, ok),
{
    let text = chars_of(lowered);
    let connected = chars_of("connected");
    let already = chars_of("already");
    if ok && (contains_chars(text.as_slice(), connected.as_slice()) || contains_chars(
        text.as_slice(),
        already.as_slice(),
    )) {
        Ok(out)
    } else if out.as_str().is_empty() {
        Err(err)
    } else {
        Err(out)
    }
}

/// Two strings joined by one space.
pub open spec fn spaced_pair(a: Seq<char>, b: Seq<char>) -> Seq<char> {
    a + seq![' '] + b
}

fn join_space(a: &str, b: &str) -> (r: String)
    ensures
        r@ == spaced_pair(a@, b@),
{
    let mut r = String::from_str(a);
    r.push(' ');
    r.append(b);
    r
}

/// The answer to `adb connect`: the run's own error when adb could not be
/// started, else the verdict on its lowercased output and error.
pub fn connect_device(ran: RunResult) -> (r: Result<String, String>)
    ensures
        match ran {
            Err(e) => r == Err::<String, String>(e),
            Ok((out, err, ok)) => text_result(r) == connect_reply(
                lowercase_of(spaced_pair(out@, err@)),
                out@,
                err@,
                ok,
            ),
        },
{
    match ran {
        Err(e) => Err(e),
        Ok((out, err, ok)) => {
            let combined = join_space(out.as_str(), err.as_str());
            let lowered = to_lowercase(combined.as_str());
            connect_verdict(lowered.as_str(), out, err, ok)
        },
    }
}

// ---------------------------------------------------------------- pair

/// The address pairing goes to: `ip:port`.
pub fn pair_target(ip: &str, port: &str) -> (r: String)
    ensures
        r@ == ip@ + seq![':'] + port@,
{
    let mut r = String::from_str(ip);
    r.push(':');
    r.append(port);
    r
}

/// The answer to a pairing given `lowered`, the lowercased `text`: success
/// when it says `paired` or `success`, failure otherwise, either way with
/// the trimmed text.
pub open spec fn pair_reply(lowered: Seq<char>, text: Seq<char>) -> Result<Seq<char>, Seq<char>> {
    if contains(lowered, "paired"@) || contains(lowered, "success"@) {
        Ok(trim(text))
    } else {
        Err(trim(text))
    }
}

/// Judges a pairing from adb's combined `text` and its lowercase form.
pub fn pair_verdict(lowered: &str, text: &str) -> (r: Result<String, String>)
    ensures
        text_result(r) == pair_reply(lowered@, text@),
{
    let low = chars_of(lowered);
    let paired = chars_of("paired");
    let success = chars_of("success");
    let trimmed = trim_text(text);
    if contains_chars(low.as_slice(), paired.as_slice()) || contains_chars(
        low.as_slice(),
        success.as_slice(),
    ) {
        Ok(trimmed)
    } else {
        Err(trimmed)
    }
}

/// The text of a pairing run: its decoded output and error joined by a space.
pub open spec fn pair_text(stdout: Seq<u8>, stderr: Seq<u8>) -> Seq<char> {
    spaced_pair(utf8_lossy(stdout), utf8_lossy(stderr))
}

/// The answer to `adb pair`, from the captured output and error of the run
/// (or the text of the error that kept it from running).
pub fn pair_device(reply: Result<(Vec<u8>, Vec<u8>), String>) -> (r: Result<String, String>)
    ensures
        match reply {
            Err(e) => r == Err::<String, String>(e),
            Ok((stdout, stderr)) => text_result(r) == pair_reply(
                lowercase_of(pair_text(stdout@, stderr@)),
                pair_text(stdout@, stderr@),
            ),
        },
{
    match reply {
        Err(e) => Err(e),
        Ok((stdout, stderr)) => {
            let out = decode_lossy(stdout.as_slice());
            let err = decode_lossy(stderr.as_slice());
            let text = join_space(out.as_str(), err.as_str());
            let lowered = to_lowercase(text.as_str());
            pair_verdict(lowered.as_str(), text.as_str())
        },
    }
}

// ---------------------------------------------------------------- disconnect

/// The answer to `adb disconnect`: adb's output, or its error text when the
/// output is empty; the run's own error when adb could not be started.
pub fn disconnect_device(ran: RunResult) -> (r: Result<String, String>)
    ensures
        match ran {
            Err(e) => r == Err::<String, String>(e),
            Ok((out, err, _)) => r == Ok::<String, String>(if out@.len() == 0 { err } else { out }),
        },
{
    match ran {
        Err(e) => Err(e),
        Ok((out, err, _)) => if out.as_str().is_empty() {
            Ok(err)
        } else {
            Ok(out)
        },
    }
}

// ---------------------------------------------------------------- subnet scan

/// The network prefix of the local address, up to and including its last
/// `.`; an error when the local address is unknown or has no `.`.
pub open spec fn prefix_of(local: Option<Seq<char>>) -> Result<Seq<char>, Seq<char>> {
    match local {
        None => Err("could not determine the local IP"@),
        Some(a) => {
            let k = last_index(a, '.');
            if k >= 0 {
                Ok(a.take(k).push('.'))
            } else {
                Err("unexpected local address"@)
            }
        },
    }
}

/// The prefix a subnet sweep uses, from the machine's local address.
pub fn subnet_prefix(local: Option<String>) -> (r: Result<String, String>)
    ensures
        text_result(r) == prefix_of(
            match local {
                Some(a) => Some(a@),
                None => None,
            },
        ),
{
    match local {
        None => Err(String::from_str("could not determine the local IP")),
        Some(a) => {
            let chars = chars_of(a.as_str());
            proof {
                lemma_last_index_bounds(chars@, '.');
            }
            match find_last(chars.as_slice(), '.') {
                Some(k) => {
                    let mut head = copy_range(chars.as_slice(), 0, k);
                    head.push('.');
                    assert(chars@.subrange(0, k as int) == chars@.take(k as int));
                    Ok(string_of(head.as_slice()))
                },
                None => Err(String::from_str("unexpected local address")),
            }
        },
    }
}

/// The addresses a sweep pings: the prefix followed by each host number
/// from 1 to 254.
pub fn subnet_hosts(prefix: &str) -> (r: Vec<String>)
    ensures
        r@.len() == 254,
        forall|i: int| 0 <= i < 254 ==> #[trigger] r@[i]@ == prefix@ + decimal((i + 1) as nat),
{
    let mut r: Vec<String> = Vec::new();
    for host in 1..255u64
        invariant
            r@.len() == host - 1,
            forall|i: int| 0 <= i < r@.len() ==> #[trigger] r@[i]@ == prefix@ + decimal((i + 1) as nat),
    {
        let mut address = String::from_str(prefix);
        push_decimal(&mut address, host);
        r.push(address);
    }
    r
}

/// The address of each ping that answered, in order; `None` stands for a
/// ping whose worker failed.
pub open spec fn answered(pings: Seq<Option<(String, bool)>>) -> Seq<Seq<char>> {
    somes(pings.map_values(|p: Option<(String, bool)>| answer_of(p)))
}

/// The address of a ping that answered.
pub open spec fn answer_of(p: Option<(String, bool)>) -> Option<Seq<char>> {
    match p {
        Some((a, true)) => Some(a@),
        _ => None,
    }
}

/// The addresses whose ping answered, in the order they were pinged.
pub fn alive_hosts(pings: Vec<Option<(String, bool)>>) -> (r: Vec<String>)
    ensures
        r@.map_values(|s: String| s@) == answered(pings@),
{
    let ghost all = pings@;
    let ghost marks = all.map_values(|p: Option<(String, bool)>| answer_of(p));
    let mut alive: Vec<String> = Vec::new();
    let n = pings.len();
    for i in 0..n
        invariant
            n == pings@.len(),
            all == pings@,
            marks == all.map_values(|p: Option<(String, bool)>| answer_of(p)),
            alive@.map_values(|s: String| s@) == somes(marks.take(i as int)),
    {
        assert(marks.take(i + 1).drop_last() == marks.take(i as int));
        match &pings[i] {
            Some((address, true)) => {
                alive.push(address.clone());
            },
            _ => {},
        }
        assert(alive@.map_values(|s: String| s@) =~= somes(marks.take(i + 1)));
    }
    assert(marks.take(n as int) == marks);
    alive
}


// ---------------------------------------------------------------- laws

/// Every value `somes` keeps is one that was present.
pub proof fn lemma_somes_present<T>(s: Seq<Option<T>>, j: int)
    requires
        0 <= j < somes(s).len(),
    ensures
        exists|i: int| 0 <= i < s.len() && s[i] == Some(somes(s)[j]),
    decreases s.len(),
{
    let r = somes(s.drop_last());
    match s.last() {
        Some(x) => {
            if j == r.len() {
                assert(s[s.len() - 1] == Some(x));
            } else {
                lemma_somes_present(s.drop_last(), j);
                let i = choose|i: int| 0 <= i < s.drop_last().len() && s.drop_last()[i] == Some(r[j]);
                assert(s[i] == Some(somes(s)[j]));
            }
        },
        None => {
            lemma_somes_present(s.drop_last(), j);
            let i = choose|i: int| 0 <= i < s.drop_last().len() && s.drop_last()[i] == Some(r[j]);
            assert(s[i] == Some(somes(s)[j]));
        },
    }
}

/// A serial and the address and port it splits into: splitting at the last
/// `:` and joining again as a connect target gives the serial back, unless
/// the serial ends in `:` (then the empty port is dropped).
pub proof fn lemma_serial_round_trip(serial: Seq<char>)
    requires
        serial.len() == 0 || serial.last() != ':',
    ensures
        target_of(serial_parts(serial).0, serial_parts(serial).1) == serial,
{
    lemma_last_index_bounds(serial, ':');
    let k = last_index(serial, ':');
    if k >= 0 {
        assert(k < serial.len() - 1);
        assert(serial.take(k) + seq![':'] + serial.skip(k + 1) =~= serial);
    }
}

/// A serial with no `:` (a USB device) is all address and has no port.
pub proof fn lemma_usb_serial_has_no_port(serial: Seq<char>)
    requires
        forall|i: int| 0 <= i < serial.len() ==> serial[i] != ':',
    ensures
        serial_parts(serial).0 == serial,
        serial_parts(serial).1.len() == 0,
{
    lemma_last_index_bounds(serial, ':');
}

/// Every record `adb devices -l` gives is an adb record whose serial and
/// state are single words, and whose model holds no underscore.
pub proof fn lemma_adb_records(output: Seq<char>)
    ensures
        forall|j: int|
            0 <= j < adb_devices(output).len() ==> {
                let d = #[trigger] adb_devices(output)[j];
                &&& d.source == "adb"@
                &&& d.serial.len() > 0
                &&& d.state.len() > 0
                &&& forall|k: int| 0 <= k < d.serial.len() ==> !is_ws(d.serial[k])
                &&& forall|k: int| 0 <= k < d.state.len() ==> !is_ws(d.state[k])
                &&& forall|k: int| 0 <= k < d.model.len() ==> d.model[k] != '_'
            },
{
    let entries = lines(output).map_values(|l: Seq<char>| adb_entry(l));
    assert forall|j: int| 0 <= j < adb_devices(output).len() implies {
        let d = #[trigger] adb_devices(output)[j];
        &&& d.source == "adb"@
        &&& d.serial.len() > 0
        &&& d.state.len() > 0
        &&& forall|k: int| 0 <= k < d.serial.len() ==> !is_ws(d.serial[k])
        &&& forall|k: int| 0 <= k < d.state.len() ==> !is_ws(d.state[k])
        &&& forall|k: int| 0 <= k < d.model.len() ==> d.model[k] != '_'
    } by {
        lemma_somes_present(entries, j);
        let d = adb_devices(output)[j];
        let i = choose|i: int| 0 <= i < entries.len() && entries[i] == Some(d);
        let t = trim(lines(output)[i]);
        let ws = words(t);
        lemma_words_are_words(t);
        assert(ws[0].len() > 0 && ws[1].len() > 0);
        lemma_first_model_spaced(words(join(ws.skip(2), " "@)));
    }
}

/// The model of a listed device is the one its info words name: joining
/// the words after the state with spaces and splitting the result again
/// loses nothing.
pub proof fn lemma_model_from_info_words(line: Seq<char>)
    requires
        adb_entry(line) is Some,
    ensures
        adb_entry(line)->0.model == first_model(words(trim(line)).skip(2)),
{
    let ws = words(trim(line));
    lemma_words_are_words(trim(line));
    reveal_strlit(" ");
    assert(" "@ == seq![' ']);
    let rest = ws.skip(2);
    assert forall|i: int| 0 <= i < rest.len() implies (#[trigger] rest[i]).len() > 0 && forall|
        j: int,
    | 0 <= j < rest[i].len() ==> !is_ws(rest[i][j]) by {
        assert(rest[i] == ws[i + 2]);
    }
    lemma_words_of_join(rest);
}

/// `model` is `source`, character for character, with each `_` read as a
/// space.
pub open spec fn underscores_as_spaces(model: Seq<char>, source: Seq<char>) -> bool {
    &&& model.len() == source.len()
    &&& forall|c: int|
        0 <= c < source.len() ==> model[c] == (if source[c] == '_' {
            ' '
        } else {
            source[c]
        })
}

/// The model that a list of words names comes from the first word that
/// starts with `model:`: it is all of that word after `model:`, with each
/// `_` read as a space. When no word starts with `model:` there is no model.
pub proof fn lemma_model_is_first_model_field(ws: Seq<Seq<char>>)
    ensures
        (exists|k: int| 0 <= k < ws.len() && has_prefix(#[trigger] ws[k], "model:"@)) ==> exists|
            k: int,
        |
            {
                &&& 0 <= k < ws.len()
                &&& has_prefix(#[trigger] ws[k], "model:"@)
                &&& forall|m: int| 0 <= m < k ==> !has_prefix(#[trigger] ws[m], "model:"@)
                &&& underscores_as_spaces(first_model(ws), ws[k].skip("model:"@.len() as int))
            },
        (forall|k: int| 0 <= k < ws.len() ==> !has_prefix(#[trigger] ws[k], "model:"@)) ==> first_model(
            ws,
        ).len() == 0,
    decreases ws.len(),
{
    let key = "model:"@;
    if ws.len() == 0 {
    } else if has_prefix(ws[0], key) {
        let src = ws[0].skip(key.len() as int);
        assert(first_model(ws) == spaced(src));
        assert(underscores_as_spaces(first_model(ws), src));
        assert(forall|m: int| 0 <= m < 0 ==> !has_prefix(#[trigger] ws[m], key));
    } else {
        let rest = ws.drop_first();
        lemma_model_is_first_model_field(rest);
        assert(first_model(ws) == first_model(rest));
        if exists|k: int| 0 <= k < ws.len() && has_prefix(#[trigger] ws[k], key) {
            let k0 = choose|k: int| 0 <= k < ws.len() && has_prefix(#[trigger] ws[k], key);
            assert(k0 > 0);
            assert(rest[k0 - 1] == ws[k0]);
            assert(has_prefix(rest[k0 - 1], key));
            let k = choose|k: int|
                {
                    &&& 0 <= k < rest.len()
                    &&& has_prefix(#[trigger] rest[k], key)
                    &&& forall|m: int| 0 <= m < k ==> !has_prefix(#[trigger] rest[m], key)
                    &&& underscores_as_spaces(first_model(rest), rest[k].skip(key.len() as int))
                };
            assert(ws[k + 1] == rest[k]);
            assert forall|m: int| 0 <= m < k + 1 implies !has_prefix(#[trigger] ws[m], key) by {
                if m > 0 {
                    assert(ws[m] == rest[m - 1]);
                }
            }
        } else {
            assert forall|k: int| 0 <= k < rest.len() implies !has_prefix(#[trigger] rest[k], key) by {
                assert(rest[k] == ws[k + 1]);
            }
        }
    }
}

/// Every device `adb devices -l` lists comes from one line of the listing:
/// its serial and state are the line's first two words, and its model is
/// the whole text after `model:` in the first later word that starts with
/// `model:`, with each `_` read as a space (none when no word does).
pub proof fn lemma_listed_device_fields(output: Seq<char>)
    ensures
        forall|j: int|
            0 <= j < adb_devices(output).len() ==> exists|i: int|
                {
                    &&& 0 <= i < lines(output).len()
                    &&& listed_from_line(#[trigger] adb_devices(output)[j], lines(output)[i])
                },
{
    let entries = lines(output).map_values(|l: Seq<char>| adb_entry(l));
    assert forall|j: int| 0 <= j < adb_devices(output).len() implies exists|i: int|
        {
            &&& 0 <= i < lines(output).len()
            &&& listed_from_line(#[trigger] adb_devices(output)[j], lines(output)[i])
        } by {
        lemma_somes_present(entries, j);
        let d = adb_devices(output)[j];
        let i = choose|i: int| 0 <= i < entries.len() && entries[i] == Some(d);
        lemma_entry_fields(lines(output)[i]);
    }
}

/// A device read from `line`: the line's first two words are its serial and
/// state, its address and port are the serial split at its last `:`, its
/// source is adb, and its model is the whole text after `model:` in the
/// first word after those two that starts with `model:`, with each `_` read
/// as a space (empty when there is none).
pub open spec fn listed_from_line(d: DeviceView, line: Seq<char>) -> bool {
    let ws = words(trim(line));
    &&& ws.len() >= 2
    &&& d.serial == ws[0]
    &&& d.state == ws[1]
    &&& d.source == "adb"@
    &&& (d.ip, d.port) == serial_parts(ws[0])
    &&& ((exists|k: int|
        {
            &&& 2 <= k < ws.len()
            &&& has_prefix(#[trigger] ws[k], "model:"@)
            &&& forall|m: int| 2 <= m < k ==> !has_prefix(#[trigger] ws[m], "model:"@)
            &&& underscores_as_spaces(d.model, ws[k].skip("model:"@.len() as int))
        }) || ((forall|k: int| 2 <= k < ws.len() ==> !has_prefix(#[trigger] ws[k], "model:"@))
        && d.model.len() == 0))
}

/// What one line of `adb devices -l` gives, described field by field.
pub proof fn lemma_entry_fields(line: Seq<char>)
    ensures
        adb_entry(line) matches Some(d) ==> listed_from_line(d, line),
{
    if adb_entry(line) is Some {
        let d = adb_entry(line)->0;
        lemma_model_from_info_words(line);
        let ws = words(trim(line));
        let rest = ws.skip(2);
        lemma_model_is_first_model_field(rest);
        let key = "model:"@;
        if exists|k: int| 0 <= k < rest.len() && has_prefix(#[trigger] rest[k], key) {
            let k = choose|k: int|
                {
                    &&& 0 <= k < rest.len()
                    &&& has_prefix(#[trigger] rest[k], key)
                    &&& forall|m: int| 0 <= m < k ==> !has_prefix(#[trigger] rest[m], key)
                    &&& underscores_as_spaces(first_model(rest), rest[k].skip(key.len() as int))
                };
            assert(ws[k + 2] == rest[k]);
            assert forall|m: int| 2 <= m < k + 2 implies !has_prefix(#[trigger] ws[m], key) by {
                assert(ws[m] == rest[m - 2]);
            }
        } else {
            assert forall|k: int| 2 <= k < ws.len() implies !has_prefix(#[trigger] ws[k], key) by {
                assert(ws[k] == rest[k - 2]);
            }
        }
    }
}

/// Only lines that name the adb connect services give mDNS devices: a line
/// that names neither `_adb-tls-connect` nor `_adb._tcp` (such as one for
/// the pairing service alone) gives none.
pub proof fn lemma_mdns_needs_connect_service(line: Seq<char>)
    requires
        !contains(line, "_adb-tls-connect"@),
        !contains(line, "_adb._tcp"@),
    ensures
        mdns_entry(line) is None,
{
}

/// Every device `adb mdns services` lists comes from a line that names
/// `_adb-tls-connect` or `_adb._tcp`; its serial is that line's first word,
/// split at its last `:` into a non-empty address and a port; it is a ready
/// mDNS device with no model.
pub proof fn lemma_mdns_devices_come_from_service_lines(output: Seq<char>)
    ensures
        forall|j: int|
            0 <= j < mdns_devices(output).len() ==> exists|i: int|
                {
                    &&& 0 <= i < lines(output).len()
                    &&& advertised_by_line(#[trigger] mdns_devices(output)[j], lines(output)[i])
                },
{
    let entries = lines(output).map_values(|l: Seq<char>| mdns_entry(l));
    assert forall|j: int| 0 <= j < mdns_devices(output).len() implies exists|i: int|
        {
            &&& 0 <= i < lines(output).len()
            &&& advertised_by_line(#[trigger] mdns_devices(output)[j], lines(output)[i])
        } by {
        lemma_somes_present(entries, j);
        let d = mdns_devices(output)[j];
        let i = choose|i: int| 0 <= i < entries.len() && entries[i] == Some(d);
        assert(mdns_entry(lines(output)[i]) == Some(d));
    }
}

/// A device advertised by `line`: the line names `_adb-tls-connect` or
/// `_adb._tcp`, the device's serial is the line's first word, its address
/// (not empty) and port are that word split at its last `:`, and it is a
/// ready mDNS device with no model.
pub open spec fn advertised_by_line(d: DeviceView, line: Seq<char>) -> bool {
    let ws = words(line);
    &&& contains(line, "_adb-tls-connect"@) || contains(line, "_adb._tcp"@)
    &&& ws.len() >= 1
    &&& d.serial == ws[0]
    &&& (d.ip, d.port) == serial_parts(ws[0])
    &&& d.ip.len() > 0
    &&& d.state == "device"@
    &&& d.source == "mdns"@
    &&& d.model.len() == 0
}

/// A ping that went to `address` and answered.
pub open spec fn answered_by(p: Option<(String, bool)>, address: Seq<char>) -> bool {
    p matches Some((a, true)) && a@ == address
}

/// The sweep's prefix is the local address up to and including its last
/// `.`: it ends in `.`, the address starts with it, and what follows it in
/// the address holds no `.`. Without a `.` (or without an address) there is
/// no prefix.
pub proof fn lemma_prefix_is_up_to_last_dot(local: Option<Seq<char>>)
    ensures
        prefix_of(local) matches Ok(p) ==> (local matches Some(a) && {
            &&& p.len() > 0
            &&& p.last() == '.'
            &&& p.len() <= a.len()
            &&& a.take(p.len() as int) == p
            &&& forall|i: int| p.len() <= i < a.len() ==> a[i] != '.'
        }),
        prefix_of(local) is Err <==> (local is None || (local matches Some(a) && forall|i: int|
            0 <= i < a.len() ==> a[i] != '.')),
{
    if let Some(a) = local {
        lemma_last_index_bounds(a, '.');
        let k = last_index(a, '.');
        if k >= 0 {
            let p = a.take(k).push('.');
            assert(a.take(p.len() as int) =~= p);
            assert(!(forall|i: int| 0 <= i < a.len() ==> a[i] != '.'));
        }
    }
}

/// Some ping went to `address` and answered.
pub open spec fn pinged_and_answered(pings: Seq<Option<(String, bool)>>, address: Seq<char>) -> bool {
    exists|i: int| 0 <= i < pings.len() && #[trigger] answered_by(pings[i], address)
}

/// The address a ping went to (empty when its worker failed).
pub open spec fn ping_address(p: Option<(String, bool)>) -> Seq<char> {
    match p {
        Some((a, _)) => a@,
        None => Seq::empty(),
    }
}

/// The sweep reports exactly the addresses whose ping answered: each one
/// it reports was pinged and answered, and each ping that answered is
/// reported.
pub proof fn lemma_alive_hosts_answered(pings: Seq<Option<(String, bool)>>)
    ensures
        forall|j: int|
            0 <= j < answered(pings).len() ==> pinged_and_answered(
                pings,
                #[trigger] answered(pings)[j],
            ),
        forall|i: int|
            0 <= i < pings.len() && (#[trigger] pings[i] matches Some((a, true))) ==> exists|
                j: int,
            | 0 <= j < answered(pings).len() && answered(pings)[j] == ping_address(pings[i]),
{
    let marks = pings.map_values(|p: Option<(String, bool)>| answer_of(p));
    assert(answered(pings) == somes(marks));
    assert forall|j: int| 0 <= j < answered(pings).len() implies pinged_and_answered(
        pings,
        #[trigger] answered(pings)[j],
    ) by {
        lemma_answered_from_ping(pings, j);
    }
    assert forall|i: int|
        0 <= i < pings.len() && (#[trigger] pings[i] matches Some((a, true))) implies exists|
        j: int,
    | 0 <= j < answered(pings).len() && answered(pings)[j] == ping_address(pings[i]) by {
        assert(marks[i] == Some(ping_address(pings[i])));
        lemma_somes_keeps(marks, i);
    }
}

/// Each reported address comes from a ping that answered.
pub proof fn lemma_answered_from_ping(pings: Seq<Option<(String, bool)>>, j: int)
    requires
        0 <= j < answered(pings).len(),
    ensures
        pinged_and_answered(pings, answered(pings)[j]),
{
    let marks = pings.map_values(|p: Option<(String, bool)>| answer_of(p));
    assert(answered(pings) == somes(marks));
    lemma_somes_present(marks, j);
    let i = choose|i: int| 0 <= i < marks.len() && marks[i] == Some(answered(pings)[j]);
    assert(marks[i] == answer_of(pings[i]));
    assert(answered_by(pings[i], answered(pings)[j]));
}

/// A present value is kept by `somes`.
pub proof fn lemma_somes_keeps<T>(s: Seq<Option<T>>, i: int)
    requires
        0 <= i < s.len(),
        s[i] is Some,
    ensures
        exists|j: int| 0 <= j < somes(s).len() && somes(s)[j] == s[i]->0,
    decreases s.len(),
{
    if i == s.len() - 1 {
        assert(somes(s)[somes(s).len() - 1] == s[i]->0);
    } else {
        assert(s.drop_last()[i] == s[i]);
        lemma_somes_keeps(s.drop_last(), i);
        let j = choose|j: int|
            0 <= j < somes(s.drop_last()).len() && somes(s.drop_last())[j] == s[i]->0;
        assert(somes(s)[j] == s[i]->0);
    }
}

/// A connect request succeeds exactly when the run succeeded and adb's
/// lowercased output and error say `connected` or `already`, and then it
/// gives adb's output; any other reply, even from a successful run, is a
/// failure carrying adb's output, or its error text when the output is
/// empty.
pub proof fn lemma_connect_success_needs_connected(
    lowered: Seq<char>,
    out: Seq<char>,
    err: Seq<char>,
    ok: bool,
)
    ensures
        connect_reply(lowered, out, err, ok) is Ok <==> (ok && (contains(lowered, "connected"@)
            || contains(lowered, "already"@))),
        connect_reply(lowered, out, err, ok) is Ok ==> connect_reply(lowered, out, err, ok)->Ok_0
            == out,
        connect_reply(lowered, out, err, ok) is Err ==> connect_reply(lowered, out, err, ok)->Err_0
            == (if out.len() == 0 {
            err
        } else {
            out
        }),
{
}

/// A pairing succeeds exactly when the lowercased text says `paired` or
/// `success`; either way the answer carries the trimmed text. A prompt such
/// as `Enter pairing code:` followed by a failure says neither, so it is a
/// failure.
pub proof fn lemma_pair_success_needs_paired(lowered: Seq<char>, text: Seq<char>)
    ensures
        pair_reply(lowered, text) is Ok <==> (contains(lowered, "paired"@) || contains(
            lowered,
            "success"@,
        )),
        pair_reply(lowered, text) matches Ok(t) ==> t == trim(text),
        pair_reply(lowered, text) matches Err(t) ==> t == trim(text),
{
}

/// Every record `adb mdns services` gives is an mDNS record of a ready
/// device with a non-empty address and no model.
pub proof fn lemma_mdns_records(output: Seq<char>)
    ensures
        forall|j: int|
            0 <= j < mdns_devices(output).len() ==> {
                let d = #[trigger] mdns_devices(output)[j];
                &&& d.source == "mdns"@
                &&& d.state == "device"@
                &&& d.ip.len() > 0
                &&& d.model.len() == 0
                &&& (d.ip, d.port) == serial_parts(d.serial)
            },
{
    let entries = lines(output).map_values(|l: Seq<char>| mdns_entry(l));
    assert forall|j: int| 0 <= j < mdns_devices(output).len() implies {
        let d = #[trigger] mdns_devices(output)[j];
        &&& d.source == "mdns"@
        &&& d.state == "device"@
        &&& d.ip.len() > 0
        &&& d.model.len() == 0
        &&& (d.ip, d.port) == serial_parts(d.serial)
    } by {
        lemma_somes_present(entries, j);
    }
}

/// The sweep pings each address once: the addresses of different host
/// numbers differ.
pub proof fn lemma_sweep_addresses_differ(prefix: Seq<char>, a: nat, b: nat)
    requires
        a != b,
    ensures
        prefix + decimal(a) != prefix + decimal(b),
{
    if prefix + decimal(a) == prefix + decimal(b) {
        assert((prefix + decimal(a)).skip(prefix.len() as int) == decimal(a));
        assert((prefix + decimal(b)).skip(prefix.len() as int) == decimal(b));
        lemma_decimal_injective(a, b);
    }
}

pub proof fn lemma_somes_concat<T>(x: Seq<Option<T>>, y: Seq<Option<T>>)
    ensures
        somes(x + y) == somes(x) + somes(y),
    decreases y.len(),
{
    if y.len() == 0 {
        assert(x + y == x);
        assert(somes(x) + somes(y) =~= somes(x));
    } else {
        lemma_somes_concat(x, y.drop_last());
        assert((x + y).drop_last() == x + y.drop_last());
        assert((x + y).last() == y.last());
        match y.last() {
            Some(v) => {
                assert(somes(x) + somes(y.drop_last()).push(v) =~= (somes(x) + somes(
                    y.drop_last(),
                )).push(v));
            },
            None => {},
        }
    }
}

pub proof fn lemma_somes_none<T>(x: Seq<Option<T>>)
    requires
        forall|i: int| 0 <= i < x.len() ==> (#[trigger] x[i]) is None,
    ensures
        somes(x).len() == 0,
    decreases x.len(),
{
    if x.len() > 0 {
        lemma_somes_none(x.drop_last());
    }
}

/// Each line of a listing is read on its own: a listing cut after a line
/// ending lists the devices of its first part, then those of the rest.
pub proof fn lemma_listing_reads_line_by_line(a: Seq<char>, b: Seq<char>)
    requires
        a.len() == 0 || a.last() == '\n',
    ensures
        adb_devices(a + b) == adb_devices(a) + adb_devices(b),
{
    lemma_lines_concat(a, b);
    let f = |l: Seq<char>| adb_entry(l);
    assert(lines(a + b).map_values(f) =~= lines(a).map_values(f) + lines(b).map_values(f));
    lemma_somes_concat(lines(a).map_values(f), lines(b).map_values(f));
}

/// A final line ending adds no record and changes none.
pub proof fn lemma_final_line_break_adds_nothing(a: Seq<char>)
    ensures
        adb_devices(a.push('\n')) == adb_devices(a),
{
    lemma_lines_push_newline(a);
    let f = |l: Seq<char>| adb_entry(l);
    let la = lines(a);
    let lb = lines(a.push('\n'));
    if split_on(a, '\n').last().len() == 0 {
        assert(adb_entry(Seq::<char>::empty()) is None) by {
            assert(trim(Seq::<char>::empty()) =~= Seq::<char>::empty());
        }
        assert(lb.map_values(f) =~= la.map_values(f).push(None));
        assert(lb.map_values(f).drop_last() == la.map_values(f));
    } else {
        let l = la.last();
        if l.len() > 0 && l.last() == '\r' {
            lemma_trim_drop_ws_last(l);
        }
        assert(adb_entry(strip_cr(l)) == adb_entry(l));
        assert(lb.map_values(f) =~= la.map_values(f));
    }
}

/// Notices, headers and blank lines can stand anywhere: lines that give no
/// device (such as `* daemon ...` notices or the header) put in front of a
/// listing change nothing.
pub proof fn lemma_skipped_lines_change_nothing(a: Seq<char>, b: Seq<char>)
    requires
        a.len() == 0 || a.last() == '\n',
        forall|i: int| 0 <= i < lines(a).len() ==> adb_entry(#[trigger] lines(a)[i]) is None,
    ensures
        adb_devices(a + b) == adb_devices(b),
{
    lemma_listing_reads_line_by_line(a, b);
    let f = |l: Seq<char>| adb_entry(l);
    lemma_somes_none(lines(a).map_values(f));
    assert(adb_devices(a) + adb_devices(b) =~= adb_devices(b));
}

/// A notice (a line starting with `*` once trimmed) or a header line gives
/// no device.
pub proof fn lemma_notices_give_no_device(line: Seq<char>)
    requires
        (trim(line).len() > 0 && trim(line)[0] == '*') || contains(
            trim(line),
            "List of devices attached"@,
        ),
    ensures
        adb_entry(line) is None,
{
}

/// The model `first_model` picks holds no underscore.
pub proof fn lemma_first_model_spaced(ws: Seq<Seq<char>>)
    ensures
        forall|k: int| 0 <= k < first_model(ws).len() ==> first_model(ws)[k] != '_',
    decreases ws.len(),
{
    if ws.len() > 0 && !has_prefix(ws[0], "model:"@) {
        lemma_first_model_spaced(ws.drop_first());
        assert(first_model(ws) == first_model(ws.drop_first()));
    } else if ws.len() > 0 {
        let x = ws[0].skip("model:"@.len() as int);
        assert(first_model(ws) == spaced(x));
        assert forall|k: int| 0 <= k < spaced(x).len() implies spaced(x)[k] != '_' by {
            assert(spaced(x)[k] == (if x[k] == '_' { ' ' } else { x[k] }));
        }
    }
}

/// Records that all came from adb pass the adb filter unchanged.
pub proof fn lemma_adb_sourced_keeps_all(ds: Seq<DeviceView>)
    requires
        forall|j: int| 0 <= j < ds.len() ==> (#[trigger] ds[j]).source == "adb"@,
    ensures
        adb_sourced(ds) == ds,
    decreases ds.len(),
{
    if ds.len() > 0 {
        lemma_adb_sourced_keeps_all(ds.drop_last());
        assert(ds.drop_last().push(ds.last()) =~= ds);
    }
}

/// Discovery keeps every device `adb devices -l` listed: the adb filter
/// drops none of them.
pub proof fn lemma_discovery_keeps_listed(output: Seq<char>)
    ensures
        adb_sourced(adb_devices(output)) == adb_devices(output),
{
    lemma_adb_records(output);
    lemma_adb_sourced_keeps_all(adb_devices(output));
}

pub proof fn lemma_merge_new_prefix(found: Seq<DeviceView>, candidates: Seq<DeviceView>)
    ensures
        merge_new(found, candidates).len() >= found.len(),
        merge_new(found, candidates).take(found.len() as int) == found,
    decreases candidates.len(),
{
    if candidates.len() > 0 {
        lemma_merge_new_prefix(found, candidates.drop_last());
        let m = merge_new(found, candidates.drop_last());
        assert(m.push(candidates.last()).take(found.len() as int) =~= m.take(found.len() as int));
    }
}

/// USB entries first: discovery starts with the adb entries, in order.
pub proof fn lemma_discovery_lists_adb_first(adb: Seq<DeviceView>, mdns: Seq<DeviceView>)
    ensures
        discovered(adb, mdns).len() >= adb_sourced(adb).len(),
        discovered(adb, mdns).take(adb_sourced(adb).len() as int) == adb_sourced(adb),
{
    lemma_merge_new_prefix(adb_sourced(adb), mdns);
}

pub proof fn lemma_merge_new_covers(found: Seq<DeviceView>, candidates: Seq<DeviceView>)
    ensures
        forall|i: int|
            0 <= i < candidates.len() ==> has_serial(
                merge_new(found, candidates),
                #[trigger] candidates[i].serial,
            ),
    decreases candidates.len(),
{
    if candidates.len() > 0 {
        let init = candidates.drop_last();
        lemma_merge_new_covers(found, init);
        let m = merge_new(found, init);
        let r = merge_new(found, candidates);
        assert forall|i: int| 0 <= i < candidates.len() implies has_serial(
            r,
            #[trigger] candidates[i].serial,
        ) by {
            if i < candidates.len() - 1 {
                assert(candidates[i] == init[i]);
                assert(has_serial(m, init[i].serial));
                let k = choose|k: int| 0 <= k < m.len() && m[k].serial == init[i].serial;
                if !has_serial(m, candidates.last().serial) {
                    assert(r[k] == m[k]);
                }
            } else if !has_serial(m, candidates.last().serial) {
                assert(r[r.len() - 1] == candidates.last());
            }
        }
    }
}

/// Every address mDNS advertised appears in what discovery reports.
pub proof fn lemma_discovery_covers_mdns(adb: Seq<DeviceView>, mdns: Seq<DeviceView>)
    ensures
        forall|i: int|
            0 <= i < mdns.len() ==> has_serial(discovered(adb, mdns), #[trigger] mdns[i].serial),
{
    lemma_merge_new_covers(adb_sourced(adb), mdns);
}

pub proof fn lemma_merge_new_distinct(found: Seq<DeviceView>, candidates: Seq<DeviceView>)
    ensures
        forall|i: int, j: int|
            0 <= i < j < merge_new(found, candidates).len() && j >= found.len() ==> (#[trigger] merge_new(
                found,
                candidates,
            )[i]).serial != (#[trigger] merge_new(found, candidates)[j]).serial,
    decreases candidates.len(),
{
    if candidates.len() > 0 {
        let init = candidates.drop_last();
        lemma_merge_new_distinct(found, init);
        lemma_merge_new_prefix(found, init);
        let m = merge_new(found, init);
        let r = merge_new(found, candidates);
        assert forall|i: int, j: int|
            0 <= i < j < r.len() && j >= found.len() implies (#[trigger] r[i]).serial != (
            #[trigger] r[j]).serial by {
            if !has_serial(m, candidates.last().serial) && j == r.len() - 1 {
                assert(r[i] == m[i]);
                assert(r[j] == candidates.last());
            } else if !has_serial(m, candidates.last().serial) {
                assert(r[i] == m[i]);
                assert(r[j] == m[j]);
            }
        }
    }
}

/// De-duplicated by address: no entry that discovery adds after the adb
/// entries repeats the address of any entry before it.
pub proof fn lemma_discovery_adds_no_duplicates(adb: Seq<DeviceView>, mdns: Seq<DeviceView>)
    ensures
        forall|i: int, j: int|
            0 <= i < j < discovered(adb, mdns).len() && j >= adb_sourced(adb).len() ==> (
            #[trigger] discovered(adb, mdns)[i]).serial != (#[trigger] discovered(
                adb,
                mdns,
            )[j]).serial,
{
    lemma_merge_new_distinct(adb_sourced(adb), mdns);
}

} // verus!
