//! The quick actions on a device: QR codes for wireless connection,
//! screenshots, the clipboard in both directions, file pushes and the
//! device summary, each judged from what adb answered.

use vstd::prelude::*;

use crate::devices::somes;
use crate::tools::RunResult;
use crate::text::{
    append_all, chars_of, decimal, decode_lossy, is_blank, join, push_decimal, text_result, texts, trim, last_index,
    trim_text, utf8_lossy,
};

verus! {

// ---------------------------------------------------------------- QR codes

/// What the `qrcode` crate renders for `text` as an SVG document with
/// modules sized to reach at least `size` pixels square, in the `dark` and
/// `light` colours, or the text of its error when the text does not fit in
/// a QR code.
pub uninterp spec fn qr_svg_document(text: Seq<char>, size: u32, dark: Seq<char>, light: Seq<char>) -> Result<
    Seq<char>,
    Seq<char>,
>;

/// Encodes `text` with `qrcode::QrCode::new` (its UTF-8 bytes, medium error
/// correction) and renders it with the crate's SVG renderer (`render`,
/// `min_dimensions`, `dark_color`, `light_color`, `build`); an encoding error
/// becomes its display text. Claimed: the outcome is `qr_svg_document` of
/// the arguments. Nothing is said of the document's content.
#[verifier::external_body]
fn render_qr_svg(text: &str, size: u32, dark: &str, light: &str) -> (r: Result<String, String>)
    requires
        size <= 0x7fff_ffff,
    ensures
        text_result(r) == qr_svg_document(text@, size, dark@, light@),
{
    match qrcode::QrCode::new(text.as_bytes()) {
        Ok(code) => Ok(
            code.render::<qrcode::render::svg::Color>().min_dimensions(size, size).dark_color(
                qrcode::render::svg::Color(dark),
            ).light_color(qrcode::render::svg::Color(light)).build(),
        ),
        Err(e) => Err(e.to_string()),
    }
}

/// Encode text as an SVG QR code the frontend can drop straight into the DOM:
/// at least 180 pixels square, dark modules `#0a0a1a` on white.
pub fn qr_svg(text: &str) -> (r: Result<String, String>)
    ensures
        text_result(r) == qr_svg_document(text@, 180, "#0a0a1a"@, "#ffffff"@),
{
    render_qr_svg(text, 180, "#0a0a1a", "#ffffff")
}

/// The QR code for connecting to a device: `adb connect <serial>`, or an
/// error when no device is selected.
pub fn qr_for(serial: &str) -> (r: Result<String, String>)
    ensures
        serial@.len() == 0 ==> text_result(r) == Err::<Seq<char>, Seq<char>>(
            "no device selected"@,
        ),
        serial@.len() > 0 ==> text_result(r) == qr_svg_document(
            "adb connect "@ + serial@,
            180,
            "#0a0a1a"@,
            "#ffffff"@,
        ),
{
    if serial.is_empty() {
        return Err(String::from_str("no device selected"));
    }
    let command = String::from_str("adb connect ").concat(serial);
    qr_svg(command.as_str())
}

// ---------------------------------------------------------------- screenshots

/// The outcome of a screen capture: the PNG bytes when `screencap` succeeded
/// and wrote some; the trimmed error text otherwise; and for a capture that
/// could not start, its error prefixed by `screencap failed: `.
pub open spec fn capture_outcome(captured: Result<(Vec<u8>, Vec<u8>, bool), String>) -> Result<
    Seq<u8>,
    Seq<char>,
> {
    match captured {
        Err(e) => Err("screencap failed: "@ + e@),
        Ok((out, err, ok)) => if !ok || out@.len() == 0 {
            Err(trim(utf8_lossy(err@)))
        } else {
            Ok(out@)
        },
    }
}

/// Judges a run of `adb exec-out screencap -p` from its captured output,
/// error and exit status; gives back the image to store.
pub fn capture_screen(captured: Result<(Vec<u8>, Vec<u8>, bool), String>) -> (r: Result<
    Vec<u8>,
    String,
>)
    ensures
        match (r, capture_outcome(captured)) {
            (Ok(png), Ok(want)) => png@ == want,
            (Err(e), Err(want)) => e@ == want,
            _ => false,
        },
{
    match captured {
        Err(e) => Err(String::from_str("screencap failed: ").concat(e.as_str())),
        Ok((out, err, ok)) => {
            if !ok || out.len() == 0 {
                let text = decode_lossy(err.as_slice());
                Err(trim_text(text.as_str()))
            } else {
                Ok(out)
            }
        },
    }
}

/// The file a screenshot taken at `stamp` (seconds since the epoch) is
/// stored in: `shot_<stamp>.png`.
pub fn screenshot_name(stamp: u64) -> (r: String)
    ensures
        r@ == "shot_"@ + decimal(stamp as nat) + ".png"@,
{
    let mut r = String::from_str("shot_");
    push_decimal(&mut r, stamp);
    r.append(".png");
    r
}

// ---------------------------------------------------------------- clipboard

/// The answer to reading the device clipboard: adb's output, unless the
/// run failed (its error text, or a fixed message when there is none) or
/// the clipboard holds only whitespace.
pub open spec fn clipboard_reply(ran: RunResult) -> Result<Seq<char>, Seq<char>> {
    match ran {
        Err(e) => Err(e@),
        Ok((out, err, ok)) => if !ok {
            if err@.len() == 0 {
                Err("could not read the device clipboard"@)
            } else {
                Err(err@)
            }
        } else if trim(out@).len() == 0 {
            Err("the device clipboard is empty"@)
        } else {
            Ok(out@)
        },
    }
}

/// Judges a run of `adb exec-out cmd clipboard get text`.
pub fn read_clipboard(ran: RunResult) -> (r: Result<String, String>)
    ensures
        text_result(r) == clipboard_reply(ran),
{
    match ran {
        Err(e) => Err(e),
        Ok((out, err, ok)) => {
            if !ok {
                if err.as_str().is_empty() {
                    Err(String::from_str("could not read the device clipboard"))
                } else {
                    Err(err)
                }
            } else if is_blank(out.as_str()) {
                Err(String::from_str("the device clipboard is empty"))
            } else {
                Ok(out)
            }
        },
    }
}

/// Where the clipboard text is pushed on the device.
pub open spec fn clipboard_remote() -> Seq<char> {
    "/sdcard/mirror_rust_clipboard.txt"@
}

/// The adb arguments that push the clipboard file `local` to the device.
pub open spec fn clipboard_push_args(serial: Seq<char>, local: Seq<char>) -> Seq<Seq<char>> {
    seq!["-s"@, serial, "push"@, local, clipboard_remote()]
}

/// The adb arguments that set the device clipboard from the pushed file,
/// letting the device's shell read it so no quoting reaches the text.
pub open spec fn clipboard_set_args(serial: Seq<char>) -> Seq<Seq<char>> {
    seq![
        "-s"@,
        serial,
        "shell"@,
        "cmd"@,
        "clipboard"@,
        "set"@,
        "text"@,
        "\"$(cat "@ + clipboard_remote() + ")\""@,
    ]
}

/// The adb arguments that push the clipboard file `local` to the device.
pub fn clipboard_push(serial: &str, local: &str) -> (r: Vec<String>)
    ensures
        texts(r@) == clipboard_push_args(serial@, local@),
{
    let mut r: Vec<String> = Vec::new();
    r.push(String::from_str("-s"));
    r.push(String::from_str(serial));
    r.push(String::from_str("push"));
    r.push(String::from_str(local));
    r.push(String::from_str("/sdcard/mirror_rust_clipboard.txt"));
    assert(texts(r@) =~= clipboard_push_args(serial@, local@));
    r
}

/// The stage of sending the PC clipboard that a run of adb finished.
#[derive(Debug)]
pub enum ClipboardStage {
    /// The clipboard file was pushed to the device.
    FilePushed,
    /// The device clipboard was set from it.
    TextSet,
}

/// What to do next while sending the clipboard.
#[derive(Debug)]
pub enum ClipboardAction {
    /// Run adb with these arguments.
    RunAdb(Vec<String>),
    /// Remove the local clipboard file; the text has been sent.
    CleanUp,
    /// Stop with this error.
    Fail(String),
}

/// The step after `stage`, given how its run went: a run that could not
/// start or that failed stops with its error; after the push the device
/// clipboard is set; after that the local file is removed.
pub open spec fn clipboard_next(stage: ClipboardStage, serial: Seq<char>, ran: RunResult) -> (
    Option<Seq<Seq<char>>>,
    Option<Seq<char>>,
) {
    match ran {
        Err(e) => (None, Some(e@)),
        Ok((_, err, ok)) => if !ok {
            (None, Some(err@))
        } else {
            match stage {
                ClipboardStage::FilePushed => (Some(clipboard_set_args(serial)), None),
                ClipboardStage::TextSet => (None, None),
            }
        },
    }
}

/// What an action amounts to: the arguments of an adb run, if any, and the
/// error it stops with, if any; clean-up is neither.
pub open spec fn action_view(a: ClipboardAction) -> (Option<Seq<Seq<char>>>, Option<Seq<char>>) {
    match a {
        ClipboardAction::RunAdb(args) => (Some(texts(args@)), None),
        ClipboardAction::CleanUp => (None, None),
        ClipboardAction::Fail(e) => (None, Some(e@)),
    }
}

/// Copy the PC clipboard onto the device using a file push, which avoids all
/// quoting problems with the usual `am broadcast` one-liner: the step that
/// follows a finished stage.
pub fn send_clipboard(stage: ClipboardStage, serial: &str, ran: RunResult) -> (r: ClipboardAction)
    ensures
        action_view(r) == clipboard_next(stage, serial@, ran),
        r is CleanUp <==> (ran matches Ok((_, _, true)) && stage is TextSet),
{
    match ran {
        Err(e) => ClipboardAction::Fail(e),
        Ok((_, err, ok)) => {
            if !ok {
                return ClipboardAction::Fail(err);
            }
            match stage {
                ClipboardStage::FilePushed => {
                    let mut r: Vec<String> = Vec::new();
                    r.push(String::from_str("-s"));
                    r.push(String::from_str(serial));
                    r.push(String::from_str("shell"));
                    r.push(String::from_str("cmd"));
                    r.push(String::from_str("clipboard"));
                    r.push(String::from_str("set"));
                    r.push(String::from_str("text"));
                    let quoted = String::from_str("\"$(cat ").concat(
                        "/sdcard/mirror_rust_clipboard.txt",
                    ).concat(")\"");
                    r.push(quoted);
                    assert(texts(r@) =~= clipboard_set_args(serial@));
                    ClipboardAction::RunAdb(r)
                },
                ClipboardStage::TextSet => ClipboardAction::CleanUp,
            }
        },
    }
}

// ---------------------------------------------------------------- file push

/// Where a pushed file lands on the device: `/sdcard/Download/` and its
/// name, `file` when the path names none.
pub open spec fn download_path(name: Option<Seq<char>>) -> Seq<char> {
    "/sdcard/Download/"@ + match name {
        Some(n) => n,
        None => "file"@,
    }
}

/// Where a file with this name (if it has one) lands on the device.
pub fn download_target(name: Option<String>) -> (r: String)
    ensures
        r@ == download_path(
            match name {
                Some(n) => Some(n@),
                None => None,
            },
        ),
{
    let base = String::from_str("/sdcard/Download/");
    match name {
        Some(n) => base.concat(n.as_str()),
        None => base.concat("file"),
    }
}

/// A path that is a bare name on every platform: not empty, not `.` or
/// `..`, and with no `/`, `\` or `:` in it.
pub open spec fn bare_name(path: Seq<char>) -> bool {
    &&& path.len() > 0
    &&& path != seq!['.']
    &&& path != seq!['.', '.']
    &&& forall|i: int| 0 <= i < path.len() ==> path[i] != '/' && path[i] != '\\' && path[i] != ':'
}

/// A path separator on some platform: `/` everywhere, `\` on Windows.
pub open spec fn is_separator(c: char) -> bool {
    c == '/' || c == '\\'
}

/// A path whose last component is a plain name on every platform: not
/// empty, not starting with two separators (a Windows network or device
/// prefix), and not ending in a separator, a `.` (so not `.` or `..`) or a
/// `:` (so not a bare Windows drive).
pub open spec fn ordinary_path(path: Seq<char>) -> bool {
    &&& path.len() > 0
    &&& !is_separator(path.last())
    &&& path.last() != '.'
    &&& path.last() != ':'
    &&& !(path.len() >= 2 && is_separator(path[0]) && is_separator(path[1]))
}

/// `suffix` ends `s`.
pub open spec fn ends_with(s: Seq<char>, suffix: Seq<char>) -> bool {
    suffix.len() <= s.len() && s.skip(s.len() - suffix.len()) == suffix
}

/// What follows the last `/` of a path (all of it when there is none).
pub open spec fn after_last_slash(path: Seq<char>) -> Seq<char> {
    path.skip(last_index(path, '/') + 1)
}

/// A path such as `/home/me/photo.jpg`: directories joined by `/` (none
/// holding a `\` or a `:`) and a bare name after the last `/`, not starting
/// with `//`. Every platform reads its last component as that name.
pub open spec fn slash_path(path: Seq<char>) -> bool {
    let k = last_index(path, '/');
    &&& k >= 0
    &&& bare_name(after_last_slash(path))
    &&& forall|i: int| 0 <= i < k ==> path[i] != '\\' && path[i] != ':'
    &&& !(path.len() >= 2 && path[0] == '/' && path[1] == '/')
}

/// `Path::file_name` of a path, made into text (`OsStr::to_string_lossy`,
/// lossless on a path that came from a `str`). Claimed, from the
/// documentation (the final component of the path, if there is one) and for
/// both Unix and Windows path syntax: a name it gives is never empty; an
/// ordinary path has a name, which ends the path and holds no `/`; a path of
/// `/`-separated directories and a bare name has that name; a bare name is
/// its own file name. What it gives for other paths (those with `\`
/// separators or drive prefixes, say) is left unsaid: it differs between
/// platforms.
#[verifier::external_body]
fn file_name_of(path: &str) -> (r: Option<String>)
    ensures
        r is Some ==> r->0@.len() > 0,
        ordinary_path(path@) ==> r is Some && ends_with(path@, r->0@) && forall|i: int|
            0 <= i < r->0@.len() ==> r->0@[i] != '/',
        slash_path(path@) ==> r is Some && r->0@ == after_last_slash(path@),
        bare_name(path@) ==> r is Some && r->0@ == path@,
{
    match std::path::Path::new(path).file_name() {
        Some(n) => Some(n.to_string_lossy().into_owned()),
        None => None,
    }
}

/// Where the file at `path` lands on the device: its name in
/// `/sdcard/Download/` (`file` when the path names none). An ordinary path
/// lands under a non-empty name that ends the path and holds no `/`; a path
/// such as `/home/me/photo.jpg` lands under the name after its last `/`; a
/// bare file name lands under itself.
pub fn push_target(path: &str) -> (r: String)
    ensures
        exists|name: Option<Seq<char>>|
            r@ == download_path(name) && (name matches Some(n) ==> n.len() > 0),
        ordinary_path(path@) ==> exists|n: Seq<char>|
            {
                &&& n.len() > 0
                &&& ends_with(path@, n)
                &&& forall|i: int| 0 <= i < n.len() ==> n[i] != '/'
                &&& r@ == "/sdcard/Download/"@ + n
            },
        slash_path(path@) ==> r@ == "/sdcard/Download/"@ + after_last_slash(path@),
        bare_name(path@) ==> r@ == "/sdcard/Download/"@ + path@,
{
    let name = file_name_of(path);
    let ghost seen = match &name {
        Some(n) => Some(n@),
        None => None,
    };
    let r = download_target(name);
    assert(r@ == download_path(seen));
    proof {
        if ordinary_path(path@) {
            let n = seen->0;
            assert(r@ == "/sdcard/Download/"@ + n);
        }
    }
    r
}

/// The answer to a file push: the device path on success; otherwise adb's
/// error text, or its output when the error is empty.
pub open spec fn push_reply(target: Seq<char>, ran: RunResult) -> Result<Seq<char>, Seq<char>> {
    match ran {
        Err(e) => Err(e@),
        Ok((out, err, ok)) => if ok {
            Ok(target)
        } else if err@.len() == 0 {
            Err(out@)
        } else {
            Err(err@)
        },
    }
}

/// Judges a run of `adb push` that sent a file to `target`.
pub fn push_file(target: String, ran: RunResult) -> (r: Result<String, String>)
    ensures
        text_result(r) == push_reply(target@, ran),
{
    match ran {
        Err(e) => Err(e),
        Ok((out, err, ok)) => if ok {
            Ok(target)
        } else if err.as_str().is_empty() {
            Err(out)
        } else {
            Err(err)
        },
    }
}

// ---------------------------------------------------------------- device info

/// The properties the device summary reads, in order.
pub open spec fn device_prop_names() -> Seq<Seq<char>> {
    seq![
        "ro.product.manufacturer"@,
        "ro.product.model"@,
        "ro.build.version.release"@,
        "ro.build.version.sdk"@,
    ]
}

/// The properties the device summary reads, in order: manufacturer, model,
/// Android release and SDK level.
pub fn device_props() -> (r: [&'static str; 4])
    ensures
        r@.map_values(|p: &'static str| p@) == device_prop_names(),
{
    let r = [
        "ro.product.manufacturer",
        "ro.product.model",
        "ro.build.version.release",
        "ro.build.version.sdk",
    ];
    assert(r@.map_values(|p: &'static str| p@) =~= device_prop_names());
    r
}

/// The part of the summary one `getprop` run gives: its trimmed output,
/// when the run succeeded and the output is not blank.
pub open spec fn prop_part(ran: RunResult) -> Option<Seq<char>> {
    match ran {
        Ok((out, _, true)) => if trim(out@).len() > 0 {
            Some(trim(out@))
        } else {
            None
        },
        _ => None,
    }
}

/// The device summary: the parts joined by ` · `, or an error when no run
/// gave one.
pub open spec fn info_summary(replies: Seq<RunResult>) -> Result<Seq<char>, Seq<char>> {
    let parts = somes(replies.map_values(|r: RunResult| prop_part(r)));
    if parts.len() == 0 {
        Err("no device info returned"@)
    } else {
        Ok(join(parts, " · "@))
    }
}

/// The device summary from the `getprop` runs of [`device_props`], in order.
pub fn device_info(replies: &Vec<RunResult>) -> (r: Result<String, String>)
    ensures
        text_result(r) == info_summary(replies@),
{
    let ghost marks = replies@.map_values(|r: RunResult| prop_part(r));
    let mut parts: Vec<String> = Vec::new();
    let n = replies.len();
    for i in 0..n
        invariant
            n == replies@.len(),
            marks == replies@.map_values(|r: RunResult| prop_part(r)),
            texts(parts@) == somes(marks.take(i as int)),
    {
        assert(marks.take(i + 1).drop_last() == marks.take(i as int));
        match &replies[i] {
            Ok((out, _, true)) => {
                if !is_blank(out.as_str()) {
                    parts.push(trim_text(out.as_str()));
                }
            },
            _ => {},
        }
        assert(texts(parts@) =~= somes(marks.take(i + 1)));
    }
    assert(marks.take(n as int) == marks);
    if parts.len() == 0 {
        return Err(String::from_str("no device info returned"));
    }
    let sep = chars_of(" · ");
    let mut joined: Vec<char> = Vec::new();
    let m = parts.len();
    for i in 0..m
        invariant
            m == parts@.len() > 0,
            sep@ == " · "@,
            joined@ == join(texts(parts@).take(i as int), sep@),
    {
        let ghost pre = texts(parts@).take(i as int);
        let ghost post = texts(parts@).take(i + 1);
        assert(post.drop_last() == pre);
        if i > 0 {
            append_all(&mut joined, sep.as_slice());
        }
        let piece = chars_of(parts[i].as_str());
        append_all(&mut joined, piece.as_slice());
    }
    assert(texts(parts@).take(m as int) == texts(parts@));
    Ok(crate::text::string_of(joined.as_slice()))
}


// ---------------------------------------------------------------- laws

/// Reading the clipboard never hands back blank text.
pub proof fn lemma_clipboard_text_not_blank(ran: RunResult)
    ensures
        clipboard_reply(ran) matches Ok(t) ==> trim(t).len() > 0,
{
}

/// Reading the clipboard succeeds exactly when the run succeeded with text
/// that is not blank, and then gives that text unchanged.
pub proof fn lemma_clipboard_read_succeeds_on_text(ran: RunResult)
    ensures
        clipboard_reply(ran) is Ok <==> (ran matches Ok((out, _, true)) && trim(out@).len() > 0),
        clipboard_reply(ran) matches Ok(t) ==> (ran matches Ok((out, _, _)) && t == out@),
{
}

/// A screen capture gives an image exactly when `screencap` succeeded and
/// wrote some bytes, and the image is those bytes unchanged.
pub proof fn lemma_capture_keeps_the_image(captured: Result<(Vec<u8>, Vec<u8>, bool), String>)
    ensures
        capture_outcome(captured) is Ok <==> (captured matches Ok((out, _, true)) && out@.len()
            > 0),
        capture_outcome(captured) matches Ok(png) ==> (captured matches Ok((out, _, _)) && png
            == out@),
{
}

/// A file push succeeds exactly when adb's run succeeded, and then answers
/// with the device path the file was sent to.
pub proof fn lemma_push_answers_the_target(target: Seq<char>, ran: RunResult)
    ensures
        push_reply(target, ran) is Ok <==> (ran matches Ok((_, _, true))),
        push_reply(target, ran) matches Ok(t) ==> t == target,
{
}

/// The device summary fails exactly when no `getprop` run succeeded with
/// text that is not blank.
pub proof fn lemma_summary_needs_a_property(replies: Seq<RunResult>)
    ensures
        info_summary(replies) is Err <==> forall|i: int|
            0 <= i < replies.len() ==> !(#[trigger] replies[i] matches Ok((out, _, true)) && trim(
                out@,
            ).len() > 0),
{
    let marks = replies.map_values(|r: RunResult| prop_part(r));
    if exists|i: int|
        0 <= i < replies.len() && (#[trigger] replies[i] matches Ok((out, _, true)) && trim(
            out@,
        ).len() > 0) {
        let i = choose|i: int|
            0 <= i < replies.len() && (#[trigger] replies[i] matches Ok((out, _, true)) && trim(
                out@,
            ).len() > 0);
        assert(marks[i] is Some);
        lemma_somes_has_some(marks, i);
    } else {
        assert forall|i: int| 0 <= i < marks.len() implies (#[trigger] marks[i]) is None by {
            assert(marks[i] == prop_part(replies[i]));
        }
        crate::devices::lemma_somes_none(marks);
    }
}

/// A sequence with a present value keeps at least one.
pub proof fn lemma_somes_has_some<T>(s: Seq<Option<T>>, i: int)
    requires
        0 <= i < s.len(),
        s[i] is Some,
    ensures
        somes(s).len() > 0,
    decreases s.len(),
{
    if i < s.len() - 1 {
        assert(s.drop_last()[i] == s[i]);
        lemma_somes_has_some(s.drop_last(), i);
    }
}

/// Sending the clipboard removes the local file only once both the push and
/// the clipboard update have succeeded; any failed or unstartable run stops
/// the send with that run's error.
pub proof fn lemma_clipboard_send_order(stage: ClipboardStage, serial: Seq<char>, ran: RunResult)
    ensures
        clipboard_next(stage, serial, ran).1 is Some <==> !(ran matches Ok((_, _, true))),
        (clipboard_next(stage, serial, ran).0 is Some) <==> (ran matches Ok((_, _, true))
            && stage is FilePushed),
{
}

} // verus!
