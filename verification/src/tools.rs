//! What the library decides about the bundled adb and scrcpy tools: the
//! name of the executable, which of the places it may sit in wins, and what
//! a finished run of a tool hands back.

use vstd::prelude::*;

use crate::text::{decode_lossy, trim, trim_text, utf8_lossy};

verus! {

/// The outcome of a tool run: an error text when the tool could not be
/// started, else standard output, standard error and whether it succeeded.
pub type RunResult = Result<(String, String, bool), String>;


/// The captured output of a finished tool run, as callers see it: standard
/// output and standard error decoded (invalid UTF-8 replaced) and trimmed,
/// and whether the process exited successfully.
pub fn run(stdout: &[u8], stderr: &[u8], success: bool) -> (r: (String, String, bool))
    ensures
        r.0@ == trim(utf8_lossy(stdout@)),
        r.1@ == trim(utf8_lossy(stderr@)),
        r.2 == success,
{
    let out = decode_lossy(stdout);
    let err = decode_lossy(stderr);
    (trim_text(out.as_str()), trim_text(err.as_str()), success)
}

/// The file name of a tool: `name.exe` on Windows, `name` elsewhere.
pub open spec fn exe_name_of(name: Seq<char>, windows: bool) -> Seq<char> {
    if windows {
        name + ".exe"@
    } else {
        name
    }
}

/// The file name of a tool: `name.exe` on Windows, `name` elsewhere.
pub fn exe_name(name: &str, windows: bool) -> (r: String)
    ensures
        r@ == exe_name_of(name@, windows),
{
    let base = String::from_str(name);
    if windows {
        base.concat(".exe")
    } else {
        base
    }
}

/// Where a tool was found.
#[derive(Debug)]
pub enum ToolLocation {
    /// The candidate in the resource directory with this index: the
    /// executable name, then `resources/` and the executable name, then the
    /// bare tool name.
    Resource(usize),
    /// The neighbouring development checkout.
    Development,
    /// Nowhere: the bare executable name, left to the system's search path.
    OnPath,
}

/// Index of the first `true`, or -1.
pub open spec fn first_hit(hits: Seq<bool>) -> int
    decreases hits.len(),
{
    if hits.len() == 0 {
        -1
    } else if hits[0] {
        0
    } else {
        let rest = first_hit(hits.drop_first());
        if rest < 0 {
            -1
        } else {
            rest + 1
        }
    }
}

/// The place a tool is taken from: the first resource candidate that exists,
/// else the development checkout if the tool is there, else the search path.
pub open spec fn tool_choice(resource_hits: Seq<bool>, dev_exists: bool) -> ToolLocation {
    let k = first_hit(resource_hits);
    if k >= 0 {
        ToolLocation::Resource(k as usize)
    } else if dev_exists {
        ToolLocation::Development
    } else {
        ToolLocation::OnPath
    }
}

/// Picks where a tool is taken from, given which resource candidates exist
/// (in the order the resource directory is searched; none when there is no
/// resource directory) and whether the development copy exists.
pub fn choose_tool(resource_hits: &[bool], dev_exists: bool) -> (r: ToolLocation)
    ensures
        r == tool_choice(resource_hits@, dev_exists),
{
    let n = resource_hits.len();
    let mut i: usize = 0;
    assert(resource_hits@.skip(0) == resource_hits@);
    while i < n
        invariant
            i <= n == resource_hits@.len(),
            forall|j: int| 0 <= j < i ==> !resource_hits@[j],
            first_hit(resource_hits@) == (if first_hit(resource_hits@.skip(i as int)) < 0 {
                -1
            } else {
                first_hit(resource_hits@.skip(i as int)) + i
            }),
        decreases n - i,
    {
        if resource_hits[i] {
            return ToolLocation::Resource(i);
        }
        assert(resource_hits@.skip(i as int).drop_first() == resource_hits@.skip(i + 1));
        i += 1;
    }
    if dev_exists {
        ToolLocation::Development
    } else {
        ToolLocation::OnPath
    }
}


// ---------------------------------------------------------------- laws

pub proof fn lemma_first_hit(hits: Seq<bool>)
    ensures
        -1 <= first_hit(hits) < hits.len(),
        first_hit(hits) >= 0 ==> hits[first_hit(hits)],
        forall|j: int|
            0 <= j < hits.len() && (first_hit(hits) < 0 || j < first_hit(hits)) ==> !#[trigger] hits[j],
    decreases hits.len(),
{
    if hits.len() > 0 && !hits[0] {
        lemma_first_hit(hits.drop_first());
        assert forall|j: int|
            0 <= j < hits.len() && (first_hit(hits) < 0 || j < first_hit(hits)) implies !#[trigger] hits[j] by {
            if j > 0 {
                assert(hits[j] == hits.drop_first()[j - 1]);
            }
        }
    }
}

/// A tool is taken from the first place it exists in, searched in order:
/// the resource candidates, then the development copy, then the search path.
pub proof fn lemma_tool_search_order(resource_hits: Seq<bool>, dev_exists: bool)
    requires
        resource_hits.len() <= usize::MAX,
    ensures
        match tool_choice(resource_hits, dev_exists) {
            ToolLocation::Resource(k) => k < resource_hits.len() && resource_hits[k as int]
                && forall|j: int| 0 <= j < k ==> !#[trigger] resource_hits[j],
            ToolLocation::Development => dev_exists && forall|j: int|
                0 <= j < resource_hits.len() ==> !#[trigger] resource_hits[j],
            ToolLocation::OnPath => !dev_exists && forall|j: int|
                0 <= j < resource_hits.len() ==> !#[trigger] resource_hits[j],
        },
{
    lemma_first_hit(resource_hits);
}

} // verus!
