//! GPU/compositor detection and render-mode policy for Linux.
//!
//! WebKitGTK has several rendering paths, some of which crash or show
//! blank screens on specific combinations of Wayland compositor, GPU
//! vendor, and driver version. The policy:
//!
//!   1. If the user has an explicit override (env var or config file),
//!      honour that.
//!   2. Else, if a crash-recovery marker is present from a previous
//!      launch, the previous attempt failed mid-init: use the safe
//!      mode this time.
//!   3. Else, from the GPU vendor and the display server, apply the
//!      lightest workaround that is known to work on that combination.

use std::path::{Path, PathBuf};
use vstd::prelude::*;
use vstd::utf8::is_ascii_chars;
use crate::text::{
    ascii_lower, begins, begins_with, drop_ends, find, is_blank, is_trimmed, law_begins_ends,
    law_find, law_trim_keeps_middle, lemma_find_at, lemma_find_bounds, lowered, position, slice,
    str_view, strip, to_chars, to_lower, to_text, trim, trimmed, CharClass,
};

verus! {

/// GPU vendor identified from sysfs's `device/vendor` hex code.
#[derive(Debug, Clone, Copy, PartialEq, Eq, Structural)]
pub enum GpuVendor {
    Nvidia,
    Amd,
    Intel,
    Unknown,
}

/// Display server, derived from environment variables.
#[derive(Debug, Clone, Copy, PartialEq, Eq, Structural)]
pub enum DisplayServer {
    Wayland,
    X11,
    Unknown,
}

/// Rendering policy: what env vars (if any) the binary should set to make
/// WebKit happy on the current system.
#[derive(Debug, Clone, Copy, PartialEq, Eq, Structural)]
pub enum RenderMode {
    /// No env vars set. WebKit picks its own defaults. The right choice on
    /// X11 and on Wayland setups that aren't known to have issues.
    Native,
    /// `WEBKIT_DISABLE_DMABUF_RENDERER=1`: disables the DMA-BUF renderer
    /// but keeps the older SHM path, which still uses GPU compositing.
    /// Light touch; default for Wayland + AMD/Intel.
    DmabufOff,
    /// DmabufOff + `__NV_DISABLE_EXPLICIT_SYNC=1`: lets the explicit-sync
    /// path fall back to the older implicit-sync code. Light touch for
    /// NVIDIA on Wayland; doesn't disable GPU.
    NvidiaLight,
    /// `WEBKIT_DISABLE_DMABUF_RENDERER=1` +
    /// `WEBKIT_DISABLE_COMPOSITING_MODE=1`: full CPU rendering. Slow but
    /// reliable on systems where even the SHM path can't initialise EGL.
    /// Triggered by crash-recovery (last launch failed) or by explicit
    /// user opt-in.
    Safe,
}

/// What the user (or crash recovery) said about which mode to use.
#[derive(Debug, Clone, Copy, PartialEq, Eq, Structural)]
pub enum ModeOverride {
    Auto,
    Explicit(RenderMode),
}

// ---------- modes ----------

/// The (name, value) pairs that a mode requires in the environment.
pub open spec fn mode_env_vars(mode: RenderMode) -> Seq<(&'static str, &'static str)> {
    match mode {
        RenderMode::Native => Seq::empty(),
        RenderMode::DmabufOff => seq![("WEBKIT_DISABLE_DMABUF_RENDERER", "1")],
        RenderMode::NvidiaLight => seq![
            ("WEBKIT_DISABLE_DMABUF_RENDERER", "1"),
            ("__NV_DISABLE_EXPLICIT_SYNC", "1"),
        ],
        RenderMode::Safe => seq![
            ("WEBKIT_DISABLE_DMABUF_RENDERER", "1"),
            ("WEBKIT_DISABLE_COMPOSITING_MODE", "1"),
        ],
    }
}

/// The slug of a mode.
pub open spec fn mode_slug(mode: RenderMode) -> Seq<char> {
    match mode {
        RenderMode::Native => "native"@,
        RenderMode::DmabufOff => "dmabuf-off"@,
        RenderMode::NvidiaLight => "nvidia-light"@,
        RenderMode::Safe => "safe"@,
    }
}

impl RenderMode {
    /// The (env-var-name, value) pairs this mode requires. Caller sets
    /// them if they're not already set in the process environment.
    pub fn env_vars(self) -> (r: &'static [(&'static str, &'static str)])
        ensures
            r@ == mode_env_vars(self),
    {
        match self {
            RenderMode::Native => &[],
            RenderMode::DmabufOff => &[("WEBKIT_DISABLE_DMABUF_RENDERER", "1")],
            RenderMode::NvidiaLight => &[
                ("WEBKIT_DISABLE_DMABUF_RENDERER", "1"),
                ("__NV_DISABLE_EXPLICIT_SYNC", "1"),
            ],
            RenderMode::Safe => &[
                ("WEBKIT_DISABLE_DMABUF_RENDERER", "1"),
                ("WEBKIT_DISABLE_COMPOSITING_MODE", "1"),
            ],
        }
    }

    /// Short slug used in logs + the config file. Parser accepts this
    /// verbatim so users can drop it in `FRANK_SCANLATION_RENDER_MODE=...`.
    pub fn slug(self) -> (r: &'static str)
        ensures
            r@ == mode_slug(self),
    {
        match self {
            RenderMode::Native => "native",
            RenderMode::DmabufOff => "dmabuf-off",
            RenderMode::NvidiaLight => "nvidia-light",
            RenderMode::Safe => "safe",
        }
    }
}

/// The override that a lowercase text without white space at its ends
/// names.
pub open spec fn override_of_slug(slug: Seq<char>) -> Option<ModeOverride> {
    if slug == "auto"@ {
        Some(ModeOverride::Auto)
    } else if slug == mode_slug(RenderMode::Native) {
        Some(ModeOverride::Explicit(RenderMode::Native))
    } else if slug == mode_slug(RenderMode::DmabufOff) {
        Some(ModeOverride::Explicit(RenderMode::DmabufOff))
    } else if slug == mode_slug(RenderMode::NvidiaLight) {
        Some(ModeOverride::Explicit(RenderMode::NvidiaLight))
    } else if slug == mode_slug(RenderMode::Safe) {
        Some(ModeOverride::Explicit(RenderMode::Safe))
    } else {
        None
    }
}

/// The override that a text names.
pub open spec fn override_of(s: Seq<char>) -> Option<ModeOverride> {
    override_of_slug(lowered(trim(s)))
}

/// Maps a lowercase slug back to a RenderMode, plus the special "auto"
/// sentinel.
pub fn mode_override_of_slug(slug: &str) -> (r: Option<ModeOverride>)
    ensures
        r == override_of_slug(slug@),
{
    if slug.eq("auto") {
        Some(ModeOverride::Auto)
    } else if slug.eq("native") {
        Some(ModeOverride::Explicit(RenderMode::Native))
    } else if slug.eq("dmabuf-off") {
        Some(ModeOverride::Explicit(RenderMode::DmabufOff))
    } else if slug.eq("nvidia-light") {
        Some(ModeOverride::Explicit(RenderMode::NvidiaLight))
    } else if slug.eq("safe") {
        Some(ModeOverride::Explicit(RenderMode::Safe))
    } else {
        None
    }
}

/// Map the lowercase user-supplied slug back to a RenderMode, plus the
/// special "auto" sentinel which means "use the detection result."
pub fn parse_mode_override(s: &str) -> (r: Option<ModeOverride>)
    ensures
        r == override_of(s@),
{
    let text = to_text(&trimmed(&to_chars(s)));
    let slug = to_lower(text.as_str());
    mode_override_of_slug(slug.as_str())
}

// ---------- the GPU vendor ----------

/// `s` without the `0x` prefixes.
pub open spec fn without_hex_prefix(s: Seq<char>) -> Seq<char>
    decreases s.len(),
{
    if s.len() >= 2 && begins(s, "0x"@) {
        without_hex_prefix(s.skip(2))
    } else {
        s
    }
}

/// The vendor with the given lowercase PCI id.
pub open spec fn vendor_of_id(id: Seq<char>) -> GpuVendor {
    let digits = without_hex_prefix(id);
    if digits == "10de"@ {
        GpuVendor::Nvidia
    } else if digits == "1002"@ {
        GpuVendor::Amd
    } else if digits == "8086"@ {
        GpuVendor::Intel
    } else {
        GpuVendor::Unknown
    }
}

/// The vendor that the content of a "vendor" file names.
pub open spec fn vendor_of(s: Seq<char>) -> GpuVendor {
    vendor_of_id(lowered(trim(s)))
}

/// Looks up a lowercase PCI vendor id.
pub fn vendor_from_id(id: &str) -> (r: GpuVendor)
    ensures
        r == vendor_of_id(id@),
{
    proof {
        reveal_strlit("0x");
    }
    let mut digits = to_chars(id);
    while digits.len() >= 2 && begins_with(&digits, "0x")
        invariant
            without_hex_prefix(id@) == without_hex_prefix(digits@),
        decreases digits@.len(),
    {
        let rest = slice(&digits, 2, digits.len());
        assert(rest@ =~= digits@.skip(2));
        digits = rest;
    }
    let text = to_text(&digits);
    let cleaned = text.as_str();
    if cleaned.eq("10de") {
        GpuVendor::Nvidia
    } else if cleaned.eq("1002") {
        GpuVendor::Amd
    } else if cleaned.eq("8086") {
        GpuVendor::Intel
    } else {
        GpuVendor::Unknown
    }
}

/// Parse the "vendor" file under /sys/class/drm/cardN/device/vendor.
/// File content is a hex PCI vendor id (e.g. "0x10de\n" for NVIDIA).
pub fn parse_vendor_hex(s: &str) -> (r: GpuVendor)
    ensures
        r == vendor_of(s@),
{
    // Lowercase first so case-variant prefixes ("0X") strip correctly.
    let text = to_text(&trimmed(&to_chars(s)));
    let id = to_lower(text.as_str());
    vendor_from_id(id.as_str())
}

/// Whether a directory entry of sysfs is a graphics card, not one of its
/// connectors.
pub open spec fn card_entry(name: Seq<char>) -> bool {
    begins(name, "card"@) && find(name, "-"@) is None
}

/// Decides whether a directory entry of sysfs is a graphics card.
pub fn is_card_entry(name: &str) -> (r: bool)
    ensures
        r == card_entry(name@),
{
    let chars = to_chars(name);
    begins_with(&chars, "card") && position(&chars, "-").is_none()
}

/// A directory entry of sysfs: its name, and the content of its vendor file
/// where that is readable.
#[derive(Debug, PartialEq, Eq)]
pub struct DrmEntry {
    pub name: String,
    pub vendor: Option<String>,
}

/// The vendor of an entry, `Unknown` where it is no card or its vendor file
/// is not readable.
pub open spec fn entry_vendor(e: DrmEntry) -> GpuVendor {
    if card_entry(e.name@) {
        match e.vendor {
            Some(v) => vendor_of(v@),
            None => GpuVendor::Unknown,
        }
    } else {
        GpuVendor::Unknown
    }
}

/// The first recognised vendor among the entries.
pub open spec fn first_vendor(entries: Seq<DrmEntry>) -> GpuVendor
    decreases entries.len(),
{
    if entries.len() == 0 {
        GpuVendor::Unknown
    } else if entry_vendor(entries[0]) != GpuVendor::Unknown {
        entry_vendor(entries[0])
    } else {
        first_vendor(entries.drop_first())
    }
}

/// The GPU vendor from the entries of `/sys/class/drm`: that of the first
/// card whose `device/vendor` is a recognised vendor id. Falls back to
/// `Unknown` when nothing is readable.
pub fn gpu_vendor_from_entries(entries: &Vec<DrmEntry>) -> (r: GpuVendor)
    ensures
        r == first_vendor(entries@),
{
    let mut i: usize = 0;
    assert(entries@.skip(0) =~= entries@);
    while i < entries.len()
        invariant
            i <= entries@.len(),
            first_vendor(entries@) == first_vendor(entries@.skip(i as int)),
        decreases entries@.len() - i,
    {
        assert(entries@.skip(i as int).drop_first() =~= entries@.skip(i + 1));
        if is_card_entry(entries[i].name.as_str()) {
            if let Some(content) = &entries[i].vendor {
                let v = parse_vendor_hex(content.as_str());
                if v != GpuVendor::Unknown {
                    return v;
                }
            }
        }
        i = i + 1;
    }
    GpuVendor::Unknown
}

/// The display server, given which variables are set: `WAYLAND_DISPLAY`
/// means Wayland; else `DISPLAY` means X11; else Unknown.
pub fn display_server_from_env(wayland_display: bool, display: bool) -> (r: DisplayServer)
    ensures
        wayland_display ==> r == DisplayServer::Wayland,
        !wayland_display && display ==> r == DisplayServer::X11,
        !wayland_display && !display ==> r == DisplayServer::Unknown,
{
    if wayland_display {
        DisplayServer::Wayland
    } else if display {
        DisplayServer::X11
    } else {
        DisplayServer::Unknown
    }
}

// ---------- the decision ----------

/// The mode and the reason for it.
pub open spec fn decision(
    explicit_override: Option<RenderMode>,
    recovery_needed: bool,
    display: DisplayServer,
    gpu: GpuVendor,
) -> (RenderMode, Seq<char>) {
    match explicit_override {
        Some(m) => (m, "explicit user override"@),
        None => if recovery_needed {
            (RenderMode::Safe, "previous launch did not signal app-ready (crash recovery)"@)
        } else {
            match (display, gpu) {
                (DisplayServer::X11, _) => (
                    RenderMode::Native,
                    "X11 session: WebKit defaults work reliably"@,
                ),
                (DisplayServer::Wayland, GpuVendor::Nvidia) => (
                    RenderMode::NvidiaLight,
                    "NVIDIA on Wayland: disable DMA-BUF + explicit sync, keep GPU compositing"@,
                ),
                (DisplayServer::Wayland, GpuVendor::Unknown) => (
                    RenderMode::DmabufOff,
                    "Wayland with unknown GPU vendor: conservative DMA-BUF disable"@,
                ),
                (DisplayServer::Wayland, _) => (
                    RenderMode::DmabufOff,
                    "AMD/Intel on Wayland: disable DMA-BUF, keep SHM-based GPU compositing"@,
                ),
                (DisplayServer::Unknown, _) => (
                    RenderMode::Native,
                    "no display server detected"@,
                ),
            }
        },
    }
}

/// Decide which RenderMode to apply given the detected environment.
///
/// Precedence (highest first):
///   1. explicit override (env or config): honour it verbatim
///   2. recovery (last run died): fall back to Safe
///   3. auto: based on (display server, GPU vendor)
pub fn decide_mode(
    explicit_override: Option<RenderMode>,
    recovery_needed: bool,
    display: DisplayServer,
    gpu: GpuVendor,
) -> (r: (RenderMode, &'static str))
    ensures
        (r.0, r.1@) == decision(explicit_override, recovery_needed, display, gpu),
{
    if let Some(m) = explicit_override {
        return (m, "explicit user override");
    }
    if recovery_needed {
        return (
            RenderMode::Safe,
            "previous launch did not signal app-ready (crash recovery)",
        );
    }
    match (display, gpu) {
        // X11 is rarely affected by the EGL crashes; trust upstream
        // defaults.
        (DisplayServer::X11, _) => (
            RenderMode::Native,
            "X11 session: WebKit defaults work reliably",
        ),
        // Wayland + NVIDIA: notoriously flaky on the DMABUF + explicit-
        // sync path. Lighter touch keeps the GPU on but avoids both.
        (DisplayServer::Wayland, GpuVendor::Nvidia) => (
            RenderMode::NvidiaLight,
            "NVIDIA on Wayland: disable DMA-BUF + explicit sync, keep GPU compositing",
        ),
        // Wayland + unknown vendor: conservative, disable DMABUF, keep
        // the rest. Users on broken setups will fall through to Safe
        // mode automatically on the next launch via crash recovery.
        (DisplayServer::Wayland, GpuVendor::Unknown) => (
            RenderMode::DmabufOff,
            "Wayland with unknown GPU vendor: conservative DMA-BUF disable",
        ),
        // Wayland + AMD or Intel: just disable DMABUF; SHM compositing
        // path is GPU-accelerated and reliable on these stacks.
        (DisplayServer::Wayland, _) => (
            RenderMode::DmabufOff,
            "AMD/Intel on Wayland: disable DMA-BUF, keep SHM-based GPU compositing",
        ),
        // No display server detected (server / headless / weird env).
        // Native is fine.
        (DisplayServer::Unknown, _) => (RenderMode::Native, "no display server detected"),
    }
}

// ---------- the config file ----------

/// The first line of a text.
pub open spec fn first_line(body: Seq<char>) -> Seq<char> {
    match find(body, "\n"@) {
        Some(i) => body.take(i),
        None => body,
    }
}

/// The text after its first line.
pub open spec fn other_lines(body: Seq<char>) -> Seq<char> {
    match find(body, "\n"@) {
        Some(i) => body.skip(i + 1),
        None => Seq::empty(),
    }
}

/// The key and the value of a line: what precedes and follows the first `=`
/// that stands before any `#`.
pub open spec fn line_entry(line: Seq<char>) -> Option<(Seq<char>, Seq<char>)> {
    let content = trim(match find(line, "#"@) {
        Some(i) => line.take(i),
        None => line,
    });
    match find(content, "="@) {
        Some(i) => Some((trim(content.take(i)), trim(content.skip(i + 1)))),
        None => None,
    }
}

/// The value of the first `mode` entry, without surrounding quotes.
pub open spec fn config_value(body: Seq<char>) -> Option<Seq<char>>
    decreases body.len(),
    via config_value_decreases
{
    if body.len() == 0 {
        None
    } else {
        match line_entry(first_line(body)) {
            Some(entry) if entry.0 == "mode"@ => Some(strip(entry.1, CharClass::Quote)),
            _ => config_value(other_lines(body)),
        }
    }
}

#[via_fn]
proof fn config_value_decreases(body: Seq<char>) {
    lemma_find_bounds(body, "\n"@, 0);
    reveal_strlit("\n");
}

/// The override that a config file names.
pub open spec fn config_override(body: Seq<char>) -> Option<ModeOverride> {
    match config_value(body) {
        Some(value) => override_of(value),
        None => None,
    }
}

/// Splits a line into key and value.
fn split_line(line: &Vec<char>) -> (r: Option<(Vec<char>, Vec<char>)>)
    ensures
        match r {
            Some(e) => line_entry(line@) == Some((e.0@, e.1@)),
            None => line_entry(line@) is None,
        },
{
    proof {
        reveal_strlit("=");
    }
    // Strip trailing comments.
    let content = match position(line, "#") {
        Some(i) => {
            let before = slice(line, 0, i);
            assert(before@ =~= line@.take(i as int));
            trimmed(&before)
        },
        None => trimmed(line),
    };
    let total: usize = content.len();
    match position(&content, "=") {
        Some(i) => {
            let key = slice(&content, 0, i);
            let value = slice(&content, i + 1, total);
            assert(key@ =~= content@.take(i as int));
            assert(value@ =~= content@.skip(i + 1));
            Some((trimmed(&key), trimmed(&value)))
        },
        None => None,
    }
}

/// Finds the value of the first `mode` entry of a config file.
pub fn config_mode_value(body: &str) -> (r: Option<String>)
    ensures
        match r {
            Some(v) => config_value(body@) == Some(v@),
            None => config_value(body@) is None,
        },
{
    proof {
        reveal_strlit("\n");
    }
    let mut rest = to_chars(body);
    while rest.len() > 0
        invariant
            "\n"@.len() == 1,
            config_value(body@) == config_value(rest@),
        decreases rest@.len(),
    {
        let total: usize = rest.len();
        let (line, others): (Vec<char>, Vec<char>) = match position(&rest, "\n") {
            Some(i) => {
                let line = slice(&rest, 0, i);
                let others = slice(&rest, i + 1, total);
                assert(line@ =~= rest@.take(i as int));
                assert(others@ =~= rest@.skip(i + 1));
                (line, others)
            },
            None => {
                let line = slice(&rest, 0, total);
                assert(line@ =~= rest@);
                (line, Vec::new())
            },
        };
        assert(line@ == first_line(rest@));
        assert(others@ =~= other_lines(rest@));
        if let Some((key, value)) = split_line(&line) {
            if to_text(&key).as_str().eq("mode") {
                // Strip surrounding quotes if present.
                return Some(to_text(&drop_ends(&value, CharClass::Quote)));
            }
        }
        rest = others;
    }
    None
}

/// Parse a `key=value` config file body for a `mode = ...` entry.
/// Quotes, surrounding whitespace, and `#` comments are tolerated.
pub fn parse_config_mode(body: &str) -> (r: Option<ModeOverride>)
    ensures
        r == config_override(body@),
{
    match config_mode_value(body) {
        Some(value) => parse_mode_override(value.as_str()),
        None => None,
    }
}

/// The user override: that of the env var where it names one, else that of
/// the config file.
pub open spec fn user_override(
    env_value: Option<Seq<char>>,
    config_body: Option<Seq<char>>,
) -> Option<ModeOverride> {
    let from_env = match env_value {
        Some(s) => override_of(s),
        None => None,
    };
    if from_env is Some {
        from_env
    } else {
        match config_body {
            Some(body) => config_override(body),
            None => None,
        }
    }
}

/// The user override, preferring the env var over the config file.
/// `config_body` is what the config file holds, where it is readable.
pub fn resolve_user_override(
    env_value: Option<&str>,
    config_body: Option<&str>,
) -> (r: Option<ModeOverride>)
    ensures
        r == user_override(str_view(env_value), str_view(config_body)),
{
    if let Some(s) = env_value {
        if let Some(o) = parse_mode_override(s) {
            return Some(o);
        }
    }
    match config_body {
        Some(body) => parse_config_mode(body),
        None => None,
    }
}

// ---------- the environment ----------

/// Sets the variables that the environment does not have yet.
pub open spec fn applied(
    env: Map<Seq<char>, Seq<char>>,
    vars: Seq<(&'static str, &'static str)>,
) -> Map<Seq<char>, Seq<char>>
    decreases vars.len(),
{
    if vars.len() == 0 {
        env
    } else {
        let before = applied(env, vars.drop_last());
        let (name, value) = vars.last();
        if before.dom().contains(name@) {
            before
        } else {
            before.insert(name@, value@)
        }
    }
}

/// Those of the variables that are not present.
pub open spec fn missing(
    vars: Seq<(&'static str, &'static str)>,
    present: Seq<bool>,
) -> Seq<(&'static str, &'static str)>
    decreases vars.len(),
{
    if vars.len() == 0 {
        Seq::empty()
    } else {
        let before = missing(vars.drop_last(), present);
        if present[vars.len() - 1] {
            before
        } else {
            before.push(vars.last())
        }
    }
}

/// The env vars to set for a mode, but only those the user hasn't already
/// set themselves (then their value wins). `present` says of each env var
/// of the mode whether it is set.
pub fn env_vars_to_set(mode: RenderMode, present: &Vec<bool>) -> (r: Vec<
    (&'static str, &'static str),
>)
    requires
        present@.len() == mode_env_vars(mode).len(),
    ensures
        r@ == missing(mode_env_vars(mode), present@),
{
    let vars = mode.env_vars();
    let ghost all = mode_env_vars(mode);
    let mut r: Vec<(&'static str, &'static str)> = Vec::new();
    let mut i: usize = 0;
    while i < vars.len()
        invariant
            vars@ == all,
            present@.len() == all.len(),
            i <= all.len(),
            r@ == missing(all.take(i as int), present@),
        decreases all.len() - i,
    {
        assert(all.take(i + 1).drop_last() =~= all.take(i as int));
        if !present[i] {
            r.push(vars[i]);
        }
        i = i + 1;
    }
    assert(all.take(all.len() as int) =~= all);
    r
}

// ---------- crash-recovery marker + config file paths ----------
//
// The files live in the config dir (~/.config/frank-scanlation on Linux):
//
//   render.conf          (user override)
//   render-recovery      (touched on startup, removed when the app is ready)
//   render-state.log     (what the last launch decided)

/// A path, carried through without a look inside.
#[verifier::external_type_specification]
#[verifier::external_body]
pub struct ExPath(Path);

/// An owned path, carried through without a look inside.
#[verifier::external_type_specification]
#[verifier::external_body]
pub struct ExPathBuf(PathBuf);

/// The components of a path.
pub uninterp spec fn path_components(p: &Path) -> Seq<Seq<char>>;

/// The components of an owned path.
pub uninterp spec fn path_buf_components(p: PathBuf) -> Seq<Seq<char>>;

/// Whether a text is the name of a file in a directory: not empty, without
/// the characters that separate components, and neither `.` nor `..`.
pub open spec fn file_name(name: Seq<char>) -> bool {
    &&& name.len() > 0
    &&& forall|i: int|
        0 <= i < name.len() ==> (#[trigger] name[i]) != '/' && name[i] != '\\' && name[i] != ':'
    &&& exists|i: int| 0 <= i < name.len() && name[i] != '.'
}

/// `std::path::Path::join` with the name of a file: the components of the
/// directory, followed by the name.
#[verifier::external_body]
fn join_name(dir: &Path, name: &str) -> (r: PathBuf)
    requires
        file_name(name@),
    ensures
        path_buf_components(r) == path_components(dir).push(name@),
{
    dir.join(name)
}

/// Path of the user-editable render config: `<config_dir>/render.conf`.
pub fn render_config_path(config_dir: &Path) -> (r: PathBuf)
    ensures
        path_buf_components(r) == path_components(config_dir).push("render.conf"@),
{
    proof {
        reveal_strlit("render.conf");
        assert("render.conf"@[0] == 'r');
    }
    join_name(config_dir, "render.conf")
}

/// Path of the crash-recovery marker: `<config_dir>/render-recovery`.
pub fn recovery_marker_path(config_dir: &Path) -> (r: PathBuf)
    ensures
        path_buf_components(r) == path_components(config_dir).push("render-recovery"@),
{
    proof {
        reveal_strlit("render-recovery");
        assert("render-recovery"@[0] == 'r');
    }
    join_name(config_dir, "render-recovery")
}

/// Path of the human-readable state dump: `<config_dir>/render-state.log`.
/// Written on every launch so users can `cat` it to see what was applied.
pub fn render_state_log_path(config_dir: &Path) -> (r: PathBuf)
    ensures
        path_buf_components(r) == path_components(config_dir).push("render-state.log"@),
{
    proof {
        reveal_strlit("render-state.log");
        assert("render-state.log"@[0] == 'r');
    }
    join_name(config_dir, "render-state.log")
}

// ---------- the state log ----------

/// The name of a display server.
pub open spec fn display_name(display: DisplayServer) -> Seq<char> {
    match display {
        DisplayServer::Wayland => "Wayland"@,
        DisplayServer::X11 => "X11"@,
        DisplayServer::Unknown => "Unknown"@,
    }
}

/// The name of a GPU vendor.
pub open spec fn gpu_name(gpu: GpuVendor) -> Seq<char> {
    match gpu {
        GpuVendor::Nvidia => "Nvidia"@,
        GpuVendor::Amd => "Amd"@,
        GpuVendor::Intel => "Intel"@,
        GpuVendor::Unknown => "Unknown"@,
    }
}

/// A truth value as text.
pub open spec fn bool_text(b: bool) -> Seq<char> {
    if b {
        "true"@
    } else {
        "false"@
    }
}

/// The variables as lines of `name=value`, the later ones indented.
pub open spec fn env_lines(vars: Seq<(&'static str, &'static str)>) -> Seq<char>
    decreases vars.len(),
{
    if vars.len() == 0 {
        Seq::empty()
    } else {
        let line = vars.last().0@ + "="@ + vars.last().1@;
        if vars.len() == 1 {
            line
        } else {
            env_lines(vars.drop_last()) + "\n  "@ + line
        }
    }
}

/// The variables of a mode as the state log shows them.
pub open spec fn env_dump(mode: RenderMode) -> Seq<char> {
    if mode_env_vars(mode).len() == 0 {
        "(none)"@
    } else {
        env_lines(mode_env_vars(mode))
    }
}

/// The text of the state log.
pub open spec fn state_log(
    config_path: Seq<char>,
    mode: RenderMode,
    reason: Seq<char>,
    display: DisplayServer,
    gpu: GpuVendor,
    overridden_by_user: bool,
    recovery_active: bool,
) -> Seq<char> {
    "# Last-launch render policy snapshot.\n# Overwritten each launch. Override via FRANK_SCANLATION_RENDER_MODE=...\n# or by editing "@
        + config_path + ".\nmode = "@ + mode_slug(mode) + "\nreason = "@ + reason
        + "\ndisplay = "@ + display_name(display) + "\ngpu = "@ + gpu_name(gpu)
        + "\noverridden_by_user = "@ + bool_text(overridden_by_user) + "\nrecovery_active = "@
        + bool_text(recovery_active) + "\napplied_env =\n  "@ + env_dump(mode) + "\n"@
}

impl DisplayServer {
    /// The name of the display server.
    pub fn name(self) -> (r: &'static str)
        ensures
            r@ == display_name(self),
    {
        match self {
            DisplayServer::Wayland => "Wayland",
            DisplayServer::X11 => "X11",
            DisplayServer::Unknown => "Unknown",
        }
    }
}

impl GpuVendor {
    /// The name of the vendor.
    pub fn name(self) -> (r: &'static str)
        ensures
            r@ == gpu_name(self),
    {
        match self {
            GpuVendor::Nvidia => "Nvidia",
            GpuVendor::Amd => "Amd",
            GpuVendor::Intel => "Intel",
            GpuVendor::Unknown => "Unknown",
        }
    }
}

fn truth(b: bool) -> (r: &'static str)
    ensures
        r@ == bool_text(b),
{
    if b {
        "true"
    } else {
        "false"
    }
}

fn env_dump_of(mode: RenderMode) -> (r: String)
    ensures
        r@ == env_dump(mode),
{
    let vars = mode.env_vars();
    let ghost all = mode_env_vars(mode);
    if vars.len() == 0 {
        return "(none)".to_owned();
    }
    let mut r: String = String::new();
    let mut i: usize = 0;
    while i < vars.len()
        invariant
            vars@ == all,
            i <= all.len(),
            r@ == env_lines(all.take(i as int)),
        decreases all.len() - i,
    {
        assert(all.take(i + 1).drop_last() =~= all.take(i as int));
        let ghost before = r@;
        if i > 0 {
            r.append("\n  ");
        }
        r.append(vars[i].0);
        r.append("=");
        r.append(vars[i].1);
        assert(r@ =~= env_lines(all.take(i + 1)));
        i = i + 1;
    }
    assert(all.take(all.len() as int) =~= all);
    r
}

/// A one-shot snapshot of what was decided + what was applied, so users can
/// inspect it from a terminal. `config_path` is where the user can override
/// the mode.
pub fn state_log_body(
    config_path: &str,
    mode: RenderMode,
    reason: &str,
    display: DisplayServer,
    gpu: GpuVendor,
    overridden_by_user: bool,
    recovery_active: bool,
) -> (r: String)
    ensures
        r@ == state_log(
            config_path@,
            mode,
            reason@,
            display,
            gpu,
            overridden_by_user,
            recovery_active,
        ),
{
    let mut r =
        "# Last-launch render policy snapshot.\n# Overwritten each launch. Override via FRANK_SCANLATION_RENDER_MODE=...\n# or by editing ".to_owned();
    r.append(config_path);
    r.append(".\nmode = ");
    r.append(mode.slug());
    r.append("\nreason = ");
    r.append(reason);
    r.append("\ndisplay = ");
    r.append(display.name());
    r.append("\ngpu = ");
    r.append(gpu.name());
    r.append("\noverridden_by_user = ");
    r.append(truth(overridden_by_user));
    r.append("\nrecovery_active = ");
    r.append(truth(recovery_active));
    r.append("\napplied_env =\n  ");
    r.append(env_dump_of(mode).as_str());
    r.append("\n");
    r
}

// ---------- laws ----------

/// Law: every mode's slug parses back to the mode, and "auto" to the
/// sentinel.
pub proof fn law_slug_round_trip(mode: RenderMode)
    ensures
        override_of(mode_slug(mode)) == Some(ModeOverride::Explicit(mode)),
        override_of("auto"@) == Some(ModeOverride::Auto),
{
    lemma_words();
    lemma_plain_word(mode_slug(mode));
    lemma_plain_word("auto"@);
}

/// A word of lowercase letters and dashes.
pub open spec fn plain_word(w: Seq<char>) -> bool {
    &&& w.len() > 0
    &&& forall|i: int| 0 <= i < w.len() ==> 'a' <= #[trigger] w[i] <= 'z' || w[i] == '-'
}

/// A plain word is trimmed and in lower case.
proof fn lemma_plain_word(w: Seq<char>)
    requires
        plain_word(w),
    ensures
        lowered(trim(w)) == w,
{
    assert('a' <= w[0] <= 'z' || w[0] == '-');
    assert('a' <= w.last() <= 'z' || w.last() == '-');
    assert(trim(w) == w);
    assert(is_ascii_chars(w));
    assert(lowered(w) =~= w);
}

/// The words for the modes are plain and different.
proof fn lemma_words()
    ensures
        plain_word("auto"@),
        plain_word("native"@),
        plain_word("dmabuf-off"@),
        plain_word("nvidia-light"@),
        plain_word("safe"@),
        "auto"@ != "native"@,
        "auto"@ != "dmabuf-off"@,
        "auto"@ != "nvidia-light"@,
        "auto"@ != "safe"@,
        "native"@ != "dmabuf-off"@,
        "native"@ != "nvidia-light"@,
        "native"@ != "safe"@,
        "dmabuf-off"@ != "nvidia-light"@,
        "dmabuf-off"@ != "safe"@,
        "nvidia-light"@ != "safe"@,
{
    reveal_strlit("auto");
    reveal_strlit("native");
    reveal_strlit("dmabuf-off");
    reveal_strlit("nvidia-light");
    reveal_strlit("safe");
    assert("auto"@.len() == 4);
    assert("native"@.len() == 6);
    assert("dmabuf-off"@.len() == 10);
    assert("nvidia-light"@.len() == 12);
    assert("safe"@.len() == 4);
    assert("auto"@[0] == 'a');
    assert("safe"@[0] == 's');
}

/// Law: white space around a mode, and the case of its ASCII letters, do
/// not matter.
pub proof fn law_override_ignores_case_and_space(s: Seq<char>, t: Seq<char>)
    requires
        is_ascii_chars(trim(s)),
        is_ascii_chars(trim(t)),
        trim(s).map_values(|c: char| ascii_lower(c)) == trim(t).map_values(
            |c: char| ascii_lower(c),
        ),
    ensures
        override_of(s) == override_of(t),
        vendor_of(s) == vendor_of(t),
{
}

/// Law: an explicit override is honoured verbatim, whatever else holds.
pub proof fn law_explicit_override_wins(
    mode: RenderMode,
    recovery_needed: bool,
    display: DisplayServer,
    gpu: GpuVendor,
)
    ensures
        decision(Some(mode), recovery_needed, display, gpu).0 == mode,
{
}

/// Law: without an override a failed launch falls back to the safe mode.
pub proof fn law_recovery_is_safe(display: DisplayServer, gpu: GpuVendor)
    ensures
        decision(None, true, display, gpu).0 == RenderMode::Safe,
{
}

/// Law: detection alone never gives up the GPU: the safe mode takes an
/// override or a failed launch.
pub proof fn law_safe_only_when_asked(
    explicit_override: Option<RenderMode>,
    recovery_needed: bool,
    display: DisplayServer,
    gpu: GpuVendor,
)
    ensures
        decision(explicit_override, recovery_needed, display, gpu).0 == RenderMode::Safe ==> (
        explicit_override == Some(RenderMode::Safe) || recovery_needed),
        explicit_override is None && !recovery_needed && display != DisplayServer::Wayland
            ==> decision(explicit_override, recovery_needed, display, gpu).0 == RenderMode::Native,
{
}

/// Law: the modes are layered: every mode but the native one turns the
/// DMA-BUF renderer off.
pub proof fn law_modes_layered(mode: RenderMode)
    ensures
        mode == RenderMode::Native <==> mode_env_vars(mode).len() == 0,
        mode != RenderMode::Native ==> mode_env_vars(mode)[0] == (
            "WEBKIT_DISABLE_DMABUF_RENDERER",
            "1",
        ),
{
}

/// Law: an env var that names a mode wins over the config file; one that
/// names none is as good as unset.
pub proof fn law_env_wins_over_config(env: Seq<char>, body: Option<Seq<char>>)
    ensures
        override_of(env) is Some ==> user_override(Some(env), body) == override_of(env),
        override_of(env) is None ==> user_override(Some(env), body) == user_override(None, body),
        user_override(None, None) is None,
{
}

/// A line and what follows it.
pub open spec fn line_then(line: Seq<char>, body: Seq<char>) -> Seq<char> {
    line + "\n"@ + body
}

/// Law: a line of a config file without a `mode` entry, such as one that
/// is just a comment, does not matter; the first `mode` entry does, and
/// what follows it does not.
pub proof fn law_config_line(line: Seq<char>, body: Seq<char>)
    requires
        !line.contains('\n'),
    ensures
        begins(line, "#"@) ==> line_entry(line) is None,
        config_override(line_then(line, body)) == (match line_entry(line) {
            Some(entry) if entry.0 == "mode"@ => override_of(strip(entry.1, CharClass::Quote)),
            _ => config_override(body),
        }),
{
    reveal_strlit("\n");
    reveal_strlit("#");
    reveal_strlit("=");
    let all = line_then(line, body);
    let n = line.len() as int;
    assert("\n"@ =~= seq!['\n']);
    assert("#"@ =~= seq!['#']);
    assert(all[n] == '\n');
    lemma_line_end(all, 0, n);
    assert(first_line(all) =~= line);
    assert(other_lines(all) =~= body);
    if begins(line, "#"@) {
        assert(line.subrange(0, 1) =~= line.take(1));
        assert(find(line, "#"@) == Some(0int));
        assert(trim(line.take(0)) =~= Seq::<char>::empty());
        assert(find(Seq::<char>::empty(), "="@) is None);
    }
}

/// The first line ends at the first line break.
proof fn lemma_line_end(s: Seq<char>, from: int, end: int)
    requires
        0 <= from <= end < s.len(),
        s[end] == '\n',
        forall|i: int| from <= i < end ==> #[trigger] s[i] != '\n',
    ensures
        crate::text::find_from(s, "\n"@, from) == Some(end),
    decreases end - from,
{
    reveal_strlit("\n");
    assert("\n"@ =~= seq!['\n']);
    if from < end {
        assert(s.subrange(from, from + 1)[0] == s[from]);
        lemma_line_end(s, from + 1, end);
    } else {
        assert(s.subrange(from, from + 1) =~= seq!['\n']);
    }
}

/// Law: applying a mode keeps what the user set, sets all of the mode's
/// variables, and applying it again changes nothing.
pub proof fn law_apply_idempotent(
    env: Map<Seq<char>, Seq<char>>,
    vars: Seq<(&'static str, &'static str)>,
)
    ensures
        forall|k: Seq<char>| #[trigger]
            env.dom().contains(k) ==> applied(env, vars).dom().contains(k) && applied(env, vars)[k]
                == env[k],
        forall|i: int|
            0 <= i < vars.len() ==> applied(env, vars).dom().contains((#[trigger] vars[i]).0@),
        applied(applied(env, vars), vars) == applied(env, vars),
    decreases vars.len(),
{
    if vars.len() > 0 {
        let rest = vars.drop_last();
        law_apply_idempotent(env, rest);
        let before = applied(env, rest);
        let after = applied(env, vars);
        assert forall|i: int| 0 <= i < vars.len() implies after.dom().contains(
            (#[trigger] vars[i]).0@,
        ) by {
            if i < rest.len() {
                assert(rest[i] == vars[i]);
            }
        }
        lemma_all_present(after, rest);
        lemma_all_present(after, vars);
    }
}

proof fn lemma_all_present(
    env: Map<Seq<char>, Seq<char>>,
    vars: Seq<(&'static str, &'static str)>,
)
    requires
        forall|i: int| 0 <= i < vars.len() ==> env.dom().contains((#[trigger] vars[i]).0@),
    ensures
        applied(env, vars) == env,
    decreases vars.len(),
{
    if vars.len() > 0 {
        let rest = vars.drop_last();
        assert forall|i: int| 0 <= i < rest.len() implies env.dom().contains(
            (#[trigger] rest[i]).0@,
        ) by {
            assert(rest[i] == vars[i]);
        }
        lemma_all_present(env, rest);
        assert(env.dom().contains(vars[vars.len() - 1].0@));
    }
}

/// Setting each of the variables in turn.
pub open spec fn with_vars(
    env: Map<Seq<char>, Seq<char>>,
    vars: Seq<(&'static str, &'static str)>,
) -> Map<Seq<char>, Seq<char>>
    decreases vars.len(),
{
    if vars.len() == 0 {
        env
    } else {
        with_vars(env, vars.drop_last()).insert(vars.last().0@, vars.last().1@)
    }
}

/// Law: setting the variables that are missing applies the mode: the
/// user's own values stay, and the others are those of the mode.
pub proof fn law_missing_applies(
    env: Map<Seq<char>, Seq<char>>,
    mode: RenderMode,
    present: Seq<bool>,
)
    requires
        present.len() == mode_env_vars(mode).len(),
        forall|i: int|
            0 <= i < present.len() ==> #[trigger] present[i] == env.dom().contains(
                mode_env_vars(mode)[i].0@,
            ),
    ensures
        with_vars(env, missing(mode_env_vars(mode), present)) == applied(env, mode_env_vars(mode)),
{
    reveal_strlit("WEBKIT_DISABLE_DMABUF_RENDERER");
    reveal_strlit("__NV_DISABLE_EXPLICIT_SYNC");
    reveal_strlit("WEBKIT_DISABLE_COMPOSITING_MODE");
    assert("WEBKIT_DISABLE_DMABUF_RENDERER"@[0] == 'W');
    assert("__NV_DISABLE_EXPLICIT_SYNC"@[0] == '_');
    assert("WEBKIT_DISABLE_DMABUF_RENDERER"@[15] == 'D');
    assert("WEBKIT_DISABLE_COMPOSITING_MODE"@[15] == 'C');
    lemma_missing_applies(env, mode_env_vars(mode), present);
}

proof fn lemma_missing_applies(
    env: Map<Seq<char>, Seq<char>>,
    vars: Seq<(&'static str, &'static str)>,
    present: Seq<bool>,
)
    requires
        present.len() >= vars.len(),
        forall|i: int|
            0 <= i < vars.len() ==> #[trigger] present[i] == env.dom().contains(vars[i].0@),
        forall|i: int, j: int|
            0 <= i < j < vars.len() ==> (#[trigger] vars[i]).0@ != (#[trigger] vars[j]).0@,
    ensures
        with_vars(env, missing(vars, present)) == applied(env, vars),
        forall|k: Seq<char>| #[trigger]
            applied(env, vars).dom().contains(k) ==> env.dom().contains(k) || exists|i: int|
                0 <= i < vars.len() && (#[trigger] vars[i]).0@ == k,
    decreases vars.len(),
{
    if vars.len() > 0 {
        let rest = vars.drop_last();
        let n = vars.len() - 1;
        lemma_missing_applies(env, rest, present);
        law_apply_idempotent(env, rest);
        assert(present[n] == env.dom().contains(vars[n].0@));
        let before = applied(env, rest);
        assert(before.dom().contains(vars[n].0@) == present[n]) by {
            if before.dom().contains(vars[n].0@) && !env.dom().contains(vars[n].0@) {
                let i = choose|i: int| 0 <= i < rest.len() && (#[trigger] rest[i]).0@ == vars[n].0@;
                assert(vars[i].0@ == vars[n].0@);
            }
        }
        if !present[n] {
            let m = missing(rest, present);
            assert(m.push(vars.last()).drop_last() =~= m);
        }
        assert forall|k: Seq<char>| #[trigger]
            applied(env, vars).dom().contains(k) implies env.dom().contains(k) || exists|i: int|
            0 <= i < vars.len() && (#[trigger] vars[i]).0@ == k by {
            if before.dom().contains(k) && !env.dom().contains(k) {
                let i = choose|i: int| 0 <= i < rest.len() && (#[trigger] rest[i]).0@ == k;
                assert(vars[i].0@ == k);
            } else if !before.dom().contains(k) {
                assert(vars[n].0@ == k);
            }
        }
    }
}

/// Law: the slugs and the variables of the modes.
pub proof fn law_mode_table()
    ensures
        mode_slug(RenderMode::Native) == "native"@,
        mode_slug(RenderMode::DmabufOff) == "dmabuf-off"@,
        mode_slug(RenderMode::NvidiaLight) == "nvidia-light"@,
        mode_slug(RenderMode::Safe) == "safe"@,
        mode_env_vars(RenderMode::Native).len() == 0,
        mode_env_vars(RenderMode::DmabufOff) == seq![("WEBKIT_DISABLE_DMABUF_RENDERER", "1")],
        mode_env_vars(RenderMode::NvidiaLight) == seq![
            ("WEBKIT_DISABLE_DMABUF_RENDERER", "1"),
            ("__NV_DISABLE_EXPLICIT_SYNC", "1"),
        ],
        mode_env_vars(RenderMode::Safe) == seq![
            ("WEBKIT_DISABLE_DMABUF_RENDERER", "1"),
            ("WEBKIT_DISABLE_COMPOSITING_MODE", "1"),
        ],
{
}

/// Law: an override is named by "auto" or the slug of a mode, in any case
/// and with white space around it, and by nothing else.
pub proof fn law_override_table(a: Seq<char>, w: Seq<char>, b: Seq<char>)
    requires
        is_blank(a),
        is_blank(b),
        is_trimmed(w),
    ensures
        lowered(w) == "auto"@ ==> override_of(a + w + b) == Some(ModeOverride::Auto),
        lowered(w) == "native"@ ==> override_of(a + w + b) == Some(
            ModeOverride::Explicit(RenderMode::Native),
        ),
        lowered(w) == "dmabuf-off"@ ==> override_of(a + w + b) == Some(
            ModeOverride::Explicit(RenderMode::DmabufOff),
        ),
        lowered(w) == "nvidia-light"@ ==> override_of(a + w + b) == Some(
            ModeOverride::Explicit(RenderMode::NvidiaLight),
        ),
        lowered(w) == "safe"@ ==> override_of(a + w + b) == Some(
            ModeOverride::Explicit(RenderMode::Safe),
        ),
        lowered(w) != "auto"@ && lowered(w) != "native"@ && lowered(w) != "dmabuf-off"@ && lowered(
            w,
        ) != "nvidia-light"@ && lowered(w) != "safe"@ ==> override_of(a + w + b) is None,
{
    law_trim_keeps_middle(a, w, b);
    lemma_words();
}

/// Law: a vendor is named by its id, in any case, with white space around
/// it and behind any number of `0x`; everything else is unknown.
pub proof fn law_vendor_table(a: Seq<char>, w: Seq<char>, b: Seq<char>, id: Seq<char>)
    requires
        is_blank(a),
        is_blank(b),
        is_trimmed(w),
    ensures
        vendor_of(a + w + b) == vendor_of_id(lowered(w)),
        vendor_of_id("0x"@ + id) == vendor_of_id(id),
        vendor_of_id("10de"@) == GpuVendor::Nvidia,
        vendor_of_id("1002"@) == GpuVendor::Amd,
        vendor_of_id("8086"@) == GpuVendor::Intel,
        !begins(id, "0x"@) && id != "10de"@ && id != "1002"@ && id != "8086"@ ==> vendor_of_id(id)
            == GpuVendor::Unknown,
{
    law_trim_keeps_middle(a, w, b);
    reveal_strlit("0x");
    reveal_strlit("10de");
    reveal_strlit("1002");
    reveal_strlit("8086");
    let p = "0x"@ + id;
    law_begins_ends("0x"@, id);
    assert(p.skip(2) =~= id);
    assert("0x"@[0] == '0' && "0x"@[1] == 'x');
    assert("10de"@[0] == '1');
    assert("1002"@[0] == '1');
    assert("8086"@[0] == '8');
    assert("10de"@[2] == 'd');
    assert("1002"@[2] == '0');
    assert("10de"@.take(2)[0] == '1');
    assert("1002"@.take(2)[0] == '1');
    assert("8086"@.take(2)[0] == '8');
}

/// Law: a card is an entry whose name is `card` and something without a
/// dash.
pub proof fn law_card_entry(name: Seq<char>, rest: Seq<char>)
    ensures
        card_entry("card"@ + rest) <==> !rest.contains('-'),
        !begins(name, "card"@) ==> !card_entry(name),
{
    reveal_strlit("-");
    reveal_strlit("card");
    let dash = "-"@;
    let all = "card"@ + rest;
    assert(dash =~= seq!['-']);
    law_begins_ends("card"@, rest);
    law_find(all, dash);
    if find(all, dash) is Some {
        let i = find(all, dash)->0;
        assert(all[i] == '-') by {
            assert((all.take(i) + dash + all.skip(i + 1))[i] == '-');
        }
        if i < 4 {
            assert(all[i] == "card"@[i]);
        } else {
            assert(rest[i - 4] == '-');
        }
    } else if rest.contains('-') {
        let j = choose|j: int| 0 <= j < rest.len() && rest[j] == '-';
        assert(all.subrange(j + 4, j + 4 + dash.len()) =~= dash);
    }
}

/// The entry names no vendor: it is no card, its vendor file is not
/// readable, or what the file holds is no known id.
pub open spec fn names_no_vendor(e: DrmEntry) -> bool {
    !card_entry(e.name@) || e.vendor is None || vendor_of(e.vendor->0@) == GpuVendor::Unknown
}

/// Law: the vendor is that of the first card that names one, whatever
/// entries follow, and unknown where none does.
pub proof fn law_first_vendor(a: Seq<DrmEntry>, e: DrmEntry, b: Seq<DrmEntry>)
    requires
        forall|i: int| 0 <= i < a.len() ==> names_no_vendor(#[trigger] a[i]),
        card_entry(e.name@),
        e.vendor is Some,
        vendor_of(e.vendor->0@) != GpuVendor::Unknown,
    ensures
        first_vendor(a + seq![e] + b) == vendor_of(e.vendor->0@),
        first_vendor(a) == GpuVendor::Unknown,
    decreases a.len(),
{
    let all = a + seq![e] + b;
    if a.len() == 0 {
        assert(all[0] == e);
    } else {
        assert(names_no_vendor(a[0]));
        assert(all[0] == a[0]);
        assert(all.drop_first() =~= a.drop_first() + seq![e] + b);
        law_first_vendor(a.drop_first(), e, b);
    }
}

/// Law: what is decided without an override and without a failed launch,
/// and the reasons that are given.
pub proof fn law_decision_table(mode: RenderMode, display: DisplayServer, gpu: GpuVendor)
    ensures
        decision(Some(mode), true, display, gpu) == (mode, "explicit user override"@),
        decision(Some(mode), false, display, gpu) == (mode, "explicit user override"@),
        decision(None, true, display, gpu) == (
            RenderMode::Safe,
            "previous launch did not signal app-ready (crash recovery)"@,
        ),
        decision(None, false, DisplayServer::X11, gpu) == (
            RenderMode::Native,
            "X11 session: WebKit defaults work reliably"@,
        ),
        decision(None, false, DisplayServer::Wayland, GpuVendor::Nvidia) == (
            RenderMode::NvidiaLight,
            "NVIDIA on Wayland: disable DMA-BUF + explicit sync, keep GPU compositing"@,
        ),
        gpu == GpuVendor::Amd || gpu == GpuVendor::Intel ==> decision(
            None,
            false,
            DisplayServer::Wayland,
            gpu,
        ) == (
            RenderMode::DmabufOff,
            "AMD/Intel on Wayland: disable DMA-BUF, keep SHM-based GPU compositing"@,
        ),
        decision(None, false, DisplayServer::Wayland, GpuVendor::Unknown) == (
            RenderMode::DmabufOff,
            "Wayland with unknown GPU vendor: conservative DMA-BUF disable"@,
        ),
        decision(None, false, DisplayServer::Unknown, gpu) == (
            RenderMode::Native,
            "no display server detected"@,
        ),
{
}

/// Law: a line is a key and a value, each without the white space around
/// it, with the first `=` between them and perhaps a comment behind; a line
/// without `=` in front of its comment is neither.
pub proof fn law_line_entry(left: Seq<char>, right: Seq<char>, comment: Seq<char>)
    requires
        !left.contains('#'),
        !left.contains('='),
        !right.contains('#'),
        comment.len() > 0 ==> comment[0] == '#',
    ensures
        line_entry(left + seq!['='] + right + comment) == Some((trim(left), trim(right))),
        line_entry(left + comment) is None,
{
    reveal_strlit("#");
    reveal_strlit("=");
    assert("#"@ =~= seq!['#']);
    assert("="@ =~= seq!['=']);
    let eq = seq!['='];
    let x = left + eq + right;
    // The comment.
    assert(!x.contains('#')) by {
        if x.contains('#') {
            let i = choose|i: int| 0 <= i < x.len() && x[i] == '#';
            if i < left.len() {
                assert(left[i] == '#');
            } else if i > left.len() {
                assert(right[i - left.len() - 1] == '#');
            }
        }
    }
    lemma_cut_comment(x, comment);
    lemma_cut_comment(left, comment);
    lemma_entry(left, right);
    // A line without an equals sign.
    let (a, m, b) = split_blank(left);
    law_trim_keeps_middle(a, m, b);
    law_find(m, eq);
    if find(m, eq) is Some {
        let i = find(m, eq)->0;
        assert(m[i] == '=') by {
            assert((m.take(i) + eq + m.skip(i + 1))[i] == '=');
        }
        assert((a + m + b)[a.len() + i] == '=');
        assert(left[a.len() + i] == '=');
    }
}

/// An entry is split at its first equals sign.
proof fn lemma_entry(left: Seq<char>, right: Seq<char>)
    requires
        !left.contains('='),
    ensures
        ({
            let content = trim(left + seq!['='] + right);
            &&& find(content, seq!['=']) is Some
            &&& trim(content.take(find(content, seq!['='])->0)) == trim(left)
            &&& trim(content.skip(find(content, seq!['='])->0 + 1)) == trim(right)
        }),
{
    let eq = seq!['='];
    let none = Seq::<char>::empty();
    let x = left + eq + right;
    let (a, kl, b) = split_blank(left);
    let (c0, kr, d0) = split_blank(right);
    let c = if kr.len() == 0 {
        none
    } else {
        c0
    };
    let d = if kr.len() == 0 {
        right
    } else {
        d0
    };
    assert(right =~= c + kr + d);
    let key = kl + b;
    let value = c + kr;
    let core = key + eq + value;
    assert(x =~= a + core + d);
    assert(is_trimmed(core)) by {
        if kl.len() > 0 {
            assert(core[0] == kl[0]);
        } else {
            assert(core[0] == '=');
        }
        if kr.len() > 0 {
            assert(core.last() == kr.last());
        } else {
            assert(core.last() == '=');
        }
    }
    law_trim_keeps_middle(a, core, d);
    let at = key.len() as int;
    lemma_first_eq(key, value);
    assert(core.take(at) =~= key);
    assert(core.skip(at + 1) =~= value);
    assert(key =~= none + kl + b);
    assert(value =~= c + kr + none);
    assert forall|j: int| 0 <= j < key.len() implies key[j] == left[a.len() + j] by {}
    law_trim_keeps_middle(none, kl, b);
    law_trim_keeps_middle(c, kr, none);
    law_trim_keeps_middle(a, kl, b);
    law_trim_keeps_middle(c, kr, d);
    if key.contains('=') {
        let j = choose|j: int| 0 <= j < key.len() && key[j] == '=';
        assert(left[a.len() + j] == '=');
    }
}

proof fn lemma_first_eq(key: Seq<char>, value: Seq<char>)
    ensures
        !key.contains('=') ==> find(key + seq!['='] + value, seq!['=']) == Some(key.len() as int),
{
    let eq = seq!['='];
    let core = key + eq + value;
    let at = key.len() as int;
    if !key.contains('=') {
        assert(core.subrange(at, at + 1) =~= eq);
        assert forall|j: int| 0 <= j < at implies #[trigger] core.subrange(j, j + 1) != eq by {
            assert(core.subrange(j, j + 1)[0] == key[j]);
            assert(key.contains(key[j]));
        }
        lemma_find_at(core, eq, 0, at);
    }
}

/// What precedes the comment of a line.
proof fn lemma_cut_comment(x: Seq<char>, comment: Seq<char>)
    requires
        !x.contains('#'),
        comment.len() > 0 ==> comment[0] == '#',
    ensures
        (match find(x + comment, "#"@) {
            Some(i) => (x + comment).take(i),
            None => x + comment,
        }) == x,
{
    reveal_strlit("#");
    assert("#"@ =~= seq!['#']);
    let hash = seq!['#'];
    let line = x + comment;
    let at = x.len() as int;
    law_find(line, hash);
    if comment.len() > 0 {
        assert(line.subrange(at, at + 1) =~= hash);
    } else {
        assert(line =~= x);
    }
    if find(line, hash) is Some {
        let i = find(line, hash)->0;
        assert(line[i] == '#') by {
            assert((line.take(i) + hash + line.skip(i + 1))[i] == '#');
        }
        if i < at {
            assert(x[i] == '#');
        }
        assert(i == at);
        assert(line.take(at) =~= x);
    }
}

/// Splits a text into what is trimmed off and what is left.
proof fn split_blank(s: Seq<char>) -> (r: (Seq<char>, Seq<char>, Seq<char>))
    ensures
        s == r.0 + r.1 + r.2,
        is_blank(r.0),
        is_trimmed(r.1),
        is_blank(r.2),
        r.1.len() == 0 ==> r.2.len() == 0 && r.0 == s,
{
    if is_blank(s) {
        let none = Seq::<char>::empty();
        assert(s =~= s + none + none);
        (s, none, none)
    } else {
        let first = lemma_first_ink(s);
        let last = lemma_last_ink(s);
        let a = s.take(first);
        let m = s.subrange(first, last + 1);
        let b = s.skip(last + 1);
        assert(s =~= a + m + b);
        assert(m[0] == s[first]);
        assert(m.last() == s[last]);
        (a, m, b)
    }
}

proof fn lemma_first_ink(s: Seq<char>) -> (i: int)
    requires
        !is_blank(s),
    ensures
        0 <= i < s.len(),
        !CharClass::White.has(s[i]),
        is_blank(s.take(i)),
        forall|j: int| 0 <= j < s.len() && !CharClass::White.has(#[trigger] s[j]) ==> i <= j,
    decreases s.len(),
{
    if !CharClass::White.has(s[0]) {
        0
    } else {
        let rest = s.drop_first();
        assert(!is_blank(rest)) by {
            if is_blank(rest) {
                assert forall|j: int| 0 <= j < s.len() implies CharClass::White.has(
                    #[trigger] s[j],
                ) by {
                    if j > 0 {
                        assert(rest[j - 1] == s[j]);
                    }
                }
            }
        }
        let k = lemma_first_ink(rest);
        assert forall|j: int| 0 <= j < s.take(k + 1).len() implies CharClass::White.has(
            #[trigger] s.take(k + 1)[j],
        ) by {
            if j > 0 {
                assert(rest.take(k)[j - 1] == s[j]);
            }
        }
        assert forall|j: int| 0 <= j < s.len() && !CharClass::White.has(#[trigger] s[j]) implies k
            + 1 <= j by {
            assert(j > 0);
            assert(rest[j - 1] == s[j]);
        }
        k + 1
    }
}

proof fn lemma_last_ink(s: Seq<char>) -> (i: int)
    requires
        !is_blank(s),
    ensures
        0 <= i < s.len(),
        !CharClass::White.has(s[i]),
        is_blank(s.skip(i + 1)),
        forall|j: int| 0 <= j < s.len() && !CharClass::White.has(#[trigger] s[j]) ==> j <= i,
    decreases s.len(),
{
    if !CharClass::White.has(s.last()) {
        s.len() - 1
    } else {
        let rest = s.drop_last();
        assert(!is_blank(rest)) by {
            if is_blank(rest) {
                assert forall|j: int| 0 <= j < s.len() implies CharClass::White.has(
                    #[trigger] s[j],
                ) by {
                    if j < rest.len() {
                        assert(rest[j] == s[j]);
                    }
                }
            }
        }
        let k = lemma_last_ink(rest);
        assert forall|j: int| 0 <= j < s.skip(k + 1).len() implies CharClass::White.has(
            #[trigger] s.skip(k + 1)[j],
        ) by {
            if k + 1 + j < rest.len() {
                assert(rest.skip(k + 1)[j] == s[k + 1 + j]);
            }
        }
        assert forall|j: int| 0 <= j < s.len() && !CharClass::White.has(#[trigger] s[j]) implies j
            <= k by {
            if j < rest.len() {
                assert(rest[j] == s[j]);
            }
        }
        k
    }
}

/// Law: the last line of a config file counts like any other, and an empty
/// file says nothing.
pub proof fn law_config_last_line(line: Seq<char>)
    requires
        !line.contains('\n'),
        line.len() > 0,
    ensures
        config_override(line) == (match line_entry(line) {
            Some(entry) if entry.0 == "mode"@ => override_of(strip(entry.1, CharClass::Quote)),
            _ => None,
        }),
        config_override(Seq::empty()) is None,
{
    reveal_strlit("\n");
    assert("\n"@ =~= seq!['\n']);
    law_find(line, "\n"@);
    if find(line, "\n"@) is Some {
        let i = find(line, "\n"@)->0;
        assert(line[i] == '\n') by {
            assert((line.take(i) + seq!['\n'] + line.skip(i + 1))[i] == '\n');
        }
    }
    reveal_with_fuel(config_value, 2);
}

/// Law: the config file decides where the env var is not set, and nothing
/// does where neither is there.
pub proof fn law_config_decides(body: Seq<char>)
    ensures
        user_override(None, Some(body)) == config_override(body),
        user_override(None, None) is None,
{
}

/// Law: applying variables of different names adds exactly those that are
/// missing, with their values.
pub proof fn law_applied_values(
    env: Map<Seq<char>, Seq<char>>,
    vars: Seq<(&'static str, &'static str)>,
)
    requires
        forall|i: int, j: int|
            0 <= i < j < vars.len() ==> (#[trigger] vars[i]).0@ != (#[trigger] vars[j]).0@,
    ensures
        forall|i: int|
            0 <= i < vars.len() && !env.dom().contains(vars[i].0@) ==> applied(env, vars)[(
            #[trigger] vars[i]).0@] == vars[i].1@,
        forall|k: Seq<char>| #[trigger]
            applied(env, vars).dom().contains(k) ==> env.dom().contains(k) || exists|i: int|
                0 <= i < vars.len() && (#[trigger] vars[i]).0@ == k,
    decreases vars.len(),
{
    if vars.len() > 0 {
        let rest = vars.drop_last();
        let n = vars.len() - 1;
        law_applied_values(env, rest);
        let before = applied(env, rest);
        assert forall|i: int| 0 <= i < vars.len() && !env.dom().contains(vars[i].0@) implies applied(
            env,
            vars,
        )[(#[trigger] vars[i]).0@] == vars[i].1@ by {
            if i < n {
                assert(rest[i] == vars[i]);
                assert(vars[i].0@ != vars[n].0@);
            } else if before.dom().contains(vars[n].0@) {
                let j = choose|j: int| 0 <= j < rest.len() && (#[trigger] rest[j]).0@ == vars[n].0@;
                assert(rest[j] == vars[j]);
                assert(vars[j].0@ != vars[n].0@);
            }
        }
        assert forall|k: Seq<char>| #[trigger]
            applied(env, vars).dom().contains(k) implies env.dom().contains(k) || exists|i: int|
            0 <= i < vars.len() && (#[trigger] vars[i]).0@ == k by {
            if before.dom().contains(k) {
                if !env.dom().contains(k) {
                    let i = choose|i: int| 0 <= i < rest.len() && (#[trigger] rest[i]).0@ == k;
                    assert(vars[i].0@ == k);
                }
            } else {
                assert(vars[n].0@ == k);
            }
        }
    }
}

/// Law: the state log, line by line, and the names in it.
pub proof fn law_state_log(
    path: Seq<char>,
    mode: RenderMode,
    reason: Seq<char>,
    display: DisplayServer,
    gpu: GpuVendor,
    by_user: bool,
    recovery: bool,
)
    ensures
        state_log(path, mode, reason, display, gpu, by_user, recovery)
            == "# Last-launch render policy snapshot.\n# Overwritten each launch. Override via FRANK_SCANLATION_RENDER_MODE=...\n# or by editing "@
            + path + ".\nmode = "@ + mode_slug(mode) + "\nreason = "@ + reason + "\ndisplay = "@
            + display_name(display) + "\ngpu = "@ + gpu_name(gpu) + "\noverridden_by_user = "@ + (
        if by_user {
            "true"@
        } else {
            "false"@
        }) + "\nrecovery_active = "@ + (if recovery {
            "true"@
        } else {
            "false"@
        }) + "\napplied_env =\n  "@ + env_dump(mode) + "\n"@,
        display_name(DisplayServer::Wayland) == "Wayland"@,
        display_name(DisplayServer::X11) == "X11"@,
        display_name(DisplayServer::Unknown) == "Unknown"@,
        gpu_name(GpuVendor::Nvidia) == "Nvidia"@,
        gpu_name(GpuVendor::Amd) == "Amd"@,
        gpu_name(GpuVendor::Intel) == "Intel"@,
        gpu_name(GpuVendor::Unknown) == "Unknown"@,
        env_dump(RenderMode::Native) == "(none)"@,
        env_dump(RenderMode::DmabufOff) == "WEBKIT_DISABLE_DMABUF_RENDERER"@ + "="@ + "1"@,
        env_dump(RenderMode::NvidiaLight) == "WEBKIT_DISABLE_DMABUF_RENDERER"@ + "="@ + "1"@
            + "\n  "@ + ("__NV_DISABLE_EXPLICIT_SYNC"@ + "="@ + "1"@),
        env_dump(RenderMode::Safe) == "WEBKIT_DISABLE_DMABUF_RENDERER"@ + "="@ + "1"@ + "\n  "@ + (
        "WEBKIT_DISABLE_COMPOSITING_MODE"@ + "="@ + "1"@),
{
    reveal_with_fuel(env_lines, 3);
    let first = mode_env_vars(RenderMode::DmabufOff);
    assert(mode_env_vars(RenderMode::NvidiaLight).drop_last() =~= first);
    assert(mode_env_vars(RenderMode::Safe).drop_last() =~= first);
    assert(first.last() == ("WEBKIT_DISABLE_DMABUF_RENDERER", "1"));
}

} // verus!
