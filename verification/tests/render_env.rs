use scanlation::render_env::{
    decide_mode, display_server_from_env, env_vars_to_set, gpu_vendor_from_entries, is_card_entry,
    parse_config_mode, parse_mode_override, parse_vendor_hex, recovery_marker_path,
    render_config_path, render_state_log_path, resolve_user_override, state_log_body,
    DisplayServer, DrmEntry, GpuVendor, ModeOverride, RenderMode,
};
use std::path::Path;

#[test]
fn parse_vendor_hex_known() {
    assert_eq!(parse_vendor_hex("0x10de\n"), GpuVendor::Nvidia);
    assert_eq!(parse_vendor_hex("0x1002\n"), GpuVendor::Amd);
    assert_eq!(parse_vendor_hex("0x8086\n"), GpuVendor::Intel);
}

#[test]
fn parse_vendor_hex_tolerates_casing_and_no_prefix() {
    assert_eq!(parse_vendor_hex("10DE"), GpuVendor::Nvidia);
    assert_eq!(parse_vendor_hex("  0X1002 \n"), GpuVendor::Amd);
    assert_eq!(parse_vendor_hex("0x8086"), GpuVendor::Intel);
}

#[test]
fn parse_vendor_hex_unknown() {
    assert_eq!(parse_vendor_hex("0xffff"), GpuVendor::Unknown);
    assert_eq!(parse_vendor_hex(""), GpuVendor::Unknown);
    assert_eq!(parse_vendor_hex("nope"), GpuVendor::Unknown);
}

#[test]
fn render_mode_env_vars_layered() {
    assert!(RenderMode::Native.env_vars().is_empty());
    let dmabuf = RenderMode::DmabufOff.env_vars();
    assert_eq!(dmabuf, [("WEBKIT_DISABLE_DMABUF_RENDERER", "1")]);
    let nv = RenderMode::NvidiaLight.env_vars();
    assert!(nv
        .iter()
        .any(|&(k, _)| k == "WEBKIT_DISABLE_DMABUF_RENDERER"));
    assert!(nv.iter().any(|&(k, _)| k == "__NV_DISABLE_EXPLICIT_SYNC"));
    let safe = RenderMode::Safe.env_vars();
    assert!(safe
        .iter()
        .any(|&(k, _)| k == "WEBKIT_DISABLE_DMABUF_RENDERER"));
    assert!(safe
        .iter()
        .any(|&(k, _)| k == "WEBKIT_DISABLE_COMPOSITING_MODE"));
}

#[test]
fn render_mode_slugs_round_trip_through_parser() {
    for &m in &[
        RenderMode::Native,
        RenderMode::DmabufOff,
        RenderMode::NvidiaLight,
        RenderMode::Safe,
    ] {
        let parsed = parse_mode_override(m.slug()).unwrap();
        assert_eq!(
            parsed,
            ModeOverride::Explicit(m),
            "slug {} did not round-trip",
            m.slug()
        );
    }
    // "auto" maps to the Auto sentinel, not a mode.
    assert_eq!(parse_mode_override("auto"), Some(ModeOverride::Auto));
    assert_eq!(parse_mode_override("AUTO"), Some(ModeOverride::Auto));
    assert_eq!(
        parse_mode_override("safe\n"),
        Some(ModeOverride::Explicit(RenderMode::Safe))
    );
}

#[test]
fn parse_mode_override_rejects_garbage() {
    assert_eq!(parse_mode_override(""), None);
    assert_eq!(parse_mode_override("unknown-mode"), None);
    assert_eq!(parse_mode_override("on"), None);
}

#[test]
fn decide_mode_explicit_override_wins_over_everything() {
    // Even with recovery needed AND a Wayland/NVIDIA situation, the
    // explicit override is honoured verbatim.
    let (mode, _) = decide_mode(
        Some(RenderMode::Native),
        /* recovery */ true,
        DisplayServer::Wayland,
        GpuVendor::Nvidia,
    );
    assert_eq!(mode, RenderMode::Native);
}

#[test]
fn decide_mode_recovery_falls_back_to_safe() {
    let (mode, reason) = decide_mode(None, true, DisplayServer::Wayland, GpuVendor::Amd);
    assert_eq!(mode, RenderMode::Safe);
    assert!(reason.contains("crash recovery"));
}

#[test]
fn decide_mode_x11_is_always_native() {
    for gpu in [
        GpuVendor::Nvidia,
        GpuVendor::Amd,
        GpuVendor::Intel,
        GpuVendor::Unknown,
    ] {
        let (mode, _) = decide_mode(None, false, DisplayServer::X11, gpu);
        assert_eq!(mode, RenderMode::Native, "X11 + {gpu:?} should be Native");
    }
}

#[test]
fn decide_mode_wayland_nvidia_uses_light_touch() {
    let (mode, _) = decide_mode(None, false, DisplayServer::Wayland, GpuVendor::Nvidia);
    assert_eq!(mode, RenderMode::NvidiaLight);
}

#[test]
fn decide_mode_wayland_amd_or_intel_disables_dmabuf_only() {
    for gpu in [GpuVendor::Amd, GpuVendor::Intel] {
        let (mode, _) = decide_mode(None, false, DisplayServer::Wayland, gpu);
        assert_eq!(
            mode,
            RenderMode::DmabufOff,
            "Wayland + {gpu:?} should be DmabufOff"
        );
    }
}

#[test]
fn decide_mode_wayland_unknown_vendor_is_conservative_dmabuf_off() {
    let (mode, _) = decide_mode(None, false, DisplayServer::Wayland, GpuVendor::Unknown);
    assert_eq!(mode, RenderMode::DmabufOff);
}

#[test]
fn decide_mode_unknown_display_is_native() {
    let (mode, _) = decide_mode(None, false, DisplayServer::Unknown, GpuVendor::Nvidia);
    assert_eq!(mode, RenderMode::Native);
}

#[test]
fn parse_config_mode_basic() {
    assert_eq!(
        parse_config_mode("mode = safe\n"),
        Some(ModeOverride::Explicit(RenderMode::Safe))
    );
    assert_eq!(
        parse_config_mode("mode=native"),
        Some(ModeOverride::Explicit(RenderMode::Native))
    );
    assert_eq!(
        parse_config_mode("mode = \"nvidia-light\""),
        Some(ModeOverride::Explicit(RenderMode::NvidiaLight))
    );
    assert_eq!(parse_config_mode("mode = auto"), Some(ModeOverride::Auto));
}

#[test]
fn parse_config_mode_ignores_comments_and_other_keys() {
    let body = "\
# header comment\n\
something = else\n\
mode = dmabuf-off   # inline comment\n\
trailing = ignored\n\
";
    assert_eq!(
        parse_config_mode(body),
        Some(ModeOverride::Explicit(RenderMode::DmabufOff))
    );
}

#[test]
fn parse_config_mode_returns_none_when_absent() {
    assert_eq!(parse_config_mode(""), None);
    assert_eq!(parse_config_mode("# just a comment\nother = value\n"), None);
}

#[test]
fn parse_config_mode_returns_none_for_unknown_value() {
    assert_eq!(parse_config_mode("mode = lol"), None);
}

// ---------- override resolution ----------

#[test]
fn resolve_user_override_env_wins_over_config_file() {
    // Env says safe; file says native; env wins.
    let r = resolve_user_override(Some("safe"), Some("mode = native"));
    assert_eq!(r, Some(ModeOverride::Explicit(RenderMode::Safe)));
}

#[test]
fn resolve_user_override_falls_through_to_config_file() {
    let r = resolve_user_override(None, Some("mode = dmabuf-off\n"));
    assert_eq!(r, Some(ModeOverride::Explicit(RenderMode::DmabufOff)));
}

#[test]
fn resolve_user_override_returns_none_when_neither_set() {
    // No file, no env.
    assert_eq!(resolve_user_override(None, None), None);
}

#[test]
fn resolve_user_override_ignores_garbage_env_then_tries_config() {
    // Garbage env → fall through to file.
    let r = resolve_user_override(Some("nonsense"), Some("mode = safe"));
    assert_eq!(r, Some(ModeOverride::Explicit(RenderMode::Safe)));
}

// ---------- the state log ----------

#[test]
fn write_state_log_produces_inspectable_file() {
    let body = state_log_body(
        "/tmp/render.conf",
        RenderMode::NvidiaLight,
        "test reason",
        DisplayServer::Wayland,
        GpuVendor::Nvidia,
        false,
        false,
    );
    assert!(body.contains("mode = nvidia-light"));
    assert!(body.contains("reason = test reason"));
    assert!(body.contains("display = Wayland"));
    assert!(body.contains("gpu = Nvidia"));
    // Applied env should list both NVIDIA-light vars.
    assert!(body.contains("WEBKIT_DISABLE_DMABUF_RENDERER=1"));
    assert!(body.contains("__NV_DISABLE_EXPLICIT_SYNC=1"));
}

#[test]
fn write_state_log_native_shows_no_env_applied() {
    let body = state_log_body(
        "/tmp/render.conf",
        RenderMode::Native,
        "X11 session: WebKit defaults work reliably",
        DisplayServer::X11,
        GpuVendor::Amd,
        false,
        false,
    );
    assert!(body.contains("mode = native"));
    assert!(body.contains("applied_env =\n  (none)"));
}

#[test]
fn state_log_is_exact() {
    let body = state_log_body(
        "/cfg/render.conf",
        RenderMode::Safe,
        "why",
        DisplayServer::Unknown,
        GpuVendor::Unknown,
        true,
        false,
    );
    assert_eq!(
        body,
        "# Last-launch render policy snapshot.\n\
         # Overwritten each launch. Override via FRANK_SCANLATION_RENDER_MODE=...\n\
         # or by editing /cfg/render.conf.\n\
         mode = safe\n\
         reason = why\n\
         display = Unknown\n\
         gpu = Unknown\n\
         overridden_by_user = true\n\
         recovery_active = false\n\
         applied_env =\n  WEBKIT_DISABLE_DMABUF_RENDERER=1\n  WEBKIT_DISABLE_COMPOSITING_MODE=1\n"
    );
}

// ---------- paths ----------

#[test]
fn paths_are_files_of_the_config_dir() {
    let dir = Path::new("/home/u/.config/app");
    assert_eq!(render_config_path(dir), Path::new("/home/u/.config/app/render.conf"));
    assert_eq!(recovery_marker_path(dir), Path::new("/home/u/.config/app/render-recovery"));
    assert_eq!(render_state_log_path(dir), Path::new("/home/u/.config/app/render-state.log"));
}

#[test]
fn joined_path_has_the_components_of_the_dir_and_the_name() {
    for dir in ["", "/", ".", "a/b", "a/b/", "../x"] {
        let joined = render_config_path(Path::new(dir));
        let mut expected: Vec<String> = Path::new(dir)
            .components()
            .map(|c| c.as_os_str().to_string_lossy().into_owned())
            .collect();
        expected.push("render.conf".to_string());
        let found: Vec<String> = joined
            .components()
            .map(|c| c.as_os_str().to_string_lossy().into_owned())
            .collect();
        assert_eq!(found, expected, "dir {}", dir);
    }
}

// ---------- detection ----------

fn entry(name: &str, vendor: Option<&str>) -> DrmEntry {
    DrmEntry { name: name.to_string(), vendor: vendor.map(|v| v.to_string()) }
}

#[test]
fn only_cards_are_card_entries() {
    assert!(is_card_entry("card0"));
    assert!(is_card_entry("card1"));
    assert!(!is_card_entry("card0-HDMI-A-1"));
    assert!(!is_card_entry("renderD128"));
    assert!(!is_card_entry(""));
}

#[test]
fn first_recognised_card_decides_the_vendor() {
    let entries = vec![
        entry("renderD128", Some("0x10de")),
        entry("card0-DP-1", Some("0x10de")),
        entry("card0", None),
        entry("card1", Some("0xffff\n")),
        entry("card2", Some("0x1002\n")),
        entry("card3", Some("0x8086\n")),
    ];
    assert_eq!(gpu_vendor_from_entries(&entries), GpuVendor::Amd);
    assert_eq!(gpu_vendor_from_entries(&Vec::new()), GpuVendor::Unknown);
}

#[test]
fn wayland_wins_over_x11() {
    assert_eq!(display_server_from_env(true, true), DisplayServer::Wayland);
    assert_eq!(display_server_from_env(true, false), DisplayServer::Wayland);
    assert_eq!(display_server_from_env(false, true), DisplayServer::X11);
    assert_eq!(display_server_from_env(false, false), DisplayServer::Unknown);
}

#[test]
fn vendor_prefix_is_stripped_repeatedly() {
    assert_eq!(parse_vendor_hex("0x0x10de"), GpuVendor::Nvidia);
    assert_eq!(parse_vendor_hex("\u{130}x10de"), GpuVendor::Unknown);
}

// ---------- the environment ----------

#[test]
fn env_vars_the_user_set_are_left_alone() {
    assert_eq!(
        env_vars_to_set(RenderMode::Safe, &vec![true, false]),
        vec![("WEBKIT_DISABLE_COMPOSITING_MODE", "1")]
    );
    assert_eq!(
        env_vars_to_set(RenderMode::NvidiaLight, &vec![false, false]),
        vec![("WEBKIT_DISABLE_DMABUF_RENDERER", "1"), ("__NV_DISABLE_EXPLICIT_SYNC", "1")]
    );
    assert_eq!(env_vars_to_set(RenderMode::DmabufOff, &vec![true]), Vec::new());
    assert_eq!(env_vars_to_set(RenderMode::Native, &Vec::new()), Vec::new());
}

// ---------- the config file ----------

#[test]
fn first_mode_entry_of_a_config_file_counts() {
    assert_eq!(
        parse_config_mode("mode = 'safe'\r\nmode = native\n"),
        Some(ModeOverride::Explicit(RenderMode::Safe))
    );
    assert_eq!(parse_config_mode("mode = lol\nmode = safe\n"), None);
    assert_eq!(parse_config_mode("#mode = safe\nmode"), None);
    assert_eq!(
        parse_config_mode("  MODE = safe\n mode = DMABUF-OFF"),
        Some(ModeOverride::Explicit(RenderMode::DmabufOff))
    );
}

#[test]
fn decisions_give_their_reason() {
    let (mode, reason) = decide_mode(None, false, DisplayServer::X11, GpuVendor::Amd);
    assert_eq!(mode, RenderMode::Native);
    assert_eq!(reason, "X11 session: WebKit defaults work reliably");
}
