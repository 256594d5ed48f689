use wboit_demo::bench::{mode_file_name, screenshot_needs_suffix};
use wboit_demo::controls::{
    event_reaches_viewer, key_command, next_cap, Command, Effect, EventKind, KeyInput, ViewerState,
};
use wboit_demo::quality::{candidate_modes, view_count, QualityError};
use wboit_demo::renderer::{choose_alpha_mode, choose_surface_format, visible_objects, AlphaModeChoice, RenderMode};

fn text(s: &str) -> KeyInput {
    KeyInput::Text(s.as_bytes().to_vec())
}

#[test]
fn number_keys_pick_modes() {
    assert_eq!(key_command(&text("1"), true, false), Command::SetMode(RenderMode::AlphaBlend));
    assert_eq!(key_command(&text("2"), true, false), Command::SetMode(RenderMode::NaiveWboit));
    assert_eq!(key_command(&text("3"), true, true), Command::SetMode(RenderMode::HistogramWboit));
    assert_eq!(key_command(&text("4"), true, true), Command::Nothing);
}

#[test]
fn letter_keys_ignore_case() {
    for (lower, upper, cmd) in [
        ("a", "A", Command::ToggleExactAlpha),
        ("r", "R", Command::ResetCamera),
        ("m", "M", Command::ToggleMeshes),
        ("w", "W", Command::ToggleBackground),
        ("b", "B", Command::CycleBins),
        ("t", "T", Command::CycleTile),
        ("o", "O", Command::ToggleOpaque),
    ] {
        assert_eq!(key_command(&text(lower), true, false), cmd);
        assert_eq!(key_command(&text(upper), true, false), cmd);
    }
    assert_eq!(key_command(&text("["), true, false), Command::ShrinkSplats);
    assert_eq!(key_command(&text("]"), true, false), Command::GrowSplats);
}

#[test]
fn cap_key_needs_a_splat_scene() {
    assert_eq!(key_command(&text("c"), true, true), Command::CycleCap);
    assert_eq!(key_command(&text("C"), true, true), Command::CycleCap);
    assert_eq!(key_command(&text("c"), true, false), Command::Nothing);
}

#[test]
fn only_presses_act_and_escape_quits() {
    assert_eq!(key_command(&text("1"), false, true), Command::Nothing);
    assert_eq!(key_command(&KeyInput::Escape, true, false), Command::Exit);
    assert_eq!(key_command(&KeyInput::Escape, false, false), Command::Nothing);
    assert_eq!(key_command(&KeyInput::Other, true, false), Command::Nothing);
    assert_eq!(key_command(&text("ab"), true, true), Command::Nothing);
    assert_eq!(key_command(&text(""), true, true), Command::Nothing);
}

#[test]
fn benchmarks_ignore_input() {
    for kind in [EventKind::CloseRequested, EventKind::Resized, EventKind::RedrawRequested] {
        assert!(event_reaches_viewer(true, kind));
        assert!(event_reaches_viewer(false, kind));
    }
    for kind in [
        EventKind::Keyboard,
        EventKind::MouseButton,
        EventKind::CursorMoved,
        EventKind::MouseWheel,
        EventKind::Other,
    ] {
        assert!(!event_reaches_viewer(true, kind));
        assert!(event_reaches_viewer(false, kind));
    }
}

#[test]
fn cap_steps_wrap_around() {
    assert_eq!(next_cap(0), 1);
    assert_eq!(next_cap(2), 3);
    assert_eq!(next_cap(3), 0);
    let mut cap = 1;
    for _ in 0..4 {
        cap = next_cap(cap);
    }
    assert_eq!(cap, 1);
}

#[test]
fn hidden_extra_meshes_are_not_drawn() {
    let extra = [false, true, false, true, true, false];
    assert_eq!(visible_objects(&extra, false, false), vec![0, 2, 5]);
    assert_eq!(visible_objects(&extra, true, false), vec![0, 1, 2, 3, 4, 5]);
    assert_eq!(visible_objects(&extra, true, true), Vec::<usize>::new());
    assert_eq!(visible_objects(&[], false, false), Vec::<usize>::new());
}

#[test]
fn the_reference_mode_is_not_a_candidate() {
    let all = RenderMode::all();
    assert_eq!(
        candidate_modes(&all),
        Ok(vec![RenderMode::NaiveWboit, RenderMode::HistogramWboit])
    );
    assert_eq!(
        candidate_modes(&[RenderMode::HistogramWboit, RenderMode::AlphaBlend, RenderMode::NaiveWboit]),
        Ok(vec![RenderMode::HistogramWboit, RenderMode::NaiveWboit])
    );
    assert_eq!(
        candidate_modes(&[RenderMode::AlphaBlend]),
        Err(QualityError::NoCandidateModes)
    );
    assert_eq!(candidate_modes(&[]), Err(QualityError::NoCandidateModes));
}

#[test]
fn at_least_one_view_is_scored() {
    assert_eq!(view_count(0), 1);
    assert_eq!(view_count(1), 1);
    assert_eq!(view_count(16), 16);
}

#[test]
fn screenshots_are_named_per_mode() {
    assert!(!screenshot_needs_suffix(0));
    assert!(!screenshot_needs_suffix(1));
    assert!(screenshot_needs_suffix(3));
    assert_eq!(
        mode_file_name(b"frame", Some(b"png"), RenderMode::NaiveWboit),
        b"frame.mode2.png".to_vec()
    );
    assert_eq!(
        mode_file_name(b"frame", None, RenderMode::HistogramWboit),
        b"frame.mode3".to_vec()
    );
    assert_eq!(mode_file_name(b"", Some(b""), RenderMode::AlphaBlend), b".mode1.".to_vec());
}

#[test]
fn surface_setup_prefers_srgb_and_premultiplied_alpha() {
    assert_eq!(choose_surface_format(&[false, true, true]), 1);
    assert_eq!(choose_surface_format(&[true]), 0);
    assert_eq!(choose_surface_format(&[false, false]), 0);
    assert_eq!(choose_alpha_mode(true, true), AlphaModeChoice::PreMultiplied);
    assert_eq!(choose_alpha_mode(false, true), AlphaModeChoice::PostMultiplied);
    assert_eq!(choose_alpha_mode(false, false), AlphaModeChoice::FirstSupported);
}

#[test]
fn key_presses_turn_the_viewer_switches() {
    let start = ViewerState::new(false, false);
    assert_eq!(start.mode, RenderMode::AlphaBlend);
    assert!(start.exact_alpha && start.opaque_background);
    assert_eq!(start.cap, 0);

    let mut s = start;
    assert_eq!(s.press(&text("3"), true, true), Effect::Nothing);
    assert_eq!(s.mode, RenderMode::HistogramWboit);
    assert_eq!(s.press(&text("A"), true, true), Effect::Nothing);
    assert!(!s.exact_alpha);
    assert_eq!(s.press(&text("m"), true, true), Effect::Nothing);
    assert!(s.show_meshes);
    assert_eq!(s.press(&text("w"), true, true), Effect::Nothing);
    assert!(!s.opaque_background);
    assert_eq!(s.press(&text("o"), true, true), Effect::Nothing);
    assert!(s.force_opaque);
    assert_eq!(s.press(&text("r"), true, true), Effect::ResetCamera);
    assert_eq!(s.press(&text("b"), true, true), Effect::CycleBins);
    assert_eq!(s.press(&text("T"), true, true), Effect::CycleTile);
    assert_eq!(s.press(&text("["), true, true), Effect::ShrinkSplats);
    assert_eq!(s.press(&text("]"), true, true), Effect::GrowSplats);
    assert_eq!(s.press(&KeyInput::Escape, true, true), Effect::Exit);

    let before = s;
    assert_eq!(s.press(&text("c"), true, true), Effect::ApplyCap(1));
    assert_eq!(s.cap, 1);
    for want in [2, 3, 0] {
        assert_eq!(s.press(&text("C"), true, true), Effect::ApplyCap(want));
    }
    assert_eq!(s, before);
    // Without a splat scene, or on release, nothing changes.
    assert_eq!(s.press(&text("c"), true, false), Effect::Nothing);
    assert_eq!(s.press(&text("1"), false, true), Effect::Nothing);
    assert_eq!(s, before);
}
