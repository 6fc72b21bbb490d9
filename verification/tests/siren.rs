use crazydog::siren::{marker_request, Color, Marker, SirenState};

#[test]
fn siren_starts_dark() {
    let mut siren = SirenState::default();
    for _ in 0..5 {
        let out = siren.tick();
        assert_eq!(out.marker, None);
        assert_eq!(out.visual, "SIREN:OFF");
        assert!(!out.enabled);
    }
}

#[test]
fn siren_flashes_blue_and_red() {
    let mut siren = SirenState::default();
    siren.switch(true);
    let mut seen = Vec::new();
    for i in 0..12 {
        let out = siren.tick();
        assert!(out.enabled);
        assert_eq!(siren.flash_counter, i + 1);
        seen.push((out.marker, out.visual));
    }
    let red = "SIREN:RED";
    let blue = "SIREN:BLUE";
    assert_eq!(
        seen,
        vec![
            (None, blue),
            (None, blue),
            (Some(Marker::Red), red),
            (None, red),
            (None, red),
            (Some(Marker::Blue), blue),
            (None, blue),
            (None, blue),
            (Some(Marker::Red), red),
            (None, red),
            (None, red),
            (Some(Marker::Blue), blue),
        ]
    );
}

#[test]
fn siren_is_hidden_once() {
    let mut siren = SirenState::default();
    siren.switch(true);
    for _ in 0..4 {
        siren.tick();
    }
    assert!(siren.flash_on);
    siren.switch(false);
    assert!(!siren.flash_on);
    let out = siren.tick();
    assert_eq!(out.marker, Some(Marker::Hidden));
    assert_eq!(out.visual, "SIREN:OFF");
    assert!(!out.enabled);
    for _ in 0..4 {
        assert_eq!(siren.tick().marker, None);
    }
}

#[test]
fn repeated_commands_do_not_restart_the_siren() {
    let mut siren = SirenState::default();
    siren.switch(true);
    siren.tick();
    siren.tick();
    let before = siren;
    siren.switch(true);
    assert_eq!(siren, before);
    assert_eq!(siren.tick().marker, Some(Marker::Red));
    siren.switch(false);
    let off = siren;
    siren.switch(false);
    assert_eq!(siren, off);
}

#[test]
fn siren_that_is_switched_off_and_on_between_ticks_starts_over() {
    let mut siren = SirenState::default();
    siren.switch(true);
    for _ in 0..3 {
        siren.tick();
    }
    assert!(siren.flash_on && siren.prev_flash_on);
    siren.switch(false);
    siren.switch(true);
    assert_eq!(siren.flash_counter, 0);
    // the marker still shows red, the light is blue again
    let out = siren.tick();
    assert_eq!(out.marker, Some(Marker::Blue));
    assert_eq!(out.visual, "SIREN:BLUE");
}

#[test]
fn counter_of_a_dark_siren_rests() {
    let mut siren = SirenState::default();
    siren.flash_counter = u32::MAX;
    siren.tick();
    assert_eq!(siren.flash_counter, u32::MAX);
}

/// The request for a color.
fn expected_request(r: f32, g: f32, b: f32, visible: bool) -> String {
    let scale = if visible { 0.06 } else { 0.001 };
    let color = format!("r: {}, g: {}, b: {}, a: 1", r, g, b);
    format!(
        "action: ADD_MODIFY, ns: \"siren\", id: 1, type: SPHERE, parent: \"go2::siren_link\", pose: {{position: {{x: 0, y: 0, z: 0}}}}, scale: {{x: {s}, y: {s}, z: {s}}}, material: {{ambient: {{{c}}}, diffuse: {{{c}}}, emissive: {{{c}}}}}",
        s = scale,
        c = color
    )
}

#[test]
fn marker_request_is_what_the_service_expects() {
    for (marker, r, g, b, visible) in [
        (Marker::Red, 1.0f32, 0.0f32, 0.0f32, true),
        (Marker::Blue, 0.0, 0.2, 1.0, true),
        (Marker::Hidden, 0.0, 0.0, 0.0, false),
    ] {
        assert_eq!(marker.is_visible(), visible);
        assert_eq!(marker_request(marker.color(), marker.is_visible()), expected_request(r, g, b, visible));
    }
}

#[test]
fn hidden_marker_may_keep_its_color() {
    let shown = marker_request(Marker::Blue.color(), true);
    let hidden = marker_request(Marker::Blue.color(), false);
    assert_eq!(shown, expected_request(0.0, 0.2, 1.0, true));
    assert_eq!(hidden, expected_request(0.0, 0.2, 1.0, false));
    assert_eq!(shown.replace("0.06", "0.001"), hidden);
    let own = Color { r: "0.5", g: "0.25", b: "0.75" };
    assert_eq!(marker_request(own, true), expected_request(0.5, 0.25, 0.75, true));
}
