use beatmatcher::surface::{AppMode, SurfaceControl};

#[test]
fn a_surface_drives_the_decks_before_any_mode_is_set() {
    assert!(SurfaceControl::default().allowed());
}

#[test]
fn only_performance_mode_lets_a_surface_drive_the_decks() {
    let mut surface = SurfaceControl::default();
    for (mode, expected) in [
        (AppMode::Session, false),
        (AppMode::Edit, false),
        (AppMode::Performance, true),
    ] {
        surface.allow(mode);
        assert_eq!(surface.allowed(), expected, "{mode:?}");
    }
}
