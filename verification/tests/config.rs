use muse::config::{
    cycle_scope, restored_scope_index, scope_preset, scope_presets, settings_for, ScopeMode, ScopeStyle, Settings,
    PRESET_COUNT,
};
use muse::effects::{beat_knobs, Aurora, Datamosh, Flag, Knob, KnobKind, Matrix, Prismatic, Sakura, Static};

#[test]
fn preset_table() {
    let p = scope_presets();
    assert_eq!(p.len(), PRESET_COUNT);
    let names: Vec<&str> = p.iter().map(|x| x.name).collect();
    assert_eq!(names, vec!["line", "fast", "mirror", "dots", "bars", "stereo xy", "spectrum"]);
    assert_eq!(p[1].window, 384);
    assert!(p[1].auto_gain);
    assert!(p[5].mode == ScopeMode::StereoXy);
    assert!(p[6].style == ScopeStyle::Spectrum);
    assert!(scope_preset(8).name == "fast");
}

#[test]
fn scope_cycling_wraps() {
    assert_eq!(cycle_scope(0, 1), 1);
    assert_eq!(cycle_scope(6, 1), 0);
    assert_eq!(cycle_scope(0, -1), 6);
    for i in 0..PRESET_COUNT {
        assert_eq!(cycle_scope(cycle_scope(i, 1), -1), i);
        assert_eq!(cycle_scope(cycle_scope(i, -3), 3), i);
    }
}

#[test]
fn settings_round_trip() {
    for i in 0..20 {
        let s = settings_for(i, "midnight");
        assert_eq!(s.theme.as_deref(), Some("midnight"));
        assert_eq!(restored_scope_index(&s), i % PRESET_COUNT);
    }
    let unknown = Settings { scope_preset: Some("nope".to_string()), theme: None };
    assert_eq!(restored_scope_index(&unknown), 0);
    let d = Settings::default();
    assert!(d.scope_preset.is_none() && d.theme.is_none());
    assert_eq!(restored_scope_index(&d), 0);
}

#[test]
fn knobs() {
    assert_eq!(Knob::BeatSync.label(), "beat sync");
    assert_eq!(Knob::FollowMouse.label(), "follow mouse");
    assert!(Knob::FollowMouse.kind() == KnobKind::Toggle);
    assert!(Knob::Wind.kind() == KnobKind::Range);
    assert!(beat_knobs() == vec![Knob::BeatSync]);
    assert!(Aurora.knobs() == vec![Knob::Speed, Knob::Intensity, Knob::BeatSync]);
    assert!(Sakura.knobs() == vec![Knob::Density, Knob::Speed, Knob::Wind, Knob::BeatSync, Knob::FollowMouse]);
    assert!(Matrix.knobs().len() == 4);
    assert!(Datamosh.knobs() == vec![Knob::Intensity, Knob::Disruption]);
    assert!(Prismatic.knobs() == vec![Knob::BeatSync]);
    assert!(Flag.knobs().is_empty());
    assert!(!Static.is_animated());
    assert!(Aurora.is_animated());
    assert!(Static.knobs().is_empty());
}
