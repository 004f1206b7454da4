use nether_raytracer::settings::{
    casts_shadow_ray, light_contributes, may_reflect, returns_background, LightType,
    RenderCommand, RenderState, ShadowMode,
};

#[test]
fn initial_state() {
    let s = RenderState::initial();
    assert_eq!(s.scale_factor, 3);
    assert_eq!(s.shadow_mode, ShadowMode::Off);
    assert_eq!(s.max_depth, 2);
    assert!(s.ultra_mode);
    assert!(!s.checker_phase);
}

#[test]
fn depth_is_clamped_between_one_and_six() {
    let mut s = RenderState::initial();
    for _ in 0..10 {
        s.apply(RenderCommand::DeeperRecursion);
    }
    assert_eq!(s.max_depth, 6);
    for _ in 0..10 {
        s.apply(RenderCommand::ShallowerRecursion);
    }
    assert_eq!(s.max_depth, 1);
    s.apply(RenderCommand::DeeperRecursion);
    assert_eq!(s.max_depth, 2);
}

#[test]
fn scale_commands() {
    let mut s = RenderState::initial();
    s.apply(RenderCommand::SetScale(1));
    assert_eq!(s.scale_factor, 1);
    s.apply(RenderCommand::SetScale(4));
    assert_eq!(s.scale_factor, 4);
    s.apply(RenderCommand::SetScale(9));
    assert_eq!(s.scale_factor, 4);
    s.apply(RenderCommand::SetScale(0));
    assert_eq!(s.scale_factor, 4);
}

#[test]
fn shadow_and_ultra_commands() {
    let mut s = RenderState::initial();
    s.apply(RenderCommand::SetShadowMode(ShadowMode::Full));
    assert_eq!(s.shadow_mode, ShadowMode::Full);
    s.apply(RenderCommand::SetShadowMode(ShadowMode::SunOnly));
    assert_eq!(s.shadow_mode, ShadowMode::SunOnly);
    s.apply(RenderCommand::ToggleUltra);
    assert!(!s.ultra_mode);
    s.apply(RenderCommand::ToggleUltra);
    assert!(s.ultra_mode);
}

#[test]
fn phase_flips_only_in_ultra_mode() {
    let mut s = RenderState::initial();
    s.finish_frame();
    assert!(s.checker_phase);
    s.finish_frame();
    assert!(!s.checker_phase);
    s.apply(RenderCommand::ToggleUltra);
    s.finish_frame();
    assert!(!s.checker_phase);
}

#[test]
fn shadow_policy() {
    for kind in [LightType::Point, LightType::Sun] {
        assert!(!casts_shadow_ray(ShadowMode::Off, kind));
        assert!(light_contributes(ShadowMode::Off, kind, true));
        assert!(light_contributes(ShadowMode::Off, kind, false));
        assert!(casts_shadow_ray(ShadowMode::Full, kind));
        assert!(!light_contributes(ShadowMode::Full, kind, true));
        assert!(light_contributes(ShadowMode::Full, kind, false));
    }
    assert!(casts_shadow_ray(ShadowMode::SunOnly, LightType::Sun));
    assert!(!casts_shadow_ray(ShadowMode::SunOnly, LightType::Point));
    assert!(light_contributes(ShadowMode::SunOnly, LightType::Point, true));
    assert!(!light_contributes(ShadowMode::SunOnly, LightType::Sun, true));
}

#[test]
fn depth_policy() {
    assert!(returns_background(3, 2));
    assert!(!returns_background(2, 2));
    assert!(may_reflect(1, 2));
    assert!(!may_reflect(2, 2));
}
