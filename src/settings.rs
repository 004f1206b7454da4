use vstd::prelude::*;

verus! {

/// Which lights are tested for occlusion when shading a point.
#[derive(Clone, Copy, PartialEq, Eq, Structural, Debug)]
pub enum ShadowMode {
    /// No shadow rays: every light always contributes.
    Off,
    /// Only sun lights are tested; other lights always contribute.
    SunOnly,
    /// Every light is tested; an occluded light contributes nothing.
    Full,
}

/// The kind of a light source.
#[derive(Clone, Copy, PartialEq, Eq, Structural, Debug)]
pub enum LightType {
    Point,
    Sun,
}

pub open spec fn casts_shadow_ray_spec(mode: ShadowMode, kind: LightType) -> bool {
    match mode {
        ShadowMode::Off => false,
        ShadowMode::SunOnly => kind == LightType::Sun,
        ShadowMode::Full => true,
    }
}

pub open spec fn light_contributes_spec(mode: ShadowMode, kind: LightType, occluded: bool) -> bool {
    !casts_shadow_ray_spec(mode, kind) || !occluded
}

/// Whether shading casts a shadow ray toward a light of this kind.
pub fn casts_shadow_ray(mode: ShadowMode, kind: LightType) -> (r: bool)
    ensures
        r == casts_shadow_ray_spec(mode, kind),
{
    match mode {
        ShadowMode::Off => false,
        ShadowMode::SunOnly => match kind {
            LightType::Sun => true,
            LightType::Point => false,
        },
        ShadowMode::Full => true,
    }
}

/// Whether a light's diffuse and specular terms count at a point, given the
/// outcome of the shadow ray toward it (ignored when no shadow ray is cast).
pub fn light_contributes(mode: ShadowMode, kind: LightType, occluded: bool) -> (r: bool)
    ensures
        r == light_contributes_spec(mode, kind, occluded),
{
    !casts_shadow_ray(mode, kind) || !occluded
}

/// With shadows off no shadow ray is cast and a light contributes whether or
/// not something lies between it and the point; with full shadows an occluded
/// light never contributes.
pub proof fn lemma_shadow_modes(kind: LightType, occluded: bool)
    ensures
        !casts_shadow_ray_spec(ShadowMode::Off, kind),
        light_contributes_spec(ShadowMode::Off, kind, occluded) == light_contributes_spec(
            ShadowMode::Off,
            kind,
            !occluded,
        ),
        light_contributes_spec(ShadowMode::Off, kind, occluded),
        casts_shadow_ray_spec(ShadowMode::Full, kind),
        !light_contributes_spec(ShadowMode::Full, kind, true),
{
}

/// Whether `trace` at this depth answers with the background colour at once,
/// before any intersection query.
pub fn returns_background(depth: i32, max_depth: i32) -> (r: bool)
    ensures
        r == (depth > max_depth),
{
    depth > max_depth
}

/// Whether a reflective hit at this depth spawns a reflection ray.
pub fn may_reflect(depth: i32, max_depth: i32) -> (r: bool)
    ensures
        r == (depth < max_depth),
{
    depth < max_depth
}

pub open spec fn clamp_spec(v: int, lo: int, hi: int) -> int {
    if v < lo {
        lo
    } else if v > hi {
        hi
    } else {
        v
    }
}

/// Smallest recursion depth a user can select.
pub const MIN_DEPTH: i32 = 1;

/// Largest recursion depth a user can select.
pub const MAX_DEPTH: i32 = 6;

/// What the user can change between frames.
#[derive(Clone, Copy, PartialEq, Eq, Structural, Debug)]
pub enum RenderCommand {
    /// Trace at 1/n of the full resolution, n from 1 to 4.
    SetScale(usize),
    DeeperRecursion,
    ShallowerRecursion,
    SetShadowMode(ShadowMode),
    ToggleUltra,
}

/// The renderer's per-frame settings and the checkerboard phase.
#[derive(Clone, Copy, PartialEq, Eq, Structural, Debug)]
pub struct RenderState {
    pub scale_factor: usize,
    pub shadow_mode: ShadowMode,
    pub max_depth: i32,
    pub ultra_mode: bool,
    pub checker_phase: bool,
}

impl RenderState {
    pub open spec fn wf(&self) -> bool {
        &&& 1 <= self.scale_factor <= 4
        &&& MIN_DEPTH <= self.max_depth <= MAX_DEPTH
    }

    /// The state after a command.
    pub open spec fn applied(self, cmd: RenderCommand) -> RenderState {
        match cmd {
            RenderCommand::SetScale(n) => if 1 <= n <= 4 {
                RenderState { scale_factor: n, ..self }
            } else {
                self
            },
            RenderCommand::DeeperRecursion => RenderState {
                max_depth: clamp_spec(self.max_depth + 1, MIN_DEPTH as int, MAX_DEPTH as int) as i32,
                ..self
            },
            RenderCommand::ShallowerRecursion => RenderState {
                max_depth: clamp_spec(self.max_depth - 1, MIN_DEPTH as int, MAX_DEPTH as int) as i32,
                ..self
            },
            RenderCommand::SetShadowMode(m) => RenderState { shadow_mode: m, ..self },
            RenderCommand::ToggleUltra => RenderState { ultra_mode: !self.ultra_mode, ..self },
        }
    }

    /// Start-up settings: third resolution, no shadows, depth 2, checkerboard on.
    pub fn initial() -> (r: Self)
        ensures
            r.wf(),
            r.scale_factor == 3,
            r.shadow_mode == ShadowMode::Off,
            r.max_depth == 2,
            r.ultra_mode,
            !r.checker_phase,
    {
        RenderState {
            scale_factor: 3,
            shadow_mode: ShadowMode::Off,
            max_depth: 2,
            ultra_mode: true,
            checker_phase: false,
        }
    }

    /// Applies a user command; a scale outside 1..=4 changes nothing.
    pub fn apply(&mut self, cmd: RenderCommand)
        ensures
            *final(self) == old(self).applied(cmd),
            old(self).wf() ==> final(self).wf(),
    {
        match cmd {
            RenderCommand::SetScale(n) => {
                if 1 <= n && n <= 4 {
                    self.scale_factor = n;
                }
            },
            RenderCommand::DeeperRecursion => {
                let d = self.max_depth;
                self.max_depth = if d >= MAX_DEPTH {
                    MAX_DEPTH
                } else if d < MIN_DEPTH - 1 {
                    MIN_DEPTH
                } else {
                    d + 1
                };
            },
            RenderCommand::ShallowerRecursion => {
                let d = self.max_depth;
                self.max_depth = if d <= MIN_DEPTH {
                    MIN_DEPTH
                } else if d > MAX_DEPTH + 1 {
                    MAX_DEPTH
                } else {
                    d - 1
                };
            },
            RenderCommand::SetShadowMode(m) => {
                self.shadow_mode = m;
            },
            RenderCommand::ToggleUltra => {
                self.ultra_mode = !self.ultra_mode;
            },
        }
    }

    /// Ends a frame: in checkerboard mode the phase flips, so the next frame
    /// traces the other half of the pixels.
    pub fn finish_frame(&mut self)
        ensures
            final(self).checker_phase == (if old(self).ultra_mode {
                !old(self).checker_phase
            } else {
                old(self).checker_phase
            }),
            final(self).scale_factor == old(self).scale_factor,
            final(self).shadow_mode == old(self).shadow_mode,
            final(self).max_depth == old(self).max_depth,
            final(self).ultra_mode == old(self).ultra_mode,
    {
        if self.ultra_mode {
            self.checker_phase = !self.checker_phase;
        }
    }
}

} // verus!
