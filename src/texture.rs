use vstd::prelude::*;

verus! {

/// The procedural patterns a surface can carry.
#[derive(Clone, Copy, PartialEq, Eq, Structural, Debug)]
pub enum TextureType {
    AnimatedFire,
    NetherPortal,
    MinecraftStone,
    MinecraftGlowstone,
    MinecraftObsidian,
}

/// The three sampling tiers: closer hits are sampled at a higher tier.
#[derive(Clone, Copy, PartialEq, Eq, Structural, Debug)]
pub enum TextureQuality {
    High,
    Medium,
    Low,
}

/// A texture reference: which procedural pattern to sample.
#[derive(Clone, Copy, PartialEq, Eq, Structural, Debug)]
pub struct Texture {
    pub texture_type: TextureType,
}

/// The tier at which to sample a texture for a hit at distance key `d`:
/// high nearer than `near`, medium nearer than `far`, low beyond.
pub fn quality_for_distance(d: u32, near: u32, far: u32) -> (q: TextureQuality)
    ensures
        q == (if d < near {
            TextureQuality::High
        } else if d < far {
            TextureQuality::Medium
        } else {
            TextureQuality::Low
        }),
{
    if d < near {
        TextureQuality::High
    } else if d < far {
        TextureQuality::Medium
    } else {
        TextureQuality::Low
    }
}

impl Texture {
    /// Flickering fire, as on lava.
    pub fn animated_fire() -> (r: Self)
        ensures
            r.texture_type == TextureType::AnimatedFire,
    {
        Texture { texture_type: TextureType::AnimatedFire }
    }

    /// The swirling purple of a portal.
    pub fn nether_portal() -> (r: Self)
        ensures
            r.texture_type == TextureType::NetherPortal,
    {
        Texture { texture_type: TextureType::NetherPortal }
    }

    /// Grey stone speckled by noise.
    pub fn minecraft_stone() -> (r: Self)
        ensures
            r.texture_type == TextureType::MinecraftStone,
    {
        Texture { texture_type: TextureType::MinecraftStone }
    }

    /// Pulsing yellow glowstone.
    pub fn minecraft_glowstone() -> (r: Self)
        ensures
            r.texture_type == TextureType::MinecraftGlowstone,
    {
        Texture { texture_type: TextureType::MinecraftGlowstone }
    }

    /// Dark obsidian with faint highlights.
    pub fn minecraft_obsidian() -> (r: Self)
        ensures
            r.texture_type == TextureType::MinecraftObsidian,
    {
        Texture { texture_type: TextureType::MinecraftObsidian }
    }
}

} // verus!
