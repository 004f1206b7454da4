use nether_raytracer::layout::{
    create_bedrock_pillars, create_nether_terrain, create_single_portal, Block, BlockMaterial,
};
use nether_raytracer::texture::{quality_for_distance, Texture, TextureQuality, TextureType};

fn has_duplicates(v: &[Block]) -> bool {
    for i in 0..v.len() {
        for j in (i + 1)..v.len() {
            if v[i] == v[j] {
                return true;
            }
        }
    }
    false
}

fn count(v: &[Block], m: BlockMaterial) -> usize {
    v.iter().filter(|b| b.material == m).count()
}

#[test]
fn terrain_blocks() {
    let t = create_nether_terrain();
    assert_eq!(t.len(), 941);
    assert_eq!(count(&t, BlockMaterial::Lava), 8);
    assert!(!has_duplicates(&t));
    let floor = Block { x: -10, y: -1, z: 9, material: BlockMaterial::Netherrack };
    assert!(t.contains(&floor));
    // x + z + y = -3 is odd, -2 is even.
    assert!(!t.contains(&Block { x: 0, y: -3, z: 0, material: BlockMaterial::Netherrack }));
    assert!(t.contains(&Block { x: 0, y: -2, z: 0, material: BlockMaterial::Netherrack }));
    assert!(t.contains(&Block { x: -4, y: -4, z: 1, material: BlockMaterial::Netherrack }));
    assert!(!t.contains(&Block { x: -4, y: -4, z: 2, material: BlockMaterial::Netherrack }));
    assert!(t.contains(&Block { x: 6, y: 0, z: 6, material: BlockMaterial::Lava }));
    assert!(!t.contains(&Block { x: 10, y: -1, z: 0, material: BlockMaterial::Netherrack }));
}

#[test]
fn pillar_blocks() {
    let p = create_bedrock_pillars();
    assert_eq!(p.len(), 6 + 7 + 5);
    assert!(!has_duplicates(&p));
    assert!(p.iter().all(|b| b.material == BlockMaterial::Obsidian));
    assert!(p.contains(&Block { x: 8, y: 5, z: 8, material: BlockMaterial::Obsidian }));
    assert!(!p.contains(&Block { x: 8, y: 6, z: 8, material: BlockMaterial::Obsidian }));
    assert!(p.contains(&Block { x: -7, y: 6, z: -7, material: BlockMaterial::Obsidian }));
    assert!(!p.contains(&Block { x: 6, y: 5, z: -6, material: BlockMaterial::Obsidian }));
}

#[test]
fn portal_blocks() {
    let p = create_single_portal();
    assert_eq!(p.len(), 31);
    assert!(!has_duplicates(&p));
    assert_eq!(count(&p, BlockMaterial::Portal), 15);
    assert_eq!(count(&p, BlockMaterial::Obsidian), 16);
    assert!(p.contains(&Block { x: 3, y: 4, z: 0, material: BlockMaterial::Obsidian }));
    assert!(p.contains(&Block { x: 1, y: 5, z: 0, material: BlockMaterial::Obsidian }));
    assert!(p.contains(&Block { x: 2, y: 2, z: 0, material: BlockMaterial::Portal }));
    assert!(!p.contains(&Block { x: -1, y: -1, z: 0, material: BlockMaterial::Obsidian }));
}

#[test]
fn texture_constructors() {
    assert_eq!(Texture::animated_fire().texture_type, TextureType::AnimatedFire);
    assert_eq!(Texture::nether_portal().texture_type, TextureType::NetherPortal);
    assert_eq!(Texture::minecraft_stone().texture_type, TextureType::MinecraftStone);
    assert_eq!(Texture::minecraft_glowstone().texture_type, TextureType::MinecraftGlowstone);
    assert_eq!(Texture::minecraft_obsidian().texture_type, TextureType::MinecraftObsidian);
}

#[test]
fn quality_tiers_by_distance() {
    assert_eq!(quality_for_distance(3, 10, 20), TextureQuality::High);
    assert_eq!(quality_for_distance(10, 10, 20), TextureQuality::Medium);
    assert_eq!(quality_for_distance(19, 10, 20), TextureQuality::Medium);
    assert_eq!(quality_for_distance(20, 10, 20), TextureQuality::Low);
    // Keys of non-negative floats order as the floats do.
    let key = |t: f32| t.to_bits();
    assert_eq!(quality_for_distance(key(4.5), key(10.0), key(20.0)), TextureQuality::High);
    assert_eq!(quality_for_distance(key(12.0), key(10.0), key(20.0)), TextureQuality::Medium);
    assert_eq!(quality_for_distance(key(200.0), key(10.0), key(20.0)), TextureQuality::Low);
}
