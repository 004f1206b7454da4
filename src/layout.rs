use vstd::prelude::*;

verus! {

/// What a unit cube of the scene is made of.
#[derive(Clone, Copy, PartialEq, Eq, Structural, Debug)]
pub enum BlockMaterial {
    Netherrack,
    Lava,
    Obsidian,
    Portal,
}

/// A unit cube whose minimum corner sits on integer grid coordinates.
#[derive(Clone, Copy, PartialEq, Eq, Structural, Debug)]
pub struct Block {
    pub x: i32,
    pub y: i32,
    pub z: i32,
    pub material: BlockMaterial,
}

/// Half the side of the square terrain: columns run from -10 to 9 on x and z.
pub const TERRAIN_HALF: i32 = 10;

/// Inner width and height of the portal, whose frame stands at x = -1 and
/// x = PORTAL_WIDTH, y = -1 and y = PORTAL_HEIGHT, on the plane z = 0.
pub const PORTAL_WIDTH: i32 = 3;

pub const PORTAL_HEIGHT: i32 = 5;

pub open spec fn in_terrain_grid(x: int, z: int) -> bool {
    -TERRAIN_HALF <= x < TERRAIN_HALF && -TERRAIN_HALF <= z < TERRAIN_HALF
}

/// The netherrack layers of column (x, z): the floor at y = -1, a checkered
/// pair of layers below it, and a sparse layer at y = -4.
pub open spec fn netherrack_layer(x: int, y: int, z: int) -> bool {
    ||| y == -1
    ||| (y == -3 || y == -2) && (x + z + y) % 2 == 0
    ||| y == -4 && (x + z) % 3 == 0
}

/// The two 2x2 lava pools, level with the top of the floor.
pub open spec fn lava_cell(x: int, y: int, z: int) -> bool {
    &&& y == 0
    &&& {
        ||| -6 <= x <= -5 && -6 <= z <= -5
        ||| 5 <= x <= 6 && 5 <= z <= 6
    }
}

pub open spec fn is_netherrack_block(b: Block) -> bool {
    &&& b.material == BlockMaterial::Netherrack
    &&& in_terrain_grid(b.x as int, b.z as int)
    &&& netherrack_layer(b.x as int, b.y as int, b.z as int)
}

pub open spec fn is_lava_block(b: Block) -> bool {
    b.material == BlockMaterial::Lava && lava_cell(b.x as int, b.y as int, b.z as int)
}

pub open spec fn is_terrain_block(b: Block) -> bool {
    is_netherrack_block(b) || is_lava_block(b)
}

/// The three bedrock pillars stand on these columns.
pub open spec fn pillar_site(x: int, z: int) -> bool {
    ||| x == 8 && z == 8
    ||| x == -7 && z == -7
    ||| x == 6 && z == -6
}

pub open spec fn abs_spec(v: int) -> int {
    if v < 0 {
        -v
    } else {
        v
    }
}

/// A pillar is 5 to 7 blocks tall, depending on how far its column is from
/// the centre.
pub open spec fn pillar_height(x: int, z: int) -> int {
    5 + (abs_spec(x) + abs_spec(z)) % 3
}

pub open spec fn is_pillar_block(b: Block) -> bool {
    &&& b.material == BlockMaterial::Obsidian
    &&& pillar_site(b.x as int, b.z as int)
    &&& 0 <= b.y < pillar_height(b.x as int, b.z as int)
}

pub open spec fn is_portal_frame_block(b: Block) -> bool {
    &&& b.material == BlockMaterial::Obsidian
    &&& b.z == 0
    &&& {
        ||| (b.x == -1 || b.x == PORTAL_WIDTH) && 0 <= b.y < PORTAL_HEIGHT
        ||| 0 <= b.x < PORTAL_WIDTH && (b.y == -1 || b.y == PORTAL_HEIGHT)
    }
}

pub open spec fn is_portal_fill_block(b: Block) -> bool {
    &&& b.material == BlockMaterial::Portal
    &&& b.z == 0
    &&& 0 <= b.x < PORTAL_WIDTH
    &&& 0 <= b.y < PORTAL_HEIGHT
}

pub open spec fn is_portal_block(b: Block) -> bool {
    is_portal_frame_block(b) || is_portal_fill_block(b)
}

/// Appends a block that is not yet in the list.
fn push_new(v: &mut Vec<Block>, b: Block)
    requires
        old(v)@.no_duplicates(),
        !old(v)@.contains(b),
    ensures
        final(v)@.no_duplicates(),
        final(v)@.to_set() == old(v)@.to_set().insert(b),
{
    v.push(b);
    proof {
        old(v)@.lemma_push_to_set_commute(b);
        assert forall|i: int, j: int|
            0 <= i < v@.len() && 0 <= j < v@.len() && i != j implies v@[i] != v@[j] by {
            if i == old(v)@.len() {
                assert(old(v)@[j] == v@[j]);
            } else if j == old(v)@.len() {
                assert(old(v)@[i] == v@[i]);
            } else {
                assert(old(v)@[i] == v@[i] && old(v)@[j] == v@[j]);
            }
        }
    }
}

pub open spec fn in_column(b: Block, x: int, z: int) -> bool {
    is_netherrack_block(b) && b.x == x && b.z == z
}

/// The netherrack blocks of the columns before (x, z), taking x first.
pub open spec fn netherrack_before(x: int, z: int) -> Set<Block> {
    Set::new(|b: Block| is_netherrack_block(b) && (b.x < x || (b.x == x && b.z < z)))
}

/// Appends the netherrack blocks of one terrain column.
fn push_netherrack_column(v: &mut Vec<Block>, x: i32, z: i32)
    requires
        in_terrain_grid(x as int, z as int),
        old(v)@.no_duplicates(),
        forall|b: Block| old(v)@.contains(b) ==> !in_column(b, x as int, z as int),
    ensures
        final(v)@.no_duplicates(),
        final(v)@.to_set() == old(v)@.to_set().union(
            Set::new(|b: Block| in_column(b, x as int, z as int)),
        ),
{
    let ghost start = v@.to_set();
    let floor = Block { x, y: -1, z, material: BlockMaterial::Netherrack };
    assert(in_column(floor, x as int, z as int));
    push_new(v, floor);
    let ghost after_floor = v@.to_set();
    let mut y: i32 = -3;
    while y < -1
        invariant
            -3 <= y <= -1,
            floor == (Block { x, y: -1i32, z, material: BlockMaterial::Netherrack }),
            in_terrain_grid(x as int, z as int),
            v@.no_duplicates(),
            v@.to_set() == start.insert(floor).union(
                Set::new(|b: Block| in_column(b, x as int, z as int) && -3 <= b.y < y && b.y != -1),
            ),
            forall|b: Block| start.contains(b) ==> !in_column(b, x as int, z as int),
        decreases -1 - y,
    {
        let ghost before = v@.to_set();
        if ((x + z + y + 40) as u32) % 2 == 0 {
            let b = Block { x, y, z, material: BlockMaterial::Netherrack };
            assert((x + z + y) % 2 == 0);
            assert(in_column(b, x as int, z as int));
            assert(!v@.to_set().contains(b));
            push_new(v, b);
        }
        proof {
            assert(v@.to_set() =~= start.insert(floor).union(
                Set::new(|b: Block| in_column(b, x as int, z as int) && -3 <= b.y < y + 1 && b.y != -1),
            ));
        }
        y = y + 1;
    }
    if ((x + z + 30) as u32) % 3 == 0 {
        let b = Block { x, y: -4, z, material: BlockMaterial::Netherrack };
        assert((x + z) % 3 == 0);
        assert(in_column(b, x as int, z as int));
        assert(!v@.to_set().contains(b));
        push_new(v, b);
    }
    assert(v@.to_set() =~= start.union(Set::new(|b: Block| in_column(b, x as int, z as int))));
}

/// Appends the 2x2 lava pool whose lowest corner is (lx, 0, lz).
fn push_lava_pool(v: &mut Vec<Block>, lx: i32, lz: i32)
    requires
        (lx == -6 && lz == -6) || (lx == 5 && lz == 5),
        old(v)@.no_duplicates(),
        forall|b: Block|
            old(v)@.contains(b) ==> !(b.material == BlockMaterial::Lava && lx <= b.x <= lx + 1
                && lz <= b.z <= lz + 1 && b.y == 0),
    ensures
        final(v)@.no_duplicates(),
        final(v)@.to_set() == old(v)@.to_set().union(
            Set::new(
                |b: Block|
                    b.material == BlockMaterial::Lava && lx <= b.x <= lx + 1 && lz <= b.z <= lz + 1
                        && b.y == 0,
            ),
        ),
{
    let ghost start = v@.to_set();
    let mut dx: i32 = 0;
    while dx < 2
        invariant
            0 <= dx <= 2,
            (lx == -6 && lz == -6) || (lx == 5 && lz == 5),
            v@.no_duplicates(),
            v@.to_set() == start.union(
                Set::new(
                    |b: Block|
                        b.material == BlockMaterial::Lava && lx <= b.x < lx + dx && lz <= b.z <= lz
                            + 1 && b.y == 0,
                ),
            ),
            forall|b: Block|
                start.contains(b) ==> !(b.material == BlockMaterial::Lava && lx <= b.x <= lx + 1
                    && lz <= b.z <= lz + 1 && b.y == 0),
        decreases 2 - dx,
    {
        let mut dz: i32 = 0;
        while dz < 2
            invariant
                0 <= dx < 2,
                0 <= dz <= 2,
                (lx == -6 && lz == -6) || (lx == 5 && lz == 5),
                v@.no_duplicates(),
                v@.to_set() == start.union(
                    Set::new(
                        |b: Block|
                            b.material == BlockMaterial::Lava && b.y == 0 && ((lx <= b.x < lx + dx
                                && lz <= b.z <= lz + 1) || (b.x == lx + dx && lz <= b.z < lz
                                + dz)),
                    ),
                ),
                forall|b: Block|
                    start.contains(b) ==> !(b.material == BlockMaterial::Lava && lx <= b.x <= lx
                        + 1 && lz <= b.z <= lz + 1 && b.y == 0),
            decreases 2 - dz,
        {
            let b = Block { x: lx + dx, y: 0, z: lz + dz, material: BlockMaterial::Lava };
            assert(!start.contains(b));
            assert(!v@.to_set().contains(b));
            push_new(v, b);
            assert(v@.to_set() =~= start.union(
                Set::new(
                    |b: Block|
                        b.material == BlockMaterial::Lava && b.y == 0 && ((lx <= b.x < lx + dx
                            && lz <= b.z <= lz + 1) || (b.x == lx + dx && lz <= b.z < lz + dz
                            + 1)),
                ),
            ));
            dz = dz + 1;
        }
        assert(v@.to_set() =~= start.union(
            Set::new(
                |b: Block|
                    b.material == BlockMaterial::Lava && lx <= b.x < lx + dx + 1 && lz <= b.z <= lz
                        + 1 && b.y == 0,
            ),
        ));
        dx = dx + 1;
    }
}

/// The terrain: a 20x20 floor of netherrack columns around the origin with
/// checkered and sparse layers beneath it, and two lava pools on the floor.
/// Each block appears once.
pub fn create_nether_terrain() -> (r: Vec<Block>)
    ensures
        r@.no_duplicates(),
        r@.to_set() == Set::new(|b: Block| is_terrain_block(b)),
{
    let mut v: Vec<Block> = Vec::new();
    let mut x: i32 = -TERRAIN_HALF;
    while x < TERRAIN_HALF
        invariant
            -10 <= x <= 10,
            v@.no_duplicates(),
            v@.to_set() == netherrack_before(x as int, -10),
        decreases 10 - x,
    {
        let mut z: i32 = -TERRAIN_HALF;
        while z < TERRAIN_HALF
            invariant
                -10 <= x < 10,
                -10 <= z <= 10,
                v@.no_duplicates(),
                v@.to_set() == netherrack_before(x as int, z as int),
            decreases 10 - z,
        {
            assert forall|b: Block| v@.contains(b) implies !in_column(b, x as int, z as int) by {
                assert(v@.to_set().contains(b));
            }
            push_netherrack_column(&mut v, x, z);
            assert(v@.to_set() =~= netherrack_before(x as int, z + 1));
            z = z + 1;
        }
        assert(v@.to_set() =~= netherrack_before(x + 1, -10));
        x = x + 1;
    }
    assert(v@.to_set() =~= Set::new(|b: Block| is_netherrack_block(b)));
    assert forall|b: Block| v@.contains(b) implies !(b.material == BlockMaterial::Lava && -6 <= b.x
        <= -5 && -6 <= b.z <= -5 && b.y == 0) by {
        assert(v@.to_set().contains(b));
    }
    push_lava_pool(&mut v, -6, -6);
    assert forall|b: Block| v@.contains(b) implies !(b.material == BlockMaterial::Lava && 5 <= b.x
        <= 6 && 5 <= b.z <= 6 && b.y == 0) by {
        assert(v@.to_set().contains(b));
    }
    push_lava_pool(&mut v, 5, 5);
    assert(v@.to_set() =~= Set::new(|b: Block| is_terrain_block(b)));
    v
}

pub open spec fn in_stack(b: Block, x: int, z: int, y0: int, y1: int, m: BlockMaterial) -> bool {
    b.material == m && b.x == x && b.z == z && y0 <= b.y < y1
}

/// Appends a vertical stack of blocks of one material on column (x, z),
/// from y0 up to but not including y1.
fn push_stack(v: &mut Vec<Block>, x: i32, z: i32, y0: i32, y1: i32, m: BlockMaterial)
    requires
        y0 <= y1,
        old(v)@.no_duplicates(),
        forall|b: Block| old(v)@.contains(b) ==> !in_stack(b, x as int, z as int, y0 as int, y1 as int, m),
    ensures
        final(v)@.no_duplicates(),
        final(v)@.to_set() == old(v)@.to_set().union(
            Set::new(|b: Block| in_stack(b, x as int, z as int, y0 as int, y1 as int, m)),
        ),
{
    let ghost start = v@.to_set();
    let mut y: i32 = y0;
    while y < y1
        invariant
            y0 <= y <= y1,
            v@.no_duplicates(),
            v@.to_set() == start.union(
                Set::new(|b: Block| in_stack(b, x as int, z as int, y0 as int, y as int, m)),
            ),
            forall|b: Block|
                start.contains(b) ==> !in_stack(b, x as int, z as int, y0 as int, y1 as int, m),
        decreases y1 - y,
    {
        let b = Block { x, y, z, material: m };
        assert(in_stack(b, x as int, z as int, y0 as int, y1 as int, m));
        assert(!v@.to_set().contains(b));
        push_new(v, b);
        assert(v@.to_set() =~= start.union(
            Set::new(|b: Block| in_stack(b, x as int, z as int, y0 as int, y + 1, m)),
        ));
        y = y + 1;
    }
}

/// The pillar sites in the order they are built.
pub open spec fn pillar_site_at(i: int) -> (int, int) {
    if i == 0 {
        (8, 8)
    } else if i == 1 {
        (-7, -7)
    } else {
        (6, -6)
    }
}

pub open spec fn pillars_before(n: int) -> Set<Block> {
    Set::new(
        |b: Block|
            is_pillar_block(b) && exists|i: int|
                0 <= i < n && #[trigger] pillar_site_at(i) == (b.x as int, b.z as int),
    )
}

/// The three obsidian pillars, standing from y = 0, each 5 to 7 blocks tall.
/// Each block appears once.
pub fn create_bedrock_pillars() -> (r: Vec<Block>)
    ensures
        r@.no_duplicates(),
        r@.to_set() == Set::new(|b: Block| is_pillar_block(b)),
{
    let sites: [(i32, i32); 3] = [(8, 8), (-7, -7), (6, -6)];
    let mut v: Vec<Block> = Vec::new();
    let mut i: usize = 0;
    while i < 3
        invariant
            0 <= i <= 3,
            sites@ == seq![(8i32, 8i32), (-7i32, -7i32), (6i32, -6i32)],
            v@.no_duplicates(),
            v@.to_set() == pillars_before(i as int),
        decreases 3 - i,
    {
        let (px, pz) = sites[i];
        assert(pillar_site_at(i as int) == (px as int, pz as int));
        let ax: i32 = if px < 0 { -px } else { px };
        let az: i32 = if pz < 0 { -pz } else { pz };
        let height: i32 = 5 + (ax + az) % 3;
        assert(height == pillar_height(px as int, pz as int));
        assert forall|b: Block| v@.contains(b) implies !in_stack(
            b,
            px as int,
            pz as int,
            0,
            height as int,
            BlockMaterial::Obsidian,
        ) by {
            assert(v@.to_set().contains(b));
            if in_stack(b, px as int, pz as int, 0, height as int, BlockMaterial::Obsidian) {
                let j = choose|j: int| 0 <= j < i && #[trigger] pillar_site_at(j) == (b.x as int, b.z as int);
                assert(false);
            }
        }
        push_stack(&mut v, px, pz, 0, height, BlockMaterial::Obsidian);
        assert forall|b: Block| #[trigger] pillars_before(i + 1).contains(b) implies v@.to_set().contains(b) by {
            let j = choose|j: int| 0 <= j < i + 1 && #[trigger] pillar_site_at(j) == (b.x as int, b.z as int);
            if j == i {
                assert(in_stack(b, px as int, pz as int, 0, height as int, BlockMaterial::Obsidian));
            } else {
                assert(pillars_before(i as int).contains(b));
            }
        }
        assert forall|b: Block| v@.to_set().contains(b) implies #[trigger] pillars_before(i + 1).contains(b) by {
            if in_stack(b, px as int, pz as int, 0, height as int, BlockMaterial::Obsidian) {
                assert(pillar_site_at(i as int) == (b.x as int, b.z as int));
            } else {
                assert(pillars_before(i as int).contains(b));
            }
        }
        assert(v@.to_set() =~= pillars_before(i + 1));
        i = i + 1;
    }
    assert forall|b: Block| is_pillar_block(b) implies #[trigger] pillars_before(3).contains(b) by {
        if b.x == 8 {
            assert(pillar_site_at(0) == (b.x as int, b.z as int));
        } else if b.x == -7 {
            assert(pillar_site_at(1) == (b.x as int, b.z as int));
        } else {
            assert(pillar_site_at(2) == (b.x as int, b.z as int));
        }
    }
    assert(v@.to_set() =~= Set::new(|b: Block| is_pillar_block(b)));
    v
}

pub open spec fn portal_before(wx: int) -> Set<Block> {
    Set::new(|b: Block| is_portal_block(b) && (b.x == -1 || b.x == PORTAL_WIDTH || (0 <= b.x < wx)))
}

/// The portal at the origin on the plane z = 0: an obsidian frame around a
/// PORTAL_WIDTH x PORTAL_HEIGHT opening filled with portal blocks. Each block
/// appears once.
pub fn create_single_portal() -> (r: Vec<Block>)
    ensures
        r@.no_duplicates(),
        r@.to_set() == Set::new(|b: Block| is_portal_block(b)),
{
    let mut v: Vec<Block> = Vec::new();
    push_stack(&mut v, -1, 0, 0, PORTAL_HEIGHT, BlockMaterial::Obsidian);
    assert forall|b: Block| v@.contains(b) implies !in_stack(
        b,
        PORTAL_WIDTH as int,
        0,
        0,
        PORTAL_HEIGHT as int,
        BlockMaterial::Obsidian,
    ) by {
        assert(v@.to_set().contains(b));
    }
    push_stack(&mut v, PORTAL_WIDTH, 0, 0, PORTAL_HEIGHT, BlockMaterial::Obsidian);
    assert(v@.to_set() =~= portal_before(0));
    let mut wx: i32 = 0;
    while wx < PORTAL_WIDTH
        invariant
            0 <= wx <= PORTAL_WIDTH,
            v@.no_duplicates(),
            v@.to_set() == portal_before(wx as int),
        decreases PORTAL_WIDTH - wx,
    {
        assert forall|b: Block| v@.contains(b) implies !in_stack(
            b,
            wx as int,
            0,
            -1,
            0,
            BlockMaterial::Obsidian,
        ) by {
            assert(v@.to_set().contains(b));
        }
        push_stack(&mut v, wx, 0, -1, 0, BlockMaterial::Obsidian);
        assert forall|b: Block| v@.contains(b) implies !in_stack(
            b,
            wx as int,
            0,
            PORTAL_HEIGHT as int,
            PORTAL_HEIGHT + 1,
            BlockMaterial::Obsidian,
        ) by {
            assert(v@.to_set().contains(b));
        }
        push_stack(&mut v, wx, 0, PORTAL_HEIGHT, PORTAL_HEIGHT + 1, BlockMaterial::Obsidian);
        assert forall|b: Block| v@.contains(b) implies !in_stack(
            b,
            wx as int,
            0,
            0,
            PORTAL_HEIGHT as int,
            BlockMaterial::Portal,
        ) by {
            assert(v@.to_set().contains(b));
        }
        push_stack(&mut v, wx, 0, 0, PORTAL_HEIGHT, BlockMaterial::Portal);
        assert(v@.to_set() =~= portal_before(wx + 1));
        wx = wx + 1;
    }
    assert(v@.to_set() =~= Set::new(|b: Block| is_portal_block(b)));
    v
}

} // verus!
