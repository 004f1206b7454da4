use vstd::prelude::*;

verus! {

/// Width and height of the buffer that is actually traced for a scale factor:
/// a factor of 0 or 1 traces at full resolution.
pub open spec fn low_extent(full: nat, scale: nat) -> nat {
    if scale <= 1 {
        full
    } else {
        full / scale
    }
}

/// The low-resolution coordinate a full-resolution coordinate copies from,
/// clamped to the last low-resolution row or column.
pub open spec fn source_coord_spec(c: nat, scale: nat, low: nat) -> nat {
    let s = if scale <= 1 { 1 } else { scale };
    if c / s >= low {
        (low - 1) as nat
    } else {
        c / s
    }
}

/// Index into the low-resolution buffer that full-resolution pixel `i`
/// (row-major, `width` pixels per row) copies from.
pub open spec fn source_index_spec(i: nat, width: nat, scale: nat, lw: nat, lh: nat) -> nat {
    source_coord_spec(i / width, scale, lh) * lw + source_coord_spec(i % width, scale, lw)
}

/// The full-resolution image reconstructed from a low-resolution one by
/// nearest-neighbour replication.
pub open spec fn upsampled(
    low: Seq<u32>,
    lw: nat,
    lh: nat,
    width: nat,
    height: nat,
    scale: nat,
) -> Seq<u32> {
    Seq::new(width * height, |i: int| low[source_index_spec(i as nat, width, scale, lw, lh) as int])
}

/// Whether pixel (x, y) is traced afresh in a frame of the given phase.
pub open spec fn fresh_spec(x: nat, y: nat, phase: bool) -> bool {
    ((x + y) % 2 == 0) == phase
}

/// Whether pixel `i` of a row-major buffer `width` pixels wide is traced afresh.
pub open spec fn fresh_at(i: nat, width: nat, phase: bool) -> bool {
    fresh_spec(i % width, i / width, phase)
}

/// One checkerboard frame: fresh pixels come from `traced`, the others are
/// carried over from `previous`.
pub open spec fn merged(traced: Seq<u32>, previous: Seq<u32>, width: nat, phase: bool) -> Seq<u32> {
    Seq::new(
        traced.len(),
        |i: int|
            if fresh_at(i as nat, width, phase) {
                traced[i]
            } else {
                previous[i]
            },
    )
}

/// A 24-bit colour packed as 0x00RRGGBB.
pub open spec fn packed(r: u8, g: u8, b: u8) -> u32 {
    (r as int * 65536 + g as int * 256 + b as int) as u32
}

proof fn lemma_grid_index(x: nat, y: nat, w: nat, h: nat)
    requires
        x < w,
        y < h,
    ensures
        y * w + x < w * h,
{
    assert(y * w + x < w * h) by (nonlinear_arith)
        requires
            x < w,
            y < h,
    ;
}

/// A persistent buffer brought to length `n`: its first pixels are kept and
/// any new ones are black.
pub open spec fn fitted(buf: Seq<u32>, n: nat) -> Seq<u32> {
    if n <= buf.len() {
        buf.take(n as int)
    } else {
        buf + Seq::new((n - buf.len()) as nat, |i: int| 0u32)
    }
}

/// Size of the buffer to trace for a frame of `width` x `height` pixels at
/// the given scale factor (0 and 1 both mean full resolution).
pub fn low_resolution(width: usize, height: usize, scale: usize) -> (r: (usize, usize))
    ensures
        r.0 == low_extent(width as nat, scale as nat),
        r.1 == low_extent(height as nat, scale as nat),
{
    if scale <= 1 {
        (width, height)
    } else {
        (width / scale, height / scale)
    }
}

/// The low-resolution coordinate that full-resolution coordinate `c` copies.
pub fn source_coord(c: usize, scale: usize, low: usize) -> (r: usize)
    requires
        low > 0,
    ensures
        r == source_coord_spec(c as nat, scale as nat, low as nat),
        r < low,
{
    let s: usize = if scale <= 1 { 1 } else { scale };
    let q = c / s;
    if q >= low {
        low - 1
    } else {
        q
    }
}

/// Nearest-neighbour reconstruction of a `width` x `height` image from a
/// `lw` x `lh` one: every full-resolution pixel copies its low-resolution
/// source, clamped at the low-resolution buffer's edges.
pub fn upsample_nearest(
    low: &Vec<u32>,
    lw: usize,
    lh: usize,
    width: usize,
    height: usize,
    scale: usize,
) -> (r: Vec<u32>)
    requires
        lw > 0,
        lh > 0,
        low@.len() == lw * lh,
        width * height <= usize::MAX,
    ensures
        r@ == upsampled(low@, lw as nat, lh as nat, width as nat, height as nat, scale as nat),
{
    let total = width * height;
    let ln = low.len();
    let mut r: Vec<u32> = Vec::with_capacity(total);
    let mut i: usize = 0;
    while i < total
        invariant
            0 <= i <= total,
            total == width * height,
            r@.len() == i,
            low@.len() == lw * lh,
            ln == lw * lh,
            lw > 0,
            lh > 0,
            forall|j: int|
                0 <= j < i ==> r@[j] == low@[source_index_spec(
                    j as nat,
                    width as nat,
                    scale as nat,
                    lw as nat,
                    lh as nat,
                ) as int],
        decreases total - i,
    {
        proof {
            assert(width > 0) by (nonlinear_arith)
                requires
                    i < total,
                    total == width * height,
            ;
        }
        let sy = source_coord(i / width, scale, lh);
        let sx = source_coord(i % width, scale, lw);
        proof {
            lemma_grid_index(sx as nat, sy as nat, lw as nat, lh as nat);
            assert(sy * lw <= sy * lw + sx) by (nonlinear_arith);
        }
        r.push(low[sy * lw + sx]);
        i += 1;
    }
    let ghost expected = upsampled(low@, lw as nat, lh as nat, width as nat, height as nat, scale as nat);
    assert(r@ =~= expected);
    r
}

/// Whether pixel (x, y) is traced afresh in a frame of the given phase:
/// the pixels with `x + y` even belong to one phase, the others to the other.
pub fn is_fresh(x: usize, y: usize, phase: bool) -> (r: bool)
    ensures
        r == fresh_spec(x as nat, y as nat, phase),
{
    let even = (x % 2) == (y % 2);
    proof {
        assert((x as nat + y as nat) % 2 == 0 <==> (x as nat % 2) == (y as nat % 2)) by (nonlinear_arith);
    }
    even == phase
}

/// Completes a checkerboard frame: each fresh pixel takes its newly traced
/// value, every other pixel keeps the previous frame's value.
pub fn checkerboard_merge(traced: &Vec<u32>, previous: &Vec<u32>, width: usize, phase: bool) -> (r: Vec<u32>)
    requires
        width > 0,
        previous@.len() == traced@.len(),
    ensures
        r@ == merged(traced@, previous@, width as nat, phase),
{
    let n = traced.len();
    let mut r: Vec<u32> = Vec::with_capacity(n);
    let mut i: usize = 0;
    while i < n
        invariant
            0 <= i <= n,
            n == traced@.len(),
            previous@.len() == n,
            width > 0,
            r@.len() == i,
            forall|j: int|
                0 <= j < i ==> r@[j] == (if fresh_at(j as nat, width as nat, phase) {
                    traced@[j]
                } else {
                    previous@[j]
                }),
        decreases n - i,
    {
        if is_fresh(i % width, i / width, phase) {
            r.push(traced[i]);
        } else {
            r.push(previous[i]);
        }
        i += 1;
    }
    assert(r@ =~= merged(traced@, previous@, width as nat, phase));
    r
}

/// Brings a persistent frame buffer to `n` pixels after a change of
/// resolution; a buffer that already has that size is left as it is.
pub fn fit_buffer(buf: &mut Vec<u32>, n: usize)
    ensures
        final(buf)@ == fitted(old(buf)@, n as nat),
{
    if n <= buf.len() {
        buf.truncate(n);
        assert(buf@ =~= fitted(old(buf)@, n as nat));
    } else {
        let ghost start = buf@;
        while buf.len() < n
            invariant
                start.len() < n,
                start.len() <= buf@.len() <= n,
                buf@.take(start.len() as int) == start,
                forall|j: int| start.len() <= j < buf@.len() ==> buf@[j] == 0u32,
            decreases n - buf@.len(),
        {
            buf.push(0u32);
        }
        assert(buf@ =~= fitted(start, n as nat));
    }
}

/// Over two consecutive checkerboard frames of a static scene, every pixel is
/// traced afresh in exactly one of them; a pixel not traced in the second frame
/// keeps exactly its value from the first, so after both frames every pixel
/// holds a newly traced value.
pub proof fn lemma_checkerboard_two_frames(
    traced_first: Seq<u32>,
    traced_second: Seq<u32>,
    previous: Seq<u32>,
    width: nat,
    phase: bool,
)
    requires
        width > 0,
        traced_first.len() == previous.len(),
        traced_second.len() == previous.len(),
    ensures
        forall|i: nat| fresh_at(i, width, phase) != fresh_at(i, width, !phase),
        forall|i: int|
            0 <= i < previous.len() && !fresh_at(i as nat, width, !phase) ==> merged(
                traced_second,
                merged(traced_first, previous, width, phase),
                width,
                !phase,
            )[i] == merged(traced_first, previous, width, phase)[i],
        forall|i: int|
            0 <= i < previous.len() ==> merged(
                traced_second,
                merged(traced_first, previous, width, phase),
                width,
                !phase,
            )[i] == if fresh_at(i as nat, width, phase) {
                traced_first[i]
            } else {
                traced_second[i]
            },
{
}

/// The frame-to-frame memory of the renderer: the last frame traced at full
/// resolution and the last one traced at a reduced resolution.
pub struct FrameScheduler {
    pub width: usize,
    pub height: usize,
    pub prev_full: Vec<u32>,
    pub prev_low: Vec<u32>,
}

impl FrameScheduler {
    pub open spec fn wf(&self) -> bool {
        self.width * self.height <= usize::MAX
    }

    /// Whether a frame at this scale has at least one pixel to trace.
    pub open spec fn scale_ok(&self, scale: usize) -> bool {
        &&& low_extent(self.width as nat, scale as nat) > 0
        &&& low_extent(self.height as nat, scale as nat) > 0
    }

    /// The remembered frame that a frame at this scale builds on.
    pub open spec fn previous_for(&self, scale: usize) -> Seq<u32> {
        if scale <= 1 {
            self.prev_full@
        } else {
            self.prev_low@
        }
    }

    /// A scheduler for `width` x `height` frames whose remembered frames
    /// start black.
    pub fn new(width: usize, height: usize) -> (r: Self)
        requires
            width * height <= usize::MAX,
        ensures
            r.wf(),
            r.width == width,
            r.height == height,
            r.prev_full@ == Seq::new((width * height) as nat, |i: int| 0u32),
            r.prev_low@ == Seq::<u32>::empty(),
    {
        let mut prev_full: Vec<u32> = Vec::new();
        fit_buffer(&mut prev_full, width * height);
        assert(prev_full@ =~= Seq::new((width * height) as nat, |i: int| 0u32));
        FrameScheduler { width, height, prev_full, prev_low: Vec::new() }
    }

    /// Size of the buffer to trace at this scale.
    pub fn traced_size(&self, scale: usize) -> (r: (usize, usize))
        ensures
            r.0 == low_extent(self.width as nat, scale as nat),
            r.1 == low_extent(self.height as nat, scale as nat),
    {
        low_resolution(self.width, self.height, scale)
    }

    /// Completes a checkerboard frame: `traced` holds the freshly traced
    /// pixels of this phase (the others are ignored); the rest come from the
    /// remembered frame of the same tier, brought to size. The merged frame is
    /// remembered and returned upsampled to full resolution.
    pub fn checkerboard_frame(&mut self, traced: &Vec<u32>, scale: usize, phase: bool) -> (full: Vec<u32>)
        requires
            old(self).wf(),
            old(self).scale_ok(scale),
            traced@.len() == low_extent(old(self).width as nat, scale as nat) * low_extent(
                old(self).height as nat,
                scale as nat,
            ),
        ensures
            final(self).wf(),
            final(self).width == old(self).width,
            final(self).height == old(self).height,
            final(self).previous_for(scale) == merged(
                traced@,
                fitted(old(self).previous_for(scale), traced@.len()),
                low_extent(old(self).width as nat, scale as nat),
                phase,
            ),
            scale <= 1 ==> final(self).prev_low == old(self).prev_low,
            scale > 1 ==> final(self).prev_full == old(self).prev_full,
            full@ == upsampled(
                final(self).previous_for(scale),
                low_extent(old(self).width as nat, scale as nat),
                low_extent(old(self).height as nat, scale as nat),
                old(self).width as nat,
                old(self).height as nat,
                scale as nat,
            ),
    {
        let (lw, lh) = low_resolution(self.width, self.height, scale);
        let n = traced.len();
        let m = if scale <= 1 {
            fit_buffer(&mut self.prev_full, n);
            checkerboard_merge(traced, &self.prev_full, lw, phase)
        } else {
            fit_buffer(&mut self.prev_low, n);
            checkerboard_merge(traced, &self.prev_low, lw, phase)
        };
        let full = upsample_nearest(&m, lw, lh, self.width, self.height, scale);
        if scale <= 1 {
            self.prev_full = m;
        } else {
            self.prev_low = m;
        }
        full
    }

    /// Completes a frame whose every pixel was traced: it is remembered for
    /// its tier and returned upsampled to full resolution.
    pub fn uniform_frame(&mut self, traced: Vec<u32>, scale: usize) -> (full: Vec<u32>)
        requires
            old(self).wf(),
            old(self).scale_ok(scale),
            traced@.len() == low_extent(old(self).width as nat, scale as nat) * low_extent(
                old(self).height as nat,
                scale as nat,
            ),
        ensures
            final(self).wf(),
            final(self).width == old(self).width,
            final(self).height == old(self).height,
            final(self).previous_for(scale) == traced@,
            scale <= 1 ==> final(self).prev_low == old(self).prev_low,
            scale > 1 ==> final(self).prev_full == old(self).prev_full,
            full@ == upsampled(
                traced@,
                low_extent(old(self).width as nat, scale as nat),
                low_extent(old(self).height as nat, scale as nat),
                old(self).width as nat,
                old(self).height as nat,
                scale as nat,
            ),
    {
        let (lw, lh) = low_resolution(self.width, self.height, scale);
        let full = upsample_nearest(&traced, lw, lh, self.width, self.height, scale);
        if scale <= 1 {
            self.prev_full = traced;
        } else {
            self.prev_low = traced;
        }
        full
    }
}

/// Packs an 8-bit-per-channel colour as 0x00RRGGBB.
pub fn pack_rgb(r: u8, g: u8, b: u8) -> (p: u32)
    ensures
        p == packed(r, g, b),
        p as int == r as int * 65536 + g as int * 256 + b as int,
{
    (r as u32) * 65536 + (g as u32) * 256 + (b as u32)
}

} // verus!
