use vstd::multiset::Multiset;
use vstd::prelude::*;

use crate::bvh::{children_before, subtree_items, BvhNode, BvhTopology};

verus! {

broadcast use vstd::seq_lib::group_to_multiset_ensures;

// Distances along a ray reach this module as ordered keys: a smaller key is a
// nearer point. A shape test answers with the key of its nearest valid hit, if
// any; a box test answers with the key at which the ray enters the box, if it
// meets it.

/// The distance of a found hit.
pub open spec fn dist_of(r: Option<(usize, u32)>) -> u32 {
    match r {
        Some((_, d)) => d,
        None => 0,
    }
}

/// The shape of a found hit.
pub open spec fn shape_of(r: Option<(usize, u32)>) -> usize {
    match r {
        Some((s, _)) => s,
        None => 0,
    }
}

/// `hit` reports shape `s` at distance `d`.
pub open spec fn hits<G: Fn(usize) -> Option<u32>>(hit: G, s: usize, d: u32) -> bool {
    hit.ensures((s,), Some(d))
}

/// The shape test answers the same for a shape every time.
pub open spec fn deterministic<G: Fn(usize) -> Option<u32>>(hit: G) -> bool {
    forall|s: usize, a: Option<u32>, b: Option<u32>|
        #[trigger] hit.ensures((s,), a) && #[trigger] hit.ensures((s,), b) ==> a == b
}

/// A box test never reports an entry beyond a hit on a shape inside the box
/// (nor a miss when such a hit exists).
pub open spec fn conservative<F: Fn(usize) -> Option<u32>, G: Fn(usize) -> Option<u32>>(
    nodes: Seq<BvhNode>,
    entry: F,
    hit: G,
) -> bool {
    forall|n: usize, s: usize, d: u32, e: Option<u32>|
        n < nodes.len() && #[trigger] subtree_items(nodes, n as nat).contains(s) && #[trigger] hits(
            hit,
            s,
            d,
        ) && #[trigger] entry.ensures((n,), e) ==> e is Some && e->0 <= d
}

/// `r` is a nearest hit among the shapes of `pool`: none when no shape of the
/// pool is hit, else a hit shape of the pool at the least distance reported.
pub open spec fn closest_among<G: Fn(usize) -> Option<u32>>(
    hit: G,
    pool: Multiset<usize>,
    r: Option<(usize, u32)>,
) -> bool {
    match r {
        None => forall|s: usize, d: u32| pool.contains(s) ==> !#[trigger] hits(hit, s, d),
        Some((s, d)) => {
            &&& pool.contains(s)
            &&& hits(hit, s, d)
            &&& forall|s2: usize, d2: u32|
                pool.contains(s2) && #[trigger] hits(hit, s2, d2) ==> d <= d2
        },
    }
}

/// Every hit on a shape of `pool` is at least as far as `best`.
pub open spec fn covers<G: Fn(usize) -> Option<u32>>(
    hit: G,
    pool: Multiset<usize>,
    best: Option<(usize, u32)>,
) -> bool {
    forall|s: usize, d: u32|
        pool.contains(s) && #[trigger] hits(hit, s, d) ==> best is Some && dist_of(best) <= d
}

/// `after` is `before`, or a nearer hit on a shape of `pool`.
pub open spec fn improves<G: Fn(usize) -> Option<u32>>(
    hit: G,
    pool: Multiset<usize>,
    before: Option<(usize, u32)>,
    after: Option<(usize, u32)>,
) -> bool {
    &&& before is Some ==> (after is Some && dist_of(after) <= dist_of(before))
    &&& after == before || (after is Some && pool.contains(shape_of(after)) && hits(
        hit,
        shape_of(after),
        dist_of(after),
    ))
}

/// Tests shape `s` and keeps it if it is nearer than the best so far.
fn consider<G: Fn(usize) -> Option<u32>>(hit: &G, s: usize, best: &mut Option<(usize, u32)>)
    requires
        forall|x: usize| hit.requires((x,)),
        deterministic(*hit),
    ensures
        covers(*hit, Multiset::singleton(s), *final(best)),
        improves(*hit, Multiset::singleton(s), *old(best), *final(best)),
{
    let r = hit(s);
    match r {
        Some(d) => {
            let nearer = match *best {
                Some((_, bd)) => d < bd,
                None => true,
            };
            if nearer {
                *best = Some((s, d));
            }
        },
        None => {},
    }
}

fn visit<F: Fn(usize) -> Option<u32>, G: Fn(usize) -> Option<u32>>(
    nodes: &Vec<BvhNode>,
    n: usize,
    entry: &F,
    hit: &G,
    best: &mut Option<(usize, u32)>,
)
    requires
        n < nodes@.len(),
        children_before(nodes@),
        forall|x: usize| entry.requires((x,)),
        forall|x: usize| hit.requires((x,)),
        deterministic(*hit),
        conservative(nodes@, *entry, *hit),
    ensures
        covers(*hit, subtree_items(nodes@, n as nat), *final(best)),
        improves(*hit, subtree_items(nodes@, n as nat), *old(best), *final(best)),
    decreases n,
{
    let ghost pool = subtree_items(nodes@, n as nat);
    let e = entry(n);
    let skip = match e {
        None => true,
        Some(t) => match *best {
            Some((_, bd)) => t > bd,
            None => false,
        },
    };
    if skip {
        return;
    }
    match &nodes[n] {
        BvhNode::Leaf { items } => {
            let mut k: usize = 0;
            while k < items.len()
                invariant
                    0 <= k <= items@.len(),
                    pool == items@.to_multiset(),
                    forall|x: usize| hit.requires((x,)),
                    deterministic(*hit),
                    covers(*hit, items@.take(k as int).to_multiset(), *best),
                    improves(*hit, pool, *old(best), *best),
                decreases items@.len() - k,
            {
                let ghost before = *best;
                consider(hit, items[k], best);
                proof {
                    assert(items@.take(k + 1) =~= items@.take(k as int).push(items@[k as int]));
                    assert(pool.contains(items@[k as int]));
                }
                k += 1;
            }
            proof {
                assert(items@.take(items@.len() as int) =~= items@);
            }
        },
        BvhNode::Inner { left, right, .. } => {
            let el = entry(*left);
            let er = entry(*right);
            let left_first = match (el, er) {
                (Some(a), Some(b)) => a <= b,
                (Some(_), None) => true,
                (None, _) => false,
            };
            let (first, second) = if left_first {
                (*left, *right)
            } else {
                (*right, *left)
            };
            visit(nodes, first, entry, hit, best);
            visit(nodes, second, entry, hit, best);
        },
    }
}

/// The nearest hit over all shapes of the hierarchy, found by descending it:
/// a node whose box the ray misses, or enters beyond the best hit so far, is
/// skipped; of an inner node's children the one the ray enters first is
/// visited first. With a conservative box test this is the nearest hit of a
/// test of every shape.
pub fn nearest_hit<F: Fn(usize) -> Option<u32>, G: Fn(usize) -> Option<u32>>(
    t: &BvhTopology,
    entry: &F,
    hit: &G,
) -> (r: Option<(usize, u32)>)
    requires
        children_before(t.nodes@),
        t.root is Some ==> t.root->0 < t.nodes@.len(),
        forall|x: usize| entry.requires((x,)),
        forall|x: usize| hit.requires((x,)),
        deterministic(*hit),
        conservative(t.nodes@, *entry, *hit),
    ensures
        closest_among(*hit, t.items(), r),
{
    let mut best: Option<(usize, u32)> = None;
    match t.root {
        Some(root) => {
            visit(&t.nodes, root, entry, hit, &mut best);
        },
        None => {},
    }
    best
}

/// The nearest hit over `items`, testing every one of them.
pub fn nearest_hit_linear<G: Fn(usize) -> Option<u32>>(items: &Vec<usize>, hit: &G) -> (r: Option<
    (usize, u32),
>)
    requires
        forall|x: usize| hit.requires((x,)),
        deterministic(*hit),
    ensures
        closest_among(*hit, items@.to_multiset(), r),
{
    let mut best: Option<(usize, u32)> = None;
    let mut k: usize = 0;
    while k < items.len()
        invariant
            0 <= k <= items@.len(),
            forall|x: usize| hit.requires((x,)),
            deterministic(*hit),
            covers(*hit, items@.take(k as int).to_multiset(), best),
            improves(*hit, items@.to_multiset(), None, best),
        decreases items@.len() - k,
    {
        consider(hit, items[k], &mut best);
        proof {
            assert(items@.take(k + 1) =~= items@.take(k as int).push(items@[k as int]));
            assert(items@.to_multiset().contains(items@[k as int]));
        }
        k += 1;
    }
    proof {
        assert(items@.take(items@.len() as int) =~= items@);
    }
    best
}

fn visit_any<F: Fn(usize) -> Option<u32>, G: Fn(usize) -> Option<u32>>(
    nodes: &Vec<BvhNode>,
    n: usize,
    entry: &F,
    hit: &G,
    limit: u32,
) -> (r: bool)
    requires
        n < nodes@.len(),
        children_before(nodes@),
        forall|x: usize| entry.requires((x,)),
        forall|x: usize| hit.requires((x,)),
        deterministic(*hit),
        conservative(nodes@, *entry, *hit),
    ensures
        r == exists|s: usize, d: u32|
            subtree_items(nodes@, n as nat).contains(s) && #[trigger] hits(*hit, s, d) && d < limit,
    decreases n,
{
    let ghost pool = subtree_items(nodes@, n as nat);
    let e = entry(n);
    let pruned = match e {
        None => true,
        Some(t) => t >= limit,
    };
    if pruned {
        assert forall|s: usize, d: u32| pool.contains(s) && #[trigger] hits(*hit, s, d) implies d
            >= limit by {
            assert(entry.ensures((n,), e));
        }
        return false;
    }
    match &nodes[n] {
        BvhNode::Leaf { items } => {
            let mut k: usize = 0;
            while k < items.len()
                invariant
                    0 <= k <= items@.len(),
                    pool == items@.to_multiset(),
                    pool == subtree_items(nodes@, n as nat),
                    forall|x: usize| hit.requires((x,)),
                    deterministic(*hit),
                    forall|s: usize, d: u32|
                        items@.take(k as int).contains(s) && #[trigger] hits(*hit, s, d) ==> d >= limit,
                decreases items@.len() - k,
            {
                let s = items[k];
                let found = hit(s);
                match found {
                    Some(d) => {
                        if d < limit {
                            assert(pool.contains(s));
                            assert(hits(*hit, s, d));
                            return true;
                        }
                    },
                    None => {},
                }
                proof {
                    assert(items@.take(k + 1) =~= items@.take(k as int).push(s));
                }
                k += 1;
            }
            proof {
                assert(items@.take(items@.len() as int) =~= items@);
                assert forall|s: usize, d: u32| pool.contains(s) && #[trigger] hits(*hit, s, d)
                    implies d >= limit by {
                    assert(items@.contains(s));
                }
            }
            false
        },
        BvhNode::Inner { left, right, .. } => {
            assert(*left < n && *right < n);
            let ghost lp = subtree_items(nodes@, *left as nat);
            let ghost rp = subtree_items(nodes@, *right as nat);
            assert(pool == lp.add(rp));
            if visit_any(nodes, *left, entry, hit, limit) {
                proof {
                    let (s, d) = choose|s: usize, d: u32|
                        lp.contains(s) && #[trigger] hits(*hit, s, d) && d < limit;
                    assert(pool.contains(s) && hits(*hit, s, d) && d < limit);
                }
                return true;
            }
            let found = visit_any(nodes, *right, entry, hit, limit);
            proof {
                if found {
                    let (s, d) = choose|s: usize, d: u32|
                        rp.contains(s) && #[trigger] hits(*hit, s, d) && d < limit;
                    assert(pool.contains(s) && hits(*hit, s, d) && d < limit);
                } else {
                    assert forall|s: usize, d: u32| pool.contains(s) && #[trigger] hits(*hit, s, d)
                        implies d >= limit by {
                        if lp.contains(s) {
                        } else {
                            assert(rp.contains(s));
                        }
                    }
                }
            }
            found
        },
    }
}

/// Whether some shape of the hierarchy is hit nearer than `limit`, as a
/// shadow test asks; a box the ray misses or enters at `limit` or beyond is
/// skipped, and the search stops at the first such hit.
pub fn any_hit_before<F: Fn(usize) -> Option<u32>, G: Fn(usize) -> Option<u32>>(
    t: &BvhTopology,
    entry: &F,
    hit: &G,
    limit: u32,
) -> (r: bool)
    requires
        children_before(t.nodes@),
        t.root is Some ==> t.root->0 < t.nodes@.len(),
        forall|x: usize| entry.requires((x,)),
        forall|x: usize| hit.requires((x,)),
        deterministic(*hit),
        conservative(t.nodes@, *entry, *hit),
    ensures
        r == exists|s: usize, d: u32| t.items().contains(s) && #[trigger] hits(*hit, s, d) && d < limit,
{
    match t.root {
        Some(root) => visit_any(&t.nodes, root, entry, hit, limit),
        None => false,
    }
}

/// The nearest hit over a whole scene: the shapes of the hierarchy and the
/// unbounded shapes, which are tested against every ray.
pub fn scene_nearest_hit<F: Fn(usize) -> Option<u32>, G: Fn(usize) -> Option<u32>>(
    t: &BvhTopology,
    unbounded: &Vec<usize>,
    entry: &F,
    hit: &G,
) -> (r: Option<(usize, u32)>)
    requires
        children_before(t.nodes@),
        t.root is Some ==> t.root->0 < t.nodes@.len(),
        forall|x: usize| entry.requires((x,)),
        forall|x: usize| hit.requires((x,)),
        deterministic(*hit),
        conservative(t.nodes@, *entry, *hit),
    ensures
        closest_among(*hit, t.items().add(unbounded@.to_multiset()), r),
{
    let a = nearest_hit(t, entry, hit);
    let b = nearest_hit_linear(unbounded, hit);
    let ghost pa = t.items();
    let ghost pb = unbounded@.to_multiset();
    let r = match (a, b) {
        (Some((_, da)), Some((_, db))) => if db < da {
            b
        } else {
            a
        },
        (None, _) => b,
        (_, None) => a,
    };
    proof {
        let pool = pa.add(pb);
        assert forall|s: usize, d: u32| pool.contains(s) && #[trigger] hits(*hit, s, d) implies r is Some
            && dist_of(r) <= d by {
            if pa.contains(s) {
            } else {
                assert(pb.contains(s));
            }
        }
        if r is Some {
            assert(pool.contains(shape_of(r)));
        }
    }
    r
}

/// Whether some shape of a whole scene is hit nearer than `limit`.
pub fn scene_any_hit_before<F: Fn(usize) -> Option<u32>, G: Fn(usize) -> Option<u32>>(
    t: &BvhTopology,
    unbounded: &Vec<usize>,
    entry: &F,
    hit: &G,
    limit: u32,
) -> (r: bool)
    requires
        children_before(t.nodes@),
        t.root is Some ==> t.root->0 < t.nodes@.len(),
        forall|x: usize| entry.requires((x,)),
        forall|x: usize| hit.requires((x,)),
        deterministic(*hit),
        conservative(t.nodes@, *entry, *hit),
    ensures
        r == exists|s: usize, d: u32|
            t.items().add(unbounded@.to_multiset()).contains(s) && #[trigger] hits(*hit, s, d) && d
                < limit,
{
    let ghost pool = t.items().add(unbounded@.to_multiset());
    let mut k: usize = 0;
    while k < unbounded.len()
        invariant
            0 <= k <= unbounded@.len(),
            pool == t.items().add(unbounded@.to_multiset()),
            forall|x: usize| hit.requires((x,)),
            deterministic(*hit),
            forall|s: usize, d: u32|
                unbounded@.take(k as int).contains(s) && #[trigger] hits(*hit, s, d) ==> d >= limit,
        decreases unbounded@.len() - k,
    {
        let s = unbounded[k];
        let found = hit(s);
        match found {
            Some(d) => {
                if d < limit {
                    assert(unbounded@.to_multiset().contains(s));
                    assert(pool.contains(s) && hits(*hit, s, d));
                    return true;
                }
            },
            None => {},
        }
        proof {
            assert(unbounded@.take(k + 1) =~= unbounded@.take(k as int).push(s));
        }
        k += 1;
    }
    proof {
        assert(unbounded@.take(unbounded@.len() as int) =~= unbounded@);
    }
    let r = any_hit_before(t, entry, hit, limit);
    proof {
        if r {
            let (s, d) = choose|s: usize, d: u32|
                t.items().contains(s) && #[trigger] hits(*hit, s, d) && d < limit;
            assert(pool.contains(s) && hits(*hit, s, d));
        } else {
            assert forall|s: usize, d: u32| pool.contains(s) && #[trigger] hits(*hit, s, d) implies d
                >= limit by {
                if t.items().contains(s) {
                } else {
                    assert(unbounded@.to_multiset().contains(s));
                    assert(unbounded@.contains(s));
                }
            }
        }
    }
    r
}

/// Two nearest-hit answers over the same shapes agree: both find a hit or
/// neither does, and at the same distance. So for any scene and any ray the
/// answer found through the hierarchy (`scene_nearest_hit`, whose pool is
/// every shape of the scene) is that of testing every shape
/// (`nearest_hit_linear`), whatever shapes tie for nearest.
pub proof fn lemma_nearest_agrees<G: Fn(usize) -> Option<u32>>(
    hit: G,
    pool: Multiset<usize>,
    a: Option<(usize, u32)>,
    b: Option<(usize, u32)>,
)
    requires
        closest_among(hit, pool, a),
        closest_among(hit, pool, b),
    ensures
        a is None <==> b is None,
        a is Some ==> dist_of(a) == dist_of(b),
{
    match a {
        Some((sa, da)) => {
            match b {
                Some((sb, db)) => {
                    assert(da <= db);
                    assert(db <= da);
                },
                None => {
                    assert(!hits(hit, sa, da));
                },
            }
        },
        None => {
            match b {
                Some((sb, db)) => {
                    assert(!hits(hit, sb, db));
                },
                None => {},
            }
        },
    }
}

} // verus!
