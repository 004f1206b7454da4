use vstd::multiset::Multiset;
use vstd::prelude::*;

verus! {

broadcast use vstd::seq_lib::group_to_multiset_ensures;

/// A shape's bounding-box centre in fixed point, the only thing the
/// hierarchy's shape depends on.
#[derive(Clone, Copy, PartialEq, Eq, Structural, Debug)]
pub struct Centroid {
    pub x: i64,
    pub y: i64,
    pub z: i64,
}

/// Most shapes a leaf holds.
pub const LEAF_SIZE: usize = 2;

pub open spec fn coord(c: Centroid, axis: int) -> int {
    if axis == 0 {
        c.x as int
    } else if axis == 1 {
        c.y as int
    } else {
        c.z as int
    }
}

/// Shape indices in ascending order of centroid along `axis`.
pub open spec fn sorted_on(items: Seq<usize>, cs: Seq<Centroid>, axis: int) -> bool {
    forall|a: int, b: int|
        0 <= a < b < items.len() ==> coord(cs[items[a] as int], axis) <= coord(
            cs[items[b] as int],
            axis,
        )
}

pub open spec fn all_below(items: Seq<usize>, n: nat) -> bool {
    forall|k: int| 0 <= k < items.len() ==> items[k] < n
}

fn axis_key(c: &Centroid, axis: u8) -> (r: i64)
    ensures
        r as int == coord(*c, axis as int),
{
    if axis == 0 {
        c.x
    } else if axis == 1 {
        c.y
    } else {
        c.z
    }
}

/// The shape indices reordered by centroid along `axis`.
pub fn sort_by_axis(centroids: &Vec<Centroid>, items: Vec<usize>, axis: u8) -> (r: Vec<usize>)
    requires
        all_below(items@, centroids@.len()),
    ensures
        r@.to_multiset() == items@.to_multiset(),
        r@.len() == items@.len(),
        sorted_on(r@, centroids@, axis as int),
        all_below(r@, centroids@.len()),
{
    let mut out: Vec<usize> = Vec::new();
    let mut i: usize = 0;
    while i < items.len()
        invariant
            0 <= i <= items@.len(),
            all_below(items@, centroids@.len()),
            all_below(out@, centroids@.len()),
            out@.to_multiset() == items@.take(i as int).to_multiset(),
            sorted_on(out@, centroids@, axis as int),
        decreases items@.len() - i,
    {
        let x = items[i];
        let kx = axis_key(&centroids[x], axis);
        let mut p: usize = 0;
        while p < out.len() && axis_key(&centroids[out[p]], axis) <= kx
            invariant
                0 <= p <= out@.len(),
                x < centroids@.len(),
                kx as int == coord(centroids@[x as int], axis as int),
                all_below(out@, centroids@.len()),
                forall|k: int| 0 <= k < p ==> coord(centroids@[out@[k] as int], axis as int) <= kx,
            decreases out@.len() - p,
        {
            p += 1;
        }
        proof {
            if p < out@.len() {
                assert(coord(centroids@[out@[p as int] as int], axis as int) > kx);
            }
        }
        let ghost before = out@;
        out.insert(p, x);
        proof {
            assert(items@.take(i + 1) =~= items@.take(i as int).push(x));
            assert forall|a: int, b: int| 0 <= a < b < out@.len() implies coord(
                centroids@[out@[a] as int],
                axis as int,
            ) <= coord(centroids@[out@[b] as int], axis as int) by {
                if b < p {
                } else if b == p {
                } else if a < p {
                    assert(coord(centroids@[before[b - 1] as int], axis as int) >= coord(
                        centroids@[before[p as int] as int],
                        axis as int,
                    ));
                } else if a == p {
                    assert(coord(centroids@[before[b - 1] as int], axis as int) >= coord(
                        centroids@[before[p as int] as int],
                        axis as int,
                    ));
                } else {
                }
            }
        }
        i += 1;
    }
    assert(items@.take(items@.len() as int) =~= items@);
    proof {
        out@.to_multiset_ensures();
        items@.to_multiset_ensures();
    }
    out
}

pub open spec fn min_coord(items: Seq<usize>, cs: Seq<Centroid>, axis: int) -> int
    decreases items.len(),
{
    if items.len() <= 1 {
        coord(cs[items[0] as int], axis)
    } else {
        let rest = min_coord(items.drop_last(), cs, axis);
        let c = coord(cs[items.last() as int], axis);
        if c < rest {
            c
        } else {
            rest
        }
    }
}

pub open spec fn max_coord(items: Seq<usize>, cs: Seq<Centroid>, axis: int) -> int
    decreases items.len(),
{
    if items.len() <= 1 {
        coord(cs[items[0] as int], axis)
    } else {
        let rest = max_coord(items.drop_last(), cs, axis);
        let c = coord(cs[items.last() as int], axis);
        if c > rest {
            c
        } else {
            rest
        }
    }
}

/// How far the centroids of `items` spread along `axis`.
pub open spec fn extent(items: Seq<usize>, cs: Seq<Centroid>, axis: int) -> int {
    max_coord(items, cs, axis) - min_coord(items, cs, axis)
}

/// The axis of largest centroid spread: x on a tie with anything, then y.
pub open spec fn widest_axis_spec(items: Seq<usize>, cs: Seq<Centroid>) -> int {
    let ex = extent(items, cs, 0);
    let ey = extent(items, cs, 1);
    let ez = extent(items, cs, 2);
    if ex >= ey && ex >= ez {
        0
    } else if ey >= ez {
        1
    } else {
        2
    }
}

proof fn lemma_coord_bounds(items: Seq<usize>, cs: Seq<Centroid>, axis: int)
    requires
        items.len() >= 1,
    ensures
        forall|k: int|
            0 <= k < items.len() ==> min_coord(items, cs, axis) <= #[trigger] coord(
                cs[items[k] as int],
                axis,
            ) <= max_coord(items, cs, axis),
        exists|k: int|
            0 <= k < items.len() && #[trigger] coord(cs[items[k] as int], axis) == min_coord(
                items,
                cs,
                axis,
            ),
        exists|k: int|
            0 <= k < items.len() && #[trigger] coord(cs[items[k] as int], axis) == max_coord(
                items,
                cs,
                axis,
            ),
    decreases items.len(),
{
    if items.len() > 1 {
        let rest = items.drop_last();
        lemma_coord_bounds(rest, cs, axis);
        assert forall|k: int| 0 <= k < items.len() implies min_coord(items, cs, axis) <= #[trigger] coord(
            cs[items[k] as int],
            axis,
        ) <= max_coord(items, cs, axis) by {
            if k < rest.len() {
                assert(rest[k] == items[k]);
            }
        }
        let k1 = choose|k: int|
            0 <= k < rest.len() && #[trigger] coord(cs[rest[k] as int], axis) == min_coord(rest, cs, axis);
        let k2 = choose|k: int|
            0 <= k < rest.len() && #[trigger] coord(cs[rest[k] as int], axis) == max_coord(rest, cs, axis);
        assert(rest[k1] == items[k1] && rest[k2] == items[k2]);
        let last = items.len() - 1;
        if coord(cs[items[last] as int], axis) < min_coord(rest, cs, axis) {
            assert(coord(cs[items[last] as int], axis) == min_coord(items, cs, axis));
        } else {
            assert(coord(cs[items[k1] as int], axis) == min_coord(items, cs, axis));
        }
        if coord(cs[items[last] as int], axis) > max_coord(rest, cs, axis) {
            assert(coord(cs[items[last] as int], axis) == max_coord(items, cs, axis));
        } else {
            assert(coord(cs[items[k2] as int], axis) == max_coord(items, cs, axis));
        }
    } else {
        assert(coord(cs[items[0] as int], axis) == min_coord(items, cs, axis));
        assert(coord(cs[items[0] as int], axis) == max_coord(items, cs, axis));
    }
}

/// Some pair of the centroids of `m` lies at least as far apart along `axis`
/// as any pair of them along any axis: `axis` is one of widest spread.
pub open spec fn spreads_widest(m: Multiset<usize>, cs: Seq<Centroid>, axis: int) -> bool {
    exists|lo: usize, hi: usize|
        #![trigger m.contains(lo), m.contains(hi)]
        m.contains(lo) && m.contains(hi) && forall|other: int, p: usize, q: usize|
            0 <= other < 3 && m.contains(p) && m.contains(q) ==> #[trigger] coord(cs[q as int], other)
                - #[trigger] coord(cs[p as int], other) <= coord(cs[hi as int], axis) - coord(
                cs[lo as int],
                axis,
            )
}

proof fn lemma_widest_spreads(items: Seq<usize>, cs: Seq<Centroid>)
    requires
        items.len() >= 1,
    ensures
        spreads_widest(items.to_multiset(), cs, widest_axis_spec(items, cs)),
{
    let axis = widest_axis_spec(items, cs);
    lemma_coord_bounds(items, cs, 0);
    lemma_coord_bounds(items, cs, 1);
    lemma_coord_bounds(items, cs, 2);
    let m = items.to_multiset();
    let klo = choose|k: int|
        0 <= k < items.len() && #[trigger] coord(cs[items[k] as int], axis) == min_coord(items, cs, axis);
    let khi = choose|k: int|
        0 <= k < items.len() && #[trigger] coord(cs[items[k] as int], axis) == max_coord(items, cs, axis);
    let lo = items[klo];
    let hi = items[khi];
    assert(items.contains(lo) && items.contains(hi));
    assert forall|other: int, p: usize, q: usize|
        0 <= other < 3 && m.contains(p) && m.contains(q) implies #[trigger] coord(cs[q as int], other)
        - #[trigger] coord(cs[p as int], other) <= coord(cs[hi as int], axis) - coord(cs[lo as int], axis) by {
        assert(items.contains(p) && items.contains(q));
        let kp = choose|k: int| 0 <= k < items.len() && items[k] == p;
        let kq = choose|k: int| 0 <= k < items.len() && items[k] == q;
        assert(coord(cs[items[kp] as int], other) >= min_coord(items, cs, other));
        assert(coord(cs[items[kq] as int], other) <= max_coord(items, cs, other));
    }
    assert(m.contains(lo) && m.contains(hi));
}

fn spread(centroids: &Vec<Centroid>, items: &Vec<usize>, axis: u8) -> (r: i128)
    requires
        items@.len() >= 1,
        all_below(items@, centroids@.len()),
    ensures
        r as int == extent(items@, centroids@, axis as int),
{
    let first = axis_key(&centroids[items[0]], axis);
    let mut lo: i64 = first;
    let mut hi: i64 = first;
    let mut i: usize = 1;
    assert(items@.take(1).drop_last() =~= Seq::<usize>::empty());
    while i < items.len()
        invariant
            1 <= i <= items@.len(),
            all_below(items@, centroids@.len()),
            lo as int == min_coord(items@.take(i as int), centroids@, axis as int),
            hi as int == max_coord(items@.take(i as int), centroids@, axis as int),
        decreases items@.len() - i,
    {
        let k = axis_key(&centroids[items[i]], axis);
        assert(items@.take(i + 1).drop_last() =~= items@.take(i as int));
        if k < lo {
            lo = k;
        }
        if k > hi {
            hi = k;
        }
        i += 1;
    }
    assert(items@.take(items@.len() as int) =~= items@);
    (hi as i128) - (lo as i128)
}

/// The axis along which the centroids of `items` spread furthest: 0 for x,
/// 1 for y, 2 for z.
pub fn widest_axis(centroids: &Vec<Centroid>, items: &Vec<usize>) -> (r: u8)
    requires
        items@.len() >= 1,
        all_below(items@, centroids@.len()),
    ensures
        r as int == widest_axis_spec(items@, centroids@),
        r < 3,
{
    let ex = spread(centroids, items, 0);
    let ey = spread(centroids, items, 1);
    let ez = spread(centroids, items, 2);
    if ex >= ey && ex >= ez {
        0
    } else if ey >= ez {
        1
    } else {
        2
    }
}

/// A node of the hierarchy, stored in an arena: a leaf lists shape indices,
/// an inner node names its two children by their place in the arena and the
/// axis its shapes were split along.
pub enum BvhNode {
    Leaf { items: Vec<usize> },
    Inner { left: usize, right: usize, axis: u8 },
}

/// The shape indices under node `i`, with multiplicity.
pub open spec fn subtree_items(nodes: Seq<BvhNode>, i: nat) -> Multiset<usize>
    decreases i,
{
    if i >= nodes.len() {
        Multiset::empty()
    } else {
        match nodes[i as int] {
            BvhNode::Leaf { items } => items@.to_multiset(),
            BvhNode::Inner { left, right, .. } => if left < i && right < i {
                subtree_items(nodes, left as nat).add(subtree_items(nodes, right as nat))
            } else {
                Multiset::empty()
            },
        }
    }
}

/// No centroid of `l` lies past a centroid of `r` along `axis`.
pub open spec fn separated(l: Multiset<usize>, r: Multiset<usize>, cs: Seq<Centroid>, axis: int) -> bool {
    forall|a: usize, b: usize|
        l.contains(a) && r.contains(b) ==> coord(cs[a as int], axis) <= coord(cs[b as int], axis)
}

/// Leaves hold one or two shapes. Children come before their parent, so the
/// arena has no cycle; an inner node splits its shapes along an axis of their
/// widest centroid spread, the left child holding the lower half along it
/// (half rounded down) and the right child the rest.
pub open spec fn node_wf(nodes: Seq<BvhNode>, cs: Seq<Centroid>, i: int) -> bool {
    match nodes[i] {
        BvhNode::Leaf { items } => 1 <= items@.len() <= LEAF_SIZE,
        BvhNode::Inner { left, right, axis } => {
            let l = subtree_items(nodes, left as nat);
            let r = subtree_items(nodes, right as nat);
            &&& left < i
            &&& right < i
            &&& axis < 3
            &&& spreads_widest(l.add(r), cs, axis as int)
            &&& l.len() == (l.len() + r.len()) / 2
            &&& separated(l, r, cs, axis as int)
        },
    }
}

/// Inner nodes name children placed before them, so descending ends.
pub open spec fn children_before(nodes: Seq<BvhNode>) -> bool {
    forall|i: int|
        0 <= i < nodes.len() ==> match #[trigger] nodes[i] {
            BvhNode::Leaf { .. } => true,
            BvhNode::Inner { left, right, .. } => left < i && right < i,
        }
}

pub open spec fn nodes_wf(nodes: Seq<BvhNode>, cs: Seq<Centroid>) -> bool {
    forall|i: int| 0 <= i < nodes.len() ==> node_wf(nodes, cs, i)
}

proof fn lemma_prefix_stable(a: Seq<BvhNode>, b: Seq<BvhNode>, i: nat)
    requires
        a.len() <= b.len(),
        b.take(a.len() as int) == a,
        i < a.len(),
    ensures
        subtree_items(b, i) == subtree_items(a, i),
    decreases i,
{
    assert(b[i as int] == b.take(a.len() as int)[i as int]);
    match a[i as int] {
        BvhNode::Leaf { items } => {},
        BvhNode::Inner { left, right, .. } => {
            if left < i && right < i {
                lemma_prefix_stable(a, b, left as nat);
                lemma_prefix_stable(a, b, right as nat);
            }
        },
    }
}

proof fn lemma_node_wf_stable(a: Seq<BvhNode>, b: Seq<BvhNode>, cs: Seq<Centroid>, i: int)
    requires
        a.len() <= b.len(),
        b.take(a.len() as int) == a,
        0 <= i < a.len(),
        node_wf(a, cs, i),
    ensures
        node_wf(b, cs, i),
{
    assert(b[i] == b.take(a.len() as int)[i]);
    match a[i] {
        BvhNode::Leaf { .. } => {},
        BvhNode::Inner { left, right, .. } => {
            lemma_prefix_stable(a, b, left as nat);
            lemma_prefix_stable(a, b, right as nat);
        },
    }
}

fn build_node(nodes: &mut Vec<BvhNode>, centroids: &Vec<Centroid>, items: Vec<usize>) -> (r: usize)
    requires
        items@.len() >= 1,
        all_below(items@, centroids@.len()),
        nodes_wf(old(nodes)@, centroids@),
    ensures
        nodes_wf(final(nodes)@, centroids@),
        old(nodes)@.len() <= r < final(nodes)@.len(),
        final(nodes)@.take(old(nodes)@.len() as int) == old(nodes)@,
        subtree_items(final(nodes)@, r as nat) == items@.to_multiset(),
    decreases items@.len(),
{
    if items.len() <= LEAF_SIZE {
        nodes.push(BvhNode::Leaf { items });
        assert(nodes@.take(old(nodes)@.len() as int) =~= old(nodes)@);
        assert(node_wf(nodes@, centroids@, nodes@.len() - 1));
        assert forall|i: int| 0 <= i < nodes@.len() implies node_wf(nodes@, centroids@, i) by {
            if i < old(nodes)@.len() {
                assert(node_wf(old(nodes)@, centroids@, i));
                assert(nodes@[i] == old(nodes)@[i]);
                lemma_node_wf_stable(old(nodes)@, nodes@, centroids@, i);
            }
        }
        return nodes.len() - 1;
    }
    let axis = widest_axis(centroids, &items);
    proof {
        lemma_widest_spreads(items@, centroids@);
    }
    let ghost whole = items@.to_multiset();
    let mut left_items = sort_by_axis(centroids, items, axis);
    let ghost sorted = left_items@;
    let mid = left_items.len() / 2;
    let right_items = left_items.split_off(mid);
    proof {
        assert(sorted =~= left_items@ + right_items@);
        vstd::seq_lib::lemma_multiset_commutative(left_items@, right_items@);
    }
    let ghost n0 = nodes@;
    let l = build_node(nodes, centroids, left_items);
    let ghost n1 = nodes@;
    let r = build_node(nodes, centroids, right_items);
    let ghost n2 = nodes@;
    nodes.push(BvhNode::Inner { left: l, right: r, axis });
    proof {
        assert(n2.take(n1.len() as int) == n1);
        lemma_prefix_stable(n1, n2, l as nat);
        assert(nodes@.take(n2.len() as int) =~= n2);
        lemma_prefix_stable(n2, nodes@, l as nat);
        lemma_prefix_stable(n2, nodes@, r as nat);
        assert forall|k: int| 0 <= k < n0.len() implies nodes@[k] == n0[k] by {
            assert(n1.take(n0.len() as int)[k] == n0[k]);
            assert(n2.take(n1.len() as int)[k] == n1[k]);
        }
        assert(nodes@.take(n0.len() as int) =~= n0);
        let lm = subtree_items(nodes@, l as nat);
        let rm = subtree_items(nodes@, r as nat);
        assert forall|a: usize, b: usize| lm.contains(a) && rm.contains(b) implies coord(
            centroids@[a as int],
            axis as int,
        ) <= coord(centroids@[b as int], axis as int) by {
            assert(left_items@.contains(a));
            assert(right_items@.contains(b));
            let ia = choose|ia: int| 0 <= ia < left_items@.len() && left_items@[ia] == a;
            let ib = choose|ib: int| 0 <= ib < right_items@.len() && right_items@[ib] == b;
            assert(sorted[ia] == a);
            assert(sorted[mid + ib] == b);
        }
        assert(lm.add(rm) =~= whole);
        assert(node_wf(nodes@, centroids@, nodes@.len() - 1));
        assert forall|i: int| 0 <= i < nodes@.len() implies node_wf(nodes@, centroids@, i) by {
            if i < n2.len() {
                assert(node_wf(n2, centroids@, i));
                assert(nodes@[i] == n2[i]);
                lemma_node_wf_stable(n2, nodes@, centroids@, i);
            }
        }
    }
    nodes.len() - 1
}

/// The hierarchy's shape: the arena of nodes and the root, absent when there
/// is nothing to hold.
pub struct BvhTopology {
    pub nodes: Vec<BvhNode>,
    pub root: Option<usize>,
}

impl BvhTopology {
    pub open spec fn wf(&self, cs: Seq<Centroid>) -> bool {
        &&& nodes_wf(self.nodes@, cs)
        &&& match self.root {
            Some(r) => r < self.nodes@.len(),
            None => true,
        }
    }

    /// The shape indices held by the leaves, with multiplicity.
    pub open spec fn items(&self) -> Multiset<usize> {
        match self.root {
            Some(r) => subtree_items(self.nodes@, r as nat),
            None => Multiset::empty(),
        }
    }
}

/// Builds the hierarchy over the shapes `items` (indices into `centroids`):
/// a subset of at most LEAF_SIZE shapes becomes a leaf; a larger one is
/// sorted by centroid along its widest axis and split at the median.
/// Every index of `items` ends up in exactly one leaf, as often as it occurs.
pub fn build_bvh(centroids: &Vec<Centroid>, items: Vec<usize>) -> (t: BvhTopology)
    requires
        all_below(items@, centroids@.len()),
    ensures
        t.wf(centroids@),
        children_before(t.nodes@),
        t.root is None <==> items@.len() == 0,
        t.items() == items@.to_multiset(),
{
    let mut nodes: Vec<BvhNode> = Vec::new();
    if items.len() == 0 {
        proof {
            assert(items@ =~= Seq::<usize>::empty());
        }
        assert(nodes@ =~= Seq::<BvhNode>::empty());
        return BvhTopology { nodes, root: None };
    }
    let root = build_node(&mut nodes, centroids, items);
    assert forall|i: int| 0 <= i < nodes@.len() implies match #[trigger] nodes@[i] {
        BvhNode::Leaf { .. } => true,
        BvhNode::Inner { left, right, .. } => left < i && right < i,
    } by {
        assert(node_wf(nodes@, centroids@, i));
    }
    BvhTopology { nodes, root: Some(root) }
}

/// Built over distinct shape indices, the hierarchy holds each of them in
/// exactly one leaf, once, and holds no other index.
pub proof fn lemma_each_shape_in_one_leaf(t: BvhTopology, items: Seq<usize>)
    requires
        t.items() == items.to_multiset(),
        items.no_duplicates(),
    ensures
        forall|i: usize| #[trigger] t.items().count(i) == if items.contains(i) { 1nat } else { 0nat },
{
    items.lemma_multiset_has_no_duplicates();
    assert forall|i: usize| #[trigger] t.items().count(i) == if items.contains(i) { 1nat } else { 0nat } by {
        items.to_multiset_ensures();
    }
}

} // verus!
