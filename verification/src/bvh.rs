//! Bounding-volume hierarchy over the primitives of a mesh: how it is split,
//! and how rays and segments walk it.

use crate::arith::{over, quot, Calc, Op};
use crate::probe::{answering, is_steady};
use crate::single::Single;
use crate::tri::{box_entry, is_measure, measure, ray_aabb, ray_tri_packed, Line, PackedTri};
use vstd::prelude::*;

verus! {

pub const LEAF_SIZE: usize = 4;

/// Set in `a` of a leaf.
pub const LEAF_BIT: u32 = 0x8000_0000;

/// Bins along the widest axis.
pub const NBIN: usize = 16;

/// Largest number of primitives: every node index stays clear of `LEAF_BIT`.
pub const MAX_PRIMS: usize = 0x4000_0000;

/// The pattern of 1e-6: a set of centroids narrower than this is not cut.
pub const NARROW: u32 = 0x3586_37BD;

/// The pattern of the largest finite number.
pub const LARGEST: u32 = 0x7F7F_FFFF;

#[derive(Clone, Copy, Debug)]
pub struct BvhNode {
    pub bmin: [Single; 3],
    pub bmax: [Single; 3],
    /// Leaf: `LEAF_BIT` plus the first position; internal: the left child.
    pub a: u32,
    /// Leaf: how many primitives; internal: the right child.
    pub b: u32,
}

impl BvhNode {
    pub open spec fn is_leaf(self) -> bool {
        self.a >= LEAF_BIT
    }

    /// First position of a leaf.
    pub open spec fn first(self) -> int {
        self.a - LEAF_BIT
    }
}

/// What is measured of the primitives that a node is to hold.
#[derive(Debug)]
pub struct NodeMeasure {
    pub bmin: [Single; 3],
    pub bmax: [Single; 3],
    /// Extent of the centroids along each axis.
    pub extent: [Single; 3],
    /// Bin of each primitive along the widest axis.
    pub bins: Vec<usize>,
    /// Cost of a cut behind each bin but the last.
    pub costs: [Single; 15],
}

/// The axis along which the centroids are spread widest.
pub open spec fn widest(extent: [Single; 3]) -> int {
    if extent@[1].at_most(extent@[0]) && extent@[2].at_most(extent@[0]) {
        0
    } else if extent@[2].at_most(extent@[1]) {
        1
    } else {
        2
    }
}

pub fn widest_axis(extent: &[Single; 3]) -> (r: usize)
    ensures
        r == widest(*extent),
        r < 3,
{
    if extent[1].le(extent[0]) && extent[2].le(extent[0]) {
        0
    } else if extent[2].le(extent[1]) {
        1
    } else {
        2
    }
}

/// The bin of entry `i`; whatever lies beyond the last bin counts as in it.
pub open spec fn bin(bins: Seq<usize>, i: int) -> int {
    if 0 <= i < bins.len() && bins[i] < NBIN {
        bins[i] as int
    } else {
        NBIN - 1
    }
}

/// A cut behind bin `k` leaves something on both sides.
pub open spec fn parts(bins: Seq<usize>, count: int, k: int) -> bool {
    &&& exists|i: int| 0 <= i < count && #[trigger] bin(bins, i) <= k
    &&& exists|i: int| 0 <= i < count && #[trigger] bin(bins, i) > k
}

/// `cut` is the first of the cheapest cuts that part the primitives; there is
/// none where no such cut has a cost below the largest number.
pub open spec fn is_cheapest(
    bins: Seq<usize>,
    count: int,
    costs: Seq<Single>,
    cut: Option<usize>,
) -> bool {
    match cut {
        None => forall|k: int|
            0 <= k < NBIN - 1 && #[trigger] parts(bins, count, k) ==> !costs[k].below(
                Single(LARGEST),
            ),
        Some(c) => {
            &&& c < NBIN - 1
            &&& parts(bins, count, c as int)
            &&& costs[c as int].below(Single(LARGEST))
            &&& forall|k: int|
                0 <= k < NBIN - 1 && #[trigger] parts(bins, count, k) ==> !costs[k].below(
                    costs[c as int],
                )
            &&& forall|k: int|
                0 <= k < c && #[trigger] parts(bins, count, k) ==> !costs[k].at_most(
                    costs[c as int],
                )
        },
    }
}

fn bin_at(bins: &Vec<usize>, i: usize) -> (r: usize)
    ensures
        r == bin(bins@, i as int),
        r < NBIN,
{
    if i < bins.len() && bins[i] < NBIN {
        bins[i]
    } else {
        NBIN - 1
    }
}

/// The cheapest cut of `count` primitives.
pub fn choose_cut(bins: &Vec<usize>, count: usize, costs: &[Single; 15]) -> (cut: Option<usize>)
    requires
        count > 0,
    ensures
        is_cheapest(bins@, count as int, costs@, cut),
{
    let mut lo: usize = bin_at(bins, 0);
    let mut hi: usize = lo;
    let mut i: usize = 1;
    let ghost mut at_lo: int = 0;
    let ghost mut at_hi: int = 0;
    while i < count
        invariant
            1 <= i <= count,
            0 <= at_lo < i,
            0 <= at_hi < i,
            lo == bin(bins@, at_lo),
            hi == bin(bins@, at_hi),
            forall|j: int| 0 <= j < i ==> lo <= #[trigger] bin(bins@, j) <= hi,
        decreases count - i,
    {
        let k: usize = bin_at(bins, i);
        if k < lo {
            lo = k;
            proof {
                at_lo = i as int;
            }
        }
        if k > hi {
            hi = k;
            proof {
                at_hi = i as int;
            }
        }
        i = i + 1;
    }
    assert forall|k: int| 0 <= k < NBIN - 1 implies #[trigger] parts(bins@, count as int, k) == (lo
        <= k < hi) by {
        if lo <= k < hi {
            assert(bin(bins@, at_lo) <= k);
            assert(bin(bins@, at_hi) > k);
        }
    }
    let mut cut: Option<usize> = None;
    let mut best: Single = Single(LARGEST);
    let mut k: usize = 0;
    while k < NBIN - 1
        invariant
            k <= NBIN - 1,
            costs@.len() == NBIN - 1,
            forall|k: int|
                0 <= k < NBIN - 1 ==> #[trigger] parts(bins@, count as int, k) == (lo <= k < hi),
            best == (match cut {
                None => Single(LARGEST),
                Some(c) => costs@[c as int],
            }),
            cut matches Some(c) ==> c < k && lo <= c < hi && costs@[c as int].below(
                Single(LARGEST),
            ),
            forall|j: int| 0 <= j < k && lo <= j < hi ==> !(#[trigger] costs@[j]).below(best),
            cut matches Some(c) ==> forall|j: int|
                0 <= j < c && lo <= j < hi ==> !(#[trigger] costs@[j]).at_most(best),
        decreases NBIN - k,
    {
        if lo <= k && k < hi {
            if costs[k].lt(best) {
                best = costs[k];
                cut = Some(k);
            }
        }
        k = k + 1;
    }
    cut
}

/// `order` and `other` hold the same entries, those outside `s..e` in place.
pub open spec fn is_shuffled(order: Seq<usize>, other: Seq<usize>, s: int, e: int) -> bool {
    &&& order.len() == other.len()
    &&& forall|k: int| 0 <= k < order.len() && !(s <= k < e) ==> #[trigger] other[k] == order[k]
    &&& other.subrange(s, e).to_multiset() == order.subrange(s, e).to_multiset()
}

proof fn lemma_swap_shuffles(order: Seq<usize>, s: int, e: int, i: int, j: int)
    requires
        0 <= s <= i < e <= order.len(),
        s <= j < e,
    ensures
        is_shuffled(order, order.update(i, order[j]).update(j, order[i]), s, e),
{
    let other = order.update(i, order[j]).update(j, order[i]);
    let a = order.subrange(s, e);
    let b = other.subrange(s, e);
    assert(b =~= a.update(i - s, a[j - s]).update(j - s, a[i - s]));
    broadcast use vstd::multiset::group_multiset_axioms;

    vstd::seq_lib::to_multiset_update(a, i - s, a[j - s]);
    vstd::seq_lib::to_multiset_update(a.update(i - s, a[j - s]), j - s, a[i - s]);
    vstd::seq_lib::to_multiset_contains(a, a[i - s]);
    assert(a.contains(a[i - s]));
    assert(b.to_multiset() =~= a.to_multiset());
}

/// Move the entries of `order[start..end]` whose bin is at most `cut` to the
/// front; gives back where the others start.
fn partition(order: &mut Vec<usize>, start: usize, end: usize, bins: &Vec<usize>, cut: usize) -> (mid:
    usize)
    requires
        start <= end <= old(order)@.len(),
    ensures
        is_shuffled(old(order)@, final(order)@, start as int, end as int),
        start <= mid <= end,
        exists|tags: Seq<int>| #[trigger]
            is_parted(old(order)@, final(order)@, start as int, end as int, bins@, cut as int, mid as int, tags),
{
    let n: usize = end - start;
    let mut tags: Vec<usize> = Vec::new();
    while tags.len() < n
        invariant
            tags@.len() <= n,
            forall|k: int| 0 <= k < tags@.len() ==> #[trigger] tags@[k] == bin(bins@, k),
        decreases n - tags@.len(),
    {
        tags.push(bin_at(bins, tags.len()));
    }
    let ghost order0 = order@;
    let ghost mut from: Seq<int> = Seq::new(n as nat, |k: int| k);
    let mut i: usize = 0;
    let mut j: usize = n;
    while i < j
        invariant
            i <= j <= n,
            n == end - start,
            start <= end <= order@.len(),
            tags@.len() == n,
            from.len() == n,
            is_shuffled(order0, order@, start as int, end as int),
            forall|k: int| 0 <= k < n ==> 0 <= #[trigger] from[k] < n,
            forall|k: int, l: int| 0 <= k < l < n ==> #[trigger] from[k] != #[trigger] from[l],
            forall|k: int| 0 <= k < n ==> #[trigger] tags@[k] == bin(bins@, from[k]),
            forall|k: int| 0 <= k < n ==> #[trigger] order@[start + k] == order0[start + from[k]],
            forall|k: int| 0 <= k < i ==> #[trigger] tags@[k] <= cut,
            forall|k: int| j <= k < n ==> #[trigger] tags@[k] > cut,
        decreases j - i,
    {
        if tags[i] <= cut {
            i = i + 1;
        } else {
            j = j - 1;
            let ghost order1 = order@;
            let x: usize = order[start + i];
            let y: usize = order[start + j];
            order.set(start + i, y);
            order.set(start + j, x);
            let tx: usize = tags[i];
            let ty: usize = tags[j];
            tags.set(i, ty);
            tags.set(j, tx);
            proof {
                lemma_swap_shuffles(order1, start as int, end as int, start + i, start + j);
                assert(order@ =~= order1.update(start + i, order1[start + j]).update(
                    start + j,
                    order1[start + i],
                ));
                let from1 = from;
                from = from1.update(i as int, from1[j as int]).update(j as int, from1[i as int]);
                assert forall|k: int| 0 <= k < n implies #[trigger] order@[start + k] == order0[start
                    + from[k]] by {
                    assert(order1[start + k] == order0[start + from1[k]]);
                    assert(order1[start + i] == order0[start + from1[i as int]]);
                    assert(order1[start + j] == order0[start + from1[j as int]]);
                }
            }
        }
    }
    proof {
        assert forall|k: int| 0 <= k < i implies bin(bins@, #[trigger] from[k]) <= cut by {
            assert(tags@[k] <= cut);
        }
        assert forall|k: int| i <= k < n implies bin(bins@, #[trigger] from[k]) > cut by {
            assert(tags@[k] > cut);
        }
        assert(is_parted(
            order0,
            order@,
            start as int,
            end as int,
            bins@,
            cut as int,
            start + i,
            from,
        ));
    }
    start + i
}

/// `other` lists the entries of `order[s..e]` anew (entry `k` came from
/// position `from[k]`), with those whose bin is at most `cut` before `mid` and
/// the rest from there on.
pub open spec fn is_parted(
    order: Seq<usize>,
    other: Seq<usize>,
    s: int,
    e: int,
    bins: Seq<usize>,
    cut: int,
    mid: int,
    from: Seq<int>,
) -> bool {
    &&& from.len() == e - s
    &&& forall|k: int| 0 <= k < e - s ==> 0 <= #[trigger] from[k] < e - s
    &&& forall|k: int, l: int| 0 <= k < l < e - s ==> #[trigger] from[k] != #[trigger] from[l]
    &&& forall|k: int| 0 <= k < e - s ==> #[trigger] other[s + k] == order[s + from[k]]
    &&& forall|k: int| 0 <= k < mid - s ==> bin(bins, #[trigger] from[k]) <= cut
    &&& forall|k: int| mid - s <= k < e - s ==> bin(bins, #[trigger] from[k]) > cut
}

/// Which measures belong to which lists of primitives.
pub type Measuring = spec_fn((Seq<usize>, NodeMeasure)) -> bool;

/// The measures of triangles.
pub open spec fn measuring(f: Calc, prims: Seq<PackedTri>) -> Measuring {
    |q: (Seq<usize>, NodeMeasure)| is_measure(f, prims, q.0, q.1)
}

/// `m` was measured of these primitives, in some order.
pub open spec fn is_measured(
    f: Measuring,
    prims: Seq<usize>,
    m: NodeMeasure,
) -> bool {
    exists|v: Seq<usize>| v.to_multiset() == prims.to_multiset() && #[trigger] f((v, m))
}

/// Where the positions under node `i` end: behind its rightmost leaf.
pub open spec fn end_of(nodes: Seq<BvhNode>, i: int) -> int
    decreases nodes.len() - i,
{
    if !(0 <= i < nodes.len()) {
        0
    } else if nodes[i].is_leaf() {
        nodes[i].first() + nodes[i].b
    } else if i < nodes[i].b < nodes.len() {
        end_of(nodes, nodes[i].b as int)
    } else {
        0
    }
}

/// Node `i` is the root of a subtree over the positions `s..e`: it holds the
/// box measured of their primitives, and is either a leaf of at most four of
/// them or has two later nodes as children that split them.
pub open spec fn is_tree(
    f: Measuring,
    nodes: Seq<BvhNode>,
    order: Seq<usize>,
    i: int,
    s: int,
    e: int,
) -> bool
    decreases nodes.len() - i,
{
    &&& 0 <= i < nodes.len()
    &&& 0 <= s < e <= order.len()
    &&& is_boxed(f, nodes[i], order.subrange(s, e))
    &&& if nodes[i].is_leaf() {
        nodes[i].first() == s && nodes[i].b == e - s && e - s <= LEAF_SIZE
    } else {
        &&& e - s > LEAF_SIZE
        &&& i < nodes[i].a < nodes.len()
        &&& i < nodes[i].b < nodes.len()
        &&& s < end_of(nodes, nodes[i].a as int) < e
        &&& is_cut(
            f,
            nodes[i],
            order.subrange(s, end_of(nodes, nodes[i].a as int)),
            order.subrange(end_of(nodes, nodes[i].a as int), e),
        )
        &&& is_tree(f, nodes, order, nodes[i].a as int, s, end_of(nodes, nodes[i].a as int))
        &&& is_tree(f, nodes, order, nodes[i].b as int, end_of(nodes, nodes[i].a as int), e)
    }
}

/// The node's box is the one measured of these primitives.
pub open spec fn is_boxed(
    f: Measuring,
    node: BvhNode,
    prims: Seq<usize>,
) -> bool {
    exists|m: NodeMeasure| #[trigger]
        is_measured(f, prims, m) && node.bmin == m.bmin && node.bmax == m.bmax
}

/// The primitives `v` are cut into the first `k` of `other` and the rest: by
/// the cheapest cut along the widest axis, or in the middle where the
/// centroids coincide or no cut pays.
pub open spec fn divides(v: Seq<usize>, m: NodeMeasure, other: Seq<usize>, k: int) -> bool {
    ||| (m.extent@[widest(m.extent)].below(Single(NARROW)) || is_cheapest(
        m.bins@,
        v.len() as int,
        m.costs@,
        None,
    )) && other == v && k == v.len() / 2
    ||| !m.extent@[widest(m.extent)].below(Single(NARROW)) && exists|cut: usize, from: Seq<int>|
        is_cheapest(m.bins@, v.len() as int, m.costs@, Some(cut)) && #[trigger] is_parted(
            v,
            other,
            0,
            v.len() as int,
            m.bins@,
            cut as int,
            k,
            from,
        )
}

/// The node's primitives are cut into `left` and `right` as was measured.
pub open spec fn is_cut(
    f: Measuring,
    node: BvhNode,
    left: Seq<usize>,
    right: Seq<usize>,
) -> bool {
    exists|v: Seq<usize>, m: NodeMeasure, other: Seq<usize>| #[trigger]
        f((v, m)) && #[trigger] divides(v, m, other, left.len() as int) && node.bmin
            == m.bmin && node.bmax == m.bmax && other.len() == left.len() + right.len()
            && other.subrange(0, left.len() as int).to_multiset() == left.to_multiset()
            && other.subrange(left.len() as int, other.len() as int).to_multiset()
            == right.to_multiset()
}

proof fn lemma_tree_end(
    f: Measuring,
    nodes: Seq<BvhNode>,
    order: Seq<usize>,
    i: int,
    s: int,
    e: int,
)
    requires
        is_tree(f, nodes, order, i, s, e),
    ensures
        end_of(nodes, i) == e,
    decreases nodes.len() - i,
{
    if !nodes[i].is_leaf() {
        lemma_tree_end(
            f,
            nodes,
            order,
            nodes[i].b as int,
            end_of(nodes, nodes[i].a as int),
            e,
        );
    }
}

/// A subtree does not notice what happens outside it.
proof fn lemma_tree_frame(
    f: Measuring,
    nodes: Seq<BvhNode>,
    order: Seq<usize>,
    nodes2: Seq<BvhNode>,
    order2: Seq<usize>,
    i: int,
    s: int,
    e: int,
)
    requires
        is_tree(f, nodes, order, i, s, e),
        nodes.len() <= nodes2.len(),
        forall|j: int| i <= j < nodes.len() ==> #[trigger] nodes2[j] == nodes[j],
        order2.len() == order.len(),
        forall|k: int| s <= k < e ==> #[trigger] order2[k] == order[k],
    ensures
        is_tree(f, nodes2, order2, i, s, e),
    decreases nodes.len() - i,
{
    assert(order2.subrange(s, e) =~= order.subrange(s, e));
    assert(nodes2[i] == nodes[i]);
    if !nodes[i].is_leaf() {
        let mid = end_of(nodes, nodes[i].a as int);
        lemma_tree_frame(f, nodes, order, nodes2, order2, nodes[i].a as int, s, mid);
        lemma_tree_frame(f, nodes, order, nodes2, order2, nodes[i].b as int, mid, e);
        lemma_tree_end(f, nodes2, order2, nodes[i].a as int, s, mid);
        assert(order2.subrange(s, mid) =~= order.subrange(s, mid));
        assert(order2.subrange(mid, e) =~= order.subrange(mid, e));
    }
}

/// A shuffle keeps the entries below a bound.
proof fn lemma_shuffle_keeps(a: Seq<usize>, b: Seq<usize>, s: int, e: int, n: int)
    requires
        0 <= s <= e <= a.len(),
        is_shuffled(a, b, s, e),
        forall|k: int| 0 <= k < a.len() ==> #[trigger] a[k] < n,
    ensures
        forall|k: int| 0 <= k < b.len() ==> #[trigger] b[k] < n,
{
    broadcast use vstd::seq_lib::group_to_multiset_ensures;

    assert forall|k: int| 0 <= k < b.len() implies #[trigger] b[k] < n by {
        if s <= k < e {
            let x = b[k];
            assert(b.subrange(s, e)[k - s] == x);
            assert(b.subrange(s, e).contains(x));
            assert(b.subrange(s, e).to_multiset().count(x) > 0);
            assert(a.subrange(s, e).contains(x));
            let j = choose|j: int| 0 <= j < e - s && a.subrange(s, e)[j] == x;
            assert(a[s + j] == x);
        } else {
            assert(b[k] == a[k]);
        }
    }
}

proof fn lemma_shuffle_trans(a: Seq<usize>, b: Seq<usize>, c: Seq<usize>, s: int, m: int, e: int)
    requires
        0 <= s <= m <= e <= a.len(),
        is_shuffled(a, b, s, m),
        is_shuffled(b, c, m, e),
    ensures
        is_shuffled(a, c, s, e),
{
    broadcast use vstd::seq_lib::group_to_multiset_ensures;

    assert(a.subrange(s, e) =~= a.subrange(s, m) + a.subrange(m, e));
    assert(c.subrange(s, e) =~= c.subrange(s, m) + c.subrange(m, e));
    assert(c.subrange(s, m) =~= b.subrange(s, m));
    assert(b.subrange(m, e) =~= a.subrange(m, e));
    vstd::seq_lib::lemma_multiset_commutative(a.subrange(s, m), a.subrange(m, e));
    vstd::seq_lib::lemma_multiset_commutative(c.subrange(s, m), c.subrange(m, e));
}

#[derive(Debug)]
pub struct Bvh {
    pub nodes: Vec<BvhNode>,
    /// Primitives in leaf order.
    pub order: Vec<usize>,
}

impl Bvh {
    /// A tree over `order`: its root is node 0 and covers every primitive.
    pub open spec fn is_built(self, f: Measuring) -> bool {
        if self.order@.len() == 0 {
            self.nodes@.len() == 0
        } else {
            is_tree(f, self.nodes@, self.order@, 0, 0, self.order@.len() as int)
        }
    }

    /// Build the tree over the primitives.
    pub fn build<F: Fn(Op) -> Single>(f: &F, prims: &Vec<PackedTri>) -> (r: Self)
        requires
            is_steady(*f),
            prims@.len() <= MAX_PRIMS,
        ensures
            r.is_built(measuring(answering(*f), prims@)),
            r.is_walkable(),
            r.order@.to_multiset() == Seq::new(
                prims@.len(),
                |i: int| i as usize,
            ).to_multiset(),
            r.order@.len() == prims@.len(),
    {
        let n: usize = prims.len();
        let ghost mf = measuring(answering(*f), prims@);
        let mut order: Vec<usize> = Vec::new();
        let mut i: usize = 0;
        while i < n
            invariant
                i <= n,
                order@ == Seq::new(i as nat, |j: int| j as usize),
            decreases n - i,
        {
            order.push(i);
            i = i + 1;
            assert(order@ =~= Seq::new(i as nat, |j: int| j as usize));
        }
        let ghost order0 = order@;
        let mut r: Bvh = Bvh { nodes: Vec::new(), order };
        if n > 0 {
            assert forall|k: int| 0 <= k < n implies #[trigger] r.order@[k] < prims@.len() by {}
            let _ = r.build_node(f, prims, 0, n);
            assert(r.order@.subrange(0, n as int) =~= r.order@);
            assert(order0.subrange(0, n as int) =~= order0);
            proof {
                lemma_tree_is_subtree(mf, r.nodes@, r.order@, 0, 0, n as int);
            }
        }
        r
    }

    /// Append the subtree over the positions `start..end`; gives back its
    /// root.
    fn build_node<F: Fn(Op) -> Single>(
        &mut self,
        f: &F,
        prims: &Vec<PackedTri>,
        start: usize,
        end: usize,
    ) -> (idx: u32)
        requires
            is_steady(*f),
            forall|k: int|
                0 <= k < old(self).order@.len() ==> #[trigger] old(self).order@[k] < prims@.len(),
            start < end <= old(self).order@.len(),
            old(self).order@.len() <= MAX_PRIMS,
            old(self).nodes@.len() + 2 * (end - start) - 1 <= 2 * MAX_PRIMS,
        ensures
            idx == old(self).nodes@.len(),
            old(self).nodes@.len() < final(self).nodes@.len(),
            final(self).nodes@.len() <= old(self).nodes@.len() + 2 * (end - start) - 1,
            forall|j: int|
                0 <= j < old(self).nodes@.len() ==> #[trigger] final(self).nodes@[j] == old(
                    self,
                ).nodes@[j],
            is_shuffled(old(self).order@, final(self).order@, start as int, end as int),
            forall|k: int|
                0 <= k < final(self).order@.len() ==> #[trigger] final(self).order@[k]
                    < prims@.len(),
            is_tree(
                measuring(answering(*f), prims@),
                final(self).nodes@,
                final(self).order@,
                idx as int,
                start as int,
                end as int,
            ),
        decreases end - start,
    {
        let ghost mf = measuring(answering(*f), prims@);
        let ghost nodes0 = self.nodes@;
        let ghost order0 = self.order@;
        let ghost s = start as int;
        let ghost e = end as int;
        let count: usize = end - start;
        let mut v: Vec<usize> = Vec::new();
        while v.len() < count
            invariant
                v@.len() <= count,
                count == end - start,
                start < end <= self.order@.len(),
                self.order@ == order0,
                self.nodes@ == nodes0,
                forall|k: int| 0 <= k < v@.len() ==> #[trigger] v@[k] == order0[start + k],
            decreases count - v@.len(),
        {
            v.push(self.order[start + v.len()]);
        }
        let ghost vs = v@;
        assert(vs =~= order0.subrange(s, e));
        let m: NodeMeasure = measure(f, prims, &v);
        assert(mf((vs, m)));
        let idx: u32 = self.nodes.len() as u32;
        if count <= LEAF_SIZE {
            self.nodes.push(
                BvhNode {
                    bmin: m.bmin,
                    bmax: m.bmax,
                    a: LEAF_BIT + start as u32,
                    b: count as u32,
                },
            );
            assert(is_measured(mf, order0.subrange(s, e), m));
            assert(is_boxed(mf, self.nodes@[idx as int], order0.subrange(s, e)));
            return idx;
        }
        self.nodes.push(BvhNode { bmin: m.bmin, bmax: m.bmax, a: 0, b: 0 });
        let mid: usize = divide(&mut self.order, start, end, &m);
        proof {
            lemma_shuffle_keeps(order0, self.order@, s, e, prims@.len() as int);
        }
        let ghost nodes1 = self.nodes@;
        let ghost order1 = self.order@;
        let left: u32 = self.build_node(f, prims, start, mid);
        let ghost nodes2 = self.nodes@;
        let ghost order2 = self.order@;
        let right: u32 = self.build_node(f, prims, mid, end);
        let ghost nodes3 = self.nodes@;
        let ghost order3 = self.order@;
        self.nodes[idx as usize].a = left;
        self.nodes[idx as usize].b = right;
        proof {
            lemma_tree_frame(mf, nodes2, order2, nodes3, order3, left as int, s, mid as int);
            lemma_shuffle_trans(order1, order2, order3, s, mid as int, e);
            assert(is_shuffled(order0, order3, s, e));
            assert(order2.subrange(mid as int, e) =~= order1.subrange(mid as int, e));
            assert(order3.subrange(s, mid as int) =~= order2.subrange(s, mid as int));
            lemma_join(
                mf,
                nodes3,
                self.nodes@,
                order1,
                order3,
                idx as int,
                s,
                mid as int,
                e,
                vs,
                m,
            );
        }
        idx
    }
}

/// Two subtrees under a new root are a tree.
proof fn lemma_join(
    f: Measuring,
    nodes: Seq<BvhNode>,
    nodes2: Seq<BvhNode>,
    order1: Seq<usize>,
    order: Seq<usize>,
    i: int,
    s: int,
    mid: int,
    e: int,
    v: Seq<usize>,
    m: NodeMeasure,
)
    requires
        0 <= i < nodes.len(),
        0 <= s < mid < e <= order.len(),
        e - s > LEAF_SIZE,
        nodes2.len() == nodes.len(),
        forall|j: int| 0 <= j < nodes.len() && j != i ==> #[trigger] nodes2[j] == nodes[j],
        !nodes2[i].is_leaf(),
        i < nodes2[i].a < nodes.len(),
        i < nodes2[i].b < nodes.len(),
        is_tree(f, nodes, order, nodes2[i].a as int, s, mid),
        is_tree(f, nodes, order, nodes2[i].b as int, mid, e),
        order1.len() == order.len(),
        f((v, m)),
        v.to_multiset() == order.subrange(s, e).to_multiset(),
        divides(v, m, order1.subrange(s, e), mid - s),
        nodes2[i].bmin == m.bmin,
        nodes2[i].bmax == m.bmax,
        order.subrange(s, mid).to_multiset() == order1.subrange(s, mid).to_multiset(),
        order.subrange(mid, e).to_multiset() == order1.subrange(mid, e).to_multiset(),
    ensures
        is_tree(f, nodes2, order, i, s, e),
{
    lemma_tree_frame(f, nodes, order, nodes2, order, nodes2[i].a as int, s, mid);
    lemma_tree_frame(f, nodes, order, nodes2, order, nodes2[i].b as int, mid, e);
    lemma_tree_end(f, nodes2, order, nodes2[i].a as int, s, mid);
    let other = order1.subrange(s, e);
    let lo = order.subrange(s, mid);
    let hi = order.subrange(mid, e);
    assert(other.subrange(0, mid - s) =~= order1.subrange(s, mid));
    assert(other.subrange(mid - s, e - s) =~= order1.subrange(mid, e));
    assert(f((v, m)) && divides(v, m, other, lo.len() as int));
    assert(is_cut(f, nodes2[i], lo, hi));
    assert(is_measured(f, order.subrange(s, e), m));
    assert(is_boxed(f, nodes2[i], order.subrange(s, e)));
}

/// Cut the primitives at the positions `start..end` as was measured; gives
/// back where the right part starts.
fn divide(order: &mut Vec<usize>, start: usize, end: usize, m: &NodeMeasure) -> (mid: usize)
    requires
        start < end <= old(order)@.len(),
        end - start > LEAF_SIZE,
    ensures
        start < mid < end,
        is_shuffled(old(order)@, final(order)@, start as int, end as int),
        divides(
            old(order)@.subrange(start as int, end as int),
            *m,
            final(order)@.subrange(start as int, end as int),
            mid - start,
        ),
{
    let ghost order0 = order@;
    let ghost s = start as int;
    let ghost e = end as int;
    let ghost vs = order0.subrange(s, e);
    let count: usize = end - start;
    let axis: usize = widest_axis(&m.extent);
    if m.extent[axis].lt(Single(NARROW)) {
        return start + count / 2;
    }
    match choose_cut(&m.bins, count, &m.costs) {
        None => start + count / 2,
        Some(cut) => {
            let mid: usize = partition(order, start, end, &m.bins, cut);
            proof {
                let from = choose|from: Seq<int>| #[trigger]
                    is_parted(order0, order@, s, e, m.bins@, cut as int, mid as int, from);
                lemma_both_sides(order0, order@, s, e, m.bins@, cut as int, mid as int, from);
                let other = order@.subrange(s, e);
                assert forall|k: int| 0 <= k < count implies #[trigger] other[0 + k] == vs[0
                    + from[k]] by {
                    assert(order@[s + k] == order0[s + from[k]]);
                }
                assert(is_parted(vs, other, 0, count as int, m.bins@, cut as int, mid - s, from));
            }
            mid
        },
    }
}

/// A cut that parts the primitives leaves something on both sides of `mid`.
proof fn lemma_both_sides(
    order: Seq<usize>,
    other: Seq<usize>,
    s: int,
    e: int,
    bins: Seq<usize>,
    cut: int,
    mid: int,
    from: Seq<int>,
)
    requires
        is_parted(order, other, s, e, bins, cut, mid, from),
        parts(bins, e - s, cut),
        s <= mid <= e,
    ensures
        s < mid < e,
{
    let n = e - s;
    let lo = choose|i: int| 0 <= i < n && #[trigger] bin(bins, i) <= cut;
    let hi = choose|i: int| 0 <= i < n && #[trigger] bin(bins, i) > cut;
    lemma_onto(from, n, lo);
    lemma_onto(from, n, hi);
    let kl = choose|k: int| 0 <= k < n && #[trigger] from[k] == lo;
    let kh = choose|k: int| 0 <= k < n && #[trigger] from[k] == hi;
    assert(from[kl] == lo && from[kh] == hi);
}

/// `n` different numbers below `n` are all of them.
proof fn lemma_onto(from: Seq<int>, n: int, x: int)
    requires
        from.len() == n,
        forall|k: int| 0 <= k < n ==> 0 <= #[trigger] from[k] < n,
        forall|k: int, l: int| 0 <= k < l < n ==> #[trigger] from[k] != #[trigger] from[l],
        0 <= x < n,
    ensures
        exists|k: int| 0 <= k < n && #[trigger] from[k] == x,
{
    if forall|k: int| 0 <= k < n ==> #[trigger] from[k] != x {
        let all = vstd::set_lib::set_int_range(0, n);
        vstd::set_lib::lemma_int_range(0, n);
        assert(from.no_duplicates());
        from.unique_seq_to_set();
        assert(from.to_set().subset_of(all.remove(x))) by {
            assert forall|y: int| from.to_set().contains(y) implies all.remove(x).contains(y) by {
                let k = choose|k: int| 0 <= k < from.len() && from[k] == y;
                assert(from[k] == y);
            }
        }
        vstd::set_lib::lemma_len_subset(from.to_set(), all.remove(x));
        assert(false);
    }
}

/// Where the positions under node `i` start: at its leftmost leaf.
pub open spec fn start_of(nodes: Seq<BvhNode>, i: int) -> int
    decreases nodes.len() - i,
{
    if !(0 <= i < nodes.len()) {
        0
    } else if nodes[i].is_leaf() {
        nodes[i].first()
    } else if i < nodes[i].a < nodes.len() {
        start_of(nodes, nodes[i].a as int)
    } else {
        0
    }
}

/// Node `i` is the root of a subtree: a leaf of one to four of the `n`
/// positions, or a node with two later children over adjoining positions.
pub open spec fn is_subtree(nodes: Seq<BvhNode>, n: int, i: int) -> bool
    decreases nodes.len() - i,
{
    &&& 0 <= i < nodes.len()
    &&& if nodes[i].is_leaf() {
        1 <= nodes[i].b <= LEAF_SIZE && nodes[i].first() + nodes[i].b <= n
    } else {
        &&& i < nodes[i].a < nodes.len()
        &&& i < nodes[i].b < nodes.len()
        &&& is_subtree(nodes, n, nodes[i].a as int)
        &&& is_subtree(nodes, n, nodes[i].b as int)
        &&& end_of(nodes, nodes[i].a as int) == start_of(nodes, nodes[i].b as int)
    }
}

proof fn lemma_subtree_spans(nodes: Seq<BvhNode>, n: int, i: int)
    requires
        is_subtree(nodes, n, i),
    ensures
        0 <= start_of(nodes, i) < end_of(nodes, i) <= n,
    decreases nodes.len() - i,
{
    if !nodes[i].is_leaf() {
        lemma_subtree_spans(nodes, n, nodes[i].a as int);
        lemma_subtree_spans(nodes, n, nodes[i].b as int);
    }
}

pub(crate) proof fn lemma_tree_is_subtree(
    f: Measuring,
    nodes: Seq<BvhNode>,
    order: Seq<usize>,
    i: int,
    s: int,
    e: int,
)
    requires
        is_tree(f, nodes, order, i, s, e),
    ensures
        is_subtree(nodes, order.len() as int, i),
        start_of(nodes, i) == s,
        end_of(nodes, i) == e,
    decreases nodes.len() - i,
{
    if !nodes[i].is_leaf() {
        let mid = end_of(nodes, nodes[i].a as int);
        lemma_tree_is_subtree(f, nodes, order, nodes[i].a as int, s, mid);
        lemma_tree_is_subtree(f, nodes, order, nodes[i].b as int, mid, e);
    }
}

/// A node waiting to be visited, with the distance at which its box is
/// entered.
#[derive(Clone, Copy, Debug)]
pub struct Entry {
    pub node: u32,
    pub at: Single,
}

/// How much walking a stack still asks for.
spec fn weight(nodes: Seq<BvhNode>, stack: Seq<Entry>) -> int
    decreases stack.len(),
{
    if stack.len() == 0 {
        0
    } else {
        let i = stack.last().node as int;
        weight(nodes, stack.drop_last()) + 2 * (end_of(nodes, i) - start_of(nodes, i)) - 1
    }
}

spec fn is_waiting(nodes: Seq<BvhNode>, n: int, stack: Seq<Entry>) -> bool {
    forall|k: int| 0 <= k < stack.len() ==> is_subtree(nodes, n, (#[trigger] stack[k]).node as int)
}

proof fn lemma_weight_nonnegative(nodes: Seq<BvhNode>, n: int, stack: Seq<Entry>)
    requires
        is_waiting(nodes, n, stack),
    ensures
        weight(nodes, stack) >= 0,
    decreases stack.len(),
{
    if stack.len() > 0 {
        assert(stack[stack.len() - 1].node == stack.last().node);
        lemma_subtree_spans(nodes, n, stack.last().node as int);
        assert(is_waiting(nodes, n, stack.drop_last())) by {
            assert forall|k: int| 0 <= k < stack.len() - 1 implies is_subtree(
                nodes,
                n,
                (#[trigger] stack.drop_last()[k]).node as int,
            ) by {
                assert(stack[k].node == stack.drop_last()[k].node);
            }
        }
        lemma_weight_nonnegative(nodes, n, stack.drop_last());
    }
}

/// Node `j` lies in the tree under node `i`.
pub open spec fn is_under(nodes: Seq<BvhNode>, i: int, j: int) -> bool
    decreases nodes.len() - i,
{
    &&& 0 <= i < nodes.len()
    &&& i == j || (!nodes[i].is_leaf() && i < nodes[i].a < nodes.len() && i < nodes[i].b
        < nodes.len() && (is_under(nodes, nodes[i].a as int, j) || is_under(
        nodes,
        nodes[i].b as int,
        j,
    )))
}

/// The children of a node of the tree are nodes of the tree.
proof fn lemma_under(nodes: Seq<BvhNode>, i: int, j: int)
    requires
        is_under(nodes, i, j),
        0 <= j < nodes.len(),
        !nodes[j].is_leaf(),
        j < nodes[j].a < nodes.len(),
        j < nodes[j].b < nodes.len(),
    ensures
        is_under(nodes, i, nodes[j].a as int),
        is_under(nodes, i, nodes[j].b as int),
    decreases nodes.len() - i,
{
    if i == j {
        assert(is_under(nodes, nodes[i].a as int, nodes[i].a as int));
        assert(is_under(nodes, nodes[i].b as int, nodes[i].b as int));
    } else if is_under(nodes, nodes[i].a as int, j) {
        lemma_under(nodes, nodes[i].a as int, j);
    } else {
        lemma_under(nodes, nodes[i].b as int, j);
    }
}

/// The measured distances are those of hits ahead, and no box of the tree hides
/// one: a box over a primitive that is hit nearer than the limit is entered, no
/// later than the hit.
pub open spec fn is_conservative(
    nodes: Seq<BvhNode>,
    order: Seq<usize>,
    enters: spec_fn((u32, Single)) -> Option<Single>,
    hits: spec_fn(usize) -> Option<Single>,
) -> bool {
    &&& forall|k: int|
        0 <= k < order.len() ==> (#[trigger] hits(order[k]) matches Some(t) ==> Single(0).at_most(t)
            && t.below(Single(LARGEST)))
    &&& forall|i: u32, limit: Single, k: int|
        is_under(nodes, 0, i as int) && start_of(nodes, i as int) <= k < end_of(nodes, i as int) && (#[trigger] hits(
            order[k],
        ) matches Some(t) && t.below(limit)) ==> (#[trigger] enters((i, limit)) matches Some(e)
            && e.at_most(hits(order[k])->0))
}

/// `best` is the nearest hit.
pub open spec fn is_nearest(
    order: Seq<usize>,
    hits: spec_fn(usize) -> Option<Single>,
    best: Option<(Single, usize)>,
) -> bool {
    forall|k: int|
        0 <= k < order.len() ==> (#[trigger] hits(order[k]) matches Some(t) ==> (best matches Some(b)
            && b.0.at_most(t)))
}

impl Bvh {
    /// The nodes are a tree over all positions, with node 0 as its root.
    pub open spec fn is_walkable(self) -> bool {
        if self.nodes@.len() == 0 {
            self.order@.len() == 0
        } else {
            &&& self.order@.len() <= MAX_PRIMS
            &&& is_subtree(self.nodes@, self.order@.len() as int, 0)
            &&& start_of(self.nodes@, 0) == 0
            &&& end_of(self.nodes@, 0) == self.order@.len()
        }
    }

    /// The nearest of a leaf's hits and the best so far.
    fn test_leaf<F: Fn(Op) -> Single>(
        &self,
        f: &F,
        prims: &Vec<PackedTri>,
        l: &Line,
        first: usize,
        count: usize,
        best: Option<(Single, usize)>,
    ) -> (r: Option<(Single, usize)>)
        requires
            is_steady(*f),
            first + count <= self.order@.len(),
            forall|k: int| 0 <= k < self.order@.len() ==> #[trigger] self.order@[k] < prims@.len(),
        ensures
            r == tested(
                self.order@,
                hitting(answering(*f), prims@, *l),
                first as int,
                count as int,
                best,
            ),
    {
        let ghost hf = hitting(answering(*f), prims@, *l);
        let total: usize = self.order.len();
        let mut r: Option<(Single, usize)> = best;
        let mut n: usize = 0;
        while n < count
            invariant
                n <= count,
                is_steady(*f),
                hf == hitting(answering(*f), prims@, *l),
                total == self.order@.len(),
                first + count <= total,
                forall|k: int|
                    0 <= k < self.order@.len() ==> #[trigger] self.order@[k] < prims@.len(),
                r == tested(self.order@, hf, first as int, n as int, best),
            decreases count - n,
        {
            let p: usize = self.order[first + n];
            let t: PackedTri = prims[p];
            let h: Option<Single> = ray_tri_packed(f, t.a, t.e1, t.e2, l.o, l.d);
            assert(hf(p) == h);
            if let Some(t) = h {
                let nearer: bool = match r {
                    None => true,
                    Some(b) => t.lt(b.0),
                };
                if nearer {
                    r = Some((t, p));
                }
            }
            n = n + 1;
        }
        r
    }

    /// Nearest hit along a ray: the distance and the primitive. Nodes are
    /// walked nearer child first, so that the best hit shrinks early and culls
    /// the far subtrees.
    pub fn raycast<F: Fn(Op) -> Single>(&self, f: &F, prims: &Vec<PackedTri>, l: &Line) -> (r: Option<
        (Single, usize),
    >)
        requires
            is_steady(*f),
            self.is_walkable(),
            forall|k: int| 0 <= k < self.order@.len() ==> #[trigger] self.order@[k] < prims@.len(),
        ensures
            r == self.nearest(answering(*f), prims@, *l),
    {
        if self.nodes.len() == 0 {
            return None;
        }
        let ghost g = answering(*f);
        let ghost ef = entering(g, self.nodes@, *l);
        let ghost hf = hitting(g, prims@, *l);
        let ghost goal = self.nearest(g, prims@, *l);
        let ghost n = self.order@.len() as int;
        let mut best: Option<(Single, usize)> = None;
        let mut stack: Vec<Entry> = Vec::new();
        stack.push(Entry { node: 0, at: Single(0) });
        proof {
            assert(stack@[0].node == 0);
            assert(stack@.drop_last() =~= Seq::empty());
            reveal_with_fuel(unstacked, 2);
        }
        while stack.len() > 0
            invariant
                self.is_walkable(),
                self.nodes@.len() > 0,
                n == self.order@.len(),
                is_steady(*f),
                forall|k: int|
                    0 <= k < self.order@.len() ==> #[trigger] self.order@[k] < prims@.len(),
                g == answering(*f),
                ef == entering(g, self.nodes@, *l),
                hf == hitting(g, prims@, *l),
                is_waiting(self.nodes@, n, stack@),
                goal == unstacked(self.nodes@, self.order@, ef, hf, stack@, best),
            decreases weight(self.nodes@, stack@),
        {
            let ghost stack0 = stack@;
            let ghost best0 = best;
            proof {
                assert(stack0[stack0.len() - 1] == stack0.last());
                lemma_subtree_spans(self.nodes@, n, stack0.last().node as int);
                lemma_weight_nonnegative(self.nodes@, n, stack0);
            }
            let top: Entry = stack[stack.len() - 1];
            let _ = stack.pop();
            proof {
                assert(stack@ =~= stack0.drop_last());
                assert forall|k: int| 0 <= k < stack@.len() implies is_subtree(
                    self.nodes@,
                    n,
                    (#[trigger] stack@[k]).node as int,
                ) by {
                    assert(stack0[k] == stack@[k]);
                }
                lemma_weight_nonnegative(self.nodes@, n, stack@);
            }
            let culled: bool = match best {
                Some(b) => b.0.le(top.at),
                None => false,
            };
            if !culled {
                let node: BvhNode = self.nodes[top.node as usize];
                if node.a >= LEAF_BIT {
                    let first: usize = (node.a - LEAF_BIT) as usize;
                    best = self.test_leaf(f, prims, l, first, node.b as usize, best);
                } else {
                    let limit: Single = match best {
                        Some(b) => b.0,
                        None => Single(LARGEST),
                    };
                    let left: BvhNode = self.nodes[node.a as usize];
                    let right: BvhNode = self.nodes[node.b as usize];
                    let tl: Option<Single> = ray_aabb(f, left.bmin, left.bmax, l, limit);
                    let tr: Option<Single> = ray_aabb(f, right.bmin, right.bmax, l, limit);
                    assert(ef((node.a, limit)) == tl);
                    assert(ef((node.b, limit)) == tr);
                    let ghost base = stack@;
                    push_children(&mut stack, node.a, tl, node.b, tr);
                    proof {
                        lemma_children_weight(self.nodes@, n, base, stack@, top.node as int, tl, tr);
                        lemma_unstack_children(
                            self.nodes@,
                            self.order@,
                            ef,
                            hf,
                            base,
                            stack@,
                            top,
                            best,
                            tl,
                            tr,
                        );
                    }
                }
            }
        }
        best
    }
}

/// Where a ray enters a node's box within a limit.
pub open spec fn entering(f: Calc, nodes: Seq<BvhNode>, l: Line) -> spec_fn((u32, Single)) -> Option<
    Single,
> {
    |q: (u32, Single)| box_entry(f, nodes[q.0 as int].bmin, nodes[q.0 as int].bmax, l, q.1)
}

/// Where a ray hits a primitive.
pub open spec fn hitting(f: Calc, prims: Seq<PackedTri>, l: Line) -> spec_fn(usize) -> Option<Single> {
    |p: usize| prims[p as int].hit(f, l)
}

/// The nearest of the best so far and the hits at `n` positions from `first`
/// on; the first of equally near ones.
pub open spec fn tested(
    order: Seq<usize>,
    hits: spec_fn(usize) -> Option<Single>,
    first: int,
    n: int,
    best: Option<(Single, usize)>,
) -> Option<(Single, usize)>
    decreases n,
{
    if n <= 0 {
        best
    } else {
        let before = tested(order, hits, first, n - 1, best);
        let p = order[first + n - 1];
        match hits(p) {
            Some(t) if before is None || t.below((before->0).0) => Some((t, p)),
            _ => before,
        }
    }
}

/// The best hit after node `i`, entered at `at`, was visited: not at all where
/// the best is nearer, else leaf by leaf, the nearer child first.
pub open spec fn visited(
    nodes: Seq<BvhNode>,
    order: Seq<usize>,
    enters: spec_fn((u32, Single)) -> Option<Single>,
    hits: spec_fn(usize) -> Option<Single>,
    i: int,
    at: Single,
    best: Option<(Single, usize)>,
) -> Option<(Single, usize)>
    decreases nodes.len() - i,
{
    if !(0 <= i < nodes.len()) || (best matches Some(b) && b.0.at_most(at)) {
        best
    } else if nodes[i].is_leaf() {
        tested(order, hits, nodes[i].first(), nodes[i].b as int, best)
    } else if !(i < nodes[i].a < nodes.len() && i < nodes[i].b < nodes.len()) {
        best
    } else {
        let (a, b) = (nodes[i].a, nodes[i].b);
        let limit = match best {
            Some(b) => b.0,
            None => Single(LARGEST),
        };
        match (enters((a, limit)), enters((b, limit))) {
            (Some(x), Some(y)) => if x.at_most(y) {
                visited(
                    nodes,
                    order,
                    enters,
                    hits,
                    b as int,
                    y,
                    visited(nodes, order, enters, hits, a as int, x, best),
                )
            } else {
                visited(
                    nodes,
                    order,
                    enters,
                    hits,
                    a as int,
                    x,
                    visited(nodes, order, enters, hits, b as int, y, best),
                )
            },
            (Some(x), None) => visited(nodes, order, enters, hits, a as int, x, best),
            (None, Some(y)) => visited(nodes, order, enters, hits, b as int, y, best),
            (None, None) => best,
        }
    }
}

/// The best hit after the nodes on a stack were visited, the last one first.
spec fn unstacked(
    nodes: Seq<BvhNode>,
    order: Seq<usize>,
    enters: spec_fn((u32, Single)) -> Option<Single>,
    hits: spec_fn(usize) -> Option<Single>,
    stack: Seq<Entry>,
    best: Option<(Single, usize)>,
) -> Option<(Single, usize)>
    decreases stack.len(),
{
    if stack.len() == 0 {
        best
    } else {
        unstacked(
            nodes,
            order,
            enters,
            hits,
            stack.drop_last(),
            visited(nodes, order, enters, hits, stack.last().node as int, stack.last().at, best),
        )
    }
}

/// Visiting a node's children off the stack is visiting the node.
proof fn lemma_unstack_children(
    nodes: Seq<BvhNode>,
    order: Seq<usize>,
    enters: spec_fn((u32, Single)) -> Option<Single>,
    hits: spec_fn(usize) -> Option<Single>,
    base: Seq<Entry>,
    stack: Seq<Entry>,
    top: Entry,
    best: Option<(Single, usize)>,
    tl: Option<Single>,
    tr: Option<Single>,
)
    requires
        is_subtree(nodes, order.len() as int, top.node as int),
        !nodes[top.node as int].is_leaf(),
        !(best matches Some(b) && b.0.at_most(top.at)),
        ({
            let limit = match best {
                Some(b) => b.0,
                None => Single(LARGEST),
            };
            &&& tl == enters((nodes[top.node as int].a, limit))
            &&& tr == enters((nodes[top.node as int].b, limit))
        }),
        stack == pushed(base, nodes[top.node as int].a, tl, nodes[top.node as int].b, tr),
    ensures
        unstacked(nodes, order, enters, hits, stack, best) == unstacked(
            nodes,
            order,
            enters,
            hits,
            base,
            visited(nodes, order, enters, hits, top.node as int, top.at, best),
        ),
{
    reveal_with_fuel(unstacked, 3);
    let (a, b) = (nodes[top.node as int].a, nodes[top.node as int].b);
    match (tl, tr) {
        (Some(x), Some(y)) => {
            let (near, far) = if x.at_most(y) {
                (Entry { node: a, at: x }, Entry { node: b, at: y })
            } else {
                (Entry { node: b, at: y }, Entry { node: a, at: x })
            };
            assert(stack.drop_last() =~= base.push(far));
            assert(base.push(far).drop_last() =~= base);
        },
        (None, None) => {},
        _ => {
            assert(stack.drop_last() =~= base);
        },
    }
}

impl Bvh {
    /// The nearest hit along a ray.
    pub open spec fn nearest(self, f: Calc, prims: Seq<PackedTri>, l: Line) -> Option<(Single, usize)> {
        visited(
            self.nodes@,
            self.order@,
            entering(f, self.nodes@, l),
            hitting(f, prims, l),
            0,
            Single(0),
            None,
        )
    }
}

/// The best so far is one of the hits.
pub open spec fn is_hit(
    order: Seq<usize>,
    hits: spec_fn(usize) -> Option<Single>,
    best: Option<(Single, usize)>,
) -> bool {
    best matches Some(b) ==> order.contains(b.1) && hits(b.1) == Some(b.0)
}

proof fn lemma_tested(
    order: Seq<usize>,
    hits: spec_fn(usize) -> Option<Single>,
    first: int,
    n: int,
    best: Option<(Single, usize)>,
)
    requires
        0 <= first,
        0 <= n,
        first + n <= order.len(),
        is_hit(order, hits, best),
    ensures
        is_hit(order, hits, tested(order, hits, first, n, best)),
        (forall|k: int|
            0 <= k < order.len() ==> (#[trigger] hits(order[k]) matches Some(t) ==> !t.is_nan())) ==> {
            let r = tested(order, hits, first, n, best);
            &&& best matches Some(b) ==> (r matches Some(a) && a.0.at_most(b.0))
            &&& forall|k: int|
                first <= k < first + n ==> (#[trigger] hits(order[k]) matches Some(t) ==> (
                r matches Some(a) && a.0.at_most(t)))
        },
    decreases n,
{
    if let Some(b) = best {
        let j = choose|j: int| 0 <= j < order.len() && order[j] == b.1;
        assert(hits(order[j]) == Some(b.0));
    }
    if n > 0 {
        lemma_tested(order, hits, first, n - 1, best);
        let before = tested(order, hits, first, n - 1, best);
        let p = order[first + n - 1];
        assert(order.contains(p));
        if let Some(b) = before {
            let j = choose|j: int| 0 <= j < order.len() && order[j] == b.1;
            assert(hits(order[j]) == Some(b.0));
        }
        assert(hits(order[first + n - 1]) == hits(p));
    }
}

/// What is found under a node is a hit, no worse than the best before; and
/// where no box hides a hit, none under the node is nearer.
proof fn lemma_visited(
    nodes: Seq<BvhNode>,
    order: Seq<usize>,
    enters: spec_fn((u32, Single)) -> Option<Single>,
    hits: spec_fn(usize) -> Option<Single>,
    i: int,
    at: Single,
    best: Option<(Single, usize)>,
)
    requires
        is_subtree(nodes, order.len() as int, i),
        is_under(nodes, 0, i),
        is_hit(order, hits, best),
    ensures
        is_hit(order, hits, visited(nodes, order, enters, hits, i, at, best)),
        is_conservative(nodes, order, enters, hits) ==> {
            let r = visited(nodes, order, enters, hits, i, at, best);
            &&& best matches Some(b) ==> (r matches Some(a) && a.0.at_most(b.0))
            &&& forall|k: int|
                start_of(nodes, i) <= k < end_of(nodes, i) ==> (#[trigger] hits(order[k]) matches Some(
                    t,
                ) ==> at.at_most(t) ==> (r matches Some(a) && a.0.at_most(t)))
        },
    decreases nodes.len() - i,
{
    let sound = is_conservative(nodes, order, enters, hits);
    lemma_subtree_spans(nodes, order.len() as int, i);
    if let Some(b) = best {
        let j = choose|j: int| 0 <= j < order.len() && order[j] == b.1;
        assert(hits(order[j]) == Some(b.0));
    }
    if best matches Some(b) && b.0.at_most(at) {
    } else if nodes[i].is_leaf() {
        lemma_tested(order, hits, nodes[i].first(), nodes[i].b as int, best);
    } else {
        let (a, b) = (nodes[i].a, nodes[i].b);
        let limit = match best {
            Some(b) => b.0,
            None => Single(LARGEST),
        };
        lemma_subtree_spans(nodes, order.len() as int, a as int);
        lemma_subtree_spans(nodes, order.len() as int, b as int);
        lemma_under(nodes, 0, i);
        let (ta, tb) = (enters((a, limit)), enters((b, limit)));
        let r = visited(nodes, order, enters, hits, i, at, best);
        match (ta, tb) {
            (Some(x), Some(y)) => {
                if x.at_most(y) {
                    let m = visited(nodes, order, enters, hits, a as int, x, best);
                    lemma_visited(nodes, order, enters, hits, a as int, x, best);
                    lemma_visited(nodes, order, enters, hits, b as int, y, m);
                } else {
                    let m = visited(nodes, order, enters, hits, b as int, y, best);
                    lemma_visited(nodes, order, enters, hits, b as int, y, best);
                    lemma_visited(nodes, order, enters, hits, a as int, x, m);
                }
            },
            (Some(x), None) => {
                lemma_visited(nodes, order, enters, hits, a as int, x, best);
            },
            (None, Some(y)) => {
                lemma_visited(nodes, order, enters, hits, b as int, y, best);
            },
            (None, None) => {},
        }
        if sound {
            assert forall|k: int| start_of(nodes, i) <= k < end_of(nodes, i) implies (
            #[trigger] hits(order[k]) matches Some(t) ==> at.at_most(t) ==> (r matches Some(c)
                && c.0.at_most(t))) by {
                if let Some(t) = hits(order[k]) {
                    let c = if k < end_of(nodes, a as int) {
                        a
                    } else {
                        b
                    };
                    assert(start_of(nodes, c as int) <= k < end_of(nodes, c as int));
                    if t.below(limit) {
                        assert(enters((c, limit)) matches Some(e) && e.at_most(t));
                    } else {
                        assert(best is Some);
                        assert((best->0).0.at_most(t));
                    }
                }
            }
        }
    }
}

/// Where no box hides a hit, the walk finds the nearest one, and what it finds
/// is a hit in any case.
pub proof fn the_nearest_hit_is_found(bvh: Bvh, f: Calc, prims: Seq<PackedTri>, l: Line)
    requires
        bvh.is_walkable(),
    ensures
        is_hit(bvh.order@, hitting(f, prims, l), bvh.nearest(f, prims, l)),
        is_conservative(
            bvh.nodes@,
            bvh.order@,
            entering(f, bvh.nodes@, l),
            hitting(f, prims, l),
        ) ==> is_nearest(bvh.order@, hitting(f, prims, l), bvh.nearest(f, prims, l)),
{
    let ef = entering(f, bvh.nodes@, l);
    let hf = hitting(f, prims, l);
    if bvh.nodes@.len() > 0 {
        lemma_visited(bvh.nodes@, bvh.order@, ef, hf, 0, Single(0), None);
    }
}

/// Which of the children are pushed: the far one first, the near one on top.
pub open spec fn pushed(
    stack: Seq<Entry>,
    a: u32,
    ta: Option<Single>,
    b: u32,
    tb: Option<Single>,
) -> Seq<Entry> {
    match (ta, tb) {
        (Some(x), Some(y)) => if x.at_most(y) {
            stack.push(Entry { node: b, at: y }).push(Entry { node: a, at: x })
        } else {
            stack.push(Entry { node: a, at: x }).push(Entry { node: b, at: y })
        },
        (Some(x), None) => stack.push(Entry { node: a, at: x }),
        (None, Some(y)) => stack.push(Entry { node: b, at: y }),
        (None, None) => stack,
    }
}

fn push_children(stack: &mut Vec<Entry>, a: u32, ta: Option<Single>, b: u32, tb: Option<Single>)
    ensures
        final(stack)@ == pushed(old(stack)@, a, ta, b, tb),
        forall|j: int| 0 <= j < old(stack)@.len() ==> #[trigger] final(stack)@[j] == old(stack)@[j],
        old(stack)@.len() <= final(stack)@.len(),
        ta matches Some(x) ==> final(stack)@.contains((Entry { node: a, at: x })),
        tb matches Some(y) ==> final(stack)@.contains((Entry { node: b, at: y })),
{
    let ghost s0 = stack@;
    match (ta, tb) {
        (Some(x), Some(y)) => {
            if x.le(y) {
                stack.push(Entry { node: b, at: y });
                stack.push(Entry { node: a, at: x });
            } else {
                stack.push(Entry { node: a, at: x });
                stack.push(Entry { node: b, at: y });
            }
            assert(stack@.contains(stack@[s0.len() as int]));
            assert(stack@.contains(stack@[s0.len() as int + 1]));
        },
        (Some(x), None) => {
            stack.push(Entry { node: a, at: x });
            assert(stack@.contains(stack@[s0.len() as int]));
        },
        (None, Some(y)) => {
            stack.push(Entry { node: b, at: y });
            assert(stack@.contains(stack@[s0.len() as int]));
        },
        (None, None) => {},
    }
}

proof fn lemma_weight_push(nodes: Seq<BvhNode>, stack: Seq<Entry>, e: Entry)
    ensures
        weight(nodes, stack.push(e)) == weight(nodes, stack) + 2 * (end_of(nodes, e.node as int)
            - start_of(nodes, e.node as int)) - 1,
{
    assert(stack.push(e).drop_last() =~= stack);
}

/// Two children weigh less than their parent.
proof fn lemma_children_weight(
    nodes: Seq<BvhNode>,
    n: int,
    base: Seq<Entry>,
    stack: Seq<Entry>,
    i: int,
    ta: Option<Single>,
    tb: Option<Single>,
)
    requires
        is_subtree(nodes, n, i),
        !nodes[i].is_leaf(),
        is_waiting(nodes, n, base),
        stack == pushed(base, nodes[i].a, ta, nodes[i].b, tb),
    ensures
        is_waiting(nodes, n, stack),
        weight(nodes, stack) < weight(nodes, base) + 2 * (end_of(nodes, i) - start_of(nodes, i)) - 1,
        weight(nodes, stack) >= 0,
{
    let a = nodes[i].a;
    let b = nodes[i].b;
    lemma_subtree_spans(nodes, n, a as int);
    lemma_subtree_spans(nodes, n, b as int);
    if let Some(x) = ta {
        lemma_weight_push(nodes, base, Entry { node: a, at: x });
        if let Some(y) = tb {
            lemma_weight_push(nodes, base, Entry { node: b, at: y });
            lemma_weight_push(
                nodes,
                base.push(Entry { node: a, at: x }),
                Entry { node: b, at: y },
            );
            lemma_weight_push(
                nodes,
                base.push(Entry { node: b, at: y }),
                Entry { node: a, at: x },
            );
        }
    } else if let Some(y) = tb {
        lemma_weight_push(nodes, base, Entry { node: b, at: y });
    }
    lemma_weight_nonnegative(nodes, n, base);
}

/// The pattern of 1e-4: crossings nearer than this share to an end of the
/// segment do not count.
pub const NEAR_END: u32 = 0x38D1_B717;

/// The pattern of 1 - 1e-4.
pub const FAR_END: u32 = 0x3F7F_F972;

/// The share of the segment lies strictly between its ends.
pub open spec fn is_between(t: Single) -> bool {
    Single(NEAR_END).below(t) && t.below(Single(FAR_END))
}

/// What is crossed at position `k`, where that counts.
pub open spec fn crossing_at(
    order: Seq<usize>,
    hits: spec_fn(usize) -> Option<Single>,
    k: int,
) -> Option<Single> {
    match hits(order[k]) {
        Some(t) if is_between(t) => Some(t),
        _ => None,
    }
}

/// No box of the tree hides a crossing.
pub open spec fn is_open(
    nodes: Seq<BvhNode>,
    order: Seq<usize>,
    meets: spec_fn(u32) -> bool,
    hits: spec_fn(usize) -> Option<Single>,
) -> bool {
    forall|i: u32, k: int|
        is_under(nodes, 0, i as int) && start_of(nodes, i as int) <= k < end_of(nodes, i as int) && (#[trigger] crossing_at(
            order,
            hits,
            k,
        )) is Some ==> #[trigger] meets(i)
}

/// The crossings at `n` positions from `first` on: the share of the segment and
/// the primitive.
pub open spec fn crossed_at(
    order: Seq<usize>,
    hits: spec_fn(usize) -> Option<Single>,
    first: int,
    n: int,
) -> Seq<(Single, usize)>
    decreases n,
{
    if n <= 0 {
        Seq::empty()
    } else {
        let before = crossed_at(order, hits, first, n - 1);
        match crossing_at(order, hits, first + n - 1) {
            Some(t) => before.push((t, order[first + n - 1])),
            None => before,
        }
    }
}

/// The crossings under node `i`, where its box is met: those of the right
/// child, then those of the left one.
pub open spec fn crossed(
    nodes: Seq<BvhNode>,
    order: Seq<usize>,
    meets: spec_fn(u32) -> bool,
    hits: spec_fn(usize) -> Option<Single>,
    i: int,
) -> Seq<(Single, usize)>
    decreases nodes.len() - i,
{
    if !(0 <= i < nodes.len()) || !meets(i as u32) {
        Seq::empty()
    } else if nodes[i].is_leaf() {
        crossed_at(order, hits, nodes[i].first(), nodes[i].b as int)
    } else if !(i < nodes[i].a < nodes.len() && i < nodes[i].b < nodes.len()) {
        Seq::empty()
    } else {
        crossed(nodes, order, meets, hits, nodes[i].b as int) + crossed(
            nodes,
            order,
            meets,
            hits,
            nodes[i].a as int,
        )
    }
}

/// The crossings under the nodes on a stack, the last one first.
spec fn waiting_crossings(
    nodes: Seq<BvhNode>,
    order: Seq<usize>,
    meets: spec_fn(u32) -> bool,
    hits: spec_fn(usize) -> Option<Single>,
    stack: Seq<Entry>,
) -> Seq<(Single, usize)>
    decreases stack.len(),
{
    if stack.len() == 0 {
        Seq::empty()
    } else {
        crossed(nodes, order, meets, hits, stack.last().node as int) + waiting_crossings(
            nodes,
            order,
            meets,
            hits,
            stack.drop_last(),
        )
    }
}

/// Whether a segment of a length meets a node's box.
pub open spec fn meeting(f: Calc, nodes: Seq<BvhNode>, l: Line, len: Single) -> spec_fn(u32) -> bool {
    |i: u32| box_entry(f, nodes[i as int].bmin, nodes[i as int].bmax, l, len) is Some
}

/// At which share of a segment of a length a primitive is crossed.
pub open spec fn sharing(f: Calc, prims: Seq<PackedTri>, l: Line, len: Single) -> spec_fn(usize) -> Option<
    Single,
> {
    |p: usize|
        match prims[p as int].hit(f, l) {
            Some(t) => Some(quot(f, t, len)),
            None => None,
        }
}

impl Bvh {
    /// Every crossing of a segment, in the order of the walk.
    pub open spec fn crossings_of(self, f: Calc, prims: Seq<PackedTri>, l: Line, len: Single) -> Seq<
        (Single, usize),
    > {
        crossed(
            self.nodes@,
            self.order@,
            meeting(f, self.nodes@, l, len),
            sharing(f, prims, l, len),
            0,
        )
    }

    /// Add the crossings of a leaf to those found.
    fn cross_leaf<F: Fn(Op) -> Single>(
        &self,
        f: &F,
        prims: &Vec<PackedTri>,
        l: &Line,
        len: Single,
        first: usize,
        count: usize,
        found: &mut Vec<(Single, usize)>,
    )
        requires
            is_steady(*f),
            first + count <= self.order@.len(),
            forall|k: int| 0 <= k < self.order@.len() ==> #[trigger] self.order@[k] < prims@.len(),
        ensures
            final(found)@ == old(found)@ + crossed_at(
                self.order@,
                sharing(answering(*f), prims@, *l, len),
                first as int,
                count as int,
            ),
    {
        let ghost hf = sharing(answering(*f), prims@, *l, len);
        let total: usize = self.order.len();
        let ghost before = found@;
        let mut n: usize = 0;
        assert(found@ =~= before + crossed_at(self.order@, hf, first as int, 0));
        while n < count
            invariant
                n <= count,
                is_steady(*f),
                hf == sharing(answering(*f), prims@, *l, len),
                total == self.order@.len(),
                first + count <= total,
                forall|k: int|
                    0 <= k < self.order@.len() ==> #[trigger] self.order@[k] < prims@.len(),
                found@ == before + crossed_at(self.order@, hf, first as int, n as int),
            decreases count - n,
        {
            let p: usize = self.order[first + n];
            let t: PackedTri = prims[p];
            let ghost was = found@;
            let ghost done = crossed_at(self.order@, hf, first as int, n as int);
            match ray_tri_packed(f, t.a, t.e1, t.e2, l.o, l.d) {
                Some(t) => {
                    let share: Single = over(f, t, len);
                    assert(hf(p) == Some(share));
                    if Single(NEAR_END).lt(share) && share.lt(Single(FAR_END)) {
                        found.push((share, p));
                        assert(found@ =~= before + done.push((share, p)));
                    }
                },
                None => {
                    assert(hf(p) is None);
                },
            }
            n = n + 1;
        }
    }

    /// Every crossing of a segment of a length strictly between its ends: the
    /// share of the segment and the primitive, in the order of the walk.
    pub fn crossings<F: Fn(Op) -> Single>(
        &self,
        f: &F,
        prims: &Vec<PackedTri>,
        l: &Line,
        len: Single,
    ) -> (found: Vec<(Single, usize)>)
        requires
            is_steady(*f),
            self.is_walkable(),
            forall|k: int| 0 <= k < self.order@.len() ==> #[trigger] self.order@[k] < prims@.len(),
        ensures
            found@ == self.crossings_of(answering(*f), prims@, *l, len),
    {
        let ghost g = answering(*f);
        let ghost mf = meeting(g, self.nodes@, *l, len);
        let ghost hf = sharing(g, prims@, *l, len);
        let ghost goal = self.crossings_of(g, prims@, *l, len);
        let ghost n = self.order@.len() as int;
        let mut found: Vec<(Single, usize)> = Vec::new();
        if self.nodes.len() == 0 {
            return found;
        }
        let mut stack: Vec<Entry> = Vec::new();
        stack.push(Entry { node: 0, at: Single(0) });
        proof {
            assert(stack@[0].node == 0);
            assert(stack@.drop_last() =~= Seq::empty());
            reveal_with_fuel(waiting_crossings, 2);
            assert(found@ + waiting_crossings(self.nodes@, self.order@, mf, hf, stack@) =~= goal);
        }
        while stack.len() > 0
            invariant
                self.is_walkable(),
                self.nodes@.len() > 0,
                n == self.order@.len(),
                is_steady(*f),
                g == answering(*f),
                mf == meeting(g, self.nodes@, *l, len),
                hf == sharing(g, prims@, *l, len),
                forall|k: int|
                    0 <= k < self.order@.len() ==> #[trigger] self.order@[k] < prims@.len(),
                is_waiting(self.nodes@, n, stack@),
                found@ + waiting_crossings(self.nodes@, self.order@, mf, hf, stack@) == goal,
            decreases weight(self.nodes@, stack@),
        {
            let ghost stack0 = stack@;
            let ghost found0 = found@;
            let top: Entry = stack[stack.len() - 1];
            proof {
                assert(stack0[stack0.len() - 1] == stack0.last());
                lemma_subtree_spans(self.nodes@, n, stack0.last().node as int);
                lemma_weight_nonnegative(self.nodes@, n, stack0);
            }
            let _ = stack.pop();
            proof {
                assert(stack@ =~= stack0.drop_last());
                assert forall|k: int| 0 <= k < stack@.len() implies is_subtree(
                    self.nodes@,
                    n,
                    (#[trigger] stack@[k]).node as int,
                ) by {
                    assert(stack0[k] == stack@[k]);
                }
                lemma_weight_nonnegative(self.nodes@, n, stack@);
            }
            let ghost base = stack@;
            let ghost rest = waiting_crossings(self.nodes@, self.order@, mf, hf, base);
            let node: BvhNode = self.nodes[top.node as usize];
            let met: bool = ray_aabb(f, node.bmin, node.bmax, l, len).is_some();
            assert(mf(top.node) == met);
            if met {
                if node.a >= LEAF_BIT {
                    let first: usize = (node.a - LEAF_BIT) as usize;
                    self.cross_leaf(f, prims, l, len, first, node.b as usize, &mut found);
                    assert(found@ + rest =~= goal);
                } else {
                    let left: Entry = Entry { node: node.a, at: Single(0) };
                    let right: Entry = Entry { node: node.b, at: Single(0) };
                    stack.push(left);
                    stack.push(right);
                    proof {
                        lemma_subtree_spans(self.nodes@, n, node.a as int);
                        lemma_subtree_spans(self.nodes@, n, node.b as int);
                        lemma_weight_push(self.nodes@, base, left);
                        lemma_weight_push(self.nodes@, base.push(left), right);
                        assert(stack@ =~= base.push(left).push(right));
                        lemma_weight_nonnegative(self.nodes@, n, stack@);
                        reveal_with_fuel(waiting_crossings, 3);
                        assert(stack@.drop_last() =~= base.push(left));
                        assert(base.push(left).drop_last() =~= base);
                        assert(found@ + waiting_crossings(self.nodes@, self.order@, mf, hf, stack@)
                            =~= goal);
                    }
                }
            } else {
                assert(found@ + rest =~= goal);
            }
        }
        assert(found@ =~= goal);
        found
    }
}

proof fn lemma_crossed_at_joins(
    order: Seq<usize>,
    hits: spec_fn(usize) -> Option<Single>,
    s: int,
    m: int,
    n: int,
)
    requires
        0 <= m,
        0 <= n,
    ensures
        crossed_at(order, hits, s, m + n) == crossed_at(order, hits, s, m) + crossed_at(
            order,
            hits,
            s + m,
            n,
        ),
    decreases n,
{
    if n > 0 {
        lemma_crossed_at_joins(order, hits, s, m, n - 1);
        assert(s + (m + n) - 1 == (s + m) + n - 1);
        assert(crossed_at(order, hits, s, m + n) =~= crossed_at(order, hits, s, m) + crossed_at(
            order,
            hits,
            s + m,
            n,
        ));
    } else {
        assert(crossed_at(order, hits, s, m) + Seq::<(Single, usize)>::empty() =~= crossed_at(
            order,
            hits,
            s,
            m,
        ));
    }
}

proof fn lemma_crossed(
    nodes: Seq<BvhNode>,
    order: Seq<usize>,
    meets: spec_fn(u32) -> bool,
    hits: spec_fn(usize) -> Option<Single>,
    i: int,
)
    requires
        is_subtree(nodes, order.len() as int, i),
        is_under(nodes, 0, i),
        nodes.len() <= u32::MAX,
        is_open(nodes, order, meets, hits),
    ensures
        crossed(nodes, order, meets, hits, i).to_multiset() == crossed_at(
            order,
            hits,
            start_of(nodes, i),
            end_of(nodes, i) - start_of(nodes, i),
        ).to_multiset(),
    decreases nodes.len() - i,
{
    let (s, e) = (start_of(nodes, i), end_of(nodes, i));
    lemma_subtree_spans(nodes, order.len() as int, i);
    if !meets(i as u32) {
        lemma_nothing_crossed(nodes, order, meets, hits, i, e - s);
    } else if !nodes[i].is_leaf() {
        let (a, b) = (nodes[i].a as int, nodes[i].b as int);
        lemma_subtree_spans(nodes, order.len() as int, a);
        lemma_subtree_spans(nodes, order.len() as int, b);
        lemma_under(nodes, 0, i);
        lemma_crossed(nodes, order, meets, hits, a);
        lemma_crossed(nodes, order, meets, hits, b);
        let mid = end_of(nodes, a);
        lemma_crossed_at_joins(order, hits, s, mid - s, e - mid);
        vstd::seq_lib::lemma_multiset_commutative(
            crossed(nodes, order, meets, hits, b),
            crossed(nodes, order, meets, hits, a),
        );
        vstd::seq_lib::lemma_multiset_commutative(
            crossed_at(order, hits, s, mid - s),
            crossed_at(order, hits, mid, e - mid),
        );
        assert(crossed(nodes, order, meets, hits, i).to_multiset() =~= crossed_at(
            order,
            hits,
            s,
            e - s,
        ).to_multiset());
    }
}

proof fn lemma_nothing_crossed(
    nodes: Seq<BvhNode>,
    order: Seq<usize>,
    meets: spec_fn(u32) -> bool,
    hits: spec_fn(usize) -> Option<Single>,
    i: int,
    n: int,
)
    requires
        0 <= i < nodes.len() <= u32::MAX,
        is_under(nodes, 0, i),
        is_open(nodes, order, meets, hits),
        !meets(i as u32),
        n <= end_of(nodes, i) - start_of(nodes, i),
    ensures
        crossed_at(order, hits, start_of(nodes, i), n) == Seq::<(Single, usize)>::empty(),
    decreases n,
{
    if n > 0 {
        lemma_nothing_crossed(nodes, order, meets, hits, i, n - 1);
        let k = start_of(nodes, i) + n - 1;
        if crossing_at(order, hits, k) is Some {
            assert(meets(i as u32));
        }
    }
}

/// Where no box hides a crossing, the walk finds the crossings of all
/// primitives, each as often as it is one.
pub proof fn every_crossing_is_found(bvh: Bvh, f: Calc, prims: Seq<PackedTri>, l: Line, len: Single)
    requires
        bvh.is_walkable(),
        bvh.nodes@.len() <= u32::MAX,
        is_open(
            bvh.nodes@,
            bvh.order@,
            meeting(f, bvh.nodes@, l, len),
            sharing(f, prims, l, len),
        ),
    ensures
        bvh.crossings_of(f, prims, l, len).to_multiset() == crossed_at(
            bvh.order@,
            sharing(f, prims, l, len),
            0,
            bvh.order@.len() as int,
        ).to_multiset(),
{
    if bvh.nodes@.len() > 0 {
        lemma_crossed(
            bvh.nodes@,
            bvh.order@,
            meeting(f, bvh.nodes@, l, len),
            sharing(f, prims, l, len),
            0,
        );
    } else {
        assert(bvh.crossings_of(f, prims, l, len) =~= Seq::empty());
    }
}

} // verus!
