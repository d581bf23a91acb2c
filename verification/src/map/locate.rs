//! Walking the BSP node tree: the leaf that holds a point, and the PVS
//! clusters an axis-aligned box reaches. Which side of a node's plane the
//! point or box lies on is a floating-point test; the caller hands it in
//! as a function of the plane index, and the walk itself is checked here.
use vstd::prelude::*;

use super::data::{MapPropVisibility, spec_prop_clusters, spec_strictly_increasing};

verus! {

/// One node of the BSP tree: the index of its splitting plane and its
/// front and back child links (a negative link `l` names leaf `-l - 1`).
#[derive(Debug, Clone, Copy, PartialEq, Eq)]
pub struct TreeNode {
    pub plane: i32,
    pub children: [i32; 2],
}

/// The integer part of a BSP tree: its nodes, each leaf's cluster, and
/// how many planes the map has.
#[derive(Debug, Clone, PartialEq, Eq)]
pub struct LeafTree {
    pub nodes: Vec<TreeNode>,
    pub leaf_clusters: Vec<i16>,
    pub plane_count: usize,
}

/// The box walk gives up below this many node levels.
pub const BOX_WALK_MAX_DEPTH: usize = 256;

/// The box walk gives up after reaching this many leaves.
pub const BOX_WALK_MAX_LEAVES: usize = 4096;

/// The answer of a deterministic side test for plane `p`.
pub open spec fn spec_answer<R, F: Fn(usize) -> R>(f: F, p: usize) -> R {
    choose|r: R| call_ensures(f, (p,), r)
}

/// A side test that can be called on every plane and answers each plane
/// the same way every time.
pub open spec fn spec_side_test<R, F: Fn(usize) -> R>(f: F, plane_count: usize) -> bool {
    &&& forall|p: usize| p < plane_count ==> call_requires(f, (p,))
    &&& forall|p: usize, a: R, b: R| call_ensures(f, (p,), a) && call_ensures(f, (p,), b) ==> a == b
}

/// The node a plane index names, when it names one of the map's planes.
pub open spec fn spec_plane_ok(plane: i32, plane_count: usize) -> bool {
    0 <= plane < plane_count
}

/// The descent from `node` toward the leaf holding a point: at each node
/// take the back child when the point lies behind the plane, else the
/// front one, until a leaf link. None when a node or plane is missing, or
/// when `fuel` node visits do not reach a leaf.
pub open spec fn spec_descend(
    nodes: Seq<TreeNode>,
    plane_count: usize,
    behind: spec_fn(usize) -> bool,
    node: int,
    fuel: nat,
) -> Option<int>
    decreases fuel,
{
    if fuel == 0 || node < 0 || node >= nodes.len() {
        None
    } else {
        let n = nodes[node];
        if !spec_plane_ok(n.plane, plane_count) {
            None
        } else {
            let next = if behind(n.plane as usize) {
                n.children[1]
            } else {
                n.children[0]
            };
            if next < 0 {
                Some(-next - 1)
            } else {
                spec_descend(nodes, plane_count, behind, next as int, (fuel - 1) as nat)
            }
        }
    }
}

/// A leaf the descent reaches is named by a negative `i32` link.
proof fn lemma_descend_leaf_range(
    nodes: Seq<TreeNode>,
    plane_count: usize,
    behind: spec_fn(usize) -> bool,
    node: int,
    fuel: nat,
)
    ensures
        spec_descend(nodes, plane_count, behind, node, fuel) matches Some(l) ==> 0 <= l <= i32::MAX,
    decreases fuel,
{
    if fuel > 0 && 0 <= node < nodes.len() {
        let n = nodes[node];
        if spec_plane_ok(n.plane, plane_count) {
            let next = if behind(n.plane as usize) {
                n.children[1]
            } else {
                n.children[0]
            };
            if next >= 0 {
                lemma_descend_leaf_range(nodes, plane_count, behind, next as int, (fuel - 1) as nat);
            }
        }
    }
}

/// The leaf the descent from the root reaches with the side test
/// `behind`, given as many node visits as the tree has nodes.
pub open spec fn spec_point_leaf<F: Fn(usize) -> bool>(tree: LeafTree, behind: F) -> Option<int> {
    spec_descend(tree.nodes@, tree.plane_count, |p: usize| spec_answer(behind, p), 0, tree.nodes@.len())
}

/// The leaf holding a point, found by descending from the root node with
/// `behind(p)` telling whether the point lies behind plane `p`. A descent
/// that visits more nodes than the tree has revisits one and never ends;
/// it is answered with none.
pub fn leaf_for_point<F: Fn(usize) -> bool>(tree: &LeafTree, behind: F) -> (r: Option<usize>)
    requires
        spec_side_test(behind, tree.plane_count),
    ensures
        r == (match spec_point_leaf(*tree, behind) {
            Some(l) => Some(l as usize),
            None => None,
        }),
{
    let ghost nodes = tree.nodes@;
    let ghost pc = tree.plane_count;
    let ghost side = |p: usize| spec_answer(behind, p);
    let n = tree.nodes.len();
    let mut current: usize = 0;
    let mut fuel: usize = n;
    while fuel > 0
        invariant
            nodes == tree.nodes@,
            pc == tree.plane_count,
            n == nodes.len(),
            fuel <= n,
            side == (|p: usize| spec_answer(behind, p)),
            spec_side_test(behind, pc),
            spec_descend(nodes, pc, side, 0, n as nat) == spec_descend(
                nodes,
                pc,
                side,
                current as int,
                fuel as nat,
            ),
        decreases fuel,
    {
        if current >= n {
            return None;
        }
        let node = tree.nodes[current];
        if node.plane < 0 || node.plane as usize >= tree.plane_count {
            return None;
        }
        let p = node.plane as usize;
        let is_behind = behind(p);
        proof {
            assert(call_ensures(behind, (p,), spec_answer(behind, p)));
            assert(side(p) == is_behind);
        }
        let next = if is_behind {
            node.children[1]
        } else {
            node.children[0]
        };
        if next < 0 {
            return Some((-(next + 1)) as usize);
        }
        current = next as usize;
        fuel = fuel - 1;
    }
    None
}

/// The cluster of the leaf holding a point (see `leaf_for_point`): none
/// when no leaf is found, the leaf is missing, or it has no cluster.
pub fn cluster_for_point<F: Fn(usize) -> bool>(tree: &LeafTree, behind: F) -> (r: Option<i16>)
    requires
        spec_side_test(behind, tree.plane_count),
    ensures
        r == (match spec_point_leaf(*tree, behind) {
            Some(l) => if l < tree.leaf_clusters@.len() && tree.leaf_clusters@[l] >= 0 {
                Some(tree.leaf_clusters@[l])
            } else {
                None
            },
            None => None,
        }),
{
    proof {
        lemma_descend_leaf_range(tree.nodes@, tree.plane_count, |p: usize| spec_answer(behind, p), 0, tree.nodes@.len());
    }
    let leaf = match leaf_for_point(tree, behind) {
        Some(l) => l,
        None => return None,
    };
    if leaf >= tree.leaf_clusters.len() {
        return None;
    }
    let c = tree.leaf_clusters[leaf];
    if c >= 0 {
        Some(c)
    } else {
        None
    }
}

/// What a box walk gathers: whether it failed, how many leaves it
/// reached (counting repeats), and the in-range clusters of those leaves.
pub open spec fn spec_tally_join(a: (bool, nat, Set<u32>), b: (bool, nat, Set<u32>)) -> (bool, nat, Set<u32>) {
    (a.0 || b.0, a.1 + b.1, a.2.union(b.2))
}

/// Nothing gathered.
pub open spec fn spec_tally_none() -> (bool, nat, Set<u32>) {
    (false, 0, Set::empty())
}

/// A failed walk.
pub open spec fn spec_tally_fail() -> (bool, nat, Set<u32>) {
    (true, 0, Set::empty())
}

/// Reaching the leaf that link `child` names: one leaf, failed when the
/// leaf is missing, and its cluster when that is one of the map's.
pub open spec fn spec_leaf_visit(leaf_clusters: Seq<i16>, cluster_count: u32, child: i32) -> (bool, nat, Set<u32>) {
    let leaf = -child - 1;
    if leaf >= leaf_clusters.len() {
        (true, 1, Set::empty())
    } else {
        let c = leaf_clusters[leaf];
        (false, 1, if 0 <= c < cluster_count { set![c as u32] } else { Set::empty() })
    }
}

/// The walk of a box down from `node` at `depth`: at each node the box
/// lies in front of the plane, behind it, or across it (`side`), and the
/// walk visits the children on those sides (a shared child once). It
/// fails below `BOX_WALK_MAX_DEPTH` levels and on a missing node or plane.
pub open spec fn spec_box_walk(
    nodes: Seq<TreeNode>,
    leaf_clusters: Seq<i16>,
    plane_count: usize,
    side: spec_fn(usize) -> (bool, bool),
    cluster_count: u32,
    node: int,
    depth: int,
) -> (bool, nat, Set<u32>)
    decreases 257 - depth,
{
    if depth > 256 || depth < 0 || node < 0 || node >= nodes.len() {
        spec_tally_fail()
    } else {
        let n = nodes[node];
        if !spec_plane_ok(n.plane, plane_count) {
            spec_tally_fail()
        } else {
            let front = side(n.plane as usize).0;
            let back = side(n.plane as usize).1;
            let c0 = n.children[0];
            let c1 = n.children[1];
            let a = if front {
                if c0 < 0 {
                    spec_leaf_visit(leaf_clusters, cluster_count, c0)
                } else {
                    spec_box_walk(nodes, leaf_clusters, plane_count, side, cluster_count, c0 as int, depth + 1)
                }
            } else {
                spec_tally_none()
            };
            let b = if back && (!front || c1 != c0) {
                if c1 < 0 {
                    spec_leaf_visit(leaf_clusters, cluster_count, c1)
                } else {
                    spec_box_walk(nodes, leaf_clusters, plane_count, side, cluster_count, c1 as int, depth + 1)
                }
            } else {
                spec_tally_none()
            };
            spec_tally_join(a, b)
        }
    }
}

/// The box walk of the whole tree with the side test `side`.
pub open spec fn spec_tree_box_walk<F: Fn(usize) -> (bool, bool)>(tree: LeafTree, side: F, cluster_count: u32) -> (bool, nat, Set<u32>) {
    spec_box_walk(
        tree.nodes@,
        tree.leaf_clusters@,
        tree.plane_count,
        |p: usize| spec_answer(side, p),
        cluster_count,
        0,
        0,
    )
}

/// Counts one reached leaf and gathers its cluster; false when the leaf
/// count passes the cap or the leaf is missing.
fn visit_leaf(tree: &LeafTree, cluster_count: u32, child: i32, leaves: &mut usize, clusters: &mut Vec<u32>) -> (ok: bool)
    requires
        child < 0,
        *old(leaves) <= BOX_WALK_MAX_LEAVES,
    ensures
        ({
            let t = spec_leaf_visit(tree.leaf_clusters@, cluster_count, child);
            &&& ok ==> !t.0 && *final(leaves) == *old(leaves) + t.1 && *final(leaves) <= BOX_WALK_MAX_LEAVES
                && final(clusters)@.to_set() == old(clusters)@.to_set().union(t.2)
            &&& !ok ==> t.0 || *old(leaves) + t.1 > BOX_WALK_MAX_LEAVES
        }),
{
    *leaves = *leaves + 1;
    if *leaves > BOX_WALK_MAX_LEAVES {
        return false;
    }
    let leaf = (-(child + 1)) as usize;
    if leaf >= tree.leaf_clusters.len() {
        return false;
    }
    let c = tree.leaf_clusters[leaf];
    let ghost before = clusters@;
    if c >= 0 && (c as u32) < cluster_count {
        clusters.push(c as u32);
        proof {
            assert(clusters@.to_set() =~= before.to_set().union(set![c as u32])) by {
                assert forall|x: u32| clusters@.to_set().contains(x) <==> before.to_set().union(set![c as u32]).contains(x) by {
                    if clusters@.contains(x) {
                        let j = choose|j: int| 0 <= j < clusters@.len() && clusters@[j] == x;
                        if j < before.len() {
                            assert(before[j] == x);
                        }
                    }
                    if before.contains(x) {
                        let j = choose|j: int| 0 <= j < before.len() && before[j] == x;
                        assert(clusters@[j] == x);
                    }
                    if x == c as u32 {
                        assert(clusters@[before.len() as int] == x);
                    }
                }
            }
        }
    } else {
        proof {
            assert(clusters@.to_set() =~= before.to_set().union(Set::<u32>::empty()));
        }
    }
    true
}

/// The walk below one node (see `spec_box_walk`); false as soon as it
/// fails or passes the leaf cap.
fn box_walk<F: Fn(usize) -> (bool, bool)>(
    tree: &LeafTree,
    side: &F,
    cluster_count: u32,
    node: usize,
    depth: usize,
    leaves: &mut usize,
    clusters: &mut Vec<u32>,
) -> (ok: bool)
    requires
        spec_side_test(*side, tree.plane_count),
        *old(leaves) <= BOX_WALK_MAX_LEAVES,
        depth <= 257,
    ensures
        ({
            let t = spec_box_walk(
                tree.nodes@,
                tree.leaf_clusters@,
                tree.plane_count,
                |p: usize| spec_answer(*side, p),
                cluster_count,
                node as int,
                depth as int,
            );
            &&& ok ==> !t.0 && *final(leaves) == *old(leaves) + t.1 && *final(leaves) <= BOX_WALK_MAX_LEAVES
                && final(clusters)@.to_set() == old(clusters)@.to_set().union(t.2)
            &&& !ok ==> t.0 || *old(leaves) + t.1 > BOX_WALK_MAX_LEAVES
        }),
    decreases 257 - depth,
{
    let ghost sf = |p: usize| spec_answer(*side, p);
    let ghost whole = spec_box_walk(
        tree.nodes@,
        tree.leaf_clusters@,
        tree.plane_count,
        sf,
        cluster_count,
        node as int,
        depth as int,
    );
    if depth > BOX_WALK_MAX_DEPTH || node >= tree.nodes.len() {
        return false;
    }
    let n = tree.nodes[node];
    if n.plane < 0 || n.plane as usize >= tree.plane_count {
        return false;
    }
    let p = n.plane as usize;
    let (front, back) = side(p);
    proof {
        assert(call_ensures(*side, (p,), spec_answer(*side, p)));
        assert(sf(p) == (front, back));
    }
    let c0 = n.children[0];
    let c1 = n.children[1];
    let ghost a = if front {
        if c0 < 0 {
            spec_leaf_visit(tree.leaf_clusters@, cluster_count, c0)
        } else {
            spec_box_walk(tree.nodes@, tree.leaf_clusters@, tree.plane_count, sf, cluster_count, c0 as int, depth + 1)
        }
    } else {
        spec_tally_none()
    };
    let ghost b = if back && (!front || c1 != c0) {
        if c1 < 0 {
            spec_leaf_visit(tree.leaf_clusters@, cluster_count, c1)
        } else {
            spec_box_walk(tree.nodes@, tree.leaf_clusters@, tree.plane_count, sf, cluster_count, c1 as int, depth + 1)
        }
    } else {
        spec_tally_none()
    };
    assert(whole == spec_tally_join(a, b));
    let ghost start_leaves = *leaves;
    let ghost start_set = clusters@.to_set();
    if front {
        let ok = if c0 < 0 {
            visit_leaf(tree, cluster_count, c0, leaves, clusters)
        } else {
            box_walk(tree, side, cluster_count, c0 as usize, depth + 1, leaves, clusters)
        };
        if !ok {
            return false;
        }
    } else {
        assert(clusters@.to_set() =~= start_set.union(Set::<u32>::empty()));
    }
    let ghost mid_leaves = *leaves;
    let ghost mid_set = clusters@.to_set();
    assert(mid_leaves == start_leaves + a.1 && mid_set == start_set.union(a.2) && !a.0);
    if back && (!front || c1 != c0) {
        let ok = if c1 < 0 {
            visit_leaf(tree, cluster_count, c1, leaves, clusters)
        } else {
            box_walk(tree, side, cluster_count, c1 as usize, depth + 1, leaves, clusters)
        };
        if !ok {
            return false;
        }
    } else {
        assert(clusters@.to_set() =~= mid_set.union(Set::<u32>::empty()));
    }
    assert(clusters@.to_set() =~= start_set.union(a.2.union(b.2)));
    true
}

/// The clusters an axis-aligned box reaches: walking down from the root,
/// `side(p)` tells whether the box reaches in front of plane `p` and
/// whether it reaches behind it. Always visible when the tree has no
/// nodes, when the walk fails or reaches more than `BOX_WALK_MAX_LEAVES`
/// leaves, or when no reached leaf has one of the map's clusters; else
/// the reached clusters, sorted without repeats.
pub fn clusters_for_box<F: Fn(usize) -> (bool, bool)>(tree: &LeafTree, side: F, cluster_count: u32) -> (r: MapPropVisibility)
    requires
        spec_side_test(side, tree.plane_count),
    ensures
        tree.nodes@.len() == 0 ==> r is Always,
        tree.nodes@.len() > 0 ==> {
            let t = spec_tree_box_walk(*tree, side, cluster_count);
            &&& (t.0 || t.1 > BOX_WALK_MAX_LEAVES) ==> r is Always
            &&& !(t.0 || t.1 > BOX_WALK_MAX_LEAVES) ==> {
                &&& spec_strictly_increasing(spec_prop_clusters(r))
                &&& forall|c: u32| spec_prop_clusters(r).contains(c) <==> t.2.contains(c)
                &&& (r is Always <==> t.2 == Set::<u32>::empty())
            }
        },
{
    if tree.nodes.len() == 0 {
        return MapPropVisibility::Always;
    }
    let mut leaves: usize = 0;
    let mut clusters: Vec<u32> = Vec::new();
    let ok = box_walk(tree, &side, cluster_count, 0, 0, &mut leaves, &mut clusters);
    if !ok {
        return MapPropVisibility::Always;
    }
    let ghost t = spec_tree_box_walk(*tree, side, cluster_count);
    assert(clusters@.to_set() =~= t.2) by {
        assert(Seq::<u32>::empty().to_set() =~= Set::<u32>::empty());
    }
    let ghost gathered = clusters@;
    let r = MapPropVisibility::from_clusters(clusters);
    proof {
        assert forall|c: u32| spec_prop_clusters(r).contains(c) <==> t.2.contains(c) by {
            assert(gathered.to_set().contains(c) == gathered.contains(c));
        }
        if t.2 == Set::<u32>::empty() && gathered.len() > 0 {
            assert(gathered.to_set().contains(gathered[0]));
        }
        if gathered.len() == 0 {
            assert(gathered.to_set() =~= Set::<u32>::empty());
        }
    }
    r
}


/// How many cells lie in the box of grid cells from `min_cell` to
/// `max_cell` (both included).
pub open spec fn spec_cell_span(min_cell: [i32; 3], max_cell: [i32; 3], axis: int) -> int {
    max_cell[axis] - min_cell[axis] + 1
}

/// The number of grid cells from `min_cell` to `max_cell`, both
/// included: none when an axis runs backwards or the count does not fit
/// in `usize`.
pub fn grid_cell_count(min_cell: [i32; 3], max_cell: [i32; 3]) -> (r: Option<usize>)
    ensures
        ({
            let a = spec_cell_span(min_cell, max_cell, 0);
            let b = spec_cell_span(min_cell, max_cell, 1);
            let c = spec_cell_span(min_cell, max_cell, 2);
            if a < 1 || b < 1 || c < 1 || a * b * c > usize::MAX {
                r is None
            } else {
                r == Some((a * b * c) as usize)
            }
        }),
{
    let ghost a = spec_cell_span(min_cell, max_cell, 0);
    let ghost b = spec_cell_span(min_cell, max_cell, 1);
    let ghost c = spec_cell_span(min_cell, max_cell, 2);
    if max_cell[0] < min_cell[0] || max_cell[1] < min_cell[1] || max_cell[2] < min_cell[2] {
        return None;
    }
    let span0 = (max_cell[0] as i64 - min_cell[0] as i64 + 1) as u64;
    let span1 = (max_cell[1] as i64 - min_cell[1] as i64 + 1) as u64;
    let span2 = (max_cell[2] as i64 - min_cell[2] as i64 + 1) as u64;
    assert(span0 == a && span1 == b && span2 == c);
    assert(a * b <= a * b * c) by (nonlinear_arith)
        requires
            a >= 1,
            b >= 1,
            c >= 1,
    ;
    let ab = match span0.checked_mul(span1) {
        Some(v) => v,
        None => {
            assert(a * b > u64::MAX);
            return None;
        },
    };
    let abc = match ab.checked_mul(span2) {
        Some(v) => v,
        None => return None,
    };
    if abc > usize::MAX as u64 {
        return None;
    }
    Some(abc as usize)
}

} // verus!
