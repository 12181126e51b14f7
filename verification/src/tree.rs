//! The branch arena and the growth engine.
//!
//! Nodes live in an append-only arena and refer to their parent by index;
//! a parent's index is always strictly below its child's, so the arena
//! encodes a single-rooted acyclic tree and permits one-pass reverse
//! computations. A growth cycle proposes children toward nearby attraction
//! points, consumes reached points, accepts proposals under depth, vertical
//! and spacing constraints, prunes dominated branches, and recomputes every
//! node's subtree weight.

use vstd::prelude::*;

use vstd::arithmetic::power::pow;
use vstd::set_lib::lemma_int_range;
use vstd::set_lib::lemma_len_subset;
use vstd::set_lib::lemma_set_disjoint_lens;
use vstd::set_lib::set_int_range;

use crate::config::Config;
use crate::config::MAX_POINTS;
use crate::config::PM_ONE;
use crate::density::DensityField;
use crate::geom::abs_i;
use crate::geom::dist_sq;
use crate::geom::dist_sq_u64;
use crate::geom::in_box;
use crate::geom::is_sqrt_floor;
use crate::geom::isqrt;
use crate::geom::mul_div;
use crate::geom::scale_div;
use crate::geom::sqrt_floor;
use crate::geom::Vec2;
use crate::geom::DIST_LIMIT;
use crate::geom::POS_LIMIT;
use crate::rng::random_below;
use crate::rng::random_between;

verus! {

broadcast use vstd::set::group_set_axioms;

/// One branch segment tip.
#[derive(Clone, Copy, Debug)]
pub struct Node {
    /// False once the pruning pass has retired this node; never reset.
    pub alive: bool,
    /// Position in the plane.
    pub pos: Vec2,
    /// Index of the parent node; `None` only for the root.
    pub parent: Option<usize>,
    /// Number of children accepted so far.
    pub child_count: usize,
    /// Distance from the root; the root has depth 0.
    pub depth: usize,
    /// Size of the subtree rooted here (itself plus all descendants, dead
    /// or alive), as of the last weight recomputation.
    pub weight: usize,
    /// Depth-axis coordinate: a bounded random walk from the parent's value.
    pub z: i64,
}

/// The growing structure: the arena, the configuration, and what is left of
/// the attraction points.
pub struct Tree {
    pub nodes: Vec<Node>,
    pub config: Config,
    pub points: Vec<Vec2>,
    pub growing: bool,
}

/// The parent index of each node, the whole shape of the tree.
pub open spec fn parent_seq(nodes: Seq<Node>) -> Seq<Option<usize>> {
    nodes.map_values(|n: Node| n.parent)
}

/// A valid shape: non-empty, the first node is the only root, and every
/// other node's parent sits strictly below it.
pub open spec fn ps_wf(ps: Seq<Option<usize>>) -> bool {
    &&& 1 <= ps.len()
    &&& ps[0] is None
    &&& forall|i: int|
        1 <= i < ps.len() ==> (#[trigger] ps[i]) is Some && ps[i]->0 < i
}

/// Per-node bounds that keep the engine's arithmetic in machine ranges.
pub open spec fn node_wf(cfg: Config, n: Node) -> bool {
    &&& in_box(n.pos, POS_LIMIT as int)
    &&& n.child_count <= cfg.max_children
    &&& n.depth <= cfg.max_depth
    &&& 0 <= n.z <= cfg.node_depth_max
    &&& 1 <= n.weight
}

pub open spec fn arena_wf(cfg: Config, nodes: Seq<Node>) -> bool {
    &&& ps_wf(parent_seq(nodes))
    &&& forall|i: int| 0 <= i < nodes.len() ==> node_wf(cfg, #[trigger] nodes[i])
}

/// Whether node `i` lies on the parent chain of node `j` (including `j`
/// itself): `i` is an ancestor-or-self of `j`.
pub open spec fn on_chain(ps: Seq<Option<usize>>, j: int, i: int) -> bool
    decreases j,
{
    if !(0 <= j < ps.len()) {
        false
    } else if j == i {
        true
    } else {
        match ps[j] {
            Option::None => false,
            Option::Some(p) => p < j && on_chain(ps, p as int, i),
        }
    }
}

/// For `j` strictly below `i` on the chain: the element of `j`'s chain whose
/// parent is `i` — the child of `i` through which `j` descends.
pub open spec fn link(ps: Seq<Option<usize>>, j: int, i: int) -> int
    decreases j,
{
    if !(0 <= j < ps.len()) {
        j
    } else {
        match ps[j] {
            Option::None => j,
            Option::Some(p) => if p == i {
                j
            } else if p < j {
                link(ps, p as int, i)
            } else {
                j
            },
        }
    }
}

/// All nodes whose parent chain passes through `i`: the subtree rooted at
/// `i`, dead or alive.
pub open spec fn subtree_set(ps: Seq<Option<usize>>, i: int) -> Set<int> {
    Set::new(|j: int| on_chain(ps, j, i))
}

/// The weight of node `i`: the number of nodes in its subtree.
pub open spec fn subtree_weight(ps: Seq<Option<usize>>, i: int) -> nat {
    subtree_set(ps, i).len()
}

/// The partially folded subtree of `i`: `i` itself, plus the full subtrees
/// of those children of `i` that a reverse pass down to index `k` has
/// already folded in.
pub open spec fn folded_set(ps: Seq<Option<usize>>, i: int, k: int) -> Set<int> {
    Set::new(
        |m: int| on_chain(ps, m, i) && (m == i || link(ps, m, i) >= k),
    )
}

pub proof fn lemma_on_chain_le(ps: Seq<Option<usize>>, j: int, i: int)
    requires
        on_chain(ps, j, i),
    ensures
        0 <= i <= j < ps.len(),
    decreases j,
{
    if j != i {
        match ps[j] {
            Option::None => {},
            Option::Some(p) => {
                lemma_on_chain_le(ps, p as int, i);
            },
        }
    }
}

pub proof fn lemma_link_props(ps: Seq<Option<usize>>, j: int, i: int)
    requires
        on_chain(ps, j, i),
        j != i,
    ensures
        i < link(ps, j, i) <= j,
        0 <= link(ps, j, i) < ps.len(),
        ps[link(ps, j, i)] is Some,
        ps[link(ps, j, i)]->0 == i,
        on_chain(ps, j, link(ps, j, i)),
    decreases j,
{
    let p = ps[j]->0 as int;
    if p == i {
        assert(on_chain(ps, j, j));
    } else {
        lemma_link_props(ps, p, i);
        let c = link(ps, p, i);
        lemma_on_chain_le(ps, p, c);
        assert(on_chain(ps, j, c));
    }
}

/// Membership in the subtree of a child `c` of `i` is exactly: being on the
/// chain of `i`, strictly below it, with `c` as the link.
pub proof fn lemma_chain_via_child(ps: Seq<Option<usize>>, j: int, c: int, i: int)
    requires
        ps_wf(ps),
        0 <= c < ps.len(),
        ps[c] is Some,
        ps[c]->0 == i,
        0 <= i < c,
    ensures
        on_chain(ps, j, c) <==> (on_chain(ps, j, i) && j != i && link(ps, j, i) == c),
    decreases j,
{
    if !(0 <= j < ps.len()) {
    } else if j == c {
        assert(0 <= i < ps.len());
        assert(on_chain(ps, i, i));
        assert(on_chain(ps, c, i));
    } else if j == i {
        if on_chain(ps, j, c) {
            lemma_on_chain_le(ps, j, c);
        }
    } else if j == 0 {
    } else {
        let p = ps[j]->0 as int;
        lemma_chain_via_child(ps, p, c, i);
        if p == i {
            if on_chain(ps, p, c) {
                lemma_on_chain_le(ps, p, c);
            }
        }
    }
}

/// Both the subtree and every partial fold of it sit inside the index range,
/// so they are finite and no larger than the arena.
pub proof fn lemma_folded_bound(ps: Seq<Option<usize>>, i: int, k: int)
    ensures
        folded_set(ps, i, k).finite(),
        folded_set(ps, i, k).len() <= ps.len(),
        subtree_set(ps, i).finite(),
        subtree_set(ps, i).len() <= ps.len(),
{
    let r = set_int_range(0, ps.len() as int);
    lemma_int_range(0, ps.len() as int);
    assert forall|m: int| folded_set(ps, i, k).contains(m) implies r.contains(m) by {
        lemma_on_chain_le(ps, m, i);
    }
    assert forall|m: int| subtree_set(ps, i).contains(m) implies r.contains(m) by {
        lemma_on_chain_le(ps, m, i);
    }
    lemma_len_subset(folded_set(ps, i, k), r);
    lemma_len_subset(subtree_set(ps, i), r);
}

/// Before any index has been folded, the partial subtree is the node alone.
pub proof fn lemma_folded_init(ps: Seq<Option<usize>>, i: int, k: int)
    requires
        0 <= i < ps.len(),
        k >= ps.len(),
    ensures
        folded_set(ps, i, k) =~= Set::empty().insert(i),
        folded_set(ps, i, k).len() == 1,
{
    assert forall|m: int| folded_set(ps, i, k).contains(m) implies m == i by {
        if m != i {
            lemma_link_props(ps, m, i);
            lemma_on_chain_le(ps, m, i);
        }
    }
    assert(on_chain(ps, i, i));
    assert(folded_set(ps, i, k) =~= Set::empty().insert(i));
    assert(Set::empty().insert(i).len() == 1) by {
        assert(!Set::<int>::empty().contains(i));
    }
}

/// Once the pass has gone below `i`'s first possible child, the partial
/// subtree is the whole subtree.
pub proof fn lemma_folded_all(ps: Seq<Option<usize>>, i: int, k: int)
    requires
        k <= i + 1,
    ensures
        folded_set(ps, i, k) =~= subtree_set(ps, i),
{
    assert forall|m: int| subtree_set(ps, i).contains(m) implies folded_set(ps, i, k).contains(
        m,
    ) by {
        if m != i {
            lemma_link_props(ps, m, i);
        }
    }
}

/// Folding an index that is not a child of `i` leaves `i`'s partial subtree
/// unchanged.
pub proof fn lemma_folded_skip(ps: Seq<Option<usize>>, i: int, k: int)
    requires
        !(0 <= k < ps.len() && ps[k] is Some && ps[k]->0 == i),
    ensures
        folded_set(ps, i, k) =~= folded_set(ps, i, k + 1),
{
    assert forall|m: int| folded_set(ps, i, k).contains(m) implies folded_set(
        ps,
        i,
        k + 1,
    ).contains(m) by {
        if m != i && link(ps, m, i) == k {
            lemma_link_props(ps, m, i);
        }
    }
}

/// Folding index `k`, a child of `p`, adds exactly the subtree of `k` to the
/// partial subtree of `p`.
pub proof fn lemma_folded_step(ps: Seq<Option<usize>>, p: int, k: int)
    requires
        ps_wf(ps),
        0 <= k < ps.len(),
        ps[k] is Some,
        ps[k]->0 == p,
    ensures
        folded_set(ps, p, k).len() == folded_set(ps, p, k + 1).len() + subtree_set(ps, k).len(),
{
    let a = folded_set(ps, p, k + 1);
    let b = subtree_set(ps, k);
    assert(0 <= p < k);
    assert forall|m: int| b.contains(m) implies folded_set(ps, p, k).contains(m) && !a.contains(
        m,
    ) by {
        lemma_chain_via_child(ps, m, k, p);
    }
    assert forall|m: int| folded_set(ps, p, k).contains(m) implies (a + b).contains(m) by {
        if m != p && link(ps, m, p) == k {
            lemma_chain_via_child(ps, m, k, p);
        }
    }
    assert(folded_set(ps, p, k) =~= a + b);
    assert(a.disjoint(b)) by {
        assert forall|m: int| b.contains(m) implies !a.contains(m) by {
            lemma_chain_via_child(ps, m, k, p);
        }
    }
    lemma_folded_bound(ps, p, k + 1);
    lemma_folded_bound(ps, k, 0);
    lemma_set_disjoint_lens(a, b);
}

/// Every node's chain reaches the root.
pub proof fn lemma_all_on_root(ps: Seq<Option<usize>>, j: int)
    requires
        ps_wf(ps),
        0 <= j < ps.len(),
    ensures
        on_chain(ps, j, 0),
    decreases j,
{
    if j != 0 {
        lemma_all_on_root(ps, ps[j]->0 as int);
    }
}

/// The root's subtree is the whole arena: its weight is the node count.
pub proof fn lemma_root_weight(ps: Seq<Option<usize>>)
    requires
        ps_wf(ps),
    ensures
        subtree_weight(ps, 0) == ps.len(),
{
    let r = set_int_range(0, ps.len() as int);
    lemma_int_range(0, ps.len() as int);
    assert forall|m: int| r.contains(m) implies subtree_set(ps, 0).contains(m) by {
        lemma_all_on_root(ps, m);
    }
    assert forall|m: int| subtree_set(ps, 0).contains(m) implies r.contains(m) by {
        lemma_on_chain_le(ps, m, 0);
    }
    assert(subtree_set(ps, 0) =~= r);
}

/// For every node except the root, the parent's index is strictly below the
/// node's own. Every operation of the engine preserves well-formedness, so
/// this holds after any sequence of growth cycles.
pub proof fn lemma_parent_index(t: Tree, i: int)
    requires
        t.wf(),
        1 <= i < t.nodes@.len(),
    ensures
        t.nodes@[i].parent is Some,
        t.nodes@[i].parent->0 < i,
{
    assert(parent_seq(t.nodes@)[i] == t.nodes@[i].parent);
}

/// Exactly one node, the first, has no parent.
pub proof fn lemma_single_root(t: Tree, i: int)
    requires
        t.wf(),
        0 <= i < t.nodes@.len(),
        t.nodes@[i].parent is None,
    ensures
        i == 0,
{
    assert(parent_seq(t.nodes@)[i] == t.nodes@[i].parent);
    if i >= 1 {
        assert(parent_seq(t.nodes@)[i] is Some);
    }
}

/// Sum of the weights of the direct children of `i` from index `from` up.
pub open spec fn child_weight_sum(nodes: Seq<Node>, i: int, from: int) -> int
    decreases nodes.len() - from,
{
    if from < 0 || from >= nodes.len() {
        0
    } else {
        (if nodes[from].parent is Some && nodes[from].parent->0 == i {
            nodes[from].weight as int
        } else {
            0
        }) + child_weight_sum(nodes, i, from + 1)
    }
}

/// When every weight equals its subtree size, the partial fold of `i` down
/// to `from > i` counts `i` itself plus the weights of `i`'s children at or
/// above `from`.
proof fn lemma_folded_csum(nodes: Seq<Node>, ps: Seq<Option<usize>>, i: int, from: int)
    requires
        ps == parent_seq(nodes),
        ps_wf(ps),
        forall|m: int|
            0 <= m < nodes.len() ==> (#[trigger] nodes[m].weight) as int == subtree_weight(ps, m),
        0 <= i < nodes.len(),
        i + 1 <= from <= nodes.len(),
    ensures
        folded_set(ps, i, from).len() == 1 + child_weight_sum(nodes, i, from),
    decreases nodes.len() - from,
{
    if from == nodes.len() {
        lemma_folded_init(ps, i, from);
    } else {
        lemma_folded_csum(nodes, ps, i, from + 1);
        if ps[from] is Some && ps[from]->0 == i {
            lemma_folded_step(ps, i, from);
        } else {
            lemma_folded_skip(ps, i, from);
        }
    }
}

/// Children sit strictly above their parent, so the child-weight sum from
/// any index at or below `i + 1` is the full sum.
proof fn lemma_csum_low(nodes: Seq<Node>, i: int, from: int)
    requires
        ps_wf(parent_seq(nodes)),
        0 <= from,
        from <= i + 1,
        i < nodes.len(),
    ensures
        child_weight_sum(nodes, i, from) == child_weight_sum(nodes, i, i + 1),
    decreases i + 1 - from,
{
    if from < i + 1 {
        lemma_csum_low(nodes, i, from + 1);
        assert(!(nodes[from].parent is Some && nodes[from].parent->0 == i)) by {
            if from >= 1 {
                assert(parent_seq(nodes)[from] is Some && parent_seq(nodes)[from]->0 < from);
            }
        }
    }
}

/// After a weight recomputation, every node's weight is one more than the
/// sum of the weights of its direct children — for any arena shape,
/// including with dead nodes present.
pub proof fn lemma_child_weight_sum(nodes: Seq<Node>, i: int)
    requires
        ps_wf(parent_seq(nodes)),
        forall|m: int|
            0 <= m < nodes.len() ==> (#[trigger] nodes[m].weight) as int == subtree_weight(
                parent_seq(nodes),
                m,
            ),
        0 <= i < nodes.len(),
    ensures
        nodes[i].weight as int == 1 + child_weight_sum(nodes, i, 0),
{
    let ps = parent_seq(nodes);
    lemma_folded_csum(nodes, ps, i, i + 1);
    lemma_folded_all(ps, i, i + 1);
    lemma_csum_low(nodes, i, 0);
}

/// Whether an attraction point is near enough to pull on a node.
pub open spec fn point_near(p: Vec2, pos: Vec2, r: int) -> bool {
    dist_sq(p, pos) < r * r
}

/// Sum of the displacement vectors from `pos` to each near point among the
/// first `upto` attraction points.
pub open spec fn attract_sum(points: Seq<Vec2>, pos: Vec2, r: int, upto: int) -> (int, int)
    decreases upto,
{
    if upto <= 0 {
        (0, 0)
    } else {
        let rest = attract_sum(points, pos, r, upto - 1);
        let p = points[upto - 1];
        if point_near(p, pos, r) {
            (rest.0 + p.x - pos.x, rest.1 + p.y - pos.y)
        } else {
            rest
        }
    }
}

/// How many of the first `upto` attraction points are near `pos`.
pub open spec fn near_count(points: Seq<Vec2>, pos: Vec2, r: int, upto: int) -> int
    decreases upto,
{
    if upto <= 0 {
        0
    } else {
        near_count(points, pos, r, upto - 1) + (if point_near(points[upto - 1], pos, r) {
            1int
        } else {
            0int
        })
    }
}

/// The displacement a growing node proposes for its child this cycle, if
/// any: the sum of directions to nearby points, normalized to the growth
/// step length, blended toward the direction from the node's parent. A node
/// with no nearby points — or whose pulls cancel exactly, leaving no
/// direction to normalize — proposes nothing.
pub open spec fn grow_delta(cfg: Config, nodes: Seq<Node>, points: Seq<Vec2>, i: int) -> Option<
    (int, int),
> {
    let node = nodes[i];
    let s = attract_sum(points, node.pos, cfg.attraction_dist as int, points.len() as int);
    if near_count(points, node.pos, cfg.attraction_dist as int, points.len() as int) == 0 || (s.0
        == 0 && s.1 == 0) {
        Option::None
    } else {
        let len = sqrt_floor(s.0 * s.0 + s.1 * s.1);
        let ax = mul_div(s.0, cfg.grow_dist as int, len);
        let ay = mul_div(s.1, cfg.grow_dist as int, len);
        let prev = if node.parent is Some {
            let p = node.parent->0 as int;
            (node.pos.x - nodes[p].pos.x, node.pos.y - nodes[p].pos.y)
        } else {
            (0int, cfg.grow_dist as int)
        };
        let dx = ax + mul_div(prev.0 - ax, cfg.parent_dir_factor_pm as int, PM_ONE as int);
        let dy = ay + mul_div(prev.1 - ay, cfg.parent_dir_factor_pm as int, PM_ONE as int);
        Option::Some((dx, dy))
    }
}

/// Whether node `i` proposes a child this cycle: it is alive, can still take
/// children, and has a growth direction.
pub open spec fn proposes(cfg: Config, nodes: Seq<Node>, points: Seq<Vec2>, i: int) -> bool {
    &&& 0 <= i < nodes.len()
    &&& nodes[i].alive
    &&& nodes[i].child_count < cfg.max_children
    &&& grow_delta(cfg, nodes, points, i) is Some
}

/// The indices below `upto` that propose, in ascending order.
pub open spec fn proposer_list(cfg: Config, nodes: Seq<Node>, points: Seq<Vec2>, upto: int) -> Seq<
    int,
>
    decreases upto,
{
    if upto <= 0 {
        Seq::empty()
    } else {
        let rest = proposer_list(cfg, nodes, points, upto - 1);
        if proposes(cfg, nodes, points, upto - 1) {
            rest.push(upto - 1)
        } else {
            rest
        }
    }
}

pub open spec fn clamp_z(v: int, hi: int) -> int {
    if v < 0 {
        0
    } else if v > hi {
        hi
    } else {
        v
    }
}

/// Candidate coordinates stay within this box, well inside machine range.
pub const CAND_LIMIT: i64 = 0x1_0000_0000;

/// What the candidate proposed by node `i` looks like: position displaced by
/// the growth delta, depth one below the parent, fresh counters, and a
/// depth-axis value one bounded random step from the parent's, clamped.
pub open spec fn candidate_matches(
    cfg: Config,
    nodes: Seq<Node>,
    points: Seq<Vec2>,
    i: int,
    cand: Node,
) -> bool {
    let d = grow_delta(cfg, nodes, points, i)->0;
    &&& cand.alive
    &&& cand.pos.x == nodes[i].pos.x + d.0
    &&& cand.pos.y == nodes[i].pos.y + d.1
    &&& in_box(cand.pos, CAND_LIMIT as int)
    &&& cand.parent is Some
    &&& cand.parent->0 == i
    &&& cand.child_count == 0
    &&& cand.depth == nodes[i].depth + 1
    &&& cand.weight == 1
    &&& exists|jit: int|
        -cfg.node_depth_change <= jit <= cfg.node_depth_change && cand.z == #[trigger] clamp_z(
            nodes[i].z + jit,
            cfg.node_depth_max as int,
        )
}

/// Whether some node is within kill distance of an attraction point.
pub open spec fn point_killed(nodes: Seq<Node>, p: Vec2, kd: int) -> bool {
    exists|m: int| 0 <= m < nodes.len() && dist_sq(p, nodes[m].pos) < kd * kd
}

/// The predicate a point must satisfy to survive consumption.
pub open spec fn keeps(nodes: Seq<Node>, kd: int) -> spec_fn(Vec2) -> bool {
    |p: Vec2| !point_killed(nodes, p, kd)
}

/// Whether a candidate passes the acceptance checks against the arena as it
/// stands at its turn: depth within bounds, enough vertical growth over its
/// parent, inside the position box, and no node — including candidates
/// accepted earlier this cycle — within the minimum spacing.
pub open spec fn accepts(cfg: Config, nodes: Seq<Node>, cand: Node) -> bool {
    let p = cand.parent->0 as int;
    &&& cand.depth <= cfg.max_depth
    &&& cand.pos.y - nodes[p].pos.y >= cfg.min_y_growth as int
    &&& in_box(cand.pos, POS_LIMIT as int)
    &&& forall|m: int|
        0 <= m < nodes.len() ==> dist_sq((#[trigger] nodes[m]).pos, cand.pos) >= (
        cfg.node_min_dist as int) * (cfg.node_min_dist as int)
}

/// A parent taking one more child.
pub open spec fn bump_child(n: Node) -> Node {
    Node { child_count: (n.child_count + 1) as usize, ..n }
}

/// The arena after one candidate had its turn: unchanged if it is rejected;
/// its parent's child count bumped and the candidate appended if accepted.
pub open spec fn accept_one(cfg: Config, nodes: Seq<Node>, cand: Node) -> Seq<Node> {
    if accepts(cfg, nodes, cand) {
        let p = cand.parent->0 as int;
        nodes.update(p, bump_child(nodes[p])).push(cand)
    } else {
        nodes
    }
}

/// The arena after all candidates had their turns, strictly in order: later
/// candidates are checked against earlier accepted ones.
pub open spec fn accept_fold(cfg: Config, nodes: Seq<Node>, cands: Seq<Node>) -> Seq<Node>
    decreases cands.len(),
{
    if cands.len() == 0 {
        nodes
    } else {
        accept_one(cfg, accept_fold(cfg, nodes, cands.drop_last()), cands.last())
    }
}

/// What the acceptance pass may assume of one candidate, relative to the
/// pre-cycle arena.
pub open spec fn cand_ok(cfg: Config, nodes: Seq<Node>, c: Node) -> bool {
    &&& c.alive
    &&& c.parent is Some
    &&& (c.parent->0 as int) < nodes.len()
    &&& c.child_count == 0
    &&& c.weight == 1
    &&& c.depth == nodes[c.parent->0 as int].depth + 1
    &&& 0 <= c.z <= cfg.node_depth_max
    &&& in_box(c.pos, CAND_LIMIT as int)
    &&& nodes[c.parent->0 as int].child_count < cfg.max_children
}

/// Each candidate is sound, and their parents are strictly ascending: one
/// node proposes at most one child per cycle.
pub open spec fn cands_ok(cfg: Config, nodes: Seq<Node>, cands: Seq<Node>) -> bool {
    &&& forall|k: int| 0 <= k < cands.len() ==> cand_ok(cfg, nodes, #[trigger] cands[k])
    &&& forall|k1: int, k2: int|
        0 <= k1 < k2 < cands.len() ==> (#[trigger] cands[k1]).parent->0 < (
        #[trigger] cands[k2]).parent->0
}

/// The arena after a pruning pass: aliveness intersected with survival,
/// everything else untouched.
pub open spec fn apply_prune(cfg: Config, nodes: Seq<Node>) -> Seq<Node> {
    Seq::new(
        nodes.len(),
        |i: int| Node { alive: nodes[i].alive && !doomed(cfg, nodes, i), ..nodes[i] },
    )
}

/// The arena after a weight recomputation: every weight replaced by the
/// node's subtree size, everything else untouched.
pub open spec fn apply_weights(nodes: Seq<Node>) -> Seq<Node> {
    Seq::new(
        nodes.len(),
        |i: int| Node { weight: subtree_weight(parent_seq(nodes), i) as usize, ..nodes[i] },
    )
}

/// The proposer indices are in range, eligible, and strictly ascending.
pub proof fn lemma_plist_props(cfg: Config, nodes: Seq<Node>, points: Seq<Vec2>, upto: int)
    ensures
        forall|k: int|
            0 <= k < proposer_list(cfg, nodes, points, upto).len() ==> 0 <= #[trigger] proposer_list(
                cfg,
                nodes,
                points,
                upto,
            )[k] < upto,
        forall|k: int|
            0 <= k < proposer_list(cfg, nodes, points, upto).len() ==> proposes(
                cfg,
                nodes,
                points,
                #[trigger] proposer_list(cfg, nodes, points, upto)[k],
            ),
        forall|k1: int, k2: int|
            0 <= k1 < k2 < proposer_list(cfg, nodes, points, upto).len()
                ==> #[trigger] proposer_list(cfg, nodes, points, upto)[k1]
                < #[trigger] proposer_list(cfg, nodes, points, upto)[k2],
    decreases upto,
{
    if upto > 0 {
        lemma_plist_props(cfg, nodes, points, upto - 1);
        let rest = proposer_list(cfg, nodes, points, upto - 1);
        if proposes(cfg, nodes, points, upto - 1) {
            assert(proposer_list(cfg, nodes, points, upto) == rest.push(upto - 1));
            assert(forall|k: int| 0 <= k < rest.len() ==> rest.push(upto - 1)[k] == rest[k]);
            assert(rest.push(upto - 1)[rest.len() as int] == upto - 1);
        }
    }
}

/// With no attraction points left, no node proposes.
pub proof fn lemma_no_points(cfg: Config, nodes: Seq<Node>, points: Seq<Vec2>, upto: int)
    requires
        points.len() == 0,
    ensures
        proposer_list(cfg, nodes, points, upto).len() == 0,
    decreases upto,
{
    if upto > 0 {
        lemma_no_points(cfg, nodes, points, upto - 1);
        assert(near_count(points, nodes[upto - 1].pos, cfg.attraction_dist as int, 0) == 0);
        assert(!proposes(cfg, nodes, points, upto - 1));
    }
}

/// Fields of a node the acceptance pass leaves alone on existing nodes.
pub open spec fn eq_except_children(a: Node, b: Node) -> bool {
    &&& a.alive == b.alive
    &&& a.pos == b.pos
    &&& a.parent == b.parent
    &&& a.depth == b.depth
    &&& a.weight == b.weight
    &&& a.z == b.z
}

/// The acceptance fold only appends: existing nodes keep every field but
/// their child count, and the arena never shrinks.
pub proof fn lemma_fold_frame(cfg: Config, nodes: Seq<Node>, cands: Seq<Node>)
    requires
        forall|k: int|
            0 <= k < cands.len() ==> (#[trigger] cands[k]).parent is Some && (
            cands[k].parent->0 as int) < nodes.len(),
    ensures
        accept_fold(cfg, nodes, cands).len() >= nodes.len(),
        forall|m: int|
            0 <= m < nodes.len() ==> eq_except_children(
                nodes[m],
                #[trigger] accept_fold(cfg, nodes, cands)[m],
            ),
    decreases cands.len(),
{
    if cands.len() > 0 {
        lemma_fold_frame(cfg, nodes, cands.drop_last());
        assert(forall|k: int|
            0 <= k < cands.drop_last().len() ==> cands.drop_last()[k] == #[trigger] cands[k]);
        let prev = accept_fold(cfg, nodes, cands.drop_last());
        let cand = cands.last();
        assert(cand == cands[cands.len() - 1]);
        if accepts(cfg, prev, cand) {
            let p = cand.parent->0 as int;
            let cur = accept_fold(cfg, nodes, cands);
            assert(cur == prev.update(p, bump_child(prev[p])).push(cand));
            assert(forall|m: int| 0 <= m < prev.len() && m != p ==> cur[m] == prev[m]);
            assert(cur[p] == bump_child(prev[p]));
        }
    }
}

/// Every node the acceptance fold appends keeps the minimum spacing from
/// every node below it — pre-existing or accepted earlier the same cycle.
pub proof fn lemma_fold_spacing(cfg: Config, nodes: Seq<Node>, cands: Seq<Node>)
    requires
        forall|k: int|
            0 <= k < cands.len() ==> (#[trigger] cands[k]).parent is Some && (
            cands[k].parent->0 as int) < nodes.len(),
    ensures
        forall|a: int, b: int|
            nodes.len() <= b < accept_fold(cfg, nodes, cands).len() && 0 <= a < b ==> dist_sq(
                #[trigger] accept_fold(cfg, nodes, cands)[a].pos,
                #[trigger] accept_fold(cfg, nodes, cands)[b].pos,
            ) >= (cfg.node_min_dist as int) * (cfg.node_min_dist as int),
    decreases cands.len(),
{
    if cands.len() > 0 {
        lemma_fold_spacing(cfg, nodes, cands.drop_last());
        lemma_fold_frame(cfg, nodes, cands.drop_last());
        assert(forall|k: int|
            0 <= k < cands.drop_last().len() ==> cands.drop_last()[k] == #[trigger] cands[k]);
        let prev = accept_fold(cfg, nodes, cands.drop_last());
        let cand = cands.last();
        if accepts(cfg, prev, cand) {
            let p = cand.parent->0 as int;
            let cur = accept_fold(cfg, nodes, cands);
            assert(cur == prev.update(p, bump_child(prev[p])).push(cand));
            assert(forall|m: int| 0 <= m < prev.len() ==> (#[trigger] cur[m]).pos == prev[m].pos);
            assert(cur[prev.len() as int] == cand);
        }
    }
}

/// Whether a squared distance `dsq` lies within the pruning reach of a node
/// of weight `w`: the true distance is below `w^(q/4)`, which squares of
/// integers decide exactly through fourth powers.
pub open spec fn within_reach(dsq: int, w: int, q: nat) -> bool {
    dsq * dsq < pow(w, q)
}

/// Node `i` is directly dominated by node `c`: much smaller (its weight is
/// under the configured ratio of `c`'s) and within `c`'s pruning reach.
pub open spec fn prune_pair(cfg: Config, nodes: Seq<Node>, i: int, c: int) -> bool {
    &&& (nodes[i].weight as int) * (PM_ONE as int) < (cfg.prune_size_ratio_pm as int) * (
    nodes[c].weight as int)
    &&& within_reach(
        dist_sq(nodes[i].pos, nodes[c].pos),
        nodes[c].weight as int,
        cfg.prune_pow_q as nat,
    )
}

pub open spec fn doomed_direct(cfg: Config, nodes: Seq<Node>, i: int) -> bool {
    exists|c: int| 0 <= c < nodes.len() && prune_pair(cfg, nodes, i, c)
}

/// Node `i` dies this pruning pass: it is directly dominated, or some
/// ancestor of it is.
pub open spec fn doomed(cfg: Config, nodes: Seq<Node>, i: int) -> bool
    decreases i,
{
    if !(0 <= i < nodes.len()) {
        false
    } else if doomed_direct(cfg, nodes, i) {
        true
    } else {
        match nodes[i].parent {
            Option::None => false,
            Option::Some(p) => p < i && doomed(cfg, nodes, p as int),
        }
    }
}

/// Decide `within_reach(dsq, w, q)` exactly: raise `w` to the `q` with a
/// saturation flag; a saturated power exceeds `u128::MAX` and therefore any
/// representable squared distance.
fn reach_check(dsq: u64, w: u64, q: u32) -> (r: bool)
    requires
        1 <= w,
        dsq <= 0x2000_0000_0000_0000,
    ensures
        r == within_reach(dsq as int, w as int, q as nat),
{
    let mut acc: u128 = 1;
    let mut sat: bool = false;
    let mut e: u32 = 0;
    proof {
        vstd::arithmetic::power::lemma_pow0(w as int);
    }
    while e < q
        invariant
            e <= q,
            1 <= w,
            !sat ==> acc as int == pow(w as int, e as nat),
            sat ==> pow(w as int, e as nat) > u128::MAX,
        decreases q - e,
    {
        proof {
            vstd::arithmetic::power::lemma_pow_positive(w as int, e as nat);
            vstd::arithmetic::power::lemma_pow_adds(w as int, e as nat, 1nat);
            vstd::arithmetic::power::lemma_pow1(w as int);
            assert(pow(w as int, (e + 1) as nat) == pow(w as int, e as nat) * (w as int));
            if sat {
                assert(pow(w as int, e as nat) * (w as int) >= pow(w as int, e as nat))
                    by (nonlinear_arith)
                    requires
                        1 <= w as int,
                        0 < pow(w as int, e as nat),
                ;
            }
        }
        if !sat {
            match acc.checked_mul(w as u128) {
                Option::Some(v) => {
                    acc = v;
                },
                Option::None => {
                    sat = true;
                },
            }
        }
        e = e + 1;
    }
    if sat {
        proof {
            assert((dsq as int) * (dsq as int) <= 0x2000_0000_0000_0000int
                * 0x2000_0000_0000_0000int) by (nonlinear_arith)
                requires
                    0 <= dsq as int <= 0x2000_0000_0000_0000int,
            ;
        }
        true
    } else {
        proof {
            assert((dsq as int) * (dsq as int) <= 0x2000_0000_0000_0000int
                * 0x2000_0000_0000_0000int) by (nonlinear_arith)
                requires
                    0 <= dsq as int <= 0x2000_0000_0000_0000int,
            ;
        }
        (dsq as u128) * (dsq as u128) < acc
    }
}

/// Fields of a node the pruning pass leaves alone.
pub open spec fn eq_except_alive(a: Node, b: Node) -> bool {
    &&& a.pos == b.pos
    &&& a.parent == b.parent
    &&& a.child_count == b.child_count
    &&& a.depth == b.depth
    &&& a.weight == b.weight
    &&& a.z == b.z
}

/// Fields of a node the weight recomputation leaves alone.
pub open spec fn eq_except_weight(a: Node, b: Node) -> bool {
    &&& a.alive == b.alive
    &&& a.pos == b.pos
    &&& a.parent == b.parent
    &&& a.child_count == b.child_count
    &&& a.depth == b.depth
    &&& a.z == b.z
}

impl Tree {
    /// The whole-structure invariant: valid configuration, valid tree shape,
    /// every node inside machine bounds, and the attraction points inside
    /// the position box.
    pub open spec fn wf(self) -> bool {
        &&& self.config.wf()
        &&& arena_wf(self.config, self.nodes@)
        &&& self.points@.len() <= MAX_POINTS
        &&& forall|i: int|
            0 <= i < self.points@.len() ==> in_box(#[trigger] self.points@[i], POS_LIMIT as int)
    }

    /// Collect this cycle's growth proposals, one per eligible node, all
    /// computed from the same pre-cycle snapshot of the arena and the
    /// attraction points.
    pub fn propose(&self) -> (cands: Vec<Node>)
        requires
            self.wf(),
        ensures
            cands@.len() == proposer_list(
                self.config,
                self.nodes@,
                self.points@,
                self.nodes@.len() as int,
            ).len(),
            forall|k: int|
                0 <= k < cands@.len() ==> candidate_matches(
                    self.config,
                    self.nodes@,
                    self.points@,
                    proposer_list(
                        self.config,
                        self.nodes@,
                        self.points@,
                        self.nodes@.len() as int,
                    )[k],
                    #[trigger] cands@[k],
                ),
    {
        let n: usize = self.nodes.len();
        let mut cands: Vec<Node> = Vec::new();
        let mut i: usize = 0;
        while i < n
            invariant
                self.wf(),
                n == self.nodes@.len(),
                i <= n,
                cands@.len() == proposer_list(
                    self.config,
                    self.nodes@,
                    self.points@,
                    i as int,
                ).len(),
                forall|k: int|
                    0 <= k < cands@.len() ==> candidate_matches(
                        self.config,
                        self.nodes@,
                        self.points@,
                        proposer_list(self.config, self.nodes@, self.points@, i as int)[k],
                        #[trigger] cands@[k],
                    ),
            decreases n - i,
        {
            let ghost plist_pre = proposer_list(self.config, self.nodes@, self.points@, i as int);
            let node: Node = self.nodes[i];
            if node.alive && node.child_count < self.config.max_children {
                let rad: u64 = self.config.attraction_dist;
                let m: usize = self.points.len();
                let mut sx: i64 = 0;
                let mut sy: i64 = 0;
                let mut cnt: usize = 0;
                let mut t: usize = 0;
                while t < m
                    invariant
                        self.wf(),
                        0 <= i < self.nodes@.len(),
                        node == self.nodes@[i as int],
                        rad == self.config.attraction_dist,
                        m == self.points@.len(),
                        t <= m,
                        (sx as int, sy as int) == attract_sum(
                            self.points@,
                            node.pos,
                            rad as int,
                            t as int,
                        ),
                        cnt as int == near_count(self.points@, node.pos, rad as int, t as int),
                        cnt <= t,
                        -(t as int) * (DIST_LIMIT as int) <= sx as int <= (t as int) * (
                        DIST_LIMIT as int),
                        -(t as int) * (DIST_LIMIT as int) <= sy as int <= (t as int) * (
                        DIST_LIMIT as int),
                    decreases m - t,
                {
                    let p: Vec2 = self.points[t];
                    let dsq: u64 = dist_sq_u64(p, node.pos);
                    proof {
                        crate::geom::lemma_square_bound(rad as int, DIST_LIMIT as int);
                    }
                    if dsq < rad * rad {
                        proof {
                            crate::geom::lemma_component_bound(p, node.pos, rad as int);
                        }
                        sx = sx + (p.x - node.pos.x);
                        sy = sy + (p.y - node.pos.y);
                        cnt = cnt + 1;
                    }
                    t = t + 1;
                }
                if cnt > 0 && !(sx == 0 && sy == 0) {
                    proof {
                        crate::geom::lemma_square_bound(
                            sx as int,
                            0x4_0000_0000_0000int,
                        );
                        crate::geom::lemma_square_bound(
                            sy as int,
                            0x4_0000_0000_0000int,
                        );
                        if sx != 0 {
                            assert(1 <= (sx as int) * (sx as int)) by (nonlinear_arith)
                                requires
                                    sx as int != 0,
                            ;
                        }
                        if sy != 0 {
                            assert(1 <= (sy as int) * (sy as int)) by (nonlinear_arith)
                                requires
                                    sy as int != 0,
                            ;
                        }
                    }
                    let ssq: u128 = ((sx as i128) * (sx as i128) + (sy as i128) * (sy as i128))
                        as u128;
                    let ln: u64 = isqrt(ssq);
                    proof {
                        assert(1 <= ln) by {
                            assert(1 <= ssq);
                            assert(is_sqrt_floor(ssq as int, ln as int));
                            assert((0int + 1) * (0int + 1) == 1);
                        }
                        assert(abs_i(sx as int) <= ln as int && abs_i(sy as int) <= ln as int)
                            by (nonlinear_arith)
                            requires
                                is_sqrt_floor(
                                    (sx as int) * (sx as int) + (sy as int) * (sy as int),
                                    ln as int,
                                ),
                        ;
                        crate::geom::lemma_mul_div_le(
                            sx as int,
                            self.config.grow_dist as int,
                            ln as int,
                        );
                        crate::geom::lemma_mul_div_le(
                            sy as int,
                            self.config.grow_dist as int,
                            ln as int,
                        );
                    }
                    let ax: i64 = scale_div(sx, self.config.grow_dist, ln);
                    let ay: i64 = scale_div(sy, self.config.grow_dist, ln);
                    let (px, py): (i64, i64) = match node.parent {
                        Option::Some(p) => {
                            proof {
                                assert(parent_seq(self.nodes@)[i as int] == node.parent);
                                if i as int == 0 {
                                    assert(parent_seq(self.nodes@)[0] is None);
                                }
                                assert(parent_seq(self.nodes@)[i as int]->0 < i as int);
                                assert(node_wf(self.config, self.nodes@[p as int]));
                            }
                            let pp: Node = self.nodes[p];
                            (node.pos.x - pp.pos.x, node.pos.y - pp.pos.y)
                        },
                        Option::None => (0, self.config.grow_dist as i64),
                    };
                    let dxs: i64 = px - ax;
                    let dys: i64 = py - ay;
                    proof {
                        crate::geom::lemma_mul_div_damps(
                            dxs as int,
                            self.config.parent_dir_factor_pm as int,
                            PM_ONE as int,
                        );
                        crate::geom::lemma_mul_div_damps(
                            dys as int,
                            self.config.parent_dir_factor_pm as int,
                            PM_ONE as int,
                        );
                    }
                    let bx: i64 = scale_div(dxs, self.config.parent_dir_factor_pm as u64, PM_ONE);
                    let by: i64 = scale_div(dys, self.config.parent_dir_factor_pm as u64, PM_ONE);
                    let dx: i64 = ax + bx;
                    let dy: i64 = ay + by;
                    let c: i64 = self.config.node_depth_change;
                    let jit: i64 = random_between(-c, c);
                    let z0: i64 = node.z + jit;
                    let zc: i64 = if z0 < 0 {
                        0
                    } else if z0 > self.config.node_depth_max {
                        self.config.node_depth_max
                    } else {
                        z0
                    };
                    let cand: Node = Node {
                        alive: true,
                        pos: Vec2 { x: node.pos.x + dx, y: node.pos.y + dy },
                        parent: Option::Some(i),
                        child_count: 0,
                        depth: node.depth + 1,
                        weight: 1,
                        z: zc,
                    };
                    proof {
                        crate::geom::lemma_sqrt_floor_unique(ssq as int, ln as int);
                        assert(grow_delta(self.config, self.nodes@, self.points@, i as int)
                            == Option::Some((dx as int, dy as int)));
                        assert(proposes(self.config, self.nodes@, self.points@, i as int));
                        assert(-self.config.node_depth_change as int <= jit as int
                            <= self.config.node_depth_change as int && cand.z == clamp_z(
                            self.nodes@[i as int].z + jit as int,
                            self.config.node_depth_max as int,
                        ));
                        assert(candidate_matches(
                            self.config,
                            self.nodes@,
                            self.points@,
                            i as int,
                            cand,
                        ));
                        assert(proposer_list(self.config, self.nodes@, self.points@, i as int + 1)
                            == plist_pre.push(i as int));
                    }
                    cands.push(cand);
                } else {
                    proof {
                        assert(!proposes(self.config, self.nodes@, self.points@, i as int));
                    }
                }
            } else {
                proof {
                    assert(!proposes(self.config, self.nodes@, self.points@, i as int));
                }
            }
            i = i + 1;
        }
        cands
    }

    /// Remove every attraction point that lies within kill distance of any
    /// node, keeping the rest in order.
    pub fn consume_points(&mut self)
        requires
            old(self).wf(),
        ensures
            final(self).wf(),
            final(self).config == old(self).config,
            final(self).nodes == old(self).nodes,
            final(self).growing == old(self).growing,
            final(self).points@ == old(self).points@.filter(
                keeps(old(self).nodes@, old(self).config.kill_dist as int),
            ),
    {
        let ghost pred = keeps(old(self).nodes@, old(self).config.kill_dist as int);
        let kd: u64 = self.config.kill_dist;
        proof {
            crate::geom::lemma_square_bound(kd as int, DIST_LIMIT as int);
        }
        let kk: u64 = kd * kd;
        let n: usize = self.nodes.len();
        let m: usize = self.points.len();
        let mut kept: Vec<Vec2> = Vec::new();
        let mut t: usize = 0;
        proof {
            assert(self.points@.take(0) =~= Seq::<Vec2>::empty());
            assert(Seq::<Vec2>::empty().filter(pred) =~= Seq::<Vec2>::empty()) by {
                reveal_with_fuel(Seq::<Vec2>::filter, 1);
            }
        }
        while t < m
            invariant
                self == old(self),
                self.wf(),
                kd == self.config.kill_dist,
                kk as int == (kd as int) * (kd as int),
                n == self.nodes@.len(),
                m == self.points@.len(),
                t <= m,
                pred == keeps(old(self).nodes@, old(self).config.kill_dist as int),
                kept@ == self.points@.take(t as int).filter(pred),
                kept@.len() <= t as int,
                forall|j: int| 0 <= j < kept@.len() ==> in_box(#[trigger] kept@[j], POS_LIMIT as int),
            decreases m - t,
        {
            let p: Vec2 = self.points[t];
            let mut hit: bool = false;
            let mut c: usize = 0;
            while c < n
                invariant
                    self == old(self),
                    self.wf(),
                    kd == self.config.kill_dist,
                    kk as int == (kd as int) * (kd as int),
                    n == self.nodes@.len(),
                    0 <= t < self.points@.len(),
                    p == self.points@[t as int],
                    c <= n,
                    hit == exists|m2: int|
                        0 <= m2 < c as int && dist_sq(p, self.nodes@[m2].pos) < (kd as int) * (
                        kd as int),
                decreases n - c,
            {
                let nd: Node = self.nodes[c];
                let dsq: u64 = dist_sq_u64(p, nd.pos);
                if dsq < kk {
                    hit = true;
                }
                c = c + 1;
            }
            proof {
                assert(hit == point_killed(old(self).nodes@, p, kd as int));
                let taken = self.points@.take(t as int);
                assert(self.points@.take(t as int + 1) =~= taken + seq![p]);
                Seq::<Vec2>::filter_distributes_over_add(taken, seq![p], pred);
                assert(seq![p].filter(pred) == if pred(p) {
                    seq![p]
                } else {
                    Seq::<Vec2>::empty()
                }) by {
                    reveal_with_fuel(Seq::<Vec2>::filter, 2);
                    assert(seq![p].drop_last() =~= Seq::<Vec2>::empty());
                    assert(seq![p].last() == p);
                }
            }
            if !hit {
                kept.push(p);
                proof {
                    assert(kept@ =~= self.points@.take(t as int + 1).filter(pred));
                }
            } else {
                proof {
                    assert(kept@ =~= self.points@.take(t as int + 1).filter(pred));
                }
            }
            t = t + 1;
        }
        proof {
            assert(self.points@.take(m as int) =~= self.points@);
            self.points@.lemma_filter_len(pred);
        }
        self.points = kept;
    }

    /// Give each candidate its turn, strictly in proposal order: accepted
    /// candidates join the arena at once, so a later candidate is checked
    /// for spacing against earlier accepted ones too. This ordering is part
    /// of the contract: it keeps output reproducible.
    pub fn accept(&mut self, cands: &Vec<Node>)
        requires
            old(self).wf(),
            cands_ok(old(self).config, old(self).nodes@, cands@),
        ensures
            final(self).wf(),
            final(self).config == old(self).config,
            final(self).points == old(self).points,
            final(self).growing == old(self).growing,
            final(self).nodes@ == accept_fold(old(self).config, old(self).nodes@, cands@),
    {
        let n0: usize = self.nodes.len();
        let ncand: usize = cands.len();
        let md: u64 = self.config.node_min_dist;
        proof {
            crate::geom::lemma_square_bound(md as int, DIST_LIMIT as int);
        }
        let mm: u64 = md * md;
        let mut k: usize = 0;
        proof {
            assert(cands@.take(0) =~= Seq::<Node>::empty());
        }
        while k < ncand
            invariant
                self.config == old(self).config,
                self.points == old(self).points,
                self.growing == old(self).growing,
                old(self).wf(),
                cands_ok(self.config, old(self).nodes@, cands@),
                md == self.config.node_min_dist,
                mm as int == (md as int) * (md as int),
                n0 == old(self).nodes@.len(),
                ncand == cands@.len(),
                k <= ncand,
                self.nodes@ == accept_fold(self.config, old(self).nodes@, cands@.take(k as int)),
                arena_wf(self.config, self.nodes@),
                n0 <= self.nodes@.len(),
                forall|k2: int|
                    k as int <= k2 < ncand ==> self.nodes@[(#[trigger] cands@[k2]).parent->0 as int]
                        == old(self).nodes@[cands@[k2].parent->0 as int],
            decreases ncand - k,
        {
            let ghost prev = self.nodes@;
            let cand: Node = cands[k];
            let p: usize = match cand.parent {
                Option::Some(p) => p,
                Option::None => 0,
            };
            proof {
                assert(cand_ok(self.config, old(self).nodes@, cand));
                assert(p as int == cand.parent->0 as int);
                assert(p < n0);
            }
            let pp: Node = self.nodes[p];
            let mut ok: bool = cand.depth <= self.config.max_depth && cand.pos.y - pp.pos.y
                >= self.config.min_y_growth && cand.pos.x >= -POS_LIMIT && cand.pos.x <= POS_LIMIT
                && cand.pos.y >= -POS_LIMIT && cand.pos.y <= POS_LIMIT;
            if ok {
                let len_now: usize = self.nodes.len();
                let mut m: usize = 0;
                while m < len_now
                    invariant
                        arena_wf(self.config, self.nodes@),
                        len_now == self.nodes@.len(),
                        m <= len_now,
                        mm as int == (self.config.node_min_dist as int) * (
                        self.config.node_min_dist as int),
                        in_box(cand.pos, POS_LIMIT as int),
                        ok == forall|m2: int|
                            0 <= m2 < m as int ==> dist_sq(
                                (#[trigger] self.nodes@[m2]).pos,
                                cand.pos,
                            ) >= (self.config.node_min_dist as int) * (
                            self.config.node_min_dist as int),
                    decreases len_now - m,
                {
                    let nd: Node = self.nodes[m];
                    let dsq: u64 = dist_sq_u64(nd.pos, cand.pos);
                    if dsq < mm {
                        ok = false;
                    }
                    m = m + 1;
                }
            }
            proof {
                assert(ok == accepts(self.config, self.nodes@, cand));
            }
            if ok {
                let mut pn: Node = self.nodes[p];
                proof {
                    assert(self.nodes@[p as int] == old(self).nodes@[p as int]);
                    assert(pn.child_count < self.config.max_children);
                }
                pn.child_count = pn.child_count + 1;
                self.nodes[p] = pn;
                self.nodes.push(cand);
                proof {
                    assert(self.nodes@ == prev.update(p as int, bump_child(prev[p as int])).push(
                        cand,
                    ));
                    assert(parent_seq(self.nodes@) =~= parent_seq(prev).push(cand.parent));
                    assert(ps_wf(parent_seq(self.nodes@))) by {
                        assert(forall|j: int|
                            0 <= j < prev.len() ==> parent_seq(self.nodes@)[j] == parent_seq(
                                prev,
                            )[j]);
                        assert(parent_seq(self.nodes@)[prev.len() as int] == cand.parent);
                    }
                    assert forall|j: int| 0 <= j < self.nodes@.len() implies node_wf(
                        self.config,
                        #[trigger] self.nodes@[j],
                    ) by {
                        if j < prev.len() {
                            assert(node_wf(self.config, prev[j]));
                        } else {
                            assert(self.nodes@[j] == cand);
                        }
                    }
                }
            }
            proof {
                assert(cands@.take(k as int + 1).drop_last() =~= cands@.take(k as int));
                assert(cands@.take(k as int + 1).last() == cands@[k as int]);
                assert(self.nodes@ == accept_fold(
                    self.config,
                    old(self).nodes@,
                    cands@.take(k as int + 1),
                ));
                assert forall|k2: int| k as int + 1 <= k2 < ncand implies self.nodes@[(
                #[trigger] cands@[k2]).parent->0 as int] == old(self).nodes@[cands@[k2].parent->0
                    as int] by {
                    assert(cands@[k as int].parent->0 < cands@[k2].parent->0);
                }
            }
            k = k + 1;
        }
        proof {
            assert(cands@.take(ncand as int) =~= cands@);
        }
    }

    /// Retire structurally dominated branches: every node that is much
    /// smaller than a nearby large node dies, and with it its whole chain of
    /// descendants. Both passes read a snapshot of positions, weights and
    /// parents (which this pass never changes), so marking order cannot
    /// influence the outcome; a dead node never comes back to life.
    pub fn prune(&mut self)
        requires
            old(self).wf(),
        ensures
            final(self).wf(),
            final(self).config == old(self).config,
            final(self).points == old(self).points,
            final(self).growing == old(self).growing,
            final(self).nodes@.len() == old(self).nodes@.len(),
            forall|i: int|
                0 <= i < old(self).nodes@.len() ==> eq_except_alive(
                    old(self).nodes@[i],
                    #[trigger] final(self).nodes@[i],
                ),
            forall|i: int|
                0 <= i < old(self).nodes@.len() ==> (#[trigger] final(self).nodes@[i].alive) == (
                old(self).nodes@[i].alive && !doomed(old(self).config, old(self).nodes@, i)),
    {
        let ghost snap = self.nodes@;
        let n: usize = self.nodes.len();
        let mut marks: Vec<bool> = Vec::new();
        let mut i: usize = 0;
        while i < n
            invariant
                self == old(self),
                self.wf(),
                snap == self.nodes@,
                n == snap.len(),
                i <= n,
                marks@.len() == i as int,
                forall|m: int|
                    0 <= m < i as int ==> (#[trigger] marks@[m]) == doomed(self.config, snap, m),
            decreases n - i,
        {
            let node: Node = self.nodes[i];
            let mut direct: bool = false;
            let mut c: usize = 0;
            while c < n
                invariant
                    self == old(self),
                    self.wf(),
                    snap == self.nodes@,
                    n == snap.len(),
                    0 <= i < n,
                    node == snap[i as int],
                    c <= n,
                    direct == exists|c2: int|
                        0 <= c2 < c as int && prune_pair(self.config, snap, i as int, c2),
                decreases n - c,
            {
                let conf: Node = self.nodes[c];
                let dsq: u64 = dist_sq_u64(node.pos, conf.pos);
                proof {
                    crate::geom::lemma_square_bound(
                        node.pos.x - conf.pos.x,
                        2 * POS_LIMIT as int,
                    );
                    crate::geom::lemma_square_bound(
                        node.pos.y - conf.pos.y,
                        2 * POS_LIMIT as int,
                    );
                    assert((node.weight as int) * (PM_ONE as int) < 0x1_0000_0000_0000_0000_0000int)
                        by (nonlinear_arith)
                        requires
                            node.weight as int <= usize::MAX as int,
                            usize::MAX as int <= 0xffff_ffff_ffff_ffffint,
                    ;
                    assert((self.config.prune_size_ratio_pm as int) * (conf.weight as int)
                        < 0x1_0000_0000_0000_0000_0000_0000int) by (nonlinear_arith)
                        requires
                            conf.weight as int <= 0xffff_ffff_ffff_ffffint,
                            self.config.prune_size_ratio_pm as int <= 0xffff_ffffint,
                    ;
                }
                let small: bool = (node.weight as u128) * (PM_ONE as u128) < (
                self.config.prune_size_ratio_pm as u128) * (conf.weight as u128);
                if small && reach_check(dsq, conf.weight as u64, self.config.prune_pow_q) {
                    direct = true;
                    proof {
                        assert(prune_pair(self.config, snap, i as int, c as int));
                    }
                }
                c = c + 1;
            }
            let d: bool = direct || (match node.parent {
                Option::Some(p) => marks[p],
                Option::None => false,
            });
            proof {
                assert(direct == doomed_direct(self.config, snap, i as int));
                if i as int >= 1 {
                    assert(parent_seq(snap)[i as int] is Some && parent_seq(snap)[i as int]->0
                        < i as int);
                }
                assert(d == doomed(self.config, snap, i as int));
            }
            marks.push(d);
            i = i + 1;
        }
        let mut j: usize = 0;
        while j < n
            invariant
                self.config == old(self).config,
                self.points == old(self).points,
                self.growing == old(self).growing,
                snap == old(self).nodes@,
                old(self).wf(),
                n == snap.len(),
                self.nodes@.len() == n,
                j <= n,
                marks@.len() == n,
                forall|m: int|
                    0 <= m < n ==> (#[trigger] marks@[m]) == doomed(old(self).config, snap, m),
                forall|m: int|
                    j as int <= m < n ==> (#[trigger] self.nodes@[m]) == snap[m],
                forall|m: int|
                    0 <= m < j as int ==> eq_except_alive(snap[m], #[trigger] self.nodes@[m]),
                forall|m: int|
                    0 <= m < j as int ==> (#[trigger] self.nodes@[m].alive) == (snap[m].alive
                        && !doomed(old(self).config, snap, m)),
            decreases n - j,
        {
            let mut nd: Node = self.nodes[j];
            nd.alive = nd.alive && !marks[j];
            self.nodes[j] = nd;
            j = j + 1;
        }
        proof {
            assert(parent_seq(self.nodes@) =~= parent_seq(old(self).nodes@));
            assert forall|m: int| 0 <= m < n implies node_wf(self.config, #[trigger] self.nodes@[m])
                by {
                assert(eq_except_alive(snap[m], self.nodes@[m]));
                assert(node_wf(self.config, snap[m]));
            }
        }
    }

    /// Recompute every node's weight as the size of its subtree, counting
    /// dead descendants: reset all weights to one, then fold each node into
    /// its parent in strictly descending index order.
    pub fn recalculate_weight(&mut self)
        requires
            old(self).wf(),
        ensures
            final(self).wf(),
            final(self).config == old(self).config,
            final(self).points == old(self).points,
            final(self).growing == old(self).growing,
            final(self).nodes@.len() == old(self).nodes@.len(),
            forall|i: int|
                0 <= i < old(self).nodes@.len() ==> eq_except_weight(
                    old(self).nodes@[i],
                    #[trigger] final(self).nodes@[i],
                ),
            forall|i: int|
                0 <= i < final(self).nodes@.len() ==> (#[trigger] final(self).nodes@[i].weight)
                    as int == subtree_weight(parent_seq(final(self).nodes@), i),
            final(self).nodes@[0].weight == final(self).nodes@.len(),
    {
        let ghost orig = self.nodes@;
        let ghost ps = parent_seq(self.nodes@);
        let n: usize = self.nodes.len();
        let mut i: usize = 0;
        while i < n
            invariant
                n == self.nodes@.len(),
                i <= n,
                self.config == old(self).config,
                self.points == old(self).points,
                self.growing == old(self).growing,
                parent_seq(self.nodes@) == ps,
                ps == parent_seq(orig),
                orig.len() == n,
                forall|m: int|
                    0 <= m < n ==> eq_except_weight(orig[m], #[trigger] self.nodes@[m]),
                forall|m: int| 0 <= m < i as int ==> (#[trigger] self.nodes@[m].weight) == 1,
                forall|m: int|
                    i as int <= m < n ==> (#[trigger] self.nodes@[m]) == orig[m],
            decreases n - i,
        {
            let mut nd: Node = self.nodes[i];
            nd.weight = 1;
            self.nodes[i] = nd;
            proof {
                assert(parent_seq(self.nodes@) =~= ps);
            }
            i = i + 1;
        }
        proof {
            assert forall|m: int| 0 <= m < n implies folded_set(ps, m, n as int).len() == 1 by {
                lemma_folded_init(ps, m, n as int);
            }
        }
        let mut k: usize = n;
        while k > 0
            invariant
                n == self.nodes@.len(),
                k <= n,
                self.config == old(self).config,
                self.points == old(self).points,
                self.growing == old(self).growing,
                parent_seq(self.nodes@) == ps,
                ps == parent_seq(orig),
                orig.len() == n,
                ps_wf(ps),
                forall|m: int|
                    0 <= m < n ==> eq_except_weight(orig[m], #[trigger] self.nodes@[m]),
                forall|m: int|
                    0 <= m < n ==> (#[trigger] self.nodes@[m].weight) as int == folded_set(
                        ps,
                        m,
                        k as int,
                    ).len(),
            decreases k,
        {
            k = k - 1;
            let nd: Node = self.nodes[k];
            proof {
                assert(folded_set(ps, k as int, k as int + 1) =~= subtree_set(ps, k as int)) by {
                    lemma_folded_all(ps, k as int, k as int + 1);
                }
            }
            match nd.parent {
                Option::Some(p) => {
                    proof {
                        assert(ps[k as int] is Some && ps[k as int]->0 == p);
                        lemma_folded_step(ps, p as int, k as int);
                        lemma_folded_bound(ps, p as int, k as int);
                        assert forall|m: int| 0 <= m < n && m != p as int implies folded_set(
                            ps,
                            m,
                            k as int,
                        ).len() == folded_set(ps, m, k as int + 1).len() by {
                            lemma_folded_skip(ps, m, k as int);
                        }
                    }
                    let mut pn: Node = self.nodes[p];
                    proof {
                        assert(pn.weight as int + nd.weight as int == folded_set(
                            ps,
                            p as int,
                            k as int,
                        ).len());
                    }
                    pn.weight = pn.weight + nd.weight;
                    self.nodes[p] = pn;
                    proof {
                        assert(parent_seq(self.nodes@) =~= ps);
                    }
                },
                Option::None => {
                    proof {
                        assert(k == 0) by {
                            if k as int >= 1 {
                                assert(ps[k as int] is Some);
                            }
                        }
                        assert forall|m: int| 0 <= m < n implies folded_set(
                            ps,
                            m,
                            k as int,
                        ).len() == folded_set(ps, m, k as int + 1).len() by {
                            lemma_folded_skip(ps, m, k as int);
                        }
                    }
                },
            }
        }
        proof {
            assert forall|m: int| 0 <= m < n implies (#[trigger] self.nodes@[m].weight) as int
                == subtree_weight(ps, m) by {
                lemma_folded_all(ps, m, 0);
            }
            lemma_root_weight(ps);
            assert forall|m: int| 0 <= m < n implies node_wf(self.config, #[trigger] self.nodes@[m])
                by {
                assert(eq_except_weight(orig[m], self.nodes@[m]));
                assert(node_wf(self.config, orig[m]));
                assert(on_chain(ps, m, m));
                assert(subtree_set(ps, m).contains(m));
                lemma_folded_bound(ps, m, 0);
                lemma_len_subset(Set::empty().insert(m), subtree_set(ps, m));
                assert(Set::empty().insert(m).len() == 1) by {
                    assert(!Set::<int>::empty().contains(m));
                }
            }
        }
    }

    /// One full growth cycle: propose children from the pre-cycle snapshot,
    /// consume reached attraction points, accept proposals in order under
    /// the depth, vertical-growth and spacing rules, prune dominated
    /// branches, and recompute all weights. A tree that has stopped growing
    /// is left untouched; a cycle that accepts nothing stops the tree.
    pub fn sim(&mut self)
        requires
            old(self).wf(),
        ensures
            final(self).wf(),
            final(self).config == old(self).config,
            !old(self).growing ==> *final(self) == *old(self),
            final(self).nodes@.len() >= old(self).nodes@.len(),
            forall|i: int|
                0 <= i < old(self).nodes@.len() ==> {
                    let nd = #[trigger] final(self).nodes@[i];
                    nd.pos == old(self).nodes@[i].pos && nd.parent == old(self).nodes@[i].parent
                        && nd.depth == old(self).nodes@[i].depth && nd.z == old(self).nodes@[i].z
                },
            forall|i: int|
                0 <= i < old(self).nodes@.len() && !old(self).nodes@[i].alive ==> !(
                #[trigger] final(self).nodes@[i]).alive,
            old(self).growing ==> final(self).points@ == old(self).points@.filter(
                keeps(old(self).nodes@, old(self).config.kill_dist as int),
            ),
            forall|a: int, b: int|
                old(self).nodes@.len() <= b < final(self).nodes@.len() && 0 <= a < b ==> dist_sq(
                    (#[trigger] final(self).nodes@[a]).pos,
                    (#[trigger] final(self).nodes@[b]).pos,
                ) >= (old(self).config.node_min_dist as int) * (
                old(self).config.node_min_dist as int),
            old(self).growing ==> forall|i: int|
                0 <= i < final(self).nodes@.len() ==> (#[trigger] final(self).nodes@[i].weight)
                    as int == subtree_weight(parent_seq(final(self).nodes@), i),
            old(self).growing ==> final(self).nodes@[0].weight == final(self).nodes@.len(),
            final(self).growing == (old(self).growing && final(self).nodes@.len() > old(
                self,
            ).nodes@.len()),
            old(self).growing && old(self).points@.len() == 0 ==> final(self).nodes@.len() == old(
                self,
            ).nodes@.len(),
            old(self).growing ==> exists|cands: Seq<Node>|
                {
                    let plist = proposer_list(
                        old(self).config,
                        old(self).nodes@,
                        old(self).points@,
                        old(self).nodes@.len() as int,
                    );
                    &&& cands.len() == plist.len()
                    &&& (forall|k: int|
                        0 <= k < cands.len() ==> candidate_matches(
                            old(self).config,
                            old(self).nodes@,
                            old(self).points@,
                            plist[k],
                            #[trigger] cands[k],
                        ))
                    &&& final(self).nodes@ == apply_weights(
                        apply_prune(
                            old(self).config,
                            #[trigger] accept_fold(old(self).config, old(self).nodes@, cands),
                        ),
                    )
                },
    {
        if !self.growing {
            return ;
        }
        let ghost cfg = self.config;
        let ghost nodes0 = self.nodes@;
        let ghost points0 = self.points@;
        let ghost plist = proposer_list(cfg, nodes0, points0, nodes0.len() as int);
        let cands: Vec<Node> = self.propose();
        proof {
            lemma_plist_props(cfg, nodes0, points0, nodes0.len() as int);
            assert forall|k: int| 0 <= k < cands@.len() implies cand_ok(
                cfg,
                nodes0,
                #[trigger] cands@[k],
            ) by {
                let i = plist[k];
                assert(candidate_matches(cfg, nodes0, points0, i, cands@[k]));
                assert(proposes(cfg, nodes0, points0, i));
                assert(node_wf(cfg, nodes0[i]));
            }
            assert forall|k1: int, k2: int| 0 <= k1 < k2 < cands@.len() implies (
            #[trigger] cands@[k1]).parent->0 < (#[trigger] cands@[k2]).parent->0 by {
                assert(candidate_matches(cfg, nodes0, points0, plist[k1], cands@[k1]));
                assert(candidate_matches(cfg, nodes0, points0, plist[k2], cands@[k2]));
            }
            assert(cands_ok(cfg, nodes0, cands@));
        }
        self.consume_points();
        let before: usize = self.nodes.len();
        self.accept(&cands);
        let after: usize = self.nodes.len();
        if after == before {
            self.growing = false;
        }
        let ghost mid = self.nodes@;
        proof {
            assert(mid == accept_fold(cfg, nodes0, cands@));
            lemma_fold_frame(cfg, nodes0, cands@);
            lemma_fold_spacing(cfg, nodes0, cands@);
            if points0.len() == 0 {
                lemma_no_points(cfg, nodes0, points0, nodes0.len() as int);
                assert(cands@.len() == 0);
                assert(cands@ =~= Seq::<Node>::empty());
                assert(accept_fold(cfg, nodes0, cands@) == nodes0);
            }
        }
        self.prune();
        let ghost pruned = self.nodes@;
        proof {
            assert forall|i: int| 0 <= i < mid.len() implies pruned[i] == apply_prune(
                cfg,
                mid,
            )[i] by {
                assert(eq_except_alive(mid[i], pruned[i]));
                assert(pruned[i].alive == (mid[i].alive && !doomed(cfg, mid, i)));
            }
            assert(pruned =~= apply_prune(cfg, mid));
        }
        self.recalculate_weight();
        proof {
            assert(parent_seq(self.nodes@) =~= parent_seq(pruned)) by {
                assert forall|i: int| 0 <= i < pruned.len() implies parent_seq(self.nodes@)[i]
                    == parent_seq(pruned)[i] by {
                    assert(eq_except_weight(pruned[i], self.nodes@[i]));
                }
            }
            assert forall|i: int| 0 <= i < pruned.len() implies self.nodes@[i] == apply_weights(
                pruned,
            )[i] by {
                assert(eq_except_weight(pruned[i], self.nodes@[i]));
                assert(self.nodes@[i].weight as int == subtree_weight(parent_seq(self.nodes@), i));
            }
            assert(self.nodes@ =~= apply_weights(pruned));
        }
    }

    /// A fresh tree: a single root node near the bottom center of the
    /// canvas, and attraction points drawn from the density field — each a
    /// cell with positive density, inside the canvas.
    pub fn new(config: Config, field: &DensityField) -> (t: Tree)
        requires
            config.wf(),
            field.wf(),
            field.width() == config.width as int,
            field.height() == config.height as int,
        ensures
            t.wf(),
            t.config == config,
            t.growing,
            t.nodes@.len() == 1,
            t.nodes@[0].parent is None,
            t.nodes@[0].pos.x == config.width as int / 2,
            t.nodes@[0].pos.y == config.height as int / 10,
            t.nodes@[0].depth == 0,
            t.nodes@[0].alive,
            t.nodes@[0].weight == 1,
            t.nodes@[0].child_count == 0,
            t.nodes@[0].z == 0,
            t.points@.len() <= config.num_points,
            field.total == 0 ==> t.points@.len() == 0,
            field.total > 0 ==> t.points@.len() == config.num_points,
            forall|j: int|
                0 <= j < t.points@.len() ==> {
                    let p = #[trigger] t.points@[j];
                    &&& 0 <= p.x < config.width as int
                    &&& 0 <= p.y < config.height as int
                    &&& field.grid()[p.x as int][p.y as int] > 0
                },
    {
        let root = Node {
            alive: true,
            pos: Vec2 { x: (config.width / 2) as i64, y: (config.height / 10) as i64 },
            parent: Option::None,
            child_count: 0,
            depth: 0,
            weight: 1,
            z: 0,
        };
        let mut nodes: Vec<Node> = Vec::new();
        nodes.push(root);
        let mut points: Vec<Vec2> = Vec::new();
        if field.total > 0 {
            let mut j: usize = 0;
            while j < config.num_points
                invariant
                    config.wf(),
                    field.wf(),
                    field.width() == config.width as int,
                    field.height() == config.height as int,
                    field.total > 0,
                    j <= config.num_points,
                    points@.len() == j as int,
                    forall|j2: int|
                        0 <= j2 < points@.len() ==> {
                            let p = #[trigger] points@[j2];
                            &&& 0 <= p.x < config.width as int
                            &&& 0 <= p.y < config.height as int
                            &&& field.grid()[p.x as int][p.y as int] > 0
                        },
                decreases config.num_points - j,
            {
                let ticket: u64 = random_below(field.total);
                let (x, y): (usize, usize) = field.sample(ticket);
                points.push(Vec2 { x: x as i64, y: y as i64 });
                j = j + 1;
            }
        }
        let t = Tree { nodes, config, points, growing: true };
        proof {
            assert(parent_seq(t.nodes@).len() == 1);
            assert(parent_seq(t.nodes@)[0] is None);
            assert(node_wf(config, t.nodes@[0]));
            assert forall|j2: int| 0 <= j2 < t.points@.len() implies in_box(
                #[trigger] t.points@[j2],
                POS_LIMIT as int,
            ) by {
                assert(0 <= t.points@[j2].x < config.width as int);
            }
        }
        t
    }

    /// Build a tree and run `iter` cycles; if the structure is degenerately
    /// small (fewer nodes than cycles run), discard it and regenerate from a
    /// fresh draw, up to `attempts` times, keeping the last attempt
    /// regardless.
    pub fn new_min_growth(config: Config, field: &DensityField, iter: usize, attempts: usize) -> (t:
        Tree)
        requires
            config.wf(),
            field.wf(),
            field.width() == config.width as int,
            field.height() == config.height as int,
            1 <= attempts,
        ensures
            t.wf(),
            t.config == config,
    {
        let mut a: usize = 0;
        loop
            invariant
                config.wf(),
                field.wf(),
                field.width() == config.width as int,
                field.height() == config.height as int,
                a < attempts,
            ensures
                true,
            decreases attempts - a,
        {
            let mut tree = Tree::new(config, field);
            let mut it: usize = 0;
            while it < iter
                invariant
                    tree.wf(),
                    tree.config == config,
                    it <= iter,
                decreases iter - it,
            {
                tree.sim();
                it = it + 1;
            }
            if tree.nodes.len() >= iter || a + 1 >= attempts {
                return tree;
            }
            a = a + 1;
        }
    }
}

} // verus!

