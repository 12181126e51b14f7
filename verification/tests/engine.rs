use arbor::config::Config;
use arbor::geom::Vec2;
use arbor::tree::Node;
use arbor::tree::Tree;

fn test_config() -> Config {
    Config {
        attraction_dist: 100,
        kill_dist: 13,
        grow_dist: 10,
        node_min_dist: 8,
        width: 500,
        height: 500,
        max_children: 1,
        max_depth: 3,
        num_points: 1,
        min_y_growth: 0,
        parent_dir_factor_pm: 100,
        prune_pow_q: 1,
        prune_size_ratio_pm: 200,
        node_depth_change: 1,
        node_depth_max: 5,
    }
}

fn root_at(x: i64, y: i64) -> Node {
    Node {
        alive: true,
        pos: Vec2 { x, y },
        parent: None,
        child_count: 0,
        depth: 0,
        weight: 1,
        z: 0,
    }
}

fn branch_at(x: i64, y: i64, parent: usize, depth: usize, weight: usize) -> Node {
    Node {
        alive: true,
        pos: Vec2 { x, y },
        parent: Some(parent),
        child_count: 0,
        depth,
        weight,
        z: 0,
    }
}

/// A single attraction point straight above the root grows one straight
/// vertical chain, no deeper than the depth cap, and the root's weight ends
/// up equal to the node count.
#[test]
fn vertical_chain_scenario() {
    let config = test_config();
    let mut tree = Tree {
        nodes: vec![root_at(250, 50)],
        config,
        points: vec![Vec2 { x: 250, y: 80 }],
        growing: true,
    };
    let mut cycles = 0;
    while tree.growing && cycles < 20 {
        tree.sim();
        cycles += 1;
    }
    assert!(!tree.growing);
    assert_eq!(tree.nodes.len(), 4);
    for (i, node) in tree.nodes.iter().enumerate() {
        assert_eq!(node.pos.x, 250);
        assert_eq!(node.pos.y, 50 + 10 * i as i64);
        assert_eq!(node.depth, i);
        assert!(node.depth <= config.max_depth);
        if i == 0 {
            assert_eq!(node.parent, None);
        } else {
            assert_eq!(node.parent, Some(i - 1));
        }
    }
    assert_eq!(tree.nodes[0].weight, tree.nodes.len());
}

/// With zero attraction points a single cycle accepts nothing and the
/// growing flag drops.
#[test]
fn stagnation_on_empty_points() {
    let config = test_config();
    let mut tree = Tree {
        nodes: vec![root_at(250, 50)],
        config,
        points: vec![],
        growing: true,
    };
    tree.sim();
    assert_eq!(tree.nodes.len(), 1);
    assert!(!tree.growing);
    let before = tree.nodes.len();
    tree.sim();
    assert_eq!(tree.nodes.len(), before);
}

/// The parent-index invariant holds after any number of cycles.
#[test]
fn parent_index_invariant() {
    let config = Config {
        max_children: 3,
        max_depth: 50,
        ..test_config()
    };
    let mut tree = Tree {
        nodes: vec![root_at(250, 50)],
        config,
        points: vec![
            Vec2 { x: 230, y: 90 },
            Vec2 { x: 270, y: 90 },
            Vec2 { x: 250, y: 120 },
            Vec2 { x: 200, y: 60 },
        ],
        growing: true,
    };
    for _ in 0..10 {
        tree.sim();
    }
    assert_eq!(tree.nodes[0].parent, None);
    for i in 1..tree.nodes.len() {
        let p = tree.nodes[i].parent.expect("only the root lacks a parent");
        assert!(p < i);
    }
    for node in &tree.nodes {
        assert!(0 <= node.z && node.z <= config.node_depth_max);
        assert!(node.weight >= 1);
    }
}

/// After a weight recomputation every node's weight is one more than the sum
/// of its direct children's weights, dead nodes included, and the root's
/// weight is the node count.
#[test]
fn weight_recomputation_children_sum() {
    let config = test_config();
    let mut tree = Tree {
        nodes: vec![
            root_at(0, 0),
            branch_at(0, 10, 0, 1, 7),
            branch_at(10, 0, 0, 1, 7),
            branch_at(0, 20, 1, 2, 7),
            branch_at(5, 20, 1, 2, 7),
            branch_at(0, 30, 3, 3, 7),
        ],
        config,
        points: vec![],
        growing: true,
    };
    tree.nodes[4].alive = false;
    tree.recalculate_weight();
    let weights: Vec<usize> = tree.nodes.iter().map(|n| n.weight).collect();
    assert_eq!(weights, vec![6, 4, 1, 2, 1, 1]);
    for i in 0..tree.nodes.len() {
        let child_sum: usize = tree
            .nodes
            .iter()
            .filter(|n| n.parent == Some(i))
            .map(|n| n.weight)
            .sum();
        assert_eq!(tree.nodes[i].weight, child_sum + 1);
    }
    assert_eq!(tree.nodes[0].weight, tree.nodes.len());
}

/// A small node close to a much heavier one is pruned, and its recorded
/// descendants die with it; aliveness never flips back to true.
#[test]
fn prune_dominated_branch_and_monotonicity() {
    let config = test_config();
    let mut tree = Tree {
        nodes: vec![
            root_at(0, 0),
            branch_at(0, 3, 0, 1, 1),
            branch_at(0, 6, 1, 2, 1),
        ],
        config,
        points: vec![],
        growing: true,
    };
    tree.nodes[0].weight = 100;
    // node 1: weight 1 < 0.2 * 100, distance 3 < 100^(1/4); it dies, and
    // node 2 dies transitively through its ancestor.
    tree.prune();
    assert!(tree.nodes[0].alive);
    assert!(!tree.nodes[1].alive);
    assert!(!tree.nodes[2].alive);
    for _ in 0..3 {
        tree.sim();
        assert!(!tree.nodes[1].alive);
        assert!(!tree.nodes[2].alive);
    }
}

/// The pruning reach is `weight^(prune_pow_q / 4)`, decided exactly: with
/// weight 16 and exponent one quarter the reach is 2, so a small node at
/// distance 1 dies and one at distance 2 survives.
#[test]
fn prune_reach_boundary() {
    let config = test_config();
    let mut tree = Tree {
        nodes: vec![
            root_at(0, 0),
            branch_at(0, 1, 0, 1, 1),
            branch_at(0, 2, 0, 1, 1),
        ],
        config,
        points: vec![],
        growing: true,
    };
    tree.nodes[0].weight = 16;
    tree.prune();
    assert!(tree.nodes[0].alive);
    assert!(!tree.nodes[1].alive);
    assert!(tree.nodes[2].alive);
}

/// Nodes far apart or of similar size are not pruned.
#[test]
fn prune_spares_balanced_nodes() {
    let config = test_config();
    let mut tree = Tree {
        nodes: vec![root_at(0, 0), branch_at(0, 200, 0, 1, 1)],
        config,
        points: vec![],
        growing: true,
    };
    tree.prune();
    assert!(tree.nodes[0].alive);
    assert!(tree.nodes[1].alive);
}

/// Attraction points within kill distance of any node are consumed, the
/// rest stay, in order.
#[test]
fn consume_points_within_kill_distance() {
    let config = test_config();
    let mut tree = Tree {
        nodes: vec![root_at(0, 0), branch_at(0, 10, 0, 1, 1)],
        config,
        points: vec![
            Vec2 { x: 0, y: 5 },
            Vec2 { x: 0, y: 100 },
            Vec2 { x: 12, y: 10 },
            Vec2 { x: 0, y: -200 },
        ],
        growing: true,
    };
    tree.consume_points();
    assert_eq!(
        tree.points,
        vec![Vec2 { x: 0, y: 100 }, Vec2 { x: 0, y: -200 }]
    );
}

/// After a growth cycle, no accepted node sits closer than the minimum
/// spacing to any node that was in the arena when it was accepted.
#[test]
fn spacing_after_growth() {
    let config = Config {
        max_children: 3,
        max_depth: 50,
        ..test_config()
    };
    let mut tree = Tree {
        nodes: vec![root_at(250, 50)],
        config,
        points: vec![
            Vec2 { x: 240, y: 90 },
            Vec2 { x: 260, y: 90 },
            Vec2 { x: 250, y: 130 },
        ],
        growing: true,
    };
    let before = tree.nodes.len();
    tree.sim();
    let md = config.node_min_dist as i64;
    for b in before..tree.nodes.len() {
        for a in 0..b {
            let dx = tree.nodes[a].pos.x - tree.nodes[b].pos.x;
            let dy = tree.nodes[a].pos.y - tree.nodes[b].pos.y;
            assert!(dx * dx + dy * dy >= md * md);
        }
    }
}

/// Spacing is enforced only at acceptance time: a pair of nodes that was
/// already closer than the minimum stays in the arena untouched.
#[test]
fn preexisting_close_pairs_are_kept() {
    let config = test_config();
    let mut tree = Tree {
        nodes: vec![root_at(0, 0), branch_at(0, 2, 0, 1, 1)],
        config,
        points: vec![],
        growing: true,
    };
    tree.sim();
    assert_eq!(tree.nodes.len(), 2);
    assert!(tree.nodes[0].alive && tree.nodes[1].alive);
}

/// A proposal landing within the minimum spacing of an existing node is
/// rejected, and the cycle stagnates.
#[test]
fn proposal_rejected_by_spacing() {
    let config = Config {
        node_min_dist: 12,
        ..test_config()
    };
    let mut tree = Tree {
        nodes: vec![root_at(250, 50)],
        config,
        points: vec![Vec2 { x: 250, y: 80 }],
        growing: true,
    };
    tree.sim();
    assert_eq!(tree.nodes.len(), 1);
    assert!(!tree.growing);
}

/// A proposal that does not climb enough is rejected.
#[test]
fn proposal_rejected_by_vertical_growth() {
    let config = Config {
        min_y_growth: 20,
        ..test_config()
    };
    let mut tree = Tree {
        nodes: vec![root_at(250, 50)],
        config,
        points: vec![Vec2 { x: 250, y: 80 }],
        growing: true,
    };
    tree.sim();
    assert_eq!(tree.nodes.len(), 1);
    assert!(!tree.growing);
}

/// A proposal deeper than the depth cap is rejected.
#[test]
fn proposal_rejected_by_depth() {
    let config = Config {
        max_depth: 0,
        ..test_config()
    };
    let mut tree = Tree {
        nodes: vec![root_at(250, 50)],
        config,
        points: vec![Vec2 { x: 250, y: 80 }],
        growing: true,
    };
    tree.sim();
    assert_eq!(tree.nodes.len(), 1);
    assert!(!tree.growing);
}

/// A cycle that accepts a node leaves the tree growing; positions of old
/// nodes never move.
#[test]
fn growth_keeps_old_positions() {
    let config = test_config();
    let mut tree = Tree {
        nodes: vec![root_at(250, 50)],
        config,
        points: vec![Vec2 { x: 250, y: 80 }],
        growing: true,
    };
    let old_pos = tree.nodes[0].pos;
    tree.sim();
    assert!(tree.nodes.len() > 1);
    assert!(tree.growing);
    assert_eq!(tree.nodes[0].pos, old_pos);
}
