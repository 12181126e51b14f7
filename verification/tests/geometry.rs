use arbor::config::Config;
use arbor::density::DensityField;
use arbor::geom::dist_sq_u64;
use arbor::geom::isqrt;
use arbor::geom::scale_div;
use arbor::geom::Vec2;
use arbor::shade::Normal;
use arbor::shade::Pixel;
use arbor::shade::Rgba;
use arbor::shade::NORM_ONE;
use arbor::tree::Tree;

#[test]
fn integer_square_root() {
    assert_eq!(isqrt(0), 0);
    assert_eq!(isqrt(1), 1);
    assert_eq!(isqrt(15), 3);
    assert_eq!(isqrt(16), 4);
    assert_eq!(isqrt(1_000_000), 1000);
    assert_eq!(isqrt(u64::MAX as u128), 0xffff_ffff);
}

#[test]
fn squared_distance() {
    let a = Vec2 { x: 3, y: -4 };
    let b = Vec2 { x: 0, y: 0 };
    assert_eq!(dist_sq_u64(a, b), 25);
    assert_eq!(dist_sq_u64(a, a), 0);
}

/// Scaled division rounds toward zero for both signs.
#[test]
fn scaled_division_truncates_toward_zero() {
    assert_eq!(scale_div(5, 3, 2), 7);
    assert_eq!(scale_div(-5, 3, 2), -7);
    assert_eq!(scale_div(0, 1000, 7), 0);
    assert_eq!(scale_div(10, 10, 10), 10);
}

/// The implied out-of-plane component follows from the unit length.
#[test]
fn normal_implied_component() {
    let n = Normal { x: 600, y: 0 };
    assert_eq!(n.implied_z_sqr(), 640_000);
    assert_eq!(n.implied_z(), 800);
    let v = n.to_vec3();
    assert_eq!((v.x, v.y, v.z), (600, 0, 800));
}

/// A pixel facing the viewer covers one lying edge-on; the background pixel
/// covers nothing.
#[test]
fn pixel_depth_ordering() {
    let facing = Pixel {
        color: Rgba { r: 1, g: 2, b: 3, a: 255 },
        normal: Normal { x: 0, y: 0 },
    };
    let edge_on = Pixel {
        color: Rgba { r: 9, g: 9, b: 9, a: 255 },
        normal: Normal { x: 0, y: NORM_ONE },
    };
    assert!(facing.covers(&edge_on));
    assert!(!edge_on.covers(&facing));
    assert!(!facing.covers(&facing));
    let background = Pixel::default();
    assert!(!background.covers(&facing));
    assert!(!background.covers(&edge_on));
}

fn small_config() -> Config {
    Config {
        attraction_dist: 20,
        kill_dist: 13,
        grow_dist: 10,
        node_min_dist: 8,
        width: 64,
        height: 64,
        max_children: 3,
        max_depth: 100,
        num_points: 50,
        min_y_growth: 0,
        parent_dir_factor_pm: 100,
        prune_pow_q: 1,
        prune_size_ratio_pm: 200,
        node_depth_change: 1,
        node_depth_max: 5,
    }
}

/// A fresh tree has one root at the expected spot and only draws points
/// from cells with positive density.
#[test]
fn new_tree_from_field() {
    let config = small_config();
    let mut cells = vec![vec![0u64; 64]; 64];
    cells[30][40] = 5;
    cells[33][35] = 9;
    let field = DensityField::from_cells(cells);
    let tree = Tree::new(config, &field);
    assert_eq!(tree.nodes.len(), 1);
    assert_eq!(tree.nodes[0].parent, None);
    assert_eq!(tree.nodes[0].pos, Vec2 { x: 32, y: 6 });
    assert!(tree.growing);
    assert_eq!(tree.points.len(), config.num_points);
    for p in &tree.points {
        assert!(
            (p.x, p.y) == (30, 40) || (p.x, p.y) == (33, 35),
            "point drawn from a zero-density cell"
        );
    }
}

/// With an empty density field no points are drawn.
#[test]
fn new_tree_from_empty_field() {
    let config = small_config();
    let field = DensityField::from_cells(vec![vec![0u64; 64]; 64]);
    let tree = Tree::new(config, &field);
    assert_eq!(tree.points.len(), 0);
}

/// Regeneration hands back a well-formed tree whatever the draws were.
#[test]
fn regeneration_returns_tree() {
    let config = small_config();
    let mut cells = vec![vec![0u64; 64]; 64];
    cells[32][20] = 100;
    cells[32][30] = 100;
    let field = DensityField::from_cells(cells);
    let tree = Tree::new_min_growth(config, &field, 3, 5);
    assert!(!tree.nodes.is_empty());
    assert_eq!(tree.nodes[0].parent, None);
    for i in 1..tree.nodes.len() {
        assert!(tree.nodes[i].parent.unwrap() < i);
    }
}
