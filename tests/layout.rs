use knowledge_graph::cluster::component_labels;
use knowledge_graph::geom::{integer_sqrt, Vec2};
use knowledge_graph::graph::{validate_graph, GraphError, LinkNode};
use knowledge_graph::grid::{build_grid, Grid};
use knowledge_graph::layout::{compute_layout, layout_graph};
use knowledge_graph::seed::initialize_positions;
use knowledge_graph::sim::{layout_step, LayoutConfig, SimStatus, Simulation};

fn graph_of(links: &[&[usize]]) -> Vec<LinkNode> {
    links
        .iter()
        .enumerate()
        .map(|(i, l)| LinkNode::new(i, format!("Node {}", i), l.to_vec()))
        .collect()
}

fn distance(a: Vec2, b: Vec2) -> f64 {
    let dx = (a.x - b.x) as f64;
    let dy = (a.y - b.y) as f64;
    (dx * dx + dy * dy).sqrt()
}

#[test]
fn star_labels_share_one_cluster() {
    let g = graph_of(&[&[1, 2], &[0], &[0]]);
    let l = component_labels(&g);
    assert!(l[0].is_some());
    assert_eq!(l[0], l[1]);
    assert_eq!(l[0], l[2]);
}

#[test]
fn disjoint_pairs_get_distinct_clusters() {
    let g = graph_of(&[&[1], &[0], &[3], &[2]]);
    let l = component_labels(&g);
    assert_eq!(l[0], l[1]);
    assert_eq!(l[2], l[3]);
    assert!(l[0].is_some() && l[2].is_some());
    assert_ne!(l[0], l[2]);
}

#[test]
fn lone_node_has_no_cluster() {
    let g = graph_of(&[&[]]);
    let l = component_labels(&g);
    assert_eq!(l, vec![None]);
}

#[test]
fn one_way_link_joins_both_ends() {
    let g = graph_of(&[&[], &[0], &[], &[3, 3]]);
    let l = component_labels(&g);
    assert!(l[0].is_some());
    assert_eq!(l[0], l[1]);
    assert_eq!(l[2], None);
    assert!(l[3].is_some());
    assert_ne!(l[3], l[0]);
}

#[test]
fn chain_shares_one_label() {
    let g = graph_of(&[&[1], &[2], &[3], &[], &[]]);
    let l = component_labels(&g);
    assert_eq!(l[0], Some(0));
    assert_eq!(l[3], Some(0));
    assert_eq!(l[4], None);
}

#[test]
fn labelling_twice_groups_alike() {
    let g = graph_of(&[&[2], &[], &[0, 4], &[1], &[], &[5]]);
    let a = component_labels(&g);
    let b = component_labels(&g);
    for i in 0..g.len() {
        for j in 0..g.len() {
            assert_eq!(a[i].is_some() && a[i] == a[j], b[i].is_some() && b[i] == b[j]);
        }
    }
}

#[test]
fn out_of_range_link_is_refused() {
    let g = graph_of(&[&[1], &[7]]);
    assert_eq!(validate_graph(&g), Err(GraphError::InvalidLink { node: 1, link: 7 }));
    assert!(matches!(
        layout_graph(&g, &LayoutConfig::standard()),
        Err(GraphError::InvalidLink { node: 1, link: 7 })
    ));
}

#[test]
fn misnumbered_node_is_refused() {
    let g = vec![LinkNode::new(1, String::from("a"), vec![])];
    assert_eq!(validate_graph(&g), Err(GraphError::IdMismatch { index: 0, id: 1 }));
}

#[test]
fn valid_graph_is_accepted() {
    let g = graph_of(&[&[1], &[0]]);
    assert_eq!(validate_graph(&g), Ok(()));
}

#[test]
fn integer_square_roots() {
    assert_eq!(integer_sqrt(0), 0);
    assert_eq!(integer_sqrt(15), 3);
    assert_eq!(integer_sqrt(16), 4);
    assert_eq!(integer_sqrt(u64::MAX as u128), 4294967295);
}

#[test]
fn grid_neighbours_cover_adjacent_cells() {
    let positions = vec![Vec2::new(0, 0), Vec2::new(15, 5), Vec2::new(35, 0), Vec2::new(-9, -9)];
    let grid = build_grid(&positions, 10);
    let mut near = grid.get_neighboring_cells(Vec2::new(1, 1));
    near.sort();
    assert_eq!(near, vec![0, 1, 3]);
    let mut g = Grid::new(10);
    g.insert_node(Vec2::new(3, 3), 9);
    assert_eq!(g.get_neighboring_cells(Vec2::new(14, 14)), vec![9]);
    assert_eq!(g.get_neighboring_cells(Vec2::new(40, 40)), Vec::<usize>::new());
    g.clear();
    assert_eq!(g.get_neighboring_cells(Vec2::new(3, 3)), Vec::<usize>::new());
}

#[test]
fn lone_node_is_seeded_at_centre() {
    let config = LayoutConfig::standard();
    let seed = initialize_positions(&vec![None], &config);
    assert_eq!(seed, vec![Vec2::new(400, 300)]);
}

#[test]
fn seed_puts_largest_cluster_at_centre() {
    let config = LayoutConfig::standard();
    // cluster 0 has three members, cluster 1 two
    let labels = vec![Some(0), Some(0), Some(0), Some(1), Some(1), None];
    let seed = initialize_positions(&labels, &config);
    assert_eq!(seed[0], Vec2::new(410, 300));
    // a third of a turn and two thirds of a turn on the small ring
    assert_eq!(seed[1], Vec2::new(395, 309));
    assert_eq!(seed[2], Vec2::new(395, 291));
    // cluster 1 sits half a turn round the outer ring
    assert_eq!(seed[3], Vec2::new(210, 300));
    assert_eq!(seed[4], Vec2::new(190, 300));
    assert_eq!(seed[5], Vec2::new(400, 300));
}

#[test]
fn outer_ring_centres_lie_on_the_ring() {
    let config = LayoutConfig::standard();
    let labels = vec![Some(0), Some(0), Some(0), Some(1), Some(1), Some(2), Some(2)];
    let seed = initialize_positions(&labels, &config);
    // cluster 1 is centred a third of a turn round, cluster 2 two thirds
    let c1 = Vec2::new((seed[3].x + seed[4].x) / 2, (seed[3].y + seed[4].y) / 2);
    let c2 = Vec2::new((seed[5].x + seed[6].x) / 2, (seed[5].y + seed[6].y) / 2);
    assert_eq!(seed[3], Vec2::new(310, 473));
    for c in [c1, c2] {
        let d = distance(c, Vec2::new(400, 300));
        assert!((199.5..=200.5).contains(&d), "distance {}", d);
    }
}

#[test]
fn many_clusters_get_distinct_centres() {
    let config = LayoutConfig::standard();
    // cluster 0 is the largest; clusters 1 to 257 have two members each
    let mut labels = vec![Some(0), Some(0), Some(0)];
    for c in 1..258 {
        labels.push(Some(c));
        labels.push(Some(c));
    }
    let seed = initialize_positions(&labels, &config);
    let mut firsts: Vec<Vec2> = (1..258).map(|c| seed[3 + 2 * (c - 1)]).collect();
    firsts.sort_by_key(|p| (p.x, p.y));
    firsts.dedup();
    assert_eq!(firsts.len(), 257);
}

#[test]
fn overlap_push_is_limited_per_step() {
    let g = graph_of(&[&[], &[]]);
    let mut config = LayoutConfig::standard();
    config.node_radius = 1000;
    config.max_step_displacement = 20;
    let positions = vec![Vec2::new(0, 0), Vec2::new(0, 0)];
    let (next, _, _) = layout_step(&g, &positions, &config);
    for (p, q) in next.iter().zip(positions.iter()) {
        assert!(distance(*p, *q) <= 20.0);
    }
    assert!(next[0].x < next[1].x);
}

#[test]
fn lone_node_converges_at_once() {
    let g = graph_of(&[&[]]);
    let config = LayoutConfig::standard();
    let r = compute_layout(&g, &config);
    assert_eq!(r.labels, vec![None]);
    assert_eq!(r.status, SimStatus::Converged);
    assert_eq!(r.iterations, 1);
    assert_eq!(r.positions, vec![Vec2::new(400, 300)]);
    let (_, forces, total) = layout_step(&g, &r.positions, &config);
    assert_eq!(forces, vec![Vec2::new(0, 0)]);
    assert_eq!(total, 0);
}

#[test]
fn zero_iteration_cap_keeps_the_seed() {
    let g = graph_of(&[&[1, 2], &[0], &[0], &[4], &[3], &[]]);
    let mut config = LayoutConfig::standard();
    config.max_iterations = 0;
    let r = compute_layout(&g, &config);
    assert_eq!(r.status, SimStatus::IterationCapReached);
    assert_eq!(r.iterations, 0);
    let seed = initialize_positions(&component_labels(&g), &config);
    assert_eq!(r.positions, seed);
}

#[test]
fn complete_graph_converges() {
    let g = graph_of(&[&[1, 2, 3], &[0, 2, 3], &[0, 1, 3], &[0, 1, 2]]);
    let config = LayoutConfig::standard();
    let r = compute_layout(&g, &config);
    assert_eq!(r.status, SimStatus::Converged);
    assert!(r.iterations < config.max_iterations);
}

#[test]
fn star_is_seeded_round_the_centre() {
    let g = graph_of(&[&[1, 2], &[0], &[0]]);
    let config = LayoutConfig::standard();
    let labels = component_labels(&g);
    let seed = initialize_positions(&labels, &config);
    // the only cluster is the largest, so it sits at the canvas centre
    assert_eq!(seed[0], Vec2::new(410, 300));
    for p in &seed {
        let d = distance(*p, Vec2::new(400, 300));
        assert!((9.5..=10.5).contains(&d), "distance {}", d);
    }
}

#[test]
fn star_settles_symmetrically() {
    let g = graph_of(&[&[1, 2], &[0], &[0]]);
    let config = LayoutConfig::standard();
    let r = compute_layout(&g, &config);
    assert_eq!(r.status, SimStatus::Converged);
    let d01 = distance(r.positions[0], r.positions[1]);
    let d02 = distance(r.positions[0], r.positions[2]);
    assert!((d01 - d02).abs() <= 0.1 * d01.max(d02));
    // the hub ends between its two leaves
    let d12 = distance(r.positions[1], r.positions[2]);
    assert!(d12 > d01 && d12 > d02);
}

#[test]
fn disjoint_pairs_drift_apart() {
    let g = graph_of(&[&[1], &[0], &[3], &[2]]);
    let config = LayoutConfig::standard();
    let r = compute_layout(&g, &config);
    let p = &r.positions;
    let c1 = Vec2::new((p[0].x + p[1].x) / 2, (p[0].y + p[1].y) / 2);
    let c2 = Vec2::new((p[2].x + p[3].x) / 2, (p[2].y + p[3].y) / 2);
    let sep = distance(c1, c2);
    assert!(sep >= (2 * config.cluster_ring_radius - config.node_radius) as f64, "separation {}", sep);
}

#[test]
fn finished_simulation_does_not_move() {
    let g = graph_of(&[&[1], &[0]]);
    let config = LayoutConfig::standard();
    let mut sim = Simulation::new(2);
    sim.step(&g, &config);
    assert_eq!(sim.status, SimStatus::NotStarted);
    sim.initialize(vec![Vec2::new(0, 0), Vec2::new(100, 0)]);
    sim.run(&g, &config);
    assert!(sim.status == SimStatus::Converged || sim.status == SimStatus::IterationCapReached);
    let before = sim.positions.clone();
    let it = sim.iteration;
    sim.step(&g, &config);
    assert_eq!(sim.positions, before);
    assert_eq!(sim.iteration, it);
}

#[test]
fn unlinked_close_pair_is_pushed_apart() {
    let g = graph_of(&[&[], &[]]);
    let config = LayoutConfig::standard();
    let mut sim = Simulation::new(2);
    sim.initialize(vec![Vec2::new(400, 300), Vec2::new(405, 300)]);
    let mut last = 5.0;
    for _ in 0..20 {
        sim.step(&g, &config);
        let d = distance(sim.positions[0], sim.positions[1]);
        assert!(d >= last);
        last = d;
    }
    assert!(last >= (2 * config.node_radius) as f64);
}
