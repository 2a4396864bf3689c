//! The whole pipeline: check the graph, label its components, seed the layout and
//! run the simulation.
use vstd::prelude::*;
use crate::geom::Vec2;
use crate::graph::{LinkNode, GraphError, graph_wf, validate_graph};
use crate::cluster::{component_labels, is_component_labeling};
use crate::seed::{initialize_positions, seed_point};
use crate::sim::{LayoutConfig, Simulation, SimStatus, config_wf, finished, steps, step_total};
use crate::forces::all_in_box;

verus! {

/// The seeded positions of all nodes.
pub open spec fn seed_positions(l: Seq<Option<usize>>, c: LayoutConfig) -> Seq<Vec2> {
    Seq::new(
        l.len(),
        |i: int| Vec2 { x: seed_point(l, c, i).0 as i64, y: seed_point(l, c, i).1 as i64 },
    )
}

/// A finished layout: one position and one component label per node, and how the
/// simulation stopped.
pub struct Layout {
    pub positions: Vec<Vec2>,
    pub labels: Vec<Option<usize>>,
    pub status: SimStatus,
    pub iterations: usize,
}

/// `r` is the layout of `graph` under `config`: the labels are the component labels,
/// and the positions are the seed moved by `r.iterations` steps, where the simulation
/// stops at the first step whose summed force falls below the threshold, or at the
/// iteration cap.
pub open spec fn is_layout_of(graph: Seq<LinkNode>, config: LayoutConfig, r: Layout) -> bool {
    &&& r.positions@.len() == graph.len()
    &&& all_in_box(r.positions@)
    &&& is_component_labeling(graph, r.labels@)
    &&& finished(r.status)
    &&& r.iterations <= config.max_iterations
    &&& (r.status == SimStatus::IterationCapReached ==> r.iterations == config.max_iterations)
    &&& r.positions@ == steps(graph, seed_positions(r.labels@, config), config, r.iterations as nat)
    &&& (r.status == SimStatus::Converged ==> r.iterations >= 1 && step_total(graph, seed_positions(r.labels@, config),
        config, (r.iterations - 1) as nat) < config.convergence_threshold)
    &&& forall|j: nat| j < r.iterations && !(r.status == SimStatus::Converged && j == r.iterations - 1)
        ==> #[trigger] step_total(graph, seed_positions(r.labels@, config), config, j) >= config.convergence_threshold
}

/// Labels, seeds and simulates a well-formed graph (see `is_layout_of`). With an
/// iteration cap of zero the positions are the seed itself.
pub fn compute_layout(graph: &Vec<LinkNode>, config: &LayoutConfig) -> (r: Layout)
    requires
        graph_wf(graph@),
        config_wf(*config),
    ensures
        is_layout_of(graph@, *config, r),
        config.max_iterations == 0 ==> r.status == SimStatus::IterationCapReached && forall|i: int|
            0 <= i < graph@.len() ==> ((#[trigger] r.positions@[i]).x as int, r.positions@[i].y as int)
                == seed_point(r.labels@, *config, i),
{
    let labels = component_labels(graph);
    let seed = initialize_positions(&labels, config);
    assert(seed@ =~= seed_positions(labels@, *config));
    let mut sim = Simulation::new(graph.len());
    sim.initialize(seed);
    sim.run(graph, config);
    Layout { positions: sim.positions, labels, status: sim.status, iterations: sim.iteration }
}

/// Checks the graph and lays it out; a graph with a link out of range, or a node whose
/// identity is not its index, is refused before any layout is attempted.
pub fn layout_graph(graph: &Vec<LinkNode>, config: &LayoutConfig) -> (r: Result<Layout, GraphError>)
    requires
        config_wf(*config),
    ensures
        r is Ok <==> graph_wf(graph@),
        r matches Err(GraphError::InvalidLink { node, link }) ==> node < graph@.len()
            && graph@[node as int].links@.contains(link) && link >= graph@.len(),
        r matches Err(GraphError::IdMismatch { index, id }) ==> index < graph@.len()
            && graph@[index as int].id == id && id != index,
        r matches Ok(l) ==> is_layout_of(graph@, *config, l),
{
    match validate_graph(graph) {
        Ok(()) => Ok(compute_layout(graph, config)),
        Err(e) => Err(e),
    }
}

} // verus!
