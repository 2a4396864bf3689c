//! The graph model: nodes with dense identities and outgoing links.
use vstd::prelude::*;

verus! {

/// A note of the graph. `id` equals the node's index in the graph, `links` are the
/// identities of the notes it refers to (duplicates allowed), and `cluster_id` is the
/// component label, unset until labelling.
#[derive(Clone, Debug)]
pub struct LinkNode {
    pub id: usize,
    pub title: String,
    pub links: Vec<usize>,
    pub cluster_id: Option<usize>,
    pub internal: bool,
}

impl LinkNode {
    pub fn new(id: usize, title: String, links_given: Vec<usize>) -> (r: LinkNode)
        ensures
            r.id == id,
            r.title@ == title@,
            r.links@ == links_given@,
            r.cluster_id is None,
            r.internal,
    {
        LinkNode { id, title, links: links_given, cluster_id: None, internal: true }
    }
}

/// Every link of every node names a node of the graph.
pub open spec fn links_in_range(g: Seq<LinkNode>) -> bool {
    forall|i: int, k: int|
        0 <= i < g.len() && 0 <= k < g[i].links@.len() ==> #[trigger] g[i].links@[k] < g.len()
}

/// Every node's identity is its index.
pub open spec fn ids_match(g: Seq<LinkNode>) -> bool {
    forall|i: int| 0 <= i < g.len() ==> #[trigger] g[i].id == i
}

/// A graph the layout can run on.
pub open spec fn graph_wf(g: Seq<LinkNode>) -> bool {
    ids_match(g) && links_in_range(g)
}

/// Why a graph was rejected.
#[derive(Clone, Copy, Debug, PartialEq, Eq, Structural)]
pub enum GraphError {
    /// The node at `index` carries the identity `id`.
    IdMismatch { index: usize, id: usize },
    /// The node `node` links to `link`, which is not a node of the graph.
    InvalidLink { node: usize, link: usize },
}

/// Checks that identities are indices and that every link is in range.
pub fn validate_graph(g: &Vec<LinkNode>) -> (r: Result<(), GraphError>)
    ensures
        r is Ok <==> graph_wf(g@),
        r matches Err(GraphError::IdMismatch { index, id }) ==> index < g@.len() && g@[index as int].id
            == id && id != index,
        r matches Err(GraphError::InvalidLink { node, link }) ==> node < g@.len()
            && g@[node as int].links@.contains(link) && link >= g@.len(),
{
    let n = g.len();
    let mut i: usize = 0;
    while i < n
        invariant
            n == g@.len(),
            i <= n,
            forall|j: int| 0 <= j < i ==> #[trigger] g@[j].id == j,
            forall|j: int, k: int|
                0 <= j < i && 0 <= k < g@[j].links@.len() ==> #[trigger] g@[j].links@[k] < n,
        decreases n - i,
    {
        if g[i].id != i {
            return Err(GraphError::IdMismatch { index: i, id: g[i].id });
        }
        let links = &g[i].links;
        let mut k: usize = 0;
        while k < links.len()
            invariant
                n == g@.len(),
                i < n,
                links@ == g@[i as int].links@,
                k <= links@.len(),
                forall|m: int| 0 <= m < k ==> #[trigger] links@[m] < n,
            decreases links@.len() - k,
        {
            if links[k] >= n {
                return Err(GraphError::InvalidLink { node: i, link: links[k] });
            }
            k += 1;
        }
        i += 1;
    }
    Ok(())
}

} // verus!
