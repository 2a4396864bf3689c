//! Link direction as metadata: the links that are not returned, and the closure
//! that returns every link.
use vstd::prelude::*;
use std::collections::HashMap;
use crate::graph::{LinkNode, graph_wf, ids_match};

verus! {

broadcast use vstd::std_specs::hash::group_hash_axioms;

/// The first `k` links of node `a` that point into the graph at a node not linking back.
pub open spec fn one_way_prefix(g: Seq<LinkNode>, a: int, k: int) -> Seq<usize>
    decreases k,
{
    if k <= 0 {
        Seq::empty()
    } else {
        let p = one_way_prefix(g, a, k - 1);
        let l = g[a].links@[k - 1];
        if l < g.len() && !g[l as int].links@.contains(g[a].id) {
            p.push(l)
        } else {
            p
        }
    }
}

/// The links of node `a` that the target does not return, in order.
pub open spec fn one_way_links(g: Seq<LinkNode>, a: int) -> Seq<usize> {
    one_way_prefix(g, a, g[a].links@.len() as int)
}

/// For every node, by identity, its links that are not returned.
pub fn build_directional_links(graph: &Vec<LinkNode>) -> (r: HashMap<usize, Vec<usize>>)
    requires
        graph_wf(graph@),
    ensures
        forall|id: usize| #[trigger] r@.contains_key(id) <==> id < graph@.len(),
        forall|id: usize| id < graph@.len() ==> (#[trigger] r@[id])@ == one_way_links(graph@, id as int),
{
    let n = graph.len();
    let mut map: HashMap<usize, Vec<usize>> = HashMap::new();
    let mut a: usize = 0;
    while a < n
        invariant
            n == graph@.len(),
            graph_wf(graph@),
            a <= n,
            forall|id: usize| #[trigger] map@.contains_key(id) <==> id < a,
            forall|id: usize| id < a ==> (#[trigger] map@[id])@ == one_way_links(graph@, id as int),
        decreases n - a,
    {
        let node = &graph[a];
        let mut directional: Vec<usize> = Vec::new();
        let mut k: usize = 0;
        while k < node.links.len()
            invariant
                n == graph@.len(),
                graph_wf(graph@),
                a < n,
                *node == graph@[a as int],
                k <= node.links@.len(),
                directional@ == one_way_prefix(graph@, a as int, k as int),
            decreases node.links@.len() - k,
        {
            let link = node.links[k];
            if link < n {
                let back = &graph[link].links;
                let mut found = false;
                let mut t: usize = 0;
                while t < back.len()
                    invariant
                        t <= back@.len(),
                        found <==> back@.subrange(0, t as int).contains(node.id),
                    decreases back@.len() - t,
                {
                    proof {
                        crate::cluster::lemma_push_contains(back@.subrange(0, t as int), back@[t as int], node.id);
                        assert(back@.subrange(0, t + 1) =~= back@.subrange(0, t as int).push(back@[t as int]));
                    }
                    if back[t] == node.id {
                        found = true;
                    }
                    t += 1;
                }
                assert(back@.subrange(0, back@.len() as int) =~= back@);
                if !found {
                    directional.push(link);
                }
            }
            k += 1;
        }
        assert(graph@[a as int].id == a);
        map.insert(a, directional);
        a += 1;
    }
    map
}

/// Whether `from_node` has a link to `to_node` that is not returned.
pub fn has_directed_link(directional: &HashMap<usize, Vec<usize>>, from_node: usize, to_node: usize) -> (r: bool)
    ensures
        r == (directional@.contains_key(from_node) && directional@[from_node]@.contains(to_node)),
{
    match directional.get(&from_node) {
        Some(links) => {
            let mut k: usize = 0;
            while k < links.len()
                invariant
                    directional@.contains_key(from_node),
                    links@ == directional@[from_node]@,
                    k <= links@.len(),
                    forall|j: int| 0 <= j < k ==> links@[j] != to_node,
                decreases links@.len() - k,
            {
                if links[k] == to_node {
                    assert(links@[k as int] == to_node);
                    return true;
                }
                k += 1;
            }
            false
        },
        None => false,
    }
}

/// The copies of `a` that node `b` gains from the first `k` links of node `a`: one per
/// link to `b`, unless `b` already linked to `a`.
pub open spec fn returns_prefix(g: Seq<LinkNode>, a: int, b: int, k: int) -> Seq<usize>
    decreases k,
{
    if k <= 0 {
        Seq::empty()
    } else {
        let p = returns_prefix(g, a, b, k - 1);
        if g[a].links@[k - 1] == b && !g[b].links@.contains(a as usize) {
            p.push(a as usize)
        } else {
            p
        }
    }
}

/// What node `b` gains from the nodes below `a`, node by node.
pub open spec fn returns_from(g: Seq<LinkNode>, b: int, a: int) -> Seq<usize>
    decreases a,
{
    if a <= 0 {
        Seq::empty()
    } else {
        returns_from(g, b, a - 1) + returns_prefix(g, a - 1, b, g[a - 1].links@.len() as int)
    }
}

/// Makes every link two-way: a node gains a link back to each node linking to it that
/// it did not link to already (judged on the links as they were before the call).
pub fn bidiretional(graph: &mut Vec<LinkNode>)
    requires
        graph_wf(old(graph)@),
    ensures
        final(graph)@.len() == old(graph)@.len(),
        graph_wf(final(graph)@),
        forall|b: int| 0 <= b < old(graph)@.len() ==> (#[trigger] final(graph)@[b]).links@ == old(graph)@[b].links@
            + returns_from(old(graph)@, b, old(graph)@.len() as int),
        forall|a: int, b: int|
            0 <= a < final(graph)@.len() && 0 <= b < final(graph)@.len() && #[trigger] final(graph)@[a].links@.contains(b as usize)
                ==> #[trigger] final(graph)@[b].links@.contains(a as usize),
        forall|b: int| 0 <= b < old(graph)@.len() ==> (#[trigger] final(graph)@[b]).id == old(graph)@[b].id
            && final(graph)@[b].title == old(graph)@[b].title && final(graph)@[b].cluster_id == old(graph)@[b].cluster_id
            && final(graph)@[b].internal == old(graph)@[b].internal,
{
    let ghost g0 = graph@;
    let n = graph.len();
    let mut orig: Vec<Vec<usize>> = Vec::new();
    let mut i: usize = 0;
    while i < n
        invariant
            n == g0.len(),
            graph@ == g0,
            i <= n,
            orig@.len() == i,
            forall|j: int| 0 <= j < i ==> (#[trigger] orig@[j])@ == g0[j].links@,
        decreases n - i,
    {
        orig.push(graph[i].links.clone());
        i += 1;
    }
    let mut a: usize = 0;
    while a < n
        invariant
            n == g0.len(),
            graph_wf(g0),
            graph@.len() == n,
            orig@.len() == n,
            forall|j: int| 0 <= j < n ==> (#[trigger] orig@[j])@ == g0[j].links@,
            a <= n,
            forall|b: int| 0 <= b < n ==> (#[trigger] graph@[b]).links@ == g0[b].links@ + returns_from(g0, b, a as int),
            forall|b: int| 0 <= b < n ==> (#[trigger] graph@[b]).id == g0[b].id && graph@[b].title == g0[b].title
                && graph@[b].cluster_id == g0[b].cluster_id && graph@[b].internal == g0[b].internal,
        decreases n - a,
    {
        let out_links = &orig[a];
        let len_a = out_links.len();
        let mut k: usize = 0;
        while k < len_a
            invariant
                n == g0.len(),
                graph_wf(g0),
                graph@.len() == n,
                orig@.len() == n,
                forall|j: int| 0 <= j < n ==> (#[trigger] orig@[j])@ == g0[j].links@,
                a < n,
                out_links@ == g0[a as int].links@,
                len_a == out_links@.len(),
                k <= len_a,
                forall|b: int| 0 <= b < n ==> (#[trigger] graph@[b]).links@ == g0[b].links@ + returns_from(g0, b, a as int) + returns_prefix(g0, a as int, b, k as int),
                forall|b: int| 0 <= b < n ==> (#[trigger] graph@[b]).id == g0[b].id && graph@[b].title == g0[b].title
                    && graph@[b].cluster_id == g0[b].cluster_id && graph@[b].internal == g0[b].internal,
            decreases len_a - k,
        {
            let link = out_links[k];
            assert(g0[a as int].links@[k as int] < n);
            let back = &orig[link];
            let mut found = false;
            let mut t: usize = 0;
            while t < back.len()
                invariant
                    t <= back@.len(),
                    found <==> back@.subrange(0, t as int).contains(a),
                decreases back@.len() - t,
            {
                proof {
                    crate::cluster::lemma_push_contains(back@.subrange(0, t as int), back@[t as int], a);
                    assert(back@.subrange(0, t + 1) =~= back@.subrange(0, t as int).push(back@[t as int]));
                }
                if back[t] == a {
                    found = true;
                }
                t += 1;
            }
            assert(back@.subrange(0, back@.len() as int) =~= back@);
            let ghost before = graph@;
            if !found {
                graph[link].links.push(a);
            }
            proof {
                assert forall|b: int| 0 <= b < n implies (#[trigger] graph@[b]).links@ == g0[b].links@ + returns_from(g0, b, a as int) + returns_prefix(g0, a as int, b, k + 1) by {
                    assert(returns_prefix(g0, a as int, b, k + 1) == if g0[a as int].links@[k as int] == b && !g0[b].links@.contains(a) {
                        returns_prefix(g0, a as int, b, k as int).push(a)
                    } else {
                        returns_prefix(g0, a as int, b, k as int)
                    });
                    if b == link && !found {
                        assert(graph@[b].links@ =~= before[b].links@.push(a));
                        assert(g0[b].links@ + returns_from(g0, b, a as int) + returns_prefix(g0, a as int, b, k as int).push(a) =~= (g0[b].links@ + returns_from(g0, b, a as int) + returns_prefix(g0, a as int, b, k as int)).push(a));
                    } else {
                        assert(graph@[b] == before[b]);
                    }
                }
            }
            k += 1;
        }
        proof {
            assert forall|b: int| 0 <= b < n implies (#[trigger] graph@[b]).links@ == g0[b].links@ + returns_from(g0, b, a + 1) by {
                assert(returns_from(g0, b, a + 1) == returns_from(g0, b, a as int) + returns_prefix(g0, a as int, b, len_a as int));
                assert(g0[b].links@ + returns_from(g0, b, a as int) + returns_prefix(g0, a as int, b, len_a as int) =~= g0[b].links@ + (returns_from(g0, b, a as int) + returns_prefix(g0, a as int, b, len_a as int)));
            }
        }
        a += 1;
    }
    proof {
        lemma_bidirectional_symmetric(g0, graph@);
        assert forall|i: int, k: int| 0 <= i < n && 0 <= k < graph@[i].links@.len() implies #[trigger] graph@[i].links@[k] < n by {
            lemma_returns_from_bound(g0, i, n as int);
            let s = graph@[i].links@;
            if k >= g0[i].links@.len() {
                assert(s[k] == returns_from(g0, i, n as int)[k - g0[i].links@.len()]);
            } else {
                assert(s[k] == g0[i].links@[k]);
            }
        }
    }
}

proof fn lemma_returns_from_bound(g: Seq<LinkNode>, b: int, a: int)
    requires
        graph_wf(g),
        g.len() <= usize::MAX,
        0 <= b < g.len(),
        0 <= a <= g.len(),
    ensures
        forall|k: int| 0 <= k < returns_from(g, b, a).len() ==> #[trigger] returns_from(g, b, a)[k] < g.len(),
    decreases a,
{
    if a > 0 {
        lemma_returns_from_bound(g, b, a - 1);
        lemma_returns_prefix_bound(g, a - 1, b, g[a - 1].links@.len() as int);
        let p = returns_from(g, b, a - 1);
        let q = returns_prefix(g, a - 1, b, g[a - 1].links@.len() as int);
        assert forall|k: int| 0 <= k < (p + q).len() implies #[trigger] (p + q)[k] < g.len() by {
            if k < p.len() {
                assert((p + q)[k] == p[k]);
            } else {
                assert((p + q)[k] == q[k - p.len()]);
            }
        }
    }
}

proof fn lemma_returns_prefix_bound(g: Seq<LinkNode>, a: int, b: int, k: int)
    requires
        0 <= a < g.len(),
        g.len() <= usize::MAX,
    ensures
        forall|j: int| 0 <= j < returns_prefix(g, a, b, k).len() ==> #[trigger] returns_prefix(g, a, b, k)[j] == a,
    decreases k,
{
    if k > 0 {
        lemma_returns_prefix_bound(g, a, b, k - 1);
        let p = returns_prefix(g, a, b, k - 1);
        assert forall|j: int| 0 <= j < returns_prefix(g, a, b, k).len() implies #[trigger] returns_prefix(g, a, b, k)[j] == a by {
            if g[a].links@[k - 1] == b && !g[b].links@.contains(a as usize) {
                assert(returns_prefix(g, a, b, k) == p.push(a as usize));
                if j < p.len() {
                    assert(p.push(a as usize)[j] == p[j]);
                }
            }
        }
    }
}

proof fn lemma_returns_prefix_members(g: Seq<LinkNode>, a: int, b: int, k: int, x: usize)
    requires
        0 <= a < g.len(),
        0 <= b < g.len(),
        g.len() <= usize::MAX,
        0 <= k <= g[a].links@.len(),
    ensures
        returns_prefix(g, a, b, k).contains(x) <==> (x == a && g[a].links@.subrange(0, k).contains(b as usize)
            && !g[b].links@.contains(a as usize)),
    decreases k,
{
    if k > 0 {
        lemma_returns_prefix_members(g, a, b, k - 1, x);
        let p = returns_prefix(g, a, b, k - 1);
        let s = g[a].links@.subrange(0, k);
        assert(s =~= g[a].links@.subrange(0, k - 1).push(g[a].links@[k - 1]));
        crate::cluster::lemma_push_contains(g[a].links@.subrange(0, k - 1), g[a].links@[k - 1], b as usize);
        crate::cluster::lemma_push_contains(p, a as usize, x);
    } else {
        assert(g[a].links@.subrange(0, 0).len() == 0);
    }
}

proof fn lemma_returns_from_members(g: Seq<LinkNode>, b: int, a: int, x: usize)
    requires
        graph_wf(g),
        g.len() <= usize::MAX,
        0 <= b < g.len(),
        0 <= a <= g.len(),
    ensures
        returns_from(g, b, a).contains(x) <==> (x < a && g[x as int].links@.contains(b as usize)
            && !g[b].links@.contains(x)),
    decreases a,
{
    if a > 0 {
        lemma_returns_from_members(g, b, a - 1, x);
        let len = g[a - 1].links@.len() as int;
        lemma_returns_prefix_members(g, a - 1, b, len, x);
        assert(g[a - 1].links@.subrange(0, len) =~= g[a - 1].links@);
        crate::grid::lemma_concat_contains(returns_from(g, b, a - 1), returns_prefix(g, a - 1, b, len), x);
    }
}

/// After `bidiretional` every link is two-way: where `a` links to `b`, `b` links to `a`.
pub proof fn lemma_bidirectional_symmetric(old_g: Seq<LinkNode>, new_g: Seq<LinkNode>)
    requires
        graph_wf(old_g),
        old_g.len() <= usize::MAX,
        new_g.len() == old_g.len(),
        forall|b: int| 0 <= b < old_g.len() ==> (#[trigger] new_g[b]).links@ == old_g[b].links@
            + returns_from(old_g, b, old_g.len() as int),
    ensures
        forall|a: int, b: int|
            0 <= a < new_g.len() && 0 <= b < new_g.len() && #[trigger] new_g[a].links@.contains(b as usize)
                ==> #[trigger] new_g[b].links@.contains(a as usize),
{
    let n = old_g.len() as int;
    assert forall|a: int, b: int|
        0 <= a < new_g.len() && 0 <= b < new_g.len() && #[trigger] new_g[a].links@.contains(b as usize)
            implies #[trigger] new_g[b].links@.contains(a as usize) by {
        let ra = returns_from(old_g, a, n);
        let rb = returns_from(old_g, b, n);
        crate::grid::lemma_concat_contains(old_g[a].links@, ra, b as usize);
        crate::grid::lemma_concat_contains(old_g[b].links@, rb, a as usize);
        lemma_returns_from_members(old_g, a, n, b as usize);
        lemma_returns_from_members(old_g, b, n, a as usize);
    }
}

/// The link lists of the nodes.
pub open spec fn links_of(g: Seq<LinkNode>) -> Seq<Seq<usize>> {
    g.map_values(|n: LinkNode| n.links@)
}

/// `s` after node `i` returns the first `k` of the links `ls`, one at a time: the
/// target gains a link to `i` unless it has one already.
pub open spec fn return_links(s: Seq<Seq<usize>>, i: int, ls: Seq<usize>, k: int) -> Seq<Seq<usize>>
    decreases k,
{
    if k <= 0 {
        s
    } else {
        let t = return_links(s, i, ls, k - 1);
        let l = ls[k - 1] as int;
        if t[l].contains(i as usize) {
            t
        } else {
            t.update(l, t[l].push(i as usize))
        }
    }
}

/// `s` after the nodes below `i`, in order, returned their links as they stood when
/// each node's turn came.
pub open spec fn returned_upto(s: Seq<Seq<usize>>, i: int) -> Seq<Seq<usize>>
    decreases i,
{
    if i <= 0 {
        s
    } else {
        let t = returned_upto(s, i - 1);
        return_links(t, i - 1, t[i - 1], t[i - 1].len() as int)
    }
}

/// Every entry is a node index.
pub open spec fn lists_in_range(s: Seq<Seq<usize>>) -> bool {
    forall|a: int, k: int| 0 <= a < s.len() && 0 <= k < s[a].len() ==> #[trigger] s[a][k] < s.len()
}

proof fn lemma_return_links_shape(s: Seq<Seq<usize>>, i: int, ls: Seq<usize>, k: int)
    requires
        lists_in_range(s),
        0 <= i < s.len(),
        s.len() <= usize::MAX,
        0 <= k <= ls.len(),
        forall|j: int| 0 <= j < ls.len() ==> #[trigger] ls[j] < s.len(),
    ensures
        return_links(s, i, ls, k).len() == s.len(),
        lists_in_range(return_links(s, i, ls, k)),
    decreases k,
{
    if k > 0 {
        lemma_return_links_shape(s, i, ls, k - 1);
        let t = return_links(s, i, ls, k - 1);
        let l = ls[k - 1] as int;
        if !t[l].contains(i as usize) {
            let u = t.update(l, t[l].push(i as usize));
            assert forall|a: int, m: int| 0 <= a < u.len() && 0 <= m < u[a].len() implies #[trigger] u[a][m] < u.len() by {
                if a == l && m == t[l].len() {
                } else if a == l {
                    assert(u[a][m] == t[l][m]);
                }
            }
        }
    }
}

proof fn lemma_returned_shape(s: Seq<Seq<usize>>, i: int)
    requires
        lists_in_range(s),
        0 <= i <= s.len(),
        s.len() <= usize::MAX,
    ensures
        returned_upto(s, i).len() == s.len(),
        lists_in_range(returned_upto(s, i)),
    decreases i,
{
    if i > 0 {
        lemma_returned_shape(s, i - 1);
        let t = returned_upto(s, i - 1);
        lemma_return_links_shape(t, i - 1, t[i - 1], t[i - 1].len() as int);
    }
}

/// Every list of `s` starts with the list of `s0`, and every entry after that was not
/// in the list when it was added: nothing is added twice.
pub open spec fn added_fresh(s0: Seq<Seq<usize>>, s: Seq<Seq<usize>>) -> bool {
    &&& s.len() == s0.len()
    &&& forall|b: int| 0 <= b < s.len() ==> s[b].len() >= s0[b].len() && (#[trigger] s[b]).subrange(0, s0[b].len() as int) == s0[b]
    &&& forall|b: int, j: int| 0 <= b < s.len() && s0[b].len() <= j < s[b].len() ==> !(#[trigger] s[b].subrange(0, j)).contains(s[b][j])
}

/// Every link is returned.
pub open spec fn two_way(s: Seq<Seq<usize>>) -> bool {
    forall|a: int, b: int| 0 <= a < s.len() && 0 <= b < s.len() && #[trigger] s[a].contains(b as usize) ==> #[trigger] s[b].contains(a as usize)
}

proof fn lemma_push_fresh(s0: Seq<Seq<usize>>, s: Seq<Seq<usize>>, l: int, x: usize)
    requires
        added_fresh(s0, s),
        0 <= l < s.len(),
        !s[l].contains(x),
    ensures
        added_fresh(s0, s.update(l, s[l].push(x))),
{
    let u = s.update(l, s[l].push(x));
    assert forall|b: int| 0 <= b < u.len() implies u[b].len() >= s0[b].len() && (#[trigger] u[b]).subrange(0, s0[b].len() as int) == s0[b] by {
        if b == l {
            assert(u[b].subrange(0, s0[b].len() as int) =~= s[b].subrange(0, s0[b].len() as int));
        }
    }
    assert forall|b: int, j: int| 0 <= b < u.len() && s0[b].len() <= j < u[b].len() implies !(#[trigger] u[b].subrange(0, j)).contains(u[b][j]) by {
        if b == l {
            if j == s[l].len() {
                assert(u[b].subrange(0, j) =~= s[l]);
            } else {
                assert(u[b].subrange(0, j) =~= s[l].subrange(0, j));
                assert(u[b][j] == s[l][j]);
            }
        }
    }
}

/// Makes links two-way node by node: each node, in order, has every target of its
/// current links gain a link back, unless the target has one already.
pub fn ensure_bidirectional_links(nodes: &mut Vec<LinkNode>)
    requires
        graph_wf(old(nodes)@),
    ensures
        final(nodes)@.len() == old(nodes)@.len(),
        links_of(final(nodes)@) == returned_upto(links_of(old(nodes)@), old(nodes)@.len() as int),
        two_way(links_of(final(nodes)@)),
        added_fresh(links_of(old(nodes)@), links_of(final(nodes)@)),
        graph_wf(final(nodes)@),
        forall|b: int| 0 <= b < old(nodes)@.len() ==> (#[trigger] final(nodes)@[b]).id == old(nodes)@[b].id
            && final(nodes)@[b].title == old(nodes)@[b].title && final(nodes)@[b].cluster_id == old(nodes)@[b].cluster_id
            && final(nodes)@[b].internal == old(nodes)@[b].internal,
{
    let ghost g0 = nodes@;
    let ghost s0 = links_of(g0);
    let n = nodes.len();
    proof {
        assert(lists_in_range(s0)) by {
            assert forall|a: int, k: int| 0 <= a < s0.len() && 0 <= k < s0[a].len() implies #[trigger] s0[a][k] < s0.len() by {
                assert(s0[a] == g0[a].links@);
            }
        }
    }
    proof {
        assert forall|b: int| 0 <= b < s0.len() implies s0[b].len() >= s0[b].len() && (#[trigger] s0[b]).subrange(0, s0[b].len() as int) == s0[b] by {
            assert(s0[b].subrange(0, s0[b].len() as int) =~= s0[b]);
        }
    }
    let mut i: usize = 0;
    while i < n
        invariant
            n == g0.len(),
            s0 == links_of(g0),
            lists_in_range(s0),
            nodes@.len() == n,
            i <= n,
            links_of(nodes@) == returned_upto(s0, i as int),
            added_fresh(s0, links_of(nodes@)),
            forall|a: int, b: int| 0 <= a < n && 0 <= b < n && #[trigger] links_of(nodes@)[a].contains(b as usize)
                && !links_of(nodes@)[b].contains(a as usize) ==> a >= i,
            forall|b: int| 0 <= b < n ==> (#[trigger] nodes@[b]).id == g0[b].id && nodes@[b].title == g0[b].title
                && nodes@[b].cluster_id == g0[b].cluster_id && nodes@[b].internal == g0[b].internal,
        decreases n - i,
    {
        proof {
            lemma_returned_shape(s0, i as int);
        }
        let ghost t = links_of(nodes@);
        let links = nodes[i].links.clone();
        assert(links@ =~= t[i as int]);
        assert(links@.subrange(0, links@.len() as int) =~= links@);
        let mut k: usize = 0;
        while k < links.len()
            invariant
                n == g0.len(),
                nodes@.len() == n,
                i < n,
                lists_in_range(t),
                t.len() == n,
                links@ == t[i as int],
                k <= links@.len(),
                links_of(nodes@) == return_links(t, i as int, links@, k as int),
                added_fresh(s0, links_of(nodes@)),
                s0.len() == n,
                links_of(nodes@)[i as int] == links@,
                forall|a: int, b: int| 0 <= a < n && 0 <= b < n && #[trigger] links_of(nodes@)[a].contains(b as usize)
                    && !links_of(nodes@)[b].contains(a as usize) ==> a > i || (a == i && links@.subrange(k as int, links@.len() as int).contains(b as usize)),
                forall|b: int| 0 <= b < n ==> (#[trigger] nodes@[b]).id == g0[b].id && nodes@[b].title == g0[b].title
                    && nodes@[b].cluster_id == g0[b].cluster_id && nodes@[b].internal == g0[b].internal,
            decreases links@.len() - k,
        {
            let linked_id = links[k];
            assert(links@[k as int] < n);
            proof {
                lemma_return_links_shape(t, i as int, links@, k as int);
            }
            let ghost before = nodes@;
            let back = &nodes[linked_id].links;
            let mut found = false;
            let mut m: usize = 0;
            while m < back.len()
                invariant
                    m <= back@.len(),
                    found <==> back@.subrange(0, m as int).contains(i),
                decreases back@.len() - m,
            {
                proof {
                    crate::cluster::lemma_push_contains(back@.subrange(0, m as int), back@[m as int], i);
                    assert(back@.subrange(0, m + 1) =~= back@.subrange(0, m as int).push(back@[m as int]));
                }
                if back[m] == i {
                    found = true;
                }
                m += 1;
            }
            assert(back@.subrange(0, back@.len() as int) =~= back@);
            assert(links_of(before)[linked_id as int] == back@);
            if !found {
                nodes[linked_id].links.push(i);
            }
            proof {
                let cur = links_of(before);
                let nxt = links_of(nodes@);
                let l = linked_id as int;
                assert(links@.contains(linked_id));
                if !found {
                    assert(nxt =~= cur.update(l, cur[l].push(i)));
                    lemma_push_fresh(s0, cur, l, i);
                }
                assert(l != i || found);
                assert(nxt[i as int] == links@);
                assert forall|a: int, b: int| 0 <= a < n && 0 <= b < n && #[trigger] nxt[a].contains(b as usize)
                    && !nxt[b].contains(a as usize) implies a > i || (a == i && links@.subrange(k + 1, links@.len() as int).contains(b as usize)) by {
                    if !found && a == l {
                        crate::cluster::lemma_push_contains(cur[l], i, b as usize);
                    }
                    if !found && b == l {
                        crate::cluster::lemma_push_contains(cur[l], i, a as usize);
                    }
                    assert(cur[a].contains(b as usize));
                    assert(!cur[b].contains(a as usize));
                    if a == i {
                        let rest = links@.subrange(k as int, links@.len() as int);
                        assert(rest =~= seq![linked_id] + links@.subrange(k + 1, links@.len() as int));
                        crate::grid::lemma_concat_contains(seq![linked_id], links@.subrange(k + 1, links@.len() as int), b as usize);
                        if b == l {
                            assert(nxt[b].contains(a as usize));
                        }
                    }
                }
                assert(links_of(nodes@) =~= return_links(t, i as int, links@, k + 1)) by {
                    assert forall|b: int| 0 <= b < n implies #[trigger] links_of(nodes@)[b] == return_links(t, i as int, links@, k + 1)[b] by {
                        if b != linked_id || found {
                            assert(nodes@[b] == before[b]);
                        }
                    }
                }
            }
            k += 1;
        }
        i += 1;
    }
    proof {
        lemma_returned_shape(s0, n as int);
        let s = links_of(nodes@);
        assert forall|a: int, k: int| 0 <= a < n && 0 <= k < nodes@[a].links@.len() implies #[trigger] nodes@[a].links@[k] < n by {
            assert(s[a] == nodes@[a].links@);
        }
    }
}

/// The nodes among the first `k` that link to `ni` while `ni` does not link to them.
pub open spec fn missing_returns(s: Seq<Seq<usize>>, ni: int, k: int) -> Seq<usize>
    decreases k,
{
    if k <= 0 {
        Seq::empty()
    } else {
        let p = missing_returns(s, ni, k - 1);
        let o = k - 1;
        if o != ni && s[o].contains(ni as usize) && !s[ni].contains(o as usize) {
            p.push(o as usize)
        } else {
            p
        }
    }
}

/// `s` after the nodes below `ni`, in order, each took a link back to every node that
/// linked to it without one.
pub open spec fn gathered_upto(s: Seq<Seq<usize>>, ni: int) -> Seq<Seq<usize>>
    decreases ni,
{
    if ni <= 0 {
        s
    } else {
        let t = gathered_upto(s, ni - 1);
        t.update(ni - 1, t[ni - 1] + missing_returns(t, ni - 1, t.len() as int))
    }
}

proof fn lemma_gathered_len(s: Seq<Seq<usize>>, ni: int)
    requires
        0 <= ni <= s.len(),
    ensures
        gathered_upto(s, ni).len() == s.len(),
    decreases ni,
{
    if ni > 0 {
        lemma_gathered_len(s, ni - 1);
    }
}

proof fn lemma_missing_returns(s: Seq<Seq<usize>>, ni: int, k: int)
    requires
        0 <= ni < s.len(),
        0 <= k <= s.len(),
        s.len() <= usize::MAX,
    ensures
        forall|j: int| 0 <= j < missing_returns(s, ni, k).len() ==> #[trigger] missing_returns(s, ni, k)[j] < k,
        forall|j1: int, j2: int| 0 <= j1 < j2 < missing_returns(s, ni, k).len() ==> #[trigger] missing_returns(s, ni, k)[j1]
            < #[trigger] missing_returns(s, ni, k)[j2],
        forall|o: usize| #[trigger] missing_returns(s, ni, k).contains(o) <==> (o < k && o != ni && s[o as int].contains(ni as usize)
            && !s[ni].contains(o)),
    decreases k,
{
    if k > 0 {
        lemma_missing_returns(s, ni, k - 1);
        let p = missing_returns(s, ni, k - 1);
        let o = k - 1;
        if o != ni && s[o].contains(ni as usize) && !s[ni].contains(o as usize) {
            let q = p.push(o as usize);
            assert forall|j: int| 0 <= j < q.len() implies #[trigger] q[j] < k by {
                if j < p.len() {
                    assert(q[j] == p[j]);
                }
            }
            assert forall|j1: int, j2: int| 0 <= j1 < j2 < q.len() implies #[trigger] q[j1] < #[trigger] q[j2] by {
                assert(q[j1] == p[j1]);
                if j2 < p.len() {
                    assert(q[j2] == p[j2]);
                }
            }
            assert forall|x: usize| #[trigger] q.contains(x) <==> (x < k && x != ni && s[x as int].contains(ni as usize)
                && !s[ni].contains(x)) by {
                crate::cluster::lemma_push_contains(p, o as usize, x);
            }
        }
    }
}

/// Links whose target is below `ni` are returned.
pub open spec fn returned_below(s: Seq<Seq<usize>>, ni: int) -> bool {
    forall|a: int, b: int| 0 <= a < s.len() && 0 <= b < s.len() && #[trigger] s[a].contains(b as usize)
        && !s[b].contains(a as usize) ==> b >= ni
}

proof fn lemma_gather_step(s0: Seq<Seq<usize>>, t: Seq<Seq<usize>>, ni: int)
    requires
        added_fresh(s0, t),
        returned_below(t, ni),
        0 <= ni < t.len(),
        t.len() <= usize::MAX,
    ensures
        added_fresh(s0, t.update(ni, t[ni] + missing_returns(t, ni, t.len() as int))),
        returned_below(t.update(ni, t[ni] + missing_returns(t, ni, t.len() as int)), ni + 1),
{
    let n = t.len() as int;
    let mr = missing_returns(t, ni, n);
    let u = t.update(ni, t[ni] + mr);
    lemma_missing_returns(t, ni, n);
    assert forall|x: usize| #[trigger] u[ni].contains(x) <==> (t[ni].contains(x) || mr.contains(x)) by {
        crate::grid::lemma_concat_contains(t[ni], mr, x);
    }
    assert forall|b: int| 0 <= b < u.len() implies u[b].len() >= s0[b].len() && (#[trigger] u[b]).subrange(0, s0[b].len() as int) == s0[b] by {
        if b == ni {
            assert(u[b].subrange(0, s0[b].len() as int) =~= t[b].subrange(0, s0[b].len() as int));
        }
    }
    assert forall|b: int, j: int| 0 <= b < u.len() && s0[b].len() <= j < u[b].len() implies !(#[trigger] u[b].subrange(0, j)).contains(u[b][j]) by {
        if b == ni {
            let tl = t[ni].len() as int;
            if j < tl {
                assert(u[b].subrange(0, j) =~= t[b].subrange(0, j));
                assert(u[b][j] == t[b][j]);
            } else {
                let x = mr[j - tl];
                assert(u[b][j] == x);
                assert(mr.contains(x));
                assert(u[b].subrange(0, j) =~= t[ni] + mr.subrange(0, j - tl));
                crate::grid::lemma_concat_contains(t[ni], mr.subrange(0, j - tl), x);
                let pre = mr.subrange(0, j - tl);
                if pre.contains(x) {
                    let q = choose|q: int| 0 <= q < pre.len() && #[trigger] pre[q] == x;
                    assert(pre[q] == mr[q]);
                    assert(mr[q] < mr[j - tl]);
                }
            }
        }
    }
    assert forall|a: int, b: int| 0 <= a < u.len() && 0 <= b < u.len() && #[trigger] u[a].contains(b as usize)
        && !u[b].contains(a as usize) implies b >= ni + 1 by {
        if b == ni {
            if a != ni {
                assert(t[a].contains(ni as usize));
                if !t[ni].contains(a as usize) {
                    assert(mr.contains(a as usize));
                }
            }
        } else if a == ni {
            if mr.contains(b as usize) {
                assert(t[b].contains(ni as usize));
            } else {
                assert(t[a].contains(b as usize));
                assert(!t[b].contains(a as usize));
            }
        } else {
            assert(t[a].contains(b as usize));
        }
    }
}

/// Gives every node, in order, a link back to each node that links to it and that it
/// does not link to; the new links of a node come in the order of the nodes.
pub fn getnodes(graph: &mut Vec<LinkNode>)
    requires
        ids_match(old(graph)@),
    ensures
        final(graph)@.len() == old(graph)@.len(),
        links_of(final(graph)@) == gathered_upto(links_of(old(graph)@), old(graph)@.len() as int),
        two_way(links_of(final(graph)@)),
        added_fresh(links_of(old(graph)@), links_of(final(graph)@)),
        forall|b: int| 0 <= b < old(graph)@.len() ==> (#[trigger] final(graph)@[b]).id == old(graph)@[b].id
            && final(graph)@[b].title == old(graph)@[b].title && final(graph)@[b].cluster_id == old(graph)@[b].cluster_id
            && final(graph)@[b].internal == old(graph)@[b].internal,
{
    let ghost g0 = graph@;
    let ghost s0 = links_of(g0);
    let n = graph.len();
    proof {
        assert forall|b: int| 0 <= b < s0.len() implies s0[b].len() >= s0[b].len() && (#[trigger] s0[b]).subrange(0, s0[b].len() as int) == s0[b] by {
            assert(s0[b].subrange(0, s0[b].len() as int) =~= s0[b]);
        }
    }
    let mut ni: usize = 0;
    while ni < n
        invariant
            n == g0.len(),
            s0 == links_of(g0),
            ids_match(g0),
            graph@.len() == n,
            ni <= n,
            links_of(graph@) == gathered_upto(s0, ni as int),
            added_fresh(s0, links_of(graph@)),
            returned_below(links_of(graph@), ni as int),
            forall|b: int| 0 <= b < n ==> (#[trigger] graph@[b]).id == g0[b].id && graph@[b].title == g0[b].title
                && graph@[b].cluster_id == g0[b].cluster_id && graph@[b].internal == g0[b].internal,
        decreases n - ni,
    {
        proof {
            lemma_gathered_len(s0, ni as int);
        }
        let ghost t = links_of(graph@);
        let node_id = graph[ni].id;
        assert(node_id == ni);
        let mut new_links: Vec<usize> = Vec::new();
        let mut other: usize = 0;
        while other < n
            invariant
                n == g0.len(),
                graph@.len() == n,
                t == links_of(graph@),
                t.len() == n,
                ni < n,
                node_id == ni,
                forall|b: int| 0 <= b < n ==> (#[trigger] graph@[b]).id == g0[b].id,
                ids_match(g0),
                other <= n,
                new_links@ == missing_returns(t, ni as int, other as int),
            decreases n - other,
        {
            if other != ni {
                let other_links = &graph[other].links;
                let own = &graph[ni].links;
                assert(other_links@ == t[other as int]);
                assert(own@ == t[ni as int]);
                let mut linked = false;
                let mut m: usize = 0;
                while m < other_links.len()
                    invariant
                        m <= other_links@.len(),
                        linked <==> other_links@.subrange(0, m as int).contains(node_id),
                    decreases other_links@.len() - m,
                {
                    proof {
                        crate::cluster::lemma_push_contains(other_links@.subrange(0, m as int), other_links@[m as int], node_id);
                        assert(other_links@.subrange(0, m + 1) =~= other_links@.subrange(0, m as int).push(other_links@[m as int]));
                    }
                    if other_links[m] == node_id {
                        linked = true;
                    }
                    m += 1;
                }
                assert(other_links@.subrange(0, other_links@.len() as int) =~= other_links@);
                let other_id = graph[other].id;
                assert(other_id == other);
                let mut back = false;
                let mut m2: usize = 0;
                while m2 < own.len()
                    invariant
                        m2 <= own@.len(),
                        back <==> own@.subrange(0, m2 as int).contains(other_id),
                    decreases own@.len() - m2,
                {
                    proof {
                        crate::cluster::lemma_push_contains(own@.subrange(0, m2 as int), own@[m2 as int], other_id);
                        assert(own@.subrange(0, m2 + 1) =~= own@.subrange(0, m2 as int).push(own@[m2 as int]));
                    }
                    if own[m2] == other_id {
                        back = true;
                    }
                    m2 += 1;
                }
                assert(own@.subrange(0, own@.len() as int) =~= own@);
                if linked && !back {
                    new_links.push(other_id);
                }
            }
            other += 1;
        }
        let ghost before = graph@;
        let mut k: usize = 0;
        while k < new_links.len()
            invariant
                graph@.len() == n,
                ni < n,
                k <= new_links@.len(),
                graph@[ni as int].links@ == before[ni as int].links@ + new_links@.subrange(0, k as int),
                forall|b: int| 0 <= b < n && b != ni ==> #[trigger] graph@[b] == before[b],
                graph@[ni as int].id == before[ni as int].id && graph@[ni as int].title == before[ni as int].title
                    && graph@[ni as int].cluster_id == before[ni as int].cluster_id && graph@[ni as int].internal == before[ni as int].internal,
            decreases new_links@.len() - k,
        {
            graph[ni].links.push(new_links[k]);
            k += 1;
            assert(before[ni as int].links@ + new_links@.subrange(0, k as int) =~= (before[ni as int].links@ + new_links@.subrange(0, k - 1)).push(new_links@[k - 1]));
        }
        proof {
            assert(new_links@.subrange(0, new_links@.len() as int) =~= new_links@);
            assert(links_of(graph@) =~= t.update(ni as int, t[ni as int] + missing_returns(t, ni as int, n as int)));
            lemma_gather_step(s0, t, ni as int);
        }
        ni += 1;
    }
}

} // verus!
