//! Connected-component labelling over the undirected closure of the links.
use vstd::prelude::*;
use crate::graph::{LinkNode, graph_wf, links_in_range};

verus! {

/// `a` and `b` are joined by a link in either direction.
pub open spec fn edge(g: Seq<LinkNode>, a: int, b: int) -> bool {
    g[a].links@.contains(b as usize) || g[b].links@.contains(a as usize)
}

/// `a` takes part in no link, in either direction.
pub open spec fn isolated(g: Seq<LinkNode>, a: int) -> bool {
    forall|b: int| 0 <= b < g.len() ==> !#[trigger] edge(g, a, b)
}

/// `p` is a walk along links, taken in either direction.
pub open spec fn is_walk(g: Seq<LinkNode>, p: Seq<int>) -> bool {
    &&& p.len() >= 1
    &&& forall|k: int| 0 <= k < p.len() ==> 0 <= #[trigger] p[k] < g.len()
    &&& forall|k: int| 0 <= k < p.len() - 1 ==> #[trigger] edge(g, p[k], p[k + 1])
}

/// A walk leads from `a` to `b`.
pub open spec fn connected(g: Seq<LinkNode>, a: int, b: int) -> bool {
    exists|p: Seq<int>| #[trigger] is_walk(g, p) && p[0] == a && p.last() == b
}

/// `l` gives every node that takes part in a link the identifier of its component,
/// and no identifier to the others.
pub open spec fn is_component_labeling(g: Seq<LinkNode>, l: Seq<Option<usize>>) -> bool {
    &&& l.len() == g.len()
    &&& forall|a: int| 0 <= a < g.len() ==> (#[trigger] l[a] is None <==> isolated(g, a))
    &&& forall|a: int, b: int|
        0 <= a < g.len() && 0 <= b < g.len() && #[trigger] l[a] is Some ==> (#[trigger] l[b]
            == l[a] <==> connected(g, a, b))
}

/// Every node is connected to itself.
pub proof fn lemma_walk_single(g: Seq<LinkNode>, a: int)
    requires
        0 <= a < g.len(),
    ensures
        connected(g, a, a),
{
    let p = seq![a];
    assert(is_walk(g, p));
}

/// A walk extends by one link.
pub proof fn lemma_connected_extend(g: Seq<LinkNode>, a: int, b: int, c: int)
    requires
        connected(g, a, b),
        0 <= c < g.len(),
        edge(g, b, c),
    ensures
        connected(g, a, c),
{
    let p = choose|p: Seq<int>| #[trigger] is_walk(g, p) && p[0] == a && p.last() == b;
    let q = p.push(c);
    assert forall|k: int| 0 <= k < q.len() - 1 implies #[trigger] edge(g, q[k], q[k + 1]) by {
        if k < p.len() - 1 {
            assert(q[k] == p[k] && q[k + 1] == p[k + 1]);
        }
    }
    assert(is_walk(g, q));
}

/// A walk can be taken backwards.
pub proof fn lemma_connected_symmetric(g: Seq<LinkNode>, a: int, b: int)
    requires
        connected(g, a, b),
    ensures
        connected(g, b, a),
{
    let p = choose|p: Seq<int>| #[trigger] is_walk(g, p) && p[0] == a && p.last() == b;
    let q = p.reverse();
    assert forall|k: int| 0 <= k < q.len() - 1 implies #[trigger] edge(g, q[k], q[k + 1]) by {
        let j = p.len() - 2 - k;
        assert(edge(g, p[j], p[j + 1]));
    }
    assert forall|k: int| 0 <= k < q.len() implies 0 <= #[trigger] q[k] < g.len() by {
        assert(q[k] == p[p.len() - 1 - k]);
    }
    assert(is_walk(g, q));
}

/// Two walks that meet join into one.
pub proof fn lemma_connected_trans(g: Seq<LinkNode>, a: int, b: int, c: int)
    requires
        connected(g, a, b),
        connected(g, b, c),
    ensures
        connected(g, a, c),
{
    let p = choose|p: Seq<int>| #[trigger] is_walk(g, p) && p[0] == a && p.last() == b;
    let q = choose|q: Seq<int>| #[trigger] is_walk(g, q) && q[0] == b && q.last() == c;
    let r = p + q.drop_first();
    assert forall|k: int| 0 <= k < r.len() implies 0 <= #[trigger] r[k] < g.len() by {
        if k >= p.len() {
            assert(r[k] == q[k - p.len() + 1]);
        }
    }
    assert forall|k: int| 0 <= k < r.len() - 1 implies #[trigger] edge(g, r[k], r[k + 1]) by {
        if k < p.len() - 1 {
            assert(r[k] == p[k] && r[k + 1] == p[k + 1]);
        } else if k == p.len() - 1 {
            assert(r[k] == q[0] && r[k + 1] == q[1]);
        } else {
            assert(r[k] == q[k - p.len() + 1] && r[k + 1] == q[k - p.len() + 2]);
        }
    }
    if q.len() == 1 {
        assert(r =~= p);
    }
    assert(is_walk(g, r));
}

/// Labels closed under links stay constant along any walk.
pub proof fn lemma_closed_labels_on_walk(
    g: Seq<LinkNode>,
    l: Seq<Option<usize>>,
    p: Seq<int>,
)
    requires
        l.len() == g.len(),
        is_walk(g, p),
        forall|v: int, w: int|
            0 <= v < g.len() && 0 <= w < g.len() && #[trigger] edge(g, v, w) ==> l[w] == l[v],
    ensures
        l[p.last()] == l[p[0]],
    decreases p.len(),
{
    if p.len() > 1 {
        let q = p.drop_last();
        assert(is_walk(g, q)) by {
            assert forall|k: int| 0 <= k < q.len() - 1 implies #[trigger] edge(g, q[k], q[k + 1]) by {
                assert(edge(g, p[k], p[k + 1]));
            }
        }
        lemma_closed_labels_on_walk(g, l, q);
        let k = p.len() - 2;
        assert(edge(g, p[k], p[k + 1]));
        assert(q.last() == p[k] && p.last() == p[k + 1]);
    }
}

} // verus!

verus! {

/// Every neighbour of `v` carries `v`'s label.
pub open spec fn closed_at(g: Seq<LinkNode>, l: Seq<Option<usize>>, v: int) -> bool {
    forall|w: int| 0 <= w < g.len() && #[trigger] edge(g, v, w) ==> l[w] == l[v]
}

/// Every labelled node lies in the component of its cluster's root and takes part in a link.
pub open spec fn labels_rooted(g: Seq<LinkNode>, l: Seq<Option<usize>>, roots: Seq<int>) -> bool {
    forall|v: int|
        0 <= v < g.len() && #[trigger] l[v] is Some ==> l[v]->0 < roots.len() && connected(
            g,
            roots[l[v]->0 as int],
            v,
        ) && !isolated(g, v)
}

/// Labelled nodes off the stack, other than `u`, have all their neighbours labelled alike.
pub open spec fn closed_off_stack(
    g: Seq<LinkNode>,
    l: Seq<Option<usize>>,
    s: Seq<usize>,
    u: int,
) -> bool {
    forall|v: int|
        0 <= v < g.len() && #[trigger] l[v] is Some && !s.contains(v as usize) && v != u
            ==> closed_at(g, l, v)
}

/// The stack holds distinct nodes, all labelled `c`.
pub open spec fn stack_ok(g: Seq<LinkNode>, l: Seq<Option<usize>>, s: Seq<usize>, c: usize) -> bool {
    &&& s.no_duplicates()
    &&& forall|k: int| 0 <= k < s.len() ==> #[trigger] s[k] < g.len() && l[s[k] as int] == Some(c)
}

pub open spec fn count_unlabeled(l: Seq<Option<usize>>) -> nat
    decreases l.len(),
{
    if l.len() == 0 {
        0
    } else {
        count_unlabeled(l.drop_last()) + if l.last() is None {
            1nat
        } else {
            0nat
        }
    }
}

proof fn lemma_count_unlabeled_update(l: Seq<Option<usize>>, i: int, c: usize)
    requires
        0 <= i < l.len(),
        l[i] is None,
    ensures
        count_unlabeled(l.update(i, Some(c))) + 1 == count_unlabeled(l),
    decreases l.len(),
{
    let m = l.update(i, Some(c));
    if i < l.len() - 1 {
        assert(m.drop_last() =~= l.drop_last().update(i, Some(c)));
        lemma_count_unlabeled_update(l.drop_last(), i, c);
    } else {
        assert(m.drop_last() =~= l.drop_last());
    }
}

/// What a sequence holds after a push.
pub proof fn lemma_push_contains<T>(s: Seq<T>, v: T, x: T)
    ensures
        s.push(v).contains(x) <==> (s.contains(x) || x == v),
{
    let t = s.push(v);
    if x == v {
        assert(t[s.len() as int] == v);
    }
    if s.contains(x) {
        let j = choose|j: int| 0 <= j < s.len() && s[j] == x;
        assert(t[j] == x);
    }
    if t.contains(x) {
        let j = choose|j: int| 0 <= j < t.len() && t[j] == x;
        if j < s.len() {
            assert(s[j] == x);
        }
    }
}

/// For each node, the nodes that link to it.
fn reverse_links(g: &Vec<LinkNode>) -> (rev: Vec<Vec<usize>>)
    requires
        links_in_range(g@),
    ensures
        rev@.len() == g@.len(),
        forall|b: int, k: int|
            0 <= b < g@.len() && 0 <= k < rev@[b]@.len() ==> #[trigger] rev@[b]@[k] < g@.len(),
        forall|a: int, b: int|
            #![trigger rev@[b]@.contains(a as usize)]
            #![trigger g@[a].links@.contains(b as usize)]
            0 <= a < g@.len() && 0 <= b < g@.len() ==> (rev@[b]@.contains(a as usize)
                <==> g@[a].links@.contains(b as usize)),
{
    let n = g.len();
    let mut rev: Vec<Vec<usize>> = Vec::new();
    let mut i: usize = 0;
    while i < n
        invariant
            n == g@.len(),
            i <= n,
            rev@.len() == i,
            forall|b: int| 0 <= b < i ==> (#[trigger] rev@[b])@.len() == 0,
        decreases n - i,
    {
        rev.push(Vec::new());
        i += 1;
    }
    let mut a: usize = 0;
    while a < n
        invariant
            n == g@.len(),
            links_in_range(g@),
            a <= n,
            rev@.len() == n,
            forall|b: int, k: int|
                0 <= b < n && 0 <= k < rev@[b]@.len() ==> #[trigger] rev@[b]@[k] < a,
            forall|x: int, b: int|
                #![trigger rev@[b]@.contains(x as usize)]
                #![trigger g@[x].links@.contains(b as usize)]
                0 <= x < n && 0 <= b < n ==> (rev@[b]@.contains(x as usize) <==> (x < a
                    && g@[x].links@.contains(b as usize))),
        decreases n - a,
    {
        let links = &g[a].links;
        let mut k: usize = 0;
        while k < links.len()
            invariant
                n == g@.len(),
                links_in_range(g@),
                a < n,
                links@ == g@[a as int].links@,
                k <= links@.len(),
                rev@.len() == n,
                forall|b: int, j: int|
                    0 <= b < n && 0 <= j < rev@[b]@.len() ==> #[trigger] rev@[b]@[j] <= a,
                forall|x: int, b: int|
                    #![trigger rev@[b]@.contains(x as usize)]
                    #![trigger g@[x].links@.contains(b as usize)]
                    0 <= x < n && 0 <= b < n ==> (rev@[b]@.contains(x as usize) <==> ((
                    x < a && g@[x].links@.contains(b as usize)) || (x == a
                        && links@.subrange(0, k as int).contains(b as usize)))),
            decreases links@.len() - k,
        {
            let b = links[k];
            assert(b < n);
            let ghost old_rev = rev@;
            let mut bucket = rev[b].clone();
            bucket.push(a);
            rev.set(b, bucket);
            assert forall|x: int, c: int| 0 <= x < n && 0 <= c < n implies (
            #[trigger] rev@[c]@.contains(x as usize) <==> ((x < a
                && g@[x].links@.contains(c as usize)) || (x == a && links@.subrange(
                0,
                k + 1,
            ).contains(c as usize)))) by {
                assert(links@.subrange(0, k + 1) =~= links@.subrange(0, k as int).push(b));
                lemma_push_contains(links@.subrange(0, k as int), b, c as usize);
                lemma_push_contains(old_rev[b as int]@, a, x as usize);
                assert(old_rev[c]@.contains(x as usize) <==> ((x < a && g@[x].links@.contains(
                    c as usize,
                )) || (x == a && links@.subrange(0, k as int).contains(c as usize))));
                if c == b {
                    assert(rev@[c]@ =~= old_rev[c]@.push(a));
                    if x == a {
                        assert(rev@[c]@[old_rev[c]@.len() as int] == a);
                    }
                    if old_rev[c]@.contains(x as usize) {
                        let j = choose|j: int| 0 <= j < old_rev[c]@.len() && old_rev[c]@[j] == x;
                        assert(rev@[c]@[j] == x);
                    }
                } else {
                    assert(rev@[c] == old_rev[c]);
                }
            }
            k += 1;
        }
        assert(links@.subrange(0, links@.len() as int) =~= links@);
        a += 1;
    }
    rev
}

} // verus!

verus! {

/// Gives the label `c` to every neighbour of `u` in `nbrs` that has none yet, and
/// pushes each of them on the stack.
fn visit_neighbors(
    g: &Vec<LinkNode>,
    nbrs: &Vec<usize>,
    u: usize,
    c: usize,
    labels: &mut Vec<Option<usize>>,
    stack: &mut Vec<usize>,
    Ghost(roots): Ghost<Seq<int>>,
)
    requires
        graph_wf(g@),
        u < g@.len(),
        old(labels)@.len() == g@.len(),
        old(labels)@[u as int] == Some(c),
        roots.len() == c + 1,
        connected(g@, roots[c as int], u as int),
        forall|k: int| 0 <= k < nbrs@.len() ==> #[trigger] nbrs@[k] < g@.len() && edge(g@, u as int, nbrs@[k] as int),
        labels_rooted(g@, old(labels)@, roots),
        closed_off_stack(g@, old(labels)@, old(stack)@, u as int),
        stack_ok(g@, old(labels)@, old(stack)@, c),
    ensures
        final(labels)@.len() == g@.len(),
        final(labels)@[u as int] == Some(c),
        labels_rooted(g@, final(labels)@, roots),
        closed_off_stack(g@, final(labels)@, final(stack)@, u as int),
        stack_ok(g@, final(labels)@, final(stack)@, c),
        forall|k: int| 0 <= k < nbrs@.len() ==> final(labels)@[#[trigger] nbrs@[k] as int] == Some(c),
        forall|x: int| 0 <= x < g@.len() && (#[trigger] old(labels)@[x]) is Some ==> final(labels)@[x] == old(labels)@[x],
        count_unlabeled(final(labels)@) + final(stack)@.len() == count_unlabeled(old(labels)@) + old(stack)@.len(),
{
    let ghost l0 = labels@;
    let mut k: usize = 0;
    while k < nbrs.len()
        invariant
            graph_wf(g@),
            u < g@.len(),
            labels@.len() == g@.len(),
            labels@[u as int] == Some(c),
            roots.len() == c + 1,
            connected(g@, roots[c as int], u as int),
            forall|j: int| 0 <= j < nbrs@.len() ==> #[trigger] nbrs@[j] < g@.len() && edge(g@, u as int, nbrs@[j] as int),
            labels_rooted(g@, labels@, roots),
            closed_off_stack(g@, labels@, stack@, u as int),
            stack_ok(g@, labels@, stack@, c),
            k <= nbrs@.len(),
            forall|j: int| 0 <= j < k ==> labels@[#[trigger] nbrs@[j] as int] == Some(c),
            forall|x: int| 0 <= x < g@.len() && (#[trigger] l0[x]) is Some ==> labels@[x] == l0[x],
            count_unlabeled(labels@) + stack@.len() == count_unlabeled(l0) + old(stack)@.len(),
        decreases nbrs@.len() - k,
    {
        let w = nbrs[k];
        assert(edge(g@, u as int, w as int));
        if w != u && labels[w].is_none() {
            let ghost l1 = labels@;
            let ghost s1 = stack@;
            proof {
                lemma_count_unlabeled_update(l1, w as int, c);
                lemma_connected_extend(g@, roots[c as int], u as int, w as int);
                assert(edge(g@, w as int, u as int));
                if s1.contains(w) {
                    let j = choose|j: int| 0 <= j < s1.len() && s1[j] == w;
                    assert(l1[s1[j] as int] == Some(c));
                }
            }
            labels.set(w, Some(c));
            stack.push(w);
            proof {
                let l2 = labels@;
                let s2 = stack@;
                assert forall|v: int|
                    0 <= v < g@.len() && #[trigger] l2[v] is Some && !s2.contains(v as usize) && v
                        != u implies closed_at(g@, l2, v) by {
                    assert(s2[s1.len() as int] == w);
                    assert(v != w);
                    if !s1.contains(v as usize) {
                    } else {
                        let j = choose|j: int| 0 <= j < s1.len() && s1[j] == v as usize;
                        assert(s2[j] == v);
                    }
                    assert(closed_at(g@, l1, v));
                    assert forall|x: int| 0 <= x < g@.len() && #[trigger] edge(g@, v, x) implies l2[x] == l2[v] by {
                        assert(l1[x] == l1[v]);
                    }
                }
                assert forall|m: int| 0 <= m < s2.len() implies #[trigger] s2[m] < g@.len() && l2[s2[m] as int] == Some(c) by {
                    if m < s1.len() {
                        assert(s2[m] == s1[m]);
                    }
                }
                assert(s2.no_duplicates()) by {
                    assert forall|i: int, j: int| 0 <= i < s2.len() && 0 <= j < s2.len() && i != j implies s2[i] != s2[j] by {
                        if i < s1.len() && j < s1.len() {
                            assert(s2[i] == s1[i] && s2[j] == s1[j]);
                        } else if i < s1.len() {
                            assert(l1[s1[i] as int] == Some(c));
                        } else if j < s1.len() {
                            assert(l1[s1[j] as int] == Some(c));
                        }
                    }
                }
                assert(labels_rooted(g@, l2, roots));
            }
        } else if w != u {
            proof {
                let l1 = labels@;
                let s1 = stack@;
                if s1.contains(w) {
                    let j = choose|j: int| 0 <= j < s1.len() && s1[j] == w;
                    assert(l1[s1[j] as int] == Some(c));
                } else {
                    assert(closed_at(g@, l1, w as int));
                    assert(edge(g@, w as int, u as int));
                }
            }
        }
        k += 1;
    }
}

} // verus!

verus! {

proof fn lemma_labeling_done(g: Seq<LinkNode>, l: Seq<Option<usize>>, roots: Seq<int>)
    requires
        l.len() == g.len(),
        labels_rooted(g, l, roots),
        closed_off_stack(g, l, Seq::<usize>::empty(), -1),
        forall|v: int| 0 <= v < g.len() ==> (#[trigger] l[v]) is Some || isolated(g, v),
    ensures
        is_component_labeling(g, l),
{
    let s = Seq::<usize>::empty();
    assert forall|v: int, w: int|
        0 <= v < g.len() && 0 <= w < g.len() && #[trigger] edge(g, v, w) implies l[w] == l[v] by {
        if l[v] is Some {
            assert(!s.contains(v as usize));
            assert(closed_at(g, l, v));
        } else {
            assert(isolated(g, v));
        }
    }
    assert forall|a: int, b: int|
        0 <= a < g.len() && 0 <= b < g.len() && #[trigger] l[a] is Some implies (#[trigger] l[b]
            == l[a] <==> connected(g, a, b)) by {
        if connected(g, a, b) {
            let p = choose|p: Seq<int>| #[trigger] is_walk(g, p) && p[0] == a && p.last() == b;
            lemma_closed_labels_on_walk(g, l, p);
        }
        if l[b] == l[a] {
            let r = roots[l[a]->0 as int];
            lemma_connected_symmetric(g, r, a);
            lemma_connected_trans(g, a, r, b);
        }
    }
}

/// Every identifier below one in use is in use too: the identifiers are `0..k`.
pub open spec fn labels_dense(l: Seq<Option<usize>>) -> bool {
    forall|a: int, c: int|
        #![trigger l[a], label_used(l, c)]
        0 <= a < l.len() && l[a] is Some && 0 <= c < l[a]->0 ==> label_used(l, c)
}

/// Some node carries the identifier `c`.
pub open spec fn label_used(l: Seq<Option<usize>>, c: int) -> bool {
    exists|b: int| 0 <= b < l.len() && #[trigger] l[b] == Some(c as usize)
}

/// The component label of every node: nodes that take part in no link get none,
/// every other node gets the identifier of its connected component (links taken
/// in both directions). The identifiers in use are `0..k` for the number `k` of
/// components with a link.
#[verifier::rlimit(100)]
pub fn component_labels(g: &Vec<LinkNode>) -> (l: Vec<Option<usize>>)
    requires
        graph_wf(g@),
    ensures
        is_component_labeling(g@, l@),
        forall|a: int| 0 <= a < l@.len() && (#[trigger] l@[a]) is Some ==> l@[a]->0 < g@.len(),
        labels_dense(l@),
{
    let n = g.len();
    let rev = reverse_links(g);
    let mut labels: Vec<Option<usize>> = Vec::new();
    let mut i: usize = 0;
    while i < n
        invariant
            n == g@.len(),
            i <= n,
            labels@.len() == i,
            forall|v: int| 0 <= v < i ==> (#[trigger] labels@[v]) is None,
        decreases n - i,
    {
        labels.push(None);
        i += 1;
    }
    let mut next: usize = 0;
    let ghost mut roots: Seq<int> = Seq::empty();
    let mut r: usize = 0;
    while r < n
        invariant
            graph_wf(g@),
            n == g@.len(),
            rev@.len() == n,
            forall|b: int, k: int|
                0 <= b < n && 0 <= k < rev@[b]@.len() ==> #[trigger] rev@[b]@[k] < n,
            forall|a: int, b: int|
                #![trigger rev@[b]@.contains(a as usize)]
                #![trigger g@[a].links@.contains(b as usize)]
                0 <= a < n && 0 <= b < n ==> (rev@[b]@.contains(a as usize)
                    <==> g@[a].links@.contains(b as usize)),
            r <= n,
            labels@.len() == n,
            next == roots.len(),
            next <= r,
            labels_rooted(g@, labels@, roots),
            forall|d: int| 0 <= d < roots.len() ==> 0 <= #[trigger] roots[d] < n && labels@[roots[d]] == Some(d as usize),
            closed_off_stack(g@, labels@, Seq::<usize>::empty(), -1),
            forall|v: int| 0 <= v < r ==> (#[trigger] labels@[v]) is Some || isolated(g@, v),
        decreases n - r,
    {
        let has_links = g[r].links.len() > 0 || rev[r].len() > 0;
        if labels[r].is_none() && has_links {
            let c = next;
            proof {
                if g@[r as int].links@.len() > 0 {
                    let b = g@[r as int].links@[0];
                    assert(g@[r as int].links@.contains(b));
                    assert(edge(g@, r as int, b as int));
                } else {
                    let a = rev@[r as int]@[0];
                    assert(rev@[r as int]@.contains(a));
                    assert(edge(g@, r as int, a as int));
                }
                lemma_walk_single(g@, r as int);
                lemma_count_unlabeled_update(labels@, r as int, c);
            }
            let ghost l0 = labels@;
            labels.set(r, Some(c));
            proof {
                let old_roots = roots;
                roots = roots.push(r as int);
                let l1 = labels@;
                assert forall|d: int| 0 <= d < roots.len() implies 0 <= #[trigger] roots[d] < n && l1[roots[d]] == Some(d as usize) by {
                    if d < old_roots.len() {
                        assert(roots[d] == old_roots[d]);
                        assert(l0[old_roots[d]] == Some(d as usize));
                    }
                }
                assert forall|v: int| 0 <= v < n && #[trigger] l1[v] is Some implies l1[v]->0
                    < roots.len() && connected(g@, roots[l1[v]->0 as int], v) && !isolated(g@, v) by {
                    if v != r {
                        assert(l0[v] is Some);
                    }
                }
                let e = Seq::<usize>::empty();
                assert forall|v: int|
                    0 <= v < n && #[trigger] l1[v] is Some && !seq![r].contains(v as usize) && v
                        != -1 implies closed_at(g@, l1, v) by {
                    assert(seq![r][0] == r);
                    assert(v != r);
                    assert(!e.contains(v as usize));
                    assert(closed_at(g@, l0, v));
                    assert forall|x: int| 0 <= x < n && #[trigger] edge(g@, v, x) implies l1[x] == l1[v] by {
                        assert(l0[x] == l0[v]);
                    }
                }
            }
            let mut stack: Vec<usize> = Vec::new();
            stack.push(r);
            while stack.len() > 0
                invariant
                    graph_wf(g@),
                    n == g@.len(),
                    rev@.len() == n,
                    forall|b: int, k: int|
                        0 <= b < n && 0 <= k < rev@[b]@.len() ==> #[trigger] rev@[b]@[k] < n,
                    forall|a: int, b: int|
                        #![trigger rev@[b]@.contains(a as usize)]
                        #![trigger g@[a].links@.contains(b as usize)]
                        0 <= a < n && 0 <= b < n ==> (rev@[b]@.contains(a as usize)
                            <==> g@[a].links@.contains(b as usize)),
                    r < n,
                    c == next,
                    labels@.len() == n,
                    roots.len() == c + 1,
                    roots[c as int] == r,
                    labels@[r as int] is Some,
                    labels_rooted(g@, labels@, roots),
                    forall|d: int| 0 <= d < roots.len() ==> 0 <= #[trigger] roots[d] < n && labels@[roots[d]] == Some(d as usize),
                    closed_off_stack(g@, labels@, stack@, -1),
                    stack_ok(g@, labels@, stack@, c),
                    forall|v: int| 0 <= v < r ==> (#[trigger] labels@[v]) is Some || isolated(g@, v),
                decreases count_unlabeled(labels@) + stack@.len(),
            {
                let ghost s0 = stack@;
                let u = stack.pop().unwrap();
                proof {
                    assert(s0[s0.len() - 1] == u);
                    assert(stack@ =~= s0.drop_last());
                    assert forall|v: int|
                        0 <= v < n && #[trigger] labels@[v] is Some && !stack@.contains(v as usize)
                            && v != u implies closed_at(g@, labels@, v) by {
                        if s0.contains(v as usize) {
                            let j = choose|j: int| 0 <= j < s0.len() && s0[j] == v as usize;
                            assert(stack@[j] == v);
                        }
                    }
                    assert forall|m: int| 0 <= m < stack@.len() implies #[trigger] stack@[m] < n
                        && labels@[stack@[m] as int] == Some(c) by {
                        assert(stack@[m] == s0[m]);
                    }
                    assert(stack@.no_duplicates()) by {
                        assert forall|i: int, j: int|
                            0 <= i < stack@.len() && 0 <= j < stack@.len() && i != j implies stack@[i]
                            != stack@[j] by {
                            assert(stack@[i] == s0[i] && stack@[j] == s0[j]);
                        }
                    }
                    assert(labels@[u as int] == Some(c));
                    assert(connected(g@, roots[c as int], u as int));
                }
                let ghost lu = labels@;
                let links = &g[u].links;
                proof {
                    assert forall|k: int| 0 <= k < links@.len() implies #[trigger] links@[k] < n
                        && edge(g@, u as int, links@[k] as int) by {
                        assert(links@.contains(links@[k]));
                    }
                }
                let ghost lb = labels@;
                visit_neighbors(g, links, u, c, &mut labels, &mut stack, Ghost(roots));
                proof {
                    assert forall|d: int| 0 <= d < roots.len() implies 0 <= #[trigger] roots[d] < n && labels@[roots[d]] == Some(d as usize) by {
                        assert(lb[roots[d]] is Some);
                    }
                }
                let back = &rev[u];
                proof {
                    assert forall|k: int| 0 <= k < back@.len() implies #[trigger] back@[k] < n
                        && edge(g@, u as int, back@[k] as int) by {
                        assert(back@.contains(back@[k]));
                    }
                }
                let ghost lv = labels@;
                visit_neighbors(g, back, u, c, &mut labels, &mut stack, Ghost(roots));
                proof {
                    assert forall|d: int| 0 <= d < roots.len() implies 0 <= #[trigger] roots[d] < n && labels@[roots[d]] == Some(d as usize) by {
                        assert(lv[roots[d]] is Some);
                    }
                }
                proof {
                    let l2 = labels@;
                    assert forall|w: int| 0 <= w < n && #[trigger] edge(g@, u as int, w) implies l2[w]
                        == l2[u as int] by {
                        if g@[u as int].links@.contains(w as usize) {
                            let k = choose|k: int| 0 <= k < links@.len() && links@[k] == w as usize;
                            assert(lv[links@[k] as int] == Some(c));
                        } else {
                            assert(back@.contains(w as usize));
                            let k = choose|k: int| 0 <= k < back@.len() && back@[k] == w as usize;
                            assert(l2[back@[k] as int] == Some(c));
                        }
                    }
                    assert(closed_at(g@, l2, u as int));
                    assert forall|v: int| 0 <= v < r implies (#[trigger] l2[v]) is Some || isolated(g@, v) by {
                        if lu[v] is Some {
                            assert(lv[v] == lu[v]);
                        }
                    }
                }
            }
            next += 1;
        }
        proof {
            if labels@[r as int] is None {
                assert forall|b: int| 0 <= b < n implies !#[trigger] edge(g@, r as int, b) by {
                    if g@[r as int].links@.contains(b as usize) {
                        assert(g@[r as int].links@.len() > 0);
                    }
                    if g@[b].links@.contains(r as usize) {
                        assert(rev@[r as int]@.contains(b as usize));
                        assert(rev@[r as int]@.len() > 0);
                    }
                }
            }
        }
        r += 1;
    }
    proof {
        lemma_labeling_done(g@, labels@, roots);
        assert forall|a: int, c: int|
            #![trigger labels@[a], label_used(labels@, c)]
            0 <= a < labels@.len() && labels@[a] is Some && 0 <= c < labels@[a]->0 implies label_used(labels@, c) by {
            assert(labels@[roots[c]] == Some(c as usize));
        }
    }
    labels
}

} // verus!

verus! {

/// The cluster identifiers that the nodes carry.
pub open spec fn cluster_ids(g: Seq<LinkNode>) -> Seq<Option<usize>> {
    g.map_values(|n: LinkNode| n.cluster_id)
}

/// The nodes carry the same links.
pub open spec fn same_links(g: Seq<LinkNode>, h: Seq<LinkNode>) -> bool {
    g.len() == h.len() && forall|i: int| 0 <= i < g.len() ==> (#[trigger] g[i].links)@ == h[i].links@
}

proof fn lemma_same_links_labeling(g: Seq<LinkNode>, h: Seq<LinkNode>, l: Seq<Option<usize>>)
    requires
        same_links(g, h),
        is_component_labeling(g, l),
    ensures
        is_component_labeling(h, l),
{
    assert forall|a: int, b: int| 0 <= a < g.len() && 0 <= b < g.len() implies edge(g, a, b) == edge(h, a, b) by {
        assert(g[a].links@ == h[a].links@ && g[b].links@ == h[b].links@);
    }
    assert forall|p: Seq<int>| #[trigger] is_walk(g, p) implies is_walk(h, p) by {
        assert forall|k: int| 0 <= k < p.len() - 1 implies #[trigger] edge(h, p[k], p[k + 1]) by {
            assert(edge(g, p[k], p[k + 1]));
        }
    }
    assert forall|p: Seq<int>| #[trigger] is_walk(h, p) implies is_walk(g, p) by {
        assert forall|k: int| 0 <= k < p.len() - 1 implies #[trigger] edge(g, p[k], p[k + 1]) by {
            assert(edge(h, p[k], p[k + 1]));
        }
    }
    assert forall|a: int, b: int| 0 <= a < g.len() && 0 <= b < g.len() implies connected(g, a, b) == connected(h, a, b) by {
        if connected(g, a, b) {
            let p = choose|p: Seq<int>| #[trigger] is_walk(g, p) && p[0] == a && p.last() == b;
            assert(is_walk(h, p));
        }
        if connected(h, a, b) {
            let p = choose|p: Seq<int>| #[trigger] is_walk(h, p) && p[0] == a && p.last() == b;
            assert(is_walk(g, p));
        }
    }
    assert forall|a: int| 0 <= a < g.len() implies isolated(g, a) == isolated(h, a) by {
        if isolated(g, a) {
            assert forall|b: int| 0 <= b < h.len() implies !#[trigger] edge(h, a, b) by {
                assert(!edge(g, a, b));
            }
        }
        if isolated(h, a) {
            assert forall|b: int| 0 <= b < g.len() implies !#[trigger] edge(g, a, b) by {
                assert(!edge(h, a, b));
            }
        }
    }
}

/// Stores in every node the identifier of its connected component, or none where
/// the node takes part in no link. Nothing else changes.
pub fn label_clusters(graph: &mut Vec<LinkNode>)
    requires
        graph_wf(old(graph)@),
    ensures
        same_links(old(graph)@, final(graph)@),
        graph_wf(final(graph)@),
        forall|i: int| 0 <= i < final(graph)@.len() ==> (#[trigger] final(graph)@[i]).title@ == old(graph)@[i].title@
            && final(graph)@[i].internal == old(graph)@[i].internal,
        is_component_labeling(final(graph)@, cluster_ids(final(graph)@)),
{
    let labels = component_labels(graph);
    let ghost g0 = graph@;
    let n = graph.len();
    let mut i: usize = 0;
    while i < n
        invariant
            n == g0.len(),
            graph@.len() == n,
            labels@.len() == n,
            i <= n,
            forall|j: int| 0 <= j < n ==> (#[trigger] graph@[j]).links@ == g0[j].links@
                && graph@[j].id == g0[j].id && graph@[j].title@ == g0[j].title@
                && graph@[j].internal == g0[j].internal,
            forall|j: int| 0 <= j < i ==> (#[trigger] graph@[j]).cluster_id == labels@[j],
        decreases n - i,
    {
        graph[i].cluster_id = labels[i];
        i += 1;
    }
    proof {
        assert(same_links(g0, graph@));
        assert(cluster_ids(graph@) =~= labels@);
        lemma_same_links_labeling(g0, graph@, labels@);
    }
}

/// Any two component labelings of one graph group the nodes alike: two nodes share
/// an identifier under one exactly when they share one under the other, and the same
/// nodes go without one.
pub proof fn lemma_labelings_group_alike(
    g: Seq<LinkNode>,
    l1: Seq<Option<usize>>,
    l2: Seq<Option<usize>>,
)
    requires
        is_component_labeling(g, l1),
        is_component_labeling(g, l2),
    ensures
        forall|a: int| 0 <= a < g.len() ==> (#[trigger] l1[a] is None <==> l2[a] is None),
        forall|a: int, b: int|
            0 <= a < g.len() && 0 <= b < g.len() ==> ((#[trigger] l1[a] is Some && l1[a]
                == #[trigger] l1[b]) <==> (l2[a] is Some && l2[a] == l2[b])),
{
    assert forall|a: int, b: int|
        0 <= a < g.len() && 0 <= b < g.len() implies ((#[trigger] l1[a] is Some && l1[a]
            == #[trigger] l1[b]) <==> (l2[a] is Some && l2[a] == l2[b])) by {
        if l1[a] is Some {
            assert(l2[a] is Some);
        }
        if l2[a] is Some {
            assert(l1[a] is Some);
        }
    }
}

} // verus!
