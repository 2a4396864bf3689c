//! The catalogue of named notes that the graph is built from: lookups by name and
//! by identity, and the link lists that documents contribute.
use vstd::prelude::*;
use crate::graph::LinkNode;

verus! {

/// A named note of the catalogue, with the identities of the notes it links to.
#[derive(Debug)]
#[allow(non_camel_case_types)]
pub struct Name_Id {
    pub id: usize,
    pub name: String,
    pub links: Vec<usize>,
    pub internal: bool,
}

impl Name_Id {
    pub fn new(id: usize, name: String, links: Vec<usize>) -> (r: Name_Id)
        ensures
            r.id == id,
            r.name@ == name@,
            r.links@ == links@,
            r.internal,
    {
        Name_Id { id, name, links, internal: true }
    }
}

/// `k` is the first entry of `s` named `name`.
pub open spec fn is_first_named(s: Seq<Name_Id>, name: Seq<char>, k: int) -> bool {
    &&& 0 <= k < s.len()
    &&& s[k].name@ == name
    &&& forall|j: int| 0 <= j < k ==> (#[trigger] s[j]).name@ != name
}

/// Some entry of `s` is named `name`.
pub open spec fn has_name(s: Seq<Name_Id>, name: Seq<char>) -> bool {
    exists|k: int| 0 <= k < s.len() && (#[trigger] s[k]).name@ == name
}

/// `k` is the first entry of `s` with identity `id`.
pub open spec fn is_first_with_id(s: Seq<Name_Id>, id: usize, k: int) -> bool {
    &&& 0 <= k < s.len()
    &&& s[k].id == id
    &&& forall|j: int| 0 <= j < k ==> (#[trigger] s[j]).id != id
}

/// Some entry of `s` has identity `id`.
pub open spec fn has_id(s: Seq<Name_Id>, id: usize) -> bool {
    exists|k: int| 0 <= k < s.len() && (#[trigger] s[k]).id == id
}

/// `links` without any occurrence of `id`, in order.
pub open spec fn without(links: Seq<usize>, id: usize) -> Seq<usize> {
    links.filter(|x: usize| x != id)
}

/// Every entry left by `without` was an entry before and differs from `id`; a list
/// without repeats keeps none.
pub proof fn lemma_without_within(links: Seq<usize>, id: usize)
    ensures
        forall|x: usize| #[trigger] without(links, id).contains(x) ==> links.contains(x) && x != id,
        links.no_duplicates() ==> without(links, id).no_duplicates(),
    decreases links.len(),
{
    if links.len() > 0 {
        let p = links.drop_last();
        lemma_without_within(p, id);
        assert(without(links, id) == if links.last() != id {
            without(p, id).push(links.last())
        } else {
            without(p, id)
        }) by {
            reveal(Seq::filter);
        }
        assert forall|x: usize| #[trigger] without(links, id).contains(x) implies links.contains(x) && x != id by {
            crate::cluster::lemma_push_contains(without(p, id), links.last(), x);
            if without(p, id).contains(x) {
                let i = choose|i: int| 0 <= i < p.len() && p[i] == x;
                assert(links[i] == x);
            } else {
                assert(links[links.len() - 1] == x);
            }
        }
        if links.no_duplicates() {
            assert(p.no_duplicates()) by {
                assert forall|i: int, j: int| 0 <= i < p.len() && 0 <= j < p.len() && i != j implies p[i] != p[j] by {
                    assert(p[i] == links[i] && p[j] == links[j]);
                }
            }
            if links.last() != id {
                let w = without(p, id);
                let q = w.push(links.last());
                if w.contains(links.last()) {
                    let i = choose|i: int| 0 <= i < p.len() && p[i] == links.last();
                    assert(links[i] == links[links.len() - 1]);
                }
                assert(q.no_duplicates()) by {
                    assert forall|i: int, j: int| 0 <= i < q.len() && 0 <= j < q.len() && i != j implies q[i] != q[j] by {
                        if i < w.len() && j < w.len() {
                            assert(q[i] == w[i] && q[j] == w[j]);
                        } else if i < w.len() {
                            assert(w.contains(q[i]));
                        } else if j < w.len() {
                            assert(w.contains(q[j]));
                        }
                    }
                }
            }
        }
    }
}

/// The links with every occurrence of `id` taken out.
pub fn remove(links: Vec<usize>, id: &usize) -> (r: Vec<usize>)
    ensures
        r@ == without(links@, *id),
{
    let mut out: Vec<usize> = Vec::new();
    let mut k: usize = 0;
    while k < links.len()
        invariant
            k <= links@.len(),
            out@ == without(links@.subrange(0, k as int), *id),
        decreases links@.len() - k,
    {
        proof {
            let s = links@.subrange(0, k + 1);
            assert(s.drop_last() =~= links@.subrange(0, k as int));
            assert(s.last() == links@[k as int]);
            s.filter_lemma(|x: usize| x != *id);
            assert(without(s, *id) == without(s.drop_last(), *id) + if links@[k as int] != *id {
                seq![links@[k as int]]
            } else {
                Seq::empty()
            }) by {
                reveal(Seq::filter);
                assert(s.filter(|x: usize| x != *id) == {
                    let p = s.drop_last().filter(|x: usize| x != *id);
                    if (|x: usize| x != *id)(s.last()) { p.push(s.last()) } else { p }
                });
                if links@[k as int] != *id {
                    assert(without(s.drop_last(), *id).push(links@[k as int]) =~= without(s.drop_last(), *id) + seq![links@[k as int]]);
                } else {
                    assert(without(s.drop_last(), *id) =~= without(s.drop_last(), *id) + Seq::<usize>::empty());
                }
            }
        }
        if links[k] != *id {
            out.push(links[k]);
        }
        k += 1;
    }
    assert(links@.subrange(0, links@.len() as int) =~= links@);
    out
}

/// Appends `links` to the note's links.
pub fn add_links(links: Vec<usize>, name_id: &mut Name_Id)
    ensures
        final(name_id).links@ == old(name_id).links@ + links@,
        final(name_id).id == old(name_id).id,
        final(name_id).name == old(name_id).name,
        final(name_id).internal == old(name_id).internal,
{
    let mut k: usize = 0;
    while k < links.len()
        invariant
            k <= links@.len(),
            name_id.links@ == old(name_id).links@ + links@.subrange(0, k as int),
            name_id.id == old(name_id).id,
            name_id.name == old(name_id).name,
            name_id.internal == old(name_id).internal,
        decreases links@.len() - k,
    {
        name_id.links.push(links[k]);
        k += 1;
        assert(old(name_id).links@ + links@.subrange(0, k as int) =~= (old(name_id).links@ + links@.subrange(0, k - 1)).push(links@[k - 1]));
    }
    assert(links@.subrange(0, links@.len() as int) =~= links@);
}

/// The catalogue as identity and name pairs.
pub open spec fn cat_view(s: Seq<Name_Id>) -> Seq<(usize, Seq<char>)> {
    s.map_values(|n: Name_Id| (n.id, n.name@))
}

/// The identity of the first pair named `name`.
pub open spec fn first_id(cat: Seq<(usize, Seq<char>)>, name: Seq<char>) -> Option<usize>
    decreases cat.len(),
{
    if cat.len() == 0 {
        None
    } else if cat[0].1 == name {
        Some(cat[0].0)
    } else {
        first_id(cat.drop_first(), name)
    }
}

/// The identity of the first note named `name`, if any.
pub fn in_classify(name: &String, classify: &Vec<Name_Id>) -> (r: Option<usize>)
    ensures
        r == first_id(cat_view(classify@), name@),
        r is None <==> !has_name(classify@, name@),
        r matches Some(id) ==> exists|k: int| is_first_named(classify@, name@, k) && classify@[k].id == id,
{
    let ghost cat = cat_view(classify@);
    let mut k: usize = 0;
    assert(cat.subrange(0, cat.len() as int) =~= cat);
    while k < classify.len()
        invariant
            cat == cat_view(classify@),
            k <= classify@.len(),
            forall|j: int| 0 <= j < k ==> (#[trigger] classify@[j]).name@ != name@,
            first_id(cat, name@) == first_id(cat.subrange(k as int, cat.len() as int), name@),
        decreases classify@.len() - k,
    {
        let ghost c = cat.subrange(k as int, cat.len() as int);
        assert(c[0] == (classify@[k as int].id, classify@[k as int].name@));
        assert(c.drop_first() =~= cat.subrange(k + 1, cat.len() as int));
        if classify[k].name == *name {
            assert(is_first_named(classify@, name@, k as int));
            return Some(classify[k].id);
        }
        k += 1;
    }
    assert(cat.subrange(k as int, cat.len() as int).len() == 0);
    None
}

/// A copy of the first note named `name`; there must be one.
#[allow(non_snake_case)]
pub fn getName_Id(name: &String, classify: &Vec<Name_Id>) -> (r: Name_Id)
    requires
        has_name(classify@, name@),
    ensures
        exists|k: int|
            is_first_named(classify@, name@, k) && r.id == classify@[k].id && r.name == classify@[k].name
                && r.links@ == classify@[k].links@ && r.internal == classify@[k].internal,
{
    let mut k: usize = 0;
    while k < classify.len()
        invariant
            k <= classify@.len(),
            has_name(classify@, name@),
            forall|j: int| 0 <= j < k ==> (#[trigger] classify@[j]).name@ != name@,
        decreases classify@.len() - k,
    {
        if classify[k].name == *name {
            assert(is_first_named(classify@, name@, k as int));
            let item = &classify[k];
            let links = item.links.clone();
            assert(links@ =~= item.links@);
            return Name_Id { id: item.id, name: item.name.clone(), links, internal: item.internal };
        }
        k += 1;
    }
    proof {
        let j = choose|j: int| 0 <= j < classify@.len() && (#[trigger] classify@[j]).name@ == name@;
        assert(classify@[j].name@ != name@);
    }
    Name_Id { id: 0, name: String::new(), links: Vec::new(), internal: true }
}

/// The index of the first note with identity `id`.
pub open spec fn first_with_id(s: Seq<Name_Id>, id: usize) -> int {
    choose|k: int| is_first_with_id(s, id, k)
}

/// The first note with identity `id`, to change in place; there must be one.
#[allow(non_snake_case)]
pub fn getName_Id_by_id(id: usize, classify: &mut Vec<Name_Id>) -> (r: &mut Name_Id)
    requires
        has_id(old(classify)@, id),
    ensures
        is_first_with_id(old(classify)@, id, first_with_id(old(classify)@, id)),
        *r == old(classify)@[first_with_id(old(classify)@, id)],
        final(classify)@ == old(classify)@.update(first_with_id(old(classify)@, id), *final(r)),
{
    let mut k: usize = 0;
    while k < classify.len() && classify[k].id != id
        invariant
            k <= classify@.len(),
            has_id(classify@, id),
            forall|j: int| 0 <= j < k ==> (#[trigger] classify@[j]).id != id,
        decreases classify@.len() - k,
    {
        k += 1;
    }
    proof {
        if k == classify@.len() {
            let j = choose|j: int| 0 <= j < classify@.len() && (#[trigger] classify@[j]).id == id;
            assert(classify@[j].id != id);
        }
        assert(is_first_with_id(classify@, id, k as int));
        let c = first_with_id(classify@, id);
        assert(is_first_with_id(classify@, id, c));
        if c < k {
            assert(classify@[c].id != id);
        } else if c > k {
            assert(classify@[k as int].id != id);
        }
    }
    &mut classify[k]
}

/// The graph of the catalogue: one node per entry, with the entry's identity, name
/// and links, less any link of the entry to itself.
pub fn graph_from_catalogue(classify: &Vec<Name_Id>) -> (g: Vec<LinkNode>)
    ensures
        g@.len() == classify@.len(),
        forall|k: int| 0 <= k < g@.len() ==> {
            &&& (#[trigger] g@[k]).id == classify@[k].id
            &&& g@[k].title@ == classify@[k].name@
            &&& g@[k].links@ == without(classify@[k].links@, classify@[k].id)
            &&& g@[k].cluster_id is None
        },
{
    let mut g: Vec<LinkNode> = Vec::new();
    let mut k: usize = 0;
    while k < classify.len()
        invariant
            k <= classify@.len(),
            g@.len() == k,
            forall|j: int| 0 <= j < k ==> {
                &&& (#[trigger] g@[j]).id == classify@[j].id
                &&& g@[j].title@ == classify@[j].name@
                &&& g@[j].links@ == without(classify@[j].links@, classify@[j].id)
                &&& g@[j].cluster_id is None
            },
        decreases classify@.len() - k,
    {
        let item = &classify[k];
        let copied = item.links.clone();
        assert(copied@ =~= item.links@);
        let links = remove(copied, &item.id);
        g.push(LinkNode::new(item.id, item.name.clone(), links));
        k += 1;
    }
    g
}

} // verus!
