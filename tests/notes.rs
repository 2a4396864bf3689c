use knowledge_graph::cluster::label_clusters;
use knowledge_graph::graph::LinkNode;
use knowledge_graph::kb::{App, KnowledgeGraph};
use knowledge_graph::links::{
    bidiretional, build_directional_links, ensure_bidirectional_links, getnodes, has_directed_link,
};
use knowledge_graph::notes::{add_links, getName_Id, getName_Id_by_id, in_classify, remove, Name_Id};
use knowledge_graph::graph::validate_graph;
use knowledge_graph::weblinks::{
    checkforlinks, classify_links, extract_website_name, find_links, graph_from_notes, website_names,
};

fn catalogue(names: &[&str]) -> Vec<Name_Id> {
    names
        .iter()
        .enumerate()
        .map(|(i, n)| Name_Id::new(i, n.to_string(), vec![]))
        .collect()
}

#[test]
fn website_name_of_urls() {
    assert_eq!(extract_website_name("https://www.youtube.com/watch?v=1"), "youtube");
    assert_eq!(extract_website_name("http://example.org"), "example");
    assert_eq!(extract_website_name("https://docs.rs/regex"), "docs");
    assert_eq!(extract_website_name("https://a.b.c.d/x"), "c");
    assert_eq!(extract_website_name("lb:notes"), "lb:notes");
    assert_eq!(extract_website_name("lb:diary.md"), "lb:diary");
    assert_eq!(extract_website_name(""), "");
}

#[test]
fn website_names_keep_order() {
    let urls = vec![String::from("https://github.com/a"), String::from("http://www.wikipedia.org")];
    assert_eq!(website_names(&urls), vec![String::from("github"), String::from("wikipedia")]);
}

#[test]
fn links_found_in_text() {
    let text = "see https://www.rust-lang.org/learn and lb:diary.md, not www.plain.com";
    assert_eq!(find_links(text), vec![String::from("rust-lang"), String::from("lb:diary")]);
    assert_eq!(find_links("no links here"), Vec::<String>::new());
}

#[test]
fn known_and_new_links_are_classified() {
    let mut classify = catalogue(&["rust-lang"]);
    let mut id: usize = 1;
    let doc = "https://rust-lang.org/a https://rust-lang.org/b lb:diary.md";
    let links = checkforlinks(&mut classify, &mut id, doc);
    assert_eq!(links, vec![0, 1]);
    assert_eq!(id, 2);
    assert_eq!(classify.len(), 2);
    assert_eq!(classify[1].id, 1);
    assert_eq!(classify[1].name, "lb:diary");
    assert!(classify[1].links.is_empty());
}

#[test]
fn classify_links_repeats_unknown_names() {
    let mut classify = catalogue(&["a"]);
    let mut id: usize = 5;
    let names = vec![String::from("b"), String::from("a"), String::from("b"), String::from("a")];
    let links = classify_links(&mut classify, &mut id, &names);
    // "b" joins the catalogue at its first sight and is found afterwards
    assert_eq!(links, vec![5, 0, 1]);
    assert_eq!(id, 6);
    assert_eq!(classify.len(), 2);
    assert_eq!(classify[1].name, "b");
    assert_eq!(classify[1].id, 1);
}

#[test]
fn remove_takes_out_every_occurrence() {
    assert_eq!(remove(vec![1, 2, 1, 3], &1), vec![2, 3]);
    assert_eq!(remove(vec![4, 5], &9), vec![4, 5]);
    assert_eq!(remove(vec![], &0), Vec::<usize>::new());
}

#[test]
fn add_links_appends() {
    let mut n = Name_Id::new(3, String::from("n"), vec![1]);
    add_links(vec![2, 1], &mut n);
    assert_eq!(n.links, vec![1, 2, 1]);
    assert_eq!(n.id, 3);
    assert!(n.internal);
}

#[test]
fn lookups_by_name_and_id() {
    let mut classify = vec![
        Name_Id::new(0, String::from("x"), vec![]),
        Name_Id::new(7, String::from("y"), vec![2]),
        Name_Id::new(9, String::from("y"), vec![]),
    ];
    assert_eq!(in_classify(&String::from("y"), &classify), Some(7));
    assert_eq!(in_classify(&String::from("z"), &classify), None);
    let copy = getName_Id(&String::from("y"), &classify);
    assert_eq!(copy.id, 7);
    assert_eq!(copy.links, vec![2]);
    getName_Id_by_id(9, &mut classify).links.push(4);
    assert_eq!(classify[2].links, vec![4]);
    assert!(classify[1].links == vec![2]);
}

#[test]
fn note_store_numbers_and_links() {
    let mut g = KnowledgeGraph::new();
    let a = g.add_note(String::from("A"), String::from("first"));
    let b = g.add_note(String::from("B"), String::from("second"));
    assert_eq!((a, b), (0, 1));
    assert_eq!(g.next_id, 2);
    g.add_link(a, b);
    g.add_link(a, b);
    g.add_link(5, a);
    assert_eq!(g.notes[&a].links, vec![b]);
    assert!(g.notes[&b].links.is_empty());
    assert_eq!(g.notes[&b].title, "B");
}

#[test]
fn app_starts_with_two_linked_notes() {
    let app = App::new();
    assert_eq!(app.selected_note, None);
    assert_eq!(app.graph.notes.len(), 2);
    assert_eq!(app.graph.notes[&0].links, vec![1]);
    assert_eq!(app.graph.notes[&0].title, "First Note");
}

#[test]
fn directional_links_are_the_unreturned_ones() {
    let g = vec![
        LinkNode::new(0, String::from("a"), vec![1, 2]),
        LinkNode::new(1, String::from("b"), vec![0]),
        LinkNode::new(2, String::from("c"), vec![]),
    ];
    let d = build_directional_links(&g);
    assert_eq!(d[&0], vec![2]);
    assert!(d[&1].is_empty());
    assert!(has_directed_link(&d, 0, 2));
    assert!(!has_directed_link(&d, 0, 1));
    assert!(!has_directed_link(&d, 7, 0));
}

#[test]
fn bidirectional_adds_missing_returns() {
    let mut g = vec![
        LinkNode::new(0, String::from("a"), vec![1, 2]),
        LinkNode::new(1, String::from("b"), vec![0]),
        LinkNode::new(2, String::from("c"), vec![]),
        LinkNode::new(3, String::from("d"), vec![2, 2]),
    ];
    bidiretional(&mut g);
    assert_eq!(g[0].links, vec![1, 2]);
    assert_eq!(g[1].links, vec![0]);
    assert_eq!(g[2].links, vec![0, 3, 3]);
    assert_eq!(g[3].links, vec![2, 2]);
}

#[test]
fn clusters_are_stored_in_nodes() {
    let mut g = vec![
        LinkNode::new(0, String::from("a"), vec![1]),
        LinkNode::new(1, String::from("b"), vec![]),
        LinkNode::new(2, String::from("c"), vec![]),
    ];
    label_clusters(&mut g);
    assert!(g[0].cluster_id.is_some());
    assert_eq!(g[0].cluster_id, g[1].cluster_id);
    assert_eq!(g[2].cluster_id, None);
    assert_eq!(g[1].title, "b");
}

#[test]
fn ensure_bidirectional_adds_each_return_once() {
    let mut g = vec![
        LinkNode::new(0, String::from("a"), vec![1, 2]),
        LinkNode::new(1, String::from("b"), vec![]),
        LinkNode::new(2, String::from("c"), vec![0]),
        LinkNode::new(3, String::from("d"), vec![1, 1, 3]),
    ];
    ensure_bidirectional_links(&mut g);
    assert_eq!(g[0].links, vec![1, 2]);
    assert_eq!(g[1].links, vec![0, 3]);
    assert_eq!(g[2].links, vec![0]);
    assert_eq!(g[3].links, vec![1, 1, 3]);
}

#[test]
fn getnodes_collects_incoming_links() {
    let mut g = vec![
        LinkNode::new(0, String::from("a"), vec![]),
        LinkNode::new(1, String::from("b"), vec![0]),
        LinkNode::new(2, String::from("c"), vec![0, 1]),
        LinkNode::new(3, String::from("d"), vec![0]),
    ];
    getnodes(&mut g);
    assert_eq!(g[0].links, vec![1, 2, 3]);
    assert_eq!(g[1].links, vec![0, 2]);
    assert_eq!(g[2].links, vec![0, 1]);
    assert_eq!(g[3].links, vec![0]);
}

#[test]
fn notes_become_a_valid_graph() {
    let notes = vec![
        (String::from("a.md"), String::from("see https://github.com/x and lb:b.md")),
        (String::from("b.md"), String::from("back to lb:a.md and https://github.com/y")),
    ];
    let g = graph_from_notes(&notes);
    assert_eq!(validate_graph(&g), Ok(()));
    // github and lb:b join the catalogue first, then a.md; lb:a, then b.md
    let titles: Vec<&str> = g.iter().map(|n| n.title.as_str()).collect();
    assert_eq!(titles, vec!["github", "lb:b", "a.md", "lb:a", "b.md"]);
    assert_eq!(g[2].links, vec![0, 1]);
    assert_eq!(g[4].links, vec![3, 0]);
    assert!(g.iter().all(|n| n.cluster_id.is_none()));
}

#[test]
fn note_links_lose_self_references_and_repeats() {
    let notes = vec![(String::from("lb:ab"), String::from("lb:ab\nlb:ab https://x.org\nhttps://x.org"))];
    let g = graph_from_notes(&notes);
    assert_eq!(validate_graph(&g), Ok(()));
    let titles: Vec<&str> = g.iter().map(|n| n.title.as_str()).collect();
    assert_eq!(titles, vec!["lb:ab", "x", "lb:ab"]);
    assert_eq!(g[2].links, vec![0, 1]);
    for (i, n) in g.iter().enumerate() {
        assert!(!n.links.contains(&i));
    }
}
