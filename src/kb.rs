//! A small note store keyed by identity, with titled notes and deduplicated links.
use vstd::prelude::*;
use std::collections::HashMap;

verus! {

broadcast use vstd::std_specs::hash::group_hash_axioms;

/// A note with its text and the identities of the notes it links to.
pub struct Note {
    pub id: usize,
    pub title: String,
    pub content: String,
    pub links: Vec<usize>,
}

/// Notes by identity; `next_id` is the identity the next note gets.
pub struct KnowledgeGraph {
    pub notes: HashMap<usize, Note>,
    pub next_id: usize,
}

/// Every stored note carries its key as identity, and every key is below `next_id`.
pub open spec fn kb_wf(k: KnowledgeGraph) -> bool {
    forall|id: usize| #[trigger] k.notes@.contains_key(id) ==> k.notes@[id].id == id && id < k.next_id
}

impl KnowledgeGraph {
    pub fn new() -> (r: KnowledgeGraph)
        ensures
            r.notes@ == Map::<usize, Note>::empty(),
            r.next_id == 0,
            kb_wf(r),
    {
        KnowledgeGraph { notes: HashMap::new(), next_id: 0 }
    }

    /// Stores a new note without links and returns its identity.
    pub fn add_note(&mut self, title: String, content: String) -> (id: usize)
        requires
            old(self).next_id < usize::MAX,
            kb_wf(*old(self)),
        ensures
            id == old(self).next_id,
            final(self).next_id == old(self).next_id + 1,
            kb_wf(*final(self)),
            final(self).notes@.dom() == old(self).notes@.dom().insert(id),
            forall|k: usize| k != id && #[trigger] old(self).notes@.contains_key(k) ==> final(self).notes@[k] == old(self).notes@[k],
            final(self).notes@[id].id == id,
            final(self).notes@[id].title@ == title@,
            final(self).notes@[id].content@ == content@,
            final(self).notes@[id].links@.len() == 0,
    {
        let id = self.next_id;
        self.next_id = self.next_id + 1;
        let note = Note { id, title, content, links: Vec::new() };
        self.notes.insert(id, note);
        assert(self.notes@.dom() =~= old(self).notes@.dom().insert(id));
        id
    }

    /// Adds a link from `from_id` to `to_id` unless the note already has it; nothing
    /// happens when there is no note `from_id`.
    pub fn add_link(&mut self, from_id: usize, to_id: usize)
        requires
            kb_wf(*old(self)),
        ensures
            kb_wf(*final(self)),
            final(self).next_id == old(self).next_id,
            final(self).notes@.dom() == old(self).notes@.dom(),
            forall|k: usize| k != from_id && #[trigger] old(self).notes@.contains_key(k) ==> final(self).notes@[k] == old(self).notes@[k],
            old(self).notes@.contains_key(from_id) ==> {
                let before = old(self).notes@[from_id];
                let after = final(self).notes@[from_id];
                &&& after.id == before.id
                &&& after.title == before.title
                &&& after.content == before.content
                &&& after.links@ == if before.links@.contains(to_id) {
                    before.links@
                } else {
                    before.links@.push(to_id)
                }
            },
    {
        match self.notes.remove(&from_id) {
            Some(note) => {
                let mut note = note;
                let mut found = false;
                let mut k: usize = 0;
                while k < note.links.len()
                    invariant
                        k <= note.links@.len(),
                        found <==> note.links@.subrange(0, k as int).contains(to_id),
                    decreases note.links@.len() - k,
                {
                    proof {
                        crate::cluster::lemma_push_contains(note.links@.subrange(0, k as int), note.links@[k as int], to_id);
                        assert(note.links@.subrange(0, k + 1) =~= note.links@.subrange(0, k as int).push(note.links@[k as int]));
                    }
                    if note.links[k] == to_id {
                        found = true;
                    }
                    k += 1;
                }
                assert(note.links@.subrange(0, note.links@.len() as int) =~= note.links@);
                if !found {
                    note.links.push(to_id);
                }
                self.notes.insert(from_id, note);
                assert(self.notes@.dom() =~= old(self).notes@.dom());
            },
            None => {
                assert(self.notes@ =~= old(self).notes@);
            },
        }
    }
}

/// The store and the note selected for reading.
pub struct App {
    pub graph: KnowledgeGraph,
    pub selected_note: Option<usize>,
}

impl App {
    /// A store of two notes, the first linking to the second, with nothing selected.
    pub fn new() -> (r: App)
        ensures
            r.selected_note is None,
            r.graph.next_id == 2,
            kb_wf(r.graph),
            r.graph.notes@.dom() == set![0usize, 1usize],
            r.graph.notes@[0].links@ == seq![1usize],
            r.graph.notes@[1].links@.len() == 0,
            r.graph.notes@[0].title@ == "First Note"@,
            r.graph.notes@[0].content@ == "This is the content of the first note."@,
            r.graph.notes@[1].title@ == "Second Note"@,
            r.graph.notes@[1].content@ == "This is the content of the second note."@,
    {
        let mut graph = KnowledgeGraph::new();
        let note1 = graph.add_note(
            String::from_str("First Note"),
            String::from_str("This is the content of the first note."),
        );
        let note2 = graph.add_note(
            String::from_str("Second Note"),
            String::from_str("This is the content of the second note."),
        );
        let ghost before = graph;
        assert(before.notes@.contains_key(1usize));
        graph.add_link(note1, note2);
        assert(graph.notes@[1usize] == before.notes@[1usize]);
        assert(graph.notes@.dom() =~= set![0usize, 1usize]);
        assert(graph.notes@[0].links@ =~= seq![1usize]);
        App { graph, selected_note: None }
    }
}

} // verus!
