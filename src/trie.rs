use vstd::prelude::*;
use crate::laws::{lemma_add_exact, lemma_add_exact_prefixes, lemma_grow_wf};

verus! {

/// What specifications see of one node: its character (absent only at the
/// root), the arena indices of its children in order of creation, whether
/// some inserted word ends here, and the string spelled on the path from the
/// root down to it.
pub struct NodeView {
    pub data: Option<char>,
    pub children: Seq<int>,
    pub word: bool,
    pub label: Seq<char>,
}

/// The arena of an empty trie: the root alone.
pub open spec fn empty_nodes() -> Seq<NodeView> {
    seq![NodeView { data: None, children: Seq::empty(), word: false, label: Seq::empty() }]
}

/// Well-formed arenas: the root sits at index 0 and holds no character, every
/// other node holds one, every child index is in bounds and greater than its
/// parent's, no node has two children with the same character, and each
/// child's path string is its parent's followed by the child's character.
pub open spec fn wf(nodes: Seq<NodeView>) -> bool {
    &&& nodes.len() > 0
    &&& nodes[0].data is None
    &&& nodes[0].label == Seq::<char>::empty()
    &&& forall|i: int| 0 < i < nodes.len() ==> (#[trigger] nodes[i]).data is Some
    &&& forall|i: int, j: int|
        0 <= i < nodes.len() && 0 <= j < nodes[i].children.len() ==> i < #[trigger] nodes[i].children[j]
            < nodes.len()
    &&& forall|i: int, j: int, k: int|
        0 <= i < nodes.len() && 0 <= j < k < nodes[i].children.len() ==> nodes[#[trigger] nodes[i].children[j]].data
            != nodes[#[trigger] nodes[i].children[k]].data
    &&& forall|i: int, j: int|
        0 <= i < nodes.len() && 0 <= j < nodes[i].children.len() ==> nodes[#[trigger] nodes[i].children[j]].label
            == nodes[i].label.push(nodes[nodes[i].children[j]].data->0)
}

/// The first index among `kids[i..]` whose node holds `ch`.
pub open spec fn child_from(nodes: Seq<NodeView>, kids: Seq<int>, ch: char, i: int) -> Option<int>
    decreases kids.len() - i,
{
    if i < 0 || i >= kids.len() {
        None
    } else if nodes[kids[i]].data == Some(ch) {
        Some(kids[i])
    } else {
        child_from(nodes, kids, ch, i + 1)
    }
}

/// The child of `node` that holds `ch`, if there is one.
pub open spec fn child_with(nodes: Seq<NodeView>, node: int, ch: char) -> Option<int> {
    child_from(nodes, nodes[node].children, ch, 0)
}

/// The node reached from `node` by following the characters of `s`, if every
/// step finds a child.
pub open spec fn walk(nodes: Seq<NodeView>, node: int, s: Seq<char>) -> Option<int>
    decreases s.len(),
{
    if s.len() == 0 {
        Some(node)
    } else {
        match child_with(nodes, node, s[0]) {
            Some(c) => walk(nodes, c, s.drop_first()),
            None => None,
        }
    }
}

/// `s` was inserted as a whole word: its path exists and ends at a word node.
pub open spec fn is_word(nodes: Seq<NodeView>, s: Seq<char>) -> bool {
    match walk(nodes, 0, s) {
        Some(n) => nodes[n].word,
        None => false,
    }
}

/// `s` is a prefix of some inserted word: its path from the root exists.
pub open spec fn has_path(nodes: Seq<NodeView>, s: Seq<char>) -> bool {
    walk(nodes, 0, s) is Some
}

/// The arena after a new node holding `ch` is appended and recorded as the
/// last child of `node`.
pub open spec fn grow(nodes: Seq<NodeView>, node: int, ch: char) -> Seq<NodeView> {
    nodes.update(
        node,
        NodeView {
            data: nodes[node].data,
            children: nodes[node].children.push(nodes.len() as int),
            word: nodes[node].word,
            label: nodes[node].label,
        },
    ).push(
        NodeView {
            data: Some(ch),
            children: Seq::empty(),
            word: false,
            label: nodes[node].label.push(ch),
        },
    )
}

/// The arena after inserting `s` below `node`: each character moves to the
/// matching child, or to a new one where none matches, and the last node
/// reached is marked as a word.
pub open spec fn inserted(nodes: Seq<NodeView>, node: int, s: Seq<char>) -> Seq<NodeView>
    decreases s.len(),
{
    if s.len() == 0 {
        nodes.update(
            node,
            NodeView {
                data: nodes[node].data,
                children: nodes[node].children,
                word: true,
                label: nodes[node].label,
            },
        )
    } else {
        match child_with(nodes, node, s[0]) {
            Some(c) => inserted(nodes, c, s.drop_first()),
            None => inserted(grow(nodes, node, s[0]), nodes.len() as int, s.drop_first()),
        }
    }
}

struct TrieNode {
    data: Option<char>,
    children: Vec<usize>,
    valid_word: bool,
    label: Ghost<Seq<char>>,
}

impl TrieNode {
    spec fn model(&self) -> NodeView {
        NodeView {
            data: self.data,
            children: self.children@.map_values(|c: usize| c as int),
            word: self.valid_word,
            label: self.label@,
        }
    }
}

/// A set of strings stored as a prefix tree.
pub struct Trie {
    nodes: Vec<TrieNode>,
}

impl View for Trie {
    type V = Seq<NodeView>;

    closed spec fn view(&self) -> Seq<NodeView> {
        self.nodes@.map_values(|n: TrieNode| n.model())
    }
}

impl Trie {
    /// A trie holding only its root.
    pub fn new() -> (r: Self)
        ensures
            r@ == empty_nodes(),
            wf(r@),
    {
        let root = TrieNode {
            data: None,
            children: Vec::new(),
            valid_word: false,
            label: Ghost(Seq::empty()),
        };
        let r = Trie { nodes: vec![root] };
        assert(r.nodes@[0].model().children =~= Seq::<int>::empty());
        assert(r@ =~= empty_nodes());
        r
    }

    /// The child of `node` holding `ch`, found by scanning the children in
    /// order.
    fn find_child(&self, node: usize, ch: char) -> (r: Option<usize>)
        requires
            wf(self@),
            node < self@.len(),
        ensures
            r matches Some(c) ==> child_with(self@, node as int, ch) == Some(c as int) && node < c
                < self@.len(),
            r is None ==> child_with(self@, node as int, ch) is None,
    {
        let kids = &self.nodes[node].children;
        assert(kids@.map_values(|c: usize| c as int) == self@[node as int].children);
        let mut k: usize = 0;
        while k < kids.len()
            invariant
                wf(self@),
                node < self@.len(),
                kids@.map_values(|c: usize| c as int) == self@[node as int].children,
                k <= kids.len(),
                child_from(self@, self@[node as int].children, ch, 0) == child_from(
                    self@,
                    self@[node as int].children,
                    ch,
                    k as int,
                ),
            decreases kids.len() - k,
        {
            let c = kids[k];
            assert(node < c < self@.len());
            match self.nodes[c].data {
                Some(d) => {
                    if d == ch {
                        return Some(c);
                    }
                },
                None => {},
            }
            k += 1;
        }
        None
    }

    /// Follows `st` from the root; the node reached, if every step matched.
    fn follow(&self, st: &str) -> (r: Option<usize>)
        requires
            wf(self@),
        ensures
            r matches Some(n) ==> n < self@.len(),
            r matches Some(n) ==> walk(self@, 0, st@) == Some(n as int),
            r is None ==> walk(self@, 0, st@) is None,
    {
        let mut current: usize = 0;
        assert(st@.subrange(0, st@.len() as int) =~= st@);
        for ch in it: st.chars()
            invariant
                wf(self@),
                current < self@.len(),
                it.seq() == st@,
                walk(self@, current as int, st@.subrange(it.index() as int, st@.len() as int))
                    == walk(self@, 0, st@),
        {
            let ghost rest = st@.subrange(it.index() as int, st@.len() as int);
            assert(rest.drop_first() =~= st@.subrange(it.index() + 1, st@.len() as int));
            match self.find_child(current, ch) {
                Some(c) => {
                    current = c;
                },
                None => {
                    return None;
                },
            }
        }
        assert(st@.subrange(st@.len() as int, st@.len() as int) =~= Seq::<char>::empty());
        Some(current)
    }

    /// Inserts `st`: walks down from the root, creating a node for each
    /// character that has no matching child, and marks the last node reached
    /// as the end of a word.
    pub fn add(&mut self, st: &str)
        requires
            wf(old(self)@),
        ensures
            final(self)@ == inserted(old(self)@, 0, st@),
            wf(final(self)@),
            forall|w: Seq<char>| #[trigger] is_word(final(self)@, w) == (is_word(old(self)@, w) || w == st@),
            forall|w: Seq<char>|
                #[trigger] has_path(final(self)@, w) == (has_path(old(self)@, w) || w.is_prefix_of(st@)),
    {
        let ghost target = inserted(self@, 0, st@);
        let mut current: usize = 0;
        assert(st@.subrange(0, st@.len() as int) =~= st@);
        for ch in it: st.chars()
            invariant
                wf(self@),
                current < self@.len(),
                it.seq() == st@,
                inserted(self@, current as int, st@.subrange(it.index() as int, st@.len() as int))
                    == target,
        {
            let ghost rest = st@.subrange(it.index() as int, st@.len() as int);
            assert(rest.drop_first() =~= st@.subrange(it.index() + 1, st@.len() as int));
            match self.find_child(current, ch) {
                Some(c) => {
                    current = c;
                },
                None => {
                    let ghost before = self@;
                    proof {
                        lemma_grow_wf(before, current as int, ch);
                    }
                    let new_index = self.nodes.len();
                    let ghost kids = self.nodes@[current as int].children@;
                    self.nodes[current].children.push(new_index);
                    assert(self.nodes@[current as int].model().children =~= before[current as int].children.push(
                        new_index as int,
                    )) by {
                        assert(self.nodes@[current as int].children@ == kids.push(new_index));
                    }
                    self.nodes.push(
                        TrieNode {
                            data: Some(ch),
                            children: Vec::new(),
                            valid_word: false,
                            label: Ghost(before[current as int].label.push(ch)),
                        },
                    );
                    assert(self.nodes@[new_index as int].model().children =~= Seq::<int>::empty());
                    assert forall|i: int| 0 <= i < self@.len() implies #[trigger] self@[i] == grow(
                        before,
                        current as int,
                        ch,
                    )[i] by {}
                    assert(self@ =~= grow(before, current as int, ch));
                    current = new_index;
                },
            }
        }
        assert(st@.subrange(st@.len() as int, st@.len() as int) =~= Seq::<char>::empty());
        let ghost before = self@;
        self.nodes[current].valid_word = true;
        assert(self@ =~= inserted(before, current as int, Seq::<char>::empty()));
        assert forall|w: Seq<char>| #[trigger] is_word(self@, w) == (is_word(old(self)@, w) || w == st@) by {
            lemma_add_exact(old(self)@, st@, w);
        }
        assert forall|w: Seq<char>|
            #[trigger] has_path(self@, w) == (has_path(old(self)@, w) || w.is_prefix_of(st@)) by {
            lemma_add_exact_prefixes(old(self)@, st@, w);
        }
    }

    /// Whether `st` was inserted as a whole word.
    pub fn contains(&self, st: &str) -> (r: bool)
        requires
            wf(self@),
        ensures
            r == is_word(self@, st@),
    {
        match self.follow(st) {
            Some(n) => self.nodes[n].valid_word,
            None => false,
        }
    }

    /// Whether `st` is a prefix of some inserted word.
    pub fn contains_prefix(&self, st: &str) -> (r: bool)
        requires
            wf(self@),
        ensures
            r == has_path(self@, st@),
    {
        self.follow(st).is_some()
    }

    /// The number of nodes, the root included.
    pub fn node_count(&self) -> (r: usize)
        ensures
            r == self@.len(),
    {
        self.nodes.len()
    }

    /// The character held by node `i`; `None` for the root.
    pub fn node_data(&self, i: usize) -> (r: Option<char>)
        requires
            i < self@.len(),
        ensures
            r == self@[i as int].data,
    {
        self.nodes[i].data
    }

    /// How many children node `i` has.
    pub fn child_count(&self, i: usize) -> (r: usize)
        requires
            i < self@.len(),
        ensures
            r == self@[i as int].children.len(),
    {
        self.nodes[i].children.len()
    }

    /// The arena index of the `k`-th child of node `i`, in order of creation.
    pub fn child(&self, i: usize, k: usize) -> (r: usize)
        requires
            i < self@.len(),
            k < self@[i as int].children.len(),
        ensures
            r == self@[i as int].children[k as int],
    {
        self.nodes[i].children[k]
    }

    /// Whether some inserted word ends at node `i`.
    pub fn is_word_end(&self, i: usize) -> (r: bool)
        requires
            i < self@.len(),
        ensures
            r == self@[i as int].word,
    {
        self.nodes[i].valid_word
    }
}

impl Default for Trie {
    fn default() -> (r: Self)
        ensures
            r@ == empty_nodes(),
            wf(r@),
    {
        Trie::new()
    }
}

} // verus!
