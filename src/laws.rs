use vstd::prelude::*;
use crate::trie::{NodeView, wf, child_from, child_with, walk, is_word, has_path, grow, inserted, empty_nodes};

verus! {

/// `b` keeps every node of `a`, with its character and its word mark, and
/// keeps each child list of `a` as a prefix of its own.
spec fn extends(a: Seq<NodeView>, b: Seq<NodeView>) -> bool {
    &&& a.len() <= b.len()
    &&& forall|i: int|
        0 <= i < a.len() ==> (#[trigger] b[i]).data == a[i].data && a[i].children.len()
            <= b[i].children.len() && (a[i].word ==> b[i].word)
    &&& forall|i: int, j: int|
        0 <= i < a.len() && 0 <= j < a[i].children.len() ==> b[i].children[j]
            == #[trigger] a[i].children[j]
}

/// A scan that finds nothing has passed over no child holding `ch`.
proof fn lemma_child_from_none(nodes: Seq<NodeView>, kids: Seq<int>, ch: char, i: int)
    requires
        0 <= i,
        child_from(nodes, kids, ch, i) is None,
    ensures
        forall|j: int| i <= j < kids.len() ==> nodes[#[trigger] kids[j]].data != Some(ch),
    decreases kids.len() - i,
{
    if i < kids.len() {
        lemma_child_from_none(nodes, kids, ch, i + 1);
    }
}

/// Appending a child that holds a character no sibling holds keeps the arena
/// well-formed.
pub(crate) proof fn lemma_grow_wf(nodes: Seq<NodeView>, node: int, ch: char)
    requires
        wf(nodes),
        0 <= node < nodes.len(),
        child_with(nodes, node, ch) is None,
    ensures
        wf(grow(nodes, node, ch)),
{
    let g = grow(nodes, node, ch);
    let kids = nodes[node].children;
    let len = nodes.len() as int;
    lemma_child_from_none(nodes, kids, ch, 0);
    assert(g[node].children == kids.push(len));
    assert(g[len].children.len() == 0);
    assert forall|i: int| 0 <= i < len implies #[trigger] g[i].data == nodes[i].data by {}
    assert forall|i: int, j: int|
        0 <= i < g.len() && 0 <= j < g[i].children.len() implies i < #[trigger] g[i].children[j]
        < g.len() by {
        if i == node {
            if j < kids.len() {
                assert(g[i].children[j] == nodes[i].children[j]);
            }
        } else {
            assert(i < len);
            assert(g[i] == nodes[i]);
            assert(g[i].children[j] == nodes[i].children[j]);
        }
    }
    assert forall|i: int, j: int, k: int|
        0 <= i < g.len() && 0 <= j < k < g[i].children.len() implies g[#[trigger] g[i].children[j]].data
        != g[#[trigger] g[i].children[k]].data by {
        if i == node {
            assert(g[i].children[j] == kids[j]);
            assert(nodes[kids[j] ].data == g[kids[j]].data);
            if k < kids.len() {
                assert(g[i].children[k] == kids[k]);
                assert(nodes[i].children[j] == kids[j]);
                assert(nodes[i].children[k] == kids[k]);
                assert(nodes[kids[k] ].data == g[kids[k]].data);
            } else {
                assert(g[i].children[k] == len);
            }
        } else {
            assert(i < len);
            assert(g[i] == nodes[i]);
            let ks = nodes[i].children;
            assert(nodes[ks[j] ].data == g[ks[j]].data);
            assert(nodes[ks[k] ].data == g[ks[k]].data);
        }
    }
}

proof fn lemma_extends_trans(a: Seq<NodeView>, b: Seq<NodeView>, c: Seq<NodeView>)
    requires
        extends(a, b),
        extends(b, c),
    ensures
        extends(a, c),
{
    assert forall|i: int, j: int| 0 <= i < a.len() && 0 <= j < a[i].children.len() implies c[i].children[j]
        == #[trigger] a[i].children[j] by {
        assert(b[i].children[j] == a[i].children[j]);
        assert(c[i].children[j] == b[i].children[j]);
    }
}

/// A child found by the scan is one of the scanned indices.
proof fn lemma_child_from_some(nodes: Seq<NodeView>, kids: Seq<int>, ch: char, i: int)
    requires
        0 <= i,
        child_from(nodes, kids, ch, i) is Some,
    ensures
        exists|j: int| i <= j < kids.len() && kids[j] == child_from(nodes, kids, ch, i)->0,
        nodes[child_from(nodes, kids, ch, i)->0].data == Some(ch),
    decreases kids.len() - i,
{
    if nodes[kids[i]].data != Some(ch) {
        lemma_child_from_some(nodes, kids, ch, i + 1);
    }
}

/// In a well-formed arena a found child lies past its parent and in bounds.
proof fn lemma_child_with_bounds(nodes: Seq<NodeView>, node: int, ch: char)
    requires
        wf(nodes),
        0 <= node < nodes.len(),
        child_with(nodes, node, ch) is Some,
    ensures
        node < child_with(nodes, node, ch)->0 < nodes.len(),
{
    lemma_child_from_some(nodes, nodes[node].children, ch, 0);
    let j = choose|j: int| 0 <= j < nodes[node].children.len() && nodes[node].children[j]
        == child_with(nodes, node, ch)->0;
    assert(node < nodes[node].children[j] < nodes.len());
}

/// A match found among a prefix of the children is still the first match once
/// the arena has been extended.
proof fn lemma_child_from_extends(
    a: Seq<NodeView>,
    b: Seq<NodeView>,
    node: int,
    ch: char,
    i: int,
)
    requires
        wf(a),
        extends(a, b),
        0 <= node < a.len(),
        0 <= i,
        child_from(a, a[node].children, ch, i) is Some,
    ensures
        child_from(b, b[node].children, ch, i) == child_from(a, a[node].children, ch, i),
    decreases a[node].children.len() - i,
{
    let ka = a[node].children;
    let kb = b[node].children;
    assert(kb[i] == ka[i]);
    assert(node < ka[i] < a.len());
    assert(b[ka[i]].data == a[ka[i]].data);
    if a[ka[i]].data != Some(ch) {
        lemma_child_from_extends(a, b, node, ch, i + 1);
    }
}

/// After a scan that finds nothing, a child appended last and holding `ch` is
/// the one found.
proof fn lemma_child_from_grow(nodes: Seq<NodeView>, node: int, ch: char, i: int)
    requires
        wf(nodes),
        0 <= node < nodes.len(),
        0 <= i <= nodes[node].children.len(),
        child_from(nodes, nodes[node].children, ch, i) is None,
    ensures
        child_from(grow(nodes, node, ch), grow(nodes, node, ch)[node].children, ch, i) == Some(
            nodes.len() as int,
        ),
    decreases nodes[node].children.len() - i,
{
    let g = grow(nodes, node, ch);
    let kids = nodes[node].children;
    assert(g[node].children == kids.push(nodes.len() as int));
    if i < kids.len() {
        assert(node < kids[i] < nodes.len());
        assert(g[kids[i]].data == nodes[kids[i]].data);
        lemma_child_from_grow(nodes, node, ch, i + 1);
    }
}

/// Growing by one child extends the arena.
proof fn lemma_grow_extends(nodes: Seq<NodeView>, node: int, ch: char)
    requires
        0 <= node < nodes.len(),
    ensures
        extends(nodes, grow(nodes, node, ch)),
{
    let g = grow(nodes, node, ch);
    assert forall|i: int, j: int| 0 <= i < nodes.len() && 0 <= j < nodes[i].children.len() implies g[i].children[j]
        == #[trigger] nodes[i].children[j] by {
    }
}

/// Insertion keeps the arena well-formed and only extends it.
proof fn lemma_inserted_extends(nodes: Seq<NodeView>, node: int, s: Seq<char>)
    requires
        wf(nodes),
        0 <= node < nodes.len(),
    ensures
        wf(inserted(nodes, node, s)),
        extends(nodes, inserted(nodes, node, s)),
    decreases s.len(),
{
    if s.len() == 0 {
        let r = inserted(nodes, node, s);
        assert forall|i: int| 0 <= i < nodes.len() implies #[trigger] r[i].data == nodes[i].data
            && r[i].children == nodes[i].children by {}
        assert forall|i: int, j: int| 0 <= i < nodes.len() && 0 <= j < nodes[i].children.len() implies r[i].children[j]
            == #[trigger] nodes[i].children[j] by {
            assert(r[i].children == nodes[i].children);
        }
        assert forall|i: int, j: int|
            0 <= i < r.len() && 0 <= j < r[i].children.len() implies i < #[trigger] r[i].children[j]
            < r.len() by {
            assert(r[i].children == nodes[i].children);
        }
        assert forall|i: int, j: int, k: int|
            0 <= i < r.len() && 0 <= j < k < r[i].children.len() implies r[#[trigger] r[i].children[j]].data
            != r[#[trigger] r[i].children[k]].data by {
            assert(r[i].children == nodes[i].children);
            assert(nodes[i].children[j] < nodes.len());
            assert(nodes[i].children[k] < nodes.len());
        }
    } else {
        match child_with(nodes, node, s[0]) {
            Some(c) => {
                lemma_child_with_bounds(nodes, node, s[0]);
                lemma_inserted_extends(nodes, c, s.drop_first());
            },
            None => {
                let g = grow(nodes, node, s[0]);
                lemma_grow_wf(nodes, node, s[0]);
                lemma_grow_extends(nodes, node, s[0]);
                lemma_inserted_extends(g, nodes.len() as int, s.drop_first());
                lemma_extends_trans(nodes, g, inserted(g, nodes.len() as int, s.drop_first()));
            },
        }
    }
}

/// Following `s` below `node` in the arena that inserting `s` there produced
/// ends at a node marked as a word.
proof fn lemma_inserted_walk(nodes: Seq<NodeView>, node: int, s: Seq<char>)
    requires
        wf(nodes),
        0 <= node < nodes.len(),
    ensures
        walk(inserted(nodes, node, s), node, s) matches Some(n) && inserted(nodes, node, s)[n].word,
    decreases s.len(),
{
    if s.len() > 0 {
        let r = inserted(nodes, node, s);
        match child_with(nodes, node, s[0]) {
            Some(c) => {
                lemma_child_with_bounds(nodes, node, s[0]);
                lemma_inserted_walk(nodes, c, s.drop_first());
                lemma_inserted_extends(nodes, c, s.drop_first());
                lemma_child_from_extends(nodes, r, node, s[0], 0);
            },
            None => {
                let g = grow(nodes, node, s[0]);
                let len = nodes.len() as int;
                lemma_grow_wf(nodes, node, s[0]);
                lemma_child_from_grow(nodes, node, s[0], 0);
                lemma_inserted_walk(g, len, s.drop_first());
                lemma_inserted_extends(g, len, s.drop_first());
                lemma_child_from_extends(g, r, node, s[0], 0);
            },
        }
    }
}

/// A path followed in a well-formed arena ends in bounds.
proof fn lemma_walk_bounds(nodes: Seq<NodeView>, node: int, s: Seq<char>)
    requires
        wf(nodes),
        0 <= node < nodes.len(),
        walk(nodes, node, s) is Some,
    ensures
        0 <= walk(nodes, node, s)->0 < nodes.len(),
    decreases s.len(),
{
    if s.len() > 0 {
        lemma_child_with_bounds(nodes, node, s[0]);
        lemma_walk_bounds(nodes, child_with(nodes, node, s[0])->0, s.drop_first());
    }
}

/// A path that exists in an arena leads to the same node in any extension.
proof fn lemma_walk_extends(a: Seq<NodeView>, b: Seq<NodeView>, node: int, s: Seq<char>)
    requires
        wf(a),
        extends(a, b),
        0 <= node < a.len(),
        walk(a, node, s) is Some,
    ensures
        walk(b, node, s) == walk(a, node, s),
    decreases s.len(),
{
    if s.len() > 0 {
        lemma_child_with_bounds(a, node, s[0]);
        lemma_child_from_extends(a, b, node, s[0], 0);
        lemma_walk_extends(a, b, child_with(a, node, s[0])->0, s.drop_first());
    }
}

/// Inserting a string whose whole path already exists changes only the word
/// mark of the node the path ends at.
proof fn lemma_inserted_present(nodes: Seq<NodeView>, node: int, s: Seq<char>)
    requires
        walk(nodes, node, s) is Some,
    ensures
        ({
            let n = walk(nodes, node, s)->0;
            inserted(nodes, node, s) == nodes.update(
                n,
                NodeView {
                    data: nodes[n].data,
                    children: nodes[n].children,
                    word: true,
                    label: nodes[n].label,
                },
            )
        }),
    decreases s.len(),
{
    if s.len() > 0 {
        let c = child_with(nodes, node, s[0])->0;
        lemma_inserted_present(nodes, c, s.drop_first());
    }
}

/// A string just inserted is found, both as a whole word and as a prefix.
pub proof fn lemma_added_is_found(nodes: Seq<NodeView>, s: Seq<char>)
    requires
        wf(nodes),
    ensures
        is_word(inserted(nodes, 0, s), s),
        has_path(inserted(nodes, 0, s), s),
{
    lemma_inserted_walk(nodes, 0, s);
}

/// Inserting the same string twice leaves the arena, and so the node count
/// and every lookup, as inserting it once does.
pub proof fn lemma_add_idempotent(nodes: Seq<NodeView>, s: Seq<char>)
    requires
        wf(nodes),
    ensures
        inserted(inserted(nodes, 0, s), 0, s) == inserted(nodes, 0, s),
        inserted(inserted(nodes, 0, s), 0, s).len() == inserted(nodes, 0, s).len(),
        forall|t: Seq<char>|
            is_word(#[trigger] inserted(inserted(nodes, 0, s), 0, s), t) == is_word(
                inserted(nodes, 0, s),
                t,
            ),
{
    let once = inserted(nodes, 0, s);
    lemma_inserted_walk(nodes, 0, s);
    lemma_inserted_present(once, 0, s);
    lemma_inserted_extends(nodes, 0, s);
    lemma_walk_bounds(once, 0, s);
    let n = walk(once, 0, s)->0;
    assert(NodeView {
            data: once[n].data,
            children: once[n].children,
            word: true,
            label: once[n].label,
        } == once[n]);
    assert(once.update(
        n,
        NodeView {
            data: once[n].data,
            children: once[n].children,
            word: true,
            label: once[n].label,
        },
    ) =~= once);
}

/// Following `t` below `y` ends at a node marked as a word.
spec fn word_below(nodes: Seq<NodeView>, y: int, t: Seq<char>) -> bool {
    walk(nodes, y, t) matches Some(m) && nodes[m].word
}

/// Following `t` below `y` reaches a node whose path string is `y`'s followed
/// by `t`.
proof fn lemma_walk_label(nodes: Seq<NodeView>, y: int, t: Seq<char>)
    requires
        wf(nodes),
        0 <= y < nodes.len(),
        walk(nodes, y, t) is Some,
    ensures
        nodes[walk(nodes, y, t)->0].label == nodes[y].label + t,
    decreases t.len(),
{
    if t.len() == 0 {
        assert(nodes[y].label + t =~= nodes[y].label);
    } else {
        let c = child_with(nodes, y, t[0])->0;
        lemma_child_with_bounds(nodes, y, t[0]);
        lemma_child_from_some(nodes, nodes[y].children, t[0], 0);
        let j = choose|j: int| 0 <= j < nodes[y].children.len() && nodes[y].children[j] == c;
        assert(nodes[nodes[y].children[j]].label == nodes[y].label.push(
            nodes[nodes[y].children[j]].data->0,
        ));
        lemma_walk_label(nodes, c, t.drop_first());
        assert(nodes[y].label.push(t[0]) + t.drop_first() =~= nodes[y].label + t);
    }
}

/// Two scans agree when they visit the same indices holding the same
/// characters, and the second one's extra indices do not hold `ch`.
proof fn lemma_child_from_agree(
    a: Seq<NodeView>,
    b: Seq<NodeView>,
    ka: Seq<int>,
    kb: Seq<int>,
    ch: char,
    i: int,
)
    requires
        0 <= i,
        ka.len() <= kb.len(),
        forall|j: int| i <= j < ka.len() ==> kb[j] == ka[j] && b[ka[j]].data == a[#[trigger] ka[j]].data,
        forall|j: int| ka.len() <= j < kb.len() ==> b[#[trigger] kb[j]].data != Some(ch),
    ensures
        child_from(b, kb, ch, i) == child_from(a, ka, ch, i),
    decreases kb.len() - i,
{
    if i < kb.len() {
        if i < ka.len() {
            assert(b[ka[i]].data == a[ka[i]].data);
        } else {
            assert(b[kb[i]].data != Some(ch));
        }
        lemma_child_from_agree(a, b, ka, kb, ch, i + 1);
    }
}

/// Following a path one character further.
proof fn lemma_walk_push(nodes: Seq<NodeView>, y: int, p: Seq<char>, ch: char)
    requires
        walk(nodes, y, p) is Some,
    ensures
        walk(nodes, y, p.push(ch)) == child_with(nodes, walk(nodes, y, p)->0, ch),
    decreases p.len(),
{
    let q = p.push(ch);
    if p.len() == 0 {
        assert(q.drop_first() =~= Seq::<char>::empty());
        if let Some(c) = child_with(nodes, y, ch) {
            assert(walk(nodes, c, q.drop_first()) == Some(c));
        }
    } else {
        assert(q[0] == p[0]);
        assert(q.drop_first() =~= p.drop_first().push(ch));
        lemma_walk_push(nodes, child_with(nodes, y, p[0])->0, p.drop_first(), ch);
    }
}

/// Changing word marks alone changes no path.
proof fn lemma_walk_marks(a: Seq<NodeView>, b: Seq<NodeView>, y: int, t: Seq<char>)
    requires
        wf(a),
        a.len() == b.len(),
        forall|i: int| 0 <= i < a.len() ==> (#[trigger] b[i]).data == a[i].data && b[i].children == a[i].children,
        0 <= y < a.len(),
    ensures
        walk(b, y, t) == walk(a, y, t),
    decreases t.len(),
{
    if t.len() > 0 {
        let kids = a[y].children;
        assert(b[y].children == kids);
        assert forall|j: int| 0 <= j < kids.len() implies kids[j] == kids[j] && b[kids[j]].data == a[#[trigger] kids[j]].data by {
            assert(y < a[y].children[j] < a.len());
        }
        lemma_child_from_agree(a, b, kids, kids, t[0], 0);
        if child_with(a, y, t[0]) is Some {
            lemma_child_with_bounds(a, y, t[0]);
            lemma_walk_marks(a, b, child_with(a, y, t[0])->0, t.drop_first());
        }
    }
}

/// Growing a node by a child for a character it had no child for adds no
/// word below any old node: the new node is no word and has no children.
proof fn lemma_grow_words(nodes: Seq<NodeView>, x: int, ch: char, y: int, t: Seq<char>)
    requires
        wf(nodes),
        0 <= x < nodes.len(),
        child_with(nodes, x, ch) is None,
        0 <= y < nodes.len(),
    ensures
        word_below(grow(nodes, x, ch), y, t) == word_below(nodes, y, t),
    decreases t.len(),
{
    let g = grow(nodes, x, ch);
    let len = nodes.len() as int;
    if t.len() == 0 {
        assert(g[y].word == nodes[y].word);
    } else {
        let ka = nodes[y].children;
        let kb = g[y].children;
        assert forall|j: int| 0 <= j < ka.len() implies kb[j] == ka[j] && g[ka[j]].data == nodes[#[trigger] ka[j]].data by {
            assert(y < nodes[y].children[j] < len);
        }
        if y == x && t[0] == ch {
            lemma_child_from_grow(nodes, x, ch, 0);
            let rest = t.drop_first();
            if rest.len() > 0 {
                assert(child_with(g, len, rest[0]) is None);
                assert(walk(g, len, rest) is None);
            } else {
                assert(walk(g, len, rest) == Some(len));
            }
            assert(walk(g, y, t) == walk(g, len, rest));
            assert(walk(nodes, y, t) is None);
        } else {
            if y == x {
                assert(kb == ka.push(len));
                assert(g[kb[ka.len() as int]].data == Some(ch));
            } else {
                assert(kb == ka);
            }
            lemma_child_from_agree(nodes, g, ka, kb, t[0], 0);
            assert(child_with(g, y, t[0]) == child_with(nodes, y, t[0]));
            if let Some(c) = child_with(nodes, y, t[0]) {
                lemma_child_with_bounds(nodes, y, t[0]);
                lemma_grow_words(nodes, x, ch, c, t.drop_first());
                assert(walk(g, y, t) == walk(g, c, t.drop_first()));
                assert(walk(nodes, y, t) == walk(nodes, c, t.drop_first()));
            }
        }
    }
}

/// Inserting `s` below the node that `p` leads to adds to the words held
/// exactly `p + s`.
proof fn lemma_inserted_words(nodes: Seq<NodeView>, x: int, p: Seq<char>, s: Seq<char>, t: Seq<char>)
    requires
        wf(nodes),
        walk(nodes, 0, p) == Some(x),
    ensures
        is_word(inserted(nodes, x, s), t) == (is_word(nodes, t) || t == p + s),
    decreases s.len(),
{
    lemma_walk_bounds(nodes, 0, p);
    let r = inserted(nodes, x, s);
    if s.len() == 0 {
        assert(p + s =~= p);
        lemma_walk_marks(nodes, r, 0, t);
        if let Some(m) = walk(nodes, 0, t) {
            lemma_walk_bounds(nodes, 0, t);
            lemma_walk_label(nodes, 0, t);
            lemma_walk_label(nodes, 0, p);
            assert(nodes[0].label + t =~= t);
            assert(nodes[0].label + p =~= p);
        }
    } else {
        let q = p.push(s[0]);
        assert(q + s.drop_first() =~= p + s);
        lemma_walk_push(nodes, 0, p, s[0]);
        match child_with(nodes, x, s[0]) {
            Some(c) => {
                lemma_inserted_words(nodes, c, q, s.drop_first(), t);
            },
            None => {
                let g = grow(nodes, x, s[0]);
                let len = nodes.len() as int;
                lemma_grow_wf(nodes, x, s[0]);
                lemma_grow_extends(nodes, x, s[0]);
                lemma_walk_extends(nodes, g, 0, p);
                lemma_walk_push(g, 0, p, s[0]);
                lemma_child_from_grow(nodes, x, s[0], 0);
                lemma_inserted_words(g, len, q, s.drop_first(), t);
                lemma_grow_words(nodes, x, s[0], 0, t);
            },
        }
    }
}

/// Inserting `s` adds exactly `s` to the words held: a string is a word
/// afterwards if and only if it was one before or it is `s`.
pub proof fn lemma_add_exact(nodes: Seq<NodeView>, s: Seq<char>, t: Seq<char>)
    requires
        wf(nodes),
    ensures
        is_word(inserted(nodes, 0, s), t) == (is_word(nodes, t) || t == s),
{
    assert(Seq::<char>::empty() + s =~= s);
    lemma_inserted_words(nodes, 0, Seq::<char>::empty(), s, t);
}

/// A path that ends at an old node after growing never used the new node, so
/// it was there before.
proof fn lemma_grow_walk_old(nodes: Seq<NodeView>, x: int, ch: char, y: int, t: Seq<char>)
    requires
        wf(nodes),
        0 <= x < nodes.len(),
        child_with(nodes, x, ch) is None,
        0 <= y < nodes.len(),
        walk(grow(nodes, x, ch), y, t) matches Some(m) && m < nodes.len(),
    ensures
        walk(nodes, y, t) == walk(grow(nodes, x, ch), y, t),
    decreases t.len(),
{
    let g = grow(nodes, x, ch);
    let len = nodes.len() as int;
    if t.len() > 0 {
        let ka = nodes[y].children;
        let kb = g[y].children;
        let rest = t.drop_first();
        assert forall|j: int| 0 <= j < ka.len() implies kb[j] == ka[j] && g[ka[j]].data == nodes[#[trigger] ka[j]].data by {
            assert(y < nodes[y].children[j] < len);
        }
        if y == x && t[0] == ch {
            lemma_child_from_grow(nodes, x, ch, 0);
            if rest.len() > 0 {
                assert(child_with(g, len, rest[0]) is None);
            }
        } else {
            if y == x {
                assert(kb == ka.push(len));
                assert(g[kb[ka.len() as int]].data == Some(ch));
            } else {
                assert(kb == ka);
            }
            lemma_child_from_agree(nodes, g, ka, kb, t[0], 0);
            if let Some(c) = child_with(nodes, y, t[0]) {
                lemma_child_with_bounds(nodes, y, t[0]);
                lemma_grow_walk_old(nodes, x, ch, c, rest);
            }
        }
    }
}

/// Growing the node that `p` leads to by a child for `ch` adds exactly one
/// path from the root: `p` followed by `ch`.
proof fn lemma_grow_paths(nodes: Seq<NodeView>, x: int, p: Seq<char>, ch: char, t: Seq<char>)
    requires
        wf(nodes),
        walk(nodes, 0, p) == Some(x),
        child_with(nodes, x, ch) is None,
    ensures
        has_path(grow(nodes, x, ch), t) == (has_path(nodes, t) || t == p.push(ch)),
{
    let g = grow(nodes, x, ch);
    let len = nodes.len() as int;
    lemma_walk_bounds(nodes, 0, p);
    lemma_grow_wf(nodes, x, ch);
    lemma_grow_extends(nodes, x, ch);
    lemma_walk_extends(nodes, g, 0, p);
    lemma_walk_push(g, 0, p, ch);
    lemma_child_from_grow(nodes, x, ch, 0);
    if has_path(nodes, t) {
        lemma_walk_extends(nodes, g, 0, t);
    }
    if let Some(m) = walk(g, 0, t) {
        lemma_walk_bounds(g, 0, t);
        if m < len {
            lemma_grow_walk_old(nodes, x, ch, 0, t);
        } else {
            lemma_walk_label(g, 0, t);
            lemma_walk_label(nodes, 0, p);
            assert(g[0].label + t =~= t);
            assert(nodes[0].label + p =~= p);
        }
    }
}

/// Every prefix of a path is a path.
proof fn lemma_walk_prefix(nodes: Seq<NodeView>, y: int, p: Seq<char>, k: int)
    requires
        walk(nodes, y, p) is Some,
        0 <= k <= p.len(),
    ensures
        walk(nodes, y, p.subrange(0, k)) is Some,
    decreases p.len(),
{
    let q = p.subrange(0, k);
    if k > 0 {
        assert(q[0] == p[0]);
        assert(q.drop_first() =~= p.drop_first().subrange(0, k - 1));
        lemma_walk_prefix(nodes, child_with(nodes, y, p[0])->0, p.drop_first(), k - 1);
    }
}

/// Inserting `s` below the node that `p` leads to adds to the paths held
/// exactly the prefixes of `p + s`.
proof fn lemma_inserted_paths(nodes: Seq<NodeView>, x: int, p: Seq<char>, s: Seq<char>, t: Seq<char>)
    requires
        wf(nodes),
        walk(nodes, 0, p) == Some(x),
    ensures
        has_path(inserted(nodes, x, s), t) == (has_path(nodes, t) || t.is_prefix_of(p + s)),
    decreases s.len(),
{
    lemma_walk_bounds(nodes, 0, p);
    let r = inserted(nodes, x, s);
    if s.len() == 0 {
        assert(p + s =~= p);
        lemma_walk_marks(nodes, r, 0, t);
        if t.is_prefix_of(p) {
            lemma_walk_prefix(nodes, 0, p, t.len() as int);
            assert(p.subrange(0, t.len() as int) =~= t);
        }
    } else {
        let q = p.push(s[0]);
        assert(q + s.drop_first() =~= p + s);
        lemma_walk_push(nodes, 0, p, s[0]);
        match child_with(nodes, x, s[0]) {
            Some(c) => {
                lemma_inserted_paths(nodes, c, q, s.drop_first(), t);
            },
            None => {
                let g = grow(nodes, x, s[0]);
                let len = nodes.len() as int;
                lemma_grow_wf(nodes, x, s[0]);
                lemma_grow_extends(nodes, x, s[0]);
                lemma_walk_extends(nodes, g, 0, p);
                lemma_walk_push(g, 0, p, s[0]);
                lemma_child_from_grow(nodes, x, s[0], 0);
                lemma_inserted_paths(g, len, q, s.drop_first(), t);
                lemma_grow_paths(nodes, x, p, s[0], t);
                if t == q {
                    assert((p + s).subrange(0, q.len() as int) =~= q);
                }
            },
        }
    }
}

/// Inserting `s` adds exactly the prefixes of `s` to the prefixes held.
pub proof fn lemma_add_exact_prefixes(nodes: Seq<NodeView>, s: Seq<char>, t: Seq<char>)
    requires
        wf(nodes),
    ensures
        has_path(inserted(nodes, 0, s), t) == (has_path(nodes, t) || t.is_prefix_of(s)),
{
    assert(Seq::<char>::empty() + s =~= s);
    lemma_inserted_paths(nodes, 0, Seq::<char>::empty(), s, t);
}

/// An empty trie holds no non-empty string, neither as a word nor as a prefix.
pub proof fn lemma_empty_holds_nothing(s: Seq<char>)
    requires
        s.len() > 0,
    ensures
        !is_word(empty_nodes(), s),
        !has_path(empty_nodes(), s),
{
    assert(child_with(empty_nodes(), 0, s[0]) is None);
}

} // verus!
