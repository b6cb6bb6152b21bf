//! The prefix index: a forest of character nodes. A node at depth `d`,
//! reached by following the characters of a prefix from the roots, records
//! that some indexed word has that character at position `d` after that
//! prefix.

use vstd::prelude::*;

verus! {

use crate::text::str_to_chars;

pub struct Node {
    pub letter: char,
    pub children: Vec<Node>,
}

/// The letters of one level of the forest, in order.
pub open spec fn letters_of(nodes: Seq<Node>) -> Seq<char> {
    nodes.map_values(|n: Node| n.letter)
}

/// The level of the forest reached by following the characters of `p`
/// downward from `nodes`, or `None` when some character of `p` has no node
/// at its position.
pub open spec fn subtrie(nodes: Seq<Node>, p: Seq<char>) -> Option<Seq<Node>>
    decreases p.len(),
{
    if p.len() == 0 {
        Some(nodes)
    } else if exists|i: int| 0 <= i < nodes.len() && nodes[i].letter == p[0] {
        let i = choose|i: int| 0 <= i < nodes.len() && nodes[i].letter == p[0];
        subtrie(nodes[i].children@, p.skip(1))
    } else {
        None
    }
}

/// Whether the full character path `p` exists in the forest.
pub open spec fn has_path(nodes: Seq<Node>, p: Seq<char>) -> bool {
    subtrie(nodes, p) is Some
}

/// The characters observed to follow the prefix `p`, in first-insertion
/// order; empty when the prefix itself is not a known path.
pub open spec fn chars_below(nodes: Seq<Node>, p: Seq<char>) -> Seq<char> {
    match subtrie(nodes, p) {
        Some(ns) => letters_of(ns),
        None => Seq::empty(),
    }
}

/// No two nodes of one level share a letter.
pub open spec fn distinct_letters(nodes: Seq<Node>) -> bool {
    forall|i: int, j: int| 0 <= i < j < nodes.len() ==> nodes[i].letter != nodes[j].letter
}

/// Every reachable level of the forest has distinct letters.
pub open spec fn trie_wf(nodes: Seq<Node>) -> bool {
    forall|p: Seq<char>| #[trigger] has_path(nodes, p) ==> distinct_letters(subtrie(nodes, p)->0)
}

/// Following one step of a path through the node that carries its first
/// character.
pub proof fn lemma_subtrie_descend(nodes: Seq<Node>, p: Seq<char>, i: int)
    requires
        distinct_letters(nodes),
        p.len() > 0,
        0 <= i < nodes.len(),
        nodes[i].letter == p[0],
    ensures
        subtrie(nodes, p) == subtrie(nodes[i].children@, p.skip(1)),
{
    let j = choose|j: int| 0 <= j < nodes.len() && nodes[j].letter == p[0];
    assert(0 <= j < nodes.len() && nodes[j].letter == p[0]);
    assert(j == i);
}

/// A missing first character means the whole path is missing.
pub proof fn lemma_subtrie_none(nodes: Seq<Node>, p: Seq<char>)
    requires
        p.len() > 0,
        forall|i: int| 0 <= i < nodes.len() ==> nodes[i].letter != p[0],
    ensures
        subtrie(nodes, p) is None,
{
}

/// Well-formedness descends to the children of any root node.
pub proof fn lemma_wf_child(nodes: Seq<Node>, i: int)
    requires
        trie_wf(nodes),
        0 <= i < nodes.len(),
    ensures
        trie_wf(nodes[i].children@),
{
    assert(has_path(nodes, Seq::<char>::empty()));
    assert forall|q: Seq<char>| #[trigger] has_path(nodes[i].children@, q) implies distinct_letters(
        subtrie(nodes[i].children@, q)->0,
    ) by {
        let p = seq![nodes[i].letter] + q;
        assert(p[0] == nodes[i].letter);
        assert(p.skip(1) =~= q);
        lemma_subtrie_descend(nodes, p, i);
        assert(subtrie(nodes, p) == subtrie(nodes[i].children@, q));
        assert(has_path(nodes, p));
    }
}

/// A strict prefix: shorter than the word, and equal to its start.
pub open spec fn strict_prefix_of(p: Seq<char>, w: Seq<char>) -> bool {
    p.len() < w.len() && p == w.take(p.len() as int)
}

/// The characters observed below a prefix after one word is inserted whose
/// next character there is `c`.
pub open spec fn chars_after_insert(nodes: Seq<Node>, p: Seq<char>, c: char) -> Seq<char> {
    if has_path(nodes, p) {
        if chars_below(nodes, p).contains(c) {
            chars_below(nodes, p)
        } else {
            chars_below(nodes, p).push(c)
        }
    } else {
        seq![c]
    }
}

/// Stepping both sides of a prefix relation past a shared first character.
proof fn lemma_prefix_step(p: Seq<char>, w: Seq<char>)
    requires
        p.len() > 0,
        w.len() > 0,
        p[0] == w[0],
    ensures
        p.is_prefix_of(w) <==> p.skip(1).is_prefix_of(w.skip(1)),
        strict_prefix_of(p, w) <==> strict_prefix_of(p.skip(1), w.skip(1)),
{
    let ps = p.skip(1);
    let ws = w.skip(1);
    if p.len() <= w.len() {
        if p =~= w.subrange(0, p.len() as int) {
            assert(ps =~= ws.subrange(0, ps.len() as int));
        }
        if ps =~= ws.subrange(0, ps.len() as int) {
            assert forall|k: int| 0 <= k < p.len() implies p[k] == w.subrange(
                0,
                p.len() as int,
            )[k] by {
                if k >= 1 {
                    assert(p[k] == ps[k - 1]);
                    assert(ps[k - 1] == ws.subrange(0, ps.len() as int)[k - 1]);
                    assert(ws[k - 1] == w[k]);
                }
            }
            assert(p =~= w.subrange(0, p.len() as int));
        }
        assert(w.take(p.len() as int) == w.subrange(0, p.len() as int));
        assert(ws.take(ps.len() as int) == ws.subrange(0, ps.len() as int));
    }
}

/// Replacing a node by one with the same letter leaves every path that
/// starts with a different letter untouched.
proof fn lemma_subtrie_update_other(nodes: Seq<Node>, i: int, n: Node, p: Seq<char>)
    requires
        distinct_letters(nodes),
        0 <= i < nodes.len(),
        n.letter == nodes[i].letter,
        p.len() > 0,
        p[0] != nodes[i].letter,
    ensures
        subtrie(nodes.update(i, n), p) == subtrie(nodes, p),
{
    let nn = nodes.update(i, n);
    assert(forall|a: int| 0 <= a < nn.len() ==> nn[a].letter == nodes[a].letter);
    assert(distinct_letters(nn));
    if exists|j: int| 0 <= j < nodes.len() && nodes[j].letter == p[0] {
        let j = choose|j: int| 0 <= j < nodes.len() && nodes[j].letter == p[0];
        assert(j != i);
        assert(nn[j] == nodes[j]);
        lemma_subtrie_descend(nodes, p, j);
        lemma_subtrie_descend(nn, p, j);
    } else {
        lemma_subtrie_none(nodes, p);
        lemma_subtrie_none(nn, p);
    }
}

/// Appending a node with a fresh letter leaves every path that starts with
/// a different letter untouched.
proof fn lemma_subtrie_push_other(nodes: Seq<Node>, n: Node, p: Seq<char>)
    requires
        distinct_letters(nodes),
        forall|j: int| 0 <= j < nodes.len() ==> nodes[j].letter != n.letter,
        p.len() > 0,
        p[0] != n.letter,
    ensures
        subtrie(nodes.push(n), p) == subtrie(nodes, p),
{
    let nn = nodes.push(n);
    assert(distinct_letters(nn));
    if exists|j: int| 0 <= j < nodes.len() && nodes[j].letter == p[0] {
        let j = choose|j: int| 0 <= j < nodes.len() && nodes[j].letter == p[0];
        assert(nn[j] == nodes[j]);
        lemma_subtrie_descend(nodes, p, j);
        lemma_subtrie_descend(nn, p, j);
    } else {
        assert(forall|j: int| 0 <= j < nn.len() ==> nn[j].letter != p[0]);
        lemma_subtrie_none(nodes, p);
        lemma_subtrie_none(nn, p);
    }
}

impl Node {
    /// A fresh node with no children.
    pub fn new(letter: char) -> (n: Node)
        ensures
            n.letter == letter,
            n.children@ == Seq::<Node>::empty(),
    {
        Node { letter: letter, children: Vec::new() }
    }
}

/// Finds the node carrying `letter` at this level, or appends a fresh one;
/// returns its index.
pub fn find_root(trie: &mut Vec<Node>, letter: char) -> (idx: usize)
    ensures
        idx < final(trie)@.len(),
        final(trie)@[idx as int].letter == letter,
        (exists|i: int| 0 <= i < old(trie)@.len() && old(trie)@[i].letter == letter) ==> {
            &&& final(trie)@ == old(trie)@
            &&& forall|j: int| 0 <= j < idx ==> old(trie)@[j].letter != letter
        },
        !(exists|i: int| 0 <= i < old(trie)@.len() && old(trie)@[i].letter == letter) ==> {
            &&& idx == old(trie)@.len()
            &&& final(trie)@.len() == old(trie)@.len() + 1
            &&& final(trie)@.take(old(trie)@.len() as int) == old(trie)@
            &&& final(trie)@[idx as int].children@ == Seq::<Node>::empty()
        },
{
    let n = trie.len();
    let mut x: usize = 0;
    while x < n
        invariant
            n == trie@.len(),
            x <= n,
            trie@ == old(trie)@,
            forall|j: int| 0 <= j < x ==> trie@[j].letter != letter,
        decreases n - x,
    {
        if trie[x].letter == letter {
            return x;
        }
        x = x + 1;
    }
    let root_node = Node::new(letter);
    trie.push(root_node);
    proof {
        assert(trie@.take(old(trie)@.len() as int) =~= old(trie)@);
    }
    trie.len() - 1
}

/// A path made of two pieces descends through the level its first piece
/// reaches.
pub proof fn lemma_subtrie_append(nodes: Seq<Node>, p: Seq<char>, q: Seq<char>)
    requires
        trie_wf(nodes),
    ensures
        subtrie(nodes, p + q) == match subtrie(nodes, p) {
            Some(ns) => subtrie(ns, q),
            None => None,
        },
    decreases p.len(),
{
    if p.len() == 0 {
        assert(p + q =~= q);
        assert(subtrie(nodes, p) == Some(nodes));
    } else {
        assert((p + q)[0] == p[0]);
        assert(has_path(nodes, Seq::<char>::empty()));
        assert(subtrie(nodes, Seq::<char>::empty()) == Some(nodes));
        assert(distinct_letters(nodes));
        if exists|i: int| 0 <= i < nodes.len() && nodes[i].letter == p[0] {
            let i = choose|i: int| 0 <= i < nodes.len() && nodes[i].letter == p[0];
            lemma_subtrie_descend(nodes, p, i);
            lemma_subtrie_descend(nodes, p + q, i);
            assert((p + q).skip(1) =~= p.skip(1) + q);
            lemma_wf_child(nodes, i);
            lemma_subtrie_append(nodes[i].children@, p.skip(1), q);
        } else {
            lemma_subtrie_none(nodes, p);
            lemma_subtrie_none(nodes, p + q);
        }
    }
}

/// Inserts the character path `w[from..]` into the forest. Afterwards the
/// known paths are exactly the old ones plus the prefixes of the inserted
/// suffix; the characters observed below a prefix change only along that
/// suffix, where the next inserted character is recorded once.
pub fn insert_from(nodes: &mut Vec<Node>, w: &Vec<char>, from: usize)
    requires
        from <= w@.len(),
        trie_wf(old(nodes)@),
    ensures
        trie_wf(final(nodes)@),
        forall|p: Seq<char>|
            #[trigger] has_path(final(nodes)@, p) <==> has_path(old(nodes)@, p) || p.is_prefix_of(
                w@.skip(from as int),
            ),
        forall|p: Seq<char>|
            strict_prefix_of(p, w@.skip(from as int)) ==> #[trigger] chars_below(final(nodes)@, p)
                == chars_after_insert(old(nodes)@, p, w@.skip(from as int)[p.len() as int]),
        forall|p: Seq<char>|
            !strict_prefix_of(p, w@.skip(from as int)) ==> #[trigger] chars_below(final(nodes)@, p)
                == chars_below(old(nodes)@, p),
    decreases w@.len() - from,
{
    let ghost o = old(nodes)@;
    let ghost wrest = w@.skip(from as int);
    if from >= w.len() {
        proof {
            assert forall|p: Seq<char>|
                #[trigger] has_path(nodes@, p) <==> has_path(o, p) || p.is_prefix_of(wrest) by {
                if p.is_prefix_of(wrest) {
                    assert(p.len() == 0);
                }
            }
        }
        return ;
    }
    let c = w[from];
    proof {
        assert(wrest[0] == c);
        assert(wrest.skip(1) =~= w@.skip(from + 1 as int));
        assert(has_path(o, Seq::<char>::empty()));
        assert(subtrie(o, Seq::<char>::empty()) == Some(o));
        assert(distinct_letters(o));
    }
    let ghost was_there = exists|i: int| 0 <= i < o.len() && o[i].letter == c;
    let idx = find_root(nodes, c);
    let ghost s1 = nodes@;
    let mut node = nodes.remove(idx);
    let ghost co = node.children@;
    proof {
        if was_there {
            assert(s1 == o);
            assert(co == o[idx as int].children@);
            lemma_wf_child(o, idx as int);
            assert(trie_wf(co));
        } else {
            assert(co == Seq::<Node>::empty());
            assert forall|q: Seq<char>| #[trigger] has_path(co, q) implies distinct_letters(
                subtrie(co, q)->0,
            ) by {
                if q.len() > 0 {
                    lemma_subtrie_none(co, q);
                }
            }
            assert(trie_wf(co));
        }
    }
    insert_from(&mut node.children, w, from + 1);
    let ghost cn = node.children@;
    nodes.insert(idx, node);
    proof {
        let n = nodes@;
        let nf = n[idx as int];
        assert(nf.letter == c);
        assert(nf.children@ == cn);
        assert(n =~= s1.update(idx as int, nf));
        // The inductive hypothesis, over the recursion on the children.
        let wr1 = wrest.skip(1);
        assert(trie_wf(cn));
        assert(forall|q: Seq<char>|
            #[trigger] has_path(cn, q) <==> has_path(co, q) || q.is_prefix_of(wr1));
        assert(forall|q: Seq<char>|
            strict_prefix_of(q, wr1) ==> #[trigger] chars_below(cn, q) == chars_after_insert(
                co,
                q,
                wr1[q.len() as int],
            ));
        assert(forall|q: Seq<char>|
            !strict_prefix_of(q, wr1) ==> #[trigger] chars_below(cn, q) == chars_below(co, q));
        if was_there {
            assert(n =~= o.update(idx as int, nf));
            lemma_trie_insert_found(o, n, co, cn, idx as int, wrest);
        } else {
            assert(s1.update(idx as int, nf) =~= o.push(nf));
            assert(n =~= o.push(nf));
            lemma_trie_insert_pushed(o, n, co, cn, idx as int, wrest);
        }
    }
}

/// The effect of an insertion when the first character already had a node:
/// that node's children were rebuilt, everything else stands.
proof fn lemma_trie_insert_found(
    o: Seq<Node>,
    n: Seq<Node>,
    co: Seq<Node>,
    cn: Seq<Node>,
    idx: int,
    wrest: Seq<char>,
)
    requires
        trie_wf(o),
        trie_wf(cn),
        wrest.len() > 0,
        0 <= idx < o.len(),
        o[idx].letter == wrest[0],
        co == o[idx].children@,
        n == o.update(idx, n[idx]),
        n.len() == o.len(),
        n[idx].letter == wrest[0],
        n[idx].children@ == cn,
        forall|q: Seq<char>|
            #[trigger] has_path(cn, q) <==> has_path(co, q) || q.is_prefix_of(wrest.skip(1)),
        forall|q: Seq<char>|
            strict_prefix_of(q, wrest.skip(1)) ==> #[trigger] chars_below(cn, q)
                == chars_after_insert(co, q, wrest.skip(1)[q.len() as int]),
        forall|q: Seq<char>|
            !strict_prefix_of(q, wrest.skip(1)) ==> #[trigger] chars_below(cn, q) == chars_below(
                co,
                q,
            ),
    ensures
        trie_wf(n),
        forall|p: Seq<char>| #[trigger] has_path(n, p) <==> has_path(o, p) || p.is_prefix_of(wrest),
        forall|p: Seq<char>|
            strict_prefix_of(p, wrest) ==> #[trigger] chars_below(n, p) == chars_after_insert(
                o,
                p,
                wrest[p.len() as int],
            ),
        forall|p: Seq<char>|
            !strict_prefix_of(p, wrest) ==> #[trigger] chars_below(n, p) == chars_below(o, p),
{
    let c = wrest[0];
    let wr1 = wrest.skip(1);
    assert(has_path(o, Seq::<char>::empty()));
    assert(distinct_letters(o));
    assert(forall|a: int| 0 <= a < n.len() ==> n[a].letter == o[a].letter);
    assert(distinct_letters(n));
    assert(has_path(n, Seq::<char>::empty()));
    assert(letters_of(n) =~= letters_of(o));

    assert forall|p: Seq<char>|
        #[trigger] has_path(n, p) <==> has_path(o, p) || p.is_prefix_of(wrest) by {
        if p.len() == 0 {
            assert(p =~= wrest.subrange(0, 0));
            assert(p.is_prefix_of(wrest));
        } else if p[0] == c {
            lemma_subtrie_descend(n, p, idx);
            lemma_subtrie_descend(o, p, idx);
            lemma_prefix_step(p, wrest);
            assert(has_path(n, p) == has_path(cn, p.skip(1)));
            assert(has_path(o, p) == has_path(co, p.skip(1)));
        } else {
            lemma_subtrie_update_other(o, idx, n[idx], p);
            if p.is_prefix_of(wrest) {
                assert(p[0] == wrest.subrange(0, p.len() as int)[0]);
                assert(false);
            }
        }
    }
    assert forall|p: Seq<char>| strict_prefix_of(p, wrest) implies #[trigger] chars_below(n, p)
        == chars_after_insert(o, p, wrest[p.len() as int]) by {
        if p.len() == 0 {
            assert(chars_below(n, p) == letters_of(n));
            assert(chars_below(o, p) == letters_of(o));
            assert(letters_of(o)[idx] == c);
            assert(letters_of(o).contains(c));
        } else {
            assert(p[0] == wrest.take(p.len() as int)[0]);
            lemma_subtrie_descend(n, p, idx);
            lemma_subtrie_descend(o, p, idx);
            lemma_prefix_step(p, wrest);
            let ps = p.skip(1);
            assert(strict_prefix_of(ps, wr1));
            assert(chars_below(n, p) == chars_below(cn, ps));
            assert(chars_below(cn, ps) == chars_after_insert(co, ps, wr1[ps.len() as int]));
            assert(wr1[ps.len() as int] == wrest[p.len() as int]);
            assert(has_path(o, p) == has_path(co, ps));
            assert(chars_below(o, p) == chars_below(co, ps));
        }
    }
    assert forall|p: Seq<char>| !strict_prefix_of(p, wrest) implies #[trigger] chars_below(n, p)
        == chars_below(o, p) by {
        if p.len() == 0 {
            assert(p =~= wrest.take(0));
            assert(false);
        } else if p[0] == c {
            lemma_subtrie_descend(n, p, idx);
            lemma_subtrie_descend(o, p, idx);
            lemma_prefix_step(p, wrest);
            let ps = p.skip(1);
            assert(!strict_prefix_of(ps, wr1));
            assert(chars_below(cn, ps) == chars_below(co, ps));
        } else {
            lemma_subtrie_update_other(o, idx, n[idx], p);
        }
    }
    assert forall|q: Seq<char>| #[trigger] has_path(n, q) implies distinct_letters(
        subtrie(n, q)->0,
    ) by {
        if q.len() == 0 {
            assert(subtrie(n, q) == Some(n));
        } else if q[0] == c {
            lemma_subtrie_descend(n, q, idx);
            assert(subtrie(n, q) == subtrie(cn, q.skip(1)));
            assert(has_path(cn, q.skip(1)));
        } else {
            lemma_subtrie_update_other(o, idx, n[idx], q);
            assert(has_path(o, q));
        }
    }
}

/// The effect of an insertion when the first character was new: a fresh
/// node carrying the rest of the word was appended, everything else stands.
proof fn lemma_trie_insert_pushed(
    o: Seq<Node>,
    n: Seq<Node>,
    co: Seq<Node>,
    cn: Seq<Node>,
    idx: int,
    wrest: Seq<char>,
)
    requires
        trie_wf(o),
        trie_wf(cn),
        wrest.len() > 0,
        idx == o.len(),
        forall|j: int| 0 <= j < o.len() ==> o[j].letter != wrest[0],
        co == Seq::<Node>::empty(),
        n == o.push(n[idx]),
        n.len() == o.len() + 1,
        n[idx].letter == wrest[0],
        n[idx].children@ == cn,
        forall|q: Seq<char>|
            #[trigger] has_path(cn, q) <==> has_path(co, q) || q.is_prefix_of(wrest.skip(1)),
        forall|q: Seq<char>|
            strict_prefix_of(q, wrest.skip(1)) ==> #[trigger] chars_below(cn, q)
                == chars_after_insert(co, q, wrest.skip(1)[q.len() as int]),
        forall|q: Seq<char>|
            !strict_prefix_of(q, wrest.skip(1)) ==> #[trigger] chars_below(cn, q) == chars_below(
                co,
                q,
            ),
    ensures
        trie_wf(n),
        forall|p: Seq<char>| #[trigger] has_path(n, p) <==> has_path(o, p) || p.is_prefix_of(wrest),
        forall|p: Seq<char>|
            strict_prefix_of(p, wrest) ==> #[trigger] chars_below(n, p) == chars_after_insert(
                o,
                p,
                wrest[p.len() as int],
            ),
        forall|p: Seq<char>|
            !strict_prefix_of(p, wrest) ==> #[trigger] chars_below(n, p) == chars_below(o, p),
{
    let c = wrest[0];
    let wr1 = wrest.skip(1);
    assert(has_path(o, Seq::<char>::empty()));
    assert(distinct_letters(o));
    assert(distinct_letters(n));
    assert(has_path(n, Seq::<char>::empty()));
    assert(letters_of(n) =~= letters_of(o).push(c));
    assert(subtrie(co, Seq::<char>::empty()) == Some(co));
    assert(forall|q: Seq<char>| q.len() > 0 ==> subtrie(co, q) is None) by {
        assert forall|q: Seq<char>| q.len() > 0 implies subtrie(co, q) is None by {
            lemma_subtrie_none(co, q);
        }
    }

    assert forall|p: Seq<char>|
        #[trigger] has_path(n, p) <==> has_path(o, p) || p.is_prefix_of(wrest) by {
        if p.len() == 0 {
            assert(p =~= wrest.subrange(0, 0));
            assert(p.is_prefix_of(wrest));
        } else if p[0] == c {
            lemma_subtrie_descend(n, p, idx);
            lemma_subtrie_none(o, p);
            lemma_prefix_step(p, wrest);
            assert(has_path(n, p) == has_path(cn, p.skip(1)));
            if has_path(cn, p.skip(1)) {
                if has_path(co, p.skip(1)) {
                    assert(p.skip(1).len() == 0);
                    assert(p.skip(1) =~= wr1.subrange(0, 0));
                    assert(p.skip(1).is_prefix_of(wr1));
                }
            }
            if p.is_prefix_of(wrest) {
                assert(p.skip(1).is_prefix_of(wr1));
            }
        } else {
            lemma_subtrie_push_other(o, n[idx], p);
            if p.is_prefix_of(wrest) {
                assert(p[0] == wrest.subrange(0, p.len() as int)[0]);
                assert(false);
            }
        }
    }
    assert forall|p: Seq<char>| strict_prefix_of(p, wrest) implies #[trigger] chars_below(n, p)
        == chars_after_insert(o, p, wrest[p.len() as int]) by {
        if p.len() == 0 {
            assert(chars_below(n, p) == letters_of(n));
            assert(chars_below(o, p) == letters_of(o));
            if letters_of(o).contains(c) {
                let j = choose|j: int| 0 <= j < letters_of(o).len() && letters_of(o)[j] == c;
                assert(o[j].letter == c);
                assert(false);
            }
        } else {
            assert(p[0] == wrest.take(p.len() as int)[0]);
            lemma_subtrie_descend(n, p, idx);
            lemma_subtrie_none(o, p);
            lemma_prefix_step(p, wrest);
            let ps = p.skip(1);
            assert(strict_prefix_of(ps, wr1));
            assert(chars_below(n, p) == chars_below(cn, ps));
            assert(chars_below(cn, ps) == chars_after_insert(co, ps, wr1[ps.len() as int]));
            assert(wr1[ps.len() as int] == wrest[p.len() as int]);
            if ps.len() == 0 {
                assert(has_path(co, ps));
                assert(chars_below(co, ps) == letters_of(co));
                assert(!letters_of(co).contains(wr1[0])) by {
                    if letters_of(co).contains(wr1[0]) {
                        let j = choose|j: int|
                            0 <= j < letters_of(co).len() && letters_of(co)[j] == wr1[0];
                        assert(false);
                    }
                }
                assert(chars_after_insert(co, ps, wr1[0]) =~= seq![wr1[0]]);
            } else {
                assert(!has_path(co, ps));
            }
        }
    }
    assert forall|p: Seq<char>| !strict_prefix_of(p, wrest) implies #[trigger] chars_below(n, p)
        == chars_below(o, p) by {
        if p.len() == 0 {
            assert(p =~= wrest.take(0));
            assert(false);
        } else if p[0] == c {
            lemma_subtrie_descend(n, p, idx);
            lemma_subtrie_none(o, p);
            lemma_prefix_step(p, wrest);
            let ps = p.skip(1);
            assert(!strict_prefix_of(ps, wr1));
            assert(chars_below(cn, ps) == chars_below(co, ps));
            if has_path(cn, ps) {
                if has_path(co, ps) {
                    assert(ps.len() == 0);
                    assert(ps =~= wr1.take(0));
                    assert(strict_prefix_of(ps, wr1) || wr1.len() == 0);
                    assert(wr1.len() == 0);
                    assert(ps.is_prefix_of(wr1));
                }
                assert(ps.is_prefix_of(wr1));
                assert(!strict_prefix_of(ps, wr1));
                assert(ps.len() == wr1.len());
                assert(ps =~= wr1.subrange(0, ps.len() as int));
                assert(ps =~= wr1);
                assert(p =~= wrest);
                assert(strict_prefix_of(p, wrest) == false);
                // p equals the whole inserted suffix: below it nothing is
                // recorded yet on either side.
                assert(chars_below(cn, ps) == chars_below(co, ps));
                assert(chars_below(n, p) == chars_below(cn, ps));
                assert(chars_below(o, p) == Seq::<char>::empty());
                if ps.len() == 0 {
                    assert(chars_below(co, ps) == letters_of(co));
                    assert(letters_of(co) =~= Seq::<char>::empty());
                } else {
                    assert(chars_below(co, ps) == Seq::<char>::empty());
                }
            } else {
                assert(chars_below(n, p) == Seq::<char>::empty());
                assert(!has_path(o, p));
                assert(chars_below(o, p) == Seq::<char>::empty());
            }
        } else {
            lemma_subtrie_push_other(o, n[idx], p);
        }
    }
    assert forall|q: Seq<char>| #[trigger] has_path(n, q) implies distinct_letters(
        subtrie(n, q)->0,
    ) by {
        if q.len() == 0 {
            assert(subtrie(n, q) == Some(n));
        } else if q[0] == c {
            lemma_subtrie_descend(n, q, idx);
            assert(subtrie(n, q) == subtrie(cn, q.skip(1)));
            assert(has_path(cn, q.skip(1)));
        } else {
            lemma_subtrie_push_other(o, n[idx], q);
            assert(has_path(o, q));
        }
    }
}

/// Inserts the full character path of a word into the forest.
pub fn add_to_trie(trie: &mut Vec<Node>, word: &str)
    requires
        trie_wf(old(trie)@),
    ensures
        trie_wf(final(trie)@),
        forall|p: Seq<char>|
            #[trigger] has_path(final(trie)@, p) <==> has_path(old(trie)@, p) || p.is_prefix_of(
                word@,
            ),
        forall|p: Seq<char>|
            strict_prefix_of(p, word@) ==> #[trigger] chars_below(final(trie)@, p)
                == chars_after_insert(old(trie)@, p, word@[p.len() as int]),
        forall|p: Seq<char>|
            !strict_prefix_of(p, word@) ==> #[trigger] chars_below(final(trie)@, p) == chars_below(
                old(trie)@,
                p,
            ),
{
    let chars = str_to_chars(word);
    proof {
        assert(chars@.skip(0) =~= word@);
    }
    insert_from(trie, &chars, 0);
}

/// The characters observed at depth `upto` below the prefix `word[..upto]`,
/// or `None` when that prefix was never indexed.
pub fn chars_at(trie: &Vec<Node>, word: &Vec<char>, upto: usize) -> (r: Option<Vec<char>>)
    requires
        trie_wf(trie@),
        upto <= word@.len(),
    ensures
        r is Some <==> has_path(trie@, word@.take(upto as int)),
        r matches Some(v) ==> v@ == chars_below(trie@, word@.take(upto as int)),
{
    let mut cur: &Vec<Node> = trie;
    let mut d: usize = 0;
    proof {
        assert(word@.take(0) =~= Seq::<char>::empty());
    }
    while d < upto
        invariant
            d <= upto <= word@.len(),
            trie_wf(trie@),
            subtrie(trie@, word@.take(d as int)) == Some(cur@),
        decreases upto - d,
    {
        let c = word[d];
        proof {
            assert(has_path(trie@, word@.take(d as int)));
            assert(distinct_letters(cur@));
        }
        let n = cur.len();
        let mut x: usize = 0;
        let mut hit: usize = n;
        while x < n
            invariant_except_break
                hit == n,
            invariant
                n == cur@.len(),
                x <= n,
                forall|j: int| 0 <= j < x ==> cur@[j].letter != c,
            ensures
                hit < n ==> cur@[hit as int].letter == c,
                hit >= n ==> forall|j: int| 0 <= j < n ==> cur@[j].letter != c,
            decreases n - x,
        {
            if cur[x].letter == c {
                hit = x;
                break ;
            }
            x = x + 1;
        }
        proof {
            assert(word@.take(d + 1 as int) =~= word@.take(d as int) + seq![c]);
            lemma_subtrie_append(trie@, word@.take(d as int), seq![c]);
        }
        if hit < n {
            proof {
                lemma_subtrie_descend(cur@, seq![c], hit as int);
                assert(seq![c].skip(1) =~= Seq::<char>::empty());
                assert(subtrie(cur@[hit as int].children@, seq![c].skip(1)) == Some(
                    cur@[hit as int].children@,
                ));
            }
            cur = &cur[hit].children;
            d = d + 1;
        } else {
            proof {
                lemma_subtrie_none(cur@, seq![c]);
                assert(subtrie(trie@, word@.take(d + 1 as int)) is None);
                assert(word@.take(upto as int) =~= word@.take(d + 1 as int) + word@.subrange(
                    d + 1 as int,
                    upto as int,
                ));
                lemma_subtrie_append(
                    trie@,
                    word@.take(d + 1 as int),
                    word@.subrange(d + 1 as int, upto as int),
                );
            }
            return None;
        }
    }
    let m = cur.len();
    let mut out: Vec<char> = Vec::new();
    let mut x: usize = 0;
    while x < m
        invariant
            m == cur@.len(),
            x <= m,
            out@ == letters_of(cur@).take(x as int),
        decreases m - x,
    {
        out.push(cur[x].letter);
        proof {
            assert(out@ =~= letters_of(cur@).take(x + 1 as int));
        }
        x = x + 1;
    }
    proof {
        assert(letters_of(cur@).take(m as int) =~= letters_of(cur@));
    }
    Some(out)
}

/// The characters observed at depth `level` below the prefix made of the
/// first `level` characters of `word`; `None` when that prefix was never
/// indexed, so that replacement and insertion candidates are suppressed
/// there.
pub fn find_chars_in_level(trie: &Vec<Node>, level: usize, word: &str) -> (r: Option<Vec<char>>)
    requires
        trie_wf(trie@),
        level as int <= word@.len(),
    ensures
        r is Some <==> has_path(trie@, word@.take(level as int)),
        r matches Some(v) ==> v@ == chars_below(trie@, word@.take(level as int)),
{
    let chars = str_to_chars(word);
    chars_at(trie, &chars, level)
}

} // verus!
