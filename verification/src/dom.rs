//! A model of the DOM tree that hydration walks: an arena of nodes, each with
//! its node type, its text content, its parent and its ordered children.

use vstd::prelude::*;

verus! {

/// `Node.ELEMENT_NODE`.
pub const ELEMENT_NODE: u16 = 1;

/// `Node.TEXT_NODE`.
pub const TEXT_NODE: u16 = 3;

/// `Node.COMMENT_NODE`.
pub const COMMENT_NODE: u16 = 8;

/// What a node is, as the contracts see it.
#[verifier::ext_equal]
pub struct NodeView {
    pub node_type: u16,
    pub text: Option<Seq<char>>,
    pub parent: Option<usize>,
    pub children: Seq<usize>,
}

/// Depths that rank the tree: every node with a parent lies one deeper than
/// its parent, so no chain of parents returns to where it started.
pub open spec fn ranked(d: Seq<NodeView>, depth: Seq<int>) -> bool {
    &&& depth.len() == d.len()
    &&& forall|n: int| #![trigger d[n]]
        0 <= n < d.len() ==> {
            &&& depth[n] >= 0
            &&& d[n].parent matches Some(p) ==> p < d.len() && depth[n] == depth[p as int] + 1
        }
}

/// The node `k` parent steps above `n`, if the chain goes that far.
pub open spec fn up(d: Seq<NodeView>, n: usize, k: nat) -> Option<usize>
    decreases k,
{
    if k == 0 {
        Some(n)
    } else if n < d.len() {
        match d[n as int].parent {
            Some(q) => up(d, q, (k - 1) as nat),
            None => None,
        }
    } else {
        None
    }
}

/// Whether `a` is `n` or one of its ancestors.
pub open spec fn is_ancestor(d: Seq<NodeView>, a: usize, n: usize) -> bool {
    exists|k: nat| up(d, n, k) == Some(a)
}

/// The tree is well formed: every child is a node whose parent is the node
/// that lists it, no list holds a node twice, every node with a parent is
/// listed by it, no node is its own parent, and no chain of parents cycles.
pub open spec fn tree_wf(d: Seq<NodeView>) -> bool {
    &&& d.len() <= usize::MAX
    &&& exists|depth: Seq<int>| ranked(d, depth)
    &&& forall|n: int, i: int| #![trigger d[n].children[i]]
        0 <= n < d.len() && 0 <= i < d[n].children.len() ==> {
            &&& d[n].children[i] < d.len()
            &&& d[d[n].children[i] as int].parent == Some(n as usize)
        }
    &&& forall|n: int| #![trigger d[n]] 0 <= n < d.len() ==> d[n].children.no_duplicates()
    &&& forall|n: int| #![trigger d[n]]
        0 <= n < d.len() ==> match d[n].parent {
            Some(p) => p < d.len() && p != n && d[p as int].children.contains(n as usize),
            None => true,
        }
}

/// What well-formedness says of the node `n`: its list of children holds no
/// node twice, and its parent, if any, is another node that lists it.
pub proof fn lemma_wf_node(d: Seq<NodeView>, n: int)
    requires
        tree_wf(d),
        0 <= n < d.len(),
    ensures
        d[n].children.no_duplicates(),
        d[n].parent matches Some(p) ==> p < d.len() && p != n && d[p as int].children.contains(n as usize),
{
    assert(d[n].children.no_duplicates());
    assert(match d[n].parent {
        Some(p) => p < d.len() && p != n && d[p as int].children.contains(n as usize),
        None => true,
    });
}

/// What a ranking says of the node `n`: its depth is not negative and lies
/// one below its parent's.
pub proof fn lemma_ranked_node(d: Seq<NodeView>, depth: Seq<int>, n: int)
    requires
        ranked(d, depth),
        0 <= n < d.len(),
    ensures
        depth[n] >= 0,
        d[n].parent matches Some(p) ==> p < d.len() && depth[n] == depth[p as int] + 1,
{
    assert({
        &&& depth[n] >= 0
        &&& d[n].parent matches Some(p) ==> p < d.len() && depth[n] == depth[p as int] + 1
    });
}

/// One more step up a chain that reached `m` goes to `m`'s parent.
pub proof fn lemma_up_step(d: Seq<NodeView>, n: usize, j: nat, m: usize)
    requires
        up(d, n, j) == Some(m),
        m < d.len(),
    ensures
        up(d, n, j + 1) == d[m as int].parent,
    decreases j,
{
    if j > 0 {
        assert(n < d.len());
        assert(d[n as int].parent is Some);
        let q = d[n as int].parent->0;
        assert(up(d, n, j) == up(d, q, (j - 1) as nat));
        lemma_up_step(d, q, (j - 1) as nat, m);
        assert(up(d, n, j + 1) == up(d, q, j));
    } else {
        assert(m == n);
        assert(up(d, n, 1) == d[n as int].parent) by {
            reveal_with_fuel(up, 2);
        }
    }
}

/// A chain that has ended stays ended.
pub proof fn lemma_up_ended(d: Seq<NodeView>, n: usize, j: nat, i: nat)
    requires
        up(d, n, j) is None,
        j <= i,
    ensures
        up(d, n, i) is None,
    decreases j,
{
    if j > 0 && n < d.len() {
        if let Some(q) = d[n as int].parent {
            lemma_up_ended(d, q, (j - 1) as nat, (i - 1) as nat);
        }
    }
}

/// In a ranked tree, the node `k` steps above `n` lies `k` shallower.
pub proof fn lemma_up_depth(d: Seq<NodeView>, depth: Seq<int>, n: usize, k: nat, m: usize)
    requires
        ranked(d, depth),
        n < d.len(),
        up(d, n, k) == Some(m),
    ensures
        m < d.len(),
        depth[n as int] == depth[m as int] + k,
    decreases k,
{
    if k > 0 {
        lemma_ranked_node(d, depth, n as int);
        let q = d[n as int].parent->0;
        lemma_up_depth(d, depth, q, (k - 1) as nat, m);
    }
}

/// The parent of a node that `a` is an ancestor of, other than `a` itself,
/// also has `a` as an ancestor; and a node whose parent has `a` as an
/// ancestor has `a` as an ancestor.
pub proof fn lemma_ancestor_parent(d: Seq<NodeView>, a: usize, n: usize, q: usize)
    requires
        n < d.len(),
        d[n as int].parent == Some(q),
    ensures
        is_ancestor(d, a, n) && n != a ==> is_ancestor(d, a, q),
        is_ancestor(d, a, q) ==> is_ancestor(d, a, n),
{
    if is_ancestor(d, a, n) && n != a {
        let k = choose|k: nat| up(d, n, k) == Some(a);
        assert(k > 0);
        assert(up(d, q, (k - 1) as nat) == Some(a));
    }
    if is_ancestor(d, a, q) {
        let k = choose|k: nat| up(d, q, k) == Some(a);
        assert(up(d, n, k + 1) == Some(a));
    }
}

/// The first child of `n`.
pub open spec fn first_child(d: Seq<NodeView>, n: usize) -> Option<usize> {
    if d[n as int].children.len() > 0 {
        Some(d[n as int].children[0])
    } else {
        None
    }
}

/// The last child of `n`.
pub open spec fn last_child(d: Seq<NodeView>, n: usize) -> Option<usize> {
    if d[n as int].children.len() > 0 {
        Some(d[n as int].children.last())
    } else {
        None
    }
}

/// The parent of `n`, if it is an element.
pub open spec fn parent_element(d: Seq<NodeView>, n: usize) -> Option<usize> {
    match d[n as int].parent {
        Some(p) => if d[p as int].node_type == ELEMENT_NODE {
            Some(p)
        } else {
            None
        },
        None => None,
    }
}

/// The position of `n` among its parent's children.
pub open spec fn index_in_parent(d: Seq<NodeView>, n: usize) -> int {
    d[d[n as int].parent->0 as int].children.index_of(n)
}

/// The sibling after `n`.
pub open spec fn next_sibling(d: Seq<NodeView>, n: usize) -> Option<usize> {
    match d[n as int].parent {
        Some(p) => {
            let i = index_in_parent(d, n);
            if i + 1 < d[p as int].children.len() {
                Some(d[p as int].children[i + 1])
            } else {
                None
            }
        },
        None => None,
    }
}

/// The sibling before `n`.
pub open spec fn previous_sibling(d: Seq<NodeView>, n: usize) -> Option<usize> {
    match d[n as int].parent {
        Some(p) => {
            let i = index_in_parent(d, n);
            if i > 0 {
                Some(d[p as int].children[i - 1])
            } else {
                None
            }
        },
        None => None,
    }
}

/// `n` followed by the siblings after it, in order.
pub open spec fn sibling_run(d: Seq<NodeView>, n: usize) -> Seq<usize> {
    match d[n as int].parent {
        Some(p) => d[p as int].children.subrange(
            index_in_parent(d, n),
            d[p as int].children.len() as int,
        ),
        None => seq![n],
    }
}

/// In a list without duplicates, the index of an element is its position.
pub proof fn lemma_index_of_unique(s: Seq<usize>, i: int)
    requires
        s.no_duplicates(),
        0 <= i < s.len(),
    ensures
        s.index_of(s[i]) == i,
{
    assert(s.contains(s[i]));
    let j = s.index_of(s[i]);
    assert(0 <= j < s.len() && s[j] == s[i]);
}

/// The sibling run of a node starts with the node, and the run of its next
/// sibling is the rest of the run.
pub proof fn lemma_sibling_run(d: Seq<NodeView>, n: usize)
    requires
        tree_wf(d),
        0 <= n < d.len(),
    ensures
        sibling_run(d, n).len() >= 1,
        sibling_run(d, n)[0] == n,
        forall|k: int| 0 <= k < sibling_run(d, n).len() ==> #[trigger] sibling_run(d, n)[k] < d.len(),
        sibling_run(d, n).len() == 1 ==> next_sibling(d, n) is None,
        sibling_run(d, n).len() > 1 ==> next_sibling(d, n) == Some(sibling_run(d, n)[1]),
        sibling_run(d, n).len() > 1 ==> sibling_run(d, sibling_run(d, n)[1]) == sibling_run(d, n).drop_first(),
{
    let run = sibling_run(d, n);
    match d[n as int].parent {
        Some(p) => {
            let ch = d[p as int].children;
            assert(d[n as int].parent == Some(p));
            assert(ch.contains(n));
            let i = index_in_parent(d, n);
            assert(0 <= i < ch.len() && ch[i] == n);
            assert forall|k: int| 0 <= k < run.len() implies #[trigger] run[k] < d.len() by {
                assert(run[k] == ch[i + k]);
                assert(ch[i + k] == d[p as int].children[i + k]);
            }
            if run.len() > 1 {
                let m = ch[i + 1];
                assert(d[m as int].parent == Some(p));
                lemma_index_of_unique(ch, i + 1);
                assert(index_in_parent(d, m) == i + 1);
                assert(sibling_run(d, m) =~= run.drop_first());
            }
        },
        None => {},
    }
}

/// The characters of an optional string.
pub open spec fn opt_chars(t: Option<String>) -> Option<Seq<char>> {
    match t {
        Some(t) => Some(t@),
        None => None,
    }
}

/// `d` with the child `c` of `p` taken out of `p`'s children and detached.
pub open spec fn remove_child_spec(d: Seq<NodeView>, p: usize, c: usize) -> Seq<NodeView> {
    let i = d[p as int].children.index_of(c);
    d.update(p as int, NodeView {
        node_type: d[p as int].node_type,
        text: d[p as int].text,
        parent: d[p as int].parent,
        children: d[p as int].children.remove(i),
    }).update(c as int, NodeView {
        node_type: d[c as int].node_type,
        text: d[c as int].text,
        parent: None,
        children: d[c as int].children,
    })
}

/// The position at which a node inserted into `p` before `reference` lands:
/// the reference's position, or the end when there is no reference.
pub open spec fn insert_position(d: Seq<NodeView>, p: usize, reference: Option<usize>) -> int {
    match reference {
        Some(r) => d[p as int].children.index_of(r),
        None => d[p as int].children.len() as int,
    }
}

/// `d` with the detached node `c` inserted into `p`'s children before
/// `reference` (at the end when there is none).
pub open spec fn insert_before_spec(d: Seq<NodeView>, p: usize, c: usize, reference: Option<usize>) -> Seq<NodeView> {
    d.update(p as int, NodeView {
        node_type: d[p as int].node_type,
        text: d[p as int].text,
        parent: d[p as int].parent,
        children: d[p as int].children.insert(insert_position(d, p, reference), c),
    }).update(c as int, NodeView {
        node_type: d[c as int].node_type,
        text: d[c as int].text,
        parent: Some(p),
        children: d[c as int].children,
    })
}

/// A node listed as a child is not detached, so a detached node is listed by
/// no node.
pub proof fn lemma_detached_unlisted(d: Seq<NodeView>, c: usize, n: int)
    requires
        tree_wf(d),
        c < d.len(),
        d[c as int].parent is None,
        0 <= n < d.len(),
    ensures
        !d[n].children.contains(c),
{
    if d[n].children.contains(c) {
        let i = choose|i: int| 0 <= i < d[n].children.len() && d[n].children[i] == c;
        assert(d[d[n].children[i] as int].parent == Some(n as usize));
    }
}

/// Taking a child out of its parent keeps the tree well formed.
pub proof fn lemma_remove_child_wf(d: Seq<NodeView>, p: usize, c: usize)
    requires
        tree_wf(d),
        c < d.len(),
        d[c as int].parent == Some(p),
    ensures
        tree_wf(remove_child_spec(d, p, c)),
        remove_child_spec(d, p, c).len() == d.len(),
{
    let e = remove_child_spec(d, p, c);
    let depth = choose|depth: Seq<int>| ranked(d, depth);
    assert(ranked(e, depth)) by {
        assert forall|n: int| #![trigger e[n]] 0 <= n < e.len() implies {
            &&& depth[n] >= 0
            &&& e[n].parent matches Some(q) ==> q < e.len() && depth[n] == depth[q as int] + 1
        } by {
            lemma_ranked_node(d, depth, n);
            if n != c {
                assert(e[n].parent == d[n].parent);
            }
        }
    }
    assert(d[c as int].parent == Some(p));
    assert(p < d.len() && p != c);
    let ch = d[p as int].children;
    assert(ch.contains(c));
    let i = ch.index_of(c);
    assert(0 <= i < ch.len() && ch[i] == c);
    let nch = ch.remove(i);
    assert(e[p as int].children == nch);
    assert forall|n: int, j: int| #![trigger e[n].children[j]]
        0 <= n < e.len() && 0 <= j < e[n].children.len() implies {
            &&& e[n].children[j] < e.len()
            &&& e[e[n].children[j] as int].parent == Some(n as usize)
        } by {
        if n == p {
            let k = if j < i { j } else { j + 1 };
            assert(nch[j] == ch[k]);
            assert(ch[k] != c);
            assert(d[ch[k] as int].parent == Some(p));
        } else if n == c {
            assert(e[n].children[j] == d[n].children[j]);
            let m = d[n].children[j];
            assert(d[m as int].parent == Some(n as usize));
            assert(m != c);
        } else {
            assert(e[n] == d[n]);
            let m = d[n].children[j];
            assert(d[m as int].parent == Some(n as usize));
            assert(m != c);
        }
    }
    assert forall|n: int| #![trigger e[n]] 0 <= n < e.len() implies e[n].children.no_duplicates() by {
        if n == p {
            assert(d[p as int].children.no_duplicates());
            assert forall|a: int, b: int| 0 <= a < nch.len() && 0 <= b < nch.len() && a != b implies nch[a] != nch[b] by {
                let ka = if a < i { a } else { a + 1 };
                let kb = if b < i { b } else { b + 1 };
                assert(nch[a] == ch[ka]);
                assert(nch[b] == ch[kb]);
            }
        } else {
            assert(d[n].children.no_duplicates());
            assert(e[n].children == d[n].children);
        }
    }
    assert forall|n: int| #![trigger e[n]] 0 <= n < e.len() implies match e[n].parent {
        Some(q) => q < e.len() && q != n && e[q as int].children.contains(n as usize),
        None => true,
    } by {
        if n != c {
            assert(e[n].parent == d[n].parent);
            lemma_wf_node(d, n);
            match d[n].parent {
                Some(q) => {
                    assert(d[q as int].children.contains(n as usize));
                    let k = choose|k: int| 0 <= k < d[q as int].children.len() && d[q as int].children[k] == n as usize;
                    if q == p {
                        assert(k != i);
                        let j = if k < i { k } else { k - 1 };
                        assert(nch[j] == n as usize);
                    } else {
                        assert(e[q as int].children == d[q as int].children);
                    }
                },
                None => {},
            }
        }
    }
}

/// Inserting a node that is not an ancestor of the parent keeps the tree
/// ranked: the inserted subtree moves to lie below the parent.
proof fn lemma_insert_before_ranked(d: Seq<NodeView>, p: usize, c: usize, reference: Option<usize>)
    requires
        tree_wf(d),
        p < d.len(),
        c < d.len(),
        !is_ancestor(d, c, p),
        d[c as int].parent is None,
    ensures
        exists|depth: Seq<int>| ranked(insert_before_spec(d, p, c, reference), depth),
{
    let e = insert_before_spec(d, p, c, reference);
    let depth = choose|depth: Seq<int>| ranked(d, depth);
    let nd = Seq::new(
        d.len(),
        |n: int|
            if is_ancestor(d, c, n as usize) {
                depth[n] - depth[c as int] + depth[p as int] + 1
            } else {
                depth[n]
            },
    );
    assert(up(d, c, 0) == Some(c));
    assert(is_ancestor(d, c, c));
    lemma_ranked_node(d, depth, p as int);
    assert forall|n: int| #![trigger e[n]] 0 <= n < e.len() implies {
        &&& nd[n] >= 0
        &&& e[n].parent matches Some(q) ==> q < e.len() && nd[n] == nd[q as int] + 1
    } by {
        lemma_ranked_node(d, depth, n);
        let nn = n as usize;
        if is_ancestor(d, c, nn) {
            let k = choose|k: nat| #[trigger] up(d, nn, k) == Some(c);
            lemma_up_depth(d, depth, nn, k, c);
        }
        if n == c {
            assert(e[n].parent == Some(p));
        } else {
            assert(e[n].parent == d[n].parent);
            if let Some(q) = d[n].parent {
                lemma_ancestor_parent(d, c, n as usize, q);
                lemma_ranked_node(d, depth, q as int);
            }
        }
    }
    assert(ranked(e, nd));
}

/// Inserting a detached node into a node other than itself keeps the tree
/// well formed.
pub proof fn lemma_insert_before_wf(d: Seq<NodeView>, p: usize, c: usize, reference: Option<usize>)
    requires
        tree_wf(d),
        p < d.len(),
        c < d.len(),
        !is_ancestor(d, c, p),
        d[c as int].parent is None,
        reference matches Some(r) ==> r < d.len() && d[r as int].parent == Some(p),
    ensures
        tree_wf(insert_before_spec(d, p, c, reference)),
        insert_before_spec(d, p, c, reference).len() == d.len(),
        0 <= insert_position(d, p, reference) <= d[p as int].children.len(),
{
    let e = insert_before_spec(d, p, c, reference);
    assert(up(d, p, 0) == Some(p));
    assert(p != c);
    lemma_insert_before_ranked(d, p, c, reference);
    let ch = d[p as int].children;
    let i = insert_position(d, p, reference);
    match reference {
        Some(r) => {
            assert(d[r as int].parent == Some(p));
            assert(ch.contains(r));
            assert(0 <= i < ch.len() && ch[i] == r);
        },
        None => {},
    }
    let nch = ch.insert(i, c);
    assert(e[p as int].children == nch);
    assert forall|n: int| 0 <= n < d.len() implies !(#[trigger] d[n].children.contains(c)) by {
        lemma_detached_unlisted(d, c, n);
    }
    assert forall|n: int, j: int| #![trigger e[n].children[j]]
        0 <= n < e.len() && 0 <= j < e[n].children.len() implies {
            &&& e[n].children[j] < e.len()
            &&& e[e[n].children[j] as int].parent == Some(n as usize)
        } by {
        if n == p {
            if j == i {
                assert(nch[j] == c);
            } else {
                let k = if j < i { j } else { j - 1 };
                assert(nch[j] == ch[k]);
                assert(d[ch[k] as int].parent == Some(p));
                assert(!d[p as int].children.contains(c));
                assert(ch[k] != c);
            }
        } else {
            assert(e[n].children == d[n].children);
            let m = d[n].children[j];
            assert(d[m as int].parent == Some(n as usize));
            assert(!d[n].children.contains(c));
            assert(m != c);
        }
    }
    assert forall|n: int| #![trigger e[n]] 0 <= n < e.len() implies e[n].children.no_duplicates() by {
        if n == p {
            assert(d[p as int].children.no_duplicates());
            assert(!ch.contains(c));
            assert forall|a: int, b: int| 0 <= a < nch.len() && 0 <= b < nch.len() && a != b implies nch[a] != nch[b] by {
                if a != i && b != i {
                    let ka = if a < i { a } else { a - 1 };
                    let kb = if b < i { b } else { b - 1 };
                    assert(nch[a] == ch[ka]);
                    assert(nch[b] == ch[kb]);
                } else if a == i {
                    let kb = if b < i { b } else { b - 1 };
                    assert(nch[b] == ch[kb]);
                } else {
                    let ka = if a < i { a } else { a - 1 };
                    assert(nch[a] == ch[ka]);
                }
            }
        } else {
            assert(d[n].children.no_duplicates());
            assert(e[n].children == d[n].children);
        }
    }
    assert forall|n: int| #![trigger e[n]] 0 <= n < e.len() implies match e[n].parent {
        Some(q) => q < e.len() && q != n && e[q as int].children.contains(n as usize),
        None => true,
    } by {
        if n == c {
            assert(nch[i] == c);
        } else {
            assert(e[n].parent == d[n].parent);
            lemma_wf_node(d, n);
            match d[n].parent {
                Some(q) => {
                    assert(d[q as int].children.contains(n as usize));
                    let k = choose|k: int| 0 <= k < d[q as int].children.len() && d[q as int].children[k] == n as usize;
                    if q == p {
                        let j = if k < i { k } else { k + 1 };
                        assert(nch[j] == n as usize);
                    } else {
                        assert(e[q as int].children == d[q as int].children);
                    }
                },
                None => {},
            }
        }
    }
}

/// Taking a child out of its parent and inserting it back before the sibling
/// that followed it (at the end when none did) restores the tree.
pub proof fn lemma_remove_then_reinsert(d: Seq<NodeView>, p: usize, c: usize)
    requires
        tree_wf(d),
        c < d.len(),
        d[c as int].parent == Some(p),
    ensures
        insert_before_spec(remove_child_spec(d, p, c), p, c, next_sibling(d, c)) == d,
{
    lemma_remove_child_wf(d, p, c);
    let e = remove_child_spec(d, p, c);
    assert(d[c as int].parent == Some(p));
    assert(p < d.len() && p != c);
    let ch = d[p as int].children;
    assert(ch.contains(c));
    let i = ch.index_of(c);
    assert(0 <= i < ch.len() && ch[i] == c);
    let ech = e[p as int].children;
    assert(ech == ch.remove(i));
    let next = next_sibling(d, c);
    assert(index_in_parent(d, c) == i);
    let pos = insert_position(e, p, next);
    if i + 1 < ch.len() {
        assert(next == Some(ch[i + 1]));
        assert(ech[i] == ch[i + 1]);
        lemma_wf_node(e, p as int);
        lemma_index_of_unique(ech, i);
        assert(pos == i);
    } else {
        assert(next is None);
        assert(pos == ech.len());
        assert(pos == i);
    }
    assert(ech.insert(i, c) =~= ch);
    let f = insert_before_spec(e, p, c, next);
    assert forall|n: int| 0 <= n < d.len() implies #[trigger] f[n] == d[n] by {
        if n == p as int {
            assert(f[n] =~= d[n]);
        } else if n == c as int {
            assert(f[n] =~= d[n]);
        }
    }
    assert(f =~= d);
}

/// A node of the tree.
struct DomNode {
    node_type: u16,
    text: Option<String>,
    parent: Option<usize>,
    children: Vec<usize>,
}

impl DomNode {
    closed spec fn view(&self) -> NodeView {
        NodeView {
            node_type: self.node_type,
            text: opt_chars(self.text),
            parent: self.parent,
            children: self.children@,
        }
    }
}

/// An arena of DOM nodes, identified by their index.
pub struct Dom {
    nodes: Vec<DomNode>,
}

impl View for Dom {
    type V = Seq<NodeView>;

    closed spec fn view(&self) -> Seq<NodeView> {
        self.nodes@.map_values(|n: DomNode| n.view())
    }
}

/// Returns the position of the first occurrence of `x` in `v`.
fn find_index(v: &Vec<usize>, x: usize) -> (r: Option<usize>)
    ensures
        match r {
            Some(i) => i < v@.len() && v@[i as int] == x && forall|j: int| 0 <= j < i ==> v@[j] != x,
            None => !v@.contains(x),
        },
{
    let mut i: usize = 0;
    while i < v.len()
        invariant
            0 <= i <= v@.len(),
            forall|j: int| 0 <= j < i ==> v@[j] != x,
        decreases v@.len() - i,
    {
        if v[i] == x {
            return Some(i);
        }
        i = i + 1;
    }
    None
}

impl Dom {
    /// Well-formedness of the tree.
    pub open spec fn wf(&self) -> bool {
        tree_wf(self@)
    }

    /// An empty arena.
    pub fn new() -> (r: Self)
        ensures
            r.wf(),
            r@ == Seq::<NodeView>::empty(),
    {
        let r = Dom { nodes: Vec::new() };
        proof {
            assert(r@ =~= Seq::<NodeView>::empty());
            assert(ranked(r@, Seq::<int>::empty()));
        }
        r
    }

    /// The number of nodes.
    pub fn len(&self) -> (r: usize)
        ensures
            r == self@.len(),
    {
        self.nodes.len()
    }

    /// Adds a detached node with no children and returns it.
    pub fn create_node(&mut self, node_type: u16, text: Option<String>) -> (n: usize)
        requires
            old(self).wf(),
            old(self)@.len() < usize::MAX,
        ensures
            final(self).wf(),
            n == old(self)@.len(),
            final(self)@ == old(self)@.push(NodeView {
                node_type,
                text: opt_chars(text),
                parent: None,
                children: Seq::empty(),
            }),
    {
        let n = self.nodes.len();
        let ghost v = NodeView { node_type, text: opt_chars(text), parent: None, children: Seq::empty() };
        self.nodes.push(DomNode { node_type, text, parent: None, children: Vec::new() });
        proof {
            assert(self.nodes@[n as int].view() =~= v);
            assert(self@ =~= old(self)@.push(v));
            let d = self@;
            assert forall|m: int, i: int| #![trigger d[m].children[i]]
                0 <= m < d.len() && 0 <= i < d[m].children.len() implies {
                    &&& d[m].children[i] < d.len()
                    &&& d[d[m].children[i] as int].parent == Some(m as usize)
                } by {
                assert(m < n);
                assert(old(self)@[m].children[i] < old(self)@.len());
            }
            assert forall|m: int| #![trigger d[m]] 0 <= m < d.len() implies match d[m].parent {
                Some(p) => p < d.len() && p != m && d[p as int].children.contains(m as usize),
                None => true,
            } by {
                if m < n {
                    assert(d[m] == old(self)@[m]);
                    match d[m].parent {
                        Some(p) => {
                            assert(old(self)@[m].parent == Some(p));
                            assert(old(self)@[p as int].children.contains(m as usize));
                            assert(d[p as int] == old(self)@[p as int]);
                        },
                        None => {},
                    }
                }
            }
            let od = old(self)@;
            let depth = choose|depth: Seq<int>| ranked(od, depth);
            let nd = depth.push(0);
            assert forall|m: int| #![trigger d[m]] 0 <= m < d.len() implies {
                &&& nd[m] >= 0
                &&& d[m].parent matches Some(q) ==> q < d.len() && nd[m] == nd[q as int] + 1
            } by {
                if m < n {
                    assert(d[m] == od[m]);
                    lemma_ranked_node(od, depth, m);
                }
            }
            assert(ranked(d, nd));
        }
        n
    }

    /// The node type of `n`.
    pub fn node_type(&self, n: usize) -> (r: u16)
        requires
            n < self@.len(),
        ensures
            r == self@[n as int].node_type,
    {
        self.nodes[n].node_type
    }

    /// The text content of `n`.
    pub fn text_content(&self, n: usize) -> (r: Option<&str>)
        requires
            n < self@.len(),
        ensures
            match r {
                Some(t) => self@[n as int].text == Some(t@),
                None => self@[n as int].text is None,
            },
    {
        match &self.nodes[n].text {
            Some(t) => Some(t.as_str()),
            None => None,
        }
    }

    /// The parent of `n`.
    pub fn parent_node(&self, n: usize) -> (r: Option<usize>)
        requires
            n < self@.len(),
        ensures
            r == self@[n as int].parent,
    {
        self.nodes[n].parent
    }

    /// The parent of `n`, if it is an element.
    pub fn parent_element(&self, n: usize) -> (r: Option<usize>)
        requires
            self.wf(),
            n < self@.len(),
        ensures
            r == parent_element(self@, n),
    {
        match self.nodes[n].parent {
            Some(p) => {
                proof {
                    assert(self@[n as int].parent == Some(p));
                }
                if self.nodes[p].node_type == ELEMENT_NODE {
                    Some(p)
                } else {
                    None
                }
            },
            None => None,
        }
    }

    /// The children of `n`, in order.
    pub fn children(&self, n: usize) -> (r: &Vec<usize>)
        requires
            n < self@.len(),
        ensures
            r@ == self@[n as int].children,
    {
        &self.nodes[n].children
    }

    /// The first child of `n`.
    pub fn first_child(&self, n: usize) -> (r: Option<usize>)
        requires
            n < self@.len(),
        ensures
            r == first_child(self@, n),
    {
        if self.nodes[n].children.len() > 0 {
            Some(self.nodes[n].children[0])
        } else {
            None
        }
    }

    /// The last child of `n`.
    pub fn last_child(&self, n: usize) -> (r: Option<usize>)
        requires
            n < self@.len(),
        ensures
            r == last_child(self@, n),
    {
        let len = self.nodes[n].children.len();
        if len > 0 {
            Some(self.nodes[n].children[len - 1])
        } else {
            None
        }
    }

    /// The position of `n` among its parent's children.
    fn position_in_parent(&self, n: usize, p: usize) -> (i: usize)
        requires
            self.wf(),
            n < self@.len(),
            self@[n as int].parent == Some(p),
        ensures
            i < self@[p as int].children.len(),
            i == index_in_parent(self@, n),
            self@[p as int].children[i as int] == n,
    {
        proof {
            assert(self@[n as int].parent == Some(p));
            assert(self@[p as int].children.contains(n));
        }
        match find_index(&self.nodes[p].children, n) {
            Some(i) => {
                proof {
                    assert(self@[p as int].children[i as int] == n);
                    lemma_index_of_unique(self@[p as int].children, i as int);
                }
                i
            },
            None => {
                proof {
                    assert(false);
                }
                0
            },
        }
    }

    /// The sibling after `n`.
    pub fn next_sibling(&self, n: usize) -> (r: Option<usize>)
        requires
            self.wf(),
            n < self@.len(),
        ensures
            r == next_sibling(self@, n),
    {
        match self.nodes[n].parent {
            Some(p) => {
                let i = self.position_in_parent(n, p);
                if self.nodes[p].children.len() - i > 1 {
                    Some(self.nodes[p].children[i + 1])
                } else {
                    None
                }
            },
            None => None,
        }
    }

    /// The sibling before `n`.
    pub fn previous_sibling(&self, n: usize) -> (r: Option<usize>)
        requires
            self.wf(),
            n < self@.len(),
        ensures
            r == previous_sibling(self@, n),
    {
        match self.nodes[n].parent {
            Some(p) => {
                let i = self.position_in_parent(n, p);
                if i > 0 {
                    Some(self.nodes[p].children[i - 1])
                } else {
                    None
                }
            },
            None => None,
        }
    }
    /// Whether `a` is `n` or one of its ancestors.
    pub fn is_ancestor(&self, a: usize, n: usize) -> (r: bool)
        requires
            self.wf(),
            n < self@.len(),
        ensures
            r == is_ancestor(self@, a, n),
    {
        let ghost d = self@;
        let ghost depth = choose|depth: Seq<int>| ranked(d, depth);
        let mut cur = n;
        let ghost mut j: nat = 0;
        loop
            invariant
                self@ == d,
                ranked(d, depth),
                tree_wf(d),
                n < d.len(),
                cur < d.len(),
                up(d, n, j) == Some(cur),
                forall|i: nat| i < j ==> #[trigger] up(d, n, i) != Some(a),
            decreases depth[cur as int],
        {
            if cur == a {
                return true;
            }
            proof {
                lemma_up_step(d, n, j, cur);
                lemma_ranked_node(d, depth, cur as int);
            }
            match self.nodes[cur].parent {
                Some(q) => {
                    proof {
                        assert(d[cur as int].parent == Some(q));
                        j = j + 1;
                    }
                    cur = q;
                },
                None => {
                    proof {
                        assert(up(d, n, j + 1) is None);
                        assert forall|k: nat| up(d, n, k) != Some(a) by {
                            if k > j {
                                lemma_up_ended(d, n, j + 1, k);
                            } else if k == j {
                            } else {
                                assert(k < j);
                            }
                        }
                    }
                    return false;
                },
            }
        }
    }

    /// Takes the child `child` out of `parent`'s children; it becomes
    /// detached.
    pub fn remove_child(&mut self, parent: usize, child: usize)
        requires
            old(self).wf(),
            child < old(self)@.len(),
            old(self)@[child as int].parent == Some(parent),
        ensures
            final(self).wf(),
            final(self)@ == remove_child_spec(old(self)@, parent, child),
    {
        proof {
            lemma_remove_child_wf(self@, parent, child);
            assert(self@[child as int].parent == Some(parent));
        }
        let i = self.position_in_parent(child, parent);
        self.nodes[parent].children.remove(i);
        self.nodes[child].parent = None;
        proof {
            let e = remove_child_spec(old(self)@, parent, child);
            assert(self.nodes@[parent as int].view() =~= e[parent as int]);
            assert(self.nodes@[child as int].view() =~= e[child as int]);
            assert(self@ =~= e);
        }
    }

    /// Inserts the detached node `node` into `parent`'s children before
    /// `reference`, or at the end when there is no reference.
    pub fn insert_before(&mut self, parent: usize, node: usize, reference: Option<usize>)
        requires
            old(self).wf(),
            parent < old(self)@.len(),
            node < old(self)@.len(),
            !is_ancestor(old(self)@, node, parent),
            old(self)@[node as int].parent is None,
            reference matches Some(r) ==> r < old(self)@.len() && old(self)@[r as int].parent == Some(parent),
        ensures
            final(self).wf(),
            final(self)@ == insert_before_spec(old(self)@, parent, node, reference),
    {
        proof {
            lemma_insert_before_wf(self@, parent, node, reference);
        }
        let i = match reference {
            Some(r) => self.position_in_parent(r, parent),
            None => self.nodes[parent].children.len(),
        };
        self.nodes[parent].children.insert(i, node);
        self.nodes[node].parent = Some(parent);
        proof {
            let e = insert_before_spec(old(self)@, parent, node, reference);
            assert(self.nodes@[parent as int].view() =~= e[parent as int]);
            assert(self.nodes@[node as int].view() =~= e[node as int]);
            assert(self@ =~= e);
        }
    }

    /// Appends the detached node `node` to `parent`'s children.
    pub fn append_child(&mut self, parent: usize, node: usize)
        requires
            old(self).wf(),
            parent < old(self)@.len(),
            node < old(self)@.len(),
            !is_ancestor(old(self)@, node, parent),
            old(self)@[node as int].parent is None,
        ensures
            final(self).wf(),
            final(self)@ == insert_before_spec(old(self)@, parent, node, None),
    {
        self.insert_before(parent, node, None);
    }
}

} // verus!
