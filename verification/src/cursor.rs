//! The hydration cursor: the location in the DOM that is currently being
//! hydrated, and the branch markers (`<!--bo-ID-->` ... `<!--bc-ID-->`) that
//! delimit the server-rendered branches of the tree.

use vstd::prelude::*;
use crate::dom::{
    first_child, index_in_parent, last_child, lemma_index_of_unique, lemma_sibling_run, lemma_wf_node, next_sibling,
    parent_element, previous_sibling, remove_child_spec, sibling_run, tree_wf, Dom, NodeView,
    COMMENT_NODE,
};
use crate::mount::Mountable;

verus! {

/// Where the next node to hydrate lies relative to the cursor.
#[derive(Clone, Copy, Debug, PartialEq, Eq, Structural)]
pub enum Position {
    Current,
    FirstChild,
    NextChild,
    NextChildAfterText,
    OnlyChild,
    LastChild,
}

/// Whether `n` is a comment whose text begins with `bo` or `bc`: a branch
/// marker that walking the tree steps over.
pub open spec fn is_marker_comment(d: Seq<NodeView>, n: usize) -> bool {
    &&& d[n as int].node_type == COMMENT_NODE
    &&& d[n as int].text matches Some(t)
    &&& t.len() >= 2
    &&& t[0] == 'b'
    &&& (t[1] == 'o' || t[1] == 'c')
}

/// From position `k` of a sibling run, the position reached by stepping over
/// marker comments while a next sibling exists.
pub open spec fn skip_index(d: Seq<NodeView>, run: Seq<usize>, k: int) -> int
    decreases run.len() - k,
{
    if 0 <= k && k + 1 < run.len() && is_marker_comment(d, run[k]) {
        skip_index(d, run, k + 1)
    } else {
        k
    }
}

/// The node reached from `n` by stepping over marker comments.
pub open spec fn skip_markers(d: Seq<NodeView>, n: usize) -> usize {
    let run = sibling_run(d, n);
    run[skip_index(d, run, 0)]
}

/// Where `child` moves a cursor at `n`: to the first child if there is one,
/// then, when branch markers are in use, over marker comments; nowhere when
/// there is no child.
pub open spec fn child_target(d: Seq<NodeView>, n: usize, marks: bool) -> usize {
    match first_child(d, n) {
        Some(c) => if marks {
            skip_markers(d, c)
        } else {
            c
        },
        None => n,
    }
}

/// Where `sibling` moves a cursor at `n`: to the next sibling if there is
/// one, then, when branch markers are in use, over marker comments; nowhere
/// when there is no sibling.
pub open spec fn sibling_target(d: Seq<NodeView>, n: usize, marks: bool) -> usize {
    match next_sibling(d, n) {
        Some(c) => if marks {
            skip_markers(d, c)
        } else {
            c
        },
        None => n,
    }
}

/// Where advancing to a placeholder moves a cursor at `n`: to the child when
/// the position is the first child, to the sibling otherwise.
pub open spec fn placeholder_target(d: Seq<NodeView>, n: usize, position: Position, marks: bool) -> usize {
    if position is FirstChild {
        child_target(d, n, marks)
    } else {
        sibling_target(d, n, marks)
    }
}

/// The branch marker that `n` is, if any: an opening marker `bo-ID` or a
/// closing marker `bc-ID` comment, with its id.
pub open spec fn branch_marker(d: Seq<NodeView>, n: usize) -> Option<(bool, Seq<char>)> {
    if d[n as int].node_type != COMMENT_NODE {
        None
    } else {
        match d[n as int].text {
            None => None,
            Some(t) => if t.len() >= 3 && t[0] == 'b' && t[1] == 'o' && t[2] == '-' {
                Some((true, t.skip(3)))
            } else if t.len() >= 3 && t[0] == 'b' && t[1] == 'c' && t[2] == '-' {
                Some((false, t.skip(3)))
            } else {
                None
            },
        }
    }
}

/// The node where a search for a branch marker starts, from a cursor at `n`.
pub open spec fn marker_start(d: Seq<NodeView>, n: usize, position: Position) -> Option<usize> {
    match position {
        Position::Current => Some(n),
        Position::FirstChild => first_child(d, n),
        _ => next_sibling(d, n),
    }
}

/// The opening branch marker at the search start, with its id.
pub open spec fn next_opening_marker(d: Seq<NodeView>, n: usize, position: Position) -> Option<(usize, Seq<char>)> {
    match marker_start(d, n, position) {
        None => None,
        Some(m) => match branch_marker(d, m) {
            Some((true, id)) => Some((m, id)),
            _ => None,
        },
    }
}

/// In a run of consecutive opening markers starting at position `k`, the
/// position of the first whose id is a candidate; none when the run of
/// opening markers ends first.
pub open spec fn match_index(d: Seq<NodeView>, run: Seq<usize>, k: int, candidates: Seq<Seq<char>>) -> Option<int>
    decreases run.len() - k,
{
    if k < 0 || k >= run.len() {
        None
    } else {
        match branch_marker(d, run[k]) {
            Some((true, id)) => if candidates.contains(id) {
                Some(k)
            } else {
                match_index(d, run, k + 1, candidates)
            },
            _ => None,
        }
    }
}

/// The opening marker, among the consecutive opening markers at the search
/// start, whose id is the first to be one of the candidates.
pub open spec fn next_matching_marker(
    d: Seq<NodeView>,
    n: usize,
    position: Position,
    candidates: Seq<Seq<char>>,
) -> Option<(usize, Seq<char>)> {
    match next_opening_marker(d, n, position) {
        None => None,
        Some((m, _)) => {
            let run = sibling_run(d, m);
            match match_index(d, run, 0, candidates) {
                Some(k) => match branch_marker(d, run[k]) {
                    Some((_, id)) => Some((run[k], id)),
                    None => None,
                },
                None => None,
            }
        },
    }
}

/// The marker depth after the first `j` nodes of a run: an opening marker
/// adds one, a closing marker takes one away (never below zero).
pub open spec fn depth_after(d: Seq<NodeView>, run: Seq<usize>, j: int) -> nat
    decreases j,
{
    if j <= 0 {
        0
    } else {
        let depth = depth_after(d, run, j - 1);
        match branch_marker(d, run[j - 1]) {
            Some((true, _)) => depth + 1,
            Some((false, _)) => if depth == 0 {
                0
            } else {
                (depth - 1) as nat
            },
            None => depth,
        }
    }
}

/// From position `j` of a run, the number of nodes of the run up to and
/// including the first at which the depth comes back to zero; the whole run
/// when it never does.
pub open spec fn count_from(d: Seq<NodeView>, run: Seq<usize>, j: int) -> int
    decreases run.len() - j,
{
    if j < 0 || j >= run.len() {
        run.len() as int
    } else if depth_after(d, run, j + 1) == 0 {
        j + 1
    } else {
        count_from(d, run, j + 1)
    }
}

/// The branch a replacement takes out, from a cursor at `n`: the parent
/// element of the matching opening marker, the marker's position among the
/// parent's children, and how many nodes from there the branch spans (up to
/// its balancing closing marker).
pub open spec fn branch_range(
    d: Seq<NodeView>,
    n: usize,
    position: Position,
    candidates: Seq<Seq<char>>,
) -> Option<(usize, int, int)> {
    match next_matching_marker(d, n, position, candidates) {
        None => None,
        Some((m, _)) => match parent_element(d, m) {
            None => None,
            Some(p) => Some((p, index_in_parent(d, m), count_from(d, sibling_run(d, m), 0))),
        },
    }
}

/// The node after a removed range of `p`'s children, if any.
pub open spec fn node_after_range(d: Seq<NodeView>, p: usize, start: int, count: int) -> Option<usize> {
    if start + count < d[p as int].children.len() {
        Some(d[p as int].children[start + count])
    } else {
        None
    }
}

/// `d` with the `count` children of `p` from position `start` taken out and
/// detached.
pub open spec fn remove_range_spec(d: Seq<NodeView>, p: usize, start: int, count: int) -> Seq<NodeView> {
    let ch = d[p as int].children;
    Seq::new(
        d.len(),
        |n: int|
            if n == p {
                NodeView {
                    node_type: d[n].node_type,
                    text: d[n].text,
                    parent: d[n].parent,
                    children: ch.take(start) + ch.skip(start + count),
                }
            } else if ch.subrange(start, start + count).contains(n as usize) {
                NodeView { node_type: d[n].node_type, text: d[n].text, parent: None, children: d[n].children }
            } else {
                d[n]
            },
    )
}

/// Where the cursor goes once a replacement is mounted: the node before the
/// node after the removed range, or else the parent's last child.
pub open spec fn reattach_target(d: Seq<NodeView>, p: usize, after: Option<usize>) -> Option<usize> {
    match after {
        Some(a) => match previous_sibling(d, a) {
            Some(s) => Some(s),
            None => last_child(d, p),
        },
        None => last_child(d, p),
    }
}

/// The depth after `j` nodes is at most `j`.
proof fn lemma_depth_bound(d: Seq<NodeView>, run: Seq<usize>, j: int)
    ensures
        j >= 0 ==> depth_after(d, run, j) <= j,
    decreases j,
{
    if j > 0 {
        lemma_depth_bound(d, run, j - 1);
    }
}

/// The count from position `j` lies between `j` and the run's length.
proof fn lemma_count_bounds(d: Seq<NodeView>, run: Seq<usize>, j: int)
    requires
        0 <= j,
    ensures
        j <= count_from(d, run, j) <= run.len() || (j > run.len() && count_from(d, run, j) == run.len()),
        count_from(d, run, j) >= 0,
    decreases run.len() - j,
{
    if j < run.len() && depth_after(d, run, j + 1) != 0 {
        lemma_count_bounds(d, run, j + 1);
    }
}

/// Removing nothing changes nothing.
proof fn lemma_remove_range_empty(d: Seq<NodeView>, p: usize, start: int)
    requires
        p < d.len(),
        0 <= start <= d[p as int].children.len(),
    ensures
        remove_range_spec(d, p, start, 0) == d,
{
    let e = remove_range_spec(d, p, start, 0);
    let ch = d[p as int].children;
    assert(ch.take(start) + ch.skip(start) =~= ch);
    assert forall|n: int| 0 <= n < d.len() implies #[trigger] e[n] == d[n] by {
        assert(!ch.subrange(start, start).contains(n as usize));
        if n == p {
            assert(e[n] =~= d[n]);
        }
    }
    assert(e =~= d);
}

/// One more step of removing a range: in the tree with `j` nodes removed,
/// the next node of the range sits at the range's start, its next sibling is
/// the node after it in the untouched list, and removing it gives the tree
/// with `j + 1` nodes removed.
proof fn lemma_remove_range_step(d: Seq<NodeView>, p: usize, start: int, j: int)
    requires
        tree_wf(d),
        p < d.len(),
        0 <= j,
        0 <= start,
        start + j < d[p as int].children.len(),
        tree_wf(remove_range_spec(d, p, start, j)),
    ensures
        ({
            let ch = d[p as int].children;
            let e = remove_range_spec(d, p, start, j);
            let c = ch[start + j];
            &&& c < d.len()
            &&& c != p
            &&& e.len() == d.len()
            &&& e[c as int].parent == Some(p)
            &&& e[c as int].node_type == d[c as int].node_type
            &&& e[c as int].text == d[c as int].text
            &&& next_sibling(e, c) == (if start + j + 1 < ch.len() {
                Some(ch[start + j + 1])
            } else {
                None
            })
            &&& remove_child_spec(e, p, c) == remove_range_spec(d, p, start, j + 1)
        }),
{
    let ch = d[p as int].children;
    let e = remove_range_spec(d, p, start, j);
    let c = ch[start + j];
    assert(d[c as int].parent == Some(p));
    lemma_wf_node(d, c as int);
    lemma_wf_node(d, p as int);
    assert(c != p);
    assert(ch.no_duplicates());
    assert(!ch.subrange(start, start + j).contains(c)) by {
        let sub = ch.subrange(start, start + j);
        if sub.contains(c) {
            let k = choose|k: int| 0 <= k < sub.len() && #[trigger] sub[k] == c;
            assert(ch[start + k] == c);
        }
    }
    assert(e[c as int] == d[c as int]);
    let ech = e[p as int].children;
    assert(ech == ch.take(start) + ch.skip(start + j));
    assert(ech[start] == c);
    lemma_index_of_unique(ech, start);
    assert(index_in_parent(e, c) == start);
    if start + j + 1 < ch.len() {
        assert(ech[start + 1] == ch[start + j + 1]);
    }
    let f = remove_child_spec(e, p, c);
    let g = remove_range_spec(d, p, start, j + 1);
    assert(ech.remove(start) =~= ch.take(start) + ch.skip(start + j + 1));
    assert forall|n: int| 0 <= n < d.len() implies #[trigger] f[n] == g[n] by {
        if n == p {
            assert(f[n] =~= g[n]);
        } else if n == c {
            assert(ch.subrange(start, start + j + 1)[j] == c);
            assert(f[n] =~= g[n]);
        } else {
            assert(ch.subrange(start, start + j).contains(n as usize) <==> ch.subrange(start, start + j + 1).contains(n as usize)) by {
                let s1 = ch.subrange(start, start + j + 1);
                let s0 = ch.subrange(start, start + j);
                if s1.contains(n as usize) {
                    let k = choose|k: int| 0 <= k < s1.len() && #[trigger] s1[k] == n as usize;
                    assert(k != j);
                    assert(s0[k] == n as usize);
                }
                if s0.contains(n as usize) {
                    let k = choose|k: int| 0 <= k < s0.len() && #[trigger] s0[k] == n as usize;
                    assert(s1[k] == n as usize);
                }
            }
        }
    }
    assert(f =~= g);
}

/// Stepping over markers stops on a node that is not a marker comment, or on
/// the last of the siblings.
pub proof fn lemma_skip_stops_off_markers(d: Seq<NodeView>, n: usize)
    requires
        tree_wf(d),
        n < d.len(),
    ensures
        skip_markers(d, n) < d.len(),
        is_marker_comment(d, skip_markers(d, n)) ==> next_sibling(d, skip_markers(d, n)) is None,
{
    let run = sibling_run(d, n);
    lemma_sibling_run(d, n);
    lemma_skip_index(d, run, 0);
    let k = skip_index(d, run, 0);
    let m = run[k];
    lemma_run_suffix(d, n, k);
    lemma_sibling_run(d, m);
}

/// The position reached by stepping over markers lies in the run, and every
/// node stepped over is a marker comment; it stops on a non-marker or the
/// last node.
proof fn lemma_skip_index(d: Seq<NodeView>, run: Seq<usize>, k: int)
    requires
        0 <= k < run.len(),
    ensures
        k <= skip_index(d, run, k) < run.len(),
        is_marker_comment(d, run[skip_index(d, run, k)]) ==> skip_index(d, run, k) == run.len() - 1,
    decreases run.len() - k,
{
    if k + 1 < run.len() && is_marker_comment(d, run[k]) {
        lemma_skip_index(d, run, k + 1);
    }
}

/// The run of the `k`-th node of a run is the rest of the run from there.
proof fn lemma_run_suffix(d: Seq<NodeView>, n: usize, k: int)
    requires
        tree_wf(d),
        n < d.len(),
        0 <= k < sibling_run(d, n).len(),
    ensures
        sibling_run(d, n)[k] < d.len(),
        sibling_run(d, sibling_run(d, n)[k]) == sibling_run(d, n).subrange(k, sibling_run(d, n).len() as int),
    decreases k,
{
    let run = sibling_run(d, n);
    lemma_sibling_run(d, n);
    if k == 0 {
        assert(run.subrange(0, run.len() as int) =~= run);
    } else {
        lemma_run_suffix(d, n, k - 1);
        let m = run[k - 1];
        lemma_sibling_run(d, m);
        let rm = sibling_run(d, m);
        assert(rm == run.subrange(k - 1, run.len() as int));
        assert(rm.len() > 1);
        assert(rm[1] == run[k]);
        assert(rm.drop_first() =~= run.subrange(k, run.len() as int));
    }
}

/// Moving to a child stays below the node: when the node has a child, the
/// node the cursor reaches (markers stepped over or not) has it as parent,
/// so moving back to the parent returns to it.
pub proof fn lemma_child_then_parent(d: Seq<NodeView>, n: usize, marks: bool)
    requires
        tree_wf(d),
        n < d.len(),
        first_child(d, n) is Some,
    ensures
        d[child_target(d, n, marks) as int].parent == Some(n),
{
    let c = first_child(d, n)->0;
    assert(d[n as int].children[0] == c);
    assert(d[c as int].parent == Some(n));
    if marks {
        lemma_same_parent_along_run(d, c);
    }
}

/// Moving to a sibling keeps the parent.
pub proof fn lemma_sibling_keeps_parent(d: Seq<NodeView>, n: usize, marks: bool)
    requires
        tree_wf(d),
        n < d.len(),
    ensures
        d[sibling_target(d, n, marks) as int].parent == d[n as int].parent,
{
    lemma_sibling_run(d, n);
    if let Some(c) = next_sibling(d, n) {
        let p = d[n as int].parent->0;
        let i = index_in_parent(d, n);
        assert(d[p as int].children.contains(n));
        assert(d[p as int].children[i + 1] == c);
        assert(d[c as int].parent == Some(p));
        if marks {
            lemma_same_parent_along_run(d, c);
        }
    }
}

/// Stepping over markers from a node reaches a node with the same parent.
proof fn lemma_same_parent_along_run(d: Seq<NodeView>, c: usize)
    requires
        tree_wf(d),
        c < d.len(),
    ensures
        skip_markers(d, c) < d.len(),
        d[skip_markers(d, c) as int].parent == d[c as int].parent,
{
    let run = sibling_run(d, c);
    lemma_sibling_run(d, c);
    lemma_skip_index(d, run, 0);
    let k = skip_index(d, run, 0);
    if k > 0 {
        let p = d[c as int].parent->0;
        assert(d[c as int].parent == Some(p));
        let i = index_in_parent(d, c);
        assert(d[p as int].children.contains(c));
        assert(run[k] == d[p as int].children[i + k]);
        assert(d[run[k] as int].parent == Some(p));
    }
}

/// A replaced branch spans from its opening marker to the closing marker
/// that balances it: the depth stays above zero inside the range and comes
/// back to zero at its end, unless the siblings run out first.
pub proof fn lemma_branch_range_balanced(d: Seq<NodeView>, run: Seq<usize>)
    requires
        run.len() > 0,
        branch_marker(d, run[0]) matches Some((true, _)),
    ensures
        1 <= count_from(d, run, 0) <= run.len(),
        forall|k: int| 1 <= k < count_from(d, run, 0) ==> #[trigger] depth_after(d, run, k) > 0,
        count_from(d, run, 0) < run.len() ==> depth_after(d, run, count_from(d, run, 0)) == 0,
{
    assert(depth_after(d, run, 1) == 1) by {
        assert(depth_after(d, run, 0) == 0);
    }
    lemma_count_positive_before(d, run, 1);
}

/// From a position where the depth is positive, the count stays ahead of
/// that position, the depth is positive up to it, and zero at it when the run
/// has not ended.
proof fn lemma_count_positive_before(d: Seq<NodeView>, run: Seq<usize>, j: int)
    requires
        1 <= j <= run.len(),
        forall|k: int| 1 <= k <= j ==> #[trigger] depth_after(d, run, k) > 0,
    ensures
        count_from(d, run, 0) == count_from(d, run, j),
        j <= count_from(d, run, j) <= run.len(),
        forall|k: int| 1 <= k < count_from(d, run, j) ==> #[trigger] depth_after(d, run, k) > 0,
        count_from(d, run, j) < run.len() ==> depth_after(d, run, count_from(d, run, j)) == 0,
    decreases run.len() - j,
{
    lemma_count_prefix(d, run, j);
    if j < run.len() {
        if depth_after(d, run, j + 1) != 0 {
            lemma_count_positive_before(d, run, j + 1);
        }
    }
}

/// While the depth stays positive, the count from the start is the count
/// from further along.
proof fn lemma_count_prefix(d: Seq<NodeView>, run: Seq<usize>, j: int)
    requires
        0 <= j <= run.len(),
        forall|k: int| 1 <= k <= j ==> #[trigger] depth_after(d, run, k) > 0,
    ensures
        count_from(d, run, 0) == count_from(d, run, j),
    decreases j,
{
    if j > 0 {
        lemma_count_prefix(d, run, j - 1);
        assert(depth_after(d, run, j) > 0);
    }
}

/// Where the cursor goes once a replacement is mounted, in terms of the
/// parent's children: when a node follows the removed range and is not the
/// parent's first child, the child before it; otherwise the parent's last
/// child. So it is a child of the parent, and it is absent only when the
/// parent has no children.
pub proof fn lemma_reattach_target(d: Seq<NodeView>, p: usize, after: Option<usize>)
    requires
        tree_wf(d),
        p < d.len(),
        after matches Some(a) ==> a < d.len() && d[a as int].parent == Some(p),
    ensures
        ({
            let ch = d[p as int].children;
            &&& reattach_target(d, p, after) is None <==> ch.len() == 0
            &&& reattach_target(d, p, after) matches Some(t) ==> ch.contains(t) && d[t as int].parent == Some(p)
            &&& after is None && ch.len() > 0 ==> reattach_target(d, p, after) == Some(ch[ch.len() - 1])
            &&& after matches Some(a) ==> (exists|i: int| #![trigger ch[i]]
                0 <= i < ch.len() && ch[i] == a && reattach_target(d, p, after) == Some(
                    if i > 0 {
                        ch[i - 1]
                    } else {
                        ch[ch.len() - 1]
                    },
                ))
        }),
{
    let ch = d[p as int].children;
    if let Some(a) = after {
        lemma_wf_node(d, a as int);
        assert(ch.contains(a));
        let i = index_in_parent(d, a);
        assert(0 <= i < ch.len() && ch[i] == a);
        if i > 0 {
            assert(ch[i - 1] < d.len());
        }
    }
    if ch.len() > 0 {
        assert(ch[ch.len() - 1] < d.len());
        assert(ch.contains(ch[ch.len() - 1]));
    }
    if let Some(t) = reattach_target(d, p, after) {
        if let Some(a) = after {
            let i = index_in_parent(d, a);
            if i > 0 {
                assert(t == ch[i - 1]);
                assert(ch.contains(t));
            } else {
                assert(t == ch[ch.len() - 1]);
            }
        }
        assert(ch.contains(t));
        let k = choose|k: int| 0 <= k < ch.len() && ch[k] == t;
        assert(d[p as int].children[k] == t);
    }
}

/// Advancing to a placeholder goes to a child only from the first-child
/// position; from every other position it moves exactly as `sibling` does:
/// to the next sibling when one exists (markers stepped over if in use), and
/// nowhere when none does.
pub proof fn lemma_placeholder_moves(d: Seq<NodeView>, n: usize, position: Position, marks: bool)
    ensures
        position is FirstChild ==> placeholder_target(d, n, position, marks) == child_target(d, n, marks),
        !(position is FirstChild) ==> placeholder_target(d, n, position, marks) == sibling_target(d, n, marks),
        !(position is FirstChild) && next_sibling(d, n) is None ==> placeholder_target(d, n, position, marks) == n,
        !(position is FirstChild) && !marks && next_sibling(d, n) is Some ==> placeholder_target(d, n, position, marks)
            == next_sibling(d, n)->0,
        position is FirstChild && !marks && first_child(d, n) is Some ==> placeholder_target(d, n, position, marks)
            == d[n as int].children[0],
{
}

/// The search for a branch marker starts at the cursor's node for the current
/// position, at its first child for the first-child position, and at its next
/// sibling for every other position; the marker found is that node when it is
/// a comment reading `bo-` followed by the marker's id.
pub proof fn lemma_marker_search_start(d: Seq<NodeView>, n: usize, position: Position)
    ensures
        position is Current ==> marker_start(d, n, position) == Some(n),
        position is FirstChild ==> marker_start(d, n, position) == first_child(d, n),
        !(position is Current) && !(position is FirstChild) ==> marker_start(d, n, position) == next_sibling(d, n),
        next_opening_marker(d, n, position) matches Some((m, id)) ==> {
            &&& marker_start(d, n, position) == Some(m)
            &&& d[m as int].node_type == COMMENT_NODE
            &&& d[m as int].text == Some(seq!['b', 'o', '-'] + id)
        },
        match marker_start(d, n, position) {
            Some(m) => {
                let t = d[m as int].text->0;
                (d[m as int].node_type == COMMENT_NODE && d[m as int].text is Some && t.len() >= 3 && t[0] == 'b'
                    && t[1] == 'o' && t[2] == '-') ==> next_opening_marker(d, n, position) == Some((m, t.skip(3)))
            },
            None => next_opening_marker(d, n, position) is None,
        },
{
    if let Some((m, id)) = next_opening_marker(d, n, position) {
        let t = d[m as int].text->0;
        assert(t =~= seq!['b', 'o', '-'] + t.skip(3));
    }
}

/// Every position before the one stepping over markers stops at is a marker
/// comment.
proof fn lemma_skip_prefix(d: Seq<NodeView>, run: Seq<usize>, k: int)
    requires
        0 <= k < run.len(),
    ensures
        forall|j: int| k <= j < skip_index(d, run, k) ==> is_marker_comment(d, #[trigger] run[j]),
    decreases run.len() - k,
{
    if k + 1 < run.len() && is_marker_comment(d, run[k]) {
        lemma_skip_prefix(d, run, k + 1);
    }
}

/// Stepping over markers from the start of a run: the node reached is in the
/// run, every node before it is a comment whose text begins with `bo` or
/// `bc`, and it is itself not such a comment unless it is the last of the
/// run.
proof fn lemma_skip_law(d: Seq<NodeView>, run: Seq<usize>)
    requires
        run.len() > 0,
    ensures
        exists|k: int| #![trigger run[k]]
            {
                &&& 0 <= k < run.len()
                &&& run[skip_index(d, run, 0)] == run[k]
                &&& forall|j: int| #![trigger run[j]]
                    0 <= j < k ==> {
                        &&& d[run[j] as int].node_type == COMMENT_NODE
                        &&& d[run[j] as int].text matches Some(t)
                        &&& t.len() >= 2
                        &&& t[0] == 'b'
                        &&& (t[1] == 'o' || t[1] == 'c')
                    }
                &&& k + 1 == run.len() || !({
                    &&& d[run[k] as int].node_type == COMMENT_NODE
                    &&& d[run[k] as int].text matches Some(t)
                    &&& t.len() >= 2
                    &&& t[0] == 'b'
                    &&& (t[1] == 'o' || t[1] == 'c')
                })
            },
{
    lemma_skip_index(d, run, 0);
    lemma_skip_prefix(d, run, 0);
    let k = skip_index(d, run, 0);
    assert(run[skip_index(d, run, 0)] == run[k]);
}

/// `child` with branch markers in use: when the node has children, the
/// cursor lands on one of them, and every child before it is a comment whose
/// text begins with `bo` or `bc`; the child it lands on is not such a comment
/// unless it is the last child. Any other node, such as an empty comment, is
/// where it stops.
pub proof fn lemma_child_steps_over_only_markers(d: Seq<NodeView>, n: usize)
    requires
        tree_wf(d),
        n < d.len(),
        d[n as int].children.len() > 0,
    ensures
        ({
            let ch = d[n as int].children;
            exists|k: int| #![trigger ch[k]]
                {
                    &&& 0 <= k < ch.len()
                    &&& child_target(d, n, true) == ch[k]
                    &&& forall|j: int| #![trigger ch[j]]
                        0 <= j < k ==> {
                            &&& d[ch[j] as int].node_type == COMMENT_NODE
                            &&& d[ch[j] as int].text matches Some(t)
                            &&& t.len() >= 2
                            &&& t[0] == 'b'
                            &&& (t[1] == 'o' || t[1] == 'c')
                        }
                    &&& k + 1 == ch.len() || !({
                        &&& d[ch[k] as int].node_type == COMMENT_NODE
                        &&& d[ch[k] as int].text matches Some(t)
                        &&& t.len() >= 2
                        &&& t[0] == 'b'
                        &&& (t[1] == 'o' || t[1] == 'c')
                    })
                }
        }),
{
    let ch = d[n as int].children;
    let c = ch[0];
    assert(d[n as int].children[0] < d.len());
    assert(d[c as int].parent == Some(n));
    lemma_wf_node(d, n as int);
    lemma_index_of_unique(ch, 0);
    assert(index_in_parent(d, c) == 0);
    assert(sibling_run(d, c) =~= ch);
    lemma_skip_law(d, ch);
}

/// `sibling` with branch markers in use: when there is a next sibling, the
/// cursor lands on it or a later sibling, and every sibling stepped over is a
/// comment whose text begins with `bo` or `bc`; the one it lands on is not
/// such a comment unless it is the last sibling.
pub proof fn lemma_sibling_steps_over_only_markers(d: Seq<NodeView>, n: usize)
    requires
        tree_wf(d),
        n < d.len(),
        next_sibling(d, n) is Some,
    ensures
        ({
            let run = sibling_run(d, next_sibling(d, n)->0);
            &&& run[0] == next_sibling(d, n)->0
            &&& exists|k: int| #![trigger run[k]]
                {
                    &&& 0 <= k < run.len()
                    &&& sibling_target(d, n, true) == run[k]
                    &&& forall|j: int| #![trigger run[j]]
                        0 <= j < k ==> {
                            &&& d[run[j] as int].node_type == COMMENT_NODE
                            &&& d[run[j] as int].text matches Some(t)
                            &&& t.len() >= 2
                            &&& t[0] == 'b'
                            &&& (t[1] == 'o' || t[1] == 'c')
                        }
                    &&& k + 1 == run.len() || !({
                        &&& d[run[k] as int].node_type == COMMENT_NODE
                        &&& d[run[k] as int].text matches Some(t)
                        &&& t.len() >= 2
                        &&& t[0] == 'b'
                        &&& (t[1] == 'o' || t[1] == 'c')
                    })
                }
        }),
{
    lemma_sibling_run(d, n);
    let s = next_sibling(d, n)->0;
    lemma_sibling_run(d, s);
    lemma_skip_law(d, sibling_run(d, s));
}

/// The keys of a list of candidate ids.
pub open spec fn candidate_keys(candidates: Seq<&str>) -> Seq<Seq<char>> {
    candidates.map_values(|c: &str| c@)
}

/// An opening branch marker found in the tree.
pub struct BranchMarker {
    node: usize,
    range_start: usize,
    id: String,
}

impl View for BranchMarker {
    /// The marker node, the node its range starts at, and its id.
    type V = (usize, usize, Seq<char>);

    closed spec fn view(&self) -> (usize, usize, Seq<char>) {
        (self.node, self.range_start, self.id@)
    }
}

impl BranchMarker {
    /// The id of the branch.
    pub fn id(&self) -> (r: &str)
        ensures
            r@ == self@.2,
    {
        self.id.as_str()
    }

    /// The marker node.
    pub fn node(&self) -> (r: usize)
        ensures
            r == self@.0,
    {
        self.node
    }
}

/// Whether `n` is a marker comment.
fn is_marker_comment_node(dom: &Dom, n: usize) -> (r: bool)
    requires
        n < dom@.len(),
    ensures
        r == is_marker_comment(dom@, n),
{
    if dom.node_type(n) != COMMENT_NODE {
        return false;
    }
    match dom.text_content(n) {
        Some(t) => {
            let len = t.unicode_len();
            if len >= 2 {
                let c0 = t.get_char(0);
                let c1 = t.get_char(1);
                c0 == 'b' && (c1 == 'o' || c1 == 'c')
            } else {
                false
            }
        },
        None => false,
    }
}

/// The branch marker that `n` is, if any.
pub fn branch_marker_of(dom: &Dom, n: usize) -> (r: Option<(bool, String)>)
    requires
        n < dom@.len(),
    ensures
        match r {
            Some((o, id)) => branch_marker(dom@, n) == Some((o, id@)),
            None => branch_marker(dom@, n) is None,
        },
{
    if dom.node_type(n) != COMMENT_NODE {
        return None;
    }
    match dom.text_content(n) {
        Some(t) => {
            let len = t.unicode_len();
            if len >= 3 && t.get_char(0) == 'b' && t.get_char(2) == '-' {
                let c1 = t.get_char(1);
                if c1 == 'o' || c1 == 'c' {
                    let id = t.substring_char(3, len).to_owned();
                    proof {
                        assert(id@ =~= t@.skip(3));
                    }
                    Some((c1 == 'o', id))
                } else {
                    None
                }
            } else {
                None
            }
        },
        None => None,
    }
}

/// Steps from `n` over marker comments while a next sibling exists.
fn skip_marker_comments(dom: &Dom, n: usize) -> (r: usize)
    requires
        dom.wf(),
        n < dom@.len(),
    ensures
        r == skip_markers(dom@, n),
        r < dom@.len(),
{
    let ghost d = dom@;
    let ghost run = sibling_run(d, n);
    proof {
        lemma_sibling_run(d, n);
        assert(run.subrange(0, run.len() as int) =~= run);
    }
    let mut cur = n;
    let ghost mut k: int = 0;
    loop
        invariant
            dom.wf(),
            dom@ == d,
            0 <= k < run.len(),
            cur == run[k],
            cur < d.len(),
            sibling_run(d, cur) == run.subrange(k, run.len() as int),
            skip_index(d, run, 0) == skip_index(d, run, k),
        ensures
            0 <= k < run.len(),
            cur == run[k],
            skip_index(d, run, 0) == k,
        decreases run.len() - k,
    {
        proof {
            lemma_sibling_run(d, cur);
        }
        if is_marker_comment_node(dom, cur) {
            match dom.next_sibling(cur) {
                Some(s) => {
                    proof {
                        assert(sibling_run(d, cur)[1] == run[k + 1]);
                        assert(sibling_run(d, cur).drop_first() =~= run.subrange(k + 1, run.len() as int));
                        k = k + 1;
                    }
                    cur = s;
                },
                None => {
                    break;
                },
            }
        } else {
            break;
        }
    }
    cur
}

/// The keys of the candidates contain `id`.
fn candidates_contain(candidates: &[&str], id: &String) -> (r: bool)
    ensures
        r == candidate_keys(candidates@).contains(id@),
{
    let mut i: usize = 0;
    while i < candidates.len()
        invariant
            0 <= i <= candidates@.len(),
            forall|j: int| 0 <= j < i ==> candidates@[j]@ != id@,
        decreases candidates@.len() - i,
    {
        let c = candidates[i].to_owned();
        if c == *id {
            proof {
                assert(candidate_keys(candidates@)[i as int] == id@);
            }
            return true;
        }
        i = i + 1;
    }
    proof {
        if candidate_keys(candidates@).contains(id@) {
            let j = choose|j: int| 0 <= j < candidate_keys(candidates@).len() && candidate_keys(candidates@)[j] == id@;
            assert(candidates@[j]@ == id@);
        }
    }
    false
}

/// What a branch replacement did to the tree: the parent element, the nodes
/// taken out of it (in order), and the node the replacement was mounted
/// before (none when it went at the end), so that the same edit can be made
/// to the page the tree stands for.
pub struct BranchEdit {
    pub parent: usize,
    pub removed: Vec<usize>,
    pub after: Option<usize>,
}

/// Hydration works by walking over the DOM, adding interactivity as needed.
/// The cursor tracks the node that is currently being hydrated.
pub struct Cursor {
    node: usize,
    mark_branches: bool,
}

impl Cursor {
    /// The node at which the cursor is located.
    pub closed spec fn at(&self) -> usize {
        self.node
    }

    /// Whether the cursor steps over branch-marker comments.
    pub closed spec fn marks_branches(&self) -> bool {
        self.mark_branches
    }

    /// Creates a new cursor starting at the root element.
    pub fn new(root: usize) -> (r: Self)
        ensures
            r.at() == root,
            !r.marks_branches(),
    {
        Cursor { node: root, mark_branches: false }
    }

    /// Creates a new cursor starting at the root element, for a tree whose
    /// branches are delimited by marker comments, which the cursor steps over.
    pub fn with_branch_markers(root: usize) -> (r: Self)
        ensures
            r.at() == root,
            r.marks_branches(),
    {
        Cursor { node: root, mark_branches: true }
    }

    /// Returns the node at which the cursor is currently located.
    pub fn current(&self) -> (r: usize)
        ensures
            r == self.at(),
    {
        self.node
    }

    /// Sets the cursor to some node.
    pub fn set(&mut self, node: usize)
        ensures
            final(self).at() == node,
            final(self).marks_branches() == old(self).marks_branches(),
    {
        self.node = node;
    }

    /// Advances to the first child of the node at which the cursor is
    /// located, stepping over branch-marker comments after it. Does nothing
    /// if there is no child.
    pub fn child(&mut self, dom: &Dom)
        requires
            dom.wf(),
            old(self).at() < dom@.len(),
        ensures
            final(self).at() == child_target(dom@, old(self).at(), old(self).marks_branches()),
            final(self).at() < dom@.len(),
            final(self).marks_branches() == old(self).marks_branches(),
    {
        if let Some(node) = dom.first_child(self.node) {
            proof {
                assert(dom@[self.node as int].children[0] < dom@.len());
            }
            if self.mark_branches {
                self.node = skip_marker_comments(dom, node);
            } else {
                self.node = node;
            }
        }
    }

    /// Advances to the next sibling of the node at which the cursor is
    /// located, stepping over branch-marker comments after it. Does nothing
    /// if there is no sibling.
    pub fn sibling(&mut self, dom: &Dom)
        requires
            dom.wf(),
            old(self).at() < dom@.len(),
        ensures
            final(self).at() == sibling_target(dom@, old(self).at(), old(self).marks_branches()),
            final(self).at() < dom@.len(),
            final(self).marks_branches() == old(self).marks_branches(),
    {
        if let Some(node) = dom.next_sibling(self.node) {
            proof {
                lemma_sibling_run(dom@, self.node);
            }
            if self.mark_branches {
                self.node = skip_marker_comments(dom, node);
            } else {
                self.node = node;
            }
        }
    }

    /// Moves to the parent of the node at which the cursor is located.
    /// Does nothing if there is no parent.
    pub fn parent(&mut self, dom: &Dom)
        requires
            dom.wf(),
            old(self).at() < dom@.len(),
        ensures
            final(self).at() == match dom@[old(self).at() as int].parent {
                Some(p) => p,
                None => old(self).at(),
            },
            final(self).at() < dom@.len(),
            final(self).marks_branches() == old(self).marks_branches(),
    {
        proof {
            lemma_wf_node(dom@, self.node as int);
        }
        if let Some(node) = dom.parent_node(self.node) {
            self.node = node;
        }
    }

    /// Advances to the next placeholder node: to the child when the position
    /// is the first child, to the sibling otherwise; the position becomes the
    /// next child.
    pub fn advance_to_placeholder(&mut self, dom: &Dom, position: &mut Position)
        requires
            dom.wf(),
            old(self).at() < dom@.len(),
        ensures
            final(self).at() == placeholder_target(dom@, old(self).at(), *old(position), old(self).marks_branches()),
            final(self).at() < dom@.len(),
            final(self).marks_branches() == old(self).marks_branches(),
            *final(position) == Position::NextChild,
    {
        match *position {
            Position::FirstChild => self.child(dom),
            _ => self.sibling(dom),
        }
        *position = Position::NextChild;
    }

    /// Advances to the next placeholder node and returns it. The node reached
    /// must be a comment, the form placeholders take.
    pub fn next_placeholder(&mut self, dom: &Dom, position: &mut Position) -> (r: usize)
        requires
            dom.wf(),
            old(self).at() < dom@.len(),
            dom@[placeholder_target(dom@, old(self).at(), *old(position), old(self).marks_branches()) as int].node_type
                == COMMENT_NODE,
        ensures
            r == placeholder_target(dom@, old(self).at(), *old(position), old(self).marks_branches()),
            final(self).at() == r,
            final(self).marks_branches() == old(self).marks_branches(),
            *final(position) == Position::NextChild,
    {
        self.advance_to_placeholder(dom, position);
        self.node
    }

    /// The opening branch marker where the next branch starts, if the node
    /// there is one.
    pub fn next_branch_marker(&self, dom: &Dom, position: &Position) -> (r: Option<BranchMarker>)
        requires
            dom.wf(),
            self.at() < dom@.len(),
        ensures
            match r {
                Some(m) => next_opening_marker(dom@, self.at(), *position) matches Some((n, id))
                    && m@ == (n, n, id),
                None => next_opening_marker(dom@, self.at(), *position) is None,
            },
    {
        let current = self.node;
        let node = match *position {
            Position::Current => Some(current),
            Position::FirstChild => dom.first_child(current),
            _ => dom.next_sibling(current),
        };
        match node {
            None => None,
            Some(node) => {
                proof {
                    lemma_sibling_run(dom@, current);
                    if dom@[current as int].children.len() > 0 {
                        assert(dom@[current as int].children[0] < dom@.len());
                    }
                }
                match branch_marker_of(dom, node) {
                    Some((is_opening, id)) => if is_opening {
                        Some(BranchMarker { node, range_start: node, id })
                    } else {
                        None
                    },
                    None => None,
                }
            },
        }
    }

    /// The opening branch marker, among the consecutive opening markers where
    /// the next branch starts, whose id is the first to be a candidate.
    pub fn next_branch_marker_matching(
        &self,
        dom: &Dom,
        position: &Position,
        candidates: &[&str],
    ) -> (r: Option<BranchMarker>)
        requires
            dom.wf(),
            self.at() < dom@.len(),
        ensures
            match r {
                Some(m) => next_matching_marker(dom@, self.at(), *position, candidate_keys(candidates@))
                    matches Some((n, id)) && m@ == (n, n, id),
                None => next_matching_marker(dom@, self.at(), *position, candidate_keys(candidates@)) is None,
            },
            r matches Some(m) ==> m@.0 < dom@.len(),
    {
        let ghost d = dom@;
        let ghost cands = candidate_keys(candidates@);
        let first = match self.next_branch_marker(dom, position) {
            Some(m) => m,
            None => return None,
        };
        let start = first.node;
        let ghost run = sibling_run(d, start);
        proof {
            lemma_sibling_run(d, start);
            assert(run.subrange(0, run.len() as int) =~= run);
        }
        let mut current = start;
        let ghost mut k: int = 0;
        loop
            invariant
                dom.wf(),
                dom@ == d,
                cands == candidate_keys(candidates@),
                next_opening_marker(d, self.at(), *position) matches Some((m, _)) && m == start,
                run == sibling_run(d, start),
                0 <= k < run.len(),
                current == run[k],
                current < d.len(),
                sibling_run(d, current) == run.subrange(k, run.len() as int),
                match_index(d, run, 0, cands) == match_index(d, run, k, cands),
            decreases run.len() - k,
        {
            proof {
                lemma_sibling_run(d, current);
            }
            let (is_opening, id) = match branch_marker_of(dom, current) {
                Some(x) => x,
                None => return None,
            };
            if !is_opening {
                return None;
            }
            if candidates_contain(candidates, &id) {
                return Some(BranchMarker { node: current, range_start: current, id });
            }
            match dom.next_sibling(current) {
                Some(s) => {
                    proof {
                        assert(sibling_run(d, current)[1] == run[k + 1]);
                        assert(sibling_run(d, current).drop_first() =~= run.subrange(k + 1, run.len() as int));
                        k = k + 1;
                    }
                    current = s;
                },
                None => {
                    proof {
                        assert(match_index(d, run, k + 1, cands) is None);
                    }
                    return None;
                },
            }
        }
    }

    /// Replaces the next branch whose opening marker matches one of the
    /// candidates: the nodes from that marker to its balancing closing marker
    /// are taken out of their parent element, the replacement is mounted in
    /// their place, the cursor moves to the node before the one after the
    /// range (or to the parent's last child), and the position becomes the
    /// next child; the edit made is returned. Nothing changes, and nothing is
    /// returned, when there is no matching branch or its marker has no parent
    /// element.
    pub fn replace_next_branch<M: Mountable>(
        &mut self,
        dom: &mut Dom,
        position: &mut Position,
        candidates: &[&str],
        replacement: &mut M,
    ) -> (edit: Option<BranchEdit>)
        requires
            old(dom).wf(),
            old(self).at() < old(dom)@.len(),
        ensures
            final(dom).wf(),
            final(self).marks_branches() == old(self).marks_branches(),
            match branch_range(old(dom)@, old(self).at(), *old(position), candidate_keys(candidates@)) {
                None => {
                    &&& edit is None
                    &&& final(dom)@ == old(dom)@
                    &&& final(self).at() == old(self).at()
                    &&& *final(position) == *old(position)
                },
                Some((p, start, count)) => {
                    let after = node_after_range(old(dom)@, p, start, count);
                    &&& edit matches Some(e)
                    &&& e.parent == p
                    &&& e.removed@ == old(dom)@[p as int].children.subrange(start, start + count)
                    &&& e.after == after
                    &&& old(replacement).mounted(remove_range_spec(old(dom)@, p, start, count), p, after, final(dom)@)
                    &&& final(self).at() == match reattach_target(final(dom)@, p, after) {
                        Some(t) => t,
                        None => old(self).at(),
                    }
                    &&& *final(position) == Position::NextChild
                },
            },
    {
        let ghost d0 = dom@;
        let ghost cands = candidate_keys(candidates@);
        let opening = match self.next_branch_marker_matching(dom, position, candidates) {
            Some(m) => m,
            None => return None,
        };
        let start_node = opening.range_start;
        let parent = match dom.parent_element(start_node) {
            Some(p) => p,
            None => return None,
        };
        let ghost run = sibling_run(d0, start_node);
        let ghost ch = d0[parent as int].children;
        let ghost start = index_in_parent(d0, start_node);
        proof {
            assert(d0[start_node as int].parent == Some(parent));
            assert(ch.contains(start_node));
            assert(0 <= start < ch.len() && ch[start] == start_node);
            assert(run == ch.subrange(start, ch.len() as int));
            lemma_remove_range_empty(d0, parent, start);
        }
        let child_count = dom.children(parent).len();
        let mut depth: usize = 0;
        let mut current: Option<usize> = Some(start_node);
        let mut after: Option<usize> = None;
        let mut removed: Vec<usize> = Vec::new();
        let ghost mut j: int = 0;
        loop
            invariant_except_break
                dom.wf(),
                0 <= j <= run.len(),
                dom@ == remove_range_spec(d0, parent, start, j),
                depth == depth_after(d0, run, j),
                count_from(d0, run, 0) == count_from(d0, run, j),
                current == (if j < run.len() {
                    Some(run[j])
                } else {
                    None
                }),
                after is None,
                removed@ == run.take(j),
            invariant
                tree_wf(d0),
                parent < d0.len(),
                ch == d0[parent as int].children,
                ch.len() == child_count,
                0 <= start < ch.len(),
                run == ch.subrange(start, ch.len() as int),
            ensures
                dom.wf(),
                dom@ == remove_range_spec(d0, parent, start, count_from(d0, run, 0)),
                after == node_after_range(d0, parent, start, count_from(d0, run, 0)),
                removed@ == ch.subrange(start, start + count_from(d0, run, 0)),
            decreases run.len() - j,
        {
            let node = match current {
                Some(node) => node,
                None => {
                    proof {
                        assert(count_from(d0, run, j) == run.len());
                        assert(start + run.len() == ch.len());
                        assert(removed@ =~= ch.subrange(start, start + run.len()));
                    }
                    break;
                },
            };
            proof {
                lemma_remove_range_step(d0, parent, start, j);
                lemma_depth_bound(d0, run, j);
                assert(run[j] == ch[start + j]);
                if start + j + 1 < ch.len() {
                    assert(run[j + 1] == ch[start + j + 1]);
                }
            }
            let next = dom.next_sibling(node);
            match branch_marker_of(dom, node) {
                Some((is_opening, _)) => {
                    if is_opening {
                        depth = depth + 1;
                    } else {
                        depth = depth.saturating_sub(1);
                    }
                },
                None => {},
            }
            dom.remove_child(parent, node);
            removed.push(node);
            proof {
                assert(removed@ =~= run.take(j + 1));
                j = j + 1;
            }
            if depth == 0 {
                after = next;
                proof {
                    assert(count_from(d0, run, j - 1) == j);
                    assert(removed@ =~= ch.subrange(start, start + j));
                }
                break;
            }
            current = next;
        }
        proof {
            assert(dom@.len() == d0.len());
            let count = count_from(d0, run, 0);
            lemma_count_bounds(d0, run, 0);
            if let Some(a) = after {
                assert(0 <= start + count < ch.len());
                assert(d0[parent as int].children[start + count] == a);
                assert(d0[a as int].parent == Some(parent));
                assert(!ch.subrange(start, start + count).contains(a)) by {
                    let sub = ch.subrange(start, start + count);
                    if sub.contains(a) {
                        let k = choose|k: int| 0 <= k < sub.len() && #[trigger] sub[k] == a;
                        assert(ch[start + k] == a);
                    }
                }
                assert(a != parent);
                assert(dom@[a as int] == d0[a as int]);
            }
        }
        replacement.mount(dom, parent, after);
        let target = match after {
            Some(a) => match dom.previous_sibling(a) {
                Some(s) => Some(s),
                None => dom.last_child(parent),
            },
            None => dom.last_child(parent),
        };
        if let Some(t) = target {
            self.node = t;
        }
        *position = Position::NextChild;
        Some(BranchEdit { parent, removed, after })
    }
}

} // verus!
