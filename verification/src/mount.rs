//! Mounting views into the tree.

use vstd::prelude::*;
use crate::dom::{insert_before_spec, is_ancestor, Dom, NodeView};

verus! {

/// Something that can be mounted into a parent node, before a marker node or
/// at the end of the parent's children.
pub trait Mountable {
    /// What mounting does: relates the tree before mounting, the parent, the
    /// marker and the tree after mounting.
    spec fn mounted(&self, before: Seq<NodeView>, parent: usize, marker: Option<usize>, after: Seq<NodeView>) -> bool;

    /// Mounts into `parent`, before `marker` when there is one.
    fn mount(&mut self, dom: &mut Dom, parent: usize, marker: Option<usize>)
        requires
            old(dom).wf(),
            parent < old(dom)@.len(),
            marker matches Some(m) ==> m < old(dom)@.len() && old(dom)@[m as int].parent == Some(parent),
        ensures
            final(dom).wf(),
            final(dom)@.len() >= old(dom)@.len(),
            old(self).mounted(old(dom)@, parent, marker, final(dom)@),
    ;
}

/// Whether `n` can be inserted into `parent`: an existing detached node that
/// is neither the parent nor one of its ancestors.
pub open spec fn insertable(d: Seq<NodeView>, parent: usize, n: usize) -> bool {
    n < d.len() && d[n as int].parent is None && !is_ancestor(d, n, parent)
}

/// The tree after inserting, in order, each of `nodes` that can be inserted
/// into `parent` before `marker`.
pub open spec fn mount_all(d: Seq<NodeView>, parent: usize, nodes: Seq<usize>, marker: Option<usize>) -> Seq<NodeView>
    decreases nodes.len(),
{
    if nodes.len() == 0 {
        d
    } else {
        let e = mount_all(d, parent, nodes.drop_last(), marker);
        if insertable(e, parent, nodes.last()) {
            insert_before_spec(e, parent, nodes.last(), marker)
        } else {
            e
        }
    }
}

/// A list of nodes, mounted by inserting each that is detached, and not the
/// parent or one of its ancestors, into the parent before the marker, in
/// order.
pub struct DetachedNodes {
    nodes: Vec<usize>,
}

impl DetachedNodes {
    /// The nodes to mount.
    pub closed spec fn nodes(&self) -> Seq<usize> {
        self.nodes@
    }

    /// A list of nodes to mount.
    pub fn new(nodes: Vec<usize>) -> (r: Self)
        ensures
            r.nodes() == nodes@,
    {
        DetachedNodes { nodes }
    }
}

impl Mountable for DetachedNodes {
    open spec fn mounted(&self, before: Seq<NodeView>, parent: usize, marker: Option<usize>, after: Seq<NodeView>) -> bool {
        after == mount_all(before, parent, self.nodes(), marker)
    }

    fn mount(&mut self, dom: &mut Dom, parent: usize, marker: Option<usize>) {
        let ghost d0 = dom@;
        let mut i: usize = 0;
        while i < self.nodes.len()
            invariant
                dom.wf(),
                0 <= i <= self.nodes@.len(),
                dom@.len() == d0.len(),
                parent < d0.len(),
                dom@ == mount_all(d0, parent, self.nodes@.take(i as int), marker),
                marker matches Some(m) ==> m < d0.len() && dom@[m as int].parent == Some(parent),
            decreases self.nodes@.len() - i,
        {
            let n = self.nodes[i];
            proof {
                assert(self.nodes@.take(i + 1).drop_last() =~= self.nodes@.take(i as int));
                assert(self.nodes@.take(i + 1).last() == n);
            }
            if n < dom.len() && dom.parent_node(n).is_none() && !dom.is_ancestor(n, parent) {
                proof {
                    if let Some(m) = marker {
                        assert(m != n);
                    }
                }
                dom.insert_before(parent, n, marker);
            }
            i = i + 1;
        }
        proof {
            assert(self.nodes@.take(i as int) =~= self.nodes@);
        }
    }
}

} // verus!
