//! Arena-indexed n-ary trees and forests.
//!
//! Nodes live in an append-only backing store and are addressed by
//! stable integer indices, never by references.  A parent holds the
//! ordered indices of its children; a child is always allocated after
//! its parent, so every walk toward children terminates.

use vstd::prelude::*;

verus! {

/// Index of a node inside an arena-backed tree; stable for the arena's lifetime.
pub type NodeAddr = u32;

/// Index of a node inside an arena-backed forest.
pub type Pointer = u32;

/// Sentinel index meaning "no node".
pub const NULL: u32 = 0xFFFF_FFFF;

/// One arena node: an optional payload plus the ordered indices of its children.
pub struct NaryNode<T> {
    pub data: Option<T>,
    pub children: Vec<u32>,
}

/// Every child index points at an allocated node with a larger index than its
/// parent's: the arena is append-only and children are attached after birth.
pub open spec fn nodes_closed<T>(nodes: Seq<NaryNode<T>>) -> bool {
    forall|i: int, j: int|
        0 <= i < nodes.len() && 0 <= j < nodes[i].children@.len()
            ==> i < (#[trigger] nodes[i].children@[j]) as int && nodes[i].children@[j] < nodes.len()
}

/// Every node carries a payload.
pub open spec fn nodes_all_some<T>(nodes: Seq<NaryNode<T>>) -> bool {
    forall|i: int| 0 <= i < nodes.len() ==> (#[trigger] nodes[i].data) is Some
}

/// Node `b` lies in the subtree rooted at `a`: it is `a` itself or lies
/// under one of `a`'s children.
pub open spec fn reaches<T>(nodes: Seq<NaryNode<T>>, a: int, b: int) -> bool
    decreases nodes.len() - a,
    when 0 <= a < nodes.len() && nodes_closed(nodes)
{
    a == b || exists|j: int|
        0 <= j < nodes[a].children@.len() && reaches(
            nodes,
            (#[trigger] nodes[a].children@[j]) as int,
            b,
        )
}

/// The specification-level value of an address stack or list.
pub open spec fn stack_model(s: Seq<u32>) -> Seq<int> {
    Seq::new(s.len(), |i: int| s[i] as int)
}

/// A tree: one arena plus the index of its single root.
pub struct NaryTree<T> {
    pub nodes: Vec<NaryNode<T>>,
    pub root: NodeAddr,
}

impl<T> NaryTree<T> {
    pub fn new() -> (t: Self)
        ensures
            t.nodes@.len() == 0,
            t.root == NULL,
    {
        NaryTree { nodes: Vec::new(), root: NULL }
    }

    /// Appends a fresh node holding `data` and returns its stable index.
    pub fn allocate_node(&mut self, data: Option<T>) -> (addr: NodeAddr)
        requires
            old(self).nodes@.len() < NULL,
        ensures
            addr as int == old(self).nodes@.len(),
            addr < NULL,
            final(self).nodes@.len() == old(self).nodes@.len() + 1,
            forall|i: int|
                0 <= i < old(self).nodes@.len() ==> final(self).nodes@[i] == old(self).nodes@[i],
            final(self).nodes@[addr as int].data == data,
            final(self).nodes@[addr as int].children@ == Seq::<u32>::empty(),
            final(self).root == old(self).root,
    {
        let addr = self.nodes.len();
        self.nodes.push(NaryNode { data, children: Vec::new() });
        addr as u32
    }

    /// Appends `child` to `parent`'s ordered child list.
    pub fn add_child(&mut self, parent: NodeAddr, child: NodeAddr)
        requires
            parent < old(self).nodes@.len(),
            child < old(self).nodes@.len(),
        ensures
            final(self).nodes@.len() == old(self).nodes@.len(),
            final(self).nodes@[parent as int].data == old(self).nodes@[parent as int].data,
            final(self).nodes@[parent as int].children@ == old(
                self,
            ).nodes@[parent as int].children@.push(child),
            forall|i: int|
                0 <= i < old(self).nodes@.len() && i != parent as int ==> final(self).nodes@[i]
                    == old(self).nodes@[i],
            final(self).root == old(self).root,
    {
        let p = parent as usize;
        self.nodes[p].children.push(child);
    }

    /// Looks a node up by its index.
    pub fn node(&self, addr: NodeAddr) -> (n: &NaryNode<T>)
        requires
            addr < self.nodes@.len(),
        ensures
            *n == self.nodes@[addr as int],
    {
        &self.nodes[addr as usize]
    }
}

/// A forest: one arena plus an ordered list of independent tree roots.
pub struct NaryForest<T> {
    pub pool: Vec<NaryNode<T>>,
    pub root_list: Vec<Pointer>,
}

impl<T> NaryForest<T> {
    pub fn new() -> (f: Self)
        ensures
            f.pool@.len() == 0,
            f.root_list@.len() == 0,
    {
        NaryForest { pool: Vec::new(), root_list: Vec::new() }
    }

    /// Appends a fresh node holding `data` and returns its stable index.
    pub fn allocate(&mut self, data: T) -> (ptr: Pointer)
        requires
            old(self).pool@.len() < NULL,
        ensures
            ptr as int == old(self).pool@.len(),
            ptr < NULL,
            final(self).pool@.len() == old(self).pool@.len() + 1,
            forall|i: int|
                0 <= i < old(self).pool@.len() ==> final(self).pool@[i] == old(self).pool@[i],
            final(self).pool@[ptr as int].data == Some(data),
            final(self).pool@[ptr as int].children@ == Seq::<u32>::empty(),
            final(self).root_list == old(self).root_list,
    {
        let ptr = self.pool.len();
        self.pool.push(NaryNode { data: Some(data), children: Vec::new() });
        ptr as u32
    }

    /// Appends `child` to `parent`'s ordered child list.
    pub fn add_child(&mut self, parent: Pointer, child: Pointer)
        requires
            parent < old(self).pool@.len(),
            child < old(self).pool@.len(),
        ensures
            final(self).pool@.len() == old(self).pool@.len(),
            final(self).pool@[parent as int].data == old(self).pool@[parent as int].data,
            final(self).pool@[parent as int].children@ == old(
                self,
            ).pool@[parent as int].children@.push(child),
            forall|i: int|
                0 <= i < old(self).pool@.len() && i != parent as int ==> final(self).pool@[i]
                    == old(self).pool@[i],
            final(self).root_list == old(self).root_list,
    {
        let p = parent as usize;
        self.pool[p].children.push(child);
    }

    /// Looks a node up by its index.
    pub fn node(&self, ptr: Pointer) -> (n: &NaryNode<T>)
        requires
            ptr < self.pool@.len(),
        ensures
            *n == self.pool@[ptr as int],
    {
        &self.pool[ptr as usize]
    }

    /// Depth-first pre-order traversal from `start`: returns a node of
    /// `start`'s subtree whose record satisfies `predicate`, the first
    /// one the walk meets, or nothing when no node of the subtree does.
    pub fn search<F: Fn(&NaryNode<T>) -> bool>(&self, start: Pointer, predicate: F) -> (r: Option<
        Pointer,
    >)
        requires
            nodes_closed(self.pool@),
            start < self.pool@.len(),
            forall|n: NaryNode<T>| #[trigger] predicate.requires((&n,)),
        ensures
            r matches Some(p) ==> p < self.pool@.len() && reaches(self.pool@, start as int, p as int)
                && predicate.ensures((&self.pool@[p as int],), true),
            r is None ==> forall|x: int|
                0 <= x < self.pool@.len() && reaches(self.pool@, start as int, x)
                    ==> predicate.ensures((&self.pool@[x],), false),
    {
        self.search_helper(start, &predicate)
    }

    fn search_helper<F: Fn(&NaryNode<T>) -> bool>(&self, at: Pointer, predicate: &F) -> (r: Option<
        Pointer,
    >)
        requires
            nodes_closed(self.pool@),
            at < self.pool@.len(),
            forall|n: NaryNode<T>| #[trigger] predicate.requires((&n,)),
        ensures
            r matches Some(p) ==> p < self.pool@.len() && reaches(self.pool@, at as int, p as int)
                && predicate.ensures((&self.pool@[p as int],), true),
            r is None ==> forall|x: int|
                0 <= x < self.pool@.len() && reaches(self.pool@, at as int, x)
                    ==> predicate.ensures((&self.pool@[x],), false),
        decreases self.pool@.len() - at,
    {
        let node = self.node(at);
        if predicate(node) {
            return Some(at);
        }
        let num = node.children.len();
        let mut j: usize = 0;
        while j < num
            invariant
                nodes_closed(self.pool@),
                at < self.pool@.len(),
                *node == self.pool@[at as int],
                num == node.children@.len(),
                j <= num,
                forall|n: NaryNode<T>| #[trigger] predicate.requires((&n,)),
                predicate.ensures((&self.pool@[at as int],), false),
                forall|jj: int|
                    0 <= jj < j ==> (forall|x: int|
                        0 <= x < self.pool@.len() && reaches(
                            self.pool@,
                            (#[trigger] node.children@[jj]) as int,
                            x,
                        ) ==> predicate.ensures((&self.pool@[x],), false)),
            decreases num - j,
        {
            let c = node.children[j];
            match self.search_helper(c, predicate) {
                Some(p) => {
                    proof {
                        assert(reaches(self.pool@, at as int, p as int));
                    }
                    return Some(p);
                },
                None => {},
            }
            j = j + 1;
        }
        proof {
            assert forall|x: int|
                0 <= x < self.pool@.len() && reaches(self.pool@, at as int, x) implies predicate.ensures(
                (&self.pool@[x],),
                false,
            ) by {
                if x != at as int {
                    let jj = choose|jj: int|
                        0 <= jj < self.pool@[at as int].children@.len() && reaches(
                            self.pool@,
                            (self.pool@[at as int].children@[jj]) as int,
                            x,
                        );
                    assert(node.children@[jj] == self.pool@[at as int].children@[jj]);
                }
            }
        }
        None
    }
}

} // verus!
