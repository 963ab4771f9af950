//! A rooted tree in which every node owns its children.
//!
//! The gravity engine grows a quad-tree of [`crate::gravity_calc::Rect`]
//! regions out of these nodes, but the container itself is generic.

use vstd::prelude::*;

verus! {

/// A tree node carrying a payload and owning any number of children.
pub struct TreeNode<T> {
    pub data: T,
    pub children: Vec<TreeNode<T>>,
}

impl<T> TreeNode<T> {
    /// A childless node around `root_data`.
    pub fn root(root_data: T) -> (n: TreeNode<T>)
        ensures
            n.data == root_data,
            n.children@.len() == 0,
    {
        TreeNode { data: root_data, children: Vec::new() }
    }

    /// Read access to the payload.
    pub fn data(&self) -> (r: &T)
        ensures
            *r == self.data,
    {
        &self.data
    }

    /// Write access to the payload; the children are untouched.
    pub fn data_mut(&mut self) -> (r: &mut T)
        ensures
            *r == old(self).data,
            final(self).data == *final(r),
            final(self).children == old(self).children,
    {
        &mut self.data
    }

    /// Whether the node has no children.
    pub fn is_leaf(&self) -> (b: bool)
        ensures
            b == (self.children@.len() == 0),
    {
        self.children.len() == 0
    }

    /// The children, in insertion order.
    pub fn children(&self) -> (r: &[TreeNode<T>])
        ensures
            r@ == self.children@,
    {
        self.children.as_slice()
    }

    /// Append a child after the existing ones.
    pub fn add_child(&mut self, child: TreeNode<T>)
        ensures
            final(self).data == old(self).data,
            final(self).children@ == old(self).children@.push(child),
    {
        self.children.push(child);
    }
}

} // verus!
