//! A list backed by a rank-augmented binary tree that is never rebalanced.
//!
//! Every operation walks the tree with a loop rather than by recursion, so
//! that even a tree degenerated into a chain is handled in constant stack
//! space, its teardown included.
use vstd::prelude::*;

verus! {

#[derive(Debug)]
struct TreeNode<T> {
    val: T,
    num_to_left: usize,
    left: Option<Box<TreeNode<T>>>,
    right: Option<Box<TreeNode<T>>>,
}

/// The elements of a subtree, in order.
spec fn seq_of<T>(link: Option<Box<TreeNode<T>>>) -> Seq<T>
    decreases link,
{
    match link {
        None => Seq::empty(),
        Some(n) => seq_of(n.left) + seq![n.val] + seq_of(n.right),
    }
}

/// Every node's `num_to_left` is the size of its left subtree.
spec fn wf<T>(link: Option<Box<TreeNode<T>>>) -> bool
    decreases link,
{
    match link {
        None => true,
        Some(n) => wf(n.left) && wf(n.right) && n.num_to_left as nat == seq_of(n.left).len(),
    }
}

spec fn count<T>(link: Option<Box<TreeNode<T>>>) -> nat {
    seq_of(link).len()
}

/// The size of the left subtree of a subtree's root.
spec fn left_count<T>(link: Option<Box<TreeNode<T>>>) -> nat {
    match link {
        None => 0,
        Some(n) => count(n.left),
    }
}

/// What a node holds: its left subtree, its value and its right subtree.
proof fn lemma_unfold<T>(n: Box<TreeNode<T>>)
    ensures
        seq_of(Some(n)) == seq_of(n.left) + seq![n.val] + seq_of(n.right),
        count(Some(n)) == count(n.left) + 1 + count(n.right),
        wf(Some(n)) == (wf(n.left) && wf(n.right) && n.num_to_left as nat == count(n.left)),
{
}

impl<T> TreeNode<T> {
    fn new(val: T) -> (r: Self)
        ensures
            r.val == val,
            r.num_to_left == 0,
            r.left.is_none(),
            r.right.is_none(),
    {
        TreeNode { val, num_to_left: 0, left: None, right: None }
    }
}

/// A list with indexed access, insertion and removal, kept in a tree whose
/// shape follows the order of the operations.
#[derive(Debug)]
pub struct TreeList<T> {
    root: Option<Box<TreeNode<T>>>,
    size: usize,
}

impl<T> View for TreeList<T> {
    type V = Seq<T>;

    closed spec fn view(&self) -> Seq<T> {
        seq_of(self.root)
    }
}

impl<T> TreeList<T> {
    /// The structural invariant: the cached size and every node's left count
    /// agree with the tree.
    pub closed spec fn wf(&self) -> bool {
        &&& wf(self.root)
        &&& self.size as nat == count(self.root)
    }

    /// Every insertion adds exactly one element and every removal takes
    /// exactly one away, so the length counts insertions minus removals.
    pub proof fn lemma_len_counts_operations(&self, index: usize, v: T)
        requires
            index <= self@.len(),
        ensures
            self@.insert(index as int, v).len() == self@.len() + 1,
            (seq![v] + self@).len() == self@.len() + 1,
            self@.push(v).len() == self@.len() + 1,
            index < self@.len() ==> self@.remove(index as int).len() == self@.len() - 1,
            self@.len() > 0 ==> self@.drop_first().len() == self@.len() - 1,
            self@.len() > 0 ==> self@.drop_last().len() == self@.len() - 1,
    {
    }

    /// Right after `insert(index, v)`, `get(index)` finds `v`.
    pub proof fn lemma_get_after_insert(&self, index: usize, v: T)
        requires
            index <= self@.len(),
        ensures
            index < self@.insert(index as int, v).len(),
            self@.insert(index as int, v)[index as int] == v,
    {
    }

    /// `remove(index)` right after `insert(index, v)` returns `v` and restores
    /// the elements and the length from before.
    pub proof fn lemma_remove_after_insert(&self, index: usize, v: T)
        requires
            index <= self@.len(),
        ensures
            self@.insert(index as int, v)[index as int] == v,
            self@.insert(index as int, v).remove(index as int) == self@,
    {
        assert(self@.insert(index as int, v).remove(index as int) =~= self@);
    }

    /// Creates an empty list.
    pub fn new() -> (r: Self)
        ensures
            r.wf(),
            r@ == Seq::<T>::empty(),
    {
        TreeList { root: None, size: 0 }
    }

    /// The element at `index`, or `None` when `index` is not below the length.
    pub fn get(&self, index: usize) -> (r: Option<&T>)
        requires
            self.wf(),
        ensures
            index < self@.len() ==> r == Some(&self@[index as int]),
            index >= self@.len() ==> r.is_none(),
    {
        if index >= self.size {
            return None;
        }
        let mut idx = index;
        let ghost target = self@[index as int];
        let mut node = match &self.root {
            Some(n) => n,
            None => { return None; },
        };
        loop
            invariant
                wf(Some(*node)),
                idx < count(Some(*node)),
                seq_of(Some(*node))[idx as int] == target,
                index < self@.len(),
                target == self@[index as int],
            decreases count(Some(*node)),
        {
            assert(seq_of(Some(*node)) == seq_of(node.left) + seq![node.val] + seq_of(node.right));
            if idx < node.num_to_left {
                node = match &node.left {
                    Some(n) => n,
                    None => { return None; },
                };
            } else if idx > node.num_to_left {
                idx = idx - (node.num_to_left + 1);
                node = match &node.right {
                    Some(n) => n,
                    None => { return None; },
                };
            } else {
                return Some(&node.val);
            }
        }
    }

    /// A mutable reference to the element at `index`, or `None` when `index` is
    /// not below the length.
    pub fn get_mut(&mut self, index: usize) -> (r: Option<&mut T>)
        requires
            old(self).wf(),
        ensures
            index >= old(self)@.len() ==> r.is_none() && *final(self) == *old(self),
            index < old(self)@.len() ==> r.is_some(),
            r matches Some(x) ==> *x == old(self)@[index as int],
            r matches Some(x) ==> final(self).wf(),
            r matches Some(x) ==> final(self)@ == old(self)@.update(index as int, *final(x)),
    {
        if index >= self.size {
            return None;
        }
        let ghost whole = self@;
        let ghost size = self.size;
        let mut idx = index;
        let mut node = match &mut self.root {
            Some(n) => n,
            None => { return None; },
        };
        let ghost prefix = Seq::<T>::empty();
        let ghost suffix = Seq::<T>::empty();
        loop
            invariant
                wf(Some(*node)),
                idx < count(Some(*node)),
                index < whole.len(),
                whole == old(self)@,
                size == whole.len(),
                prefix.len() + idx == index,
                whole == prefix + seq_of(Some(*node)) + suffix,
                (wf(Some(*final(node))) && count(Some(*final(node))) == count(Some(*node))) ==> {
                    &&& wf(after_borrow(self.root))
                    &&& after_borrow(self.size) == size
                    &&& seq_of(after_borrow(self.root)) == prefix + seq_of(Some(*final(node))) + suffix
                },
            decreases count(Some(*node)),
        {
            proof {
                lemma_unfold(*node);
            }
            if idx < node.num_to_left {
                proof {
                    suffix = seq![node.val] + seq_of(node.right) + suffix;
                }
                node = match &mut node.left {
                    Some(n) => n,
                    None => { return None; },
                };
            } else if idx > node.num_to_left {
                idx = idx - (node.num_to_left + 1);
                proof {
                    prefix = prefix + seq_of(node.left) + seq![node.val];
                }
                node = match &mut node.right {
                    Some(n) => n,
                    None => { return None; },
                };
            } else {
                let ghost cur = *node;
                let ghost fin = *final(node);
                let x = &mut node.val;
                proof {
                    lemma_unfold(fin);
                    lemma_unfold(cur);
                    assert(seq_of(Some(fin)) =~= seq_of(Some(cur)).update(idx as int, *final(x)));
                    assert(count(after_borrow(self.root)) == size);
                    assert(whole.update(index as int, *final(x)) =~= prefix + seq_of(Some(fin)) + suffix);
                }
                return Some(x);
            }
        }
    }

    /// Puts `val` before the first element.
    pub fn push_front(&mut self, val: T)
        requires
            old(self).wf(),
            old(self)@.len() < usize::MAX,
        ensures
            final(self).wf(),
            final(self)@ == seq![val] + old(self)@,
    {
        self.size = self.size + 1;
        let ghost whole = self@;
        let ghost suffix = Seq::<T>::empty();
        let mut curr = &mut self.root;
        loop
            invariant
                wf(*curr),
                count(*curr) < usize::MAX,
                whole == seq_of(*curr) + suffix,
                (wf(*final(curr)) && count(*final(curr)) == count(*curr) + 1) ==> {
                    &&& wf(after_borrow(self.root))
                    &&& seq_of(after_borrow(self.root)) == seq_of(*final(curr)) + suffix
                },
            ensures
                curr.is_none(),
                whole == suffix,
                (wf(*final(curr)) && count(*final(curr)) == 1) ==> {
                    &&& wf(after_borrow(self.root))
                    &&& seq_of(after_borrow(self.root)) == seq_of(*final(curr)) + suffix
                },
            decreases count(*curr),
        {
            match curr {
                Some(node) => {
                    proof {
                        lemma_unfold(*node);
                        suffix = seq![node.val] + seq_of(node.right) + suffix;
                    }
                    node.num_to_left = node.num_to_left + 1;
                    curr = &mut node.left;
                },
                None => {
                    proof {
                        assert(whole =~= suffix);
                    }
                    break;
                },
            }
        }
        let leaf = Box::new(TreeNode::new(val));
        proof {
            lemma_unfold(leaf);
            assert(seq_of(Some(leaf)) =~= seq![val]);
        }
        *curr = Some(leaf);
        proof {
            assert(seq_of(self.root) =~= seq![val] + whole);
        }
    }

    /// Puts `val` after the last element.
    pub fn push_back(&mut self, val: T)
        requires
            old(self).wf(),
            old(self)@.len() < usize::MAX,
        ensures
            final(self).wf(),
            final(self)@ == old(self)@.push(val),
    {
        self.size = self.size + 1;
        let ghost whole = self@;
        let ghost prefix = Seq::<T>::empty();
        let mut curr = &mut self.root;
        loop
            invariant
                wf(*curr),
                whole == prefix + seq_of(*curr),
                (wf(*final(curr)) && count(*final(curr)) == count(*curr) + 1) ==> {
                    &&& wf(after_borrow(self.root))
                    &&& seq_of(after_borrow(self.root)) == prefix + seq_of(*final(curr))
                },
            ensures
                curr.is_none(),
                whole == prefix,
                (wf(*final(curr)) && count(*final(curr)) == 1) ==> {
                    &&& wf(after_borrow(self.root))
                    &&& seq_of(after_borrow(self.root)) == prefix + seq_of(*final(curr))
                },
            decreases count(*curr),
        {
            match curr {
                Some(node) => {
                    proof {
                        lemma_unfold(*node);
                        prefix = prefix + seq_of(node.left) + seq![node.val];
                    }
                    curr = &mut node.right;
                },
                None => {
                    proof {
                        assert(whole =~= prefix);
                    }
                    break;
                },
            }
        }
        let leaf = Box::new(TreeNode::new(val));
        proof {
            lemma_unfold(leaf);
            assert(seq_of(Some(leaf)) =~= seq![val]);
        }
        *curr = Some(leaf);
    }

    /// Inserts `val` so that it becomes the element at `index`; `index` may be
    /// at most the length, where it appends.
    pub fn insert(&mut self, index: usize, val: T)
        requires
            old(self).wf(),
            index <= old(self)@.len(),
            old(self)@.len() < usize::MAX,
        ensures
            final(self).wf(),
            final(self)@ == old(self)@.insert(index as int, val),
    {
        self.size = self.size + 1;
        let ghost whole = self@;
        let ghost prefix = Seq::<T>::empty();
        let ghost suffix = Seq::<T>::empty();
        let mut idx = index;
        let mut curr = &mut self.root;
        loop
            invariant
                wf(*curr),
                count(*curr) < usize::MAX,
                idx <= count(*curr),
                prefix.len() + idx == index,
                whole == prefix + seq_of(*curr) + suffix,
                (wf(*final(curr)) && count(*final(curr)) == count(*curr) + 1) ==> {
                    &&& wf(after_borrow(self.root))
                    &&& seq_of(after_borrow(self.root)) == prefix + seq_of(*final(curr)) + suffix
                },
            ensures
                curr.is_none(),
                idx == 0,
                prefix.len() == index,
                whole == prefix + suffix,
                (wf(*final(curr)) && count(*final(curr)) == 1) ==> {
                    &&& wf(after_borrow(self.root))
                    &&& seq_of(after_borrow(self.root)) == prefix + seq_of(*final(curr)) + suffix
                },
            decreases count(*curr),
        {
            match curr {
                Some(node) => {
                    proof {
                        lemma_unfold(*node);
                    }
                    if idx <= node.num_to_left {
                        proof {
                            suffix = seq![node.val] + seq_of(node.right) + suffix;
                        }
                        node.num_to_left = node.num_to_left + 1;
                        curr = &mut node.left;
                    } else {
                        proof {
                            prefix = prefix + seq_of(node.left) + seq![node.val];
                        }
                        idx = idx - (node.num_to_left + 1);
                        curr = &mut node.right;
                    }
                },
                None => {
                    proof {
                        assert(whole =~= prefix + suffix);
                    }
                    break;
                },
            }
        }
        let leaf = Box::new(TreeNode::new(val));
        proof {
            lemma_unfold(leaf);
            assert(seq_of(Some(leaf)) =~= seq![val]);
        }
        *curr = Some(leaf);
        proof {
            assert(seq_of(self.root) =~= whole.insert(index as int, val));
        }
    }

    /// Unlinks the leftmost node of a non-empty subtree and returns its value;
    /// the nodes on the way down each lose one element on their left.
    fn pop_first(link: &mut Option<Box<TreeNode<T>>>) -> (r: T)
        requires
            wf(*old(link)),
            old(link).is_some(),
        ensures
            wf(*final(link)),
            seq_of(*old(link)) == seq![r] + seq_of(*final(link)),
    {
        let ghost whole = seq_of(*link);
        let ghost suffix = Seq::<T>::empty();
        let mut curr = link;
        loop
            invariant
                curr.is_some(),
                wf(*curr),
                whole == seq_of(*curr) + suffix,
                (wf(*final(curr)) && count(*final(curr)) + 1 == count(*curr)) ==> {
                    &&& wf(*final(link))
                    &&& seq_of(*final(link)) == seq_of(*final(curr)) + suffix
                },
            ensures
                curr.is_some(),
                curr.unwrap().left.is_none(),
                wf(*curr),
                whole == seq_of(*curr) + suffix,
                (wf(*final(curr)) && count(*final(curr)) + 1 == count(*curr)) ==> {
                    &&& wf(*final(link))
                    &&& seq_of(*final(link)) == seq_of(*final(curr)) + suffix
                },
            decreases count(*curr),
        {
            let go_left = match &*curr {
                Some(node) => node.left.is_some(),
                None => false,
            };
            if !go_left {
                break;
            }
            let node = curr.as_mut().unwrap();
            proof {
                lemma_unfold(*node);
                suffix = seq![node.val] + seq_of(node.right) + suffix;
            }
            node.num_to_left = node.num_to_left - 1;
            curr = &mut node.left;
        }
        let tmp = curr.take().unwrap();
        proof {
            lemma_unfold(tmp);
        }
        let TreeNode { val, right, .. } = *tmp;
        *curr = right;
        proof {
            assert(whole =~= seq![val] + seq_of(right) + suffix);
        }
        val
    }

    /// Unlinks the rightmost node of a non-empty subtree and returns its value.
    fn pop_last(link: &mut Option<Box<TreeNode<T>>>) -> (r: T)
        requires
            wf(*old(link)),
            old(link).is_some(),
        ensures
            wf(*final(link)),
            seq_of(*old(link)) == seq_of(*final(link)).push(r),
    {
        let ghost whole = seq_of(*link);
        let ghost prefix = Seq::<T>::empty();
        let mut curr = link;
        loop
            invariant
                curr.is_some(),
                wf(*curr),
                whole == prefix + seq_of(*curr),
                (wf(*final(curr)) && count(*final(curr)) + 1 == count(*curr)) ==> {
                    &&& wf(*final(link))
                    &&& seq_of(*final(link)) == prefix + seq_of(*final(curr))
                },
            ensures
                curr.is_some(),
                curr.unwrap().right.is_none(),
                wf(*curr),
                whole == prefix + seq_of(*curr),
                (wf(*final(curr)) && count(*final(curr)) + 1 == count(*curr)) ==> {
                    &&& wf(*final(link))
                    &&& seq_of(*final(link)) == prefix + seq_of(*final(curr))
                },
            decreases count(*curr),
        {
            let go_right = match &*curr {
                Some(node) => node.right.is_some(),
                None => false,
            };
            if !go_right {
                break;
            }
            let node = curr.as_mut().unwrap();
            proof {
                lemma_unfold(*node);
                prefix = prefix + seq_of(node.left) + seq![node.val];
            }
            curr = &mut node.right;
        }
        let tmp = curr.take().unwrap();
        proof {
            lemma_unfold(tmp);
        }
        let TreeNode { val, left, .. } = *tmp;
        *curr = left;
        proof {
            assert(whole =~= (prefix + seq_of(left)).push(val));
        }
        val
    }

    /// Removes and returns the first element, or returns `None` when empty.
    pub fn pop_front(&mut self) -> (r: Option<T>)
        requires
            old(self).wf(),
        ensures
            final(self).wf(),
            old(self)@.len() == 0 ==> r.is_none() && final(self)@ == old(self)@,
            old(self)@.len() > 0 ==> r == Some(old(self)@[0]) && final(self)@ == old(self)@.drop_first(),
    {
        if self.root.is_none() {
            return None;
        }
        self.size = self.size - 1;
        let ghost whole = self@;
        let res = Self::pop_first(&mut self.root);
        proof {
            assert(whole.drop_first() =~= self@);
        }
        Some(res)
    }

    /// Removes and returns the last element, or returns `None` when empty.
    pub fn pop_back(&mut self) -> (r: Option<T>)
        requires
            old(self).wf(),
        ensures
            final(self).wf(),
            old(self)@.len() == 0 ==> r.is_none() && final(self)@ == old(self)@,
            old(self)@.len() > 0 ==> r == Some(old(self)@.last()) && final(self)@ == old(self)@.drop_last(),
    {
        if self.root.is_none() {
            return None;
        }
        self.size = self.size - 1;
        let ghost whole = self@;
        let res = Self::pop_last(&mut self.root);
        proof {
            assert(whole.drop_last() =~= self@);
        }
        Some(res)
    }

    /// Removes and returns the element at `index`, which must be below the
    /// length.
    pub fn remove(&mut self, index: usize) -> (r: T)
        requires
            old(self).wf(),
            index < old(self)@.len(),
        ensures
            final(self).wf(),
            r == old(self)@[index as int],
            final(self)@ == old(self)@.remove(index as int),
    {
        self.size = self.size - 1;
        let ghost whole = self@;
        let ghost prefix = Seq::<T>::empty();
        let ghost suffix = Seq::<T>::empty();
        let mut idx = index;
        let mut curr = &mut self.root;
        loop
            invariant
                wf(*curr),
                idx < count(*curr),
                prefix.len() + idx == index,
                whole == prefix + seq_of(*curr) + suffix,
                (wf(*final(curr)) && count(*final(curr)) + 1 == count(*curr)) ==> {
                    &&& wf(after_borrow(self.root))
                    &&& seq_of(after_borrow(self.root)) == prefix + seq_of(*final(curr)) + suffix
                },
            ensures
                curr.is_some(),
                idx == curr.unwrap().num_to_left,
                wf(*curr),
                idx < count(*curr),
                prefix.len() + idx == index,
                whole == prefix + seq_of(*curr) + suffix,
                (wf(*final(curr)) && count(*final(curr)) + 1 == count(*curr)) ==> {
                    &&& wf(after_borrow(self.root))
                    &&& seq_of(after_borrow(self.root)) == prefix + seq_of(*final(curr)) + suffix
                },
            decreases count(*curr),
        {
            let num_to_left = match &*curr {
                Some(node) => node.num_to_left,
                None => idx,
            };
            if idx == num_to_left {
                break;
            }
            let node = curr.as_mut().unwrap();
            proof {
                lemma_unfold(*node);
            }
            if idx < num_to_left {
                proof {
                    suffix = seq![node.val] + seq_of(node.right) + suffix;
                }
                node.num_to_left = num_to_left - 1;
                curr = &mut node.left;
            } else {
                proof {
                    prefix = prefix + seq_of(node.left) + seq![node.val];
                }
                idx = idx - (num_to_left + 1);
                curr = &mut node.right;
            }
        }
        let ghost found = curr.unwrap();
        proof {
            lemma_unfold(found);
            assert(whole.remove(index as int) =~= prefix + (seq_of(found.left) + seq_of(found.right)) + suffix);
            assert(whole[index as int] == found.val);
        }
        let no_left = match &*curr {
            Some(node) => node.left.is_none(),
            None => true,
        };
        let no_right = match &*curr {
            Some(node) => node.right.is_none(),
            None => true,
        };
        if no_left {
            let tmp = curr.take().unwrap();
            let TreeNode { val, right, .. } = *tmp;
            *curr = right;
            proof {
                assert(seq_of(found.left) + seq_of(found.right) =~= seq_of(right));
            }
            val
        } else if no_right {
            let tmp = curr.take().unwrap();
            let TreeNode { val, left, .. } = *tmp;
            *curr = left;
            proof {
                assert(seq_of(found.left) + seq_of(found.right) =~= seq_of(left));
            }
            val
        } else {
            let node = curr.as_mut().unwrap();
            let mut val = Self::pop_first(&mut node.right);
            std::mem::swap(&mut node.val, &mut val);
            proof {
                lemma_unfold(*node);
                assert(seq_of(found.left) + seq_of(found.right) =~= seq_of(Some(*node)));
            }
            val
        }
    }

    /// Empties the list. The tree is taken apart one node at a time: a node
    /// with a left child is first rotated right, so that every node is freed
    /// once it has no left child, and no recursion happens however deep the
    /// tree is.
    pub fn clear(&mut self)
        ensures
            final(self).wf(),
            final(self)@ == Seq::<T>::empty(),
        opens_invariants none
        no_unwind
    {
        self.size = 0;
        let mut curr: Option<Box<TreeNode<T>>> = None;
        std::mem::swap(&mut curr, &mut self.root);
        loop
            decreases count(curr), left_count(curr),
        {
            match curr {
                None => {
                    break;
                },
                Some(mut node) => {
                    proof {
                        lemma_unfold(node);
                    }
                    let mut left: Option<Box<TreeNode<T>>> = None;
                    std::mem::swap(&mut left, &mut node.left);
                    match left {
                        None => {
                            let mut right: Option<Box<TreeNode<T>>> = None;
                            std::mem::swap(&mut right, &mut node.right);
                            curr = right;
                        },
                        Some(mut left) => {
                            proof {
                                lemma_unfold(left);
                            }
                            let has_right = match &node.right {
                                Some(_) => true,
                                None => false,
                            };
                            if has_right {
                                std::mem::swap(&mut node.left, &mut left.right);
                                proof {
                                    lemma_unfold(node);
                                }
                                left.right = Some(node);
                                proof {
                                    lemma_unfold(left);
                                }
                            }
                            curr = Some(left);
                        },
                    }
                },
            }
        }
    }

    /// A traversal of the elements from the first to the last.
    pub fn iter(&self) -> (r: Iter<'_, T>)
        ensures
            r@ == self@,
    {
        let mut curr = &self.root;
        let mut stack: Vec<&TreeNode<T>> = Vec::new();
        loop
            invariant
                seq_of(*curr) + pending(stack@) == self@,
            ensures
                pending(stack@) == self@,
            decreases *curr,
        {
            match curr {
                Some(node) => {
                    proof {
                        lemma_unfold(*node);
                    }
                    let ghost before = stack@;
                    stack.push(&**node);
                    proof {
                        assert(stack@.drop_last() == before);
                    }
                    curr = &node.left;
                },
                None => {
                    proof {
                        assert(seq_of(*curr) + pending(stack@) =~= pending(stack@));
                    }
                    break;
                },
            }
        }
        Iter { stack }
    }

    /// The number of elements.
    pub fn len(&self) -> (r: usize)
        requires
            self.wf(),
        ensures
            r == self@.len(),
    {
        self.size
    }

    /// Whether the list holds no element.
    pub fn is_empty(&self) -> (r: bool)
        requires
            self.wf(),
        ensures
            r == (self@.len() == 0),
    {
        self.size == 0
    }
}

impl<T> Drop for TreeList<T> {
    fn drop(&mut self)
        opens_invariants none
        no_unwind
    {
        self.clear();
    }
}

impl<T> Default for TreeList<T> {
    fn default() -> (r: Self)
        ensures
            r.wf(),
            r@ == Seq::<T>::empty(),
    {
        Self::new()
    }
}

/// The elements that a traversal still has to yield when `stack` holds the
/// nodes whose values and right subtrees are not yet visited, the next on top.
spec fn pending<T>(stack: Seq<&TreeNode<T>>) -> Seq<T>
    decreases stack.len(),
{
    if stack.len() == 0 {
        Seq::empty()
    } else {
        let n = stack.last();
        seq![n.val] + seq_of(n.right) + pending(stack.drop_last())
    }
}

/// An in-order traversal of a `TreeList`, which yields each element
/// once, from the first to the last.
pub struct Iter<'a, T> {
    stack: Vec<&'a TreeNode<T>>,
}

impl<'a, T> View for Iter<'a, T> {
    type V = Seq<T>;

    /// The elements not yet yielded, in order.
    closed spec fn view(&self) -> Seq<T> {
        pending(self.stack@)
    }
}

impl<'a, T> Iter<'a, T> {
    /// The next element of the traversal, or `None` once all were yielded.
    pub fn next(&mut self) -> (r: Option<&'a T>)
        ensures
            old(self)@.len() == 0 ==> r.is_none() && final(self)@ == old(self)@,
            old(self)@.len() > 0 ==> r == Some(&old(self)@[0]) && final(self)@ == old(self)@.drop_first(),
    {
        match self.stack.pop() {
            Some(node) => {
                let ghost rest = self.stack@;
                let mut curr = &node.right;
                loop
                    invariant
                        seq_of(*curr) + pending(self.stack@) == seq_of(node.right) + pending(rest),
                    ensures
                        pending(self.stack@) == seq_of(node.right) + pending(rest),
                    decreases *curr,
                {
                    match curr {
                        Some(x) => {
                            proof {
                                lemma_unfold(*x);
                            }
                            let ghost before = self.stack@;
                            self.stack.push(&**x);
                            proof {
                                assert(self.stack@.drop_last() == before);
                            }
                            curr = &x.left;
                        },
                        None => {
                            proof {
                                assert(seq_of(*curr) + pending(self.stack@) =~= pending(self.stack@));
                            }
                            break;
                        },
                    }
                }
                proof {
                    assert(old(self)@.drop_first() =~= seq_of(node.right) + pending(rest));
                }
                Some(&node.val)
            },
            None => None,
        }
    }
}

} // verus!
