//! A list backed by a left-leaning red-black tree in which every node records
//! the size of its left subtree.
use vstd::arithmetic::power2::{lemma_pow2_adds, lemma_pow2_strictly_increases, lemma_pow2_unfold, pow2};
use vstd::prelude::*;

verus! {

#[derive(Debug, PartialEq, Eq, Structural, Clone, Copy)]
enum Color {
    Black,
    Red,
}

#[derive(Debug)]
struct TreeNode<T> {
    val: T,
    color: Color,
    num_to_left: usize,
    left: Option<Box<TreeNode<T>>>,
    right: Option<Box<TreeNode<T>>>,
}

/// The elements of a subtree, in order.
spec fn seq_of<T>(link: Option<Box<TreeNode<T>>>) -> Seq<T>
    decreases link,
{
    match link {
        None => Seq::empty(),
        Some(n) => seq_of(n.left) + seq![n.val] + seq_of(n.right),
    }
}

/// Every node's `num_to_left` is the size of its left subtree.
spec fn wf<T>(link: Option<Box<TreeNode<T>>>) -> bool
    decreases link,
{
    match link {
        None => true,
        Some(n) => wf(n.left) && wf(n.right) && n.num_to_left as nat == seq_of(n.left).len(),
    }
}

spec fn count<T>(link: Option<Box<TreeNode<T>>>) -> nat {
    seq_of(link).len()
}

/// `link` is a node with exactly these contents; its left count is not fixed.
spec fn node_is<T>(
    link: Option<Box<TreeNode<T>>>,
    val: T,
    color: Color,
    left: Option<Box<TreeNode<T>>>,
    right: Option<Box<TreeNode<T>>>,
) -> bool {
    match link {
        None => false,
        Some(n) => n.val == val && n.color == color && n.left == left && n.right == right,
    }
}

spec fn color_of<T>(link: Option<Box<TreeNode<T>>>) -> Color {
    match link {
        None => Color::Black,
        Some(n) => n.color,
    }
}

spec fn is_red<T>(link: Option<Box<TreeNode<T>>>) -> bool {
    color_of(link) == Color::Red
}

/// The number of black nodes on the leftmost path of a subtree.
spec fn black_height<T>(link: Option<Box<TreeNode<T>>>) -> nat
    decreases link,
{
    match link {
        None => 0,
        Some(n) => black_height(n.left) + if n.color == Color::Black { 1nat } else { 0nat },
    }
}

/// The left-leaning red-black shape: every path down crosses the same number
/// of black nodes, no red node has a red child, and red children only lean
/// left.
spec fn llrb<T>(link: Option<Box<TreeNode<T>>>) -> bool
    decreases link,
{
    match link {
        None => true,
        Some(n) => {
            &&& llrb(n.left)
            &&& llrb(n.right)
            &&& black_height(n.left) == black_height(n.right)
            &&& !is_red(n.right)
            &&& !(n.color == Color::Red && is_red(n.left))
        },
    }
}

/// The left-leaning red-black shape, except that a red root may have a red
/// left child: what an insertion below a red node hands back to its parent.
spec fn llrb_but_root<T>(link: Option<Box<TreeNode<T>>>) -> bool {
    match link {
        None => true,
        Some(n) => {
            &&& llrb(n.left)
            &&& llrb(n.right)
            &&& black_height(n.left) == black_height(n.right)
            &&& !is_red(n.right)
        },
    }
}

/// The shape a deletion step may meet on its way down: the left-leaning
/// red-black shape, except that a black root may lean its red child right.
spec fn llrb_lean<T>(link: Option<Box<TreeNode<T>>>) -> bool {
    match link {
        None => true,
        Some(n) => {
            &&& llrb(n.left)
            &&& llrb(n.right)
            &&& black_height(n.left) == black_height(n.right)
            &&& !(n.color == Color::Red && (is_red(n.left) || is_red(n.right)))
            &&& !(is_red(n.left) && is_red(n.right))
        },
    }
}

/// A node that is red or has a red child can give up an element below it
/// without changing its black height.
spec fn has_red<T>(n: Box<TreeNode<T>>) -> bool {
    n.color == Color::Red || is_red(n.left) || is_red(n.right)
}

proof fn lemma_unfold_llrb<T>(n: Box<TreeNode<T>>)
    ensures
        black_height(Some(n)) == black_height(n.left) + if n.color == Color::Black { 1nat } else { 0nat },
        llrb(Some(n)) == (llrb_but_root(Some(n)) && !(n.color == Color::Red && is_red(n.left))),
        llrb_but_root(Some(n)) == (llrb(n.left) && llrb(n.right) && black_height(n.left) == black_height(n.right)
            && !is_red(n.right)),
        llrb(Some(n)) ==> llrb_lean(Some(n)),
{
}

/// Recoloring the root of a subtree keeps its shape below the root.
proof fn lemma_recolored_llrb<T>(a: Option<Box<TreeNode<T>>>, b: Option<Box<TreeNode<T>>>, c: Color)
    requires
        recolored(a, b, c),
        a.is_some(),
    ensures
        black_height(b) + (if color_of(a) == Color::Black { 1nat } else { 0nat }) == black_height(a) + (if c == Color::Black { 1nat } else { 0nat }),
        is_red(b) == (c == Color::Red),
        llrb_but_root(a) ==> llrb_but_root(b),
        llrb_but_root(a) && c == Color::Black ==> llrb(b),
        llrb_but_root(a) && !red_below(a, true) ==> llrb(b),
        llrb(a) ==> llrb_but_root(a),
{
    lemma_unfold_llrb(a.unwrap());
    lemma_unfold_llrb(b.unwrap());
}

/// Below a black node every path crosses at least one black node.
proof fn lemma_no_black_height<T>(link: Option<Box<TreeNode<T>>>)
    requires
        !is_red(link),
        black_height(link) == 0,
    ensures
        link.is_none(),
{
    if let Some(n) = link {
        lemma_unfold_llrb(n);
    }
}

/// `link` is a node whose left child (`left`) or right child is red.
spec fn red_below<T>(link: Option<Box<TreeNode<T>>>, left: bool) -> bool {
    match link {
        None => false,
        Some(n) => if left { is_red(n.left) } else { is_red(n.right) },
    }
}

/// The number of nodes on the longest path down from the root.
spec fn tree_height<T>(link: Option<Box<TreeNode<T>>>) -> nat
    decreases link,
{
    match link {
        None => 0,
        Some(n) => 1 + if tree_height(n.left) >= tree_height(n.right) {
            tree_height(n.left)
        } else {
            tree_height(n.right)
        },
    }
}

/// A path down a left-leaning red-black tree alternates at worst between
/// black and red nodes.
proof fn lemma_height_by_black_height<T>(link: Option<Box<TreeNode<T>>>)
    requires
        llrb(link),
    ensures
        tree_height(link) <= 2 * black_height(link) + if is_red(link) { 1nat } else { 0nat },
    decreases link,
{
    if let Some(n) = link {
        lemma_height_by_black_height(n.left);
        lemma_height_by_black_height(n.right);
        lemma_unfold_llrb(n);
    }
}

/// A left-leaning red-black tree holds a complete binary tree of its black
/// nodes.
proof fn lemma_count_by_black_height<T>(link: Option<Box<TreeNode<T>>>)
    requires
        llrb(link),
    ensures
        pow2(black_height(link)) <= count(link) + 1,
    decreases link,
{
    if let Some(n) = link {
        lemma_count_by_black_height(n.left);
        lemma_count_by_black_height(n.right);
        lemma_unfold_llrb(n);
        lemma_unfold(n);
        if n.color == Color::Black {
            lemma_pow2_unfold(black_height(link));
        }
    } else {
        assert(pow2(0) == 1) by {
            vstd::arithmetic::power2::lemma2_to64();
        }
    }
}

/// `b` is `a` with its root recolored to `c` (an absent node stays absent).
spec fn recolored<T>(a: Option<Box<TreeNode<T>>>, b: Option<Box<TreeNode<T>>>, c: Color) -> bool {
    match a {
        None => b.is_none(),
        Some(n) => match b {
            None => false,
            Some(m) => m.val == n.val && m.color == c && m.num_to_left == n.num_to_left
                && m.left == n.left && m.right == n.right,
        },
    }
}

proof fn lemma_recolored<T>(a: Option<Box<TreeNode<T>>>, b: Option<Box<TreeNode<T>>>, c: Color)
    requires
        recolored(a, b, c),
    ensures
        seq_of(a) == seq_of(b),
        wf(a) == wf(b),
{
}

/// What a node holds: its left subtree, its value and its right subtree.
proof fn lemma_unfold<T>(n: Box<TreeNode<T>>)
    ensures
        seq_of(Some(n)) == seq_of(n.left) + seq![n.val] + seq_of(n.right),
        count(Some(n)) == count(n.left) + 1 + count(n.right),
        wf(Some(n)) == (wf(n.left) && wf(n.right) && n.num_to_left as nat == count(n.left)),
{
}

/// Removing from the left subtree removes from the whole at the same index.
proof fn lemma_removed_left<T>(before: Box<TreeNode<T>>, after: Box<TreeNode<T>>, index: int, res: T)
    requires
        0 <= index < count(before.left),
        after.val == before.val,
        after.right == before.right,
        seq_of(after.left) == seq_of(before.left).remove(index),
        res == seq_of(before.left)[index],
    ensures
        seq_of(Some(after)) == seq_of(Some(before)).remove(index),
        res == seq_of(Some(before))[index],
{
    lemma_unfold(before);
    lemma_unfold(after);
    assert(seq_of(Some(after)) =~= seq_of(Some(before)).remove(index));
}

/// Removing from the right subtree removes from the whole past the left
/// subtree and the node.
proof fn lemma_removed_right<T>(before: Box<TreeNode<T>>, after: Box<TreeNode<T>>, index: int, res: T)
    requires
        0 <= index < count(before.right),
        after.val == before.val,
        after.left == before.left,
        seq_of(after.right) == seq_of(before.right).remove(index),
        res == seq_of(before.right)[index],
    ensures
        seq_of(Some(after)) == seq_of(Some(before)).remove(count(before.left) + 1 + index),
        res == seq_of(Some(before))[count(before.left) + 1 + index],
{
    lemma_unfold(before);
    lemma_unfold(after);
    assert(seq_of(Some(after)) =~= seq_of(Some(before)).remove(count(before.left) + 1 + index));
}

/// Replacing a node's value by the first element of its right subtree
/// removes the node's own value.
proof fn lemma_removed_here<T>(before: Box<TreeNode<T>>, after: Box<TreeNode<T>>, res: T)
    requires
        after.left == before.left,
        seq_of(before.right) == seq![after.val] + seq_of(after.right),
        res == before.val,
    ensures
        seq_of(Some(after)) == seq_of(Some(before)).remove(count(before.left) as int),
        res == seq_of(Some(before))[count(before.left) as int],
{
    lemma_unfold(before);
    lemma_unfold(after);
    assert(seq_of(Some(after)) =~= seq_of(Some(before)).remove(count(before.left) as int));
}

impl<T> TreeNode<T> {
    fn new(val: T) -> (r: Self)
        ensures
            r.val == val,
            r.color == Color::Red,
            r.num_to_left == 0,
            r.left.is_none(),
            r.right.is_none(),
    {
        TreeNode { val, color: Color::Red, num_to_left: 0, left: None, right: None }
    }
}

/// A list with logarithmic-time indexed access, insertion and removal.
#[derive(Debug)]
pub struct RecursiveTreeList<T> {
    root: Option<Box<TreeNode<T>>>,
    size: usize,
}

impl<T> View for RecursiveTreeList<T> {
    type V = Seq<T>;

    closed spec fn view(&self) -> Seq<T> {
        seq_of(self.root)
    }
}

impl<T> RecursiveTreeList<T> {
    /// The invariant: the cached size and every node's left count agree with
    /// the tree, which has the left-leaning red-black shape under a black
    /// root.
    pub closed spec fn wf(&self) -> bool {
        &&& wf(self.root)
        &&& self.size as nat == count(self.root)
        &&& self.is_balanced()
    }

    /// The tree has the left-leaning red-black shape under a black root.
    pub closed spec fn is_balanced(&self) -> bool {
        llrb(self.root) && !is_red(self.root)
    }

    /// The number of nodes on the longest path down the tree.
    pub closed spec fn height(&self) -> nat {
        tree_height(self.root)
    }

    /// A balanced tree of `n` elements is at most `2 * log2(n + 1)` nodes
    /// high, which is stated here without logarithms.
    pub proof fn lemma_height_bound(&self)
        requires
            self.wf(),
        ensures
            pow2(self.height()) <= (self@.len() + 1) * (self@.len() + 1),
    {
        let b = black_height(self.root);
        let n = self@.len();
        lemma_height_by_black_height(self.root);
        lemma_count_by_black_height(self.root);
        lemma_pow2_adds(b, b);
        if self.height() < 2 * b {
            lemma_pow2_strictly_increases(self.height(), 2 * b);
        }
        let p = pow2(b);
        assert(p * p <= (n + 1) * (n + 1)) by (nonlinear_arith)
            requires
                p <= n + 1,
        ;
    }

    /// Every insertion adds exactly one element and every removal takes
    /// exactly one away, so the length counts insertions minus removals.
    pub proof fn lemma_len_counts_operations(&self, index: usize, v: T)
        requires
            index <= self@.len(),
        ensures
            self@.insert(index as int, v).len() == self@.len() + 1,
            (seq![v] + self@).len() == self@.len() + 1,
            self@.push(v).len() == self@.len() + 1,
            index < self@.len() ==> self@.remove(index as int).len() == self@.len() - 1,
            self@.len() > 0 ==> self@.drop_first().len() == self@.len() - 1,
            self@.len() > 0 ==> self@.drop_last().len() == self@.len() - 1,
    {
    }

    /// Right after `insert(index, v)`, `get(index)` finds `v`.
    pub proof fn lemma_get_after_insert(&self, index: usize, v: T)
        requires
            index <= self@.len(),
        ensures
            index < self@.insert(index as int, v).len(),
            self@.insert(index as int, v)[index as int] == v,
    {
    }

    /// `remove(index)` right after `insert(index, v)` returns `v` and restores
    /// the elements and the length from before.
    pub proof fn lemma_remove_after_insert(&self, index: usize, v: T)
        requires
            index <= self@.len(),
        ensures
            self@.insert(index as int, v)[index as int] == v,
            self@.insert(index as int, v).remove(index as int) == self@,
    {
        assert(self@.insert(index as int, v).remove(index as int) =~= self@);
    }

    /// Creates an empty list.
    pub fn new() -> (r: Self)
        ensures
            r.wf(),
            r@ == Seq::<T>::empty(),
    {
        RecursiveTreeList { root: None, size: 0 }
    }

    /// The element at `index`, or `None` when `index` is not below the length.
    pub fn get(&self, index: usize) -> (r: Option<&T>)
        requires
            self.wf(),
        ensures
            index < self@.len() ==> r == Some(&self@[index as int]),
            index >= self@.len() ==> r.is_none(),
    {
        if index >= self.size {
            return None;
        }
        let mut idx = index;
        let ghost target = self@[index as int];
        let mut node = match &self.root {
            Some(n) => n,
            None => { return None; },
        };
        loop
            invariant
                wf(Some(*node)),
                idx < count(Some(*node)),
                seq_of(Some(*node))[idx as int] == target,
                index < self@.len(),
                target == self@[index as int],
            decreases count(Some(*node)),
        {
            assert(seq_of(Some(*node)) == seq_of(node.left) + seq![node.val] + seq_of(node.right));
            if idx < node.num_to_left {
                node = match &node.left {
                    Some(n) => n,
                    None => { return None; },
                };
            } else if idx > node.num_to_left {
                idx = idx - (node.num_to_left + 1);
                node = match &node.right {
                    Some(n) => n,
                    None => { return None; },
                };
            } else {
                return Some(&node.val);
            }
        }
    }

    fn rot_r(left: Box<TreeNode<T>>, node: Box<TreeNode<T>>) -> (r: Box<TreeNode<T>>)
        requires
            node.left.is_none(),
            wf(Some(left)),
            wf(node.right),
            node.num_to_left as nat == count(Some(left)),
        ensures
            wf(Some(r)),
            seq_of(Some(r)) == seq_of(Some(left)) + seq![node.val] + seq_of(node.right),
            r.val == left.val,
            r.color == node.color,
            r.left == left.left,
            node_is(r.right, node.val, Color::Red, left.right, node.right),
    {
        let ghost l0 = left;
        let ghost n0 = node;
        let mut left = left;
        let mut node = node;
        proof {
            lemma_unfold(left);
        }
        node.num_to_left = node.num_to_left - (left.num_to_left + 1);
        node.left = left.right.take();
        left.color = node.color;
        node.color = Color::Red;
        proof {
            lemma_unfold(node);
        }
        left.right = Some(node);
        proof {
            lemma_unfold(left);
            assert(seq_of(Some(left)) =~= seq_of(Some(l0)) + seq![n0.val] + seq_of(n0.right));
        }
        left
    }

    fn rot_l(right: Box<TreeNode<T>>, node: Box<TreeNode<T>>) -> (r: Box<TreeNode<T>>)
        requires
            node.right.is_none(),
            wf(Some(right)),
            wf(node.left),
            node.num_to_left as nat == count(node.left),
            count(node.left) + 1 + count(Some(right)) <= usize::MAX,
        ensures
            wf(Some(r)),
            seq_of(Some(r)) == seq_of(node.left) + seq![node.val] + seq_of(Some(right)),
            r.val == right.val,
            r.color == node.color,
            r.right == right.right,
            node_is(r.left, node.val, Color::Red, node.left, right.left),
    {
        let ghost r0 = right;
        let ghost n0 = node;
        let mut right = right;
        let mut node = node;
        proof {
            lemma_unfold(right);
        }
        right.num_to_left = right.num_to_left + (node.num_to_left + 1);
        node.right = right.left.take();
        right.color = node.color;
        node.color = Color::Red;
        proof {
            lemma_unfold(node);
        }
        right.left = Some(node);
        proof {
            lemma_unfold(right);
            assert(seq_of(Some(right)) =~= seq_of(n0.left) + seq![n0.val] + seq_of(Some(r0)));
        }
        right
    }

    fn node_color(node: &Option<Box<TreeNode<T>>>) -> (r: Color)
        ensures
            r == color_of(*node),
    {
        match node {
            Some(x) => x.color,
            None => Color::Black,
        }
    }

    fn flip_colors_black(node: &mut Box<TreeNode<T>>)
        requires
            wf(Some(*old(node))),
        ensures
            wf(Some(*final(node))),
            seq_of(Some(*final(node))) == seq_of(Some(*old(node))),
            final(node).val == old(node).val,
            final(node).color == Color::Red,
            recolored(old(node).left, final(node).left, Color::Black),
            recolored(old(node).right, final(node).right, Color::Black),
    {
        Self::recolor_children(node, Color::Black, Color::Red);
    }

    fn flip_colors_red(node: &mut Box<TreeNode<T>>)
        requires
            wf(Some(*old(node))),
        ensures
            wf(Some(*final(node))),
            seq_of(Some(*final(node))) == seq_of(Some(*old(node))),
            final(node).val == old(node).val,
            final(node).color == Color::Black,
            recolored(old(node).left, final(node).left, Color::Red),
            recolored(old(node).right, final(node).right, Color::Red),
    {
        Self::recolor_children(node, Color::Red, Color::Black);
    }

    /// Colors a node's children `children` and the node itself `parent`, which
    /// changes neither its elements nor its left counts.
    fn recolor_children(node: &mut Box<TreeNode<T>>, children: Color, parent: Color)
        requires
            wf(Some(*old(node))),
        ensures
            wf(Some(*final(node))),
            seq_of(Some(*final(node))) == seq_of(Some(*old(node))),
            final(node).val == old(node).val,
            final(node).color == parent,
            recolored(old(node).left, final(node).left, children),
            recolored(old(node).right, final(node).right, children),
    {
        let ghost n0 = *node;
        match node.left.take() {
            Some(mut l) => {
                l.color = children;
                node.left = Some(l);
            },
            None => {},
        }
        match node.right.take() {
            Some(mut r) => {
                r.color = children;
                node.right = Some(r);
            },
            None => {},
        }
        node.color = parent;
        proof {
            lemma_recolored(n0.left, node.left, children);
            lemma_recolored(n0.right, node.right, children);
            lemma_unfold(n0);
            lemma_unfold(*node);
        }
    }

    fn move_red_left(node: Box<TreeNode<T>>) -> (r: Box<TreeNode<T>>)
        requires
            wf(Some(node)),
            node.left.is_some(),
            count(Some(node)) <= usize::MAX,
        ensures
            wf(Some(r)),
            seq_of(Some(r)) == seq_of(Some(node)),
            r.left.is_some(),
            r.num_to_left >= node.num_to_left,
            !red_below(node.right, true) ==> {
                &&& r.val == node.val
                &&& r.color == Color::Black
                &&& recolored(node.left, r.left, Color::Red)
                &&& recolored(node.right, r.right, Color::Red)
            },
            red_below(node.right, true) ==> {
                let m = node.right.unwrap().left.unwrap();
                &&& r.color == Color::Red
                &&& r.left matches Some(a) && a.val == node.val && a.color == Color::Black
                    && recolored(node.left, a.left, Color::Red) && a.right == m.left
                &&& r.right matches Some(c) && c.val == node.right.unwrap().val && c.color == Color::Black
                    && c.left == m.right && c.right == node.right.unwrap().right
            },
    {
        let mut node = node;
        Self::flip_colors_red(&mut node);
        proof {
            lemma_unfold(node);
        }
        let right_left_red = match &node.right {
            Some(right) => Self::node_color(&right.left) == Color::Red,
            None => false,
        };
        if right_left_red {
            let mut right = node.right.take().unwrap();
            proof {
                lemma_unfold(right);
            }
            let right_left = right.left.take().unwrap();
            right = Self::rot_r(right_left, right);
            node = Self::rot_l(right, node);
            let ghost n1 = node;
            Self::flip_colors_black(&mut node);
            proof {
                lemma_unfold(n1.left.unwrap());
            }
        }
        node
    }

    fn move_red_right(node: Box<TreeNode<T>>) -> (r: Box<TreeNode<T>>)
        requires
            wf(Some(node)),
            node.right.is_some(),
        ensures
            wf(Some(r)),
            seq_of(Some(r)) == seq_of(Some(node)),
            r.right.is_some(),
            r.num_to_left <= node.num_to_left,
            !red_below(node.left, true) ==> {
                &&& r.val == node.val
                &&& r.color == Color::Black
                &&& recolored(node.left, r.left, Color::Red)
                &&& recolored(node.right, r.right, Color::Red)
            },
            red_below(node.left, true) ==> {
                let l = node.left.unwrap();
                &&& r.color == Color::Red
                &&& recolored(l.left, r.left, Color::Black)
                &&& r.right matches Some(c) && c.val == node.val && c.color == Color::Black
                    && c.left == l.right && recolored(node.right, c.right, Color::Red)
            },
    {
        let mut node = node;
        Self::flip_colors_red(&mut node);
        proof {
            lemma_unfold(node);
        }
        let left_left_red = match &node.left {
            Some(left) => Self::node_color(&left.left) == Color::Red,
            None => false,
        };
        if left_left_red {
            let left = node.left.take().unwrap();
            node = Self::rot_r(left, node);
            Self::flip_colors_black(&mut node);
        }
        node
    }

    fn insert_aux(node: Option<Box<TreeNode<T>>>, index: usize, val: T) -> (r: Box<TreeNode<T>>)
        requires
            wf(node),
            index <= count(node),
            count(node) < usize::MAX,
        ensures
            wf(Some(r)),
            seq_of(Some(r)) == seq_of(node).insert(index as int, val),
            llrb(node) ==> llrb_but_root(Some(r)) && black_height(Some(r)) == black_height(node),
            llrb(node) && !is_red(node) ==> llrb(Some(r)),
        decreases node,
    {
        match node {
            Some(mut x) => {
                let ghost x0 = x;
                proof {
                    lemma_unfold(x0);
                    lemma_unfold_llrb(x0);
                }
                if index <= x.num_to_left {
                    x.num_to_left = x.num_to_left + 1;
                    let new_left = Self::insert_aux(x.left.take(), index, val);
                    proof {
                        assert(seq_of(x0.left).insert(index as int, val) + seq![x0.val] + seq_of(x0.right)
                            =~= seq_of(Some(x0)).insert(index as int, val));
                    }
                    proof {
                        lemma_unfold_llrb(new_left);
                    }
                    if new_left.color == Color::Red && Self::node_color(&new_left.left) == Color::Red {
                        x = Self::rot_r(new_left, x);
                        proof {
                            lemma_unfold_llrb(x.right.unwrap());
                            lemma_unfold_llrb(new_left.left.unwrap());
                        }
                        let ghost x1 = x;
                        Self::flip_colors_black(&mut x);
                        proof {
                            lemma_recolored_llrb(x1.left, x.left, Color::Black);
                            lemma_recolored_llrb(x1.right, x.right, Color::Black);
                            lemma_unfold_llrb(x);
                        }
                    } else {
                        x.left = Some(new_left);
                        proof {
                            lemma_unfold(x);
                            lemma_unfold_llrb(x);
                        }
                    }
                } else {
                    let idx = index - (x.num_to_left + 1);
                    let new_right = Self::insert_aux(x.right.take(), idx, val);
                    proof {
                        lemma_unfold_llrb(new_right);
                        assert(seq_of(x0.left) + seq![x0.val] + seq_of(x0.right).insert(idx as int, val)
                            =~= seq_of(Some(x0)).insert(index as int, val));
                    }
                    if new_right.color == Color::Red {
                        if Self::node_color(&x.left) == Color::Red {
                            x.right = Some(new_right);
                            proof {
                                lemma_unfold(x);
                            }
                            let ghost x1 = x;
                            Self::flip_colors_black(&mut x);
                            proof {
                                lemma_recolored_llrb(x1.left, x.left, Color::Black);
                                lemma_recolored_llrb(x1.right, x.right, Color::Black);
                                lemma_unfold_llrb(x);
                            }
                        } else {
                            x = Self::rot_l(new_right, x);
                            proof {
                                lemma_unfold_llrb(x);
                                lemma_unfold_llrb(x.left.unwrap());
                            }
                        }
                    } else {
                        x.right = Some(new_right);
                        proof {
                            lemma_unfold(x);
                            lemma_unfold_llrb(x);
                        }
                    }
                }
                x
            },
            None => {
                let r = Box::new(TreeNode::new(val));
                proof {
                    lemma_unfold(r);
                    assert(seq_of(Some(r)) =~= seq_of(node).insert(index as int, val));
                }
                r
            },
        }
    }

    fn push_front_aux(node: Option<Box<TreeNode<T>>>, val: T) -> (r: Box<TreeNode<T>>)
        requires
            wf(node),
            count(node) < usize::MAX,
        ensures
            wf(Some(r)),
            seq_of(Some(r)) == seq![val] + seq_of(node),
            llrb(node) ==> llrb_but_root(Some(r)) && black_height(Some(r)) == black_height(node),
            llrb(node) && !is_red(node) ==> llrb(Some(r)),
        decreases node,
    {
        match node {
            Some(mut x) => {
                let ghost x0 = x;
                proof {
                    lemma_unfold(x0);
                    lemma_unfold_llrb(x0);
                }
                x.num_to_left = x.num_to_left + 1;
                let new_left = Self::push_front_aux(x.left.take(), val);
                proof {
                    assert(seq![val] + seq_of(x0.left) + seq![x0.val] + seq_of(x0.right)
                        =~= seq![val] + seq_of(Some(x0)));
                }
                proof {
                    lemma_unfold_llrb(new_left);
                }
                if new_left.color == Color::Red && Self::node_color(&new_left.left) == Color::Red {
                    x = Self::rot_r(new_left, x);
                    proof {
                        lemma_unfold_llrb(x.right.unwrap());
                        lemma_unfold_llrb(new_left.left.unwrap());
                    }
                    let ghost x1 = x;
                    Self::flip_colors_black(&mut x);
                    proof {
                        lemma_recolored_llrb(x1.left, x.left, Color::Black);
                        lemma_recolored_llrb(x1.right, x.right, Color::Black);
                        lemma_unfold_llrb(x);
                    }
                } else {
                    x.left = Some(new_left);
                    proof {
                        lemma_unfold(x);
                        lemma_unfold_llrb(x);
                    }
                }
                x
            },
            None => {
                let r = Box::new(TreeNode::new(val));
                proof {
                    lemma_unfold(r);
                    assert(seq_of(Some(r)) =~= seq![val] + seq_of(node));
                }
                r
            },
        }
    }

    /// Puts `val` before the first element.
    pub fn push_front(&mut self, val: T)
        requires
            old(self).wf(),
            old(self)@.len() < usize::MAX,
        ensures
            final(self).wf(),
            final(self)@ == seq![val] + old(self)@,
    {
        self.size = self.size + 1;
        let new_root = Self::push_front_aux(self.root.take(), val);
        self.root = Self::blacken(Some(new_root));
    }

    fn push_back_aux(node: Option<Box<TreeNode<T>>>, val: T) -> (r: Box<TreeNode<T>>)
        requires
            wf(node),
            count(node) < usize::MAX,
        ensures
            wf(Some(r)),
            seq_of(Some(r)) == seq_of(node).push(val),
            llrb(node) ==> llrb_but_root(Some(r)) && black_height(Some(r)) == black_height(node),
            llrb(node) && !is_red(node) ==> llrb(Some(r)),
        decreases node,
    {
        match node {
            Some(mut x) => {
                let ghost x0 = x;
                proof {
                    lemma_unfold(x0);
                    lemma_unfold_llrb(x0);
                }
                let new_right = Self::push_back_aux(x.right.take(), val);
                proof {
                    lemma_unfold_llrb(new_right);
                }
                proof {
                    assert(seq_of(x0.left) + seq![x0.val] + seq_of(x0.right).push(val)
                        =~= seq_of(Some(x0)).push(val));
                }
                if new_right.color == Color::Red {
                    if Self::node_color(&x.left) == Color::Red {
                        x.right = Some(new_right);
                        proof {
                            lemma_unfold(x);
                        }
                        let ghost x1 = x;
                        Self::flip_colors_black(&mut x);
                        proof {
                            lemma_recolored_llrb(x1.left, x.left, Color::Black);
                            lemma_recolored_llrb(x1.right, x.right, Color::Black);
                            lemma_unfold_llrb(x);
                        }
                    } else {
                        x = Self::rot_l(new_right, x);
                        proof {
                            lemma_unfold_llrb(x);
                            lemma_unfold_llrb(x.left.unwrap());
                        }
                    }
                } else {
                    x.right = Some(new_right);
                    proof {
                        lemma_unfold(x);
                        lemma_unfold_llrb(x);
                    }
                }
                x
            },
            None => {
                let r = Box::new(TreeNode::new(val));
                proof {
                    lemma_unfold(r);
                    assert(seq_of(Some(r)) =~= seq_of(node).push(val));
                }
                r
            },
        }
    }

    /// Puts `val` after the last element.
    pub fn push_back(&mut self, val: T)
        requires
            old(self).wf(),
            old(self)@.len() < usize::MAX,
        ensures
            final(self).wf(),
            final(self)@ == old(self)@.push(val),
    {
        self.size = self.size + 1;
        let new_root = Self::push_back_aux(self.root.take(), val);
        self.root = Self::blacken(Some(new_root));
    }

    /// Inserts `val` so that it becomes the element at `index`; `index` may be
    /// at most the length, where it appends.
    pub fn insert(&mut self, index: usize, val: T)
        requires
            old(self).wf(),
            index <= old(self)@.len(),
            old(self)@.len() < usize::MAX,
        ensures
            final(self).wf(),
            final(self)@ == old(self)@.insert(index as int, val),
    {
        self.size = self.size + 1;
        let new_root = Self::insert_aux(self.root.take(), index, val);
        self.root = Self::blacken(Some(new_root));
    }

    /// Restores the left-leaning shape at a node after one of its subtrees
    /// lost an element.
    fn fix_up(node: Box<TreeNode<T>>) -> (r: Box<TreeNode<T>>)
        requires
            wf(Some(node)),
            count(Some(node)) <= usize::MAX,
        ensures
            wf(Some(r)),
            seq_of(Some(r)) == seq_of(Some(node)),
            llrb(node.left) && !is_red(node.right) ==> r == node,
            ({
                &&& llrb(node.left)
                &&& llrb(node.right)
                &&& black_height(node.left) == black_height(node.right)
                &&& node.color == Color::Black
                &&& is_red(node.right)
            }) ==> {
                &&& llrb(Some(r))
                &&& black_height(Some(r)) == black_height(Some(node))
                &&& is_red(Some(r)) == is_red(node.left)
            },
    {
        let ghost n0 = node;
        let mut node = node;
        proof {
            lemma_unfold(node);
            lemma_unfold_llrb(node);
            if node.left.is_some() {
                lemma_unfold_llrb(node.left.unwrap());
            }
            if node.right.is_some() {
                lemma_unfold_llrb(node.right.unwrap());
            }
        }
        if Self::node_color(&node.right) == Color::Red {
            if Self::node_color(&node.left) == Color::Red {
                Self::flip_colors_black(&mut node);
                proof {
                    lemma_recolored_llrb(n0.left, node.left, Color::Black);
                    lemma_recolored_llrb(n0.right, node.right, Color::Black);
                    lemma_unfold_llrb(node);
                }
            } else {
                let right = node.right.take().unwrap();
                node = Self::rot_l(right, node);
                proof {
                    lemma_unfold_llrb(node);
                    lemma_unfold_llrb(node.left.unwrap());
                }
            }
        } else if Self::node_color(&node.left) == Color::Red {
            let left_left_red = match &node.left {
                Some(left) => Self::node_color(&left.left) == Color::Red,
                None => false,
            };
            if left_left_red {
                let left = node.left.take().unwrap();
                node = Self::rot_r(left, node);
            }
        }
        node
    }

    fn pop_front_aux(node: Box<TreeNode<T>>) -> (r: (Option<Box<TreeNode<T>>>, T))
        requires
            wf(Some(node)),
            count(Some(node)) <= usize::MAX,
        ensures
            wf(r.0),
            seq_of(Some(node)) == seq![r.1] + seq_of(r.0),
            llrb(Some(node)) ==> {
                &&& llrb(r.0)
                &&& is_red(r.0) ==> node.color == Color::Red || !is_red(node.left)
                &&& node.color == Color::Red || is_red(node.left) ==> black_height(r.0) == black_height(Some(node))
            },
        decreases count(Some(node)),
    {
        let ghost h = node;
        let mut node = node;
        proof {
            lemma_unfold(node);
            lemma_unfold_llrb(node);
        }
        if node.left.is_none() {
            proof {
                if llrb(Some(h)) {
                    lemma_no_black_height(h.right);
                }
            }
            return (node.right, node.val);
        }
        let next_black = match &node.left {
            Some(next) => next.color == Color::Black && Self::node_color(&next.left) == Color::Black,
            None => false,
        };
        proof {
            lemma_unfold_llrb(h.left.unwrap());
            if next_black && llrb(Some(h)) {
                assert(black_height(h.right) >= 1);
                lemma_unfold_llrb(h.right.unwrap());
                if red_below(h.right, true) {
                    lemma_unfold_llrb(h.right.unwrap().left.unwrap());
                }
            }
        }
        if next_black {
            node = Self::move_red_left(node);
            proof {
                if llrb(Some(h)) {
                    lemma_unfold_llrb(node);
                    lemma_unfold_llrb(node.left.unwrap());
                    if !red_below(h.right, true) {
                        lemma_recolored_llrb(h.left, node.left, Color::Red);
                        lemma_recolored_llrb(h.right, node.right, Color::Red);
                    } else {
                        lemma_recolored_llrb(h.left, node.left.unwrap().left, Color::Red);
                        lemma_unfold_llrb(node.right.unwrap());
                    }
                }
            }
        }
        let ghost n0 = node;
        proof {
            lemma_unfold(n0);
        }
        node.num_to_left = node.num_to_left - 1;
        let (new_left, res) = Self::pop_front_aux(node.left.take().unwrap());
        node.left = new_left;
        proof {
            lemma_unfold(node);
            lemma_unfold_llrb(node);
            assert(seq_of(Some(n0)) =~= seq![res] + seq_of(Some(node)));
        }
        (Some(Self::fix_up(node)), res)
    }

    /// Removes and returns the first element, or returns `None` when empty.
    pub fn pop_front(&mut self) -> (r: Option<T>)
        requires
            old(self).wf(),
        ensures
            final(self).wf(),
            old(self)@.len() == 0 ==> r.is_none() && final(self)@ == old(self)@,
            old(self)@.len() > 0 ==> r == Some(old(self)@[0]) && final(self)@ == old(self)@.drop_first(),
    {
        match self.root.take() {
            Some(root) => {
                proof {
                    lemma_unfold(root);
                }
                self.size = self.size - 1;
                let (new_root, res) = Self::pop_front_aux(root);
                self.root = Self::blacken(new_root);
                proof {
                    assert(seq_of(Some(root)).drop_first() =~= seq_of(new_root));
                }
                Some(res)
            },
            None => None,
        }
    }

    /// Colors the root of a subtree black, which changes neither its elements
    /// nor its left counts.
    fn blacken(link: Option<Box<TreeNode<T>>>) -> (r: Option<Box<TreeNode<T>>>)
        ensures
            recolored(link, r, Color::Black),
            seq_of(r) == seq_of(link),
            wf(r) == wf(link),
            !is_red(r),
            llrb_but_root(link) ==> llrb(r),
    {
        match link {
            Some(mut x) => {
                x.color = Color::Black;
                proof {
                    lemma_recolored(link, Some(x), Color::Black);
                    lemma_recolored_llrb(link, Some(x), Color::Black);
                }
                Some(x)
            },
            None => None,
        }
    }

    fn pop_back_aux(node: Box<TreeNode<T>>) -> (r: (Option<Box<TreeNode<T>>>, T))
        requires
            wf(Some(node)),
            count(Some(node)) <= usize::MAX,
        ensures
            wf(r.0),
            seq_of(Some(node)) == seq_of(r.0).push(r.1),
            llrb_lean(Some(node)) ==> {
                &&& llrb(r.0)
                &&& is_red(r.0) ==> node.color == Color::Red || !(is_red(node.left) || is_red(node.right))
                &&& has_red(node) ==> black_height(r.0) == black_height(Some(node))
            },
        decreases count(Some(node)),
    {
        let ghost h = node;
        let mut node = node;
        proof {
            lemma_unfold(node);
            lemma_unfold_llrb(node);
            if node.left.is_some() {
                lemma_unfold_llrb(node.left.unwrap());
            }
            if node.right.is_some() {
                lemma_unfold_llrb(node.right.unwrap());
            }
        }
        if Self::node_color(&node.left) == Color::Red {
            let left = node.left.take().unwrap();
            node = Self::rot_r(left, node);
            proof {
                lemma_unfold_llrb(node);
                lemma_unfold_llrb(node.right.unwrap());
            }
        } else {
            if node.right.is_none() {
                proof {
                    if llrb_lean(Some(h)) {
                        lemma_no_black_height(h.left);
                    }
                }
                return (node.left, node.val);
            }
            let next_black = match &node.right {
                Some(next) => next.color == Color::Black && Self::node_color(&next.left) == Color::Black,
                None => false,
            };
            if next_black {
                proof {
                    if llrb_lean(Some(h)) {
                        assert(black_height(h.left) >= 1);
                        if red_below(h.left, true) {
                            lemma_unfold_llrb(h.left.unwrap().left.unwrap());
                        }
                    }
                }
                node = Self::move_red_right(node);
                proof {
                    if llrb_lean(Some(h)) {
                        lemma_unfold_llrb(node);
                        lemma_unfold_llrb(node.right.unwrap());
                        if !red_below(h.left, true) {
                            lemma_recolored_llrb(h.left, node.left, Color::Red);
                            lemma_recolored_llrb(h.right, node.right, Color::Red);
                        } else {
                            lemma_recolored_llrb(h.left.unwrap().left, node.left, Color::Black);
                            lemma_recolored_llrb(h.right, node.right.unwrap().right, Color::Red);
                        }
                    }
                }
            }
        }
        let ghost n0 = node;
        proof {
            lemma_unfold(n0);
        }
        let (new_right, res) = Self::pop_back_aux(node.right.take().unwrap());
        node.right = new_right;
        proof {
            lemma_unfold(node);
            lemma_unfold_llrb(node);
            assert(seq_of(Some(n0)) =~= seq_of(Some(node)).push(res));
        }
        (Some(Self::fix_up(node)), res)
    }

    /// Removes and returns the last element, or returns `None` when empty.
    pub fn pop_back(&mut self) -> (r: Option<T>)
        requires
            old(self).wf(),
        ensures
            final(self).wf(),
            old(self)@.len() == 0 ==> r.is_none() && final(self)@ == old(self)@,
            old(self)@.len() > 0 ==> r == Some(old(self)@.last()) && final(self)@ == old(self)@.drop_last(),
    {
        match self.root.take() {
            Some(root) => {
                proof {
                    lemma_unfold(root);
                }
                self.size = self.size - 1;
                let (new_root, res) = Self::pop_back_aux(root);
                self.root = Self::blacken(new_root);
                proof {
                    assert(seq_of(Some(root)).drop_last() =~= seq_of(new_root));
                }
                Some(res)
            },
            None => None,
        }
    }

    fn remove_aux(node: Box<TreeNode<T>>, index: usize) -> (r: (Option<Box<TreeNode<T>>>, T))
        requires
            wf(Some(node)),
            index < count(Some(node)),
            count(Some(node)) <= usize::MAX,
        ensures
            wf(r.0),
            r.1 == seq_of(Some(node))[index as int],
            seq_of(r.0) == seq_of(Some(node)).remove(index as int),
            llrb_lean(Some(node)) && (is_red(node.right) ==> index >= node.num_to_left) ==> {
                &&& llrb(r.0)
                &&& is_red(r.0) ==> node.color == Color::Red || !(is_red(node.left) || is_red(node.right))
                &&& has_red(node) ==> black_height(r.0) == black_height(Some(node))
            },
        decreases count(Some(node)), 1nat,
    {
        if index >= node.num_to_left {
            return Self::remove_right(node, index);
        }
        let ghost h = node;
        let mut node = node;
        proof {
            lemma_unfold(node);
            lemma_unfold_llrb(node);
            lemma_unfold_llrb(h.left.unwrap());
        }
        let left_black = match &node.left {
            Some(left) => left.color == Color::Black && Self::node_color(&left.left) == Color::Black,
            None => false,
        };
        proof {
            if left_black && llrb_lean(Some(h)) {
                assert(black_height(h.right) >= 1);
                lemma_unfold_llrb(h.right.unwrap());
                if red_below(h.right, true) {
                    lemma_unfold_llrb(h.right.unwrap().left.unwrap());
                }
            }
        }
        if left_black {
            node = Self::move_red_left(node);
            proof {
                if llrb_lean(Some(h)) {
                    lemma_unfold_llrb(node);
                    lemma_unfold_llrb(node.left.unwrap());
                    if !red_below(h.right, true) {
                        lemma_recolored_llrb(h.left, node.left, Color::Red);
                        lemma_recolored_llrb(h.right, node.right, Color::Red);
                    } else {
                        lemma_recolored_llrb(h.left, node.left.unwrap().left, Color::Red);
                        lemma_unfold_llrb(node.right.unwrap());
                    }
                }
            }
        }
        let ghost n0 = node;
        proof {
            lemma_unfold(n0);
            lemma_unfold(n0.left.unwrap());
            lemma_unfold_llrb(n0.left.unwrap());
        }
        node.num_to_left = node.num_to_left - 1;
        let (new_left, res) = Self::remove_aux(node.left.take().unwrap(), index);
        node.left = new_left;
        proof {
            lemma_unfold(node);
            lemma_unfold_llrb(node);
            lemma_removed_left(n0, node, index as int, res);
        }
        (Some(Self::fix_up(node)), res)
    }

    /// Removes the element at `index`, which lies at the node or to its right.
    #[verifier::rlimit(100)]
    fn remove_right(node: Box<TreeNode<T>>, index: usize) -> (r: (Option<Box<TreeNode<T>>>, T))
        requires
            wf(Some(node)),
            node.num_to_left <= index < count(Some(node)),
            count(Some(node)) <= usize::MAX,
        ensures
            wf(r.0),
            r.1 == seq_of(Some(node))[index as int],
            seq_of(r.0) == seq_of(Some(node)).remove(index as int),
            llrb_lean(Some(node)) ==> {
                &&& llrb(r.0)
                &&& is_red(r.0) ==> node.color == Color::Red || !(is_red(node.left) || is_red(node.right))
                &&& has_red(node) ==> black_height(r.0) == black_height(Some(node))
            },
        decreases count(Some(node)), 0nat,
    {
        let ghost h = node;
        let mut node = node;
        let mut index = index;
        proof {
            lemma_unfold(node);
            lemma_unfold_llrb(node);
            if node.left.is_some() {
                lemma_unfold_llrb(node.left.unwrap());
                lemma_unfold(node.left.unwrap());
            }
            if node.right.is_some() {
                lemma_unfold_llrb(node.right.unwrap());
            }
        }
        if Self::node_color(&node.left) == Color::Red {
            let left = node.left.take().unwrap();
            node = Self::rot_r(left, node);
            proof {
                lemma_unfold_llrb(node);
                lemma_unfold_llrb(node.right.unwrap());
            }
        } else {
            if index == node.num_to_left && node.right.is_none() {
                proof {
                    if llrb_lean(Some(h)) {
                        lemma_no_black_height(h.left);
                    }
                }
                return (node.left, node.val);
            }
            let right_black = match &node.right {
                Some(right) => right.color == Color::Black && Self::node_color(&right.left) == Color::Black,
                None => false,
            };
            if right_black {
                proof {
                    if llrb_lean(Some(h)) {
                        assert(black_height(h.left) >= 1);
                        if red_below(h.left, true) {
                            lemma_unfold_llrb(h.left.unwrap().left.unwrap());
                        }
                    }
                }
                node = Self::move_red_right(node);
                proof {
                    lemma_unfold(node);
                    lemma_unfold(node.right.unwrap());
                    if llrb_lean(Some(h)) {
                        lemma_unfold_llrb(node);
                        lemma_unfold_llrb(node.right.unwrap());
                        if !red_below(h.left, true) {
                            lemma_recolored_llrb(h.left, node.left, Color::Red);
                            lemma_recolored_llrb(h.right, node.right, Color::Red);
                        } else {
                            lemma_recolored_llrb(h.left.unwrap().left, node.left, Color::Black);
                            lemma_recolored_llrb(h.right, node.right.unwrap().right, Color::Red);
                        }
                    }
                }
            }
        }
        let ghost n0 = node;
        proof {
            lemma_unfold(n0);
            lemma_unfold(n0.right.unwrap());
            lemma_unfold_llrb(n0.right.unwrap());
        }
        let res: T;
        if index == node.num_to_left {
            let (new_right, mut val) = Self::pop_front_aux(node.right.take().unwrap());
            node.right = new_right;
            std::mem::swap(&mut node.val, &mut val);
            res = val;
            proof {
                lemma_unfold(node);
                lemma_removed_here(n0, node, res);
            }
        } else {
            index = index - (node.num_to_left + 1);
            let (new_right, val) = Self::remove_aux(node.right.take().unwrap(), index);
            node.right = new_right;
            res = val;
            proof {
                lemma_unfold(node);
                lemma_removed_right(n0, node, index as int, res);
            }
        }
        proof {
            lemma_unfold_llrb(node);
        }
        (Some(Self::fix_up(node)), res)
    }

    /// Removes and returns the element at `index`, which must be below the
    /// length.
    pub fn remove(&mut self, index: usize) -> (r: T)
        requires
            old(self).wf(),
            index < old(self)@.len(),
        ensures
            final(self).wf(),
            r == old(self)@[index as int],
            final(self)@ == old(self)@.remove(index as int),
    {
        self.size = self.size - 1;
        let (new_root, res) = Self::remove_aux(self.root.take().unwrap(), index);
        self.root = Self::blacken(new_root);
        res
    }

    /// Empties the list. Dropping the tree recurses only as deep as the tree
    /// is high, which balance keeps logarithmic.
    pub fn clear(&mut self)
        ensures
            final(self).wf(),
            final(self)@ == Seq::<T>::empty(),
        opens_invariants none
        no_unwind
    {
        self.size = 0;
        self.root = None;
    }

    /// A mutable reference to the element at `index`, or `None` when `index` is
    /// not below the length.
    pub fn get_mut(&mut self, index: usize) -> (r: Option<&mut T>)
        requires
            old(self).wf(),
        ensures
            index >= old(self)@.len() ==> r.is_none() && *final(self) == *old(self),
            index < old(self)@.len() ==> r.is_some(),
            r matches Some(x) ==> *x == old(self)@[index as int],
            r matches Some(x) ==> final(self).wf(),
            r matches Some(x) ==> final(self)@ == old(self)@.update(index as int, *final(x)),
    {
        if index >= self.size {
            return None;
        }
        let ghost whole = self@;
        let ghost size = self.size;
        let mut idx = index;
        let mut node = match &mut self.root {
            Some(n) => n,
            None => { return None; },
        };
        let ghost prefix = Seq::<T>::empty();
        let ghost suffix = Seq::<T>::empty();
        loop
            invariant
                wf(Some(*node)),
                llrb(Some(*node)),
                idx < count(Some(*node)),
                index < whole.len(),
                whole == old(self)@,
                size == whole.len(),
                prefix.len() + idx == index,
                whole == prefix + seq_of(Some(*node)) + suffix,
                ({
                    &&& wf(Some(*final(node)))
                    &&& count(Some(*final(node))) == count(Some(*node))
                    &&& llrb(Some(*final(node))) == llrb(Some(*node))
                    &&& black_height(Some(*final(node))) == black_height(Some(*node))
                    &&& final(node).color == node.color
                }) ==> {
                    &&& wf(after_borrow(self.root))
                    &&& llrb(after_borrow(self.root))
                    &&& !is_red(after_borrow(self.root))
                    &&& after_borrow(self.size) == size
                    &&& seq_of(after_borrow(self.root)) == prefix + seq_of(Some(*final(node))) + suffix
                },
            decreases count(Some(*node)),
        {
            proof {
                lemma_unfold(*node);
                lemma_unfold_llrb(*node);
            }
            if idx < node.num_to_left {
                proof {
                    suffix = seq![node.val] + seq_of(node.right) + suffix;
                }
                node = match &mut node.left {
                    Some(n) => n,
                    None => { return None; },
                };
            } else if idx > node.num_to_left {
                idx = idx - (node.num_to_left + 1);
                proof {
                    prefix = prefix + seq_of(node.left) + seq![node.val];
                }
                node = match &mut node.right {
                    Some(n) => n,
                    None => { return None; },
                };
            } else {
                let ghost cur = *node;
                let ghost fin = *final(node);
                let x = &mut node.val;
                proof {
                    lemma_unfold(fin);
                    lemma_unfold(cur);
                    lemma_unfold_llrb(fin);
                    lemma_unfold_llrb(cur);
                    assert(seq_of(Some(fin)) =~= seq_of(Some(cur)).update(idx as int, *final(x)));
                    assert(count(after_borrow(self.root)) == size);
                    assert(whole.update(index as int, *final(x)) =~= prefix + seq_of(Some(fin)) + suffix);
                }
                return Some(x);
            }
        }
    }

    /// A traversal of the elements from the first to the last.
    pub fn iter(&self) -> (r: Iter<'_, T>)
        ensures
            r@ == self@,
    {
        let mut curr = &self.root;
        let mut stack: Vec<&TreeNode<T>> = Vec::new();
        loop
            invariant
                seq_of(*curr) + pending(stack@) == self@,
            ensures
                pending(stack@) == self@,
            decreases *curr,
        {
            match curr {
                Some(node) => {
                    proof {
                        lemma_unfold(*node);
                    }
                    let ghost before = stack@;
                    stack.push(&**node);
                    proof {
                        assert(stack@.drop_last() == before);
                    }
                    curr = &node.left;
                },
                None => {
                    proof {
                        assert(seq_of(*curr) + pending(stack@) =~= pending(stack@));
                    }
                    break;
                },
            }
        }
        Iter { stack }
    }

    /// The number of elements.
    pub fn len(&self) -> (r: usize)
        requires
            self.wf(),
        ensures
            r == self@.len(),
    {
        self.size
    }

    /// Whether the list holds no element.
    pub fn is_empty(&self) -> (r: bool)
        requires
            self.wf(),
        ensures
            r == (self@.len() == 0),
    {
        self.size == 0
    }
}

impl<T> Default for RecursiveTreeList<T> {
    fn default() -> (r: Self)
        ensures
            r.wf(),
            r@ == Seq::<T>::empty(),
    {
        Self::new()
    }
}

impl<T> Drop for RecursiveTreeList<T> {
    fn drop(&mut self)
        opens_invariants none
        no_unwind
    {
        self.clear();
    }
}

/// The elements that a traversal still has to yield when `stack` holds the
/// nodes whose values and right subtrees are not yet visited, the next on top.
spec fn pending<T>(stack: Seq<&TreeNode<T>>) -> Seq<T>
    decreases stack.len(),
{
    if stack.len() == 0 {
        Seq::empty()
    } else {
        let n = stack.last();
        seq![n.val] + seq_of(n.right) + pending(stack.drop_last())
    }
}

/// An in-order traversal of a `RecursiveTreeList`, which yields each element
/// once, from the first to the last.
pub struct Iter<'a, T> {
    stack: Vec<&'a TreeNode<T>>,
}

impl<'a, T> View for Iter<'a, T> {
    type V = Seq<T>;

    /// The elements not yet yielded, in order.
    closed spec fn view(&self) -> Seq<T> {
        pending(self.stack@)
    }
}

impl<'a, T> Iter<'a, T> {
    /// The next element of the traversal, or `None` once all were yielded.
    pub fn next(&mut self) -> (r: Option<&'a T>)
        ensures
            old(self)@.len() == 0 ==> r.is_none() && final(self)@ == old(self)@,
            old(self)@.len() > 0 ==> r == Some(&old(self)@[0]) && final(self)@ == old(self)@.drop_first(),
    {
        match self.stack.pop() {
            Some(node) => {
                let ghost rest = self.stack@;
                let mut curr = &node.right;
                loop
                    invariant
                        seq_of(*curr) + pending(self.stack@) == seq_of(node.right) + pending(rest),
                    ensures
                        pending(self.stack@) == seq_of(node.right) + pending(rest),
                    decreases *curr,
                {
                    match curr {
                        Some(x) => {
                            proof {
                                lemma_unfold(*x);
                            }
                            let ghost before = self.stack@;
                            self.stack.push(&**x);
                            proof {
                                assert(self.stack@.drop_last() == before);
                            }
                            curr = &x.left;
                        },
                        None => {
                            proof {
                                assert(seq_of(*curr) + pending(self.stack@) =~= pending(self.stack@));
                            }
                            break;
                        },
                    }
                }
                proof {
                    assert(old(self)@.drop_first() =~= seq_of(node.right) + pending(rest));
                }
                Some(&node.val)
            },
            None => None,
        }
    }
}

} // verus!
