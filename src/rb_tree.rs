//! A left-leaning red-black tree.
use vstd::prelude::*;
use crate::range_model::{values_in_range, lemma_range_none, lemma_range_union, lemma_range_single};

verus! {

#[derive(Debug, Clone, Copy, PartialEq, Eq, Structural)]
pub enum Color {
    Red,
    Black,
}

pub type Link<V> = Option<Box<Node<V>>>;

pub struct Node<V> {
    pub key: u64,
    pub value: V,
    pub color: Color,
    pub left: Link<V>,
    pub right: Link<V>,
}

/// The entries held by a subtree.
pub open spec fn link_map<V>(t: Link<V>) -> Map<u64, V>
    decreases t,
{
    match t {
        None => Map::empty(),
        Some(n) => link_map(n.left).union_prefer_right(link_map(n.right)).insert(n.key, n.value),
    }
}

/// Search-tree order: every key on the left is smaller, every key on the right larger.
pub open spec fn ordered<V>(t: Link<V>) -> bool
    decreases t,
{
    match t {
        None => true,
        Some(n) => {
            &&& ordered(n.left)
            &&& ordered(n.right)
            &&& forall|k: u64| #[trigger] link_map(n.left).contains_key(k) ==> k < n.key
            &&& forall|k: u64| #[trigger] link_map(n.right).contains_key(k) ==> n.key < k
        },
    }
}

/// The number of nodes of a subtree.
pub open spec fn link_size<V>(t: Link<V>) -> nat
    decreases t,
{
    match t {
        None => 0,
        Some(n) => 1 + link_size(n.left) + link_size(n.right),
    }
}

/// The keys of a subtree in in-order traversal.
pub open spec fn in_order_keys<V>(t: Link<V>) -> Seq<u64>
    decreases t,
{
    match t {
        None => Seq::empty(),
        Some(n) => in_order_keys(n.left) + seq![n.key] + in_order_keys(n.right),
    }
}

pub open spec fn strictly_increasing(s: Seq<u64>) -> bool {
    forall|i: int, j: int| 0 <= i < j < s.len() ==> s[i] < s[j]
}

impl<V> Node<V> {
    /// A node without children.
    pub fn new(key: u64, value: V, color: Color) -> (n: Self)
        ensures
            n.key == key,
            n.value == value,
            n.color == color,
            n.left.is_none(),
            n.right.is_none(),
    {
        Node { key, value, color, left: None, right: None }
    }
}

pub struct RBTree<V> {
    pub root: Link<V>,
}

impl<V> View for RBTree<V> {
    type V = Map<u64, V>;

    closed spec fn view(&self) -> Map<u64, V> {
        link_map(self.root)
    }
}

proof fn lemma_in_order_sorted<V>(t: Link<V>)
    requires
        ordered(t),
    ensures
        strictly_increasing(in_order_keys(t)),
        forall|i: int| 0 <= i < in_order_keys(t).len() ==> link_map(t).contains_key(#[trigger] in_order_keys(t)[i]),
    decreases t,
{
    if let Some(n) = t {
        lemma_in_order_sorted(n.left);
        lemma_in_order_sorted(n.right);
        let l = in_order_keys(n.left);
        let r = in_order_keys(n.right);
        let s = in_order_keys(t);
        assert(s == l + seq![n.key] + r);
        assert forall|i: int| 0 <= i < s.len() implies link_map(t).contains_key(#[trigger] s[i]) by {
            if i < l.len() {
                assert(s[i] == l[i]);
            } else if i > l.len() {
                assert(s[i] == r[i - l.len() - 1]);
            }
        }
        assert forall|i: int, j: int| 0 <= i < j < s.len() implies s[i] < s[j] by {
            if j < l.len() {
                assert(s[i] == l[i] && s[j] == l[j]);
            } else if j == l.len() {
                assert(s[i] == l[i]);
                assert(link_map(n.left).contains_key(l[i]));
            } else if i < l.len() {
                assert(s[i] == l[i] && s[j] == r[j - l.len() - 1]);
                assert(link_map(n.left).contains_key(l[i]));
                assert(link_map(n.right).contains_key(r[j - l.len() - 1]));
            } else if i == l.len() {
                assert(s[j] == r[j - l.len() - 1]);
                assert(link_map(n.right).contains_key(r[j - l.len() - 1]));
            } else {
                assert(s[i] == r[i - l.len() - 1] && s[j] == r[j - l.len() - 1]);
            }
        }
    }
}

proof fn lemma_node_range<V>(n: Box<Node<V>>, low: int, high: int)
    requires
        ordered(Some(n)),
    ensures
        values_in_range(link_map(Some(n)), low, high) == values_in_range(link_map(n.left), low, high)
            + (if low <= n.key <= high { seq![n.value] } else { Seq::<V>::empty() })
            + values_in_range(link_map(n.right), low, high),
{
    let l = link_map(n.left);
    let r = link_map(n.right);
    let single = map![n.key => n.value];
    let upper = single.union_prefer_right(r);
    assert(link_map(Some(n)) =~= l.union_prefer_right(upper));
    lemma_range_union(l, upper, n.key as int, low, high);
    lemma_range_union(single, r, n.key + 1, low, high);
    lemma_range_single(n.key, n.value, low, high);
}

impl<V> RBTree<V> {
    /// The tree is a search tree whose root is black, and its colours are balanced.
    pub closed spec fn wf(&self) -> bool {
        &&& ordered(self.root)
        &&& match self.root {
            Some(n) => n.color == Color::Black,
            None => true,
        }
        &&& self.colors_ok()
    }

    /// Colour balance: no red node has a red child, no right child is red, and
    /// every path from the root down to an absent child passes the same number of
    /// black nodes.
    pub open spec fn colors_ok(&self) -> bool {
        &&& red_ok(self.root)
        &&& black_balanced(self.root)
    }

    /// An empty tree.
    pub fn new() -> (t: Self)
        ensures
            t.wf(),
            t.colors_ok(),
            t@ == Map::<u64, V>::empty(),
    {
        RBTree { root: None }
    }

    /// Looks `key` up.
    pub fn find(&self, key: &u64) -> (r: Option<&V>)
        requires
            self.wf(),
        ensures
            r == (if self@.contains_key(*key) { Some(&self@[*key]) } else { None::<&V> }),
    {
        let mut curr = &self.root;
        while curr.is_some()
            invariant
                ordered(*curr),
                self@.contains_key(*key) == link_map(*curr).contains_key(*key),
                self@.contains_key(*key) ==> self@[*key] == link_map(*curr)[*key],
            decreases *curr,
        {
            let node = curr.as_ref().unwrap();
            if *key < node.key {
                assert(!link_map(node.right).contains_key(*key));
                curr = &node.left;
            } else if *key > node.key {
                assert(!link_map(node.left).contains_key(*key));
                curr = &node.right;
            } else {
                return Some(&node.value);
            }
        }
        None
    }

    /// The tree holds finitely many keys.
    pub proof fn lemma_view_finite(&self)
        ensures
            self@.dom().finite(),
    {
        lemma_link_finite(self.root);
    }

    /// An in-order traversal of the tree visits its keys in strictly increasing order.
    pub proof fn lemma_in_order(&self)
        requires
            self.wf(),
        ensures
            strictly_increasing(in_order_keys(self.root)),
            in_order_keys(self.root).to_set() == self@.dom(),
    {
        lemma_in_order_sorted(self.root);
        lemma_keys_complete(self.root);
    }
}


pub open spec fn link_is_red<V>(t: Link<V>) -> bool {
    match t {
        Some(n) => n.color == Color::Red,
        None => false,
    }
}

/// Black nodes on the way down the left side of a subtree.
pub open spec fn black_height<V>(t: Link<V>) -> nat
    decreases t,
{
    match t {
        None => 0,
        Some(n) => black_height(n.left) + if n.color == Color::Black {
            1nat
        } else {
            0nat
        },
    }
}

/// Every path from the root of the subtree down to an absent child passes the
/// same number of black nodes.
pub open spec fn black_balanced<V>(t: Link<V>) -> bool
    decreases t,
{
    match t {
        None => true,
        Some(n) => {
            &&& black_balanced(n.left)
            &&& black_balanced(n.right)
            &&& black_height(n.left) == black_height(n.right)
        },
    }
}

/// No red node has a red child, and no right child is red.
pub open spec fn red_ok<V>(t: Link<V>) -> bool
    decreases t,
{
    match t {
        None => true,
        Some(n) => {
            &&& red_ok(n.left)
            &&& red_ok(n.right)
            &&& !link_is_red(n.right)
            &&& (n.color == Color::Red ==> !link_is_red(n.left))
        },
    }
}

/// A red root whose left child may be red too; below that, `red_ok`.
pub open spec fn red_top<V>(t: Link<V>) -> bool {
    match t {
        None => false,
        Some(n) => {
            &&& n.color == Color::Red
            &&& red_ok(n.left)
            &&& red_ok(n.right)
            &&& !link_is_red(n.right)
        },
    }
}


/// The colour fixups after an insertion below `h0`, step by step: `n1` is the node
/// after the insertion into one child, `n2` after the left rotation, `n3` after the
/// right rotation and `n4` after the colour flip.
proof fn lemma_insert_fixup<V>(h0: Box<Node<V>>, n1: Box<Node<V>>, n2: Box<Node<V>>, n3: Box<Node<V>>, n4: Box<Node<V>>)
    requires
        black_balanced(Some(h0)),
        red_ok(Some(h0)),
        n1.color == h0.color,
        (n1.left == h0.left && n1.right == h0.right) || (n1.right == h0.right && black_balanced(n1.left)
            && black_height(n1.left) == black_height(h0.left) && (if link_is_red(h0.left) {
            red_top(n1.left)
        } else {
            red_ok(n1.left)
        })) || (n1.left == h0.left && black_balanced(n1.right) && black_height(n1.right) == black_height(h0.right)
            && red_ok(n1.right)),
        if link_is_red(n1.right) && !link_is_red(n1.left) {
            &&& n2.color == n1.color
            &&& n2.right == n1.right.unwrap().right
            &&& n2.left.is_some()
            &&& n2.left.unwrap().color == Color::Red
            &&& n2.left.unwrap().left == n1.left
            &&& n2.left.unwrap().right == n1.right.unwrap().left
        } else {
            n2 == n1
        },
        if link_is_red(n2.left) && link_is_red(n2.left.unwrap().left) {
            &&& n3.color == n2.color
            &&& n3.left == n2.left.unwrap().left
            &&& n3.right.is_some()
            &&& n3.right.unwrap().color == Color::Red
            &&& n3.right.unwrap().left == n2.left.unwrap().right
            &&& n3.right.unwrap().right == n2.right
        } else {
            n3 == n2
        },
        if link_is_red(n3.left) && link_is_red(n3.right) {
            &&& n4.color == flipped(n3.color)
            &&& n4.left.is_some() && n4.right.is_some()
            &&& n4.left.unwrap().color == flipped(n3.left.unwrap().color)
            &&& n4.left.unwrap().left == n3.left.unwrap().left
            &&& n4.left.unwrap().right == n3.left.unwrap().right
            &&& n4.right.unwrap().color == flipped(n3.right.unwrap().color)
            &&& n4.right.unwrap().left == n3.right.unwrap().left
            &&& n4.right.unwrap().right == n3.right.unwrap().right
        } else {
            n4 == n3
        },
    ensures
        black_balanced(Some(n4)),
        black_height(Some(n4)) == black_height(Some(h0)),
        if h0.color == Color::Red {
            red_top(Some(n4))
        } else {
            red_ok(Some(n4))
        },
{
    reveal_with_fuel(black_balanced, 3);
    reveal_with_fuel(black_height, 3);
    reveal_with_fuel(red_ok, 3);
}

/// The subtree after a left rotation at `h`, whose right child is red.
pub open spec fn rot_l<V>(h: Box<Node<V>>) -> Box<Node<V>> {
    let x = h.right.unwrap();
    Box::new(
        Node {
            key: x.key,
            value: x.value,
            color: h.color,
            left: Some(Box::new(Node { key: h.key, value: h.value, color: Color::Red, left: h.left, right: x.left })),
            right: x.right,
        },
    )
}

/// The subtree after a right rotation at `h`, whose left child is red.
pub open spec fn rot_r<V>(h: Box<Node<V>>) -> Box<Node<V>> {
    let x = h.left.unwrap();
    Box::new(
        Node {
            key: x.key,
            value: x.value,
            color: h.color,
            left: x.left,
            right: Some(Box::new(Node { key: h.key, value: h.value, color: Color::Red, left: x.right, right: h.right })),
        },
    )
}

/// The link with the colour of its node flipped.
pub open spec fn flip_link<V>(t: Link<V>) -> Link<V> {
    match t {
        Some(n) => Some(Box::new(Node { key: n.key, value: n.value, color: flipped(n.color), left: n.left, right: n.right })),
        None => None,
    }
}

/// The subtree with the colours of `h` and of its children flipped.
pub open spec fn flip_node<V>(h: Box<Node<V>>) -> Box<Node<V>> {
    Box::new(Node { key: h.key, value: h.value, color: flipped(h.color), left: flip_link(h.left), right: flip_link(h.right) })
}

/// The three local repairs, in order: lean left, split a left-left red pair, push a
/// red pair of children up.
pub open spec fn fix_spec<V>(h: Box<Node<V>>) -> Box<Node<V>> {
    let a = if link_is_red(h.right) { rot_l(h) } else { h };
    let b = if link_is_red(a.left) && link_is_red(a.left.unwrap().left) { rot_r(a) } else { a };
    if link_is_red(b.left) && link_is_red(b.right) { flip_node(b) } else { b }
}

/// Makes the left child of `h`, or one of its children, red.
pub open spec fn move_left_spec<V>(h: Box<Node<V>>) -> Box<Node<V>> {
    let f = flip_node(h);
    if f.right.is_some() && link_is_red(f.right.unwrap().left) {
        let g = Box::new(Node { key: f.key, value: f.value, color: f.color, left: f.left, right: Some(rot_r(f.right.unwrap())) });
        flip_node(rot_l(g))
    } else {
        f
    }
}

/// Makes the right child of `h`, or one of its children, red.
pub open spec fn move_right_spec<V>(h: Box<Node<V>>) -> Box<Node<V>> {
    let f = flip_node(h);
    if f.left.is_some() && link_is_red(f.left.unwrap().left) {
        flip_node(rot_r(f))
    } else {
        f
    }
}

/// A red node with no red child, or a black node with exactly one red child.
pub open spec fn enterable<V>(h: Box<Node<V>>) -> bool {
    &&& black_balanced(Some(h))
    &&& red_ok(h.left)
    &&& red_ok(h.right)
    &&& if h.color == Color::Red {
        !link_is_red(h.left) && !link_is_red(h.right)
    } else {
        link_is_red(h.left) != link_is_red(h.right)
    }
}

/// `enterable` without a red right child.
pub open spec fn enterable_left<V>(h: Box<Node<V>>) -> bool {
    enterable(h) && !link_is_red(h.right)
}

/// What a deletion below `h` leaves: the same black height, no colour fault, and
/// a root that is red only where `h` was.
pub open spec fn del_post<V>(r: Link<V>, h: Link<V>) -> bool {
    &&& black_balanced(r)
    &&& black_height(r) == black_height(h)
    &&& red_ok(r)
    &&& !link_is_red(h) ==> !link_is_red(r)
}

/// The node entered on the way down the left side, after the left move where it applies.
pub open spec fn left_step<V>(h: Box<Node<V>>) -> Box<Node<V>> {
    if !link_is_red(h.left) && h.left.is_some() && !link_is_red(h.left.unwrap().left) {
        move_left_spec(h)
    } else {
        h
    }
}

/// The node `h` with left child `l`.
pub open spec fn with_left<V>(h: Box<Node<V>>, l: Link<V>) -> Box<Node<V>> {
    Box::new(Node { key: h.key, value: h.value, color: h.color, left: l, right: h.right })
}

proof fn lemma_left_entry<V>(h: Box<Node<V>>)
    requires
        enterable_left(h),
    ensures
        h.left.is_some() ==> left_step(h).left.is_some() && enterable_left(left_step(h).left.unwrap()),
        black_balanced(Some(left_step(h))),
{
    reveal_with_fuel(black_balanced, 4);
    reveal_with_fuel(black_height, 4);
    reveal_with_fuel(red_ok, 4);
}

proof fn lemma_left_exit<V>(h: Box<Node<V>>, d: Link<V>)
    requires
        enterable_left(h),
        del_post(d, left_step(h).left),
    ensures
        del_post(Some(fix_spec(with_left(left_step(h), d))), Some(h)),
{
    reveal_with_fuel(black_balanced, 4);
    reveal_with_fuel(black_height, 4);
    reveal_with_fuel(red_ok, 4);
    let h1 = left_step(h);
    let n = with_left(h1, d);
    if h1 == h {
        assert(del_post(Some(fix_spec(n)), Some(h)));
    } else if h1 == flip_node(h) {
        if red_top(d) {
            assert(del_post(Some(fix_spec(n)), Some(h)));
        } else if link_is_red(d) {
            assert(del_post(Some(fix_spec(n)), Some(h)));
        } else {
            assert(del_post(Some(fix_spec(n)), Some(h)));
        }
    } else {
        if red_top(d) {
            assert(del_post(Some(fix_spec(n)), Some(h)));
        } else if link_is_red(d) {
            assert(del_post(Some(fix_spec(n)), Some(h)));
        } else {
            assert(del_post(Some(fix_spec(n)), Some(h)));
        }
    }
}

/// The node reached on the way down the right side: after a right rotation where
/// the left child is red, then after the right move where it applies.
pub open spec fn right_turn<V>(h: Box<Node<V>>) -> Box<Node<V>> {
    if link_is_red(h.left) {
        rot_r(h)
    } else {
        h
    }
}

pub open spec fn right_step<V>(h: Box<Node<V>>) -> Box<Node<V>> {
    let h1 = right_turn(h);
    if h1.right.is_some() && !link_is_red(h1.right) && !link_is_red(h1.right.unwrap().left) {
        move_right_spec(h1)
    } else {
        h1
    }
}

proof fn lemma_right_entry<V>(h: Box<Node<V>>)
    requires
        enterable(h),
    ensures
        right_step(h).right.is_some() ==> enterable(right_step(h).right.unwrap()),
        right_step(h).right.is_some() && !enterable_left(right_step(h).right.unwrap())
            ==> right_step(h).right.unwrap().key == h.key,
        !link_is_red(h.left) && right_step(h).right.is_some() && (right_step(h) == h || right_step(h) == flip_node(h))
            ==> enterable_left(right_step(h).right.unwrap()),
        right_turn(h).right.is_none() ==> del_post(right_turn(h).left, Some(h)),
        right_turn(h).right.is_some() ==> right_step(h).right.is_some(),
{
    reveal_with_fuel(black_balanced, 4);
    reveal_with_fuel(black_height, 4);
    reveal_with_fuel(red_ok, 4);
}

proof fn lemma_right_exit<V>(h: Box<Node<V>>, d: Link<V>, n: Box<Node<V>>)
    requires
        enterable(h),
        del_post(d, right_step(h).right),
        n.color == right_step(h).color,
        n.left == right_step(h).left,
        n.right == d,
    ensures
        del_post(Some(fix_spec(n)), Some(h)),
{
    reveal_with_fuel(black_balanced, 4);
    reveal_with_fuel(black_height, 4);
    reveal_with_fuel(red_ok, 4);
}

/// A node without a left child that a deletion of its minimum enters.
proof fn lemma_min_leaf<V>(h: Box<Node<V>>)
    requires
        enterable_left(h),
        h.left.is_none(),
    ensures
        del_post(h.right, Some(h)),
{
    reveal_with_fuel(black_balanced, 2);
    reveal_with_fuel(black_height, 2);
    reveal_with_fuel(red_ok, 2);
}

/// A deletion of `key` may enter `node`: a red node with no red child, a black
/// node with a red left child, or, where `key` lies to its right, a black node
/// with a red right child.
pub open spec fn del_entry<V>(node: Link<V>, key: u64) -> bool {
    match node {
        None => true,
        Some(h) => enterable(h) && (enterable_left(h) || key >= h.key),
    }
}

pub open spec fn flipped(c: Color) -> Color {
    match c {
        Color::Red => Color::Black,
        Color::Black => Color::Red,
    }
}

impl<V> RBTree<V> {
    /// Inserts `key` with `value`, replacing the value of a key already present.
    pub fn insert(&mut self, key: u64, value: V)
        requires
            old(self).wf(),
        ensures
            final(self).wf(),
            final(self)@ == old(self)@.insert(key, value),
            final(self).colors_ok(),
            match final(self).root {
                Some(n) => n.color == Color::Black,
                None => true,
            },
    {
        let root = Self::insert_node(self.root.take(), key, value);
        self.root = Self::paint_black(root);
    }

    /// Colours the root of a subtree black.
    fn paint_black(t: Link<V>) -> (r: Link<V>)
        requires
            ordered(t),
        ensures
            ordered(r),
            link_map(r) == link_map(t),
            match r {
                Some(n) => n.color == Color::Black,
                None => true,
            },
            black_balanced(t) ==> black_balanced(r),
            red_ok(t) || red_top(t) ==> red_ok(r),
    {
        match t {
            Some(mut n) => {
                n.color = Color::Black;
                Some(n)
            },
            None => None,
        }
    }

    fn insert_node(node: Link<V>, key: u64, value: V) -> (r: Link<V>)
        requires
            ordered(node),
        ensures
            ordered(r),
            link_map(r) == link_map(node).insert(key, value),
            r.is_some(),
            black_balanced(node) && red_ok(node) ==> {
                &&& black_balanced(r)
                &&& black_height(r) == black_height(node)
                &&& if link_is_red(node) {
                    red_top(r)
                } else {
                    red_ok(r)
                }
            },
        decreases node,
    {
        let ghost before = link_map(node);
        let mut n = match node {
            None => {
                let fresh = Box::new(Node::new(key, value, Color::Red));
                assert(link_map(Some(fresh)) =~= before.insert(key, value));
                return Some(fresh);
            },
            Some(mut n) => {
                let ghost l = link_map(n.left);
                let ghost r = link_map(n.right);
                if key < n.key {
                    n.left = Self::insert_node(n.left.take(), key, value);
                    assert(link_map(Some(n)) =~= before.insert(key, value));
                } else if key > n.key {
                    n.right = Self::insert_node(n.right.take(), key, value);
                    assert(link_map(Some(n)) =~= before.insert(key, value));
                } else {
                    n.value = value;
                    assert(link_map(Some(n)) =~= before.insert(key, value));
                }
                n
            },
        };
        let ghost n1 = n;
        if Self::is_red(&n.right) && !Self::is_red(&n.left) {
            n = Self::rotate_left(n);
        }
        let ghost n2 = n;
        if Self::is_red(&n.left) && Self::is_red(&n.left.as_ref().unwrap().left) {
            n = Self::rotate_right(n);
        }
        let ghost n3 = n;
        if Self::is_red(&n.left) && Self::is_red(&n.right) {
            Self::flip_colors(&mut n);
        }
        proof {
            if black_balanced(node) && red_ok(node) {
                lemma_insert_fixup(node.unwrap(), n1, n2, n3, n);
            }
        }
        Some(n)
    }

    /// Removes `key`; an absent key leaves the tree as it was.
    pub fn delete(&mut self, key: &u64)
        requires
            old(self).wf(),
        ensures
            final(self).wf(),
            final(self)@ == old(self)@.remove(*key),
            !old(self)@.contains_key(*key) ==> final(self)@ == old(self)@,
            final(self).colors_ok(),
            match final(self).root {
                Some(n) => n.color == Color::Black,
                None => true,
            },
    {
        if self.root.is_none() {
            assert(self@ =~= self@.remove(*key));
            return;
        }
        let mut root = self.root.take().unwrap();
        if !Self::is_red(&root.left) && !Self::is_red(&root.right) {
            root.color = Color::Red;
        }
        proof {
            assert(black_balanced(Some(root)));
            assert(del_entry(Some(root), *key));
        }
        let rest = Self::delete_node(Some(root), key);
        self.root = Self::paint_black(rest);
        proof {
            if !old(self)@.contains_key(*key) {
                assert(old(self)@.remove(*key) =~= old(self)@);
            }
        }
    }

    fn delete_node(node: Link<V>, key: &u64) -> (r: Link<V>)
        requires
            ordered(node),
        ensures
            ordered(r),
            link_map(r) == link_map(node).remove(*key),
            del_entry(node, *key) ==> del_post(r, node),
        decreases link_size(node),
    {
        let ghost before = link_map(node);
        let mut h = match node {
            None => {
                assert(before.remove(*key) =~= before);
                return None;
            },
            Some(h) => h,
        };
        let ghost h0 = h;
        let ghost colored = del_entry(node, *key);
        if *key < h.key {
            if !Self::is_red(&h.left) {
                let descend_red = match &h.left {
                    Some(left_child) => !Self::is_red(&left_child.left),
                    None => false,
                };
                if descend_red {
                    h = Self::move_red_left(h);
                }
            }
            let ghost hb = h;
            proof {
                if colored {
                    assert(hb == left_step(h0));
                    lemma_left_entry(h0);
                }
            }
            assert(!link_map(h.right).contains_key(*key));
            h.left = Self::delete_node(h.left.take(), key);
            assert(link_map(Some(h)) =~= link_map(Some(hb)).remove(*key));
            proof {
                if colored {
                    assert(h == with_left(hb, h.left));
                    lemma_left_exit(h0, h.left);
                }
            }
        } else {
            if Self::is_red(&h.left) {
                h = Self::rotate_right(h);
            }
            let ghost h1 = h;
            proof {
                if colored {
                    assert(h1 == right_turn(h0));
                    lemma_right_entry(h0);
                }
            }
            if *key == h.key && h.right.is_none() {
                let ghost hb = h;
                assert(link_map(hb.right) == Map::<u64, V>::empty());
                assert(!link_map(hb.left).contains_key(hb.key));
                assert(link_map(h.left).remove(*key) =~= link_map(h.left));
                assert(link_map(Some(hb)).remove(*key) =~= link_map(h.left));
                return h.left;
            }
            let descend_red = match &h.right {
                Some(right_child) => !Self::is_red(&right_child.left),
                None => false,
            };
            if descend_red && !Self::is_red(&h.right) {
                h = Self::move_red_right(h);
            }
            let ghost h2 = h;
            proof {
                if colored {
                    assert(h2 == right_step(h0));
                }
            }
            if *key == h.key {
                let ghost hr = h;
                proof {
                    assert(hr.right.is_some());
                }
                match h.right.take() {
                    Some(right) => {
                        let ghost hb = h;
                        let ghost rm = link_map(Some(right));
                        assert(before == link_map(hb.left).union_prefer_right(rm).insert(hr.key, hr.value));
                        assert(!rm.contains_key(hr.key));
                        assert(!link_map(hb.left).contains_key(hr.key));
                        proof {
                            if colored {
                                assert(!link_is_red(h0.left));
                                assert(h1 == h0);
                                assert(h2 == h0 || h2 == flip_node(h0));
                                assert(enterable_left(right));
                            }
                        }
                        let (rest, min_key, min_value) = Self::delete_min(right);
                        h.key = min_key;
                        h.value = min_value;
                        h.right = rest;
                        assert forall|k: u64| #[trigger] link_map(h.left).contains_key(k) implies k < min_key by {
                            assert(rm.contains_key(min_key));
                        }
                        assert(!link_map(hb.left).contains_key(min_key));
                        assert(link_map(Some(h)) == link_map(hb.left).union_prefer_right(rm.remove(min_key)).insert(min_key, min_value));
                        assert(link_map(Some(h)) =~= before.remove(*key));
                        proof {
                            if colored {
                                lemma_right_exit(h0, rest, h);
                            }
                        }
                    },
                    None => {
                        let ghost hb = h;
                        assert(link_map(hb.right) == Map::<u64, V>::empty());
                        assert(!link_map(hb.left).contains_key(hb.key));
                        assert(link_map(h.left).remove(*key) =~= link_map(h.left));
                        assert(before.remove(*key) =~= link_map(h.left));
                        return h.left;
                    },
                }
            } else {
                let ghost hb = h;
                assert(!link_map(h.left).contains_key(*key));
                h.right = Self::delete_node(h.right.take(), key);
                assert(link_map(Some(h)) =~= link_map(Some(hb)).remove(*key));
                proof {
                    if colored {
                        lemma_right_exit(h0, h.right, h);
                    }
                }
            }
        }
        Some(Self::fix_up(h))
    }

    /// Removes the smallest entry of a subtree and hands it back.
    fn delete_min(h: Box<Node<V>>) -> (r: (Link<V>, u64, V))
        requires
            ordered(Some(h)),
        ensures
            ordered(r.0),
            link_map(Some(h)).contains_key(r.1),
            link_map(Some(h))[r.1] == r.2,
            link_map(r.0) == link_map(Some(h)).remove(r.1),
            forall|k: u64| #[trigger] link_map(Some(h)).contains_key(k) ==> r.1 <= k,
            enterable_left(h) ==> del_post(r.0, Some(h)),
        decreases link_size(Some(h)),
    {
        let ghost before = link_map(Some(h));
        let ghost h0 = h;
        let mut h = h;
        if h.left.is_none() {
            proof {
                if enterable_left(h0) {
                    lemma_min_leaf(h0);
                }
            }
            assert(link_map(h.left) == Map::<u64, V>::empty());
            assert(!link_map(h.right).contains_key(h.key));
            assert(link_map(h.right) =~= before.remove(h.key));
            return (h.right, h.key, h.value);
        }
        if !Self::is_red(&h.left) {
            let descend_red = match &h.left {
                Some(left_child) => !Self::is_red(&left_child.left),
                None => false,
            };
            if descend_red {
                h = Self::move_red_left(h);
            }
        }
        let ghost hb = h;
        proof {
            if enterable_left(h0) {
                lemma_left_entry(h0);
            }
        }
        let left = h.left.take().unwrap();
        let ghost lm = link_map(Some(left));
        assert(before == lm.union_prefer_right(link_map(hb.right)).insert(hb.key, hb.value));
        assert(link_size(Some(hb)) == 1 + link_size(Some(left)) + link_size(hb.right));
        let (rest, min_key, min_value) = Self::delete_min(left);
        h.left = rest;
        assert(min_key < hb.key);
        assert(!link_map(hb.right).contains_key(min_key));
        assert(link_map(Some(h)) == link_map(rest).union_prefer_right(link_map(hb.right)).insert(hb.key, hb.value));
        assert(link_map(Some(h)) =~= before.remove(min_key));
        assert forall|k: u64| #[trigger] before.contains_key(k) implies min_key <= k by {
            if link_map(hb.right).contains_key(k) {
                assert(lm.contains_key(min_key));
            }
        }
        proof {
            if enterable_left(h0) {
                assert(hb == left_step(h0));
                assert(h == with_left(hb, rest));
                lemma_left_exit(h0, rest);
            }
        }
        (Some(Self::fix_up(h)), min_key, min_value)
    }

    fn move_red_left(h: Box<Node<V>>) -> (r: Box<Node<V>>)
        requires
            ordered(Some(h)),
        ensures
            ordered(Some(r)),
            link_map(Some(r)) == link_map(Some(h)),
            r.key >= h.key,
            h.left.is_some() ==> r.left.is_some(),
            link_size(Some(r)) == link_size(Some(h)),
            r == move_left_spec(h),
    {
        let mut h = h;
        Self::flip_colors(&mut h);
        let lean = match &h.right {
            Some(r) => Self::is_red(&r.left),
            None => false,
        };
        if lean {
            let ghost hb = h;
            let right_box = h.right.take().unwrap();
            let ghost rb = right_box;
            let turned = Self::rotate_right(right_box);
            h.right = Some(turned);
            assert(hb.right == Some(rb));
            assert(link_map(Some(turned)) == link_map(Some(rb)));
            assert(ordered(Some(h)));
            assert(link_map(Some(h)) == link_map(Some(hb)));
            assert(link_size(Some(h)) == link_size(Some(hb)));
            h = Self::rotate_left(h);
            Self::flip_colors(&mut h);
        }
        h
    }

    fn move_red_right(h: Box<Node<V>>) -> (r: Box<Node<V>>)
        requires
            ordered(Some(h)),
        ensures
            ordered(Some(r)),
            link_map(Some(r)) == link_map(Some(h)),
            r.key <= h.key,
            link_size(Some(r)) == link_size(Some(h)),
            r == move_right_spec(h),
            r.key == h.key ==> r == flip_node(h),
    {
        let mut h = h;
        Self::flip_colors(&mut h);
        let lean = match &h.left {
            Some(l) => Self::is_red(&l.left),
            None => false,
        };
        if lean {
            h = Self::rotate_right(h);
            Self::flip_colors(&mut h);
        }
        h
    }

    fn fix_up(h: Box<Node<V>>) -> (r: Box<Node<V>>)
        requires
            ordered(Some(h)),
        ensures
            ordered(Some(r)),
            link_map(Some(r)) == link_map(Some(h)),
            link_size(Some(r)) == link_size(Some(h)),
            r == fix_spec(h),
    {
        let mut h = h;
        if Self::is_red(&h.right) {
            h = Self::rotate_left(h);
        }
        if Self::is_red(&h.left) && Self::is_red(&h.left.as_ref().unwrap().left) {
            h = Self::rotate_right(h);
        }
        if Self::is_red(&h.left) && Self::is_red(&h.right) {
            Self::flip_colors(&mut h);
        }
        h
    }

    /// The values of the keys in `[start, end]`, in ascending key order.
    pub fn range_query(&self, start: &u64, end: &u64) -> (r: Vec<&V>)
        requires
            self.wf(),
        ensures
            r@.map_values(|v: &V| *v) == values_in_range(self@, *start as int, *end as int),
    {
        let mut result: Vec<&V> = Vec::new();
        self.range_query_node(&self.root, start, end, &mut result);
        assert(result@.map_values(|v: &V| *v) =~= Seq::<V>::empty() + values_in_range(self@, *start as int, *end as int));
        result
    }

    fn range_query_node<'a>(&self, node: &'a Link<V>, start: &u64, end: &u64, result: &mut Vec<&'a V>)
        requires
            ordered(*node),
        ensures
            final(result)@.map_values(|v: &V| *v) == old(result)@.map_values(|v: &V| *v) + values_in_range(
                link_map(*node),
                *start as int,
                *end as int,
            ),
        decreases *node,
    {
        let ghost lo = *start as int;
        let ghost hi = *end as int;
        match node {
            Some(n) => {
                proof {
                    lemma_node_range(*n, lo, hi);
                }
                let ghost r0 = result@.map_values(|v: &V| *v);
                if *start < n.key {
                    self.range_query_node(&n.left, start, end, result);
                } else {
                    proof {
                        lemma_range_none(link_map(n.left), lo, hi);
                    }
                }
                let ghost r1 = result@.map_values(|v: &V| *v);
                if *start <= n.key && *end >= n.key {
                    result.push(&n.value);
                    assert(result@.map_values(|v: &V| *v) =~= r1 + seq![n.value]);
                }
                let ghost r2 = result@.map_values(|v: &V| *v);
                if *end > n.key {
                    self.range_query_node(&n.right, start, end, result);
                } else {
                    proof {
                        lemma_range_none(link_map(n.right), lo, hi);
                    }
                }
                assert(result@.map_values(|v: &V| *v) =~= r0 + values_in_range(link_map(*node), lo, hi));
            },
            None => {
                proof {
                    lemma_range_none(link_map(*node), lo, hi);
                }
                assert(result@.map_values(|v: &V| *v) =~= result@.map_values(|v: &V| *v) + values_in_range(link_map(*node), lo, hi));
            },
        }
    }

    fn is_red(node: &Link<V>) -> (r: bool)
        ensures
            r == link_is_red(*node),
    {
        match node {
            Some(n) => n.color == Color::Red,
            None => false,
        }
    }

    fn rotate_left(h: Box<Node<V>>) -> (x: Box<Node<V>>)
        requires
            h.right.is_some(),
            ordered(Some(h)),
        ensures
            ordered(Some(x)),
            link_map(Some(x)) == link_map(Some(h)),
            x.key == h.right.unwrap().key,
            x.key > h.key,
            x.left.is_some(),
            link_size(Some(x)) == link_size(Some(h)),
            x.color == h.color,
            x.right == h.right.unwrap().right,
            x.left.unwrap().color == Color::Red,
            x.left.unwrap().left == h.left,
            x.left.unwrap().right == h.right.unwrap().left,
            x == rot_l(h),
    {
        let ghost old_h = h;
        let mut h = h;
        let mut x = h.right.take().unwrap();
        let ghost old_x = x;
        assert(ordered(Some(old_x)));
        assert(link_map(old_h.right) == link_map(old_x.left).union_prefer_right(link_map(old_x.right)).insert(old_x.key, old_x.value));
        assert(link_size(old_h.right) == 1 + link_size(old_x.left) + link_size(old_x.right));
        h.right = x.left.take();
        x.color = h.color;
        h.color = Color::Red;
        let ghost hm = link_map(Some(h));
        assert(hm =~= link_map(old_h.left).union_prefer_right(link_map(old_x.left)).insert(old_h.key, old_h.value));
        assert forall|k: u64| #[trigger] hm.contains_key(k) implies k < old_x.key by {
            if link_map(old_h.left).contains_key(k) {
                assert(link_map(old_h.right).contains_key(old_x.key));
            } else if k != old_h.key {
                assert(link_map(old_x.left).contains_key(k));
            } else {
                assert(link_map(old_h.right).contains_key(old_x.key));
            }
        }
        assert forall|k: u64| #[trigger] link_map(h.right).contains_key(k) implies h.key < k by {
            assert(link_map(old_h.right).contains_key(k));
        }
        assert forall|k: u64| #[trigger] link_map(old_x.right).contains_key(k) implies old_h.key < k by {
            assert(link_map(old_h.right).contains_key(k));
        }
        assert(ordered(Some(h)));
        assert(link_size(Some(h)) == 1 + link_size(old_h.left) + link_size(old_x.left));
        x.left = Some(h);
        assert(link_map(Some(x)) == hm.union_prefer_right(link_map(old_x.right)).insert(old_x.key, old_x.value));
        assert(link_map(old_h.right).contains_key(old_x.key));
        assert(!link_map(old_h.left).contains_key(old_x.key));
        assert forall|k: u64| #[trigger] link_map(old_h.left).contains_key(k) implies !link_map(old_x.right).contains_key(k) by {
            if link_map(old_x.right).contains_key(k) {
                assert(link_map(old_h.right).contains_key(k));
            }
        }
        assert(link_map(Some(x)) =~= link_map(Some(old_h)));
        x
    }

    fn rotate_right(h: Box<Node<V>>) -> (x: Box<Node<V>>)
        requires
            h.left.is_some(),
            ordered(Some(h)),
        ensures
            ordered(Some(x)),
            link_map(Some(x)) == link_map(Some(h)),
            x.key == h.left.unwrap().key,
            x.key < h.key,
            x.right.is_some(),
            link_size(Some(x)) == link_size(Some(h)),
            x.color == h.color,
            x.left == h.left.unwrap().left,
            x.right.unwrap().color == Color::Red,
            x.right.unwrap().left == h.left.unwrap().right,
            x.right.unwrap().right == h.right,
            x == rot_r(h),
    {
        let ghost old_h = h;
        let mut h = h;
        let mut x = h.left.take().unwrap();
        let ghost old_x = x;
        assert(ordered(Some(old_x)));
        assert(link_map(old_h.left) == link_map(old_x.left).union_prefer_right(link_map(old_x.right)).insert(old_x.key, old_x.value));
        assert(link_size(old_h.left) == 1 + link_size(old_x.left) + link_size(old_x.right));
        h.left = x.right.take();
        x.color = h.color;
        h.color = Color::Red;
        let ghost hm = link_map(Some(h));
        assert(hm =~= link_map(old_x.right).union_prefer_right(link_map(old_h.right)).insert(old_h.key, old_h.value));
        assert forall|k: u64| #[trigger] hm.contains_key(k) implies old_x.key < k by {
            if link_map(old_h.right).contains_key(k) {
                assert(link_map(old_h.left).contains_key(old_x.key));
            } else if k != old_h.key {
                assert(link_map(old_x.right).contains_key(k));
            } else {
                assert(link_map(old_h.left).contains_key(old_x.key));
            }
        }
        assert forall|k: u64| #[trigger] link_map(h.left).contains_key(k) implies k < h.key by {
            assert(link_map(old_h.left).contains_key(k));
        }
        assert forall|k: u64| #[trigger] link_map(old_x.left).contains_key(k) implies k < old_h.key by {
            assert(link_map(old_h.left).contains_key(k));
        }
        assert(ordered(Some(h)));
        assert(link_size(Some(h)) == 1 + link_size(old_x.right) + link_size(old_h.right));
        x.right = Some(h);
        assert(link_map(Some(x)) == link_map(old_x.left).union_prefer_right(hm).insert(old_x.key, old_x.value));
        assert(link_map(old_h.left).contains_key(old_x.key));
        assert(!link_map(old_h.right).contains_key(old_x.key));
        assert forall|k: u64| #[trigger] link_map(old_h.right).contains_key(k) implies !link_map(old_x.left).contains_key(k) by {
            if link_map(old_x.left).contains_key(k) {
                assert(link_map(old_h.left).contains_key(k));
            }
        }
        assert(link_map(Some(x)) =~= link_map(Some(old_h)));
        x
    }

    fn flip_colors(h: &mut Box<Node<V>>)
        requires
            ordered(Some(*old(h))),
        ensures
            ordered(Some(*final(h))),
            link_map(Some(*final(h))) == link_map(Some(*old(h))),
            final(h).key == old(h).key,
            final(h).left.is_some() == old(h).left.is_some(),
            final(h).right.is_some() == old(h).right.is_some(),
            link_size(Some(*final(h))) == link_size(Some(*old(h))),
            final(h).color == flipped(old(h).color),
            old(h).left.is_some() ==> final(h).left.unwrap().color == flipped(old(h).left.unwrap().color)
                && final(h).left.unwrap().left == old(h).left.unwrap().left
                && final(h).left.unwrap().right == old(h).left.unwrap().right,
            old(h).right.is_some() ==> final(h).right.unwrap().color == flipped(old(h).right.unwrap().color)
                && final(h).right.unwrap().left == old(h).right.unwrap().left
                && final(h).right.unwrap().right == old(h).right.unwrap().right,
            *final(h) == flip_node(*old(h)),
    {
        h.color = flip_color(h.color);
        match h.left.take() {
            Some(mut l) => {
                let ghost before = l;
                l.color = flip_color(l.color);
                assert(link_map(Some(l)) == link_map(Some(before)));
                assert(ordered(Some(l)) == ordered(Some(before)));
                assert(link_size(Some(l)) == link_size(Some(before)));
                h.left = Some(l);
            },
            None => {},
        }
        match h.right.take() {
            Some(mut r) => {
                let ghost before = r;
                r.color = flip_color(r.color);
                assert(link_map(Some(r)) == link_map(Some(before)));
                assert(ordered(Some(r)) == ordered(Some(before)));
                assert(link_size(Some(r)) == link_size(Some(before)));
                h.right = Some(r);
            },
            None => {},
        }
    }
}

fn flip_color(c: Color) -> (r: Color)
    ensures
        r == flipped(c),
{
    match c {
        Color::Red => Color::Black,
        Color::Black => Color::Red,
    }
}

proof fn lemma_link_finite<V>(t: Link<V>)
    ensures
        link_map(t).dom().finite(),
    decreases t,
{
    if let Some(n) = t {
        lemma_link_finite(n.left);
        lemma_link_finite(n.right);
        assert(link_map(t).dom() =~= link_map(n.left).dom().union(link_map(n.right).dom()).insert(n.key));
    }
}

proof fn lemma_keys_complete<V>(t: Link<V>)
    ensures
        in_order_keys(t).to_set() == link_map(t).dom(),
    decreases t,
{
    if let Some(n) = t {
        lemma_keys_complete(n.left);
        lemma_keys_complete(n.right);
        let l = in_order_keys(n.left);
        let r = in_order_keys(n.right);
        let s = in_order_keys(t);
        assert forall|k: u64| s.to_set().contains(k) <==> link_map(t).dom().contains(k) by {
            if s.to_set().contains(k) {
                let i = choose|i: int| 0 <= i < s.len() && s[i] == k;
                if i < l.len() {
                    assert(l.to_set().contains(l[i]));
                } else if i > l.len() {
                    assert(r.to_set().contains(r[i - l.len() - 1]));
                }
            }
            if link_map(t).dom().contains(k) {
                if k == n.key {
                    assert(s[l.len() as int] == k);
                } else if link_map(n.right).contains_key(k) {
                    let j = choose|j: int| 0 <= j < r.len() && r[j] == k;
                    assert(s[l.len() + 1 + j] == k);
                } else {
                    let j = choose|j: int| 0 <= j < l.len() && l[j] == k;
                    assert(s[j] == k);
                }
            }
        }
        assert(s.to_set() =~= link_map(t).dom());
    }
}

} // verus!
