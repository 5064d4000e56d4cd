use crate::order::{lemma_order_facts, TotalOrder};
use std::cmp::Ordering;
use vstd::arithmetic::power2::{
    lemma_pow2_adds, lemma_pow2_strictly_increases, lemma_pow2_unfold, pow2,
};
use vstd::arithmetic::power::lemma_pow0;
use vstd::prelude::*;
use vstd::set_lib::{lemma_set_disjoint_lens, lemma_set_union_finite_iff};

verus! {

/// Colour of the link from a node's parent to the node.
#[derive(Clone, Copy, PartialEq, Eq, Structural, PartialOrd, Ord, Debug)]
pub enum Color {
    Red,
    Black,
}

/// A link to a subtree: absent, or the sole owner of its root node.
pub type NodeCell<K, V> = Option<Box<Node<K, V>>>;

pub struct Node<K, V> {
    pub key: K,
    pub val: V,
    pub left: NodeCell<K, V>,
    pub right: NodeCell<K, V>,
    pub color: Color,
}

// ---------------------------------------------------------------------------
// The model of a subtree: its keys in order, and the map it represents.

/// The keys of a subtree, read in order (left, self, right).
pub open spec fn keys_of<K, V>(x: NodeCell<K, V>) -> Seq<K>
    decreases x,
{
    match x {
        None => Seq::empty(),
        Some(n) => keys_of(n.left) + seq![n.key] + keys_of(n.right),
    }
}

/// The key-to-value map that a subtree stands for.
pub open spec fn map_of<K, V>(x: NodeCell<K, V>) -> Map<K, V>
    decreases x,
{
    match x {
        None => Map::empty(),
        Some(n) => map_of(n.left).union_prefer_right(map_of(n.right)).insert(n.key, n.val),
    }
}

/// Each key of the sequence comes strictly before every later one.
pub open spec fn sorted<K: TotalOrder>(s: Seq<K>) -> bool {
    forall|i: int, j: int| 0 <= i < j < s.len() ==> (#[trigger] s[i]).less(#[trigger] s[j])
}

/// Number of nodes on the longest path from the link down.
pub open spec fn height<K, V>(x: NodeCell<K, V>) -> nat
    decreases x,
{
    match x {
        None => 0,
        Some(n) => {
            let l = height(n.left);
            let r = height(n.right);
            1 + if l >= r { l } else { r }
        },
    }
}

// ---------------------------------------------------------------------------
// The red-black shape.

pub open spec fn red_link<K, V>(x: NodeCell<K, V>) -> bool {
    x matches Some(n) && n.color == Color::Red
}

/// Number of black nodes on the leftmost path of the subtree.
pub open spec fn black_height<K, V>(x: NodeCell<K, V>) -> nat
    decreases x,
{
    match x {
        None => 0,
        Some(n) => black_height(n.left) + if n.color == Color::Black { 1nat } else { 0nat },
    }
}

/// A subtree that is a left-leaning red-black tree: no right-leaning red
/// link, no red node with a red child, and the same number of black nodes
/// on every path down.
pub open spec fn llrb<K, V>(x: NodeCell<K, V>) -> bool
    decreases x,
{
    match x {
        None => true,
        Some(n) => {
            &&& llrb(n.left)
            &&& llrb(n.right)
            &&& black_height(n.left) == black_height(n.right)
            &&& !red_link(n.right)
            &&& (n.color == Color::Red ==> !red_link(n.left))
        },
    }
}

/// The same subtree with its root recoloured.
pub open spec fn recolor<K, V>(x: NodeCell<K, V>, c: Color) -> NodeCell<K, V> {
    match x {
        None => None,
        Some(n) => Some(
            Box::new(Node { key: n.key, val: n.val, left: n.left, right: n.right, color: c }),
        ),
    }
}

// ---------------------------------------------------------------------------
// Facts about sorted sequences and the model.

proof fn lemma_sorted_split<K: TotalOrder>(a: Seq<K>, k: K, b: Seq<K>)
    requires
        sorted(a + seq![k] + b),
    ensures
        sorted(a),
        sorted(b),
        forall|i: int| 0 <= i < a.len() ==> (#[trigger] a[i]).less(k),
        forall|j: int| 0 <= j < b.len() ==> k.less(#[trigger] b[j]),
        forall|x: K| a.contains(x) ==> x.less(k),
        forall|x: K| b.contains(x) ==> k.less(x),
{
    let s = a + seq![k] + b;
    assert forall|i: int, j: int| 0 <= i < j < a.len() implies (#[trigger] a[i]).less(
        #[trigger] a[j],
    ) by {
        assert(s[i] == a[i] && s[j] == a[j]);
    }
    assert forall|i: int, j: int| 0 <= i < j < b.len() implies (#[trigger] b[i]).less(
        #[trigger] b[j],
    ) by {
        assert(s[a.len() + 1 + i] == b[i] && s[a.len() + 1 + j] == b[j]);
    }
    assert forall|i: int| 0 <= i < a.len() implies (#[trigger] a[i]).less(k) by {
        assert(s[i] == a[i] && s[a.len() as int] == k);
    }
    assert forall|j: int| 0 <= j < b.len() implies k.less(#[trigger] b[j]) by {
        assert(s[a.len() + 1 + j] == b[j] && s[a.len() as int] == k);
    }
}

proof fn lemma_sorted_join<K: TotalOrder>(a: Seq<K>, k: K, b: Seq<K>)
    requires
        sorted(a),
        sorted(b),
        forall|x: K| a.contains(x) ==> x.less(k),
        forall|x: K| b.contains(x) ==> k.less(x),
    ensures
        sorted(a + seq![k] + b),
{
    let s = a + seq![k] + b;
    let la = a.len() as int;
    assert forall|i: int, j: int| 0 <= i < j < s.len() implies (#[trigger] s[i]).less(
        #[trigger] s[j],
    ) by {
        if j < la {
            assert(s[i] == a[i] && s[j] == a[j]);
        } else if j == la {
            assert(s[i] == a[i] && a.contains(a[i]));
        } else if i > la {
            assert(s[i] == b[i - la - 1] && s[j] == b[j - la - 1]);
        } else if i == la {
            assert(s[j] == b[j - la - 1] && b.contains(b[j - la - 1]));
        } else {
            assert(s[i] == a[i] && a.contains(a[i]));
            assert(s[j] == b[j - la - 1] && b.contains(b[j - la - 1]));
            K::lemma_transitive(s[i], k, s[j]);
        }
    }
}

/// The keys of a subtree are exactly the keys its map is defined on.
proof fn lemma_dom<K, V>(x: NodeCell<K, V>)
    ensures
        forall|k: K| #[trigger] map_of(x).dom().contains(k) <==> keys_of(x).contains(k),
    decreases x,
{
    if let Some(n) = x {
        lemma_dom(n.left);
        lemma_dom(n.right);
        let s = keys_of(x);
        let l = keys_of(n.left);
        let r = keys_of(n.right);
        assert forall|k: K| #[trigger] map_of(x).dom().contains(k) <==> s.contains(k) by {
            if l.contains(k) {
                let i = choose|i: int| 0 <= i < l.len() && l[i] == k;
                assert(s[i] == k);
            }
            if r.contains(k) {
                let i = choose|i: int| 0 <= i < r.len() && r[i] == k;
                assert(s[l.len() + 1 + i] == k);
            }
            assert(s[l.len() as int] == n.key);
            assert(map_of(x).dom().contains(k) <==> (map_of(n.left).dom().contains(k)
                || map_of(n.right).dom().contains(k) || k == n.key));
            if s.contains(k) {
                let i = choose|i: int| 0 <= i < s.len() && s[i] == k;
                if i < l.len() {
                    assert(l[i] == k);
                } else if i > l.len() {
                    assert(r[i - l.len() - 1] == k);
                }
            }
        }
    }
}


/// What sortedness of a node's keys says about its two subtrees.
proof fn lemma_sorted_node<K: TotalOrder, V>(x: NodeCell<K, V>)
    requires
        x is Some,
        sorted(keys_of(x)),
    ensures
        sorted(keys_of(x.unwrap().left)),
        sorted(keys_of(x.unwrap().right)),
        forall|k: K| #[trigger]
            map_of(x.unwrap().left).dom().contains(k) ==> k.less(x.unwrap().key) && k
                != x.unwrap().key && !map_of(x.unwrap().right).dom().contains(k),
        forall|k: K| #[trigger]
            map_of(x.unwrap().right).dom().contains(k) ==> x.unwrap().key.less(k) && k
                != x.unwrap().key,
        forall|k: K| #[trigger]
            keys_of(x.unwrap().left).contains(k) ==> k.less(x.unwrap().key),
        forall|k: K| #[trigger]
            keys_of(x.unwrap().right).contains(k) ==> x.unwrap().key.less(k),
{
    let n = x.unwrap();
    lemma_sorted_split(keys_of(n.left), n.key, keys_of(n.right));
    lemma_dom(n.left);
    lemma_dom(n.right);
    assert forall|k: K| #[trigger] map_of(n.left).dom().contains(k) implies k.less(n.key) && k
        != n.key && !map_of(n.right).dom().contains(k) by {
        lemma_order_facts(k, n.key);
        if map_of(n.right).dom().contains(k) {
            lemma_order_facts(n.key, k);
        }
    }
    assert forall|k: K| #[trigger] map_of(n.right).dom().contains(k) implies n.key.less(k) && k
        != n.key by {
        lemma_order_facts(k, n.key);
    }
}

proof fn lemma_recolor<K, V>(x: NodeCell<K, V>)
    ensures
        forall|c: Color|
            keys_of(#[trigger] recolor(x, c)) == keys_of(x) && map_of(recolor(x, c)) == map_of(x),
{
}

/// A subtree with sorted keys stands for a finite map with one entry per
/// node.
proof fn lemma_map_len<K: TotalOrder, V>(x: NodeCell<K, V>)
    requires
        sorted(keys_of(x)),
    ensures
        map_of(x).dom().finite(),
        map_of(x).dom().len() == keys_of(x).len(),
    decreases x,
{
    if let Some(n) = x {
        lemma_sorted_node(x);
        lemma_map_len(n.left);
        lemma_map_len(n.right);
        let a = map_of(n.left).dom();
        let b = map_of(n.right).dom();
        lemma_set_union_finite_iff(a, b);
        assert(a.disjoint(b));
        lemma_set_disjoint_lens(a, b);
        assert(map_of(x).dom() =~= (a + b).insert(n.key));
        assert(!(a + b).contains(n.key));
    } else {
        assert(map_of(x).dom() =~= Set::<K>::empty());
    }
}

// ---------------------------------------------------------------------------
// Nodes and the balancing primitives.

impl<K, V> Node<K, V> {
    /// A node with no children.
    pub fn new(key: K, val: V, color: Color) -> (n: Node<K, V>)
        ensures
            n.key == key,
            n.val == val,
            n.color == color,
            n.left is None,
            n.right is None,
    {
        Node { key, val, left: None, right: None, color }
    }
}

fn is_red<K, V>(x: &NodeCell<K, V>) -> (r: bool)
    ensures
        r == red_link(*x),
{
    match x {
        None => false,
        Some(n) => n.color == Color::Red,
    }
}

/// Left rotation: turns a right-leaning red link into a left-leaning one.
/// The node's right child becomes the subtree's root and takes over the
/// node's colour; the node becomes its red left child.
fn rotate_left<K: TotalOrder, V>(h: Box<Node<K, V>>) -> (r: Box<Node<K, V>>)
    requires
        red_link(h.right),
    ensures
        ({
            let x = h.right.unwrap();
            *r == (Node {
                key: x.key,
                val: x.val,
                left: Some(
                    Box::new(
                        Node { key: h.key, val: h.val, left: h.left, right: x.left, color: Color::Red },
                    ),
                ),
                right: x.right,
                color: h.color,
            })
        }),
        keys_of(Some(r)) == keys_of(Some(h)),
        sorted(keys_of(Some(h))) ==> map_of(Some(r)) == map_of(Some(h)),
{
    let ghost h0 = h;
    let mut h = h;
    let mut x = h.right.take().unwrap();
    h.right = x.left.take();
    x.color = h.color;
    h.color = Color::Red;
    x.left = Some(h);
    proof {
        let y = h0.right.unwrap();
        assert(keys_of(x.left) == keys_of(h0.left) + seq![h0.key] + keys_of(y.left));
        assert(keys_of(h0.right) == keys_of(y.left) + seq![y.key] + keys_of(y.right));
        assert(keys_of(Some(x)) =~= keys_of(Some(h0)));
        if sorted(keys_of(Some(h0))) {
            lemma_sorted_node(Some(h0));
            lemma_sorted_node(h0.right);
            assert(map_of(x.left) == map_of(h0.left).union_prefer_right(map_of(y.left)).insert(
                h0.key,
                h0.val,
            ));
            assert(map_of(h0.right) == map_of(y.left).union_prefer_right(map_of(y.right)).insert(
                y.key,
                y.val,
            ));
            if map_of(y.right).dom().contains(h0.key) {
                assert(map_of(h0.right).dom().contains(h0.key));
            }
            assert forall|k: K| #[trigger] map_of(h0.left).dom().contains(k) implies !map_of(
                y.left,
            ).dom().contains(k) by {
                assert(!map_of(h0.right).dom().contains(k));
            }
            assert(map_of(Some(x)) == map_of(x.left).union_prefer_right(map_of(x.right)).insert(
                x.key,
                x.val,
            ));
            assert(map_of(Some(h0)) == map_of(h0.left).union_prefer_right(
                map_of(h0.right),
            ).insert(h0.key, h0.val));
            assert(map_of(Some(x)).dom() =~= map_of(Some(h0)).dom());
            assert forall|k: K| #[trigger] map_of(Some(x)).dom().contains(k) implies map_of(
                Some(x),
            )[k] == map_of(Some(h0))[k] by {
                if k == y.key {
                    assert(map_of(h0.right).dom().contains(y.key));
                    assert(y.key != h0.key);
                    assert(map_of(h0.right)[k] == y.val);
                    assert(map_of(Some(h0))[k] == y.val);
                } else if k == h0.key {
                    assert(map_of(Some(x))[k] == h0.val);
                } else if map_of(y.right).dom().contains(k) {
                    assert(map_of(h0.right).dom().contains(k));
                    assert(map_of(Some(x))[k] == map_of(y.right)[k]);
                    assert(map_of(h0.right)[k] == map_of(y.right)[k]);
                } else if map_of(y.left).dom().contains(k) {
                    assert(map_of(h0.right).dom().contains(k));
                    assert(map_of(Some(x))[k] == map_of(y.left)[k]);
                    assert(map_of(h0.right)[k] == map_of(y.left)[k]);
                } else {
                    assert(map_of(h0.left).dom().contains(k));
                    assert(map_of(Some(x))[k] == map_of(h0.left)[k]);
                    assert(!map_of(h0.right).dom().contains(k));
                }
            }
            assert(map_of(Some(x)) =~= map_of(Some(h0)));
        }
    }
    x
}

/// Right rotation: the mirror image of `rotate_left`.
fn rotate_right<K: TotalOrder, V>(h: Box<Node<K, V>>) -> (r: Box<Node<K, V>>)
    requires
        red_link(h.left),
    ensures
        ({
            let x = h.left.unwrap();
            *r == (Node {
                key: x.key,
                val: x.val,
                left: x.left,
                right: Some(
                    Box::new(
                        Node { key: h.key, val: h.val, left: x.right, right: h.right, color: Color::Red },
                    ),
                ),
                color: h.color,
            })
        }),
        keys_of(Some(r)) == keys_of(Some(h)),
        sorted(keys_of(Some(h))) ==> map_of(Some(r)) == map_of(Some(h)),
{
    let ghost h0 = h;
    let mut h = h;
    let mut x = h.left.take().unwrap();
    h.left = x.right.take();
    x.color = h.color;
    h.color = Color::Red;
    x.right = Some(h);
    proof {
        let y = h0.left.unwrap();
        assert(keys_of(x.right) == keys_of(y.right) + seq![h0.key] + keys_of(h0.right));
        assert(keys_of(h0.left) == keys_of(y.left) + seq![y.key] + keys_of(y.right));
        assert(keys_of(Some(x)) =~= keys_of(Some(h0)));
        if sorted(keys_of(Some(h0))) {
            lemma_sorted_node(Some(h0));
            lemma_sorted_node(h0.left);
            assert(map_of(x.right) == map_of(y.right).union_prefer_right(map_of(h0.right)).insert(
                h0.key,
                h0.val,
            ));
            assert(map_of(h0.left) == map_of(y.left).union_prefer_right(map_of(y.right)).insert(
                y.key,
                y.val,
            ));
            if map_of(y.left).dom().contains(h0.key) {
                assert(map_of(h0.left).dom().contains(h0.key));
            }
            assert(map_of(h0.left).dom().contains(y.key));
            assert(map_of(Some(x)) =~= map_of(Some(h0)));
        }
    }
    x
}

/// Colour flip: splits a temporary 4-node by making the node red and both
/// of its children black.
fn flip_color<K, V>(h: Box<Node<K, V>>) -> (r: Box<Node<K, V>>)
    requires
        h.left is Some,
        h.right is Some,
    ensures
        *r == (Node {
            key: h.key,
            val: h.val,
            left: recolor(h.left, Color::Black),
            right: recolor(h.right, Color::Black),
            color: Color::Red,
        }),
        keys_of(Some(r)) == keys_of(Some(h)),
        map_of(Some(r)) == map_of(Some(h)),
{
    let ghost h0 = h;
    let mut h = h;
    h.color = Color::Red;
    let mut l = h.left.take().unwrap();
    l.color = Color::Black;
    h.left = Some(l);
    let mut r = h.right.take().unwrap();
    r.color = Color::Black;
    h.right = Some(r);
    proof {
        lemma_recolor(h0.left);
        lemma_recolor(h0.right);
    }
    h
}

// ---------------------------------------------------------------------------
// Insertion.

/// The shapes that insertion can leave at a node before its repair: the
/// children are red-black trees of equal black height, except that a left
/// child may itself still lean (red with a red left child) when the right
/// child is black; a red node has at most one red child, and no leaning one.
spec fn fixable<K, V>(h: Box<Node<K, V>>) -> bool {
    &&& black_height(h.left) == black_height(h.right)
    &&& llrb(h.right)
    &&& (llrb(h.left) || (red_link(h.left) && leaning(h.left) && !red_link(h.right)))
    &&& (h.color == Color::Red ==> llrb(h.left) && !(red_link(h.left) && red_link(h.right)))
}

proof fn lemma_blacken<K, V>(x: NodeCell<K, V>)
    requires
        x is Some,
        llrb(x),
    ensures
        llrb(recolor(x, Color::Black)),
        black_height(recolor(x, Color::Black)) == black_height(x.unwrap().left) + 1,
        !red_link(recolor(x, Color::Black)),
{
}

/// The repair applied at each node on the way back up from an insertion.
fn balance<K: TotalOrder, V>(h: Box<Node<K, V>>) -> (r: Box<Node<K, V>>)
    requires
        sorted(keys_of(Some(h))),
    ensures
        keys_of(Some(r)) == keys_of(Some(h)),
        map_of(Some(r)) == map_of(Some(h)),
        fixable(h) && h.color == Color::Black ==> llrb(Some(r)) && black_height(Some(r))
            == black_height(Some(h)),
        fixable(h) && h.color == Color::Red ==> red_link(Some(r)) && leaning(Some(r))
            && black_height(Some(r)) == black_height(Some(h)),
{
    let ghost h0 = h;
    let mut h = h;
    if is_red(&h.right) && !is_red(&h.left) {
        h = rotate_left(h);
        proof {
            if fixable(h0) {
                let n = h.left.unwrap();
                let c = h0.right.unwrap();
                assert(llrb(h0.left));
                assert(llrb(c.left) && llrb(c.right));
                assert(black_height(h0.right) == black_height(c.left));
                assert(llrb(h.left));
                assert(black_height(h.left) == black_height(h0.left));
            }
        }
    }
    let ghost h1 = h;
    if is_red(&h.left) && is_red(&h.left.as_ref().unwrap().left) {
        h = rotate_right(h);
        proof {
            if fixable(h0) {
                let l = h1.left.unwrap();
                assert(!llrb(h1.left));
                assert(h1 == h0);
                assert(h0.color == Color::Black);
                assert(black_height(h0.left) == black_height(l.left));
                assert(llrb(h.right));
                assert(black_height(h.right) == black_height(l.left) + 0);
                assert(red_link(h.left) && red_link(h.right));
            }
        }
    }
    let ghost h2 = h;
    proof {
        if fixable(h0) && h2 == h1 && red_link(h1.left) {
            let l = h1.left.unwrap();
            assert(!red_link(l.left));
            assert(llrb(h1.left));
        }
    }
    if is_red(&h.left) && is_red(&h.right) {
        h = flip_color(h);
        proof {
            if fixable(h0) {
                lemma_blacken(h2.left);
                lemma_blacken(h2.right);
                assert(black_height(h2.left.unwrap().left) == black_height(h2.right.unwrap().left));
                assert(llrb(Some(h)));
            }
        }
    }
    proof {
        if fixable(h0) && h0.color == Color::Black {
            assert(llrb(Some(h)));
            assert(black_height(Some(h)) == black_height(Some(h0)));
        }
    }
    h
}

/// A red-black subtree whose root may still have a red left child (and
/// be red itself): the state insertion hands to a parent for repair.
spec fn leaning<K, V>(x: NodeCell<K, V>) -> bool {
    match x {
        None => false,
        Some(n) => {
            &&& llrb(n.left)
            &&& llrb(n.right)
            &&& black_height(n.left) == black_height(n.right)
            &&& !red_link(n.right)
        },
    }
}

/// Puts `key` into the subtree, then repairs the red-black shape on the way
/// back up: lean red links left, split a red-red pair, flip a 4-node.
fn put_link<K: TotalOrder, V>(x: NodeCell<K, V>, key: K, val: V) -> (r: NodeCell<K, V>)
    requires
        sorted(keys_of(x)),
    ensures
        r is Some,
        sorted(keys_of(r)),
        map_of(r) == map_of(x).insert(key, val),
        keys_of(r).len() == keys_of(x).len() + if map_of(x).dom().contains(key) {
            0int
        } else {
            1int
        },
        llrb(x) && !red_link(x) ==> llrb(r) && black_height(r) == black_height(x),
        llrb(x) && red_link(x) ==> red_link(r) && leaning(r) && black_height(r) == black_height(x),
    decreases x,
{
    match x {
        None => {
            let r = Some(Box::new(Node::new(key, val, Color::Red)));
            proof {
                assert(keys_of(r) =~= seq![key]);
                assert(llrb(r.unwrap().left) && black_height(r.unwrap().left) == 0);
                assert(llrb(r));
                assert(black_height(r) == black_height(x));
                assert(map_of(r) =~= map_of(x).insert(key, val));
            }
            r
        },
        Some(h) => {
            let ghost h0 = h;
            let mut h = h;
            proof {
                lemma_sorted_node(Some(h0));
                lemma_dom(h0.left);
                lemma_dom(h0.right);
                lemma_dom(Some(h0));
            }
            match key.compare(&h.key) {
                Ordering::Less => {
                    let left = h.left.take();
                    h.left = put_link(left, key, val);
                    proof {
                        lemma_dom(h.left);
                        assert forall|k: K| #[trigger] keys_of(h.left).contains(k) implies k.less(
                            h.key,
                        ) by {
                            assert(map_of(h.left).dom().contains(k));
                            if k != key {
                                assert(map_of(h0.left).dom().contains(k));
                            }
                        }
                        lemma_sorted_join(keys_of(h.left), h.key, keys_of(h.right));
                        if map_of(h0.right).dom().contains(key) {
                            lemma_order_facts(key, h.key);
                        }
                        assert(map_of(Some(h)) =~= map_of(Some(h0)).insert(key, val));
                    }
                },
                Ordering::Greater => {
                    let right = h.right.take();
                    h.right = put_link(right, key, val);
                    proof {
                        lemma_dom(h.right);
                        assert forall|k: K| #[trigger] keys_of(h.right).contains(k) implies h.key.less(
                            k,
                        ) by {
                            assert(map_of(h.right).dom().contains(k));
                            if k != key {
                                assert(map_of(h0.right).dom().contains(k));
                            }
                        }
                        lemma_sorted_join(keys_of(h.left), h.key, keys_of(h.right));
                        if map_of(h0.left).dom().contains(key) {
                            lemma_order_facts(key, h.key);
                        }
                        assert(map_of(Some(h)) =~= map_of(Some(h0)).insert(key, val));
                    }
                },
                Ordering::Equal => {
                    h.val = val;
                    proof {
                        assert(map_of(Some(h)) =~= map_of(Some(h0)).insert(key, val));
                    }
                },
            }
            proof {
                assert(keys_of(Some(h)).len() == keys_of(h.left).len() + 1 + keys_of(h.right).len());
                if llrb(x) {
                    assert(black_height(h.left) == black_height(h0.left));
                    assert(black_height(h.right) == black_height(h0.right));
                    assert(fixable(h));
                }
            }
            let r = balance(h);
            proof {
                assert(keys_of(Some(r)).len() == keys_of(Some(h)).len());
            }
            Some(r)
        },
    }
}

// ---------------------------------------------------------------------------
// Deletion. The splices below keep the keys in order but do not repair the
// red-black shape.

/// Detaches the node with the smallest key. Returns what is left of the
/// subtree and the detached node, whose children are both taken away.
fn delete_min_link<K: TotalOrder, V>(x: NodeCell<K, V>) -> (r: (NodeCell<K, V>, NodeCell<K, V>))
    requires
        sorted(keys_of(x)),
    ensures
        x is None ==> r.0 is None && r.1 is None,
        x is Some ==> {
            &&& r.1 matches Some(d)
            &&& d.left is None
            &&& d.right is None
            &&& d.key == keys_of(x)[0]
            &&& map_of(x).dom().contains(d.key)
            &&& d.val == map_of(x)[d.key]
            &&& keys_of(r.0) == keys_of(x).drop_first()
            &&& map_of(r.0) == map_of(x).remove(d.key)
        },
        sorted(keys_of(r.0)),
    decreases x,
{
    match x {
        None => (None, None),
        Some(h) => {
            let ghost h0 = h;
            let mut h = h;
            proof {
                lemma_sorted_node(Some(h0));
                lemma_dom(Some(h0));
            }
            match h.left.take() {
                None => {
                    let right = h.right.take();
                    proof {
                        assert(keys_of(right) =~= keys_of(x).drop_first());
                        assert(h0.left is None);
                        assert(!map_of(h0.right).dom().contains(h0.key));
                        assert(map_of(h0.left).union_prefer_right(map_of(h0.right)) =~= map_of(
                            h0.right,
                        ));
                        assert(map_of(right) =~= map_of(x).remove(h.key));
                    }
                    (right, Some(h))
                },
                Some(left) => {
                    let ghost l0 = Some(left);
                    let (t, deleted) = delete_min_link(Some(left));
                    h.left = t;
                    proof {
                        let d = deleted.unwrap();
                        let kl = keys_of(l0);
                        assert(kl.len() > 0);
                        assert(keys_of(x)[0] == kl[0]);
                        assert(keys_of(Some(h)) =~= keys_of(x).drop_first());
                        assert(kl.contains(d.key));
                        assert(map_of(l0).dom().contains(d.key));
                        assert(d.key != h0.key && !map_of(h0.right).dom().contains(d.key));
                        assert(map_of(Some(h)) =~= map_of(x).remove(d.key));
                    }
                    (Some(h), deleted)
                },
            }
        },
    }
}

/// Detaches the node with the largest key: the mirror image of
/// `delete_min_link`.
fn delete_max_link<K: TotalOrder, V>(x: NodeCell<K, V>) -> (r: (NodeCell<K, V>, NodeCell<K, V>))
    requires
        sorted(keys_of(x)),
    ensures
        x is None ==> r.0 is None && r.1 is None,
        x is Some ==> {
            &&& r.1 matches Some(d)
            &&& d.left is None
            &&& d.right is None
            &&& d.key == keys_of(x).last()
            &&& map_of(x).dom().contains(d.key)
            &&& d.val == map_of(x)[d.key]
            &&& keys_of(r.0) == keys_of(x).drop_last()
            &&& map_of(r.0) == map_of(x).remove(d.key)
        },
        sorted(keys_of(r.0)),
    decreases x,
{
    match x {
        None => (None, None),
        Some(h) => {
            let ghost h0 = h;
            let mut h = h;
            proof {
                lemma_sorted_node(Some(h0));
                lemma_dom(Some(h0));
            }
            match h.right.take() {
                None => {
                    let left = h.left.take();
                    proof {
                        assert(keys_of(left) =~= keys_of(x).drop_last());
                        assert(h0.right is None);
                        assert(!map_of(h0.left).dom().contains(h0.key));
                        assert(map_of(h0.left).union_prefer_right(map_of(h0.right)) =~= map_of(
                            h0.left,
                        ));
                        assert(map_of(left) =~= map_of(x).remove(h.key));
                    }
                    (left, Some(h))
                },
                Some(right) => {
                    let ghost r0 = Some(right);
                    let (t, deleted) = delete_max_link(Some(right));
                    h.right = t;
                    proof {
                        let d = deleted.unwrap();
                        let kr = keys_of(r0);
                        assert(kr.len() > 0);
                        assert(keys_of(x).last() == kr.last());
                        assert(keys_of(Some(h)) =~= keys_of(x).drop_last());
                        assert(kr.contains(d.key));
                        assert(map_of(r0).dom().contains(d.key));
                        assert(d.key != h0.key && !map_of(h0.left).dom().contains(d.key));
                        assert(map_of(Some(h)) =~= map_of(x).remove(d.key));
                    }
                    (Some(h), deleted)
                },
            }
        },
    }
}

/// Removes `key` from the subtree, if it is there. A node with two
/// children is replaced by the smallest node of its right subtree.
fn delete_link<K: TotalOrder, V>(x: NodeCell<K, V>, key: &K) -> (r: NodeCell<K, V>)
    requires
        sorted(keys_of(x)),
    ensures
        sorted(keys_of(r)),
        map_of(r) == map_of(x).remove(*key),
        keys_of(r).len() == keys_of(x).len() - if map_of(x).dom().contains(*key) {
            1int
        } else {
            0int
        },
        !map_of(x).dom().contains(*key) ==> r == x,
    decreases x,
{
    match x {
        None => {
            proof {
                assert(map_of(x).remove(*key) =~= map_of(x));
            }
            None
        },
        Some(h) => {
            let ghost h0 = h;
            let mut h = h;
            proof {
                lemma_sorted_node(Some(h0));
                lemma_dom(Some(h0));
                lemma_dom(h0.left);
                lemma_dom(h0.right);
            }
            match key.compare(&h.key) {
                Ordering::Less => {
                    let left = h.left.take();
                    h.left = delete_link(left, key);
                    proof {
                        lemma_dom(h.left);
                        assert forall|k: K| #[trigger] keys_of(h.left).contains(k) implies k.less(
                            h.key,
                        ) by {
                            assert(map_of(h.left).dom().contains(k));
                            assert(map_of(h0.left).dom().contains(k));
                        }
                        lemma_sorted_join(keys_of(h.left), h.key, keys_of(h.right));
                        if map_of(h0.right).dom().contains(*key) {
                            lemma_order_facts(*key, h.key);
                        }
                        assert(map_of(Some(h)) =~= map_of(Some(h0)).remove(*key));
                    }
                    Some(h)
                },
                Ordering::Greater => {
                    let right = h.right.take();
                    h.right = delete_link(right, key);
                    proof {
                        lemma_dom(h.right);
                        assert forall|k: K| #[trigger] keys_of(h.right).contains(k) implies h.key.less(
                            k,
                        ) by {
                            assert(map_of(h.right).dom().contains(k));
                            assert(map_of(h0.right).dom().contains(k));
                        }
                        lemma_sorted_join(keys_of(h.left), h.key, keys_of(h.right));
                        if map_of(h0.left).dom().contains(*key) {
                            lemma_order_facts(*key, h.key);
                        }
                        assert(map_of(Some(h)) =~= map_of(Some(h0)).remove(*key));
                    }
                    Some(h)
                },
                Ordering::Equal => {
                    if h.right.is_none() {
                        proof {
                            assert(map_of(h0.left).union_prefer_right(map_of(h0.right)) =~= map_of(
                                h0.left,
                            ));
                            assert(map_of(h0.left) =~= map_of(x).remove(*key));
                        }
                        return h.left.take();
                    }
                    if h.left.is_none() {
                        proof {
                            assert(map_of(h0.left).union_prefer_right(map_of(h0.right)) =~= map_of(
                                h0.right,
                            ));
                            assert(map_of(h0.right) =~= map_of(x).remove(*key));
                        }
                        return h.right.take();
                    }
                    let (right, right_min) = delete_min_link(h.right.take());
                    let mut m = right_min.unwrap();
                    m.right = right;
                    m.left = h.left.take();
                    proof {
                        let kr = keys_of(h0.right);
                        assert(kr.contains(m.key));
                        assert(h0.key.less(m.key));
                        assert forall|k: K| #[trigger] keys_of(m.left).contains(k) implies k.less(
                            m.key,
                        ) by {
                            K::lemma_transitive(k, h0.key, m.key);
                        }
                        assert forall|k: K| #[trigger] keys_of(m.right).contains(k) implies m.key.less(
                            k,
                        ) by {
                            let i = choose|i: int| 0 <= i < keys_of(m.right).len() && keys_of(
                                m.right,
                            )[i] == k;
                            assert(kr[i + 1] == k);
                        }
                        lemma_sorted_join(keys_of(m.left), m.key, keys_of(m.right));
                        lemma_dom(m.right);
                        assert(!map_of(h0.left).dom().contains(m.key));
                        assert(map_of(Some(m)) =~= map_of(x).remove(*key));
                    }
                    Some(m)
                },
            }
        },
    }
}

// ---------------------------------------------------------------------------
// Queries.

/// The key a reference points to, if any.
pub open spec fn deref_opt<K>(r: Option<&K>) -> Option<K> {
    match r {
        Some(k) => Some(*k),
        None => None,
    }
}

/// `f` is the largest key of `s` that is not after `key`; `None` when
/// every key of `s` comes after `key`.
pub open spec fn is_floor<K: TotalOrder>(s: Seq<K>, key: K, r: Option<K>) -> bool {
    match r {
        Some(f) => {
            &&& s.contains(f)
            &&& !key.less(f)
            &&& forall|i: int| 0 <= i < s.len() && !key.less(#[trigger] s[i]) ==> !f.less(s[i])
        },
        None => forall|i: int| 0 <= i < s.len() ==> key.less(#[trigger] s[i]),
    }
}

/// `c` is the smallest key of `s` that is not before `key`; `None` when
/// every key of `s` comes before `key`.
pub open spec fn is_ceiling<K: TotalOrder>(s: Seq<K>, key: K, r: Option<K>) -> bool {
    match r {
        Some(c) => {
            &&& s.contains(c)
            &&& !c.less(key)
            &&& forall|i: int| 0 <= i < s.len() && !(#[trigger] s[i]).less(key) ==> !s[i].less(c)
        },
        None => forall|i: int| 0 <= i < s.len() ==> (#[trigger] s[i]).less(key),
    }
}

/// `r` splits `s` into the keys before `key` and the others.
pub open spec fn splits_at<K: TotalOrder>(s: Seq<K>, key: K, r: int) -> bool {
    &&& 0 <= r <= s.len()
    &&& forall|i: int| 0 <= i < r ==> (#[trigger] s[i]).less(key)
    &&& forall|i: int| r <= i < s.len() ==> !(#[trigger] s[i]).less(key)
}

fn max(a: usize, b: usize) -> (r: usize)
    ensures
        r == if a >= b { a } else { b },
{
    if a >= b {
        a
    } else {
        b
    }
}

proof fn lemma_height_le_size<K, V>(x: NodeCell<K, V>)
    ensures
        height(x) <= keys_of(x).len(),
    decreases x,
{
    if let Some(n) = x {
        lemma_height_le_size(n.left);
        lemma_height_le_size(n.right);
    }
}

impl<K, V> Node<K, V> {
    /// Number of nodes on the longest path down from this node.
    fn depth(&self) -> (d: usize)
        requires
            keys_of(Some(Box::new(*self))).len() <= usize::MAX,
        ensures
            d == height(Some(Box::new(*self))),
        decreases self,
    {
        proof {
            lemma_height_le_size(Some(Box::new(*self)));
            lemma_height_le_size(self.left);
            lemma_height_le_size(self.right);
        }
        let lsz = match &self.left {
            Some(n) => n.depth(),
            None => 0,
        };
        let rsz = match &self.right {
            Some(n) => n.depth(),
            None => 0,
        };
        max(lsz, rsz) + 1
    }

    /// Number of nodes in the subtree rooted here.
    fn size(&self) -> (n: usize)
        requires
            keys_of(Some(Box::new(*self))).len() <= usize::MAX,
        ensures
            n == keys_of(Some(Box::new(*self))).len(),
        decreases self,
    {
        let l = match &self.left {
            Some(n) => n.size(),
            None => 0,
        };
        let r = match &self.right {
            Some(n) => n.size(),
            None => 0,
        };
        proof {
            assert(keys_of(Some(Box::new(*self))) == keys_of(self.left) + seq![self.key] + keys_of(
                self.right,
            ));
        }
        1 + l + r
    }
}

fn link_size<K, V>(x: &NodeCell<K, V>) -> (n: usize)
    requires
        keys_of(*x).len() <= usize::MAX,
    ensures
        n == keys_of(*x).len(),
{
    match x {
        Some(n) => n.size(),
        None => 0,
    }
}

fn find_min<K, V>(x: &NodeCell<K, V>) -> (r: Option<&K>)
    ensures
        x is None ==> r is None,
        x is Some ==> r == Some(&keys_of(*x)[0]),
    decreases *x,
{
    match x {
        None => None,
        Some(n) => match &n.left {
            None => {
                assert(keys_of(n.left) =~= Seq::<K>::empty());
                assert(keys_of(*x) == keys_of(n.left) + seq![n.key] + keys_of(n.right));
                assert(keys_of(*x)[0] == n.key);
                Some(&n.key)
            },
            Some(l) => {
                assert(keys_of(n.left).len() > 0);
                assert(keys_of(*x)[0] == keys_of(n.left)[0]);
                find_min(&n.left)
            },
        },
    }
}

fn find_max<K, V>(x: &NodeCell<K, V>) -> (r: Option<&K>)
    ensures
        x is None ==> r is None,
        x is Some ==> r == Some(&keys_of(*x).last()),
    decreases *x,
{
    match x {
        None => None,
        Some(n) => match &n.right {
            None => {
                assert(keys_of(n.right) =~= Seq::<K>::empty());
                assert(keys_of(*x) == keys_of(n.left) + seq![n.key] + keys_of(n.right));
                assert(keys_of(*x).last() == n.key);
                Some(&n.key)
            },
            Some(r) => {
                assert(keys_of(n.right).len() > 0);
                assert(keys_of(*x).last() == keys_of(n.right).last());
                find_max(&n.right)
            },
        },
    }
}

fn floor_link<'a, K: TotalOrder, V>(x: &'a NodeCell<K, V>, key: &K) -> (r: Option<&'a K>)
    requires
        sorted(keys_of(*x)),
    ensures
        is_floor(keys_of(*x), *key, deref_opt(r)),
    decreases *x,
{
    match x {
        None => None,
        Some(n) => {
            let ghost s = keys_of(*x);
            let ghost l = keys_of(n.left);
            let ghost rt = keys_of(n.right);
            proof {
                lemma_sorted_split(l, n.key, rt);
                assert(s == l + seq![n.key] + rt);
            }
            match key.compare(&n.key) {
                Ordering::Equal => {
                    proof {
                        K::lemma_irreflexive(*key);
                        assert(s[l.len() as int] == n.key);
                        assert forall|i: int| 0 <= i < s.len() && !key.less(
                            #[trigger] s[i],
                        ) implies !n.key.less(s[i]) by {
                            if i < l.len() {
                                assert(s[i] == l[i]);
                                lemma_order_facts(l[i], n.key);
                            } else if i > l.len() {
                                assert(s[i] == rt[i - l.len() - 1]);
                            }
                        }
                    }
                    Some(&n.key)
                },
                Ordering::Less => {
                    let t = floor_link(&n.left, key);
                    proof {
                        assert forall|i: int| l.len() <= i < s.len() implies key.less(
                            #[trigger] s[i],
                        ) by {
                            if i == l.len() {
                            } else {
                                assert(s[i] == rt[i - l.len() - 1]);
                                K::lemma_transitive(*key, n.key, s[i]);
                            }
                        }
                        assert forall|i: int| 0 <= i < l.len() implies s[i] == #[trigger] l[i] by {}
                        if let Some(f) = t {
                            let f = *f;
                            let j = choose|j: int| 0 <= j < l.len() && l[j] == f;
                            assert(s[j] == f);
                        }
                    }
                    t
                },
                Ordering::Greater => {
                    let t = floor_link(&n.right, key);
                    proof {
                        let off = l.len() + 1;
                        assert forall|i: int| 0 <= i < rt.len() implies s[i + off] == #[trigger] rt[i] by {}
                        assert forall|i: int| 0 <= i < l.len() implies s[i] == #[trigger] l[i] by {}
                        assert(s[l.len() as int] == n.key);
                        lemma_order_facts(n.key, *key);
                        if let Some(f) = t {
                            let f = *f;
                            let j = choose|j: int| 0 <= j < rt.len() && rt[j] == f;
                            assert(s[j + off] == f);
                            assert forall|i: int| 0 <= i < s.len() && !key.less(
                                #[trigger] s[i],
                            ) implies !f.less(s[i]) by {
                                lemma_order_facts(f, s[i]);
                                if i < l.len() {
                                    assert(s[i].less(n.key));
                                    K::lemma_transitive(s[i], n.key, f);
                                } else if i == l.len() {
                                } else {
                                    assert(s[i] == rt[i - off]);
                                }
                            }
                        } else {
                            assert forall|i: int| 0 <= i < s.len() && !key.less(
                                #[trigger] s[i],
                            ) implies !n.key.less(s[i]) by {
                                K::lemma_irreflexive(n.key);
                                if i < l.len() {
                                    lemma_order_facts(s[i], n.key);
                                } else if i > l.len() {
                                    assert(s[i] == rt[i - off]);
                                }
                            }
                        }
                    }
                    if t.is_some() {
                        t
                    } else {
                        Some(&n.key)
                    }
                },
            }
        },
    }
}

fn ceiling_link<'a, K: TotalOrder, V>(x: &'a NodeCell<K, V>, key: &K) -> (r: Option<&'a K>)
    requires
        sorted(keys_of(*x)),
    ensures
        is_ceiling(keys_of(*x), *key, deref_opt(r)),
    decreases *x,
{
    match x {
        None => None,
        Some(n) => {
            let ghost s = keys_of(*x);
            let ghost l = keys_of(n.left);
            let ghost rt = keys_of(n.right);
            proof {
                lemma_sorted_split(l, n.key, rt);
                assert(s == l + seq![n.key] + rt);
            }
            match key.compare(&n.key) {
                Ordering::Equal => {
                    proof {
                        K::lemma_irreflexive(*key);
                        assert(s[l.len() as int] == n.key);
                        assert forall|i: int| 0 <= i < s.len() && !(#[trigger] s[i]).less(
                            *key,
                        ) implies !s[i].less(n.key) by {
                            if i < l.len() {
                                assert(s[i] == l[i]);
                            } else if i > l.len() {
                                assert(s[i] == rt[i - l.len() - 1]);
                                lemma_order_facts(n.key, s[i]);
                            }
                        }
                    }
                    Some(&n.key)
                },
                Ordering::Greater => {
                    let t = ceiling_link(&n.right, key);
                    proof {
                        let off = l.len() + 1;
                        assert forall|i: int| 0 <= i < rt.len() implies s[i + off] == #[trigger] rt[i] by {}
                        assert forall|i: int| 0 <= i <= l.len() implies (#[trigger] s[i]).less(
                            *key,
                        ) by {
                            if i < l.len() {
                                assert(s[i] == l[i]);
                                K::lemma_transitive(s[i], n.key, *key);
                            }
                        }
                        if let Some(c) = t {
                            let c = *c;
                            let j = choose|j: int| 0 <= j < rt.len() && rt[j] == c;
                            assert(s[j + off] == c);
                        }
                        assert forall|i: int| off <= i < s.len() implies s[i] == rt[i - off] by {}
                    }
                    t
                },
                Ordering::Less => {
                    let t = ceiling_link(&n.left, key);
                    proof {
                        let off = l.len() + 1;
                        assert forall|i: int| 0 <= i < rt.len() implies s[i + off] == #[trigger] rt[i] by {}
                        assert forall|i: int| 0 <= i < l.len() implies s[i] == #[trigger] l[i] by {}
                        assert(s[l.len() as int] == n.key);
                        lemma_order_facts(n.key, *key);
                        if let Some(c) = t {
                            let c = *c;
                            let j = choose|j: int| 0 <= j < l.len() && l[j] == c;
                            assert(s[j] == c);
                            assert forall|i: int| 0 <= i < s.len() && !(#[trigger] s[i]).less(
                                *key,
                            ) implies !s[i].less(c) by {
                                lemma_order_facts(c, s[i]);
                                if i > l.len() {
                                    assert(n.key.less(s[i]));
                                    K::lemma_transitive(c, n.key, s[i]);
                                } else if i == l.len() {
                                } else {
                                    assert(s[i] == l[i]);
                                }
                            }
                        } else {
                            assert forall|i: int| 0 <= i < s.len() && !(#[trigger] s[i]).less(
                                *key,
                            ) implies !s[i].less(n.key) by {
                                K::lemma_irreflexive(n.key);
                                if i > l.len() {
                                    assert(s[i] == rt[i - off]);
                                    lemma_order_facts(s[i], n.key);
                                } else if i < l.len() {
                                    assert(s[i] == l[i]);
                                }
                            }
                        }
                    }
                    if t.is_some() {
                        t
                    } else {
                        Some(&n.key)
                    }
                },
            }
        },
    }
}

fn rank_link<K: TotalOrder, V>(x: &NodeCell<K, V>, key: &K) -> (r: usize)
    requires
        sorted(keys_of(*x)),
        keys_of(*x).len() <= usize::MAX,
    ensures
        splits_at(keys_of(*x), *key, r as int),
    decreases *x,
{
    match x {
        None => 0,
        Some(n) => {
            let ghost s = keys_of(*x);
            let ghost l = keys_of(n.left);
            let ghost rt = keys_of(n.right);
            proof {
                lemma_sorted_split(l, n.key, rt);
                assert(s == l + seq![n.key] + rt);
                assert(s[l.len() as int] == n.key);
            }
            let off = link_size(&n.left);
            match key.compare(&n.key) {
                Ordering::Less => {
                    let r = rank_link(&n.left, key);
                    proof {
                        assert forall|i: int| r <= i < s.len() implies !(#[trigger] s[i]).less(
                            *key,
                        ) by {
                            lemma_order_facts(s[i], *key);
                            if i < l.len() {
                                assert(s[i] == l[i]);
                            } else if i == l.len() {
                            } else {
                                assert(s[i] == rt[i - l.len() - 1]);
                                K::lemma_transitive(*key, n.key, s[i]);
                            }
                        }
                        assert forall|i: int| 0 <= i < r implies (#[trigger] s[i]).less(*key) by {
                            assert(s[i] == l[i]);
                        }
                    }
                    r
                },
                Ordering::Greater => {
                    let r = rank_link(&n.right, key);
                    proof {
                        assert forall|i: int| 0 <= i < off + 1 + r implies (#[trigger] s[i]).less(
                            *key,
                        ) by {
                            if i < l.len() {
                                assert(s[i] == l[i]);
                                K::lemma_transitive(s[i], n.key, *key);
                            } else if i > l.len() {
                                assert(s[i] == rt[i - l.len() - 1]);
                            }
                        }
                        assert forall|i: int| off + 1 + r <= i < s.len() implies !(
                        #[trigger] s[i]).less(*key) by {
                            assert(s[i] == rt[i - l.len() - 1]);
                        }
                    }
                    1 + off + r
                },
                Ordering::Equal => {
                    proof {
                        K::lemma_irreflexive(*key);
                        assert forall|i: int| off <= i < s.len() implies !(#[trigger] s[i]).less(
                            *key,
                        ) by {
                            if i > l.len() {
                                assert(s[i] == rt[i - l.len() - 1]);
                                lemma_order_facts(s[i], *key);
                            }
                        }
                        assert forall|i: int| 0 <= i < off implies (#[trigger] s[i]).less(*key) by {
                            assert(s[i] == l[i]);
                        }
                    }
                    off
                },
            }
        },
    }
}

fn inorder<'a, K, V>(x: &'a NodeCell<K, V>, queue: &mut Vec<&'a K>)
    ensures
        final(queue)@.map_values(|k: &K| *k) == old(queue)@.map_values(|k: &K| *k) + keys_of(*x),
    decreases *x,
{
    match x {
        None => {
            proof {
                assert(queue@.map_values(|k: &K| *k) =~= queue@.map_values(|k: &K| *k) + keys_of(*x));
            }
        },
        Some(n) => {
            let ghost q0 = queue@.map_values(|k: &K| *k);
            inorder(&n.left, queue);
            let ghost q1 = queue@;
            queue.push(&n.key);
            proof {
                assert(queue@.map_values(|k: &K| *k) =~= q1.map_values(|k: &K| *k) + seq![n.key]);
            }
            inorder(&n.right, queue);
            proof {
                assert(queue@.map_values(|k: &K| *k) =~= q0 + keys_of(*x));
            }
        },
    }
}

// ---------------------------------------------------------------------------
// The symbol table.

/// An ordered symbol table kept as a left-leaning red-black tree.
pub struct RedBlackBST<K, V> {
    pub root: NodeCell<K, V>,
}

impl<K, V> View for RedBlackBST<K, V> {
    type V = Map<K, V>;

    open spec fn view(&self) -> Map<K, V> {
        map_of(self.root)
    }
}

impl<K: TotalOrder, V> RedBlackBST<K, V> {
    /// The stored keys in ascending order.
    pub open spec fn key_seq(&self) -> Seq<K> {
        keys_of(self.root)
    }

    /// The keys are in search-tree order, and their count fits a `usize`.
    pub open spec fn wf(&self) -> bool {
        &&& sorted(keys_of(self.root))
        &&& keys_of(self.root).len() <= usize::MAX
    }

    /// The tree has the full left-leaning red-black shape with a black root.
    pub open spec fn is_balanced(&self) -> bool {
        &&& llrb(self.root)
        &&& !red_link(self.root)
    }

    /// The number of nodes on the longest path from the root down.
    pub fn depth(&self) -> (d: usize)
        requires
            self.wf(),
        ensures
            d == height(self.root),
    {
        match &self.root {
            None => 0,
            Some(x) => x.depth(),
        }
    }

    /// An empty table.
    pub fn new() -> (t: RedBlackBST<K, V>)
        ensures
            t.wf(),
            t.is_balanced(),
            t@ == Map::<K, V>::empty(),
            t.key_seq() == Seq::<K>::empty(),
    {
        RedBlackBST { root: None }
    }

    pub fn contains(&self, key: &K) -> (r: bool)
        requires
            self.wf(),
        ensures
            r == self@.dom().contains(*key),
    {
        self.get(key).is_some()
    }

    /// The value stored under `key`, if any.
    pub fn get(&self, key: &K) -> (r: Option<&V>)
        requires
            self.wf(),
        ensures
            match r {
                Some(v) => self@.dom().contains(*key) && *v == self@[*key],
                None => !self@.dom().contains(*key),
            },
    {
        let mut x = &self.root;
        loop
            invariant
                sorted(keys_of(*x)),
                self@.dom().contains(*key) <==> map_of(*x).dom().contains(*key),
                map_of(*x).dom().contains(*key) ==> self@[*key] == map_of(*x)[*key],
            decreases height(*x),
        {
            match x {
                None => {
                    return None;
                },
                Some(n) => {
                    proof {
                        lemma_sorted_node(*x);
                        lemma_dom(n.left);
                        lemma_dom(n.right);
                    }
                    match key.compare(&n.key) {
                        Ordering::Less => {
                            proof {
                                if map_of(n.right).dom().contains(*key) {
                                    lemma_order_facts(*key, n.key);
                                }
                            }
                            x = &n.left;
                        },
                        Ordering::Greater => {
                            proof {
                                if map_of(n.left).dom().contains(*key) {
                                    lemma_order_facts(*key, n.key);
                                }
                            }
                            x = &n.right;
                        },
                        Ordering::Equal => {
                            return Some(&n.val);
                        },
                    }
                },
            }
        }
    }

    /// What `put(key, val)` makes of `self`: the map gains the entry, a
    /// new key adds one to the size and an existing one leaves it as it was.
    pub open spec fn put_result(&self, key: K, val: V, after: &Self) -> bool {
        &&& after.wf()
        &&& after@ == self@.insert(key, val)
        &&& after.key_seq().len() == self.key_seq().len() + if self@.dom().contains(key) {
            0int
        } else {
            1int
        }
    }

    /// Inserts `key` with `val`, or replaces the value stored under `key`.
    pub fn put(&mut self, key: K, val: V)
        requires
            old(self).wf(),
            old(self).key_seq().len() < usize::MAX,
        ensures
            old(self).put_result(key, val, final(self)),
            old(self).is_balanced() ==> final(self).is_balanced(),
    {
        let mut r = put_link(self.root.take(), key, val).unwrap();
        let ghost r0 = r;
        r.color = Color::Black;
        proof {
            lemma_recolor(Some(r0));
            assert(recolor(Some(r0), Color::Black) == Some(r));
            if llrb(Some(r0)) {
                lemma_blacken(Some(r0));
            }
        }
        self.root = Some(r);
    }

    /// Removes `key` and its value; does nothing when `key` is absent.
    /// The red-black shape is not repaired afterwards.
    pub fn delete(&mut self, key: &K)
        requires
            old(self).wf(),
        ensures
            final(self).wf(),
            final(self)@ == old(self)@.remove(*key),
            final(self).key_seq().len() == old(self).key_seq().len() - if old(self)@.dom().contains(
                *key,
            ) {
                1int
            } else {
                0int
            },
            !old(self)@.dom().contains(*key) ==> *final(self) == *old(self),
    {
        self.root = delete_link(self.root.take(), key);
    }

    pub fn is_empty(&self) -> (r: bool)
        ensures
            r == (self.key_seq().len() == 0),
            r == (self@ == Map::<K, V>::empty()),
    {
        proof {
            if self.root is Some {
                assert(self@.dom().contains(self.root.unwrap().key));
            } else {
                assert(self@ =~= Map::<K, V>::empty());
            }
        }
        self.root.is_none()
    }

    /// Number of key-value pairs in the table.
    pub fn size(&self) -> (n: usize)
        requires
            self.wf(),
        ensures
            n == self.key_seq().len(),
            n == self@.len(),
    {
        proof {
            lemma_map_len(self.root);
        }
        if self.is_empty() {
            0
        } else {
            link_size(&self.root)
        }
    }
}

/// Number of keys of `s` that come before `key`.
pub open spec fn count_less<K: TotalOrder>(s: Seq<K>, key: K) -> nat
    decreases s.len(),
{
    if s.len() == 0 {
        0
    } else {
        count_less(s.drop_last(), key) + if s.last().less(key) {
            1nat
        } else {
            0nat
        }
    }
}

proof fn lemma_count_split<K: TotalOrder>(s: Seq<K>, key: K, r: int)
    requires
        splits_at(s, key, r),
    ensures
        count_less(s, key) == r,
    decreases s.len(),
{
    if s.len() > 0 {
        let t = s.drop_last();
        if r == s.len() {
            assert(splits_at(t, key, r - 1)) by {
                assert forall|i: int| 0 <= i < r - 1 implies (#[trigger] t[i]).less(key) by {
                    assert(t[i] == s[i]);
                }
            }
            lemma_count_split(t, key, r - 1);
            assert(s.last() == s[s.len() - 1]);
        } else {
            assert(splits_at(t, key, r)) by {
                assert forall|i: int| 0 <= i < r implies (#[trigger] t[i]).less(key) by {
                    assert(t[i] == s[i]);
                }
                assert forall|i: int| r <= i < t.len() implies !(#[trigger] t[i]).less(key) by {
                    assert(t[i] == s[i]);
                }
            }
            lemma_count_split(t, key, r);
            assert(s.last() == s[s.len() - 1]);
        }
    }
}

impl<K: TotalOrder, V> RedBlackBST<K, V> {
    /// The smallest key.
    pub fn min(&self) -> (r: Option<&K>)
        requires
            self.wf(),
        ensures
            deref_opt(r) == if self.key_seq().len() == 0 {
                None
            } else {
                Some(self.key_seq()[0])
            },
    {
        find_min(&self.root)
    }

    /// The largest key.
    pub fn max(&self) -> (r: Option<&K>)
        requires
            self.wf(),
        ensures
            deref_opt(r) == if self.key_seq().len() == 0 {
                None
            } else {
                Some(self.key_seq().last())
            },
    {
        find_max(&self.root)
    }

    /// The largest key less than or equal to `key`.
    pub fn floor(&self, key: &K) -> (r: Option<&K>)
        requires
            self.wf(),
        ensures
            is_floor(self.key_seq(), *key, deref_opt(r)),
    {
        let x = floor_link(&self.root, key);
        if let Some(x) = x {
            Some(x)
        } else {
            None
        }
    }

    /// The smallest key greater than or equal to `key`.
    pub fn ceiling(&self, key: &K) -> (r: Option<&K>)
        requires
            self.wf(),
        ensures
            is_ceiling(self.key_seq(), *key, deref_opt(r)),
    {
        let x = ceiling_link(&self.root, key);
        if let Some(x) = x {
            Some(x)
        } else {
            None
        }
    }

    /// Number of keys less than `key`.
    pub fn rank(&self, key: &K) -> (r: usize)
        requires
            self.wf(),
        ensures
            r == count_less(self.key_seq(), *key),
            splits_at(self.key_seq(), *key, r as int),
    {
        let r = rank_link(&self.root, key);
        proof {
            lemma_count_split(self.key_seq(), *key, r as int);
        }
        r
    }

    /// The key of rank `k`: the `k`-th smallest, counting from zero.
    /// Found by scanning the keys in order for the one whose rank is `k`.
    pub fn select(&self, k: usize) -> (r: Option<&K>)
        requires
            self.wf(),
        ensures
            deref_opt(r) == if k < self.key_seq().len() {
                Some(self.key_seq()[k as int])
            } else {
                None
            },
    {
        let keys = self.keys();
        let ghost s = self.key_seq();
        let mut i: usize = 0;
        while i < keys.len()
            invariant
                keys@.map_values(|q: &K| *q) == s,
                i <= keys.len(),
                i <= k,
                self.wf(),
                s == self.key_seq(),
            decreases keys.len() - i,
        {
            let key = keys[i];
            let r = self.rank(key);
            proof {
                assert(*key == s[i as int]);
                lemma_rank_of_nth(s, i as int);
            }
            if r == k {
                return Some(key);
            }
            i = i + 1;
        }
        None
    }

    /// Removes the smallest key; does nothing on an empty table.
    pub fn delete_min(&mut self)
        requires
            old(self).wf(),
        ensures
            final(self).wf(),
            old(self).key_seq().len() == 0 ==> *final(self) == *old(self),
            old(self).key_seq().len() > 0 ==> final(self)@ == old(self)@.remove(
                old(self).key_seq()[0],
            ) && final(self).key_seq() == old(self).key_seq().drop_first(),
    {
        self.root = delete_min_link(self.root.take()).0;
    }

    /// Removes the largest key; does nothing on an empty table.
    pub fn delete_max(&mut self)
        requires
            old(self).wf(),
        ensures
            final(self).wf(),
            old(self).key_seq().len() == 0 ==> *final(self) == *old(self),
            old(self).key_seq().len() > 0 ==> final(self)@ == old(self)@.remove(
                old(self).key_seq().last(),
            ) && final(self).key_seq() == old(self).key_seq().drop_last(),
    {
        self.root = delete_max_link(self.root.take()).0;
    }

    /// All keys in ascending order.
    pub fn keys(&self) -> (r: Vec<&K>)
        ensures
            r@.map_values(|q: &K| *q) == self.key_seq(),
    {
        let mut queue = Vec::new();
        proof {
            assert(queue@.map_values(|q: &K| *q) =~= Seq::<K>::empty());
        }
        inorder(&self.root, &mut queue);
        proof {
            assert(queue@.map_values(|q: &K| *q) =~= self.key_seq());
        }
        queue
    }
}

impl<K: TotalOrder, V> Default for RedBlackBST<K, V> {
    fn default() -> (t: Self)
        ensures
            t.wf(),
            t@ == Map::<K, V>::empty(),
    {
        Self::new()
    }
}

/// In a sorted sequence the key at index `i` has rank `i`.
proof fn lemma_rank_of_nth<K: TotalOrder>(s: Seq<K>, i: int)
    requires
        sorted(s),
        0 <= i < s.len(),
    ensures
        splits_at(s, s[i], i),
        count_less(s, s[i]) == i,
{
    K::lemma_irreflexive(s[i]);
    assert forall|j: int| i <= j < s.len() implies !(#[trigger] s[j]).less(s[i]) by {
        if j > i {
            lemma_order_facts(s[i], s[j]);
        }
    }
    lemma_count_split(s, s[i], i);
}

// ---------------------------------------------------------------------------
// Laws of the table.

/// Every node's key lies strictly between the keys of its left subtree and
/// those of its right subtree.
pub open spec fn bst<K: TotalOrder, V>(x: NodeCell<K, V>) -> bool
    decreases x,
{
    match x {
        None => true,
        Some(n) => {
            &&& bst(n.left)
            &&& bst(n.right)
            &&& forall|k: K| #[trigger] keys_of(n.left).contains(k) ==> k.less(n.key)
            &&& forall|k: K| #[trigger] keys_of(n.right).contains(k) ==> n.key.less(k)
        },
    }
}

proof fn lemma_sorted_bst<K: TotalOrder, V>(x: NodeCell<K, V>)
    requires
        sorted(keys_of(x)),
    ensures
        bst(x),
    decreases x,
{
    if let Some(n) = x {
        lemma_sorted_node(x);
        lemma_sorted_bst(n.left);
        lemma_sorted_bst(n.right);
    }
}

/// Search-tree order holds at every node of a well-formed table; and every
/// operation that changes a table keeps it well formed.
pub proof fn lemma_bst_order<K: TotalOrder, V>(t: &RedBlackBST<K, V>)
    requires
        t.wf(),
    ensures
        bst(t.root),
{
    lemma_sorted_bst(t.root);
}

/// The keys in order are exactly the keys of the map.
pub proof fn lemma_keys_match_map<K: TotalOrder, V>(t: &RedBlackBST<K, V>)
    ensures
        forall|k: K| #[trigger] t.key_seq().contains(k) <==> t@.dom().contains(k),
{
    lemma_dom(t.root);
}

proof fn lemma_llrb_size<K, V>(x: NodeCell<K, V>)
    requires
        llrb(x),
    ensures
        keys_of(x).len() + 1 >= pow2(black_height(x)),
        height(x) <= 2 * black_height(x) + if red_link(x) {
            1int
        } else {
            0int
        },
    decreases x,
{
    if let Some(n) = x {
        lemma_llrb_size(n.left);
        lemma_llrb_size(n.right);
        if n.color == Color::Black {
            lemma_pow2_unfold(black_height(x));
        }
    } else {
        lemma_pow0(2);
    }
}

/// A balanced tree of `n` keys is at most `2 * log2(n + 1)` nodes deep:
/// two to the power of its height is at most `(n + 1)` squared.
pub proof fn lemma_balanced_height<K: TotalOrder, V>(t: &RedBlackBST<K, V>)
    requires
        t.is_balanced(),
    ensures
        pow2(height(t.root)) <= (t.key_seq().len() + 1) * (t.key_seq().len() + 1),
{
    lemma_llrb_size(t.root);
    let b = black_height(t.root);
    let h = height(t.root);
    let m = t.key_seq().len() + 1;
    lemma_pow2_adds(b, b);
    if h < b + b {
        lemma_pow2_strictly_increases(h, b + b);
    }
    let p = pow2(b);
    assert(p * p <= m * m) by (nonlinear_arith)
        requires
            p <= m,
    ;
}

/// Reading a key right after putting it gives the value put; putting the
/// same key twice keeps the last value and leaves the size as it was after
/// the first put.
pub proof fn lemma_put_get<K: TotalOrder, V>(
    t0: &RedBlackBST<K, V>,
    t1: &RedBlackBST<K, V>,
    t2: &RedBlackBST<K, V>,
    key: K,
    v1: V,
    v2: V,
)
    requires
        t0.wf(),
        t0.put_result(key, v1, t1),
        t1.put_result(key, v2, t2),
    ensures
        t1@.dom().contains(key) && t1@[key] == v1,
        t2@.dom().contains(key) && t2@[key] == v2,
        t2.key_seq().len() == t1.key_seq().len(),
{
}

/// The rank of the key of rank `k` is `k`.
pub proof fn lemma_rank_select<K: TotalOrder, V>(t: &RedBlackBST<K, V>, k: int)
    requires
        t.wf(),
        0 <= k < t.key_seq().len(),
    ensures
        count_less(t.key_seq(), t.key_seq()[k]) == k,
{
    lemma_rank_of_nth(t.key_seq(), k);
}

/// A stored key is its own floor and its own ceiling; a key below the
/// smallest has no floor, and one above the largest has no ceiling.
pub proof fn lemma_floor_ceiling_bounds<K: TotalOrder, V>(t: &RedBlackBST<K, V>, key: K)
    requires
        t.wf(),
    ensures
        t.key_seq().contains(key) ==> forall|r: Option<K>|
            #[trigger] is_floor(t.key_seq(), key, r) ==> r == Some(key),
        t.key_seq().contains(key) ==> forall|r: Option<K>|
            #[trigger] is_ceiling(t.key_seq(), key, r) ==> r == Some(key),
        t.key_seq().len() > 0 && key.less(t.key_seq()[0]) ==> forall|r: Option<K>|
            #[trigger] is_floor(t.key_seq(), key, r) ==> r is None,
        t.key_seq().len() > 0 && t.key_seq().last().less(key) ==> forall|r: Option<K>|
            #[trigger] is_ceiling(t.key_seq(), key, r) ==> r is None,
{
    let s = t.key_seq();
    K::lemma_irreflexive(key);
    assert forall|r: Option<K>| s.contains(key) && #[trigger] is_floor(s, key, r) implies r == Some(
        key,
    ) by {
        let i = choose|i: int| 0 <= i < s.len() && s[i] == key;
        if let Some(f) = r {
            lemma_order_facts(f, key);
        }
    }
    assert forall|r: Option<K>| s.contains(key) && #[trigger] is_ceiling(s, key, r) implies r
        == Some(key) by {
        let i = choose|i: int| 0 <= i < s.len() && s[i] == key;
        if let Some(c) = r {
            lemma_order_facts(c, key);
        }
    }
    assert forall|r: Option<K>|
        s.len() > 0 && key.less(s[0]) && #[trigger] is_floor(s, key, r) implies r is None by {
        if let Some(f) = r {
            let j = choose|j: int| 0 <= j < s.len() && s[j] == f;
            if j > 0 {
                K::lemma_transitive(key, s[0], s[j]);
            }
            lemma_order_facts(key, f);
        }
    }
    assert forall|r: Option<K>|
        s.len() > 0 && s.last().less(key) && #[trigger] is_ceiling(s, key, r) implies r is None by {
        if let Some(c) = r {
            let j = choose|j: int| 0 <= j < s.len() && s[j] == c;
            if j < s.len() - 1 {
                K::lemma_transitive(s[j], s.last(), key);
            }
            lemma_order_facts(key, c);
        }
    }
}

} // verus!

