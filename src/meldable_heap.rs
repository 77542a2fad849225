//! A randomized meldable heap of `i64` values: a heap-ordered binary tree
//! whose merge descends along a randomly chosen side.
use vstd::prelude::*;
use vstd::multiset::Multiset;

verus! {

broadcast use vstd::multiset::group_multiset_properties;

struct Node {
    value: i64,
    left: Link,
    right: Link,
}

type Link = Option<Box<Node>>;

/// The values stored in a subtree, with their multiplicities.
closed spec fn values(t: Link) -> Multiset<i64>
    decreases t,
{
    match t {
        None => Multiset::empty(),
        Some(n) => values(n.left).add(values(n.right)).insert(n.value),
    }
}

/// Every value is at least the root's value, in every subtree.
closed spec fn heap_ordered(t: Link) -> bool
    decreases t,
{
    match t {
        None => true,
        Some(n) => {
            &&& heap_ordered(n.left)
            &&& heap_ordered(n.right)
            &&& forall|v: i64| values(n.left).contains(v) ==> n.value <= v
            &&& forall|v: i64| values(n.right).contains(v) ==> n.value <= v
        },
    }
}

closed spec fn size(t: Link) -> nat
    decreases t,
{
    match t {
        None => 0,
        Some(n) => size(n.left) + size(n.right) + 1,
    }
}

proof fn lemma_size(t: Link)
    ensures
        values(t).len() == size(t),
    decreases t,
{
    if let Some(n) = t {
        lemma_size(n.left);
        lemma_size(n.right);
    }
}

/// The values of a subtree in preorder, each with its depth below `d`.
closed spec fn preorder(t: Link, d: nat) -> Seq<(nat, i64)>
    decreases t,
{
    match t {
        None => Seq::empty(),
        Some(n) => seq![(d, n.value)] + preorder(n.left, d + 1) + preorder(n.right, d + 1),
    }
}

proof fn lemma_preorder_len(t: Link, d: nat)
    ensures
        preorder(t, d).len() == size(t),
    decreases t,
{
    if let Some(n) = t {
        lemma_preorder_len(n.left, d + 1);
        lemma_preorder_len(n.right, d + 1);
    }
}

/// In a heap-ordered subtree the root holds the least value.
proof fn lemma_root_is_least(t: Link)
    requires
        heap_ordered(t),
        t is Some,
    ensures
        forall|v: i64| values(t).contains(v) ==> t->0.value <= v,
{
    let n = t->0;
    assert(values(t) == values(n.left).add(values(n.right)).insert(n.value));
    assert forall|v: i64| values(t).contains(v) implies n.value <= v by {
        if v != n.value {
            assert(values(n.left).add(values(n.right)).contains(v));
            if !values(n.left).contains(v) {
                assert(values(n.right).contains(v));
            }
        }
    }
}

/// A min-heap of `i64` values.
pub struct MeldableHeap {
    root: Link,
    len: usize,
}

impl View for MeldableHeap {
    type V = Multiset<i64>;

    closed spec fn view(&self) -> Multiset<i64> {
        values(self.root)
    }
}

impl MeldableHeap {
    /// The tree is heap-ordered and `len` counts its values.
    pub closed spec fn wf(&self) -> bool {
        &&& heap_ordered(self.root)
        &&& self.len == size(self.root)
    }

    pub fn new() -> (r: Self)
        ensures
            r.wf(),
            r@ == Multiset::<i64>::empty(),
    {
        MeldableHeap { root: None, len: 0 }
    }

    /// Joins two heap-ordered trees into one that holds the values of both.
    fn merge(h1: Link, h2: Link) -> (r: Link)
        requires
            heap_ordered(h1),
            heap_ordered(h2),
        ensures
            heap_ordered(r),
            values(r) == values(h1).add(values(h2)),
        decreases size(h1) + size(h2), if h1 is Some && h2 is Some && h1->0.value > h2->0.value {
            1nat
        } else {
            0nat
        },
    {
        match h1 {
            None => {
                assert(values(h2) =~= values(h1).add(values(h2)));
                h2
            },
            Some(mut b1) => match h2 {
                None => {
                    assert(values(Some(b1)) =~= values(Some(b1)).add(values(h2)));
                    Some(b1)
                },
                Some(b2) => {
                    if b1.value > b2.value {
                        let r = Self::merge(Some(b2), Some(b1));
                        assert(values(r) =~= values(h1).add(values(h2)));
                        return r;
                    }
                    let ghost n1 = *b1;
                    proof {
                        lemma_root_is_least(Some(b2));
                    }
                    if rand::random::<bool>() {
                        let l = b1.left.take();
                        b1.left = Self::merge(l, Some(b2));
                        assert forall|v: i64| values(b1.left).contains(v) implies n1.value <= v by {
                            if !values(n1.left).contains(v) {
                                assert(values(Some(b2)).contains(v));
                            }
                        }
                        assert(values(Some(b1)) =~= values(h1).add(values(h2)));
                    } else {
                        let r = b1.right.take();
                        b1.right = Self::merge(r, Some(b2));
                        assert forall|v: i64| values(b1.right).contains(v) implies n1.value <= v by {
                            if !values(n1.right).contains(v) {
                                assert(values(Some(b2)).contains(v));
                            }
                        }
                        assert(values(Some(b1)) =~= values(h1).add(values(h2)));
                    }
                    Some(b1)
                },
            },
        }
    }

    /// Moves every value of `other` into `self`, leaving `other` empty.
    pub fn append(&mut self, other: &mut MeldableHeap)
        requires
            old(self).wf(),
            old(other).wf(),
            old(self)@.len() + old(other)@.len() <= usize::MAX,
        ensures
            final(self).wf(),
            final(other).wf(),
            final(self)@ == old(self)@.add(old(other)@),
            final(other)@ == Multiset::<i64>::empty(),
    {
        proof {
            lemma_size(self.root);
            lemma_size(other.root);
        }
        let a = self.root.take();
        let b = other.root.take();
        self.root = Self::merge(a, b);
        self.len = self.len + other.len;
        other.len = 0;
        proof {
            lemma_size(self.root);
        }
    }

    /// Adds `value`.
    pub fn insert(&mut self, value: i64)
        requires
            old(self).wf(),
            old(self)@.len() < usize::MAX,
        ensures
            final(self).wf(),
            final(self)@ == old(self)@.insert(value),
    {
        proof {
            lemma_size(self.root);
        }
        let node = Some(Box::new(Node { value, left: None, right: None }));
        assert(values(None) =~= Multiset::<i64>::empty());
        assert(values(node) =~= Multiset::singleton(value));
        assert(heap_ordered(None));
        assert(forall|v: i64| !values(None).contains(v));
        assert(heap_ordered(node));
        let r = self.root.take();
        self.root = Self::merge(node, r);
        self.len = self.len + 1;
        proof {
            lemma_size(self.root);
            assert(values(self.root) =~= values(old(self).root).insert(value));
        }
    }

    /// Removes and returns a least value; `None` when the heap is empty.
    pub fn pop(&mut self) -> (r: Option<i64>)
        requires
            old(self).wf(),
        ensures
            final(self).wf(),
            old(self)@.len() == 0 <==> r is None,
            r is None ==> final(self)@ == old(self)@,
            r is Some ==> {
                &&& old(self)@.contains(r->0)
                &&& forall|v: i64| old(self)@.contains(v) ==> r->0 <= v
                &&& final(self)@ == old(self)@.remove(r->0)
            },
    {
        proof {
            lemma_size(self.root);
        }
        match self.root.take() {
            None => None,
            Some(b) => {
                proof {
                    lemma_root_is_least(Some(b));
                }
                let node = *b;
                self.root = Self::merge(node.left, node.right);
                self.len = self.len - 1;
                proof {
                    lemma_size(self.root);
                    assert(values(self.root) =~= values(old(self).root).remove(node.value));
                }
                Some(node.value)
            },
        }
    }

    /// The values in preorder, each with its depth below `d`, appended to `out`.
    fn collect(t: &Link, d: usize, out: &mut Vec<(usize, i64)>)
        requires
            d + size(*t) <= usize::MAX,
        ensures
            final(out)@.map_values(|p: (usize, i64)| (p.0 as nat, p.1)) == old(out)@.map_values(
                |p: (usize, i64)| (p.0 as nat, p.1),
            ) + preorder(*t, d as nat),
        decreases *t,
    {
        if let Some(n) = t {
            let ghost before = out@;
            out.push((d, n.value));
            Self::collect(&n.left, d + 1, out);
            let ghost mid = out@;
            Self::collect(&n.right, d + 1, out);
            proof {
                let f = |p: (usize, i64)| (p.0 as nat, p.1);
                assert(before.push((d, n.value)).map_values(f) =~= before.map_values(f) + seq![
                    (d as nat, n.value),
                ]);
                assert(out@.map_values(f) =~= before.map_values(f) + preorder(*t, d as nat));
            }
        } else {
            proof {
                let f = |p: (usize, i64)| (p.0 as nat, p.1);
                assert(out@.map_values(f) =~= out@.map_values(f) + preorder(*t, d as nat));
            }
        }
    }

    /// The tree in preorder: `(depth, value)` for each node, the root first.
    pub closed spec fn listing_view(&self) -> Seq<(nat, i64)> {
        preorder(self.root, 0)
    }

    /// Every value with its depth in the tree, in preorder.
    pub fn listing(&self) -> (r: Vec<(usize, i64)>)
        requires
            self.wf(),
        ensures
            r@.map_values(|p: (usize, i64)| (p.0 as nat, p.1)) == self.listing_view(),
            r@.len() == self@.len(),
    {
        let mut out: Vec<(usize, i64)> = Vec::new();
        proof {
            lemma_size(self.root);
            lemma_preorder_len(self.root, 0);
            assert(out@.map_values(|p: (usize, i64)| (p.0 as nat, p.1)) =~= Seq::<(nat, i64)>::empty());
        }
        Self::collect(&self.root, 0, &mut out);
        proof {
            assert(preorder(self.root, 0) =~= Seq::<(nat, i64)>::empty() + preorder(self.root, 0));
        }
        out
    }

    /// The number of values.
    pub fn len(&self) -> (r: usize)
        requires
            self.wf(),
        ensures
            r == self@.len(),
    {
        proof {
            lemma_size(self.root);
        }
        self.len
    }

    pub fn is_empty(&self) -> (r: bool)
        requires
            self.wf(),
        ensures
            r == (self@.len() == 0),
    {
        proof {
            lemma_size(self.root);
        }
        self.root.is_none()
    }
}

} // verus!
