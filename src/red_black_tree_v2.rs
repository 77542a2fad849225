//! A second interface to the left-leaning red-black tree: a set of `i64` keys
//! without a size counter.
use vstd::prelude::*;
use crate::red_black_tree::{
    Node, Link, Color, Piece, Violation, keys, ordered, llrb, red, height, size, row_width, colored,
    drawn, drawn_once, inserted, removed, recolor, lemma_shape_of_recolored,
    lemma_size_is_key_count, lemma_colored_keys,
};

verus! {

/// A set of `i64` keys kept in a left-leaning red-black tree.
pub struct RedBlackTree {
    root: Link,
}

impl View for RedBlackTree {
    type V = Set<i64>;

    closed spec fn view(&self) -> Set<i64> {
        keys(self.root)
    }
}

impl RedBlackTree {
    /// The tree is ordered, red-black with a black root, and small enough to
    /// be drawn.
    pub closed spec fn wf(&self) -> bool {
        &&& ordered(self.root)
        &&& llrb(self.root)
        &&& !red(self.root)
        &&& size(self.root) <= usize::MAX / 2
    }

    /// The nodes of the tree: keys, colors and links.
    pub closed spec fn shape(&self) -> Link {
        self.root
    }

    /// The red-black shape holds at every node.
    pub closed spec fn has_shape(&self) -> bool {
        llrb(self.root)
    }

    /// The red-black shape holds at every node and the root is black.
    pub closed spec fn is_red_black(&self) -> bool {
        &&& llrb(self.root)
        &&& !red(self.root)
    }

    pub fn new() -> (r: Self)
        ensures
            r.wf(),
            r.is_red_black(),
            r@.finite(),
            r@ == Set::<i64>::empty(),
    {
        RedBlackTree { root: None }
    }

    pub fn contains(&self, value: &i64) -> (r: bool)
        requires
            self.wf(),
        ensures
            r == self@.contains(*value),
    {
        Node::contains(&self.root, *value)
    }

    /// Adds `value`; returns whether it was absent.
    pub fn insert(&mut self, value: i64) -> (r: bool)
        requires
            old(self).wf(),
            old(self)@.len() < usize::MAX / 2,
        ensures
            final(self).wf(),
            final(self).is_red_black(),
            final(self)@.finite(),
            final(self)@ == old(self)@.insert(value),
            r == !old(self)@.contains(value),
            !r ==> *final(self) == *old(self),
            final(self).shape() == recolor(inserted(old(self).shape(), value).0, Color::Black),
    {
        proof {
            lemma_size_is_key_count(self.root);
        }
        let changed = Node::insert(&mut self.root, value);
        proof {
            lemma_shape_of_recolored(self.root);
        }
        Node::set_color(&mut self.root, Color::Black);
        proof {
            lemma_size_is_key_count(self.root);
        }
        changed
    }

    /// Removes `value`; returns whether it was present.
    pub fn remove(&mut self, value: &i64) -> (r: bool)
        requires
            old(self).wf(),
        ensures
            final(self).wf(),
            final(self).is_red_black(),
            final(self)@.finite(),
            final(self)@ == old(self)@.remove(*value),
            r == old(self)@.contains(*value),
            !r ==> *final(self) == *old(self),
            final(self).shape() == removed(old(self).shape(), *value).0,
    {
        proof {
            lemma_size_is_key_count(self.root);
        }
        let (changed, _double) = Node::remove(&mut self.root, *value);
        proof {
            lemma_size_is_key_count(self.root);
        }
        changed
    }

    /// Checks the red-black shape of the whole tree.
    pub fn check(&self) -> (r: Result<(), Violation>)
        requires
            self.wf(),
        ensures
            r is Ok <==> self.has_shape(),
    {
        match Node::check(&self.root) {
            Ok(_) => Ok(()),
            Err(e) => Err(e),
        }
    }

    /// The number of nodes on the longest path from the root down.
    pub closed spec fn tree_height(&self) -> nat {
        height(self.root)
    }

    /// Each key with the color of its node.
    pub closed spec fn key_colors(&self) -> Set<(i64, Color)> {
        colored(self.root)
    }

    /// The key at the root; meaningful when the tree is not empty.
    pub closed spec fn root_key(&self) -> i64 {
        self.root->0.key
    }

    /// A picture of the tree, one row per level, the root's row first; every
    /// row spans two columns per key.
    pub fn picture(&self) -> (r: Vec<Vec<Piece>>)
        requires
            self.wf(),
        ensures
            r@.len() == self.tree_height(),
            forall|i: int| 0 <= i < r@.len() ==> row_width(#[trigger] r@[i]@) == 2 * self@.len(),
            forall|k: i64, c: Color| drawn(r@, k, c) <==> self.key_colors().contains((k, c)),
            drawn_once(r@),
            forall|k: i64| self@.contains(k) <==> exists|c: Color| #[trigger] self.key_colors().contains((k, c)),
            self@.len() > 0 ==> r@[0]@.contains(Piece::Key(self.root_key(), Color::Black)),
    {
        proof {
            lemma_size_is_key_count(self.root);
            lemma_colored_keys(self.root);
        }
        let (_, _, rows) = Node::show(&self.root);
        proof {
            assert forall|k: i64| self@.contains(k) <==> exists|c: Color| #[trigger] self.key_colors().contains((k, c)) by {
                if self@.contains(k) {
                    let c = choose|c: Color| colored(self.root).contains((k, c));
                    assert(self.key_colors().contains((k, c)));
                }
                if exists|c: Color| #[trigger] self.key_colors().contains((k, c)) {
                    let c = choose|c: Color| self.key_colors().contains((k, c));
                    assert(colored(self.root).contains((k, c)));
                }
            }
            if self.root is None {
                assert(keys(self.root) =~= Set::<i64>::empty());
            } else {
                assert(self.root->0.color == Color::Black);
                assert(rows@[0]@.contains(Piece::Key(self.root->0.key, self.root->0.color)));
            }
        }
        rows
    }
}

/// Every call leaves the tree in a state that `check` accepts.
pub proof fn lemma_check_succeeds(tree: RedBlackTree)
    requires
        tree.wf(),
    ensures
        tree.has_shape(),
{
}

/// The keys of a well-formed tree are those of its nodes, finitely many.
pub proof fn lemma_view_is_shape_keys(tree: RedBlackTree)
    requires
        tree.wf(),
    ensures
        tree@ == keys(tree.shape()),
        tree@.finite(),
        ordered(tree.shape()),
        llrb(tree.shape()),
{
    lemma_size_is_key_count(tree.root);
}

} // verus!
