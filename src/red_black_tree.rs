//! A set of `i64` keys stored in a left-leaning red-black tree.
use vstd::prelude::*;
use vstd::arithmetic::power2::{pow2, lemma_pow2_unfold, lemma_pow2_adds, lemma_pow2_strictly_increases};

verus! {

/// The color of the edge that leads into a node from its parent.
#[derive(PartialEq, Eq, Structural, Clone, Copy, Debug)]
pub enum Color {
    Red,
    Black,
}

/// A tree node. An absent child is `None` and counts as black.
pub struct Node {
    pub color: Color,
    pub key: i64,
    pub left: Link,
    pub right: Link,
}

/// An owned, possibly empty, subtree.
pub type Link = Option<Box<Node>>;

/// The subtree with the given root fields.
pub open spec fn mk(color: Color, key: i64, left: Link, right: Link) -> Link {
    Some(Box::new(Node { color, key, left, right }))
}

/// The keys stored in a subtree.
pub open spec fn keys(t: Link) -> Set<i64>
    decreases t,
{
    match t {
        None => Set::empty(),
        Some(n) => keys(n.left).union(keys(n.right)).insert(n.key),
    }
}

/// The number of nodes of a subtree.
pub open spec fn size(t: Link) -> nat
    decreases t,
{
    match t {
        None => 0,
        Some(n) => size(n.left) + size(n.right) + 1,
    }
}

/// Binary-search-tree order: smaller keys on the left, larger on the right.
pub open spec fn ordered(t: Link) -> bool
    decreases t,
{
    match t {
        None => true,
        Some(n) => {
            &&& ordered(n.left)
            &&& ordered(n.right)
            &&& forall|k: i64| keys(n.left).contains(k) ==> k < n.key
            &&& forall|k: i64| keys(n.right).contains(k) ==> n.key < k
        },
    }
}

/// The root is present and red.
pub open spec fn red(t: Link) -> bool {
    t is Some && t->0.color == Color::Red
}

/// The left child of the root; empty for an empty subtree.
pub open spec fn left_of(t: Link) -> Link {
    match t {
        Some(n) => n.left,
        None => None,
    }
}

/// The right child of the root; empty for an empty subtree.
pub open spec fn right_of(t: Link) -> Link {
    match t {
        Some(n) => n.right,
        None => None,
    }
}

/// The subtree with the root's color replaced; an empty subtree stays empty.
pub open spec fn recolor(t: Link, c: Color) -> Link {
    match t {
        Some(n) => mk(c, n.key, n.left, n.right),
        None => None,
    }
}

/// The subtree with the root's left child replaced.
pub open spec fn with_left(t: Link, l: Link) -> Link {
    match t {
        Some(n) => mk(n.color, n.key, l, n.right),
        None => None,
    }
}

/// The subtree with the root's right child replaced.
pub open spec fn with_right(t: Link, r: Link) -> Link {
    match t {
        Some(n) => mk(n.color, n.key, n.left, r),
        None => None,
    }
}

/// A left rotation when the right child is present; otherwise no change.
pub open spec fn rotated_left(t: Link) -> Link {
    match t {
        Some(n) => match n.right {
            Some(r) => mk(r.color, r.key, mk(n.color, n.key, n.left, r.left), r.right),
            None => t,
        },
        None => t,
    }
}

/// A right rotation when the left child is present; otherwise no change.
pub open spec fn rotated_right(t: Link) -> Link {
    match t {
        Some(n) => match n.left {
            Some(l) => mk(l.color, l.key, l.left, mk(n.color, n.key, l.right, n.right)),
            None => t,
        },
        None => t,
    }
}

/// A left rotation in which the two nodes involved keep the colors of their places.
pub open spec fn flipped_left(t: Link) -> Link {
    match t {
        Some(n) => match n.right {
            Some(r) => mk(n.color, r.key, mk(r.color, n.key, n.left, r.left), r.right),
            None => t,
        },
        None => t,
    }
}

/// A right rotation in which the two nodes involved keep the colors of their places.
pub open spec fn flipped_right(t: Link) -> Link {
    match t {
        Some(n) => match n.left {
            Some(l) => mk(n.color, l.key, l.left, mk(l.color, n.key, l.right, n.right)),
            None => t,
        },
        None => t,
    }
}

/// The number of black nodes on the leftmost path of a subtree.
pub open spec fn black_height(t: Link) -> nat
    decreases t,
{
    match t {
        None => 0,
        Some(n) => black_height(n.left) + if n.color == Color::Black {
            1nat
        } else {
            0nat
        },
    }
}

/// The red-black shape at every node: no red node has a red child, a red right
/// child has a red sibling, and both subtrees have the same black height.
pub open spec fn llrb(t: Link) -> bool
    decreases t,
{
    match t {
        None => true,
        Some(n) => {
            &&& llrb(n.left)
            &&& llrb(n.right)
            &&& n.color == Color::Red ==> !red(n.left) && !red(n.right)
            &&& red(n.right) ==> red(n.left)
            &&& black_height(n.left) == black_height(n.right)
        },
    }
}

/// The red-black shape everywhere but at the root, where a red node may have
/// a red left child.
pub open spec fn almost_llrb(t: Link) -> bool {
    match t {
        None => true,
        Some(n) => {
            &&& llrb(n.left)
            &&& llrb(n.right)
            &&& n.color == Color::Red ==> !red(n.right)
            &&& red(n.right) ==> red(n.left)
            &&& black_height(n.left) == black_height(n.right)
        },
    }
}

/// What an insertion makes of a red-black subtree `o`: a non-empty subtree `t`
/// of the same black height, red-black where `o`'s root was black, and
/// otherwise red with at most a red left child too many.
pub open spec fn grown(o: Link, t: Link) -> bool {
    &&& t is Some
    &&& black_height(t) == black_height(o)
    &&& !red(o) ==> llrb(t)
    &&& red(o) ==> red(t) && almost_llrb(t)
}

/// The root red and both of its children black.
pub open spec fn pushed_black(t: Link) -> Link {
    with_right(
        with_left(recolor(t, Color::Red), recolor(left_of(t), Color::Black)),
        recolor(right_of(t), Color::Black),
    )
}

/// Every node has children of equal black height.
pub open spec fn black_balanced(t: Link) -> bool
    decreases t,
{
    match t {
        None => true,
        Some(n) => {
            &&& black_balanced(n.left)
            &&& black_balanced(n.right)
            &&& black_height(n.left) == black_height(n.right)
        },
    }
}

/// What `insert_fixup` makes of a subtree.
pub open spec fn insert_fixed(t: Link) -> Link {
    let t1 = if !red(left_of(t)) && red(right_of(t)) {
        flipped_left(t)
    } else {
        t
    };
    if !red(t1) && red(left_of(t1)) {
        if red(right_of(t1)) {
            if red(left_of(left_of(t1))) || red(left_of(right_of(t1))) {
                pushed_black(t1)
            } else {
                t1
            }
        } else if red(left_of(left_of(t1))) {
            flipped_right(t1)
        } else {
            t1
        }
    } else {
        t1
    }
}

/// The red-black shape everywhere but at the root, where a red right child
/// may stand beside a black left child.
pub open spec fn llrb_but_lean(t: Link) -> bool {
    match t {
        None => true,
        Some(n) => {
            &&& llrb(n.left)
            &&& llrb(n.right)
            &&& n.color == Color::Red ==> !red(n.left) && !red(n.right)
            &&& black_height(n.left) == black_height(n.right)
        },
    }
}

/// What `lean_left` makes of a subtree.
pub open spec fn leaned(t: Link) -> Link {
    if t is Some && !red(left_of(t)) && red(right_of(t)) {
        flipped_left(t)
    } else {
        t
    }
}

/// The black height a subtree with root color `c` and a left child `l` has.
pub open spec fn bh_over(c: Color, l: Link) -> nat {
    black_height(l) + if c == Color::Black {
        1nat
    } else {
        0nat
    }
}

/// A subtree whose left child has lost one black: its right child is black.
pub open spec fn short_left(t: Link) -> bool {
    &&& t is Some
    &&& llrb(left_of(t))
    &&& llrb(right_of(t))
    &&& !red(left_of(t))
    &&& right_of(t) is Some
    &&& !red(right_of(t))
    &&& black_height(left_of(t)) + 1 == black_height(right_of(t))
}

/// A subtree whose right child has lost one black.
pub open spec fn short_right(t: Link) -> bool {
    &&& t is Some
    &&& llrb(left_of(t))
    &&& llrb(right_of(t))
    &&& !red(right_of(t))
    &&& black_height(left_of(t)) == black_height(right_of(t)) + 1
    &&& t->0.color == Color::Red ==> !red(left_of(t))
}

/// What `remove_fixup_left` makes of a subtree, and whether it is still short.
pub open spec fn fixed_left(t: Link) -> (Link, bool) {
    if right_of(t) is Some && !red(right_of(t)) {
        let t1 = flipped_left(with_right(t, recolor(right_of(t), Color::Red)));
        if !red(right_of(left_of(t1))) {
            if red(t1) {
                (recolor(t1, Color::Black), false)
            } else {
                (t1, true)
            }
        } else {
            let t2 = flipped_right(with_left(t1, rotated_left(left_of(t1))));
            let t3 = with_right(
                with_left(t2, recolor(left_of(t2), Color::Black)),
                recolor(right_of(t2), Color::Black),
            );
            if red(right_of(right_of(t3))) {
                (with_right(t3, flipped_left(right_of(t3))), false)
            } else {
                (t3, false)
            }
        }
    } else {
        (t, false)
    }
}

/// What the second case of `remove_fixup_right` makes of a subtree, and
/// whether it is still short.
pub open spec fn fixed_right_black(t: Link) -> (Link, bool) {
    let t1 = flipped_right(with_left(t, recolor(left_of(t), Color::Red)));
    if red(left_of(right_of(t1))) {
        let t2 = flipped_left(with_right(t1, rotated_right(right_of(t1))));
        (
            with_right(
                with_left(t2, recolor(left_of(t2), Color::Black)),
                recolor(right_of(t2), Color::Black),
            ),
            false,
        )
    } else if red(left_of(t1)) {
        (
            with_right(
                with_left(t1, recolor(left_of(t1), Color::Black)),
                recolor(right_of(t1), Color::Black),
            ),
            false,
        )
    } else {
        let t2 = flipped_left(t1);
        if red(t2) {
            (recolor(t2, Color::Black), false)
        } else {
            (t2, true)
        }
    }
}

/// A piece of one row of a picture of the tree: a key is two columns wide.
#[derive(PartialEq, Eq, Structural, Clone, Copy, Debug)]
pub enum Piece {
    /// So many blank columns.
    Blank(usize),
    /// So many columns of the line that joins a node to its children.
    Line(usize),
    /// A key and the color of its node.
    Key(i64, Color),
}

pub open spec fn piece_width(p: Piece) -> nat {
    match p {
        Piece::Blank(n) => n as nat,
        Piece::Line(n) => n as nat,
        Piece::Key(..) => 2,
    }
}

/// The keys of a subtree, each with the color of its node.
pub open spec fn colored(t: Link) -> Set<(i64, Color)>
    decreases t,
{
    match t {
        None => Set::empty(),
        Some(n) => colored(n.left).union(colored(n.right)).insert((n.key, n.color)),
    }
}

/// A key is in a subtree exactly when it is there in some color.
pub(crate) proof fn lemma_colored_keys(t: Link)
    ensures
        forall|k: i64| keys(t).contains(k) <==> exists|c: Color| #[trigger] colored(t).contains((k, c)),
    decreases t,
{
    if let Some(n) = t {
        lemma_colored_keys(n.left);
        lemma_colored_keys(n.right);
        assert(keys(t) == keys(n.left).union(keys(n.right)).insert(n.key));
        assert forall|k: i64| keys(t).contains(k) implies exists|c: Color| #[trigger] colored(t).contains((k, c)) by {
            if k == n.key {
                assert(colored(t).contains((k, n.color)));
            } else if keys(n.left).contains(k) {
                let c = choose|c: Color| colored(n.left).contains((k, c));
                assert(colored(t).contains((k, c)));
            } else {
                assert(keys(n.right).contains(k));
                let c = choose|c: Color| colored(n.right).contains((k, c));
                assert(colored(t).contains((k, c)));
            }
        }
        assert forall|k: i64| (exists|c: Color| #[trigger] colored(t).contains((k, c))) implies keys(t).contains(k) by {
            let c = choose|c: Color| colored(t).contains((k, c));
            if (k, c) != (n.key, n.color) {
                if colored(n.left).contains((k, c)) {
                    assert(keys(n.left).contains(k));
                } else {
                    assert(keys(n.right).contains(k));
                }
            }
        }
    }
}

/// Some row of the picture shows key `k` in color `c`.
pub open spec fn drawn(rows: Seq<Vec<Piece>>, k: i64, c: Color) -> bool {
    exists|i: int, j: int|
        0 <= i < rows.len() && 0 <= j < rows[i]@.len() && #[trigger] rows[i]@[j] == Piece::Key(k, c)
}

/// No key is drawn at two places.
pub open spec fn drawn_once(rows: Seq<Vec<Piece>>) -> bool {
    forall|i1: int, j1: int, i2: int, j2: int|
        0 <= i1 < rows.len() && 0 <= j1 < rows[i1]@.len() && 0 <= i2 < rows.len() && 0 <= j2
            < rows[i2]@.len() && (#[trigger] rows[i1]@[j1]) is Key && (#[trigger] rows[i2]@[j2]) is Key
            && rows[i1]@[j1]->Key_0 == rows[i2]@[j2]->Key_0 ==> i1 == i2 && j1 == j2
}

/// Row `x` of one side of a picture, or a blank of its width below its last row.
pub open spec fn side_row(rows: Seq<Vec<Piece>>, x: int, w: usize) -> Seq<Piece> {
    if x < rows.len() {
        rows[x]@
    } else {
        seq![Piece::Blank(w)]
    }
}

/// Where a key drawn in a joined row comes from: the left or the right side.
proof fn lemma_joined_key(
    left: Seq<Vec<Piece>>,
    right: Seq<Vec<Piece>>,
    l: usize,
    r: usize,
    x: int,
    row: Seq<Piece>,
    b: int,
    k: i64,
    c: Color,
)
    requires
        0 <= x,
        row == side_row(left, x, l) + seq![Piece::Blank(2)] + side_row(right, x, r),
        0 <= b < row.len(),
        row[b] == Piece::Key(k, c),
    ensures
        (b < side_row(left, x, l).len() && x < left.len() && left[x]@[b] == Piece::Key(k, c)) || (b
            > side_row(left, x, l).len() && x < right.len() && right[x]@[b - side_row(left, x, l).len()
            - 1] == Piece::Key(k, c)),
{
    let lp = side_row(left, x, l);
    if b < lp.len() {
        assert(row[b] == lp[b]);
    } else if b == lp.len() {
        assert(row[b] == Piece::Blank(2));
    } else {
        assert(row[b] == side_row(right, x, r)[b - lp.len() - 1]);
    }
}

/// Every key drawn in a picture of `t` is a key of `t`.
proof fn lemma_drawn_keys(rows: Seq<Vec<Piece>>, t: Link)
    requires
        forall|k: i64, c: Color| drawn(rows, k, c) <==> colored(t).contains((k, c)),
    ensures
        forall|x: int, j: int|
            0 <= x < rows.len() && 0 <= j < rows[x]@.len() && (#[trigger] rows[x]@[j]) is Key
                ==> keys(t).contains(rows[x]@[j]->Key_0),
{
    lemma_colored_keys(t);
    assert forall|x: int, j: int|
        0 <= x < rows.len() && 0 <= j < rows[x]@.len() && (#[trigger] rows[x]@[j]) is Key implies keys(
        t,
    ).contains(rows[x]@[j]->Key_0) by {
        let k = rows[x]@[j]->Key_0;
        let c = rows[x]@[j]->Key_1;
        assert(rows[x]@[j] == Piece::Key(k, c));
        assert(drawn(rows, k, c));
        assert(colored(t).contains((k, c)));
    }
}

/// A picture joined from a root row and the rows of two sides, whose keys are
/// below and above the root's, draws each key once if each side does.
proof fn lemma_drawn_once(
    v: Seq<Vec<Piece>>,
    left: Seq<Vec<Piece>>,
    right: Seq<Vec<Piece>>,
    l: usize,
    r: usize,
    root: i64,
    lkeys: Set<i64>,
    rkeys: Set<i64>,
)
    requires
        v.len() >= 1,
        forall|b: int| 0 <= b < v[0]@.len() && (#[trigger] v[0]@[b]) is Key ==> b == 2 && v[0]@[b]->Key_0 == root,
        forall|x: int|
            0 <= x < v.len() - 1 ==> (#[trigger] v[x + 1])@ == side_row(left, x, l) + seq![Piece::Blank(2)]
                + side_row(right, x, r),
        drawn_once(left),
        drawn_once(right),
        forall|x: int, j: int|
            0 <= x < left.len() && 0 <= j < left[x]@.len() && (#[trigger] left[x]@[j]) is Key
                ==> lkeys.contains(left[x]@[j]->Key_0),
        forall|x: int, j: int|
            0 <= x < right.len() && 0 <= j < right[x]@.len() && (#[trigger] right[x]@[j]) is Key
                ==> rkeys.contains(right[x]@[j]->Key_0),
        forall|k: i64| lkeys.contains(k) ==> k < root,
        forall|k: i64| rkeys.contains(k) ==> root < k,
    ensures
        drawn_once(v),
{
    assert forall|a1: int, b1: int, a2: int, b2: int|
        0 <= a1 < v.len() && 0 <= b1 < v[a1]@.len() && 0 <= a2 < v.len() && 0 <= b2 < v[a2]@.len()
            && (#[trigger] v[a1]@[b1]) is Key && (#[trigger] v[a2]@[b2]) is Key && v[a1]@[b1]->Key_0
            == v[a2]@[b2]->Key_0 implies a1 == a2 && b1 == b2 by {
        let k = v[a1]@[b1]->Key_0;
        let c1 = v[a1]@[b1]->Key_1;
        let c2 = v[a2]@[b2]->Key_1;
        assert(v[a1]@[b1] == Piece::Key(k, c1));
        assert(v[a2]@[b2] == Piece::Key(k, c2));
        let w1 = side_row(left, a1 - 1, l).len();
        let w2 = side_row(left, a2 - 1, l).len();
        if a1 > 0 {
            let x = a1 - 1;
            assert(v[x + 1] == v[a1]);
            assert(v[a1]@ == side_row(left, x, l) + seq![Piece::Blank(2)] + side_row(right, x, r));
            lemma_joined_key(left, right, l, r, a1 - 1, v[a1]@, b1, k, c1);
            if b1 < w1 {
                assert(left[a1 - 1]@[b1] is Key);
            } else {
                assert(right[a1 - 1]@[b1 - w1 - 1] is Key);
            }
        }
        if a2 > 0 {
            let x = a2 - 1;
            assert(v[x + 1] == v[a2]);
            assert(v[a2]@ == side_row(left, x, l) + seq![Piece::Blank(2)] + side_row(right, x, r));
            lemma_joined_key(left, right, l, r, a2 - 1, v[a2]@, b2, k, c2);
            if b2 < w2 {
                assert(left[a2 - 1]@[b2] is Key);
            } else {
                assert(right[a2 - 1]@[b2 - w2 - 1] is Key);
            }
        }
        if a1 > 0 && a2 > 0 && b1 > w1 && b2 > w2 {
            assert(right[a1 - 1]@[b1 - w1 - 1] is Key);
            assert(right[a2 - 1]@[b2 - w2 - 1] is Key);
        }
    }
}

/// The number of columns a row of pieces spans.
pub open spec fn row_width(s: Seq<Piece>) -> nat
    decreases s.len(),
{
    if s.len() == 0 {
        0
    } else {
        row_width(s.drop_last()) + piece_width(s.last())
    }
}

proof fn lemma_row_width_push(s: Seq<Piece>, p: Piece)
    ensures
        row_width(s.push(p)) == row_width(s) + piece_width(p),
{
    assert(s.push(p).drop_last() =~= s);
}

/// Some red node has a red child.
pub open spec fn has_red_red(t: Link) -> bool
    decreases t,
{
    match t {
        None => false,
        Some(n) => (n.color == Color::Red && (red(n.left) || red(n.right))) || has_red_red(n.left)
            || has_red_red(n.right),
    }
}

/// Some node has a red right child beside a black left child.
pub open spec fn has_right_lean(t: Link) -> bool
    decreases t,
{
    match t {
        None => false,
        Some(n) => (!red(n.left) && red(n.right)) || has_right_lean(n.left) || has_right_lean(
            n.right,
        ),
    }
}

/// Some node has children of different black heights.
pub open spec fn has_unequal_black_heights(t: Link) -> bool
    decreases t,
{
    match t {
        None => false,
        Some(n) => black_height(n.left) != black_height(n.right) || has_unequal_black_heights(
            n.left,
        ) || has_unequal_black_heights(n.right),
    }
}

/// What `remove_fixup_right` makes of a subtree that is not a black node
/// with a red left child, and whether it is still short.
pub open spec fn fixed_right_other(t: Link) -> (Link, bool) {
    if left_of(t) is Some && !red(left_of(t)) && !red(right_of(t)) {
        fixed_right_black(t)
    } else {
        (t, false)
    }
}

/// What `remove_fixup_right` makes of a subtree, and whether it is still
/// short. A black node with a red left child is turned right first; its old
/// root, now the red right child, is then repaired without recursing further.
pub open spec fn fixed_right(t: Link) -> (Link, bool) {
    if !red(t) && red(left_of(t)) {
        let t1 = flipped_right(t);
        (with_right(t1, fixed_right_other(right_of(t1)).0), false)
    } else {
        fixed_right_other(t)
    }
}

/// What `insert` makes of a subtree, and whether the key was new.
pub open spec fn inserted(t: Link, key: i64) -> (Link, bool)
    decreases t,
{
    match t {
        None => (mk(Color::Red, key, None, None), true),
        Some(n) => if key < n.key {
            let sub = inserted(n.left, key);
            let t1 = mk(n.color, n.key, sub.0, n.right);
            if sub.1 {
                (insert_fixed(t1), true)
            } else {
                (t1, false)
            }
        } else if n.key < key {
            let sub = inserted(n.right, key);
            let t1 = mk(n.color, n.key, n.left, sub.0);
            if sub.1 {
                (insert_fixed(t1), true)
            } else {
                (t1, false)
            }
        } else {
            (t, false)
        },
    }
}

/// The last steps of a removal at one node: restore left-leaning, then let a
/// red root absorb a deficit.
pub open spec fn removal_finished(t: Link, removed: bool, double: bool) -> (Link, bool, bool) {
    let t3 = leaned(t);
    if double && red(t3) {
        (recolor(t3, Color::Black), removed, false)
    } else {
        (t3, removed, double)
    }
}

/// What `remove_min` makes of a non-empty subtree: the subtree, the key taken
/// out, and whether the subtree is one black short.
pub open spec fn removed_min(t: Link) -> (Link, i64, bool)
    decreases t,
{
    match t {
        None => (None, 0, false),
        Some(n) => if n.left is None {
            if n.color == Color::Black && red(n.right) {
                (recolor(n.right, Color::Black), n.key, false)
            } else {
                (n.right, n.key, n.color == Color::Black)
            }
        } else {
            let sub = removed_min(n.left);
            let t1 = mk(n.color, n.key, sub.0, n.right);
            let f = if sub.2 {
                fixed_left(t1)
            } else {
                (t1, false)
            };
            (leaned(f.0), sub.1, f.1)
        },
    }
}

/// What `remove` makes of a subtree: the subtree, whether `key` was there,
/// and whether the subtree is one black short. A node with two children takes
/// the least key of its right subtree in place of its own.
pub open spec fn removed(t: Link, key: i64) -> (Link, bool, bool)
    decreases t,
{
    match t {
        None => (None, false, false),
        Some(n) => if key < n.key {
            let sub = removed(n.left, key);
            let t1 = mk(n.color, n.key, sub.0, n.right);
            let f = if sub.2 {
                fixed_left(t1)
            } else {
                (t1, false)
            };
            removal_finished(f.0, sub.1, f.1)
        } else if n.key < key {
            let sub = removed(n.right, key);
            let t1 = mk(n.color, n.key, n.left, sub.0);
            let f = if sub.2 {
                fixed_right(t1)
            } else {
                (t1, false)
            };
            removal_finished(f.0, sub.1, f.1)
        } else if n.right is None {
            removal_finished(n.left, true, n.color == Color::Black)
        } else {
            let m = removed_min(n.right);
            let t1 = mk(n.color, m.1, n.left, m.0);
            let f = if m.2 {
                fixed_right(t1)
            } else {
                (t1, false)
            };
            removal_finished(f.0, true, f.1)
        },
    }
}

/// The number of nodes on the longest path from the root down.
pub open spec fn height(t: Link) -> nat
    decreases t,
{
    match t {
        None => 0,
        Some(n) => 1 + if height(n.left) >= height(n.right) {
            height(n.left)
        } else {
            height(n.right)
        },
    }
}

pub proof fn lemma_height_bound(t: Link)
    ensures
        height(t) <= size(t),
    decreases t,
{
    if let Some(n) = t {
        lemma_height_bound(n.left);
        lemma_height_bound(n.right);
    }
}

pub proof fn lemma_black_height_bound(t: Link)
    ensures
        black_height(t) <= size(t),
    decreases t,
{
    if let Some(n) = t {
        lemma_black_height_bound(n.left);
    }
}

/// In an ordered subtree every node holds a distinct key.
pub proof fn lemma_size_is_key_count(t: Link)
    requires
        ordered(t),
    ensures
        keys(t).finite(),
        keys(t).len() == size(t),
    decreases t,
{
    if let Some(n) = t {
        lemma_size_is_key_count(n.left);
        lemma_size_is_key_count(n.right);
        assert(keys(n.left).disjoint(keys(n.right))) by {
            assert forall|k: i64| keys(n.left).contains(k) implies !keys(n.right).contains(k) by {}
        }
        vstd::set_lib::lemma_set_disjoint_lens(keys(n.left), keys(n.right));
        assert(!keys(n.left).union(keys(n.right)).contains(n.key));
    }
}

proof fn lemma_rotations(t: Link)
    ensures
        keys(rotated_left(t)) == keys(t),
        keys(rotated_right(t)) == keys(t),
        keys(flipped_left(t)) == keys(t),
        keys(flipped_right(t)) == keys(t),
        size(rotated_left(t)) == size(t),
        size(rotated_right(t)) == size(t),
        size(flipped_left(t)) == size(t),
        size(flipped_right(t)) == size(t),
        ordered(t) ==> {
            &&& ordered(rotated_left(t))
            &&& ordered(rotated_right(t))
            &&& ordered(flipped_left(t))
            &&& ordered(flipped_right(t))
        },
{
    if let Some(n) = t {
        if let Some(r) = n.right {
            let a = mk(n.color, n.key, n.left, r.left);
            let a2 = mk(r.color, n.key, n.left, r.left);
            assert(keys(n.right) == keys(r.left).union(keys(r.right)).insert(r.key));
            assert(keys(a) =~= keys(n.left).union(keys(r.left)).insert(n.key));
            assert(keys(a2) =~= keys(n.left).union(keys(r.left)).insert(n.key));
            assert(keys(rotated_left(t)) == keys(a).union(keys(r.right)).insert(r.key));
            assert(keys(flipped_left(t)) == keys(a2).union(keys(r.right)).insert(r.key));
            assert(keys(rotated_left(t)) =~= keys(t));
            assert(keys(flipped_left(t)) =~= keys(t));
            assert(size(n.right) == size(r.left) + size(r.right) + 1);
            assert(size(a2) == size(a));
            if ordered(t) {
                assert(ordered(n.right));
                assert(ordered(r.left));
                assert forall|k: i64| keys(r.left).contains(k) implies n.key < k by {
                    assert(keys(n.right).contains(k));
                }
                assert(ordered(a));
                assert(ordered(a2));
                assert(keys(n.right).contains(r.key));
                assert forall|k: i64| keys(a).contains(k) implies k < r.key by {
                    if keys(n.left).contains(k) {
                        assert(k < n.key);
                    }
                }
            }
        }
        if let Some(l) = n.left {
            let b = mk(n.color, n.key, l.right, n.right);
            let b2 = mk(l.color, n.key, l.right, n.right);
            assert(keys(n.left) == keys(l.left).union(keys(l.right)).insert(l.key));
            assert(keys(b) =~= keys(l.right).union(keys(n.right)).insert(n.key));
            assert(keys(b2) =~= keys(l.right).union(keys(n.right)).insert(n.key));
            assert(keys(rotated_right(t)) == keys(l.left).union(keys(b)).insert(l.key));
            assert(keys(flipped_right(t)) == keys(l.left).union(keys(b2)).insert(l.key));
            assert(keys(rotated_right(t)) =~= keys(t));
            assert(keys(flipped_right(t)) =~= keys(t));
            assert(size(n.left) == size(l.left) + size(l.right) + 1);
            assert(size(b2) == size(b));
            if ordered(t) {
                assert(ordered(n.left));
                assert(ordered(l.right));
                assert forall|k: i64| keys(l.right).contains(k) implies k < n.key by {
                    assert(keys(n.left).contains(k));
                }
                assert(ordered(b));
                assert(ordered(b2));
                assert(keys(n.left).contains(l.key));
                assert forall|k: i64| keys(b).contains(k) implies l.key < k by {
                    if keys(n.right).contains(k) {
                        assert(n.key < k);
                    }
                }
            }
        }
    }
}

proof fn lemma_recolor(t: Link, c: Color)
    ensures
        keys(recolor(t, c)) == keys(t),
        size(recolor(t, c)) == size(t),
        ordered(t) ==> ordered(recolor(t, c)),
{
}

proof fn lemma_with_left(t: Link, l: Link)
    requires
        keys(l) == keys(left_of(t)),
        size(l) == size(left_of(t)),
    ensures
        keys(with_left(t, l)) == keys(t),
        size(with_left(t, l)) == size(t),
        ordered(t) && ordered(l) ==> ordered(with_left(t, l)),
{
}

proof fn lemma_with_right(t: Link, r: Link)
    requires
        keys(r) == keys(right_of(t)),
        size(r) == size(right_of(t)),
    ensures
        keys(with_right(t, r)) == keys(t),
        size(with_right(t, r)) == size(t),
        ordered(t) && ordered(r) ==> ordered(with_right(t, r)),
{
}

proof fn lemma_llrb_unfold(t: Link)
    ensures
        t is None ==> llrb(t) && black_height(t) == 0,
        t is Some ==> llrb(t) == ({
            &&& llrb(t->0.left)
            &&& llrb(t->0.right)
            &&& t->0.color == Color::Red ==> !red(t->0.left) && !red(t->0.right)
            &&& red(t->0.right) ==> red(t->0.left)
            &&& black_height(t->0.left) == black_height(t->0.right)
        }),
        t is Some ==> black_height(t) == black_height(t->0.left) + if t->0.color == Color::Black {
            1nat
        } else {
            0nat
        },
{
}

proof fn lemma_black_root(t: Link)
    requires
        !red(t),
        black_height(t) == 0,
    ensures
        t is None,
{
    if let Some(n) = t {
        lemma_llrb_unfold(t);
    }
}

proof fn lemma_leaned(t: Link)
    requires
        llrb_but_lean(t),
    ensures
        llrb(leaned(t)),
        black_height(leaned(t)) == black_height(t),
        red(leaned(t)) == red(t),
        llrb(t) ==> leaned(t) == t,
{
    if let Some(x) = t {
        lemma_llrb_unfold(t);
        if !red(x.left) && red(x.right) {
            let r = flipped_left(t);
            lemma_llrb_unfold(x.right);
            lemma_llrb_unfold(r);
            lemma_llrb_unfold(left_of(r));
        }
    }
}

proof fn lemma_fixed_left(t: Link)
    requires
        short_left(t),
    ensures
        ({
            let (r, d) = fixed_left(t);
            &&& llrb(r)
            &&& red(r) ==> red(t)
            &&& d ==> !red(t) && !red(r)
            &&& black_height(r) + (if d {
                1nat
            } else {
                0nat
            }) == bh_over(t->0.color, right_of(t))
        }),
{
    let x = t->0;
    let rr = x.right->0;
    lemma_llrb_unfold(t);
    lemma_llrb_unfold(x.right);
    lemma_llrb_unfold(x.left);
    lemma_llrb_unfold(rr.left);
    lemma_llrb_unfold(rr.right);
    let t1 = flipped_left(with_right(t, recolor(right_of(t), Color::Red)));
    lemma_llrb_unfold(t1);
    lemma_llrb_unfold(left_of(t1));
    if !red(rr.left) {
        assert(!red(rr.right));
        if red(t1) {
            lemma_llrb_unfold(recolor(t1, Color::Black));
        }
    } else {
        let rl = rr.left->0;
        lemma_llrb_unfold(rl.left);
        lemma_llrb_unfold(rl.right);
        let t2 = flipped_right(with_left(t1, rotated_left(left_of(t1))));
        let t3 = with_right(
            with_left(t2, recolor(left_of(t2), Color::Black)),
            recolor(right_of(t2), Color::Black),
        );
        lemma_llrb_unfold(t3);
        lemma_llrb_unfold(left_of(t3));
        lemma_llrb_unfold(right_of(t3));
        if red(right_of(right_of(t3))) {
            let t4 = with_right(t3, flipped_left(right_of(t3)));
            lemma_llrb_unfold(t4);
            lemma_llrb_unfold(right_of(t4));
            lemma_llrb_unfold(left_of(right_of(t4)));
        }
    }
}

proof fn lemma_fixed_right_black(t: Link)
    requires
        short_right(t),
        left_of(t) is Some,
        !red(left_of(t)),
    ensures
        ({
            let (r, d) = fixed_right_black(t);
            &&& llrb(r)
            &&& red(r) ==> red(t)
            &&& d ==> !red(t) && !red(r)
            &&& black_height(r) + (if d {
                1nat
            } else {
                0nat
            }) == bh_over(t->0.color, left_of(t))
        }),
{
    let x = t->0;
    let ll = x.left->0;
    lemma_llrb_unfold(t);
    lemma_llrb_unfold(x.left);
    lemma_llrb_unfold(x.right);
    lemma_llrb_unfold(ll.left);
    lemma_llrb_unfold(ll.right);
    let t1 = flipped_right(with_left(t, recolor(left_of(t), Color::Red)));
    lemma_llrb_unfold(t1);
    lemma_llrb_unfold(right_of(t1));
    if red(left_of(right_of(t1))) {
        let lr = ll.right->0;
        lemma_llrb_unfold(lr.left);
        lemma_llrb_unfold(lr.right);
        let t2 = flipped_left(with_right(t1, rotated_right(right_of(t1))));
        let r = with_right(
            with_left(t2, recolor(left_of(t2), Color::Black)),
            recolor(right_of(t2), Color::Black),
        );
        lemma_llrb_unfold(r);
        lemma_llrb_unfold(left_of(r));
        lemma_llrb_unfold(right_of(r));
    } else if red(left_of(t1)) {
        let r = with_right(
            with_left(t1, recolor(left_of(t1), Color::Black)),
            recolor(right_of(t1), Color::Black),
        );
        lemma_llrb_unfold(r);
        lemma_llrb_unfold(left_of(r));
        lemma_llrb_unfold(right_of(r));
    } else {
        let t2 = flipped_left(t1);
        lemma_llrb_unfold(t2);
        lemma_llrb_unfold(left_of(t2));
        if red(t2) {
            lemma_llrb_unfold(recolor(t2, Color::Black));
        }
    }
}

proof fn lemma_balanced_unfold(t: Link)
    ensures
        t is None ==> black_balanced(t) && black_height(t) == 0,
        t is Some ==> black_balanced(t) == ({
            &&& black_balanced(t->0.left)
            &&& black_balanced(t->0.right)
            &&& black_height(t->0.left) == black_height(t->0.right)
        }),
        t is Some ==> black_height(t) == black_height(t->0.left) + if t->0.color == Color::Black {
            1nat
        } else {
            0nat
        },
{
}

/// `insert_fixup` keeps black balance and black height, and leaves no red
/// right child beside a black left one.
proof fn lemma_insert_fixed_balanced(t: Link)
    requires
        black_balanced(t),
    ensures
        black_balanced(insert_fixed(t)),
        black_height(insert_fixed(t)) == black_height(t),
        red(right_of(insert_fixed(t))) ==> red(left_of(insert_fixed(t))),
{
    if t is None {
        return;
    }
    lemma_balanced_unfold(t);
    lemma_balanced_unfold(left_of(t));
    lemma_balanced_unfold(right_of(t));
    let t1 = if !red(left_of(t)) && red(right_of(t)) {
        flipped_left(t)
    } else {
        t
    };
    if !red(left_of(t)) && red(right_of(t)) {
        let rr = right_of(t)->0;
        lemma_balanced_unfold(rr.left);
        lemma_balanced_unfold(rr.right);
        lemma_balanced_unfold(t1);
        lemma_balanced_unfold(left_of(t1));
        lemma_balanced_unfold(right_of(t1));
    }
    assert(black_balanced(t1) && black_height(t1) == black_height(t));
    assert(!(!red(left_of(t1)) && red(right_of(t1))));
    lemma_balanced_unfold(t1);
    lemma_balanced_unfold(left_of(t1));
    lemma_balanced_unfold(right_of(t1));
    if !red(t1) && red(left_of(t1)) {
        if red(right_of(t1)) {
            if red(left_of(left_of(t1))) || red(left_of(right_of(t1))) {
                let r = pushed_black(t1);
                lemma_balanced_unfold(r);
                lemma_balanced_unfold(left_of(r));
                lemma_balanced_unfold(right_of(r));
            }
        } else if red(left_of(left_of(t1))) {
            let ll = left_of(t1)->0;
            lemma_balanced_unfold(ll.left);
            lemma_balanced_unfold(ll.right);
            let r = flipped_right(t1);
            lemma_balanced_unfold(r);
            lemma_balanced_unfold(left_of(r));
            lemma_balanced_unfold(right_of(r));
        }
    }
}

/// One insertion below a red-black subtree, then `insert_fixup`, gives a grown
/// subtree.
proof fn lemma_insert_fixed(o: Link, t: Link, on_left: bool)
    requires
        llrb(o),
        o is Some,
        on_left ==> t == with_left(o, left_of(t)) && grown(left_of(o), left_of(t)),
        !on_left ==> t == with_right(o, right_of(t)) && grown(right_of(o), right_of(t)),
    ensures
        grown(o, insert_fixed(t)),
{
    let x = o->0;
    lemma_llrb_unfold(o);
    lemma_llrb_unfold(t);
    if on_left {
        let l2 = left_of(t);
        lemma_llrb_unfold(l2);
        if red(o) {
            assert(insert_fixed(t) == t);
        } else if red(x.left) {
            if red(x.right) {
                lemma_llrb_unfold(x.right);
                assert(!red(left_of(x.right)));
                if red(left_of(l2)) {
                    let r = pushed_black(t);
                    assert(insert_fixed(t) == r);
                    lemma_llrb_unfold(r);
                    lemma_llrb_unfold(left_of(r));
                    lemma_llrb_unfold(right_of(r));
                } else {
                    assert(insert_fixed(t) == t);
                }
            } else {
                if red(left_of(l2)) {
                    let r = flipped_right(t);
                    assert(insert_fixed(t) == r);
                    lemma_llrb_unfold(r);
                    lemma_llrb_unfold(right_of(r));
                } else {
                    assert(insert_fixed(t) == t);
                }
            }
        } else {
            assert(!red(x.right));
            assert(insert_fixed(t) == t);
        }
    } else {
        let r2 = right_of(t);
        lemma_llrb_unfold(r2);
        if red(o) {
            assert(!red(x.left));
            if red(r2) {
                let r = flipped_left(t);
                assert(insert_fixed(t) == r);
                lemma_llrb_unfold(r);
                lemma_llrb_unfold(left_of(r));
            } else {
                assert(insert_fixed(t) == t);
            }
        } else if red(x.left) {
            lemma_llrb_unfold(x.left);
            assert(!red(left_of(x.left)));
            if red(r2) && red(left_of(r2)) {
                let r = pushed_black(t);
                assert(insert_fixed(t) == r);
                lemma_llrb_unfold(r);
                lemma_llrb_unfold(left_of(r));
                lemma_llrb_unfold(right_of(r));
            } else {
                assert(insert_fixed(t) == t);
            }
        } else {
            if red(r2) {
                let r = flipped_left(t);
                assert(!red(left_of(r2)));
                assert(insert_fixed(t) == r);
                lemma_llrb_unfold(r);
                lemma_llrb_unfold(left_of(r));
            } else {
                assert(insert_fixed(t) == t);
            }
        }
    }
}

impl Node {
    pub(crate) fn is_red(t: &Link) -> (r: bool)
        ensures
            r == red(*t),
    {
        match t {
            Some(n) => n.color == Color::Red,
            None => false,
        }
    }

    pub(crate) fn is_black(t: &Link) -> (r: bool)
        ensures
            r == !red(*t),
    {
        !Self::is_red(t)
    }

    pub(crate) fn is_null(t: &Link) -> (r: bool)
        ensures
            r == (*t is None),
    {
        t.is_none()
    }

    pub(crate) fn left(t: &Link) -> (r: &Link)
        ensures
            *r == left_of(*t),
    {
        match t {
            Some(n) => &n.left,
            None => t,
        }
    }

    pub(crate) fn right(t: &Link) -> (r: &Link)
        ensures
            *r == right_of(*t),
    {
        match t {
            Some(n) => &n.right,
            None => t,
        }
    }

    pub(crate) fn set_color(t: &mut Link, c: Color)
        ensures
            *final(t) == recolor(*old(t), c),
            keys(*final(t)) == keys(*old(t)),
            size(*final(t)) == size(*old(t)),
            ordered(*old(t)) ==> ordered(*final(t)),
    {
        proof {
            lemma_recolor(*old(t), c);
        }
        if let Some(mut n) = t.take() {
            n.color = c;
            *t = Some(n);
        }
    }

    /// Rotates left:
    ///    u          w
    ///  w   c  <=  a   u
    /// a b            b c
    pub(crate) fn rotate_left(t: &mut Link)
        ensures
            *final(t) == rotated_left(*old(t)),
            keys(*final(t)) == keys(*old(t)),
            size(*final(t)) == size(*old(t)),
            ordered(*old(t)) ==> ordered(*final(t)),
    {
        proof {
            lemma_rotations(*old(t));
        }
        if let Some(mut w) = t.take() {
            match w.right.take() {
                Some(mut u) => {
                    w.right = u.left.take();
                    u.left = Some(w);
                    *t = Some(u);
                },
                None => {
                    *t = Some(w);
                },
            }
        }
    }

    /// Rotates right, the mirror image of `rotate_left`.
    pub(crate) fn rotate_right(t: &mut Link)
        ensures
            *final(t) == rotated_right(*old(t)),
            keys(*final(t)) == keys(*old(t)),
            size(*final(t)) == size(*old(t)),
            ordered(*old(t)) ==> ordered(*final(t)),
    {
        proof {
            lemma_rotations(*old(t));
        }
        if let Some(mut u) = t.take() {
            match u.left.take() {
                Some(mut w) => {
                    u.left = w.right.take();
                    w.right = Some(u);
                    *t = Some(w);
                },
                None => {
                    *t = Some(u);
                },
            }
        }
    }

    /// Swaps the colors of the root and its right child, then rotates left.
    pub(crate) fn flip_left(t: &mut Link)
        ensures
            *final(t) == flipped_left(*old(t)),
            keys(*final(t)) == keys(*old(t)),
            size(*final(t)) == size(*old(t)),
            ordered(*old(t)) ==> ordered(*final(t)),
    {
        proof {
            lemma_rotations(*old(t));
        }
        if let Some(mut n) = t.take() {
            if let Some(mut r) = n.right.take() {
                let c = n.color;
                n.color = r.color;
                r.color = c;
                n.right = Some(r);
            }
            *t = Some(n);
        }
        Self::rotate_left(t);
    }

    /// Swaps the colors of the root and its left child, then rotates right.
    pub(crate) fn flip_right(t: &mut Link)
        ensures
            *final(t) == flipped_right(*old(t)),
            keys(*final(t)) == keys(*old(t)),
            size(*final(t)) == size(*old(t)),
            ordered(*old(t)) ==> ordered(*final(t)),
    {
        proof {
            lemma_rotations(*old(t));
        }
        if let Some(mut n) = t.take() {
            if let Some(mut l) = n.left.take() {
                let c = n.color;
                n.color = l.color;
                l.color = c;
                n.left = Some(l);
            }
            *t = Some(n);
        }
        Self::rotate_right(t);
    }

    /// Recolors the left child of the root, if both are present.
    pub(crate) fn set_left_color(t: &mut Link, c: Color)
        ensures
            *final(t) == with_left(*old(t), recolor(left_of(*old(t)), c)),
            keys(*final(t)) == keys(*old(t)),
            size(*final(t)) == size(*old(t)),
            ordered(*old(t)) ==> ordered(*final(t)),
    {
        proof {
            lemma_recolor(left_of(*old(t)), c);
            lemma_with_left(*old(t), recolor(left_of(*old(t)), c));
        }
        if let Some(mut n) = t.take() {
            Self::set_color(&mut n.left, c);
            *t = Some(n);
        }
    }

    /// Recolors the right child of the root, if both are present.
    pub(crate) fn set_right_color(t: &mut Link, c: Color)
        ensures
            *final(t) == with_right(*old(t), recolor(right_of(*old(t)), c)),
            keys(*final(t)) == keys(*old(t)),
            size(*final(t)) == size(*old(t)),
            ordered(*old(t)) ==> ordered(*final(t)),
    {
        proof {
            lemma_recolor(right_of(*old(t)), c);
            lemma_with_right(*old(t), recolor(right_of(*old(t)), c));
        }
        if let Some(mut n) = t.take() {
            Self::set_color(&mut n.right, c);
            *t = Some(n);
        }
    }

    /// Rotates the left child of the root to the left.
    pub(crate) fn rotate_left_at_left(t: &mut Link)
        ensures
            *final(t) == with_left(*old(t), rotated_left(left_of(*old(t)))),
            keys(*final(t)) == keys(*old(t)),
            size(*final(t)) == size(*old(t)),
            ordered(*old(t)) ==> ordered(*final(t)),
    {
        proof {
            lemma_rotations(left_of(*old(t)));
            lemma_with_left(*old(t), rotated_left(left_of(*old(t))));
        }
        if let Some(mut n) = t.take() {
            Self::rotate_left(&mut n.left);
            *t = Some(n);
        }
    }

    /// Rotates the right child of the root to the right.
    pub(crate) fn rotate_right_at_right(t: &mut Link)
        ensures
            *final(t) == with_right(*old(t), rotated_right(right_of(*old(t)))),
            keys(*final(t)) == keys(*old(t)),
            size(*final(t)) == size(*old(t)),
            ordered(*old(t)) ==> ordered(*final(t)),
    {
        proof {
            lemma_rotations(right_of(*old(t)));
            lemma_with_right(*old(t), rotated_right(right_of(*old(t))));
        }
        if let Some(mut n) = t.take() {
            Self::rotate_right(&mut n.right);
            *t = Some(n);
        }
    }

    /// Applies `flip_left` to the right child of the root.
    pub(crate) fn flip_left_at_right(t: &mut Link)
        ensures
            *final(t) == with_right(*old(t), flipped_left(right_of(*old(t)))),
            keys(*final(t)) == keys(*old(t)),
            size(*final(t)) == size(*old(t)),
            ordered(*old(t)) ==> ordered(*final(t)),
    {
        proof {
            lemma_rotations(right_of(*old(t)));
            lemma_with_right(*old(t), flipped_left(right_of(*old(t))));
        }
        if let Some(mut n) = t.take() {
            Self::flip_left(&mut n.right);
            *t = Some(n);
        }
    }

    /// Makes the root red and both of its children black.
    pub(crate) fn push_black(t: &mut Link)
        ensures
            *final(t) == with_right(
                with_left(recolor(*old(t), Color::Red), recolor(left_of(*old(t)), Color::Black)),
                recolor(right_of(*old(t)), Color::Black),
            ),
            keys(*final(t)) == keys(*old(t)),
            size(*final(t)) == size(*old(t)),
            ordered(*old(t)) ==> ordered(*final(t)),
    {
        Self::set_color(t, Color::Red);
        Self::set_left_color(t, Color::Black);
        Self::set_right_color(t, Color::Black);
    }

    /// Whether `key` is stored in the subtree.
    pub(crate) fn contains(t: &Link, key: i64) -> (r: bool)
        requires
            ordered(*t),
        ensures
            r == keys(*t).contains(key),
        decreases *t,
    {
        match t {
            None => false,
            Some(n) => {
                assert(keys(*t) == keys(n.left).union(keys(n.right)).insert(n.key));
                assert(keys(n.left).contains(key) ==> key < n.key);
                assert(keys(n.right).contains(key) ==> n.key < key);
                if key < n.key {
                    Self::contains(&n.left, key)
                } else if n.key < key {
                    Self::contains(&n.right, key)
                } else {
                    true
                }
            },
        }
    }

    /// Restores the shape after a key went into one of the root's subtrees:
    /// `o` is the subtree before, and `on_left` tells which child grew.
    pub(crate) fn insert_fixup(t: &mut Link, Ghost(o): Ghost<Link>, Ghost(on_left): Ghost<bool>)
        requires
            llrb(o) ==> {
                &&& o is Some
                &&& on_left ==> *old(t) == with_left(o, left_of(*old(t))) && grown(
                    left_of(o),
                    left_of(*old(t)),
                )
                &&& !on_left ==> *old(t) == with_right(o, right_of(*old(t))) && grown(
                    right_of(o),
                    right_of(*old(t)),
                )
            },
        ensures
            *final(t) == insert_fixed(*old(t)),
            llrb(o) ==> grown(o, *final(t)),
            black_balanced(*old(t)) ==> {
                &&& black_balanced(*final(t))
                &&& black_height(*final(t)) == black_height(*old(t))
                &&& red(right_of(*final(t))) ==> red(left_of(*final(t)))
            },
            keys(*final(t)) == keys(*old(t)),
            size(*final(t)) == size(*old(t)),
            ordered(*old(t)) ==> ordered(*final(t)),
    {
        proof {
            if llrb(o) {
                lemma_insert_fixed(o, *old(t), on_left);
            }
            if black_balanced(*old(t)) {
                lemma_insert_fixed_balanced(*old(t));
            }
        }
        if Self::is_black(Self::left(t)) && Self::is_red(Self::right(t)) {
            Self::flip_left(t);
        }
        if Self::is_black(t) && Self::is_red(Self::left(t)) {
            if Self::is_red(Self::right(t)) {
                if Self::is_red(Self::left(Self::left(t))) || Self::is_red(Self::left(Self::right(t))) {
                    Self::push_black(t);
                }
            } else if Self::is_red(Self::left(Self::left(t))) {
                Self::flip_right(t);
            }
        }
    }

    /// Adds `key` to the subtree; returns whether it was absent.
    pub(crate) fn insert(t: &mut Link, key: i64) -> (changed: bool)
        requires
            ordered(*old(t)),
        ensures
            ordered(*final(t)),
            keys(*final(t)) == keys(*old(t)).insert(key),
            changed == !keys(*old(t)).contains(key),
            llrb(*old(t)) ==> grown(*old(t), *final(t)),
            !changed ==> *final(t) == *old(t),
            (*final(t), changed) == inserted(*old(t), key),
        decreases *old(t),
    {
        match t.take() {
            None => {
                *t = Some(Box::new(Node { color: Color::Red, key, left: None, right: None }));
                assert(keys(*t) =~= keys(*old(t)).insert(key));
                proof {
                    lemma_llrb_unfold(*t);
                    assert(llrb(None));
                    assert(black_height(None) == 0);
                    assert(grown(*old(t), *t));
                }
                true
            },
            Some(mut n) => {
                let ghost n0 = *n;
                assert(keys(*old(t)) == keys(n0.left).union(keys(n0.right)).insert(n0.key));
                assert(keys(n0.left).contains(key) ==> key < n0.key);
                assert(keys(n0.right).contains(key) ==> n0.key < key);
                let on_left = key < n.key;
                let changed = if key < n.key {
                    Self::insert(&mut n.left, key)
                } else if n.key < key {
                    Self::insert(&mut n.right, key)
                } else {
                    false
                };
                proof {
                    assert forall|k: i64| keys(n.left).contains(k) implies k < n.key by {
                        if k != key {
                            assert(keys(n0.left).contains(k));
                        }
                    }
                    assert forall|k: i64| keys(n.right).contains(k) implies n.key < k by {
                        if k != key {
                            assert(keys(n0.right).contains(k));
                        }
                    }
                }
                *t = Some(n);
                assert(keys(*t) =~= keys(*old(t)).insert(key));
                if changed {
                    proof {
                        if llrb(*old(t)) {
                            lemma_llrb_unfold(*old(t));
                        }
                    }
                    Self::insert_fixup(t, Ghost(*old(t)), Ghost(on_left));
                    assert(llrb(*old(t)) ==> grown(*old(t), *t));
                } else {
                    proof {
                        if llrb(*old(t)) {
                            lemma_llrb_unfold(*old(t));
                        }
                    }
                    assert(*t == *old(t));
                    assert(llrb(*old(t)) ==> grown(*old(t), *t));
                }
                changed
            },
        }
    }

    /// Repairs a black-height deficit of the left subtree; returns whether the
    /// whole subtree is now one black short.
    pub(crate) fn remove_fixup_left(t: &mut Link) -> (double: bool)
        ensures
            (*final(t), double) == fixed_left(*old(t)),
            short_left(*old(t)) ==> {
                &&& llrb(*final(t))
                &&& red(*final(t)) ==> red(*old(t))
                &&& double ==> !red(*old(t)) && !red(*final(t))
                &&& black_height(*final(t)) + (if double {
                    1nat
                } else {
                    0nat
                }) == bh_over((*old(t))->0.color, right_of(*old(t)))
            },
            keys(*final(t)) == keys(*old(t)),
            size(*final(t)) == size(*old(t)),
            ordered(*old(t)) ==> ordered(*final(t)),
    {
        proof {
            if short_left(*old(t)) {
                lemma_fixed_left(*old(t));
            }
        }
        if !Self::is_null(Self::right(t)) && Self::is_black(Self::right(t)) {
            Self::set_right_color(t, Color::Red);
            Self::flip_left(t);
            if Self::is_black(Self::right(Self::left(t))) {
                if Self::is_red(t) {
                    Self::set_color(t, Color::Black);
                    false
                } else {
                    true
                }
            } else {
                Self::rotate_left_at_left(t);
                Self::flip_right(t);
                Self::set_left_color(t, Color::Black);
                Self::set_right_color(t, Color::Black);
                if Self::is_red(Self::right(Self::right(t))) {
                    Self::flip_left_at_right(t);
                }
                false
            }
        } else {
            false
        }
    }

    /// Repairs a black-height deficit of the right subtree; returns whether the
    /// whole subtree is now one black short.
    pub(crate) fn remove_fixup_right(t: &mut Link) -> (double: bool)
        ensures
            (*final(t), double) == fixed_right(*old(t)),
            short_right(*old(t)) ==> {
                &&& llrb_but_lean(*final(t))
                &&& red(*old(t)) ==> llrb(*final(t))
                &&& red(*final(t)) ==> red(*old(t))
                &&& double ==> !red(*old(t)) && !red(*final(t))
                &&& black_height(*final(t)) + (if double {
                    1nat
                } else {
                    0nat
                }) == bh_over((*old(t))->0.color, left_of(*old(t)))
            },
            short_right(*old(t)) && !red(*old(t)) && red(left_of(*old(t))) ==> !double,
            keys(*final(t)) == keys(*old(t)),
            size(*final(t)) == size(*old(t)),
            ordered(*old(t)) ==> ordered(*final(t)),
        decreases size(*old(t)),
    {
        if Self::is_black(t) && Self::is_red(Self::left(t)) {
            Self::flip_right(t);
            // The right child is now red, so it absorbs its own deficit.
            proof {
                if short_right(*old(t)) {
                    let l = left_of(*old(t))->0;
                    lemma_llrb_unfold(left_of(*old(t)));
                    lemma_llrb_unfold(l.right);
                    lemma_llrb_unfold(*t);
                    lemma_llrb_unfold(right_of(*t));
                    assert(short_right(right_of(*t)));
                }
            }
            if let Some(mut n) = t.take() {
                let ghost n0 = *n;
                assert(size(n0.right) < size(*old(t)));
                Self::remove_fixup_right(&mut n.right);
                proof {
                    lemma_with_right(Some(Box::new(n0)), n.right);
                }
                *t = Some(n);
            }
            proof {
                if short_right(*old(t)) {
                    lemma_llrb_unfold(*t);
                }
            }
            false
        } else if !Self::is_null(Self::left(t)) && Self::is_black(Self::left(t)) && Self::is_black(
            Self::right(t),
        ) {
            proof {
                if short_right(*old(t)) {
                    lemma_fixed_right_black(*old(t));
                }
            }
            Self::set_left_color(t, Color::Red);
            Self::flip_right(t);
            if Self::is_red(Self::left(Self::right(t))) {
                Self::rotate_right_at_right(t);
                Self::flip_left(t);
                Self::set_left_color(t, Color::Black);
                Self::set_right_color(t, Color::Black);
                false
            } else if Self::is_red(Self::left(t)) {
                Self::set_left_color(t, Color::Black);
                Self::set_right_color(t, Color::Black);
                false
            } else {
                Self::flip_left(t);
                if Self::is_red(t) {
                    Self::set_color(t, Color::Black);
                    false
                } else {
                    true
                }
            }
        } else {
            proof {
                if short_right(*old(t)) {
                    lemma_llrb_unfold(left_of(*old(t)));
                }
            }
            false
        }
    }

    /// Restores left-leaning at the root: a red right child under a black left
    /// child is turned to the left.
    pub(crate) fn lean_left(t: &mut Link)
        ensures
            *final(t) == leaned(*old(t)),
            keys(*final(t)) == keys(*old(t)),
            size(*final(t)) == size(*old(t)),
            ordered(*old(t)) ==> ordered(*final(t)),
    {
        if !Self::is_null(t) && Self::is_black(Self::left(t)) && Self::is_red(Self::right(t)) {
            Self::flip_left(t);
        }
    }

    /// Removes the smallest key of a non-empty subtree; returns it, and whether
    /// the subtree is now one black short.
    pub(crate) fn remove_min(t: &mut Link) -> (r: (i64, bool))
        requires
            ordered(*old(t)),
            *old(t) is Some,
        ensures
            ordered(*final(t)),
            keys(*old(t)).contains(r.0),
            keys(*final(t)) == keys(*old(t)).remove(r.0),
            forall|k: i64| keys(*final(t)).contains(k) ==> r.0 < k,
            (*final(t), r.0, r.1) == removed_min(*old(t)),
            llrb(*old(t)) ==> {
                &&& llrb(*final(t))
                &&& red(*final(t)) ==> red(*old(t))
                &&& r.1 ==> !red(*old(t)) && !red(*final(t))
                &&& black_height(*final(t)) + (if r.1 {
                    1nat
                } else {
                    0nat
                }) == black_height(*old(t))
            },
        decreases *old(t),
    {
        let mut n = t.take().unwrap();
        let ghost n0 = *n;
        assert(keys(*old(t)) == keys(n0.left).union(keys(n0.right)).insert(n0.key));
        proof {
            lemma_llrb_unfold(*old(t));
        }
        if Self::is_null(&n.left) {
            proof {
                if llrb(*old(t)) {
                    lemma_black_root(n0.right);
                }
            }
            let node = *n;
            *t = node.right;
            let mut double = node.color == Color::Black;
            if double && Self::is_red(t) {
                Self::set_color(t, Color::Black);
                double = false;
            }
            assert(keys(*t) =~= keys(*old(t)).remove(node.key));
            (node.key, double)
        } else {
            let (key, mut double) = Self::remove_min(&mut n.left);
            proof {
                assert forall|k: i64| keys(n.left).contains(k) implies k < n.key by {
                    assert(keys(n0.left).contains(k));
                }
                assert(key < n0.key);
                assert forall|k: i64| keys(n0.right).contains(k) implies key < k by {
                }
            }
            *t = Some(n);
            assert(keys(*t) =~= keys(*old(t)).remove(key));
            if double {
                proof {
                    if llrb(*old(t)) {
                        lemma_llrb_unfold(n0.left);
                    }
                }
                double = Self::remove_fixup_left(t);
            } else {
                proof {
                    if llrb(*old(t)) {
                        lemma_llrb_unfold(n0.left);
                    }
                }
            }
            proof {
                if llrb(*old(t)) {
                    lemma_leaned(*t);
                }
            }
            Self::lean_left(t);
            (key, double)
        }
    }

    /// Overwrites the root's key with the least key of its right subtree, and
    /// removes that key from there; returns whether the right subtree is now
    /// one black short.
    pub(crate) fn replace_with_successor(t: &mut Link) -> (double: bool)
        requires
            ordered(*old(t)),
            *old(t) is Some,
            right_of(*old(t)) is Some,
        ensures
            *final(t) is Some,
            (*final(t))->0.color == (*old(t))->0.color,
            left_of(*final(t)) == left_of(*old(t)),
            *final(t) == mk(
                (*old(t))->0.color,
                removed_min(right_of(*old(t))).1,
                left_of(*old(t)),
                removed_min(right_of(*old(t))).0,
            ),
            double == removed_min(right_of(*old(t))).2,
            keys(right_of(*old(t))).contains((*final(t))->0.key),
            forall|k: i64| keys(right_of(*old(t))).contains(k) ==> (*final(t))->0.key <= k,
            keys(right_of(*final(t))) == keys(right_of(*old(t))).remove((*final(t))->0.key),
            ordered(*final(t)),
            keys(*final(t)) == keys(*old(t)).remove((*old(t))->0.key),
            llrb(right_of(*old(t))) ==> {
                &&& llrb(right_of(*final(t)))
                &&& red(right_of(*final(t))) ==> red(right_of(*old(t)))
                &&& double ==> !red(right_of(*old(t))) && !red(right_of(*final(t)))
                &&& black_height(right_of(*final(t))) + (if double {
                    1nat
                } else {
                    0nat
                }) == black_height(right_of(*old(t)))
            },
    {
        let mut n = t.take().unwrap();
        let ghost n0 = *n;
        assert(keys(*old(t)) == keys(n0.left).union(keys(n0.right)).insert(n0.key));
        let (m, d) = Self::remove_min(&mut n.right);
        proof {
            assert forall|k: i64| keys(n0.left).contains(k) implies k < m by {
                assert(keys(n0.right).contains(m));
            }
            assert forall|k: i64| keys(n0.right).contains(k) implies m <= k by {
                if k != m {
                    assert(keys(n.right).contains(k));
                }
            }
            assert(!keys(n0.left).contains(n0.key));
            assert(!keys(n0.right).contains(n0.key));
        }
        n.key = m;
        *t = Some(n);
        assert(keys(*t) =~= keys(*old(t)).remove(n0.key));
        d
    }

    /// Removes `key` from the subtree; returns whether it was present, and
    /// whether the subtree is now one black short.
    pub(crate) fn remove(t: &mut Link, key: i64) -> (r: (bool, bool))
        requires
            ordered(*old(t)),
        ensures
            ordered(*final(t)),
            keys(*final(t)) == keys(*old(t)).remove(key),
            r.0 == keys(*old(t)).contains(key),
            !r.0 ==> !r.1,
            !r.0 && llrb(*old(t)) ==> *final(t) == *old(t),
            (*final(t), r.0, r.1) == removed(*old(t), key),
            llrb(*old(t)) ==> {
                &&& llrb(*final(t))
                &&& red(*final(t)) ==> red(*old(t))
                &&& r.1 ==> !red(*old(t)) && !red(*final(t))
                &&& black_height(*final(t)) + (if r.1 {
                    1nat
                } else {
                    0nat
                }) == black_height(*old(t))
            },
        decreases *old(t),
    {
        match t.take() {
            None => {
                assert(keys(*old(t)) =~= keys(*old(t)).remove(key));
                proof {
                    lemma_llrb_unfold(*t);
                }
                (false, false)
            },
            Some(mut n) => {
                let ghost n0 = *n;
                assert(keys(*old(t)) == keys(n0.left).union(keys(n0.right)).insert(n0.key));
                assert(keys(n0.left).contains(key) ==> key < n0.key);
                assert(keys(n0.right).contains(key) ==> n0.key < key);
                proof {
                    lemma_llrb_unfold(*old(t));
                    lemma_llrb_unfold(n0.left);
                    lemma_llrb_unfold(n0.right);
                }
                let changed: bool;
                let mut double: bool;
                if key < n.key {
                    let (c, d) = Self::remove(&mut n.left, key);
                    assert forall|k: i64| keys(n.left).contains(k) implies k < n.key by {
                        assert(keys(n0.left).contains(k));
                    }
                    *t = Some(n);
                    assert(keys(*t) =~= keys(*old(t)).remove(key));
                    changed = c;
                    double = d;
                    proof {
                        lemma_llrb_unfold(*t);
                    }
                    if double {
                        double = Self::remove_fixup_left(t);
                        proof {
                            if llrb(*old(t)) {
                                lemma_llrb_unfold(*t);
                            }
                        }
                    }
                } else if n.key < key {
                    let (c, d) = Self::remove(&mut n.right, key);
                    assert forall|k: i64| keys(n.right).contains(k) implies n.key < k by {
                        assert(keys(n0.right).contains(k));
                    }
                    *t = Some(n);
                    assert(keys(*t) =~= keys(*old(t)).remove(key));
                    changed = c;
                    double = d;
                    proof {
                        lemma_llrb_unfold(*t);
                    }
                    if double {
                        double = Self::remove_fixup_right(t);
                    }
                } else if Self::is_null(&n.right) {
                    let node = *n;
                    *t = node.left;
                    assert(keys(*t) =~= keys(*old(t)).remove(key));
                    changed = true;
                    double = node.color == Color::Black;
                    proof {
                        if llrb(*old(t)) {
                            if !red(n0.left) {
                                lemma_black_root(n0.left);
                            } else {
                                let l = n0.left->0;
                                lemma_black_root(l.left);
                                lemma_black_root(l.right);
                            }
                            lemma_llrb_unfold(*t);
                        }
                    }
                } else {
                    *t = Some(n);
                    let d = Self::replace_with_successor(t);
                    changed = true;
                    double = d;
                    proof {
                        lemma_llrb_unfold(*t);
                    }
                    if double {
                        double = Self::remove_fixup_right(t);
                    }
                }
                proof {
                    if llrb(*old(t)) {
                        assert(llrb_but_lean(*t));
                        assert(black_height(*t) + (if double {
                            1nat
                        } else {
                            0nat
                        }) == black_height(*old(t)));
                        assert(red(*t) ==> red(*old(t)) || double);
                        assert(double ==> !red(*old(t)));
                        lemma_leaned(*t);
                    }
                }
                Self::lean_left(t);
                let ghost t2 = *t;
                if double && Self::is_red(t) {
                    Self::set_color(t, Color::Black);
                    double = false;
                    proof {
                        lemma_llrb_unfold(t2);
                        lemma_llrb_unfold(*t);
                    }
                }
                (changed, double)
            },
        }
    }

    /// The number of nodes on the longest path down from the root.
    pub(crate) fn height(t: &Link) -> (r: usize)
        requires
            size(*t) <= usize::MAX,
        ensures
            r == height(*t),
        decreases *t,
    {
        match t {
            None => 0,
            Some(n) => {
                proof {
                    lemma_height_bound(n.left);
                    lemma_height_bound(n.right);
                }
                let l = Self::height(&n.left);
                let r = Self::height(&n.right);
                if l >= r {
                    l + 1
                } else {
                    r + 1
                }
            },
        }
    }

    /// Appends the pieces of `src` to `row`.
    pub(crate) fn append_row(row: &mut Vec<Piece>, src: &Vec<Piece>)
        ensures
            final(row)@ == old(row)@ + src@,
            row_width(final(row)@) == row_width(old(row)@) + row_width(src@),
    {
        let mut k: usize = 0;
        while k < src.len()
            invariant
                k <= src@.len(),
                row@ == old(row)@ + src@.take(k as int),
                row_width(row@) == row_width(old(row)@) + row_width(src@.take(k as int)),
            decreases src@.len() - k,
        {
            proof {
                lemma_row_width_push(row@, src@[k as int]);
                assert(src@.take(k as int + 1).drop_last() =~= src@.take(k as int));
            }
            row.push(src[k]);
            k = k + 1;
            assert(row@ =~= old(row)@ + src@.take(k as int));
        }
        proof {
            assert(src@.take(k as int) =~= src@);
        }
    }

    /// Draws the subtree: its width, the column of its root key, and its rows,
    /// the root's row first.
    pub(crate) fn show(t: &Link) -> (r: (usize, usize, Vec<Vec<Piece>>))
        requires
            2 * size(*t) <= usize::MAX,
        ensures
            ordered(*t) ==> drawn_once(r.2@),
            r.0 == 2 * size(*t),
            r.1 <= r.0,
            r.2@.len() == height(*t),
            forall|i: int| 0 <= i < r.2@.len() ==> row_width(#[trigger] r.2@[i]@) == r.0,
            *t is Some ==> r.2@[0]@.contains(Piece::Key((*t)->0.key, (*t)->0.color)),
            forall|k: i64, c: Color| drawn(r.2@, k, c) <==> colored(*t).contains((k, c)),
        decreases *t,
    {
        match t {
            None => {
                let v: Vec<Vec<Piece>> = Vec::new();
                assert forall|k: i64, c: Color| !drawn(v@, k, c) by {}
                (0, 0, v)
            },
            Some(n) => {
                let (l, li, left) = Self::show(&n.left);
                let (r, ri, right) = Self::show(&n.right);
                let mut v: Vec<Vec<Piece>> = Vec::new();
                let mut top: Vec<Piece> = Vec::new();
                top.push(Piece::Blank(li));
                top.push(Piece::Line(l - li));
                top.push(Piece::Key(n.key, n.color));
                top.push(Piece::Line(ri));
                top.push(Piece::Blank(r - ri));
                proof {
                    let s0 = Seq::<Piece>::empty();
                    lemma_row_width_push(s0, Piece::Blank(li));
                    lemma_row_width_push(s0.push(Piece::Blank(li)), Piece::Line((l - li) as usize));
                    lemma_row_width_push(
                        s0.push(Piece::Blank(li)).push(Piece::Line((l - li) as usize)),
                        Piece::Key(n.key, n.color),
                    );
                    lemma_row_width_push(
                        s0.push(Piece::Blank(li)).push(Piece::Line((l - li) as usize)).push(
                            Piece::Key(n.key, n.color),
                        ),
                        Piece::Line(ri),
                    );
                    lemma_row_width_push(
                        s0.push(Piece::Blank(li)).push(Piece::Line((l - li) as usize)).push(
                            Piece::Key(n.key, n.color),
                        ).push(Piece::Line(ri)),
                        Piece::Blank((r - ri) as usize),
                    );
                    assert(top@ =~= s0.push(Piece::Blank(li)).push(Piece::Line((l - li) as usize)).push(
                        Piece::Key(n.key, n.color),
                    ).push(Piece::Line(ri)).push(Piece::Blank((r - ri) as usize)));
                    assert(top@[2] == Piece::Key(n.key, n.color));
                    assert(forall|b: int|
                        0 <= b < top@.len() && (#[trigger] top@[b]) is Key ==> b == 2 && top@[b]->Key_0
                            == n.key);
                }
                let ghost top_row = top@;
                v.push(top);
                let rows = if left.len() >= right.len() {
                    left.len()
                } else {
                    right.len()
                };
                let mut i: usize = 0;
                while i < rows
                    invariant
                        i <= rows,
                        rows == if left@.len() >= right@.len() {
                            left@.len()
                        } else {
                            right@.len()
                        },
                        v@.len() == i + 1,
                        forall|k: int| 0 <= k < left@.len() ==> row_width(#[trigger] left@[k]@) == l,
                        forall|k: int| 0 <= k < right@.len() ==> row_width(#[trigger] right@[k]@) == r,
                        forall|k: int| 0 <= k < v@.len() ==> row_width(#[trigger] v@[k]@) == l + 2 + r,
                        v@[0]@.contains(Piece::Key(n.key, n.color)),
                        v@[0]@ == top_row,
                        forall|x: int|
                            0 <= x < i ==> (#[trigger] v@[x + 1])@ == side_row(left@, x, l) + seq![
                                Piece::Blank(2),
                            ] + side_row(right@, x, r),
                    decreases rows - i,
                {
                    let mut row: Vec<Piece> = Vec::new();
                    proof {
                        assert(row_width(row@) == 0);
                        lemma_row_width_push(row@, Piece::Blank(l));
                    }
                    if i < left.len() {
                        Self::append_row(&mut row, &left[i]);
                    } else {
                        row.push(Piece::Blank(l));
                    }
                    proof {
                        lemma_row_width_push(row@, Piece::Blank(2));
                    }
                    row.push(Piece::Blank(2));
                    proof {
                        lemma_row_width_push(row@, Piece::Blank(r));
                    }
                    if i < right.len() {
                        Self::append_row(&mut row, &right[i]);
                    } else {
                        row.push(Piece::Blank(r));
                    }
                    proof {
                        let lp = if (i as int) < left@.len() {
                            left@[i as int]@
                        } else {
                            seq![Piece::Blank(l)]
                        };
                        let rp = if (i as int) < right@.len() {
                            right@[i as int]@
                        } else {
                            seq![Piece::Blank(r)]
                        };
                        assert(row@ =~= lp + seq![Piece::Blank(2)] + rp);
                    }
                    let ghost before = v@;
                    v.push(row);
                    proof {
                        assert forall|x: int| 0 <= x < i + 1 implies (#[trigger] v@[x + 1])@ == side_row(
                            left@,
                            x,
                            l,
                        ) + seq![Piece::Blank(2)] + side_row(right@, x, r) by {
                            if x < i {
                                assert(v@[x + 1] == before[x + 1]);
                            }
                        }
                    }
                    i = i + 1;
                }
                proof {
                    assert forall|k: i64, c: Color| drawn(v@, k, c) <==> colored(*t).contains((k, c)) by {
                        assert(colored(*t) == colored(n.left).union(colored(n.right)).insert(
                            (n.key, n.color),
                        ));
                        if drawn(v@, k, c) {
                            let (a, b) = choose|a: int, b: int|
                                0 <= a < v@.len() && 0 <= b < v@[a]@.len() && #[trigger] v@[a]@[b]
                                    == Piece::Key(k, c);
                            if a == 0 {
                                assert(top_row[b] == Piece::Key(k, c));
                            } else {
                                let x = a - 1;
                                let lp = if x < left@.len() {
                                    left@[x]@
                                } else {
                                    seq![Piece::Blank(l)]
                                };
                                let rp = if x < right@.len() {
                                    right@[x]@
                                } else {
                                    seq![Piece::Blank(r)]
                                };
                                assert(v@[x + 1]@ == lp + seq![Piece::Blank(2)] + rp);
                                if b < lp.len() {
                                    assert(lp[b] == Piece::Key(k, c));
                                    assert(x < left@.len());
                                    assert(left@[x]@[b] == Piece::Key(k, c));
                                    assert(drawn(left@, k, c));
                                } else if b == lp.len() {
                                    assert((lp + seq![Piece::Blank(2)] + rp)[b] == Piece::Blank(2));
                                } else {
                                    let b2 = b - lp.len() - 1;
                                    assert(rp[b2] == Piece::Key(k, c));
                                    assert(x < right@.len());
                                    assert(right@[x]@[b2] == Piece::Key(k, c));
                                    assert(drawn(right@, k, c));
                                }
                            }
                        }
                        if colored(*t).contains((k, c)) {
                            if (k, c) == (n.key, n.color) {
                                assert(v@[0]@[2] == Piece::Key(k, c));
                            } else if colored(n.left).contains((k, c)) {
                                assert(drawn(left@, k, c));
                                let (a, b) = choose|a: int, b: int|
                                    0 <= a < left@.len() && 0 <= b < left@[a]@.len()
                                        && #[trigger] left@[a]@[b] == Piece::Key(k, c);
                                let rp = if a < right@.len() {
                                    right@[a]@
                                } else {
                                    seq![Piece::Blank(r)]
                                };
                                assert(a < i);
                                assert(v@[a + 1]@ == left@[a]@ + seq![Piece::Blank(2)] + rp);
                                assert(v@[a + 1]@[b] == Piece::Key(k, c));
                            } else {
                                assert(colored(n.right).contains((k, c)));
                                assert(drawn(right@, k, c));
                                let (a, b) = choose|a: int, b: int|
                                    0 <= a < right@.len() && 0 <= b < right@[a]@.len()
                                        && #[trigger] right@[a]@[b] == Piece::Key(k, c);
                                let lp = if a < left@.len() {
                                    left@[a]@
                                } else {
                                    seq![Piece::Blank(l)]
                                };
                                assert(a < i);
                                assert(v@[a + 1]@ == lp + seq![Piece::Blank(2)] + right@[a]@);
                                assert(v@[a + 1]@[lp.len() + 1 + b] == Piece::Key(k, c));
                            }
                        }
                    }
                }
                proof {
                    if ordered(*t) {
                        lemma_drawn_keys(left@, n.left);
                        lemma_drawn_keys(right@, n.right);
                        lemma_drawn_once(v@, left@, right@, l, r, n.key, keys(n.left), keys(n.right));
                    }
                }
                (l + 2 + r, l + 1, v)
            },
        }
    }

    /// Checks the red-black shape; on success returns the black height,
    /// counting the absent child at the end of each path as one black node.
    pub(crate) fn check(t: &Link) -> (r: Result<usize, Violation>)
        requires
            size(*t) <= usize::MAX,
        ensures
            r is Ok <==> llrb(*t),
            r is Ok ==> r->Ok_0 == black_height(*t) + 1,
            r == Err::<usize, Violation>(Violation::RedRed) ==> has_red_red(*t),
            r == Err::<usize, Violation>(Violation::LeftLeaning) ==> has_right_lean(*t),
            r == Err::<usize, Violation>(Violation::BlackHeight) ==> has_unequal_black_heights(*t),
        decreases *t,
    {
        match t {
            None => Ok(1),
            Some(n) => {
                if n.color == Color::Red && (Self::is_red(&n.left) || Self::is_red(&n.right)) {
                    return Err(Violation::RedRed);
                }
                if Self::is_black(&n.left) && Self::is_red(&n.right) {
                    return Err(Violation::LeftLeaning);
                }
                let l = match Self::check(&n.left) {
                    Ok(h) => h,
                    Err(e) => return Err(e),
                };
                let r = match Self::check(&n.right) {
                    Ok(h) => h,
                    Err(e) => return Err(e),
                };
                if l != r {
                    return Err(Violation::BlackHeight);
                }
                if n.color == Color::Red {
                    Ok(l)
                } else {
                    proof {
                        lemma_small_black_height(n.left);
                    }
                    Ok(l + 1)
                }
            },
        }
    }
}

/// The invariant that `check` found broken.
#[derive(PartialEq, Eq, Structural, Clone, Copy, Debug)]
pub enum Violation {
    /// A red node has a red child.
    RedRed,
    /// A red right child has a black sibling.
    LeftLeaning,
    /// Two paths down from one node meet different numbers of black nodes.
    BlackHeight,
}

/// A set of `i64` keys kept in a left-leaning red-black tree.
pub struct RedBlackTree {
    root: Link,
    len: usize,
}

impl View for RedBlackTree {
    type V = Set<i64>;

    closed spec fn view(&self) -> Set<i64> {
        keys(self.root)
    }
}

impl RedBlackTree {
    /// The tree is ordered, red-black with a black root, and `len` counts its
    /// nodes.
    pub closed spec fn wf(&self) -> bool {
        &&& ordered(self.root)
        &&& llrb(self.root)
        &&& !red(self.root)
        &&& self.len == size(self.root)
    }

    /// The nodes of the tree: keys, colors and links.
    pub closed spec fn shape(&self) -> Link {
        self.root
    }

    /// The red-black shape holds at every node.
    pub closed spec fn has_shape(&self) -> bool {
        llrb(self.root)
    }

    /// The red-black shape holds at every node and the root is black.
    pub closed spec fn is_red_black(&self) -> bool {
        &&& llrb(self.root)
        &&& !red(self.root)
    }

    /// The number of nodes on the longest path from the root down.
    pub closed spec fn tree_height(&self) -> nat {
        height(self.root)
    }

    /// Each key with the color of its node.
    pub closed spec fn key_colors(&self) -> Set<(i64, Color)> {
        colored(self.root)
    }

    /// The key at the root; meaningful when the tree is not empty.
    pub closed spec fn root_key(&self) -> i64 {
        self.root->0.key
    }

    pub fn new() -> (r: Self)
        ensures
            r.wf(),
            r.is_red_black(),
            r@.finite(),
            r@ == Set::<i64>::empty(),
    {
        RedBlackTree { root: None, len: 0 }
    }

    pub fn contains(&self, value: &i64) -> (r: bool)
        requires
            self.wf(),
        ensures
            r == self@.contains(*value),
    {
        Node::contains(&self.root, *value)
    }

    /// Adds `value`; returns whether it was absent.
    pub fn insert(&mut self, value: i64) -> (r: bool)
        requires
            old(self).wf(),
            old(self)@.len() < usize::MAX,
        ensures
            final(self).wf(),
            final(self).is_red_black(),
            final(self)@.finite(),
            final(self)@ == old(self)@.insert(value),
            r == !old(self)@.contains(value),
            !r ==> *final(self) == *old(self),
            final(self).shape() == recolor(inserted(old(self).shape(), value).0, Color::Black),
    {
        proof {
            lemma_size_is_key_count(self.root);
        }
        let changed = Node::insert(&mut self.root, value);
        proof {
            lemma_shape_of_recolored(self.root);
        }
        Node::set_color(&mut self.root, Color::Black);
        proof {
            lemma_size_is_key_count(self.root);
        }
        if changed {
            self.len = self.len + 1;
        }
        changed
    }

    /// Removes `value`; returns whether it was present.
    pub fn remove(&mut self, value: &i64) -> (r: bool)
        requires
            old(self).wf(),
        ensures
            final(self).wf(),
            final(self).is_red_black(),
            final(self)@.finite(),
            final(self)@ == old(self)@.remove(*value),
            r == old(self)@.contains(*value),
            !r ==> *final(self) == *old(self),
            final(self).shape() == removed(old(self).shape(), *value).0,
    {
        proof {
            lemma_size_is_key_count(self.root);
        }
        let (changed, _double) = Node::remove(&mut self.root, *value);
        proof {
            lemma_size_is_key_count(self.root);
        }
        if changed {
            self.len = self.len - 1;
        }
        changed
    }

    /// The number of keys.
    pub fn len(&self) -> (r: usize)
        requires
            self.wf(),
        ensures
            r == self@.len(),
    {
        proof {
            lemma_size_is_key_count(self.root);
        }
        self.len
    }

    /// The number of nodes on the longest path from the root down.
    pub fn height(&self) -> (r: usize)
        requires
            self.wf(),
        ensures
            r == self.tree_height(),
    {
        Node::height(&self.root)
    }

    /// A picture of the tree, one row per level, the root's row first; every
    /// row spans two columns per key.
    pub fn picture(&self) -> (r: Vec<Vec<Piece>>)
        requires
            self.wf(),
            self@.len() <= usize::MAX / 2,
        ensures
            r@.len() == self.tree_height(),
            forall|i: int| 0 <= i < r@.len() ==> row_width(#[trigger] r@[i]@) == 2 * self@.len(),
            forall|k: i64, c: Color| drawn(r@, k, c) <==> self.key_colors().contains((k, c)),
            drawn_once(r@),
            forall|k: i64| self@.contains(k) <==> exists|c: Color| #[trigger] self.key_colors().contains((k, c)),
            self@.len() > 0 ==> r@[0]@.contains(Piece::Key(self.root_key(), Color::Black)),
    {
        proof {
            lemma_size_is_key_count(self.root);
            lemma_colored_keys(self.root);
        }
        let (_, _, rows) = Node::show(&self.root);
        proof {
            assert forall|k: i64| self@.contains(k) <==> exists|c: Color| #[trigger] self.key_colors().contains((k, c)) by {
                if self@.contains(k) {
                    let c = choose|c: Color| colored(self.root).contains((k, c));
                    assert(self.key_colors().contains((k, c)));
                }
                if exists|c: Color| #[trigger] self.key_colors().contains((k, c)) {
                    let c = choose|c: Color| self.key_colors().contains((k, c));
                    assert(colored(self.root).contains((k, c)));
                }
            }
            if self.root is None {
                assert(keys(self.root) =~= Set::<i64>::empty());
            } else {
                assert(self.root->0.color == Color::Black);
                assert(rows@[0]@.contains(Piece::Key(self.root->0.key, self.root->0.color)));
            }
        }
        rows
    }

    /// Checks the red-black shape of the whole tree.
    pub fn check(&self) -> (r: Result<(), Violation>)
        requires
            self.wf(),
        ensures
            r is Ok <==> self.has_shape(),
    {
        match Node::check(&self.root) {
            Ok(_) => Ok(()),
            Err(e) => Err(e),
        }
    }
}

/// Blackening the root keeps the red-black shape.
pub(crate) proof fn lemma_shape_of_recolored(t: Link)
    requires
        llrb(t),
    ensures
        llrb(recolor(t, Color::Black)),
{
    lemma_llrb_unfold(t);
    lemma_llrb_unfold(recolor(t, Color::Black));
}

proof fn lemma_height_by_black_height(t: Link)
    requires
        llrb(t),
    ensures
        height(t) <= 2 * black_height(t) + if red(t) {
            1nat
        } else {
            0nat
        },
    decreases t,
{
    if let Some(n) = t {
        lemma_llrb_unfold(t);
        lemma_height_by_black_height(n.left);
        lemma_height_by_black_height(n.right);
    }
}

proof fn lemma_size_by_black_height(t: Link)
    requires
        llrb(t),
    ensures
        pow2(black_height(t)) <= size(t) + 1,
    decreases t,
{
    lemma_llrb_unfold(t);
    if let Some(n) = t {
        lemma_size_by_black_height(n.left);
        lemma_size_by_black_height(n.right);
        if n.color == Color::Black {
            lemma_pow2_unfold(black_height(t));
        }
    } else {
        assert(pow2(0) == 1) by {
            vstd::arithmetic::power2::lemma2_to64();
        }
    }
}

/// A red-black subtree that fits in memory has a black height below 64.
proof fn lemma_small_black_height(t: Link)
    requires
        llrb(t),
        size(t) < usize::MAX,
    ensures
        black_height(t) < 64,
{
    lemma_size_by_black_height(t);
    vstd::arithmetic::power2::lemma2_to64();
    if black_height(t) > 64 {
        lemma_pow2_strictly_increases(64, black_height(t));
    }
}

/// Every call leaves the tree in a state that `check` accepts.
pub proof fn lemma_check_succeeds(tree: RedBlackTree)
    requires
        tree.wf(),
    ensures
        tree.has_shape(),
{
}

/// The height stays logarithmic: `2^height <= (len + 1)^2`, that is
/// `height <= 2 log2(len + 1)`.
pub proof fn lemma_height_logarithmic(tree: RedBlackTree)
    requires
        tree.wf(),
    ensures
        pow2(tree.tree_height()) <= (tree@.len() + 1) * (tree@.len() + 1),
{
    let t = tree.root;
    lemma_size_is_key_count(t);
    lemma_height_by_black_height(t);
    lemma_size_by_black_height(t);
    let b = black_height(t);
    let h = height(t);
    lemma_pow2_adds(b, b);
    if h < 2 * b {
        lemma_pow2_strictly_increases(h, 2 * b);
    }
    let n1 = size(t) + 1;
    assert(pow2(b) * pow2(b) <= n1 * n1) by (nonlinear_arith)
        requires
            pow2(b) <= n1,
    ;
}

/// Inserting a key twice is inserting it once: once `insert(k)` has turned
/// `before` into `once`, `k` is present, so a second `insert(k)` returns
/// false and leaves `once` as it is; `len` grew by at most one.
pub proof fn lemma_insert_idempotent(before: RedBlackTree, once: RedBlackTree, k: i64)
    requires
        before.wf(),
        once.wf(),
        once@ == before@.insert(k),
    ensures
        once@.contains(k),
        once@.insert(k) == once@,
        once@.len() == before@.len() + if before@.contains(k) {
            0int
        } else {
            1int
        },
{
    lemma_size_is_key_count(before.root);
    assert(once@.insert(k) =~= once@);
    if before@.contains(k) {
        assert(before@.insert(k) =~= before@);
    }
}

/// Inserting an absent key and removing it again gives back the keys and the
/// length from before the insertion.
pub proof fn lemma_insert_then_remove(
    before: RedBlackTree,
    inserted: RedBlackTree,
    removed: RedBlackTree,
    k: i64,
)
    requires
        before.wf(),
        inserted.wf(),
        removed.wf(),
        !before@.contains(k),
        inserted@ == before@.insert(k),
        removed@ == inserted@.remove(k),
    ensures
        removed@ == before@,
        !removed@.contains(k),
        removed@.len() == before@.len(),
{
    assert(before@.insert(k).remove(k) =~= before@);
}

/// The keys of a well-formed tree are those of its nodes, finitely many.
pub proof fn lemma_view_is_shape_keys(tree: RedBlackTree)
    requires
        tree.wf(),
    ensures
        tree@ == keys(tree.shape()),
        tree@.finite(),
        ordered(tree.shape()),
        llrb(tree.shape()),
{
    lemma_size_is_key_count(tree.root);
}

/// A call that changes the set of keys.
pub enum Update {
    Insert(i64),
    Remove(i64),
}

/// The keys after the calls `ops`, in order, on an empty tree, as `insert`
/// and `remove` state them.
pub open spec fn keys_after(ops: Seq<Update>) -> Set<i64>
    decreases ops.len(),
{
    if ops.len() == 0 {
        Set::empty()
    } else {
        match ops.last() {
            Update::Insert(k) => keys_after(ops.drop_last()).insert(k),
            Update::Remove(k) => keys_after(ops.drop_last()).remove(k),
        }
    }
}

/// Some insertion of `k` in `ops` is followed by no removal of `k`.
pub open spec fn inserted_last(ops: Seq<Update>, k: i64) -> bool {
    exists|i: int|
        0 <= i < ops.len() && #[trigger] ops[i] == Update::Insert(k) && forall|j: int|
            i < j < ops.len() ==> #[trigger] ops[j] != Update::Remove(k)
}

/// After any sequence of insertions and removals, a key is present exactly
/// when it was inserted and not removed since.
pub proof fn lemma_membership(ops: Seq<Update>, k: i64)
    ensures
        keys_after(ops).contains(k) <==> inserted_last(ops, k),
        keys_after(ops).finite(),
    decreases ops.len(),
{
    if ops.len() > 0 {
        let p = ops.drop_last();
        let n = ops.len() - 1;
        lemma_membership(p, k);
        if ops[n] == Update::Insert(k) {
            assert(ops[n] == Update::Insert(k));
            assert(inserted_last(ops, k));
        } else if ops[n] == Update::Remove(k) {
            if inserted_last(ops, k) {
                let i = choose|i: int|
                    0 <= i < ops.len() && #[trigger] ops[i] == Update::Insert(k) && forall|j: int|
                        i < j < ops.len() ==> #[trigger] ops[j] != Update::Remove(k);
                assert(ops[n] != Update::Remove(k));
            }
        } else {
            if inserted_last(p, k) {
                let i = choose|i: int|
                    0 <= i < p.len() && #[trigger] p[i] == Update::Insert(k) && forall|j: int|
                        i < j < p.len() ==> #[trigger] p[j] != Update::Remove(k);
                assert(ops[i] == Update::Insert(k));
                assert forall|j: int| i < j < ops.len() implies #[trigger] ops[j] != Update::Remove(k) by {
                    if j < n {
                        assert(ops[j] == p[j]);
                    }
                }
            }
            if inserted_last(ops, k) {
                let i = choose|i: int|
                    0 <= i < ops.len() && #[trigger] ops[i] == Update::Insert(k) && forall|j: int|
                        i < j < ops.len() ==> #[trigger] ops[j] != Update::Remove(k);
                assert(i < n);
                assert(p[i] == Update::Insert(k));
                assert forall|j: int| i < j < p.len() implies #[trigger] p[j] != Update::Remove(k) by {
                    assert(ops[j] == p[j]);
                }
                assert(inserted_last(p, k));
            }
        }
    }
}

} // verus!
