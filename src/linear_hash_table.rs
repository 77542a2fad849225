//! A set of `i64` values in an open-addressing hash table with linear probing
//! and tabulation hashing.
use vstd::prelude::*;
use vstd::arithmetic::power2::{pow2, lemma_pow2_unfold, lemma2_to64};

verus! {

/// A value that can be hashed to a machine word.
pub trait Hashable {
    spec fn hash_spec(&self) -> usize;

    fn hash_code(&self) -> (r: usize)
        ensures
            r == self.hash_spec(),
    ;
}

impl Hashable for i64 {
    open spec fn hash_spec(&self) -> usize {
        *self as usize
    }

    fn hash_code(&self) -> (r: usize) {
        *self as usize
    }
}

/// A slot of the table.
#[derive(PartialEq, Eq, Structural, Clone, Copy, Debug)]
pub enum Item {
    Value(i64),
    /// Never used: ends every probe.
    Null,
    /// Held a value that was removed: probes go on past it.
    Del,
}

/// `n` is a power of two.
pub open spec fn is_power_of_two(n: nat) -> bool {
    exists|d: nat| pow2(d) == n
}

/// The slot reached `k` steps after slot `h`, wrapping once around `len` slots.
pub open spec fn pos(h: int, k: int, len: int) -> int {
    if h + k < len {
        h + k
    } else {
        h + k - len
    }
}

/// The number of steps from slot `h` forward to slot `p`.
pub open spec fn dist(h: int, p: int, len: int) -> int {
    if h <= p {
        p - h
    } else {
        p + len - h
    }
}

/// The number of slots that are not `Null`.
pub open spec fn nonnull(s: Seq<Item>) -> nat
    decreases s.len(),
{
    if s.len() == 0 {
        0
    } else {
        nonnull(s.drop_last()) + if s.last() is Null {
            0nat
        } else {
            1nat
        }
    }
}

/// The number of slots that hold a value.
pub open spec fn nvalues(s: Seq<Item>) -> nat
    decreases s.len(),
{
    if s.len() == 0 {
        0
    } else {
        nvalues(s.drop_last()) + if s.last() is Value {
            1nat
        } else {
            0nat
        }
    }
}

proof fn lemma_counts_update(s: Seq<Item>, i: int, x: Item)
    requires
        0 <= i < s.len(),
    ensures
        nonnull(s.update(i, x)) + (if s[i] is Null {
            0int
        } else {
            1int
        }) == nonnull(s) + (if x is Null {
            0int
        } else {
            1int
        }),
        nvalues(s.update(i, x)) + (if s[i] is Value {
            1int
        } else {
            0int
        }) == nvalues(s) + (if x is Value {
            1int
        } else {
            0int
        }),
    decreases s.len(),
{
    let u = s.update(i, x);
    if i == s.len() - 1 {
        assert(u.drop_last() =~= s.drop_last());
    } else {
        assert(u.drop_last() =~= s.drop_last().update(i, x));
        lemma_counts_update(s.drop_last(), i, x);
    }
}

proof fn lemma_null_exists(s: Seq<Item>)
    requires
        nonnull(s) < s.len(),
    ensures
        exists|i: int| 0 <= i < s.len() && s[i] is Null,
    decreases s.len(),
{
    if !(s.last() is Null) {
        lemma_null_exists(s.drop_last());
        let i = choose|i: int| #![auto] 0 <= i < s.drop_last().len() && s.drop_last()[i] is Null;
        assert(s[i] is Null);
    }
}

proof fn lemma_values_le_nonnull(s: Seq<Item>)
    ensures
        nvalues(s) <= nonnull(s),
        nonnull(s) <= s.len(),
    decreases s.len(),
{
    if s.len() > 0 {
        lemma_values_le_nonnull(s.drop_last());
    }
}

proof fn lemma_prefix_counts(s: Seq<Item>, j: int)
    requires
        0 <= j < s.len(),
    ensures
        nvalues(s.take(j + 1)) == nvalues(s.take(j)) + if s[j] is Value {
            1nat
        } else {
            0nat
        },
{
    assert(s.take(j + 1).drop_last() =~= s.take(j));
}

proof fn lemma_all_null(n: nat)
    ensures
        nonnull(Seq::new(n, |i: int| Item::Null)) == 0,
        nvalues(Seq::new(n, |i: int| Item::Null)) == 0,
    decreases n,
{
    if n > 0 {
        assert(Seq::new(n, |i: int| Item::Null).drop_last() =~= Seq::new(
            (n - 1) as nat,
            |i: int| Item::Null,
        ));
        lemma_all_null((n - 1) as nat);
    }
}

/// The home slot of `x` for the given tabulation tables in a table of `len`
/// slots. With `len` a power of two, the remainder keeps the low bits of the
/// mixed hash.
pub open spec fn hash_of(tab: Seq<Vec<usize>>, len: nat, x: i64) -> int {
    let h = x.hash_spec();
    ((tab[0]@[(h & 0xff) as int] ^ tab[1]@[((h >> 8usize) & 0xff) as int] ^ tab[2]@[((h >> 16usize)
        & 0xff) as int] ^ tab[3]@[((h >> 24usize) & 0xff) as int]) as int) % (len as int)
}

/// Every value can be reached from its home slot without crossing a `Null`.
pub open spec fn probed(t: Seq<Item>, tab: Seq<Vec<usize>>) -> bool {
    forall|p: int, k: int|
        #![trigger t[p], t[pos(hash_of(tab, t.len(), t[p]->Value_0) as int, k, t.len() as int)]]
        0 <= p < t.len() && t[p] is Value && 0 <= k < dist(
            hash_of(tab, t.len(), t[p]->Value_0) as int,
            p,
            t.len() as int,
        ) ==> !(t[pos(hash_of(tab, t.len(), t[p]->Value_0) as int, k, t.len() as int)] is Null)
}

/// No value is stored twice.
pub open spec fn distinct(t: Seq<Item>) -> bool {
    forall|i: int, j: int|
        0 <= i < t.len() && 0 <= j < t.len() && t[i] is Value && t[j] == t[i] ==> i == j
}

/// The set of values stored in the slots.
pub open spec fn stored(t: Seq<Item>) -> Set<i64> {
    Set::new(|v: i64| exists|i: int| 0 <= i < t.len() && t[i] == Item::Value(v))
}

proof fn lemma_byte(h: usize)
    ensures
        (h & 0xff) < 256,
        ((h >> 8usize) & 0xff) < 256,
        ((h >> 16usize) & 0xff) < 256,
        ((h >> 24usize) & 0xff) < 256,
{
    assert((h & 0xff) < 256) by (bit_vector);
    assert(((h >> 8usize) & 0xff) < 256) by (bit_vector);
    assert(((h >> 16usize) & 0xff) < 256) by (bit_vector);
    assert(((h >> 24usize) & 0xff) < 256) by (bit_vector);
}

/// A set of `i64` values.
pub struct LinearHashTable {
    t: Vec<Item>,
    /// The number of values.
    n: usize,
    /// The number of slots that are not `Null`.
    q: usize,
    tab: Vec<Vec<usize>>,
    set: Ghost<Set<i64>>,
}

impl View for LinearHashTable {
    type V = Set<i64>;

    closed spec fn view(&self) -> Set<i64> {
        self.set@
    }
}

proof fn lemma_prefix_le(s: Seq<Item>, j: int)
    requires
        0 <= j <= s.len(),
    ensures
        nvalues(s.take(j)) <= nvalues(s),
    decreases s.len() - j,
{
    if j == s.len() {
        assert(s.take(j) =~= s);
    } else {
        lemma_prefix_counts(s, j);
        lemma_prefix_le(s, j + 1);
    }
}

/// Walking forward from `h`, every slot of `t` is reached within `t.len()` steps.
proof fn lemma_pos_dist(h: int, p: int, len: int)
    requires
        0 <= h < len,
        0 <= p < len,
    ensures
        0 <= dist(h, p, len) < len,
        pos(h, dist(h, p, len), len) == p,
{
}

impl LinearHashTable {
    /// The tables are in place, the counts are right, every value is
    /// reachable from its home slot and stored once, and at most half of the
    /// slots are in use.
    pub closed spec fn wf(&self) -> bool {
        &&& self.tab@.len() == 4
        &&& forall|i: int| 0 <= i < 4 ==> (#[trigger] self.tab@[i])@.len() == 256
        &&& 1 <= self.t@.len()
        &&& is_power_of_two(self.t@.len())
        &&& self.t@.len() + 2 <= usize::MAX
        &&& nonnull(self.t@) == self.q
        &&& nvalues(self.t@) == self.n
        &&& 2 * self.q <= self.t@.len()
        &&& self.n <= usize::MAX / 8
        &&& probed(self.t@, self.tab@)
        &&& distinct(self.t@)
        &&& self.set@ == stored(self.t@)
        &&& self.set@.finite()
        &&& self.set@.len() == self.n
    }

    pub fn new() -> (r: Self)
        ensures
            r.wf(),
            r@.finite(),
            r@ == Set::<i64>::empty(),
    {
        let mut tab: Vec<Vec<usize>> = Vec::new();
        let mut k: usize = 0;
        while k < 4
            invariant
                k <= 4,
                tab@.len() == k,
                forall|i: int| 0 <= i < k ==> (#[trigger] tab@[i])@.len() == 256,
            decreases 4 - k,
        {
            let mut row: Vec<usize> = Vec::new();
            let mut j: usize = 0;
            while j < 256
                invariant
                    j <= 256,
                    row@.len() == j,
                decreases 256 - j,
            {
                row.push(rand::random::<usize>());
                j = j + 1;
            }
            tab.push(row);
            k = k + 1;
        }
        let mut t: Vec<Item> = Vec::new();
        t.push(Item::Null);
        proof {
            assert(t@.drop_last().len() == 0);
            assert(nonnull(t@.drop_last()) == 0);
            assert(nvalues(t@.drop_last()) == 0);
            assert(nonnull(t@) == 0);
            assert(nvalues(t@) == 0);
            assert(stored(t@) =~= Set::<i64>::empty());
            lemma2_to64();
            assert(pow2(0) == t@.len());
        }
        LinearHashTable { t, n: 0, q: 0, tab, set: Ghost(Set::empty()) }
    }

    /// The home slot of `x`.
    fn hash(&self, x: &i64) -> (r: usize)
        requires
            self.tab@.len() == 4,
            forall|i: int| 0 <= i < 4 ==> (#[trigger] self.tab@[i])@.len() == 256,
            1 <= self.t@.len(),
        ensures
            r == hash_of(self.tab@, self.t@.len(), *x),
            r < self.t@.len(),
    {
        let h = x.hash_code();
        proof {
            lemma_byte(h);
            assert(self.tab@[0]@.len() == 256);
            assert(self.tab@[1]@.len() == 256);
            assert(self.tab@[2]@.len() == 256);
            assert(self.tab@[3]@.len() == 256);
        }
        let m = self.tab[0][h & 0xff] ^ self.tab[1][(h >> 8) & 0xff] ^ self.tab[2][(h >> 16)
            & 0xff] ^ self.tab[3][(h >> 24) & 0xff];
        m % self.t.len()
    }

    /// The stored value equal to `x`, if any.
    pub fn get(&self, x: &i64) -> (r: Option<&i64>)
        requires
            self.wf(),
        ensures
            r is Some <==> self@.contains(*x),
            r is Some ==> *r->0 == *x,
    {
        let len = self.t.len();
        let h = self.hash(x);
        let mut i = h;
        let ghost mut j: int = 0;
        proof {
            lemma_values_le_nonnull(self.t@);
        }
        while self.t[i] != Item::Null
            invariant
                self.wf(),
                len == self.t@.len(),
                h == hash_of(self.tab@, self.t@.len(), *x),
                0 <= h < len,
                0 <= j < len,
                i == pos(h as int, j, len as int),
                forall|k: int|
                    0 <= k < j ==> !(#[trigger] self.t@[pos(h as int, k, len as int)] is Null)
                        && self.t@[pos(h as int, k, len as int)] != Item::Value(*x),
            decreases len - j,
        {
            if let Item::Value(y) = &self.t[i] {
                if *y == *x {
                    proof {
                        assert(stored(self.t@).contains(*x));
                    }
                    return Some(y);
                }
            }
            proof {
                if j + 1 == len {
                    lemma_null_exists(self.t@);
                    let z = choose|z: int| #![auto] 0 <= z < self.t@.len() && self.t@[z] is Null;
                    lemma_pos_dist(h as int, z, len as int);
                    let k = dist(h as int, z, len as int);
                    assert(!(self.t@[pos(h as int, k, len as int)] is Null));
                }
            }
            i = if i + 1 == len {
                0
            } else {
                i + 1
            };
            proof {
                j = j + 1;
            }
        }
        proof {
            if stored(self.t@).contains(*x) {
                let p = choose|p: int| #![auto] 0 <= p < self.t@.len() && self.t@[p] == Item::Value(*x);
                lemma_pos_dist(h as int, p, len as int);
                let dd = dist(h as int, p, len as int);
                if dd < j {
                    assert(self.t@[pos(h as int, dd, len as int)] != Item::Value(*x));
                } else if dd > j {
                    assert(!(self.t@[pos(hash_of(self.tab@, self.t@.len(), self.t@[p]->Value_0) as int, j, self.t@.len() as int)] is Null));
                }
            }
        }
        None
    }

    /// Rebuilds the table with `2^d` slots, `d` the least positive number with
    /// `2^d >= 3 n`, and only the values in it.
    fn resize(&mut self)
        requires
            old(self).wf(),
        ensures
            final(self).wf(),
            final(self)@ == old(self)@,
            final(self).n == old(self).n,
            2 * (final(self).q + 1) <= final(self).t@.len(),
            final(self).q == final(self).n,
            forall|i: int| 0 <= i < final(self).t@.len() ==> !(#[trigger] final(self).t@[i] is Del),
            final(self).t@.len() >= 3 * final(self).n,
            final(self).t@.len() == 2 || final(self).t@.len() / 2 < 3 * final(self).n,
    {
        let n = self.n;
        let mut len: usize = 2;
        let ghost mut d: nat = 1;
        proof {
            lemma2_to64();
        }
        while len < 3 * n
            invariant
                n <= usize::MAX / 8,
                2 <= len,
                len % 2 == 0,
                len == 2 || len < 6 * n,
                len == pow2(d),
            decreases usize::MAX - len,
        {
            len = len * 2;
            proof {
                d = d + 1;
                lemma_pow2_unfold(d);
            }
        }
        let mut t: Vec<Item> = Vec::new();
        let mut k: usize = 0;
        while k < len
            invariant
                k <= len,
                t@ == Seq::new(k as nat, |i: int| Item::Null),
            decreases len - k,
        {
            t.push(Item::Null);
            k = k + 1;
            proof {
                assert(t@ =~= Seq::new(k as nat, |i: int| Item::Null));
            }
        }
        proof {
            lemma_all_null(len as nat);
            assert(stored(t@) =~= Set::<i64>::empty());
            assert(old(self).t@.take(0) =~= Seq::<Item>::empty());
            assert(stored(old(self).t@.take(0)) =~= Set::<i64>::empty());
        }
        core::mem::swap(&mut self.t, &mut t);
        let ghost src = t@;
        self.q = n;
        let mut j: usize = 0;
        while j < t.len()
            invariant
                t@ == src,
                src == old(self).t@,
                self.set == old(self).set,
                self.n == n,
                self.q == n,
                n == old(self).n,
                old(self).wf(),
                distinct(src),
                nvalues(src) == n,
                stored(src) == old(self).set@,
                self.tab@ == old(self).tab@,
                self.tab@.len() == 4,
                forall|i: int| 0 <= i < 4 ==> (#[trigger] self.tab@[i])@.len() == 256,
                self.t@.len() == len,
                2 <= len,
                3 * n <= len,
                0 <= j <= src.len(),
                nonnull(self.t@) == nvalues(src.take(j as int)),
                nvalues(self.t@) == nvalues(src.take(j as int)),
                probed(self.t@, self.tab@),
                distinct(self.t@),
                stored(self.t@) == stored(src.take(j as int)),
                forall|x: int| 0 <= x < self.t@.len() ==> !(#[trigger] self.t@[x] is Del),
                len == pow2(d),
                len == 2 || len < 6 * n,
            decreases src.len() - j,
        {
            let ghost s0 = src.take(j as int);
            let ghost s1 = src.take(j as int + 1);
            proof {
                lemma_prefix_counts(src, j as int);
                assert(s1 =~= s0.push(src[j as int]));
            }
            if let Item::Value(x) = t[j] {
                let h = self.hash(&x);
                let mut i = h;
                let ghost mut g: int = 0;
                proof {
                    lemma_prefix_le(src, j as int);
                    lemma_values_le_nonnull(self.t@);
                }
                while self.t[i] != Item::Null
                    invariant
                        self.t@.len() == len,
                        self.tab@.len() == 4,
                        forall|i: int| 0 <= i < 4 ==> (#[trigger] self.tab@[i])@.len() == 256,
                        nonnull(self.t@) < len,
                        h == hash_of(self.tab@, self.t@.len(), x),
                        0 <= h < len,
                        0 <= g < len,
                        i == pos(h as int, g, len as int),
                        forall|k: int|
                            0 <= k < g ==> !(#[trigger] self.t@[pos(h as int, k, len as int)] is Null),
                    decreases len - g,
                {
                    proof {
                        if g + 1 == len {
                            lemma_null_exists(self.t@);
                            let z = choose|z: int| #![auto] 0 <= z < self.t@.len() && self.t@[z] is Null;
                            lemma_pos_dist(h as int, z, len as int);
                            let kk = dist(h as int, z, len as int);
                            assert(!(self.t@[pos(h as int, kk, len as int)] is Null));
                        }
                    }
                    i = if i + 1 == len {
                        0
                    } else {
                        i + 1
                    };
                    proof {
                        g = g + 1;
                    }
                }
                let ghost before = self.t@;
                self.t[i] = Item::Value(x);
                proof {
                    lemma_counts_update(before, i as int, Item::Value(x));
                    assert(!stored(s0).contains(x)) by {
                        if stored(s0).contains(x) {
                            let p = choose|p: int| #![auto]
                                0 <= p < s0.len() && s0[p]
                                    == Item::Value(x);
                            assert(src[p] == src[j as int]);
                        }
                    }
                    assert(stored(self.t@) =~= stored(s1)) by {
                        assert forall|v: i64| stored(self.t@).contains(v) implies stored(
                            s1,
                        ).contains(v) by {
                            let p = choose|p: int| #![auto] 0 <= p < self.t@.len() && self.t@[p] == Item::Value(v);
                            if p != i {
                                assert(stored(before).contains(v));
                                let p2 = choose|p2: int| #![auto]
                                    0 <= p2 < s0.len() && s0[p2]
                                        == Item::Value(v);
                                assert(s1[p2] == Item::Value(v));
                            } else {
                                assert(s1[j as int] == Item::Value(v));
                            }
                        }
                        assert forall|v: i64| stored(s1).contains(v) implies stored(
                            self.t@,
                        ).contains(v) by {
                            let p = choose|p: int| #![auto]
                                0 <= p < s1.len() && s1[p]
                                    == Item::Value(v);
                            if p < j {
                                assert(s0[p] == Item::Value(v));
                                assert(stored(before).contains(v));
                                let p2 = choose|p2: int| #![auto] 0 <= p2 < before.len() && before[p2] == Item::Value(v);
                                assert(p2 != i);
                                assert(self.t@[p2] == Item::Value(v));
                            } else {
                                assert(self.t@[i as int] == Item::Value(v));
                            }
                        }
                    }
                    assert(distinct(self.t@)) by {
                        assert forall|a: int, b: int|
                            0 <= a < self.t@.len() && 0 <= b < self.t@.len() && self.t@[a] is Value
                                && self.t@[b] == self.t@[a] implies a == b by {
                            if a != i && b != i {
                                assert(before[a] == before[b]);
                            } else if a == i && b != i {
                                assert(stored(before).contains(x));
                            } else if b == i && a != i {
                                assert(stored(before).contains(x));
                            }
                        }
                    }
                    assert(probed(self.t@, self.tab@)) by {
                        assert forall|p: int, k: int|
                            0 <= p < self.t@.len() && self.t@[p] is Value && 0 <= k < dist(
                                hash_of(self.tab@, self.t@.len(), self.t@[p]->Value_0) as int,
                                p,
                                self.t@.len() as int,
                            ) implies !(#[trigger] self.t@[pos(
                                hash_of(self.tab@, self.t@.len(), self.t@[p]->Value_0) as int,
                                k,
                                self.t@.len() as int,
                            )] is Null) by {
                            let hp = hash_of(self.tab@, self.t@.len(), self.t@[p]->Value_0) as int;
                            if p != i {
                                assert(before[p] == self.t@[p]);
                                assert(!(before[pos(hash_of(self.tab@, before.len(), before[p]->Value_0) as int, k, before.len() as int)] is Null));
                            } else {
                                lemma_pos_dist(h as int, i as int, len as int);
                                if pos(hp, k, len as int) != i {
                                    assert(!(before[pos(h as int, k, len as int)] is Null));
                                }
                            }
                        }
                    }
                }
            } else {
                proof {
                    assert(stored(s1) =~= stored(s0)) by {
                        assert forall|v: i64| stored(s1).contains(v) implies stored(
                            s0,
                        ).contains(v) by {
                            let p = choose|p: int| #![auto]
                                0 <= p < s1.len() && s1[p]
                                    == Item::Value(v);
                            assert(p != j);
                            assert(s0[p] == Item::Value(v));
                        }
                        assert forall|v: i64| stored(s0).contains(v) implies stored(
                            s1,
                        ).contains(v) by {
                            let p = choose|p: int| #![auto]
                                0 <= p < s0.len() && s0[p]
                                    == Item::Value(v);
                            assert(s1[p] == Item::Value(v));
                        }
                    }
                }
            }
            j = j + 1;
        }
        proof {
            assert(src.take(src.len() as int) =~= src);
            lemma_values_le_nonnull(self.t@);
        }
    }

    /// Adds `x`; returns whether it was absent.
    pub fn insert(&mut self, x: i64) -> (r: bool)
        requires
            old(self).wf(),
            old(self)@.len() < usize::MAX / 8,
        ensures
            final(self).wf(),
            final(self)@.finite(),
            final(self)@ == old(self)@.insert(x),
            r == !old(self)@.contains(x),
    {
        if self.get(&x).is_some() {
            proof {
                assert(self.set@.insert(x) =~= self.set@);
            }
            return false;
        }
        if 2 * (self.q + 1) > self.t.len() {
            self.resize();
        }
        let len = self.t.len();
        let h = self.hash(&x);
        let mut i = h;
        let ghost mut g: int = 0;
        proof {
            lemma_values_le_nonnull(self.t@);
        }
        while self.t[i] != Item::Null && self.t[i] != Item::Del
            invariant
                self.wf(),
                2 * (self.q + 1) <= self.t@.len(),
                len == self.t@.len(),
                h == hash_of(self.tab@, self.t@.len(), x),
                0 <= h < len,
                0 <= g < len,
                i == pos(h as int, g, len as int),
                forall|k: int| 0 <= k < g ==> (#[trigger] self.t@[pos(h as int, k, len as int)]) is Value,
            decreases len - g,
        {
            proof {
                if g + 1 == len {
                    lemma_null_exists(self.t@);
                    let z = choose|z: int| 0 <= z < self.t@.len() && self.t@[z] is Null;
                    lemma_pos_dist(h as int, z, len as int);
                    let kk = dist(h as int, z, len as int);
                    assert(self.t@[pos(h as int, kk, len as int)] is Value);
                }
            }
            i = if i + 1 == len {
                0
            } else {
                i + 1
            };
            proof {
                g = g + 1;
            }
        }
        let ghost before = self.t@;
        if self.t[i] == Item::Null {
            self.q = self.q + 1;
        }
        self.n = self.n + 1;
        self.t[i] = Item::Value(x);
        proof {
            lemma_counts_update(before, i as int, Item::Value(x));
            assert(!stored(before).contains(x));
            assert(stored(self.t@) =~= stored(before).insert(x)) by {
                assert forall|v: i64| stored(self.t@).contains(v) implies stored(before).insert(x).contains(v) by {
                    let p = choose|p: int| #![auto] 0 <= p < self.t@.len() && self.t@[p] == Item::Value(v);
                    if p != i {
                        assert(before[p] == Item::Value(v));
                    }
                }
                assert forall|v: i64| stored(before).insert(x).contains(v) implies stored(self.t@).contains(v) by {
                    if v == x {
                        assert(self.t@[i as int] == Item::Value(v));
                    } else {
                        let p = choose|p: int| #![auto] 0 <= p < before.len() && before[p] == Item::Value(v);
                        assert(self.t@[p] == Item::Value(v));
                    }
                }
            }
            self.set@ = self.set@.insert(x);
            assert(distinct(self.t@)) by {
                assert forall|a: int, b: int|
                    0 <= a < self.t@.len() && 0 <= b < self.t@.len() && self.t@[a] is Value
                        && self.t@[b] == self.t@[a] implies a == b by {
                    if a != i && b != i {
                        assert(before[a] == before[b]);
                    } else if a == i && b != i {
                        assert(stored(before).contains(x));
                    } else if b == i && a != i {
                        assert(stored(before).contains(x));
                    }
                }
            }
            assert(probed(self.t@, self.tab@)) by {
                assert forall|p: int, k: int|
                    0 <= p < self.t@.len() && self.t@[p] is Value && 0 <= k < dist(
                        hash_of(self.tab@, self.t@.len(), self.t@[p]->Value_0) as int,
                        p,
                        self.t@.len() as int,
                    ) implies !(#[trigger] self.t@[pos(
                        hash_of(self.tab@, self.t@.len(), self.t@[p]->Value_0) as int,
                        k,
                        self.t@.len() as int,
                    )] is Null) by {
                    let hp = hash_of(self.tab@, self.t@.len(), self.t@[p]->Value_0) as int;
                    if p != i {
                        assert(before[p] == self.t@[p]);
                        assert(!(before[pos(hash_of(self.tab@, before.len(), before[p]->Value_0) as int, k, before.len() as int)] is Null));
                    } else {
                        lemma_pos_dist(h as int, i as int, len as int);
                        if pos(hp, k, len as int) != i {
                            assert(before[pos(h as int, k, len as int)] is Value);
                        }
                    }
                }
            }
        }
        true
    }

    /// Removes `x`; returns whether it was present.
    pub fn remove(&mut self, x: &i64) -> (r: bool)
        requires
            old(self).wf(),
        ensures
            final(self).wf(),
            final(self)@.finite(),
            final(self)@ == old(self)@.remove(*x),
            r == old(self)@.contains(*x),
    {
        let len = self.t.len();
        let h = self.hash(x);
        let mut i = h;
        let ghost mut j: int = 0;
        proof {
            lemma_values_le_nonnull(self.t@);
        }
        while self.t[i] != Item::Null
            invariant
                self.wf(),
                *old(self) == *self,
                len == self.t@.len(),
                h == hash_of(self.tab@, self.t@.len(), *x),
                0 <= h < len,
                0 <= j < len,
                i == pos(h as int, j, len as int),
                forall|k: int|
                    0 <= k < j ==> !(#[trigger] self.t@[pos(h as int, k, len as int)] is Null)
                        && self.t@[pos(h as int, k, len as int)] != Item::Value(*x),
            decreases len - j,
        {
            if self.t[i] == Item::Value(*x) {
                let ghost before = self.t@;
                proof {
                    lemma_counts_update(before, i as int, Item::Del);
                }
                self.t[i] = Item::Del;
                self.n = self.n - 1;
                proof {
                    assert(stored(before).contains(*x));
                    assert(stored(self.t@) =~= stored(before).remove(*x)) by {
                        assert forall|v: i64| stored(self.t@).contains(v) implies stored(before).remove(*x).contains(v) by {
                            let p = choose|p: int| #![auto] 0 <= p < self.t@.len() && self.t@[p] == Item::Value(v);
                            assert(p != i);
                            assert(before[p] == Item::Value(v));
                            if v == *x {
                                assert(before[p] == before[i as int]);
                            }
                        }
                        assert forall|v: i64| stored(before).remove(*x).contains(v) implies stored(self.t@).contains(v) by {
                            let p = choose|p: int| #![auto] 0 <= p < before.len() && before[p] == Item::Value(v);
                            assert(self.t@[p] == Item::Value(v));
                        }
                    }
                    self.set@ = self.set@.remove(*x);
                    assert(distinct(self.t@)) by {
                        assert forall|a: int, b: int|
                            0 <= a < self.t@.len() && 0 <= b < self.t@.len() && self.t@[a] is Value
                                && self.t@[b] == self.t@[a] implies a == b by {
                            assert(before[a] == before[b]);
                        }
                    }
                    assert(probed(self.t@, self.tab@)) by {
                        assert forall|p: int, k: int|
                            0 <= p < self.t@.len() && self.t@[p] is Value && 0 <= k < dist(
                                hash_of(self.tab@, self.t@.len(), self.t@[p]->Value_0) as int,
                                p,
                                self.t@.len() as int,
                            ) implies !(#[trigger] self.t@[pos(
                                hash_of(self.tab@, self.t@.len(), self.t@[p]->Value_0) as int,
                                k,
                                self.t@.len() as int,
                            )] is Null) by {
                            assert(before[p] == self.t@[p]);
                            assert(!(before[pos(hash_of(self.tab@, before.len(), before[p]->Value_0) as int, k, before.len() as int)] is Null));
                        }
                    }
                }
                if 8 * self.n < self.t.len() {
                    self.resize();
                }
                return true;
            }
            proof {
                if j + 1 == len {
                    lemma_null_exists(self.t@);
                    let z = choose|z: int| 0 <= z < self.t@.len() && self.t@[z] is Null;
                    lemma_pos_dist(h as int, z, len as int);
                    let k = dist(h as int, z, len as int);
                    assert(!(self.t@[pos(h as int, k, len as int)] is Null));
                }
            }
            i = if i + 1 == len {
                0
            } else {
                i + 1
            };
            proof {
                j = j + 1;
            }
        }
        proof {
            if stored(self.t@).contains(*x) {
                let p = choose|p: int| #![auto] 0 <= p < self.t@.len() && self.t@[p] == Item::Value(*x);
                lemma_pos_dist(h as int, p, len as int);
                let dd = dist(h as int, p, len as int);
                if dd < j {
                    assert(self.t@[pos(h as int, dd, len as int)] != Item::Value(*x));
                } else if dd > j {
                    assert(!(self.t@[pos(hash_of(self.tab@, self.t@.len(), self.t@[p]->Value_0) as int, j, self.t@.len() as int)] is Null));
                }
            }
            assert(self.set@.remove(*x) =~= self.set@);
        }
        false
    }

    /// The slots of the table, in order.
    pub closed spec fn slots_view(&self) -> Seq<Item> {
        self.t@
    }

    /// A copy of the slots, in order: each value sits in exactly one of them.
    pub fn slots(&self) -> (r: Vec<Item>)
        requires
            self.wf(),
        ensures
            r@ == self.slots_view(),
            is_power_of_two(r@.len()),
            forall|v: i64| self@.contains(v) <==> r@.contains(Item::Value(v)),
    {
        let mut r: Vec<Item> = Vec::new();
        let mut i: usize = 0;
        while i < self.t.len()
            invariant
                i <= self.t@.len(),
                r@ == self.t@.take(i as int),
            decreases self.t@.len() - i,
        {
            r.push(self.t[i]);
            i = i + 1;
            proof {
                assert(r@ =~= self.t@.take(i as int));
            }
        }
        proof {
            assert(r@ =~= self.t@);
            assert forall|v: i64| self@.contains(v) <==> r@.contains(Item::Value(v)) by {
                if self@.contains(v) {
                    let p = choose|p: int| #![auto] 0 <= p < self.t@.len() && self.t@[p] == Item::Value(v);
                    assert(r@[p] == Item::Value(v));
                }
                if r@.contains(Item::Value(v)) {
                    let p = choose|p: int| #![auto] 0 <= p < r@.len() && r@[p] == Item::Value(v);
                    assert(stored(self.t@).contains(v));
                }
            }
        }
        r
    }

    /// The number of values.
    pub fn len(&self) -> (r: usize)
        requires
            self.wf(),
        ensures
            r == self@.len(),
            self@.finite(),
    {
        self.n
    }
}

/// A well-formed table holds finitely many values.
pub proof fn lemma_view_finite(table: LinearHashTable)
    requires
        table.wf(),
    ensures
        table@.finite(),
{
}

} // verus!
