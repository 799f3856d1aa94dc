//! A union-find (disjoint-set) engine over a fixed universe of elements
//! identified by dense indices `0..n`.
//!
//! The executable state is a single array: a negative entry `-k` marks its
//! index as the root of a set of `k` elements, a non-negative entry is the
//! index of another element closer to the set's root.  `union` joins by
//! size (the larger set's root absorbs the smaller's), `find` performs full
//! path compression.
//!
//! The specification talks about the structure through two ghost views:
//! `reps()`, the sequence assigning every element the root of its set, and
//! a distance-to-root measure that witnesses the absence of cycles.  Two
//! elements are in the same set exactly when `reps()` agrees on them.

use crate::Error;
use vstd::pervasive::unreached;
use vstd::prelude::*;

verus! {

/// How many entries of `r` hold exactly the value `root`.
///
/// Applied to the representative view of a [`DisjointSet`], this is the
/// number of elements of the set whose root is `root`.
pub open spec fn count_in_class(r: Seq<int>, root: int) -> nat
    decreases r.len(),
{
    if r.len() == 0 {
        0
    } else {
        count_in_class(r.drop_last(), root) + if r.last() == root {
            1nat
        } else {
            0nat
        }
    }
}

/// The largest universe the engine accepts; entries must remain
/// representable as `isize` on every architecture.
pub const MAX_UNIVERSE: usize = 0x7fff_ffff;

pub struct DisjointSet {
    nodes: Vec<isize>,
    rep: Ghost<Seq<int>>,
    depth: Ghost<Seq<nat>>,
}

impl DisjointSet {
    /// The number of elements in the universe.
    pub closed spec fn len(self) -> nat {
        self.nodes@.len()
    }

    /// The representative view: `reps()[i]` is the root of `i`'s set.
    pub closed spec fn reps(self) -> Seq<int> {
        self.rep@
    }

    /// Whether `i` is currently the root of its set.
    pub closed spec fn is_root(self, i: int) -> bool {
        self.nodes@[i] < 0
    }

    /// The magnitude of the size a root's entry stores (meaningful only at
    /// roots, where the entry is the negated set size).
    pub closed spec fn stored_size(self, i: int) -> int {
        -(self.nodes@[i] as int)
    }

    /// Whether `a` and `b` currently belong to the same set.
    pub open spec fn same_set(self, a: int, b: int) -> bool {
        self.reps()[a] == self.reps()[b]
    }

    /// The internal well-formedness invariant: parent links stay in range
    /// and acyclic (witnessed by a strictly decreasing distance measure),
    /// the representative view is constant along parent links and lands on
    /// roots, and every root's entry stores the negated size of its class.
    pub closed spec fn valid(self) -> bool {
        let n = self.nodes@.len() as int;
        &&& self.rep@.len() == n
        &&& self.depth@.len() == n
        &&& n <= MAX_UNIVERSE as int
        &&& forall|i: int| 0 <= i < n ==> (#[trigger] self.nodes@[i] as int) < n
        &&& forall|i: int|
            0 <= i < n && #[trigger] self.nodes@[i] >= 0 ==> self.depth@[self.nodes@[i] as int]
                < self.depth@[i]
        &&& forall|i: int|
            0 <= i < n && #[trigger] self.nodes@[i] >= 0 ==> self.rep@[self.nodes@[i] as int]
                == self.rep@[i]
        &&& forall|i: int|
            0 <= i < n && #[trigger] self.nodes@[i] < 0 ==> self.rep@[i] == i && self.depth@[i]
                == 0
        &&& forall|i: int|
            0 <= i < n ==> 0 <= #[trigger] self.rep@[i] < n && self.nodes@[self.rep@[i]] < 0
        &&& forall|i: int|
            0 <= i < n && #[trigger] self.nodes@[i] < 0 ==> -(self.nodes@[i] as int)
                == count_in_class(self.rep@, i)
    }

    /// Returns a new engine whose `size` elements form `size` singleton
    /// sets.
    ///
    /// A zero-sized universe is accepted: the resulting engine simply
    /// rejects every `find` and `union` with `IndexOutOfRange`.
    pub fn new(size: usize) -> (ds: DisjointSet)
        requires
            size <= MAX_UNIVERSE,
        ensures
            ds.valid(),
            ds.len() == size,
            ds.reps().len() == size,
            forall|i: int| 0 <= i < size ==> #[trigger] ds.reps()[i] == i,
            forall|i: int| 0 <= i < size ==> ds.is_root(i) && ds.stored_size(i) == 1,
    {
        let mut nodes: Vec<isize> = Vec::new();
        let mut k: usize = 0;
        while k < size
            invariant
                k <= size,
                nodes@.len() == k,
                forall|i: int| 0 <= i < k ==> nodes@[i] == -1isize,
            decreases size - k,
        {
            nodes.push(-1);
            k += 1;
        }
        let ghost rep = Seq::new(size as nat, |i: int| i);
        let ghost depth = Seq::new(size as nat, |i: int| 0nat);
        let ds = DisjointSet { nodes, rep: Ghost(rep), depth: Ghost(depth) };
        proof {
            assert forall|i: int| 0 <= i < size implies -(ds.nodes@[i] as int) == count_in_class(
                ds.rep@,
                i,
            ) by {
                lemma_count_identity(size as nat, i);
            }
        }
        ds
    }

    /// Returns the root of `node`'s set, or `IndexOutOfRange` if `node` is
    /// outside the universe.
    ///
    /// On success every element visited on the way to the root is
    /// rewritten to point at the root directly (full path compression).
    /// Compression never moves an element to a different set, so repeated
    /// calls keep returning the same root until a `union` joins new sets;
    /// root entries (and with them the stored set sizes) are untouched.
    pub fn find(&mut self, node: usize) -> (res: Result<usize, Error>)
        requires
            old(self).valid(),
        ensures
            final(self).valid(),
            final(self).len() == old(self).len(),
            final(self).reps() == old(self).reps(),
            forall|i: int|
                0 <= i < final(self).len() ==> (final(self).is_root(i) <==> old(self).is_root(i)),
            forall|i: int|
                0 <= i < final(self).len() && old(self).is_root(i) ==> final(self).stored_size(i)
                    == old(self).stored_size(i),
            res is Ok <==> node < old(self).len(),
            res is Err ==> *final(self) == *old(self) && res == Err::<usize, Error>(
                Error::IndexOutOfRange,
            ),
            res matches Ok(r) ==> r == old(self).reps()[node as int],
    {
        if node >= self.nodes.len() {
            return Err(Error::IndexOutOfRange);
        }
        let ghost s0 = *self;

        // First pass: walk parent links up to the root without mutating.
        let mut current: usize = node;
        while self.nodes[current] >= 0
            invariant
                *self == s0,
                s0.valid(),
                current < s0.len(),
                s0.reps()[current as int] == s0.reps()[node as int],
            decreases self.depth@[current as int],
        {
            current = self.nodes[current] as usize;
        }
        let root: usize = current;
        proof {
            assert(root as int == s0.reps()[node as int]);
        }

        // Second pass: rewrite every visited element to point at the root.
        let mut x: usize = node;
        while self.nodes[x] >= 0
            invariant
                self.valid(),
                self.len() == s0.len(),
                self.reps() == s0.reps(),
                forall|i: int| 0 <= i < s0.len() ==> (self.is_root(i) <==> s0.is_root(i)),
                forall|i: int|
                    0 <= i < s0.len() && s0.is_root(i) ==> self.stored_size(i) == s0.stored_size(
                        i,
                    ),
                x < s0.len(),
                root < s0.len(),
                root as int == s0.reps()[node as int],
                self.reps()[x as int] == root as int,
                self.is_root(root as int),
            decreases self.depth@[x as int],
        {
            let parent = self.nodes[x] as usize;
            proof {
                assert(self.depth@[x as int] >= 1);
            }
            self.nodes.set(x, root as isize);
            self.depth = Ghost(self.depth@.update(x as int, 1nat));
            x = parent;
        }
        Ok(root)
    }

    /// Returns the number of elements in `node`'s set — the magnitude of
    /// the size stored at the set's root — or `IndexOutOfRange` if `node`
    /// is outside the universe.
    pub fn size_of_set(&mut self, node: usize) -> (res: Result<usize, Error>)
        requires
            old(self).valid(),
        ensures
            final(self).valid(),
            final(self).len() == old(self).len(),
            final(self).reps() == old(self).reps(),
            forall|i: int|
                0 <= i < final(self).len() ==> (final(self).is_root(i) <==> old(self).is_root(i)),
            forall|i: int|
                0 <= i < final(self).len() && old(self).is_root(i) ==> final(self).stored_size(i)
                    == old(self).stored_size(i),
            res is Ok <==> node < old(self).len(),
            res is Err ==> *final(self) == *old(self) && res == Err::<usize, Error>(
                Error::IndexOutOfRange,
            ),
            res matches Ok(s) ==> s == count_in_class(
                old(self).reps(),
                old(self).reps()[node as int],
            ),
    {
        if node >= self.nodes.len() {
            return Err(Error::IndexOutOfRange);
        }
        let root_res = self.find(node);
        proof {
            assert(root_res is Ok);
        }
        let root = match root_res {
            Ok(r) => r,
            Err(_) => unreached(),
        };
        let entry = self.nodes[root];
        proof {
            lemma_count_le_len(self.rep@, root as int);
        }
        Ok((-entry) as usize)
    }

    /// Joins the sets `node1` and `node2` belong to, or returns
    /// `IndexOutOfRange` (mutating nothing) if either index is outside the
    /// universe.
    ///
    /// When the two elements are already in one set the call changes no
    /// observable state: representatives, roots and stored sizes all stay
    /// as they were, so repeating a `union` is always safe.  Otherwise the
    /// root whose set is larger absorbs the other (the second argument's
    /// root absorbs on ties), the surviving root accumulates both sizes,
    /// and the resulting partition is exactly the old one with the two
    /// classes of `node1` and `node2` fused.
    pub fn union(&mut self, node1: usize, node2: usize) -> (res: Result<(), Error>)
        requires
            old(self).valid(),
        ensures
            final(self).valid(),
            final(self).len() == old(self).len(),
            res is Ok <==> (node1 < old(self).len() && node2 < old(self).len()),
            res is Err ==> *final(self) == *old(self) && res == Err::<(), Error>(
                Error::IndexOutOfRange,
            ),
            res is Ok && old(self).same_set(node1 as int, node2 as int) ==> {
                &&& final(self).reps() == old(self).reps()
                &&& forall|i: int|
                    0 <= i < old(self).len() ==> (final(self).is_root(i) <==> old(self).is_root(i))
                &&& forall|i: int|
                    0 <= i < old(self).len() && old(self).is_root(i) ==> final(self).stored_size(i)
                        == old(self).stored_size(i)
            },
            res is Ok && !old(self).same_set(node1 as int, node2 as int) ==> ({
                let ra = old(self).reps()[node1 as int];
                let rb = old(self).reps()[node2 as int];
                let w = if old(self).stored_size(ra) > old(self).stored_size(rb) {
                    ra
                } else {
                    rb
                };
                let l = if w == ra {
                    rb
                } else {
                    ra
                };
                &&& final(self).reps() == merged(old(self).reps(), ra, rb, w)
                &&& forall|i: int|
                    0 <= i < old(self).len() ==> (final(self).is_root(i) <==> old(self).is_root(i)
                        && i != l)
                &&& final(self).stored_size(w) == old(self).stored_size(ra) + old(
                    self,
                ).stored_size(rb)
                &&& forall|i: int|
                    0 <= i < old(self).len() && final(self).is_root(i) && i != w ==> final(self).stored_size(i) == old(self).stored_size(i)
            }),
            res is Ok ==> final(self).same_set(node1 as int, node2 as int),
            res is Ok ==> forall|i: int, j: int|
                0 <= i < old(self).len() && 0 <= j < old(self).len() ==> (#[trigger] final(self).same_set(i, j) <==> (old(self).same_set(i, j) || ((old(self).same_set(
                    i,
                    node1 as int,
                ) || old(self).same_set(i, node2 as int)) && (old(self).same_set(j, node1 as int)
                    || old(self).same_set(j, node2 as int))))),
    {
        if node1 >= self.nodes.len() || node2 >= self.nodes.len() {
            return Err(Error::IndexOutOfRange);
        }
        let ra = match self.find(node1) {
            Ok(r) => r,
            Err(_) => unreached(),
        };
        let rb = match self.find(node2) {
            Ok(r) => r,
            Err(_) => unreached(),
        };
        if ra == rb {
            return Ok(());
        }
        let ghost n = self.nodes@.len() as int;
        let ghost r0 = self.rep@;
        let ghost d0 = self.depth@;
        proof {
            assert(ra as int == r0[node1 as int] && rb as int == r0[node2 as int]);
            lemma_count_merge(r0, ra as int, rb as int, ra as int);
            lemma_count_merge(r0, ra as int, rb as int, rb as int);
            lemma_count_le_len(merged(r0, ra as int, rb as int, ra as int), ra as int);
            lemma_count_le_len(merged(r0, ra as int, rb as int, rb as int), rb as int);
        }
        let va = self.nodes[ra];
        let vb = self.nodes[rb];
        if va < vb {
            // `ra` heads the larger set: it absorbs `rb`'s set.
            self.nodes.set(ra, va + vb);
            self.nodes.set(rb, ra as isize);
            self.rep = Ghost(merged(r0, ra as int, rb as int, ra as int));
            self.depth = Ghost(
                Seq::new(
                    n as nat,
                    |i: int|
                        if r0[i] == rb as int {
                            (d0[i] + 1) as nat
                        } else {
                            d0[i]
                        },
                ),
            );
        } else {
            // `rb` heads a set at least as large: it absorbs `ra`'s set.
            self.nodes.set(rb, va + vb);
            self.nodes.set(ra, rb as isize);
            self.rep = Ghost(merged(r0, ra as int, rb as int, rb as int));
            self.depth = Ghost(
                Seq::new(
                    n as nat,
                    |i: int|
                        if r0[i] == ra as int {
                            (d0[i] + 1) as nat
                        } else {
                            d0[i]
                        },
                ),
            );
        }
        Ok(())
    }
}

/// The shape of the representative view of a well-formed engine: one
/// entry per element, every representative in range, a root for its own
/// set, and its own representative.
pub proof fn lemma_valid_view(ds: DisjointSet)
    requires
        ds.valid(),
    ensures
        ds.reps().len() == ds.len(),
        forall|i: int|
            0 <= i < ds.len() ==> 0 <= #[trigger] ds.reps()[i] < ds.len() && ds.is_root(
                ds.reps()[i],
            ) && ds.reps()[ds.reps()[i]] == ds.reps()[i],
        forall|i: int| 0 <= i < ds.len() ==> (ds.is_root(i) <==> ds.reps()[i] == i),
{
}

/// After any sequence of unions, the magnitude of the size stored at a
/// root's entry equals the number of elements whose `find` resolves to
/// that root.
pub proof fn lemma_size_accounting(ds: DisjointSet, root: int)
    requires
        ds.valid(),
        0 <= root < ds.len(),
        ds.reps()[root] == root,
    ensures
        ds.is_root(root),
        ds.stored_size(root) == count_in_class(ds.reps(), root),
{
}

/// The representative view after the classes of roots `ra` and `rb` are
/// joined under the surviving root `w`: every element of either class is
/// reassigned to `w`, all others keep their representative.
pub open spec fn merged(r: Seq<int>, ra: int, rb: int, w: int) -> Seq<int> {
    Seq::new(
        r.len(),
        |i: int|
            if r[i] == ra || r[i] == rb {
                w
            } else {
                r[i]
            },
    )
}

/// In the identity assignment over `0..n`, each root is its own class's
/// only element.
proof fn lemma_count_identity(n: nat, root: int)
    requires
        0 <= root < n,
    ensures
        count_in_class(Seq::new(n, |i: int| i), root) == 1,
    decreases n,
{
    let r = Seq::new(n, |i: int| i);
    assert(r.drop_last() =~= Seq::new((n - 1) as nat, |i: int| i));
    if root == n - 1 {
        lemma_count_absent(r.drop_last(), root);
    } else {
        lemma_count_identity((n - 1) as nat, root);
    }
}

/// A value occurring nowhere in `r` has a count of zero.
proof fn lemma_count_absent(r: Seq<int>, root: int)
    requires
        forall|i: int| 0 <= i < r.len() ==> r[i] != root,
    ensures
        count_in_class(r, root) == 0,
    decreases r.len(),
{
    if r.len() > 0 {
        lemma_count_absent(r.drop_last(), root);
    }
}

/// No value can occur more often than the sequence is long.
proof fn lemma_count_le_len(r: Seq<int>, root: int)
    ensures
        count_in_class(r, root) <= r.len(),
    decreases r.len(),
{
    if r.len() > 0 {
        lemma_count_le_len(r.drop_last(), root);
    }
}

/// Joining two classes adds their element counts at the surviving root
/// and leaves every other class's count untouched.
proof fn lemma_count_merge(r: Seq<int>, ra: int, rb: int, w: int)
    requires
        ra != rb,
        w == ra || w == rb,
    ensures
        count_in_class(merged(r, ra, rb, w), w) == count_in_class(r, ra) + count_in_class(r, rb),
        forall|q: int|
            q != ra && q != rb ==> count_in_class(merged(r, ra, rb, w), q) == count_in_class(r, q),
    decreases r.len(),
{
    let m = merged(r, ra, rb, w);
    if r.len() == 0 {
        assert(m =~= Seq::<int>::empty());
    } else {
        lemma_count_merge(r.drop_last(), ra, rb, w);
        assert(m.drop_last() =~= merged(r.drop_last(), ra, rb, w));
        assert(m.last() == if r.last() == ra || r.last() == rb {
            w
        } else {
            r.last()
        });
        assert forall|q: int| q != ra && q != rb implies count_in_class(m, q) == count_in_class(
            r,
            q,
        ) by {
            assert(count_in_class(m, q) == count_in_class(m.drop_last(), q) + if m.last() == q {
                1nat
            } else {
                0nat
            });
            assert(count_in_class(merged(r.drop_last(), ra, rb, w), q) == count_in_class(
                r.drop_last(),
                q,
            ));
        }
    }
}

} // verus!
