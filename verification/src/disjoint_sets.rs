//! Union-find (disjoint-set) structure over a fixed universe `0..size` of
//! element identifiers, with path compression. `merge` always attaches the
//! first argument's root under the second argument's root; no union-by-rank
//! or union-by-size heuristic is applied.

use vstd::prelude::*;

verus! {

/// Every recorded parent is itself a valid element identifier.
spec fn parents_ok(p: Seq<usize>) -> bool {
    forall|i: int| 0 <= i < p.len() ==> p[i] < p.len()
}

/// `d` witnesses that following parent pointers terminates: each step to a
/// parent strictly lowers the depth, and self-parented elements (roots) sit
/// at depth zero.
spec fn depths_ok(p: Seq<usize>, d: Seq<nat>) -> bool {
    &&& d.len() == p.len()
    &&& forall|i: int| 0 <= i < p.len() && p[i] != i ==> d[p[i] as int] < d[i]
    &&& forall|i: int| 0 <= i < p.len() && p[i] == i ==> d[i] == 0
}

/// The representative reached from `i` by following parent pointers.
spec fn root_in(p: Seq<usize>, d: Seq<nat>, i: int) -> int
    decreases d[i],
        when 0 <= i < p.len() && parents_ok(p) && depths_ok(p, d)
{
    if p[i] == i {
        i
    } else {
        root_in(p, d, p[i] as int)
    }
}

/// Whether `i` lies on the parent path from `e` to its root (`e` included).
spec fn on_path_in(p: Seq<usize>, d: Seq<nat>, e: int, i: int) -> bool
    decreases d[e],
        when 0 <= e < p.len() && parents_ok(p) && depths_ok(p, d)
{
    i == e || (p[e] != e && on_path_in(p, d, p[e] as int, i))
}

/// Every element on a parent path is a valid element identifier.
proof fn lemma_on_path_in_range(p: Seq<usize>, d: Seq<nat>, e: int, i: int)
    requires
        parents_ok(p),
        depths_ok(p, d),
        0 <= e < p.len(),
        on_path_in(p, d, e, i),
    ensures
        0 <= i < p.len(),
    decreases d[e],
{
    if i != e {
        lemma_on_path_in_range(p, d, p[e] as int, i);
    }
}

/// The root reached from `i` is a valid, self-parented element no deeper
/// than `i`, and differs from `i` whenever `i` is not its own parent.
proof fn lemma_root_in_props(p: Seq<usize>, d: Seq<nat>, i: int)
    requires
        parents_ok(p),
        depths_ok(p, d),
        0 <= i < p.len(),
    ensures
        ({
            let r = root_in(p, d, i);
            &&& 0 <= r < p.len()
            &&& p[r] == r
            &&& d[r] <= d[i]
            &&& (p[i] != i ==> r != i && d[r] < d[i])
        }),
    decreases d[i],
{
    if p[i] != i {
        lemma_root_in_props(p, d, p[i] as int);
    }
}

/// Repointing `x` directly at its own root keeps the forest well formed and
/// leaves every element's representative unchanged.
proof fn lemma_compress_wf(p: Seq<usize>, d: Seq<nat>, x: int)
    requires
        parents_ok(p),
        depths_ok(p, d),
        0 <= x < p.len(),
    ensures
        parents_ok(p.update(x, root_in(p, d, x) as usize)),
        depths_ok(p.update(x, root_in(p, d, x) as usize), d),
{
    let r = root_in(p, d, x);
    let p2 = p.update(x, r as usize);
    lemma_root_in_props(p, d, x);
    assert forall|i: int| 0 <= i < p2.len() && p2[i] != i implies d[p2[i] as int] < d[i] by {
        if i != x {
            assert(p2[i] == p[i]);
        }
    }
    assert forall|i: int| 0 <= i < p2.len() && p2[i] == i implies d[i] == 0 by {
        if i == x {
            assert(p[x] == x);
        } else {
            assert(p2[i] == p[i]);
        }
    }
}

/// The representative of every element is the same before and after `x` is
/// repointed directly at its own root.
proof fn lemma_compress_root(p: Seq<usize>, d: Seq<nat>, x: int, i: int)
    requires
        parents_ok(p),
        depths_ok(p, d),
        0 <= x < p.len(),
        0 <= i < p.len(),
    ensures
        root_in(p.update(x, root_in(p, d, x) as usize), d, i) == root_in(p, d, i),
    decreases d[i],
{
    let r = root_in(p, d, x);
    let p2 = p.update(x, r as usize);
    lemma_compress_wf(p, d, x);
    lemma_root_in_props(p, d, x);
    if i == x {
        if p[x] == x {
            assert(p2[x] == x);
        } else {
            assert(r != x);
            assert(p2[r] == p[r]);
            assert(p[r] == r);
            assert(root_in(p2, d, r) == r);
            assert(root_in(p2, d, x) == root_in(p2, d, r));
        }
    } else {
        assert(p2[i] == p[i]);
        if p[i] != i {
            lemma_compress_root(p, d, x, p[i] as int);
        }
    }
}

/// The depth witness after the root `ru` is attached under another root:
/// every element of `ru`'s old set moves one step further from its new root.
spec fn shifted(p: Seq<usize>, d: Seq<nat>, ru: int) -> Seq<nat> {
    Seq::new(d.len(), |j: int| if root_in(p, d, j) == ru { (d[j] + 1) as nat } else { d[j] })
}

/// Attaching the root `ru` under the distinct root `rv` keeps the forest
/// well formed under the shifted depth witness.
proof fn lemma_link_wf(p: Seq<usize>, d: Seq<nat>, ru: int, rv: int)
    requires
        parents_ok(p),
        depths_ok(p, d),
        0 <= ru < p.len(),
        0 <= rv < p.len(),
        p[ru] == ru,
        p[rv] == rv,
        ru != rv,
    ensures
        parents_ok(p.update(ru, rv as usize)),
        depths_ok(p.update(ru, rv as usize), shifted(p, d, ru)),
{
    let p2 = p.update(ru, rv as usize);
    let d2 = shifted(p, d, ru);
    assert forall|i: int| 0 <= i < p2.len() && p2[i] != i implies d2[p2[i] as int] < d2[i] by {
        if i == ru {
            assert(root_in(p, d, rv) == rv);
            assert(root_in(p, d, ru) == ru);
            assert(d[ru] == 0);
            assert(d[rv] == 0);
        } else {
            assert(p2[i] == p[i]);
            assert(root_in(p, d, p[i] as int) == root_in(p, d, i));
        }
    }
    assert forall|i: int| 0 <= i < p2.len() && p2[i] == i implies d2[i] == 0 by {
        assert(i != ru);
        assert(p[i] == i);
        assert(root_in(p, d, i) == i);
    }
}

/// After the root `ru` is attached under the distinct root `rv`, exactly the
/// elements whose representative was `ru` now have representative `rv`.
proof fn lemma_link_root(p: Seq<usize>, d: Seq<nat>, ru: int, rv: int, i: int)
    requires
        parents_ok(p),
        depths_ok(p, d),
        0 <= ru < p.len(),
        0 <= rv < p.len(),
        p[ru] == ru,
        p[rv] == rv,
        ru != rv,
        0 <= i < p.len(),
    ensures
        root_in(p.update(ru, rv as usize), shifted(p, d, ru), i) == if root_in(p, d, i) == ru {
            rv
        } else {
            root_in(p, d, i)
        },
    decreases d[i],
{
    let p2 = p.update(ru, rv as usize);
    let d2 = shifted(p, d, ru);
    lemma_link_wf(p, d, ru, rv);
    if i == ru {
        assert(root_in(p, d, ru) == ru);
        assert(p2[rv] == rv);
        assert(root_in(p2, d2, rv) == rv);
        assert(root_in(p2, d2, ru) == root_in(p2, d2, rv));
    } else if p[i] == i {
        assert(root_in(p, d, i) == i);
        assert(p2[i] == i);
        assert(root_in(p2, d2, i) == i);
    } else {
        assert(p2[i] == p[i]);
        lemma_link_root(p, d, ru, rv, p[i] as int);
        assert(root_in(p, d, i) == root_in(p, d, p[i] as int));
        assert(root_in(p2, d2, i) == root_in(p2, d2, p[i] as int));
    }
}

/// A partition of the elements `0..size` into disjoint sets, stored as a
/// parent forest with path compression applied on every `find`.
pub struct DisjointSets {
    parent: Vec<usize>,
    depth: Ghost<Seq<nat>>,
}

impl DisjointSets {
    /// The recorded parent of each element.
    pub closed spec fn parents(self) -> Seq<usize> {
        self.parent@
    }

    /// How many elements the structure was created with.
    pub open spec fn len(self) -> nat {
        self.parents().len()
    }

    /// The parent forest is acyclic and all parent pointers are in range.
    pub closed spec fn wf(self) -> bool {
        &&& parents_ok(self.parent@)
        &&& depths_ok(self.parent@, self.depth@)
    }

    /// The representative (root) of the set containing element `i`.
    pub closed spec fn root_of(self, i: int) -> int {
        root_in(self.parent@, self.depth@, i)
    }

    /// Whether `i` lies on the parent path from `e` to its root
    /// (`e` included).
    pub closed spec fn on_find_path(self, e: int, i: int) -> bool {
        on_path_in(self.parent@, self.depth@, e, i)
    }

    /// Initializes `size` singleton sets, one per element of `0..size`.
    pub fn new(size: usize) -> (s: DisjointSets)
        ensures
            s.wf(),
            s.len() == size,
            forall|i: int| 0 <= i < size ==> s.root_of(i) == i,
    {
        let mut parent: Vec<usize> = Vec::new();
        let mut i: usize = 0;
        while i < size
            invariant
                i <= size,
                parent@.len() == i,
                forall|j: int| 0 <= j < i ==> parent@[j] == j,
            decreases size - i,
        {
            parent.push(i);
            i = i + 1;
        }
        let s = DisjointSets { parent, depth: Ghost(Seq::new(size as nat, |j: int| 0)) };
        proof {
            assert forall|k: int| 0 <= k < size implies s.root_of(k) == k by {
                assert(s.parent@[k] == k);
            }
        }
        s
    }

    /// Recursive path-compressing resolution: resolves the parent's root,
    /// then overwrites the element's parent with it, so that afterwards every
    /// element on the traversed path points directly at the root.
    fn find_impl(&mut self, element: usize) -> (root: usize)
        requires
            old(self).wf(),
            element < old(self).len(),
        ensures
            final(self).wf(),
            final(self).len() == old(self).len(),
            final(self).depth@ == old(self).depth@,
            root < final(self).len(),
            root == old(self).root_of(element as int),
            final(self).parents()[element as int] == root,
            final(self).parents()[root as int] == root,
            final(self).depth@[root as int] <= old(self).depth@[element as int],
            forall|i: int|
                0 <= i < final(self).len() ==> final(self).root_of(i) == old(self).root_of(i),
            forall|i: int|
                old(self).on_find_path(element as int, i) ==> final(self).parents()[i] == root,
        decreases old(self).depth@[element as int],
    {
        let p = self.parent[element];
        if p != element {
            let root = self.find_impl(p);
            let ghost mid = *self;
            proof {
                lemma_root_in_props(old(self).parent@, old(self).depth@, element as int);
                assert(root_in(mid.parent@, mid.depth@, element as int)
                    == old(self).root_of(element as int));
                assert(root as int == root_in(mid.parent@, mid.depth@, element as int));
            }
            self.parent[element] = root;
            proof {
                lemma_compress_wf(mid.parent@, mid.depth@, element as int);
                assert(self.parent@
                    == mid.parent@.update(element as int,
                        root_in(mid.parent@, mid.depth@, element as int) as usize));
                assert forall|i: int|
                    0 <= i < self.parent@.len() implies self.root_of(i)
                    == old(self).root_of(i) by {
                    lemma_compress_root(mid.parent@, mid.depth@, element as int, i);
                }
                assert(root != element);
                assert(self.parent@[root as int] == mid.parent@[root as int]);
                assert forall|i: int|
                    old(self).on_find_path(element as int, i) implies self.parent@[i]
                    == root by {
                    if i != element {
                        assert(on_path_in(old(self).parent@, old(self).depth@, p as int, i));
                        assert(old(self).on_find_path(p as int, i));
                        lemma_on_path_in_range(old(self).parent@, old(self).depth@, p as int, i);
                        assert(mid.parent@[i] == root);
                    }
                }
            }
            root
        } else {
            proof {
                assert forall|i: int|
                    old(self).on_find_path(element as int, i) implies self.parent@[i]
                    == element by {
                    assert(i == element);
                }
            }
            element
        }
    }

    /// Returns the representative (root) of the set containing `element`,
    /// compressing the traversed path as a side effect. Set membership is
    /// unchanged: every element keeps its representative.
    pub fn find(&mut self, element: usize) -> (root: usize)
        requires
            old(self).wf(),
            element < old(self).len(),
        ensures
            final(self).wf(),
            final(self).len() == old(self).len(),
            root < final(self).len(),
            root == old(self).root_of(element as int),
            final(self).root_of(element as int) == root,
            final(self).parents()[element as int] == root,
            final(self).parents()[root as int] == root,
            forall|i: int|
                old(self).on_find_path(element as int, i) ==> final(self).parents()[i] == root,
            forall|i: int|
                0 <= i < final(self).len() ==> final(self).root_of(i) == old(self).root_of(i),
    {
        let root = self.find_impl(element);
        proof {
            assert(self.root_of(element as int) == old(self).root_of(element as int));
        }
        root
    }

    /// Unions the sets containing `pair.0` and `pair.1` by attaching the
    /// first one's root under the second one's root, and reports whether the
    /// two were in different sets before the call. Both arguments' paths are
    /// compressed as a side effect.
    pub fn merge(&mut self, pair: (usize, usize)) -> (changed: bool)
        requires
            old(self).wf(),
            pair.0 < old(self).len(),
            pair.1 < old(self).len(),
        ensures
            final(self).wf(),
            final(self).len() == old(self).len(),
            changed == (old(self).root_of(pair.0 as int) != old(self).root_of(pair.1 as int)),
            forall|i: int|
                0 <= i < final(self).len() ==> final(self).root_of(i) == (if old(self).root_of(i)
                    == old(self).root_of(pair.0 as int) {
                    old(self).root_of(pair.1 as int)
                } else {
                    old(self).root_of(i)
                }),
    {
        let (u, v) = pair;
        let ru = self.find(u);
        let rv = self.find(v);
        proof {
            // `ru` kept its representative through the second find, and an
            // element that is its own representative is its own parent.
            assert(self.root_of(ru as int) == ru);
            if self.parent@[ru as int] != ru {
                lemma_root_in_props(self.parent@, self.depth@, ru as int);
            }
            assert(self.parent@[ru as int] == ru);
        }
        let ghost pre = *self;
        self.parent[ru] = rv;
        if ru != rv {
            self.depth = Ghost(shifted(pre.parent@, pre.depth@, ru as int));
            proof {
                lemma_link_wf(pre.parent@, pre.depth@, ru as int, rv as int);
                assert forall|i: int|
                    0 <= i < self.len() implies self.root_of(i) == (if old(self).root_of(i)
                        == old(self).root_of(pair.0 as int) {
                        old(self).root_of(pair.1 as int)
                    } else {
                        old(self).root_of(i)
                    }) by {
                    lemma_link_root(pre.parent@, pre.depth@, ru as int, rv as int, i);
                    assert(pre.root_of(i) == old(self).root_of(i));
                }
            }
        } else {
            proof {
                assert(self.parent@ =~= pre.parent@);
                assert forall|i: int|
                    0 <= i < self.len() implies self.root_of(i) == (if old(self).root_of(i)
                        == old(self).root_of(pair.0 as int) {
                        old(self).root_of(pair.1 as int)
                    } else {
                        old(self).root_of(i)
                    }) by {
                    assert(self.root_of(i) == pre.root_of(i));
                    assert(pre.root_of(i) == old(self).root_of(i));
                }
            }
        }
        ru != rv
    }
}

/// Find is idempotent: a `find(e)` on `pre` yields a state `mid` whose
/// recorded parent of `e` is already the returned root `r1` (one hop), and a
/// second `find(e)` on `mid`, with no merge in between, returns the same
/// root. The hypotheses are the contract of `find` for each of the two calls.
pub proof fn lemma_find_idempotent(
    pre: DisjointSets,
    mid: DisjointSets,
    e: usize,
    r1: usize,
    r2: usize,
)
    requires
        pre.wf(),
        e < pre.len(),
        mid.len() == pre.len(),
        r1 == pre.root_of(e as int),
        mid.parents()[e as int] == r1,
        forall|i: int| 0 <= i < mid.len() ==> mid.root_of(i) == pre.root_of(i),
        r2 == mid.root_of(e as int),
    ensures
        r2 == r1,
        mid.parents()[e as int] == r2,
{
    assert(mid.root_of(e as int) == pre.root_of(e as int));
}

/// Merging an element with itself never changes the partition, so `merge`
/// reports `false`. The hypothesis is the return contract of `merge` at the
/// pair `(u, u)`.
pub proof fn lemma_merge_reflexive(pre: DisjointSets, u: usize, changed: bool)
    requires
        pre.wf(),
        u < pre.len(),
        changed == (pre.root_of(u as int) != pre.root_of(u as int)),
    ensures
        !changed,
{
}

/// Merging is transitive: after `merge((a, b))` took `s0` to `s1` and
/// `merge((b, c))` took `s1` to `s2`, the elements `a`, `b` and `c` all have
/// the same representative in `s2`. The hypotheses are the partition clause
/// of `merge`'s contract for each of the two calls.
pub proof fn lemma_merge_transitive(
    s0: DisjointSets,
    s1: DisjointSets,
    s2: DisjointSets,
    a: usize,
    b: usize,
    c: usize,
)
    requires
        a < s0.len(),
        b < s0.len(),
        c < s0.len(),
        s1.len() == s0.len(),
        forall|i: int|
            0 <= i < s1.len() ==> s1.root_of(i) == (if s0.root_of(i) == s0.root_of(a as int) {
                s0.root_of(b as int)
            } else {
                s0.root_of(i)
            }),
        s2.len() == s1.len(),
        forall|i: int|
            0 <= i < s2.len() ==> s2.root_of(i) == (if s1.root_of(i) == s1.root_of(b as int) {
                s1.root_of(c as int)
            } else {
                s1.root_of(i)
            }),
    ensures
        s2.root_of(a as int) == s2.root_of(b as int),
        s2.root_of(b as int) == s2.root_of(c as int),
{
    assert(s1.root_of(a as int) == s0.root_of(b as int));
    assert(s1.root_of(b as int) == s0.root_of(b as int));
    assert(s2.root_of(a as int) == s1.root_of(c as int));
    assert(s2.root_of(b as int) == s1.root_of(c as int));
    assert(s2.root_of(c as int) == s1.root_of(c as int));
}

} // verus!
