//! The least upper bound of two concrete regions, as lexical region
//! resolution computes it: over a tree of scopes, where a scope region
//! outlives the scopes inside it, and a free region is known to outlive
//! its own scope.

use vstd::prelude::*;

verus! {

/// A region. A free or early-bound region names the scope it is known to
/// outlive (what the scope tree gives as its free scope).
#[derive(Clone, Copy, Debug, PartialEq, Eq, Structural)]
pub enum Region {
    Static,
    Empty,
    /// A region inference variable.
    Var(u32),
    EarlyBound { id: u32, scope: usize },
    Free { id: u32, scope: usize },
    /// The region of a scope of the scope tree.
    Scope(usize),
    Skolemized(u32),
    LateBound(u32),
    Erased,
    Canonical(u32),
    ClosureBound(u32),
}

/// A region that `lub_concrete_regions` can relate: not a variable and
/// none of the regions that have no place in a least upper bound.
pub open spec fn is_concrete(r: Region) -> bool {
    !(r is Var || r is LateBound || r is Erased || r is Canonical || r is ClosureBound)
}

/// A free or early-bound region.
pub open spec fn is_free_like(r: Region) -> bool {
    r is Free || r is EarlyBound
}

/// The scope that a free or early-bound region is known to outlive.
pub open spec fn free_scope(r: Region) -> usize {
    match r {
        Region::Free { scope, .. } => scope,
        Region::EarlyBound { scope, .. } => scope,
        _ => 0,
    }
}

/// A tree of scopes: the parent of each scope (`None` for a root) and its
/// depth below its root.
pub struct ScopeTree {
    pub parent: Vec<Option<usize>>,
    pub depth: Vec<usize>,
}

/// The `k`-th ancestor of scope `x` (`x` itself for `k == 0`).
pub open spec fn up(parent: Seq<Option<usize>>, x: int, k: nat) -> int
    decreases k,
{
    if k == 0 {
        x
    } else {
        match parent[x] {
            Some(p) => up(parent, p as int, (k - 1) as nat),
            None => x,
        }
    }
}

/// `c` is `x` or one of its ancestors.
pub open spec fn is_ancestor(parent: Seq<Option<usize>>, depth: Seq<usize>, c: int, x: int) -> bool {
    exists|k: nat| k <= depth[x] && #[trigger] up(parent, x, k) == c
}

/// `m` is the nearest common ancestor of `a` and `b`: an ancestor of both
/// (or one of them), and every common ancestor is an ancestor of `m`.
pub open spec fn is_nca(parent: Seq<Option<usize>>, depth: Seq<usize>, a: int, b: int, m: int) -> bool {
    &&& is_ancestor(parent, depth, m, a)
    &&& is_ancestor(parent, depth, m, b)
    &&& forall|c: int|
        is_ancestor(parent, depth, c, a) && is_ancestor(parent, depth, c, b) ==> #[trigger] is_ancestor(
            parent,
            depth,
            c,
            m,
        )
}

/// The nearest common ancestor of scopes `a` and `b` of the tree.
pub open spec fn nca_of(t: ScopeTree, a: int, b: int) -> int {
    choose|m: int| is_nca(t.parent@, t.depth@, a, b, m)
}

impl ScopeTree {
    /// Each parent is a scope of the tree one level up; a root has depth 0.
    pub open spec fn wf(&self) -> bool {
        &&& self.parent@.len() == self.depth@.len()
        &&& forall|i: int|
            0 <= i < self.parent@.len() ==> match #[trigger] self.parent@[i] {
                Some(p) => p < self.parent@.len() && self.depth@[i] == self.depth@[p as int] + 1,
                None => self.depth@[i] == 0,
            }
    }

    /// The root above scope `x`.
    pub open spec fn root(&self, x: int) -> int {
        up(self.parent@, x, self.depth@[x] as nat)
    }

    proof fn lemma_up(&self, x: int, k: nat)
        requires
            self.wf(),
            0 <= x < self.parent@.len(),
            k <= self.depth@[x],
        ensures
            0 <= up(self.parent@, x, k) < self.parent@.len(),
            self.depth@[up(self.parent@, x, k)] == self.depth@[x] - k,
        decreases k,
    {
        if k > 0 {
            let p = self.parent@[x];
            assert(p is Some);
            self.lemma_up(p->0 as int, (k - 1) as nat);
        }
    }

    proof fn lemma_up_compose(&self, x: int, i: nat, j: nat)
        requires
            self.wf(),
            0 <= x < self.parent@.len(),
            i + j <= self.depth@[x],
        ensures
            up(self.parent@, up(self.parent@, x, i), j) == up(self.parent@, x, i + j),
        decreases i,
    {
        if i > 0 {
            let p = self.parent@[x];
            assert(p is Some);
            self.lemma_up_compose(p->0 as int, (i - 1) as nat, j);
        }
    }

    proof fn lemma_up_one(&self, x: int)
        requires
            self.wf(),
            0 <= x < self.parent@.len(),
            self.depth@[x] > 0,
        ensures
            self.parent@[x] is Some,
            up(self.parent@, x, 1) == self.parent@[x]->0,
    {
        let p = self.parent@[x];
        assert(p is Some);
        assert(up(self.parent@, p->0 as int, 0) == p->0);
    }

    proof fn lemma_ancestor_antisym(&self, x: int, y: int)
        requires
            self.wf(),
            0 <= x < self.parent@.len(),
            0 <= y < self.parent@.len(),
            is_ancestor(self.parent@, self.depth@, x, y),
            is_ancestor(self.parent@, self.depth@, y, x),
        ensures
            x == y,
    {
        let par = self.parent@;
        let dep = self.depth@;
        let i = choose|i: nat| i <= dep[y] && #[trigger] up(par, y, i) == x;
        let j = choose|j: nat| j <= dep[x] && #[trigger] up(par, x, j) == y;
        self.lemma_up(y, i);
        self.lemma_up(x, j);
        assert(up(par, y, 0) == y);
    }

    proof fn lemma_ancestor_in_tree(&self, c: int, x: int)
        requires
            self.wf(),
            0 <= x < self.parent@.len(),
            is_ancestor(self.parent@, self.depth@, c, x),
        ensures
            0 <= c < self.parent@.len(),
    {
        let i = choose|i: nat| i <= self.depth@[x] && #[trigger] up(self.parent@, x, i) == c;
        self.lemma_up(x, i);
    }

    /// The nearest common ancestor of scopes `a` and `b`, which lie in
    /// one tree.
    pub fn nearest_common_ancestor(&self, a: usize, b: usize) -> (m: usize)
        requires
            self.wf(),
            a < self.parent@.len(),
            b < self.parent@.len(),
            self.root(a as int) == self.root(b as int),
        ensures
            m < self.parent@.len(),
            is_nca(self.parent@, self.depth@, a as int, b as int, m as int),
            m == nca_of(*self, a as int, b as int),
    {
        let ghost par = self.parent@;
        let ghost dep = self.depth@;
        let ghost n = par.len();
        let ghost da = dep[a as int] as nat;
        let ghost db = dep[b as int] as nat;
        let mut x = a;
        while self.depth[x] > self.depth[b]
            invariant
                self.wf(),
                par == self.parent@,
                dep == self.depth@,
                n == par.len(),
                b < n,
                x < n,
                a < n,
                da == dep[a as int],
                db == dep[b as int],
                x as int == up(par, a as int, (da - dep[x as int]) as nat),
                dep[x as int] <= da,
                dep[x as int] >= db || dep[x as int] == da,
            decreases self.depth@[x as int],
        {
            proof {
                self.lemma_up_one(x as int);
                self.lemma_up_compose(a as int, (da - dep[x as int]) as nat, 1);
            }
            x = self.parent[x].unwrap();
        }
        let mut y = b;
        while self.depth[y] > self.depth[x]
            invariant
                self.wf(),
                par == self.parent@,
                dep == self.depth@,
                n == par.len(),
                x < n,
                y < n,
                a < n,
                b < n,
                da == dep[a as int],
                db == dep[b as int],
                x as int == up(par, a as int, (da - dep[x as int]) as nat),
                dep[x as int] <= da,
                dep[x as int] <= db,
                dep[x as int] == db || dep[x as int] == da,
                y as int == up(par, b as int, (db - dep[y as int]) as nat),
                dep[y as int] <= db,
                dep[y as int] >= dep[x as int],
            decreases self.depth@[y as int],
        {
            proof {
                self.lemma_up_one(y as int);
                self.lemma_up_compose(b as int, (db - dep[y as int]) as nat, 1);
            }
            y = self.parent[y].unwrap();
        }
        let ghost x0 = x as int;
        let ghost y0 = y as int;
        let ghost d0 = dep[x0] as nat;
        proof {
            assert(dep[x0] == dep[y0]);
            assert(d0 <= da && d0 <= db);
            assert(d0 == da || d0 == db);
            // both chains reach the same root
            self.lemma_up_compose(a as int, (da - d0) as nat, d0);
            self.lemma_up_compose(b as int, (db - d0) as nat, d0);
            assert(up(par, x0, d0) == up(par, y0, d0));
        }
        let ghost mut k: nat = 0;
        while x != y
            invariant
                da == dep[a as int],
                db == dep[b as int],
                d0 <= da && d0 <= db,
                d0 == da || d0 == db,
                a < n,
                b < n,
                x0 == up(par, a as int, (da - d0) as nat),
                y0 == up(par, b as int, (db - d0) as nat),
                self.wf(),
                par == self.parent@,
                dep == self.depth@,
                n == par.len(),
                x < n,
                y < n,
                0 <= x0 < n,
                0 <= y0 < n,
                d0 == dep[x0],
                d0 == dep[y0],
                k <= d0,
                x as int == up(par, x0, k),
                y as int == up(par, y0, k),
                dep[x as int] == d0 - k,
                dep[y as int] == d0 - k,
                up(par, x0, d0) == up(par, y0, d0),
                forall|i: nat| i < k ==> #[trigger] up(par, x0, i) != up(par, y0, i),
            decreases self.depth@[x as int],
        {
            proof {
                self.lemma_up_compose(x0, k, (d0 - k) as nat);
                self.lemma_up_compose(y0, k, (d0 - k) as nat);
                if dep[x as int] == 0 {
                    assert(up(par, x as int, 0) == x as int);
                    assert(false);
                }
                self.lemma_up_one(x as int);
                assert(dep[y as int] == dep[x as int]);
                self.lemma_up_one(y as int);
                self.lemma_up_compose(x0, k, 1);
                self.lemma_up_compose(y0, k, 1);
                self.lemma_up(x0, k + 1);
                self.lemma_up(y0, k + 1);
            }
            x = self.parent[x].unwrap();
            y = self.parent[y].unwrap();
            proof {
                k = k + 1;
            }
        }
        proof {
            let m = x as int;
            // m is an ancestor of a and of b
            self.lemma_up_compose(a as int, (da - d0) as nat, k);
            self.lemma_up_compose(b as int, (db - d0) as nat, k);
            assert(up(par, a as int, (da - d0 + k) as nat) == m);
            assert(up(par, b as int, (db - d0 + k) as nat) == m);
            assert(is_ancestor(par, dep, m, a as int));
            assert(is_ancestor(par, dep, m, b as int));
            assert forall|c: int| is_ancestor(par, dep, c, a as int) && is_ancestor(par, dep, c, b as int)
                implies #[trigger] is_ancestor(par, dep, c, m) by {
                let i = choose|i: nat| i <= dep[a as int] && #[trigger] up(par, a as int, i) == c;
                let j = choose|j: nat| j <= dep[b as int] && #[trigger] up(par, b as int, j) == c;
                self.lemma_up(a as int, i);
                self.lemma_up(b as int, j);
                let dc = dep[c];
                // c is at depth dc <= d0 above x0 and y0
                assert(dc == da - i);
                assert(dc == db - j);
                assert(dc <= d0);
                let kk = (d0 - dc) as nat;
                self.lemma_up_compose(a as int, (da - d0) as nat, kk);
                self.lemma_up_compose(b as int, (db - d0) as nat, kk);
                assert(up(par, x0, kk) == c);
                assert(up(par, y0, kk) == c);
                assert(k <= kk);
                self.lemma_up_compose(x0, k, (kk - k) as nat);
                self.lemma_up(x0, k);
                assert(up(par, m, (kk - k) as nat) == c);
                assert(dep[m] == d0 - k);
            }
            assert(is_nca(par, dep, a as int, b as int, m));
            let m2 = nca_of(*self, a as int, b as int);
            assert(is_nca(par, dep, a as int, b as int, m2));
            self.lemma_ancestor_in_tree(m2, a as int);
            assert(is_ancestor(par, dep, m2, m));
            assert(is_ancestor(par, dep, m, m2));
            self.lemma_ancestor_antisym(m, m2);
        }
        x
    }

    /// Going up from `a`, the first ancestor at or above the `k`-th that is
    /// also an ancestor of `b`.
    proof fn lemma_first_common(&self, a: int, b: int, k: nat) -> (k2: nat)
        requires
            self.wf(),
            0 <= a < self.parent@.len(),
            0 <= b < self.parent@.len(),
            self.root(a) == self.root(b),
            k <= self.depth@[a],
            forall|i: nat| i < k ==> !is_ancestor(self.parent@, self.depth@, #[trigger] up(self.parent@, a, i), b),
        ensures
            k <= k2 <= self.depth@[a],
            is_ancestor(self.parent@, self.depth@, up(self.parent@, a, k2), b),
            forall|i: nat| i < k2 ==> !is_ancestor(self.parent@, self.depth@, #[trigger] up(self.parent@, a, i), b),
        decreases self.depth@[a] - k,
    {
        let par = self.parent@;
        let dep = self.depth@;
        if is_ancestor(par, dep, up(par, a, k), b) {
            k
        } else {
            if k == dep[a] {
                assert(up(par, b, dep[b] as nat) == self.root(b));
                assert(is_ancestor(par, dep, up(par, b, dep[b] as nat), b));
                assert(false);
            }
            self.lemma_first_common(a, b, k + 1)
        }
    }

    /// Two scopes of one tree have a nearest common ancestor.
    pub proof fn lemma_nca_exists(&self, a: int, b: int)
        requires
            self.wf(),
            0 <= a < self.parent@.len(),
            0 <= b < self.parent@.len(),
            self.root(a) == self.root(b),
        ensures
            is_nca(self.parent@, self.depth@, a, b, nca_of(*self, a, b)),
            0 <= nca_of(*self, a, b) < self.parent@.len(),
    {
        let par = self.parent@;
        let dep = self.depth@;
        let k2 = self.lemma_first_common(a, b, 0);
        let m = up(par, a, k2);
        self.lemma_up(a, k2);
        assert(is_ancestor(par, dep, m, a));
        assert forall|c: int| is_ancestor(par, dep, c, a) && is_ancestor(par, dep, c, b) implies #[trigger] is_ancestor(
            par,
            dep,
            c,
            m,
        ) by {
            let i = choose|i: nat| i <= dep[a] && #[trigger] up(par, a, i) == c;
            if i < k2 {
                assert(!is_ancestor(par, dep, up(par, a, i), b));
            }
            self.lemma_up_compose(a, k2, (i - k2) as nat);
            assert(up(par, m, (i - k2) as nat) == c);
        }
        assert(is_nca(par, dep, a, b, m));
        let m2 = nca_of(*self, a, b);
        assert(is_nca(par, dep, a, b, m2));
        self.lemma_ancestor_in_tree(m2, a);
    }

    /// A nearest common ancestor is unique.
    proof fn lemma_nca_unique(&self, a: int, b: int, m1: int, m2: int)
        requires
            self.wf(),
            0 <= a < self.parent@.len(),
            is_nca(self.parent@, self.depth@, a, b, m1),
            is_nca(self.parent@, self.depth@, a, b, m2),
        ensures
            m1 == m2,
    {
        self.lemma_ancestor_in_tree(m1, a);
        self.lemma_ancestor_in_tree(m2, a);
        assert(is_ancestor(self.parent@, self.depth@, m1, m2));
        assert(is_ancestor(self.parent@, self.depth@, m2, m1));
        self.lemma_ancestor_antisym(m1, m2);
    }

    /// The nearest common ancestor does not depend on the order of the two
    /// scopes.
    pub proof fn lemma_nca_symmetric(&self, a: int, b: int)
        requires
            self.wf(),
            0 <= a < self.parent@.len(),
            0 <= b < self.parent@.len(),
            self.root(a) == self.root(b),
        ensures
            nca_of(*self, a, b) == nca_of(*self, b, a),
    {
        self.lemma_nca_exists(a, b);
        self.lemma_nca_exists(b, a);
        let m1 = nca_of(*self, a, b);
        let m2 = nca_of(*self, b, a);
        assert(is_nca(self.parent@, self.depth@, a, b, m2));
        self.lemma_nca_unique(a, b, m1, m2);
    }

    /// The nearest common ancestor of a scope and one of its ancestors is
    /// that ancestor.
    pub proof fn lemma_nca_of_ancestor(&self, a: int, m: int)
        requires
            self.wf(),
            0 <= a < self.parent@.len(),
            is_ancestor(self.parent@, self.depth@, m, a),
        ensures
            nca_of(*self, a, m) == m,
    {
        let par = self.parent@;
        let dep = self.depth@;
        self.lemma_ancestor_in_tree(m, a);
        assert(is_ancestor(par, dep, m, m)) by {
            assert(up(par, m, 0) == m);
        }
        assert(is_nca(par, dep, a, m, m));
        let m2 = nca_of(*self, a, m);
        assert(is_nca(par, dep, a, m, m2));
        self.lemma_nca_unique(a, m, m, m2);
    }
}

/// The least upper bound of two free regions given what the relation of
/// free regions gives as their upper bound (`None` where it gives none):
/// the region itself when both are the same, else that bound, else
/// `'static`.
pub open spec fn lub_free_spec(a: Region, b: Region, bound: Option<Region>) -> Region {
    if a == b {
        a
    } else {
        match bound {
            Some(r) => r,
            None => Region::Static,
        }
    }
}

/// A free or early-bound region.
pub fn is_free(r: &Region) -> (b: bool)
    ensures
        b == is_free_like(*r),
{
    match r {
        Region::EarlyBound { .. } | Region::Free { .. } => true,
        _ => false,
    }
}

/// A free or early-bound region, or `'static`.
pub fn is_free_or_static(r: &Region) -> (b: bool)
    ensures
        b == (is_free_like(*r) || *r is Static),
{
    match r {
        Region::Static => true,
        _ => is_free(r),
    }
}

/// The least upper bound of two free regions; `bound` is the upper bound
/// that the relation of free regions gives for them.
pub fn lub_free_regions(a: Region, b: Region, bound: Option<Region>) -> (r: Region)
    requires
        is_free_like(a),
        is_free_like(b),
    ensures
        r == lub_free_spec(a, b, bound),
{
    if a == b {
        a
    } else {
        match bound {
            Some(r) => r,
            None => Region::Static,
        }
    }
}

/// The least upper bound of two concrete regions. `'static` outlives
/// everything and everything outlives `'empty`; a free region outlives a
/// scope inside its own scope, and is otherwise bounded only by
/// `'static`; two scopes are bounded by their nearest common ancestor; two
/// free regions by `lub_free_spec`; a skolemized region only by itself or
/// `'static`.
pub open spec fn lub_spec(t: ScopeTree, a: Region, b: Region, free_bound: Option<Region>) -> Region {
    if a is Static || b is Static {
        Region::Static
    } else if a is Empty {
        b
    } else if b is Empty {
        a
    } else if is_free_like(a) && b is Scope {
        if is_ancestor(t.parent@, t.depth@, free_scope(a) as int, b->Scope_0 as int) {
            a
        } else {
            Region::Static
        }
    } else if a is Scope && is_free_like(b) {
        if is_ancestor(t.parent@, t.depth@, free_scope(b) as int, a->Scope_0 as int) {
            b
        } else {
            Region::Static
        }
    } else if a is Scope && b is Scope {
        Region::Scope(nca_of(t, a->Scope_0 as int, b->Scope_0 as int) as usize)
    } else if is_free_like(a) && is_free_like(b) {
        lub_free_spec(a, b, free_bound)
    } else if a == b {
        a
    } else {
        Region::Static
    }
}

/// The scope regions named by a region lie in the tree.
pub open spec fn in_tree(t: ScopeTree, r: Region) -> bool {
    match r {
        Region::Scope(s) => s < t.parent@.len(),
        Region::Free { scope, .. } => scope < t.parent@.len(),
        Region::EarlyBound { scope, .. } => scope < t.parent@.len(),
        _ => true,
    }
}

/// Every scope lies in the tree of the first scope.
pub open spec fn one_tree(t: ScopeTree) -> bool {
    forall|i: int, j: int| 0 <= i < t.parent@.len() && 0 <= j < t.parent@.len() ==> t.root(i) == t.root(j)
}

/// The least upper bound of two concrete regions, where `free_bound` is
/// the upper bound that the relation of free regions gives for two free
/// regions.
pub fn lub_concrete_regions(t: &ScopeTree, a: Region, b: Region, free_bound: Option<Region>) -> (r: Region)
    requires
        t.wf(),
        one_tree(*t),
        is_concrete(a),
        is_concrete(b),
        in_tree(*t, a),
        in_tree(*t, b),
    ensures
        r == lub_spec(*t, a, b, free_bound),
{
    match (a, b) {
        (Region::Static, _) | (_, Region::Static) => Region::Static,
        (Region::Empty, r) | (r, Region::Empty) => r,
        (Region::EarlyBound { scope: fs, .. }, Region::Scope(s))
        | (Region::Free { scope: fs, .. }, Region::Scope(s))
        | (Region::Scope(s), Region::EarlyBound { scope: fs, .. })
        | (Region::Scope(s), Region::Free { scope: fs, .. }) => {
            let r_id = t.nearest_common_ancestor(fs, s);
            proof {
                let par = t.parent@;
                let dep = t.depth@;
                assert(is_ancestor(par, dep, fs as int, fs as int)) by {
                    assert(up(par, fs as int, 0) == fs as int);
                }
                if is_ancestor(par, dep, fs as int, s as int) {
                    assert(is_ancestor(par, dep, fs as int, r_id as int));
                    t.lemma_ancestor_antisym(fs as int, r_id as int);
                }
                if r_id == fs {
                    assert(is_ancestor(par, dep, r_id as int, s as int));
                }
            }
            if r_id == fs {
                match (a, b) {
                    (_, Region::Scope(_)) => a,
                    _ => b,
                }
            } else {
                Region::Static
            }
        },
        (Region::Scope(sa), Region::Scope(sb)) => Region::Scope(t.nearest_common_ancestor(sa, sb)),
        (Region::EarlyBound { .. }, Region::EarlyBound { .. })
        | (Region::Free { .. }, Region::EarlyBound { .. })
        | (Region::EarlyBound { .. }, Region::Free { .. })
        | (Region::Free { .. }, Region::Free { .. }) => lub_free_regions(a, b, free_bound),
        _ => {
            if a == b {
                a
            } else {
                Region::Static
            }
        },
    }
}

/// Law: nothing outlives `'static`: the least upper bound of `'static` and
/// any region, in either order, is `'static`.
pub proof fn law_lub_static(t: ScopeTree, x: Region, free_bound: Option<Region>)
    ensures
        lub_spec(t, Region::Static, x, free_bound) == Region::Static,
        lub_spec(t, x, Region::Static, free_bound) == Region::Static,
{
}

/// Law: everything outlives `'empty`: the least upper bound of `'empty` and
/// any region, in either order, is that region.
pub proof fn law_lub_empty(t: ScopeTree, x: Region, free_bound: Option<Region>)
    ensures
        lub_spec(t, Region::Empty, x, free_bound) == x,
        lub_spec(t, x, Region::Empty, free_bound) == x,
{
}

/// Law: the least upper bound of a region and itself is that region.
pub proof fn law_lub_idempotent(t: ScopeTree, x: Region, free_bound: Option<Region>)
    requires
        t.wf(),
        in_tree(t, x),
    ensures
        lub_spec(t, x, x, free_bound) == x,
{
    if let Region::Scope(s) = x {
        assert(is_ancestor(t.parent@, t.depth@, s as int, s as int)) by {
            assert(up(t.parent@, s as int, 0) == s as int);
        }
        t.lemma_nca_of_ancestor(s as int, s as int);
    }
}

/// Law: the least upper bound does not depend on the order of the two
/// regions (where the relation of free regions gives the same bound for
/// both orders).
pub proof fn law_lub_commutative(t: ScopeTree, a: Region, b: Region, free_bound: Option<Region>)
    requires
        t.wf(),
        one_tree(t),
        in_tree(t, a),
        in_tree(t, b),
    ensures
        lub_spec(t, a, b, free_bound) == lub_spec(t, b, a, free_bound),
{
    if a is Scope && b is Scope {
        let sa = a->Scope_0 as int;
        let sb = b->Scope_0 as int;
        t.lemma_nca_symmetric(sa, sb);
    }
}

/// Law: the least upper bound is an upper bound: each of the two regions
/// is a subregion of it. For two distinct free regions this holds where
/// the relation of free regions gives no bound of its own (the lub is then
/// `'static`); a bound that it gives is taken as it is.
pub proof fn law_lub_upper_bound(
    t: ScopeTree,
    a: Region,
    b: Region,
    free_bound: Option<Region>,
    other_bound: Option<Region>,
)
    requires
        t.wf(),
        one_tree(t),
        is_concrete(a),
        is_concrete(b),
        in_tree(t, a),
        in_tree(t, b),
        !(is_free_like(a) && is_free_like(b) && a != b && free_bound is Some),
    ensures
        lub_spec(t, a, lub_spec(t, a, b, free_bound), other_bound) == lub_spec(t, a, b, free_bound),
        lub_spec(t, b, lub_spec(t, a, b, free_bound), other_bound) == lub_spec(t, a, b, free_bound),
{
    let l = lub_spec(t, a, b, free_bound);
    law_lub_idempotent(t, a, other_bound);
    law_lub_idempotent(t, b, other_bound);
    if a is Scope && b is Scope {
        let sa = a->Scope_0 as int;
        let sb = b->Scope_0 as int;
        assert(t.root(sa) == t.root(sb));
        t.lemma_nca_exists(sa, sb);
        let m = nca_of(t, sa, sb);
        t.lemma_nca_of_ancestor(sa, m);
        t.lemma_nca_of_ancestor(sb, m);
        assert(t.parent@.len() <= usize::MAX) by {
            assert(t.parent.len() == t.parent@.len());
        }
        assert(l == Region::Scope(m as usize));
        assert(l->Scope_0 as int == m);
        assert(lub_spec(t, a, l, other_bound) == Region::Scope(nca_of(t, sa, m) as usize));
    }
}

/// Law: a skolemized region is bounded only by itself or `'static`: its
/// least upper bound with itself is itself, and with any other region but
/// `'empty` it is `'static`, in either order.
pub proof fn law_lub_skolemized(t: ScopeTree, s: Region, x: Region, free_bound: Option<Region>)
    requires
        s is Skolemized,
    ensures
        lub_spec(t, s, s, free_bound) == s,
        x != s && !(x is Empty) ==> lub_spec(t, s, x, free_bound) == Region::Static && lub_spec(
            t,
            x,
            s,
            free_bound,
        ) == Region::Static,
{
}

/// `a` is a subregion of `b`: their least upper bound is `b`.
pub fn sub_concrete_regions(t: &ScopeTree, a: Region, b: Region, free_bound: Option<Region>) -> (r: bool)
    requires
        t.wf(),
        one_tree(*t),
        is_concrete(a),
        is_concrete(b),
        in_tree(*t, a),
        in_tree(*t, b),
    ensures
        r == (lub_spec(*t, a, b, free_bound) == b),
{
    let lub = lub_concrete_regions(t, a, b, free_bound);
    lub == b
}

/// A type parameter or an associated-type projection that must outlive a
/// region, told apart by an index.
#[derive(Clone, Copy, Debug, PartialEq, Eq)]
pub enum GenericKind {
    Param(u32),
    Projection(u32),
}

/// Why region inference failed. Origins (of a subregion requirement or a
/// region variable) are told apart by an index.
#[derive(Clone, Copy, Debug, PartialEq, Eq)]
pub enum RegionResolutionError {
    /// The origin requires that the first region be a subregion of the
    /// second, which does not hold.
    ConcreteFailure(u32, Region, Region),
    /// The parameter or projection must outlive the region, and none of
    /// its known bounds does.
    GenericBoundFailure(u32, GenericKind, Region),
    /// No value for the variable (its origin first) fits both a lower
    /// bound and an upper bound, each with its origin, as the lower bound
    /// is no subregion of the upper bound.
    SubSupConflict(u32, u32, Region, u32, Region),
}

/// The error for a requirement that `sub` be a subregion of `sup`, if it
/// does not hold.
pub fn check_concrete(
    t: &ScopeTree,
    origin: u32,
    sub: Region,
    sup: Region,
    free_bound: Option<Region>,
) -> (r: Option<RegionResolutionError>)
    requires
        t.wf(),
        one_tree(*t),
        is_concrete(sub),
        is_concrete(sup),
        in_tree(*t, sub),
        in_tree(*t, sup),
    ensures
        r == if lub_spec(*t, sub, sup, free_bound) == sup {
            None
        } else {
            Some(RegionResolutionError::ConcreteFailure(origin, sub, sup))
        },
{
    if sub_concrete_regions(t, sub, sup, free_bound) {
        None
    } else {
        Some(RegionResolutionError::ConcreteFailure(origin, sub, sup))
    }
}

} // verus!
