//! Identities and interners for the linear-use expression language.
//!
//! `ExprInterner` owns a growable sequence of expression nodes; an `ExprId`
//! is a stable index into it (no deduplication: expression identity is
//! positional). `PathInterner` interns symbolic access paths with structural
//! deduplication, and collects the base facts (`roots`, `parents`, `uses`)
//! that the path resolver emits. `NameInterner` issues strictly increasing
//! binder identities.

use vstd::prelude::*;

verus! {

/// Identity of a binder introduced by a `let`.
#[derive(Debug, Copy, Clone, PartialEq, Eq, Structural)]
pub struct NameId(pub usize);

/// Identity of an interned expression node: a stable index.
#[derive(Debug, Copy, Clone, PartialEq, Eq, Structural)]
pub struct ExprId(pub usize);

/// A zero-based tuple-field selector.
#[derive(Debug, Copy, Clone, PartialEq, Eq, Structural)]
pub struct Index(pub usize);

/// Identity of an interned access path: a stable index.
#[derive(Debug, Copy, Clone, PartialEq, Eq, Structural)]
pub struct PathId(pub usize);

/// An expression node. `I32` literals are non-linear, `Str` literals linear.
#[derive(Debug, Clone)]
pub enum Expr {
    Let(NameId, ExprId, ExprId),
    Var(NameId),
    Tuple(Vec<ExprId>),
    Project(ExprId, Index),
    I32(i32),
    Str(String),
}

/// A symbolic access chain rooted at a name.
#[derive(Debug, Copy, Clone, PartialEq, Eq, Structural)]
pub enum Path {
    Var(NameId),
    Project(PathId, Index),
}

/// Every `ExprId` inside a node interned at position `n` must refer
/// strictly below `n`: no forward references, no cycles.
pub open spec fn expr_wf(e: Expr, n: nat) -> bool {
    match e {
        Expr::Let(_, e0, e1) => e0.0 < n && e1.0 < n,
        Expr::Var(_) => true,
        Expr::Tuple(es) => forall|i: int| 0 <= i < es@.len() ==> (#[trigger] es@[i]).0 < n,
        Expr::Project(e0, _) => e0.0 < n,
        Expr::I32(_) => true,
        Expr::Str(_) => true,
    }
}

/// A `Path::Project` interned at position `n` must refer to an already
/// interned path.
pub open spec fn path_wf(p: Path, n: nat) -> bool {
    match p {
        Path::Var(_) => true,
        Path::Project(p0, _) => p0.0 < n,
    }
}

/// Append-only arena of expression nodes.
pub struct ExprInterner {
    vec: Vec<Expr>,
}

impl ExprInterner {
    /// The interned nodes, in interning order.
    pub closed spec fn exprs(self) -> Seq<Expr> {
        self.vec@
    }

    /// Every node only refers to nodes interned strictly before it.
    pub open spec fn wf(self) -> bool {
        forall|i: int| 0 <= i < self.exprs().len() ==> expr_wf(#[trigger] self.exprs()[i], i as nat)
    }

    pub fn new() -> (r: ExprInterner)
        ensures
            r.exprs() == Seq::<Expr>::empty(),
            r.wf(),
    {
        ExprInterner { vec: Vec::new() }
    }

    pub fn len(&self) -> (n: usize)
        ensures
            n == self.exprs().len(),
    {
        self.vec.len()
    }

    /// Appends a node and returns its fresh, positional identity.
    pub fn intern(&mut self, expr: Expr) -> (id: ExprId)
        requires
            old(self).wf(),
            expr_wf(expr, old(self).exprs().len() as nat),
        ensures
            final(self).wf(),
            id.0 == old(self).exprs().len(),
            final(self).exprs() == old(self).exprs().push(expr),
    {
        let id = ExprId(self.vec.len());
        self.vec.push(expr);
        id
    }

    /// Looks a node up. Dangling identities are impossible by construction:
    /// only identities issued by `intern` satisfy the precondition.
    pub fn resolve(&self, id: &ExprId) -> (e: &Expr)
        requires
            id.0 < self.exprs().len(),
        ensures
            *e == self.exprs()[id.0 as int],
    {
        &self.vec[id.0]
    }
}

impl Default for ExprInterner {
    fn default() -> (r: ExprInterner)
        ensures
            r.exprs() == Seq::<Expr>::empty(),
            r.wf(),
    {
        ExprInterner::new()
    }
}

/// Issues strictly increasing, never reused binder identities.
pub struct NameInterner {
    pub counter: usize,
}

impl NameInterner {
    pub fn new() -> (r: NameInterner)
        ensures
            r.counter == 0,
    {
        NameInterner { counter: 0 }
    }

    pub fn fresh(&mut self) -> (id: NameId)
        requires
            old(self).counter < usize::MAX,
        ensures
            id.0 == old(self).counter,
            final(self).counter == old(self).counter + 1,
    {
        let id = NameId(self.counter);
        self.counter = self.counter + 1;
        id
    }
}

impl Default for NameInterner {
    fn default() -> (r: NameInterner)
        ensures
            r.counter == 0,
    {
        NameInterner::new()
    }
}

/// Arena of access paths with structural deduplication, plus the base
/// facts that the path resolver emits.
pub struct PathInterner {
    /// The interned paths; a `PathId` is an index here. Callers must
    /// maintain `wf` and so only grow this through `intern`.
    pub paths: Vec<Path>,
    /// `(p, x)`: the path `p` is the bare occurrence of the binder `x`.
    pub roots: Vec<(PathId, NameId)>,
    /// `(p, q)`: the path `q` is a one-step projection out of the path `p`.
    pub parents: Vec<(PathId, PathId)>,
    /// `(p, e)`: the path `p` is consumed at the expression site `e`.
    pub uses: Vec<(PathId, ExprId)>,
}

impl PathInterner {
    /// The interned paths, in interning order; a `PathId` indexes here.
    pub open spec fn paths(self) -> Seq<Path> {
        self.paths@
    }

    /// Paths refer only backwards, and no two interned paths are
    /// structurally equal (deduplication).
    pub open spec fn wf(self) -> bool {
        &&& forall|i: int|
            0 <= i < self.paths().len() ==> path_wf(#[trigger] self.paths()[i], i as nat)
        &&& self.paths().no_duplicates()
        &&& forall|k: int|
            0 <= k < self.roots@.len() ==> (#[trigger] self.roots@[k]).0.0 < self.paths().len()
        &&& forall|k: int|
            0 <= k < self.parents@.len() ==> (#[trigger] self.parents@[k]).0.0
                < self.paths().len() && self.parents@[k].1.0 < self.paths().len()
        &&& forall|k: int|
            0 <= k < self.uses@.len() ==> (#[trigger] self.uses@[k]).0.0 < self.paths().len()
    }

    pub fn new() -> (r: PathInterner)
        ensures
            r.paths() == Seq::<Path>::empty(),
            r.roots@ == Seq::<(PathId, NameId)>::empty(),
            r.parents@ == Seq::<(PathId, PathId)>::empty(),
            r.uses@ == Seq::<(PathId, ExprId)>::empty(),
            r.wf(),
    {
        PathInterner { paths: Vec::new(), roots: Vec::new(), parents: Vec::new(), uses: Vec::new() }
    }

    pub fn path_count(&self) -> (n: usize)
        ensures
            n == self.paths().len(),
    {
        self.paths.len()
    }

    /// Returns the existing identity of a structurally equal path, or
    /// interns the path under a fresh one.
    pub fn intern(&mut self, path: Path) -> (id: PathId)
        requires
            old(self).wf(),
            path_wf(path, old(self).paths().len() as nat),
        ensures
            final(self).wf(),
            final(self).roots@ == old(self).roots@,
            final(self).parents@ == old(self).parents@,
            final(self).uses@ == old(self).uses@,
            id.0 < final(self).paths().len(),
            final(self).paths()[id.0 as int] == path,
            old(self).paths().contains(path) ==> final(self).paths() == old(self).paths(),
            !old(self).paths().contains(path) ==> final(self).paths() == old(self).paths().push(
                path,
            ) && id.0 == old(self).paths().len(),
    {
        let n = self.paths.len();
        let mut i: usize = 0;
        while i < n
            invariant
                *self == *old(self),
                old(self).wf(),
                n == self.paths().len(),
                i <= n,
                forall|j: int| 0 <= j < i ==> self.paths()[j] != path,
            decreases n - i,
        {
            if self.paths[i] == path {
                proof {
                    assert(old(self).paths().contains(path));
                }
                return PathId(i);
            }
            i = i + 1;
        }
        proof {
            assert(!old(self).paths().contains(path)) by {
                if old(self).paths().contains(path) {
                    let j = choose|j: int|
                        0 <= j < old(self).paths().len() && old(self).paths()[j] == path;
                    assert(self.paths()[j] != path);
                }
            }
        }
        let id = PathId(n);
        self.paths.push(path);
        id
    }

    /// Looks a path up; identities issued by `intern` are always valid.
    pub fn resolve(&self, id: PathId) -> (p: &Path)
        requires
            id.0 < self.paths().len(),
        ensures
            *p == self.paths()[id.0 as int],
    {
        &self.paths[id.0]
    }

    /// Records that the path `p0` is consumed at the expression site `e0`.
    pub fn add_use(&mut self, p0: PathId, e0: ExprId)
        requires
            old(self).wf(),
            p0.0 < old(self).paths().len(),
        ensures
            final(self).wf(),
            final(self).paths() == old(self).paths(),
            final(self).roots@ == old(self).roots@,
            final(self).parents@ == old(self).parents@,
            final(self).uses@ == old(self).uses@.push((p0, e0)),
    {
        self.uses.push((p0, e0));
    }

    /// Records that the path `p0` is the bare occurrence of the binder `x0`.
    pub fn add_root(&mut self, p0: PathId, x0: NameId)
        requires
            old(self).wf(),
            p0.0 < old(self).paths().len(),
        ensures
            final(self).wf(),
            final(self).paths() == old(self).paths(),
            final(self).roots@ == old(self).roots@.push((p0, x0)),
            final(self).parents@ == old(self).parents@,
            final(self).uses@ == old(self).uses@,
    {
        self.roots.push((p0, x0));
    }

    /// Records that the path `p1` is a one-step projection out of `p0`.
    pub fn add_parent(&mut self, p0: PathId, p1: PathId)
        requires
            old(self).wf(),
            p0.0 < old(self).paths().len(),
            p1.0 < old(self).paths().len(),
        ensures
            final(self).wf(),
            final(self).paths() == old(self).paths(),
            final(self).roots@ == old(self).roots@,
            final(self).parents@ == old(self).parents@.push((p0, p1)),
            final(self).uses@ == old(self).uses@,
    {
        self.parents.push((p0, p1));
    }
}

impl Default for PathInterner {
    fn default() -> (r: PathInterner)
        ensures
            r.paths() == Seq::<Path>::empty(),
            r.roots@ == Seq::<(PathId, NameId)>::empty(),
            r.parents@ == Seq::<(PathId, PathId)>::empty(),
            r.uses@ == Seq::<(PathId, ExprId)>::empty(),
            r.wf(),
    {
        PathInterner::new()
    }
}

} // verus!
