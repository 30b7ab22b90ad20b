//! The path resolver: one recursive descent over an expression tree that
//! interns every symbolic access path the tree denotes and emits the base
//! facts `Root`, `Parent` and `Used` the linearity rules consume.
//!
//! The specification speaks of path *values*: a root binder together
//! with the chain of projection indices (`PathVal`). `facts_of` gives,
//! for a subtree, the exact sets of facts the walk must produce, as sets
//! of path values; the resolver's contract says its interner holds
//! precisely those, with each value represented by one deduplicated
//! `PathId`.

use vstd::prelude::*;

use crate::data::{expr_wf, path_wf, Expr, ExprId, ExprInterner, Index, NameId, Path, PathId, PathInterner};

verus! {

/// The value of an access path: its root binder and projection chain.
pub struct PathVal {
    pub root: NameId,
    pub projs: Seq<Index>,
}

/// The value denoted by the interned path at position `i`.
pub open spec fn path_val(paths: Seq<Path>, i: int) -> PathVal
    decreases i,
{
    if 0 <= i < paths.len() {
        match paths[i] {
            Path::Var(x) => PathVal { root: x, projs: Seq::empty() },
            Path::Project(pid, idx) => {
                if pid.0 < i {
                    let pv = path_val(paths, pid.0 as int);
                    PathVal { root: pv.root, projs: pv.projs.push(idx) }
                } else {
                    PathVal { root: NameId(0), projs: Seq::empty() }
                }
            },
        }
    } else {
        PathVal { root: NameId(0), projs: Seq::empty() }
    }
}

/// Appending paths never changes the value of an existing one.
pub proof fn lemma_path_val_append(p1: Seq<Path>, p2: Seq<Path>, i: int)
    requires
        0 <= i < p1.len(),
        p2.len() >= p1.len(),
        forall|j: int| 0 <= j < p1.len() ==> p2[j] == p1[j],
        forall|j: int| 0 <= j < p1.len() ==> path_wf(#[trigger] p1[j], j as nat),
    ensures
        path_val(p2, i) == path_val(p1, i),
    decreases i,
{
    match p1[i] {
        Path::Var(_) => {},
        Path::Project(pid, _) => {
            lemma_path_val_append(p1, p2, pid.0 as int);
        },
    }
}

/// On a deduplicated, well-formed arena, distinct identities denote
/// distinct path values.
pub proof fn lemma_path_val_injective(paths: Seq<Path>, i: int, j: int)
    requires
        forall|k: int| 0 <= k < paths.len() ==> path_wf(#[trigger] paths[k], k as nat),
        paths.no_duplicates(),
        0 <= i < paths.len(),
        0 <= j < paths.len(),
        path_val(paths, i) == path_val(paths, j),
    ensures
        i == j,
    decreases i + j,
{
    match (paths[i], paths[j]) {
        (Path::Var(x), Path::Var(y)) => {
            assert(path_val(paths, i).root == x);
            assert(path_val(paths, j).root == y);
            if i != j {
                assert(paths[i] != paths[j]);
            }
        },
        (Path::Var(_), Path::Project(pj0, _)) => {
            assert(path_val(paths, i).projs.len() == 0);
            assert(path_val(paths, j).projs.len() == path_val(paths, pj0.0 as int).projs.len()
                + 1);
        },
        (Path::Project(pi0, _), Path::Var(_)) => {
            assert(path_val(paths, j).projs.len() == 0);
            assert(path_val(paths, i).projs.len() == path_val(paths, pi0.0 as int).projs.len()
                + 1);
        },
        (Path::Project(pi0, idxi), Path::Project(pj0, idxj)) => {
            let vi = path_val(paths, pi0.0 as int);
            let vj = path_val(paths, pj0.0 as int);
            assert(path_val(paths, i).projs == vi.projs.push(idxi));
            assert(path_val(paths, j).projs == vj.projs.push(idxj));
            assert(vi.projs.push(idxi).last() == idxi);
            assert(vj.projs.push(idxj).last() == idxj);
            assert(idxi == idxj);
            assert(vi.projs.push(idxi).drop_last() =~= vi.projs);
            assert(vj.projs.push(idxj).drop_last() =~= vj.projs);
            assert(vi.projs == vj.projs);
            assert(vi.root == path_val(paths, i).root);
            assert(vj.root == path_val(paths, j).root);
            assert(vi == vj);
            lemma_path_val_injective(paths, pi0.0 as int, pj0.0 as int);
            assert(pi0 == pj0);
            if i != j {
                assert(paths[i] != paths[j]);
            }
        },
    }
}

/// The path value an expression node denotes, if any: only variable
/// occurrences and projections out of path-denoting nodes are paths.
pub open spec fn expr_path(es: Seq<Expr>, e: int) -> Option<PathVal>
    decreases e,
{
    if 0 <= e < es.len() {
        match es[e] {
            Expr::Var(x) => Some(PathVal { root: x, projs: Seq::empty() }),
            Expr::Project(e0, idx) => {
                if e0.0 < e {
                    match expr_path(es, e0.0 as int) {
                        Some(pv) => Some(PathVal { root: pv.root, projs: pv.projs.push(idx) }),
                        None => None,
                    }
                } else {
                    None
                }
            },
            _ => None,
        }
    } else {
        None
    }
}

/// The base facts of one subtree, as sets over path values.
pub struct BaseFacts {
    pub roots: Set<(NameId, PathVal)>,
    pub parents: Set<(PathVal, PathVal)>,
    pub uses: Set<(PathVal, ExprId)>,
}

pub open spec fn no_base_facts() -> BaseFacts {
    BaseFacts { roots: Set::empty(), parents: Set::empty(), uses: Set::empty() }
}

pub open spec fn union_facts(a: BaseFacts, b: BaseFacts) -> BaseFacts {
    BaseFacts {
        roots: a.roots.union(b.roots),
        parents: a.parents.union(b.parents),
        uses: a.uses.union(b.uses),
    }
}

/// The facts a walk of the subtree rooted at `e` emits: a `Root` for
/// every variable occurrence, a `Parent` for every projection out of a
/// path, and a `Used` for every path standing as the bound value of a
/// `Let` or as a tuple element.
pub open spec fn facts_of(es: Seq<Expr>, e: int) -> BaseFacts
    decreases e, 1int, 0int,
{
    if 0 <= e < es.len() {
        match es[e] {
            Expr::Let(_x, e0, e1) => {
                if e0.0 < e && e1.0 < e {
                    let f = union_facts(facts_of(es, e0.0 as int), facts_of(es, e1.0 as int));
                    match expr_path(es, e0.0 as int) {
                        Some(pv) => BaseFacts { uses: f.uses.insert((pv, e0)), ..f },
                        None => f,
                    }
                } else {
                    no_base_facts()
                }
            },
            Expr::Var(x) => BaseFacts {
                roots: Set::empty().insert((x, PathVal { root: x, projs: Seq::empty() })),
                parents: Set::empty(),
                uses: Set::empty(),
            },
            Expr::Tuple(ids) => facts_of_list(es, ids@, ids@.len() as int, e),
            Expr::Project(e0, idx) => {
                if e0.0 < e {
                    let f = facts_of(es, e0.0 as int);
                    match expr_path(es, e0.0 as int) {
                        Some(pv) => BaseFacts {
                            parents: f.parents.insert(
                                (pv, PathVal { root: pv.root, projs: pv.projs.push(idx) }),
                            ),
                            ..f
                        },
                        None => f,
                    }
                } else {
                    no_base_facts()
                }
            },
            Expr::I32(_) => no_base_facts(),
            Expr::Str(_) => no_base_facts(),
        }
    } else {
        no_base_facts()
    }
}

/// The facts of the first `j` elements of a tuple, each element used at
/// its own site when it is a path.
pub open spec fn facts_of_list(es: Seq<Expr>, ids: Seq<ExprId>, j: int, b: int) -> BaseFacts
    decreases b, 0int, j,
{
    if j <= 0 {
        no_base_facts()
    } else {
        let id = ids[j - 1];
        let rest = facts_of_list(es, ids, j - 1, b);
        if id.0 < b {
            let f = union_facts(rest, facts_of(es, id.0 as int));
            match expr_path(es, id.0 as int) {
                Some(pv) => BaseFacts { uses: f.uses.insert((pv, id)), ..f },
                None => f,
            }
        } else {
            rest
        }
    }
}

/// The `Root` facts an interner holds, translated to path values.
pub open spec fn roots_vals(p: PathInterner) -> Set<(NameId, PathVal)> {
    Set::new(
        |t: (NameId, PathVal)|
            exists|k: int|
                0 <= k < p.roots@.len() && (#[trigger] p.roots@[k]).1 == t.0 && path_val(
                    p.paths(),
                    p.roots@[k].0.0 as int,
                ) == t.1,
    )
}

/// The `Parent` facts an interner holds, translated to path values.
pub open spec fn parents_vals(p: PathInterner) -> Set<(PathVal, PathVal)> {
    Set::new(
        |t: (PathVal, PathVal)|
            exists|k: int|
                0 <= k < p.parents@.len() && path_val(
                    p.paths(),
                    (#[trigger] p.parents@[k]).0.0 as int,
                ) == t.0 && path_val(p.paths(), p.parents@[k].1.0 as int) == t.1,
    )
}

/// The `Used` facts an interner holds, translated to path values.
pub open spec fn uses_vals(p: PathInterner) -> Set<(PathVal, ExprId)> {
    Set::new(
        |t: (PathVal, ExprId)|
            exists|k: int|
                0 <= k < p.uses@.len() && path_val(p.paths(), (#[trigger] p.uses@[k]).0.0 as int)
                    == t.0 && p.uses@[k].1 == t.1,
    )
}

/// The resolver's interner invariant: well formed, and every interned
/// path already carries its `Root` or `Parent` fact, so that
/// re-encountering a deduplicated path adds nothing new.
pub open spec fn resolver_inv(p: PathInterner) -> bool {
    &&& p.wf()
    &&& forall|j: int|
        0 <= j < p.paths().len() ==> match #[trigger] p.paths()[j] {
            Path::Var(x) => exists|k: int|
                0 <= k < p.roots@.len() && (#[trigger] p.roots@[k]) == (PathId(j as usize), x),
            Path::Project(pid, _idx) => exists|k: int|
                0 <= k < p.parents@.len() && (#[trigger] p.parents@[k]) == (
                    pid,
                    PathId(j as usize),
                ),
        }
}


/// Appending to the path arena does not change the translated `Root`
/// facts of an unchanged roots vector.
proof fn lemma_roots_vals_stable(p1: PathInterner, p2: PathInterner)
    requires
        p1.wf(),
        p2.roots@ == p1.roots@,
        p2.paths().len() >= p1.paths().len(),
        forall|j: int| 0 <= j < p1.paths().len() ==> p2.paths()[j] == p1.paths()[j],
    ensures
        roots_vals(p2) == roots_vals(p1),
{
    assert forall|k: int| 0 <= k < p1.roots@.len() implies path_val(
        p2.paths(),
        (#[trigger] p1.roots@[k]).0.0 as int,
    ) == path_val(p1.paths(), p1.roots@[k].0.0 as int) by {
        lemma_path_val_append(p1.paths(), p2.paths(), p1.roots@[k].0.0 as int);
    }
    assert(roots_vals(p2) =~= roots_vals(p1));
}

/// Appending to the path arena does not change the translated `Parent`
/// facts of an unchanged parents vector.
proof fn lemma_parents_vals_stable(p1: PathInterner, p2: PathInterner)
    requires
        p1.wf(),
        p2.parents@ == p1.parents@,
        p2.paths().len() >= p1.paths().len(),
        forall|j: int| 0 <= j < p1.paths().len() ==> p2.paths()[j] == p1.paths()[j],
    ensures
        parents_vals(p2) == parents_vals(p1),
{
    assert forall|k: int| 0 <= k < p1.parents@.len() implies path_val(
        p2.paths(),
        (#[trigger] p1.parents@[k]).0.0 as int,
    ) == path_val(p1.paths(), p1.parents@[k].0.0 as int) && path_val(
        p2.paths(),
        p1.parents@[k].1.0 as int,
    ) == path_val(p1.paths(), p1.parents@[k].1.0 as int) by {
        lemma_path_val_append(p1.paths(), p2.paths(), p1.parents@[k].0.0 as int);
        lemma_path_val_append(p1.paths(), p2.paths(), p1.parents@[k].1.0 as int);
    }
    assert(parents_vals(p2) =~= parents_vals(p1));
}

/// Appending to the path arena does not change the translated `Used`
/// facts of an unchanged uses vector.
proof fn lemma_uses_vals_stable(p1: PathInterner, p2: PathInterner)
    requires
        p1.wf(),
        p2.uses@ == p1.uses@,
        p2.paths().len() >= p1.paths().len(),
        forall|j: int| 0 <= j < p1.paths().len() ==> p2.paths()[j] == p1.paths()[j],
    ensures
        uses_vals(p2) == uses_vals(p1),
{
    assert forall|k: int| 0 <= k < p1.uses@.len() implies path_val(
        p2.paths(),
        (#[trigger] p1.uses@[k]).0.0 as int,
    ) == path_val(p1.paths(), p1.uses@[k].0.0 as int) by {
        lemma_path_val_append(p1.paths(), p2.paths(), p1.uses@[k].0.0 as int);
    }
    assert(uses_vals(p2) =~= uses_vals(p1));
}

/// Pushing one entry on the roots vector inserts exactly its value pair.
proof fn lemma_roots_vals_push(p1: PathInterner, p2: PathInterner, pid: PathId, x: NameId)
    requires
        p1.wf(),
        pid.0 < p1.paths().len(),
        p2.roots@ == p1.roots@.push((pid, x)),
        p2.paths() == p1.paths(),
    ensures
        roots_vals(p2) == roots_vals(p1).insert((x, path_val(p1.paths(), pid.0 as int))),
{
    assert forall|t: (NameId, PathVal)| roots_vals(p2).contains(t) implies roots_vals(
        p1,
    ).insert((x, path_val(p1.paths(), pid.0 as int))).contains(t) by {
        let k = choose|k: int|
            0 <= k < p2.roots@.len() && (#[trigger] p2.roots@[k]).1 == t.0 && path_val(
                p2.paths(),
                p2.roots@[k].0.0 as int,
            ) == t.1;
        if k < p1.roots@.len() {
            assert(p1.roots@[k] == p2.roots@[k]);
            assert(roots_vals(p1).contains(t));
        }
    }
    assert forall|t: (NameId, PathVal)|
        roots_vals(p1).insert((x, path_val(p1.paths(), pid.0 as int))).contains(t)
        implies roots_vals(p2).contains(t) by {
        if roots_vals(p1).contains(t) {
            let k = choose|k: int|
                0 <= k < p1.roots@.len() && (#[trigger] p1.roots@[k]).1 == t.0 && path_val(
                    p1.paths(),
                    p1.roots@[k].0.0 as int,
                ) == t.1;
            assert(p2.roots@[k] == p1.roots@[k]);
        } else {
            let k = p2.roots@.len() - 1;
            assert((#[trigger] p2.roots@[k]).1 == t.0);
        }
    }
    assert(roots_vals(p2) =~= roots_vals(p1).insert((x, path_val(p1.paths(), pid.0 as int))));
}

/// Pushing one entry on the parents vector inserts exactly its value
/// pair.
proof fn lemma_parents_vals_push(p1: PathInterner, p2: PathInterner, pa: PathId, pb: PathId)
    requires
        p1.wf(),
        pa.0 < p1.paths().len(),
        pb.0 < p1.paths().len(),
        p2.parents@ == p1.parents@.push((pa, pb)),
        p2.paths() == p1.paths(),
    ensures
        parents_vals(p2) == parents_vals(p1).insert(
            (path_val(p1.paths(), pa.0 as int), path_val(p1.paths(), pb.0 as int)),
        ),
{
    let t0 = (path_val(p1.paths(), pa.0 as int), path_val(p1.paths(), pb.0 as int));
    assert forall|t: (PathVal, PathVal)| parents_vals(p2).contains(t) implies parents_vals(
        p1,
    ).insert(t0).contains(t) by {
        let k = choose|k: int|
            0 <= k < p2.parents@.len() && path_val(
                p2.paths(),
                (#[trigger] p2.parents@[k]).0.0 as int,
            ) == t.0 && path_val(p2.paths(), p2.parents@[k].1.0 as int) == t.1;
        if k < p1.parents@.len() {
            assert(p1.parents@[k] == p2.parents@[k]);
            assert(parents_vals(p1).contains(t));
        }
    }
    assert forall|t: (PathVal, PathVal)| parents_vals(p1).insert(t0).contains(t)
        implies parents_vals(p2).contains(t) by {
        if parents_vals(p1).contains(t) {
            let k = choose|k: int|
                0 <= k < p1.parents@.len() && path_val(
                    p1.paths(),
                    (#[trigger] p1.parents@[k]).0.0 as int,
                ) == t.0 && path_val(p1.paths(), p1.parents@[k].1.0 as int) == t.1;
            assert(p2.parents@[k] == p1.parents@[k]);
        } else {
            let k = p2.parents@.len() - 1;
            assert(path_val(p2.paths(), (#[trigger] p2.parents@[k]).0.0 as int) == t.0);
        }
    }
    assert(parents_vals(p2) =~= parents_vals(p1).insert(t0));
}

/// Pushing one entry on the uses vector inserts exactly its value pair.
proof fn lemma_uses_vals_push(p1: PathInterner, p2: PathInterner, pid: PathId, e: ExprId)
    requires
        p1.wf(),
        pid.0 < p1.paths().len(),
        p2.uses@ == p1.uses@.push((pid, e)),
        p2.paths() == p1.paths(),
    ensures
        uses_vals(p2) == uses_vals(p1).insert((path_val(p1.paths(), pid.0 as int), e)),
{
    let t0 = (path_val(p1.paths(), pid.0 as int), e);
    assert forall|t: (PathVal, ExprId)| uses_vals(p2).contains(t) implies uses_vals(p1).insert(
        t0,
    ).contains(t) by {
        let k = choose|k: int|
            0 <= k < p2.uses@.len() && path_val(p2.paths(), (#[trigger] p2.uses@[k]).0.0 as int)
                == t.0 && p2.uses@[k].1 == t.1;
        if k < p1.uses@.len() {
            assert(p1.uses@[k] == p2.uses@[k]);
            assert(uses_vals(p1).contains(t));
        }
    }
    assert forall|t: (PathVal, ExprId)| uses_vals(p1).insert(t0).contains(t) implies uses_vals(
        p2,
    ).contains(t) by {
        if uses_vals(p1).contains(t) {
            let k = choose|k: int|
                0 <= k < p1.uses@.len() && path_val(
                    p1.paths(),
                    (#[trigger] p1.uses@[k]).0.0 as int,
                ) == t.0 && p1.uses@[k].1 == t.1;
            assert(p2.uses@[k] == p1.uses@[k]);
        } else {
            let k = p2.uses@.len() - 1;
            assert(path_val(p2.paths(), (#[trigger] p2.uses@[k]).0.0 as int) == t.0);
        }
    }
    assert(uses_vals(p2) =~= uses_vals(p1).insert(t0));
}

/// The resolver invariant survives growing the fact vectors and
/// appending paths whose facts are recorded.
proof fn lemma_inv_extend(p1: PathInterner, p2: PathInterner)
    requires
        resolver_inv(p1),
        p2.wf(),
        p2.paths() == p1.paths(),
        p2.roots@.len() >= p1.roots@.len(),
        forall|k: int| 0 <= k < p1.roots@.len() ==> p2.roots@[k] == p1.roots@[k],
        p2.parents@.len() >= p1.parents@.len(),
        forall|k: int| 0 <= k < p1.parents@.len() ==> p2.parents@[k] == p1.parents@[k],
    ensures
        resolver_inv(p2),
{
    assert forall|j: int| 0 <= j < p2.paths().len() implies match #[trigger] p2.paths()[j] {
        Path::Var(x) => exists|k: int|
            0 <= k < p2.roots@.len() && (#[trigger] p2.roots@[k]) == (PathId(j as usize), x),
        Path::Project(pid, _idx) => exists|k: int|
            0 <= k < p2.parents@.len() && (#[trigger] p2.parents@[k]) == (pid, PathId(j as usize)),
    } by {
        match p1.paths()[j] {
            Path::Var(x) => {
                let k = choose|k: int|
                    0 <= k < p1.roots@.len() && (#[trigger] p1.roots@[k]) == (
                        PathId(j as usize),
                        x,
                    );
                assert(p2.roots@[k] == (PathId(j as usize), x));
            },
            Path::Project(pid, _idx) => {
                let k = choose|k: int|
                    0 <= k < p1.parents@.len() && (#[trigger] p1.parents@[k]) == (
                        pid,
                        PathId(j as usize),
                    );
                assert(p2.parents@[k] == (pid, PathId(j as usize)));
            },
        }
    }
}


impl ExprInterner {
    /// Walks one expression tree and returns a fresh interner holding
    /// exactly the base facts of that tree.
    pub fn resolve_paths(&self, id: &ExprId) -> (p: PathInterner)
        requires
            self.wf(),
            id.0 < self.exprs().len(),
        ensures
            resolver_inv(p),
            roots_vals(p) == facts_of(self.exprs(), id.0 as int).roots,
            parents_vals(p) == facts_of(self.exprs(), id.0 as int).parents,
            uses_vals(p) == facts_of(self.exprs(), id.0 as int).uses,
    {
        let mut interner = PathInterner::new();
        proof {
            assert(roots_vals(interner) =~= Set::<(NameId, PathVal)>::empty());
            assert(parents_vals(interner) =~= Set::<(PathVal, PathVal)>::empty());
            assert(uses_vals(interner) =~= Set::<(PathVal, ExprId)>::empty());
        }
        self.r(id, &mut interner);
        proof {
            assert(roots_vals(interner) =~= facts_of(self.exprs(), id.0 as int).roots);
            assert(parents_vals(interner) =~= facts_of(self.exprs(), id.0 as int).parents);
            assert(uses_vals(interner) =~= facts_of(self.exprs(), id.0 as int).uses);
        }
        interner
    }

    /// The recursive descent: returns the interned path the node
    /// denotes, if it denotes one, and emits the node's base facts into
    /// `paths`.
    #[verifier::loop_isolation(false)]
    pub fn r(&self, e: &ExprId, paths: &mut PathInterner) -> (res: Option<PathId>)
        requires
            self.wf(),
            e.0 < self.exprs().len(),
            resolver_inv(*old(paths)),
        ensures
            resolver_inv(*final(paths)),
            final(paths).paths().len() >= old(paths).paths().len(),
            forall|j: int|
                0 <= j < old(paths).paths().len() ==> final(paths).paths()[j] == old(
                    paths,
                ).paths()[j],
            roots_vals(*final(paths)) == roots_vals(*old(paths)).union(
                facts_of(self.exprs(), e.0 as int).roots,
            ),
            parents_vals(*final(paths)) == parents_vals(*old(paths)).union(
                facts_of(self.exprs(), e.0 as int).parents,
            ),
            uses_vals(*final(paths)) == uses_vals(*old(paths)).union(
                facts_of(self.exprs(), e.0 as int).uses,
            ),
            match res {
                Some(pid) => pid.0 < final(paths).paths().len() && expr_path(
                    self.exprs(),
                    e.0 as int,
                ) == Some(path_val(final(paths).paths(), pid.0 as int)),
                None => expr_path(self.exprs(), e.0 as int) is None,
            },
        decreases e.0,
    {
        let ghost es = self.exprs();
        let ghost fe = facts_of(self.exprs(), e.0 as int);
        proof {
            assert(expr_wf(es[e.0 as int], e.0 as nat));
        }
        match self.resolve(e) {
            Expr::Let(_, e0, e1) => {
                let e0 = *e0;
                let e1 = *e1;
                let ghost p0 = *paths;
                let r0 = self.r(&e0, paths);
                let ghost p1 = *paths;
                if let Some(path_id) = r0 {
                    paths.add_use(path_id, e0);
                    proof {
                        lemma_uses_vals_push(p1, *paths, path_id, e0);
                        lemma_inv_extend(p1, *paths);
                    }
                }
                let ghost p2 = *paths;
                let r1 = self.r(&e1, paths);
                let ghost p3 = *paths;
                proof {
                    assert(roots_vals(p3) =~= roots_vals(p0).union(fe.roots));
                    assert(parents_vals(p3) =~= parents_vals(p0).union(fe.parents));
                    assert(uses_vals(p3) =~= uses_vals(p0).union(fe.uses));
                }
                None
            },
            Expr::Var(x) => {
                let x = *x;
                let ghost p0 = *paths;
                let before = paths.path_count();
                let id = paths.intern(Path::Var(x));
                let ghost pi = *paths;
                let ghost pv = (PathVal { root: x, projs: Seq::<Index>::empty() });
                if id.0 == before {
                    proof {
                        lemma_roots_vals_stable(p0, pi);
                        lemma_parents_vals_stable(p0, pi);
                        lemma_uses_vals_stable(p0, pi);
                        assert(pi.paths()[id.0 as int] == Path::Var(x));
                        assert(path_val(pi.paths(), id.0 as int) == pv);
                    }
                    paths.add_root(id, x);
                    let ghost pr = *paths;
                    proof {
                        lemma_roots_vals_push(pi, pr, id, x);
                        assert(roots_vals(pr) =~= roots_vals(p0).union(fe.roots));
                        assert(parents_vals(pr) =~= parents_vals(p0).union(fe.parents));
                        assert(uses_vals(pr) =~= uses_vals(p0).union(fe.uses));
                        // the invariant: old entries kept, the new path covered
                        assert forall|j: int|
                            0 <= j < pr.paths().len() implies match #[trigger] pr.paths()[j] {
                            Path::Var(x2) => exists|k: int|
                                0 <= k < pr.roots@.len() && (#[trigger] pr.roots@[k]) == (
                                    PathId(j as usize),
                                    x2,
                                ),
                            Path::Project(pid, _idx) => exists|k: int|
                                0 <= k < pr.parents@.len() && (#[trigger] pr.parents@[k]) == (
                                    pid,
                                    PathId(j as usize),
                                ),
                        } by {
                            if j < p0.paths().len() {
                                assert(pr.paths()[j] == p0.paths()[j]);
                                match p0.paths()[j] {
                                    Path::Var(x2) => {
                                        let k = choose|k: int|
                                            0 <= k < p0.roots@.len() && (#[trigger] p0.roots@[k])
                                                == (PathId(j as usize), x2);
                                        assert(pr.roots@[k] == (PathId(j as usize), x2));
                                    },
                                    Path::Project(pid, _idx) => {
                                        let k = choose|k: int|
                                            0 <= k < p0.parents@.len() && (
                                            #[trigger] p0.parents@[k]) == (
                                                pid,
                                                PathId(j as usize),
                                            );
                                        assert(pr.parents@[k] == (pid, PathId(j as usize)));
                                    },
                                }
                            } else {
                                assert(j == id.0 as int);
                                assert(pr.roots@[pr.roots@.len() - 1] == (PathId(j as usize), x));
                            }
                        }
                        assert(resolver_inv(pr));
                    }
                } else {
                    proof {
                        assert(roots_vals(pi) =~= roots_vals(p0));
                        assert(parents_vals(pi) =~= parents_vals(p0));
                        assert(uses_vals(pi) =~= uses_vals(p0));
                        assert(resolver_inv(pi));
                        assert(p0.paths()[id.0 as int] == Path::Var(x));
                        assert(path_val(p0.paths(), id.0 as int) == pv);
                        // the root fact of a deduplicated path is already there
                        let k = choose|k: int|
                            0 <= k < p0.roots@.len() && (#[trigger] p0.roots@[k]) == (
                                PathId(id.0 as usize),
                                x,
                            );
                        assert((#[trigger] p0.roots@[k]).1 == x && path_val(
                            p0.paths(),
                            p0.roots@[k].0.0 as int,
                        ) == pv);
                        assert(roots_vals(p0).contains((x, pv)));
                        assert(roots_vals(p0) =~= roots_vals(p0).union(fe.roots));
                        assert(parents_vals(p0) =~= parents_vals(p0).union(fe.parents));
                        assert(uses_vals(p0) =~= uses_vals(p0).union(fe.uses));
                    }
                }
                Some(id)
            },
            Expr::Tuple(ids) => {
                let ghost idsv = ids@;
                let n = ids.len();
                let ghost p0 = *paths;
                let mut i: usize = 0;
                while i < n
                    invariant
                        i <= n,
                        resolver_inv(*paths),
                        paths.paths().len() >= p0.paths().len(),
                        forall|j: int|
                            0 <= j < p0.paths().len() ==> paths.paths()[j] == p0.paths()[j],
                        roots_vals(*paths) == roots_vals(p0).union(
                            facts_of_list(es, idsv, i as int, e.0 as int).roots,
                        ),
                        parents_vals(*paths) == parents_vals(p0).union(
                            facts_of_list(es, idsv, i as int, e.0 as int).parents,
                        ),
                        uses_vals(*paths) == uses_vals(p0).union(
                            facts_of_list(es, idsv, i as int, e.0 as int).uses,
                        ),
                    decreases n - i,
                {
                    proof {
                        assert(idsv[i as int].0 < e.0);
                    }
                    let eid = ids[i];
                    let ghost pb = *paths;
                    let ri = self.r(&eid, paths);
                    if let Some(pid) = ri {
                        let ghost pm = *paths;
                        paths.add_use(pid, eid);
                        proof {
                            lemma_uses_vals_push(pm, *paths, pid, eid);
                            lemma_inv_extend(pm, *paths);
                        }
                    }
                    proof {
                        let ghost fl1 = facts_of_list(es, idsv, i + 1 as int, e.0 as int);
                        assert(roots_vals(*paths) =~= roots_vals(p0).union(fl1.roots));
                        assert(parents_vals(*paths) =~= parents_vals(p0).union(fl1.parents));
                        assert(uses_vals(*paths) =~= uses_vals(p0).union(fl1.uses));
                    }
                    i = i + 1;
                }
                proof {
                    assert(fe == facts_of_list(es, idsv, idsv.len() as int, e.0 as int));
                }
                None
            },
            Expr::Project(e0, idx) => {
                let e0 = *e0;
                let idx = *idx;
                let ghost p0 = *paths;
                let r0 = self.r(&e0, paths);
                let ghost p1 = *paths;
                match r0 {
                    Some(path_id) => {
                        let ghost pv0 = path_val(p1.paths(), path_id.0 as int);
                        let ghost pv1 = (PathVal { root: pv0.root, projs: pv0.projs.push(idx) });
                        let before = paths.path_count();
                        let id = paths.intern(Path::Project(path_id, idx));
                        let ghost pi = *paths;
                        if id.0 == before {
                            proof {
                                lemma_roots_vals_stable(p1, pi);
                                lemma_parents_vals_stable(p1, pi);
                                lemma_uses_vals_stable(p1, pi);
                                assert(pi.paths()[id.0 as int] == Path::Project(path_id, idx));
                                lemma_path_val_append(p1.paths(), pi.paths(), path_id.0 as int);
                                assert(path_val(pi.paths(), id.0 as int) == pv1);
                            }
                            paths.add_parent(path_id, id);
                            let ghost pr = *paths;
                            proof {
                                lemma_parents_vals_push(pi, pr, path_id, id);
                                assert(roots_vals(pr) =~= roots_vals(p0).union(fe.roots));
                                assert(parents_vals(pr) =~= parents_vals(p0).union(fe.parents));
                                assert(uses_vals(pr) =~= uses_vals(p0).union(fe.uses));
                                assert forall|j: int|
                                    0 <= j < pr.paths().len() implies match #[trigger] pr.paths()[j] {
                                    Path::Var(x2) => exists|k: int|
                                        0 <= k < pr.roots@.len() && (#[trigger] pr.roots@[k]) == (
                                            PathId(j as usize),
                                            x2,
                                        ),
                                    Path::Project(pid, _i2) => exists|k: int|
                                        0 <= k < pr.parents@.len() && (#[trigger] pr.parents@[k])
                                            == (pid, PathId(j as usize)),
                                } by {
                                    if j < p1.paths().len() {
                                        assert(pr.paths()[j] == p1.paths()[j]);
                                        match p1.paths()[j] {
                                            Path::Var(x2) => {
                                                let k = choose|k: int|
                                                    0 <= k < p1.roots@.len() && (
                                                    #[trigger] p1.roots@[k]) == (
                                                        PathId(j as usize),
                                                        x2,
                                                    );
                                                assert(pr.roots@[k] == (PathId(j as usize), x2));
                                            },
                                            Path::Project(pid, _i2) => {
                                                let k = choose|k: int|
                                                    0 <= k < p1.parents@.len() && (
                                                    #[trigger] p1.parents@[k]) == (
                                                        pid,
                                                        PathId(j as usize),
                                                    );
                                                assert(pr.parents@[k] == (
                                                    pid,
                                                    PathId(j as usize),
                                                ));
                                            },
                                        }
                                    } else {
                                        assert(j == id.0 as int);
                                        assert(pr.parents@[pr.parents@.len() - 1] == (
                                            path_id,
                                            PathId(j as usize),
                                        ));
                                    }
                                }
                                assert(resolver_inv(pr));
                            }
                        } else {
                            proof {
                                assert(roots_vals(pi) =~= roots_vals(p1));
                                assert(parents_vals(pi) =~= parents_vals(p1));
                                assert(uses_vals(pi) =~= uses_vals(p1));
                                assert(resolver_inv(pi));
                                assert(p1.paths()[id.0 as int] == Path::Project(path_id, idx));
                                assert(path_val(p1.paths(), id.0 as int) == pv1);
                                let k = choose|k: int|
                                    0 <= k < p1.parents@.len() && (#[trigger] p1.parents@[k]) == (
                                        path_id,
                                        PathId(id.0 as usize),
                                    );
                                assert(path_val(p1.paths(), (#[trigger] p1.parents@[k]).0.0 as int)
                                    == pv0 && path_val(p1.paths(), p1.parents@[k].1.0 as int)
                                    == pv1);
                                assert(parents_vals(p1).contains((pv0, pv1)));
                                assert(roots_vals(p1) =~= roots_vals(p0).union(fe.roots));
                                assert(parents_vals(p1) =~= parents_vals(p0).union(fe.parents));
                                assert(uses_vals(p1) =~= uses_vals(p0).union(fe.uses));
                            }
                        }
                        Some(id)
                    },
                    None => {
                        proof {
                            assert(roots_vals(p1) =~= roots_vals(p0).union(fe.roots));
                            assert(parents_vals(p1) =~= parents_vals(p0).union(fe.parents));
                            assert(uses_vals(p1) =~= uses_vals(p0).union(fe.uses));
                        }
                        None
                    },
                }
            },
            Expr::I32(_) => {
                proof {
                    assert(roots_vals(*paths) =~= roots_vals(*paths).union(fe.roots));
                    assert(parents_vals(*paths) =~= parents_vals(*paths).union(fe.parents));
                    assert(uses_vals(*paths) =~= uses_vals(*paths).union(fe.uses));
                }
                None
            },
            Expr::Str(_) => {
                proof {
                    assert(roots_vals(*paths) =~= roots_vals(*paths).union(fe.roots));
                    assert(parents_vals(*paths) =~= parents_vals(*paths).union(fe.parents));
                    assert(uses_vals(*paths) =~= uses_vals(*paths).union(fe.uses));
                }
                None
            },
        }
    }
}

} // verus!
